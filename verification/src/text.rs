//! Character-level text utilities: decimal rendering, lexicographic
//! comparison, substring search, replacement and digit grouping.
//!
//! All string contents are specified over `Seq<char>` views. Ordering and
//! substring search over characters agree with the byte-wise behaviour of
//! `str` for valid UTF-8, because UTF-8 preserves code-point order and is
//! self-synchronizing.

use vstd::prelude::*;
use vstd::std_specs::iter::IteratorSpec;

verus! {

/// The decimal digit character for a value in `0 ..= 9`.
pub open spec fn digit_char(d: int) -> char {
    if d == 0 {
        '0'
    } else if d == 1 {
        '1'
    } else if d == 2 {
        '2'
    } else if d == 3 {
        '3'
    } else if d == 4 {
        '4'
    } else if d == 5 {
        '5'
    } else if d == 6 {
        '6'
    } else if d == 7 {
        '7'
    } else if d == 8 {
        '8'
    } else {
        '9'
    }
}

/// The decimal representation of `n`, most significant digit first,
/// with no leading zeros except for `n == 0` itself.
pub open spec fn dec_digits(n: nat) -> Seq<char>
    decreases n,
{
    if n < 10 {
        seq![digit_char(n as int)]
    } else {
        dec_digits(n / 10) + seq![digit_char((n % 10) as int)]
    }
}

/// The decimal representation of a possibly negative integer.
pub open spec fn int_dec(i: int) -> Seq<char> {
    if i < 0 {
        seq!['-'] + dec_digits((-i) as nat)
    } else {
        dec_digits(i as nat)
    }
}

/// `a` and `b` agree on the first `i` characters and `a` is decided
/// smaller at position `i`: either `a` ends there while `b` goes on, or
/// the characters differ there in favour of `a`.
pub open spec fn lex_lt_at(a: Seq<char>, b: Seq<char>, i: int) -> bool {
    &&& 0 <= i <= a.len()
    &&& i <= b.len()
    &&& forall|j: int| 0 <= j < i ==> a[j] == b[j]
    &&& ((i == a.len() && i < b.len()) || (i < a.len() && i < b.len() && (a[i] as u32) < (b[i]
        as u32)))
}

/// Strict lexicographic order on character sequences by code point,
/// with a proper prefix ordered before its extensions.
pub open spec fn lex_lt(a: Seq<char>, b: Seq<char>) -> bool {
    exists|i: int| #[trigger] lex_lt_at(a, b, i)
}

/// `needle` occurs contiguously inside `hay`.
pub open spec fn has_substring(hay: Seq<char>, needle: Seq<char>) -> bool {
    exists|i: int|
        0 <= i && i + needle.len() <= hay.len() && #[trigger] hay.subrange(
            i,
            i + needle.len() as int,
        ) == needle
}

/// Every occurrence of `pat` in `s`, scanned left to right without
/// overlap, replaced by `rep`; `pat` must not be empty.
pub open spec fn replace_seq(s: Seq<char>, pat: Seq<char>, rep: Seq<char>) -> Seq<char>
    decreases s.len(),
{
    if pat.len() == 0 || s.len() < pat.len() {
        s
    } else if s.subrange(0, pat.len() as int) == pat {
        rep + replace_seq(s.skip(pat.len() as int), pat, rep)
    } else {
        seq![s[0]] + replace_seq(s.skip(1), pat, rep)
    }
}

/// Digits grouped in threes from the right, separated by commas.
pub open spec fn with_separators(digits: Seq<char>) -> Seq<char>
    decreases digits.len(),
{
    if digits.len() <= 3 {
        digits
    } else {
        with_separators(digits.take(digits.len() - 3)) + seq![','] + digits.skip(
            digits.len() - 3,
        )
    }
}

/// `s` with the escape pairs `\n` and `\"` rewritten to a newline and a
/// plain quote.
pub open spec fn cleaned(s: Seq<char>) -> Seq<char> {
    replace_seq(replace_seq(s, seq!['\\', 'n'], seq!['\n']), seq!['\\', '"'], seq!['"'])
}

/// `s` without leading `'0'` characters.
pub open spec fn trim_zeros_front(s: Seq<char>) -> Seq<char>
    decreases s.len(),
{
    if s.len() > 0 && s[0] == '0' {
        trim_zeros_front(s.skip(1))
    } else {
        s
    }
}

/// `s` without trailing `'0'` characters.
pub open spec fn trim_zeros_back(s: Seq<char>) -> Seq<char>
    decreases s.len(),
{
    if s.len() > 0 && s[s.len() - 1] == '0' {
        trim_zeros_back(s.take(s.len() - 1))
    } else {
        s
    }
}

/// `s` without leading and trailing `'0'` characters.
pub open spec fn trim_zeros(s: Seq<char>) -> Seq<char> {
    trim_zeros_back(trim_zeros_front(s))
}

/// The outcome of a three-way lexicographic comparison.
#[derive(PartialEq, Eq, Structural, Clone, Copy, Debug)]
pub enum TextOrder {
    Less,
    Equal,
    Greater,
}

/// One of `lex_lt(a, b)`, `a == b`, `lex_lt(b, a)` always holds.
pub proof fn lemma_lex_total(a: Seq<char>, b: Seq<char>)
    ensures
        lex_lt(a, b) || lex_lt(b, a) || a == b,
    decreases a.len(),
{
    lemma_lex_total_from(a, b, 0);
}

proof fn lemma_lex_total_from(a: Seq<char>, b: Seq<char>, i: int)
    requires
        0 <= i <= a.len(),
        i <= b.len(),
        forall|j: int| 0 <= j < i ==> a[j] == b[j],
    ensures
        lex_lt(a, b) || lex_lt(b, a) || a == b,
    decreases a.len() - i,
{
    if i < a.len() && i < b.len() {
        if a[i] == b[i] {
            lemma_lex_total_from(a, b, i + 1);
        } else if (a[i] as u32) < (b[i] as u32) {
            assert(lex_lt_at(a, b, i));
        } else {
            vstd::utf8::char_u32_cast(a[i], a[i] as u32);
            vstd::utf8::char_u32_cast(b[i], b[i] as u32);
            assert(lex_lt_at(b, a, i));
        }
    } else if i == a.len() && i == b.len() {
        assert(a =~= b);
    } else if i == a.len() {
        assert(lex_lt_at(a, b, i));
    } else {
        assert(lex_lt_at(b, a, i));
    }
}

/// Strictly ordered sequences are distinct.
pub proof fn lemma_lex_neq(a: Seq<char>, b: Seq<char>)
    requires
        lex_lt(a, b),
    ensures
        a != b,
{
    let k = choose|k: int| #[trigger] lex_lt_at(a, b, k);
    if a == b {
        assert(a[k] == b[k]);
    }
}

/// Lexicographic order is transitive.
pub proof fn lemma_lex_trans(a: Seq<char>, b: Seq<char>, c: Seq<char>)
    requires
        lex_lt(a, b),
        lex_lt(b, c),
    ensures
        lex_lt(a, c),
{
    let i = choose|i: int| #[trigger] lex_lt_at(a, b, i);
    let j = choose|j: int| #[trigger] lex_lt_at(b, c, j);
    if i < j {
        assert(b[i] == c[i]);
        assert(lex_lt_at(a, c, i));
    } else if i == j {
        if i == a.len() {
            assert(lex_lt_at(a, c, i));
        } else {
            assert((a[i] as u32) < (b[i] as u32));
            assert(i < b.len());
            assert((b[i] as u32) < (c[i] as u32) || i == b.len());
            assert(lex_lt_at(a, c, i));
        }
    } else {
        assert(a[j] == b[j]);
        assert(j < i <= a.len());
        assert((b[j] as u32) < (c[j] as u32) || j == b.len());
        assert(j < b.len());
        assert(lex_lt_at(a, c, j));
    }
}

/// The digit character for `d`.
pub fn digit_to_char(d: u64) -> (c: char)
    requires
        d < 10,
    ensures
        c == digit_char(d as int),
{
    match d {
        0 => '0',
        1 => '1',
        2 => '2',
        3 => '3',
        4 => '4',
        5 => '5',
        6 => '6',
        7 => '7',
        8 => '8',
        _ => '9',
    }
}

/// Appends the decimal digits of `n` to `v`.
pub fn push_dec_chars(n: u64, v: &mut Vec<char>)
    ensures
        final(v)@ == old(v)@ + dec_digits(n as nat),
    decreases n,
{
    if n >= 10 {
        push_dec_chars(n / 10, v);
    }
    v.push(digit_to_char(n % 10));
    proof {
        if n < 10 {
            assert(v@ =~= old(v)@ + dec_digits(n as nat));
        } else {
            assert(v@ =~= old(v)@ + dec_digits(n as nat));
        }
    }
}

/// The decimal digits of `n` as characters.
pub fn u64_dec_chars(n: u64) -> (r: Vec<char>)
    ensures
        r@ == dec_digits(n as nat),
{
    let mut v: Vec<char> = Vec::new();
    push_dec_chars(n, &mut v);
    v
}

/// Relies on `String::push`: appends one character.
#[verifier::external_body]
pub fn push_char(s: &mut String, c: char)
    ensures
        final(s)@ == old(s)@.push(c),
{
    s.push(c);
}

/// Builds a `String` holding exactly the given characters.
pub fn chars_to_string(v: &Vec<char>) -> (r: String)
    ensures
        r@ == v@,
{
    let mut s = String::new();
    let mut i: usize = 0;
    while i < v.len()
        invariant
            i <= v.len(),
            s@ == v@.take(i as int),
        decreases v.len() - i,
    {
        push_char(&mut s, v[i]);
        i = i + 1;
        proof {
            assert(s@ =~= v@.take(i as int));
        }
    }
    proof {
        assert(v@.take(v.len() as int) =~= v@);
    }
    s
}

/// The characters of `s` as a vector.
pub fn str_to_chars(s: &str) -> (r: Vec<char>)
    ensures
        r@ == s@,
{
    let mut it = s.chars();
    let mut v: Vec<char> = Vec::new();
    loop
        invariant
            it.obeys_prophetic_iter_laws(),
            it.decrease() is Some,
            v@ + it.remaining() == s@,
        ensures
            v@ == s@,
        decreases it.decrease()->0,
    {
        match it.next() {
            Some(c) => {
                v.push(c);
                proof {
                    assert(v@ + it.remaining() =~= s@);
                }
            },
            None => {
                proof {
                    assert(v@ =~= s@);
                }
                break ;
            },
        }
    }
    v
}

/// The decimal representation of `n`.
pub fn u64_to_dec(n: u64) -> (r: String)
    ensures
        r@ == dec_digits(n as nat),
{
    let chars = u64_dec_chars(n);
    chars_to_string(&chars)
}

/// The decimal representation of `i`, with a leading minus sign when
/// negative.
pub fn i64_to_dec(i: i64) -> (r: String)
    ensures
        r@ == int_dec(i as int),
{
    if i >= 0 {
        u64_to_dec(i as u64)
    } else {
        let m: u64 = if i == i64::MIN {
            9223372036854775808u64
        } else {
            (-i) as u64
        };
        assert(m as nat == (-(i as int)) as nat);
        let mut v: Vec<char> = Vec::new();
        v.push('-');
        push_dec_chars(m, &mut v);
        proof {
            assert(v@ =~= int_dec(i as int));
        }
        chars_to_string(&v)
    }
}

/// The decimal representation of `n`.
pub fn usize_to_dec(n: usize) -> (r: String)
    ensures
        r@ == dec_digits(n as nat),
{
    u64_to_dec(n as u64)
}

/// Three-way lexicographic comparison of two character vectors.
pub fn chars_cmp(a: &Vec<char>, b: &Vec<char>) -> (r: TextOrder)
    ensures
        r is Less <==> lex_lt(a@, b@),
        r is Equal <==> a@ == b@,
        r is Greater <==> lex_lt(b@, a@),
{
    proof {
        lemma_lex_total(a@, b@);
    }
    let mut i: usize = 0;
    loop
        invariant
            i <= a.len(),
            i <= b.len(),
            forall|j: int| 0 <= j < i ==> a@[j] == b@[j],
            lex_lt(a@, b@) || lex_lt(b@, a@) || a@ == b@,
        ensures
            (lex_lt(a@, b@) && !lex_lt(b@, a@) && a@ != b@) || (lex_lt(b@, a@) && !lex_lt(a@, b@)
                && a@ != b@) || (a@ == b@ && !lex_lt(a@, b@) && !lex_lt(b@, a@)),
        decreases a.len() - i,
    {
        if i < a.len() && i < b.len() {
            let ca = a[i];
            let cb = b[i];
            if (ca as u32) < (cb as u32) {
                proof {
                    assert(lex_lt_at(a@, b@, i as int));
                    lemma_lex_not_both(a@, b@, i as int);
                }
                return TextOrder::Less;
            } else if (cb as u32) < (ca as u32) {
                proof {
                    assert(lex_lt_at(b@, a@, i as int));
                    lemma_lex_not_both(b@, a@, i as int);
                }
                return TextOrder::Greater;
            }
            proof {
                vstd::utf8::char_u32_cast(ca, ca as u32);
                vstd::utf8::char_u32_cast(cb, cb as u32);
                assert(ca == cb);
            }
            i = i + 1;
        } else if i == a.len() && i == b.len() {
            proof {
                assert(a@ =~= b@);
                lemma_eq_not_lt(a@, b@);
            }
            return TextOrder::Equal;
        } else if i == a.len() {
            proof {
                assert(lex_lt_at(a@, b@, i as int));
                lemma_lex_not_both(a@, b@, i as int);
            }
            return TextOrder::Less;
        } else {
            proof {
                assert(lex_lt_at(b@, a@, i as int));
                lemma_lex_not_both(b@, a@, i as int);
            }
            return TextOrder::Greater;
        }
    }
}

/// With a common prefix of length `i` and either `a` ending at `i` or the
/// characters differing at `i` in favour of `a`, only `lex_lt(a, b)` holds.
proof fn lemma_lex_not_both(a: Seq<char>, b: Seq<char>, i: int)
    requires
        0 <= i <= a.len(),
        i <= b.len(),
        forall|j: int| 0 <= j < i ==> a[j] == b[j],
        (i == a.len() && i < b.len()) || (i < a.len() && i < b.len() && (a[i] as u32) < (b[i]
            as u32)),
    ensures
        !lex_lt(b, a),
        a != b,
{
    if a == b {
        assert(a.len() == b.len());
        assert(a[i] == b[i]);
    }
    if lex_lt(b, a) {
        let k = choose|k: int| #[trigger] lex_lt_at(b, a, k);
        if k < i {
            assert(a[k] == b[k]);
        } else if k == i {
            assert(false);
        } else {
            assert(b[i] == a[i]);
        }
    }
}

/// Whether `pat` occurs in `s` starting at position `i`.
pub fn is_match_at(s: &Vec<char>, pat: &Vec<char>, i: usize) -> (r: bool)
    requires
        i + pat.len() <= s.len(),
    ensures
        r == (s@.subrange(i as int, i + pat@.len()) == pat@),
{
    let mut j: usize = 0;
    while j < pat.len()
        invariant
            j <= pat.len(),
            i + pat.len() <= s.len(),
            forall|k: int| 0 <= k < j ==> s@[i + k] == pat@[k],
        decreases pat.len() - j,
    {
        if s[i + j] != pat[j] {
            proof {
                assert(s@.subrange(i as int, i + pat@.len())[j as int] != pat@[j as int]);
            }
            return false;
        }
        j = j + 1;
    }
    proof {
        assert(s@.subrange(i as int, i + pat@.len()) =~= pat@);
    }
    true
}

/// Whether `needle` occurs anywhere in `hay`.
pub fn contains_chars(hay: &Vec<char>, needle: &Vec<char>) -> (r: bool)
    ensures
        r == has_substring(hay@, needle@),
{
    if needle.len() > hay.len() {
        return false;
    }
    let last = hay.len() - needle.len();
    let mut i: usize = 0;
    while i < last
        invariant
            needle.len() <= hay.len(),
            last == hay.len() - needle.len(),
            i <= last,
            forall|k: int|
                0 <= k < i ==> #[trigger] hay@.subrange(k, k + needle@.len()) != needle@,
        decreases last - i,
    {
        if is_match_at(hay, needle, i) {
            return true;
        }
        i = i + 1;
    }
    is_match_at(hay, needle, last)
}

/// Replaces every occurrence of `pat` in `s`, left to right, by `rep`.
pub fn replace_chars(s: &Vec<char>, pat: &Vec<char>, rep: &Vec<char>) -> (r: Vec<char>)
    requires
        pat.len() >= 1,
    ensures
        r@ == replace_seq(s@, pat@, rep@),
{
    let mut out: Vec<char> = Vec::new();
    let mut i: usize = 0;
    proof {
        assert(s@.skip(0) =~= s@);
    }
    while pat.len() <= s.len() && i <= s.len() - pat.len()
        invariant
            i <= s.len(),
            pat@.len() >= 1,
            replace_seq(s@, pat@, rep@) == out@ + replace_seq(s@.skip(i as int), pat@, rep@),
        decreases s.len() - i,
    {
        let ghost prev = i as int;
        if is_match_at(s, pat, i) {
            out.extend_from_slice(rep.as_slice());
            i = i + pat.len();
            proof {
                assert(s@.skip(prev).subrange(0, pat@.len() as int) =~= s@.subrange(
                    prev,
                    prev + pat@.len(),
                ));
                assert(s@.skip(prev).skip(pat@.len() as int) =~= s@.skip(i as int));
                assert(replace_seq(s@, pat@, rep@) =~= out@ + replace_seq(
                    s@.skip(i as int),
                    pat@,
                    rep@,
                ));
            }
        } else {
            out.push(s[i]);
            i = i + 1;
            proof {
                assert(s@.skip(prev).subrange(0, pat@.len() as int) =~= s@.subrange(
                    prev,
                    prev + pat@.len(),
                ));
                assert(s@.skip(prev).skip(1) =~= s@.skip(i as int));
                assert(seq![s@.skip(prev)[0]] =~= seq![s@[prev]]);
                assert(replace_seq(s@, pat@, rep@) =~= out@ + replace_seq(
                    s@.skip(i as int),
                    pat@,
                    rep@,
                ));
            }
        }
    }
    while i < s.len()
        invariant
            i <= s.len(),
            pat@.len() >= 1,
            s@.len() < i + pat@.len(),
            replace_seq(s@, pat@, rep@) == out@ + replace_seq(s@.skip(i as int), pat@, rep@),
        decreases s.len() - i,
    {
        let ghost prev = i as int;
        out.push(s[i]);
        i = i + 1;
        proof {
            assert(s@.skip(prev).len() < pat@.len());
            assert(s@.skip(i as int) =~= s@.skip(prev).skip(1));
            assert(out@ + s@.skip(i as int) =~= out@.drop_last() + s@.skip(prev));
            assert(replace_seq(s@, pat@, rep@) =~= out@ + replace_seq(
                s@.skip(i as int),
                pat@,
                rep@,
            ));
        }
    }
    proof {
        assert(s@.skip(i as int) =~= Seq::<char>::empty());
        assert(replace_seq(s@, pat@, rep@) =~= out@);
    }
    out
}

proof fn lemma_trim_front_skip(s: Seq<char>, k: int)
    requires
        0 <= k <= s.len(),
        forall|j: int| 0 <= j < k ==> s[j] == '0',
        k == s.len() || s[k] != '0',
    ensures
        trim_zeros_front(s) == s.skip(k),
    decreases k,
{
    if k == 0 {
        assert(s.skip(0) =~= s);
    } else {
        assert(s[0] == '0');
        lemma_trim_front_skip(s.skip(1), k - 1);
        assert(s.skip(1).skip(k - 1) =~= s.skip(k));
    }
}

proof fn lemma_trim_back_take(s: Seq<char>, m: int)
    requires
        0 <= m <= s.len(),
        forall|j: int| m <= j < s.len() ==> s[j] == '0',
        m == 0 || s[m - 1] != '0',
    ensures
        trim_zeros_back(s) == s.take(m),
    decreases s.len() - m,
{
    if m == s.len() {
        assert(s.take(m) =~= s);
    } else {
        assert(s[s.len() - 1] == '0');
        lemma_trim_back_take(s.take(s.len() - 1), m);
        assert(s.take(s.len() - 1).take(m) =~= s.take(m));
    }
}

/// `v` without leading and trailing `'0'` characters.
pub fn trim_zero_chars(v: &Vec<char>) -> (r: Vec<char>)
    ensures
        r@ == trim_zeros(v@),
{
    let mut start: usize = 0;
    while start < v.len() && v[start] == '0'
        invariant
            start <= v.len(),
            forall|j: int| 0 <= j < start ==> v@[j] == '0',
        decreases v.len() - start,
    {
        start = start + 1;
    }
    proof {
        lemma_trim_front_skip(v@, start as int);
    }
    let mut end: usize = v.len();
    while end > start && v[end - 1] == '0'
        invariant
            start <= end <= v.len(),
            forall|j: int| end <= j < v.len() ==> v@[j] == '0',
        decreases end,
    {
        end = end - 1;
    }
    proof {
        lemma_trim_back_take(v@.skip(start as int), end - start as int);
    }
    let mut r: Vec<char> = Vec::new();
    let mut i: usize = start;
    while i < end
        invariant
            start <= i <= end <= v.len(),
            r@ == v@.subrange(start as int, i as int),
        decreases end - i,
    {
        r.push(v[i]);
        i = i + 1;
        proof {
            assert(r@ =~= v@.subrange(start as int, i as int));
        }
    }
    proof {
        assert(r@ =~= v@.skip(start as int).take(end - start as int));
    }
    r
}

fn sep_rec(digits: &Vec<char>, end: usize) -> (r: Vec<char>)
    requires
        end <= digits.len(),
    ensures
        r@ == with_separators(digits@.take(end as int)),
    decreases end,
{
    if end <= 3 {
        let mut r: Vec<char> = Vec::new();
        let mut i: usize = 0;
        while i < end
            invariant
                i <= end <= digits.len(),
                r@ == digits@.take(i as int),
            decreases end - i,
        {
            r.push(digits[i]);
            i = i + 1;
            proof {
                assert(r@ =~= digits@.take(i as int));
            }
        }
        r
    } else {
        let mut r = sep_rec(digits, end - 3);
        r.push(',');
        r.push(digits[end - 3]);
        r.push(digits[end - 2]);
        r.push(digits[end - 1]);
        proof {
            let d = digits@.take(end as int);
            assert(d.take(d.len() - 3) =~= digits@.take(end - 3));
            assert(r@ =~= with_separators(d.take(d.len() - 3)) + seq![','] + d.skip(d.len() - 3));
        }
        r
    }
}

/// The decimal representation of `value` with comma separators every
/// three digits from the right.
pub fn as_string_with_separators(value: usize) -> (r: String)
    ensures
        r@ == with_separators(dec_digits(value as nat)),
{
    let digits = u64_dec_chars(value as u64);
    let grouped = sep_rec(&digits, digits.len());
    proof {
        assert(digits@.take(digits@.len() as int) =~= digits@);
    }
    chars_to_string(&grouped)
}

/// Rewrites the escape pairs `\n` and `\"` in `msg` to a newline and a
/// plain quote.
pub fn clean_msg(msg: &str) -> (r: String)
    ensures
        r@ == cleaned(msg@),
{
    let chars = str_to_chars(msg);
    let pat_newline: Vec<char> = vec!['\\', 'n'];
    let rep_newline: Vec<char> = vec!['\n'];
    let pat_quote: Vec<char> = vec!['\\', '"'];
    let rep_quote: Vec<char> = vec!['"'];
    proof {
        assert(pat_newline@ =~= seq!['\\', 'n']);
        assert(rep_newline@ =~= seq!['\n']);
        assert(pat_quote@ =~= seq!['\\', '"']);
        assert(rep_quote@ =~= seq!['"']);
    }
    let pass_one = replace_chars(&chars, &pat_newline, &rep_newline);
    let pass_two = replace_chars(&pass_one, &pat_quote, &rep_quote);
    chars_to_string(&pass_two)
}

/// The case-folded form that `str::to_lowercase` returns, named; the
/// result depends on the characters alone.
pub uninterp spec fn lowercase_of(s: Seq<char>) -> Seq<char>;

/// Relies on `str::to_lowercase`: the result is a pure function of the
/// input characters.
#[verifier::external_body]
pub fn to_lowercase(s: &str) -> (r: String)
    ensures
        r@ == lowercase_of(s@),
{
    s.to_lowercase()
}

proof fn lemma_eq_not_lt(a: Seq<char>, b: Seq<char>)
    requires
        a == b,
    ensures
        !lex_lt(a, b),
        !lex_lt(b, a),
{
    if lex_lt(a, b) {
        let k = choose|k: int| #[trigger] lex_lt_at(a, b, k);
        assert(a[k] == b[k]);
    }
    if lex_lt(b, a) {
        let k = choose|k: int| #[trigger] lex_lt_at(b, a, k);
        assert(a[k] == b[k]);
    }
}

} // verus!
