//! Deterministic, lossless text serialization of record contents. A
//! record's fields are written as length-prefixed chunks, so any text
//! can be carried; the display cache is never written and is rebuilt
//! from field data after a restore. The round trip is proved: any
//! record's serialized text deserializes successfully, and records with
//! the same serialized text agree on every persisted field.

use crate::record::{sorted_fields, LogRow};
use crate::text::{chars_cmp, chars_to_string, dec_digits, digit_char, i64_to_dec, int_dec,
    str_to_chars, TextOrder};
use crate::value::JsonValue;
use vstd::prelude::*;

verus! {

/// A length-prefixed chunk: the decimal length, a colon, the content.
pub open spec fn chunk(s: Seq<char>) -> Seq<char> {
    dec_digits(s.len()) + seq![':'] + s
}

/// One serialized value: a tag for the variant and its text as a chunk.
pub open spec fn ser_value(v: JsonValue) -> Seq<char> {
    match v {
        JsonValue::Str(s) => seq!['s'] + chunk(s@),
        JsonValue::Int(i) => seq!['i'] + chunk(int_dec(i as int)),
        JsonValue::Other(t) => seq!['o'] + chunk(t@),
    }
}

/// One serialized field: the name chunk followed by the value.
pub open spec fn ser_field(p: (String, JsonValue)) -> Seq<char> {
    chunk(p.0@) + ser_value(p.1)
}

/// A whole field list, serialized field by field in order.
pub open spec fn ser_fields(fields: Seq<(String, JsonValue)>) -> Seq<char>
    decreases fields.len(),
{
    if fields.len() == 0 {
        Seq::empty()
    } else {
        ser_field(fields[0]) + ser_fields(fields.drop_first())
    }
}

/// Two field lists agree on every persisted field: same length, same
/// names, same value contents.
pub open spec fn fields_equivalent(
    a: Seq<(String, JsonValue)>,
    b: Seq<(String, JsonValue)>,
) -> bool {
    &&& a.len() == b.len()
    &&& forall|i: int|
        0 <= i < a.len() ==> (#[trigger] a[i]).0@ == b[i].0@ && a[i].1.view_spec()
            == b[i].1.view_spec()
}

/// Serializing one more field appends its text.
proof fn lemma_ser_fields_push(fields: Seq<(String, JsonValue)>, f: (String, JsonValue))
    ensures
        ser_fields(fields.push(f)) == ser_fields(fields) + ser_field(f),
    decreases fields.len(),
{
    if fields.len() == 0 {
        assert(fields.push(f)[0] == f);
        assert(fields.push(f).drop_first() =~= fields);
        assert(ser_fields(fields.push(f)) =~= ser_fields(fields) + ser_field(f));
    } else {
        assert(fields.push(f)[0] == fields[0]);
        assert(fields.push(f).drop_first() =~= fields.drop_first().push(f));
        lemma_ser_fields_push(fields.drop_first(), f);
        assert(ser_fields(fields.push(f)) =~= ser_fields(fields) + ser_field(f));
    }
}

/// Appends a chunk for `content` to `out`.
fn push_chunk(out: &mut Vec<char>, content: &Vec<char>)
    ensures
        final(out)@ == old(out)@ + chunk(content@),
{
    crate::text::push_dec_chars(content.len() as u64, out);
    out.push(':');
    let mut i: usize = 0;
    while i < content.len()
        invariant
            i <= content@.len(),
            out@ == old(out)@ + dec_digits(content@.len()) + seq![':'] + content@.take(i as int),
        decreases content@.len() - i,
    {
        out.push(content[i]);
        i = i + 1;
        proof {
            assert(out@ =~= old(out)@ + dec_digits(content@.len()) + seq![':'] + content@.take(
                i as int,
            ));
        }
    }
    proof {
        assert(out@ =~= old(out)@ + chunk(content@));
    }
}

/// Whether a character is a decimal digit.
pub open spec fn is_digit(c: char) -> bool {
    48 <= c as u32 <= 57
}

/// The numeric value of a digit character.
pub open spec fn digit_val(c: char) -> nat
    recommends
        is_digit(c),
{
    (c as u32 - 48) as nat
}

/// The value a run of digit characters denotes, most significant first.
pub open spec fn dec_value(ds: Seq<char>) -> nat
    decreases ds.len(),
{
    if ds.len() == 0 {
        0
    } else {
        dec_value(ds.drop_last()) * 10 + digit_val(ds.last())
    }
}

/// A decimal representation consists of digits and denotes its value.
proof fn lemma_dec_digits_value(n: nat)
    ensures
        dec_value(dec_digits(n)) == n,
        forall|j: int| 0 <= j < dec_digits(n).len() ==> is_digit(#[trigger] dec_digits(n)[j]),
    decreases n,
{
    if n < 10 {
        assert(dec_digits(n)[0] == digit_char(n as int));
        assert(dec_digits(n).drop_last() =~= Seq::<char>::empty());
        assert(digit_val(digit_char(n as int)) == n);
        assert(dec_digits(n).last() == digit_char(n as int));
        assert(dec_digits(n).len() == 1);
        assert(dec_value(Seq::<char>::empty()) == 0);
        assert(dec_value(dec_digits(n)) == dec_value(dec_digits(n).drop_last()) * 10 + digit_val(
            dec_digits(n).last(),
        ));
    } else {
        lemma_dec_digits_value(n / 10);
        assert(digit_val(digit_char((n % 10) as int)) == n % 10);
        assert((n / 10) * 10 + n % 10 == n);
        assert(dec_digits(n).drop_last() =~= dec_digits(n / 10));
        assert(dec_digits(n).last() == digit_char((n % 10) as int));
        assert(dec_digits(n).len() >= 1);
        assert(dec_value(dec_digits(n)) == dec_value(dec_digits(n).drop_last()) * 10 + digit_val(
            dec_digits(n).last(),
        ));
        assert forall|j: int|
            0 <= j < dec_digits(n).len() implies is_digit(#[trigger] dec_digits(n)[j]) by {
            if j < dec_digits(n / 10).len() {
                assert(dec_digits(n)[j] == dec_digits(n / 10)[j]);
            } else {
                assert(dec_digits(n)[j] == digit_char((n % 10) as int));
            }
        }
    }
}

/// A digit run's prefix denotes at most the whole run's value.
proof fn lemma_dec_value_prefix(ds: Seq<char>, j: int)
    requires
        0 <= j <= ds.len(),
    ensures
        dec_value(ds.take(j)) <= dec_value(ds),
    decreases ds.len() - j,
{
    if j == ds.len() {
        assert(ds.take(j) =~= ds);
    } else {
        lemma_dec_value_prefix(ds, j + 1);
        assert(ds.take(j + 1).drop_last() =~= ds.take(j));
        assert(ds.take(j + 1).last() == ds[j]);
        assert(dec_value(ds.take(j)) <= dec_value(ds.take(j)) * 10 + digit_val(ds[j]));
    }
}

/// Decimal digit characters are digits: never a colon, never a minus
/// sign.
proof fn lemma_dec_digits_are_digits(n: nat)
    ensures
        forall|j: int|
            0 <= j < dec_digits(n).len() ==> (#[trigger] dec_digits(n)[j]) != ':' && dec_digits(
                n,
            )[j] != '-',
    decreases n,
{
    if n < 10 {
        assert(dec_digits(n)[0] == digit_char(n as int));
    } else {
        lemma_dec_digits_are_digits(n / 10);
        assert forall|j: int|
            0 <= j < dec_digits(n).len() implies (#[trigger] dec_digits(n)[j]) != ':' && dec_digits(
            n,
        )[j] != '-' by {
            if j < dec_digits(n / 10).len() {
                assert(dec_digits(n)[j] == dec_digits(n / 10)[j]);
            } else {
                assert(dec_digits(n)[j] == digit_char((n % 10) as int));
            }
        }
    }
}

/// A decimal representation has at least one digit, and two when the
/// value is ten or more.
proof fn lemma_dec_digits_len(n: nat)
    ensures
        dec_digits(n).len() >= 1,
        n >= 10 ==> dec_digits(n).len() >= 2,
    decreases n,
{
    if n >= 10 {
        lemma_dec_digits_len(n / 10);
    }
}

/// Decimal representation is injective.
proof fn lemma_dec_digits_injective(a: nat, b: nat)
    requires
        dec_digits(a) == dec_digits(b),
    ensures
        a == b,
    decreases a,
{
    lemma_dec_digits_len(a);
    lemma_dec_digits_len(b);
    if a < 10 && b < 10 {
        assert(dec_digits(a)[0] == digit_char(a as int));
        assert(dec_digits(b)[0] == digit_char(b as int));
    } else if a < 10 {
        assert(dec_digits(a).len() == 1);
    } else if b < 10 {
        assert(dec_digits(b).len() == 1);
    } else {
        assert(dec_digits(a).last() == digit_char((a % 10) as int));
        assert(dec_digits(b).last() == digit_char((b % 10) as int));
        assert(a % 10 == b % 10);
        assert(dec_digits(a).drop_last() =~= dec_digits(a / 10));
        assert(dec_digits(b).drop_last() =~= dec_digits(b / 10));
        lemma_dec_digits_injective(a / 10, b / 10);
    }
}

/// A chunk determines its content and what follows it.
proof fn lemma_chunk_injective(x: Seq<char>, y: Seq<char>, r1: Seq<char>, r2: Seq<char>)
    requires
        chunk(x) + r1 == chunk(y) + r2,
    ensures
        x == y,
        r1 == r2,
{
    let s = chunk(x) + r1;
    let dx = dec_digits(x.len());
    let dy = dec_digits(y.len());
    lemma_dec_digits_are_digits(x.len());
    lemma_dec_digits_are_digits(y.len());
    assert(s[dx.len() as int] == ':');
    assert(s[dy.len() as int] == ':') by {
        assert((chunk(y) + r2)[dy.len() as int] == ':');
    }
    if dx.len() < dy.len() {
        assert(s[dx.len() as int] == dy[dx.len() as int]) by {
            assert((chunk(y) + r2)[dx.len() as int] == dy[dx.len() as int]);
        }
        assert(false);
    }
    if dy.len() < dx.len() {
        assert(s[dy.len() as int] == dx[dy.len() as int]);
        assert(false);
    }
    let l = dx.len() as int;
    assert(dx =~= s.take(l));
    assert(dy =~= s.take(l)) by {
        assert forall|j: int| 0 <= j < l implies dy[j] == s[j] by {
            assert((chunk(y) + r2)[j] == dy[j]);
        }
    }
    lemma_dec_digits_injective(x.len(), y.len());
    assert(x =~= s.subrange(l + 1, l + 1 + x.len()));
    assert(y =~= s.subrange(l + 1, l + 1 + y.len())) by {
        assert forall|j: int| 0 <= j < y.len() implies y[j] == s[l + 1 + j] by {
            assert((chunk(y) + r2)[l + 1 + j] == y[j]);
        }
    }
    assert(r1 =~= s.skip(l + 1 + x.len()));
    assert(r2 =~= s.skip(l + 1 + y.len())) by {
        assert forall|j: int| 0 <= j < r2.len() implies r2[j] == s[l + 1 + y.len() + j] by {
            assert((chunk(y) + r2)[l + 1 + y.len() + j] == r2[j]);
        }
    }
}

/// Integer text is injective.
proof fn lemma_int_dec_injective(a: int, b: int)
    requires
        int_dec(a) == int_dec(b),
    ensures
        a == b,
{
    lemma_dec_digits_len(if a < 0 {
        (-a) as nat
    } else {
        a as nat
    });
    lemma_dec_digits_len(if b < 0 {
        (-b) as nat
    } else {
        b as nat
    });
    if a < 0 && b < 0 {
        assert(int_dec(a).drop_first() =~= dec_digits((-a) as nat));
        assert(int_dec(b).drop_first() =~= dec_digits((-b) as nat));
        lemma_dec_digits_injective((-a) as nat, (-b) as nat);
    } else if a < 0 {
        lemma_dec_digits_are_digits(b as nat);
        assert(int_dec(a)[0] == '-');
        assert(int_dec(b)[0] == dec_digits(b as nat)[0]);
        assert(false);
    } else if b < 0 {
        lemma_dec_digits_are_digits(a as nat);
        assert(int_dec(b)[0] == '-');
        assert(int_dec(a)[0] == dec_digits(a as nat)[0]);
        assert(false);
    } else {
        lemma_dec_digits_injective(a as nat, b as nat);
    }
}

/// A serialized value determines the value's contents and what follows.
proof fn lemma_ser_value_injective(v1: JsonValue, v2: JsonValue, r1: Seq<char>, r2: Seq<char>)
    requires
        ser_value(v1) + r1 == ser_value(v2) + r2,
    ensures
        v1.view_spec() == v2.view_spec(),
        r1 == r2,
{
    let s = ser_value(v1) + r1;
    assert((ser_value(v2) + r2)[0] == ser_value(v2)[0]);
    assert(s[0] == ser_value(v1)[0]);
    match (v1, v2) {
        (JsonValue::Str(a), JsonValue::Str(b)) => {
            assert(chunk(a@) + r1 =~= s.drop_first());
            assert(chunk(b@) + r2 =~= s.drop_first()) by {
                assert(ser_value(v2) + r2 =~= seq!['s'] + (chunk(b@) + r2));
            }
            lemma_chunk_injective(a@, b@, r1, r2);
        },
        (JsonValue::Int(a), JsonValue::Int(b)) => {
            assert(chunk(int_dec(a as int)) + r1 =~= s.drop_first());
            assert(chunk(int_dec(b as int)) + r2 =~= s.drop_first()) by {
                assert(ser_value(v2) + r2 =~= seq!['i'] + (chunk(int_dec(b as int)) + r2));
            }
            lemma_chunk_injective(int_dec(a as int), int_dec(b as int), r1, r2);
            lemma_int_dec_injective(a as int, b as int);
        },
        (JsonValue::Other(a), JsonValue::Other(b)) => {
            assert(chunk(a@) + r1 =~= s.drop_first());
            assert(chunk(b@) + r2 =~= s.drop_first()) by {
                assert(ser_value(v2) + r2 =~= seq!['o'] + (chunk(b@) + r2));
            }
            lemma_chunk_injective(a@, b@, r1, r2);
        },
        _ => {
            assert(false);
        },
    }
}

/// Serialized field lists determine every persisted field: two field
/// lists with the same serialized text have the same length and agree
/// on every name and value content. This is the losslessness of the
/// record serialization: together with the contracts of `serialize`
/// and `deserialize`, a record deserialized from another's serialized
/// text is equal to it in all persisted fields, the display cache
/// excluded.
pub proof fn lemma_serialize_lossless(a: Seq<(String, JsonValue)>, b: Seq<(String, JsonValue)>)
    requires
        ser_fields(a) == ser_fields(b),
    ensures
        fields_equivalent(a, b),
    decreases a.len(),
{
    if a.len() == 0 || b.len() == 0 {
        if a.len() != b.len() {
            let nonempty = if a.len() > 0 {
                a
            } else {
                b
            };
            lemma_dec_digits_len(nonempty[0].0@.len());
            assert(ser_fields(nonempty).len() > 0);
            assert(false);
        }
    } else {
        let s = ser_fields(a);
        assert(chunk(a[0].0@) + (ser_value(a[0].1) + ser_fields(a.drop_first())) =~= s);
        assert(chunk(b[0].0@) + (ser_value(b[0].1) + ser_fields(b.drop_first())) =~= s);
        lemma_chunk_injective(
            a[0].0@,
            b[0].0@,
            ser_value(a[0].1) + ser_fields(a.drop_first()),
            ser_value(b[0].1) + ser_fields(b.drop_first()),
        );
        lemma_ser_value_injective(
            a[0].1,
            b[0].1,
            ser_fields(a.drop_first()),
            ser_fields(b.drop_first()),
        );
        lemma_serialize_lossless(a.drop_first(), b.drop_first());
        assert forall|i: int|
            0 <= i < a.len() implies (#[trigger] a[i]).0@ == b[i].0@ && a[i].1.view_spec()
            == b[i].1.view_spec() by {
            if i > 0 {
                assert(a[i] == a.drop_first()[i - 1]);
                assert(b[i] == b.drop_first()[i - 1]);
            }
        }
    }
}

/// The serialized text of a field list.
fn ser_fields_exec(fields: &Vec<(String, JsonValue)>) -> (r: Vec<char>)
    ensures
        r@ == ser_fields(fields@),
{
    {
        let mut out: Vec<char> = Vec::new();
        let mut i: usize = 0;
        proof {
            assert(ser_fields(fields@.take(0)) =~= Seq::<char>::empty());
        }
        while i < fields.len()
            invariant
                i <= fields@.len(),
                out@ == ser_fields(fields@.take(i as int)),
            decreases fields@.len() - i,
        {
            let ghost prefix = fields@.take(i as int);
            let name_chars = str_to_chars(fields[i].0.as_str());
            push_chunk(&mut out, &name_chars);
            match &fields[i].1 {
                JsonValue::Str(s) => {
                    out.push('s');
                    let content = str_to_chars(s.as_str());
                    push_chunk(&mut out, &content);
                },
                JsonValue::Int(v) => {
                    out.push('i');
                    let text = i64_to_dec(*v);
                    let content = str_to_chars(text.as_str());
                    push_chunk(&mut out, &content);
                },
                JsonValue::Other(t) => {
                    out.push('o');
                    let content = str_to_chars(t.as_str());
                    push_chunk(&mut out, &content);
                },
            }
            i = i + 1;
            proof {
                let now = fields@.take(i as int);
                assert(now.drop_last() =~= prefix);
                assert(now.last() == fields@[i - 1]);
                lemma_ser_fields_push(prefix, fields@[i - 1]);
                assert(now =~= prefix.push(fields@[i - 1]));
                assert(out@ =~= ser_fields(now));
            }
        }
        proof {
            assert(fields@.take(i as int) =~= fields@);
        }
        out
    }
}

impl LogRow {
    /// The record's persisted fields, serialized deterministically; the
    /// display cache is not written.
    pub fn serialize(&self) -> (r: String)
        ensures
            r@ == ser_fields(self.fields_view()),
    {
        let out = ser_fields_exec(self.fields_ref());
        chars_to_string(&out)
    }

    /// Restores a record from serialized text. Exactly the canonical
    /// serializations of sorted field lists are accepted: restoring any
    /// record's serialized text succeeds, the restored fields serialize
    /// back to the input, and by the losslessness law they agree with
    /// the serialized record on every persisted field. The display
    /// cache starts empty.
    pub fn deserialize(s: &str) -> (r: Option<LogRow>)
        ensures
            r matches Some(row) ==> row.wf() && row.cache_view() is None && ser_fields(
                row.fields_view(),
            ) == s@,
            forall|fs: Seq<(String, JsonValue)>|
                sorted_fields(fs) && #[trigger] ser_fields(fs) == s@ ==> r is Some,
            s@.len() == 0 ==> (r matches Some(row) && row.fields_view().len() == 0),
    {
        let chars = str_to_chars(s);
        let mut fields: Vec<(String, JsonValue)> = Vec::new();
        let mut pos: usize = 0;
        proof {
            assert forall|fs: Seq<(String, JsonValue)>|
                sorted_fields(fs) && #[trigger] ser_fields(fs) == s@ implies fields@.len()
                <= fs.len() && fields_equivalent(fields@, fs.take(fields@.len() as int))
                && chars@.skip(pos as int) == ser_fields(fs.skip(fields@.len() as int)) by {
                assert(fs.take(0) =~= Seq::<(String, JsonValue)>::empty());
                assert(fs.skip(0) =~= fs);
                assert(chars@.skip(0) =~= chars@);
            }
        }
        while pos < chars.len()
            invariant
                pos <= chars@.len(),
                chars@ == s@,
                chars@.len() == 0 ==> fields@.len() == 0,
                forall|fs: Seq<(String, JsonValue)>|
                    sorted_fields(fs) && #[trigger] ser_fields(fs) == s@ ==> fields@.len()
                        <= fs.len() && fields_equivalent(fields@, fs.take(fields@.len() as int))
                        && chars@.skip(pos as int) == ser_fields(fs.skip(fields@.len() as int)),
            decreases chars@.len() - pos,
        {
            let ghost k = fields@.len() as int;
            let name = match parse_chunk(&chars, pos) {
                Some(x) => x,
                None => {
                    proof {
                        assert forall|fs: Seq<(String, JsonValue)>|
                            sorted_fields(fs) && #[trigger] ser_fields(fs) == s@ implies false by {
                            lemma_deser_iteration(chars@, pos as int, k, fs);
                        }
                    }
                    return None;
                },
            };
            let p1 = name.1;
            proof {
                assert forall|fs: Seq<(String, JsonValue)>|
                    sorted_fields(fs) && #[trigger] ser_fields(fs) == s@ implies p1
                    < chars@.len() && name.0@ == fs[k].0@ && chars@[p1 as int] == value_tag(
                    fs[k].1,
                ) && chars@.skip(p1 + 1) == chunk(value_text(fs[k].1)) + ser_fields(
                    fs.skip(k + 1),
                ) by {
                    lemma_deser_iteration(chars@, pos as int, k, fs);
                    assert(p1 == pos + chunk(fs[k].0@).len());
                }
            }
            if p1 >= chars.len() {
                proof {
                    assert forall|fs: Seq<(String, JsonValue)>|
                        sorted_fields(fs) && #[trigger] ser_fields(fs) == s@ implies false by {}
                }
                return None;
            }
            let tag = chars[p1];
            let payload = match parse_chunk(&chars, p1 + 1) {
                Some(x) => x,
                None => {
                    proof {
                        assert forall|fs: Seq<(String, JsonValue)>|
                            sorted_fields(fs) && #[trigger] ser_fields(fs) == s@ implies false by {}
                    }
                    return None;
                },
            };
            let p2 = payload.1;
            proof {
                assert forall|fs: Seq<(String, JsonValue)>|
                    sorted_fields(fs) && #[trigger] ser_fields(fs) == s@ implies payload.0@
                    == value_text(fs[k].1) && p2 == p1 + 1 + chunk(value_text(fs[k].1)).len()
                    && chars@.skip(p2 as int) == ser_fields(fs.skip(k + 1)) by {
                    lemma_deser_iteration(chars@, pos as int, k, fs);
                    assert(p1 == pos + chunk(fs[k].0@).len());
                }
            }
            let value = if tag == 's' {
                JsonValue::Str(payload.0)
            } else if tag == 'i' {
                match parse_i64(&payload.0) {
                    Some(v) => JsonValue::Int(v),
                    None => {
                        proof {
                            assert forall|fs: Seq<(String, JsonValue)>|
                                sorted_fields(fs) && #[trigger] ser_fields(fs) == s@ implies false by {
                                assert(fs[k].1 matches JsonValue::Int(v0) && payload.0@ == int_dec(
                                    v0 as int,
                                ));
                            }
                        }
                        return None;
                    },
                }
            } else if tag == 'o' {
                JsonValue::Other(payload.0)
            } else {
                proof {
                    assert forall|fs: Seq<(String, JsonValue)>|
                        sorted_fields(fs) && #[trigger] ser_fields(fs) == s@ implies false by {}
                }
                return None;
            };
            proof {
                assert forall|fs: Seq<(String, JsonValue)>|
                    sorted_fields(fs) && #[trigger] ser_fields(fs) == s@ implies value.view_spec()
                    == fs[k].1.view_spec() by {
                    match fs[k].1 {
                        JsonValue::Str(_) => {},
                        JsonValue::Int(v0) => {
                            assert(payload.0@ == int_dec(v0 as int));
                        },
                        JsonValue::Other(_) => {},
                    }
                }
            }
            let ghost fields_before = fields@;
            fields.push((name.0, value));
            pos = p2;
            proof {
                assert forall|fs: Seq<(String, JsonValue)>|
                    sorted_fields(fs) && #[trigger] ser_fields(fs) == s@ implies fields@.len()
                    <= fs.len() && fields_equivalent(fields@, fs.take(fields@.len() as int))
                    && chars@.skip(pos as int) == ser_fields(fs.skip(fields@.len() as int)) by {
                    assert(fields@.len() == k + 1);
                    assert forall|i: int|
                        0 <= i < fields@.len() implies (#[trigger] fields@[i]).0@ == fs.take(
                        k + 1,
                    )[i].0@ && fields@[i].1.view_spec() == fs.take(k + 1)[i].1.view_spec() by {
                        if i < k {
                            assert(fields@[i] == fields_before[i]);
                            assert(fs.take(k)[i] == fs.take(k + 1)[i]);
                        } else {
                            assert(fields@[i] == (name.0, value));
                            assert(fs.take(k + 1)[i] == fs[k]);
                        }
                    }
                }
            }
        }
        proof {
            assert forall|fs: Seq<(String, JsonValue)>|
                sorted_fields(fs) && #[trigger] ser_fields(fs) == s@ implies fields_equivalent(
                fields@,
                fs,
            ) by {
                let k = fields@.len() as int;
                if k < fs.len() {
                    lemma_ser_fields_nonempty(fs.skip(k));
                    assert(chars@.skip(pos as int).len() == 0);
                    assert(false);
                }
                assert(fs.take(k) =~= fs);
            }
        }
        let mut k: usize = 1;
        while k < fields.len()
            invariant
                1 <= k,
                chars@ == s@,
                chars@.len() == 0 ==> fields@.len() == 0,
                forall|fs: Seq<(String, JsonValue)>|
                    sorted_fields(fs) && #[trigger] ser_fields(fs) == s@ ==> fields_equivalent(
                        fields@,
                        fs,
                    ),
                forall|j: int|
                    0 <= j && j + 1 < k ==> crate::text::lex_lt(
                        (#[trigger] fields@[j]).0@,
                        fields@[j + 1].0@,
                    ),
            decreases fields@.len() - k,
        {
            let prev_chars = str_to_chars(fields[k - 1].0.as_str());
            let here_chars = str_to_chars(fields[k].0.as_str());
            if !matches!(chars_cmp(&prev_chars, &here_chars), TextOrder::Less) {
                proof {
                    assert forall|fs: Seq<(String, JsonValue)>|
                        sorted_fields(fs) && #[trigger] ser_fields(fs) == s@ implies false by {
                        assert(fields@[k - 1].0@ == fs[k - 1].0@);
                        assert(fields@[k as int].0@ == fs[k as int].0@);
                        assert(crate::text::lex_lt(fs[k - 1].0@, fs[k as int].0@));
                    }
                }
                return None;
            }
            k = k + 1;
        }
        let reserialized = ser_fields_exec(&fields);
        proof {
            if s@.len() == 0 {
                assert(fields@.len() == 0);
                assert(reserialized@ =~= Seq::<char>::empty());
            }
            assert forall|fs: Seq<(String, JsonValue)>|
                sorted_fields(fs) && #[trigger] ser_fields(fs) == s@ implies reserialized@
                == chars@ by {
                lemma_ser_fields_equivalent(fields@, fs);
            }
        }
        if reserialized.len() != chars.len() {
            proof {
                assert forall|fs: Seq<(String, JsonValue)>|
                    sorted_fields(fs) && #[trigger] ser_fields(fs) == s@ implies false by {}
            }
            return None;
        }
        if !matches!(chars_cmp(&reserialized, &chars), TextOrder::Equal) {
            proof {
                assert forall|fs: Seq<(String, JsonValue)>|
                    sorted_fields(fs) && #[trigger] ser_fields(fs) == s@ implies false by {}
            }
            return None;
        }
        proof {
            assert(ser_fields(fields@) == s@);
            if fields@.len() == 0 {
                assert(sorted_fields(fields@));
            }
        }
        Some(LogRow::from_sorted_fields(fields))
    }
}

/// Reads one length-prefixed chunk starting at `start`: its content and
/// the position just past it. Parsing succeeds at every position where
/// a chunk stands, and yields exactly its content.
#[verifier::rlimit(100)]
fn parse_chunk(chars: &Vec<char>, start: usize) -> (r: Option<(String, usize)>)
    requires
        start <= chars@.len(),
    ensures
        r matches Some(c) ==> start < c.1 <= chars@.len(),
        forall|x: Seq<char>, rest: Seq<char>|
            chars@.skip(start as int) == #[trigger] (chunk(x) + rest) ==> (r matches Some(c)
                && c.0@ == x && c.1 == start + dec_digits(x.len()).len() + 1 + x.len()),
{
    let n_chars = chars.len();
    let mut p = start;
    let mut len_acc: u64 = 0;
    let mut any = false;
    while p < chars.len() && (chars[p] as u32) >= 48 && (chars[p] as u32) <= 57
        invariant
            start <= p <= chars@.len(),
            n_chars == chars@.len(),
            any == (p > start),
            forall|j: int| start <= j < p ==> is_digit(#[trigger] chars@[j]),
            len_acc == dec_value(chars@.subrange(start as int, p as int)),
        decreases chars@.len() - p,
    {
        let u = chars[p] as u32;
        let d = (u - 48) as u64;
        if len_acc > (u64::MAX - d) / 10 {
            proof {
                assert(len_acc * 10 + d > u64::MAX) by (nonlinear_arith)
                    requires
                        len_acc > (u64::MAX - d) / 10,
                        d <= u64::MAX,
                ;
                assert forall|x: Seq<char>, rest: Seq<char>|
                    chars@.skip(start as int) == #[trigger] (chunk(x) + rest) implies false by {
                    lemma_chunk_parse_setup(chars@, start as int, x, rest);
                    let cnt = dec_digits(x.len()).len() as int;
                    assert(p < start + cnt) by {
                        assert(p <= start + cnt) by {
                            if p > start + cnt {
                                assert(is_digit(chars@[start + cnt]));
                            }
                        }
                        if p == start + cnt {
                            assert(chars@[p as int] == ':');
                        }
                    }
                    let consumed = chars@.subrange(start as int, p as int);
                    assert(consumed =~= dec_digits(x.len()).take(p - start));
                    lemma_dec_value_prefix(dec_digits(x.len()), p - start);
                    let step = chars@.subrange(start as int, p + 1);
                    assert(step =~= dec_digits(x.len()).take(p - start + 1));
                    lemma_dec_value_prefix(dec_digits(x.len()), p - start + 1);
                    assert(step.drop_last() =~= consumed);
                    assert(dec_value(step) == len_acc * 10 + d);
                    lemma_dec_digits_value(x.len());
                    assert(dec_value(step) <= x.len());
                    assert(x.len() <= chars@.len());
                }
            }
            return None;
        }
        proof {
            assert(len_acc * 10 + d <= u64::MAX) by (nonlinear_arith)
                requires
                    len_acc <= (u64::MAX - d) / 10,
                    d <= 9,
            ;
        }
        let ghost before = chars@.subrange(start as int, p as int);
        len_acc = len_acc * 10 + d;
        any = true;
        p = p + 1;
        proof {
            let now = chars@.subrange(start as int, p as int);
            assert(now.drop_last() =~= before);
            assert(now.last() == chars@[p - 1]);
            assert(d == digit_val(chars@[p - 1]));
        }
    }
    if !any || p >= n_chars || chars[p] != ':' {
        proof {
            assert forall|x: Seq<char>, rest: Seq<char>|
                chars@.skip(start as int) == #[trigger] (chunk(x) + rest) implies false by {
                lemma_chunk_parse_setup(chars@, start as int, x, rest);
                let cnt = dec_digits(x.len()).len() as int;
                assert(p <= start + cnt) by {
                    if p > start + cnt {
                        assert(is_digit(chars@[start + cnt]));
                    }
                }
                assert(start + cnt < chars@.len());
                if p < start + cnt {
                    assert(chars@[p as int] == dec_digits(x.len())[p - start] && is_digit(
                        dec_digits(x.len())[p - start],
                    ));
                    assert(p < chars@.len());
                    assert(false);
                }
                assert(p == start + cnt);
                assert(chars@[p as int] == ':');
                assert(any) by {
                    lemma_dec_digits_len(x.len());
                }
            }
        }
        return None;
    }
    let ghost digits = chars@.subrange(start as int, p as int);
    p = p + 1;
    let remaining = n_chars - p;
    if len_acc > remaining as u64 {
        proof {
            assert forall|x: Seq<char>, rest: Seq<char>|
                chars@.skip(start as int) == #[trigger] (chunk(x) + rest) implies false by {
                lemma_chunk_parse_setup(chars@, start as int, x, rest);
                lemma_chunk_parse_digits(chars@, start as int, x, rest, p - 1, digits, len_acc as nat);
                assert(chars@.len() - p >= x.len());
            }
        }
        return None;
    }
    let l = len_acc as usize;
    let mut content: Vec<char> = Vec::new();
    let mut i: usize = 0;
    while i < l
        invariant
            i <= l,
            n_chars == chars@.len(),
            p + l <= n_chars,
            content@ == chars@.subrange(p as int, p + i),
        decreases l - i,
    {
        content.push(chars[p + i]);
        i = i + 1;
        proof {
            assert(content@ =~= chars@.subrange(p as int, p + i as int));
        }
    }
    proof {
        assert forall|x: Seq<char>, rest: Seq<char>|
            chars@.skip(start as int) == #[trigger] (chunk(x) + rest) implies content@ == x && p
            + l == start + dec_digits(x.len()).len() + 1 + x.len() by {
            lemma_chunk_parse_setup(chars@, start as int, x, rest);
            lemma_chunk_parse_digits(chars@, start as int, x, rest, p - 1, digits, len_acc as nat);
            assert(l == x.len());
            assert(content@ =~= x) by {
                assert forall|k: int| 0 <= k < x.len() implies content@[k] == x[k] by {
                    assert(content@[k] == chars@[p + k]);
                    assert(chars@.skip(start as int)[(p - start) + k] == x[k]);
                    assert(chars@.skip(start as int)[(p - start) + k] == chars@[p + k]);
                }
            }
        }
    }
    Some((chars_to_string(&content), p + l))
}

/// Under the hypothesis that a chunk stands at `start`, the digit,
/// colon and content characters are laid out as the chunk says.
proof fn lemma_chunk_parse_setup(chars: Seq<char>, start: int, x: Seq<char>, rest: Seq<char>)
    requires
        0 <= start <= chars.len(),
        chars.skip(start) == chunk(x) + rest,
    ensures
        chars.len() - start == dec_digits(x.len()).len() + 1 + x.len() + rest.len(),
        forall|j: int|
            0 <= j < dec_digits(x.len()).len() ==> chars[start + j] == dec_digits(x.len())[j]
                && is_digit(#[trigger] dec_digits(x.len())[j]),
        chars[start + dec_digits(x.len()).len()] == ':',
        !is_digit(':'),
        forall|k: int|
            0 <= k < x.len() ==> chars.skip(start)[dec_digits(x.len()).len() + 1 + k] == #[trigger] x[k],
        x.len() <= chars.len(),
{
    lemma_dec_digits_value(x.len());
    let cnt = dec_digits(x.len()).len() as int;
    assert(chunk(x).len() == cnt + 1 + x.len());
    assert(chars.skip(start).len() == chunk(x).len() + rest.len());
    assert(chars.skip(start).len() == chars.len() - start);
    assert forall|j: int|
        0 <= j < cnt implies chars[start + j] == dec_digits(x.len())[j] && is_digit(
        #[trigger] dec_digits(x.len())[j],
    ) by {
        assert((chunk(x) + rest)[j] == dec_digits(x.len())[j]);
        assert(chars.skip(start)[j] == chars[start + j]);
    }
    assert((chunk(x) + rest)[cnt] == ':');
    assert(chars.skip(start)[cnt] == chars[start + cnt]);
    assert forall|k: int|
        0 <= k < x.len() implies chars.skip(start)[cnt + 1 + k] == #[trigger] x[k] by {
        assert((chunk(x) + rest)[cnt + 1 + k] == x[k]);
    }
}

/// Once the digit scan has stopped at the colon, the accumulated value
/// is exactly the chunk's length.
proof fn lemma_chunk_parse_digits(
    chars: Seq<char>,
    start: int,
    x: Seq<char>,
    rest: Seq<char>,
    p: int,
    digits: Seq<char>,
    acc: nat,
)
    requires
        0 <= start <= p <= chars.len(),
        chars.skip(start) == chunk(x) + rest,
        digits == chars.subrange(start, p),
        acc == dec_value(digits),
        forall|j: int| start <= j < p ==> is_digit(#[trigger] chars[j]),
        chars[p] == ':' || p == chars.len(),
        p == chars.len() || !is_digit(chars[p]),
        p < chars.len(),
    ensures
        p == start + dec_digits(x.len()).len(),
        acc == x.len(),
    decreases 0int,
{
    lemma_chunk_parse_setup(chars, start, x, rest);
    lemma_dec_digits_value(x.len());
    let cnt = dec_digits(x.len()).len() as int;
    assert(p <= start + cnt) by {
        if p > start + cnt {
            assert(is_digit(chars[start + cnt]));
        }
    }
    if p < start + cnt {
        assert(chars[p] == dec_digits(x.len())[p - start] && is_digit(
            dec_digits(x.len())[p - start],
        ));
        assert(false);
    }
    assert(digits =~= dec_digits(x.len()));
}

/// The tag character a value is serialized under.
pub open spec fn value_tag(v: JsonValue) -> char {
    match v {
        JsonValue::Str(_) => 's',
        JsonValue::Int(_) => 'i',
        JsonValue::Other(_) => 'o',
    }
}

/// The text a value's chunk carries.
pub open spec fn value_text(v: JsonValue) -> Seq<char> {
    match v {
        JsonValue::Str(s) => s@,
        JsonValue::Int(i) => int_dec(i as int),
        JsonValue::Other(t) => t@,
    }
}

/// A serialized value is its tag followed by its text as a chunk.
proof fn lemma_ser_value_shape(v: JsonValue)
    ensures
        ser_value(v) == seq![value_tag(v)] + chunk(value_text(v)),
{
    match v {
        JsonValue::Str(_) => {
            assert(ser_value(v) =~= seq![value_tag(v)] + chunk(value_text(v)));
        },
        JsonValue::Int(_) => {
            assert(ser_value(v) =~= seq![value_tag(v)] + chunk(value_text(v)));
        },
        JsonValue::Other(_) => {
            assert(ser_value(v) =~= seq![value_tag(v)] + chunk(value_text(v)));
        },
    }
}

/// A nonempty field list serializes to nonempty text.
proof fn lemma_ser_fields_nonempty(fs: Seq<(String, JsonValue)>)
    requires
        fs.len() > 0,
    ensures
        ser_fields(fs).len() > 0,
{
    lemma_dec_digits_len(fs[0].0@.len());
}

/// Field lists that agree on every view serialize identically.
proof fn lemma_ser_fields_equivalent(a: Seq<(String, JsonValue)>, b: Seq<(String, JsonValue)>)
    requires
        fields_equivalent(a, b),
    ensures
        ser_fields(a) == ser_fields(b),
    decreases a.len(),
{
    if a.len() > 0 {
        assert(a[0].0@ == b[0].0@ && a[0].1.view_spec() == b[0].1.view_spec());
        assert(ser_field(a[0]) == ser_field(b[0])) by {
            assert(chunk(a[0].0@) == chunk(b[0].0@));
            assert(ser_value(a[0].1) == ser_value(b[0].1)) by {
                match (a[0].1, b[0].1) {
                    (JsonValue::Str(x), JsonValue::Str(y)) => {
                        assert(x@ == y@);
                    },
                    (JsonValue::Int(x), JsonValue::Int(y)) => {},
                    (JsonValue::Other(x), JsonValue::Other(y)) => {
                        assert(x@ == y@);
                    },
                    _ => {
                        assert(false);
                    },
                }
            }
        }
        assert forall|i: int|
            0 <= i < a.drop_first().len() implies (#[trigger] a.drop_first()[i]).0@
            == b.drop_first()[i].0@ && a.drop_first()[i].1.view_spec()
            == b.drop_first()[i].1.view_spec() by {
            assert(a.drop_first()[i] == a[i + 1]);
            assert(b.drop_first()[i] == b[i + 1]);
        }
        lemma_ser_fields_equivalent(a.drop_first(), b.drop_first());
    }
}

/// While text remains, it starts with the next field's name chunk,
/// followed by the value and the remaining fields.
proof fn lemma_deser_step(chars: Seq<char>, pos: int, k: int, fs: Seq<(String, JsonValue)>)
    requires
        0 <= pos < chars.len(),
        0 <= k <= fs.len(),
        chars.skip(pos) == ser_fields(fs.skip(k)),
    ensures
        k < fs.len(),
        chars.skip(pos) == chunk(fs[k].0@) + (ser_value(fs[k].1) + ser_fields(fs.skip(k + 1))),
{
    if k == fs.len() {
        assert(fs.skip(k) =~= Seq::<(String, JsonValue)>::empty());
        assert(ser_fields(fs.skip(k)).len() == 0);
        assert(chars.skip(pos).len() > 0);
        assert(false);
    }
    assert(fs.skip(k)[0] == fs[k]);
    assert(fs.skip(k).drop_first() =~= fs.skip(k + 1));
    assert(ser_fields(fs.skip(k)) == ser_field(fs[k]) + ser_fields(fs.skip(k + 1)));
    assert(ser_field(fs[k]) + ser_fields(fs.skip(k + 1)) =~= chunk(fs[k].0@) + (ser_value(fs[k].1)
        + ser_fields(fs.skip(k + 1))));
}

/// While serialized text remains, it lays out as the next field's name
/// chunk, the value tag, the value chunk, and the remaining fields.
proof fn lemma_deser_iteration(chars: Seq<char>, pos: int, k: int, fs: Seq<(String, JsonValue)>)
    requires
        0 <= pos < chars.len(),
        0 <= k <= fs.len(),
        chars.skip(pos) == ser_fields(fs.skip(k)),
    ensures
        k < fs.len(),
        chars.skip(pos) == chunk(fs[k].0@) + (ser_value(fs[k].1) + ser_fields(fs.skip(k + 1))),
        pos + chunk(fs[k].0@).len() < chars.len(),
        chars[pos + chunk(fs[k].0@).len()] == value_tag(fs[k].1),
        chars.skip(pos + chunk(fs[k].0@).len() + 1) == chunk(value_text(fs[k].1)) + ser_fields(
            fs.skip(k + 1),
        ),
        chunk(fs[k].0@).len() == dec_digits(fs[k].0@.len()).len() + 1 + fs[k].0@.len(),
        chunk(value_text(fs[k].1)).len() == dec_digits(value_text(fs[k].1).len()).len() + 1
            + value_text(fs[k].1).len(),
        chars.skip(
            pos + chunk(fs[k].0@).len() + 1 + chunk(value_text(fs[k].1)).len(),
        ) == ser_fields(fs.skip(k + 1)),
{
    lemma_deser_step(chars, pos, k, fs);
    let name_chunk = chunk(fs[k].0@);
    let rest1 = ser_value(fs[k].1) + ser_fields(fs.skip(k + 1));
    assert(chars.skip(pos).len() == name_chunk.len() + rest1.len());
    lemma_skip_concat(chars, pos, name_chunk, rest1);
    let p1 = pos + name_chunk.len() as int;
    lemma_ser_value_shape(fs[k].1);
    let tag_seq = seq![value_tag(fs[k].1)];
    let value_chunk = chunk(value_text(fs[k].1));
    let rest2 = value_chunk + ser_fields(fs.skip(k + 1));
    assert(rest1 =~= tag_seq + rest2);
    assert(chars.skip(p1).len() == rest1.len());
    assert(rest1.len() >= 1);
    assert(p1 < chars.len());
    assert(chars[p1] == chars.skip(p1)[0]);
    assert(chars.skip(p1)[0] == (tag_seq + rest2)[0]);
    lemma_skip_concat(chars, p1, tag_seq, rest2);
    assert(chars.skip(p1 + 1) == rest2);
    assert(p1 + 1 + value_chunk.len() <= chars.len()) by {
        assert(chars.skip(p1 + 1).len() == rest2.len());
    }
    lemma_skip_concat(chars, p1 + 1, value_chunk, ser_fields(fs.skip(k + 1)));
}

/// Consuming the front of a concatenation leaves the back.
proof fn lemma_skip_concat(chars: Seq<char>, pos: int, a: Seq<char>, b: Seq<char>)
    requires
        0 <= pos,
        pos + a.len() <= chars.len(),
        chars.skip(pos) == a + b,
    ensures
        chars.skip(pos + a.len()) == b,
{
    assert(chars.skip(pos).len() == chars.len() - pos);
    assert(chars.skip(pos).len() == a.len() + b.len());
    assert forall|j: int| 0 <= j < b.len() implies chars.skip(pos + a.len() as int)[j] == b[j] by {
        assert((a + b)[a.len() + j] == b[j]);
        assert(chars.skip(pos)[a.len() + j] == (a + b)[a.len() + j]);
        assert(chars.skip(pos)[a.len() + j] == chars[pos + a.len() + j]);
        assert(chars.skip(pos + a.len() as int)[j] == chars[pos + a.len() + j]);
    }
    assert(chars.skip(pos + a.len() as int) =~= b);
}

/// The shape of an integer's text: an optional minus sign, then the
/// digits of the magnitude.
proof fn lemma_int_dec_layout(v: i64)
    ensures
        ({
            let t = int_dec(v as int);
            let mag: nat = if v < 0 {
                (-(v as int)) as nat
            } else {
                v as nat
            };
            let off: int = if v < 0 {
                1
            } else {
                0
            };
            &&& t.len() == off + dec_digits(mag).len()
            &&& t.len() > off
            &&& t.subrange(off, t.len() as int) == dec_digits(mag)
            &&& forall|j: int| off <= j < t.len() ==> is_digit(#[trigger] t[j])
            &&& dec_value(t.subrange(off, t.len() as int)) == mag
            &&& mag <= 0x8000_0000_0000_0000
            &&& (t[0] == '-' <==> v < 0)
        }),
{
    let t = int_dec(v as int);
    let mag: nat = if v < 0 {
        (-(v as int)) as nat
    } else {
        v as nat
    };
    let off: int = if v < 0 {
        1
    } else {
        0
    };
    lemma_dec_digits_value(mag);
    lemma_dec_digits_len(mag);
    lemma_dec_digits_are_digits(mag);
    if v < 0 {
        assert(t =~= seq!['-'] + dec_digits(mag));
        assert(t.subrange(1, t.len() as int) =~= dec_digits(mag));
    } else {
        assert(t =~= dec_digits(mag));
        assert(t.subrange(0, t.len() as int) =~= dec_digits(mag));
        assert(t[0] == dec_digits(mag)[0]);
        assert(is_digit(t[0]));
        assert(t[0] != '-');
    }
    assert forall|j: int| off <= j < t.len() implies is_digit(#[trigger] t[j]) by {
        assert(t[j] == dec_digits(mag)[j - off]);
        assert(is_digit(dec_digits(mag)[j - off]));
    }
}

/// Reads a decimal integer with an optional leading minus sign; the
/// integer's own text always reads back as itself.
#[verifier::rlimit(100)]
fn parse_i64(s: &String) -> (r: Option<i64>)
    ensures
        forall|v: i64| s@ == int_dec(v as int) ==> r == Some(v),
{
    let chars = str_to_chars(s.as_str());
    let n_chars = chars.len();
    let negative = chars.len() > 0 && chars[0] == '-';
    let offset: usize = if negative {
        1
    } else {
        0
    };
    let mut p: usize = offset;
    if p >= n_chars {
        proof {
            assert forall|v: i64| s@ == int_dec(v as int) implies false by {
                lemma_int_dec_layout(v);
            }
        }
        return None;
    }
    let mut acc: u64 = 0;
    while p < chars.len()
        invariant
            offset <= p <= chars@.len(),
            n_chars == chars@.len(),
            chars@ == s@,
            negative == (chars@.len() > 0 && chars@[0] == '-'),
            offset == if negative {
                1int
            } else {
                0int
            },
            forall|j: int| offset <= j < p ==> is_digit(#[trigger] chars@[j]),
            acc == dec_value(chars@.subrange(offset as int, p as int)),
        decreases chars@.len() - p,
    {
        let u = chars[p] as u32;
        if u < 48 || u > 57 {
            proof {
                assert forall|v: i64| s@ == int_dec(v as int) implies false by {
                    lemma_int_dec_layout(v);
                    assert(is_digit(chars@[p as int]));
                }
            }
            return None;
        }
        let d = (u - 48) as u64;
        if acc > (u64::MAX - d) / 10 {
            proof {
                assert(acc * 10 + d > u64::MAX) by (nonlinear_arith)
                    requires
                        acc > (u64::MAX - d) / 10,
                        d <= u64::MAX,
                ;
                assert forall|v: i64| s@ == int_dec(v as int) implies false by {
                    lemma_int_dec_layout(v);
                    let mag: nat = if v < 0 {
                        (-(v as int)) as nat
                    } else {
                        v as nat
                    };
                    let whole = chars@.subrange(offset as int, n_chars as int);
                    let consumed = chars@.subrange(offset as int, p as int);
                    assert(whole =~= dec_digits(mag));
                    assert(consumed =~= whole.take(p - offset));
                    let step = chars@.subrange(offset as int, p + 1);
                    assert(step =~= whole.take(p - offset + 1));
                    assert(step.drop_last() =~= consumed);
                    assert(step.last() == chars@[p as int]);
                    assert(dec_value(step) == acc * 10 + d);
                    lemma_dec_value_prefix(whole, p - offset + 1);
                    lemma_dec_digits_value(mag);
                }
            }
            return None;
        }
        let ghost before = chars@.subrange(offset as int, p as int);
        acc = acc * 10 + d;
        p = p + 1;
        proof {
            let now = chars@.subrange(offset as int, p as int);
            assert(now.drop_last() =~= before);
            assert(now.last() == chars@[p - 1]);
            assert(d == digit_val(chars@[p - 1]));
        }
    }
    proof {
        assert forall|v: i64| s@ == int_dec(v as int) implies ({
            let mag: nat = if v < 0 {
                (-(v as int)) as nat
            } else {
                v as nat
            };
            acc == mag && (negative <==> v < 0)
        }) by {
            lemma_int_dec_layout(v);
            let mag: nat = if v < 0 {
                (-(v as int)) as nat
            } else {
                v as nat
            };
            assert(chars@.subrange(offset as int, p as int) =~= chars@.subrange(
                offset as int,
                n_chars as int,
            ));
            assert(chars@.subrange(offset as int, n_chars as int) =~= dec_digits(mag));
            lemma_dec_digits_value(mag);
        }
    }
    if negative {
        if acc <= 0x7fff_ffff_ffff_ffffu64 {
            Some(-(acc as i64))
        } else if acc == 0x8000_0000_0000_0000u64 {
            Some(i64::MIN)
        } else {
            proof {
                assert forall|v: i64| s@ == int_dec(v as int) implies false by {
                    lemma_int_dec_layout(v);
                }
            }
            None
        }
    } else {
        if acc <= 0x7fff_ffff_ffff_ffffu64 {
            Some(acc as i64)
        } else {
            proof {
                assert forall|v: i64| s@ == int_dec(v as int) implies false by {
                    lemma_int_dec_layout(v);
                }
            }
            None
        }
    }
}

} // verus!
