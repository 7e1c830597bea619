//! Display configuration for the record store: the common-fields set
//! with its deterministic hash, parse-error policy, severity-level
//! conversion, and row-size units.

use crate::text::{chars_cmp, chars_to_string, lex_lt, str_to_chars, trim_zero_chars, trim_zeros,
    TextOrder};
use std::collections::hash_map::DefaultHasher;
use std::hash::Hasher;
use vstd::prelude::*;
use vstd::std_specs::hash::DefaultHasherAdditionalSpecFns;

verus! {

/// The unit a byte count is displayed in; `Auto` picks the largest unit
/// whose value is at least one.
#[derive(Debug, PartialEq, Eq, Clone, Copy)]
pub enum SizeUnits {
    Bytes,
    KB,
    MB,
    GB,
    TB,
    Auto,
}

/// How many bytes one step of the unit is; `Auto` has no divisor.
pub open spec fn unit_divisor(u: SizeUnits) -> nat {
    match u {
        SizeUnits::Bytes => 1,
        SizeUnits::KB => 1024,
        SizeUnits::MB => 1024 * 1024,
        SizeUnits::GB => 1024 * 1024 * 1024,
        SizeUnits::TB => 1024 * 1024 * 1024 * 1024,
        SizeUnits::Auto => 1,
    }
}

/// The unit actually used for a byte count: the unit itself, or for
/// `Auto` the largest unit with a value of at least one.
pub open spec fn concrete_unit(u: SizeUnits, bytes: nat) -> SizeUnits {
    if !(u is Auto) {
        u
    } else if bytes >= 1024 * 1024 * 1024 * 1024 {
        SizeUnits::TB
    } else if bytes >= 1024 * 1024 * 1024 {
        SizeUnits::GB
    } else if bytes >= 1024 * 1024 {
        SizeUnits::MB
    } else if bytes >= 1024 {
        SizeUnits::KB
    } else {
        SizeUnits::Bytes
    }
}

/// `bytes / d` scaled to four decimal places and rounded to the nearest
/// ten-thousandth, ties to even.
pub open spec fn scaled_q(bytes: nat, d: nat) -> nat
    recommends
        d >= 1,
{
    let n = bytes * 10000;
    let q = n / d;
    let r = n % d;
    if 2 * r > d || (2 * r == d && q % 2 == 1) {
        q + 1
    } else {
        q
    }
}

/// The zeros that pad the integer part to at least four digits.
pub open spec fn int_pad(ip: nat) -> Seq<char> {
    if ip < 10 {
        seq!['0', '0', '0']
    } else if ip < 100 {
        seq!['0', '0']
    } else if ip < 1000 {
        seq!['0']
    } else {
        Seq::<char>::empty()
    }
}

/// The zeros that pad the fractional part to exactly four digits.
pub open spec fn frac_pad(fp: nat) -> Seq<char> {
    if fp < 10 {
        seq!['0', '0', '0']
    } else if fp < 100 {
        seq!['0', '0']
    } else if fp < 1000 {
        seq!['0']
    } else {
        Seq::<char>::empty()
    }
}

/// A scaled value rendered as a zero-padded fixed-point number of at
/// least nine characters with four decimal places.
pub open spec fn size_number_text(q: nat) -> Seq<char> {
    int_pad(q / 10000) + crate::text::dec_digits(q / 10000) + seq!['.'] + frac_pad(q % 10000)
        + crate::text::dec_digits(q % 10000)
}

/// The display name of a unit.
pub open spec fn unit_name(u: SizeUnits) -> Seq<char> {
    match u {
        SizeUnits::Bytes => seq!['B', 'y', 't', 'e', 's'],
        SizeUnits::KB => seq!['K', 'B'],
        SizeUnits::MB => seq!['M', 'B'],
        SizeUnits::GB => seq!['G', 'B'],
        SizeUnits::TB => seq!['T', 'B'],
        SizeUnits::Auto => seq!['A', 'u', 't', 'o'],
    }
}

/// The full display text of a byte count in a unit: the padded number,
/// a space, and the concrete unit's name.
pub open spec fn size_text(u: SizeUnits, bytes: nat) -> Seq<char> {
    let cu = concrete_unit(u, bytes);
    size_number_text(scaled_q(bytes, unit_divisor(cu))) + seq![' '] + unit_name(cu)
}

/// The digits of a scaled value: the integer part zero-padded to at
/// least four digits, a point, and the fractional part zero-padded to
/// exactly four digits.
fn fixed_point_chars(ip: u64, fp: u64) -> (r: Vec<char>)
    requires
        fp < 10000,
    ensures
        r@ == int_pad(ip as nat) + crate::text::dec_digits(ip as nat) + seq!['.'] + frac_pad(
            fp as nat,
        ) + crate::text::dec_digits(fp as nat),
{
    let mut v: Vec<char> = Vec::new();
    if ip < 10 {
        v.push('0');
        v.push('0');
        v.push('0');
    } else if ip < 100 {
        v.push('0');
        v.push('0');
    } else if ip < 1000 {
        v.push('0');
    }
    proof {
        assert(v@ =~= int_pad(ip as nat));
    }
    crate::text::push_dec_chars(ip, &mut v);
    v.push('.');
    let ghost head = v@;
    if fp < 10 {
        v.push('0');
        v.push('0');
        v.push('0');
    } else if fp < 100 {
        v.push('0');
        v.push('0');
    } else if fp < 1000 {
        v.push('0');
    }
    proof {
        assert(v@ =~= head + frac_pad(fp as nat));
    }
    crate::text::push_dec_chars(fp, &mut v);
    proof {
        assert(v@ =~= int_pad(ip as nat) + crate::text::dec_digits(ip as nat) + seq!['.']
            + frac_pad(fp as nat) + crate::text::dec_digits(fp as nat));
    }
    v
}

impl SizeUnits {
    /// The number of bytes per step of this unit.
    pub fn scalar(&self) -> (d: u64)
        requires
            !(*self is Auto),
        ensures
            d == unit_divisor(*self),
    {
        match self {
            SizeUnits::Bytes => 1,
            SizeUnits::KB => 1024,
            SizeUnits::MB => 1024 * 1024,
            SizeUnits::GB => 1024 * 1024 * 1024,
            SizeUnits::TB => 1024 * 1024 * 1024 * 1024,
            SizeUnits::Auto => 1,
        }
    }

    /// The unit used for displaying `row_size_in_bytes`: `Auto` resolves
    /// to the largest unit with a value of at least one.
    pub fn to_concrete(self, row_size_in_bytes: usize) -> (r: SizeUnits)
        ensures
            r == concrete_unit(self, row_size_in_bytes as nat),
    {
        if !matches!(self, SizeUnits::Auto) {
            return self;
        }
        let b = row_size_in_bytes as u64;
        if b >= 1024 * 1024 * 1024 * 1024 {
            SizeUnits::TB
        } else if b >= 1024 * 1024 * 1024 {
            SizeUnits::GB
        } else if b >= 1024 * 1024 {
            SizeUnits::MB
        } else if b >= 1024 {
            SizeUnits::KB
        } else {
            SizeUnits::Bytes
        }
    }

    /// The scaled four-decimal value of `row_size_in_bytes` in the
    /// concrete unit, split into integer and fractional part.
    fn scaled_parts(&self, row_size_in_bytes: usize, cu: SizeUnits) -> (r: (u64, u64))
        requires
            cu == concrete_unit(*self, row_size_in_bytes as nat),
        ensures
            r.0 == scaled_q(row_size_in_bytes as nat, unit_divisor(cu)) / 10000,
            r.1 == scaled_q(row_size_in_bytes as nat, unit_divisor(cu)) % 10000,
    {
        let d = cu.scalar();
        let ghost bytes = row_size_in_bytes as nat;
        let n: u128 = (row_size_in_bytes as u128) * 10000;
        let dd: u128 = d as u128;
        let q0: u128 = n / dd;
        let rem: u128 = n % dd;
        let q: u128 = if 2 * rem > dd || (2 * rem == dd && q0 % 2 == 1) {
            q0 + 1
        } else {
            q0
        };
        assert(q == scaled_q(bytes, unit_divisor(cu)));
        assert(q <= n + 1) by (nonlinear_arith)
            requires
                q0 == n / dd,
                dd >= 1,
                q <= q0 + 1,
        ;
        let ip: u128 = q / 10000;
        let fp: u128 = q % 10000;
        assert(ip <= bytes) by (nonlinear_arith)
            requires
                ip == q / 10000,
                q <= n + 1,
                n == bytes * 10000,
                bytes >= 0,
        ;
        (ip as u64, fp as u64)
    }

    /// Renders `row_size_in_bytes` in this unit as a zero-padded number
    /// with four decimal places, followed by the unit name.
    pub fn convert(&self, row_size_in_bytes: usize) -> (r: String)
        ensures
            r@ == size_text(*self, row_size_in_bytes as nat),
    {
        let cu = self.to_concrete(row_size_in_bytes);
        let (ip64, fp64) = self.scaled_parts(row_size_in_bytes, cu);
        let ghost q = scaled_q(row_size_in_bytes as nat, unit_divisor(cu));
        let mut v = fixed_point_chars(ip64, fp64);
        proof {
            assert(v@ =~= size_number_text(q));
        }
        v.push(' ');
        let name = cu.as_str();
        let name_chars = str_to_chars(name);
        let mut i: usize = 0;
        while i < name_chars.len()
            invariant
                i <= name_chars.len(),
                v@ == size_number_text(q) + seq![' '] + name_chars@.take(i as int),
                q == scaled_q(row_size_in_bytes as nat, unit_divisor(cu)),
            decreases name_chars.len() - i,
        {
            v.push(name_chars[i]);
            i = i + 1;
            proof {
                assert(v@ =~= size_number_text(q) + seq![' '] + name_chars@.take(i as int));
            }
        }
        proof {
            assert(name_chars@.take(name_chars@.len() as int) =~= unit_name(cu));
            assert(v@ =~= size_text(*self, row_size_in_bytes as nat));
        }
        chars_to_string(&v)
    }

    /// The unit display text with `'0'` characters trimmed from both
    /// ends of the rendered number.
    pub fn convert_trimmed(&self, row_size_in_bytes: usize) -> (r: String)
        ensures
            r@ == trim_zeros(size_text(*self, row_size_in_bytes as nat)),
    {
        let full = self.convert(row_size_in_bytes);
        let chars = str_to_chars(full.as_str());
        let trimmed = trim_zero_chars(&chars);
        chars_to_string(&trimmed)
    }

    /// The display name of the unit.
    pub fn as_str(&self) -> (r: &'static str)
        ensures
            r@ == unit_name(*self),
    {
        proof {
            reveal_strlit("Bytes");
            reveal_strlit("KB");
            reveal_strlit("MB");
            reveal_strlit("GB");
            reveal_strlit("TB");
            reveal_strlit("Auto");
            assert("Bytes"@ =~= unit_name(SizeUnits::Bytes));
            assert("KB"@ =~= unit_name(SizeUnits::KB));
            assert("MB"@ =~= unit_name(SizeUnits::MB));
            assert("GB"@ =~= unit_name(SizeUnits::GB));
            assert("TB"@ =~= unit_name(SizeUnits::TB));
            assert("Auto"@ =~= unit_name(SizeUnits::Auto));
        }
        match self {
            SizeUnits::Bytes => "Bytes",
            SizeUnits::KB => "KB",
            SizeUnits::MB => "MB",
            SizeUnits::GB => "GB",
            SizeUnits::TB => "TB",
            SizeUnits::Auto => "Auto",
        }
    }
}

impl Default for SizeUnits {
    /// The default unit is `Auto`.
    fn default() -> (r: Self)
        ensures
            r == SizeUnits::Auto,
    {
        SizeUnits::Auto
    }
}

/// How a line that fails to parse as a field mapping is treated during
/// ingestion.
#[derive(Debug, PartialEq, Eq, Clone)]
pub enum RowParseErrorHandling {
    /// The whole ingestion fails on the first bad line.
    AbortOnAnyErrors,
    /// A bad line becomes a synthetic record carrying the raw line text,
    /// and optionally the parse error text.
    ConvertFailedLines {
        /// The field that receives the raw line text.
        raw_line_field_name: String,
        /// If set, the field that receives the parse error text.
        parse_error_field_name: Option<String>,
    },
}

impl Default for RowParseErrorHandling {
    /// By default failed lines are converted, with the raw line under
    /// `msg` and the error text under `parse_err`.
    fn default() -> (r: Self)
        ensures
            ({
                &&& r matches RowParseErrorHandling::ConvertFailedLines {
                    raw_line_field_name,
                    parse_error_field_name,
                }
                &&& raw_line_field_name@ == "msg"@
                &&& parse_error_field_name matches Some(e) && e@ == "parse_err"@
            }),
    {
        RowParseErrorHandling::ConvertFailedLines {
            raw_line_field_name: "msg".to_owned(),
            parse_error_field_name: Some("parse_err".to_owned()),
        }
    }
}

/// The first value mapped to `key` in `map`, if any.
pub open spec fn convert_lookup(map: Seq<(i64, String)>, key: i64) -> Option<Seq<char>>
    decreases map.len(),
{
    if map.len() == 0 {
        None
    } else if map[0].0 == key {
        Some(map[0].1@)
    } else {
        convert_lookup(map.drop_first(), key)
    }
}

proof fn lemma_lookup_skip(map: Seq<(i64, String)>, key: i64, i: int)
    requires
        0 <= i <= map.len(),
        forall|j: int| 0 <= j < i ==> (#[trigger] map[j]).0 != key,
    ensures
        convert_lookup(map, key) == convert_lookup(map.skip(i), key),
    decreases i,
{
    if i > 0 {
        assert(map[0].0 != key);
        lemma_lookup_skip(map.drop_first(), key, i - 1);
        assert(map.drop_first().skip(i - 1) =~= map.skip(i));
    } else {
        assert(map.skip(0) =~= map);
    }
}

/// Optional conversion of a numeric severity-level field into a display
/// string.
#[derive(Debug, PartialEq, Eq, Clone)]
pub struct LevelConversion {
    /// The field that receives the converted string; skipped when the
    /// record already has a field of this name.
    pub display_field_name: String,
    /// The field read for the numeric level; conversion is skipped when
    /// it is absent or not an integer.
    pub source_field_name: String,
    /// The level-to-string table.
    pub convert_map: Vec<(i64, String)>,
}

impl LevelConversion {
    /// The first string mapped to `key`, if any.
    pub fn lookup(&self, key: i64) -> (r: Option<String>)
        ensures
            match convert_lookup(self.convert_map@, key) {
                Some(s) => r matches Some(v) && v@ == s,
                None => r is None,
            },
    {
        let mut i: usize = 0;
        while i < self.convert_map.len()
            invariant
                i <= self.convert_map@.len(),
                forall|j: int| 0 <= j < i ==> (#[trigger] self.convert_map@[j]).0 != key,
            decreases self.convert_map@.len() - i,
        {
            if self.convert_map[i].0 == key {
                proof {
                    lemma_lookup_skip(self.convert_map@, key, i as int);
                }
                return Some(self.convert_map[i].1.clone());
            }
            i = i + 1;
        }
        proof {
            lemma_lookup_skip(self.convert_map@, key, i as int);
        }
        None
    }
}

impl Default for LevelConversion {
    /// By default converts the numeric `level` field to a string under
    /// `level_str`, using the conventional ten-step severity table.
    fn default() -> (r: Self)
        ensures
            r.display_field_name@ == "level_str"@,
            r.source_field_name@ == "level"@,
            r.convert_map@.len() == 6,
            convert_lookup(r.convert_map@, 60) matches Some(s) && s == "Fatal"@,
            convert_lookup(r.convert_map@, 50) matches Some(s) && s == "Error"@,
            convert_lookup(r.convert_map@, 40) matches Some(s) && s == "Warn"@,
            convert_lookup(r.convert_map@, 30) matches Some(s) && s == "Info"@,
            convert_lookup(r.convert_map@, 20) matches Some(s) && s == "Debug"@,
            convert_lookup(r.convert_map@, 10) matches Some(s) && s == "Trace"@,
    {
        let mut convert_map: Vec<(i64, String)> = Vec::new();
        convert_map.push((60, "Fatal".to_owned()));
        convert_map.push((50, "Error".to_owned()));
        convert_map.push((40, "Warn".to_owned()));
        convert_map.push((30, "Info".to_owned()));
        convert_map.push((20, "Debug".to_owned()));
        convert_map.push((10, "Trace".to_owned()));
        proof {
            reveal_with_fuel(convert_lookup, 8);
            assert(convert_map@.len() == 6);
            assert(convert_map@[0].0 == 60);
            assert(convert_map@.drop_first() =~= convert_map@.subrange(1, 6));
            assert(convert_lookup(convert_map@, 60) matches Some(s) && s == "Fatal"@);
            assert(convert_lookup(convert_map@, 50) matches Some(s) && s == "Error"@);
            assert(convert_lookup(convert_map@, 40) matches Some(s) && s == "Warn"@);
            assert(convert_lookup(convert_map@, 30) matches Some(s) && s == "Info"@);
            assert(convert_lookup(convert_map@, 20) matches Some(s) && s == "Debug"@);
            assert(convert_lookup(convert_map@, 10) matches Some(s) && s == "Trace"@);
        }
        Self {
            display_field_name: "level_str".to_owned(),
            source_field_name: "level".to_owned(),
            convert_map,
        }
    }
}

/// Optional injection of each raw line's byte size as a record field.
#[derive(Debug, PartialEq, Eq, Clone)]
pub struct RowSizeConfig {
    /// The field that receives the rendered size.
    pub field_name: String,
    /// The unit the size is rendered in.
    pub units: SizeUnits,
}

impl Default for RowSizeConfig {
    /// By default the size goes under `row_size`, in kilobytes.
    fn default() -> (r: Self)
        ensures
            r.field_name@ == "row_size"@,
            r.units == SizeUnits::KB,
    {
        Self { field_name: "row_size".to_owned(), units: SizeUnits::KB }
    }
}

/// A list of names is strictly sorted when each adjacent pair is in
/// strict lexicographic order.
pub open spec fn sorted_names(names: Seq<String>) -> bool {
    forall|i: int| 0 <= i && i + 1 < names.len() ==> lex_lt((#[trigger] names[i])@, names[i + 1]@)
}

/// Whether `s` occurs among `names`.
pub open spec fn seq_has_name(names: Seq<String>, s: Seq<char>) -> bool {
    exists|i: int| 0 <= i < names.len() && (#[trigger] names[i])@ == s
}

/// Inserts `name` into the strictly sorted `sorted`, keeping it sorted
/// and dropping the name if it is already present.
fn insert_name(sorted: &mut Vec<String>, name: String)
    requires
        sorted_names(old(sorted)@),
    ensures
        sorted_names(final(sorted)@),
        seq_has_name(final(sorted)@, name@),
        forall|s: Seq<char>|
            #[trigger] seq_has_name(final(sorted)@, s) ==> seq_has_name(old(sorted)@, s) || s
                == name@,
        forall|s: Seq<char>|
            #[trigger] seq_has_name(old(sorted)@, s) ==> seq_has_name(final(sorted)@, s),
{
    let name_chars = str_to_chars(name.as_str());
    let mut pos: usize = 0;
    while pos < sorted.len()
        invariant
            pos <= sorted@.len(),
            sorted@ == old(sorted)@,
            sorted_names(sorted@),
            name_chars@ == name@,
            forall|j: int| 0 <= j < pos ==> lex_lt((#[trigger] sorted@[j])@, name_chars@),
        decreases sorted@.len() - pos,
    {
        let entry_chars = str_to_chars(sorted[pos].as_str());
        match chars_cmp(&entry_chars, &name_chars) {
            TextOrder::Less => {
                pos = pos + 1;
            },
            TextOrder::Equal => {
                proof {
                    assert(seq_has_name(sorted@, name@));
                    assert(forall|s: Seq<char>|
                        #[trigger] seq_has_name(sorted@, s) ==> seq_has_name(old(sorted)@, s));
                }
                return ;
            },
            TextOrder::Greater => {
                let ghost before = sorted@;
                let ghost p = pos as int;
                sorted.insert(pos, name);
                proof {
                    lemma_insert_name_facts(before, sorted@, name, p, name_chars@);
                }
                return ;
            },
        }
    }
    let ghost before = sorted@;
    let ghost p = pos as int;
    sorted.push(name);
    proof {
        assert(sorted@ =~= before.insert(p, name));
        lemma_insert_name_facts(before, sorted@, name, p, name_chars@);
    }
}

proof fn lemma_insert_name_facts(
    before: Seq<String>,
    after: Seq<String>,
    name: String,
    p: int,
    nv: Seq<char>,
)
    requires
        sorted_names(before),
        0 <= p <= before.len(),
        after == before.insert(p, name),
        nv == name@,
        forall|j: int| 0 <= j < p ==> lex_lt((#[trigger] before[j])@, nv),
        p < before.len() ==> lex_lt(nv, before[p]@),
    ensures
        sorted_names(after),
        seq_has_name(after, name@),
        forall|s: Seq<char>|
            #[trigger] seq_has_name(after, s) ==> seq_has_name(before, s) || s == name@,
        forall|s: Seq<char>| #[trigger] seq_has_name(before, s) ==> seq_has_name(after, s),
{
    assert(after[p] == name);
    assert(seq_has_name(after, name@));
    assert forall|i: int| 0 <= i && i + 1 < after.len() implies lex_lt(
        (#[trigger] after[i])@,
        after[i + 1]@,
    ) by {
        if i + 1 < p {
            assert(after[i] == before[i]);
            assert(after[i + 1] == before[i + 1]);
        } else if i + 1 == p {
            assert(after[i] == before[i]);
            assert(after[i + 1] == name);
        } else if i == p {
            assert(after[i] == name);
            assert(after[i + 1] == before[i]);
        } else {
            assert(after[i] == before[i - 1]);
            assert(after[i + 1] == before[i]);
        }
    }
    assert forall|s: Seq<char>| #[trigger] seq_has_name(after, s) implies seq_has_name(before, s)
        || s == name@ by {
        let i = choose|i: int| 0 <= i < after.len() && (#[trigger] after[i])@ == s;
        if i < p {
            assert(before[i]@ == s);
        } else if i == p {
            assert(s == name@);
        } else {
            assert(before[i - 1]@ == s);
        }
    }
    assert forall|s: Seq<char>| #[trigger] seq_has_name(before, s) implies seq_has_name(
        after,
        s,
    ) by {
        let i = choose|i: int| 0 <= i < before.len() && (#[trigger] before[i])@ == s;
        if i < p {
            assert(after[i]@ == s);
        } else {
            assert(after[i + 1]@ == s);
        }
    }
}

/// The ordered, duplicate-free set of field names treated as
/// boilerplate: they sort last in the detail display. Supplied as
/// configuration; not owned by the record store.
#[derive(Debug, PartialEq, Eq, Clone)]
pub struct CommonFields {
    names: Vec<String>,
}

impl CommonFields {
    /// The names in their stored order.
    pub closed spec fn names_view(&self) -> Seq<String> {
        self.names@
    }

    /// The names are strictly sorted, so the set is duplicate-free.
    pub open spec fn wf(&self) -> bool {
        sorted_names(self.names_view())
    }

    /// Whether `s` is one of the common field names.
    pub open spec fn contains_name(&self, s: Seq<char>) -> bool {
        seq_has_name(self.names_view(), s)
    }

    /// An empty common-fields set.
    pub fn new() -> (r: CommonFields)
        ensures
            r.wf(),
            forall|s: Seq<char>| !r.contains_name(s),
            r.names_view().len() == 0,
    {
        CommonFields { names: Vec::new() }
    }

    /// Builds the set from any list of names, sorting it and dropping
    /// duplicates; membership is exactly that of the input list.
    pub fn from_names(names: Vec<String>) -> (r: CommonFields)
        ensures
            r.wf(),
            forall|i: int| 0 <= i < names@.len() ==> r.contains_name((#[trigger] names@[i])@),
            forall|s: Seq<char>| #[trigger] r.contains_name(s) ==> seq_has_name(names@, s),
    {
        let mut sorted: Vec<String> = Vec::new();
        let mut k: usize = 0;
        while k < names.len()
            invariant
                k <= names@.len(),
                sorted_names(sorted@),
                forall|i: int| 0 <= i < k ==> seq_has_name(sorted@, (#[trigger] names@[i])@),
                forall|s: Seq<char>| #[trigger] seq_has_name(sorted@, s) ==> seq_has_name(names@, s),
            decreases names@.len() - k,
        {
            insert_name(&mut sorted, names[k].clone());
            k = k + 1;
        }
        CommonFields { names: sorted }
    }

    /// Whether `name` is in the set.
    pub fn contains(&self, name: &str) -> (r: bool)
        ensures
            r == self.contains_name(name@),
    {
        let name_chars = str_to_chars(name);
        let mut i: usize = 0;
        while i < self.names.len()
            invariant
                i <= self.names@.len(),
                name_chars@ == name@,
                forall|j: int| 0 <= j < i ==> (#[trigger] self.names@[j])@ != name@,
            decreases self.names@.len() - i,
        {
            let entry_chars = str_to_chars(self.names[i].as_str());
            match chars_cmp(&entry_chars, &name_chars) {
                TextOrder::Equal => {
                    return true;
                },
                _ => {
                    i = i + 1;
                },
            }
        }
        false
    }

    /// How many names the set holds.
    pub fn len(&self) -> (r: usize)
        ensures
            r == self.names_view().len(),
    {
        self.names.len()
    }
}

/// How ingested records are enriched and displayed. Everything here is
/// configuration handed in by the caller; the record store does not own
/// or persist it.
#[derive(Debug, PartialEq, Eq, Clone)]
pub struct DataDisplayOptions {
    /// The fields shown as columns of the main list, in order.
    pub main_list_fields: Vec<String>,
    /// Fields shown last in the detail view, as they are not unique to
    /// a request.
    pub common_fields: CommonFields,
    /// The index into `main_list_fields` of the field used to highlight
    /// other related log entries, when set; kept in range by
    /// construction.
    pub emphasize_if_matching_field_idx: Option<usize>,
    /// When set, adds a field of this name holding the zero-based row
    /// number, skipping records that already have the field.
    pub row_idx_field_name: Option<String>,
    /// Controls how lines that fail to parse are treated.
    pub row_parse_error_handling: RowParseErrorHandling,
    /// Optional conversion of numeric severity levels to strings.
    pub level_conversion: Option<LevelConversion>,
    /// Optional injection of each line's byte size.
    pub row_size_config: Option<RowSizeConfig>,
}

impl DataDisplayOptions {
    /// The options are well formed when the common-fields set is sorted
    /// and the emphasis index, if set, is in range.
    pub open spec fn wf(&self) -> bool {
        &&& self.common_fields.wf()
        &&& (self.emphasize_if_matching_field_idx matches Some(i) ==> i
            < self.main_list_fields@.len())
    }

    /// The fields shown as columns of the main list.
    pub fn main_list_fields(&self) -> (r: &Vec<String>)
        ensures
            r == &self.main_list_fields,
    {
        &self.main_list_fields
    }

    /// The index of the column whose value, when it matches the
    /// selected row's, is emphasized.
    pub fn emphasize_if_matching_field_idx(&self) -> (r: Option<usize>)
        ensures
            r == self.emphasize_if_matching_field_idx,
    {
        self.emphasize_if_matching_field_idx
    }

    /// The set of boilerplate field names shown last in the detail
    /// view.
    pub fn common_fields(&self) -> (r: &CommonFields)
        ensures
            r == &self.common_fields,
    {
        &self.common_fields
    }

    /// Builds well-formed options from parts; the common fields are
    /// sorted and deduplicated, and an out-of-range emphasis index is
    /// cleared.
    pub fn new(
        main_list_fields: Vec<String>,
        common_field_names: Vec<String>,
        emphasize_if_matching_field_idx: Option<usize>,
        row_idx_field_name: Option<String>,
        row_parse_error_handling: RowParseErrorHandling,
        level_conversion: Option<LevelConversion>,
        row_size_config: Option<RowSizeConfig>,
    ) -> (r: DataDisplayOptions)
        ensures
            r.wf(),
            forall|i: int|
                0 <= i < common_field_names@.len() ==> r.common_fields.contains_name(
                    (#[trigger] common_field_names@[i])@,
                ),
            forall|s: Seq<char>|
                #[trigger] r.common_fields.contains_name(s) ==> seq_has_name(
                    common_field_names@,
                    s,
                ),
            r.main_list_fields == main_list_fields,
            r.row_idx_field_name == row_idx_field_name,
            r.row_parse_error_handling == row_parse_error_handling,
            r.level_conversion == level_conversion,
            r.row_size_config == row_size_config,
    {
        let emphasize = match emphasize_if_matching_field_idx {
            Some(i) => if i < main_list_fields.len() {
                Some(i)
            } else {
                None
            },
            None => None,
        };
        DataDisplayOptions {
            main_list_fields,
            common_fields: CommonFields::from_names(common_field_names),
            emphasize_if_matching_field_idx: emphasize,
            row_idx_field_name,
            row_parse_error_handling,
            level_conversion,
            row_size_config,
        }
    }
}

impl Default for DataDisplayOptions {
    /// The stock configuration: seven main list columns, the usual
    /// boilerplate fields sorted last, row numbers under `row#`, failed
    /// lines converted, levels translated and row sizes shown.
    fn default() -> (r: Self)
        ensures
            r.wf(),
            r.main_list_fields@.len() == 7,
            r.row_idx_field_name matches Some(k) && k@ == "row#"@,
            r.level_conversion is Some,
            r.row_size_config is Some,
            r.common_fields.contains_name("time"@),
    {
        let mut main_list_fields: Vec<String> = Vec::new();
        main_list_fields.push("row#".to_owned());
        main_list_fields.push("level_str".to_owned());
        main_list_fields.push("row_size".to_owned());
        main_list_fields.push("time".to_owned());
        main_list_fields.push("request_id".to_owned());
        main_list_fields.push("otel.name".to_owned());
        main_list_fields.push("msg".to_owned());
        let mut common_field_names: Vec<String> = Vec::new();
        common_field_names.push("elapsed_milliseconds".to_owned());
        common_field_names.push("file".to_owned());
        common_field_names.push("hostname".to_owned());
        common_field_names.push("http.flavor".to_owned());
        common_field_names.push("http.host".to_owned());
        common_field_names.push("http.method".to_owned());
        common_field_names.push("http.route".to_owned());
        common_field_names.push("http.scheme".to_owned());
        common_field_names.push("http.target".to_owned());
        common_field_names.push("http.user_agent".to_owned());
        common_field_names.push("level".to_owned());
        common_field_names.push("line".to_owned());
        common_field_names.push("name".to_owned());
        common_field_names.push("otel.kind".to_owned());
        common_field_names.push("pid".to_owned());
        common_field_names.push("req".to_owned());
        common_field_names.push("request_id".to_owned());
        common_field_names.push("res".to_owned());
        common_field_names.push("target".to_owned());
        common_field_names.push("time".to_owned());
        common_field_names.push("v".to_owned());
        let ghost names = common_field_names@;
        assert(names[19]@ == "time"@);
        let r = DataDisplayOptions::new(
            main_list_fields,
            common_field_names,
            Some(4),
            Some("row#".to_owned()),
            RowParseErrorHandling::default(),
            Some(LevelConversion::default()),
            Some(RowSizeConfig::default()),
        );
        assert(r.common_fields.contains_name(names[19]@));
        r
    }
}

/// The hash that keys a record's display cache: the common-fields set
/// hashed name by name, as UTF-8 bytes, with the standard library's
/// deterministic default hasher.
pub open spec fn common_fields_hash(names: Seq<String>) -> u64 {
    DefaultHasher::spec_finish(names.map(|i: int, s: String| vstd::utf8::encode_utf8(s@)))
}

/// The hash of the common-fields set that keys the display cache.
pub fn calculate_hash(common_fields: &CommonFields) -> (r: u64)
    ensures
        r == common_fields_hash(common_fields.names_view()),
{
    let mut hasher = DefaultHasher::new();
    let mut i: usize = 0;
    let ghost mapped = common_fields.names@.map(|k: int, s: String| vstd::utf8::encode_utf8(s@));
    while i < common_fields.names.len()
        invariant
            i <= common_fields.names@.len(),
            mapped == common_fields.names@.map(|k: int, s: String| vstd::utf8::encode_utf8(s@)),
            hasher@ == mapped.take(i as int),
        decreases common_fields.names@.len() - i,
    {
        hasher.write(common_fields.names[i].as_str().as_bytes());
        i = i + 1;
        proof {
            assert(hasher@ =~= mapped.take(i as int));
        }
    }
    proof {
        assert(mapped.take(i as int) =~= mapped);
    }
    hasher.finish()
}

} // verus!
