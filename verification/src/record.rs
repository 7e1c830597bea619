//! One parsed log record: an ordered-key mapping from field name to a
//! JSON-like value, plus a lazily computed, invalidatable display
//! cache keyed by the hash of the common-fields set.

use crate::options::{calculate_hash, common_fields_hash, CommonFields};
use crate::text::{chars_cmp, lex_lt, str_to_chars, TextOrder};
use crate::value::{missing_text, slice_view, FieldContent, JsonValue};
use vstd::prelude::*;

verus! {

/// Field lists are kept strictly sorted by name, so keys are unique.
pub open spec fn sorted_fields(fields: Seq<(String, JsonValue)>) -> bool {
    forall|i: int|
        0 <= i && i + 1 < fields.len() ==> lex_lt((#[trigger] fields[i]).0@, fields[i + 1].0@)
}

/// The first value stored under `name`, if any; with sorted fields it
/// is the only one.
pub open spec fn field_of(fields: Seq<(String, JsonValue)>, name: Seq<char>) -> Option<JsonValue>
    decreases fields.len(),
{
    if fields.len() == 0 {
        None
    } else if fields[0].0@ == name {
        Some(fields[0].1)
    } else {
        field_of(fields.drop_first(), name)
    }
}

/// A display-list entry before sorting: whether the field is common,
/// its name, and its rendered value.
pub open spec fn entry_le(a: (bool, Seq<char>, Seq<char>), b: (bool, Seq<char>, Seq<char>)) -> bool {
    if a.0 != b.0 {
        !a.0
    } else if a.1 != b.1 {
        lex_lt(a.1, b.1)
    } else if a.2 != b.2 {
        lex_lt(a.2, b.2)
    } else {
        true
    }
}

/// Inserts `e` into `s` behind every entry ordered at or before it, so
/// insertion keeps equal entries in arrival order.
pub open spec fn insert_entry(
    e: (bool, Seq<char>, Seq<char>),
    s: Seq<(bool, Seq<char>, Seq<char>)>,
) -> Seq<(bool, Seq<char>, Seq<char>)>
    decreases s.len(),
{
    if s.len() > 0 && entry_le(s[0], e) {
        seq![s[0]] + insert_entry(e, s.drop_first())
    } else {
        seq![e] + s
    }
}

/// Insertion sort of display-list entries, processing left to right.
pub open spec fn sort_entries(s: Seq<(bool, Seq<char>, Seq<char>)>) -> Seq<
    (bool, Seq<char>, Seq<char>),
>
    decreases s.len(),
{
    if s.len() == 0 {
        Seq::empty()
    } else {
        insert_entry(s.last(), sort_entries(s.drop_last()))
    }
}

/// The synthetic separator's name: the sentinel text with a leading
/// space, so it sorts first inside the common block.
pub open spec fn sentinel_key() -> Seq<char> {
    seq![' '] + missing_text()
}

/// The unsorted display entries of a record: one entry per field,
/// marked common or not, plus the synthetic separator entry, itself
/// marked common.
pub open spec fn build_entries(fields: Seq<(String, JsonValue)>, cf: CommonFields) -> Seq<
    (bool, Seq<char>, Seq<char>),
> {
    fields.map(|i: int, p: (String, JsonValue)| (cf.contains_name(p.0@), p.0@, p.1.display_spec()))
        .push((true, sentinel_key(), missing_text()))
}

/// The rendered display list of a record under a common-fields set:
/// every field as a (name, rendered value) pair, fields not in the set
/// sorted before fields in it, each group sorted by name, with the
/// separator pair anchored at the top of the common block.
pub open spec fn display_list(fields: Seq<(String, JsonValue)>, cf: CommonFields) -> Seq<
    (Seq<char>, Seq<char>),
> {
    sort_entries(build_entries(fields, cf)).map(
        |i: int, e: (bool, Seq<char>, Seq<char>)| (e.1, e.2),
    )
}

/// The memoized display list of a record, keyed by the hash of the
/// common-fields set it was built from.
#[derive(Debug, PartialEq, Eq, Clone)]
struct CachedDisplayInfo {
    data: Vec<(String, String)>,
    common_fields_hash: u64,
}

/// One parsed log entry: an ordered-key field mapping with its display
/// cache. Each record owns its mapping and its cache; nothing is
/// shared across records.
#[derive(Debug, PartialEq, Eq, Clone)]
pub struct LogRow {
    data: Vec<(String, JsonValue)>,
    cached_display_list: Option<CachedDisplayInfo>,
}

impl LogRow {
    /// The record's fields in stored (sorted) order.
    pub closed spec fn fields_view(&self) -> Seq<(String, JsonValue)> {
        self.data@
    }

    /// The cache as hash and rendered views, if populated.
    pub closed spec fn cache_view(&self) -> Option<(u64, Seq<(Seq<char>, Seq<char>)>)> {
        match self.cached_display_list {
            Some(c) => Some((c.common_fields_hash, slice_view(c.data@))),
            None => None,
        }
    }

    /// A record is well formed when its fields are strictly sorted by
    /// name and its cache, if populated, is the display list of its
    /// fields under some common-fields set with the stored hash.
    pub open spec fn wf(&self) -> bool {
        &&& sorted_fields(self.fields_view())
        &&& match self.cache_view() {
            Some((h, d)) => exists|cf: CommonFields|
                common_fields_hash(#[trigger] cf.names_view()) == h && d == display_list(
                    self.fields_view(),
                    cf,
                ),
            None => true,
        }
    }

    /// A record over an already sorted field list, with no cache.
    pub fn from_sorted_fields(data: Vec<(String, JsonValue)>) -> (r: LogRow)
        requires
            sorted_fields(data@),
        ensures
            r.wf(),
            r.fields_view() == data@,
            r.cache_view() is None,
    {
        LogRow { data, cached_display_list: None }
    }

    /// The value stored under `name`, viewed mathematically.
    pub open spec fn field_view(&self, name: Seq<char>) -> Option<crate::value::ValueView> {
        match field_of(self.fields_view(), name) {
            Some(v) => Some(v.view_spec()),
            None => None,
        }
    }

    /// A reference to the stored field list.
    pub fn fields_ref(&self) -> (r: &Vec<(String, JsonValue)>)
        ensures
            r@ == self.fields_view(),
    {
        &self.data
    }

    /// An empty record with no cache.
    pub fn new() -> (r: LogRow)
        ensures
            r.wf(),
            r.fields_view().len() == 0,
            r.cache_view() is None,
    {
        LogRow { data: Vec::new(), cached_display_list: None }
    }

    /// Looks the field up by name; absence is an ordinary result.
    pub fn field_value(&self, field_name: &str) -> (r: FieldContent<'_>)
        ensures
            match field_of(self.fields_view(), field_name@) {
                Some(v) => r matches FieldContent::Present(p) && *p == v,
                None => r is Missing,
            },
    {
        let name_chars = str_to_chars(field_name);
        let mut i: usize = 0;
        while i < self.data.len()
            invariant
                i <= self.data@.len(),
                name_chars@ == field_name@,
                forall|j: int| 0 <= j < i ==> (#[trigger] self.data@[j]).0@ != field_name@,
            decreases self.data@.len() - i,
        {
            let entry_chars = str_to_chars(self.data[i].0.as_str());
            if matches!(chars_cmp(&entry_chars, &name_chars), TextOrder::Equal) {
                proof {
                    lemma_field_of_skip(self.data@, field_name@, i as int);
                }
                return FieldContent::Present(&self.data[i].1);
            }
            i = i + 1;
        }
        proof {
            lemma_field_of_skip(self.data@, field_name@, i as int);
        }
        FieldContent::Missing
    }

    /// What a display access returns: the cached pairs when the stored
    /// hash matches the supplied set's hash, else the freshly built
    /// display list.
    pub open spec fn display_slice_spec(&self, cf: CommonFields) -> Seq<(Seq<char>, Seq<char>)> {
        match self.cache_view() {
            Some((h, d)) => if h == common_fields_hash(cf.names_view()) {
                d
            } else {
                display_list(self.fields_view(), cf)
            },
            None => display_list(self.fields_view(), cf),
        }
    }

    /// The record's display pairs under `common_fields`, rebuilding the
    /// cache first if it is absent or was keyed by a different hash.
    /// When the cache is rebuilt — in particular whenever the supplied
    /// set's hash differs from the stored one — the result is exactly
    /// the display list of the fields under `common_fields`, never the
    /// stale pairs of the previous set.
    pub fn as_slice(&mut self, common_fields: &CommonFields) -> (r: Vec<(String, String)>)
        requires
            old(self).wf(),
        ensures
            final(self).wf(),
            final(self).fields_view() == old(self).fields_view(),
            slice_view(r@) == old(self).display_slice_spec(*common_fields),
            final(self).cache_view() matches Some((h, d)) && h == common_fields_hash(
                common_fields.names_view(),
            ) && d == slice_view(r@),
    {
        let h = calculate_hash(common_fields);
        let mut cache_hit = false;
        if let Some(cache) = &self.cached_display_list {
            if cache.common_fields_hash == h {
                cache_hit = true;
            }
        }
        if cache_hit {
            if let Some(cache) = &self.cached_display_list {
                return clone_pairs(&cache.data);
            }
        }
        let list = build_display_list(&self.data, common_fields);
        let stored = clone_pairs(&list);
        self.cached_display_list = Some(
            CachedDisplayInfo { data: stored, common_fields_hash: h },
        );
        proof {
            let cf = *common_fields;
            assert(common_fields_hash(cf.names_view()) == h && slice_view(list@) == display_list(
                self.fields_view(),
                cf,
            ));
        }
        list
    }

    /// The display pairs of the fields under `common_fields`, built
    /// fresh without reading or touching the cache; filtering uses this
    /// so that matching is a pure function of record content.
    pub fn rendered_list(&self, common_fields: &CommonFields) -> (r: Vec<(String, String)>)
        ensures
            slice_view(r@) == display_list(self.fields_view(), *common_fields),
    {
        build_display_list(&self.data, common_fields)
    }

    /// Adds the value at the key if the key does not exist. Any cached
    /// display list is dropped, since it would no longer describe the
    /// fields.
    #[verifier::rlimit(50)]
    pub fn or_insert(&mut self, key: String, value: JsonValue)
        requires
            old(self).wf(),
        ensures
            final(self).wf(),
            final(self).cache_view() is None,
            field_of(final(self).fields_view(), key@) == match field_of(
                old(self).fields_view(),
                key@,
            ) {
                Some(v) => Some(v),
                None => Some(value),
            },
            forall|n: Seq<char>|
                n != key@ ==> #[trigger] field_of(final(self).fields_view(), n) == field_of(
                    old(self).fields_view(),
                    n,
                ),
    {
        self.cached_display_list = None;
        let key_chars = str_to_chars(key.as_str());
        let mut pos: usize = 0;
        while pos < self.data.len()
            invariant
                pos <= self.data@.len(),
                self.data@ == old(self).data@,
                self.cached_display_list is None,
                sorted_fields(self.data@),
                key_chars@ == key@,
                forall|j: int| 0 <= j < pos ==> lex_lt((#[trigger] self.data@[j]).0@, key@),
            decreases self.data@.len() - pos,
        {
            let entry_chars = str_to_chars(self.data[pos].0.as_str());
            match chars_cmp(&entry_chars, &key_chars) {
                TextOrder::Less => {
                    pos = pos + 1;
                },
                TextOrder::Equal => {
                    proof {
                        lemma_field_of_skip(self.data@, key@, pos as int);
                        assert(self.data@.skip(pos as int)[0] == self.data@[pos as int]);
                        assert(field_of(self.data@.skip(pos as int), key@) == Some(
                            self.data@[pos as int].1,
                        ));
                    }
                    return ;
                },
                TextOrder::Greater => {
                    let ghost before = self.data@;
                    let ghost p = pos as int;
                    self.data.insert(pos, (key, value));
                    proof {
                        assert forall|j: int| 0 <= j < before.len() implies (#[trigger] before[j]).0@
                            != key@ by {
                            if j < p {
                                crate::text::lemma_lex_neq(before[j].0@, key@);
                            } else if j == p {
                                crate::text::lemma_lex_neq(key@, before[j].0@);
                            } else {
                                lemma_sorted_pairwise(before, p, j);
                                crate::text::lemma_lex_trans(key@, before[p].0@, before[j].0@);
                                crate::text::lemma_lex_neq(key@, before[j].0@);
                            }
                        }
                        lemma_field_absent(before, key@);
                        lemma_field_insert_facts(before, self.data@, key@, value, p);
                    }
                    return ;
                },
            }
        }
        let ghost before = self.data@;
        let ghost p = pos as int;
        self.data.push((key, value));
        proof {
            assert(self.data@ =~= before.insert(p, (key, value)));
            assert forall|j: int| 0 <= j < before.len() implies (#[trigger] before[j]).0@
                != key@ by {
                crate::text::lemma_lex_neq(before[j].0@, key@);
            }
            lemma_field_absent(before, key@);
            lemma_field_insert_facts(before, self.data@, key@, value, p);
        }
    }
}

/// A run of display entries is ordered when each adjacent pair is.
pub open spec fn entries_ordered(s: Seq<(bool, Seq<char>, Seq<char>)>) -> bool {
    forall|i: int| 0 <= i && i + 1 < s.len() ==> entry_le(#[trigger] s[i], s[i + 1])
}

/// The entry order is total.
proof fn lemma_entry_le_total(a: (bool, Seq<char>, Seq<char>), b: (bool, Seq<char>, Seq<char>))
    ensures
        entry_le(a, b) || entry_le(b, a),
{
    if a.0 == b.0 {
        if a.1 != b.1 {
            crate::text::lemma_lex_total(a.1, b.1);
        } else if a.2 != b.2 {
            crate::text::lemma_lex_total(a.2, b.2);
        }
    }
}

/// Inserting keeps an ordered run ordered.
proof fn lemma_insert_entry_ordered(
    e: (bool, Seq<char>, Seq<char>),
    s: Seq<(bool, Seq<char>, Seq<char>)>,
)
    requires
        entries_ordered(s),
    ensures
        entries_ordered(insert_entry(e, s)),
    decreases s.len(),
{
    if s.len() == 0 {
    } else if entry_le(s[0], e) {
        let rest = s.drop_first();
        assert(entries_ordered(rest));
        lemma_insert_entry_ordered(e, rest);
        let inserted = insert_entry(e, rest);
        let whole = seq![s[0]] + inserted;
        assert(inserted.len() > 0);
        assert(inserted[0] == e || (rest.len() > 0 && inserted[0] == rest[0])) by {
            if rest.len() > 0 && entry_le(rest[0], e) {
            } else {
            }
        }
        assert(entry_le(s[0], whole[1]));
        assert forall|i: int| 0 <= i && i + 1 < whole.len() implies entry_le(
            #[trigger] whole[i],
            whole[i + 1],
        ) by {
            if i > 0 {
                assert(whole[i] == inserted[i - 1]);
                assert(whole[i + 1] == inserted[i]);
            }
        }
    } else {
        lemma_entry_le_total(s[0], e);
        assert(entry_le(e, s[0]));
        let whole = seq![e] + s;
        assert forall|i: int| 0 <= i && i + 1 < whole.len() implies entry_le(
            #[trigger] whole[i],
            whole[i + 1],
        ) by {
            if i > 0 {
                assert(whole[i] == s[i - 1]);
                assert(whole[i + 1] == s[i]);
            }
        }
    }
}

/// Sorting yields an ordered run.
proof fn lemma_sort_entries_ordered(s: Seq<(bool, Seq<char>, Seq<char>)>)
    ensures
        entries_ordered(sort_entries(s)),
    decreases s.len(),
{
    if s.len() > 0 {
        lemma_sort_entries_ordered(s.drop_last());
        lemma_insert_entry_ordered(s.last(), sort_entries(s.drop_last()));
    }
}

/// The display list is always ordered per the display invariant,
/// regardless of field insertion order: entries not in the common set
/// precede entries in it, each block is sorted by field name and then
/// by rendered value, and the synthetic separator sits inside the
/// common block.
pub proof fn lemma_display_list_ordered(fields: Seq<(String, JsonValue)>, cf: CommonFields)
    ensures
        entries_ordered(sort_entries(build_entries(fields, cf))),
{
    lemma_sort_entries_ordered(build_entries(fields, cf));
}

/// The view of one unsorted display entry.
pub open spec fn ent_view(e: (bool, String, String)) -> (bool, Seq<char>, Seq<char>) {
    (e.0, e.1@, e.2@)
}

/// The views of a vector of unsorted display entries.
pub open spec fn ents_view(s: Seq<(bool, String, String)>) -> Seq<(bool, Seq<char>, Seq<char>)> {
    s.map(|i: int, e: (bool, String, String)| ent_view(e))
}

/// Compares two display entries: non-common before common, then by
/// name, then by rendered value.
fn entry_le_exec(a: &(bool, String, String), b: &(bool, String, String)) -> (r: bool)
    ensures
        r == entry_le(ent_view(*a), ent_view(*b)),
{
    if a.0 != b.0 {
        !a.0
    } else {
        let a1 = str_to_chars(a.1.as_str());
        let b1 = str_to_chars(b.1.as_str());
        match chars_cmp(&a1, &b1) {
            TextOrder::Less => true,
            TextOrder::Greater => false,
            TextOrder::Equal => {
                let a2 = str_to_chars(a.2.as_str());
                let b2 = str_to_chars(b.2.as_str());
                !matches!(chars_cmp(&a2, &b2), TextOrder::Greater)
            },
        }
    }
}

/// Inserting skips any prefix of entries ordered at or before the new
/// one.
proof fn lemma_insert_entry_skip(
    e: (bool, Seq<char>, Seq<char>),
    s: Seq<(bool, Seq<char>, Seq<char>)>,
    pos: int,
)
    requires
        0 <= pos <= s.len(),
        forall|j: int| 0 <= j < pos ==> entry_le(#[trigger] s[j], e),
    ensures
        insert_entry(e, s) == s.take(pos) + insert_entry(e, s.skip(pos)),
    decreases pos,
{
    if pos == 0 {
        assert(s.take(0) + insert_entry(e, s.skip(0)) =~= insert_entry(e, s.skip(0)));
        assert(s.skip(0) =~= s);
    } else {
        assert(entry_le(s[0], e));
        lemma_insert_entry_skip(e, s.drop_first(), pos - 1);
        assert(s.drop_first().take(pos - 1) =~= s.take(pos).drop_first());
        assert(s.drop_first().skip(pos - 1) =~= s.skip(pos));
        assert(seq![s[0]] + (s.take(pos).drop_first() + insert_entry(e, s.skip(pos))) =~= s.take(
            pos,
        ) + insert_entry(e, s.skip(pos)));
    }
}

/// Inserts one entry into an already sorted entry vector at the last
/// position that keeps equal entries in arrival order.
fn insert_entry_exec(v: &mut Vec<(bool, String, String)>, e: (bool, String, String))
    ensures
        ents_view(final(v)@) == insert_entry(ent_view(e), ents_view(old(v)@)),
{
    let mut pos: usize = 0;
    while pos < v.len() && entry_le_exec(&v[pos], &e)
        invariant
            pos <= v@.len(),
            v@ == old(v)@,
            forall|j: int| 0 <= j < pos ==> entry_le(#[trigger] ents_view(v@)[j], ent_view(e)),
        decreases v@.len() - pos,
    {
        pos = pos + 1;
    }
    let ghost before = ents_view(v@);
    let ghost p = pos as int;
    v.insert(pos, e);
    proof {
        lemma_insert_entry_skip(ent_view(e), before, p);
        assert(insert_entry(ent_view(e), before.skip(p)) =~= seq![ent_view(e)] + before.skip(p));
        assert(ents_view(v@) =~= before.take(p) + (seq![ent_view(e)] + before.skip(p)));
    }
}

/// Builds the sorted display list of a field mapping under a
/// common-fields set, with the synthetic separator entry included.
fn build_display_list(data: &Vec<(String, JsonValue)>, cf: &CommonFields) -> (r: Vec<
    (String, String),
>)
    ensures
        slice_view(r@) == display_list(data@, *cf),
{
    let ghost mapped = data@.map(
        |i: int, p: (String, JsonValue)| (cf.contains_name(p.0@), p.0@, p.1.display_spec()),
    );
    let mut sorted: Vec<(bool, String, String)> = Vec::new();
    let mut i: usize = 0;
    proof {
        assert(ents_view(sorted@) =~= sort_entries(mapped.take(0)));
    }
    while i < data.len()
        invariant
            i <= data@.len(),
            mapped == data@.map(
                |k: int, p: (String, JsonValue)| (cf.contains_name(p.0@), p.0@, p.1.display_spec()),
            ),
            ents_view(sorted@) == sort_entries(mapped.take(i as int)),
        decreases data@.len() - i,
    {
        let entry = &data[i];
        let is_common = cf.contains(entry.0.as_str());
        let rendered = FieldContent::Present(&entry.1).display();
        let ghost prev = mapped.take(i as int);
        insert_entry_exec(&mut sorted, (is_common, entry.0.clone(), rendered));
        i = i + 1;
        proof {
            let now = mapped.take(i as int);
            assert(now.drop_last() =~= prev);
            assert(now.last() == mapped[i - 1]);
            assert(mapped[i - 1] == (
                cf.contains_name(data@[i - 1].0@),
                data@[i - 1].0@,
                data@[i - 1].1.display_spec(),
            ));
        }
    }
    proof {
        assert(mapped.take(i as int) =~= mapped);
        reveal_strlit(" [ --- ]");
        reveal_strlit("[ --- ]");
        assert(" [ --- ]"@ =~= sentinel_key());
        assert("[ --- ]"@ =~= missing_text());
    }
    let separator_entry = (true, " [ --- ]".to_owned(), "[ --- ]".to_owned());
    insert_entry_exec(&mut sorted, separator_entry);
    proof {
        let built = build_entries(data@, *cf);
        assert(built.drop_last() =~= mapped);
        assert(built.last() == (true, sentinel_key(), missing_text()));
        assert(ents_view(sorted@) == sort_entries(built));
    }
    let mut r: Vec<(String, String)> = Vec::new();
    let mut k: usize = 0;
    while k < sorted.len()
        invariant
            k <= sorted@.len(),
            ents_view(sorted@) == sort_entries(build_entries(data@, *cf)),
            r@.len() == k,
            forall|j: int|
                0 <= j < k ==> (#[trigger] r@[j]).0@ == ents_view(sorted@)[j].1 && r@[j].1@
                    == ents_view(sorted@)[j].2,
        decreases sorted@.len() - k,
    {
        let entry = &sorted[k];
        r.push((entry.1.clone(), entry.2.clone()));
        k = k + 1;
    }
    proof {
        assert(slice_view(r@) =~= display_list(data@, *cf));
    }
    r
}

/// Clones a rendered display list, preserving its views.
fn clone_pairs(v: &Vec<(String, String)>) -> (r: Vec<(String, String)>)
    ensures
        r@ == v@,
{
    let mut r: Vec<(String, String)> = Vec::new();
    let mut i: usize = 0;
    while i < v.len()
        invariant
            i <= v@.len(),
            r@ == v@.take(i as int),
        decreases v@.len() - i,
    {
        let entry = &v[i];
        r.push((entry.0.clone(), entry.1.clone()));
        i = i + 1;
        proof {
            assert(r@ =~= v@.take(i as int));
        }
    }
    proof {
        assert(v@.take(i as int) =~= v@);
    }
    r
}

/// In a strictly sorted field list every earlier name is ordered below
/// every later one.
pub proof fn lemma_sorted_pairwise(fields: Seq<(String, JsonValue)>, i: int, j: int)
    requires
        sorted_fields(fields),
        0 <= i < j < fields.len(),
    ensures
        lex_lt(fields[i].0@, fields[j].0@),
    decreases j - i,
{
    if j == i + 1 {
    } else {
        lemma_sorted_pairwise(fields, i, j - 1);
        crate::text::lemma_lex_trans(fields[i].0@, fields[j - 1].0@, fields[j].0@);
    }
}

/// A name that no field bears looks up to nothing.
proof fn lemma_field_absent(fields: Seq<(String, JsonValue)>, name: Seq<char>)
    requires
        forall|j: int| 0 <= j < fields.len() ==> (#[trigger] fields[j]).0@ != name,
    ensures
        field_of(fields, name) is None,
    decreases fields.len(),
{
    if fields.len() > 0 {
        lemma_field_absent(fields.drop_first(), name);
    }
}

impl Default for LogRow {
    /// An empty record with no cache.
    fn default() -> (r: Self)
        ensures
            r.wf(),
            r.fields_view().len() == 0,
            r.cache_view() is None,
    {
        LogRow::new()
    }
}

/// Looking a name up skips any prefix of fields with other names.
proof fn lemma_field_of_skip(fields: Seq<(String, JsonValue)>, name: Seq<char>, i: int)
    requires
        0 <= i <= fields.len(),
        forall|j: int| 0 <= j < i ==> (#[trigger] fields[j]).0@ != name,
    ensures
        field_of(fields, name) == field_of(fields.skip(i), name),
    decreases i,
{
    if i > 0 {
        assert(fields[0].0@ != name);
        lemma_field_of_skip(fields.drop_first(), name, i - 1);
        assert(fields.drop_first().skip(i - 1) =~= fields.skip(i));
    } else {
        assert(fields.skip(0) =~= fields);
    }
}

/// Inserting a new key at its sorted position keeps the fields sorted,
/// maps the key to the value, and leaves every other name's lookup
/// unchanged.
#[verifier::rlimit(100)]
#[verifier::spinoff_prover]
proof fn lemma_field_insert_facts(
    before: Seq<(String, JsonValue)>,
    after: Seq<(String, JsonValue)>,
    key: Seq<char>,
    value: JsonValue,
    p: int,
)
    requires
        sorted_fields(before),
        0 <= p <= before.len(),
        after.len() == before.len() + 1,
        after[p].0@ == key,
        after[p].1 == value,
        forall|j: int| 0 <= j < p ==> after[j] == before[j],
        forall|j: int| p < j < after.len() ==> after[j] == before[j - 1],
        forall|j: int| 0 <= j < p ==> lex_lt((#[trigger] before[j]).0@, key),
        p < before.len() ==> lex_lt(key, before[p].0@),
    ensures
        sorted_fields(after),
        field_of(after, key) == Some(value),
        forall|n: Seq<char>|
            n != key ==> #[trigger] field_of(after, n) == field_of(before, n),
    decreases p,
{
    assert forall|i: int| 0 <= i && i + 1 < after.len() implies lex_lt(
        (#[trigger] after[i]).0@,
        after[i + 1].0@,
    ) by {
        if i + 1 < p {
        } else if i + 1 == p {
        } else if i == p {
        } else {
        }
    }
    if p == 0 {
        assert(after[0].0@ == key);
        assert(after.drop_first() =~= before);
        assert(field_of(after, key) == Some(value));
        assert forall|n: Seq<char>| n != key implies #[trigger] field_of(after, n) == field_of(
            before,
            n,
        ) by {
            assert(field_of(after, n) == field_of(after.drop_first(), n));
        }
    } else {
        assert(after[0] == before[0]);
        assert(before[0].0@ != key);
        lemma_field_insert_facts(before.drop_first(), after.drop_first(), key, value, p - 1);
        assert forall|n: Seq<char>| n != key implies #[trigger] field_of(after, n) == field_of(
            before,
            n,
        ) by {
            if after[0].0@ == n {
            } else {
                assert(field_of(after, n) == field_of(after.drop_first(), n));
                assert(field_of(before, n) == field_of(before.drop_first(), n));
            }
        }
        assert(after[0].0@ != key);
        assert(field_of(after, key) == field_of(after.drop_first(), key));
    }
}

} // verus!
