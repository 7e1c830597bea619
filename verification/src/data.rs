//! The record store and filtered view: the full record sequence, an
//! optional filtered index list over it, the applied filter, and a
//! selection cursor in visible-index space.

use crate::filter::{matching_fields, slice_matches, FilterConfig};
use crate::options::CommonFields;
use crate::record::{display_list, LogRow};
use vstd::prelude::*;

verus! {

/// The position of the first occurrence of `x` in `s`, if any.
pub open spec fn seq_position(s: Seq<usize>, x: usize) -> Option<int>
    decreases s.len(),
{
    if s.len() == 0 {
        None
    } else if s[0] == x {
        Some(0int)
    } else {
        match seq_position(s.drop_first(), x) {
            Some(p) => Some(p + 1),
            None => None,
        }
    }
}

/// A found position, converted to the index type of the store.
pub open spec fn position_as_usize(o: Option<int>) -> Option<usize> {
    match o {
        Some(p) => Some(p as usize),
        None => None,
    }
}

/// The ascending positions of the records whose display list under
/// `cf` satisfies the filter: the visible set that applying `f` yields.
pub open spec fn filter_indices(rows: Seq<LogRow>, cf: CommonFields, f: FilterConfig) -> Seq<usize>
    decreases rows.len(),
{
    if rows.len() == 0 {
        Seq::empty()
    } else {
        let prefix = filter_indices(rows.drop_last(), cf, f);
        if slice_matches(display_list(rows.last().fields_view(), cf), f) {
            prefix.push((rows.len() - 1) as usize)
        } else {
            prefix
        }
    }
}

/// The record store with its filtered view. The record sequence is
/// append-only after ingestion; the filtered index list, when present,
/// is an ascending list of positions into it; the applied filter is
/// present exactly when the index list is; the selection cursor lives
/// in visible-index space.
#[derive(Debug, PartialEq, Eq)]
pub struct Data {
    /// The selection cursor, as an index into the visible rows.
    pub selected_row: Option<usize>,
    /// The pending filter specification, editable by the caller; it
    /// becomes effective when `apply_filter` runs.
    pub filter: Option<FilterConfig>,
    rows: Vec<LogRow>,
    filtered_rows: Option<Vec<usize>>,
    applied_filter: Option<FilterConfig>,
    /// The ingested text's size, rendered for display.
    pub file_size: String,
}

impl Data {
    /// The full record sequence.
    pub closed spec fn rows_view(&self) -> Seq<LogRow> {
        self.rows@
    }

    /// The filtered index list, when a filter is applied.
    pub closed spec fn filtered_view(&self) -> Option<Seq<usize>> {
        match self.filtered_rows {
            Some(v) => Some(v@),
            None => None,
        }
    }

    /// The currently applied filter, if any.
    pub closed spec fn applied_view(&self) -> Option<FilterConfig> {
        self.applied_filter
    }

    /// The selection cursor.
    pub closed spec fn selected_view(&self) -> Option<usize> {
        self.selected_row
    }

    /// The pending filter specification.
    pub closed spec fn filter_view(&self) -> Option<FilterConfig> {
        self.filter
    }

    /// The rendered size text.
    pub closed spec fn file_size_view(&self) -> Seq<char> {
        self.file_size@
    }

    /// How many rows are visible: the filtered count when filtered,
    /// else the total count.
    pub open spec fn visible_len(&self) -> nat {
        match self.filtered_view() {
            Some(fv) => fv.len(),
            None => self.rows_view().len(),
        }
    }

    /// The real index a visible index denotes: itself when unfiltered,
    /// else the indirection through the filtered list.
    pub open spec fn real_index_spec(&self, i: int) -> int {
        match self.filtered_view() {
            Some(fv) => fv[i] as int,
            None => i,
        }
    }

    /// Whether a filter is currently applied.
    pub open spec fn is_filtered_spec(&self) -> bool {
        self.filtered_view() is Some
    }

    /// Every stored record is well formed.
    pub open spec fn rows_wf(&self) -> bool {
        forall|i: int| 0 <= i < self.rows_view().len() ==> (#[trigger] self.rows_view()[i]).wf()
    }

    /// The cross-field invariants of the store: records well formed;
    /// the filtered list, when present, strictly increasing with every
    /// entry in range; the applied filter present exactly when the list
    /// is; the cursor, when present, within the visible range.
    pub open spec fn wf(&self) -> bool {
        &&& self.rows_wf()
        &&& match self.filtered_view() {
            Some(fv) => {
                &&& forall|i: int|
                    0 <= i < fv.len() ==> (#[trigger] fv[i]) < self.rows_view().len()
                &&& forall|i: int| 0 <= i && i + 1 < fv.len() ==> (#[trigger] fv[i]) < fv[i + 1]
            },
            None => true,
        }
        &&& (self.filtered_view() is Some) == (self.applied_view() is Some)
        &&& match self.selected_view() {
            Some(s) => (s as nat) < self.visible_len(),
            None => true,
        }
    }

    /// Everything but the selection cursor is unchanged between the two
    /// states.
    pub open spec fn same_but_selection(&self, other: &Data) -> bool {
        &&& self.rows_view() == other.rows_view()
        &&& self.filtered_view() == other.filtered_view()
        &&& self.applied_view() == other.applied_view()
        &&& self.filter_view() == other.filter_view()
        &&& self.file_size_view() == other.file_size_view()
    }

    /// An empty store: no rows, no filter, no selection.
    pub fn new() -> (r: Data)
        ensures
            r.wf(),
            r.rows_view().len() == 0,
            r.filtered_view() is None,
            r.applied_view() is None,
            r.selected_view() is None,
            r.filter_view() is None,
            r.file_size_view() == Seq::<char>::empty(),
    {
        Data {
            selected_row: None,
            filter: None,
            rows: Vec::new(),
            filtered_rows: None,
            applied_filter: None,
            file_size: String::new(),
        }
    }

    /// A store over the given records, unfiltered and unselected.
    pub fn from_rows(rows: Vec<LogRow>) -> (r: Data)
        requires
            forall|i: int| 0 <= i < rows@.len() ==> (#[trigger] rows@[i]).wf(),
        ensures
            r.wf(),
            r.rows_view() == rows@,
            r.filtered_view() is None,
            r.applied_view() is None,
            r.selected_view() is None,
            r.filter_view() is None,
            r.file_size_view() == Seq::<char>::empty(),
    {
        Data {
            selected_row: None,
            filter: None,
            rows,
            filtered_rows: None,
            applied_filter: None,
            file_size: String::new(),
        }
    }

    /// Appends a record to the full sequence; used by ingestion, before
    /// any filtering.
    pub fn push_row(&mut self, row: LogRow)
        requires
            old(self).wf(),
            old(self).filtered_view() is None,
            row.wf(),
        ensures
            final(self).wf(),
            final(self).rows_view() == old(self).rows_view().push(row),
            final(self).filtered_view() is None,
            final(self).applied_view() == old(self).applied_view(),
            final(self).selected_view() == old(self).selected_view(),
            final(self).filter_view() == old(self).filter_view(),
            final(self).file_size_view() == old(self).file_size_view(),
    {
        self.rows.push(row);
        proof {
            assert forall|i: int|
                0 <= i < self.rows_view().len() implies (#[trigger] self.rows_view()[i]).wf() by {
                if i < old(self).rows_view().len() {
                    assert(self.rows_view()[i] == old(self).rows_view()[i]);
                } else {
                    assert(self.rows_view()[i] == row);
                }
            }
        }
    }

    /// Sets the displayed size text of the ingested input.
    pub fn set_file_size(&mut self, text: String)
        requires
            old(self).wf(),
        ensures
            final(self).wf(),
            final(self).file_size_view() == text@,
            final(self).rows_view() == old(self).rows_view(),
            final(self).filtered_view() == old(self).filtered_view(),
            final(self).applied_view() == old(self).applied_view(),
            final(self).selected_view() == old(self).selected_view(),
            final(self).filter_view() == old(self).filter_view(),
    {
        self.file_size = text;
        proof {
            assert forall|i: int|
                0 <= i < self.rows_view().len() implies (#[trigger] self.rows_view()[i]).wf() by {
                assert(self.rows_view()[i] == old(self).rows_view()[i]);
            }
        }
    }

    /// How many rows are visible under the current filter state.
    pub fn len(&self) -> (r: usize)
        ensures
            r == self.visible_len(),
    {
        if let Some(filtered) = &self.filtered_rows {
            filtered.len()
        } else {
            self.rows.len()
        }
    }

    /// The full record count, irrespective of the filter state.
    pub fn total_len_unfiltered(&self) -> (r: usize)
        ensures
            r == self.rows_view().len(),
    {
        self.rows.len()
    }

    /// Translates a visible index to its real index: the identity when
    /// unfiltered, else the indirection through the filtered list.
    pub fn get_real_index(&self, index: usize) -> (r: usize)
        requires
            self.wf(),
            index < self.visible_len(),
        ensures
            r == self.real_index_spec(index as int),
            r < self.rows_view().len(),
    {
        if let Some(filtered) = &self.filtered_rows {
            filtered[index]
        } else {
            index
        }
    }

    /// Whether a filter is currently applied.
    pub fn is_filtered(&self) -> (r: bool)
        ensures
            r == self.is_filtered_spec(),
    {
        self.filtered_rows.is_some()
    }

    /// Advances the cursor by one visible row; with no selection it
    /// selects the first visible row, and at the last row it stays put.
    pub fn move_selected_to_next(&mut self)
        requires
            old(self).wf(),
        ensures
            final(self).wf(),
            final(self).same_but_selection(old(self)),
            final(self).selected_view() == match old(self).selected_view() {
                Some(s) => if s + 1 < old(self).visible_len() {
                    Some((s + 1) as usize)
                } else {
                    Some(s)
                },
                None => if old(self).visible_len() > 0 {
                    Some(0usize)
                } else {
                    None
                },
            },
    {
        let n = self.len();
        match self.selected_row {
            Some(selected) => {
                if selected < n - 1 {
                    self.selected_row = Some(selected + 1);
                }
            },
            None => self.move_selected_to_first(),
        }
    }

    /// Moves the cursor back by one visible row; with no selection it
    /// selects the last visible row, and at the first row it stays put.
    pub fn move_selected_to_prev(&mut self)
        requires
            old(self).wf(),
        ensures
            final(self).wf(),
            final(self).same_but_selection(old(self)),
            final(self).selected_view() == match old(self).selected_view() {
                Some(s) => if s > 0 {
                    Some((s - 1) as usize)
                } else {
                    Some(s)
                },
                None => if old(self).visible_len() > 0 {
                    Some((old(self).visible_len() - 1) as usize)
                } else {
                    None
                },
            },
    {
        match self.selected_row {
            Some(selected) => {
                if selected > 0 {
                    self.selected_row = Some(selected - 1);
                }
            },
            None => self.move_selected_to_last(),
        }
    }

    /// Selects the first visible row, or does nothing when no rows are
    /// visible.
    pub fn move_selected_to_first(&mut self)
        requires
            old(self).wf(),
        ensures
            final(self).wf(),
            final(self).same_but_selection(old(self)),
            final(self).selected_view() == if old(self).visible_len() > 0 {
                Some(0usize)
            } else {
                old(self).selected_view()
            },
    {
        if self.len() > 0 {
            self.selected_row = Some(0);
        }
    }

    /// Selects the last visible row, or does nothing when no rows are
    /// visible.
    pub fn move_selected_to_last(&mut self)
        requires
            old(self).wf(),
        ensures
            final(self).wf(),
            final(self).same_but_selection(old(self)),
            final(self).selected_view() == if old(self).visible_len() > 0 {
                Some((old(self).visible_len() - 1) as usize)
            } else {
                old(self).selected_view()
            },
    {
        let n = self.len();
        if n > 0 {
            self.selected_row = Some(n - 1);
        }
    }
}

/// A found position is in range and holds the value.
proof fn lemma_seq_position_found(s: Seq<usize>, x: usize)
    ensures
        match seq_position(s, x) {
            Some(p) => 0 <= p < s.len() && s[p] == x,
            None => true,
        },
    decreases s.len(),
{
    if s.len() == 0 {
    } else if s[0] == x {
    } else {
        lemma_seq_position_found(s.drop_first(), x);
        match seq_position(s.drop_first(), x) {
            Some(p) => {
                assert(s[p + 1] == s.drop_first()[p]);
            },
            None => {},
        }
    }
}

/// Searching for a value skips any prefix that does not hold it.
proof fn lemma_seq_position_skip(s: Seq<usize>, x: usize, i: int)
    requires
        0 <= i <= s.len(),
        forall|j: int| 0 <= j < i ==> s[j] != x,
    ensures
        seq_position(s, x) == match seq_position(s.skip(i), x) {
            Some(p) => Some(p + i),
            None => None,
        },
    decreases i,
{
    if i == 0 {
        assert(s.skip(0) =~= s);
    } else {
        assert(s[0] != x);
        lemma_seq_position_skip(s.drop_first(), x, i - 1);
        assert(s.drop_first().skip(i - 1) =~= s.skip(i));
    }
}

/// The position of the first occurrence of `x` in `v`, if any.
fn position_of(v: &Vec<usize>, x: usize) -> (r: Option<usize>)
    ensures
        r == position_as_usize(seq_position(v@, x)),
        r matches Some(p) ==> p < v@.len() && v@[p as int] == x,
{
    let mut i: usize = 0;
    while i < v.len()
        invariant
            i <= v@.len(),
            forall|j: int| 0 <= j < i ==> v@[j] != x,
        decreases v@.len() - i,
    {
        if v[i] == x {
            proof {
                lemma_seq_position_skip(v@, x, i as int);
                assert(v@.skip(i as int)[0] == v@[i as int]);
                assert(seq_position(v@, x) == Some(i as int));
            }
            return Some(i);
        }
        i = i + 1;
    }
    proof {
        lemma_seq_position_skip(v@, x, i as int);
        assert(v@.skip(i as int) =~= Seq::<usize>::empty());
    }
    None
}

impl Data {
    /// Clears the filtered view and the applied filter; the previously
    /// selected record stays selected, now addressed by its real index,
    /// which is valid again since the full sequence is visible.
    pub fn unfilter(&mut self)
        requires
            old(self).wf(),
        ensures
            final(self).wf(),
            unfilter_rel(*old(self), *final(self)),
            final(self).filtered_view() is None,
            final(self).applied_view() is None,
            final(self).rows_view() == old(self).rows_view(),
            final(self).filter_view() == old(self).filter_view(),
            final(self).file_size_view() == old(self).file_size_view(),
            final(self).selected_view() == match old(self).selected_view() {
                Some(s) => Some(old(self).real_index_spec(s as int) as usize),
                None => None,
            },
    {
        let previous_real_index_selected: Option<usize> = match self.selected_row {
            Some(s) => Some(self.get_real_index(s)),
            None => None,
        };
        self.filtered_rows = None;
        self.applied_filter = None;
        if let Some(old_selected) = previous_real_index_selected {
            self.selected_row = Some(old_selected);
        }
        proof {
            assert forall|i: int|
                0 <= i < self.rows_view().len() implies (#[trigger] self.rows_view()[i]).wf() by {
                assert(self.rows_view()[i] == old(self).rows_view()[i]);
            }
        }
    }

    /// Applies the pending filter: evaluates it against every record's
    /// display list built with `common_fields`, collects the matching
    /// real indices in ascending order as the new visible set, and
    /// re-selects the previously selected record by locating its real
    /// index there; the selection becomes absent when that record no
    /// longer matches. With no pending filter nothing changes.
    pub fn apply_filter(&mut self, common_fields: &CommonFields)
        requires
            old(self).wf(),
        ensures
            final(self).wf(),
            apply_filter_rel(*old(self), *final(self), *common_fields),
            final(self).rows_view() == old(self).rows_view(),
            final(self).filter_view() == old(self).filter_view(),
            final(self).file_size_view() == old(self).file_size_view(),
            match old(self).filter_view() {
                None => {
                    &&& final(self).filtered_view() == old(self).filtered_view()
                    &&& final(self).applied_view() == old(self).applied_view()
                    &&& final(self).selected_view() == old(self).selected_view()
                },
                Some(f) => {
                    let indices = filter_indices(old(self).rows_view(), *common_fields, f);
                    &&& final(self).applied_view() == Some(f)
                    &&& final(self).filtered_view() == Some(indices)
                    &&& final(self).selected_view() == match old(self).selected_view() {
                        Some(s) => position_as_usize(
                            seq_position(indices, old(self).real_index_spec(s as int) as usize),
                        ),
                        None => None,
                    }
                },
            },
    {
        let f = match &self.filter {
            Some(f) => f.duplicate(),
            None => {
                return ;
            },
        };
        let previous_real_index_selected: Option<usize> = match self.selected_row {
            Some(s) => Some(self.get_real_index(s)),
            None => None,
        };
        let mut indices: Vec<usize> = Vec::new();
        let mut i: usize = 0;
        proof {
            assert(self.rows@.take(0) =~= Seq::<LogRow>::empty());
        }
        while i < self.rows.len()
            invariant
                i <= self.rows@.len(),
                self.rows@ == old(self).rows@,
                f == old(self).filter_view()->Some_0,
                indices@ == filter_indices(self.rows@.take(i as int), *common_fields, f),
                forall|k: int| 0 <= k < indices@.len() ==> (#[trigger] indices@[k]) < i,
                forall|k: int|
                    0 <= k && k + 1 < indices@.len() ==> (#[trigger] indices@[k]) < indices@[k
                        + 1],
            decreases self.rows@.len() - i,
        {
            let ghost prefix = self.rows@.take(i as int);
            let rendered = self.rows[i].rendered_list(common_fields);
            if matching_fields(&rendered, &f).is_some() {
                indices.push(i);
            }
            i = i + 1;
            proof {
                let now = self.rows@.take(i as int);
                assert(now.drop_last() =~= prefix);
                assert(now.last() == self.rows@[i - 1]);
            }
        }
        proof {
            assert(self.rows@.take(i as int) =~= self.rows@);
        }
        let new_selected: Option<usize> = match previous_real_index_selected {
            Some(real_idx) => position_of(&indices, real_idx),
            None => None,
        };
        self.applied_filter = Some(f);
        self.filtered_rows = Some(indices);
        if previous_real_index_selected.is_some() {
            self.selected_row = new_selected;
        }
    }

    /// The selected record's display pairs under `common_fields`, or
    /// `None` when nothing is selected. May populate that record's
    /// display cache.
    #[verifier::rlimit(80)]
    pub fn selected_row_data_as_slice(&mut self, common_fields: &CommonFields) -> (r: Option<
        Vec<(String, String)>,
    >)
        requires
            old(self).wf(),
        ensures
            final(self).wf(),
            final(self).filtered_view() == old(self).filtered_view(),
            final(self).applied_view() == old(self).applied_view(),
            final(self).selected_view() == old(self).selected_view(),
            final(self).filter_view() == old(self).filter_view(),
            final(self).file_size_view() == old(self).file_size_view(),
            final(self).rows_view().len() == old(self).rows_view().len(),
            forall|i: int|
                0 <= i < old(self).rows_view().len() ==> (#[trigger] final(self).rows_view()[i]).fields_view() == old(self).rows_view()[i].fields_view(),
            match old(self).selected_view() {
                None => r is None && final(self).rows_view() == old(self).rows_view(),
                Some(s) => r matches Some(v) && crate::value::slice_view(v@) == old(self).rows_view()[old(
                    self,
                ).real_index_spec(s as int)].display_slice_spec(*common_fields),
            },
    {
        let selected_row_index = match self.selected_row {
            Some(s) => s,
            None => {
                return None;
            },
        };
        let real_index = self.get_real_index(selected_row_index);
        let ghost before = self.rows@;
        let mut row = self.rows.remove(real_index);
        let slice = row.as_slice(common_fields);
        self.rows.insert(real_index, row);
        proof {
            assert forall|i: int|
                0 <= i < before.len() && i != real_index as int implies self.rows@[i] == before[i]
            by {
                assert(self.rows@ =~= before.remove(real_index as int).insert(
                    real_index as int,
                    self.rows@[real_index as int],
                ));
            }
            assert forall|i: int|
                0 <= i < self.rows@.len() implies (#[trigger] self.rows@[i]).wf()
                    && self.rows@[i].fields_view() == before[i].fields_view() by {
                if i != real_index as int {
                    assert(self.rows@[i] == before[i]);
                }
            }
        }
        Some(slice)
    }

    /// The selected record's display pairs together with the positions
    /// of the fields that the applied filter matched, used to highlight
    /// why the row is visible; the positions are empty when no filter
    /// is applied.
    pub fn selected_row_data_as_slice_with_filter_matching_fields(
        &mut self,
        common_fields: &CommonFields,
    ) -> (r: Option<(Vec<(String, String)>, Vec<usize>)>)
        requires
            old(self).wf(),
        ensures
            final(self).wf(),
            final(self).filtered_view() == old(self).filtered_view(),
            final(self).applied_view() == old(self).applied_view(),
            final(self).selected_view() == old(self).selected_view(),
            final(self).filter_view() == old(self).filter_view(),
            final(self).file_size_view() == old(self).file_size_view(),
            final(self).rows_view().len() == old(self).rows_view().len(),
            forall|i: int|
                0 <= i < old(self).rows_view().len() ==> (#[trigger] final(self).rows_view()[i]).fields_view() == old(self).rows_view()[i].fields_view(),
            match old(self).selected_view() {
                None => r is None,
                Some(s) => {
                    let shown = old(self).rows_view()[old(self).real_index_spec(
                        s as int,
                    )].display_slice_spec(*common_fields);
                    &&& r matches Some((v, m)) && crate::value::slice_view(v@) == shown && m@
                        == (match old(self).applied_view() {
                        Some(f) => crate::filter::match_positions(shown, f),
                        None => Seq::<usize>::empty(),
                    })
                },
            },
    {
        let is_filtered = self.is_filtered();
        let filt: Option<FilterConfig> = if is_filtered {
            match &self.applied_filter {
                Some(f) => Some(f.duplicate()),
                None => None,
            }
        } else {
            None
        };
        let row_slice = match self.selected_row_data_as_slice(common_fields) {
            Some(x) => x,
            None => {
                return None;
            },
        };
        let matching: Vec<usize> = match &filt {
            Some(f) => match matching_fields(&row_slice, f) {
                Some(m) => m,
                None => {
                    proof {
                        assert(Seq::<usize>::empty() =~= crate::filter::match_positions(
                            crate::value::slice_view(row_slice@),
                            *f,
                        ));
                    }
                    Vec::new()
                },
            },
            None => Vec::new(),
        };
        Some((row_slice, matching))
    }

    /// Transfers the pending filter from `other`, re-applies it if one
    /// had been applied there, and carries `other`'s selection forward
    /// when its visible index is still in range. Used when a new load
    /// replaces the store and the operator's filter and scroll position
    /// should survive.
    #[verifier::rlimit(80)]
    pub fn take_config(&mut self, other: &mut Data, common_fields: &CommonFields)
        requires
            old(self).wf(),
            old(other).wf(),
        ensures
            final(self).wf(),
            final(other).wf(),
            final(other).filter_view() is None,
            final(other).rows_view() == old(other).rows_view(),
            final(other).filtered_view() == old(other).filtered_view(),
            final(other).applied_view() == old(other).applied_view(),
            final(other).selected_view() == old(other).selected_view(),
            final(other).file_size_view() == old(other).file_size_view(),
            final(self).rows_view() == old(self).rows_view(),
            final(self).file_size_view() == old(self).file_size_view(),
            final(self).filter_view() == old(other).filter_view(),
            ({
                let transferred = old(other).is_filtered_spec() && old(other).filter_view()
                    is Some;
                let f = old(other).filter_view()->Some_0;
                let indices = filter_indices(old(self).rows_view(), *common_fields, f);
                let base_filtered = if transferred {
                    Some(indices)
                } else {
                    old(self).filtered_view()
                };
                let base_applied = if transferred {
                    old(other).filter_view()
                } else {
                    old(self).applied_view()
                };
                let base_selected = if transferred {
                    match old(self).selected_view() {
                        Some(s) => position_as_usize(
                            seq_position(indices, old(self).real_index_spec(s as int) as usize),
                        ),
                        None => None,
                    }
                } else {
                    old(self).selected_view()
                };
                let vis = match base_filtered {
                    Some(fv) => fv.len(),
                    None => old(self).rows_view().len(),
                };
                &&& final(self).filtered_view() == base_filtered
                &&& final(self).applied_view() == base_applied
                &&& final(self).selected_view() == (match old(other).selected_view() {
                    Some(i) => if (i as nat) < vis {
                        Some(i)
                    } else {
                        base_selected
                    },
                    None => base_selected,
                })
            }),
    {
        let is_filtered = other.is_filtered();
        self.filter = other.filter.take();
        if is_filtered {
            self.apply_filter(common_fields);
        }
        if let Some(i) = other.selected_row {
            if i < self.len() {
                self.selected_row = Some(i);
            }
        }
    }

    /// The record at a real index, irrespective of the filter state.
    pub fn row_at(&self, index: usize) -> (r: &LogRow)
        requires
            index < self.rows_view().len(),
        ensures
            *r == self.rows_view()[index as int],
    {
        &self.rows[index]
    }

    /// The currently applied filter, for persistence.
    pub fn applied_filter_ref(&self) -> (r: &Option<FilterConfig>)
        ensures
            *r == self.applied_view(),
    {
        &self.applied_filter
    }

    /// The filtered index list, for persistence.
    pub fn filtered_rows_ref(&self) -> (r: &Option<Vec<usize>>)
        ensures
            match r {
                Some(v) => self.filtered_view() == Some(v@),
                None => self.filtered_view() is None,
            },
    {
        &self.filtered_rows
    }

    /// Whether the parts of a persisted store fit together: the
    /// filtered list ascending and in range, present exactly when an
    /// applied filter is, and the cursor within the visible range.
    pub open spec fn filtered_list_ok(fv: Seq<usize>, rows_len: nat) -> bool {
        &&& forall|i: int| 0 <= i < fv.len() ==> (#[trigger] fv[i]) < rows_len
        &&& forall|i: int| 0 <= i && i + 1 < fv.len() ==> (#[trigger] fv[i]) < fv[i + 1]
    }

    /// Whether the parts of a persisted store fit together.
    pub open spec fn restorable(
        selected_row: Option<usize>,
        rows_len: nat,
        filtered_rows: Option<Seq<usize>>,
        applied_is_some: bool,
    ) -> bool {
        &&& (filtered_rows matches Some(fv) ==> Data::filtered_list_ok(fv, rows_len))
        &&& (filtered_rows is Some) == applied_is_some
        &&& (selected_row matches Some(s) ==> (s as nat) < (if filtered_rows is Some {
            (filtered_rows->Some_0).len()
        } else {
            rows_len
        }))
    }

    /// Rebuilds a store from persisted parts, after checking the
    /// cross-field invariants; parts that do not fit together are
    /// rejected rather than trusted.
    #[verifier::rlimit(100)]
    #[verifier::spinoff_prover]
    pub fn restore(
        selected_row: Option<usize>,
        filter: Option<FilterConfig>,
        rows: Vec<LogRow>,
        filtered_rows: Option<Vec<usize>>,
        applied_filter: Option<FilterConfig>,
        file_size: String,
    ) -> (r: Option<Data>)
        requires
            forall|i: int| 0 <= i < rows@.len() ==> (#[trigger] rows@[i]).wf(),
        ensures
            r is Some <==> Data::restorable(
                selected_row,
                rows@.len(),
                match filtered_rows {
                    Some(v) => Some(v@),
                    None => None,
                },
                applied_filter is Some,
            ),
            r matches Some(d) ==> d.wf() && d.selected_view() == selected_row && d.filter_view()
                == filter && d.rows_view() == rows@ && (match filtered_rows {
                Some(v) => d.filtered_view() == Some(v@),
                None => d.filtered_view() is None,
            }) && d.applied_view() == applied_filter && d.file_size_view() == file_size@,
    {
        let rows_len = rows.len();
        let list_ok = match &filtered_rows {
            Some(fv) => check_filtered_list(fv, rows_len),
            None => true,
        };
        let visible = match &filtered_rows {
            Some(fv) => fv.len(),
            None => rows_len,
        };
        let selected_ok = match selected_row {
            Some(s) => s < visible,
            None => true,
        };
        let ok = list_ok && (filtered_rows.is_some() == applied_filter.is_some()) && selected_ok;
        proof {
            let fr_view: Option<Seq<usize>> = match &filtered_rows {
                Some(v) => Some(v@),
                None => None,
            };
            assert(ok == Data::restorable(
                selected_row,
                rows@.len(),
                fr_view,
                applied_filter is Some,
            ));
        }
        if ok {
            Some(
                Data { selected_row, filter, rows, filtered_rows, applied_filter, file_size },
            )
        } else {
            None
        }
    }

    /// Renders the applied filter for display; with none applied the
    /// text says so.
    pub fn applied_filter_display(&self) -> (r: String)
        ensures
            match self.applied_view() {
                Some(f) => r@ == applied_display_spec(f),
                None => r@ == "No Filter Applied"@,
            },
    {
        match &self.applied_filter {
            None => "No Filter Applied".to_owned(),
            Some(f) => {
                let mut s: String = "Search Key: ".to_owned();
                s.append(f.search_key.as_str());
                s.append(" | Filter On: ");
                let scope_text = f.filter_on.display_text();
                s.append(scope_text.as_str());
                s.append(" | Case Sensitive: ");
                s.append(if f.is_case_sensitive {
                    "Yes"
                } else {
                    "No"
                });
                s.append(" | Comparator: ");
                s.append(f.comparator.as_str());
                s
            },
        }
    }

    /// A fresh forward-only accessor over the currently visible rows.
    pub fn rows_iter(&self) -> (it: DataIter<'_>)
        ensures
            it.data_view() == *self,
            it.pos_view() == 0,
    {
        DataIter::new(self)
    }
}

/// The summary line describing an applied filter.
pub open spec fn applied_display_spec(f: FilterConfig) -> Seq<char> {
    "Search Key: "@ + f.search_key@ + " | Filter On: "@ + crate::filter::filter_on_text(
        f.filter_on,
    ) + " | Case Sensitive: "@ + (if f.is_case_sensitive {
        "Yes"@
    } else {
        "No"@
    }) + " | Comparator: "@ + crate::filter::comparator_name(f.comparator)
}

/// A restartable, forward-only producer of record references in visible
/// order, transparently following the filtered-index indirection. It is
/// constructed fresh for each display pass, so it always reflects the
/// filter state at construction time.
#[derive(Debug)]
pub struct DataIter<'a> {
    pos: usize,
    data: &'a Data,
}

impl<'a> DataIter<'a> {
    /// The store being walked.
    pub closed spec fn data_view(&self) -> Data {
        *self.data
    }

    /// The next visible position to yield.
    pub closed spec fn pos_view(&self) -> nat {
        self.pos as nat
    }

    /// An accessor at the first visible row.
    pub fn new(data: &'a Data) -> (r: DataIter<'a>)
        ensures
            r.data_view() == *data,
            r.pos_view() == 0,
    {
        DataIter { pos: 0, data }
    }

    /// Yields the record at the current visible position and advances,
    /// or returns `None` at the end.
    pub fn next(&mut self) -> (r: Option<&'a LogRow>)
        requires
            old(self).data_view().wf(),
        ensures
            final(self).data_view() == old(self).data_view(),
            ({
                let d = old(self).data_view();
                let p = old(self).pos_view();
                if p < d.visible_len() {
                    &&& r matches Some(row) && *row == d.rows_view()[d.real_index_spec(p as int)]
                    &&& final(self).pos_view() == p + 1
                } else {
                    &&& r is None
                    &&& final(self).pos_view() == p
                }
            }),
    {
        let result = match &self.data.filtered_rows {
            Some(filtered) => {
                if self.pos >= filtered.len() {
                    return None;
                }
                Some(&self.data.rows[filtered[self.pos]])
            },
            None => {
                if self.pos >= self.data.rows.len() {
                    return None;
                }
                Some(&self.data.rows[self.pos])
            },
        };
        self.pos = self.pos + 1;
        result
    }

    /// Skips ahead to absolute visible position `n` and yields the
    /// record there. Moving to an already-passed position returns
    /// `None` rather than rewinding.
    pub fn nth(&mut self, n: usize) -> (r: Option<&'a LogRow>)
        requires
            old(self).data_view().wf(),
        ensures
            final(self).data_view() == old(self).data_view(),
            ({
                let d = old(self).data_view();
                let p = old(self).pos_view();
                if n < p {
                    &&& r is None
                    &&& final(self).pos_view() == p
                } else if (n as nat) < d.visible_len() {
                    &&& r matches Some(row) && *row == d.rows_view()[d.real_index_spec(n as int)]
                    &&& final(self).pos_view() == n + 1
                } else {
                    &&& r is None
                    &&& final(self).pos_view() == n
                }
            }),
    {
        if n < self.pos {
            return None;
        }
        self.pos = n;
        self.next()
    }
}

/// The relation `apply_filter` establishes between the states before
/// and after it runs with common fields `cf`: with no pending filter
/// nothing changes; with one, the visible set becomes exactly the
/// ascending real indices of the records matching it, and the
/// selection is reprojected.
pub open spec fn apply_filter_rel(pre: Data, post: Data, cf: CommonFields) -> bool {
    &&& post.rows_view() == pre.rows_view()
    &&& post.filter_view() == pre.filter_view()
    &&& post.file_size_view() == pre.file_size_view()
    &&& match pre.filter_view() {
        None => {
            &&& post.filtered_view() == pre.filtered_view()
            &&& post.applied_view() == pre.applied_view()
            &&& post.selected_view() == pre.selected_view()
        },
        Some(f) => {
            let indices = filter_indices(pre.rows_view(), cf, f);
            &&& post.applied_view() == Some(f)
            &&& post.filtered_view() == Some(indices)
            &&& post.selected_view() == match pre.selected_view() {
                Some(s) => position_as_usize(
                    seq_position(indices, pre.real_index_spec(s as int) as usize),
                ),
                None => None,
            }
        },
    }
}

/// The relation `unfilter` establishes: the filtered view and applied
/// filter are cleared, the records and pending filter are untouched,
/// and the selection moves to its real index.
pub open spec fn unfilter_rel(pre: Data, post: Data) -> bool {
    &&& post.filtered_view() is None
    &&& post.applied_view() is None
    &&& post.rows_view() == pre.rows_view()
    &&& post.filter_view() == pre.filter_view()
    &&& post.file_size_view() == pre.file_size_view()
    &&& post.selected_view() == match pre.selected_view() {
        Some(s) => Some(pre.real_index_spec(s as int) as usize),
        None => None,
    }
}

/// Filtering is idempotent across an unfilter: applying the pending
/// filter, unfiltering, and applying the same pending filter again
/// yields the same visible set, because filter evaluation is a pure
/// function of record content and the common-fields set, and neither
/// step changes the records or the pending filter.
pub proof fn lemma_refilter_idempotent(
    d0: Data,
    d1: Data,
    d2: Data,
    d3: Data,
    cf: CommonFields,
)
    requires
        d0.filter_view() is Some,
        apply_filter_rel(d0, d1, cf),
        unfilter_rel(d1, d2),
        apply_filter_rel(d2, d3, cf),
    ensures
        d3.filtered_view() == d1.filtered_view(),
{
    assert(d2.rows_view() == d0.rows_view());
    assert(d2.filter_view() == d0.filter_view());
}

/// Whether a persisted filtered index list is ascending with every
/// entry inside the record range.
fn check_filtered_list(fv: &Vec<usize>, rows_len: usize) -> (r: bool)
    ensures
        r == Data::filtered_list_ok(fv@, rows_len as nat),
{
    let mut i: usize = 0;
    while i < fv.len()
        invariant
            i <= fv@.len(),
            forall|j: int| 0 <= j < i ==> (#[trigger] fv@[j]) < rows_len,
            forall|j: int| 0 <= j && j + 1 < i ==> (#[trigger] fv@[j]) < fv@[j + 1],
        decreases fv@.len() - i,
    {
        if fv[i] >= rows_len {
            return false;
        }
        if i > 0 && fv[i] <= fv[i - 1] {
            return false;
        }
        i = i + 1;
    }
    true
}

impl Default for Data {
    /// An empty store.
    fn default() -> (r: Self)
        ensures
            r.wf(),
            r.rows_view().len() == 0,
            r.filtered_view() is None,
            r.applied_view() is None,
            r.selected_view() is None,
            r.filter_view() is None,
            r.file_size_view() == Seq::<char>::empty(),
    {
        Data::new()
    }
}

} // verus!
