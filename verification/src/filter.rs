//! The filter specification and its predicate evaluator: which fields
//! of a record's display slice match a filter, and why.

use crate::text::{chars_cmp, contains_chars, has_substring, lex_lt, lowercase_of, str_to_chars,
    to_lowercase, TextOrder};
use crate::value::slice_view;
use vstd::prelude::*;

verus! {

/// A filter specification: the search key, the scope, case sensitivity
/// and the comparator. An immutable value compared structurally; cheap
/// to clone.
#[derive(Debug, PartialEq, Eq, Clone)]
pub struct FilterConfig {
    /// The text compared against field values.
    pub search_key: String,
    /// Whether any field may match or only a named one.
    pub filter_on: FilterOn,
    /// When false, the key, field names and values are lower-cased
    /// before comparison.
    pub is_case_sensitive: bool,
    /// How a field value is compared against the key.
    pub comparator: Comparator,
}

/// The scope of a filter: any field, or one named field.
#[derive(Debug, PartialEq, Eq, Clone)]
pub enum FilterOn {
    /// The filter matches on any field.
    Any,
    /// The filter matches only on fields of the given name.
    Field(FieldSpecifier),
}

/// The name of the field a scoped filter applies to.
#[derive(Debug, PartialEq, Eq, Clone)]
pub struct FieldSpecifier {
    /// The field name, compared under the filter's case rule.
    pub name: String,
}

/// How a rendered field value is compared against the search key. The
/// ordering comparators compare the rendered display text
/// lexicographically, not the underlying typed value.
#[derive(Debug, PartialEq, Eq, Structural, Clone, Copy)]
pub enum Comparator {
    LessThan,
    LessThanEqual,
    Equal,
    GreaterThan,
    GreaterThanEqual,
    NotEqual,
    Contains,
    NotContains,
}

impl FilterOn {
    /// Returns `true` if the scope is `Any`.
    pub fn is_any(&self) -> (r: bool)
        ensures
            r == (*self is Any),
    {
        matches!(self, Self::Any)
    }

    /// Returns `true` if the scope is `Field`.
    pub fn is_field(&self) -> (r: bool)
        ensures
            r == (*self is Field),
    {
        matches!(self, Self::Field { .. })
    }
}

/// Whether `value` stands in relation `c` to `key`: the six order and
/// equality comparators use lexicographic order on the text, and the
/// containment comparators substring search.
pub open spec fn comp_matches(c: Comparator, key: Seq<char>, value: Seq<char>) -> bool {
    match c {
        Comparator::LessThan => lex_lt(value, key),
        Comparator::LessThanEqual => lex_lt(value, key) || value == key,
        Comparator::Equal => value == key,
        Comparator::GreaterThan => lex_lt(key, value),
        Comparator::GreaterThanEqual => lex_lt(key, value) || value == key,
        Comparator::NotEqual => value != key,
        Comparator::Contains => has_substring(value, key),
        Comparator::NotContains => !has_substring(value, key),
    }
}

/// Applies a comparator to already-folded character vectors.
fn comp_on_chars(c: Comparator, key: &Vec<char>, value: &Vec<char>) -> (r: bool)
    ensures
        r == comp_matches(c, key@, value@),
{
    match c {
        Comparator::LessThan => matches!(chars_cmp(value, key), TextOrder::Less),
        Comparator::LessThanEqual => !matches!(chars_cmp(value, key), TextOrder::Greater),
        Comparator::Equal => matches!(chars_cmp(value, key), TextOrder::Equal),
        Comparator::GreaterThan => matches!(chars_cmp(value, key), TextOrder::Greater),
        Comparator::GreaterThanEqual => !matches!(chars_cmp(value, key), TextOrder::Less),
        Comparator::NotEqual => !matches!(chars_cmp(value, key), TextOrder::Equal),
        Comparator::Contains => contains_chars(value, key),
        Comparator::NotContains => !contains_chars(value, key),
    }
}

impl Comparator {
    /// Whether `value` stands in this relation to `search_key`.
    pub fn apply(&self, search_key: &str, value: &str) -> (r: bool)
        ensures
            r == comp_matches(*self, search_key@, value@),
    {
        let key_chars = str_to_chars(search_key);
        let value_chars = str_to_chars(value);
        comp_on_chars(*self, &key_chars, &value_chars)
    }

    /// The comparator's display name.
    pub fn as_str(&self) -> (r: &'static str)
        ensures
            r@ == comparator_name(*self),
    {
        match self {
            Comparator::LessThan => "Less Than",
            Comparator::LessThanEqual => "Less than equal",
            Comparator::Equal => "Equal",
            Comparator::GreaterThan => "Greater than",
            Comparator::GreaterThanEqual => "Greater than equal",
            Comparator::NotEqual => "Not equal",
            Comparator::Contains => "Contains",
            Comparator::NotContains => "Not contains",
        }
    }
}

/// The display name of a comparator.
pub open spec fn comparator_name(c: Comparator) -> Seq<char> {
    match c {
        Comparator::LessThan => "Less Than"@,
        Comparator::LessThanEqual => "Less than equal"@,
        Comparator::Equal => "Equal"@,
        Comparator::GreaterThan => "Greater than"@,
        Comparator::GreaterThanEqual => "Greater than equal"@,
        Comparator::NotEqual => "Not equal"@,
        Comparator::Contains => "Contains"@,
        Comparator::NotContains => "Not contains"@,
    }
}

/// The display text of a filter scope.
pub open spec fn filter_on_text(f: FilterOn) -> Seq<char> {
    match f {
        FilterOn::Any => "Any"@,
        FilterOn::Field(fs) => "[Field Named: "@ + fs.name@ + "]"@,
    }
}

impl FilterOn {
    /// Renders the scope for display.
    pub fn display_text(&self) -> (r: String)
        ensures
            r@ == filter_on_text(*self),
    {
        match self {
            FilterOn::Any => "Any".to_owned(),
            FilterOn::Field(fs) => {
                let mut s: String = "[Field Named: ".to_owned();
                s.append(fs.name.as_str());
                s.append("]");
                s
            },
        }
    }
}

impl Default for FilterOn {
    /// The default scope matches on any field.
    fn default() -> (r: Self)
        ensures
            r is Any,
    {
        FilterOn::Any
    }
}

impl Default for FieldSpecifier {
    /// The default specifier names no field.
    fn default() -> (r: Self)
        ensures
            r.name@ == Seq::<char>::empty(),
    {
        FieldSpecifier { name: String::new() }
    }
}

impl Default for Comparator {
    /// The default comparator is substring containment.
    fn default() -> (r: Self)
        ensures
            r == Comparator::Contains,
    {
        Comparator::Contains
    }
}

impl Default for FilterConfig {
    /// The default filter: an empty, case-insensitive containment
    /// search over any field.
    fn default() -> (r: Self)
        ensures
            r.search_key@ == Seq::<char>::empty(),
            r.filter_on is Any,
            !r.is_case_sensitive,
            r.comparator == Comparator::Contains,
    {
        FilterConfig {
            search_key: String::new(),
            filter_on: FilterOn::default(),
            is_case_sensitive: false,
            comparator: Comparator::default(),
        }
    }
}

impl FilterConfig {
    /// An equal copy, made field by field.
    pub fn duplicate(&self) -> (r: FilterConfig)
        ensures
            r == *self,
    {
        FilterConfig {
            search_key: self.search_key.clone(),
            filter_on: match &self.filter_on {
                FilterOn::Any => FilterOn::Any,
                FilterOn::Field(fs) => FilterOn::Field(
                    FieldSpecifier { name: fs.name.clone() },
                ),
            },
            is_case_sensitive: self.is_case_sensitive,
            comparator: self.comparator,
        }
    }
}

/// A character sequence under a filter's case rule: itself when the
/// filter is case sensitive, its lower-cased form otherwise.
pub open spec fn folded(s: Seq<char>, is_case_sensitive: bool) -> Seq<char> {
    if is_case_sensitive {
        s
    } else {
        lowercase_of(s)
    }
}

/// Whether one display field, given by name and rendered value,
/// satisfies the filter.
pub open spec fn field_matches(f: FilterConfig, name: Seq<char>, value: Seq<char>) -> bool {
    let key = folded(f.search_key@, f.is_case_sensitive);
    let v = folded(value, f.is_case_sensitive);
    match f.filter_on {
        FilterOn::Any => comp_matches(f.comparator, key, v),
        FilterOn::Field(fs) => folded(fs.name@, f.is_case_sensitive) == folded(
            name,
            f.is_case_sensitive,
        ) && comp_matches(f.comparator, key, v),
    }
}

/// The positions, in ascending order, of the display fields that
/// satisfy the filter; the slice is given as (name, rendered value)
/// views.
pub open spec fn match_positions(slice: Seq<(Seq<char>, Seq<char>)>, f: FilterConfig) -> Seq<usize>
    decreases slice.len(),
{
    if slice.len() == 0 {
        Seq::empty()
    } else if field_matches(f, slice.last().0, slice.last().1) {
        match_positions(slice.drop_last(), f).push((slice.len() - 1) as usize)
    } else {
        match_positions(slice.drop_last(), f)
    }
}

/// Whether any display field satisfies the filter; a record is visible
/// under the filter exactly when this holds of its display slice.
pub open spec fn slice_matches(slice: Seq<(Seq<char>, Seq<char>)>, f: FilterConfig) -> bool {
    match_positions(slice, f).len() > 0
}

/// Folds one string under the filter's case rule.
fn fold_chars(s: &str, is_case_sensitive: bool) -> (r: Vec<char>)
    ensures
        r@ == folded(s@, is_case_sensitive),
{
    if is_case_sensitive {
        str_to_chars(s)
    } else {
        let lowered = to_lowercase(s);
        str_to_chars(lowered.as_str())
    }
}

/// If the slice of fields and values matches the filter, the positions
/// of the fields that match are returned, or `None` if it does not
/// match.
pub fn matching_fields(fields_and_values: &Vec<(String, String)>, filter: &FilterConfig) -> (r:
    Option<Vec<usize>>)
    ensures
        match r {
            Some(v) => v@ == match_positions(slice_view(fields_and_values@), *filter) && v@.len()
                > 0,
            None => !slice_matches(slice_view(fields_and_values@), *filter),
        },
{
    let key_chars = fold_chars(filter.search_key.as_str(), filter.is_case_sensitive);
    let scoped_name_chars: Option<Vec<char>> = match &filter.filter_on {
        FilterOn::Any => None,
        FilterOn::Field(fs) => Some(fold_chars(fs.name.as_str(), filter.is_case_sensitive)),
    };
    let mut result: Vec<usize> = Vec::new();
    let mut i: usize = 0;
    proof {
        assert(slice_view(fields_and_values@).take(0) =~= Seq::<(Seq<char>, Seq<char>)>::empty());
    }
    while i < fields_and_values.len()
        invariant
            i <= fields_and_values@.len(),
            key_chars@ == folded(filter.search_key@, filter.is_case_sensitive),
            match scoped_name_chars {
                Some(n) => filter.filter_on matches FilterOn::Field(fs) && n@ == folded(
                    fs.name@,
                    filter.is_case_sensitive,
                ),
                None => filter.filter_on is Any,
            },
            result@ == match_positions(slice_view(fields_and_values@).take(i as int), *filter),
        decreases fields_and_values@.len() - i,
    {
        let ghost prefix = slice_view(fields_and_values@).take(i as int);
        let entry = &fields_and_values[i];
        let name_ok = match &scoped_name_chars {
            None => true,
            Some(n) => {
                let entry_name = fold_chars(entry.0.as_str(), filter.is_case_sensitive);
                matches!(chars_cmp(&entry_name, n), TextOrder::Equal)
            },
        };
        if name_ok {
            let value_chars = fold_chars(entry.1.as_str(), filter.is_case_sensitive);
            if comp_on_chars(filter.comparator, &key_chars, &value_chars) {
                result.push(i);
            }
        }
        i = i + 1;
        proof {
            let now = slice_view(fields_and_values@).take(i as int);
            assert(now.drop_last() =~= prefix);
            assert(now.last() == slice_view(fields_and_values@)[i - 1]);
            assert(slice_view(fields_and_values@)[i - 1] == (
                fields_and_values@[i - 1].0@,
                fields_and_values@[i - 1].1@,
            ));
        }
    }
    proof {
        assert(slice_view(fields_and_values@).take(i as int) =~= slice_view(fields_and_values@));
    }
    if result.len() == 0 {
        None
    } else {
        Some(result)
    }
}

} // verus!
