//! Ingestion: parsing raw newline-delimited text into records, with
//! per-record enrichment (synthetic row index, severity-level string,
//! raw line size) and a configurable policy for malformed lines.

use crate::options::{convert_lookup, size_text, DataDisplayOptions, RowParseErrorHandling};
use crate::record::{field_of, sorted_fields, LogRow};
use crate::text::dec_digits;
use crate::value::{JsonValue, ValueView};
use vstd::prelude::*;

verus! {

/// The field mapping that parsing one line as a JSON object yields:
/// name/value pairs ordered by name, or nothing when the line is not a
/// JSON object. Named; the result depends on the line alone.
pub uninterp spec fn json_fields(line: Seq<char>) -> Option<Seq<(Seq<char>, ValueView)>>;

/// The diagnostic text reported for a line that fails to parse. Named;
/// the result depends on the line alone.
pub uninterp spec fn json_error_of(line: Seq<char>) -> Seq<char>;

/// The first value stored under `name` in a parsed field mapping.
pub open spec fn field_of_v(fields: Seq<(Seq<char>, ValueView)>, name: Seq<char>) -> Option<
    ValueView,
>
    decreases fields.len(),
{
    if fields.len() == 0 {
        None
    } else if fields[0].0 == name {
        Some(fields[0].1)
    } else {
        field_of_v(fields.drop_first(), name)
    }
}

/// Relies on `serde_json::from_str::<BTreeMap<String, Value>>` to parse
/// one line as a JSON object with the keys in strictly increasing
/// order, on `Value::as_str` and `Value::as_i64` to classify each value
/// as a string scalar or an integer in `i64` range, on
/// `Value::to_string` for the canonical compact text of anything else,
/// and on the error's `Debug` text otherwise.
#[verifier::external_body]
fn parse_json_object(line: &str) -> (r: Result<Vec<(String, JsonValue)>, String>)
    ensures
        r is Ok <==> json_fields(line@) is Some,
        r matches Ok(v) ==> v@.map(|i: int, p: (String, JsonValue)| (p.0@, p.1.view_spec()))
            == json_fields(line@)->Some_0,
        r matches Ok(v) ==> sorted_fields(v@),
        r matches Err(e) ==> e@ == json_error_of(line@),
{
    match serde_json::from_str::<std::collections::BTreeMap<String, serde_json::Value>>(line) {
        Ok(map) => Ok(
            map.into_iter().map(
                |(k, v)| (k, match (v.as_str(), v.as_i64()) {
                    (Some(s), _) => JsonValue::Str(s.to_string()),
                    (None, Some(i)) => JsonValue::Int(i),
                    (None, None) => JsonValue::Other(v.to_string()),
                }),
            ).collect(),
        ),
        Err(e) => Err(format!("{e:?}")),
    }
}

/// A fatal ingestion failure: the number of the offending line, counted
/// from one, and the parse diagnostic.
#[derive(Debug, PartialEq, Eq, Clone)]
pub struct IngestError {
    /// The one-based number of the line that failed to parse.
    pub line_number: usize,
    /// The parse diagnostic for that line.
    pub message: String,
}

/// The value injected for the synthetic row-index field: the row number
/// itself, or its decimal text in the unreachable case that it exceeds
/// the integer range.
pub open spec fn row_idx_view(idx: nat) -> ValueView {
    if idx <= i64::MAX {
        ValueView::Int(idx as i64)
    } else {
        ValueView::Other(dec_digits(idx))
    }
}

/// The fields a line contributes before enrichment: the parsed mapping,
/// or, for a malformed line under the convert policy, the raw line text
/// and optionally the parse diagnostic. When the diagnostic field and
/// the raw-line field share a name, the diagnostic wins.
pub open spec fn base_field(
    opts: DataDisplayOptions,
    line: Seq<char>,
    n: Seq<char>,
) -> Option<ValueView> {
    match json_fields(line) {
        Some(fs) => field_of_v(fs, n),
        None => match opts.row_parse_error_handling {
            RowParseErrorHandling::AbortOnAnyErrors => None,
            RowParseErrorHandling::ConvertFailedLines {
                raw_line_field_name,
                parse_error_field_name,
            } => {
                if parse_error_field_name matches Some(p) && p@ == n {
                    Some(ValueView::Str(json_error_of(line)))
                } else if raw_line_field_name@ == n {
                    Some(ValueView::Str(line))
                } else {
                    None
                }
            },
        },
    }
}

/// The fields after the synthetic row index is added, skipped when the
/// record already has a field of that name.
pub open spec fn after_row_idx(
    opts: DataDisplayOptions,
    idx: nat,
    line: Seq<char>,
    n: Seq<char>,
) -> Option<ValueView> {
    if base_field(opts, line, n) is Some {
        base_field(opts, line, n)
    } else if opts.row_idx_field_name matches Some(k) && k@ == n {
        Some(row_idx_view(idx))
    } else {
        None
    }
}

/// The severity string the level conversion would inject: present only
/// when the source field holds an integer found in the table.
pub open spec fn level_text(opts: DataDisplayOptions, idx: nat, line: Seq<char>) -> Option<
    Seq<char>,
> {
    match opts.level_conversion {
        Some(lc) => match after_row_idx(opts, idx, line, lc.source_field_name@) {
            Some(ValueView::Int(v)) => convert_lookup(lc.convert_map@, v),
            _ => None,
        },
        None => None,
    }
}

/// The fields after the severity string is added; a missing source
/// field, a non-integer value or an unmapped level silently skips the
/// injection.
pub open spec fn after_level(
    opts: DataDisplayOptions,
    idx: nat,
    line: Seq<char>,
    n: Seq<char>,
) -> Option<ValueView> {
    if after_row_idx(opts, idx, line, n) is Some {
        after_row_idx(opts, idx, line, n)
    } else if opts.level_conversion matches Some(lc) && lc.display_field_name@ == n && level_text(
        opts,
        idx,
        line,
    ) is Some {
        Some(ValueView::Str(level_text(opts, idx, line)->Some_0))
    } else {
        None
    }
}

/// Every field of the fully enriched record for one line: the base
/// fields, then the row index, the severity string, and the rendered
/// byte size of the raw line, each injected only where no earlier field
/// has the name.
pub open spec fn ingested_field(
    opts: DataDisplayOptions,
    idx: nat,
    line: Seq<char>,
    n: Seq<char>,
) -> Option<ValueView> {
    if after_level(opts, idx, line, n) is Some {
        after_level(opts, idx, line, n)
    } else if opts.row_size_config is Some && (opts.row_size_config->Some_0).field_name@ == n {
        Some(
            ValueView::Str(
                size_text(
                    (opts.row_size_config->Some_0).units,
                    (vstd::utf8::encode_utf8(line).len() as usize) as nat,
                ),
            ),
        )
    } else {
        None
    }
}

/// The position of the first line break in `s`, or its length when
/// there is none.
pub open spec fn first_newline(s: Seq<char>) -> int
    decreases s.len(),
{
    if s.len() == 0 {
        0
    } else if s[0] == '\n' {
        0
    } else {
        1 + first_newline(s.drop_first())
    }
}

/// A line with one trailing carriage return removed.
pub open spec fn strip_cr(l: Seq<char>) -> Seq<char> {
    if l.len() > 0 && l[l.len() - 1] == '\r' {
        l.drop_last()
    } else {
        l
    }
}

/// The candidate records of the text from line number `base` on: each
/// line numbered by input order, broken at line feeds and stripped of
/// one trailing carriage return, with blank lines left out.
pub open spec fn candidate_seq(s: Seq<char>, base: int) -> Seq<(int, Seq<char>)>
    decreases s.len(),
    via candidate_seq_dec
{
    if s.len() == 0 {
        Seq::empty()
    } else {
        let i = first_newline(s);
        let content = strip_cr(s.take(i));
        let here: Seq<(int, Seq<char>)> = if content.len() > 0 {
            seq![(base, content)]
        } else {
            Seq::empty()
        };
        if i == s.len() {
            here
        } else {
            here + candidate_seq(s.skip(i + 1), base + 1)
        }
    }
}

#[via_fn]
proof fn candidate_seq_dec(s: Seq<char>, base: int) {
    lemma_first_newline_bounds(s);
}

/// The first line break lies within the text.
proof fn lemma_first_newline_bounds(s: Seq<char>)
    ensures
        0 <= first_newline(s) <= s.len(),
    decreases s.len(),
{
    if s.len() > 0 && s[0] != '\n' {
        lemma_first_newline_bounds(s.drop_first());
    }
}

/// The candidate records of a whole text.
pub open spec fn candidates(text: Seq<char>) -> Seq<(int, Seq<char>)> {
    candidate_seq(text, 0)
}

/// The first candidate whose line does not parse, if any.
pub open spec fn first_failing(cands: Seq<(int, Seq<char>)>) -> Option<(int, Seq<char>)>
    decreases cands.len(),
{
    if cands.len() == 0 {
        None
    } else if json_fields(cands[0].1) is None {
        Some(cands[0])
    } else {
        first_failing(cands.drop_first())
    }
}

/// A scan that saw no line break up to `m` pins the first break there.
proof fn lemma_first_newline_from(s: Seq<char>, m: int)
    requires
        0 <= m <= s.len(),
        forall|j: int| 0 <= j < m ==> s[j] != '\n',
        m == s.len() || s[m] == '\n',
    ensures
        first_newline(s) == m,
    decreases m,
{
    if m == 0 {
    } else {
        assert(s[0] != '\n');
        lemma_first_newline_from(s.drop_first(), m - 1);
    }
}

/// A prefix of candidates that all parse does not carry the first
/// failure.
proof fn lemma_first_failing_concat(a: Seq<(int, Seq<char>)>, b: Seq<(int, Seq<char>)>)
    requires
        forall|j: int| 0 <= j < a.len() ==> json_fields((#[trigger] a[j]).1) is Some,
    ensures
        first_failing(a + b) == first_failing(b),
    decreases a.len(),
{
    if a.len() == 0 {
        assert(a + b =~= b);
    } else {
        assert((a + b)[0] == a[0]);
        assert(json_fields(a[0].1) is Some);
        lemma_first_failing_concat(a.drop_first(), b);
        assert((a + b).drop_first() =~= a.drop_first() + b);
    }
}

/// Looking a parsed name up commutes with taking views.
proof fn lemma_field_of_map(fields: Seq<(String, JsonValue)>, n: Seq<char>)
    ensures
        field_of_v(fields.map(|i: int, p: (String, JsonValue)| (p.0@, p.1.view_spec())), n)
            == match field_of(fields, n) {
            Some(v) => Some(v.view_spec()),
            None => None,
        },
    decreases fields.len(),
{
    let mapped = fields.map(|i: int, p: (String, JsonValue)| (p.0@, p.1.view_spec()));
    if fields.len() == 0 {
        assert(mapped.len() == 0);
    } else {
        assert(mapped[0] == (fields[0].0@, fields[0].1.view_spec()));
        lemma_field_of_map(fields.drop_first(), n);
        assert(fields.drop_first().map(
            |i: int, p: (String, JsonValue)| (p.0@, p.1.view_spec()),
        ) =~= mapped.drop_first());
    }
}

impl LogRow {
    /// Parses one raw line into an enriched record. Under the abort
    /// policy a malformed line fails with its parse diagnostic; under
    /// the convert policy it becomes a synthetic record instead.
    pub fn from_line(options: &DataDisplayOptions, row_idx_val: usize, line: &str) -> (r: Result<
        LogRow,
        String,
    >)
        ensures
            r is Err <==> (json_fields(line@) is None
                && options.row_parse_error_handling is AbortOnAnyErrors),
            r matches Err(e) ==> e@ == json_error_of(line@),
            r matches Ok(row) ==> row.wf() && row.cache_view() is None && (forall|n: Seq<char>|
                #[trigger] row.field_view(n) == ingested_field(
                    *options,
                    row_idx_val as nat,
                    line@,
                    n,
                )),
    {
        let ghost opts = *options;
        let ghost lv = line@;
        let ghost idx = row_idx_val as nat;
        let mut row: LogRow;
        match parse_json_object(line) {
            Ok(fields) => {
                proof {
                    lemma_field_of_map(fields@, lv);
                }
                row = LogRow::from_sorted_fields(fields);
                proof {
                    assert forall|n: Seq<char>| #[trigger] row.field_view(n) == base_field(
                        opts,
                        lv,
                        n,
                    ) by {
                        lemma_field_of_map(row.fields_view(), n);
                    }
                }
            },
            Err(e) => {
                match &options.row_parse_error_handling {
                    RowParseErrorHandling::AbortOnAnyErrors => {
                        return Err(e);
                    },
                    RowParseErrorHandling::ConvertFailedLines {
                        raw_line_field_name,
                        parse_error_field_name,
                    } => {
                        row = LogRow::new();
                        if let Some(err_field) = parse_error_field_name {
                            row.or_insert(err_field.clone(), JsonValue::Str(e));
                        }
                        let ghost with_err = row;
                        row.or_insert(raw_line_field_name.clone(), JsonValue::Str(line.to_owned()));
                        proof {
                            assert forall|n: Seq<char>| #[trigger] row.field_view(n) == base_field(
                                opts,
                                lv,
                                n,
                            ) by {}
                        }
                    },
                }
            },
        }
        let ghost based = row;
        if let Some(key) = &options.row_idx_field_name {
            let value = if (row_idx_val as u64) <= 0x7fff_ffff_ffff_ffffu64 {
                JsonValue::Int(row_idx_val as i64)
            } else {
                JsonValue::Other(crate::text::usize_to_dec(row_idx_val))
            };
            proof {
                assert(value.view_spec() == row_idx_view(idx));
            }
            row.or_insert(key.clone(), value);
        }
        proof {
            assert forall|n: Seq<char>| #[trigger] row.field_view(n) == after_row_idx(
                opts,
                idx,
                lv,
                n,
            ) by {}
        }
        let ghost with_idx = row;
        if let Some(settings) = &options.level_conversion {
            let source_level: Option<i64> = match row.field_value(settings.source_field_name.as_str()) {
                crate::value::FieldContent::Present(v) => match v {
                    JsonValue::Int(i) => Some(*i),
                    _ => None,
                },
                crate::value::FieldContent::Missing => None,
            };
            if let Some(raw_level) = source_level {
                if let Some(converted) = settings.lookup(raw_level) {
                    row.or_insert(settings.display_field_name.clone(), JsonValue::Str(converted));
                }
            }
        }
        proof {
            assert forall|n: Seq<char>| #[trigger] row.field_view(n) == after_level(
                opts,
                idx,
                lv,
                n,
            ) by {
                assert(with_idx.field_view(n) == after_row_idx(opts, idx, lv, n));
                match opts.level_conversion {
                    Some(lc) => {
                        assert(with_idx.field_view(lc.source_field_name@) == after_row_idx(
                            opts,
                            idx,
                            lv,
                            lc.source_field_name@,
                        ));
                    },
                    None => {},
                }
            }
        }
        let ghost with_level = row;
        if let Some(config) = &options.row_size_config {
            let rendered_size = config.units.convert(line.len());
            row.or_insert(config.field_name.clone(), JsonValue::Str(rendered_size));
        }
        proof {
            assert forall|n: Seq<char>| #[trigger] row.field_view(n) == ingested_field(
                opts,
                idx,
                lv,
                n,
            ) by {
                assert(with_level.field_view(n) == after_level(opts, idx, lv, n));
            }
        }
        Ok(row)
    }
}

impl IngestError {
    /// The failure rendered as one line of text.
    pub fn display_text(&self) -> (r: String)
        ensures
            r@ == "failed to parse line "@ + dec_digits(self.line_number as nat) + ": "@
                + self.message@,
    {
        let mut s: String = "failed to parse line ".to_owned();
        let num = crate::text::usize_to_dec(self.line_number);
        s.append(num.as_str());
        s.append(": ");
        s.append(self.message.as_str());
        s
    }
}

impl crate::data::Data {
    /// Ingests a whole text: each non-blank line, numbered by input
    /// order, becomes one enriched record. Under the abort policy the
    /// first malformed line fails the whole ingestion, with its line
    /// number counted from one; under the convert policy malformed
    /// lines are absorbed as synthetic records and ingestion never
    /// fails.
    pub fn from_text(options: &DataDisplayOptions, text: &str) -> (r: Result<
        crate::data::Data,
        IngestError,
    >)
        ensures
            r is Err <==> (options.row_parse_error_handling is AbortOnAnyErrors && first_failing(
                candidates(text@),
            ) is Some),
            match r {
                Ok(d) => {
                    let cands = candidates(text@);
                    &&& d.wf()
                    &&& d.filtered_view() is None
                    &&& d.applied_view() is None
                    &&& d.selected_view() is None
                    &&& d.filter_view() is None
                    &&& d.file_size_view() == crate::text::trim_zeros(
                        size_text(
                            crate::options::SizeUnits::Auto,
                            (vstd::utf8::encode_utf8(text@).len() as usize) as nat,
                        ),
                    )
                    &&& d.rows_view().len() == cands.len()
                    &&& forall|j: int|
                        0 <= j < cands.len() ==> forall|n: Seq<char>|
                            (#[trigger] d.rows_view()[j]).field_view(n) == ingested_field(
                                *options,
                                cands[j].0 as nat,
                                cands[j].1,
                                n,
                            )
                },
                Err(e) => {
                    &&& first_failing(candidates(text@)) matches Some(c) && e.line_number == c.0
                        + 1 && e.message@ == json_error_of(c.1)
                },
            },
    {
        let ghost opts = *options;
        let chars = crate::text::str_to_chars(text);
        let mut data = crate::data::Data::new();
        data.set_file_size(crate::options::SizeUnits::Auto.convert_trimmed(text.len()));
        let ghost cands = candidates(text@);
        let ghost mut done: Seq<(int, Seq<char>)> = Seq::empty();
        let mut pos: usize = 0;
        let mut line_idx: usize = 0;
        proof {
            assert(chars@.skip(0) =~= chars@);
        }
        while pos < chars.len()
            invariant
                pos <= chars@.len(),
                line_idx <= pos,
                chars@ == text@,
                data.wf(),
                data.filtered_view() is None,
                data.applied_view() is None,
                data.selected_view() is None,
                data.filter_view() is None,
                data.file_size_view() == crate::text::trim_zeros(
                    size_text(
                        crate::options::SizeUnits::Auto,
                        (vstd::utf8::encode_utf8(text@).len() as usize) as nat,
                    ),
                ),
                opts == *options,
                cands == candidates(text@),
                cands == done + candidate_seq(chars@.skip(pos as int), line_idx as int),
                data.rows_view().len() == done.len(),
                forall|j: int|
                    0 <= j < done.len() ==> forall|n: Seq<char>|
                        (#[trigger] data.rows_view()[j]).field_view(n) == ingested_field(
                            opts,
                            done[j].0 as nat,
                            done[j].1,
                            n,
                        ),
                forall|j: int| 0 <= j < done.len() ==> (#[trigger] done[j]).0 + 1 <= pos,
                opts.row_parse_error_handling is AbortOnAnyErrors ==> forall|j: int|
                    0 <= j < done.len() ==> json_fields((#[trigger] done[j]).1) is Some,
            decreases chars@.len() - pos,
        {
            let ghost rem = chars@.skip(pos as int);
            let mut k: usize = pos;
            while k < chars.len() && chars[k] != '\n'
                invariant
                    pos <= k <= chars@.len(),
                    forall|j: int| pos <= j < k ==> chars@[j] != '\n',
                decreases chars@.len() - k,
            {
                k = k + 1;
            }
            let ghost i = k - pos as int;
            proof {
                assert forall|j: int| 0 <= j < i implies rem[j] != '\n' by {
                    assert(rem[j] == chars@[pos + j]);
                }
                if k < chars@.len() {
                    assert(rem[i] == chars@[k as int]);
                }
                lemma_first_newline_from(rem, i);
            }
            let mut end = k;
            if end > pos && chars[end - 1] == '\r' {
                end = end - 1;
            }
            let mut line_chars: Vec<char> = Vec::new();
            let mut c: usize = pos;
            while c < end
                invariant
                    pos <= c <= end <= chars@.len(),
                    line_chars@ == chars@.subrange(pos as int, c as int),
                decreases end - c,
            {
                line_chars.push(chars[c]);
                c = c + 1;
                proof {
                    assert(line_chars@ =~= chars@.subrange(pos as int, c as int));
                }
            }
            let ghost content = strip_cr(rem.take(i));
            proof {
                assert(rem.take(i) =~= chars@.subrange(pos as int, k as int));
                if end < k {
                    assert(content =~= chars@.subrange(pos as int, end as int));
                } else {
                    assert(content =~= chars@.subrange(pos as int, end as int));
                }
            }
            let ghost here: Seq<(int, Seq<char>)> = if content.len() > 0 {
                seq![(line_idx as int, content)]
            } else {
                Seq::empty()
            };
            proof {
                if i == rem.len() {
                    assert(candidate_seq(rem, line_idx as int) == here);
                } else {
                    assert(candidate_seq(rem, line_idx as int) == here + candidate_seq(
                        rem.skip(i + 1),
                        line_idx + 1,
                    ));
                }
            }
            if end > pos {
                let line_str = crate::text::chars_to_string(&line_chars);
                match LogRow::from_line(options, line_idx, line_str.as_str()) {
                    Ok(row) => {
                        let ghost rows_before = data.rows_view();
                        data.push_row(row);
                        proof {
                            done = done + here;
                            assert forall|j: int|
                                0 <= j < done.len() implies forall|n: Seq<char>|
                                (#[trigger] data.rows_view()[j]).field_view(n) == ingested_field(
                                    opts,
                                    done[j].0 as nat,
                                    done[j].1,
                                    n,
                                ) by {
                                if j < done.len() - 1 {
                                    assert(data.rows_view()[j] == rows_before[j]);
                                } else {
                                    assert(data.rows_view()[j] == row);
                                    assert(done[j] == (line_idx as int, content));
                                }
                            }
                        }
                    },
                    Err(msg) => {
                        proof {
                            assert(json_fields(content) is None);
                            assert(here[0] == (line_idx as int, content));
                            lemma_first_failing_concat(
                                done,
                                candidate_seq(rem, line_idx as int),
                            );
                            if i == rem.len() {
                                assert(first_failing(candidate_seq(rem, line_idx as int))
                                    == Some((line_idx as int, content)));
                            } else {
                                assert((here + candidate_seq(rem.skip(i + 1), line_idx + 1))[0]
                                    == here[0]);
                                assert(first_failing(candidate_seq(rem, line_idx as int))
                                    == Some((line_idx as int, content)));
                            }
                        }
                        return Err(
                            IngestError { line_number: line_idx + 1, message: msg },
                        );
                    },
                }
            }
            if k < chars.len() {
                pos = k + 1;
            } else {
                pos = k;
            }
            line_idx = line_idx + 1;
            proof {
                if i == rem.len() {
                    assert(candidate_seq(chars@.skip(pos as int), line_idx as int)
                        =~= Seq::<(int, Seq<char>)>::empty());
                    assert(cands =~= done + candidate_seq(chars@.skip(pos as int), line_idx as int));
                } else {
                    assert(rem.skip(i + 1) =~= chars@.skip(pos as int));
                    assert(cands =~= done + candidate_seq(chars@.skip(pos as int), line_idx as int));
                }
            }
        }
        proof {
            assert(chars@.skip(pos as int) =~= Seq::<char>::empty());
            assert(cands =~= done);
            if opts.row_parse_error_handling is AbortOnAnyErrors {
                lemma_first_failing_concat(done, Seq::empty());
                assert(done + Seq::<(int, Seq<char>)>::empty() =~= done);
                assert(first_failing(cands) is None);
            }
        }
        Ok(data)
    }
}

/// Where an asynchronous load of raw text stands. The surrounding
/// application performs the reading and hands the text or the failure
/// back through this state.
#[derive(Debug, PartialEq, Eq, Clone)]
pub enum LoadingStatus {
    /// No load is running.
    NotInProgress,
    /// A load has been started and has not finished.
    InProgress,
    /// The load failed, with a human-readable message.
    Failed(String),
    /// The load finished with the raw text to ingest.
    Success(String),
}

impl crate::data::Data {
    /// Ingests `text` and installs the result as the held store,
    /// carrying the previous store's filter, applied state and
    /// selection forward. A failed ingestion is the only hard error and
    /// leaves the held store exactly as it was, so a failed reload
    /// never corrupts the currently displayed data.
    pub fn load_text(
        current: &mut Option<crate::data::Data>,
        options: &DataDisplayOptions,
        text: &str,
    ) -> (r: Result<(), IngestError>)
        requires
            (*old(current)) matches Some(d) ==> d.wf(),
        ensures
            r is Err <==> (options.row_parse_error_handling is AbortOnAnyErrors && first_failing(
                candidates(text@),
            ) is Some),
            r is Err ==> *final(current) == *old(current),
            r is Ok ==> ((*final(current)) matches Some(d) && d.wf() && d.rows_view().len()
                == candidates(text@).len() && d.filter_view() == (match *old(current) {
                Some(prev) => prev.filter_view(),
                None => None,
            }) && (forall|j: int|
                0 <= j < candidates(text@).len() ==> forall|n: Seq<char>|
                    (#[trigger] d.rows_view()[j]).field_view(n) == ingested_field(
                        *options,
                        candidates(text@)[j].0 as nat,
                        candidates(text@)[j].1,
                        n,
                    ))),
    {
        match crate::data::Data::from_text(options, text) {
            Ok(mut new_data) => {
                match current {
                    Some(old_data) => {
                        new_data.take_config(old_data, options.common_fields());
                    },
                    None => {},
                }
                *current = Some(new_data);
                Ok(())
            },
            Err(e) => Err(e),
        }
    }
}

} // verus!
