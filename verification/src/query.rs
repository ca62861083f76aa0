//! The query parser: a search string of one to three `:`-separated
//! segments compiles to one predicate, a `QueryTerm`.
//!
//! One segment searches all of a note's text, case-insensitively. Two
//! segments name a field by prefix (`ti`, `ta`, `nb`, `cr`, `up`) and
//! give the pattern; the timestamp fields `cr`/`up` parse the pattern
//! as a (possibly partial) timestamp. A third segment picks the mode:
//! `B`/`b` compare timestamps (at-or-after / strictly-before), letters
//! from `i`/`I` and `w`/`W` select case folding and whole-word
//! matching for the text fields. A time flag on a text field, a text
//! mode on a timestamp field — including the bare two-segment
//! `cr`/`up` form, which would leave the comparison direction unsaid —
//! is rejected when the query compiles, so an ill-matched term never
//! reaches the evaluator.

use vstd::prelude::*;
use crate::text::split_seq;
use crate::text::split_text;
use crate::text::str_eq;
use crate::timestamp::Timestamp;
use crate::timestamp::expand_partial;
use crate::timestamp::parse_datetime;
use crate::timestamp::parse_ts_spec;
use crate::timestamp::partial_len_ok;
use vstd::string::StrSliceExecFns;

verus! {

/// The note field a text-mode term searches.
#[derive(Debug, Clone, Copy, PartialEq, Eq, Structural)]
pub enum TextField {
    Title,
    Tag,
    Notebook,
    AllText,
}

/// The timestamp field a time-mode term compares.
#[derive(Debug, Clone, Copy, PartialEq, Eq, Structural)]
pub enum TimeField {
    Created,
    Updated,
}

/// One compiled search predicate. The two variants carry their own
/// mode, so a term pairing a timestamp field with a text mode, or a
/// text field with a time comparison, cannot be written down: the
/// field/mode compatibility rule is a property of the type.
#[derive(Debug, Clone, PartialEq)]
pub enum QueryTerm {
    /// A pattern matched against one of the text fields, with case
    /// folding unless `ignore_case` is off, and token-exact matching
    /// when `whole_word` is on.
    Text { field: TextField, pattern: String, ignore_case: bool, whole_word: bool },
    /// A timestamp comparison: strictly before `moment` when `before`,
    /// at or after it otherwise.
    Time { field: TimeField, moment: Timestamp, before: bool },
}

/// The mathematical content of a query term.
pub enum QueryTermView {
    Text { field: TextField, pattern: Seq<char>, ignore_case: bool, whole_word: bool },
    Time { field: TimeField, moment: Timestamp, before: bool },
}

impl DeepView for QueryTerm {
    type V = QueryTermView;

    open spec fn deep_view(&self) -> QueryTermView {
        self.view()
    }
}

impl View for QueryTerm {
    type V = QueryTermView;

    open spec fn view(&self) -> QueryTermView {
        match self {
            QueryTerm::Text { field, pattern, ignore_case, whole_word } => QueryTermView::Text {
                field: *field,
                pattern: pattern@,
                ignore_case: *ignore_case,
                whole_word: *whole_word,
            },
            QueryTerm::Time { field, moment, before } => QueryTermView::Time {
                field: *field,
                moment: *moment,
                before: *before,
            },
        }
    }
}

/// Why a query string was rejected. Each failure is fatal to its
/// command and carries the offending token.
#[derive(Debug, Clone, PartialEq)]
pub enum QueryError {
    /// An unknown field prefix, an unreadable flag token, or more than
    /// three segments.
    QuerySyntax { token: String },
    /// A time flag on a text field, or a text mode — flag letters, or
    /// the bare two-segment form — on a timestamp field.
    FieldFlagMismatch { token: String },
    /// A timestamp literal of unrecognised length, or one that spells
    /// no valid timestamp.
    TimestampFormat { token: String },
}

/// What compiling a query string yields: a term, or one of the three
/// rejections with its offending token.
pub enum QueryParse {
    Term(QueryTermView),
    SyntaxError(Seq<char>),
    FlagMismatch(Seq<char>),
    TimestampError(Seq<char>),
}

/// The text field a two-letter prefix names, if any.
pub open spec fn text_field_of(p: Seq<char>) -> Option<TextField> {
    if p == "ti"@ {
        Some(TextField::Title)
    } else if p == "ta"@ {
        Some(TextField::Tag)
    } else if p == "nb"@ {
        Some(TextField::Notebook)
    } else {
        None
    }
}

/// The timestamp field a two-letter prefix names, if any.
pub open spec fn time_field_of(p: Seq<char>) -> Option<TimeField> {
    if p == "cr"@ {
        Some(TimeField::Created)
    } else if p == "up"@ {
        Some(TimeField::Updated)
    } else {
        None
    }
}

pub open spec fn is_case_letter(c: char) -> bool {
    c == 'i' || c == 'I'
}

pub open spec fn is_word_letter(c: char) -> bool {
    c == 'w' || c == 'W'
}

/// A readable text flag token: one or two letters from `i`/`I` and
/// `w`/`W`, at most one of each kind.
pub open spec fn flag_letters_ok(f: Seq<char>) -> bool {
    &&& 1 <= f.len() <= 2
    &&& (forall|i: int|
        0 <= i < f.len() ==> is_case_letter(#[trigger] f[i]) || is_word_letter(f[i]))
    &&& (f.len() == 2 ==> !(is_case_letter(f[0]) && is_case_letter(f[1])) && !(is_word_letter(
        f[0],
    ) && is_word_letter(f[1])))
}

/// Case is respected only on an explicit `I`; whole-word matching only
/// on an explicit `w`.
pub open spec fn flag_ignore_case(f: Seq<char>) -> bool {
    !f.contains('I')
}

pub open spec fn flag_whole_word(f: Seq<char>) -> bool {
    f.contains('w')
}

/// What a timestamp-field pattern parses to, or a timestamp rejection.
pub open spec fn parsed_moment(p: Seq<char>) -> Option<Timestamp> {
    if partial_len_ok(p.len()) {
        parse_ts_spec(expand_partial(p))
    } else {
        None
    }
}

/// The two-segment form: a text field gets the default text mode; a
/// timestamp field parses its pattern, and is then rejected for want
/// of a comparison direction.
pub open spec fn parse_two_spec(p0: Seq<char>, p1: Seq<char>) -> QueryParse {
    if text_field_of(p0) is Some {
        QueryParse::Term(
            QueryTermView::Text {
                field: text_field_of(p0)->Some_0,
                pattern: p1,
                ignore_case: true,
                whole_word: false,
            },
        )
    } else if time_field_of(p0) is Some {
        if parsed_moment(p1) is None {
            QueryParse::TimestampError(p1)
        } else {
            QueryParse::FlagMismatch(p0)
        }
    } else {
        QueryParse::SyntaxError(p0)
    }
}

/// The three-segment form: the flag segment picks the mode, and must
/// fit the field.
pub open spec fn parse_three_spec(p0: Seq<char>, p1: Seq<char>, p2: Seq<char>) -> QueryParse {
    if text_field_of(p0) is Some {
        if p2 == "B"@ || p2 == "b"@ {
            QueryParse::FlagMismatch(p2)
        } else if flag_letters_ok(p2) {
            QueryParse::Term(
                QueryTermView::Text {
                    field: text_field_of(p0)->Some_0,
                    pattern: p1,
                    ignore_case: flag_ignore_case(p2),
                    whole_word: flag_whole_word(p2),
                },
            )
        } else {
            QueryParse::SyntaxError(p2)
        }
    } else if time_field_of(p0) is Some {
        if parsed_moment(p1) is None {
            QueryParse::TimestampError(p1)
        } else if p2 == "B"@ {
            QueryParse::Term(
                QueryTermView::Time {
                    field: time_field_of(p0)->Some_0,
                    moment: parsed_moment(p1)->Some_0,
                    before: false,
                },
            )
        } else if p2 == "b"@ {
            QueryParse::Term(
                QueryTermView::Time {
                    field: time_field_of(p0)->Some_0,
                    moment: parsed_moment(p1)->Some_0,
                    before: true,
                },
            )
        } else if flag_letters_ok(p2) {
            QueryParse::FlagMismatch(p2)
        } else {
            QueryParse::SyntaxError(p2)
        }
    } else {
        QueryParse::SyntaxError(p0)
    }
}

/// What compiling the whole query string yields: the string splits on
/// `:` into one, two or three segments; any other count is a
/// rejection of the whole string.
pub open spec fn parse_term_spec(s: Seq<char>) -> QueryParse {
    let segs = split_seq(s, seq![':']);
    if segs.len() == 1 {
        QueryParse::Term(
            QueryTermView::Text {
                field: TextField::AllText,
                pattern: s,
                ignore_case: true,
                whole_word: false,
            },
        )
    } else if segs.len() == 2 {
        parse_two_spec(segs[0], segs[1])
    } else if segs.len() == 3 {
        parse_three_spec(segs[0], segs[1], segs[2])
    } else {
        QueryParse::SyntaxError(s)
    }
}

/// A term never carries an invalid timestamp: the grammar is total,
/// and what it accepts is well-formed.
pub open spec fn term_wf(t: QueryTermView) -> bool {
    match t {
        QueryTermView::Text { .. } => true,
        QueryTermView::Time { moment, .. } => moment.wf(),
    }
}

/// Totality of the grammar: compiling is a function of the query
/// string, each string yielding one term or one rejection, and a term
/// that carries a timestamp carries a valid one.
pub proof fn lemma_parse_total(s: Seq<char>)
    ensures
        parse_term_spec(s) matches QueryParse::Term(t) ==> term_wf(t),
{
}

/// The exec twin of `text_field_of`.
fn lookup_text_field(p: &str) -> (r: Option<TextField>)
    ensures
        r == text_field_of(p@),
{
    if str_eq(p, "ti") {
        Some(TextField::Title)
    } else if str_eq(p, "ta") {
        Some(TextField::Tag)
    } else if str_eq(p, "nb") {
        Some(TextField::Notebook)
    } else {
        None
    }
}

/// The exec twin of `time_field_of`.
fn lookup_time_field(p: &str) -> (r: Option<TimeField>)
    ensures
        r == time_field_of(p@),
{
    if str_eq(p, "cr") {
        Some(TimeField::Created)
    } else if str_eq(p, "up") {
        Some(TimeField::Updated)
    } else {
        None
    }
}

/// Reads a text flag token into its two booleans, or rejects it.
fn classify_flags(f: &str) -> (r: Option<(bool, bool)>)
    ensures
        match r {
            Some(p) => flag_letters_ok(f@) && p.0 == flag_ignore_case(f@) && p.1
                == flag_whole_word(f@),
            None => !flag_letters_ok(f@),
        },
{
    let n = f.unicode_len();
    if n == 0 || n > 2 {
        return None;
    }
    let c0 = f.get_char(0);
    if !(c0 == 'i' || c0 == 'I' || c0 == 'w' || c0 == 'W') {
        return None;
    }
    if n == 1 {
        proof {
            assert forall|i: int| 0 <= i < f@.len() implies is_case_letter(#[trigger] f@[i])
                || is_word_letter(f@[i]) by {
                assert(i == 0);
            }
            if f@.contains('I') {
                let i = choose|i: int| 0 <= i < f@.len() && f@[i] == 'I';
            }
            if f@[0] == 'I' {
                assert(f@.contains('I'));
            }
            if f@.contains('w') {
                let i = choose|i: int| 0 <= i < f@.len() && f@[i] == 'w';
            }
            if f@[0] == 'w' {
                assert(f@.contains('w'));
            }
        }
        return Some((c0 != 'I', c0 == 'w'));
    }
    let c1 = f.get_char(1);
    if !(c1 == 'i' || c1 == 'I' || c1 == 'w' || c1 == 'W') {
        return None;
    }
    let case0 = c0 == 'i' || c0 == 'I';
    let case1 = c1 == 'i' || c1 == 'I';
    if case0 && case1 {
        return None;
    }
    if !case0 && !case1 {
        return None;
    }
    proof {
        assert forall|i: int| 0 <= i < f@.len() implies is_case_letter(#[trigger] f@[i])
            || is_word_letter(f@[i]) by {
            assert(i == 0 || i == 1);
        }
        if f@.contains('I') {
            let i = choose|i: int| 0 <= i < f@.len() && f@[i] == 'I';
            assert(f@[0] == 'I' || f@[1] == 'I');
        }
        if f@[0] == 'I' || f@[1] == 'I' {
            assert(f@.contains('I'));
        }
        if f@.contains('w') {
            let i = choose|i: int| 0 <= i < f@.len() && f@[i] == 'w';
            assert(f@[0] == 'w' || f@[1] == 'w');
        }
        if f@[0] == 'w' || f@[1] == 'w' {
            assert(f@.contains('w'));
        }
    }
    Some((!(c0 == 'I' || c1 == 'I'), c0 == 'w' || c1 == 'w'))
}

/// Compiles one search string into a term, or rejects it with the
/// offending token, exactly as `parse_term_spec` lays the grammar out.
pub fn build_search_term(ptn: &str) -> (r: Result<QueryTerm, QueryError>)
    ensures
        match r {
            Ok(t) => parse_term_spec(ptn@) == QueryParse::Term(t@),
            Err(e) => match e {
                QueryError::QuerySyntax { token } => parse_term_spec(ptn@)
                    == QueryParse::SyntaxError(token@),
                QueryError::FieldFlagMismatch { token } => parse_term_spec(ptn@)
                    == QueryParse::FlagMismatch(token@),
                QueryError::TimestampFormat { token } => parse_term_spec(ptn@)
                    == QueryParse::TimestampError(token@),
            },
        },
{
    proof {
        reveal_strlit(":");
        assert(":"@ =~= seq![':']);
    }
    let segs = split_text(ptn, ":");
    let ghost sv = split_seq(ptn@, seq![':']);
    proof {
        assert(segs.deep_view() == sv);
        assert(sv.len() >= 1);
    }
    if segs.len() == 1 {
        return Ok(
            QueryTerm::Text {
                field: TextField::AllText,
                pattern: String::from_str(ptn),
                ignore_case: true,
                whole_word: false,
            },
        );
    }
    if segs.len() > 3 {
        return Err(QueryError::QuerySyntax { token: String::from_str(ptn) });
    }
    proof {
        assert(segs.deep_view()[0] == segs@[0]@);
        assert(segs.deep_view()[1] == segs@[1]@);
    }
    if segs.len() == 2 {
        match lookup_text_field(segs[0].as_str()) {
            Some(f) => {
                return Ok(
                    QueryTerm::Text {
                        field: f,
                        pattern: segs[1].clone(),
                        ignore_case: true,
                        whole_word: false,
                    },
                );
            },
            None => {},
        }
        match lookup_time_field(segs[0].as_str()) {
            Some(_) => {
                match parse_datetime(segs[1].as_str()) {
                    Some(_) => {
                        return Err(QueryError::FieldFlagMismatch { token: segs[0].clone() });
                    },
                    None => {
                        return Err(QueryError::TimestampFormat { token: segs[1].clone() });
                    },
                }
            },
            None => {
                return Err(QueryError::QuerySyntax { token: segs[0].clone() });
            },
        }
    }
    proof {
        assert(segs.deep_view()[2] == segs@[2]@);
    }
    match lookup_text_field(segs[0].as_str()) {
        Some(f) => {
            if str_eq(segs[2].as_str(), "B") || str_eq(segs[2].as_str(), "b") {
                return Err(QueryError::FieldFlagMismatch { token: segs[2].clone() });
            }
            match classify_flags(segs[2].as_str()) {
                Some(flags) => {
                    return Ok(
                        QueryTerm::Text {
                            field: f,
                            pattern: segs[1].clone(),
                            ignore_case: flags.0,
                            whole_word: flags.1,
                        },
                    );
                },
                None => {
                    return Err(QueryError::QuerySyntax { token: segs[2].clone() });
                },
            }
        },
        None => {},
    }
    match lookup_time_field(segs[0].as_str()) {
        Some(f) => {
            let moment = match parse_datetime(segs[1].as_str()) {
                Some(m) => m,
                None => {
                    return Err(QueryError::TimestampFormat { token: segs[1].clone() });
                },
            };
            if str_eq(segs[2].as_str(), "B") {
                return Ok(QueryTerm::Time { field: f, moment, before: false });
            }
            if str_eq(segs[2].as_str(), "b") {
                return Ok(QueryTerm::Time { field: f, moment, before: true });
            }
            match classify_flags(segs[2].as_str()) {
                Some(_) => Err(QueryError::FieldFlagMismatch { token: segs[2].clone() }),
                None => Err(QueryError::QuerySyntax { token: segs[2].clone() }),
            }
        },
        None => Err(QueryError::QuerySyntax { token: segs[0].clone() }),
    }
}

} // verus!
