//! The predicate evaluator: whether a note satisfies a compiled query
//! term, and the AND of several terms over a whole collection.
//!
//! A text-mode term builds its target text from the named field — for
//! the all-text field: title, joined tags, notebook, both formatted
//! timestamps and body, one per line — folds case on target and
//! pattern together when asked to, and then either looks for the
//! pattern as a substring or demands it as a whole token. Tokens are
//! the whitespace-separated words, except for the tag field, whose
//! tokens are the tags themselves. Case is folded before tokenising.
//! A time-mode term compares the named timestamp chronologically.

use vstd::prelude::*;
use crate::note::Note;
use crate::note::NoteView;
use crate::query::QueryTerm;
use crate::query::QueryTermView;
use crate::query::TextField;
use crate::query::TimeField;
use crate::text::contains_string;
use crate::text::contains_text;
use crate::text::is_substring_of;
use crate::text::join_seq;
use crate::text::lower_of;
use crate::text::lowercase;
use crate::text::split_seq;
use crate::text::split_text;
use crate::text::whitespace_tokens;
use crate::text::ws_tokens;
use crate::timestamp::Timestamp;
use crate::timestamp::fmt_ts;
use crate::timestamp::format_ts;
use vstd::string::StringExecFns;

verus! {

/// The text a text-mode term is matched against.
pub open spec fn text_target(n: NoteView, f: TextField) -> Seq<char> {
    match f {
        TextField::Title => n.title,
        TextField::Tag => join_seq(n.tags, "; "@),
        TextField::Notebook => n.notebook,
        TextField::AllText => n.title + "\n"@ + join_seq(n.tags, "; "@) + "\n"@ + n.notebook
            + "\n"@ + fmt_ts(n.created) + "\n"@ + fmt_ts(n.updated) + "\n"@ + n.body,
    }
}

/// The timestamp a time-mode term compares.
pub open spec fn time_value(n: NoteView, f: TimeField) -> Timestamp {
    match f {
        TimeField::Created => n.created,
        TimeField::Updated => n.updated,
    }
}

/// Text matching: fold case on both sides when `ignore_case`, then
/// substring containment, or token membership when `whole_word` —
/// tags are their own tokens, every other field splits on whitespace.
pub open spec fn text_matches(
    n: NoteView,
    f: TextField,
    pattern: Seq<char>,
    ignore_case: bool,
    whole_word: bool,
) -> bool {
    let target = if ignore_case {
        lower_of(text_target(n, f))
    } else {
        text_target(n, f)
    };
    let ptn = if ignore_case {
        lower_of(pattern)
    } else {
        pattern
    };
    if whole_word {
        match f {
            TextField::Tag => split_seq(target, "; "@).contains(ptn),
            _ => ws_tokens(target).contains(ptn),
        }
    } else {
        is_substring_of(ptn, target)
    }
}

/// Whether the note satisfies the term.
pub open spec fn matches_spec(n: NoteView, t: QueryTermView) -> bool {
    match t {
        QueryTermView::Text { field, pattern, ignore_case, whole_word } => text_matches(
            n,
            field,
            pattern,
            ignore_case,
            whole_word,
        ),
        QueryTermView::Time { field, moment, before } => if before {
            time_value(n, field).key() < moment.key()
        } else {
            time_value(n, field).key() >= moment.key()
        },
    }
}

/// Whether the note satisfies every term: a search with several query
/// strings is their conjunction.
pub open spec fn matches_all_spec(n: NoteView, ts: Seq<QueryTermView>) -> bool {
    forall|k: int| 0 <= k < ts.len() ==> matches_spec(n, #[trigger] ts[k])
}

impl Note {
    /// The target text for a text-mode term on `f`.
    fn build_target(&self, f: &TextField) -> (r: String)
        ensures
            r@ == text_target(self@, *f),
    {
        match f {
            TextField::Title => self.title.clone(),
            TextField::Tag => self.joined_tags(),
            TextField::Notebook => self.notebook.clone(),
            TextField::AllText => {
                let mut out = self.title.clone();
                out.append("\n");
                out.append(self.joined_tags().as_str());
                out.append("\n");
                out.append(self.notebook.as_str());
                out.append("\n");
                out.append(format_ts(&self.created).as_str());
                out.append("\n");
                out.append(format_ts(&self.updated).as_str());
                out.append("\n");
                out.append(self.body.as_str());
                proof {
                    assert(out@ =~= text_target(self@, TextField::AllText));
                }
                out
            },
        }
    }

    /// Whether this note satisfies the term.
    pub fn matches(&self, term: &QueryTerm) -> (r: bool)
        ensures
            r == matches_spec(self@, term@),
    {
        match term {
            QueryTerm::Time { field, moment, before } => {
                let v = match field {
                    TimeField::Created => &self.created,
                    TimeField::Updated => &self.updated,
                };
                if *before {
                    v.lt(moment)
                } else {
                    v.ge(moment)
                }
            },
            QueryTerm::Text { field, pattern, ignore_case, whole_word } => {
                let raw_target = self.build_target(field);
                let target = if *ignore_case {
                    lowercase(raw_target.as_str())
                } else {
                    raw_target
                };
                let ptn = if *ignore_case {
                    lowercase(pattern.as_str())
                } else {
                    pattern.clone()
                };
                if *whole_word {
                    proof {
                        reveal_strlit("; ");
                    }
                    let tokens = match field {
                        TextField::Tag => split_text(target.as_str(), "; "),
                        _ => whitespace_tokens(target.as_str()),
                    };
                    contains_string(&tokens, &ptn)
                } else {
                    contains_text(target.as_str(), ptn.as_str())
                }
            },
        }
    }

    /// Whether this note satisfies every one of the terms.
    pub fn matches_all(&self, terms: &Vec<QueryTerm>) -> (r: bool)
        ensures
            r == matches_all_spec(self@, terms.deep_view()),
    {
        let mut k: usize = 0;
        while k < terms.len()
            invariant
                k <= terms.len(),
                forall|j: int| 0 <= j < k ==> matches_spec(self@, #[trigger] terms.deep_view()[j]),
            decreases terms.len() - k,
        {
            proof {
                assert(terms.deep_view()[k as int] == terms@[k as int]@);
            }
            if !self.matches(&terms[k]) {
                return false;
            }
            k += 1;
        }
        true
    }
}

/// The subsequence of `s` whose notes satisfy every term, in order: a
/// search filters, it never reorders.
pub open spec fn filter_matching(s: Seq<Note>, ts: Seq<QueryTermView>) -> Seq<Note>
    decreases s.len(),
{
    if s.len() == 0 {
        Seq::empty()
    } else {
        let rest = filter_matching(s.drop_last(), ts);
        if matches_all_spec(s.last().view(), ts) {
            rest.push(s.last())
        } else {
            rest
        }
    }
}

proof fn lemma_filter_matching_push(s: Seq<Note>, ts: Seq<QueryTermView>, n: Note)
    ensures
        filter_matching(s.push(n), ts) == if matches_all_spec(n.view(), ts) {
            filter_matching(s, ts).push(n)
        } else {
            filter_matching(s, ts)
        },
{
    assert(s.push(n).drop_last() =~= s);
    assert(s.push(n).last() == n);
}

/// The notes that satisfy every term, in the order they were handed
/// in.
pub fn search_notes(notes: Vec<Note>, terms: &Vec<QueryTerm>) -> (r: Vec<Note>)
    ensures
        r@ == filter_matching(notes@, terms.deep_view()),
{
    let ghost orig = notes@;
    let mut rest = notes;
    let mut out: Vec<Note> = Vec::new();
    let mut i: usize = 0;
    let total = rest.len();
    proof {
        assert(orig.len() == total);
        assert(orig.take(0) =~= Seq::<Note>::empty());
    }
    while rest.len() > 0
        invariant
            i <= orig.len() <= usize::MAX,
            rest@ =~= orig.skip(i as int),
            out@ =~= filter_matching(orig.take(i as int), terms.deep_view()),
        decreases rest.len(),
    {
        let n = rest.remove(0);
        proof {
            assert(n == orig[i as int]);
            assert(rest@ =~= orig.skip(i + 1));
            assert(orig.take(i + 1) =~= orig.take(i as int).push(n));
            lemma_filter_matching_push(orig.take(i as int), terms.deep_view(), n);
        }
        let keep = n.matches_all(terms);
        if keep {
            out.push(n);
        }
        i += 1;
    }
    proof {
        assert(orig.take(orig.len() as int) =~= orig);
    }
    out
}

} // verus!
