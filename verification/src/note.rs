//! The note itself: title, tags, notebook, the two timestamps, the
//! free-form body, and the path of the backing file. The path is the
//! note's identity; it is attached by the store and never written into
//! the note text.

use vstd::prelude::*;
use crate::text::has_occurrence;
use crate::text::join_seq;
use crate::text::join_text;
use crate::timestamp::fmt_date;
use crate::timestamp::Timestamp;
use crate::timestamp::append_date;
use vstd::string::StringExecFns;

verus! {

/// The mathematical content of a note.
#[verifier::ext_equal]
pub struct NoteView {
    pub title: Seq<char>,
    pub tags: Seq<Seq<char>>,
    pub notebook: Seq<char>,
    pub created: Timestamp,
    pub updated: Timestamp,
    pub body: Seq<char>,
    pub filepath: Seq<char>,
}

/// One note. `tags` keeps insertion order; `filepath` is the identity
/// of the note: two notes are the same entity exactly when they share
/// it.
#[derive(Debug, Clone, PartialEq)]
pub struct Note {
    pub title: String,
    pub tags: Vec<String>,
    pub notebook: String,
    pub created: Timestamp,
    pub updated: Timestamp,
    pub body: String,
    pub filepath: String,
}

impl DeepView for Note {
    type V = NoteView;

    open spec fn deep_view(&self) -> NoteView {
        self.view()
    }
}

impl View for Note {
    type V = NoteView;

    open spec fn view(&self) -> NoteView {
        NoteView {
            title: self.title@,
            tags: self.tags.deep_view(),
            notebook: self.notebook@,
            created: self.created,
            updated: self.updated,
            body: self.body@,
            filepath: self.filepath@,
        }
    }
}

impl NoteView {
    /// What the note text format can carry: single-line title, tags
    /// and notebook, at least one tag, no tag holding the tag
    /// separator, and timestamps within their calendar ranges. A note
    /// decoded from any text satisfies this, and encoding is inverted
    /// by decoding exactly on such notes.
    pub open spec fn codec_wf(self) -> bool {
        &&& !self.title.contains('\n')
        &&& self.tags.len() > 0
        &&& (forall|k: int|
            0 <= k < self.tags.len() ==> !(#[trigger] self.tags[k]).contains('\n')
                && !has_occurrence(self.tags[k], "; "@))
        &&& !self.notebook.contains('\n')
        &&& self.created.wf()
        &&& self.updated.wf()
    }
}

/// The one-line listing form of a note: updated date, notebook, title,
/// created date, and the joined tags in brackets.
pub open spec fn display_line_spec(n: NoteView) -> Seq<char> {
    fmt_date(n.updated) + " "@ + n.notebook + ": "@ + n.title + " "@ + fmt_date(n.created) + " ["@
        + join_seq(n.tags, "; "@) + "]"@
}

impl Note {
    /// The tags joined with the tag separator, as the `Tags:` header
    /// line carries them.
    pub fn joined_tags(&self) -> (r: String)
        ensures
            r@ == join_seq(self@.tags, "; "@),
    {
        join_text(&self.tags, "; ")
    }

    /// The note with `updated` replaced — the one field an edit
    /// touches — and every other field kept exactly.
    pub fn with_updated(self, t: Timestamp) -> (r: Note)
        ensures
            r@ == (NoteView { updated: t, ..self@ }),
    {
        Note { updated: t, ..self }
    }

    /// The one-line listing form of the note.
    pub fn display_line(&self) -> (r: String)
        ensures
            r@ == display_line_spec(self@),
    {
        let mut out = String::new();
        append_date(&mut out, &self.updated);
        out.append(" ");
        out.append(self.notebook.as_str());
        out.append(": ");
        out.append(self.title.as_str());
        out.append(" ");
        append_date(&mut out, &self.created);
        out.append(" [");
        out.append(self.joined_tags().as_str());
        out.append("]");
        proof {
            assert(out@ =~= display_line_spec(self@));
        }
        out
    }
}

} // verus!
