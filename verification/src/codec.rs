//! The note codec: a note file's text is five labelled header lines in
//! a fixed order, a blank line, the literal separator line `------`,
//! a blank line, and the body. Decoding validates each label prefix and
//! both timestamps and fails with a typed error; encoding writes the
//! same shape back, and decoding inverts it.

use vstd::prelude::*;
use crate::note::Note;
use crate::note::NoteView;
use crate::text::aperiodic;
use crate::text::has_occurrence;
use crate::text::has_prefix;
use crate::text::join_seq;
use crate::text::join_text;
use crate::text::lemma_join_char_free;
use crate::text::lemma_join_of_split;
use crate::text::lemma_single_char_occurrence;
use crate::text::lemma_split_of_join;
use crate::text::lemma_split_parts_char_free;
use crate::text::lemma_split_parts_sep_free;
use crate::text::shift_matches;
use crate::text::split_seq;
use crate::text::split_text;
use crate::text::starts_with;
use crate::timestamp::fmt_ts;
use crate::timestamp::format_ts;
use crate::timestamp::lemma_fmt_ts_no_newline;
use crate::timestamp::lemma_format_of_parse;
use crate::timestamp::lemma_parse_of_format;
use crate::timestamp::parse_ts;
use crate::timestamp::parse_ts_spec;
use vstd::string::StrSliceExecFns;
use vstd::string::StringExecFns;

verus! {

/// Why a note text was rejected. A decode failure is fatal for that
/// file only: the store skips the file and reports it.
#[derive(Debug, Clone, Copy, PartialEq, Eq, Structural)]
pub enum DecodeError {
    /// Fewer than the five header lines.
    MissingHeader,
    /// Header line `line` does not begin with its label.
    BadLabel { line: u8 },
    /// Header line `line` carries no valid `YYYY-MM-DD HH:MM:SS`
    /// timestamp after its label.
    BadTimestamp { line: u8 },
}

/// The lines of the encoded form: the five header lines, a blank line,
/// the separator line, a blank line, then the body's own lines.
pub open spec fn encode_lines(n: NoteView) -> Seq<Seq<char>> {
    seq![
        "Title: "@ + n.title,
        "Tags: "@ + join_seq(n.tags, "; "@),
        "Notebook: "@ + n.notebook,
        "Created: "@ + fmt_ts(n.created),
        "Updated: "@ + fmt_ts(n.updated),
        Seq::<char>::empty(),
        "------"@,
        Seq::<char>::empty(),
    ] + split_seq(n.body, seq!['\n'])
}

/// The encoded form: the lines above, joined with newlines.
pub open spec fn encode_spec(n: NoteView) -> Seq<char> {
    join_seq(encode_lines(n), seq!['\n'])
}

/// What decoding `text` yields, with `path` attached as the note's
/// identity: the five labelled values and the body, or the first
/// failure in reading order. The three lines after the headers are
/// passed over unexamined, as the note format reserves them.
pub open spec fn decode_spec(text: Seq<char>, path: Seq<char>) -> Result<NoteView, DecodeError> {
    let lines = split_seq(text, seq!['\n']);
    if lines.len() < 5 {
        Err(DecodeError::MissingHeader)
    } else if !starts_with(lines[0], "Title: "@) {
        Err(DecodeError::BadLabel { line: 0 })
    } else if !starts_with(lines[1], "Tags: "@) {
        Err(DecodeError::BadLabel { line: 1 })
    } else if !starts_with(lines[2], "Notebook: "@) {
        Err(DecodeError::BadLabel { line: 2 })
    } else if !starts_with(lines[3], "Created: "@) {
        Err(DecodeError::BadLabel { line: 3 })
    } else if !starts_with(lines[4], "Updated: "@) {
        Err(DecodeError::BadLabel { line: 4 })
    } else if parse_ts_spec(lines[3].skip("Created: "@.len() as int)) is None {
        Err(DecodeError::BadTimestamp { line: 3 })
    } else if parse_ts_spec(lines[4].skip("Updated: "@.len() as int)) is None {
        Err(DecodeError::BadTimestamp { line: 4 })
    } else {
        Ok(
            NoteView {
                title: lines[0].skip("Title: "@.len() as int),
                tags: split_seq(lines[1].skip("Tags: "@.len() as int), "; "@),
                notebook: lines[2].skip("Notebook: "@.len() as int),
                created: parse_ts_spec(lines[3].skip("Created: "@.len() as int))->Some_0,
                updated: parse_ts_spec(lines[4].skip("Updated: "@.len() as int))->Some_0,
                body: if lines.len() < 8 {
                    Seq::empty()
                } else {
                    join_seq(lines.skip(8), seq!['\n'])
                },
                filepath: path,
            },
        )
    }
}

/// Serialises a note in the note file format. The note's `filepath` is
/// its identity, not content: it is not written.
pub fn encode_note(n: &Note) -> (r: String)
    ensures
        r@ == encode_spec(n@),
{
    proof {
        reveal_strlit("\n");
        assert("\n"@ =~= seq!['\n']);
    }
    let mut lines: Vec<String> = Vec::new();
    let mut l0 = String::from_str("Title: ");
    l0.append(n.title.as_str());
    lines.push(l0);
    let mut l1 = String::from_str("Tags: ");
    let tagstr = n.joined_tags();
    l1.append(tagstr.as_str());
    lines.push(l1);
    let mut l2 = String::from_str("Notebook: ");
    l2.append(n.notebook.as_str());
    lines.push(l2);
    let mut l3 = String::from_str("Created: ");
    let cr = format_ts(&n.created);
    l3.append(cr.as_str());
    lines.push(l3);
    let mut l4 = String::from_str("Updated: ");
    let up = format_ts(&n.updated);
    l4.append(up.as_str());
    lines.push(l4);
    lines.push(String::new());
    lines.push(String::from_str("------"));
    lines.push(String::new());
    let mut body_lines = split_text(n.body.as_str(), "\n");
    lines.append(&mut body_lines);
    proof {
        assert(lines.deep_view() =~= encode_lines(n@));
    }
    join_text(&lines, "\n")
}

/// The rest of `line` after its first `n_prefix` characters.
fn strip_prefix(line: &str, n_prefix: usize) -> (r: String)
    requires
        n_prefix <= line@.len(),
    ensures
        r@ == line@.skip(n_prefix as int),
{
    let len = line.unicode_len();
    String::from_str(line.substring_char(n_prefix, len))
}

/// Parses a note file's text; `path` becomes the note's identity.
/// Fails exactly where the text lacks a header line, a label, or a
/// valid timestamp, and names the first such failure.
pub fn parse_note(text: &str, path: String) -> (r: Result<Note, DecodeError>)
    ensures
        match r {
            Ok(n) => decode_spec(text@, path@) == Ok::<NoteView, DecodeError>(n@),
            Err(e) => decode_spec(text@, path@) == Err::<NoteView, DecodeError>(e),
        },
{
    proof {
        reveal_strlit("\n");
        assert("\n"@ =~= seq!['\n']);
        reveal_strlit("Title: ");
        reveal_strlit("Tags: ");
        reveal_strlit("Notebook: ");
        reveal_strlit("Created: ");
        reveal_strlit("Updated: ");
        reveal_strlit("; ");
    }
    let lines = split_text(text, "\n");
    let ghost lns = split_seq(text@, seq!['\n']);
    proof {
        assert(lines.deep_view() == lns);
    }
    if lines.len() < 5 {
        return Err(DecodeError::MissingHeader);
    }
    proof {
        assert(lines.deep_view()[0] == lines@[0]@);
        assert(lines.deep_view()[1] == lines@[1]@);
        assert(lines.deep_view()[2] == lines@[2]@);
        assert(lines.deep_view()[3] == lines@[3]@);
        assert(lines.deep_view()[4] == lines@[4]@);
    }
    if !has_prefix(lines[0].as_str(), "Title: ") {
        return Err(DecodeError::BadLabel { line: 0 });
    }
    if !has_prefix(lines[1].as_str(), "Tags: ") {
        return Err(DecodeError::BadLabel { line: 1 });
    }
    if !has_prefix(lines[2].as_str(), "Notebook: ") {
        return Err(DecodeError::BadLabel { line: 2 });
    }
    if !has_prefix(lines[3].as_str(), "Created: ") {
        return Err(DecodeError::BadLabel { line: 3 });
    }
    if !has_prefix(lines[4].as_str(), "Updated: ") {
        return Err(DecodeError::BadLabel { line: 4 });
    }
    let title = strip_prefix(lines[0].as_str(), 7);
    let tagval = strip_prefix(lines[1].as_str(), 6);
    let tags = split_text(tagval.as_str(), "; ");
    let notebook = strip_prefix(lines[2].as_str(), 10);
    let crval = strip_prefix(lines[3].as_str(), 9);
    let created = match parse_ts(crval.as_str()) {
        Some(t) => t,
        None => {
            return Err(DecodeError::BadTimestamp { line: 3 });
        },
    };
    let upval = strip_prefix(lines[4].as_str(), 9);
    let updated = match parse_ts(upval.as_str()) {
        Some(t) => t,
        None => {
            return Err(DecodeError::BadTimestamp { line: 4 });
        },
    };
    let mut body_lines: Vec<String> = Vec::new();
    if lines.len() > 8 {
        let mut i: usize = 8;
        while i < lines.len()
            invariant
                8 <= i <= lines.len(),
                lines.deep_view() == lns,
                body_lines.deep_view() =~= lns.subrange(8, i as int),
            decreases lines.len() - i,
        {
            let ghost pre = body_lines.deep_view();
            body_lines.push(lines[i].clone());
            proof {
                assert(lines.deep_view()[i as int] == lines@[i as int]@);
                assert(body_lines.deep_view() =~= pre.push(lns[i as int]));
                assert(body_lines.deep_view() =~= lns.subrange(8, i + 1));
            }
            i += 1;
        }
        proof {
            assert(lns.subrange(8, lns.len() as int) =~= lns.skip(8));
        }
    }
    let body = join_text(&body_lines, "\n");
    proof {
        if lns.len() <= 8 {
            assert(body_lines.deep_view() =~= Seq::<Seq<char>>::empty());
            assert(body@ == Seq::<char>::empty());
        }
    }
    let note = Note { title, tags, notebook, created, updated, body, filepath: path };
    proof {
        let spec_r = decode_spec(text@, path@);
        assert(spec_r is Ok);
        assert(spec_r->Ok_0 =~= note@);
    }
    Ok(note)
}

/// Every line of the encoded form is newline-free.
#[verifier::rlimit(50)]
proof fn lemma_encode_lines_newline_free(n: NoteView)
    requires
        n.codec_wf(),
    ensures
        forall|k: int|
            0 <= k < encode_lines(n).len() ==> !has_occurrence(
                #[trigger] encode_lines(n)[k],
                seq!['\n'],
            ),
{
    reveal_strlit("Title: ");
    reveal_strlit("Tags: ");
    reveal_strlit("Notebook: ");
    reveal_strlit("Created: ");
    reveal_strlit("Updated: ");
    reveal_strlit("------");
    reveal_strlit("; ");
    let nl = seq!['\n'];
    let sep2 = "; "@;
    let ls = encode_lines(n);
    let tagline_val = join_seq(n.tags, sep2);
    assert(!sep2.contains('\n'));
    lemma_join_char_free(n.tags, sep2, '\n');
    lemma_fmt_ts_no_newline(n.created);
    lemma_fmt_ts_no_newline(n.updated);
    lemma_split_parts_sep_free(n.body, nl);
    assert forall|k: int| 0 <= k < ls.len() implies !has_occurrence(#[trigger] ls[k], nl) by {
        lemma_single_char_occurrence(ls[k], '\n');
        if k < 8 {
            if ls[k].contains('\n') {
                let i = choose|i: int| 0 <= i < ls[k].len() && ls[k][i] == '\n';
                if k == 0 {
                    assert(("Title: "@ + n.title)[i] == '\n');
                    if i >= 7 {
                        assert(n.title[i - 7] == '\n');
                    }
                } else if k == 1 {
                    if i >= 6 {
                        assert(tagline_val[i - 6] == '\n');
                        assert(tagline_val.contains('\n'));
                    }
                } else if k == 2 {
                    if i >= 10 {
                        assert(n.notebook[i - 10] == '\n');
                    }
                } else if k == 3 {
                    if i >= 9 {
                        assert(fmt_ts(n.created)[i - 9] == '\n');
                        assert(fmt_ts(n.created).contains('\n'));
                    }
                } else if k == 4 {
                    if i >= 9 {
                        assert(fmt_ts(n.updated)[i - 9] == '\n');
                        assert(fmt_ts(n.updated).contains('\n'));
                    }
                }
            }
        } else {
            assert(ls[k] == split_seq(n.body, nl)[k - 8]);
        }
    }
}

/// Splitting the encoded form on newlines recovers its lines.
proof fn lemma_encode_split(n: NoteView)
    requires
        n.codec_wf(),
    ensures
        split_seq(encode_spec(n), seq!['\n']) == encode_lines(n),
{
    let nl = seq!['\n'];
    lemma_encode_lines_newline_free(n);
    assert(aperiodic(nl)) by {
        assert forall|d: int| 0 < d < nl.len() implies !#[trigger] shift_matches(nl, d) by {}
    }
    lemma_split_of_join(encode_lines(n), nl);
}

/// Round trip: decoding an encoded note restores every field; the
/// identity comes from the path the decoder is handed, the one field
/// the text does not carry.
#[verifier::rlimit(100)]
pub proof fn lemma_decode_of_encode(n: NoteView, path: Seq<char>)
    requires
        n.codec_wf(),
    ensures
        decode_spec(encode_spec(n), path) == Ok::<NoteView, DecodeError>(
            NoteView { filepath: path, ..n },
        ),
{
    reveal_strlit("Title: ");
    reveal_strlit("Tags: ");
    reveal_strlit("Notebook: ");
    reveal_strlit("Created: ");
    reveal_strlit("Updated: ");
    reveal_strlit("; ");
    let nl = seq!['\n'];
    let sep2 = "; "@;
    let ls = encode_lines(n);
    let tagline_val = join_seq(n.tags, sep2);
    lemma_parse_of_format(n.created);
    lemma_parse_of_format(n.updated);
    lemma_encode_split(n);
    let lines = split_seq(encode_spec(n), nl);
    assert(lines == ls);
    assert(lines.len() >= 9);

    // The labels are in place and stripping them restores the values.
    assert(starts_with(lines[0], "Title: "@)) by {
        assert(lines[0].take(7) =~= "Title: "@);
    }
    assert(lines[0].skip(7) =~= n.title);
    assert(starts_with(lines[1], "Tags: "@)) by {
        assert(lines[1].take(6) =~= "Tags: "@);
    }
    assert(lines[1].skip(6) =~= tagline_val);
    assert(starts_with(lines[2], "Notebook: "@)) by {
        assert(lines[2].take(10) =~= "Notebook: "@);
    }
    assert(lines[2].skip(10) =~= n.notebook);
    assert(starts_with(lines[3], "Created: "@)) by {
        assert(lines[3].take(9) =~= "Created: "@);
    }
    assert(lines[3].skip(9) =~= fmt_ts(n.created));
    assert(starts_with(lines[4], "Updated: "@)) by {
        assert(lines[4].take(9) =~= "Updated: "@);
    }
    assert(lines[4].skip(9) =~= fmt_ts(n.updated));

    // Splitting the joined tags restores the tag list.
    assert(aperiodic(sep2)) by {
        assert(sep2[1] != sep2[0]);
        assert(!shift_matches(sep2, 1));
    }
    lemma_split_of_join(n.tags, sep2);

    // Joining the body's split lines restores the body.
    lemma_join_of_split(n.body, nl);
    assert(lines.skip(8) =~= split_seq(n.body, nl));

    let r = decode_spec(encode_spec(n), path);
    assert(r is Ok);
    assert(r->Ok_0 =~= NoteView { filepath: path, ..n });
}

/// Whatever decodes satisfies the codec invariant: its fields fit the
/// note text format again.
pub proof fn lemma_decode_wf(t: Seq<char>, path: Seq<char>)
    requires
        decode_spec(t, path) is Ok,
    ensures
        (decode_spec(t, path)->Ok_0).codec_wf(),
{
    reveal_strlit("Title: ");
    reveal_strlit("Tags: ");
    reveal_strlit("Notebook: ");
    reveal_strlit("Created: ");
    reveal_strlit("Updated: ");
    reveal_strlit("; ");
    let nl = seq!['\n'];
    let sep2 = "; "@;
    let lines = split_seq(t, nl);
    let n = decode_spec(t, path)->Ok_0;
    lemma_split_parts_sep_free(t, nl);
    assert forall|k: int| 0 <= k < lines.len() implies !(#[trigger] lines[k]).contains('\n') by {
        lemma_single_char_occurrence(lines[k], '\n');
    }
    assert(!n.title.contains('\n')) by {
        if n.title.contains('\n') {
            let i = choose|i: int| 0 <= i < n.title.len() && n.title[i] == '\n';
            assert(lines[0][7 + i] == '\n');
            assert(lines[0].contains('\n'));
        }
    }
    assert(!n.notebook.contains('\n')) by {
        if n.notebook.contains('\n') {
            let i = choose|i: int| 0 <= i < n.notebook.len() && n.notebook[i] == '\n';
            assert(lines[2][10 + i] == '\n');
            assert(lines[2].contains('\n'));
        }
    }
    let tagval = lines[1].skip(6);
    assert(lines[1].len() >= 6);
    assert(!tagval.contains('\n')) by {
        if tagval.contains('\n') {
            let i = choose|i: int| 0 <= i < tagval.len() && tagval[i] == '\n';
            assert(tagval[i] == lines[1][6 + i]);
            assert(lines[1][6 + i] == '\n');
            assert(lines[1].contains('\n'));
        }
    }
    assert(n.tags == split_seq(tagval, sep2));
    assert(n.tags.len() > 0);
    lemma_split_parts_sep_free(tagval, sep2);
    lemma_split_parts_char_free(tagval, sep2, '\n');
    assert forall|k: int| 0 <= k < n.tags.len() implies !(#[trigger] n.tags[k]).contains('\n')
        && !has_occurrence(n.tags[k], sep2) by {
        assert(n.tags[k] == split_seq(tagval, sep2)[k]);
    }
}

/// The other direction of the round trip: re-encoding a decoded file
/// reproduces its five header lines byte for byte; and a file whose
/// three reserved lines are the canonical blank, separator, blank —
/// every file this library wrote — is reproduced whole.
#[verifier::rlimit(100)]
pub proof fn lemma_encode_of_decode(t: Seq<char>, path: Seq<char>)
    requires
        decode_spec(t, path) is Ok,
    ensures
        ({
            let lines = split_seq(t, seq!['\n']);
            let redone = split_seq(encode_spec(decode_spec(t, path)->Ok_0), seq!['\n']);
            &&& redone.len() >= 5
            &&& (forall|i: int| 0 <= i < 5 ==> redone[i] == lines[i])
        }),
        ({
            let lines = split_seq(t, seq!['\n']);
            lines.len() >= 9 && lines[5] == Seq::<char>::empty() && lines[6] == "------"@
                && lines[7] == Seq::<char>::empty() ==> encode_spec(decode_spec(t, path)->Ok_0)
                == t
        }),
{
    reveal_strlit("Title: ");
    reveal_strlit("Tags: ");
    reveal_strlit("Notebook: ");
    reveal_strlit("Created: ");
    reveal_strlit("Updated: ");
    reveal_strlit("; ");
    let nl = seq!['\n'];
    let sep2 = "; "@;
    let lines = split_seq(t, nl);
    let n = decode_spec(t, path)->Ok_0;
    lemma_decode_wf(t, path);
    lemma_encode_split(n);
    let redone = split_seq(encode_spec(n), nl);
    assert(redone == encode_lines(n));
    assert(redone.len() >= 8);

    // Label plus stripped value is the whole line again.
    assert(redone[0] == "Title: "@ + lines[0].skip(7));
    assert("Title: "@ + lines[0].skip(7) =~= lines[0]) by {
        assert(lines[0].take(7) == "Title: "@);
    }
    lemma_join_of_split(lines[1].skip(6), sep2);
    assert(redone[1] == "Tags: "@ + join_seq(split_seq(lines[1].skip(6), sep2), sep2));
    assert("Tags: "@ + lines[1].skip(6) =~= lines[1]) by {
        assert(lines[1].take(6) == "Tags: "@);
    }
    assert(redone[2] == "Notebook: "@ + lines[2].skip(10));
    assert("Notebook: "@ + lines[2].skip(10) =~= lines[2]) by {
        assert(lines[2].take(10) == "Notebook: "@);
    }
    lemma_format_of_parse(lines[3].skip(9));
    assert(redone[3] == "Created: "@ + fmt_ts(n.created));
    assert("Created: "@ + lines[3].skip(9) =~= lines[3]) by {
        assert(lines[3].take(9) == "Created: "@);
    }
    lemma_format_of_parse(lines[4].skip(9));
    assert(redone[4] == "Updated: "@ + fmt_ts(n.updated));
    assert("Updated: "@ + lines[4].skip(9) =~= lines[4]) by {
        assert(lines[4].take(9) == "Updated: "@);
    }

    // On a canonical file the reserved lines and the body lines agree
    // too, and joining equal lines is the identity.
    if lines.len() >= 9 && lines[5] == Seq::<char>::empty() && lines[6] == "------"@ && lines[7]
        == Seq::<char>::empty() {
        assert(n.body == join_seq(lines.skip(8), nl));
        lemma_split_parts_sep_free(t, nl);
        assert(aperiodic(nl)) by {
            assert forall|d: int| 0 < d < nl.len() implies !#[trigger] shift_matches(nl, d) by {}
        }
        assert(lines.skip(8).len() > 0);
        assert forall|k: int| 0 <= k < lines.skip(8).len() implies !has_occurrence(
            #[trigger] lines.skip(8)[k],
            nl,
        ) by {
            assert(lines.skip(8)[k] == lines[8 + k]);
        }
        lemma_split_of_join(lines.skip(8), nl);
        assert(split_seq(n.body, nl) == lines.skip(8));
        assert(redone =~= lines);
        lemma_join_of_split(t, nl);
        assert(encode_spec(n) == join_seq(redone, nl));
        assert(join_seq(lines, nl) == t);
    }
}

} // verus!
