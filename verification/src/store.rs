//! The note store: decoding an enumerated directory of note files into
//! a collection ordered by `updated`, newest first.
//!
//! The application enumerates the files and reads their text; the
//! store decodes each, skips and reports the files that fail — one bad
//! file never fails the listing — and sorts the rest by `updated`
//! descending with a stable sort: notes of equal `updated` keep their
//! enumeration order.

use vstd::prelude::*;
use crate::codec::DecodeError;
use crate::codec::decode_spec;
use crate::codec::parse_note;
use crate::note::Note;
use crate::note::NoteView;
use crate::text::lemma_str_lt_connected;
use crate::text::lemma_str_lt_irrefl;
use crate::text::lemma_str_lt_trans;
use crate::text::str_eq;
use crate::text::str_less;
use crate::text::str_lt;
use crate::timestamp::Timestamp;
use crate::timestamp::fmt_compact;
use crate::timestamp::format_compact;
use vstd::string::StringExecFns;

verus! {

/// One enumerated note file: its path and its text, as the
/// application read them, in enumeration order.
pub struct NoteFile {
    pub path: String,
    pub text: String,
}

/// The mathematical content of an enumerated file.
pub struct NoteFileView {
    pub path: Seq<char>,
    pub text: Seq<char>,
}

impl View for NoteFile {
    type V = NoteFileView;

    open spec fn view(&self) -> NoteFileView {
        NoteFileView { path: self.path@, text: self.text@ }
    }
}

impl DeepView for NoteFile {
    type V = NoteFileView;

    open spec fn deep_view(&self) -> NoteFileView {
        self.view()
    }
}

/// One skipped file: its path and why decoding rejected it.
#[derive(Debug, Clone, PartialEq)]
pub struct DecodeFailure {
    pub path: String,
    pub error: DecodeError,
}

/// The mathematical content of a skipped file.
pub struct DecodeFailureView {
    pub path: Seq<char>,
    pub error: DecodeError,
}

impl View for DecodeFailure {
    type V = DecodeFailureView;

    open spec fn view(&self) -> DecodeFailureView {
        DecodeFailureView { path: self.path@, error: self.error }
    }
}

impl DeepView for DecodeFailure {
    type V = DecodeFailureView;

    open spec fn deep_view(&self) -> DecodeFailureView {
        self.view()
    }
}

/// The notes of the files that decode, in enumeration order.
pub open spec fn decoded_views(fs: Seq<NoteFile>) -> Seq<NoteView>
    decreases fs.len(),
{
    if fs.len() == 0 {
        Seq::empty()
    } else {
        let rest = decoded_views(fs.drop_last());
        match decode_spec(fs.last()@.text, fs.last()@.path) {
            Ok(n) => rest.push(n),
            Err(_) => rest,
        }
    }
}

/// The files that do not decode, each with its error, in enumeration
/// order.
pub open spec fn failure_views(fs: Seq<NoteFile>) -> Seq<DecodeFailureView>
    decreases fs.len(),
{
    if fs.len() == 0 {
        Seq::empty()
    } else {
        let rest = failure_views(fs.drop_last());
        match decode_spec(fs.last()@.text, fs.last()@.path) {
            Ok(_) => rest,
            Err(e) => rest.push(DecodeFailureView { path: fs.last()@.path, error: e }),
        }
    }
}

/// `n` inserted into `s` after every note whose `updated` is at or
/// after `n`'s: the insertion step of a stable descending sort.
pub open spec fn insert_desc(s: Seq<NoteView>, n: NoteView) -> Seq<NoteView>
    decreases s.len(),
{
    if s.len() == 0 {
        seq![n]
    } else if s.first().updated.key() >= n.updated.key() {
        seq![s.first()] + insert_desc(s.drop_first(), n)
    } else {
        seq![n] + s
    }
}

/// The stable descending sort by `updated`: each note in turn is
/// inserted behind the earlier notes that sort at or before it.
pub open spec fn sort_desc(s: Seq<NoteView>) -> Seq<NoteView>
    decreases s.len(),
{
    if s.len() == 0 {
        Seq::empty()
    } else {
        insert_desc(sort_desc(s.drop_last()), s.last())
    }
}

/// Ordered by `updated`, newest first.
pub open spec fn sorted_desc(s: Seq<NoteView>) -> bool {
    forall|i: int, j: int|
        0 <= i <= j < s.len() ==> (#[trigger] s[i]).updated.key() >= (#[trigger] s[j]).updated.key()
}

/// The subsequence of `s` whose notes' `updated` has linearisation
/// `k`, in order.
pub open spec fn with_key(s: Seq<NoteView>, k: int) -> Seq<NoteView>
    decreases s.len(),
{
    if s.len() == 0 {
        Seq::empty()
    } else {
        let rest = with_key(s.drop_last(), k);
        if s.last().updated.key() == k {
            rest.push(s.last())
        } else {
            rest
        }
    }
}

/// Inserting into a sorted sequence keeps it sorted, and `insert_desc`
/// writes the element at the first place whose key is below its own.
proof fn lemma_insert_desc_sorted(s: Seq<NoteView>, n: NoteView)
    requires
        sorted_desc(s),
    ensures
        sorted_desc(insert_desc(s, n)),
        insert_desc(s, n).len() == s.len() + 1,
    decreases s.len(),
{
    if s.len() == 0 {
    } else if s.first().updated.key() >= n.updated.key() {
        assert(sorted_desc(s.drop_first())) by {
            assert(forall|i: int|
                0 <= i < s.drop_first().len() ==> s.drop_first()[i] == s[i + 1]);
        }
        lemma_insert_desc_sorted(s.drop_first(), n);
        let r = insert_desc(s, n);
        let tail = insert_desc(s.drop_first(), n);
        assert forall|i: int, j: int|
            0 <= i <= j < r.len() implies (#[trigger] r[i]).updated.key() >= (
        #[trigger] r[j]).updated.key() by {
            if i == 0 {
                if j > 0 {
                    assert(r[j] == tail[j - 1]);
                    // every element of the insertion result is either n
                    // or an element of the tail, and the head is at or
                    // above both
                    lemma_insert_desc_elements(s.drop_first(), n, j - 1);
                }
            } else {
                assert(r[i] == tail[i - 1] && r[j] == tail[j - 1]);
            }
        }
    } else {
    }
}

/// Every element of `insert_desc(s, n)` is `n` or an element of `s`.
proof fn lemma_insert_desc_elements(s: Seq<NoteView>, n: NoteView, i: int)
    requires
        0 <= i < insert_desc(s, n).len(),
    ensures
        insert_desc(s, n)[i] == n || exists|j: int| 0 <= j < s.len() && s[j] == insert_desc(s, n)[i],
    decreases s.len(),
{
    if s.len() == 0 {
    } else if s.first().updated.key() >= n.updated.key() {
        if i == 0 {
            assert(s[0] == insert_desc(s, n)[0]);
        } else {
            lemma_insert_desc_elements(s.drop_first(), n, i - 1);
            assert(insert_desc(s, n)[i] == insert_desc(s.drop_first(), n)[i - 1]);
            if insert_desc(s.drop_first(), n)[i - 1] != n {
                let j = choose|j: int|
                    0 <= j < s.drop_first().len() && s.drop_first()[j] == insert_desc(
                        s.drop_first(),
                        n,
                    )[i - 1];
                assert(s[j + 1] == insert_desc(s, n)[i]);
            }
        }
    } else {
        if i > 0 {
            assert(insert_desc(s, n)[i] == s[i - 1]);
        }
    }
}

/// The sort orders by `updated`, newest first.
pub proof fn lemma_sort_desc_sorted(s: Seq<NoteView>)
    ensures
        sorted_desc(sort_desc(s)),
        sort_desc(s).len() == s.len(),
    decreases s.len(),
{
    if s.len() == 0 {
    } else {
        lemma_sort_desc_sorted(s.drop_last());
        lemma_insert_desc_sorted(sort_desc(s.drop_last()), s.last());
    }
}

/// Insertion walks past exactly the notes at or above its key, so the
/// notes of any one key keep their order.
proof fn lemma_insert_desc_with_key(s: Seq<NoteView>, n: NoteView, k: int)
    requires
        sorted_desc(s),
    ensures
        with_key(insert_desc(s, n), k) == if n.updated.key() == k {
            with_key(s, k).push(n)
        } else {
            with_key(s, k)
        },
    decreases s.len(),
{
    let r = insert_desc(s, n);
    if s.len() == 0 {
        reveal_with_fuel(with_key, 2);
        assert(seq![n].drop_last() =~= Seq::<NoteView>::empty());
        if n.updated.key() == k {
            assert(with_key(r, k) =~= with_key(s, k).push(n));
        }
    } else if s.first().updated.key() >= n.updated.key() {
        assert(sorted_desc(s.drop_first())) by {
            assert(forall|i: int|
                0 <= i < s.drop_first().len() ==> s.drop_first()[i] == s[i + 1]);
        }
        lemma_insert_desc_with_key(s.drop_first(), n, k);
        lemma_with_key_prepend(s.first(), insert_desc(s.drop_first(), n), k);
        lemma_with_key_prepend(s.first(), s.drop_first(), k);
        assert(r =~= seq![s.first()] + insert_desc(s.drop_first(), n));
        assert(s =~= seq![s.first()] + s.drop_first());
    } else {
        // n goes in front; no element of s shares its key, for all of
        // s sorts strictly below it
        lemma_with_key_prepend(n, s, k);
        assert(r == seq![n] + s);
        if n.updated.key() == k {
            assert(with_key(s, k) =~= Seq::<NoteView>::empty()) by {
                lemma_with_key_all_below(s, k);
            }
            assert(with_key(seq![n] + s, k) =~= with_key(s, k).push(n)) by {
                lemma_with_key_single_front(n, s, k);
            }
        }
    }
}

/// A sequence sorting strictly below `k` holds no note of key `k`.
proof fn lemma_with_key_all_below(s: Seq<NoteView>, k: int)
    requires
        forall|i: int| 0 <= i < s.len() ==> (#[trigger] s[i]).updated.key() < k,
    ensures
        with_key(s, k) == Seq::<NoteView>::empty(),
    decreases s.len(),
{
    if s.len() > 0 {
        assert(forall|i: int|
            0 <= i < s.drop_last().len() ==> s.drop_last()[i] == s[i]);
        lemma_with_key_all_below(s.drop_last(), k);
    }
}

/// Prepending one note prepends it to the matching subsequence when
/// its key matches, and changes nothing otherwise.
proof fn lemma_with_key_prepend(n: NoteView, s: Seq<NoteView>, k: int)
    ensures
        with_key(seq![n] + s, k) == if n.updated.key() == k {
            seq![n] + with_key(s, k)
        } else {
            with_key(s, k)
        },
    decreases s.len(),
{
    let t = seq![n] + s;
    if s.len() == 0 {
        reveal_with_fuel(with_key, 2);
        assert(t.drop_last() =~= Seq::<NoteView>::empty());
        assert(t.last() == n);
        if n.updated.key() == k {
            assert(with_key(t, k) =~= seq![n] + with_key(s, k));
        }
    } else {
        assert(t.drop_last() =~= seq![n] + s.drop_last());
        assert(t.last() == s.last());
        lemma_with_key_prepend(n, s.drop_last(), k);
        if n.updated.key() == k {
            if s.last().updated.key() == k {
                assert(with_key(t, k) =~= seq![n] + with_key(s, k));
            } else {
                assert(with_key(t, k) =~= seq![n] + with_key(s, k));
            }
        }
    }
}

/// A note prepended to notes of other keys is the whole matching
/// subsequence.
proof fn lemma_with_key_single_front(n: NoteView, s: Seq<NoteView>, k: int)
    requires
        n.updated.key() == k,
        with_key(s, k) == Seq::<NoteView>::empty(),
    ensures
        with_key(seq![n] + s, k) == with_key(s, k).push(n),
{
    lemma_with_key_prepend(n, s, k);
    assert(seq![n] + with_key(s, k) =~= with_key(s, k).push(n));
}

/// Sort stability, together with the order: the sort is a permutation
/// that orders the notes by `updated` descending, and for every key
/// the notes of that key — in particular any two of equal `updated` —
/// stand in their original order: the matching subsequences before
/// and after sorting coincide.
pub proof fn lemma_sort_desc_stable(s: Seq<NoteView>, k: int)
    ensures
        with_key(sort_desc(s), k) == with_key(s, k),
    decreases s.len(),
{
    if s.len() > 0 {
        lemma_sort_desc_stable(s.drop_last(), k);
        lemma_sort_desc_sorted(s.drop_last());
        lemma_insert_desc_with_key(sort_desc(s.drop_last()), s.last(), k);
    }
}

/// `insert_desc` writes its note at the first position whose key is
/// below the note's own.
proof fn lemma_insert_desc_at(s: Seq<NoteView>, n: NoteView, p: int)
    requires
        0 <= p <= s.len(),
        forall|j: int| 0 <= j < p ==> (#[trigger] s[j]).updated.key() >= n.updated.key(),
        p < s.len() ==> s[p].updated.key() < n.updated.key(),
    ensures
        insert_desc(s, n) == s.take(p) + seq![n] + s.skip(p),
    decreases p,
{
    if p == 0 {
        if s.len() == 0 {
            assert(insert_desc(s, n) =~= s.take(0) + seq![n] + s.skip(0));
        } else {
            assert(insert_desc(s, n) =~= s.take(0) + seq![n] + s.skip(0));
        }
    } else {
        assert(s[0].updated.key() >= n.updated.key());
        assert(forall|i: int| 0 <= i < s.drop_first().len() ==> s.drop_first()[i] == s[i + 1]);
        lemma_insert_desc_at(s.drop_first(), n, p - 1);
        assert(insert_desc(s, n) == seq![s.first()] + insert_desc(s.drop_first(), n));
        assert(seq![s.first()] + (s.drop_first().take(p - 1) + seq![n] + s.drop_first().skip(p - 1))
            =~= s.take(p) + seq![n] + s.skip(p));
    }
}

/// Sorts notes by `updated`, newest first, stably: notes of equal
/// `updated` keep the order they were handed in.
pub fn sort_notes(notes: Vec<Note>) -> (r: Vec<Note>)
    ensures
        r.deep_view() == sort_desc(notes.deep_view()),
{
    let ghost origv = notes@;
    let ghost origd = notes.deep_view();
    let mut rest = notes;
    let mut out: Vec<Note> = Vec::new();
    let mut i: usize = 0;
    let total = rest.len();
    proof {
        assert(origd.len() == total);
        assert(origd.take(0) =~= Seq::<NoteView>::empty());
        assert(out.deep_view() =~= sort_desc(origd.take(0)));
    }
    while rest.len() > 0
        invariant
            i <= origd.len() <= usize::MAX,
            origd.len() == origv.len(),
            forall|j: int| 0 <= j < origv.len() ==> origd[j] == (#[trigger] origv[j])@,
            rest@ =~= origv.skip(i as int),
            out.deep_view() =~= sort_desc(origd.take(i as int)),
            sorted_desc(out.deep_view()),
        decreases rest.len(),
    {
        let n = rest.remove(0);
        proof {
            assert(n == origv[i as int]);
            assert(rest@ =~= origv.skip(i + 1));
        }
        let ghost pre = out.deep_view();
        let mut p: usize = 0;
        while p < out.len()
            invariant_except_break
                p <= out.len(),
                out.deep_view() == pre,
                out.deep_view().len() == out.len(),
                forall|j: int|
                    0 <= j < p ==> (#[trigger] pre[j]).updated.key() >= n@.updated.key(),
            ensures
                p <= out.len(),
                out.deep_view() == pre,
                out.deep_view().len() == out.len(),
                forall|j: int|
                    0 <= j < p ==> (#[trigger] pre[j]).updated.key() >= n@.updated.key(),
                p < pre.len() ==> pre[p as int].updated.key() < n@.updated.key(),
            decreases out.len() - p,
        {
            proof {
                assert(out.deep_view()[p as int] == out@[p as int]@);
            }
            if !out[p].updated.ge(&n.updated) {
                break ;
            }
            p += 1;
        }
        proof {
            lemma_insert_desc_at(pre, n@, p as int);
            lemma_insert_desc_sorted(pre, n@);
        }
        out.insert(p, n);
        proof {
            assert(out.deep_view() =~= pre.take(p as int) + seq![n@] + pre.skip(p as int));
            assert(origd.take(i + 1).drop_last() =~= origd.take(i as int));
            assert(origd.take(i + 1).last() == origd[i as int]);
            assert(out.deep_view() =~= sort_desc(origd.take(i + 1)));
        }
        i += 1;
    }
    proof {
        assert(origd.take(origd.len() as int) =~= origd);
    }
    out
}

/// Decodes every enumerated file and returns the decoded notes sorted
/// by `updated` descending — stably, so equal `updated` keeps
/// enumeration order — beside the files that were skipped, each with
/// its error. A failing file never fails the listing.
pub fn load_notes(files: Vec<NoteFile>) -> (r: (Vec<Note>, Vec<DecodeFailure>))
    ensures
        r.0.deep_view() == sort_desc(decoded_views(files@)),
        r.1.deep_view() == failure_views(files@),
{
    let ghost origv = files@;
    let mut rest = files;
    let mut notes: Vec<Note> = Vec::new();
    let mut failures: Vec<DecodeFailure> = Vec::new();
    let mut i: usize = 0;
    let total = rest.len();
    proof {
        assert(origv.len() == total);
        assert(origv.take(0) =~= Seq::<NoteFile>::empty());
        assert(notes.deep_view() =~= decoded_views(origv.take(0)));
        assert(failures.deep_view() =~= failure_views(origv.take(0)));
    }
    while rest.len() > 0
        invariant
            i <= origv.len() <= usize::MAX,
            rest@ =~= origv.skip(i as int),
            notes.deep_view() =~= decoded_views(origv.take(i as int)),
            failures.deep_view() =~= failure_views(origv.take(i as int)),
        decreases rest.len(),
    {
        let f = rest.remove(0);
        proof {
            assert(f == origv[i as int]);
            assert(rest@ =~= origv.skip(i + 1));
            assert(origv.take(i + 1).drop_last() =~= origv.take(i as int));
            assert(origv.take(i + 1).last() == origv[i as int]);
        }
        let ghost pre_n = notes.deep_view();
        let ghost pre_f = failures.deep_view();
        let NoteFile { path, text } = f;
        let path_copy = path.clone();
        match parse_note(text.as_str(), path) {
            Ok(note) => {
                notes.push(note);
                proof {
                    assert(notes.deep_view() =~= pre_n.push(note@));
                    assert(notes.deep_view() =~= decoded_views(origv.take(i + 1)));
                    assert(failures.deep_view() =~= failure_views(origv.take(i + 1)));
                }
            },
            Err(e) => {
                failures.push(DecodeFailure { path: path_copy, error: e });
                proof {
                    assert(failures.deep_view() =~= pre_f.push(
                        DecodeFailureView { path: origv[i as int]@.path, error: e },
                    ));
                    assert(notes.deep_view() =~= decoded_views(origv.take(i + 1)));
                    assert(failures.deep_view() =~= failure_views(origv.take(i + 1)));
                }
            },
        }
        i += 1;
    }
    proof {
        assert(origv.take(origv.len() as int) =~= origv);
    }
    let sorted = sort_notes(notes);
    (sorted, failures)
}

/// Loading is a function of the enumerated files alone: two loads of
/// an unchanged directory yield identical sequences.
pub proof fn lemma_load_idempotent(a: Seq<NoteFile>, b: Seq<NoteFile>)
    requires
        a == b,
    ensures
        sort_desc(decoded_views(a)) == sort_desc(decoded_views(b)),
        failure_views(a) == failure_views(b),
{
}

/// Strictly ascending in code point order: sorted, with no string
/// twice.
pub open spec fn strictly_sorted(s: Seq<Seq<char>>) -> bool {
    forall|i: int, j: int| 0 <= i < j < s.len() ==> str_lt(#[trigger] s[i], #[trigger] s[j])
}

/// Whether some of the first `upto` notes lies in notebook `x`.
pub open spec fn has_notebook(notes: Seq<Note>, upto: int, x: Seq<char>) -> bool {
    exists|k: int| 0 <= k < upto && (#[trigger] notes[k])@.notebook == x
}

/// The distinct notebooks of the notes, each once, in code point
/// order: what the notebook listing prints. Order and uniqueness
/// follow from the strict sorting; the elements are exactly the
/// notebooks that occur.
pub fn notebook_list(notes: &Vec<Note>) -> (r: Vec<String>)
    ensures
        strictly_sorted(r.deep_view()),
        forall|x: Seq<char>|
            #[trigger] r.deep_view().contains(x) <==> has_notebook(notes@, notes@.len() as int, x),
{
    let mut out: Vec<String> = Vec::new();
    let mut k: usize = 0;
    while k < notes.len()
        invariant
            k <= notes@.len(),
            strictly_sorted(out.deep_view()),
            forall|x: Seq<char>|
                #[trigger] out.deep_view().contains(x) <==> has_notebook(notes@, k as int, x),
        decreases notes@.len() - k,
    {
        let x = notes[k].notebook.clone();
        let ghost dv = out.deep_view();
        let mut p: usize = 0;
        while p < out.len()
            invariant_except_break
                p <= out.len(),
                out.deep_view() == dv,
                dv.len() == out.len(),
                forall|j: int| 0 <= j < p ==> str_lt(#[trigger] dv[j], x@),
            ensures
                p <= out.len(),
                out.deep_view() == dv,
                dv.len() == out.len(),
                forall|j: int| 0 <= j < p ==> str_lt(#[trigger] dv[j], x@),
                p < dv.len() ==> !str_lt(dv[p as int], x@),
            decreases out.len() - p,
        {
            proof {
                assert(out.deep_view()[p as int] == out@[p as int]@);
            }
            if !str_less(out[p].as_str(), x.as_str()) {
                break ;
            }
            p += 1;
        }
        let mut present = false;
        if p < out.len() {
            proof {
                assert(out.deep_view()[p as int] == out@[p as int]@);
            }
            present = str_eq(out[p].as_str(), x.as_str());
        }
        if present {
            proof {
                assert(dv[p as int] == x@);
                assert(dv.contains(x@));
                assert forall|y: Seq<char>| #[trigger] out.deep_view().contains(y)
                    <==> has_notebook(notes@, k + 1, y) by {
                    if out.deep_view().contains(y) {
                        if y != x@ {
                            assert(has_notebook(notes@, k as int, y));
                        } else {
                            assert(notes@[k as int]@.notebook == y);
                        }
                    }
                    if has_notebook(notes@, k + 1, y) {
                        let w = choose|w: int|
                            0 <= w < k + 1 && (#[trigger] notes@[w])@.notebook == y;
                        if w < k {
                            assert(has_notebook(notes@, k as int, y));
                        } else {
                            assert(y == x@);
                        }
                    }
                }
            }
        } else {
            proof {
                if p < dv.len() {
                    if !str_lt(x@, dv[p as int]) {
                        lemma_str_lt_connected(dv[p as int], x@);
                    }
                    assert(str_lt(x@, dv[p as int]));
                }
                if dv.contains(x@) {
                    let w = choose|w: int| 0 <= w < dv.len() && dv[w] == x@;
                    if w < p {
                        lemma_str_lt_irrefl(x@);
                    } else if w > p {
                        lemma_str_lt_trans(x@, dv[p as int], dv[w]);
                        lemma_str_lt_irrefl(x@);
                    }
                }
                assert(!dv.contains(x@));
            }
            out.insert(p, x);
            proof {
                let dv2 = out.deep_view();
                assert(dv2 =~= dv.take(p as int) + seq![x@] + dv.skip(p as int));
                assert forall|i: int, j: int| 0 <= i < j < dv2.len() implies str_lt(
                    #[trigger] dv2[i],
                    #[trigger] dv2[j],
                ) by {
                    if i < p && j == p {
                    } else if i == p && j > p {
                        if j > p + 1 {
                            lemma_str_lt_trans(x@, dv[p as int], dv[j - 1]);
                        }
                    } else if i < p && j > p {
                        if j == p + 1 {
                            lemma_str_lt_trans(dv[i], x@, dv[p as int]);
                        }
                    }
                }
                assert forall|y: Seq<char>| #[trigger] dv2.contains(y) <==> has_notebook(
                    notes@,
                    k + 1,
                    y,
                ) by {
                    if dv2.contains(y) {
                        let w = choose|w: int| 0 <= w < dv2.len() && dv2[w] == y;
                        if w < p {
                            assert(dv[w] == y);
                            assert(dv.contains(y));
                            assert(has_notebook(notes@, k as int, y));
                        } else if w == p {
                            assert(y == x@);
                            assert(notes@[k as int]@.notebook == y);
                        } else {
                            assert(dv[w - 1] == y);
                            assert(dv.contains(y));
                            assert(has_notebook(notes@, k as int, y));
                        }
                    }
                    if has_notebook(notes@, k + 1, y) {
                        let w = choose|w: int|
                            0 <= w < k + 1 && (#[trigger] notes@[w])@.notebook == y;
                        if w < k {
                            assert(has_notebook(notes@, k as int, y));
                            assert(dv.contains(y));
                            let v = choose|v: int| 0 <= v < dv.len() && dv[v] == y;
                            if v < p {
                                assert(dv2[v] == y);
                            } else {
                                assert(dv2[v + 1] == y);
                            }
                            assert(dv2.contains(y));
                        } else {
                            assert(y == x@);
                            assert(dv2[p as int] == y);
                            assert(dv2.contains(y));
                        }
                    }
                }
            }
        }
        k += 1;
    }
    out
}

/// The first `n` notes of a listing, in order: what the list command
/// shows of the newest notes.
pub fn first_n(notes: Vec<Note>, n: usize) -> (r: Vec<Note>)
    requires
        n <= notes@.len(),
    ensures
        r@ == notes@.take(n as int),
{
    let mut v = notes;
    v.truncate(n);
    proof {
        assert(v@ =~= v@);
    }
    v
}

/// The file name a note created at `t` is stored under. Two creations
/// within one second collide; the caller decides what then.
pub open spec fn note_file_name_spec(t: Timestamp) -> Seq<char> {
    "note"@ + fmt_compact(t) + ".md"@
}

/// The file name for a note created at `t`.
pub fn note_file_name(t: &Timestamp) -> (r: String)
    ensures
        r@ == note_file_name_spec(*t),
{
    let mut out = String::from_str("note");
    let stamp = format_compact(t);
    out.append(stamp.as_str());
    out.append(".md");
    proof {
        assert(out@ =~= note_file_name_spec(*t));
    }
    out
}

} // verus!
