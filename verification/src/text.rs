//! Text primitives for the codec, the query parser and the matcher:
//! splitting on a separator, joining with a separator, substring
//! containment, whitespace tokenisation, and case folding.
//!
//! The spec side works on `Seq<char>`; the exec side works on `&str`
//! and `String` and is proved against the spec side. Splitting and
//! joining are inverse to each other, which the codec's round-trip
//! proof rests on.

use vstd::prelude::*;
use vstd::string::StrSliceExecFns;
use vstd::string::StringExecFns;

verus! {

/// The characters `str::split_whitespace` breaks on: the Unicode
/// `White_Space` set.
pub open spec fn is_space(c: char) -> bool {
    let u = c as u32;
    ||| u == 0x09
    ||| u == 0x0A
    ||| u == 0x0B
    ||| u == 0x0C
    ||| u == 0x0D
    ||| u == 0x20
    ||| u == 0x85
    ||| u == 0xA0
    ||| u == 0x1680
    ||| (0x2000 <= u && u <= 0x200A)
    ||| u == 0x2028
    ||| u == 0x2029
    ||| u == 0x202F
    ||| u == 0x205F
    ||| u == 0x3000
}

/// Whether the characters of `s` starting at `i` read `sep`.
pub open spec fn occurs_at(s: Seq<char>, sep: Seq<char>, i: int) -> bool {
    0 <= i && i + sep.len() <= s.len() && s.subrange(i, i + sep.len()) == sep
}

/// Whether `sep` occurs anywhere in `s`.
pub open spec fn has_occurrence(s: Seq<char>, sep: Seq<char>) -> bool {
    exists|i: int| occurs_at(s, sep, i)
}

/// Substring containment, as `str::contains` has it: the empty pattern
/// is contained in every string.
pub open spec fn is_substring_of(p: Seq<char>, s: Seq<char>) -> bool {
    has_occurrence(s, p)
}

/// The position of the first occurrence of `sep` in `s`, or `-1` when
/// there is none (also when `sep` is empty).
pub open spec fn find_sub(s: Seq<char>, sep: Seq<char>) -> int
    decreases s.len(),
{
    if sep.len() == 0 || s.len() < sep.len() {
        -1
    } else if s.take(sep.len() as int) == sep {
        0
    } else {
        let r = find_sub(s.skip(1), sep);
        if r < 0 {
            -1
        } else {
            r + 1
        }
    }
}

/// `find_sub` finds exactly the first occurrence: a result of `-1`
/// means there is none, and a nonnegative result is an occurrence that
/// no earlier position shares.
pub proof fn lemma_find_sub(s: Seq<char>, sep: Seq<char>)
    requires
        sep.len() > 0,
    ensures
        find_sub(s, sep) == -1 ==> forall|i: int| !occurs_at(s, sep, i),
        find_sub(s, sep) >= 0 ==> occurs_at(s, sep, find_sub(s, sep)) && (forall|i: int|
            0 <= i < find_sub(s, sep) ==> !occurs_at(s, sep, i)),
    decreases s.len(),
{
    if s.len() < sep.len() {
        assert(forall|i: int| !occurs_at(s, sep, i));
    } else if s.take(sep.len() as int) == sep {
        assert(occurs_at(s, sep, 0)) by {
            assert(s.subrange(0, sep.len() as int) == s.take(sep.len() as int));
        }
    } else {
        lemma_find_sub(s.skip(1), sep);
        assert forall|i: int| 1 <= i && i + sep.len() <= s.len() implies (occurs_at(s, sep, i)
            <==> occurs_at(s.skip(1), sep, i - 1)) by {
            assert(s.subrange(i, i + sep.len() as int) =~= s.skip(1).subrange(
                i - 1,
                i - 1 + sep.len() as int,
            ));
        }
        assert(!occurs_at(s, sep, 0)) by {
            assert(s.subrange(0, sep.len() as int) == s.take(sep.len() as int));
        }
        let r = find_sub(s.skip(1), sep);
        if r < 0 {
            assert forall|i: int| !occurs_at(s, sep, i) by {
                if 1 <= i && i + sep.len() <= s.len() {
                    assert(!occurs_at(s.skip(1), sep, i - 1));
                }
            }
        } else {
            assert(occurs_at(s, sep, r + 1));
            assert forall|i: int| 0 <= i < r + 1 implies !occurs_at(s, sep, i) by {
                if i >= 1 {
                    assert(!occurs_at(s.skip(1), sep, i - 1));
                }
            }
        }
    }
}

/// The first occurrence is unique: a position that is an occurrence,
/// with none before it, is what `find_sub` returns.
pub proof fn lemma_find_sub_at(s: Seq<char>, sep: Seq<char>, i: int)
    requires
        sep.len() > 0,
        occurs_at(s, sep, i),
        forall|j: int| 0 <= j < i ==> !occurs_at(s, sep, j),
    ensures
        find_sub(s, sep) == i,
{
    lemma_find_sub(s, sep);
}

/// The segments of `s` between the occurrences of `sep`, occurrences
/// excluded, empty segments kept: what `str::split` yields. A string
/// without the separator is one segment, so the result is never empty.
pub open spec fn split_seq(s: Seq<char>, sep: Seq<char>) -> Seq<Seq<char>>
    decreases s.len(),
    via split_seq_decreases
{
    let r = find_sub(s, sep);
    if r < 0 {
        seq![s]
    } else {
        seq![s.take(r)] + split_seq(s.skip(r + sep.len()), sep)
    }
}

#[via_fn]
proof fn split_seq_decreases(s: Seq<char>, sep: Seq<char>) {
    if sep.len() > 0 && find_sub(s, sep) >= 0 {
        lemma_find_sub(s, sep);
    }
}

/// The segments, re-concatenated with `sep` between each pair.
pub open spec fn join_seq(parts: Seq<Seq<char>>, sep: Seq<char>) -> Seq<char>
    decreases parts.len(),
{
    if parts.len() == 0 {
        Seq::empty()
    } else if parts.len() == 1 {
        parts[0]
    } else {
        parts[0] + sep + join_seq(parts.drop_first(), sep)
    }
}

/// Joining what splitting yielded restores the string.
pub proof fn lemma_join_of_split(s: Seq<char>, sep: Seq<char>)
    requires
        sep.len() > 0,
    ensures
        join_seq(split_seq(s, sep), sep) == s,
    decreases s.len(),
{
    let r = find_sub(s, sep);
    lemma_find_sub(s, sep);
    if r < 0 {
        assert(split_seq(s, sep) == seq![s]);
    } else {
        let m = sep.len() as int;
        let rest = s.skip(r + m);
        lemma_join_of_split(rest, sep);
        let parts = split_seq(s, sep);
        assert(parts == seq![s.take(r)] + split_seq(rest, sep));
        assert(parts.len() >= 2);
        assert(parts.drop_first() =~= split_seq(rest, sep));
        assert(parts[0] == s.take(r));
        assert(join_seq(parts, sep) == s.take(r) + sep + rest);
        assert(s.take(r) + sep + rest =~= s) by {
            assert(s.subrange(r, r + m) == sep);
            assert(forall|k: int| 0 <= k < m ==> sep[k] == #[trigger] s.subrange(r, r + m)[k]);
        }
    }
}

/// No segment that splitting yields contains the separator.
pub proof fn lemma_split_parts_sep_free(s: Seq<char>, sep: Seq<char>)
    requires
        sep.len() > 0,
    ensures
        forall|k: int|
            0 <= k < split_seq(s, sep).len() ==> !has_occurrence(
                #[trigger] split_seq(s, sep)[k],
                sep,
            ),
    decreases s.len(),
{
    let r = find_sub(s, sep);
    lemma_find_sub(s, sep);
    if r < 0 {
        assert forall|i: int| !occurs_at(s, sep, i) by {}
        assert(!has_occurrence(s, sep));
    } else {
        let m = sep.len() as int;
        let rest = s.skip(r + m);
        lemma_split_parts_sep_free(rest, sep);
        assert(!has_occurrence(s.take(r), sep)) by {
            if has_occurrence(s.take(r), sep) {
                let i = choose|i: int| occurs_at(s.take(r), sep, i);
                assert(s.subrange(i, i + m) =~= s.take(r).subrange(i, i + m));
                assert(occurs_at(s, sep, i));
            }
        }
        assert forall|k: int| 0 <= k < split_seq(s, sep).len() implies !has_occurrence(
            #[trigger] split_seq(s, sep)[k],
            sep,
        ) by {
            if k == 0 {
                assert(split_seq(s, sep)[0] == s.take(r));
            } else {
                assert(split_seq(s, sep)[k] == split_seq(rest, sep)[k - 1]);
            }
        }
    }
}

/// Splitting introduces no character: a segment of a string free of
/// `c` is free of `c`.
pub proof fn lemma_split_parts_char_free(s: Seq<char>, sep: Seq<char>, c: char)
    requires
        sep.len() > 0,
        !s.contains(c),
    ensures
        forall|k: int|
            0 <= k < split_seq(s, sep).len() ==> !(#[trigger] split_seq(s, sep)[k]).contains(c),
    decreases s.len(),
{
    let r = find_sub(s, sep);
    lemma_find_sub(s, sep);
    if r < 0 {
    } else {
        let m = sep.len() as int;
        let rest = s.skip(r + m);
        assert(!rest.contains(c)) by {
            if rest.contains(c) {
                let i = choose|i: int| 0 <= i < rest.len() && rest[i] == c;
                assert(s[r + m + i] == c);
            }
        }
        lemma_split_parts_char_free(rest, sep, c);
        assert(!s.take(r).contains(c)) by {
            if s.take(r).contains(c) {
                let i = choose|i: int| 0 <= i < r && s.take(r)[i] == c;
                assert(s[i] == c);
            }
        }
        assert forall|k: int| 0 <= k < split_seq(s, sep).len() implies !(#[trigger] split_seq(
            s,
            sep,
        )[k]).contains(c) by {
            if k == 0 {
                assert(split_seq(s, sep)[0] == s.take(r));
            } else {
                assert(split_seq(s, sep)[k] == split_seq(rest, sep)[k - 1]);
            }
        }
    }
}

/// Whether `sep` shifted `d` places to the right agrees with itself on
/// the overlap.
pub open spec fn shift_matches(sep: Seq<char>, d: int) -> bool {
    forall|k: int| d <= k < sep.len() ==> sep[k] == #[trigger] sep[k - d]
}

/// A separator no shift of which matches itself: no occurrence of it
/// can straddle the boundary between a joined segment and the
/// separator written after it. Every one-character separator is so, and
/// so is `"; "`.
pub open spec fn aperiodic(sep: Seq<char>) -> bool {
    forall|d: int| 0 < d < sep.len() ==> !#[trigger] shift_matches(sep, d)
}

/// Splitting what joining yielded restores the segments, provided none
/// of them contains the separator and the separator cannot straddle a
/// boundary.
pub proof fn lemma_split_of_join(parts: Seq<Seq<char>>, sep: Seq<char>)
    requires
        sep.len() > 0,
        aperiodic(sep),
        parts.len() > 0,
        forall|k: int| 0 <= k < parts.len() ==> !has_occurrence(#[trigger] parts[k], sep),
    ensures
        split_seq(join_seq(parts, sep), sep) == parts,
    decreases parts.len(),
{
    let m = sep.len() as int;
    if parts.len() == 1 {
        let s = parts[0];
        assert(join_seq(parts, sep) == s);
        lemma_find_sub(s, sep);
        if find_sub(s, sep) >= 0 {
            assert(occurs_at(s, sep, find_sub(s, sep)));
            assert(has_occurrence(s, sep));
        }
        assert(split_seq(s, sep) =~= parts);
    } else {
        let p0 = parts[0];
        let rest_join = join_seq(parts.drop_first(), sep);
        let j = join_seq(parts, sep);
        assert(j == p0 + sep + rest_join);
        let b = p0.len() as int;
        assert(occurs_at(j, sep, b)) by {
            assert(j.subrange(b, b + m) =~= sep);
        }
        assert forall|i: int| 0 <= i < b implies !occurs_at(j, sep, i) by {
            if occurs_at(j, sep, i) {
                if i + m <= b {
                    assert(j.subrange(i, i + m) =~= p0.subrange(i, i + m));
                    assert(occurs_at(p0, sep, i));
                    assert(has_occurrence(p0, sep));
                } else {
                    let d = b - i;
                    assert(0 < d < m);
                    assert(shift_matches(sep, d)) by {
                        assert forall|k: int| d <= k < m implies sep[k] == #[trigger] sep[k
                            - d] by {
                            assert(sep[k] == j.subrange(i, i + m)[k]);
                            assert(j[i + k] == sep[k - d]);
                        }
                    }
                    assert(!shift_matches(sep, d));
                }
            }
        }
        lemma_find_sub_at(j, sep, b);
        assert(j.take(b) =~= p0);
        assert(j.skip(b + m) =~= rest_join);
        assert(forall|k: int|
            0 <= k < parts.drop_first().len() ==> parts.drop_first()[k] == parts[k + 1]);
        lemma_split_of_join(parts.drop_first(), sep);
        assert(split_seq(j, sep) =~= parts);
    }
}

/// The length of the longest whitespace-free prefix of `s`.
pub open spec fn token_prefix_len(s: Seq<char>) -> nat
    decreases s.len(),
{
    if s.len() == 0 || is_space(s[0]) {
        0
    } else {
        1 + token_prefix_len(s.drop_first())
    }
}

pub proof fn lemma_token_prefix_len(s: Seq<char>)
    ensures
        token_prefix_len(s) <= s.len(),
        forall|i: int| 0 <= i < token_prefix_len(s) ==> !is_space(#[trigger] s[i]),
        token_prefix_len(s) < s.len() ==> is_space(s[token_prefix_len(s) as int]),
    decreases s.len(),
{
    if s.len() == 0 || is_space(s[0]) {
    } else {
        lemma_token_prefix_len(s.drop_first());
        assert forall|i: int| 0 <= i < token_prefix_len(s) implies !is_space(#[trigger] s[i]) by {
            if i >= 1 {
                assert(s.drop_first()[i - 1] == s[i]);
                assert(!is_space(s.drop_first()[i - 1]));
            }
        }
        if token_prefix_len(s) < s.len() {
            assert(s.drop_first()[token_prefix_len(s) - 1] == s[token_prefix_len(s) as int]);
        }
    }
}

/// A position whose preceding characters are all of one token, the
/// position itself past its end, pins `token_prefix_len`.
pub proof fn lemma_token_prefix_len_at(s: Seq<char>, j: int)
    requires
        0 <= j <= s.len(),
        forall|i: int| 0 <= i < j ==> !is_space(#[trigger] s[i]),
        j == s.len() || is_space(s[j]),
    ensures
        token_prefix_len(s) == j,
    decreases j,
{
    if j == 0 {
    } else {
        assert(forall|i: int| 0 <= i < s.drop_first().len() ==> s.drop_first()[i] == s[i + 1]);
        lemma_token_prefix_len_at(s.drop_first(), j - 1);
    }
}

/// The maximal whitespace-separated tokens of `s`, in order, as
/// `str::split_whitespace` yields them: runs of whitespace separate
/// tokens and are dropped, so no token is empty.
pub open spec fn ws_tokens(s: Seq<char>) -> Seq<Seq<char>>
    decreases s.len(),
    via ws_tokens_decreases
{
    if s.len() == 0 {
        Seq::empty()
    } else if is_space(s[0]) {
        ws_tokens(s.drop_first())
    } else {
        let k = token_prefix_len(s) as int;
        seq![s.take(k)] + ws_tokens(s.skip(k))
    }
}

#[via_fn]
proof fn ws_tokens_decreases(s: Seq<char>) {
    if s.len() > 0 && !is_space(s[0]) {
        lemma_token_prefix_len(s);
    }
}

/// Reading one whole token advances `ws_tokens` by that token.
pub proof fn lemma_ws_tokens_step(s: Seq<char>, j: int)
    requires
        1 <= j <= s.len(),
        forall|i: int| 0 <= i < j ==> !is_space(#[trigger] s[i]),
        j == s.len() || is_space(s[j]),
    ensures
        ws_tokens(s) == seq![s.take(j)] + ws_tokens(s.skip(j)),
{
    lemma_token_prefix_len_at(s, j);
}

/// Joining one more segment appends a separator and the segment.
pub proof fn lemma_join_push(ps: Seq<Seq<char>>, p: Seq<char>, sep: Seq<char>)
    ensures
        join_seq(ps.push(p), sep) == if ps.len() == 0 {
            p
        } else {
            join_seq(ps, sep) + sep + p
        },
    decreases ps.len(),
{
    if ps.len() == 0 {
        assert(ps.push(p) =~= seq![p]);
        assert(join_seq(seq![p], sep) == p);
    } else if ps.len() == 1 {
        assert(ps.push(p).drop_first() =~= seq![p]);
        assert(ps.push(p)[0] == ps[0]);
        assert(join_seq(seq![p], sep) == p);
        assert(join_seq(ps, sep) == ps[0]);
        assert(join_seq(ps.push(p), sep) == ps[0] + sep + p);
    } else {
        lemma_join_push(ps.drop_first(), p, sep);
        assert(ps.push(p).drop_first() =~= ps.drop_first().push(p));
        assert(ps.push(p)[0] == ps[0]);
        assert(ps[0] + sep + (join_seq(ps.drop_first(), sep) + sep + p) =~= (ps[0] + sep
            + join_seq(ps.drop_first(), sep)) + sep + p);
    }
}

/// For a one-character separator, an occurrence is just the character.
pub proof fn lemma_single_char_occurrence(s: Seq<char>, c: char)
    ensures
        has_occurrence(s, seq![c]) <==> s.contains(c),
{
    if has_occurrence(s, seq![c]) {
        let i = choose|i: int| occurs_at(s, seq![c], i);
        assert(s[i] == s.subrange(i, i + 1)[0]);
        assert(s.contains(c));
    }
    if s.contains(c) {
        let i = choose|i: int| 0 <= i < s.len() && s[i] == c;
        assert(s.subrange(i, i + 1) =~= seq![c]);
        assert(occurs_at(s, seq![c], i));
    }
}

/// A join of parts free of some character, with a separator free of
/// it, is free of it.
pub proof fn lemma_join_char_free(parts: Seq<Seq<char>>, sep: Seq<char>, c: char)
    requires
        forall|k: int| 0 <= k < parts.len() ==> !(#[trigger] parts[k]).contains(c),
        !sep.contains(c),
    ensures
        !join_seq(parts, sep).contains(c),
    decreases parts.len(),
{
    if parts.len() == 0 {
    } else if parts.len() == 1 {
        assert(join_seq(parts, sep) == parts[0]);
    } else {
        assert(forall|k: int|
            0 <= k < parts.drop_first().len() ==> parts.drop_first()[k] == parts[k + 1]);
        lemma_join_char_free(parts.drop_first(), sep, c);
        let j = join_seq(parts, sep);
        assert(j == parts[0] + sep + join_seq(parts.drop_first(), sep));
        if j.contains(c) {
            let i = choose|i: int| 0 <= i < j.len() && j[i] == c;
            let b0 = parts[0].len() as int;
            let b1 = b0 + sep.len() as int;
            if i < b0 {
                assert(parts[0].contains(c));
            } else if i < b1 {
                assert(sep.contains(c)) by {
                    assert(sep[i - b0] == c);
                }
            } else {
                assert(join_seq(parts.drop_first(), sep).contains(c)) by {
                    assert(join_seq(parts.drop_first(), sep)[i - b1] == c);
                }
            }
        }
    }
}

/// Whether `p` is what `s` begins with.
pub open spec fn starts_with(s: Seq<char>, p: Seq<char>) -> bool {
    s.len() >= p.len() && s.take(p.len() as int) == p
}

/// The exec twin of `is_space`.
pub fn is_space_char(c: char) -> (r: bool)
    ensures
        r == is_space(c),
{
    let u = c as u32;
    u == 0x09 || u == 0x0A || u == 0x0B || u == 0x0C || u == 0x0D || u == 0x20 || u == 0x85 || u
        == 0xA0 || u == 0x1680 || (0x2000 <= u && u <= 0x200A) || u == 0x2028 || u == 0x2029 || u
        == 0x202F || u == 0x205F || u == 0x3000
}

/// Whether the characters of `s` starting at `i` read `sep`.
fn match_at(s: &str, sep: &str, i: usize) -> (r: bool)
    requires
        i + sep@.len() <= s@.len(),
        s@.len() <= usize::MAX,
    ensures
        r == occurs_at(s@, sep@, i as int),
{
    let m = sep.unicode_len();
    let mut j: usize = 0;
    while j < m
        invariant
            j <= m,
            i + m <= s@.len(),
            s@.len() <= usize::MAX,
            m == sep@.len(),
            forall|l: int| 0 <= l < j ==> s@[i + l] == sep@[l],
        decreases m - j,
    {
        if s.get_char(i + j) != sep.get_char(j) {
            proof {
                if occurs_at(s@, sep@, i as int) {
                    assert(s@.subrange(i as int, i + m as int)[j as int] == sep@[j as int]);
                }
            }
            return false;
        }
        j += 1;
    }
    proof {
        assert(s@.subrange(i as int, i + m as int) =~= sep@);
    }
    true
}

/// The position of the first occurrence of `sep` in `s`, if any.
pub fn find_in_text(s: &str, sep: &str) -> (r: Option<usize>)
    requires
        sep@.len() > 0,
    ensures
        match r {
            Some(i) => find_sub(s@, sep@) == i as int,
            None => find_sub(s@, sep@) == -1,
        },
{
    let n = s.unicode_len();
    let m = sep.unicode_len();
    if n < m {
        return None;
    }
    let mut i: usize = 0;
    while i <= n - m
        invariant
            n == s@.len(),
            m == sep@.len(),
            1 <= m <= n,
            i <= n - m + 1,
            forall|j: int| 0 <= j < i ==> !occurs_at(s@, sep@, j),
        decreases n - i,
    {
        if match_at(s, sep, i) {
            proof {
                lemma_find_sub_at(s@, sep@, i as int);
            }
            return Some(i);
        }
        i += 1;
    }
    proof {
        assert forall|j: int| !occurs_at(s@, sep@, j) by {
            if 0 <= j && j + m <= n {
                assert(!occurs_at(s@, sep@, j));
            }
        }
        lemma_find_sub(s@, sep@);
        if find_sub(s@, sep@) >= 0 {
            assert(occurs_at(s@, sep@, find_sub(s@, sep@)));
        }
    }
    None
}

/// Whether `p` occurs in `s`, as `str::contains` has it.
pub fn contains_text(s: &str, p: &str) -> (r: bool)
    ensures
        r == is_substring_of(p@, s@),
{
    let m = p.unicode_len();
    if m == 0 {
        proof {
            assert(occurs_at(s@, p@, 0)) by {
                assert(s@.subrange(0, 0) =~= p@);
            }
        }
        return true;
    }
    let found = find_in_text(s, p);
    proof {
        lemma_find_sub(s@, p@);
        if find_sub(s@, p@) >= 0 {
            assert(occurs_at(s@, p@, find_sub(s@, p@)));
        }
    }
    found.is_some()
}

/// Whether `a` and `b` hold the same characters.
pub fn str_eq(a: &str, b: &str) -> (r: bool)
    ensures
        r == (a@ == b@),
{
    let na = a.unicode_len();
    let nb = b.unicode_len();
    if na != nb {
        return false;
    }
    let r = has_prefix(a, b);
    proof {
        if r {
            assert(a@.take(nb as int) =~= a@);
        } else if a@ == b@ {
            assert(a@.take(nb as int) =~= b@);
        }
    }
    r
}

/// Whether `s` begins with `p`.
pub fn has_prefix(s: &str, p: &str) -> (r: bool)
    ensures
        r == starts_with(s@, p@),
{
    let n = s.unicode_len();
    let m = p.unicode_len();
    if n < m {
        return false;
    }
    let mut j: usize = 0;
    while j < m
        invariant
            j <= m,
            m <= n,
            n == s@.len(),
            m == p@.len(),
            forall|l: int| 0 <= l < j ==> s@[l] == p@[l],
        decreases m - j,
    {
        if s.get_char(j) != p.get_char(j) {
            proof {
                if starts_with(s@, p@) {
                    assert(s@.take(m as int)[j as int] == p@[j as int]);
                }
            }
            return false;
        }
        j += 1;
    }
    proof {
        assert(s@.take(m as int) =~= p@);
    }
    true
}

/// The segments of `s` between the occurrences of `sep`.
pub fn split_text(s: &str, sep: &str) -> (r: Vec<String>)
    requires
        sep@.len() > 0,
    ensures
        r.deep_view() == split_seq(s@, sep@),
{
    let n = s.unicode_len();
    let m = sep.unicode_len();
    let mut out: Vec<String> = Vec::new();
    let mut start: usize = 0;
    proof {
        assert(s@.skip(0) =~= s@);
        assert(out.deep_view() + split_seq(s@, sep@) =~= split_seq(s@, sep@));
    }
    loop
        invariant_except_break
            start <= n,
            n == s@.len(),
            m == sep@.len(),
            m >= 1,
            out.deep_view() + split_seq(s@.skip(start as int), sep@) =~= split_seq(s@, sep@),
        ensures
            out.deep_view() == split_seq(s@, sep@),
        decreases n - start,
    {
        let suffix = s.substring_char(start, n);
        let ghost pre = out.deep_view();
        match find_in_text(suffix, sep) {
            None => {
                out.push(String::from_str(suffix));
                proof {
                    assert(split_seq(suffix@, sep@) == seq![suffix@]);
                    assert(out.deep_view() =~= pre.push(suffix@));
                    assert(out.deep_view() =~= pre + seq![suffix@]);
                }
                break ;
            },
            Some(i) => {
                proof {
                    lemma_find_sub(suffix@, sep@);
                    assert(occurs_at(suffix@, sep@, i as int));
                }
                let piece = suffix.substring_char(0, i);
                out.push(String::from_str(piece));
                proof {
                    assert(split_seq(suffix@, sep@) == seq![suffix@.take(i as int)] + split_seq(
                        suffix@.skip(i + m),
                        sep@,
                    ));
                    assert(piece@ =~= suffix@.take(i as int));
                    assert(suffix@.skip(i + m) =~= s@.skip(start + i + m));
                    assert(out.deep_view() =~= pre.push(piece@));
                    assert(out.deep_view() + split_seq(s@.skip(start + i + m), sep@) =~= pre + (
                    seq![piece@] + split_seq(s@.skip(start + i + m), sep@)));
                }
                start = start + i + m;
            },
        }
    }
    out
}

/// The segments, re-concatenated with `sep` between each pair.
pub fn join_text(parts: &Vec<String>, sep: &str) -> (r: String)
    ensures
        r@ == join_seq(parts.deep_view(), sep@),
{
    let mut out = String::new();
    let mut i: usize = 0;
    while i < parts.len()
        invariant
            i <= parts.len(),
            out@ == join_seq(parts.deep_view().take(i as int), sep@),
        decreases parts.len() - i,
    {
        if i > 0 {
            out.append(sep);
        }
        out.append(parts[i].as_str());
        proof {
            let ps = parts.deep_view();
            lemma_join_push(ps.take(i as int), ps[i as int], sep@);
            assert(ps.take(i + 1) =~= ps.take(i as int).push(ps[i as int]));
        }
        i += 1;
    }
    proof {
        assert(parts.deep_view().take(parts.len() as int) =~= parts.deep_view());
    }
    out
}

/// The maximal whitespace-separated tokens of `s`, in order.
pub fn whitespace_tokens(s: &str) -> (r: Vec<String>)
    ensures
        r.deep_view() == ws_tokens(s@),
{
    let n = s.unicode_len();
    let mut out: Vec<String> = Vec::new();
    let mut i: usize = 0;
    proof {
        assert(s@.skip(0) =~= s@);
        assert(out.deep_view() + ws_tokens(s@) =~= ws_tokens(s@));
    }
    while i < n
        invariant
            i <= n,
            n == s@.len(),
            out.deep_view() + ws_tokens(s@.skip(i as int)) =~= ws_tokens(s@),
        decreases n - i,
    {
        let c = s.get_char(i);
        if is_space_char(c) {
            proof {
                assert(s@.skip(i as int).drop_first() =~= s@.skip(i + 1));
            }
            i += 1;
        } else {
            let mut j: usize = i + 1;
            while j < n && !is_space_char(s.get_char(j))
                invariant
                    i < j <= n,
                    n == s@.len(),
                    forall|l: int| i <= l < j ==> !is_space(#[trigger] s@[l]),
                decreases n - j,
            {
                j += 1;
            }
            let tok = s.substring_char(i, j);
            let ghost pre = out.deep_view();
            out.push(String::from_str(tok));
            proof {
                let suf = s@.skip(i as int);
                assert forall|l: int| 0 <= l < j - i implies !is_space(#[trigger] suf[l]) by {
                    assert(suf[l] == s@[i + l]);
                }
                if j < n {
                    assert(suf[j - i] == s@[j as int]);
                }
                lemma_ws_tokens_step(suf, j - i);
                assert(suf.take(j - i) =~= tok@);
                assert(suf.skip(j - i) =~= s@.skip(j as int));
                assert(out.deep_view() =~= pre.push(tok@));
                assert(out.deep_view() + ws_tokens(s@.skip(j as int)) =~= pre + (seq![tok@]
                    + ws_tokens(s@.skip(j as int))));
            }
            i = j;
        }
    }
    proof {
        assert(s@.skip(n as int) =~= Seq::<char>::empty());
        assert(ws_tokens(s@.skip(n as int)) =~= Seq::<Seq<char>>::empty());
        assert(out.deep_view() + ws_tokens(s@.skip(n as int)) =~= out.deep_view());
    }
    out
}

/// Whether some element of `v` reads `x`.
pub fn contains_string(v: &Vec<String>, x: &String) -> (r: bool)
    ensures
        r == v.deep_view().contains(x@),
{
    let mut i: usize = 0;
    while i < v.len()
        invariant
            i <= v.len(),
            forall|k: int| 0 <= k < i ==> v.deep_view()[k] != x@,
        decreases v.len() - i,
    {
        let vi: &String = &v[i];
        if vi.eq(x) {
            proof {
                assert(v.deep_view()[i as int] == x@);
            }
            return true;
        }
        i += 1;
    }
    proof {
        if v.deep_view().contains(x@) {
            let k = choose|k: int| 0 <= k < v.deep_view().len() && v.deep_view()[k] == x@;
            assert(v.deep_view()[k] != x@);
        }
    }
    false
}

/// Lexicographic order on code points: the order `str`'s own `<`
/// gives, since UTF-8 byte order agrees with code point order.
pub open spec fn str_lt(a: Seq<char>, b: Seq<char>) -> bool
    decreases a.len(),
{
    if b.len() == 0 {
        false
    } else if a.len() == 0 {
        true
    } else if a[0] != b[0] {
        (a[0] as u32) < (b[0] as u32)
    } else {
        str_lt(a.drop_first(), b.drop_first())
    }
}

/// The order is strict and total: two strings neither of which is
/// below the other are equal.
pub proof fn lemma_str_lt_connected(a: Seq<char>, b: Seq<char>)
    requires
        !str_lt(a, b),
        !str_lt(b, a),
    ensures
        a == b,
    decreases a.len(),
{
    if a.len() == 0 || b.len() == 0 {
        assert(a =~= b);
    } else if a[0] != b[0] {
        assert((a[0] as u32) >= (b[0] as u32) && (b[0] as u32) >= (a[0] as u32));
        vstd::utf8::char_u32_cast(a[0], a[0] as u32);
        vstd::utf8::char_u32_cast(b[0], b[0] as u32);
        assert(a[0] == b[0]);
    } else {
        lemma_str_lt_connected(a.drop_first(), b.drop_first());
        assert(a =~= seq![a[0]] + a.drop_first());
        assert(b =~= seq![b[0]] + b.drop_first());
    }
}

/// The order is irreflexive.
pub proof fn lemma_str_lt_irrefl(a: Seq<char>)
    ensures
        !str_lt(a, a),
    decreases a.len(),
{
    if a.len() > 0 {
        lemma_str_lt_irrefl(a.drop_first());
    }
}

/// The order is transitive.
pub proof fn lemma_str_lt_trans(a: Seq<char>, b: Seq<char>, c: Seq<char>)
    requires
        str_lt(a, b),
        str_lt(b, c),
    ensures
        str_lt(a, c),
    decreases a.len(),
{
    if a.len() == 0 {
    } else {
        if a[0] == b[0] && b[0] == c[0] {
            lemma_str_lt_trans(a.drop_first(), b.drop_first(), c.drop_first());
        }
    }
}

/// Whether `a` reads before `b` in code point order.
pub fn str_less(a: &str, b: &str) -> (r: bool)
    ensures
        r == str_lt(a@, b@),
{
    let na = a.unicode_len();
    let nb = b.unicode_len();
    let mut i: usize = 0;
    proof {
        assert(a@.skip(0) =~= a@);
        assert(b@.skip(0) =~= b@);
    }
    loop
        invariant_except_break
            i <= na,
            i <= nb,
            na == a@.len(),
            nb == b@.len(),
            forall|j: int| 0 <= j < i ==> a@[j] == b@[j],
            str_lt(a@, b@) == str_lt(a@.skip(i as int), b@.skip(i as int)),
        ensures
            str_lt(a@, b@) == ({
                let r: bool = if i >= nb {
                    false
                } else if i >= na {
                    true
                } else {
                    (a@[i as int] as u32) < (b@[i as int] as u32)
                };
                r
            }),
            i <= na && i <= nb,
            na == a@.len() && nb == b@.len(),
        decreases na - i,
    {
        if i >= na || i >= nb {
            proof {
                if i >= nb {
                    assert(b@.skip(i as int).len() == 0);
                } else {
                    assert(a@.skip(i as int).len() == 0 && b@.skip(i as int).len() > 0);
                }
            }
            break ;
        }
        let ca = a.get_char(i);
        let cb = b.get_char(i);
        if ca != cb {
            proof {
                assert(a@.skip(i as int)[0] == a@[i as int]);
                assert(b@.skip(i as int)[0] == b@[i as int]);
            }
            break ;
        }
        proof {
            assert(a@.skip(i as int)[0] == b@.skip(i as int)[0]);
            assert(a@.skip(i as int).drop_first() =~= a@.skip(i + 1));
            assert(b@.skip(i as int).drop_first() =~= b@.skip(i + 1));
        }
        i += 1;
    }
    if i >= nb {
        false
    } else if i >= na {
        true
    } else {
        (a.get_char(i) as u32) < (b.get_char(i) as u32)
    }
}

/// What `str::to_lowercase` returns for a given sequence of
/// characters: named here, stated nowhere, since Unicode case folding
/// is no business of this library's proofs.
pub uninterp spec fn lower_of(s: Seq<char>) -> Seq<char>;

/// Relies on `str::to_lowercase`: its result is a function of the
/// input characters alone.
#[verifier::external_body]
pub fn lowercase(s: &str) -> (r: String)
    ensures
        r@ == lower_of(s@),
{
    s.to_lowercase()
}

} // verus!
