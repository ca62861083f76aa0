//! The index cache: the ordinal-to-path mapping that a listing or
//! search leaves behind, and that a later view, edit or delete command
//! resolves a small integer against. Ordinals are 1-based and
//! contiguous; only a note's path — its identity — is stored, never
//! its content.
//!
//! The cache is persisted as text of length-prefixed entries, one per
//! path: the path's length in decimal, a colon, then the path's
//! characters. The format is lossless for any path text, non-ASCII
//! and newlines included, and decoding inverts encoding. A cache file
//! that does not parse is reported stale: the caller re-runs a
//! listing; nothing here rescans the directory.

use vstd::prelude::*;
use crate::note::Note;
use crate::text::find_sub;
use crate::text::find_in_text;
use crate::text::lemma_find_sub;
use crate::text::lemma_find_sub_at;
use crate::text::occurs_at;
use crate::timestamp::digit_char;
use crate::timestamp::digit_str;
use crate::timestamp::digit_val;
use crate::timestamp::digit_value;
use crate::timestamp::is_digit;
use vstd::string::StrSliceExecFns;
use vstd::string::StringExecFns;

verus! {

/// Why an ordinal could not be resolved.
#[derive(Debug, Clone, Copy, PartialEq, Eq, Structural)]
pub enum ResolveError {
    /// The persisted cache could not be read back: run a listing or a
    /// search to rebuild it.
    StaleIndex,
    /// The ordinal names no entry of the mapping.
    IndexOutOfRange,
}

/// The ordinal-to-path mapping: ordinal `i` names `paths[i - 1]`.
#[derive(Debug, Clone, PartialEq)]
pub struct IndexCache {
    pub paths: Vec<String>,
}

impl View for IndexCache {
    type V = Seq<Seq<char>>;

    open spec fn view(&self) -> Seq<Seq<char>> {
        self.paths.deep_view()
    }
}

impl IndexCache {
    /// The mapping a fresh listing leaves behind: ordinal `i` (1-based)
    /// names the `i`th note's path.
    pub fn rebuild(notes: &Vec<Note>) -> (r: IndexCache)
        ensures
            r@.len() == notes@.len(),
            forall|i: int| 0 <= i < notes@.len() ==> r@[i] == (#[trigger] notes@[i])@.filepath,
    {
        let mut paths: Vec<String> = Vec::new();
        let mut i: usize = 0;
        while i < notes.len()
            invariant
                i <= notes@.len(),
                paths.deep_view().len() == i,
                forall|j: int|
                    0 <= j < i ==> paths.deep_view()[j] == (#[trigger] notes@[j])@.filepath,
            decreases notes@.len() - i,
        {
            paths.push(notes[i].filepath.clone());
            i += 1;
        }
        IndexCache { paths }
    }

    /// The path ordinal `ordinal` names, or the out-of-range error for
    /// every ordinal outside `1..=len`; zero is outside.
    pub fn resolve(&self, ordinal: usize) -> (r: Result<String, ResolveError>)
        ensures
            match r {
                Ok(p) => 1 <= ordinal <= self@.len() && p@ == self@[ordinal - 1],
                Err(e) => e == ResolveError::IndexOutOfRange && !(1 <= ordinal <= self@.len()),
            },
    {
        if ordinal == 0 || ordinal > self.paths.len() {
            return Err(ResolveError::IndexOutOfRange);
        }
        let p = self.paths[ordinal - 1].clone();
        proof {
            assert(self@[ordinal - 1] == self.paths@[ordinal - 1]@);
        }
        Ok(p)
    }
}

/// The decimal value a digit sequence spells.
pub open spec fn dec_val(s: Seq<char>) -> int
    decreases s.len(),
{
    if s.len() == 0 {
        0
    } else {
        dec_val(s.drop_last()) * 10 + digit_val(s.last())
    }
}

/// Whether every character is an ASCII digit.
pub open spec fn digits_only(s: Seq<char>) -> bool {
    forall|i: int| 0 <= i < s.len() ==> is_digit(#[trigger] s[i])
}

/// `n` written in decimal, without leading zeroes (a single zero for
/// zero).
pub open spec fn dec_digits(n: nat) -> Seq<char>
    decreases n,
{
    if n < 10 {
        seq![digit_char(n as int)]
    } else {
        dec_digits(n / 10) + seq![digit_char(n as int % 10)]
    }
}

/// One persisted entry: the path's length in decimal, a colon, the
/// path.
pub open spec fn encode_entry(p: Seq<char>) -> Seq<char> {
    dec_digits(p.len()) + seq![':'] + p
}

/// The persisted form of a mapping: its entries, one after another.
pub open spec fn cache_encode_spec(ps: Seq<Seq<char>>) -> Seq<char>
    decreases ps.len(),
{
    if ps.len() == 0 {
        Seq::empty()
    } else {
        encode_entry(ps.first()) + cache_encode_spec(ps.drop_first())
    }
}

/// What reading a persisted cache yields: the recorded paths, or
/// nothing for any text that does not spell entry after entry to its
/// very end.
pub open spec fn cache_decode_spec(s: Seq<char>) -> Option<Seq<Seq<char>>>
    decreases s.len(),
    via cache_decode_spec_decreases
{
    if s.len() == 0 {
        Some(Seq::empty())
    } else {
        let c = find_sub(s, seq![':']);
        if c < 1 {
            None
        } else if !digits_only(s.take(c)) {
            None
        } else {
            let v = dec_val(s.take(c));
            if v > s.len() - c - 1 {
                None
            } else {
                match cache_decode_spec(s.skip(c + 1 + v)) {
                    Some(rest) => Some(seq![s.subrange(c + 1, c + 1 + v)] + rest),
                    None => None,
                }
            }
        }
    }
}

#[via_fn]
proof fn cache_decode_spec_decreases(s: Seq<char>) {
    if s.len() > 0 {
        let c = find_sub(s, seq![':']);
        if c >= 1 {
            lemma_find_sub(s, seq![':']);
            assert(occurs_at(s, seq![':'], c));
            if digits_only(s.take(c)) {
                lemma_dec_val_mono(s.take(c), c);
            }
        }
    }
}

/// The digits of a number are digits, spell the number back, and hold
/// no colon.
proof fn lemma_dec_digits(n: nat)
    ensures
        dec_digits(n).len() >= 1,
        digits_only(dec_digits(n)),
        dec_val(dec_digits(n)) == n,
    decreases n,
{
    if n < 10 {
        assert(dec_val(Seq::<char>::empty()) == 0);
        assert(seq![digit_char(n as int)].drop_last() =~= Seq::<char>::empty());
        assert(is_digit(digit_char(n as int)));
        assert(digit_val(digit_char(n as int)) == n);
    } else {
        lemma_dec_digits(n / 10);
        let d = dec_digits(n);
        assert(d.drop_last() =~= dec_digits(n / 10));
        assert(d.last() == digit_char(n as int % 10));
        assert(is_digit(digit_char(n as int % 10)));
        assert(digit_val(digit_char(n as int % 10)) == n as int % 10);
        assert(dec_val(d) == (n / 10) * 10 + n % 10);
        assert forall|i: int| 0 <= i < d.len() implies is_digit(#[trigger] d[i]) by {
            if i < d.len() - 1 {
                assert(d[i] == dec_digits(n / 10)[i]);
            }
        }
    }
}

/// A digit is not a colon.
proof fn lemma_digit_not_colon(c: char)
    requires
        is_digit(c),
    ensures
        c != ':',
{
}

/// Over digits, a longer prefix never spells a smaller value.
proof fn lemma_dec_val_mono(s: Seq<char>, j: int)
    requires
        digits_only(s),
        0 <= j <= s.len(),
    ensures
        dec_val(s) >= dec_val(s.take(j)) >= 0,
    decreases s.len(),
{
    if s.len() == 0 {
        assert(s.take(j) =~= s);
    } else if j == s.len() {
        assert(s.take(j) =~= s);
        assert(forall|i: int| 0 <= i < s.drop_last().len() ==> s.drop_last()[i] == s[i]);
        lemma_dec_val_mono(s.drop_last(), s.len() - 1);
        assert(s.drop_last().take(s.len() - 1) =~= s.drop_last());
        assert(dec_val(s) == dec_val(s.drop_last()) * 10 + digit_val(s.last()));
        assert(digit_val(s.last()) >= 0);
    } else {
        assert(forall|i: int| 0 <= i < s.drop_last().len() ==> s.drop_last()[i] == s[i]);
        lemma_dec_val_mono(s.drop_last(), j);
        assert(s.take(j) =~= s.drop_last().take(j));
        lemma_dec_val_mono(s.drop_last(), s.drop_last().len() as int);
        assert(s.drop_last().take(s.drop_last().len() as int) =~= s.drop_last());
        assert(dec_val(s) == dec_val(s.drop_last()) * 10 + digit_val(s.last()));
        assert(digit_val(s.last()) >= 0);
    }
}

/// Appending one path appends its entry to the encoded form.
proof fn lemma_cache_encode_push(ps: Seq<Seq<char>>, p: Seq<char>)
    ensures
        cache_encode_spec(ps.push(p)) == cache_encode_spec(ps) + encode_entry(p),
    decreases ps.len(),
{
    if ps.len() == 0 {
        assert(ps.push(p).drop_first() =~= Seq::<Seq<char>>::empty());
        assert(ps.push(p).first() == p);
        assert(encode_entry(p) + cache_encode_spec(Seq::<Seq<char>>::empty()) =~= cache_encode_spec(
            ps,
        ) + encode_entry(p));
    } else {
        assert(ps.push(p).drop_first() =~= ps.drop_first().push(p));
        assert(ps.push(p).first() == ps.first());
        lemma_cache_encode_push(ps.drop_first(), p);
        assert(encode_entry(ps.first()) + (cache_encode_spec(ps.drop_first()) + encode_entry(p))
            =~= (encode_entry(ps.first()) + cache_encode_spec(ps.drop_first())) + encode_entry(p));
    }
}

/// Writes `n` in decimal after `out`.
fn push_dec(out: &mut String, n: usize)
    ensures
        final(out)@ == old(out)@ + dec_digits(n as nat),
    decreases n,
{
    if n < 10 {
        out.append(digit_str(n as u8));
        proof {
            assert(final(out)@ =~= old(out)@ + dec_digits(n as nat));
        }
    } else {
        push_dec(out, n / 10);
        out.append(digit_str((n % 10) as u8));
        proof {
            assert(final(out)@ =~= old(out)@ + dec_digits(n as nat));
        }
    }
}

impl IndexCache {
    /// Serialises the mapping in the persisted cache format.
    pub fn encode(&self) -> (r: String)
        ensures
            r@ == cache_encode_spec(self@),
    {
        proof {
            reveal_strlit(":");
            assert(":"@ =~= seq![':']);
        }
        let mut out = String::new();
        let mut i: usize = 0;
        proof {
            assert(self@.take(0) =~= Seq::<Seq<char>>::empty());
            assert(out@ =~= cache_encode_spec(self@.take(0)));
        }
        while i < self.paths.len()
            invariant
                i <= self@.len(),
                self@.len() == self.paths@.len(),
                out@ == cache_encode_spec(self@.take(i as int)),
            decreases self@.len() - i,
        {
            proof {
                reveal_strlit(":");
                assert(":"@ =~= seq![':']);
                assert(self@[i as int] == self.paths@[i as int]@);
            }
            let p = &self.paths[i];
            push_dec(&mut out, p.unicode_len());
            out.append(":");
            out.append(p.as_str());
            proof {
                lemma_cache_encode_push(self@.take(i as int), self@[i as int]);
                assert(self@.take(i + 1) =~= self@.take(i as int).push(self@[i as int]));
                assert(out@ =~= cache_encode_spec(self@.take(i as int)) + encode_entry(
                    self@[i as int],
                ));
            }
            i += 1;
        }
        proof {
            assert(self@.take(self@.len() as int) =~= self@);
        }
        out
    }
}

/// Reads a persisted cache back. Exactly the texts that spell entry
/// after entry to their very end are accepted; anything else is
/// reported stale.
pub fn decode_cache(s: &str) -> (r: Result<IndexCache, ResolveError>)
    ensures
        match r {
            Ok(c) => cache_decode_spec(s@) == Some(c@),
            Err(e) => e == ResolveError::StaleIndex && cache_decode_spec(s@) is None,
        },
{
    proof {
        reveal_strlit(":");
        assert(":"@ =~= seq![':']);
    }
    let n = s.unicode_len();
    let mut paths: Vec<String> = Vec::new();
    let mut pos: usize = 0;
    proof {
        assert(s@.skip(0) =~= s@);
        assert(paths.deep_view() + cache_decode_spec(s@)->Some_0 =~= cache_decode_spec(s@)->Some_0);
    }
    while pos < n
        invariant
            pos <= n,
            n == s@.len(),
            match cache_decode_spec(s@.skip(pos as int)) {
                Some(t) => cache_decode_spec(s@) == Some(paths.deep_view() + t),
                None => cache_decode_spec(s@) is None,
            },
        decreases n - pos,
    {
        proof {
            reveal_strlit(":");
            assert(":"@ =~= seq![':']);
        }
        let suffix = s.substring_char(pos, n);
        let ghost suf = s@.skip(pos as int);
        let c = match find_in_text(suffix, ":") {
            Some(c) => c,
            None => {
                return Err(ResolveError::StaleIndex);
            },
        };
        proof {
            lemma_find_sub(suf, seq![':']);
            assert(occurs_at(suf, seq![':'], c as int));
        }
        if c == 0 {
            return Err(ResolveError::StaleIndex);
        }
        let mut v: u64 = 0;
        let mut j: usize = 0;
        while j < c
            invariant
                j <= c,
                c + 1 <= suf.len(),
                suf == s@.skip(pos as int),
                pos <= n == s@.len(),
                suffix@ == suf,
                find_sub(suf, seq![':']) == c as int,
                match cache_decode_spec(suf) {
                    Some(t) => cache_decode_spec(s@) == Some(paths.deep_view() + t),
                    None => cache_decode_spec(s@) is None,
                },
                forall|l: int| 0 <= l < j ==> is_digit(#[trigger] suf[l]),
                v == dec_val(suf.take(j as int)),
            decreases c - j,
        {
            let ch = suffix.get_char(j);
            let d = match digit_value(ch) {
                Some(d) => d,
                None => {
                    proof {
                        assert(suf.take(c as int)[j as int] == suf[j as int]);
                        assert(!digits_only(suf.take(c as int)));
                    }
                    return Err(ResolveError::StaleIndex);
                },
            };
            if v > (u64::MAX - (d as u64)) / 10 {
                proof {
                    let full = suf.take(c as int);
                    if digits_only(full) {
                        assert(suf.take(j + 1).drop_last() =~= suf.take(j as int));
                        assert(suf.take(j + 1).last() == suf[j as int]);
                        assert(dec_val(suf.take(j + 1)) == v * 10 + d);
                        assert(v * 10 + d > u64::MAX) by (nonlinear_arith)
                            requires
                                v > (u64::MAX - (d as u64)) / 10,
                                0 <= d <= 9,
                        ;
                        lemma_dec_val_mono(full, j + 1);
                        assert(full.take(j + 1) =~= suf.take(j + 1));
                        assert(dec_val(full) > u64::MAX);
                        assert(dec_val(full) > suf.len() - c - 1);
                    }
                }
                return Err(ResolveError::StaleIndex);
            }
            v = v * 10 + (d as u64);
            proof {
                assert(suf.take(j + 1).drop_last() =~= suf.take(j as int));
                assert(suf.take(j + 1).last() == suf[j as int]);
            }
            j += 1;
        }
        proof {
            assert(digits_only(suf.take(c as int)));
        }
        let remaining = n - pos - c - 1;
        if v > remaining as u64 {
            proof {
                assert(dec_val(suf.take(c as int)) > suf.len() - c - 1);
            }
            return Err(ResolveError::StaleIndex);
        }
        let vu = v as usize;
        proof {
            assert(vu == v);
        }
        let entry_start = pos + c + 1;
        let entry = s.substring_char(entry_start, entry_start + vu);
        let ghost pre = paths.deep_view();
        paths.push(String::from_str(entry));
        proof {
            let tail = s@.skip(entry_start + vu);
            assert(suf.skip(c + 1 + vu) =~= tail);
            assert(entry@ =~= suf.subrange(c + 1, c + 1 + vu));
            assert(paths.deep_view() =~= pre.push(entry@));
            match cache_decode_spec(tail) {
                Some(t2) => {
                    assert(cache_decode_spec(suf) == Some(seq![entry@] + t2));
                    assert(pre + (seq![entry@] + t2) =~= paths.deep_view() + t2);
                },
                None => {
                    assert(cache_decode_spec(suf) is None);
                },
            }
        }
        pos = entry_start + vu;
    }
    proof {
        assert(s@.skip(n as int) =~= Seq::<char>::empty());
        assert(paths.deep_view() + Seq::<Seq<char>>::empty() =~= paths.deep_view());
    }
    Ok(IndexCache { paths })
}

/// Resolves an ordinal against the persisted cache text: the path it
/// named in the last listing. Unreadable text is stale; on readable
/// text an ordinal outside `1..=len` is out of range.
pub fn resolve_in_text(s: &str, ordinal: usize) -> (r: Result<String, ResolveError>)
    ensures
        match r {
            Ok(p) => cache_decode_spec(s@) matches Some(ps) && 1 <= ordinal <= ps.len() && p@
                == ps[ordinal - 1],
            Err(e) => match e {
                ResolveError::StaleIndex => cache_decode_spec(s@) is None,
                ResolveError::IndexOutOfRange => cache_decode_spec(s@) matches Some(ps) && !(1
                    <= ordinal <= ps.len()),
            },
        },
{
    match decode_cache(s) {
        Ok(cache) => cache.resolve(ordinal),
        Err(e) => Err(e),
    }
}

/// Round trip: reading back an encoded mapping restores every path.
pub proof fn lemma_cache_round_trip(ps: Seq<Seq<char>>)
    ensures
        cache_decode_spec(cache_encode_spec(ps)) == Some(ps),
    decreases ps.len(),
{
    if ps.len() == 0 {
        assert(cache_encode_spec(ps).len() == 0);
        assert(Seq::<Seq<char>>::empty() =~= ps);
    } else {
        let p0 = ps.first();
        let dd = dec_digits(p0.len());
        let s = cache_encode_spec(ps);
        let rest_enc = cache_encode_spec(ps.drop_first());
        assert(s == encode_entry(p0) + rest_enc);
        lemma_dec_digits(p0.len());
        let c = dd.len() as int;
        assert(occurs_at(s, seq![':'], c)) by {
            assert(s.subrange(c, c + 1) =~= seq![':']);
        }
        assert forall|i: int| 0 <= i < c implies !occurs_at(s, seq![':'], i) by {
            if occurs_at(s, seq![':'], i) {
                assert(s.subrange(i, i + 1)[0] == s[i]);
                assert(s[i] == dd[i]);
                lemma_digit_not_colon(dd[i]);
            }
        }
        lemma_find_sub_at(s, seq![':'], c);
        assert(s.take(c) =~= dd);
        assert(dec_val(s.take(c)) == p0.len());
        assert(s.len() - c - 1 == p0.len() + rest_enc.len());
        assert(s.subrange(c + 1, c + 1 + p0.len()) =~= p0);
        assert(s.skip(c + 1 + p0.len()) =~= rest_enc);
        lemma_cache_round_trip(ps.drop_first());
        assert(seq![p0] + ps.drop_first() =~= ps);
    }
}

} // verus!
