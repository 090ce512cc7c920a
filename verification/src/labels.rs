//! Turning a raw comma-delimited label string into clean labels.
//!
//! A raw string is split on commas; each piece is trimmed of
//! surrounding whitespace; pieces that are empty after trimming are
//! discarded. `clean_labels` is the mathematical statement of that
//! process, and `split_genre_labels` the verified executable form.

use vstd::prelude::*;

verus! {

/// The Unicode `White_Space` set, the characters that `str::trim`
/// removes: the ASCII whitespace controls and space, next line,
/// no-break space, ogham space mark, the en/em quads and spaces,
/// line and paragraph separators, narrow no-break space, medium
/// mathematical space, and ideographic space.
pub open spec fn is_space_char(c: char) -> bool {
    (0x9 <= c as u32 && c as u32 <= 0xD) || c as u32 == 0x20 || c as u32 == 0x85 || c as u32
        == 0xA0 || c as u32 == 0x1680 || (0x2000 <= c as u32 && c as u32 <= 0x200A) || c as u32
        == 0x2028 || c as u32 == 0x2029 || c as u32 == 0x202F || c as u32 == 0x205F || c as u32
        == 0x3000
}

/// The pieces of `s` between commas, in order. There is always at
/// least one piece; an empty string has one empty piece.
pub open spec fn split_commas(s: Seq<char>) -> Seq<Seq<char>>
    decreases s.len(),
{
    if s.len() == 0 {
        seq![Seq::<char>::empty()]
    } else {
        let rest = split_commas(s.drop_last());
        if s.last() == ',' {
            rest.push(Seq::<char>::empty())
        } else {
            rest.update(rest.len() - 1, rest.last().push(s.last()))
        }
    }
}

pub open spec fn trim_start(s: Seq<char>) -> Seq<char>
    decreases s.len(),
{
    if s.len() > 0 && is_space_char(s[0]) {
        trim_start(s.drop_first())
    } else {
        s
    }
}

pub open spec fn trim_end(s: Seq<char>) -> Seq<char>
    decreases s.len(),
{
    if s.len() > 0 && is_space_char(s.last()) {
        trim_end(s.drop_last())
    } else {
        s
    }
}

/// `s` with surrounding whitespace removed.
pub open spec fn trim_spec(s: Seq<char>) -> Seq<char> {
    trim_end(trim_start(s))
}

/// Trim every piece and keep the nonempty ones, in order.
pub open spec fn clean_pieces(pieces: Seq<Seq<char>>) -> Seq<Seq<char>>
    decreases pieces.len(),
{
    if pieces.len() == 0 {
        Seq::empty()
    } else {
        let t = trim_spec(pieces.last());
        clean_pieces(pieces.drop_last()) + (if t.len() == 0 {
            Seq::<Seq<char>>::empty()
        } else {
            seq![t]
        })
    }
}

/// The labels a raw string contributes: split on commas, trim, drop
/// the blanks.
pub open spec fn clean_labels(s: Seq<char>) -> Seq<Seq<char>> {
    clean_pieces(split_commas(s))
}

pub proof fn lemma_split_commas_nonempty(s: Seq<char>)
    ensures
        split_commas(s).len() >= 1,
    decreases s.len(),
{
    if s.len() > 0 {
        lemma_split_commas_nonempty(s.drop_last());
    }
}

proof fn lemma_trim_start_at(s: Seq<char>, lo: int)
    requires
        0 <= lo <= s.len(),
        forall|j: int| 0 <= j < lo ==> is_space_char(s[j]),
        lo < s.len() ==> !is_space_char(s[lo]),
    ensures
        trim_start(s) =~= s.subrange(lo, s.len() as int),
    decreases lo,
{
    if lo == 0 {
        assert(s.subrange(0, s.len() as int) =~= s);
    } else {
        assert(is_space_char(s[0]));
        let d = s.drop_first();
        assert(forall|j: int| 0 <= j < lo - 1 ==> is_space_char(d[j]));
        lemma_trim_start_at(d, lo - 1);
        assert(d.subrange(lo - 1, d.len() as int) =~= s.subrange(lo, s.len() as int));
    }
}

proof fn lemma_trim_end_at(s: Seq<char>, hi: int)
    requires
        0 <= hi <= s.len(),
        forall|j: int| hi <= j < s.len() ==> is_space_char(s[j]),
        hi > 0 ==> !is_space_char(s[hi - 1]),
    ensures
        trim_end(s) =~= s.subrange(0, hi),
    decreases s.len() - hi,
{
    if hi == s.len() {
        if s.len() > 0 && is_space_char(s.last()) {
            assert(false);
        }
        assert(s.subrange(0, s.len() as int) =~= s);
    } else {
        assert(is_space_char(s.last()));
        let d = s.drop_last();
        lemma_trim_end_at(d, hi);
        assert(d.subrange(0, hi) =~= s.subrange(0, hi));
    }
}

fn is_space(c: char) -> (r: bool)
    ensures
        r == is_space_char(c),
{
    let u = c as u32;
    (0x9 <= u && u <= 0xD) || u == 0x20 || u == 0x85 || u == 0xA0 || u == 0x1680 || (0x2000 <= u
        && u <= 0x200A) || u == 0x2028 || u == 0x2029 || u == 0x202F || u == 0x205F || u == 0x3000
}

/// `s` with surrounding whitespace removed, as a fresh `String`.
pub fn trim_label(s: &str) -> (r: String)
    ensures
        r@ == trim_spec(s@),
{
    let n = s.unicode_len();
    let mut lo: usize = 0;
    while lo < n && is_space(s.get_char(lo))
        invariant
            0 <= lo <= n,
            n == s@.len(),
            forall|j: int| 0 <= j < lo ==> is_space_char(s@[j]),
        decreases n - lo,
    {
        lo = lo + 1;
    }
    let mut hi: usize = n;
    while hi > lo && is_space(s.get_char(hi - 1))
        invariant
            lo <= hi <= n,
            n == s@.len(),
            lo < s@.len() ==> !is_space_char(s@[lo as int]),
            forall|j: int| hi <= j < n ==> is_space_char(s@[j]),
        decreases hi,
    {
        hi = hi - 1;
    }
    let piece = s.substring_char(lo, hi);
    let r = piece.to_owned();
    proof {
        lemma_trim_start_at(s@, lo as int);
        let t = s@.subrange(lo as int, n as int);
        lemma_trim_end_at(t, hi - lo);
        assert(t.subrange(0, hi - lo) =~= s@.subrange(lo as int, hi as int));
    }
    r
}

/// Split a raw genre string on commas, trim each piece, and return the
/// nonempty labels in order.
pub fn split_genre_labels(s: &str) -> (out: Vec<String>)
    ensures
        out@.map_values(|t: String| t@) == clean_labels(s@),
{
    let n = s.unicode_len();
    let mut out: Vec<String> = Vec::new();
    let mut start: usize = 0;
    let mut i: usize = 0;
    proof {
        assert(s@.subrange(0, 0) =~= Seq::<char>::empty());
        assert(out@.map_values(|t: String| t@) =~= Seq::<Seq<char>>::empty());
    }
    while i < n
        invariant
            0 <= start <= i <= n,
            n == s@.len(),
            split_commas(s@.subrange(0, i as int)).len() >= 1,
            out@.map_values(|t: String| t@) =~= clean_pieces(
                split_commas(s@.subrange(0, i as int)).drop_last(),
            ),
            split_commas(s@.subrange(0, i as int)).last() =~= s@.subrange(
                start as int,
                i as int,
            ),
        decreases n - i,
    {
        let ghost p = s@.subrange(0, i as int);
        let ghost p2 = s@.subrange(0, i + 1 as int);
        proof {
            assert(p2.drop_last() =~= p);
            assert(p2.last() == s@[i as int]);
            lemma_split_commas_nonempty(p2);
        }
        let c = s.get_char(i);
        if c == ',' {
            let piece = s.substring_char(start, i);
            let t = trim_label(piece);
            proof {
                assert(split_commas(p2) =~= split_commas(p).push(Seq::<char>::empty()));
                assert(split_commas(p2).drop_last() =~= split_commas(p));
            }
            let ghost old_map = out@.map_values(|x: String| x@);
            if !t.as_str().is_empty() {
                out.push(t);
                proof {
                    assert(out@.map_values(|x: String| x@) =~= old_map.push(t@));
                }
            }
            proof {
                assert(out@.map_values(|x: String| x@) =~= clean_pieces(split_commas(p)));
            }
            start = i + 1;
            i = i + 1;
            proof {
                assert(split_commas(s@.subrange(0, i as int)).last() =~= s@.subrange(
                    start as int,
                    i as int,
                ));
            }
        } else {
            proof {
                let rest = split_commas(p);
                assert(split_commas(p2) =~= rest.update(
                    rest.len() - 1,
                    rest.last().push(s@[i as int]),
                ));
                assert(split_commas(p2).drop_last() =~= rest.drop_last());
                assert(split_commas(p2).last() =~= s@.subrange(start as int, i + 1 as int));
            }
            i = i + 1;
        }
    }
    let piece = s.substring_char(start, n);
    let t = trim_label(piece);
    proof {
        assert(s@.subrange(0, n as int) =~= s@);
    }
    let ghost old_map = out@.map_values(|x: String| x@);
    if !t.as_str().is_empty() {
        out.push(t);
        proof {
            assert(out@.map_values(|x: String| x@) =~= old_map.push(t@));
        }
    }
    proof {
        assert(out@.map_values(|x: String| x@) =~= clean_pieces(split_commas(s@)));
    }
    out
}

} // verus!
