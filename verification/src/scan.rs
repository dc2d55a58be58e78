//! Byte-level scanning of JSON object sequences.
//!
//! A payload is modelled as a sequence of bytes in which only the braces
//! `{` and `}` matter: the depth of a position is the number of unmatched
//! opening braces before it, and a top-level object spans from an opening
//! brace at depth zero to the brace that closes it.  The scanner extracts
//! these spans without building a parse tree, forwards (lowest index
//! first) and backwards (highest index first), and reads an embedded
//! integer id out of each object.

use vstd::prelude::*;

use crate::search::{find_byte, find_byte2, matches_at, rfind_byte, rfind_byte2};

verus! {

pub const LBRACE: u8 = 123;

pub const RBRACE: u8 = 125;

/// Contribution of one byte to the brace nesting depth.
pub open spec fn brace_delta(b: u8) -> int {
    if b == LBRACE {
        1
    } else if b == RBRACE {
        -1
    } else {
        0
    }
}

/// Brace nesting depth after the first `n` bytes of `s`.
pub open spec fn depth_after(s: Seq<u8>, n: int) -> int
    decreases n,
{
    if n <= 0 {
        0
    } else {
        depth_after(s, n - 1) + brace_delta(s[n - 1])
    }
}

/// A buffer is balanced when its braces nest properly and all close.
pub open spec fn balanced(s: Seq<u8>) -> bool {
    depth_after(s, s.len() as int) == 0 && forall|n: int|
        0 <= n <= s.len() ==> depth_after(s, n) >= 0
}

/// The bytes `a ..= b` of `s` form one top-level object.
pub open spec fn is_top_span(s: Seq<u8>, a: int, b: int) -> bool {
    &&& 0 <= a <= b < s.len()
    &&& s[a] == LBRACE
    &&& depth_after(s, a) == 0
    &&& depth_after(s, b + 1) == 0
    &&& forall|k: int| a < k <= b ==> depth_after(s, k) >= 1
}

/// First index `j >= i` at which the running depth `d` returns to zero,
/// or `s.len()` if it never does.
pub open spec fn close_from(s: Seq<u8>, i: int, d: int) -> int
    decreases s.len() - i,
{
    if i < 0 || i >= s.len() {
        s.len() as int
    } else {
        let d2 = d + brace_delta(s[i]);
        if d2 == 0 {
            i
        } else {
            close_from(s, i + 1, d2)
        }
    }
}

/// Last index `j <= i` at which the running depth `d`, walking leftwards
/// and counting closing braces positively, returns to zero; `-1` if it
/// never does.
pub open spec fn open_from(s: Seq<u8>, i: int, d: int) -> int
    decreases i + 1,
{
    if i < 0 || i >= s.len() {
        -1
    } else {
        let d2 = d - brace_delta(s[i]);
        if d2 == 0 {
            i
        } else {
            open_from(s, i - 1, d2)
        }
    }
}

pub proof fn lemma_close_from_bounds(s: Seq<u8>, i: int, d: int)
    requires
        0 <= i <= s.len(),
    ensures
        i <= close_from(s, i, d) <= s.len(),
    decreases s.len() - i,
{
    if i < s.len() {
        let d2 = d + brace_delta(s[i]);
        if d2 != 0 {
            lemma_close_from_bounds(s, i + 1, d2);
        }
    }
}

pub proof fn lemma_open_from_bounds(s: Seq<u8>, i: int, d: int)
    requires
        -1 <= i,
    ensures
        -1 <= open_from(s, i, d) <= i,
    decreases i + 1,
{
    if 0 <= i && i < s.len() {
        let d2 = d - brace_delta(s[i]);
        if d2 != 0 {
            lemma_open_from_bounds(s, i - 1, d2);
        }
    }
}

/// The top-level object spans of `s` that lie inside `i .. hi`, lowest
/// first, as the forward scanner walks them: any byte other than an
/// opening brace is skipped, an opening brace starts a span that runs to
/// the brace closing it, and a span reaching past `hi` ends the walk.
pub open spec fn spans_between(s: Seq<u8>, i: int, hi: int) -> Seq<(int, int)>
    decreases hi - i,
        via spans_between_decreases
{
    if i < 0 || i >= hi || hi > s.len() {
        Seq::empty()
    } else if s[i] == LBRACE {
        let b = close_from(s, i + 1, 1);
        if b < hi {
            seq![(i, b)] + spans_between(s, b + 1, hi)
        } else {
            Seq::empty()
        }
    } else {
        spans_between(s, i + 1, hi)
    }
}

#[via_fn]
proof fn spans_between_decreases(s: Seq<u8>, i: int, hi: int) {
    if 0 <= i && i < hi && hi <= s.len() && s[i] == LBRACE {
        lemma_close_from_bounds(s, i + 1, 1);
    }
}

/// The same spans walked from the right: any byte other than a closing
/// brace is skipped, a closing brace ends a span that runs back to the
/// brace opening it, and a span reaching below `lo` ends the walk.
pub open spec fn rspans_between(s: Seq<u8>, lo: int, hi: int) -> Seq<(int, int)>
    decreases hi - lo,
        via rspans_between_decreases
{
    if lo < 0 || lo >= hi || hi > s.len() {
        Seq::empty()
    } else if s[hi - 1] == RBRACE {
        let a = open_from(s, hi - 2, 1);
        if a >= lo {
            seq![(a, hi - 1)] + rspans_between(s, lo, a)
        } else {
            Seq::empty()
        }
    } else {
        rspans_between(s, lo, hi - 1)
    }
}

#[via_fn]
proof fn rspans_between_decreases(s: Seq<u8>, lo: int, hi: int) {
    if 0 <= lo && lo < hi && hi <= s.len() && s[hi - 1] == RBRACE {
        lemma_open_from_bounds(s, hi - 2, 1);
    }
}

/// What `close_from` finds: the depth profile stays above the target
/// until the closing brace, which lands exactly on it.
pub proof fn lemma_close_from_props(s: Seq<u8>, i: int, d: int)
    requires
        0 <= i <= s.len(),
        d >= 1,
    ensures
        ({
            let b = close_from(s, i, d);
            &&& i <= b <= s.len()
            &&& forall|k: int| i <= k <= b && k <= s.len() ==> #[trigger] depth_after(s, k)
                > depth_after(s, i) - d
            &&& b < s.len() ==> s[b] == RBRACE && depth_after(s, b + 1) == depth_after(s, i) - d
        }),
    decreases s.len() - i,
{
    lemma_close_from_bounds(s, i, d);
    if i < s.len() {
        let d2 = d + brace_delta(s[i]);
        assert(depth_after(s, i + 1) == depth_after(s, i) + brace_delta(s[i]));
        if d2 == 0 {
            assert(brace_delta(s[i]) == -d);
            assert(s[i] == RBRACE);
        } else {
            assert(d2 >= 1);
            lemma_close_from_props(s, i + 1, d2);
            assert(depth_after(s, i + 1) - d2 == depth_after(s, i) - d);
        }
    }
}

/// What `open_from` finds, walking leftwards: the opening brace lands
/// exactly on the target depth and everything after it stays above.
pub proof fn lemma_open_from_props(s: Seq<u8>, i: int, d: int)
    requires
        -1 <= i < s.len(),
        d >= 1,
    ensures
        ({
            let a = open_from(s, i, d);
            &&& -1 <= a <= i
            &&& forall|k: int| a < k <= i + 1 && 0 <= k ==> #[trigger] depth_after(s, k)
                > depth_after(s, i + 1) - d
            &&& a >= 0 ==> s[a] == LBRACE && depth_after(s, a) == depth_after(s, i + 1) - d
        }),
    decreases i + 1,
{
    lemma_open_from_bounds(s, i, d);
    if i >= 0 {
        let d2 = d - brace_delta(s[i]);
        assert(depth_after(s, i + 1) == depth_after(s, i) + brace_delta(s[i]));
        if d2 == 0 {
            assert(brace_delta(s[i]) == d);
            assert(s[i] == LBRACE);
            assert(depth_after(s, i) == depth_after(s, i + 1) - d);
        } else {
            assert(d2 >= 1);
            lemma_open_from_props(s, i - 1, d2);
            assert(depth_after(s, i) - d2 == depth_after(s, i + 1) - d);
        }
    }
}

/// An opening brace at depth zero of a balanced buffer opens a
/// top-level span, closed by the brace `close_from` finds.
pub proof fn lemma_balanced_open_span(s: Seq<u8>, a: int)
    requires
        balanced(s),
        0 <= a < s.len(),
        s[a] == LBRACE,
        depth_after(s, a) == 0,
    ensures
        ({
            let b = close_from(s, a + 1, 1);
            a < b < s.len() && is_top_span(s, a, b)
        }),
{
    lemma_close_from_props(s, a + 1, 1);
    let b = close_from(s, a + 1, 1);
    assert(depth_after(s, a + 1) == depth_after(s, a) + brace_delta(s[a]));
    if b == s.len() {
        assert(depth_after(s, s.len() as int) > 0);
        assert(false);
    }
    assert forall|k: int| a < k <= b implies depth_after(s, k) >= 1 by {
        assert(depth_after(s, k) > depth_after(s, a + 1) - 1);
    }
}

/// The closing brace of a top-level span is the one `close_from` finds.
pub proof fn lemma_top_span_close(s: Seq<u8>, a: int, b: int)
    requires
        is_top_span(s, a, b),
    ensures
        close_from(s, a + 1, 1) == b,
{
    lemma_close_from_props(s, a + 1, 1);
    let b0 = close_from(s, a + 1, 1);
    assert(depth_after(s, a + 1) == depth_after(s, a) + brace_delta(s[a]));
    if b0 < b {
        assert(depth_after(s, b0 + 1) >= 1);
        assert(false);
    }
    if b0 > b {
        assert(depth_after(s, b + 1) > depth_after(s, a + 1) - 1);
        assert(false);
    }
}

/// A byte that is not a closing brace cannot end a span: shrinking the
/// window past it changes nothing.
pub proof fn lemma_spans_shrink_hi(s: Seq<u8>, lo: int, hi: int)
    requires
        0 <= lo,
        1 <= hi <= s.len(),
        s[hi - 1] != RBRACE,
    ensures
        spans_between(s, lo, hi) == spans_between(s, lo, hi - 1),
    decreases hi - lo,
{
    if lo >= hi {
        assert(spans_between(s, lo, hi) =~= spans_between(s, lo, hi - 1));
    } else if lo == hi - 1 {
        assert(spans_between(s, lo, hi - 1) =~= Seq::empty());
        if s[lo] == LBRACE {
            lemma_close_from_bounds(s, lo + 1, 1);
            assert(spans_between(s, lo, hi) =~= Seq::empty());
        } else {
            assert(spans_between(s, lo + 1, hi) =~= Seq::empty());
            assert(spans_between(s, lo, hi) =~= Seq::empty());
        }
    } else if s[lo] == LBRACE {
        let b = close_from(s, lo + 1, 1);
        lemma_close_from_props(s, lo + 1, 1);
        if b < hi - 1 {
            lemma_spans_shrink_hi(s, b + 1, hi);
        } else if b == hi - 1 {
            assert(s[b] == RBRACE);
            assert(false);
        }
    } else {
        lemma_spans_shrink_hi(s, lo + 1, hi);
    }
}

/// In a balanced buffer the span walk can be split at any depth-zero
/// position.
pub proof fn lemma_spans_split(s: Seq<u8>, lo: int, m: int, hi: int)
    requires
        balanced(s),
        0 <= lo <= m <= hi <= s.len(),
        depth_after(s, lo) == 0,
        depth_after(s, m) == 0,
    ensures
        spans_between(s, lo, hi) == spans_between(s, lo, m) + spans_between(s, m, hi),
    decreases m - lo,
{
    if lo >= m {
        assert(spans_between(s, lo, m) =~= Seq::empty());
        assert(spans_between(s, lo, m) + spans_between(s, m, hi) =~= spans_between(s, m, hi));
    } else if s[lo] == LBRACE {
        lemma_balanced_open_span(s, lo);
        let b = close_from(s, lo + 1, 1);
        assert(m > b) by {
            if m <= b {
                assert(depth_after(s, m) >= 1);
            }
        }
        lemma_spans_split(s, b + 1, m, hi);
        assert(seq![(lo, b)] + (spans_between(s, b + 1, m) + spans_between(s, m, hi)) =~= (
        seq![(lo, b)] + spans_between(s, b + 1, m)) + spans_between(s, m, hi));
    } else {
        assert(depth_after(s, lo + 1) == depth_after(s, lo) + brace_delta(s[lo]));
        assert(s[lo] != RBRACE) by {
            if s[lo] == RBRACE {
                assert(depth_after(s, lo + 1) == -1);
                assert(false);
            }
        }
        lemma_spans_split(s, lo + 1, m, hi);
    }
}

/// Walking a balanced window from the right yields exactly the spans of
/// the forward walk, in reverse order.
pub proof fn lemma_scan_directions_agree(s: Seq<u8>, lo: int, hi: int)
    requires
        balanced(s),
        0 <= lo <= hi <= s.len(),
        depth_after(s, lo) == 0,
        depth_after(s, hi) == 0,
    ensures
        rspans_between(s, lo, hi) == spans_between(s, lo, hi).reverse(),
    decreases hi - lo,
{
    if lo >= hi {
        assert(spans_between(s, lo, hi).reverse() =~= Seq::empty());
    } else if s[hi - 1] == RBRACE {
        assert(depth_after(s, hi) == depth_after(s, hi - 1) + brace_delta(s[hi - 1]));
        lemma_open_from_props(s, hi - 2, 1);
        let a = open_from(s, hi - 2, 1);
        if a < 0 {
            assert(depth_after(s, lo) > 0);
            assert(false);
        }
        assert(a >= lo) by {
            if a < lo {
                assert(depth_after(s, lo) > 0);
            }
        }
        assert(is_top_span(s, a, hi - 1)) by {
            assert forall|k: int| a < k <= hi - 1 implies depth_after(s, k) >= 1 by {
                assert(depth_after(s, k) > depth_after(s, hi - 1) - 1);
            }
        }
        lemma_scan_directions_agree(s, lo, a);
        lemma_spans_split(s, lo, a, hi);
        lemma_top_span_close(s, a, hi - 1);
        assert(spans_between(s, hi, hi) =~= Seq::empty());
        assert(spans_between(s, a, hi) =~= seq![(a, hi - 1)]);
        assert(rspans_between(s, lo, hi) == seq![(a, hi - 1)] + rspans_between(s, lo, a));
        assert((spans_between(s, lo, a) + seq![(a, hi - 1)]).reverse() =~= seq![(a, hi - 1)]
            + spans_between(s, lo, a).reverse());
    } else {
        assert(depth_after(s, hi) == depth_after(s, hi - 1) + brace_delta(s[hi - 1]));
        if s[hi - 1] == LBRACE {
            assert(depth_after(s, hi - 1) == -1);
            assert(false);
        }
        lemma_scan_directions_agree(s, lo, hi - 1);
        lemma_spans_shrink_hi(s, lo, hi);
    }
}

/// `close_from` is unmoved by bytes that are not braces.
pub proof fn lemma_close_skip(s: Seq<u8>, i: int, m: int, d: int)
    requires
        0 <= i <= m <= s.len(),
        d != 0,
        forall|k: int| i <= k < m ==> s[k] != LBRACE && s[k] != RBRACE,
    ensures
        close_from(s, i, d) == close_from(s, m, d),
    decreases m - i,
{
    if i < m {
        lemma_close_skip(s, i + 1, m, d);
    }
}

/// `open_from` is unmoved by bytes that are not braces.
pub proof fn lemma_open_skip(s: Seq<u8>, m: int, j: int, d: int)
    requires
        -1 <= m <= j < s.len(),
        d != 0,
        forall|k: int| m < k <= j ==> s[k] != LBRACE && s[k] != RBRACE,
    ensures
        open_from(s, j, d) == open_from(s, m, d),
    decreases j - m,
{
    if m < j {
        lemma_open_skip(s, m, j - 1, d);
    }
}

/// The forward walk is unmoved by bytes that are not opening braces.
pub proof fn lemma_spans_skip(s: Seq<u8>, i: int, m: int, hi: int)
    requires
        0 <= i <= m <= hi <= s.len(),
        forall|k: int| i <= k < m ==> s[k] != LBRACE,
    ensures
        spans_between(s, i, hi) == spans_between(s, m, hi),
    decreases m - i,
{
    if i < m {
        lemma_spans_skip(s, i + 1, m, hi);
    }
}

/// The backward walk is unmoved by bytes that are not closing braces.
pub proof fn lemma_rspans_skip(s: Seq<u8>, lo: int, m: int, hi: int)
    requires
        0 <= lo <= m <= hi <= s.len(),
        forall|k: int| m <= k < hi ==> s[k] != RBRACE,
    ensures
        rspans_between(s, lo, hi) == rspans_between(s, lo, m),
    decreases hi - m,
{
    if m < hi {
        lemma_rspans_skip(s, lo, m, hi - 1);
    }
}

/// First top-level span of `bytes` inside `lo .. hi`, lowest index first.
///
/// Returns the first element of `spans_between`, or `None` when the
/// window holds no complete span.
pub fn next_span(bytes: &[u8], lo: usize, hi: usize) -> (r: Option<(usize, usize)>)
    requires
        lo <= hi <= bytes@.len(),
    ensures
        ({
            let ss = spans_between(bytes@, lo as int, hi as int);
            match r {
                Some(p) => {
                    &&& ss.len() > 0
                    &&& (p.0 as int, p.1 as int) == ss.first()
                    &&& lo <= p.0 < p.1 < hi
                    &&& bytes@[p.0 as int] == LBRACE && bytes@[p.1 as int] == RBRACE
                    &&& spans_between(bytes@, p.1 as int + 1, hi as int) == ss.drop_first()
                },
                None => ss.len() == 0,
            }
        }),
{
    let ghost s = bytes@;
    let a: usize = match find_byte(LBRACE, &bytes[lo..hi]) {
        None => {
            proof {
                assert forall|k: int| lo <= k < hi implies s[k] != LBRACE by {
                    assert(s.subrange(lo as int, hi as int)[k - lo] == s[k]);
                }
                lemma_spans_skip(s, lo as int, hi as int, hi as int);
            }
            return None;
        },
        Some(ar) => lo + ar,
    };
    proof {
        assert forall|k: int| lo <= k < a implies s[k] != LBRACE by {
            assert(s.subrange(lo as int, hi as int)[k - lo] == s[k]);
        }
        assert(s[a as int] == LBRACE) by {
            assert(s.subrange(lo as int, hi as int)[a - lo] == s[a as int]);
        }
        lemma_spans_skip(s, lo as int, a as int, hi as int);
    }
    let len = bytes.len();
    let mut j: usize = a + 1;
    let mut d: usize = 1;
    loop
        invariant
            a + 1 <= j <= len,
            len == s.len(),
            s == bytes@,
            lo <= a < hi <= len,
            s[a as int] == LBRACE,
            1 <= d <= j,
            close_from(s, a as int + 1, 1) == close_from(s, j as int, d as int),
            spans_between(s, lo as int, hi as int) == spans_between(s, a as int, hi as int),
        decreases len - j,
    {
        match find_byte2(LBRACE, RBRACE, &bytes[j..len]) {
            None => {
                proof {
                    assert forall|k: int| j <= k < len implies s[k] != LBRACE && s[k] != RBRACE by {
                        assert(s.subrange(j as int, len as int)[k - j] == s[k]);
                    }
                    lemma_close_skip(s, j as int, len as int, d as int);
                    assert(close_from(s, len as int, d as int) == len);
                    assert(spans_between(s, a as int, hi as int) =~= Seq::empty());
                }
                return None;
            },
            Some(mr) => {
                let m = j + mr;
                proof {
                    assert forall|k: int| j <= k < m implies s[k] != LBRACE && s[k] != RBRACE by {
                        assert(s.subrange(j as int, len as int)[k - j] == s[k]);
                    }
                    assert(s.subrange(j as int, len as int)[m - j] == s[m as int]);
                    lemma_close_skip(s, j as int, m as int, d as int);
                }
                if bytes[m] == RBRACE && d == 1 {
                    let b = m;
                    proof {
                        assert(close_from(s, m as int, d as int) == m);
                    }
                    if b < hi {
                        proof {
                            assert(spans_between(s, a as int, hi as int) == seq![
                                (a as int, b as int),
                            ] + spans_between(s, b as int + 1, hi as int));
                            assert(spans_between(s, a as int, hi as int).drop_first()
                                =~= spans_between(s, b as int + 1, hi as int));
                        }
                        return Some((a, b));
                    } else {
                        proof {
                            assert(spans_between(s, a as int, hi as int) =~= Seq::empty());
                        }
                        return None;
                    }
                } else {
                    proof {
                        assert(d <= m < len);
                    }
                    if bytes[m] == LBRACE {
                        d = d + 1;
                    } else {
                        d = d - 1;
                    }
                    j = m + 1;
                }
            },
        }
    }
}

/// Last top-level span of `bytes` inside `lo .. hi`, highest index first.
///
/// Returns the first element of `rspans_between`, or `None` when the
/// window holds no complete span.
pub fn prev_span(bytes: &[u8], lo: usize, hi: usize) -> (r: Option<(usize, usize)>)
    requires
        lo <= hi <= bytes@.len(),
    ensures
        ({
            let rs = rspans_between(bytes@, lo as int, hi as int);
            match r {
                Some(p) => {
                    &&& rs.len() > 0
                    &&& (p.0 as int, p.1 as int) == rs.first()
                    &&& lo <= p.0 < p.1 < hi
                    &&& bytes@[p.0 as int] == LBRACE && bytes@[p.1 as int] == RBRACE
                    &&& rspans_between(bytes@, lo as int, p.0 as int) == rs.drop_first()
                },
                None => rs.len() == 0,
            }
        }),
{
    let ghost s = bytes@;
    let e: usize = match rfind_byte(RBRACE, &bytes[lo..hi]) {
        None => {
            proof {
                assert forall|k: int| lo <= k < hi implies s[k] != RBRACE by {
                    assert(s.subrange(lo as int, hi as int)[k - lo] == s[k]);
                }
                lemma_rspans_skip(s, lo as int, lo as int, hi as int);
                assert(rspans_between(s, lo as int, lo as int) =~= Seq::empty());
            }
            return None;
        },
        Some(er) => lo + er,
    };
    proof {
        assert forall|k: int| e + 1 <= k < hi implies s[k] != RBRACE by {
            assert(s.subrange(lo as int, hi as int)[k - lo] == s[k]);
        }
        assert(s[e as int] == RBRACE) by {
            assert(s.subrange(lo as int, hi as int)[e - lo] == s[e as int]);
        }
        lemma_rspans_skip(s, lo as int, e as int + 1, hi as int);
    }
    let mut jj: usize = e;
    let mut d: usize = 1;
    loop
        invariant
            0 <= jj <= e,
            s == bytes@,
            lo <= e < hi <= s.len(),
            s[e as int] == RBRACE,
            1 <= d <= e + 1 - jj,
            open_from(s, e as int - 1, 1) == open_from(s, jj as int - 1, d as int),
            rspans_between(s, lo as int, hi as int) == rspans_between(s, lo as int, e as int + 1),
        decreases jj,
    {
        match rfind_byte2(LBRACE, RBRACE, &bytes[0..jj]) {
            None => {
                proof {
                    assert forall|k: int| -1 < k <= jj - 1 implies s[k] != LBRACE && s[k] != RBRACE
                    by {
                        assert(s.subrange(0, jj as int)[k] == s[k]);
                    }
                    lemma_open_skip(s, -1, jj as int - 1, d as int);
                    assert(open_from(s, -1, d as int) == -1);
                    assert(rspans_between(s, lo as int, e as int + 1) =~= Seq::empty());
                }
                return None;
            },
            Some(m) => {
                proof {
                    assert forall|k: int| m < k <= jj - 1 implies s[k] != LBRACE && s[k] != RBRACE
                    by {
                        assert(s.subrange(0, jj as int)[k] == s[k]);
                    }
                    assert(s.subrange(0, jj as int)[m as int] == s[m as int]);
                    lemma_open_skip(s, m as int, jj as int - 1, d as int);
                }
                if bytes[m] == LBRACE && d == 1 {
                    let a = m;
                    proof {
                        assert(open_from(s, m as int, d as int) == m);
                    }
                    if a >= lo {
                        proof {
                            assert(rspans_between(s, lo as int, e as int + 1) == seq![
                                (a as int, e as int),
                            ] + rspans_between(s, lo as int, a as int));
                            assert(rspans_between(s, lo as int, e as int + 1).drop_first()
                                =~= rspans_between(s, lo as int, a as int));
                        }
                        return Some((a, e));
                    } else {
                        proof {
                            assert(rspans_between(s, lo as int, e as int + 1) =~= Seq::empty());
                        }
                        return None;
                    }
                } else {
                    proof {
                        assert(d <= e);
                    }
                    if bytes[m] == RBRACE {
                        d = d + 1;
                    } else {
                        d = d - 1;
                    }
                    jj = m;
                }
            },
        }
    }
}

/// The index of the brace closing the object opened at `a`, walking the
/// running depth exactly as `close_from` does.
pub fn find_close(bytes: &[u8], a: usize) -> (r: Option<usize>)
    requires
        a < bytes@.len(),
    ensures
        ({
            let b = close_from(bytes@, a as int + 1, 1);
            match r {
                Some(bi) => bi == b && a < bi < bytes@.len() && bytes@[bi as int] == RBRACE,
                None => b == bytes@.len(),
            }
        }),
{
    let ghost s = bytes@;
    let len = bytes.len();
    let mut j: usize = a + 1;
    let mut d: usize = 1;
    loop
        invariant
            a + 1 <= j <= len,
            len == s.len(),
            s == bytes@,
            a < len,
            1 <= d <= j,
            close_from(s, a as int + 1, 1) == close_from(s, j as int, d as int),
        decreases len - j,
    {
        match find_byte2(LBRACE, RBRACE, &bytes[j..len]) {
            None => {
                proof {
                    assert forall|k: int| j <= k < len implies s[k] != LBRACE && s[k] != RBRACE by {
                        assert(s.subrange(j as int, len as int)[k - j] == s[k]);
                    }
                    lemma_close_skip(s, j as int, len as int, d as int);
                    assert(close_from(s, len as int, d as int) == len);
                }
                return None;
            },
            Some(mr) => {
                let m = j + mr;
                proof {
                    assert forall|k: int| j <= k < m implies s[k] != LBRACE && s[k] != RBRACE by {
                        assert(s.subrange(j as int, len as int)[k - j] == s[k]);
                    }
                    assert(s.subrange(j as int, len as int)[m - j] == s[m as int]);
                    lemma_close_skip(s, j as int, m as int, d as int);
                }
                if bytes[m] == RBRACE && d == 1 {
                    proof {
                        assert(close_from(s, m as int, d as int) == m);
                    }
                    return Some(m);
                } else {
                    proof {
                        assert(d <= m < len);
                    }
                    if bytes[m] == LBRACE {
                        d = d + 1;
                    } else {
                        d = d - 1;
                    }
                    j = m + 1;
                }
            },
        }
    }
}

/// The key `"id":` as bytes.
pub open spec fn id_needle() -> Seq<u8> {
    seq![34u8, 105u8, 100u8, 34u8, 58u8]
}

/// An `"id":` key written at depth one of the object `t`, so belonging
/// to the object itself and not to anything nested in it.
pub open spec fn id_candidate(t: Seq<u8>, p: int) -> bool {
    matches_at(t, id_needle(), p) && depth_after(t, p) == 1
}

/// First candidate position at or after `q`, or `t.len()` if none.
pub open spec fn id_pos_from(t: Seq<u8>, q: int) -> int
    decreases t.len() - q,
{
    if q < 0 || q >= t.len() {
        t.len() as int
    } else if id_candidate(t, q) {
        q
    } else {
        id_pos_from(t, q + 1)
    }
}

/// The id embedded in one scanned object: the digits following the first
/// `"id":` key at depth one, or nothing if no such key or no digits
/// follow it.
pub open spec fn object_id_spec(t: Seq<u8>) -> Option<u64> {
    let p = id_pos_from(t, 0);
    if p < t.len() {
        crate::digits::scan_u64_spec(t, p + 5)
    } else {
        None
    }
}

/// Whether `"id":` is written at position `i` of `obj`.
fn is_id_key_at(obj: &[u8], i: usize) -> (r: bool)
    requires
        i <= obj@.len(),
    ensures
        r == matches_at(obj@, id_needle(), i as int),
{
    proof {
        assert(id_needle().len() == 5);
    }
    let len = obj.len();
    if len - i < 5 {
        return false;
    }
    let ok = obj[i] == 34 && obj[i + 1] == 105 && obj[i + 2] == 100 && obj[i + 3] == 34 && obj[i
        + 4] == 58;
    proof {
        if ok {
            assert(obj@.subrange(i as int, i as int + 5) =~= id_needle());
        } else {
            if matches_at(obj@, id_needle(), i as int) {
                assert(obj@.subrange(i as int, i as int + 5) == id_needle());
                assert(obj@[i as int] == id_needle()[0]);
                assert(obj@[i as int + 1] == id_needle()[1]);
                assert(obj@[i as int + 2] == id_needle()[2]);
                assert(obj@[i as int + 3] == id_needle()[3]);
                assert(obj@[i as int + 4] == id_needle()[4]);
                assert(false);
            }
        }
    }
    ok
}

/// Reads the id of one scanned object, as `object_id_spec` states.
pub fn object_id(obj: &[u8]) -> (r: Option<u64>)
    ensures
        r == object_id_spec(obj@),
{
    let ghost t = obj@;
    let len = obj.len();
    let mut i: usize = 0;
    let mut opens: usize = 0;
    let mut closes: usize = 0;
    while i < len
        invariant
            i <= len,
            len == t.len(),
            t == obj@,
            opens <= i,
            closes <= i,
            depth_after(t, i as int) == opens as int - closes as int,
            id_pos_from(t, 0) == id_pos_from(t, i as int),
        decreases len - i,
    {
        if opens == closes + 1 && is_id_key_at(obj, i) {
            proof {
                assert(id_candidate(t, i as int));
                assert(id_pos_from(t, i as int) == i);
                assert(i + 5 <= len);
            }
            return crate::digits::scan_u64(obj, i + 5);
        }
        proof {
            assert(!id_candidate(t, i as int));
            assert(id_pos_from(t, i as int) == id_pos_from(t, i as int + 1));
            assert(depth_after(t, i as int + 1) == depth_after(t, i as int) + brace_delta(
                t[i as int],
            ));
        }
        let b = obj[i];
        if b == LBRACE {
            opens = opens + 1;
        } else if b == RBRACE {
            closes = closes + 1;
        }
        i = i + 1;
    }
    proof {
        assert(id_pos_from(t, i as int) == t.len());
    }
    None
}

/// The record one span yields: the raw bytes of the object, unmodified,
/// and the id read out of them.
pub open spec fn record_at(s: Seq<u8>, a: int, b: int) -> (Seq<u8>, Option<u64>) {
    (s.subrange(a, b + 1), object_id_spec(s.subrange(a, b + 1)))
}

pub open spec fn records_of_spans(s: Seq<u8>, sp: Seq<(int, int)>) -> Seq<(Seq<u8>, Option<u64>)> {
    sp.map(|i: int, p: (int, int)| record_at(s, p.0, p.1))
}

/// The records of a forward scan of the whole buffer, lowest first.
pub open spec fn records_forward(s: Seq<u8>) -> Seq<(Seq<u8>, Option<u64>)> {
    records_of_spans(s, spans_between(s, 0, s.len() as int))
}

/// The records of a backward scan of the whole buffer, highest first.
pub open spec fn records_backward(s: Seq<u8>) -> Seq<(Seq<u8>, Option<u64>)> {
    records_of_spans(s, rspans_between(s, 0, s.len() as int))
}

/// Law: on a balanced buffer, backward iteration yields exactly the
/// records of forward iteration in reverse order; in particular both
/// directions yield the same multiset of (raw, id) pairs.
pub proof fn lemma_scan_direction_records(s: Seq<u8>)
    requires
        balanced(s),
    ensures
        records_backward(s) == records_forward(s).reverse(),
        records_backward(s).to_multiset() == records_forward(s).to_multiset(),
{
    lemma_scan_directions_agree(s, 0, s.len() as int);
    let sp = spans_between(s, 0, s.len() as int);
    assert(records_of_spans(s, sp.reverse()) =~= records_of_spans(s, sp).reverse());
    records_forward(s).lemma_reverse_to_multiset();
}

} // verus!
