//! Decimal digit runs: reading an id out of a byte sequence and writing
//! one back.
//!
//! Ids are parsed as the upstream feed writes them: an optional run of
//! spaces, then a run of ASCII digits that ends at the first byte that is
//! not a digit.  Accumulation wraps modulo 2^64, as unchecked integer
//! arithmetic would.

use vstd::prelude::*;

verus! {

pub const SPACE: u8 = 32;

pub open spec fn is_digit(b: u8) -> bool {
    48 <= b <= 57
}

/// One step of decimal accumulation, wrapping modulo 2^64.
pub open spec fn wrap10(acc: u64, b: u8) -> u64 {
    vstd::wrapping::u64_specs::wrapping_add(
        vstd::wrapping::u64_specs::wrapping_mul(acc, 10),
        (b - 48) as u64,
    )
}

/// Value of the digits `t[i .. j]`, folded left onto `acc`.
pub open spec fn dec_value_from(t: Seq<u8>, i: int, j: int, acc: u64) -> u64
    decreases j - i,
{
    if i < 0 || i >= j || j > t.len() {
        acc
    } else {
        dec_value_from(t, i + 1, j, wrap10(acc, t[i]))
    }
}

/// First index at or after `i` holding something other than a space.
pub open spec fn skip_spaces(t: Seq<u8>, i: int) -> int
    decreases t.len() - i,
{
    if i < 0 || i >= t.len() {
        i
    } else if t[i] == SPACE {
        skip_spaces(t, i + 1)
    } else {
        i
    }
}

/// First index at or after `i` holding something other than a digit.
pub open spec fn digit_run_end(t: Seq<u8>, i: int) -> int
    decreases t.len() - i,
{
    if i < 0 || i >= t.len() {
        i
    } else if is_digit(t[i]) {
        digit_run_end(t, i + 1)
    } else {
        i
    }
}

/// The id written at or after `i`: spaces are skipped, then a non-empty
/// digit run is read; anything else is no id at all.
pub open spec fn scan_u64_spec(t: Seq<u8>, i: int) -> Option<u64> {
    let q = skip_spaces(t, i);
    let e = digit_run_end(t, q);
    if e > q {
        Some(dec_value_from(t, q, e, 0))
    } else {
        None
    }
}

pub proof fn lemma_skip_spaces_bounds(t: Seq<u8>, i: int)
    requires
        0 <= i <= t.len(),
    ensures
        i <= skip_spaces(t, i) <= t.len(),
    decreases t.len() - i,
{
    if i < t.len() && t[i] == SPACE {
        lemma_skip_spaces_bounds(t, i + 1);
    }
}

/// Reads the id written at or after `from`, as `scan_u64_spec` states.
pub fn scan_u64(bytes: &[u8], from: usize) -> (r: Option<u64>)
    requires
        from <= bytes@.len(),
    ensures
        r == scan_u64_spec(bytes@, from as int),
{
    let ghost t = bytes@;
    let len = bytes.len();
    let q = skip_past_spaces(bytes, from);
    let mut e = q;
    let mut acc: u64 = 0;
    while e < len && 48 <= bytes[e] && bytes[e] <= 57
        invariant
            q <= e <= len,
            len == t.len(),
            t == bytes@,
            digit_run_end(t, q as int) == digit_run_end(t, e as int),
            acc == dec_value_from(t, q as int, e as int, 0),
            forall|k: int| q <= k < e ==> is_digit(t[k]),
        decreases len - e,
    {
        let b = bytes[e];
        acc = acc.wrapping_mul(10).wrapping_add((b - 48) as u64);
        proof {
            lemma_dec_value_snoc(t, q as int, e as int, 0);
        }
        e = e + 1;
    }
    proof {
        assert(digit_run_end(t, e as int) == e);
    }
    if e > q {
        Some(acc)
    } else {
        None
    }
}

/// Appends every byte of `src` to `dst`.
pub(crate) fn append_bytes(dst: &mut Vec<u8>, src: &[u8])
    ensures
        final(dst)@ == old(dst)@ + src@,
{
    let ghost d0 = dst@;
    let len = src.len();
    let mut i: usize = 0;
    while i < len
        invariant
            i <= len,
            len == src@.len(),
            dst@ =~= d0 + src@.take(i as int),
        decreases len - i,
    {
        dst.push(src[i]);
        proof {
            assert(dst@ =~= d0 + src@.take(i as int + 1));
        }
        i = i + 1;
    }
    proof {
        assert(src@.take(len as int) =~= src@);
    }
}

/// Skips spaces starting at `from`, as `skip_spaces` states.
pub fn skip_past_spaces(bytes: &[u8], from: usize) -> (r: usize)
    requires
        from <= bytes@.len(),
    ensures
        r == skip_spaces(bytes@, from as int),
        from <= r <= bytes@.len(),
{
    let ghost t = bytes@;
    let len = bytes.len();
    let mut q = from;
    while q < len && bytes[q] == SPACE
        invariant
            from <= q <= len,
            len == t.len(),
            t == bytes@,
            skip_spaces(t, from as int) == skip_spaces(t, q as int),
        decreases len - q,
    {
        q = q + 1;
    }
    proof {
        assert(skip_spaces(t, q as int) == q);
    }
    q
}

/// Extending a digit run by one byte folds that byte last.
proof fn lemma_dec_value_snoc(t: Seq<u8>, i: int, j: int, acc: u64)
    requires
        0 <= i <= j < t.len(),
    ensures
        dec_value_from(t, i, j + 1, acc) == wrap10(dec_value_from(t, i, j, acc), t[j]),
    decreases j - i,
{
    if i < j {
        lemma_dec_value_snoc(t, i + 1, j, wrap10(acc, t[i]));
    } else {
        assert(dec_value_from(t, j + 1, j + 1, wrap10(acc, t[j])) == wrap10(acc, t[j]));
    }
}

/// The decimal digits of `n`, most significant first.
pub open spec fn dec_digits(n: nat) -> Seq<u8>
    decreases n,
{
    if n < 10 {
        seq![(48 + n) as u8]
    } else {
        dec_digits(n / 10) + seq![(48 + n % 10) as u8]
    }
}

/// Writes `n` in decimal, as `dec_digits` states.
pub fn u64_to_dec(n: u64) -> (r: Vec<u8>)
    ensures
        r@ == dec_digits(n as nat),
{
    let mut rev: Vec<u8> = Vec::new();
    let mut m = n;
    loop
        invariant_except_break
            dec_digits(n as nat) == dec_digits(m as nat) + rev@.reverse(),
        ensures
            dec_digits(n as nat) == rev@.reverse(),
        decreases m,
    {
        let d: u8 = (m % 10) as u8 + 48;
        let ghost prev_rev = rev@;
        let ghost prev_m = m;
        rev.push(d);
        proof {
            assert(rev@.reverse() =~= seq![d] + prev_rev.reverse());
        }
        m = m / 10;
        if m == 0 {
            proof {
                if prev_m >= 10 {
                    assert(false);
                }
                assert(dec_digits(prev_m as nat) =~= seq![d]);
                assert(dec_digits(n as nat) =~= rev@.reverse());
            }
            break;
        }
        proof {
            assert(dec_digits(prev_m as nat) == dec_digits(prev_m as nat / 10) + seq![
                (48 + prev_m as nat % 10) as u8,
            ]);
            assert(dec_digits(prev_m as nat / 10) + seq![(48 + prev_m as nat % 10) as u8]
                + prev_rev.reverse() =~= dec_digits(m as nat) + rev@.reverse());
        }
    }
    let mut out: Vec<u8> = Vec::new();
    let mut i = rev.len();
    while i > 0
        invariant
            i <= rev@.len(),
            out@ =~= rev@.reverse().take(rev@.len() - i),
        decreases i,
    {
        i = i - 1;
        out.push(rev[i]);
        proof {
            assert(out@ =~= rev@.reverse().take(rev@.len() - i));
        }
    }
    proof {
        assert(out@ =~= rev@.reverse());
    }
    out
}

} // verus!
