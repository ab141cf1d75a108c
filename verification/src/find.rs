//! Linear search: scalar baseline and lane-parallel (chunked, bitmask-decoded)
//! variants. All variants return the index of the first element equal to the
//! needle, and their contracts pin the result to that one answer.

use vstd::prelude::*;

verus! {

/// No element of `s` before position `n` equals `x`.
pub open spec fn no_match_before(s: Seq<u32>, x: u32, n: int) -> bool {
    forall|j: int| 0 <= j < n ==> s[j] != x
}

/// Characterizes the one correct answer of a "first index of `x`" search:
/// `Some(i)` exactly when `i` is the first matching position, `None` exactly
/// when `x` occurs nowhere in `s`.
pub open spec fn is_find_result(s: Seq<u32>, x: u32, r: Option<usize>) -> bool {
    match r {
        Some(i) => i < s.len() && s[i as int] == x && no_match_before(s, x, i as int),
        None => no_match_before(s, x, s.len() as int),
    }
}

/// Any two results that both satisfy the first-match characterization are
/// equal; together with the postconditions of `simple_find`, `simd_find` and
/// `simd_find_16`, this states that the lane-parallel searches agree with the
/// scalar baseline on every array, needle and lane width.
pub proof fn lemma_find_result_unique(s: Seq<u32>, x: u32, r1: Option<usize>, r2: Option<usize>)
    requires
        is_find_result(s, x, r1),
        is_find_result(s, x, r2),
    ensures
        r1 == r2,
{
    match (r1, r2) {
        (Some(i1), Some(i2)) => {
            if i1 < i2 {
                assert(s[i1 as int] != x);
            } else if i2 < i1 {
                assert(s[i2 as int] != x);
            }
        },
        (Some(i1), None) => {
            assert(s[i1 as int] != x);
        },
        (None, Some(i2)) => {
            assert(s[i2 as int] != x);
        },
        (None, None) => {},
    }
}

/// On an empty array every search comes back absent, whatever the needle.
pub proof fn lemma_find_empty_absent(s: Seq<u32>, x: u32, r: Option<usize>)
    requires
        s.len() == 0,
        is_find_result(s, x, r),
    ensures
        r is None,
{
}

/// Every bit of the zero mask is clear.
proof fn lemma_zero_mask_bits()
    by (bit_vector)
    ensures
        forall|k: u32| k < 32 ==> #[trigger] ((0u32 >> k) & 1u32) == 0u32,
{
}

/// Setting bit `j` of a mask leaves every other bit as it was.
proof fn lemma_set_bit(m: u32, j: u32, k: u32)
    by (bit_vector)
    requires
        j < 32,
        k < 32,
    ensures
        ((m | (1u32 << j)) >> k) & 1u32 == (if k == j {
            1u32
        } else {
            (m >> k) & 1u32
        }),
{
}

/// Scalar baseline: scan left to right, return the first index whose element
/// equals `x`, or `None` if there is none.
pub fn simple_find(array: &[u32], x: u32) -> (r: Option<usize>)
    ensures
        is_find_result(array@, x, r),
{
    let mut i: usize = 0;
    while i < array.len()
        invariant
            i <= array.len(),
            no_match_before(array@, x, i as int),
        decreases array.len() - i,
    {
        if array[i] == x {
            return Some(i);
        }
        i = i + 1;
    }
    None
}

/// Lane-parallel search, parameterized by the lane width `lanes`. The array
/// splits into full-width chunks and a trailing remainder. Each chunk is
/// compared lane by lane against the needle and the lane results are packed
/// into an integer bitmask, bit `j` standing for lane `j`; the first matching
/// lane is decoded from the mask by taking the position of its lowest set bit
/// (`trailing_zeros`). The remainder is scanned scalarly. The result equals
/// the scalar baseline's on every input.
pub fn simd_find(array: &[u32], x: u32, lanes: usize) -> (r: Option<usize>)
    requires
        1 <= lanes <= 32,
    ensures
        is_find_result(array@, x, r),
{
    let len = array.len();
    let mut base: usize = 0;
    while lanes <= len - base
        invariant
            1 <= lanes <= 32,
            base <= len,
            len == array.len(),
            no_match_before(array@, x, base as int),
        decreases len - base,
    {
        // Lane-wise equality of this chunk against the broadcast needle,
        // packed into a bitmask: bit j is set exactly when lane j matches.
        let mut mask: u32 = 0;
        let mut j: usize = 0;
        proof {
            lemma_zero_mask_bits();
        }
        while j < lanes
            invariant
                1 <= lanes <= 32,
                j <= lanes,
                base + lanes <= len,
                len == array.len(),
                forall|k: u32| k < j ==> (#[trigger] ((mask >> k) & 1u32) == 1u32 <==> array@[base
                    + k as int] == x),
                forall|k: u32| j <= k < 32 ==> #[trigger] ((mask >> k) & 1u32) == 0u32,
            decreases lanes - j,
        {
            let ghost old_mask = mask;
            if array[base + j] == x {
                mask = mask | (1u32 << (j as u32));
            }
            proof {
                assert forall|k: u32| k < 32 implies #[trigger] ((mask >> k) & 1u32) == (if k
                    == j && array@[base + j as int] == x {
                    1u32
                } else {
                    (old_mask >> k) & 1u32
                }) by {
                    if array@[base + j as int] == x {
                        lemma_set_bit(old_mask, j as u32, k);
                    }
                }
            }
            j = j + 1;
        }
        if mask != 0 {
            // Decode the lowest-indexed matching lane from the bitmask.
            let tz = mask.trailing_zeros();
            proof {
                vstd::std_specs::bits::axiom_u32_trailing_zeros(mask);
                assert(tz < 32);
                assert((mask >> tz) & 1u32 == 1u32);
                assert(tz < lanes);
                assert(array@[base + tz as int] == x);
                assert forall|idx: int| 0 <= idx < base + tz implies array@[idx] != x by {
                    if base <= idx {
                        let k = (idx - base) as u32;
                        assert((mask >> k) & 1u32 == 0u32);
                    }
                }
            }
            return Some(base + tz as usize);
        }
        proof {
            assert forall|idx: int| 0 <= idx < base + lanes implies array@[idx] != x by {
                if base <= idx {
                    let k = (idx - base) as u32;
                    assert((mask >> k) & 1u32 == 0u32);
                }
            }
        }
        base = base + lanes;
    }
    // Scalar scan of the remainder tail.
    let mut i: usize = base;
    while i < len
        invariant
            i <= len,
            len == array.len(),
            no_match_before(array@, x, i as int),
        decreases len - i,
    {
        if array[i] == x {
            return Some(i);
        }
        i = i + 1;
    }
    None
}

/// Lane-parallel search at the fixed lane width of sixteen; one call of the
/// width-parameterized routine.
pub fn simd_find_16(array: &[u32], x: &u32) -> (r: Option<usize>)
    ensures
        is_find_result(array@, *x, r),
{
    simd_find(array, *x, 16)
}

} // verus!
