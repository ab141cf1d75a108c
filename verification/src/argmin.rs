//! Argmin: scalar baselines and a lane-parallel (chunked) variant. All
//! variants return the index of the first occurrence of the minimum value,
//! and their contracts pin the result to that one answer.

use vstd::arithmetic::div_mod::lemma_add_mod_noop;
use vstd::arithmetic::div_mod::lemma_mod_bound;
use vstd::arithmetic::div_mod::lemma_small_mod;
use vstd::prelude::*;

verus! {

/// `k` is the position of the first occurrence of the minimum of the prefix
/// `s[0..n]`: every element of the prefix is at least `s[k]`, and everything
/// strictly before `k` is strictly larger (ties are broken by earliest index).
pub open spec fn first_min_of_prefix(s: Seq<u32>, n: int, k: int) -> bool {
    &&& 0 <= k < n <= s.len()
    &&& forall|j: int| 0 <= j < n ==> s[k] <= s[j]
    &&& forall|j: int| 0 <= j < k ==> s[j] > s[k]
}

/// Characterizes the one correct answer of an argmin query: `Some(i)` exactly
/// when `i` is the first position achieving the minimum of the whole array,
/// `None` exactly when the array is empty.
pub open spec fn is_argmin_result(s: Seq<u32>, r: Option<usize>) -> bool {
    match r {
        Some(i) => first_min_of_prefix(s, s.len() as int, i as int),
        None => s.len() == 0,
    }
}

/// Any two results that both satisfy the argmin characterization are equal;
/// together with the postconditions of `argmin`, `argmin_fold` and
/// `sind_argmin`, this states that the lane-parallel argmin agrees with the
/// scalar baselines on every array.
pub proof fn lemma_argmin_result_unique(s: Seq<u32>, r1: Option<usize>, r2: Option<usize>)
    requires
        is_argmin_result(s, r1),
        is_argmin_result(s, r2),
    ensures
        r1 == r2,
{
    match (r1, r2) {
        (Some(i1), Some(i2)) => {
            if i1 < i2 {
                assert(s[i1 as int] > s[i2 as int]);
                assert(s[i2 as int] > s[i1 as int]);
            } else if i2 < i1 {
                assert(s[i2 as int] > s[i1 as int]);
                assert(s[i1 as int] > s[i2 as int]);
            }
        },
        _ => {},
    }
}

/// Ties go to the earliest index: whenever an argmin answer `i` and any other
/// position `j` hold the same value, `i` is the smaller of the two.
pub proof fn lemma_argmin_tie_break(s: Seq<u32>, i: usize, j: int)
    requires
        is_argmin_result(s, Some(i)),
        0 <= j < s.len(),
        s[j] == s[i as int],
    ensures
        i <= j,
{
}

/// On an empty array every argmin query comes back absent.
pub proof fn lemma_argmin_empty_absent(s: Seq<u32>, r: Option<usize>)
    requires
        s.len() == 0,
        is_argmin_result(s, r),
    ensures
        r is None,
{
}

/// Scalar baseline: scan left to right keeping the index of the smallest
/// element seen so far; strict `<` keeps the earliest index on ties.
pub fn argmin(array: &[u32]) -> (r: Option<usize>)
    ensures
        is_argmin_result(array@, r),
{
    if array.len() == 0 {
        return None;
    }
    let mut k: usize = 0;
    let mut i: usize = 0;
    while i < array.len()
        invariant
            i <= array.len(),
            first_min_of_prefix(array@, if i < 1 { 1int } else { i as int }, k as int),
        decreases array.len() - i,
    {
        if array[i] < array[k] {
            k = i;
        }
        i = i + 1;
    }
    Some(k)
}

/// Fold-style scalar baseline: the accumulator carries the best index so far,
/// starting from "nothing seen"; strict `<` keeps the earliest index on ties.
pub fn argmin_fold(array: &[u32]) -> (r: Option<usize>)
    ensures
        is_argmin_result(array@, r),
{
    let mut best: Option<usize> = None;
    let mut i: usize = 0;
    while i < array.len()
        invariant
            i <= array.len(),
            match best {
                Some(k) => first_min_of_prefix(array@, i as int, k as int),
                None => i == 0,
            },
        decreases array.len() - i,
    {
        best = match best {
            Some(k) => if array[i] < array[k] {
                Some(i)
            } else {
                Some(k)
            },
            None => Some(i),
        };
        i = i + 1;
    }
    best
}

/// Per-lane tracking state of the chunked argmin, over the 16-aligned prefix
/// `s[0..n]`. Lane `l` owns the indices congruent to `l` modulo 16. Either the
/// lane is untouched (`m` is the largest representable value and `a` is the
/// lane's own number — which also happens when every owned element equals that
/// largest value, since only a strictly smaller element records itself), or
/// `a` is the first owned index achieving `m`, the minimum over the owned
/// elements.
spec fn lane_tracks(s: Seq<u32>, l: int, n: int, m: u32, a: int) -> bool {
    &&& (forall|idx: int| 0 <= idx < n && idx % 16 == l ==> #[trigger] s[idx] >= m)
    &&& ((m == u32::MAX && a == l) || (0 <= a < n && a % 16 == l && s[a] == m && (forall|idx: int|
        0 <= idx < a && idx % 16 == l ==> #[trigger] s[idx] > m)))
}

/// Within a 16-aligned block of sixteen indices, the only index owned by lane
/// `l` is `n + l`.
proof fn lemma_block_lane_index(n: int, l: int, idx: int)
    requires
        n % 16 == 0,
        0 <= n,
        0 <= l < 16,
        n <= idx < n + 16,
    ensures
        (idx % 16 == l) <==> (idx == n + l),
{
    let d = idx - n;
    lemma_add_mod_noop(n, d, 16);
    lemma_small_mod(d as nat, 16);
    assert(idx % 16 == d);
}

/// One lane-wise select step: folding the element at `n + l` into lane `l`'s
/// running minimum (update on strictly smaller only) preserves the lane
/// tracking invariant for the next block.
proof fn lemma_lane_step(s: Seq<u32>, l: int, n: int, m: u32, a: int, m2: u32, a2: int)
    requires
        0 <= l < 16,
        n % 16 == 0,
        0 <= n,
        n + 16 <= s.len(),
        lane_tracks(s, l, n, m, a),
        if s[n + l] < m {
            m2 == s[n + l] && a2 == n + l
        } else {
            m2 == m && a2 == a
        },
    ensures
        lane_tracks(s, l, n + 16, m2, a2),
{
    assert forall|idx: int| n <= idx < n + 16 implies (#[trigger] (idx % 16) == l <==> idx == n
        + l) by {
        lemma_block_lane_index(n, l, idx);
    }
    assert forall|idx: int| 0 <= idx < n + 16 && idx % 16 == l implies #[trigger] s[idx] >= m2 by {
        if idx < n {
            assert(s[idx] >= m);
        }
    }
    if s[n + l] < m {
        assert forall|idx: int| 0 <= idx < a2 && idx % 16 == l implies #[trigger] s[idx] > m2 by {
            assert(idx < n);
            assert(s[idx] >= m);
        }
    }
}

/// After at least one full block, lane `l`'s state always points at a real
/// index: `a` is the first index owned by lane `l` whose element equals `m`,
/// the minimum over the lane's elements.
proof fn lemma_lane_covers(s: Seq<u32>, l: int, n: int, m: u32, a: int)
    requires
        0 <= l < 16,
        n % 16 == 0,
        16 <= n <= s.len(),
        lane_tracks(s, l, n, m, a),
    ensures
        0 <= a < n,
        a % 16 == l,
        s[a] == m,
        forall|idx: int| 0 <= idx < a && idx % 16 == l ==> #[trigger] s[idx] > m,
{
    lemma_small_mod(l as nat, 16);
    if m == u32::MAX && a == l {
        assert(s[l] >= m);
        assert(s[a] == m);
        assert forall|idx: int| 0 <= idx < a && idx % 16 == l implies #[trigger] s[idx] > m by {
            lemma_small_mod(idx as nat, 16);
        }
    }
}

/// Lane reduction: the lexicographically best lane (smallest running minimum,
/// ties to the smaller recorded index) yields the first position of the
/// minimum of the whole 16-aligned prefix.
proof fn lemma_reduce(s: Seq<u32>, mins: Seq<u32>, args: Seq<usize>, n: int, best: int)
    requires
        mins.len() == 16,
        args.len() == 16,
        n % 16 == 0,
        16 <= n <= s.len(),
        forall|l: int| 0 <= l < 16 ==> lane_tracks(s, l, n, #[trigger] mins[l], args[l] as int),
        0 <= best < 16,
        forall|l: int| 0 <= l < 16 ==> mins[best] <= #[trigger] mins[l],
        forall|l: int| 0 <= l < 16 && #[trigger] mins[l] == mins[best] ==> args[best] <= args[l],
    ensures
        first_min_of_prefix(s, n, args[best] as int),
{
    let a_star = args[best] as int;
    let m_star = mins[best];
    lemma_lane_covers(s, best, n, m_star, a_star);
    assert forall|j: int| 0 <= j < n implies s[a_star] <= #[trigger] s[j] by {
        let l = j % 16;
        lemma_mod_bound(j, 16);
        lemma_lane_covers(s, l, n, mins[l], args[l] as int);
        assert(s[j] >= mins[l]);
        assert(mins[l] >= m_star);
    }
    assert forall|j: int| 0 <= j < a_star implies #[trigger] s[j] > s[a_star] by {
        let l = j % 16;
        lemma_mod_bound(j, 16);
        lemma_lane_covers(s, l, n, mins[l], args[l] as int);
        if mins[l] == m_star {
            assert(args[best] <= args[l]);
            assert(j < args[l] as int);
            assert(s[j] > mins[l]);
        } else {
            assert(s[j] >= mins[l]);
            assert(mins[l] > m_star);
        }
    }
}

/// Lane-parallel argmin at the fixed lane width of sixteen. Two running
/// vectors, one of per-lane minima and one of the original indices at which
/// they were first achieved, are updated once per full chunk by a lane-wise
/// select on strict `<`; a sequential reduction over the sixteen lanes
/// (smallest value, ties to the smaller index) picks the winner of the
/// chunked prefix, and a scalar scan of the remainder tail finishes, again
/// replacing on strict `<` only. The result equals the scalar baseline's on
/// every input.
pub fn sind_argmin(array: &[u32]) -> (r: Option<usize>)
    ensures
        is_argmin_result(array@, r),
{
    if array.len() == 0 {
        return None;
    }
    let len = array.len();

    // RunningMin / RunningArgmin: before any chunk, every lane holds the
    // largest representable value and its own lane number.
    let mut mins: Vec<u32> = Vec::new();
    let mut args: Vec<usize> = Vec::new();
    let mut l: usize = 0;
    while l < 16
        invariant
            l <= 16,
            mins@.len() == l,
            args@.len() == l,
            forall|t: int| 0 <= t < l ==> #[trigger] mins@[t] == u32::MAX && args@[t] == t,
        decreases 16 - l,
    {
        mins.push(u32::MAX);
        args.push(l);
        l = l + 1;
    }

    let mut base: usize = 0;
    while 16 <= len - base
        invariant
            base <= len,
            len == array.len(),
            base % 16 == 0,
            mins@.len() == 16,
            args@.len() == 16,
            forall|t: int|
                0 <= t < 16 ==> lane_tracks(
                    array@,
                    t,
                    base as int,
                    #[trigger] mins@[t],
                    args@[t] as int,
                ),
        decreases len - base,
    {
        // One chunk: lane-wise compare-and-select against the running state.
        let mut lane: usize = 0;
        while lane < 16
            invariant
                lane <= 16,
                base % 16 == 0,
                base + 16 <= len,
                len == array.len(),
                mins@.len() == 16,
                args@.len() == 16,
                forall|t: int|
                    0 <= t < lane ==> lane_tracks(
                        array@,
                        t,
                        base as int + 16,
                        #[trigger] mins@[t],
                        args@[t] as int,
                    ),
                forall|t: int|
                    lane <= t < 16 ==> lane_tracks(
                        array@,
                        t,
                        base as int,
                        #[trigger] mins@[t],
                        args@[t] as int,
                    ),
            decreases 16 - lane,
        {
            let ghost m_old = mins@[lane as int];
            let ghost a_old = args@[lane as int];
            let v = array[base + lane];
            if v < mins[lane] {
                mins[lane] = v;
                args[lane] = base + lane;
            }
            proof {
                lemma_lane_step(
                    array@,
                    lane as int,
                    base as int,
                    m_old,
                    a_old as int,
                    mins@[lane as int],
                    args@[lane as int] as int,
                );
            }
            lane = lane + 1;
        }
        proof {
            lemma_add_mod_noop(base as int, 16, 16);
        }
        base = base + 16;
    }

    // Sequential reduction over the sixteen lanes: smallest running minimum
    // wins; on a value tie the lane with the smaller recorded index wins,
    // checked explicitly as a secondary comparison.
    let mut klane: usize = 0;
    let mut i: usize = 1;
    while i < 16
        invariant
            1 <= i <= 16,
            klane < i,
            mins@.len() == 16,
            args@.len() == 16,
            forall|t: int| 0 <= t < i ==> mins@[klane as int] <= #[trigger] mins@[t],
            forall|t: int|
                0 <= t < i && #[trigger] mins@[t] == mins@[klane as int] ==> args@[klane as int]
                    <= args@[t],
        decreases 16 - i,
    {
        if mins[i] < mins[klane] {
            klane = i;
        }
        if mins[i] == mins[klane] && args[i] < args[klane] {
            klane = i;
        }
        i = i + 1;
    }
    let mut k: usize = args[klane];
    proof {
        if base >= 16 {
            lemma_reduce(array@, mins@, args@, base as int, klane as int);
        } else {
            // No full chunk: every lane is still in its initial state, so the
            // tie-break picked lane zero's initial index, zero.
            lemma_small_mod(base as nat, 16);
            assert(base == 0);
            assert(lane_tracks(array@, 0, 0, mins@[0], args@[0] as int));
            assert(lane_tracks(
                array@,
                klane as int,
                0,
                mins@[klane as int],
                args@[klane as int] as int,
            ));
            assert(mins@[0] == u32::MAX && args@[0] == 0);
            assert(mins@[klane as int] == u32::MAX);
            assert(k == 0);
        }
    }

    // Scalar scan of the remainder tail; a strictly smaller element becomes
    // the new global minimum, so earlier indices keep winning ties.
    let mut j: usize = base;
    while j < len
        invariant
            j <= len,
            0 < len == array.len(),
            k < len,
            first_min_of_prefix(
                array@,
                if j < 1 {
                    1int
                } else {
                    j as int
                },
                k as int,
            ),
        decreases len - j,
    {
        if array[j] < array[k] {
            k = j;
        }
        j = j + 1;
    }
    Some(k)
}

} // verus!
