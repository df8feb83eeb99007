//! Balanced partition of a body array among the workers of a shared-memory
//! engine.

use crate::global::div_ceil;
use vstd::arithmetic::div_mod::lemma_fundamental_div_mod;
use vstd::arithmetic::div_mod::lemma_fundamental_div_mod_converse;
use vstd::prelude::*;

verus! {

/// Number of items in the `kth` of `group` contiguous chunks of `total` items.
///
/// Every chunk gets `total / group` items and the first `total % group`
/// chunks get one more, so that sizes differ by at most one and the short
/// chunks form the tail.
pub open spec fn chunk_len(total: nat, group: nat, kth: nat) -> nat
    recommends
        kth < group,
{
    total / group + if kth < total % group {
        1nat
    } else {
        0nat
    }
}

/// Index of the first item of the `kth` chunk: the sizes of the chunks before
/// it, added up.
pub open spec fn chunk_start(total: nat, group: nat, kth: nat) -> nat
    recommends
        kth <= group,
{
    kth * (total / group) + if kth < total % group {
        kth
    } else {
        total % group
    }
}

/// Each chunk begins where the one before it ends.
pub proof fn lemma_chunk_start_step(total: nat, group: nat, kth: nat)
    requires
        group > 0,
    ensures
        chunk_start(total, group, kth + 1) == chunk_start(total, group, kth) + chunk_len(
            total,
            group,
            kth,
        ),
{
    let q: int = (total / group) as int;
    assert((kth + 1) * q == kth * q + q) by (nonlinear_arith);
}

/// The chunks cover the array: the first begins at item 0 and the one after
/// the last would begin at `total`.
pub proof fn lemma_chunks_cover(total: nat, group: nat)
    requires
        group > 0,
    ensures
        chunk_start(total, group, 0) == 0,
        chunk_start(total, group, group) == total,
{
    let q: int = (total / group) as int;
    lemma_fundamental_div_mod(total as int, group as int);
    assert(0 * q == 0);
}

/// Chunk starts never decrease.
pub proof fn lemma_chunk_start_monotone(total: nat, group: nat, i: nat, j: nat)
    requires
        group > 0,
        i <= j,
    ensures
        chunk_start(total, group, i) <= chunk_start(total, group, j),
    decreases j - i,
{
    if i < j {
        lemma_chunk_start_step(total, group, i);
        lemma_chunk_start_monotone(total, group, i + 1, j);
    }
}

/// Chunk starts stay within the array.
pub proof fn lemma_chunk_start_bounds(total: nat, group: nat, i: nat, j: nat)
    requires
        group > 0,
        i <= j <= group,
    ensures
        chunk_start(total, group, i) <= chunk_start(total, group, j) <= total,
{
    lemma_chunk_start_monotone(total, group, i, j);
    lemma_chunk_start_monotone(total, group, j, group);
    lemma_chunks_cover(total, group);
}

/// The `kth` worker's share is what is left after the earlier chunks, split
/// evenly among the workers still to be served and rounded up.
pub proof fn lemma_chunk_len_is_even_share_of_rest(total: nat, group: nat, kth: nat)
    requires
        kth < group,
    ensures
        chunk_start(total, group, kth) <= total,
        chunk_len(total, group, kth) == div_ceil(
            (total - chunk_start(total, group, kth)) as nat,
            (group - kth) as nat,
        ),
{
    let q: int = (total / group) as int;
    let r: int = (total % group) as int;
    let k: int = kth as int;
    let g: int = group as int;
    lemma_fundamental_div_mod(total as int, g);
    lemma_chunk_start_bounds(total, group, kth, group);
    let rest: int = total - chunk_start(total, group, kth);
    assert(g * q - k * q == (g - k) * q) by (nonlinear_arith);
    if k < r {
        assert(rest == q * (g - k) + (r - k)) by (nonlinear_arith)
            requires
                rest == g * q + r - (k * q + k),
                g * q - k * q == (g - k) * q,
        ;
        lemma_fundamental_div_mod_converse(rest, g - k, q, r - k);
    } else {
        assert(rest == q * (g - k) + 0) by (nonlinear_arith)
            requires
                rest == g * q + r - (k * q + r),
                g * q - k * q == (g - k) * q,
        ;
        lemma_fundamental_div_mod_converse(rest, g - k, q, 0);
    }
}

/// Where the worker's index does not exceed the item count, its share is the
/// items from that index on, split evenly among all workers and rounded up.
pub proof fn lemma_chunk_len_is_offset_share(total: nat, group: nat, kth: nat)
    requires
        kth < group,
        kth <= total,
    ensures
        chunk_len(total, group, kth) == div_ceil((total - kth) as nat, group),
{
    let q: int = (total / group) as int;
    let r: int = (total % group) as int;
    let k: int = kth as int;
    let g: int = group as int;
    lemma_fundamental_div_mod(total as int, g);
    let a: int = total - k;
    if k <= r {
        assert(a == q * g + (r - k)) by (nonlinear_arith)
            requires
                a == g * q + r - k,
        ;
        lemma_fundamental_div_mod_converse(a, g, q, r - k);
    } else {
        assert(a == (q - 1) * g + (g + r - k)) by (nonlinear_arith)
            requires
                a == g * q + r - k,
        ;
        lemma_fundamental_div_mod_converse(a, g, q - 1, g + r - k);
    }
}

/// Size of the `kth` worker's chunk when `total` bodies are split among
/// `group` workers.
pub fn chunk_size(total: usize, group: usize, kth: usize) -> (len: usize)
    requires
        kth < group,
    ensures
        len == chunk_len(total as nat, group as nat, kth as nat),
{
    let q: usize = total / group;
    let r: usize = total % group;
    if kth < r {
        proof {
            lemma_fundamental_div_mod(total as int, group as int);
            assert(group * q >= q) by (nonlinear_arith)
                requires
                    group >= 1,
                    q >= 0,
            ;
        }
        q + 1
    } else {
        q
    }
}

/// The half-open index ranges that the workers take, in worker order.
pub fn chunk_ranges(total: usize, group: usize) -> (ranges: Vec<(usize, usize)>)
    requires
        group > 0,
    ensures
        ranges@.len() == group,
        forall|k: int|
            0 <= k < group ==> (#[trigger] ranges@[k]).0 == chunk_start(
                total as nat,
                group as nat,
                k as nat,
            ) && ranges@[k].1 == chunk_start(total as nat, group as nat, (k + 1) as nat),
{
    let mut ranges: Vec<(usize, usize)> = Vec::new();
    let mut counter: usize = 0;
    let mut i: usize = 0;
    proof {
        lemma_chunks_cover(total as nat, group as nat);
    }
    while i < group
        invariant
            group > 0,
            i <= group,
            ranges@.len() == i,
            counter == chunk_start(total as nat, group as nat, i as nat),
            forall|k: int|
                0 <= k < i ==> (#[trigger] ranges@[k]).0 == chunk_start(
                    total as nat,
                    group as nat,
                    k as nat,
                ) && ranges@[k].1 == chunk_start(total as nat, group as nat, (k + 1) as nat),
        decreases group - i,
    {
        let work_size: usize = chunk_size(total, group, i);
        proof {
            lemma_chunk_start_step(total as nat, group as nat, i as nat);
            lemma_chunk_start_bounds(total as nat, group as nat, (i + 1) as nat, group as nat);
        }
        ranges.push((counter, counter + work_size));
        counter += work_size;
        i += 1;
    }
    ranges
}

} // verus!
