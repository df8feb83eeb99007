//! Distributed engine: how the global body array is dealt out to ranks and
//! what a rank does in one step.

use crate::driver::FrameLoop;
use crate::driver::Role;
use crate::driver::Stepper;
use crate::global::div_ceil;
use vstd::arithmetic::div_mod::lemma_fundamental_div_mod;
use vstd::arithmetic::div_mod::lemma_fundamental_div_mod_converse;
use vstd::arithmetic::mul::lemma_mul_inequality;
use vstd::prelude::*;

verus! {

/// Number of bodies in a full block when `total` bodies are dealt to `world`
/// ranks: the even share, rounded up.
pub open spec fn block_size(total: nat, world: nat) -> nat
    recommends
        world > 0,
{
    div_ceil(total, world)
}

/// Global index of the first body of rank `rank`'s block.
pub open spec fn block_start(total: nat, world: nat, rank: nat) -> nat {
    rank * block_size(total, world)
}

/// Number of bodies that rank `rank` owns: a full block, what is left of the
/// array for the rank at its tail, nothing for the ranks beyond it.
pub open spec fn owned_len(total: nat, world: nat, rank: nat) -> nat {
    let start = block_start(total, world, rank);
    let block = block_size(total, world);
    if start >= total {
        0
    } else if start + block <= total {
        block
    } else {
        (total - start) as nat
    }
}

/// Whether rank `rank` holds the short block at the tail of the array. Such a
/// rank is told the index of its last body, not the index one past it.
pub open spec fn is_tail(total: nat, world: nat, rank: nat) -> bool {
    let start = block_start(total, world, rank);
    start < total < start + block_size(total, world)
}

/// The length handed to rank `rank`: its body count, less one where the rank
/// is the tail and its end index is therefore inclusive.
pub open spec fn dealt_len(total: nat, world: nat, rank: nat) -> nat {
    if is_tail(total, world, rank) {
        (owned_len(total, world, rank) - 1) as nat
    } else {
        owned_len(total, world, rank)
    }
}

/// One past the last body index that a rank told `(end, flag)` owns.
pub open spec fn owned_end(end: nat, flag: bool) -> nat {
    if flag {
        end + 1
    } else {
        end
    }
}

/// The blocks of all ranks together are at least as long as the array.
pub proof fn lemma_blocks_suffice(total: nat, world: nat)
    requires
        world > 0,
    ensures
        world * block_size(total, world) >= total,
        total > 0 ==> block_size(total, world) > 0,
{
    let q: int = (total / world) as int;
    let w: int = world as int;
    lemma_fundamental_div_mod(total as int, w);
    assert(w * (q + 1) == w * q + w) by (nonlinear_arith);
    if total > 0 && total % world == 0 {
        assert(q > 0) by (nonlinear_arith)
            requires
                w * q > 0,
                w > 0,
        ;
    }
}

/// Every body belongs to exactly one rank: the one whose number is the body's
/// index divided by the block size.
pub proof fn lemma_blocks_partition(total: nat, world: nat, body: nat, rank: nat)
    requires
        world > 0,
        body < total,
    ensures
        body / block_size(total, world) < world,
        (block_start(total, world, rank) <= body < block_start(total, world, rank) + owned_len(
            total,
            world,
            rank,
        )) <==> rank == body / block_size(total, world),
{
    let b: int = block_size(total, world) as int;
    let i: int = body as int;
    let k: int = rank as int;
    lemma_blocks_suffice(total, world);
    lemma_fundamental_div_mod(i, b);
    let owner: int = i / b;
    assert(owner < world) by (nonlinear_arith)
        requires
            i == b * owner + i % b,
            0 <= i % b,
            i < world * b,
            b > 0,
    ;
    if k * b <= i < k * b + owned_len(total, world, rank) {
        assert(i < k * b + b);
        lemma_fundamental_div_mod_converse(i, b, k, i - k * b);
    }
    if k == owner {
        assert(k * b == b * owner) by (nonlinear_arith)
            requires
                k == owner,
        ;
    }
}

/// At most one rank is the tail.
pub proof fn lemma_one_tail(total: nat, world: nat, a: nat, b: nat)
    requires
        world > 0,
        is_tail(total, world, a),
        is_tail(total, world, b),
    ensures
        a == b,
{
    let size: int = block_size(total, world) as int;
    assert(a == b) by (nonlinear_arith)
        requires
            a * size < total < a * size + size,
            b * size < total < b * size + size,
            size > 0,
    ;
}

/// What a rank is told of its block covers exactly the bodies it owns.
pub proof fn lemma_dealt_range_is_owned(total: nat, world: nat, rank: nat)
    requires
        world > 0,
    ensures
        owned_end(
            block_start(total, world, rank) + dealt_len(total, world, rank),
            is_tail(total, world, rank),
        ) == block_start(total, world, rank) + owned_len(total, world, rank),
{
}

/// The starts of all ranks fit the machine word where the body count and the
/// rank count together do.
pub proof fn lemma_starts_fit(total: nat, world: nat)
    requires
        world > 0,
        total + world <= usize::MAX,
    ensures
        (world - 1) * block_size(total, world) <= usize::MAX,
{
    let q: int = (total / world) as int;
    let w: int = world as int;
    lemma_fundamental_div_mod(total as int, w);
    assert((w - 1) * (q + 1) <= w * q + w) by (nonlinear_arith)
        requires
            w >= 1,
            q >= 0,
    ;
    assert((w - 1) * q <= w * q) by (nonlinear_arith)
        requires
            w >= 1,
            q >= 0,
    ;
}

/// Full-block size for `global_size` bodies on `world_size` ranks.
fn full_block(global_size: usize, world_size: usize) -> (block: usize)
    requires
        world_size > 0,
    ensures
        block == block_size(global_size as nat, world_size as nat),
{
    if global_size % world_size > 0 {
        proof {
            lemma_fundamental_div_mod(global_size as int, world_size as int);
            assert(world_size * (global_size / world_size) >= global_size / world_size)
                by (nonlinear_arith)
                requires
                    world_size >= 1,
                    global_size / world_size >= 0,
            ;
        }
        global_size / world_size + 1
    } else {
        global_size / world_size
    }
}

/// Length and tail flag handed to rank `i` when `global_size` bodies are
/// dealt to `world_size` ranks.
pub fn chunk_size(global_size: usize, world_size: usize, i: usize) -> (dealt: (usize, bool))
    requires
        world_size > 0,
    ensures
        dealt.0 == dealt_len(global_size as nat, world_size as nat, i as nat),
        dealt.1 == is_tail(global_size as nat, world_size as nat, i as nat),
{
    let block: usize = full_block(global_size, world_size);
    match i.checked_mul(block) {
        None => (0, false),
        Some(start) => {
            if start >= global_size {
                (0, false)
            } else if global_size - start >= block {
                (block, false)
            } else {
                (global_size - start - 1, true)
            }
        },
    }
}

/// Deals `global_size` bodies to `world_size` ranks in blocks. Entry `k` of
/// the three vectors is what rank `k` is sent: the index of its first body,
/// its end index, and whether that end index is inclusive.
pub fn block_distribution(global_size: usize, world_size: usize) -> (dealt: (
    Vec<usize>,
    Vec<usize>,
    Vec<bool>,
))
    requires
        world_size > 0,
        (world_size - 1) * block_size(global_size as nat, world_size as nat) <= usize::MAX,
    ensures
        dealt.0@.len() == world_size,
        dealt.1@.len() == world_size,
        dealt.2@.len() == world_size,
        forall|k: int|
            #![trigger dealt.0@[k]]
            #![trigger dealt.1@[k]]
            #![trigger dealt.2@[k]]
            0 <= k < world_size ==> {
                &&& dealt.0@[k] == block_start(
                    global_size as nat,
                    world_size as nat,
                    k as nat,
                )
                &&& dealt.1@[k] == dealt.0@[k] + dealt_len(
                    global_size as nat,
                    world_size as nat,
                    k as nat,
                )
                &&& dealt.2@[k] == is_tail(global_size as nat, world_size as nat, k as nat)
            },
{
    let block: usize = full_block(global_size, world_size);
    let mut starts: Vec<usize> = Vec::new();
    let mut ends: Vec<usize> = Vec::new();
    let mut flags: Vec<bool> = Vec::new();
    let mut i: usize = 0;
    while i < world_size
        invariant
            world_size > 0,
            i <= world_size,
            block == block_size(global_size as nat, world_size as nat),
            (world_size - 1) * block <= usize::MAX,
            starts@.len() == i,
            ends@.len() == i,
            flags@.len() == i,
            forall|k: int|
                #![trigger starts@[k]]
                0 <= k < i ==> {
                    &&& starts@[k] == block_start(
                        global_size as nat,
                        world_size as nat,
                        k as nat,
                    )
                    &&& ends@[k] == starts@[k] + dealt_len(
                        global_size as nat,
                        world_size as nat,
                        k as nat,
                    )
                    &&& flags@[k] == is_tail(global_size as nat, world_size as nat, k as nat)
                },
        decreases world_size - i,
    {
        proof {
            lemma_mul_inequality(i as int, world_size - 1, block as int);
        }
        let counter: usize = i * block;
        let (length, flag) = chunk_size(global_size, world_size, i);
        assert(counter + length <= usize::MAX) by {
            if length > 0 {
                assert(counter + length <= global_size);
            }
        }
        let ghost prev_starts = starts@;
        let ghost prev_ends = ends@;
        let ghost prev_flags = flags@;
        starts.push(counter);
        ends.push(counter + length);
        flags.push(flag);
        assert forall|k: int| #![trigger starts@[k]] 0 <= k < i + 1 implies {
            &&& starts@[k] == block_start(global_size as nat, world_size as nat, k as nat)
            &&& ends@[k] == starts@[k] + dealt_len(
                global_size as nat,
                world_size as nat,
                k as nat,
            )
            &&& flags@[k] == is_tail(global_size as nat, world_size as nat, k as nat)
        } by {
            if k < i {
                assert(starts@[k] == prev_starts[k]);
                assert(ends@[k] == prev_ends[k]);
                assert(flags@[k] == prev_flags[k]);
            }
        }
        i += 1;
    }
    (starts, ends, flags)
}

/// Index of the first body of rank `rank`'s block, or the body count where
/// the block lies beyond the array.
pub open spec fn clamped_start(total: nat, world: nat, rank: nat) -> nat {
    if block_start(total, world, rank) <= total {
        block_start(total, world, rank)
    } else {
        total
    }
}

/// The blocks lie end to end: each ends where the next begins, the first
/// begins at body 0 and the last ends with the array.
pub proof fn lemma_blocks_tile(total: nat, world: nat, rank: nat)
    requires
        world > 0,
    ensures
        clamped_start(total, world, 0) == 0,
        clamped_start(total, world, world) == total,
        clamped_start(total, world, rank) + owned_len(total, world, rank) == clamped_start(
            total,
            world,
            rank + 1,
        ),
{
    let size: int = block_size(total, world) as int;
    lemma_blocks_suffice(total, world);
    assert(0 * size == 0);
    assert((rank + 1) * size == rank * size + size) by (nonlinear_arith);
}

/// Where the root finds what each rank hands back: entry `k` of the first
/// vector is the number of reals that rank `k` sends, entry `k` of the second
/// is the index in the root's array at which they belong, when every body
/// takes `width` reals. Nothing is given where the array's length does not
/// fit the message layer's count type.
pub fn gather_layout(global_size: usize, world_size: usize, width: usize) -> (layout: Option<
    (Vec<i32>, Vec<i32>),
>)
    requires
        world_size > 0,
    ensures
        layout.is_some() == (global_size * width <= i32::MAX),
        layout matches Some(found) ==> {
            &&& found.0@.len() == world_size
            &&& found.1@.len() == world_size
            &&& forall|k: int|
                #![trigger found.0@[k]]
                #![trigger found.1@[k]]
                0 <= k < world_size ==> {
                    &&& found.0@[k] == owned_len(
                        global_size as nat,
                        world_size as nat,
                        k as nat,
                    ) * width
                    &&& found.1@[k] == clamped_start(
                        global_size as nat,
                        world_size as nat,
                        k as nat,
                    ) * width
                }
        },
{
    let limit: usize = 0x7fff_ffff;
    let fits: bool = match global_size.checked_mul(width) {
        Some(length) => length <= limit,
        None => false,
    };
    if !fits {
        return None;
    }
    let block: usize = full_block(global_size, world_size);
    let mut counts: Vec<i32> = Vec::new();
    let mut displs: Vec<i32> = Vec::new();
    let mut i: usize = 0;
    while i < world_size
        invariant
            world_size > 0,
            i <= world_size,
            global_size * width <= 0x7fff_ffff,
            block == block_size(global_size as nat, world_size as nat),
            counts@.len() == i,
            displs@.len() == i,
            forall|k: int|
                #![trigger counts@[k]]
                #![trigger displs@[k]]
                0 <= k < i ==> {
                    &&& counts@[k] == owned_len(global_size as nat, world_size as nat, k as nat)
                        * width
                    &&& displs@[k] == clamped_start(
                        global_size as nat,
                        world_size as nat,
                        k as nat,
                    ) * width
                },
        decreases world_size - i,
    {
        let start: usize = match i.checked_mul(block) {
            Some(start) => if start <= global_size {
                start
            } else {
                global_size
            },
            None => global_size,
        };
        let length: usize = if global_size - start >= block {
            block
        } else {
            global_size - start
        };
        proof {
            assert(start == clamped_start(global_size as nat, world_size as nat, i as nat));
            assert(length == owned_len(global_size as nat, world_size as nat, i as nat));
            assert(start * width <= global_size * width) by (nonlinear_arith)
                requires
                    start <= global_size,
            ;
            assert(length * width <= global_size * width) by (nonlinear_arith)
                requires
                    length <= global_size,
            ;
        }
        let ghost prev_counts = counts@;
        let ghost prev_displs = displs@;
        counts.push((length * width) as i32);
        displs.push((start * width) as i32);
        assert forall|k: int|
            #![trigger counts@[k]]
            #![trigger displs@[k]]
            0 <= k < i + 1 implies {
            &&& counts@[k] == owned_len(global_size as nat, world_size as nat, k as nat) * width
            &&& displs@[k] == clamped_start(global_size as nat, world_size as nat, k as nat)
                * width
        } by {
            if k < i {
                assert(counts@[k] == prev_counts[k]);
                assert(displs@[k] == prev_displs[k]);
            }
        }
        i += 1;
    }
    Some((counts, displs))
}

/// One thing a rank does in the course of a step.
#[derive(Clone, Copy, PartialEq, Eq, Structural, Debug)]
pub enum RankAction {
    /// Take part in the broadcast of the whole body array from the root.
    Broadcast,
    /// Run the per-body pipeline on the bodies `start..end`.
    Update { start: usize, end: usize, shared_memory: bool },
    /// Take part in the gather that returns the bodies `start..end` to the
    /// root.
    Gather { start: usize, end: usize },
}

/// The step of a rank that was dealt `(start, end, flag)`: every rank first
/// receives the current bodies, then updates the bodies it owns, then hands
/// those same bodies back.
pub open spec fn step_plan(start: usize, end: usize, flag: bool, shared_memory: bool) -> Seq<
    RankAction,
> {
    let stop = owned_end(end as nat, flag) as usize;
    seq![
        RankAction::Broadcast,
        RankAction::Update { start, end: stop, shared_memory },
        RankAction::Gather { start, end: stop },
    ]
}

/// What the rank that was dealt `(s, t, flag)` does in one step, in order.
pub fn normal_procedure(s: usize, t: usize, flag: bool, with_openmp: bool) -> (plan: Vec<
    RankAction,
>)
    requires
        owned_end(t as nat, flag) <= usize::MAX,
    ensures
        plan@ == step_plan(s, t, flag, with_openmp),
{
    let stop: usize = if flag {
        t + 1
    } else {
        t
    };
    let mut plan: Vec<RankAction> = Vec::new();
    plan.push(RankAction::Broadcast);
    plan.push(RankAction::Update { start: s, end: stop, shared_memory: with_openmp });
    plan.push(RankAction::Gather { start: s, end: stop });
    assert(plan@ =~= step_plan(s, t, flag, with_openmp));
    plan
}

/// The frame loop of the root rank, not yet begun.
pub fn start_mpi_root(with_openmp: bool, benchmark: bool) -> (run: FrameLoop)
    ensures
        run == FrameLoop::fresh(
            Role::Root,
            Stepper::Distributed { shared_memory: with_openmp },
            benchmark,
        ),
{
    FrameLoop::new(Role::Root, Stepper::Distributed { shared_memory: with_openmp }, benchmark)
}

/// The loop of a rank other than the root, not yet begun. Such a rank renders
/// nothing and times nothing: it steps until the root announces the end.
pub fn start_mpi_child(with_openmp: bool) -> (run: FrameLoop)
    ensures
        run == FrameLoop::fresh(
            Role::Child,
            Stepper::Distributed { shared_memory: with_openmp },
            false,
        ),
{
    FrameLoop::new(Role::Child, Stepper::Distributed { shared_memory: with_openmp }, false)
}

} // verus!
