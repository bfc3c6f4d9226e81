use vstd::prelude::*;
use crate::addr::page_base;
use crate::machine::{KERNEL_PHY_START, KERNEL_SPACE, PAGE_SIZE};
use crate::memory::{
    lemma_first_free, lemma_free_frame_valid, lemma_owner, lemma_owner_bounds,
    lemma_seed_region_valid, lemma_take_frame, FramePoolsView, MemoryRegion, PoolView,
    SimpleFramePool, POOL_FRAMES,
};

verus! {

/// Marking a range used and then free again gives back the pool that one
/// started from, where every frame of the range was free.
pub proof fn lemma_mark_used_then_free(pool: PoolView, start: int, end: int)
    requires
        forall|k: int| 0 <= k < pool.free.len() && start <= k < end ==> pool.free[k],
    ensures
        pool.mark_used(start, end).mark_free(start, end) == pool,
{
    assert(pool.mark_used(start, end).mark_free(start, end).free =~= pool.free);
}

/// Marking a range free and then used again gives back the pool that one
/// started from, where every frame of the range was used.
pub proof fn lemma_mark_free_then_used(pool: PoolView, start: int, end: int)
    requires
        forall|k: int| 0 <= k < pool.free.len() && start <= k < end ==> !pool.free[k],
    ensures
        pool.mark_free(start, end).mark_used(start, end) == pool,
{
    assert(pool.mark_free(start, end).mark_used(start, end).free =~= pool.free);
}

/// A pool whose frames are marked used and then free again over a range
/// that was free has the bitmap bytes that it had.
pub proof fn lemma_round_trip_restores_bytes(
    before: &SimpleFramePool,
    after: &SimpleFramePool,
    start: int,
    end: int,
)
    requires
        forall|k: int| 0 <= k < before@.free.len() && start <= k < end ==> before@.free[k],
        after@ == before@.mark_used(start, end).mark_free(start, end),
    ensures
        after.bytes() == before.bytes(),
{
    lemma_mark_used_then_free(before@, start, end);
    before.lemma_frames_determine_bytes(after);
}

/// A pool whose frames are marked free and then used again over a range
/// that was used has the bitmap bytes that it had.
pub proof fn lemma_reverse_round_trip_restores_bytes(
    before: &SimpleFramePool,
    after: &SimpleFramePool,
    start: int,
    end: int,
)
    requires
        forall|k: int| 0 <= k < before@.free.len() && start <= k < end ==> !before@.free[k],
        after@ == before@.mark_free(start, end).mark_used(start, end),
    ensures
        after.bytes() == before.bytes(),
{
    lemma_mark_free_then_used(before@, start, end);
    before.lemma_frames_determine_bytes(after);
}

/// One call on a frame pool: an allocation, or the release of the frame
/// with the given index.
pub enum FrameOp {
    Allocate,
    Free { frame: int },
}

/// The pool and the set of frames that are allocated and not yet freed,
/// after the call `op`.
pub open spec fn step_frame_op(pool: PoolView, live: Set<int>, op: FrameOp) -> (PoolView, Set<int>) {
    match op {
        FrameOp::Allocate => if pool.exhausted() {
            (pool, live)
        } else {
            let k = pool.first_free();
            (pool.mark_used(k, k + 1), live.insert(k))
        },
        FrameOp::Free { frame } => (pool.mark_free(frame, frame + 1), live.remove(frame)),
    }
}

/// The pool and the set of frames that are allocated and not yet freed,
/// after the calls `ops` in their order.
pub open spec fn run_frame_ops(pool: PoolView, ops: Seq<FrameOp>) -> (PoolView, Set<int>)
    decreases ops.len(),
{
    if ops.len() == 0 {
        (pool, Set::empty())
    } else {
        let (before, live) = run_frame_ops(pool, ops.drop_last());
        step_frame_op(before, live, ops.last())
    }
}

/// Whatever calls were made on a pool, every frame that is allocated and
/// not yet freed is marked used.
pub proof fn lemma_live_frames_used(pool: PoolView, ops: Seq<FrameOp>)
    requires
        pool.wf(),
    ensures
        run_frame_ops(pool, ops).0.wf(),
        run_frame_ops(pool, ops).0.base == pool.base,
        forall|k: int| #[trigger]
            run_frame_ops(pool, ops).1.contains(k) ==> 0 <= k < POOL_FRAMES && !run_frame_ops(
                pool,
                ops,
            ).0.free[k],
    decreases ops.len(),
{
    if ops.len() > 0 {
        lemma_live_frames_used(pool, ops.drop_last());
        let (before, live) = run_frame_ops(pool, ops.drop_last());
        lemma_first_free(before);
    }
}

/// Whatever calls were made on a pool, an allocation that follows them
/// returns a frame, and so an address, that no allocation still holds.
pub proof fn lemma_allocations_exclusive(pool: PoolView, ops: Seq<FrameOp>)
    requires
        pool.wf(),
        !run_frame_ops(pool, ops).0.exhausted(),
    ensures
        ({
            let (now, live) = run_frame_ops(pool, ops);
            let k = now.first_free();
            &&& !live.contains(k)
            &&& forall|j: int| #[trigger] live.contains(j) ==> now.frame_addr(j) != now.frame_addr(k)
        }),
{
    lemma_live_frames_used(pool, ops);
    lemma_first_free(run_frame_ops(pool, ops).0);
}

/// Whether the frame at the physical address `addr` is a frame of the pool
/// that is marked used.
pub open spec fn holds_used(pool: PoolView, addr: int) -> bool {
    &&& pool.covers(addr)
    &&& pool.frame_addr(pool.frame_index(addr)) == addr
    &&& !pool.free[pool.frame_index(addr)]
}

/// Whether every frame of `live` is marked used in the pool that handed it
/// out: the system pool for a frame of the kernel's memory, else the user
/// pool.
pub open spec fn live_frames_used(pools: FramePoolsView, live: Set<int>) -> bool {
    forall|a: int| #[trigger]
        live.contains(a) ==> {
            ||| pools.system is Some && holds_used(pools.pools[pools.system->0 as int], a) && a
                < KERNEL_SPACE
            ||| pools.user is Some && holds_used(pools.pools[pools.user->0 as int], a)
        }
}

/// One call on the frame pools: a request for a frame of the kernel or of
/// the user pool, or the return of the frame that holds `addr`.
pub enum PoolsOp {
    Get { kernel: bool },
    Free { addr: u64 },
}

/// The pools and the set of frames that were handed out and not returned,
/// after the call `op`. A frame counts by its physical address, also where
/// it was handed out by its address in the kernel's linear mapping.
pub open spec fn step_pools_op(pools: FramePoolsView, live: Set<int>, op: PoolsOp) -> (
    FramePoolsView,
    Set<int>,
) {
    match op {
        PoolsOp::Get { kernel } => if pools.can_get(kernel) {
            (pools.take_frame(kernel), live.insert(pools.next_frame(kernel)))
        } else {
            (pools, live)
        },
        PoolsOp::Free { addr } => (pools.free_frame(addr), live.remove(page_base(addr))),
    }
}

/// The pools and the set of frames that were handed out and not returned,
/// after the calls `ops` in their order.
pub open spec fn run_pools_ops(pools: FramePoolsView, ops: Seq<PoolsOp>) -> (
    FramePoolsView,
    Set<int>,
)
    decreases ops.len(),
{
    if ops.len() == 0 {
        (pools, Set::empty())
    } else {
        let (before, live) = run_pools_ops(pools, ops.drop_last());
        step_pools_op(before, live, ops.last())
    }
}

/// The frame that a pool finds for an address it covers is the frame that
/// holds the address.
proof fn lemma_frame_of_addr(pool: PoolView, addr: u64)
    requires
        pool.wf(),
        pool.covers(addr as int),
    ensures
        0 <= pool.frame_index(addr as int) < POOL_FRAMES,
        pool.frame_addr(pool.frame_index(addr as int)) == page_base(addr),
{
}

/// Every frame of a pool is found again by its address.
pub proof fn lemma_addr_of_frame(pool: PoolView, k: int)
    requires
        pool.wf(),
        0 <= k < POOL_FRAMES,
    ensures
        pool.covers(pool.frame_addr(k)),
        pool.frame_index(pool.frame_addr(k)) == k,
        pool.frame_addr(k) % (PAGE_SIZE as int) == 0,
{
}

/// One call keeps the pools valid, keeps every frame that is out marked
/// used, and hands out no frame that is out.
proof fn lemma_step(pools: FramePoolsView, live: Set<int>, op: PoolsOp)
    requires
        pools.wf(),
        live_frames_used(pools, live),
    ensures
        step_pools_op(pools, live, op).0.wf(),
        live_frames_used(step_pools_op(pools, live, op).0, step_pools_op(pools, live, op).1),
        op matches PoolsOp::Get { kernel } ==> (pools.can_get(kernel) ==> !live.contains(
            pools.next_frame(kernel),
        )),
{
    let (after, out) = step_pools_op(pools, live, op);
    match op {
        PoolsOp::Get { kernel } => {
            if pools.can_get(kernel) {
                lemma_take_frame(pools, kernel);
                let i = pools.pool_of(kernel)->0 as int;
                let pool = pools.pools[i];
                let k = pool.first_free();
                lemma_first_free(pool);
                assert(pool.wf());
                lemma_addr_of_frame(pool, k);
                let a = pool.frame_addr(k);
                if live.contains(a) {
                    if pools.system is Some && holds_used(
                        pools.pools[pools.system->0 as int],
                        a,
                    ) && a < KERNEL_SPACE {
                        assert(pools.pools[pools.system->0 as int].wf());
                    } else {
                        assert(pools.pools[pools.user->0 as int].wf());
                    }
                    assert(false);
                }
                assert forall|b: int| #[trigger] out.contains(b) implies {
                    ||| after.system is Some && holds_used(after.pools[after.system->0 as int], b)
                        && b < KERNEL_SPACE
                    ||| after.user is Some && holds_used(after.pools[after.user->0 as int], b)
                } by {
                    if b != a {
                        assert(live.contains(b));
                    }
                }
            }
        },
        PoolsOp::Free { addr } => {
            lemma_free_frame_valid(pools, addr);
            if pools.owns(addr) {
                let s = pools.system->0 as int;
                let o = pools.owner(s, addr);
                lemma_owner_bounds(pools, s, addr);
                lemma_owner(pools, addr);
                let pool = pools.pools[o];
                assert(pool.wf());
                lemma_frame_of_addr(pool, addr);
                assert forall|b: int| #[trigger] out.contains(b) implies {
                    ||| after.system is Some && holds_used(after.pools[after.system->0 as int], b)
                        && b < KERNEL_SPACE
                    ||| after.user is Some && holds_used(after.pools[after.user->0 as int], b)
                } by {
                    assert(live.contains(b));
                    assert(b != page_base(addr));
                }
            } else {
                assert forall|b: int| #[trigger] out.contains(b) implies {
                    ||| after.system is Some && holds_used(after.pools[after.system->0 as int], b)
                        && b < KERNEL_SPACE
                    ||| after.user is Some && holds_used(after.pools[after.user->0 as int], b)
                } by {
                    assert(live.contains(b));
                }
            }
        },
    }
}

/// Whatever calls were made on valid frame pools: the pools are valid, and
/// every frame that is out is marked used.
pub proof fn lemma_frames_out_are_used(pools: FramePoolsView, ops: Seq<PoolsOp>)
    requires
        pools.wf(),
    ensures
        run_pools_ops(pools, ops).0.wf(),
        live_frames_used(run_pools_ops(pools, ops).0, run_pools_ops(pools, ops).1),
    decreases ops.len(),
{
    if ops.len() > 0 {
        lemma_frames_out_are_used(pools, ops.drop_last());
        let (before, live) = run_pools_ops(pools, ops.drop_last());
        lemma_step(before, live, ops.last());
    }
}

/// Whatever frames were requested from and returned to valid frame pools,
/// the frame that the next request takes, of either pool, is none of the
/// frames that are out: no two allocations that are both live have the
/// same frame. A kernel frame lies in the kernel's own memory and a frame
/// of the user pool above it.
pub proof fn lemma_frames_exclusive(pools: FramePoolsView, ops: Seq<PoolsOp>, kernel: bool)
    requires
        pools.wf(),
        run_pools_ops(pools, ops).0.can_get(kernel),
    ensures
        !run_pools_ops(pools, ops).1.contains(run_pools_ops(pools, ops).0.next_frame(kernel)),
        kernel ==> KERNEL_PHY_START <= run_pools_ops(pools, ops).0.next_frame(kernel)
            < KERNEL_SPACE,
        !kernel ==> KERNEL_SPACE <= run_pools_ops(pools, ops).0.next_frame(kernel),
{
    lemma_frames_out_are_used(pools, ops);
    let (now, live) = run_pools_ops(pools, ops);
    lemma_step(now, live, PoolsOp::Get { kernel });
    lemma_take_frame(now, kernel);
}

/// The frame pools that are set up from a memory map are valid.
pub proof fn lemma_seeded_pools_are_valid(regions: Seq<MemoryRegion>)
    requires
        FramePoolsView::seed(regions) is Ok,
    ensures
        FramePoolsView::seed(regions)->Ok_0.wf(),
    decreases regions.len(),
{
    if regions.len() > 0 {
        lemma_seeded_pools_are_valid(regions.drop_last());
        lemma_seed_region_valid(FramePoolsView::seed(regions.drop_last())->Ok_0, regions.last());
    }
}

} // verus!
