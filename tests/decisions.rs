use emma::heap_manager::{ForkFixup, LockStep, ThreadHeaps, TryLockOutcome};
use emma::layout::{plan_realloc, ReallocPlan};
use emma::mapping::{plan_alignment, AlignPlan, Shift};
use emma::timer::Timer;
use emma::wake_op::{wake_op_word, ArgumentTooLarge, FutexWakeOp, FutexWakeOpCmp};

#[test]
fn realloc_in_place_within_a_bin() {
    // 10000 and 10240 share the bin of 10240; 12000 lies in the next bin.
    assert_eq!(plan_realloc(10000, 8, 10240), ReallocPlan::Keep);
    assert_eq!(plan_realloc(10000, 8, 12000), ReallocPlan::Move { copy_len: 10000 });
    assert_eq!(plan_realloc(10000, 8, 100000), ReallocPlan::Move { copy_len: 10000 });
    assert_eq!(plan_realloc(100000, 8, 10000), ReallocPlan::Move { copy_len: 10000 });
    assert_eq!(plan_realloc(9, 8, 15), ReallocPlan::Keep);
    assert_eq!(plan_realloc(8, 8, 9), ReallocPlan::Move { copy_len: 8 });
    assert_eq!(plan_realloc(504, 8, 510), ReallocPlan::Move { copy_len: 504 });
}

#[test]
fn realloc_of_huge_mappings() {
    assert_eq!(plan_realloc(1 << 20, 8, (1 << 20) + 100), ReallocPlan::Grow {
        old_mapped: 1 << 20,
        new_mapped: (1 << 20) + 4096,
    });
    assert_eq!(plan_realloc(2 << 20, 8, 1 << 20), ReallocPlan::Shrink {
        old_mapped: 2 << 20,
        new_mapped: 1 << 20,
    });
    assert_eq!(plan_realloc(1 << 20, 8, (1 << 20) - 10), ReallocPlan::Keep);
}

#[test]
fn aligned_mapping_plans() {
    let a = 4 << 20;
    assert_eq!(plan_alignment(3 * a, a, a), AlignPlan::Aligned);
    let addr = 3 * a + 4096;
    assert_eq!(plan_alignment(addr, a, a), AlignPlan::Shift {
        up: Shift {
            fill_at: addr + a,
            fill_len: a - 4096,
            unmap_at: addr,
            unmap_len: a - 4096,
            result: 4 * a,
        },
        down: Some(Shift {
            fill_at: 3 * a,
            fill_len: 4096,
            unmap_at: 4 * a,
            unmap_len: 4096,
            result: 3 * a,
        }),
    });
    match plan_alignment(4096, a, a) {
        AlignPlan::Shift { up, down } => {
            assert_eq!(up.result, a);
            assert_eq!(down, None);
        }
        AlignPlan::Aligned => panic!("4096 is not aligned"),
    }
}

#[test]
fn fork_survival() {
    let mut heaps = ThreadHeaps::new();
    assert_eq!(heaps.fixup_fork(100, 101), ForkFixup { reassign_to: Some(100), take: None });
    assert_eq!(heaps.register(), 0);
    assert_eq!(heaps.register(), 1);
    assert_eq!(heaps.fixup_fork(100, 102), ForkFixup { reassign_to: None, take: None });
    // In the child, the surviving thread's id is the new pid.
    assert_eq!(heaps.fixup_fork(200, 200), ForkFixup { reassign_to: Some(200), take: Some(1) });
    assert_eq!(heaps.last_pid, 200);
    assert_eq!(heaps.fixup_fork(300, 301), ForkFixup { reassign_to: Some(300), take: None });
    assert_eq!(heaps.walk_order(), vec![1, 0]);
}

#[test]
fn lock_outcomes() {
    assert_eq!(ThreadHeaps::on_try_lock(TryLockOutcome::Acquired), LockStep::TakeClearing);
    assert_eq!(ThreadHeaps::on_try_lock(TryLockOutcome::Busy), LockStep::Next);
    assert_eq!(ThreadHeaps::on_try_lock(TryLockOutcome::OwnerGone), LockStep::Claim);
    assert_eq!(ThreadHeaps::on_try_lock(TryLockOutcome::HeldByCaller), LockStep::Take);
    assert_eq!(ThreadHeaps::on_try_lock(TryLockOutcome::Failed(12)), LockStep::Abort);
}

#[test]
fn wake_op_words() {
    assert_eq!(
        wake_op_word(FutexWakeOp::Store, FutexWakeOpCmp::Eq, 0, 0),
        Ok(0)
    );
    assert_eq!(
        wake_op_word(FutexWakeOp::AddShift, FutexWakeOpCmp::Gt, 5, 7),
        Ok((9 << 28) | (4 << 24) | (5 << 12) | 7)
    );
    assert_eq!(
        wake_op_word(FutexWakeOp::XOrShift, FutexWakeOpCmp::Ge, 4095, 4095),
        Ok((12 << 28) | (5 << 24) | (4095 << 12) | 4095)
    );
    assert_eq!(
        wake_op_word(FutexWakeOp::Or, FutexWakeOpCmp::Ne, 4096, 0),
        Err(ArgumentTooLarge)
    );
    assert_eq!(
        wake_op_word(FutexWakeOp::Or, FutexWakeOpCmp::Ne, 0, 4096),
        Err(ArgumentTooLarge)
    );
}

#[test]
fn timer_sums_and_resets() {
    let mut t = Timer::new();
    assert_eq!(t.elapsed_nanos(), 0);
    t.start();
    let mut x = 0u64;
    for i in 0..100_000u64 {
        x = x.wrapping_add(i * i);
    }
    assert!(x > 0);
    t.stop();
    let first = t.elapsed_nanos();
    t.start();
    t.stop();
    assert!(t.elapsed_nanos() >= first);
    t.reset();
    assert_eq!(t.elapsed_nanos(), 0);
}
