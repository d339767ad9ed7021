use std::collections::BTreeMap;

use emma::heap::{AllocOutcome, DeallocOutcome, Engine};
use rand::prelude::Distribution;
use rand::{Rng, SeedableRng};
use rand_distr::{Exp, Uniform};

const ARENA: usize = 4 << 20;

/// Drives an engine for one heap, standing in for the mapping layer with
/// made-up, suitably aligned addresses.
struct Driver {
    engine: Engine,
    heap: usize,
    next_arena: usize,
    next_huge: usize,
}

impl Driver {
    fn new() -> Driver {
        let mut engine = Engine::new();
        let heap = engine.new_heap();
        Driver { engine, heap, next_arena: 1 << 32, next_huge: 1 << 44 }
    }

    fn take(&mut self, size: usize, align: usize) -> usize {
        loop {
            match self.engine.allocate(self.heap, size, align) {
                AllocOutcome::Allocated(a) => return a,
                AllocOutcome::NeedArena { slot, object_size } => {
                    self.engine.add_arena(self.heap, slot, object_size, self.next_arena);
                    self.next_arena += ARENA;
                }
                AllocOutcome::Huge { mapped_size } => {
                    let a = (self.next_huge + align - 1) / align * align;
                    self.next_huge = a + mapped_size;
                    return a;
                }
            }
        }
    }

    fn free(&mut self, addr: usize, size: usize, align: usize) {
        let _ = self.engine.deallocate(self.heap as u64 + 1, addr, size, align);
    }
}

fn padded(size: usize, align: usize) -> usize {
    (size + align - 1) / align * align
}

fn check(objs: &[(usize, usize, usize)]) {
    let mut sorted = objs.to_vec();
    sorted.sort();
    for w in sorted.windows(2) {
        let (l, ls, la) = w[0];
        let (r, _, _) = w[1];
        assert_ne!(l, r, "The same object was allocated multiple times!");
        assert!(l + padded(ls, la) <= r);
    }
    for &(p, _, align) in objs {
        assert_eq!(p % align, 0);
    }
}

fn replace_nth(d: &mut Driver, objs: &mut [(usize, usize, usize)], n: usize, size: usize, align: usize) {
    for (i, o) in objs.iter_mut().enumerate() {
        if i % n == 0 {
            d.free(o.0, o.1, o.2);
            let p = d.take(size, align);
            *o = (p, size, align);
        }
    }
    check(objs);
}

fn churn(count: usize, size: usize, replacements: [(usize, usize, usize); 3]) {
    let mut d = Driver::new();
    let mut objs = Vec::with_capacity(count);
    for _ in 0..count {
        let p = d.take(size, 8);
        assert_eq!(p % 8, 0);
        objs.push((p, size, 8));
    }
    check(&objs);
    for (n, size, align) in replacements {
        replace_nth(&mut d, &mut objs, n, size, align);
    }
    for &(p, _, _) in &objs {
        assert!(d.engine.is_live(p));
    }
    for (p, size, align) in objs {
        d.free(p, size, align);
        assert!(!d.engine.is_live(p));
    }
}

#[test]
fn large_objects_main() {
    churn(10000, 10000, [(2, 12345, 32), (3, 11111, 16), (5, 10000, 8)]);
}

#[test]
fn small_objects_churn() {
    churn(100000, 10, [(2, 110, 32), (3, 60, 16), (5, 10, 8)]);
}

#[test]
fn rand_main() {
    const ITERATIONS: u64 = 100_000;

    let mut rng = rand_chacha::ChaChaRng::seed_from_u64(u64::from_be_bytes(*b"emmaEMMA"));

    let operation_dist = Uniform::new(0, 100).unwrap();
    let size_dist = Exp::<f64>::new(0.00075).unwrap();

    let mut d = Driver::new();
    let mut live: BTreeMap<usize, usize> = BTreeMap::new();
    let mut objs: Vec<(usize, usize)> = Vec::new();
    for _ in 0..ITERATIONS {
        let operation = operation_dist.sample(&mut rng);

        if objs.is_empty() || operation < 40 {
            // alloc
            let size = size_dist.sample(&mut rng).min(10000.).max(1.) as usize;
            let p = d.take(size, 8);
            assert_eq!(p % 8, 0);
            if let Some((&next, _)) = live.range(p..).next() {
                assert!(next >= p + size);
            }
            if let Some((&prev, &prev_size)) = live.range(..p).next_back() {
                assert!(prev + prev_size <= p);
            }
            live.insert(p, size);
            objs.push((p, size));
        } else if operation < 70 {
            // realloc
        } else {
            // dealloc
            let i = rng.random_range(0..objs.len());
            let (p, size) = objs[i];
            assert_eq!(live.remove(&p), Some(size));
            d.free(p, size, 8);
            objs.swap_remove(i);
        }
    }

    for (p, size) in objs.into_iter() {
        d.free(p, size, 8);
    }
}

// Exercises std's allocator as the process's allocator: the growth pattern
// of a vector that the engine's own bookkeeping also follows.
#[test]
fn simple_vecs() {
    let mut v = vec![1, 2, 3];
    let target = v.capacity() + 20;
    while v.len() < target {
        v.push(42);
    }

    let or = v.iter().fold(0, |acc, x| acc | x);
    assert_eq!(or, 42 | 1 | 2 | 3);
}

#[test]
fn alloc_dealloc() {
    let mut d = Driver::new();
    let p = d.take(8, 8);
    assert_ne!(p, 0);
    assert!(d.engine.is_live(p));
    assert_eq!(
        d.engine.deallocate(d.heap as u64 + 1, p, 8, 8),
        DeallocOutcome::Freed
    );
    assert!(!d.engine.is_live(p));
}

#[test]
fn first_allocation_asks_for_an_arena() {
    let mut e = Engine::new();
    let h = e.new_heap();
    assert_eq!(
        e.allocate(h, 10, 8),
        AllocOutcome::NeedArena { slot: 1, object_size: 16 }
    );
    e.add_arena(h, 1, 16, 1 << 32);
    // The first block of a small arena follows the metadata zone.
    assert_eq!(e.allocate(h, 10, 8), AllocOutcome::Allocated((1 << 32) + 4096));
    assert_eq!(e.allocate(h, 10, 8), AllocOutcome::Allocated((1 << 32) + 4096 + 16));
}

#[test]
fn freed_block_is_reused_first() {
    let mut d = Driver::new();
    let a = d.take(100, 8);
    let b = d.take(100, 8);
    assert_ne!(a, b);
    d.free(a, 100, 8);
    assert_eq!(d.take(100, 8), a);
    d.free(b, 100, 8);
    assert_eq!(d.take(100, 8), b);
}

#[test]
fn alignment_above_small_pages_goes_to_medium_pages() {
    let mut e = Engine::new();
    let h = e.new_heap();
    assert_eq!(
        e.allocate(h, 300, 512),
        AllocOutcome::NeedArena { slot: 64, object_size: 512 }
    );
    e.add_arena(h, 64, 512, 1 << 32);
    // The first block of a medium arena follows its 1 KiB metadata zone.
    assert_eq!(e.allocate(h, 300, 512), AllocOutcome::Allocated((1 << 32) + 1024));
    assert_eq!(e.allocate(h, 300, 512), AllocOutcome::Allocated((1 << 32) + 1536));
}

#[test]
fn huge_requests_bypass_the_arenas() {
    let mut e = Engine::new();
    let h = e.new_heap();
    assert_eq!(
        e.allocate(h, 1_000_000, 8),
        AllocOutcome::Huge { mapped_size: 1_003_520 }
    );
    assert_eq!(
        e.deallocate(1, 1 << 40, 1_000_000, 8),
        DeallocOutcome::Unmap { mapped_size: 1_003_520 }
    );
}

#[test]
fn large_alignment_is_honoured() {
    let mut d = Driver::new();
    for align in [16usize, 64, 256, 1024, 4096, 65536] {
        let p = d.take(align, align);
        assert_eq!(p % align, 0, "{align}");
        let q = d.take(3 * align, align);
        assert_eq!(q % align, 0, "{align}");
    }
}

#[test]
fn cross_heap_frees_are_adopted() {
    let mut e = Engine::new();
    let owner = e.new_heap();
    let other = e.new_heap();
    let mut base = 1usize << 32;
    let mut blocks = Vec::new();
    for _ in 0..200 {
        loop {
            match e.allocate(owner, 24, 8) {
                AllocOutcome::Allocated(a) => {
                    blocks.push(a);
                    break;
                }
                AllocOutcome::NeedArena { slot, object_size } => {
                    e.add_arena(owner, slot, object_size, base);
                    base += ARENA;
                }
                AllocOutcome::Huge { .. } => unreachable!(),
            }
        }
    }
    // Another heap frees them: they go to the foreign free lists.
    for &a in &blocks {
        assert_eq!(e.deallocate(other as u64 + 1, a, 24, 8), DeallocOutcome::Freed);
        assert!(!e.is_live(a));
    }
    // The owner takes them back once the blocks already on its local free
    // list (at most one OS page of them) are used up, before carving
    // anything new from the reserve.
    let mut again = Vec::new();
    for _ in 0..blocks.len() + 4096 / 24 {
        match e.allocate(owner, 24, 8) {
            AllocOutcome::Allocated(a) => again.push(a),
            other => panic!("{other:?}"),
        }
    }
    for a in &blocks {
        assert!(again.contains(a), "{a}");
    }
}
