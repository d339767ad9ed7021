//! Heaps: each heap keeps, per size class, a chain of pages bound to that
//! class (most recently used first) and reserves of unbound small and
//! medium pages. All arenas live in one table so that a block freed by any
//! heap finds its page from its address alone.
use crate::arena::{
    kind_max_align, kind_num_pages, kind_page_size, lemma_page_geometry,
    new_slab_pages, page_end_of, page_index_of, page_start_of, Arena, ArenaKind,
    LARGE_METADATA_ZONE, MEDIUM_PAGE_SIZE, SMALL_PAGE_SIZE,
};
use crate::bins::{
    bin_slot, class_block_size, class_object_size, class_slot, is_pow2, lemma_class_slot, pad_to,
    pad_to_align, size_class, size_class_of, slot_object_size, SizeClass, FIRST_LARGE_SLOT,
    FIRST_MEDIUM_SLOT, NUM_BINS,
};
use crate::slab::{SlabPage, ARENA_SIZE};
use vstd::prelude::*;

verus! {

/// A page of the arena table: `pages[page]` of `arenas[arena]`.
#[derive(PartialEq, Eq, Structural, Clone, Copy, Debug)]
pub struct PageRef {
    pub arena: usize,
    pub page: usize,
}

/// The bins and reserves of one heap.
pub struct Heap {
    /// Identifier of the heap; never zero.
    pub id: u64,
    /// One chain of bound pages per bin, head first.
    pub bins: Vec<Vec<PageRef>>,
    /// Unbound pages of small-object arenas; the next one is the last.
    pub small_object_reserve: Vec<PageRef>,
    /// Unbound pages of medium-object arenas; the next one is the last.
    pub medium_object_reserve: Vec<PageRef>,
}

/// The arena table together with every heap.
pub struct Engine {
    pub arenas: Vec<Arena>,
    pub heaps: Vec<Heap>,
}

/// What a deallocation came to.
#[derive(PartialEq, Eq, Structural, Clone, Copy, Debug)]
pub enum DeallocOutcome {
    /// The block went back to its page.
    Freed,
    /// The block is a mapping of its own, of `mapped_size` bytes, to unmap.
    Unmap { mapped_size: usize },
}

/// What an allocation request came to.
#[derive(PartialEq, Eq, Structural, Clone, Copy, Debug)]
pub enum AllocOutcome {
    /// The block at this address is now the caller's.
    Allocated(usize),
    /// The bin and the reserve it draws from are exhausted: an arena must be
    /// mapped for bin `slot` (see [`Engine::add_arena`]) before asking again.
    NeedArena { slot: usize, object_size: u32 },
    /// The request is served by a mapping of its own, of `mapped_size`
    /// bytes.
    Huge { mapped_size: usize },
}

/// The flavour of arena that serves heap bin `slot`.
pub open spec fn slot_kind(slot: int) -> ArenaKind {
    if slot < FIRST_MEDIUM_SLOT {
        ArenaKind::Small
    } else if slot < FIRST_LARGE_SLOT {
        ArenaKind::Medium
    } else {
        ArenaKind::Large
    }
}

/// The page references `(arena, n-1), (arena, n-2), ...`, `m` of them:
/// the pages of a fresh arena of `n` pages in the order they join a
/// reserve, so that page `0` is taken first.
pub open spec fn fresh_refs(arena: int, n: int, m: int) -> Seq<PageRef> {
    Seq::new(m as nat, |k: int| PageRef { arena: arena as usize, page: (n - 1 - k) as usize })
}

impl Engine {
    pub open spec fn ref_ok(self, r: PageRef) -> bool {
        &&& r.arena < self.arenas@.len()
        &&& r.page < self.arenas@[r.arena as int].pages@.len()
    }

    pub open spec fn page_at(self, r: PageRef) -> SlabPage {
        self.arenas@[r.arena as int].pages@[r.page as int]
    }

    /// Entry `r` of bin `slot` of heap `h` is a page of the right flavour
    /// bound to the bin's object size, in an arena the heap owns.
    pub open spec fn bin_entry_ok(self, h: int, slot: int, r: PageRef) -> bool {
        &&& self.ref_ok(r)
        &&& self.arenas@[r.arena as int].kind == slot_kind(slot)
        &&& self.arenas@[r.arena as int].owner == self.heaps@[h].id
        &&& self.page_at(r).is_bound()
        &&& self.page_at(r).object_size == slot_object_size(slot)
    }

    /// Entry `r` of a reserve of heap `h` is an unbound page of flavour
    /// `kind` in an arena the heap owns.
    pub open spec fn reserve_entry_ok(self, h: int, kind: ArenaKind, r: PageRef) -> bool {
        &&& self.ref_ok(r)
        &&& self.arenas@[r.arena as int].kind == kind
        &&& self.arenas@[r.arena as int].owner == self.heaps@[h].id
        &&& !self.page_at(r).is_bound()
    }

    pub open spec fn heap_wf(self, h: int) -> bool {
        let heap = self.heaps@[h];
        &&& heap.id == h + 1
        &&& heap.bins@.len() == NUM_BINS
        &&& forall|slot: int, k: int|
            0 <= slot < NUM_BINS && 0 <= k < heap.bins@[slot]@.len() ==> self.bin_entry_ok(
                h,
                slot,
                #[trigger] heap.bins@[slot]@[k],
            )
        &&& forall|k: int|
            0 <= k < heap.small_object_reserve@.len() ==> self.reserve_entry_ok(
                h,
                ArenaKind::Small,
                #[trigger] heap.small_object_reserve@[k],
            )
        &&& forall|k: int|
            0 <= k < heap.medium_object_reserve@.len() ==> self.reserve_entry_ok(
                h,
                ArenaKind::Medium,
                #[trigger] heap.medium_object_reserve@[k],
            )
        &&& heap.small_object_reserve@.no_duplicates()
        &&& heap.medium_object_reserve@.no_duplicates()
    }

    pub open spec fn wf(self) -> bool {
        &&& forall|i: int| 0 <= i < self.arenas@.len() ==> (#[trigger] self.arenas@[i]).wf()
        &&& forall|i: int, j: int|
            0 <= i < self.arenas@.len() && 0 <= j < self.arenas@.len() && i != j
                ==> #[trigger] self.arenas@[i].base != #[trigger] self.arenas@[j].base
        &&& forall|i: int|
            0 <= i < self.arenas@.len() ==> 1 <= #[trigger] self.arenas@[i].owner <= self.heaps@.len()
        &&& self.heaps@.len() < u64::MAX
        &&& forall|h: int| 0 <= h < self.heaps@.len() ==> #[trigger] self.heap_wf(h)
    }

    /// Addresses of all live blocks of all arenas.
    pub open spec fn live(self) -> Set<int> {
        Set::new(
            |a: int| exists|i: int| 0 <= i < self.arenas@.len() && (#[trigger] self.arenas@[i]).live().contains(a),
        )
    }

    /// An engine with no arenas and no heaps.
    pub fn new() -> (r: Engine)
        ensures
            r.wf(),
            r.arenas@.len() == 0,
            r.heaps@.len() == 0,
            r.live() == Set::<int>::empty(),
    {
        let r = Engine { arenas: Vec::new(), heaps: Vec::new() };
        proof {
            assert(r.live() =~= Set::<int>::empty());
        }
        r
    }

    /// Adds a heap with empty bins and reserves; returns its index. Its
    /// identifier is the index plus one.
    pub fn new_heap(&mut self) -> (h: usize)
        requires
            old(self).wf(),
            old(self).heaps@.len() < u64::MAX - 1,
        ensures
            final(self).wf(),
            h == old(self).heaps@.len(),
            final(self).heaps@.len() == old(self).heaps@.len() + 1,
            final(self).heaps@[h as int].id == h + 1,
            final(self).heaps@.drop_last() == old(self).heaps@,
            final(self).heaps@[h as int].bins@.len() == NUM_BINS,
            forall|b: int| 0 <= b < NUM_BINS ==> (#[trigger] final(self).heaps@[h as int].bins@[b])@.len() == 0,
            final(self).heaps@[h as int].small_object_reserve@.len() == 0,
            final(self).heaps@[h as int].medium_object_reserve@.len() == 0,
            final(self).arenas@ == old(self).arenas@,
            final(self).live() == old(self).live(),
    {
        let h = self.heaps.len();
        let mut bins: Vec<Vec<PageRef>> = Vec::new();
        let mut k: usize = 0;
        while k < NUM_BINS
            invariant
                k <= NUM_BINS,
                bins@.len() == k,
                forall|i: int| 0 <= i < k ==> (#[trigger] bins@[i])@.len() == 0,
            decreases NUM_BINS - k,
        {
            bins.push(Vec::new());
            k = k + 1;
        }
        let heap = Heap {
            id: h as u64 + 1,
            bins,
            small_object_reserve: Vec::new(),
            medium_object_reserve: Vec::new(),
        };
        let ghost pre = *self;
        self.heaps.push(heap);
        proof {
            assert forall|g: int| 0 <= g < self.heaps@.len() implies #[trigger] self.heap_wf(g) by {
                if g < h {
                    assert(pre.heap_wf(g));
                    assert(self.heaps@[g] == pre.heaps@[g]);
                }
            }
            assert forall|i: int| 0 <= i < self.arenas@.len() implies 1 <= #[trigger] self.arenas@[i].owner
                <= self.heaps@.len() by {
                assert(pre.arenas@[i].owner <= pre.heaps@.len());
            }
            assert(self.live() =~= pre.live());
            assert(self.heaps@.drop_last() =~= pre.heaps@);
        }
        h
    }

    /// The index of the arena that starts at `base`, if any.
    pub fn arena_at(&self, base: usize) -> (r: Option<usize>)
        requires
            self.wf(),
        ensures
            r matches Some(i) ==> i < self.arenas@.len() && self.arenas@[i as int].base == base,
            r is None ==> forall|i: int| 0 <= i < self.arenas@.len() ==> self.arenas@[i].base != base,
    {
        let mut i: usize = 0;
        while i < self.arenas.len()
            invariant
                i <= self.arenas@.len(),
                forall|j: int| 0 <= j < i ==> self.arenas@[j].base != base,
            decreases self.arenas@.len() - i,
        {
            if self.arenas[i].base == base {
                return Some(i);
            }
            i = i + 1;
        }
        None
    }

    /// The index of the arena whose range holds address `a`.
    pub open spec fn arena_of(self, a: int) -> int {
        choose|i: int|
            0 <= i < self.arenas@.len() && (#[trigger] self.arenas@[i]).base <= a < self.arenas@[i].base
                + ARENA_SIZE
    }

    /// The page that holds live address `a`.
    pub open spec fn page_of(self, a: int) -> SlabPage {
        let arena = self.arenas@[self.arena_of(a)];
        arena.pages@[page_index_of(arena.kind, a - arena.base)]
    }

    /// The size of the block at live address `a`.
    pub open spec fn block_size(self, a: int) -> int {
        self.page_of(a).object_size as int
    }

    /// The page whose range holds address `a`.
    pub open spec fn ref_of(self, a: int) -> PageRef {
        let i = self.arena_of(a);
        let arena = self.arenas@[i];
        PageRef { arena: i as usize, page: page_index_of(arena.kind, a - arena.base) as usize }
    }

    /// The block the next allocation from bin `slot` of heap `h` takes
    /// first: the head of the local free list of the bin's head page.
    pub open spec fn next_reuse(self, h: int, slot: int) -> Option<int> {
        let bin = self.heaps@[h].bins@[slot]@;
        if bin.len() > 0 && self.page_at(bin[0]).free_list@.len() > 0 {
            Some(self.arenas@[bin[0].arena as int].base + self.page_at(bin[0]).free_list@.last())
        } else {
            None
        }
    }

    /// Every arena keeps its base, flavour and page count, and every bound
    /// page its object size, from `self` to `post`.
    pub open spec fn keeps_blocks(self, post: Engine) -> bool {
        &&& post.arenas@.len() == self.arenas@.len()
        &&& forall|i: int|
            0 <= i < self.arenas@.len() ==> {
                &&& (#[trigger] post.arenas@[i]).base == self.arenas@[i].base
                &&& post.arenas@[i].kind == self.arenas@[i].kind
                &&& post.arenas@[i].pages@.len() == self.arenas@[i].pages@.len()
            }
        &&& forall|i: int, j: int|
            0 <= i < self.arenas@.len() && 0 <= j < self.arenas@[i].pages@.len()
                && (#[trigger] self.arenas@[i].pages@[j]).is_bound() ==> post.arenas@[i].pages@[j].object_size
                == self.arenas@[i].pages@[j].object_size
    }

    /// `k` is the first entry of bin `slot` of heap `h` whose page has room.
    pub open spec fn first_with_room(self, h: int, slot: int, k: int) -> bool {
        let bin = self.heaps@[h].bins@[slot]@;
        &&& 0 <= k < bin.len()
        &&& self.page_at(bin[k]).can_alloc()
        &&& forall|q: int| 0 <= q < k ==> !(#[trigger] self.page_at(bin[q])).can_alloc()
    }

    /// The reserve that bin `slot` draws from (none for the large bins).
    pub open spec fn reserve_for(self, h: int, slot: int) -> Seq<PageRef> {
        if slot_kind(slot) == ArenaKind::Small {
            self.heaps@[h].small_object_reserve@
        } else if slot_kind(slot) == ArenaKind::Medium {
            self.heaps@[h].medium_object_reserve@
        } else {
            Seq::empty()
        }
    }

    /// `post` has the heaps of `self`, except that bin `slot` of heap `h`
    /// is `bin` and its reserves are `small` and `medium`.
    pub open spec fn heaps_become(
        self,
        post: Engine,
        h: int,
        slot: int,
        bin: Seq<PageRef>,
        small: Seq<PageRef>,
        medium: Seq<PageRef>,
    ) -> bool {
        &&& post.heaps@.len() == self.heaps@.len()
        &&& forall|g: int| 0 <= g < self.heaps@.len() && g != h ==> post.heaps@[g] == self.heaps@[g]
        &&& post.heaps@[h].id == self.heaps@[h].id
        &&& post.heaps@[h].bins@.len() == self.heaps@[h].bins@.len()
        &&& forall|b: int|
            0 <= b < self.heaps@[h].bins@.len() && b != slot ==> (#[trigger] post.heaps@[h].bins@[b])@
                == self.heaps@[h].bins@[b]@
        &&& post.heaps@[h].bins@[slot]@ == bin
        &&& post.heaps@[h].small_object_reserve@ == small
        &&& post.heaps@[h].medium_object_reserve@ == medium
    }

    /// Heap `h` can serve bin `slot` without a new arena.
    pub open spec fn can_serve(self, h: int, slot: int) -> bool {
        let heap = self.heaps@[h];
        ||| exists|k: int|
            0 <= k < heap.bins@[slot]@.len() && (#[trigger] self.page_at(heap.bins@[slot]@[k])).can_alloc()
        ||| slot_kind(slot) == ArenaKind::Small && heap.small_object_reserve@.len() > 0
        ||| slot_kind(slot) == ArenaKind::Medium && heap.medium_object_reserve@.len() > 0
    }

    /// Takes one block from page `r`, which has room.
    fn alloc_from_page(&mut self, r: PageRef) -> (a: usize)
        requires
            old(self).wf(),
            old(self).ref_ok(r),
            old(self).page_at(r).is_bound(),
            old(self).page_at(r).can_alloc(),
        ensures
            final(self).wf(),
            final(self).heaps@ == old(self).heaps@,
            final(self).arenas@.len() == old(self).arenas@.len(),
            !old(self).live().contains(a as int),
            final(self).live() == old(self).live().insert(a as int),
            final(self).block_size(a as int) == old(self).page_at(r).object_size,
            final(self).page_at(r).object_size == old(self).page_at(r).object_size,
            final(self).arena_of(a as int) == r.arena,
            final(self).ref_of(a as int) == r,
            old(self).keeps_blocks(*final(self)),
            final(self).arenas@[r.arena as int].kind == old(self).arenas@[r.arena as int].kind,
            old(self).page_at(r).free_list@.len() > 0 ==> a == old(self).arenas@[r.arena as int].base
                + old(self).page_at(r).free_list@.last(),
    {
        let ghost pre = *self;
        let ghost ri = r.arena as int;
        let ghost old_page = pre.page_at(r);
        proof {
            assert(pre.arenas@[ri].wf());
        }
        let res = self.arenas[r.arena].pages[r.page].alloc_object();
        let o = res.unwrap();
        let base = self.arenas[r.arena].base;
        let ghost np = self.page_at(r);
        proof {
            assert(self.arenas@[ri].pages@ =~= pre.arenas@[ri].pages@.update(r.page as int, np));
            lemma_page_changed(pre, *self, r, np);
            lemma_one_page_keeps(pre, *self, r, np);
            np.lemma_carved_range(o as int);
            let kind = pre.arenas@[ri].kind;
            lemma_page_geometry(kind, r.page as int);
            assert(pre.in_page(r, base + o));
            let a = base + o;
            assert(!pre.live().contains(a));
            assert(old_page == pre.arenas@[ri].pages@[r.page as int]);
            assert forall|x: int| #[trigger] self.live().contains(x) == pre.live().insert(a).contains(x) by {
                if pre.in_page(r, x) {
                    assert(np.live().contains(x - base) == old_page.live().insert(o as int).contains(x - base));
                    assert(pre.live().contains(x) == old_page.is_live(x - base));
                    assert(self.live().contains(x) == np.is_live(x - base));
                }
            }
            assert(self.live() =~= pre.live().insert(a));
            assert(self.arenas@[ri].live().contains(a));
            let i = self.arena_of(a);
            lemma_same_arena(self.arenas@[i].base as int, base as int, a);
            assert(self.arenas@[i].base == base);
            assert(i == ri);
            assert(page_index_of(kind, a - base) == r.page);
        }
        base + o as usize
    }

    /// Serves `size` bytes aligned to `align` for heap `h`: from the first
    /// page of the bin that has room (which then moves to the head of the
    /// bin), else from a reserve page bound to the bin's size, else it asks
    /// for an arena; huge requests are handed back for a mapping of their
    /// own.
    pub fn allocate(&mut self, h: usize, size: usize, align: usize) -> (r: AllocOutcome)
        requires
            old(self).wf(),
            h < old(self).heaps@.len(),
            size >= 1,
            is_pow2(align as nat),
            size + align + 4096 <= usize::MAX,
        ensures
            final(self).wf(),
            final(self).heaps@.len() == old(self).heaps@.len(),
            final(self).arenas@.len() == old(self).arenas@.len(),
            ({
                let c = size_class_of(pad_to(size as nat, align as nat), align as nat);
                let slot = class_slot(c);
                let bin = old(self).heaps@[h as int].bins@[slot]@;
                let small = old(self).heaps@[h as int].small_object_reserve@;
                let medium = old(self).heaps@[h as int].medium_object_reserve@;
                match r {
                    AllocOutcome::Allocated(a) => {
                        &&& !(c is Huge)
                        &&& old(self).can_serve(h as int, slot)
                        &&& !old(self).live().contains(a as int)
                        &&& final(self).live() == old(self).live().insert(a as int)
                        &&& final(self).block_size(a as int) == class_block_size(c)
                        &&& final(self).block_size(a as int) >= size
                        &&& a as int % align as int == 0
                        &&& old(self).keeps_blocks(*final(self))
                        &&& forall|x: int|
                            #[trigger] old(self).live().contains(x) ==> final(self).block_size(x) == old(
                                self,
                            ).block_size(x)
                        &&& final(self).heaps@[h as int].bins@[slot]@.len() > 0
                        &&& final(self).heaps@[h as int].bins@[slot]@[0] == final(self).ref_of(a as int)
                        // The first page of the chain with room serves and moves to the head.
                        &&& (exists|k: int| old(self).first_with_room(h as int, slot, k)) ==> exists|k: int|
                            #[trigger] old(self).first_with_room(h as int, slot, k) && final(self).ref_of(a as int)
                                == bin[k] && old(self).heaps_become(
                                *final(self),
                                h as int,
                                slot,
                                bin.remove(k).insert(0, bin[k]),
                                small,
                                medium,
                            )
                        // Else the last reserve page is bound and put at the head.
                        &&& !(exists|k: int| old(self).first_with_room(h as int, slot, k)) ==> {
                            let rs = old(self).reserve_for(h as int, slot);
                            &&& rs.len() > 0
                            &&& final(self).ref_of(a as int) == rs.last()
                            &&& old(self).heaps_become(
                                *final(self),
                                h as int,
                                slot,
                                bin.insert(0, rs.last()),
                                if slot_kind(slot) == ArenaKind::Small {
                                    small.drop_last()
                                } else {
                                    small
                                },
                                if slot_kind(slot) == ArenaKind::Medium {
                                    medium.drop_last()
                                } else {
                                    medium
                                },
                            )
                        }
                    },
                    AllocOutcome::NeedArena { slot: sl, object_size } => {
                        &&& !(c is Huge)
                        &&& sl == slot
                        &&& object_size == class_block_size(c)
                        &&& !old(self).can_serve(h as int, slot)
                        &&& *final(self) == *old(self)
                    },
                    AllocOutcome::Huge { mapped_size } => {
                        &&& c is Huge
                        &&& mapped_size == class_block_size(c)
                        &&& *final(self) == *old(self)
                    },
                }
            }),
            ({
                let c = size_class_of(pad_to(size as nat, align as nat), align as nat);
                !(c is Huge) ==> (r is NeedArena <==> !old(self).can_serve(h as int, class_slot(c)))
            }),
            ({
                let c = size_class_of(pad_to(size as nat, align as nat), align as nat);
                !(c is Huge) && old(self).next_reuse(h as int, class_slot(c)) is Some ==> r
                    == AllocOutcome::Allocated(old(self).next_reuse(h as int, class_slot(c)).unwrap() as usize)
            }),
    {
        proof {
            crate::bins::lemma_pow2_positive(align as nat);
        }
        let s = pad_to_align(size, align);
        proof {
            vstd::arithmetic::div_mod::lemma_fundamental_div_mod(s as int, 4096);
            assert(pad_to(s as nat, 4096) <= usize::MAX) by {
                crate::bins::lemma_pad_bound(s as nat, 4096);
            }
        }
        let c = size_class(s, align);
        if let SizeClass::Huge { mapped_size } = c {
            return AllocOutcome::Huge { mapped_size };
        }
        proof {
            lemma_class_slot(s as nat, align as nat);
        }
        let slot = bin_slot(c);
        let object_size = class_object_size(c);
        let ghost pre = *self;
        proof {
            assert(pre.heap_wf(h as int));
        }
        let len = self.heaps[h].bins[slot].len();
        let mut k: usize = 0;
        while k < len
            invariant
                *self == pre,
                pre == *old(self),
                pre.wf(),
                h < pre.heaps@.len(),
                pre.heap_wf(h as int),
                c == size_class_of(pad_to(size as nat, align as nat), align as nat),
                s as nat == pad_to(size as nat, align as nat),
                1 <= s <= crate::bins::LARGE_CUTOFF,
                s as nat % align as nat == 0,
                is_pow2(align as nat),
                s >= size,
                class_block_size(c) >= s,
                !(c is Huge),
                slot == class_slot(c),
                object_size == class_block_size(c),
                slot_object_size(slot as int) == class_block_size(c),
                class_block_size(c) <= 2048 || slot >= FIRST_LARGE_SLOT,
                slot < NUM_BINS,
                len == pre.heaps@[h as int].bins@[slot as int]@.len(),
                k <= len,
                forall|q: int|
                    0 <= q < k ==> !(#[trigger] pre.page_at(pre.heaps@[h as int].bins@[slot as int]@[q])).can_alloc(),
            decreases len - k,
        {
            let r = self.heaps[h].bins[slot][k];
            proof {
                assert(pre.heap_wf(h as int));
                assert(pre.bin_entry_ok(h as int, slot as int, r));
            }
            if self.arenas[r.arena].pages[r.page].has_room() {
                let a = self.alloc_from_page(r);
                let ghost after = *self;
                proof {
                    assert(self.heaps@.len() == pre.heaps@.len());
                    assert(pre.first_with_room(h as int, slot as int, k as int));
                    lemma_block_sizes_kept(pre, *self);
                }
                if k > 0 {
                    let ghost mid = *self;
                    let moved = self.heaps[h].bins[slot].remove(k);
                    proof {
                        lemma_bin_removed(mid, *self, h as int, slot as int, k as int);
                    }
                    let ghost mid2 = *self;
                    self.heaps[h].bins[slot].insert(0, moved);
                    proof {
                        lemma_bin_inserted(mid2, *self, h as int, slot as int, 0, moved);
                    }
                }
                proof {
                    self.lemma_allocated_aligned(a as int, s as nat, align as nat, slot as int);
                    let bin = pre.heaps@[h as int].bins@[slot as int]@;
                    assert(self.arenas@ == after.arenas@);
                    assert(self.heaps@[h as int].bins@[slot as int]@ =~= bin.remove(k as int).insert(0, bin[k as int]));
                    assert(pre.heaps_become(
                        *self,
                        h as int,
                        slot as int,
                        bin.remove(k as int).insert(0, bin[k as int]),
                        pre.heaps@[h as int].small_object_reserve@,
                        pre.heaps@[h as int].medium_object_reserve@,
                    ));
                }
                return AllocOutcome::Allocated(a);
            }
            k = k + 1;
        }
        if slot < FIRST_LARGE_SLOT {
            let small = slot < FIRST_MEDIUM_SLOT;
            let kind = if small {
                ArenaKind::Small
            } else {
                ArenaKind::Medium
            };
            let has = if small {
                self.heaps[h].small_object_reserve.len() > 0
            } else {
                self.heaps[h].medium_object_reserve.len() > 0
            };
            if has {
                let r = if small {
                    self.heaps[h].small_object_reserve.pop().unwrap()
                } else {
                    self.heaps[h].medium_object_reserve.pop().unwrap()
                };
                proof {
                    lemma_reserve_popped(pre, *self, h as int, kind);
                }
                let ghost mid = *self;
                let ghost ri = r.arena as int;
                proof {
                    assert(mid.arenas@[ri].wf());
                    lemma_page_geometry(kind, r.page as int);
                }
                let first = self.arenas[r.arena].pages[r.page].page_start;
                self.arenas[r.arena].pages[r.page].bind(object_size, first);
                proof {
                    let np = self.page_at(r);
                    assert(self.arenas@[ri].pages@ =~= mid.arenas@[ri].pages@.update(r.page as int, np));
                    lemma_page_bound(mid, *self, h as int, kind, r, np);
                    lemma_one_page_keeps(mid, *self, r, np);
                    assert(pre.arenas@ == mid.arenas@);
                    lemma_one_page_keeps(pre, *self, r, np);
                }
                let ghost mid2 = *self;
                self.heaps[h].bins[slot].insert(0, r);
                proof {
                    lemma_bin_inserted(mid2, *self, h as int, slot as int, 0, r);
                    let np = self.page_at(r);
                    let span = np.page_end - np.page_start;
                    assert(span >= object_size);
                    vstd::arithmetic::div_mod::lemma_fundamental_div_mod(span as int, object_size as int);
                    assert(np.capacity >= 1) by (nonlinear_arith)
                        requires
                            span == object_size * np.capacity + span % (object_size as int),
                            span % (object_size as int) < object_size,
                            span >= object_size,
                            np.capacity >= 0,
                    ;
                }
                let ghost mid3 = *self;
                let a = self.alloc_from_page(r);
                proof {
                    self.lemma_allocated_aligned(a as int, s as nat, align as nat, slot as int);
                    assert(mid3.arenas@ == mid2.arenas@);
                    assert(pre.keeps_blocks(mid3));
                    lemma_keeps_trans(pre, mid3, *self);
                    lemma_block_sizes_kept(pre, *self);
                    assert forall|q: int| !pre.first_with_room(h as int, slot as int, q) by {
                        if 0 <= q < len {
                            assert(!pre.page_at(pre.heaps@[h as int].bins@[slot as int]@[q]).can_alloc());
                        }
                    }
                    let bin = pre.heaps@[h as int].bins@[slot as int]@;
                    let rs = pre.reserve_for(h as int, slot as int);
                    assert(rs.last() == r);
                    assert(self.heaps@[h as int].bins@[slot as int]@ == bin.insert(0, r));
                    assert(pre.can_serve(h as int, slot as int));
                }
                return AllocOutcome::Allocated(a);
            }
        }
        proof {
            assert forall|q: int| !pre.first_with_room(h as int, slot as int, q) by {
                if 0 <= q < len {
                    assert(!pre.page_at(pre.heaps@[h as int].bins@[slot as int]@[q]).can_alloc());
                }
            }
        }
        AllocOutcome::NeedArena { slot, object_size }
    }

    /// Returns the block at `addr`, allocated with `size` and `align`, to
    /// its page: onto the local free list when heap `heap_id` owns the
    /// arena, onto the foreign free list otherwise. Huge blocks are handed
    /// back for unmapping.
    pub fn deallocate(&mut self, heap_id: u64, addr: usize, size: usize, align: usize) -> (r: DeallocOutcome)
        requires
            old(self).wf(),
            size >= 1,
            is_pow2(align as nat),
            size + align + 4096 <= usize::MAX,
            !(size_class_of(pad_to(size as nat, align as nat), align as nat) is Huge) ==> old(self).live().contains(addr as int),
        ensures
            final(self).wf(),
            final(self).heaps@ == old(self).heaps@,
            final(self).arenas@.len() == old(self).arenas@.len(),
            ({
                let c = size_class_of(pad_to(size as nat, align as nat), align as nat);
                if c is Huge {
                    &&& r == DeallocOutcome::Unmap { mapped_size: class_block_size(c) as usize }
                    &&& final(self).live() == old(self).live()
                } else {
                    let i = old(self).arena_of(addr as int);
                    let arena = old(self).arenas@[i];
                    let j = page_index_of(arena.kind, addr - arena.base);
                    let p = final(self).arenas@[i].pages@[j];
                    &&& r == DeallocOutcome::Freed
                    &&& final(self).live() == old(self).live().remove(addr as int)
                    &&& arena.owner == heap_id ==> p.free_list@.len() > 0 && p.free_list@.last() == (addr
                        - arena.base) as u32
                    &&& arena.owner != heap_id ==> p.foreign_free_list@.len() > 0
                        && p.foreign_free_list@.last() == (addr - arena.base) as u32
                }
            }),
            forall|i: int|
                0 <= i < old(self).arenas@.len() ==> (#[trigger] final(self).arenas@[i]).base == old(
                    self,
                ).arenas@[i].base && final(self).arenas@[i].kind == old(self).arenas@[i].kind,
    {
        proof {
            crate::bins::lemma_pow2_positive(align as nat);
        }
        let s = pad_to_align(size, align);
        proof {
            crate::bins::lemma_pad_bound(s as nat, 4096);
        }
        let c = size_class(s, align);
        if let SizeClass::Huge { mapped_size } = c {
            return DeallocOutcome::Unmap { mapped_size };
        }
        let ghost pre = *self;
        let base = addr - addr % (ARENA_SIZE as usize);
        proof {
            let w = choose|w: int| 0 <= w < pre.arenas@.len() && (#[trigger] pre.arenas@[w]).live().contains(addr as int);
            lemma_arena_base(pre.arenas@[w].base as int, addr as int);
            assert(pre.arenas@[w].wf());
        }
        let i = self.arena_at(base).unwrap();
        let ghost arena = pre.arenas@[i as int];
        proof {
            assert(arena.wf());
            let w = pre.arena_of(addr as int);
            assert(0 <= w < pre.arenas@.len() && pre.arenas@[w].base <= addr < pre.arenas@[w].base + ARENA_SIZE);
            assert(pre.arenas@[w].wf());
            lemma_same_arena(pre.arenas@[w].base as int, base as int, addr as int);
            assert(w == i);
            let v = choose|v: int| 0 <= v < pre.arenas@.len() && (#[trigger] pre.arenas@[v]).live().contains(addr as int);
            assert(pre.arenas@[v].wf());
            lemma_same_arena(pre.arenas@[v].base as int, base as int, addr as int);
            assert(v == i);
        }
        let off = (addr - base) as u32;
        let j: usize = match self.arenas[i].kind {
            ArenaKind::Small => (off / SMALL_PAGE_SIZE) as usize,
            ArenaKind::Medium => (off / MEDIUM_PAGE_SIZE) as usize,
            ArenaKind::Large => 0,
        };
        proof {
            assert(j == page_index_of(arena.kind, off as int));
            assert(arena.pages@[j as int].is_live(off as int));
        }
        let local = self.arenas[i].owner == heap_id;
        self.arenas[i].pages[j].dealloc(off, local);
        proof {
            let r = PageRef { arena: i, page: j };
            let np = self.page_at(r);
            let old_page = pre.page_at(r);
            assert(self.arenas@[i as int].pages@ =~= pre.arenas@[i as int].pages@.update(j as int, np));
            lemma_page_changed(pre, *self, r, np);
            assert(pre.in_page(r, addr as int));
            assert forall|x: int| #[trigger] self.live().contains(x) == pre.live().remove(addr as int).contains(x) by {
                if pre.in_page(r, x) {
                    assert(np.live().contains(x - base) == old_page.live().remove(off as int).contains(x - base));
                    assert(pre.live().contains(x) == old_page.is_live(x - base));
                    assert(self.live().contains(x) == np.is_live(x - base));
                } else {
                    assert(x != addr);
                }
            }
            assert(self.live() =~= pre.live().remove(addr as int));
            assert forall|q: int| 0 <= q < pre.arenas@.len() implies (#[trigger] self.arenas@[q]).base
                == pre.arenas@[q].base && self.arenas@[q].kind == pre.arenas@[q].kind by {
                if q != i {
                    assert(self.arenas@[q] == pre.arenas@[q]);
                }
            }
        }
        DeallocOutcome::Freed
    }

    /// Whether `addr` is the address of a live block.
    pub fn is_live(&self, addr: usize) -> (r: bool)
        requires
            self.wf(),
        ensures
            r == self.live().contains(addr as int),
    {
        let base = addr - addr % (ARENA_SIZE as usize);
        match self.arena_at(base) {
            None => {
                proof {
                    if self.live().contains(addr as int) {
                        let w = choose|w: int| 0 <= w < self.arenas@.len() && (#[trigger] self.arenas@[w]).live().contains(addr as int);
                        assert(self.arenas@[w].wf());
                        lemma_arena_base(self.arenas@[w].base as int, addr as int);
                    }
                }
                false
            },
            Some(i) => {
                let ghost arena = self.arenas@[i as int];
                proof {
                    assert(arena.wf());
                    vstd::arithmetic::div_mod::lemma_fundamental_div_mod(addr as int, ARENA_SIZE as int);
                }
                let off = (addr - base) as u32;
                let j: usize = match self.arenas[i].kind {
                    ArenaKind::Small => (off / SMALL_PAGE_SIZE) as usize,
                    ArenaKind::Medium => (off / MEDIUM_PAGE_SIZE) as usize,
                    ArenaKind::Large => 0,
                };
                let r = self.arenas[i].pages[j].holds(off);
                proof {
                    assert(r == arena.live().contains(addr as int));
                    if self.live().contains(addr as int) {
                        let w = choose|w: int| 0 <= w < self.arenas@.len() && (#[trigger] self.arenas@[w]).live().contains(addr as int);
                        assert(self.arenas@[w].wf());
                        lemma_same_arena(self.arenas@[w].base as int, base as int, addr as int);
                        assert(self.arenas@[w].base == base);
                    }
                }
                r
            },
        }
    }

    /// A block just handed out for padded size `s` from bin `slot` is
    /// aligned to every power of two that divides `s`.
    proof fn lemma_allocated_aligned(self, a: int, s: nat, align: nat, slot: int)
        requires
            self.wf(),
            self.live().contains(a),
            1 <= s <= crate::bins::LARGE_CUTOFF,
            align >= 1,
            s % align == 0,
            slot == class_slot(size_class_of(s, align)),
            self.arenas@[self.arena_of(a)].kind == slot_kind(slot),
            self.block_size(a) == class_block_size(size_class_of(s, align)),
        ensures
            is_pow2(align) ==> a % align as int == 0,
    {
        if is_pow2(align) {
            lemma_class_slot(s, align);
            crate::bins::lemma_class_aligned(s, align);
            lemma_live_block_aligned(self, a, align);
        }
    }

    /// Adds the arena at `base`, owned by heap `h`, for the flavour that
    /// bin `slot` needs. The pages of a small or medium arena join the
    /// heap's reserve of that flavour (page `0` first in line); the one page
    /// of a large arena is bound to `object_size` and becomes the head of
    /// the bin.
    pub fn add_arena(&mut self, h: usize, slot: usize, object_size: u32, base: usize)
        requires
            old(self).wf(),
            h < old(self).heaps@.len(),
            slot < NUM_BINS,
            object_size == slot_object_size(slot as int),
            2048 <= object_size <= 1048576 || slot < FIRST_LARGE_SLOT,
            base as int % ARENA_SIZE as int == 0,
            base + ARENA_SIZE <= usize::MAX,
            forall|i: int| 0 <= i < old(self).arenas@.len() ==> old(self).arenas@[i].base != base,
        ensures
            final(self).wf(),
            final(self).live() == old(self).live(),
            final(self).heaps@.len() == old(self).heaps@.len(),
            final(self).arenas@.len() == old(self).arenas@.len() + 1,
            final(self).arenas@.last().base == base,
            final(self).arenas@.last().kind == slot_kind(slot as int),
            final(self).arenas@.last().owner == old(self).heaps@[h as int].id,
            final(self).arenas@.drop_last() == old(self).arenas@,
            ({
                let i = old(self).arenas@.len() as int;
                let bin = old(self).heaps@[h as int].bins@[slot as int]@;
                let small = old(self).heaps@[h as int].small_object_reserve@;
                let medium = old(self).heaps@[h as int].medium_object_reserve@;
                let kind = slot_kind(slot as int);
                let added = fresh_refs(i, kind_num_pages(kind), kind_num_pages(kind));
                if kind == ArenaKind::Large {
                    &&& old(self).heaps_become(
                        *final(self),
                        h as int,
                        slot as int,
                        bin.insert(0, PageRef { arena: i as usize, page: 0 }),
                        small,
                        medium,
                    )
                    &&& final(self).page_at(PageRef { arena: i as usize, page: 0 }).object_size == object_size
                    &&& final(self).page_at(PageRef { arena: i as usize, page: 0 }).carved == 0
                    &&& final(self).page_at(PageRef { arena: i as usize, page: 0 }).can_alloc()
                } else {
                    &&& old(self).heaps_become(
                        *final(self),
                        h as int,
                        slot as int,
                        bin,
                        if kind == ArenaKind::Small {
                            small + added
                        } else {
                            small
                        },
                        if kind == ArenaKind::Medium {
                            medium + added
                        } else {
                            medium
                        },
                    )
                    &&& forall|j: int|
                        0 <= j < kind_num_pages(kind) ==> !(#[trigger] final(self).arenas@[i].pages@[j]).is_bound()
                }
            }),
    {
        let ghost pre = *self;
        let i = self.arenas.len();
        let owner = self.heaps[h].id;
        proof {
            assert(pre.heap_wf(h as int));
        }
        if slot >= FIRST_LARGE_SLOT {
            let mut page = SlabPage::new(0, LARGE_METADATA_ZONE, ARENA_SIZE, false);
            let capacity = (ARENA_SIZE - LARGE_METADATA_ZONE) / object_size;
            proof {
                let span = (ARENA_SIZE - LARGE_METADATA_ZONE) as int;
                vstd::arithmetic::div_mod::lemma_fundamental_div_mod(span, object_size as int);
                assert(capacity * object_size <= span) by (nonlinear_arith)
                    requires
                        span == object_size * capacity + span % (object_size as int),
                        span % (object_size as int) >= 0,
                ;
                assert(capacity >= 1) by (nonlinear_arith)
                    requires
                        span == object_size * capacity + span % (object_size as int),
                        span % (object_size as int) < object_size,
                        object_size <= 1048576,
                        span == 4190208,
                ;
            }
            let first = ARENA_SIZE - capacity * object_size;
            page.bind(object_size, first);
            proof {
                let span = (ARENA_SIZE - first) as int;
                assert(span == capacity * object_size);
                vstd::arithmetic::div_mod::lemma_mod_multiples_basic(capacity as int, object_size as int);
                vstd::arithmetic::div_mod::lemma_div_multiples_vanish(capacity as int, object_size as int);
                vstd::arithmetic::mul::lemma_mul_is_commutative(capacity as int, object_size as int);
                assert(page.capacity == capacity);
            }
            let mut pages = Vec::new();
            pages.push(page);
            let arena = Arena { base, owner, kind: ArenaKind::Large, pages };
            proof {
                assert(kind_num_pages(ArenaKind::Large) == 1);
                assert(arena.pages@[0] == page);
                assert(page_start_of(ArenaKind::Large, 0) == LARGE_METADATA_ZONE) by (nonlinear_arith);
                assert(page_end_of(ArenaKind::Large, 0) == ARENA_SIZE) by (nonlinear_arith);
                assert(arena.page_aligned(page));
                assert(arena.wf());
                assert(arena.live() =~= Set::<int>::empty());
            }
            self.arenas.push(arena);
            proof {
                lemma_arena_pushed(pre, *self, arena);
            }
            let ghost mid = *self;
            let r = PageRef { arena: i, page: 0 };
            self.heaps[h].bins[slot].insert(0, r);
            proof {
                assert(mid.bin_entry_ok(h as int, slot as int, r));
                lemma_bin_inserted(mid, *self, h as int, slot as int, 0, r);
                assert(self.arenas@.drop_last() =~= pre.arenas@);
                assert(self.page_at(r) == page);
                assert(pre.heaps_become(
                    *self,
                    h as int,
                    slot as int,
                    pre.heaps@[h as int].bins@[slot as int]@.insert(0, r),
                    pre.heaps@[h as int].small_object_reserve@,
                    pre.heaps@[h as int].medium_object_reserve@,
                ));
            }
        } else {
            let kind = if slot < FIRST_MEDIUM_SLOT {
                ArenaKind::Small
            } else {
                ArenaKind::Medium
            };
            let pages = new_slab_pages(kind);
            let n = pages.len();
            proof {
                assert(kind_num_pages(ArenaKind::Small) == 128);
                assert(kind_num_pages(ArenaKind::Medium) == 32);
            }
            let arena = Arena { base, owner, kind, pages };
            proof {
                assert(arena.live() =~= Set::<int>::empty()) by {
                    assert forall|a: int| !arena.live().contains(a) by {
                        let j = page_index_of(kind, a - base);
                        if 0 <= j < arena.pages@.len() {
                            assert(arena.pages@[j].live() == Set::<int>::empty());
                            assert(!arena.pages@[j].live().contains(a - base));
                        }
                    }
                }
                assert forall|j: int| 0 <= j < arena.pages@.len() implies (#[trigger] arena.pages@[j]).wf()
                    && arena.pages@[j].page_number == j by {}
            }
            proof {
                assert forall|j: int| 0 <= j < arena.pages@.len() implies {
                    let p = #[trigger] arena.pages@[j];
                    &&& p.wf()
                    &&& p.page_number == j
                    &&& p.page_start == page_start_of(arena.kind, j)
                    &&& p.page_end == page_end_of(arena.kind, j)
                    &&& p.pre_thread == (arena.kind != ArenaKind::Large)
                    &&& p.is_bound() ==> arena.page_aligned(p)
                    &&& arena.kind == ArenaKind::Large ==> p.is_bound()
                } by {}
            }
            self.arenas.push(arena);
            proof {
                lemma_arena_pushed(pre, *self, arena);
            }
            let ghost start_len = if slot < FIRST_MEDIUM_SLOT {
                self.heaps@[h as int].small_object_reserve@.len()
            } else {
                self.heaps@[h as int].medium_object_reserve@.len()
            };
            let mut j = n;
            while j > 0
                invariant
                    0 <= j <= n,
                    n == kind_num_pages(kind),
                    n == arena.pages@.len(),
                    kind == slot_kind(slot as int),
                    kind != ArenaKind::Large,
                    slot < FIRST_LARGE_SLOT,
                    h < self.heaps@.len(),
                    i == pre.arenas@.len(),
                    self.wf(),
                    self.live() == pre.live(),
                    self.arenas@ == pre.arenas@.push(arena),
                    self.heaps@.len() == pre.heaps@.len(),
                    self.heaps@[h as int].id == owner,
                    arena.owner == owner,
                    arena.kind == kind,
                    forall|q: int| 0 <= q < n ==> !(#[trigger] arena.pages@[q]).is_bound(),
                    slot < FIRST_MEDIUM_SLOT ==> self.heaps@[h as int].small_object_reserve@.len() == start_len + (n - j),
                    slot >= FIRST_MEDIUM_SLOT ==> self.heaps@[h as int].medium_object_reserve@.len() == start_len + (n - j),
                    forall|k: int|
                        0 <= k < self.heaps@[h as int].small_object_reserve@.len()
                            && (#[trigger] self.heaps@[h as int].small_object_reserve@[k]).arena == i
                            ==> self.heaps@[h as int].small_object_reserve@[k].page >= j,
                    forall|k: int|
                        0 <= k < self.heaps@[h as int].medium_object_reserve@.len()
                            && (#[trigger] self.heaps@[h as int].medium_object_reserve@[k]).arena == i
                            ==> self.heaps@[h as int].medium_object_reserve@[k].page >= j,
                    pre.heaps_become(
                        *self,
                        h as int,
                        slot as int,
                        pre.heaps@[h as int].bins@[slot as int]@,
                        if slot < FIRST_MEDIUM_SLOT {
                            pre.heaps@[h as int].small_object_reserve@ + fresh_refs(i as int, n as int, n - j)
                        } else {
                            pre.heaps@[h as int].small_object_reserve@
                        },
                        if slot >= FIRST_MEDIUM_SLOT {
                            pre.heaps@[h as int].medium_object_reserve@ + fresh_refs(i as int, n as int, n - j)
                        } else {
                            pre.heaps@[h as int].medium_object_reserve@
                        },
                    ),
                decreases j,
            {
                j = j - 1;
                let r = PageRef { arena: i, page: j };
                let ghost mid = *self;
                proof {
                    assert(mid.arenas@[i as int] == arena);
                    assert(!arena.pages@[j as int].is_bound());
                    assert(mid.reserve_entry_ok(h as int, kind, r));
                }
                if slot < FIRST_MEDIUM_SLOT {
                    proof {
                        if mid.heaps@[h as int].small_object_reserve@.contains(r) {
                            let k = choose|k: int| 0 <= k < mid.heaps@[h as int].small_object_reserve@.len()
                                && mid.heaps@[h as int].small_object_reserve@[k] == r;
                            assert(mid.heaps@[h as int].small_object_reserve@[k].arena == i);
                        }
                    }
                    self.heaps[h].small_object_reserve.push(r);
                    proof {
                        lemma_reserve_pushed(mid, *self, h as int, ArenaKind::Small, r);
                        assert(pre.heaps@[h as int].small_object_reserve@ + fresh_refs(i as int, n as int, n - j) =~= (
                        pre.heaps@[h as int].small_object_reserve@ + fresh_refs(i as int, n as int, n - j - 1)).push(r));
                    }
                } else {
                    proof {
                        if mid.heaps@[h as int].medium_object_reserve@.contains(r) {
                            let k = choose|k: int| 0 <= k < mid.heaps@[h as int].medium_object_reserve@.len()
                                && mid.heaps@[h as int].medium_object_reserve@[k] == r;
                            assert(mid.heaps@[h as int].medium_object_reserve@[k].arena == i);
                        }
                    }
                    self.heaps[h].medium_object_reserve.push(r);
                    proof {
                        lemma_reserve_pushed(mid, *self, h as int, ArenaKind::Medium, r);
                        assert(pre.heaps@[h as int].medium_object_reserve@ + fresh_refs(i as int, n as int, n - j) =~= (
                        pre.heaps@[h as int].medium_object_reserve@ + fresh_refs(i as int, n as int, n - j - 1)).push(r));
                    }
                }
            }
        }
    }
}

/// Appending a well-formed arena at a fresh base keeps the engine
/// well-formed when the arena has no live block.
proof fn lemma_arena_pushed(pre: Engine, post: Engine, arena: Arena)
    requires
        pre.wf(),
        arena.wf(),
        arena.live() == Set::<int>::empty(),
        1 <= arena.owner <= pre.heaps@.len(),
        forall|i: int| 0 <= i < pre.arenas@.len() ==> pre.arenas@[i].base != arena.base,
        post.arenas@ == pre.arenas@.push(arena),
        post.heaps@ == pre.heaps@,
    ensures
        post.wf(),
        post.live() == pre.live(),
{
    let n = pre.arenas@.len();
    assert forall|i: int| 0 <= i < post.arenas@.len() implies (#[trigger] post.arenas@[i]).wf() by {
        if i < n {
            assert(post.arenas@[i] == pre.arenas@[i]);
        }
    }
    assert forall|i: int, j: int|
        0 <= i < post.arenas@.len() && 0 <= j < post.arenas@.len() && i != j implies #[trigger] post.arenas@[i].base
        != #[trigger] post.arenas@[j].base by {
        if i < n && j < n {
            assert(pre.arenas@[i].base != pre.arenas@[j].base);
        }
    }
    assert forall|i: int| 0 <= i < post.arenas@.len() implies 1 <= #[trigger] post.arenas@[i].owner
        <= post.heaps@.len() by {
        if i < n {
            assert(post.arenas@[i] == pre.arenas@[i]);
        }
    }
    assert forall|h: int| 0 <= h < post.heaps@.len() implies #[trigger] post.heap_wf(h) by {
        assert(pre.heap_wf(h));
        let heap = post.heaps@[h];
        assert forall|slot: int, k: int|
            0 <= slot < NUM_BINS && 0 <= k < heap.bins@[slot]@.len() implies post.bin_entry_ok(
            h,
            slot,
            #[trigger] heap.bins@[slot]@[k],
        ) by {
            let r = heap.bins@[slot]@[k];
            assert(pre.bin_entry_ok(h, slot, r));
            assert(post.arenas@[r.arena as int] == pre.arenas@[r.arena as int]);
        }
        assert forall|k: int| 0 <= k < heap.small_object_reserve@.len() implies post.reserve_entry_ok(
            h,
            ArenaKind::Small,
            #[trigger] heap.small_object_reserve@[k],
        ) by {
            let r = heap.small_object_reserve@[k];
            assert(pre.reserve_entry_ok(h, ArenaKind::Small, r));
            assert(post.arenas@[r.arena as int] == pre.arenas@[r.arena as int]);
        }
        assert forall|k: int| 0 <= k < heap.medium_object_reserve@.len() implies post.reserve_entry_ok(
            h,
            ArenaKind::Medium,
            #[trigger] heap.medium_object_reserve@[k],
        ) by {
            let r = heap.medium_object_reserve@[k];
            assert(pre.reserve_entry_ok(h, ArenaKind::Medium, r));
            assert(post.arenas@[r.arena as int] == pre.arenas@[r.arena as int]);
        }
    }
    assert forall|a: int| post.live().contains(a) == pre.live().contains(a) by {
        if post.live().contains(a) {
            let i = choose|i: int| 0 <= i < post.arenas@.len() && (#[trigger] post.arenas@[i]).live().contains(a);
            if i < n {
                assert(pre.arenas@[i].live().contains(a));
            }
        }
        if pre.live().contains(a) {
            let i = choose|i: int| 0 <= i < pre.arenas@.len() && (#[trigger] pre.arenas@[i]).live().contains(a);
            assert(post.arenas@[i] == pre.arenas@[i]);
        }
    }
    assert(post.live() =~= pre.live());
}

/// Changing only heap `h`, to a heap that is well-formed, keeps the engine
/// well-formed.
proof fn lemma_heap_replaced(pre: Engine, post: Engine, h: int)
    requires
        pre.wf(),
        0 <= h < pre.heaps@.len(),
        post.arenas@ == pre.arenas@,
        post.heaps@.len() == pre.heaps@.len(),
        forall|g: int| 0 <= g < pre.heaps@.len() && g != h ==> post.heaps@[g] == pre.heaps@[g],
        post.heaps@[h].id == pre.heaps@[h].id,
        post.heap_wf(h),
    ensures
        post.wf(),
        post.live() == pre.live(),
{
    assert forall|g: int| 0 <= g < post.heaps@.len() implies #[trigger] post.heap_wf(g) by {
        if g != h {
            assert(pre.heap_wf(g));
            let heap = post.heaps@[g];
            assert(heap == pre.heaps@[g]);
            assert forall|slot: int, k: int|
                0 <= slot < NUM_BINS && 0 <= k < heap.bins@[slot]@.len() implies post.bin_entry_ok(
                g,
                slot,
                #[trigger] heap.bins@[slot]@[k],
            ) by {
                assert(pre.bin_entry_ok(g, slot, heap.bins@[slot]@[k]));
            }
            assert forall|k: int| 0 <= k < heap.small_object_reserve@.len() implies post.reserve_entry_ok(
                g,
                ArenaKind::Small,
                #[trigger] heap.small_object_reserve@[k],
            ) by {
                assert(pre.reserve_entry_ok(g, ArenaKind::Small, heap.small_object_reserve@[k]));
            }
            assert forall|k: int| 0 <= k < heap.medium_object_reserve@.len() implies post.reserve_entry_ok(
                g,
                ArenaKind::Medium,
                #[trigger] heap.medium_object_reserve@[k],
            ) by {
                assert(pre.reserve_entry_ok(g, ArenaKind::Medium, heap.medium_object_reserve@[k]));
            }
        }
    }
    assert(post.live() =~= pre.live());
}

/// Inserting a valid entry into a bin keeps the engine well-formed.
proof fn lemma_bin_inserted(pre: Engine, post: Engine, h: int, slot: int, at: int, r: PageRef)
    requires
        pre.wf(),
        0 <= h < pre.heaps@.len(),
        0 <= slot < NUM_BINS,
        0 <= at <= pre.heaps@[h].bins@[slot]@.len(),
        pre.bin_entry_ok(h, slot, r),
        post.arenas@ == pre.arenas@,
        post.heaps@.len() == pre.heaps@.len(),
        forall|g: int| 0 <= g < pre.heaps@.len() && g != h ==> post.heaps@[g] == pre.heaps@[g],
        post.heaps@[h].id == pre.heaps@[h].id,
        post.heaps@[h].small_object_reserve@ == pre.heaps@[h].small_object_reserve@,
        post.heaps@[h].medium_object_reserve@ == pre.heaps@[h].medium_object_reserve@,
        post.heaps@[h].bins@.len() == NUM_BINS,
        forall|b: int| 0 <= b < NUM_BINS && b != slot ==> post.heaps@[h].bins@[b]@ == pre.heaps@[h].bins@[b]@,
        post.heaps@[h].bins@[slot]@ == pre.heaps@[h].bins@[slot]@.insert(at, r),
    ensures
        post.wf(),
        post.live() == pre.live(),
{
    assert(pre.heap_wf(h));
    let heap = post.heaps@[h];
    let old_bin = pre.heaps@[h].bins@[slot]@;
    assert forall|b: int, k: int|
        0 <= b < NUM_BINS && 0 <= k < heap.bins@[b]@.len() implies post.bin_entry_ok(
        h,
        b,
        #[trigger] heap.bins@[b]@[k],
    ) by {
        if b != slot {
            assert(heap.bins@[b]@[k] == pre.heaps@[h].bins@[b]@[k]);
            assert(pre.bin_entry_ok(h, b, pre.heaps@[h].bins@[b]@[k]));
        } else if k < at {
            assert(heap.bins@[b]@[k] == old_bin[k]);
            assert(pre.bin_entry_ok(h, b, old_bin[k]));
        } else if k > at {
            assert(heap.bins@[b]@[k] == old_bin[k - 1]);
            assert(pre.bin_entry_ok(h, b, old_bin[k - 1]));
        }
    }
    assert forall|k: int| 0 <= k < heap.small_object_reserve@.len() implies post.reserve_entry_ok(
        h,
        ArenaKind::Small,
        #[trigger] heap.small_object_reserve@[k],
    ) by {
        assert(pre.reserve_entry_ok(h, ArenaKind::Small, heap.small_object_reserve@[k]));
    }
    assert forall|k: int| 0 <= k < heap.medium_object_reserve@.len() implies post.reserve_entry_ok(
        h,
        ArenaKind::Medium,
        #[trigger] heap.medium_object_reserve@[k],
    ) by {
        assert(pre.reserve_entry_ok(h, ArenaKind::Medium, heap.medium_object_reserve@[k]));
    }
    lemma_heap_replaced(pre, post, h);
}

/// Pushing a fresh valid entry onto a reserve keeps the engine well-formed.
proof fn lemma_reserve_pushed(pre: Engine, post: Engine, h: int, kind: ArenaKind, r: PageRef)
    requires
        pre.wf(),
        0 <= h < pre.heaps@.len(),
        kind != ArenaKind::Large,
        pre.reserve_entry_ok(h, kind, r),
        post.arenas@ == pre.arenas@,
        post.heaps@.len() == pre.heaps@.len(),
        forall|g: int| 0 <= g < pre.heaps@.len() && g != h ==> post.heaps@[g] == pre.heaps@[g],
        post.heaps@[h].id == pre.heaps@[h].id,
        post.heaps@[h].bins@ == pre.heaps@[h].bins@,
        kind == ArenaKind::Small ==> !pre.heaps@[h].small_object_reserve@.contains(r)
            && post.heaps@[h].small_object_reserve@ == pre.heaps@[h].small_object_reserve@.push(r)
            && post.heaps@[h].medium_object_reserve@ == pre.heaps@[h].medium_object_reserve@,
        kind == ArenaKind::Medium ==> !pre.heaps@[h].medium_object_reserve@.contains(r)
            && post.heaps@[h].medium_object_reserve@ == pre.heaps@[h].medium_object_reserve@.push(r)
            && post.heaps@[h].small_object_reserve@ == pre.heaps@[h].small_object_reserve@,
    ensures
        post.wf(),
        post.live() == pre.live(),
{
    assert(pre.heap_wf(h));
    let heap = post.heaps@[h];
    let ph = pre.heaps@[h];
    assert forall|b: int, k: int|
        0 <= b < NUM_BINS && 0 <= k < heap.bins@[b]@.len() implies post.bin_entry_ok(
        h,
        b,
        #[trigger] heap.bins@[b]@[k],
    ) by {
        assert(pre.bin_entry_ok(h, b, ph.bins@[b]@[k]));
    }
    assert forall|k: int| 0 <= k < heap.small_object_reserve@.len() implies post.reserve_entry_ok(
        h,
        ArenaKind::Small,
        #[trigger] heap.small_object_reserve@[k],
    ) by {
        if k < ph.small_object_reserve@.len() {
            assert(heap.small_object_reserve@[k] == ph.small_object_reserve@[k]);
            assert(pre.reserve_entry_ok(h, ArenaKind::Small, ph.small_object_reserve@[k]));
        }
    }
    assert forall|k: int| 0 <= k < heap.medium_object_reserve@.len() implies post.reserve_entry_ok(
        h,
        ArenaKind::Medium,
        #[trigger] heap.medium_object_reserve@[k],
    ) by {
        if k < ph.medium_object_reserve@.len() {
            assert(heap.medium_object_reserve@[k] == ph.medium_object_reserve@[k]);
            assert(pre.reserve_entry_ok(h, ArenaKind::Medium, ph.medium_object_reserve@[k]));
        }
    }
    if kind == ArenaKind::Small {
        lemma_push_no_dup(ph.small_object_reserve@, r);
    } else {
        lemma_push_no_dup(ph.medium_object_reserve@, r);
    }
    lemma_heap_replaced(pre, post, h);
}

proof fn lemma_push_no_dup(s: Seq<PageRef>, r: PageRef)
    requires
        s.no_duplicates(),
        !s.contains(r),
    ensures
        s.push(r).no_duplicates(),
{
    let t = s.push(r);
    assert forall|i: int, j: int| 0 <= i < t.len() && 0 <= j < t.len() && i != j implies t[i] != t[j] by {
        if i == s.len() {
            assert(t[j] == s[j]);
        } else if j == s.len() {
            assert(t[i] == s[i]);
        } else {
            assert(t[i] == s[i] && t[j] == s[j]);
        }
    }
}

/// Two arenas whose ranges share an address start at the same base.
pub proof fn lemma_same_arena(b1: int, b2: int, a: int)
    requires
        b1 % ARENA_SIZE as int == 0,
        b2 % ARENA_SIZE as int == 0,
        b1 >= 0,
        b2 >= 0,
        b1 <= a < b1 + ARENA_SIZE,
        b2 <= a < b2 + ARENA_SIZE,
    ensures
        b1 == b2,
{
    let z = ARENA_SIZE as int;
    vstd::arithmetic::div_mod::lemma_fundamental_div_mod(b1, z);
    vstd::arithmetic::div_mod::lemma_fundamental_div_mod(b2, z);
    vstd::arithmetic::div_mod::lemma_fundamental_div_mod_converse(a, z, b1 / z, a - b1);
    vstd::arithmetic::div_mod::lemma_fundamental_div_mod_converse(a, z, b2 / z, a - b2);
}

impl Engine {
    /// Address `a` falls in page `r`'s arena, in the range of page `r`.
    pub open spec fn in_page(self, r: PageRef, a: int) -> bool {
        let arena = self.arenas@[r.arena as int];
        &&& arena.base <= a < arena.base + ARENA_SIZE
        &&& page_index_of(arena.kind, a - arena.base) == r.page
    }
}

/// Replacing the metadata of page `r` by a well-formed page of the same
/// geometry keeps the engine well-formed; only addresses of that page
/// change their liveness.
proof fn lemma_page_changed(pre: Engine, post: Engine, r: PageRef, np: SlabPage)
    requires
        pre.wf(),
        pre.ref_ok(r),
        np.wf(),
        np.same_geometry(pre.page_at(r)),
        post.heaps@ == pre.heaps@,
        post.arenas@.len() == pre.arenas@.len(),
        forall|i: int| 0 <= i < pre.arenas@.len() && i != r.arena ==> post.arenas@[i] == pre.arenas@[i],
        post.arenas@[r.arena as int].base == pre.arenas@[r.arena as int].base,
        post.arenas@[r.arena as int].owner == pre.arenas@[r.arena as int].owner,
        post.arenas@[r.arena as int].kind == pre.arenas@[r.arena as int].kind,
        post.arenas@[r.arena as int].pages@ == pre.arenas@[r.arena as int].pages@.update(r.page as int, np),
    ensures
        post.wf(),
        forall|a: int|
            pre.in_page(r, a) ==> (#[trigger] pre.live().contains(a) == pre.page_at(r).is_live(
                a - pre.arenas@[r.arena as int].base,
            )),
        forall|a: int|
            #[trigger] post.live().contains(a) == if pre.in_page(r, a) {
                np.is_live(a - pre.arenas@[r.arena as int].base)
            } else {
                pre.live().contains(a)
            },
{
    let ri = r.arena as int;
    let rp = r.page as int;
    let pa = pre.arenas@[ri];
    let qa = post.arenas@[ri];
    assert(pa.wf());
    assert(qa.wf()) by {
        assert forall|j: int| 0 <= j < qa.pages@.len() implies {
            let p = #[trigger] qa.pages@[j];
            &&& p.wf()
            &&& p.page_number == j
            &&& p.page_start == page_start_of(qa.kind, j)
            &&& p.page_end == page_end_of(qa.kind, j)
            &&& p.pre_thread == (qa.kind != ArenaKind::Large)
            &&& p.is_bound() ==> qa.page_aligned(p)
            &&& qa.kind == ArenaKind::Large ==> p.is_bound()
        } by {
            let p0 = pa.pages@[j];
            if j == rp {
                assert(qa.pages@[j] == np);
            } else {
                assert(qa.pages@[j] == p0);
            }
        }
    }
    assert forall|i: int| 0 <= i < post.arenas@.len() implies (#[trigger] post.arenas@[i]).wf() by {
        if i != ri {
            assert(post.arenas@[i] == pre.arenas@[i]);
        }
    }
    assert forall|i: int, j: int|
        0 <= i < post.arenas@.len() && 0 <= j < post.arenas@.len() && i != j implies #[trigger] post.arenas@[i].base
        != #[trigger] post.arenas@[j].base by {
        assert(pre.arenas@[i].base != pre.arenas@[j].base);
    }
    assert forall|i: int| 0 <= i < post.arenas@.len() implies 1 <= #[trigger] post.arenas@[i].owner
        <= post.heaps@.len() by {
        assert(1 <= pre.arenas@[i].owner <= pre.heaps@.len());
    }
    assert forall|e: PageRef| pre.ref_ok(e) implies post.ref_ok(e) && post.arenas@[e.arena as int].kind
        == pre.arenas@[e.arena as int].kind && post.arenas@[e.arena as int].owner == pre.arenas@[e.arena as int].owner
        && post.page_at(e).object_size == pre.page_at(e).object_size by {
        if e.arena as int != ri {
            assert(post.arenas@[e.arena as int] == pre.arenas@[e.arena as int]);
        } else if e.page as int == rp {
            assert(post.page_at(e) == np);
        } else {
            assert(post.page_at(e) == pre.page_at(e));
        }
    }
    assert forall|h: int| 0 <= h < post.heaps@.len() implies #[trigger] post.heap_wf(h) by {
        assert(pre.heap_wf(h));
        let heap = post.heaps@[h];
        assert forall|slot: int, k: int|
            0 <= slot < NUM_BINS && 0 <= k < heap.bins@[slot]@.len() implies post.bin_entry_ok(
            h,
            slot,
            #[trigger] heap.bins@[slot]@[k],
        ) by {
            assert(pre.bin_entry_ok(h, slot, heap.bins@[slot]@[k]));
        }
        assert forall|k: int| 0 <= k < heap.small_object_reserve@.len() implies post.reserve_entry_ok(
            h,
            ArenaKind::Small,
            #[trigger] heap.small_object_reserve@[k],
        ) by {
            assert(pre.reserve_entry_ok(h, ArenaKind::Small, heap.small_object_reserve@[k]));
        }
        assert forall|k: int| 0 <= k < heap.medium_object_reserve@.len() implies post.reserve_entry_ok(
            h,
            ArenaKind::Medium,
            #[trigger] heap.medium_object_reserve@[k],
        ) by {
            assert(pre.reserve_entry_ok(h, ArenaKind::Medium, heap.medium_object_reserve@[k]));
        }
    }
    assert forall|a: int|
        pre.in_page(r, a) implies (#[trigger] pre.live().contains(a) == pre.page_at(r).is_live(a - pa.base)) by {
        if pre.live().contains(a) {
            let i = choose|i: int| 0 <= i < pre.arenas@.len() && (#[trigger] pre.arenas@[i]).live().contains(a);
            if i != ri {
                lemma_same_arena(pre.arenas@[i].base as int, pa.base as int, a);
            }
        }
        if pre.page_at(r).is_live(a - pa.base) {
            assert(pa.live().contains(a));
        }
    }
    assert forall|a: int|
        #[trigger] post.live().contains(a) == if pre.in_page(r, a) {
            np.is_live(a - pa.base)
        } else {
            pre.live().contains(a)
        } by {
        // The arena `ri` changes only at page `rp`.
        assert(qa.live().contains(a) == if pre.in_page(r, a) {
            np.is_live(a - pa.base)
        } else {
            pa.live().contains(a)
        }) by {
            if pa.base <= a < pa.base + ARENA_SIZE {
                let j = page_index_of(pa.kind, a - pa.base);
                if 0 <= j < qa.pages@.len() && j != rp {
                    assert(qa.pages@[j] == pa.pages@[j]);
                }
            }
        }
        if post.live().contains(a) {
            let i = choose|i: int| 0 <= i < post.arenas@.len() && (#[trigger] post.arenas@[i]).live().contains(a);
            if i != ri {
                assert(post.arenas@[i] == pre.arenas@[i]);
                if pre.in_page(r, a) {
                    lemma_same_arena(pre.arenas@[i].base as int, pa.base as int, a);
                }
            }
        }
        if pre.in_page(r, a) {
            if np.is_live(a - pa.base) {
                assert(post.arenas@[ri].live().contains(a));
            }
        } else if pre.live().contains(a) {
            let i = choose|i: int| 0 <= i < pre.arenas@.len() && (#[trigger] pre.arenas@[i]).live().contains(a);
            if i != ri {
                assert(post.arenas@[i] == pre.arenas@[i]);
            }
            assert(post.arenas@[i].live().contains(a));
        }
    }
}

/// Binding the unbound page `r`, just taken off heap `h`'s reserve, keeps
/// the engine well-formed: no bin and no other reserve entry refers to it.
proof fn lemma_page_bound(pre: Engine, post: Engine, h: int, kind: ArenaKind, r: PageRef, np: SlabPage)
    requires
        pre.wf(),
        0 <= h < pre.heaps@.len(),
        kind != ArenaKind::Large,
        pre.reserve_entry_ok(h, kind, r),
        kind == ArenaKind::Small ==> !pre.heaps@[h].small_object_reserve@.contains(r),
        kind == ArenaKind::Medium ==> !pre.heaps@[h].medium_object_reserve@.contains(r),
        np.wf(),
        np.is_bound(),
        np.live() == Set::<int>::empty(),
        np.page_number == pre.page_at(r).page_number,
        np.page_start == pre.page_at(r).page_start,
        np.page_end == pre.page_at(r).page_end,
        np.pre_thread == pre.page_at(r).pre_thread,
        pre.arenas@[r.arena as int].page_aligned(np),
        post.heaps@ == pre.heaps@,
        post.arenas@.len() == pre.arenas@.len(),
        forall|i: int| 0 <= i < pre.arenas@.len() && i != r.arena ==> post.arenas@[i] == pre.arenas@[i],
        post.arenas@[r.arena as int].base == pre.arenas@[r.arena as int].base,
        post.arenas@[r.arena as int].owner == pre.arenas@[r.arena as int].owner,
        post.arenas@[r.arena as int].kind == pre.arenas@[r.arena as int].kind,
        post.arenas@[r.arena as int].pages@ == pre.arenas@[r.arena as int].pages@.update(r.page as int, np),
    ensures
        post.wf(),
        post.live() == pre.live(),
{
    let ri = r.arena as int;
    let rp = r.page as int;
    let pa = pre.arenas@[ri];
    let qa = post.arenas@[ri];
    assert(pa.wf());
    assert(pre.page_at(r).live() =~= Set::<int>::empty());
    assert(qa.wf()) by {
        assert forall|j: int| 0 <= j < qa.pages@.len() implies {
            let p = #[trigger] qa.pages@[j];
            &&& p.wf()
            &&& p.page_number == j
            &&& p.page_start == page_start_of(qa.kind, j)
            &&& p.page_end == page_end_of(qa.kind, j)
            &&& p.pre_thread == (qa.kind != ArenaKind::Large)
            &&& p.is_bound() ==> qa.page_aligned(p)
            &&& qa.kind == ArenaKind::Large ==> p.is_bound()
        } by {
            if j == rp {
                assert(qa.pages@[j] == np);
            } else {
                assert(qa.pages@[j] == pa.pages@[j]);
            }
        }
    }
    assert forall|i: int| 0 <= i < post.arenas@.len() implies (#[trigger] post.arenas@[i]).wf() by {
        if i != ri {
            assert(post.arenas@[i] == pre.arenas@[i]);
        }
    }
    assert forall|i: int, j: int|
        0 <= i < post.arenas@.len() && 0 <= j < post.arenas@.len() && i != j implies #[trigger] post.arenas@[i].base
        != #[trigger] post.arenas@[j].base by {
        assert(pre.arenas@[i].base != pre.arenas@[j].base);
    }
    assert forall|i: int| 0 <= i < post.arenas@.len() implies 1 <= #[trigger] post.arenas@[i].owner
        <= post.heaps@.len() by {
        assert(1 <= pre.arenas@[i].owner <= pre.heaps@.len());
    }
    assert forall|e: PageRef| pre.ref_ok(e) && e != r implies post.ref_ok(e) && post.arenas@[e.arena as int].kind
        == pre.arenas@[e.arena as int].kind && post.arenas@[e.arena as int].owner == pre.arenas@[e.arena as int].owner
        && post.page_at(e) == pre.page_at(e) by {
        if e.arena as int != ri {
            assert(post.arenas@[e.arena as int] == pre.arenas@[e.arena as int]);
        } else {
            assert(e.page != r.page);
            assert(post.page_at(e) == pre.page_at(e));
        }
    }
    assert forall|g: int| 0 <= g < post.heaps@.len() implies #[trigger] post.heap_wf(g) by {
        assert(pre.heap_wf(g));
        let heap = post.heaps@[g];
        assert forall|slot: int, k: int|
            0 <= slot < NUM_BINS && 0 <= k < heap.bins@[slot]@.len() implies post.bin_entry_ok(
            g,
            slot,
            #[trigger] heap.bins@[slot]@[k],
        ) by {
            assert(pre.bin_entry_ok(g, slot, heap.bins@[slot]@[k]));
        }
        assert forall|k: int| 0 <= k < heap.small_object_reserve@.len() implies post.reserve_entry_ok(
            g,
            ArenaKind::Small,
            #[trigger] heap.small_object_reserve@[k],
        ) by {
            let e = heap.small_object_reserve@[k];
            assert(pre.reserve_entry_ok(g, ArenaKind::Small, e));
            if g == h && kind == ArenaKind::Small {
                assert(heap.small_object_reserve@.contains(e));
            }
            if e == r {
                assert(pre.heap_wf(h));
                assert(g == h);
            }
        }
        assert forall|k: int| 0 <= k < heap.medium_object_reserve@.len() implies post.reserve_entry_ok(
            g,
            ArenaKind::Medium,
            #[trigger] heap.medium_object_reserve@[k],
        ) by {
            let e = heap.medium_object_reserve@[k];
            assert(pre.reserve_entry_ok(g, ArenaKind::Medium, e));
            if g == h && kind == ArenaKind::Medium {
                assert(heap.medium_object_reserve@.contains(e));
            }
            if e == r {
                assert(pre.heap_wf(h));
                assert(g == h);
            }
        }
    }
    assert forall|a: int| #[trigger] post.live().contains(a) == pre.live().contains(a) by {
        assert(qa.live().contains(a) == pa.live().contains(a)) by {
            if pa.base <= a < pa.base + ARENA_SIZE {
                let j = page_index_of(pa.kind, a - pa.base);
                if 0 <= j < qa.pages@.len() && j != rp {
                    assert(qa.pages@[j] == pa.pages@[j]);
                }
                if j == rp {
                    assert(!np.live().contains(a - pa.base));
                    assert(!pa.pages@[j].live().contains(a - pa.base));
                }
            }
        }
        if post.live().contains(a) {
            let i = choose|i: int| 0 <= i < post.arenas@.len() && (#[trigger] post.arenas@[i]).live().contains(a);
            if i != ri {
                assert(post.arenas@[i] == pre.arenas@[i]);
            }
            assert(pre.arenas@[i].live().contains(a));
        }
        if pre.live().contains(a) {
            let i = choose|i: int| 0 <= i < pre.arenas@.len() && (#[trigger] pre.arenas@[i]).live().contains(a);
            if i != ri {
                assert(post.arenas@[i] == pre.arenas@[i]);
            }
            assert(post.arenas@[i].live().contains(a));
        }
    }
    assert(post.live() =~= pre.live());
}

/// Removing entry `k` of a bin keeps the engine well-formed.
proof fn lemma_bin_removed(pre: Engine, post: Engine, h: int, slot: int, k: int)
    requires
        pre.wf(),
        0 <= h < pre.heaps@.len(),
        0 <= slot < NUM_BINS,
        0 <= k < pre.heaps@[h].bins@[slot]@.len(),
        post.arenas@ == pre.arenas@,
        post.heaps@.len() == pre.heaps@.len(),
        forall|g: int| 0 <= g < pre.heaps@.len() && g != h ==> post.heaps@[g] == pre.heaps@[g],
        post.heaps@[h].id == pre.heaps@[h].id,
        post.heaps@[h].small_object_reserve@ == pre.heaps@[h].small_object_reserve@,
        post.heaps@[h].medium_object_reserve@ == pre.heaps@[h].medium_object_reserve@,
        post.heaps@[h].bins@.len() == NUM_BINS,
        forall|b: int| 0 <= b < NUM_BINS && b != slot ==> post.heaps@[h].bins@[b]@ == pre.heaps@[h].bins@[b]@,
        post.heaps@[h].bins@[slot]@ == pre.heaps@[h].bins@[slot]@.remove(k),
    ensures
        post.wf(),
        post.live() == pre.live(),
        post.bin_entry_ok(h, slot, pre.heaps@[h].bins@[slot]@[k]),
{
    assert(pre.heap_wf(h));
    let heap = post.heaps@[h];
    let old_bin = pre.heaps@[h].bins@[slot]@;
    assert(pre.bin_entry_ok(h, slot, old_bin[k]));
    assert forall|b: int, q: int|
        0 <= b < NUM_BINS && 0 <= q < heap.bins@[b]@.len() implies post.bin_entry_ok(
        h,
        b,
        #[trigger] heap.bins@[b]@[q],
    ) by {
        if b != slot {
            assert(heap.bins@[b]@[q] == pre.heaps@[h].bins@[b]@[q]);
            assert(pre.bin_entry_ok(h, b, pre.heaps@[h].bins@[b]@[q]));
        } else if q < k {
            assert(heap.bins@[b]@[q] == old_bin[q]);
            assert(pre.bin_entry_ok(h, b, old_bin[q]));
        } else {
            assert(heap.bins@[b]@[q] == old_bin[q + 1]);
            assert(pre.bin_entry_ok(h, b, old_bin[q + 1]));
        }
    }
    assert forall|q: int| 0 <= q < heap.small_object_reserve@.len() implies post.reserve_entry_ok(
        h,
        ArenaKind::Small,
        #[trigger] heap.small_object_reserve@[q],
    ) by {
        assert(pre.reserve_entry_ok(h, ArenaKind::Small, heap.small_object_reserve@[q]));
    }
    assert forall|q: int| 0 <= q < heap.medium_object_reserve@.len() implies post.reserve_entry_ok(
        h,
        ArenaKind::Medium,
        #[trigger] heap.medium_object_reserve@[q],
    ) by {
        assert(pre.reserve_entry_ok(h, ArenaKind::Medium, heap.medium_object_reserve@[q]));
    }
    lemma_heap_replaced(pre, post, h);
}

/// Taking the last entry off a reserve keeps the engine well-formed, and
/// that entry is no longer on the reserve.
proof fn lemma_reserve_popped(pre: Engine, post: Engine, h: int, kind: ArenaKind)
    requires
        pre.wf(),
        0 <= h < pre.heaps@.len(),
        kind != ArenaKind::Large,
        post.arenas@ == pre.arenas@,
        post.heaps@.len() == pre.heaps@.len(),
        forall|g: int| 0 <= g < pre.heaps@.len() && g != h ==> post.heaps@[g] == pre.heaps@[g],
        post.heaps@[h].id == pre.heaps@[h].id,
        post.heaps@[h].bins@ == pre.heaps@[h].bins@,
        kind == ArenaKind::Small ==> pre.heaps@[h].small_object_reserve@.len() > 0
            && post.heaps@[h].small_object_reserve@ == pre.heaps@[h].small_object_reserve@.drop_last()
            && post.heaps@[h].medium_object_reserve@ == pre.heaps@[h].medium_object_reserve@,
        kind == ArenaKind::Medium ==> pre.heaps@[h].medium_object_reserve@.len() > 0
            && post.heaps@[h].medium_object_reserve@ == pre.heaps@[h].medium_object_reserve@.drop_last()
            && post.heaps@[h].small_object_reserve@ == pre.heaps@[h].small_object_reserve@,
    ensures
        post.wf(),
        post.live() == pre.live(),
        kind == ArenaKind::Small ==> pre.reserve_entry_ok(h, kind, pre.heaps@[h].small_object_reserve@.last())
            && !post.heaps@[h].small_object_reserve@.contains(pre.heaps@[h].small_object_reserve@.last()),
        kind == ArenaKind::Medium ==> pre.reserve_entry_ok(h, kind, pre.heaps@[h].medium_object_reserve@.last())
            && !post.heaps@[h].medium_object_reserve@.contains(pre.heaps@[h].medium_object_reserve@.last()),
{
    assert(pre.heap_wf(h));
    let heap = post.heaps@[h];
    let ph = pre.heaps@[h];
    assert forall|b: int, k: int|
        0 <= b < NUM_BINS && 0 <= k < heap.bins@[b]@.len() implies post.bin_entry_ok(
        h,
        b,
        #[trigger] heap.bins@[b]@[k],
    ) by {
        assert(pre.bin_entry_ok(h, b, ph.bins@[b]@[k]));
    }
    assert forall|k: int| 0 <= k < heap.small_object_reserve@.len() implies post.reserve_entry_ok(
        h,
        ArenaKind::Small,
        #[trigger] heap.small_object_reserve@[k],
    ) by {
        assert(heap.small_object_reserve@[k] == ph.small_object_reserve@[k]);
        assert(pre.reserve_entry_ok(h, ArenaKind::Small, ph.small_object_reserve@[k]));
    }
    assert forall|k: int| 0 <= k < heap.medium_object_reserve@.len() implies post.reserve_entry_ok(
        h,
        ArenaKind::Medium,
        #[trigger] heap.medium_object_reserve@[k],
    ) by {
        assert(heap.medium_object_reserve@[k] == ph.medium_object_reserve@[k]);
        assert(pre.reserve_entry_ok(h, ArenaKind::Medium, ph.medium_object_reserve@[k]));
    }
    let s = if kind == ArenaKind::Small {
        ph.small_object_reserve@
    } else {
        ph.medium_object_reserve@
    };
    let n = s.len() - 1;
    assert forall|i: int, j: int| 0 <= i < n && 0 <= j < n && i != j implies s.drop_last()[i] != s.drop_last()[j] by {
        assert(s.drop_last()[i] == s[i] && s.drop_last()[j] == s[j]);
    }
    assert(s.drop_last().no_duplicates());
    if s.drop_last().contains(s.last()) {
        let i = choose|i: int| 0 <= i < n && s.drop_last()[i] == s.last();
        assert(s[i] == s[n]);
    }
    assert(s[n] == s.last());
    if kind == ArenaKind::Small {
        assert(pre.reserve_entry_ok(h, kind, ph.small_object_reserve@[n]));
    } else {
        assert(pre.reserve_entry_ok(h, kind, ph.medium_object_reserve@[n]));
    }
    lemma_heap_replaced(pre, post, h);
}

/// An arena that holds address `a` starts at `a` rounded down to the
/// arena size.
proof fn lemma_arena_base(b: int, a: int)
    requires
        b % ARENA_SIZE as int == 0,
        0 <= b <= a < b + ARENA_SIZE,
    ensures
        b == a - a % ARENA_SIZE as int,
{
    vstd::arithmetic::div_mod::lemma_fundamental_div_mod(b, ARENA_SIZE as int);
    vstd::arithmetic::div_mod::lemma_fundamental_div_mod_converse(a, ARENA_SIZE as int, b / ARENA_SIZE as int, a - b);
}

/// Facts about a live address: the arena and page that hold it, and the
/// block's place in the page.
proof fn lemma_live_place(e: Engine, a: int)
    requires
        e.wf(),
        e.live().contains(a),
    ensures
        ({
            let i = e.arena_of(a);
            let arena = e.arenas@[i];
            let j = page_index_of(arena.kind, a - arena.base);
            let p = arena.pages@[j];
            &&& 0 <= i < e.arenas@.len()
            &&& arena.wf()
            &&& arena.live().contains(a)
            &&& 0 <= j < arena.pages@.len()
            &&& p.wf()
            &&& p.is_live(a - arena.base)
            &&& p == e.page_of(a)
            &&& p.page_start <= a - arena.base
            &&& a - arena.base + p.object_size <= p.page_end
            &&& p.page_start == page_start_of(arena.kind, j)
            &&& p.page_end == page_end_of(arena.kind, j)
            &&& a - arena.base == p.block((a - arena.base - p.first_block) / (p.object_size as int))
        }),
{
    let w = choose|w: int| 0 <= w < e.arenas@.len() && (#[trigger] e.arenas@[w]).live().contains(a);
    let i = e.arena_of(a);
    assert(e.arenas@[w].wf());
    assert(e.arenas@[i].wf());
    lemma_same_arena(e.arenas@[w].base as int, e.arenas@[i].base as int, a);
    assert(w == i);
    let arena = e.arenas@[i];
    let j = page_index_of(arena.kind, a - arena.base);
    let p = arena.pages@[j];
    p.lemma_carved_range(a - arena.base);
}

/// Two distinct live blocks never overlap: each spans its block size from
/// its address, and the two ranges are disjoint.
pub proof fn lemma_live_blocks_disjoint(e: Engine, a1: int, a2: int)
    requires
        e.wf(),
        e.live().contains(a1),
        e.live().contains(a2),
        a1 != a2,
    ensures
        a1 + e.block_size(a1) <= a2 || a2 + e.block_size(a2) <= a1,
{
    lemma_live_place(e, a1);
    lemma_live_place(e, a2);
    let i1 = e.arena_of(a1);
    let i2 = e.arena_of(a2);
    let r1 = e.arenas@[i1];
    let r2 = e.arenas@[i2];
    let z = ARENA_SIZE as int;
    if i1 != i2 {
        let b1 = r1.base as int;
        let b2 = r2.base as int;
        assert(b1 != b2);
        vstd::arithmetic::div_mod::lemma_fundamental_div_mod(b1, z);
        vstd::arithmetic::div_mod::lemma_fundamental_div_mod(b2, z);
        let q1 = b1 / z;
        let q2 = b2 / z;
        if b1 < b2 {
            assert(b1 + z <= b2) by (nonlinear_arith)
                requires
                    b1 == z * q1,
                    b2 == z * q2,
                    b1 < b2,
                    z > 0,
            ;
        } else {
            assert(b2 + z <= b1) by (nonlinear_arith)
                requires
                    b1 == z * q1,
                    b2 == z * q2,
                    b2 < b1,
                    z > 0,
            ;
        }
    } else {
        let kind = r1.kind;
        let j1 = page_index_of(kind, a1 - r1.base);
        let j2 = page_index_of(kind, a2 - r1.base);
        let ps = kind_page_size(kind);
        if j1 != j2 {
            if j1 < j2 {
                assert((j1 + 1) * ps <= j2 * ps) by (nonlinear_arith)
                    requires
                        j1 + 1 <= j2,
                        ps > 0,
            ;
            } else {
                assert((j2 + 1) * ps <= j1 * ps) by (nonlinear_arith)
                    requires
                        j2 + 1 <= j1,
                        ps > 0,
            ;
            }
        } else {
            let p = r1.pages@[j1];
            let size = p.object_size as int;
            let k1 = (a1 - r1.base - p.first_block) / size;
            let k2 = (a2 - r1.base - p.first_block) / size;
            if k1 < k2 {
                assert(k1 * size + size <= k2 * size) by (nonlinear_arith)
                    requires
                        k1 + 1 <= k2,
                        size > 0,
                ;
            } else {
                assert(k1 != k2);
                assert(k2 * size + size <= k1 * size) by (nonlinear_arith)
                    requires
                        k2 + 1 <= k1,
                        size > 0,
                ;
            }
        }
    }
}

/// A live block is aligned to every power of two that divides its block
/// size and the largest alignment of its arena's flavour.
pub proof fn lemma_live_block_aligned(e: Engine, a: int, align: nat)
    requires
        e.wf(),
        e.live().contains(a),
        is_pow2(align),
        kind_max_align(e.arenas@[e.arena_of(a)].kind) % (align as int) == 0,
        e.block_size(a) % (align as int) == 0,
    ensures
        a % (align as int) == 0,
{
    lemma_live_place(e, a);
    let arena = e.arenas@[e.arena_of(a)];
    let j = page_index_of(arena.kind, a - arena.base);
    let p = arena.pages@[j];
    let d = align as int;
    let z = ARENA_SIZE as int;
    let ma = kind_max_align(arena.kind);
    let size = p.object_size as int;
    let o = a - arena.base;
    let k = (o - p.first_block) / size;
    vstd::arithmetic::power2::lemma2_to64();
    let ea = choose|x: nat| vstd::arithmetic::power2::pow2(x) == align;
    vstd::arithmetic::power2::lemma_pow2_pos(ea);
    // The flavour's alignment divides the arena size, hence `align` does too.
    let (em, mz): (int, int) = match arena.kind {
        ArenaKind::Small => (256, 16384),
        ArenaKind::Medium => (1024, 4096),
        ArenaKind::Large => (524288, 8),
    };
    assert(ma == em && z == ma * mz);
    vstd::arithmetic::div_mod::lemma_fundamental_div_mod(ma, d);
    let qm = ma / d;
    assert(ma == d * qm);
    vstd::arithmetic::div_mod::lemma_fundamental_div_mod(arena.base as int, z);
    let qb = arena.base as int / z;
    vstd::arithmetic::div_mod::lemma_fundamental_div_mod(size, d);
    let qs = size / d;
    assert(size == d * qs);
    let qo: int = if arena.kind == ArenaKind::Large {
        vstd::arithmetic::div_mod::lemma_fundamental_div_mod(z - p.first_block, size);
        let m = (z - p.first_block) / size;
        assert(o == z - (m - k) * size) by (nonlinear_arith)
            requires
                z - p.first_block == size * m,
                o == p.first_block + k * size,
        ;
        assert(o == d * (qm * mz - (m - k) * qs)) by (nonlinear_arith)
            requires
                o == z - (m - k) * size,
                z == ma * mz,
                ma == d * qm,
                size == d * qs,
        ;
        qm * mz - (m - k) * qs
    } else {
        vstd::arithmetic::div_mod::lemma_fundamental_div_mod(p.first_block as int, ma);
        let f = p.first_block as int / ma;
        assert(o == d * (qm * f + k * qs)) by (nonlinear_arith)
            requires
                p.first_block == ma * f,
                o == p.first_block + k * size,
                ma == d * qm,
                size == d * qs,
        ;
        qm * f + k * qs
    };
    assert(a == d * (qm * mz * qb + qo)) by (nonlinear_arith)
        requires
            a == arena.base + o,
            arena.base == z * qb,
            z == ma * mz,
            ma == d * qm,
            o == d * qo,
    ;
    vstd::arithmetic::div_mod::lemma_mod_multiples_basic(qm * mz * qb + qo, d);
    vstd::arithmetic::mul::lemma_mul_is_commutative(qm * mz * qb + qo, d);
}

/// A block handed out from the head page of a bin and then freed by the
/// heap that owns it is the block that bin hands out next.
pub proof fn lemma_freed_block_reused(e1: Engine, e2: Engine, h: int, slot: int, p: int)
    requires
        e1.wf(),
        e2.wf(),
        0 <= h < e1.heaps@.len(),
        0 <= slot < NUM_BINS,
        e1.live().contains(p),
        e1.heaps@[h].bins@[slot]@.len() > 0,
        e1.heaps@[h].bins@[slot]@[0] == e1.ref_of(p),
        e2.heaps@ == e1.heaps@,
        e2.arenas@.len() == e1.arenas@.len(),
        forall|i: int|
            0 <= i < e1.arenas@.len() ==> (#[trigger] e2.arenas@[i]).base == e1.arenas@[i].base,
        ({
            let i = e1.arena_of(p);
            let arena = e1.arenas@[i];
            let q = e2.arenas@[i].pages@[page_index_of(arena.kind, p - arena.base)];
            q.free_list@.len() > 0 && q.free_list@.last() == (p - arena.base) as u32
        }),
    ensures
        e2.next_reuse(h, slot) == Some(p),
{
    lemma_live_place(e1, p);
    let i = e1.arena_of(p);
    let r = e1.ref_of(p);
    assert(0 <= i < e1.arenas@.len());
    assert(e1.arenas@.len() <= usize::MAX) by {
        vstd::std_specs::vec::axiom_spec_len(&e1.arenas);
    }
    assert(r.arena as int == i);
    assert(e2.arenas@[i].base == e1.arenas@[i].base);
    assert(e2.heaps@[h].bins@[slot]@[0] == r);
}

/// Live blocks keep their block size when every arena keeps its base,
/// flavour and the object size of its bound pages.
pub proof fn lemma_block_sizes_kept(pre: Engine, post: Engine)
    requires
        pre.wf(),
        post.wf(),
        pre.keeps_blocks(post),
    ensures
        forall|x: int| #[trigger] pre.live().contains(x) ==> post.block_size(x) == pre.block_size(x),
{
    assert forall|x: int| #[trigger] pre.live().contains(x) implies post.block_size(x) == pre.block_size(x) by {
        lemma_live_place(pre, x);
        let i = pre.arena_of(x);
        assert(post.arenas@[i].base == pre.arenas@[i].base);
        let i2 = post.arena_of(x);
        assert(0 <= i2 < post.arenas@.len() && post.arenas@[i2].base <= x < post.arenas@[i2].base + ARENA_SIZE);
        assert(post.arenas@[i2].wf());
        assert(post.arenas@[i].wf());
        lemma_same_arena(post.arenas@[i2].base as int, post.arenas@[i].base as int, x);
        assert(i2 == i);
        let j = page_index_of(pre.arenas@[i].kind, x - pre.arenas@[i].base);
        assert(pre.arenas@[i].pages@[j].is_bound());
    }
}

/// Replacing page `r` by a page that keeps its object size if it had one
/// keeps every arena's blocks.
proof fn lemma_one_page_keeps(pre: Engine, post: Engine, r: PageRef, np: SlabPage)
    requires
        pre.ref_ok(r),
        pre.page_at(r).is_bound() ==> np.object_size == pre.page_at(r).object_size,
        post.arenas@.len() == pre.arenas@.len(),
        forall|i: int| 0 <= i < pre.arenas@.len() && i != r.arena ==> post.arenas@[i] == pre.arenas@[i],
        post.arenas@[r.arena as int].base == pre.arenas@[r.arena as int].base,
        post.arenas@[r.arena as int].kind == pre.arenas@[r.arena as int].kind,
        post.arenas@[r.arena as int].pages@ == pre.arenas@[r.arena as int].pages@.update(r.page as int, np),
    ensures
        pre.keeps_blocks(post),
{
    assert forall|i: int, j: int|
        0 <= i < pre.arenas@.len() && 0 <= j < pre.arenas@[i].pages@.len()
            && (#[trigger] pre.arenas@[i].pages@[j]).is_bound() implies post.arenas@[i].pages@[j].object_size
        == pre.arenas@[i].pages@[j].object_size by {
        if i != r.arena {
            assert(post.arenas@[i] == pre.arenas@[i]);
        }
    }
    assert forall|i: int| 0 <= i < pre.arenas@.len() implies {
        &&& (#[trigger] post.arenas@[i]).base == pre.arenas@[i].base
        &&& post.arenas@[i].kind == pre.arenas@[i].kind
        &&& post.arenas@[i].pages@.len() == pre.arenas@[i].pages@.len()
    } by {
        if i != r.arena {
            assert(post.arenas@[i] == pre.arenas@[i]);
        }
    }
}

/// Keeping blocks is transitive.
proof fn lemma_keeps_trans(a: Engine, b: Engine, c: Engine)
    requires
        a.keeps_blocks(b),
        b.keeps_blocks(c),
    ensures
        a.keeps_blocks(c),
{
    assert forall|i: int, j: int|
        0 <= i < a.arenas@.len() && 0 <= j < a.arenas@[i].pages@.len()
            && (#[trigger] a.arenas@[i].pages@[j]).is_bound() implies c.arenas@[i].pages@[j].object_size
        == a.arenas@[i].pages@[j].object_size by {
        assert(b.arenas@[i].pages@[j].object_size == a.arenas@[i].pages@[j].object_size);
        assert(b.arenas@[i].pages@[j].is_bound());
        assert(b.arenas@[i].pages@.len() == a.arenas@[i].pages@.len());
    }
    assert forall|i: int| 0 <= i < a.arenas@.len() implies {
        &&& (#[trigger] c.arenas@[i]).base == a.arenas@[i].base
        &&& c.arenas@[i].kind == a.arenas@[i].kind
        &&& c.arenas@[i].pages@.len() == a.arenas@[i].pages@.len()
    } by {
        assert(b.arenas@[i].base == a.arenas@[i].base);
    }
}

} // verus!
