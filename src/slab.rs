//! The per-page state shared by every arena flavour: a page carves blocks of
//! one size class from its reserve and keeps freed blocks on a local free
//! list (pushed by the owning heap) and a foreign free list (pushed by every
//! other heap). Offsets are relative to the arena that holds the page.
use vstd::prelude::*;

verus! {

/// Size (and alignment) of every arena.
pub const ARENA_SIZE: u32 = 4194304;

/// The granularity of the operating system's pages; pre-threading of fresh
/// blocks stops at these boundaries.
pub const OS_PAGE: u32 = 4096;

/// Metadata of one page of an arena.
pub struct SlabPage {
    /// Index of the page within its arena.
    pub page_number: u32,
    /// Arena offset of the first byte that may hold objects.
    pub page_start: u32,
    /// Arena offset one past the last byte of the page.
    pub page_end: u32,
    /// Bound size class; `0` while the page sits in a reserve.
    pub object_size: u32,
    /// Arena offset of block `0`.
    pub first_block: u32,
    /// Number of blocks of `object_size` bytes that fit in the page.
    pub capacity: u32,
    /// Number of blocks taken from the reserve so far.
    pub carved: u32,
    /// Whether fresh blocks are threaded onto the free list up to the next
    /// OS page boundary.
    pub pre_thread: bool,
    /// Local free list; its head is the last element.
    pub free_list: Vec<u32>,
    /// Foreign free list; its head is the last element.
    pub foreign_free_list: Vec<u32>,
}

impl SlabPage {
    /// Arena offset of block `k`.
    pub open spec fn block(self, k: int) -> int {
        self.first_block + k * self.object_size
    }

    /// `o` is the offset of a block that has left the reserve.
    pub open spec fn is_carved_block(self, o: int) -> bool {
        &&& self.object_size > 0
        &&& o >= self.first_block
        &&& (o - self.first_block) % (self.object_size as int) == 0
        &&& (o - self.first_block) / (self.object_size as int) < self.carved
    }

    /// `o` is on one of the two free lists.
    pub open spec fn is_free(self, o: int) -> bool {
        self.free_list@.contains(o as u32) || self.foreign_free_list@.contains(o as u32)
    }

    /// `o` is the offset of a block that is handed out and not yet freed.
    pub open spec fn is_live(self, o: int) -> bool {
        self.is_carved_block(o) && !self.is_free(o)
    }

    /// The offsets of all live blocks.
    pub open spec fn live(self) -> Set<int> {
        Set::new(|o: int| self.is_live(o))
    }

    /// The page is bound to a size class.
    pub open spec fn is_bound(self) -> bool {
        self.object_size > 0
    }

    /// Arena offset of the next block the reserve hands out.
    pub open spec fn next_offset(self) -> int {
        self.block(self.carved as int)
    }

    /// The page can serve one more block.
    pub open spec fn can_alloc(self) -> bool {
        self.free_list@.len() > 0 || self.foreign_free_list@.len() > 0 || self.carved < self.capacity
    }

    /// How many blocks are threaded onto the free list after a block is
    /// carved from the reserve: those that fit before the next OS page
    /// boundary.
    pub open spec fn prethread_count(self) -> int {
        if !self.pre_thread {
            0
        } else {
            let fit = ((self.page_end as int - self.block(self.carved + 1)) % (OS_PAGE as int)) / (
            self.object_size as int);
            let left = self.capacity - self.carved - 1;
            if fit < left {
                fit
            } else {
                left
            }
        }
    }

    /// The fields that never change once the page is bound.
    pub open spec fn same_geometry(self, other: SlabPage) -> bool {
        &&& self.page_number == other.page_number
        &&& self.page_start == other.page_start
        &&& self.page_end == other.page_end
        &&& self.object_size == other.object_size
        &&& self.first_block == other.first_block
        &&& self.capacity == other.capacity
        &&& self.pre_thread == other.pre_thread
    }

    /// Well-formedness: the blocks fit in the page, and every entry of the
    /// free lists is a distinct carved block.
    pub open spec fn wf(self) -> bool {
        &&& self.page_start <= self.page_end <= ARENA_SIZE
        &&& self.page_end as int % (OS_PAGE as int) == 0
        &&& if self.is_bound() {
            &&& self.page_start <= self.first_block
            &&& self.first_block + self.capacity * self.object_size <= self.page_end
            &&& self.carved <= self.capacity
        } else {
            &&& self.carved == 0
            &&& self.free_list@.len() == 0
            &&& self.foreign_free_list@.len() == 0
        }
        &&& forall|i: int|
            0 <= i < self.free_list@.len() ==> self.is_carved_block(
                #[trigger] self.free_list@[i] as int,
            )
        &&& forall|i: int|
            0 <= i < self.foreign_free_list@.len() ==> self.is_carved_block(
                #[trigger] self.foreign_free_list@[i] as int,
            )
        &&& (self.free_list@ + self.foreign_free_list@).no_duplicates()
    }

    /// A fresh, unbound page covering `[page_start, page_end)` of its arena.
    pub fn new(page_number: u32, page_start: u32, page_end: u32, pre_thread: bool) -> (r: SlabPage)
        requires
            page_start <= page_end <= ARENA_SIZE,
            page_end % OS_PAGE == 0,
        ensures
            r.wf(),
            !r.is_bound(),
            r.page_number == page_number,
            r.page_start == page_start,
            r.page_end == page_end,
            r.pre_thread == pre_thread,
            r.live() == Set::<int>::empty(),
    {
        let r = SlabPage {
            page_number,
            page_start,
            page_end,
            object_size: 0,
            first_block: page_start,
            capacity: 0,
            carved: 0,
            pre_thread,
            free_list: Vec::new(),
            foreign_free_list: Vec::new(),
        };
        proof {
            assert(r.live() =~= Set::<int>::empty());
        }
        r
    }

    /// Binds an unbound page to `object_size`; its blocks start at
    /// `first_block` and as many as fit before the end of the page are
    /// available.
    pub fn bind(&mut self, object_size: u32, first_block: u32)
        requires
            old(self).wf(),
            !old(self).is_bound(),
            object_size > 0,
            old(self).page_start <= first_block <= old(self).page_end,
        ensures
            final(self).wf(),
            final(self).is_bound(),
            final(self).object_size == object_size,
            final(self).first_block == first_block,
            final(self).capacity == (old(self).page_end - first_block) / (object_size as int),
            final(self).carved == 0,
            final(self).page_number == old(self).page_number,
            final(self).page_start == old(self).page_start,
            final(self).page_end == old(self).page_end,
            final(self).pre_thread == old(self).pre_thread,
            final(self).live() == Set::<int>::empty(),
    {
        let capacity = (self.page_end - first_block) / object_size;
        proof {
            let span = (self.page_end - first_block) as int;
            vstd::arithmetic::div_mod::lemma_fundamental_div_mod(span, object_size as int);
            assert(capacity * object_size <= span) by (nonlinear_arith)
                requires
                    span == object_size * capacity + span % (object_size as int),
                    span % (object_size as int) >= 0,
            ;
        }
        self.object_size = object_size;
        self.first_block = first_block;
        self.capacity = capacity;
        proof {
            assert(self.live() =~= Set::<int>::empty());
        }
    }

    /// Hands out one block: the head of the local free list, else the head
    /// of the foreign free list (which becomes the local list), else a fresh
    /// block from the reserve, after which the blocks up to the next OS page
    /// boundary are threaded onto the local free list.
    pub fn alloc_object(&mut self) -> (r: Option<u32>)
        requires
            old(self).wf(),
            old(self).is_bound(),
        ensures
            final(self).wf(),
            final(self).same_geometry(*old(self)),
            r.is_some() == old(self).can_alloc(),
            r is None ==> *final(self) == *old(self),
            r is Some ==> {
                let o = r.unwrap() as int;
                &&& !old(self).is_live(o)
                &&& final(self).is_live(o)
                &&& final(self).live() == old(self).live().insert(o)
            },
            old(self).free_list@.len() > 0 ==> r == Some(old(self).free_list@.last())
                && final(self).free_list@ == old(self).free_list@.drop_last()
                && final(self).foreign_free_list@ == old(self).foreign_free_list@
                && final(self).carved == old(self).carved,
            old(self).free_list@.len() == 0 && old(self).foreign_free_list@.len() > 0 ==> r == Some(
                old(self).foreign_free_list@.last(),
            ) && final(self).free_list@ == old(self).foreign_free_list@.drop_last()
                && final(self).foreign_free_list@.len() == 0 && final(self).carved == old(
                self,
            ).carved,
            old(self).free_list@.len() == 0 && old(self).foreign_free_list@.len() == 0 && old(
                self,
            ).carved < old(self).capacity ==> r == Some(old(self).next_offset() as u32)
                && final(self).carved == old(self).carved + 1 + old(self).prethread_count()
                && final(self).foreign_free_list@.len() == 0 && final(self).free_list@ == Seq::new(
                old(self).prethread_count() as nat,
                |i: int| old(self).block(old(self).carved + old(self).prethread_count() - i) as u32,
            ),
    {
        let ghost pre = *self;
        if self.free_list.len() > 0 {
            let o = self.free_list.pop().unwrap();
            proof {
                self.lemma_pop_keeps(pre, o);
            }
            Some(o)
        } else if self.foreign_free_list.len() > 0 {
            let mut adopted = Vec::new();
            std::mem::swap(&mut adopted, &mut self.foreign_free_list);
            self.free_list = adopted;
            proof {
                assert(pre.free_list@ + pre.foreign_free_list@ =~= self.free_list@
                    + self.foreign_free_list@);
                assert forall|x: int| #[trigger] self.is_free(x) == pre.is_free(x) by {}
                assert(self.live() =~= pre.live());
            }
            let ghost mid = *self;
            let o = self.free_list.pop().unwrap();
            proof {
                self.lemma_pop_keeps(mid, o);
            }
            Some(o)
        } else if self.carved < self.capacity {
            proof {
                self.lemma_block_bounds(self.carved as int);
                self.lemma_block_bounds(self.carved + 1);
            }
            let o = self.first_block + self.carved * self.object_size;
            let c1 = self.carved + 1;
            let n = self.prethread(c1);
            let mut k = c1 + n;
            proof {
                self.lemma_block_bounds(k as int);
            }
            while k > c1
                invariant
                    self.same_geometry(pre),
                    self.carved == pre.carved,
                    self.foreign_free_list@ == pre.foreign_free_list@,
                    pre.wf(),
                    pre.is_bound(),
                    pre.free_list@.len() == 0,
                    c1 == pre.carved + 1,
                    n as int == pre.prethread_count(),
                    c1 <= k <= c1 + n,
                    c1 + n <= pre.capacity,
                    self.free_list@ == Seq::new(
                        (c1 + n - k) as nat,
                        |i: int| pre.block(pre.carved + pre.prethread_count() - i) as u32,
                    ),
                decreases k,
            {
                k = k - 1;
                proof {
                    pre.lemma_block_bounds(k as int);
                }
                let b = self.first_block + k * self.object_size;
                self.free_list.push(b);
                proof {
                    assert(self.free_list@ =~= Seq::new(
                        (c1 + n - k) as nat,
                        |i: int| pre.block(pre.carved + pre.prethread_count() - i) as u32,
                    ));
                }
            }
            self.carved = c1 + n;
            proof {
                lemma_carve(pre, *self, o);
            }
            Some(o)
        } else {
            None
        }
    }

    /// Whether the block at offset `o` is live.
    pub fn holds(&self, o: u32) -> (r: bool)
        requires
            self.wf(),
        ensures
            r == self.is_live(o as int),
    {
        if self.object_size == 0 || o < self.first_block {
            return false;
        }
        let d = o - self.first_block;
        if d % self.object_size != 0 || d / self.object_size >= self.carved {
            return false;
        }
        !contains(&self.free_list, o) && !contains(&self.foreign_free_list, o)
    }

    /// Whether the page can serve one more block.
    pub fn has_room(&self) -> (r: bool)
        ensures
            r == self.can_alloc(),
    {
        self.free_list.len() > 0 || self.foreign_free_list.len() > 0 || self.carved < self.capacity
    }

    /// Number of blocks to thread onto the free list once `c1` blocks are
    /// carved.
    fn prethread(&self, c1: u32) -> (n: u32)
        requires
            self.wf(),
            self.is_bound(),
            c1 == self.carved + 1,
            c1 <= self.capacity,
        ensures
            n as int == self.prethread_count(),
            c1 + n <= self.capacity,
    {
        if !self.pre_thread {
            0
        } else {
            proof {
                self.lemma_block_bounds(c1 as int);
            }
            let next = self.first_block + c1 * self.object_size;
            let fit = ((self.page_end - next) % OS_PAGE) / self.object_size;
            let left = self.capacity - c1;
            if fit < left {
                fit
            } else {
                left
            }
        }
    }

    /// Returns a live block to the page: onto the local free list when the
    /// owning heap frees it, onto the foreign free list otherwise.
    pub fn dealloc(&mut self, o: u32, local: bool)
        requires
            old(self).wf(),
            old(self).is_live(o as int),
        ensures
            final(self).wf(),
            final(self).same_geometry(*old(self)),
            final(self).carved == old(self).carved,
            final(self).live() == old(self).live().remove(o as int),
            local ==> final(self).free_list@ == old(self).free_list@.push(o)
                && final(self).foreign_free_list@ == old(self).foreign_free_list@,
            !local ==> final(self).foreign_free_list@ == old(self).foreign_free_list@.push(o)
                && final(self).free_list@ == old(self).free_list@,
    {
        let ghost pre = *self;
        if local {
            self.free_list.push(o);
        } else {
            self.foreign_free_list.push(o);
        }
        proof {
            let a = pre.free_list@;
            let b = pre.foreign_free_list@;
            assert(!(a + b).contains(o)) by {
                if (a + b).contains(o) {
                    let j = choose|j: int| 0 <= j < (a + b).len() && (a + b)[j] == o;
                    if j < a.len() {
                        assert(a.contains(o));
                    } else {
                        assert(b[j - a.len()] == o);
                        assert(b.contains(o));
                    }
                }
            }
            let s = self.free_list@ + self.foreign_free_list@;
            if local {
                assert(s =~= (a + b).insert(a.len() as int, o));
            } else {
                assert(s =~= (a + b).push(o));
            }
            lemma_insert_no_dup(a + b, if local { a.len() as int } else { (a + b).len() as int }, o);
            assert forall|i: int| 0 <= i < self.free_list@.len() implies self.is_carved_block(
                #[trigger] self.free_list@[i] as int,
            ) by {
                if !local || i < a.len() {
                    assert(self.free_list@[i] == a[i]);
                }
            }
            assert forall|i: int| 0 <= i < self.foreign_free_list@.len() implies self.is_carved_block(
                #[trigger] self.foreign_free_list@[i] as int,
            ) by {
                if local || i < b.len() {
                    assert(self.foreign_free_list@[i] == b[i]);
                }
            }
            assert forall|x: int| #[trigger] self.live().contains(x) == pre.live().remove(o as int).contains(x) by {
                if pre.is_carved_block(x) {
                    pre.lemma_carved_range(x);
                    if x != o as int {
                        assert(self.free_list@.contains(x as u32) ==> pre.free_list@.contains(x as u32)) by {
                            if self.free_list@.contains(x as u32) {
                                let j = choose|j: int| 0 <= j < self.free_list@.len() && self.free_list@[j] == x as u32;
                                if local && j == a.len() {
                                } else {
                                    assert(a[j] == x as u32);
                                }
                            }
                        }
                        assert(self.foreign_free_list@.contains(x as u32) ==> pre.foreign_free_list@.contains(x as u32)) by {
                            if self.foreign_free_list@.contains(x as u32) {
                                let j = choose|j: int| 0 <= j < self.foreign_free_list@.len() && self.foreign_free_list@[j] == x as u32;
                                if !local && j == b.len() {
                                } else {
                                    assert(b[j] == x as u32);
                                }
                            }
                        }
                        assert(pre.free_list@.contains(x as u32) ==> self.free_list@.contains(x as u32)) by {
                            if pre.free_list@.contains(x as u32) {
                                let j = choose|j: int| 0 <= j < a.len() && a[j] == x as u32;
                                assert(self.free_list@[j] == a[j]);
                            }
                        }
                        assert(pre.foreign_free_list@.contains(x as u32) ==> self.foreign_free_list@.contains(x as u32)) by {
                            if pre.foreign_free_list@.contains(x as u32) {
                                let j = choose|j: int| 0 <= j < b.len() && b[j] == x as u32;
                                assert(self.foreign_free_list@[j] == b[j]);
                            }
                        }
                    } else {
                        if local {
                            assert(self.free_list@[a.len() as int] == o);
                        } else {
                            assert(self.foreign_free_list@[b.len() as int] == o);
                        }
                    }
                }
            }
            assert(self.live() =~= pre.live().remove(o as int));
        }
    }

    pub proof fn lemma_block_bounds(self, k: int)
        requires
            self.wf(),
            self.is_bound(),
            0 <= k <= self.capacity,
        ensures
            self.first_block + k * self.object_size <= self.page_end,
            k * self.object_size <= self.capacity * self.object_size,
            self.is_carved_block(self.block(k)) <==> k < self.carved,
    {
        assert(k * self.object_size <= self.capacity * self.object_size) by (nonlinear_arith)
            requires
                0 <= k <= self.capacity,
        ;
        lemma_block_index(self.object_size as int, k);
    }

    proof fn lemma_pop_keeps(self, pre: SlabPage, o: u32)
        requires
            pre.wf(),
            pre.free_list@.len() > 0,
            o == pre.free_list@.last(),
            self.free_list@ == pre.free_list@.drop_last(),
            self.foreign_free_list@ == pre.foreign_free_list@,
            self.same_geometry(pre),
            self.carved == pre.carved,
        ensures
            self.wf(),
            !pre.is_live(o as int),
            self.is_live(o as int),
            self.live() == pre.live().insert(o as int),
    {
        let a = pre.free_list@;
        let b = pre.foreign_free_list@;
        let n = a.len() - 1;
        assert(a[n] == o);
        assert((a + b)[n] == o);
        assert(a.contains(o));
        lemma_drop_no_dup(a, b);
        assert forall|i: int| 0 <= i < self.free_list@.len() implies self.is_carved_block(
            #[trigger] self.free_list@[i] as int,
        ) by {
            assert(self.free_list@[i] == a[i]);
        }
        assert(self.free_list@ + self.foreign_free_list@ =~= a.drop_last() + b);
        assert(pre.is_carved_block(a[n] as int));
        pre.lemma_carved_range(o as int);
        let d = a.drop_last() + b;
        if self.free_list@.contains(o) {
            let j = choose|j: int| 0 <= j < self.free_list@.len() && self.free_list@[j] == o;
            assert(d[j] == o);
        }
        if self.foreign_free_list@.contains(o) {
            let j = choose|j: int| 0 <= j < b.len() && b[j] == o;
            assert(d[n + j] == o);
        }
        assert(self.is_live(o as int));
        assert forall|x: int| #[trigger] self.live().contains(x) == pre.live().insert(o as int).contains(x) by {
            if x == o as int {
            } else if pre.is_carved_block(x) {
                pre.lemma_carved_range(x);
                assert(x as u32 != o);
                assert(self.free_list@.contains(x as u32) == a.contains(x as u32)) by {
                    if a.contains(x as u32) {
                        let j = choose|j: int| 0 <= j < a.len() && a[j] == x as u32;
                        assert(j != n);
                        assert(self.free_list@[j] == a[j]);
                    }
                    if self.free_list@.contains(x as u32) {
                        let j = choose|j: int| 0 <= j < self.free_list@.len() && self.free_list@[j] == x as u32;
                        assert(a[j] == x as u32);
                    }
                }
                assert(self.is_live(x) == pre.is_live(x));
            } else {
                assert(!self.is_carved_block(x));
            }
        }
        assert(self.live() =~= pre.live().insert(o as int));
    }

    /// A carved block is the block of index `(o - first_block) / object_size`
    /// and lies inside the page.
    pub proof fn lemma_carved_range(self, o: int)
        requires
            self.wf(),
            self.is_carved_block(o),
        ensures
            o == self.block((o - self.first_block) / (self.object_size as int)),
            0 <= o,
            o + self.object_size <= self.page_end,
            o < ARENA_SIZE,
    {
        let size = self.object_size as int;
        let k = (o - self.first_block) / size;
        vstd::arithmetic::div_mod::lemma_fundamental_div_mod(o - self.first_block, size);
        vstd::arithmetic::mul::lemma_mul_is_commutative(k, size);
        assert((k + 1) * size <= self.capacity * size) by (nonlinear_arith)
            requires
                0 <= k < self.capacity,
                size > 0,
        ;
        assert((k + 1) * size == k * size + size) by (nonlinear_arith);
    }
}

/// Removing the last element of `a` keeps `a + b` free of duplicates, and
/// that element occurs nowhere else.
proof fn lemma_drop_no_dup(a: Seq<u32>, b: Seq<u32>)
    requires
        (a + b).no_duplicates(),
        a.len() > 0,
    ensures
        (a.drop_last() + b).no_duplicates(),
        !(a.drop_last() + b).contains(a.last()),
{
    let c = a + b;
    let d = a.drop_last() + b;
    let n = a.len() - 1;
    // index of d in c
    assert forall|i: int| 0 <= i < d.len() implies #[trigger] d[i] == c[if i < n { i } else { i + 1 }] by {}
    assert forall|i: int, j: int| 0 <= i < d.len() && 0 <= j < d.len() && i != j implies d[i] != d[j] by {
        let ii = if i < n { i } else { i + 1 };
        let jj = if j < n { j } else { j + 1 };
        assert(d[i] == c[ii]);
        assert(d[j] == c[jj]);
    }
    if d.contains(a.last()) {
        let i = choose|i: int| 0 <= i < d.len() && d[i] == a.last();
        let ii = if i < n { i } else { i + 1 };
        assert(d[i] == c[ii]);
        assert(c[n] == a.last());
    }
}

/// Inserting a value that is absent keeps a sequence free of duplicates.
proof fn lemma_insert_no_dup(c: Seq<u32>, idx: int, o: u32)
    requires
        c.no_duplicates(),
        !c.contains(o),
        0 <= idx <= c.len(),
    ensures
        c.insert(idx, o).no_duplicates(),
{
    let d = c.insert(idx, o);
    assert forall|i: int, j: int| 0 <= i < d.len() && 0 <= j < d.len() && i != j implies d[i] != d[j] by {
        if i == idx {
            let jj = if j < idx { j } else { j - 1 };
            assert(d[j] == c[jj]);
        } else if j == idx {
            let ii = if i < idx { i } else { i - 1 };
            assert(d[i] == c[ii]);
        } else {
            let ii = if i < idx { i } else { i - 1 };
            let jj = if j < idx { j } else { j - 1 };
            assert(d[i] == c[ii]);
            assert(d[j] == c[jj]);
        }
    }
}

/// Carving block `pre.carved` and threading the following blocks onto the
/// (empty) free list adds exactly that block to the live ones.
proof fn lemma_carve(pre: SlabPage, post: SlabPage, o: u32)
    requires
        pre.wf(),
        pre.is_bound(),
        pre.free_list@.len() == 0,
        pre.foreign_free_list@.len() == 0,
        pre.carved < pre.capacity,
        post.same_geometry(pre),
        post.carved == pre.carved + 1 + pre.prethread_count(),
        post.carved <= pre.capacity,
        pre.prethread_count() >= 0,
        post.foreign_free_list@.len() == 0,
        post.free_list@ == Seq::new(
            pre.prethread_count() as nat,
            |i: int| pre.block(pre.carved + pre.prethread_count() - i) as u32,
        ),
        o as int == pre.next_offset(),
    ensures
        post.wf(),
        !pre.is_live(o as int),
        post.is_live(o as int),
        post.live() == pre.live().insert(o as int),
{
    let size = pre.object_size as int;
    let c = pre.carved as int;
    let n = pre.prethread_count();
    let f = post.free_list@;
    // Every block below `post.carved` lies in the page and is carved.
    assert forall|k: int| 0 <= k < post.carved implies #[trigger] post.is_carved_block(pre.block(k))
        && pre.block(k) + size <= pre.page_end && (pre.block(k) - pre.first_block) / size == k
        && pre.block(k) >= 0 by {
        pre.lemma_block_bounds(k + 1);
        assert((k + 1) * size == k * size + size) by (nonlinear_arith);
        lemma_block_index(size, k);
        assert(k * size >= 0) by (nonlinear_arith)
            requires
                k >= 0,
                size > 0,
        ;
    }
    assert forall|i: int| 0 <= i < f.len() implies #[trigger] f[i] as int == pre.block(c + n - i) by {
        assert(0 <= c + n - i < post.carved);
        assert(post.is_carved_block(pre.block(c + n - i)));
    }
    assert forall|i: int| 0 <= i < f.len() implies post.is_carved_block(#[trigger] f[i] as int) by {
        assert(0 <= c + n - i < post.carved);
    }
    assert(post.free_list@ + post.foreign_free_list@ =~= f);
    assert forall|i: int, j: int| 0 <= i < f.len() && 0 <= j < f.len() && i != j implies f[i] != f[j] by {
        assert(0 <= c + n - i < post.carved);
        assert(0 <= c + n - j < post.carved);
        if f[i] == f[j] {
            assert(pre.block(c + n - i) == pre.block(c + n - j));
            assert((c + n - i) * size == (c + n - j) * size);
            assert(c + n - i == c + n - j) by (nonlinear_arith)
                requires
                    (c + n - i) * size == (c + n - j) * size,
                    size > 0,
            ;
        }
    }
    assert(0 <= c < post.carved);
    // `o` is block `c`, below every threaded block.
    assert(post.is_live(o as int)) by {
        if f.contains(o) {
            let i = choose|i: int| 0 <= i < f.len() && f[i] == o;
            assert(0 <= c + n - i < post.carved);
            assert(pre.block(c + n - i) == pre.block(c));
            assert(c + n - i == c) by (nonlinear_arith)
                requires
                    pre.first_block + (c + n - i) * size == pre.first_block + c * size,
                    size > 0,
            ;
        }
    }
    assert forall|x: int| #[trigger] post.live().contains(x) == pre.live().insert(o as int).contains(x) by {
        if post.is_carved_block(x) {
            post.lemma_carved_range(x);
            let k = (x - pre.first_block) / size;
            if k < c {
                assert(pre.is_carved_block(x));
                if f.contains(x as u32) {
                    let i = choose|i: int| 0 <= i < f.len() && f[i] == x as u32;
                    assert(0 <= c + n - i < post.carved);
                    assert(pre.block(c + n - i) == pre.block(k));
                    assert(c + n - i == k) by (nonlinear_arith)
                        requires
                            pre.first_block + (c + n - i) * size == pre.first_block + k * size,
                            size > 0,
                    ;
                }
            } else if k == c {
                assert(x == o as int);
            } else {
                let i = c + n - k;
                assert(0 <= i < f.len());
                assert(f[i] as int == pre.block(k));
                assert(f.contains(x as u32));
            }
        } else {
            if pre.is_carved_block(x) {
                assert((x - pre.first_block) / size < post.carved);
            }
            if x == o as int {
                assert(post.is_carved_block(pre.block(c)));
            }
        }
    }
    assert(post.live() =~= pre.live().insert(o as int));
}

/// `k * size` is a multiple of `size` whose quotient is `k`.
proof fn lemma_block_index(size: int, k: int)
    requires
        size > 0,
        k >= 0,
    ensures
        (k * size) % size == 0,
        (k * size) / size == k,
{
    vstd::arithmetic::div_mod::lemma_mod_multiples_basic(k, size);
    vstd::arithmetic::div_mod::lemma_div_multiples_vanish(k, size);
    vstd::arithmetic::mul::lemma_mul_is_commutative(k, size);
}

/// Whether `v` holds `x`.
fn contains(v: &Vec<u32>, x: u32) -> (r: bool)
    ensures
        r == v@.contains(x),
{
    let mut i: usize = 0;
    while i < v.len()
        invariant
            i <= v@.len(),
            forall|j: int| 0 <= j < i ==> v@[j] != x,
        decreases v@.len() - i,
    {
        if v[i] == x {
            return true;
        }
        i = i + 1;
    }
    false
}

} // verus!
