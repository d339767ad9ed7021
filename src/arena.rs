//! Arenas: 4 MiB regions, 4 MiB-aligned, split into pages of one flavour.
//! The three flavours differ only in their page size, the metadata zone at
//! the start of the arena, and the largest alignment they guarantee.
use crate::bins::{LARGE_MAX_ALIGN, MEDIUM_MAX_ALIGN, SMALL_MAX_ALIGN};
use crate::slab::{SlabPage, ARENA_SIZE, OS_PAGE};
use vstd::prelude::*;

verus! {

/// Page size of a small-object arena.
pub const SMALL_PAGE_SIZE: u32 = 32768;

/// Page size of a medium-object arena.
pub const MEDIUM_PAGE_SIZE: u32 = 131072;

/// Bytes at the start of a small-object arena that hold no objects.
pub const SMALL_METADATA_ZONE: u32 = 4096;

/// Bytes at the start of a medium-object arena that hold no objects.
pub const MEDIUM_METADATA_ZONE: u32 = 1024;

/// Bytes at the start of a large-object arena that hold no objects.
pub const LARGE_METADATA_ZONE: u32 = 4096;

/// The flavour of an arena.
#[derive(PartialEq, Eq, Structural, Clone, Copy, Debug)]
pub enum ArenaKind {
    /// 128 pages of 32 KiB.
    Small,
    /// 32 pages of 128 KiB.
    Medium,
    /// One page spanning the whole arena.
    Large,
}

pub open spec fn kind_page_size(k: ArenaKind) -> int {
    match k {
        ArenaKind::Small => SMALL_PAGE_SIZE as int,
        ArenaKind::Medium => MEDIUM_PAGE_SIZE as int,
        ArenaKind::Large => ARENA_SIZE as int,
    }
}

pub open spec fn kind_metadata_zone(k: ArenaKind) -> int {
    match k {
        ArenaKind::Small => SMALL_METADATA_ZONE as int,
        ArenaKind::Medium => MEDIUM_METADATA_ZONE as int,
        ArenaKind::Large => LARGE_METADATA_ZONE as int,
    }
}

/// The largest alignment an object of the flavour may ask for.
pub open spec fn kind_max_align(k: ArenaKind) -> int {
    match k {
        ArenaKind::Small => SMALL_MAX_ALIGN as int,
        ArenaKind::Medium => MEDIUM_MAX_ALIGN as int,
        ArenaKind::Large => LARGE_MAX_ALIGN as int,
    }
}

pub open spec fn kind_num_pages(k: ArenaKind) -> int {
    match k {
        ArenaKind::Small => 128,
        ArenaKind::Medium => 32,
        ArenaKind::Large => 1,
    }
}

/// Arena offset of the first byte of page `j` that may hold objects.
pub open spec fn page_start_of(k: ArenaKind, j: int) -> int {
    j * kind_page_size(k) + if j == 0 {
        kind_metadata_zone(k)
    } else {
        0
    }
}

/// Arena offset one past page `j`.
pub open spec fn page_end_of(k: ArenaKind, j: int) -> int {
    (j + 1) * kind_page_size(k)
}

/// The page of the flavour that holds arena offset `o`.
pub open spec fn page_index_of(k: ArenaKind, o: int) -> int {
    o / kind_page_size(k)
}

/// Metadata of one arena.
pub struct Arena {
    /// Address of the first byte of the arena.
    pub base: usize,
    /// Identifier of the heap that owns the arena.
    pub owner: u64,
    pub kind: ArenaKind,
    pub pages: Vec<SlabPage>,
}

impl Arena {
    /// The bound page `p` of this arena lays its blocks out so that each is
    /// aligned to every power of two that divides the object size, up to
    /// the flavour's largest alignment.
    pub open spec fn page_aligned(self, p: SlabPage) -> bool {
        if self.kind == ArenaKind::Large {
            (ARENA_SIZE as int - p.first_block) % (p.object_size as int) == 0
        } else {
            p.first_block as int % kind_max_align(self.kind) == 0
        }
    }

    pub open spec fn wf(self) -> bool {
        &&& self.base as int % ARENA_SIZE as int == 0
        &&& self.base + ARENA_SIZE <= usize::MAX
        &&& self.pages@.len() == kind_num_pages(self.kind)
        &&& forall|j: int|
            0 <= j < self.pages@.len() ==> {
                let p = #[trigger] self.pages@[j];
                &&& p.wf()
                &&& p.page_number == j
                &&& p.page_start == page_start_of(self.kind, j)
                &&& p.page_end == page_end_of(self.kind, j)
                &&& p.pre_thread == (self.kind != ArenaKind::Large)
                &&& p.is_bound() ==> self.page_aligned(p)
                &&& self.kind == ArenaKind::Large ==> p.is_bound()
            }
    }

    /// Addresses of the live blocks of the arena.
    pub open spec fn live(self) -> Set<int> {
        Set::new(
            |a: int|
                self.base <= a < self.base + ARENA_SIZE && {
                    let j = page_index_of(self.kind, a - self.base);
                    0 <= j < self.pages@.len() && self.pages@[j].is_live(a - self.base)
                },
        )
    }
}

/// Page geometry of each flavour: the pages tile the arena, the first one
/// after the metadata zone.
pub proof fn lemma_page_geometry(k: ArenaKind, j: int)
    requires
        0 <= j < kind_num_pages(k),
    ensures
        0 <= page_start_of(k, j) <= page_end_of(k, j) <= ARENA_SIZE,
        page_end_of(k, j) % (OS_PAGE as int) == 0,
        k != ArenaKind::Large ==> page_start_of(k, j) % kind_max_align(k) == 0,
        page_end_of(k, j) - page_start_of(k, j) >= kind_page_size(k) - kind_metadata_zone(k),
        forall|o: int|
            page_start_of(k, j) <= o < page_end_of(k, j) ==> page_index_of(k, o) == j,
{
    let ps = kind_page_size(k);
    let ma = kind_max_align(k);
    let (mp, mo, mm): (int, int, int) = match k {
        ArenaKind::Small => (128, 8, 128),
        ArenaKind::Medium => (32, 32, 128),
        ArenaKind::Large => (1, 1024, 8),
    };
    assert(ARENA_SIZE == mp * ps && ps == mo * OS_PAGE && ps == mm * ma);
    assert(j * ps + ps <= ARENA_SIZE) by (nonlinear_arith)
        requires
            j < mp,
            ps > 0,
            ARENA_SIZE == mp * ps,
    ;
    assert((j + 1) * ps == j * ps + ps) by (nonlinear_arith);
    vstd::arithmetic::div_mod::lemma_mod_multiples_basic(j + 1, OS_PAGE as int);
    assert(((j + 1) * ps) % (OS_PAGE as int) == 0) by {
        let m = mo;
        assert((j + 1) * ps == ((j + 1) * m) * OS_PAGE) by (nonlinear_arith)
            requires
                ps == m * OS_PAGE,
        ;
        vstd::arithmetic::div_mod::lemma_mod_multiples_basic((j + 1) * m, OS_PAGE as int);
    }
    assert((j * ps) % kind_max_align(k) == 0) by {
        let m = mm;
        assert(j * ps == (j * m) * ma) by (nonlinear_arith)
            requires
                ps == m * ma,
        ;
        vstd::arithmetic::div_mod::lemma_mod_multiples_basic(j * m, ma);
    }
    if k != ArenaKind::Large && j == 0 {
        assert(kind_metadata_zone(k) % ma == 0);
    }
    assert forall|o: int| page_start_of(k, j) <= o < page_end_of(k, j) implies page_index_of(k, o)
        == j by {
        vstd::arithmetic::div_mod::lemma_fundamental_div_mod_converse(o, ps, j, o - j * ps);
    }
    assert(j * ps >= 0) by (nonlinear_arith)
        requires
            j >= 0,
            ps > 0,
    ;
}

/// Builds the pages of a fresh small- or medium-object arena, all unbound.
pub fn new_slab_pages(kind: ArenaKind) -> (pages: Vec<SlabPage>)
    requires
        kind != ArenaKind::Large,
    ensures
        pages@.len() == kind_num_pages(kind),
        forall|j: int|
            0 <= j < pages@.len() ==> {
                let p = #[trigger] pages@[j];
                &&& p.wf()
                &&& !p.is_bound()
                &&& p.page_number == j
                &&& p.page_start == page_start_of(kind, j)
                &&& p.page_end == page_end_of(kind, j)
                &&& p.pre_thread
                &&& p.live() == Set::<int>::empty()
            },
{
    let (page_size, meta): (u32, u32) = match kind {
        ArenaKind::Small => (SMALL_PAGE_SIZE, SMALL_METADATA_ZONE),
        _ => (MEDIUM_PAGE_SIZE, MEDIUM_METADATA_ZONE),
    };
    let count: u32 = match kind {
        ArenaKind::Small => 128,
        _ => 32,
    };
    let mut pages: Vec<SlabPage> = Vec::new();
    let mut j: u32 = 0;
    while j < count
        invariant
            page_size == kind_page_size(kind),
            meta == kind_metadata_zone(kind),
            count == kind_num_pages(kind),
            j <= count,
            kind != ArenaKind::Large,
            pages@.len() == j,
            forall|i: int|
                0 <= i < pages@.len() ==> {
                    let p = #[trigger] pages@[i];
                    &&& p.wf()
                    &&& !p.is_bound()
                    &&& p.page_number == i
                    &&& p.page_start == page_start_of(kind, i)
                    &&& p.page_end == page_end_of(kind, i)
                    &&& p.pre_thread
                    &&& p.live() == Set::<int>::empty()
                },
        decreases count - j,
    {
        proof {
            lemma_page_geometry(kind, j as int);
        }
        let start = j * page_size + if j == 0 {
            meta
        } else {
            0
        };
        let end = (j + 1) * page_size;
        let p = SlabPage::new(j, start, end, true);
        pages.push(p);
        j = j + 1;
    }
    pages
}

} // verus!
