use vstd::prelude::*;
use crate::bump::{Bump, BumpError};
use crate::classes::{class_at, pages_for, SizeClass, SizeClassIndex, SlabSize, NSCLASSES};
use crate::extent::ExtentError;
use crate::list::{HasLink, List};
use crate::lookup::{ArenaId, ArenaMap, ExtentTree, OwnerInfo};
use crate::slab::{Slab, SlabError};
use crate::system::System;

verus! {

#[derive(Clone, Copy, Debug, PartialEq, Eq, Structural)]
pub enum BinError {
    BumpError(BumpError),
    SlabError(SlabError),
    ExtentError(ExtentError),
}

pub type BinResult<T> = Result<T, BinError>;

/// The slabs of one size class in one arena: a list of active slabs,
/// most recently used first, and a list of retired, empty slabs. The
/// slabs themselves live in the arena's slab table.
#[derive(Clone, Copy, Debug, PartialEq, Eq, Structural)]
pub struct Bin {
    pub class: SizeClass,
    pub pages: SlabSize,
    pub free_head: Option<usize>,
    pub active_head: Option<usize>,
    pub active_tail: Option<usize>,
}

/// A region of a slab of `class` that was free in `before` is handed out
/// in `after` at address `p`, and nothing else about the live regions changed.
pub open spec fn granted(before: Seq<Slab>, after: Seq<Slab>, class: SizeClass, p: usize) -> bool {
    exists|s: int, i: int| #[trigger]
        grants(before, after, class, p, s, i)
}

/// Region `i` of slab `s` is the one that `granted` speaks of.
pub open spec fn grants(
    before: Seq<Slab>,
    after: Seq<Slab>,
    class: SizeClass,
    p: usize,
    s: int,
    i: int,
) -> bool {
    &&& 0 <= s < after.len()
    &&& 0 <= i < after[s]@.len()
    &&& !crate::slab::live_regions(before).contains((s, i))
    &&& crate::slab::live_regions(after) == crate::slab::live_regions(before).insert((s, i))
    &&& p == after[s].region_addr(i)
    &&& after[s].spec_class() == class
    &&& after[s].spec_extent().activated
}

impl Bin {
    /// The bin's lists start and end inside the table `slabs`.
    pub open spec fn wf(&self, slabs: Seq<Slab>) -> bool {
        &&& self.class.0 > 0
        &&& self.class.1.0 < NSCLASSES
        &&& self.free_head matches Some(i) ==> i < slabs.len() && slabs[i as int].spec_class()
            == self.class
        &&& self.active_head matches Some(i) ==> i < slabs.len() && slabs[i as int].spec_class()
            == self.class
        &&& self.active_tail matches Some(i) ==> i < slabs.len() && slabs[i as int].spec_class()
            == self.class
    }

    /// The table `after` holds the slabs of `before` with other links,
    /// and if it is longer, one more slab at its end.
    pub open spec fn relinks(before: Seq<Slab>, after: Seq<Slab>) -> bool {
        &&& before.len() <= after.len()
        &&& forall|i: int|
            0 <= i < before.len() ==> (#[trigger] after[i]).wf() == before[i].wf() && after[i]@
                == before[i]@ && after[i].spec_class() == before[i].spec_class()
                && after[i].spec_extent().slice == before[i].spec_extent().slice
                && after[i].spec_used() == before[i].spec_used() && after[i].spec_last()
                == before[i].spec_last()
    }

    pub fn new(idx: SizeClassIndex) -> (r: Self)
        requires
            idx.0 < NSCLASSES,
        ensures
            r.class.0 == crate::classes::class_size(idx.0 as int),
            r.class.1 == idx,
            r.pages.0 == crate::classes::spec_pages(idx.0 as int),
            r.free_head is None,
            r.active_head is None,
            r.active_tail is None,
            forall|slabs: Seq<Slab>| #[trigger] r.wf(slabs),
    {
        proof {
            crate::classes::lemma_classes_monotonic(idx.0 as int);
        }
        Self {
            class: class_at(idx),
            pages: pages_for(idx),
            free_head: None,
            active_head: None,
            active_tail: None,
        }
    }

    /// The bin is `before` with slab `slab`, whose link was `link`,
    /// taken off the active list: where the slab was the head, its next
    /// is head, and where it was the tail, its previous is tail. The
    /// slab heads the free list where it was `parked` there.
    pub open spec fn retired_from(&self, before: Bin, link: crate::list::Link, slab: usize,
        parked: bool) -> bool {
        &&& self.class == before.class
        &&& self.pages == before.pages
        &&& self.active_head == if before.active_head == Some(slab) {
            link.next
        } else {
            before.active_head
        }
        &&& self.active_tail == if before.active_tail == Some(slab) {
            link.prev
        } else {
            before.active_tail
        }
        &&& self.free_head == if parked {
            Some(slab)
        } else {
            before.free_head
        }
    }

    /// There is no active slab to serve a region: the list is empty,
    /// or every region of its first slab is handed out.
    pub open spec fn no_head(&self, slabs: Seq<Slab>) -> bool {
        self.active_head is None || (self.active_head->0 < slabs.len()
            && slabs[self.active_head->0 as int].spec_used() == slabs[self.active_head->0 as int]@.len())
    }

    /// The regions that the bin can serve without the host: the free
    /// regions of its first active slab, if that slab is committed.
    pub open spec fn room(&self, slabs: Seq<Slab>) -> int {
        if self.active_head is Some && self.active_head->0 < slabs.len()
            && slabs[self.active_head->0 as int].spec_extent().activated {
            slabs[self.active_head->0 as int]@.len() - slabs[self.active_head->0 as int].spec_used()
        } else {
            0
        }
    }

    /// The first active slab is committed and has a free region: the bin
    /// can serve a region without the host.
    pub open spec fn can_serve(&self, slabs: Seq<Slab>) -> bool {
        &&& self.active_head is Some
        &&& self.active_head->0 < slabs.len()
        &&& slabs[self.active_head->0 as int].spec_extent().activated
        &&& slabs[self.active_head->0 as int].spec_used() < slabs[self.active_head->0 as int]@.len()
    }

    /// A region from the first active slab, if that slab can serve one.
    fn alloc_fast<S: System>(&mut self, slabs: &mut Vec<Slab>, sys: &S) -> (r: Option<usize>)
        requires
            old(self).wf(old(slabs)@),
            crate::slab::table_wf(old(slabs)@),
        ensures
            *final(self) == *old(self),
            final(slabs)@.len() == old(slabs)@.len(),
            crate::slab::table_wf(final(slabs)@),
            crate::list::links_of(final(slabs)@) == crate::list::links_of(old(slabs)@),
            forall|i: int|
                0 <= i < old(slabs)@.len() ==> (#[trigger] final(slabs)@[i]).spec_class()
                    == old(slabs)@[i].spec_class() && final(slabs)@[i].spec_extent().slice
                    == old(slabs)@[i].spec_extent().slice,
            match r {
                Some(p) => old(self).active_head matches Some(h) && grants(
                    old(slabs)@,
                    final(slabs)@,
                    old(slabs)@[h as int].spec_class(),
                    p,
                    h as int,
                    old(slabs)@[h as int].slot_of(p) as int,
                ),
                None => crate::slab::live_regions(final(slabs)@) == crate::slab::live_regions(
                    old(slabs)@,
                ),
            },
            old(self).can_serve(old(slabs)@) ==> r is Some && final(self).room(final(slabs)@) == old(self).room(old(slabs)@) - 1,
            r is Some ==> !old(self).no_head(old(slabs)@),
    {
        let active: usize = match self.active_head {
            Some(v) => v,
            None => return None,
        };
        let ghost before = slabs@;
        assert(before[active as int].wf());
        let served: Result<usize, SlabError> = slabs[active].allocate(sys);
        proof {
            assert(crate::list::links_of(slabs@) =~= crate::list::links_of(before));
            assert forall|i: int| 0 <= i < slabs@.len() implies (#[trigger] slabs@[i]).wf() by {
                if i != active as int {
                    assert(before[i].wf());
                }
            }
            assert forall|i: int| 0 <= i < slabs@.len() implies (#[trigger] slabs@[i]).spec_link()
                == before[i].spec_link() by {
                assert(crate::list::links_of(slabs@)[i] == crate::list::links_of(before)[i]);
            }
        }
        match served {
            Ok(p) => {
                proof {
                    let slot = before[active as int].slot_of(p) as int;
                    assert(crate::slab::live_regions(slabs@) =~= crate::slab::live_regions(
                        before,
                    ).insert((active as int, slot)));
                    before[active as int].lemma_wf();
                    slabs@[active as int].lemma_wf();
                }
                Some(p)
            },
            Err(_) => {
                proof {
                    assert(crate::slab::live_regions(slabs@) =~= crate::slab::live_regions(before));
                }
                None
            },
        }
    }

    /// Moves the first retired slab to the front of the active list.
    fn pop_free(&mut self, slabs: &mut Vec<Slab>) -> (r: Option<usize>)
        requires
            old(self).wf(old(slabs)@),
            crate::slab::table_wf(old(slabs)@),
        ensures
            final(self).wf(final(slabs)@),
            final(self).class == old(self).class,
            final(self).pages == old(self).pages,
            crate::slab::table_wf(final(slabs)@),
            final(slabs)@.len() == old(slabs)@.len(),
            Self::relinks(old(slabs)@, final(slabs)@),
            crate::slab::live_regions(final(slabs)@) == crate::slab::live_regions(old(slabs)@),
            match r {
                Some(f) => old(self).free_head == Some(f) && final(self).active_head == Some(f),
                None => old(self).free_head is None && *final(self) == *old(self) && final(slabs)@
                    == old(slabs)@,
            },
    {
        let free_ptr: usize = match self.free_head {
            Some(v) => v,
            None => {
                return None;
            },
        };
        self.free_head = None;
        let ghost s0 = slabs@;
        proof {
            crate::slab::lemma_table_links(s0);
        }
        let next: Option<usize> = slabs[free_ptr].link().next();
        if let Some(n) = next {
            List::remove(slabs, free_ptr);
            self.free_head = Some(n);
        }
        let ghost s1 = slabs@;
        proof {
            if next is Some {
                crate::slab::lemma_relinked_table(s0, s1, crate::list::links_of(s1));
                Self::lemma_remove_keeps_classes(s0, s1, free_ptr);
            }
        }
        if let Some(active_head_ptr) = self.active_head {
            List::insert_before(slabs, free_ptr, active_head_ptr);
            proof {
                crate::slab::lemma_relinked_table(s1, slabs@, crate::list::links_of(slabs@));
                Self::lemma_insert_before_keeps_classes(s1, slabs@, free_ptr, active_head_ptr);
            }
        }
        self.active_head = Some(free_ptr);
        if self.active_tail.is_none() {
            self.active_tail = Some(free_ptr);
        }
        Some(free_ptr)
    }

    /// Taking a slab out of its list leaves links between slabs of one class.
    proof fn lemma_remove_keeps_classes(before: Seq<Slab>, after: Seq<Slab>, item: usize)
        requires
            item < before.len(),
            crate::slab::class_linked(before),
            crate::list::relinked(before, after, crate::list::links_of(after)),
            crate::list::links_of(after) == crate::list::spec_remove(
                crate::list::links_of(before),
                item,
            ),
        ensures
            crate::slab::class_linked(after),
    {
        crate::slab::lemma_relinked_table(before, after, crate::list::links_of(after));
        let lb = crate::list::links_of(before);
        let la = crate::list::links_of(after);
        assert(lb[item as int] == before[item as int].spec_link());
        assert forall|i: int| 0 <= i < after.len() implies {
            &&& (#[trigger] after[i]).spec_link().next matches Some(j) ==> j < after.len()
                && after[j as int].spec_class() == after[i].spec_class()
            &&& after[i].spec_link().prev matches Some(j) ==> j < after.len()
                && after[j as int].spec_class() == after[i].spec_class()
        } by {
            assert(la[i] == after[i].spec_link());
            assert(lb[i] == before[i].spec_link());
            if let Some(p) = lb[item as int].prev {
                assert(lb[p as int] == before[p as int].spec_link());
            }
            if let Some(n) = lb[item as int].next {
                assert(lb[n as int] == before[n as int].spec_link());
            }
        }
    }

    /// Putting a slab in front of another of its class leaves links
    /// between slabs of one class.
    proof fn lemma_insert_before_keeps_classes(
        before: Seq<Slab>,
        after: Seq<Slab>,
        item: usize,
        at: usize,
    )
        requires
            item < before.len(),
            at < before.len(),
            before[item as int].spec_class() == before[at as int].spec_class(),
            crate::slab::class_linked(before),
            crate::list::relinked(before, after, crate::list::links_of(after)),
            crate::list::links_of(after) == crate::list::spec_insert_before(
                crate::list::links_of(before),
                item,
                at,
            ),
        ensures
            crate::slab::class_linked(after),
    {
        crate::slab::lemma_relinked_table(before, after, crate::list::links_of(after));
        let lb = crate::list::links_of(before);
        let la = crate::list::links_of(after);
        assert(lb[at as int] == before[at as int].spec_link());
        assert forall|i: int| 0 <= i < after.len() implies {
            &&& (#[trigger] after[i]).spec_link().next matches Some(j) ==> j < after.len()
                && after[j as int].spec_class() == after[i].spec_class()
            &&& after[i].spec_link().prev matches Some(j) ==> j < after.len()
                && after[j as int].spec_class() == after[i].spec_class()
        } by {
            assert(la[i] == after[i].spec_link());
            assert(lb[i] == before[i].spec_link());
            if let Some(p) = lb[at as int].prev {
                assert(lb[p as int] == before[p as int].spec_link());
            }
        }
    }

    /// Creates a slab, appends it to the table and puts it at the front
    /// of the active list.
    fn push_new<S: System>(
        &mut self,
        slabs: &mut Vec<Slab>,
        bump: &mut Bump,
        sys: &S,
        arena: ArenaId,
        etree: &mut ExtentTree,
        arena_map: &mut ArenaMap,
    ) -> (r: BinResult<usize>)
        requires
            old(self).wf(old(slabs)@),
            crate::slab::table_wf(old(slabs)@),
            old(bump).wf(),
            old(etree).wf(),
            old(arena_map).wf(),
        ensures
            final(self).wf(final(slabs)@),
            final(self).class == old(self).class,
            final(self).pages == old(self).pages,
            crate::slab::table_wf(final(slabs)@),
            final(bump).wf(),
            final(bump).spec_chunk_size() == old(bump).spec_chunk_size(),
            final(etree).wf(),
            final(arena_map).wf(),
            Self::relinks(old(slabs)@, final(slabs)@),
            crate::slab::live_regions(final(slabs)@) == crate::slab::live_regions(old(slabs)@),
            match r {
                Ok(id) => {
                    &&& id == old(slabs)@.len()
                    &&& final(slabs)@.len() == old(slabs)@.len() + 1
                    &&& final(self).active_head == Some(id)
                    &&& final(slabs)@[id as int].spec_class() == old(self).class
                    &&& final(slabs)@[id as int].spec_extent().slice.fresh(old(self).pages.0)
                    &&& final(slabs)@[id as int].spec_used() == 0
                    &&& final(etree)@ == crate::lookup::registered(
                        old(etree)@,
                        final(slabs)@[id as int].spec_extent().slice,
                        OwnerInfo::Slab { slab: id, size_class: old(self).class.1 },
                    )
                    &&& final(arena_map)@ == crate::lookup::registered(
                        old(arena_map)@,
                        final(slabs)@[id as int].spec_extent().slice,
                        arena,
                    )
                    &&& crate::lookup::unfiled(
                        old(etree)@,
                        final(slabs)@[id as int].spec_extent().slice,
                    )
                    &&& crate::lookup::unfiled(
                        old(arena_map)@,
                        final(slabs)@[id as int].spec_extent().slice,
                    )
                },
                Err(e) => final(slabs)@ == old(slabs)@ && *final(self) == *old(self)
                    && final(etree)@ == old(etree)@ && final(arena_map)@ == old(arena_map)@
                    && e is SlabError && Slab::refused(
                    *old(bump),
                    *old(etree),
                    *old(arena_map),
                    old(self).class,
                    old(self).pages.0,
                    arena,
                    old(slabs)@.len() as usize,
                    e->SlabError_0,
                ),
            },
            old(self).pages.0 == 0 && old(bump).tail_fits(crate::slab::SLAB_HEADER_SIZE, 8) ==> r
                == Err::<usize, BinError>(BinError::SlabError(crate::slab::SlabError::OutOfMemory)),
    {
        let id: usize = slabs.len();
        let new_slab: Slab = match Slab::new(
            bump,
            sys,
            self.class,
            self.pages.0,
            arena,
            etree,
            arena_map,
            id,
        ) {
            Ok(v) => v,
            Err(e) => return Err(BinError::SlabError(e)),
        };
        let ghost s0 = slabs@;
        let ghost fresh = new_slab;
        slabs.push(new_slab);
        let ghost s1 = slabs@;
        proof {
            assert(crate::slab::live_regions(s1) =~= crate::slab::live_regions(s0)) by {
                assert forall|r: (int, int)|
                    crate::slab::live_regions(s1).contains(r) implies crate::slab::live_regions(
                    s0,
                ).contains(r) by {
                    if r.0 == id as int {
                        assert(!fresh@[r.1]);
                    }
                }
            }
            assert(crate::slab::class_linked(s1)) by {
                assert forall|i: int| 0 <= i < s1.len() implies {
                    &&& (#[trigger] s1[i]).spec_link().next matches Some(j) ==> j < s1.len()
                        && s1[j as int].spec_class() == s1[i].spec_class()
                    &&& s1[i].spec_link().prev matches Some(j) ==> j < s1.len()
                        && s1[j as int].spec_class() == s1[i].spec_class()
                } by {
                    if i < s0.len() {
                        assert(s0[i].spec_link() == s1[i].spec_link());
                    }
                }
            }
            crate::slab::lemma_table_links(s1);
        }
        if let Some(active_head_ptr) = self.active_head {
            List::insert_before(slabs, id, active_head_ptr);
            proof {
                crate::slab::lemma_relinked_table(s1, slabs@, crate::list::links_of(slabs@));
                Self::lemma_insert_before_keeps_classes(s1, slabs@, id, active_head_ptr);
            }
        }
        self.active_head = Some(id);
        if self.active_tail.is_none() {
            self.active_tail = Some(id);
        }
        Ok(id)
    }

    /// Takes an empty slab off the active list, gives its pages back to
    /// the host and puts it at the front of the list of retired slabs.
    fn retire_slab<S: System>(&mut self, slabs: &mut Vec<Slab>, sys: &S, slab: usize) -> (r:
        BinResult<()>)
        requires
            old(self).wf(old(slabs)@),
            crate::slab::table_wf(old(slabs)@),
            slab < old(slabs)@.len(),
            old(slabs)@[slab as int].spec_class() == old(self).class,
        ensures
            final(self).wf(final(slabs)@),
            final(self).class == old(self).class,
            final(self).pages == old(self).pages,
            crate::slab::table_wf(final(slabs)@),
            final(slabs)@.len() == old(slabs)@.len(),
            Self::relinks(old(slabs)@, final(slabs)@),
            crate::slab::live_regions(final(slabs)@) == crate::slab::live_regions(old(slabs)@),
            match r {
                Ok(()) => final(self).free_head == Some(slab)
                    && !final(slabs)@[slab as int].spec_extent().activated,
                Err(e) => e is ExtentError,
            },
            final(self).retired_from(*old(self), old(slabs)@[slab as int].spec_link(), slab, r is Ok),
    {
        let ghost s0 = slabs@;
        proof {
            crate::slab::lemma_table_links(s0);
            assert(crate::list::links_of(s0)[slab as int] == s0[slab as int].spec_link());
        }
        let next: Option<usize> = slabs[slab].link().next();
        let prev: Option<usize> = slabs[slab].link().prev();
        List::remove(slabs, slab);
        let ghost s1 = slabs@;
        proof {
            crate::slab::lemma_relinked_table(s0, s1, crate::list::links_of(s1));
            Self::lemma_remove_keeps_classes(s0, s1, slab);
        }
        let was_head: bool = match self.active_head {
            Some(h) => h == slab,
            None => false,
        };
        if was_head {
            self.active_head = next;
        }
        let was_tail: bool = match self.active_tail {
            Some(t) => t == slab,
            None => false,
        };
        if was_tail {
            self.active_tail = prev;
        }
        assert(s1[slab as int].wf());
        let gone: Result<(), ExtentError> = slabs[slab].deactivate(sys);
        let ghost s2 = slabs@;
        proof {
            assert forall|i: int| 0 <= i < s2.len() implies (#[trigger] s2[i]).wf() by {
                if i != slab as int {
                    assert(s1[i].wf());
                }
            }
            assert(crate::slab::class_linked(s2)) by {
                assert forall|i: int| 0 <= i < s2.len() implies {
                    &&& (#[trigger] s2[i]).spec_link().next matches Some(j) ==> j < s2.len()
                        && s2[j as int].spec_class() == s2[i].spec_class()
                    &&& s2[i].spec_link().prev matches Some(j) ==> j < s2.len()
                        && s2[j as int].spec_class() == s2[i].spec_class()
                } by {
                    assert(s1[i].spec_link() == s2[i].spec_link());
                }
            }
            assert(crate::slab::live_regions(s2) =~= crate::slab::live_regions(s1));
            crate::slab::lemma_table_links(s2);
        }
        if let Err(e) = gone {
            return Err(BinError::ExtentError(e));
        }
        if let Some(free_head_ptr) = self.free_head {
            List::insert_before(slabs, slab, free_head_ptr);
            proof {
                crate::slab::lemma_relinked_table(s2, slabs@, crate::list::links_of(slabs@));
                Self::lemma_insert_before_keeps_classes(s2, slabs@, slab, free_head_ptr);
            }
        }
        self.free_head = Some(slab);
        Ok(())
    }

    /// Hands out a region: from the first active slab if it has one,
    /// else from the first retired slab, else from a slab created for it.
    pub fn allocate<S: System>(
        &mut self,
        slabs: &mut Vec<Slab>,
        bump: &mut Bump,
        sys: &S,
        arena: ArenaId,
        etree: &mut ExtentTree,
        arena_map: &mut ArenaMap,
    ) -> (r: BinResult<usize>)
        requires
            old(self).wf(old(slabs)@),
            crate::slab::table_wf(old(slabs)@),
            old(bump).wf(),
            old(etree).wf(),
            old(arena_map).wf(),
        ensures
            final(self).wf(final(slabs)@),
            final(self).class == old(self).class,
            final(self).pages == old(self).pages,
            crate::slab::table_wf(final(slabs)@),
            final(bump).wf(),
            final(bump).spec_chunk_size() == old(bump).spec_chunk_size(),
            final(etree).wf(),
            final(arena_map).wf(),
            old(slabs)@.len() <= final(slabs)@.len() <= old(slabs)@.len() + 1,
            forall|i: int|
                0 <= i < old(slabs)@.len() ==> (#[trigger] final(slabs)@[i]).spec_class()
                    == old(slabs)@[i].spec_class() && final(slabs)@[i].spec_extent().slice
                    == old(slabs)@[i].spec_extent().slice,
            match r {
                Ok(p) => granted(old(slabs)@, final(slabs)@, old(self).class, p),
                Err(_) => crate::slab::live_regions(final(slabs)@) == crate::slab::live_regions(
                    old(slabs)@,
                ),
            },
            old(self).can_serve(old(slabs)@) ==> r is Ok && final(slabs)@.len() == old(slabs)@.len()
                && *final(self) == *old(self) && grants(
                old(slabs)@,
                final(slabs)@,
                old(self).class,
                r->Ok_0,
                old(self).active_head->0 as int,
                old(slabs)@[old(self).active_head->0 as int].slot_of(r->Ok_0) as int,
            ),
            r is Ok && old(self).no_head(old(slabs)@) ==> final(self).active_head == (if old(self).free_head
                is Some {
                old(self).free_head
            } else {
                Some(old(slabs)@.len() as usize)
            }) && final(slabs)@.len() == (if old(self).free_head is Some {
                old(slabs)@.len()
            } else {
                old(slabs)@.len() + 1
            }) && grants(
                old(slabs)@,
                final(slabs)@,
                old(self).class,
                r->Ok_0,
                final(self).active_head->0 as int,
                final(slabs)@[final(self).active_head->0 as int].slot_of(r->Ok_0) as int,
            ),
            r is Ok ==> final(self).active_head is Some,
            old(self).can_serve(old(slabs)@) ==> final(self).room(final(slabs)@) == old(self).room(
                old(slabs)@,
            ) - 1,
            final(slabs)@.len() == old(slabs)@.len() ==> final(etree)@ == old(etree)@
                && final(arena_map)@ == old(arena_map)@,
            final(slabs)@.len() > old(slabs)@.len() ==> {
                let id = old(slabs).len();
                &&& final(slabs)@[id as int].spec_class() == old(self).class
                &&& final(slabs)@[id as int].spec_extent().slice.fresh(old(self).pages.0)
                &&& final(etree)@ == crate::lookup::registered(
                    old(etree)@,
                    final(slabs)@[id as int].spec_extent().slice,
                    OwnerInfo::Slab { slab: id, size_class: old(self).class.1 },
                )
                &&& final(arena_map)@ == crate::lookup::registered(
                    old(arena_map)@,
                    final(slabs)@[id as int].spec_extent().slice,
                    arena,
                )
                &&& crate::lookup::unfiled(old(etree)@, final(slabs)@[id as int].spec_extent().slice)
                &&& crate::lookup::unfiled(
                    old(arena_map)@,
                    final(slabs)@[id as int].spec_extent().slice,
                )
            },
    {
        let ghost s0 = slabs@;
        if let Some(ptr) = self.alloc_fast(slabs, sys) {
            return Ok(ptr);
        }
        let source: usize = match self.pop_free(slabs) {
            Some(slab) => slab,
            None => match self.push_new(slabs, bump, sys, arena, etree, arena_map) {
                Ok(v) => v,
                Err(e) => return Err(e),
            },
        };
        let ghost s2 = slabs@;
        assert(s2[source as int].wf());
        let served: Result<usize, SlabError> = slabs[source].allocate(sys);
        proof {
            assert forall|i: int| 0 <= i < slabs@.len() implies (#[trigger] slabs@[i]).wf() by {
                if i != source as int {
                    assert(s2[i].wf());
                }
            }
            assert(crate::slab::class_linked(slabs@)) by {
                assert forall|i: int| 0 <= i < slabs@.len() implies {
                    &&& (#[trigger] slabs@[i]).spec_link().next matches Some(j) ==> j
                        < slabs@.len() && slabs@[j as int].spec_class() == slabs@[i].spec_class()
                    &&& slabs@[i].spec_link().prev matches Some(j) ==> j < slabs@.len()
                        && slabs@[j as int].spec_class() == slabs@[i].spec_class()
                } by {
                    assert(s2[i].spec_link() == slabs@[i].spec_link());
                }
            }
        }
        match served {
            Ok(p) => {
                proof {
                    let slot = s2[source as int].slot_of(p) as int;
                    assert(crate::slab::live_regions(slabs@) =~= crate::slab::live_regions(
                        s2,
                    ).insert((source as int, slot)));
                    s2[source as int].lemma_wf();
                    slabs@[source as int].lemma_wf();
                    assert(grants(s0, slabs@, self.class, p, source as int, slot));
                }
                Ok(p)
            },
            Err(e) => {
                proof {
                    assert(crate::slab::live_regions(slabs@) =~= crate::slab::live_regions(s2));
                }
                Err(BinError::SlabError(e))
            },
        }
    }

    /// Takes back the region of slab `slab` that holds `ptr`; a slab that
    /// this leaves empty is retired. A slab that was empty already stays
    /// where it is.
    pub fn deallocate<S: System>(&mut self, slabs: &mut Vec<Slab>, sys: &S, ptr: usize, slab: usize) -> (r:
        BinResult<()>)
        requires
            old(self).wf(old(slabs)@),
            crate::slab::table_wf(old(slabs)@),
            slab < old(slabs)@.len(),
            old(slabs)@[slab as int].spec_class() == old(self).class,
        ensures
            final(self).wf(final(slabs)@),
            final(self).class == old(self).class,
            final(self).pages == old(self).pages,
            crate::slab::table_wf(final(slabs)@),
            final(slabs)@.len() == old(slabs)@.len(),
            forall|i: int|
                0 <= i < old(slabs)@.len() ==> (#[trigger] final(slabs)@[i]).spec_class()
                    == old(slabs)@[i].spec_class() && final(slabs)@[i].spec_extent().slice
                    == old(slabs)@[i].spec_extent().slice,
            crate::slab::live_regions(final(slabs)@) == if r matches Err(BinError::SlabError(_)) {
                crate::slab::live_regions(old(slabs)@)
            } else {
                crate::slab::live_regions(old(slabs)@).remove(
                    (slab as int, old(slabs)@[slab as int].slot_of(ptr) as int),
                )
            },
            r matches Err(BinError::SlabError(e)) ==> (e == SlabError::InvalidPointer)
                == !old(slabs)@[slab as int].spec_extent().slice.contains(ptr as int),
            !(r matches Err(BinError::SlabError(_)))
                ==> old(slabs)@[slab as int].spec_extent().slice.contains(ptr as int),
            r matches Err(BinError::SlabError(_)) ==> !old(slabs)@[slab as int].holds_region_of(ptr),
            r is Ok && old(slabs)@[slab as int].spec_used() > 0 ==> (final(slabs)@[slab as int].spec_used()
                == 0 ==> final(self).free_head == Some(slab)),
            old(slabs)@[slab as int].spec_used() == 0 ==> *final(self) == *old(self)
                && crate::list::links_of(final(slabs)@) == crate::list::links_of(old(slabs)@),
            if old(slabs)@[slab as int].spec_used() > 0 && !(r matches Err(BinError::SlabError(_)))
                && final(slabs)@[slab as int].spec_used() == 0 {
                final(self).retired_from(
                    *old(self),
                    old(slabs)@[slab as int].spec_link(),
                    slab,
                    r is Ok,
                )
            } else {
                *final(self) == *old(self) && crate::list::links_of(final(slabs)@)
                    == crate::list::links_of(old(slabs)@)
            },
    {
        let ghost s0 = slabs@;
        assert(s0[slab as int].wf());
        let was_empty: bool = slabs[slab].is_empty();
        let freed: Result<(), SlabError> = slabs[slab].deallocate(ptr);
        let ghost s1 = slabs@;
        proof {
            assert forall|i: int| 0 <= i < s1.len() implies (#[trigger] s1[i]).wf() by {
                if i != slab as int {
                    assert(s0[i].wf());
                }
            }
            assert(crate::slab::class_linked(s1)) by {
                assert forall|i: int| 0 <= i < s1.len() implies {
                    &&& (#[trigger] s1[i]).spec_link().next matches Some(j) ==> j < s1.len()
                        && s1[j as int].spec_class() == s1[i].spec_class()
                    &&& s1[i].spec_link().prev matches Some(j) ==> j < s1.len()
                        && s1[j as int].spec_class() == s1[i].spec_class()
                } by {
                    assert(s0[i].spec_link() == s1[i].spec_link());
                }
            }
        }
        if let Err(e) = freed {
            proof {
                assert(crate::slab::live_regions(s1) =~= crate::slab::live_regions(s0));
            }
            return Err(BinError::SlabError(e));
        }
        proof {
            s0[slab as int].lemma_wf();
            assert(crate::slab::live_regions(s1) =~= crate::slab::live_regions(s0).remove(
                (slab as int, s0[slab as int].slot_of(ptr) as int),
            ));
        }
        proof {
            assert(crate::list::links_of(s1) =~= crate::list::links_of(s0));
        }
        if !was_empty && slabs[slab].is_empty() {
            if let Err(e) = self.retire_slab(slabs, sys, slab) {
                return Err(e);
            }
        }
        Ok(())
    }
}

} // verus!
