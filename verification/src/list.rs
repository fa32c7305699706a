use vstd::prelude::*;

verus! {

/// The neighbours of a node in a doubly linked list. Nodes live in a table
/// that their owner holds; a neighbour is named by its place in that table.
#[derive(Clone, Copy, Debug, PartialEq, Eq, Structural)]
pub struct Link {
    pub next: Option<usize>,
    pub prev: Option<usize>,
}

impl Link {
    pub fn next(&self) -> (r: Option<usize>)
        ensures
            r == self.next,
    {
        self.next
    }

    pub fn prev(&self) -> (r: Option<usize>)
        ensures
            r == self.prev,
    {
        self.prev
    }

    pub fn set_next(&mut self, ptr: Option<usize>)
        ensures
            *final(self) == (Link { next: ptr, prev: old(self).prev }),
    {
        self.next = ptr;
    }

    pub fn set_prev(&mut self, ptr: Option<usize>)
        ensures
            *final(self) == (Link { next: old(self).next, prev: ptr }),
    {
        self.prev = ptr;
    }

    /// Neither neighbour lies outside a table of `len` nodes.
    pub open spec fn within(self, len: int) -> bool {
        &&& self.next matches Some(n) ==> n < len
        &&& self.prev matches Some(p) ==> p < len
    }

    pub open spec fn unlinked() -> Link {
        Link { next: None, prev: None }
    }
}

impl Default for Link {
    fn default() -> (r: Self)
        ensures
            r == Link::unlinked(),
    {
        Link { next: None, prev: None }
    }
}

/// A node that embeds a `Link`.
pub trait HasLink: Sized {
    /// The embedded link.
    spec fn spec_link(&self) -> Link;

    /// This node with its link replaced and nothing else changed.
    spec fn with_link(&self, link: Link) -> Self;

    /// Replacing the link is seen by `spec_link`, and a later replacement
    /// overrides an earlier one.
    proof fn lemma_with_link(&self, a: Link, b: Link)
        ensures
            self.with_link(a).spec_link() == a,
            self.with_link(a).with_link(b) == self.with_link(b),
            self.with_link(self.spec_link()) == *self,
    ;

    fn link(&self) -> (r: &Link)
        ensures
            *r == self.spec_link(),
    ;

    fn link_mut(&mut self) -> (r: &mut Link)
        ensures
            *r == old(self).spec_link(),
            *final(self) == old(self).with_link(*final(r)),
    ;
}

/// The links of every node of a table.
pub open spec fn links_of<T: HasLink>(store: Seq<T>) -> Seq<Link> {
    Seq::new(store.len(), |i: int| store[i].spec_link())
}

/// Every link of the table stays inside it.
pub open spec fn links_within(links: Seq<Link>) -> bool {
    forall|i: int| 0 <= i < links.len() ==> (#[trigger] links[i]).within(links.len() as int)
}

/// `after` is `before` with the links replaced by `links`, and nothing else changed.
pub open spec fn relinked<T: HasLink>(before: Seq<T>, after: Seq<T>, links: Seq<Link>) -> bool {
    &&& after.len() == before.len()
    &&& links.len() == before.len()
    &&& forall|i: int| 0 <= i < before.len() ==> #[trigger] after[i] == before[i].with_link(links[i])
}

/// Sets the `next` of node `i`, when there is such a node.
pub open spec fn with_next(links: Seq<Link>, i: Option<usize>, next: Option<usize>) -> Seq<Link> {
    match i {
        Some(i) => links.update(i as int, Link { next, prev: links[i as int].prev }),
        None => links,
    }
}

/// Sets the `prev` of node `i`, when there is such a node.
pub open spec fn with_prev(links: Seq<Link>, i: Option<usize>, prev: Option<usize>) -> Seq<Link> {
    match i {
        Some(i) => links.update(i as int, Link { next: links[i as int].next, prev }),
        None => links,
    }
}

/// The links after `item` has been put in front of `at`.
pub open spec fn spec_insert_before(links: Seq<Link>, item: usize, at: usize) -> Seq<Link> {
    let before = links[at as int].prev;
    let l1 = links.update(item as int, Link { next: Some(at), prev: before });
    let l2 = with_next(l1, before, Some(item));
    with_prev(l2, Some(at), Some(item))
}

/// The links after `item` has been put behind `at`.
pub open spec fn spec_insert_after(links: Seq<Link>, item: usize, at: usize) -> Seq<Link> {
    let after = links[at as int].next;
    let l1 = links.update(item as int, Link { next: after, prev: Some(at) });
    let l2 = with_prev(l1, after, Some(item));
    with_next(l2, Some(at), Some(item))
}

/// The links after `item` has been taken out from between its neighbours.
pub open spec fn spec_remove(links: Seq<Link>, item: usize) -> Seq<Link> {
    let before = links[item as int].prev;
    let after = links[item as int].next;
    let l1 = with_next(links, before, after);
    let l2 = with_prev(l1, after, before);
    l2.update(item as int, Link::unlinked())
}

/// Relinking twice is relinking once with the later links.
pub proof fn lemma_relinked_twice<T: HasLink>(
    a: Seq<T>,
    b: Seq<T>,
    c: Seq<T>,
    lb: Seq<Link>,
    lc: Seq<Link>,
)
    requires
        relinked(a, b, lb),
        relinked(b, c, lc),
    ensures
        relinked(a, c, lc),
        links_of(c) == lc,
{
    assert forall|i: int| 0 <= i < a.len() implies #[trigger] c[i] == a[i].with_link(lc[i]) by {
        a[i].lemma_with_link(lb[i], lc[i]);
    }
    assert forall|i: int| 0 <= i < a.len() implies #[trigger] c[i].spec_link() == lc[i] by {
        a[i].lemma_with_link(lc[i], lc[i]);
    }
    assert(links_of(c) =~= lc);
}

pub struct List {}

impl List {
    fn set_next_of<T: HasLink>(store: &mut Vec<T>, i: usize, next: Option<usize>)
        requires
            i < old(store)@.len(),
        ensures
            links_of(final(store)@) == with_next(links_of(old(store)@), Some(i), next),
            relinked(old(store)@, final(store)@, links_of(final(store)@)),
    {
        store[i].link_mut().set_next(next);
        proof {
            let l = Link { next, prev: old(store)@[i as int].spec_link().prev };
            old(store)@[i as int].lemma_with_link(l, l);
            assert(links_of(store@) =~= with_next(links_of(old(store)@), Some(i), next));
            assert forall|k: int| 0 <= k < store@.len() implies #[trigger] store@[k]
                == old(store)@[k].with_link(links_of(store@)[k]) by {
                old(store)@[k].lemma_with_link(l, l);
            }
        }
    }

    fn set_prev_of<T: HasLink>(store: &mut Vec<T>, i: usize, prev: Option<usize>)
        requires
            i < old(store)@.len(),
        ensures
            links_of(final(store)@) == with_prev(links_of(old(store)@), Some(i), prev),
            relinked(old(store)@, final(store)@, links_of(final(store)@)),
    {
        store[i].link_mut().set_prev(prev);
        proof {
            let l = Link { next: old(store)@[i as int].spec_link().next, prev };
            old(store)@[i as int].lemma_with_link(l, l);
            assert(links_of(store@) =~= with_prev(links_of(old(store)@), Some(i), prev));
            assert forall|k: int| 0 <= k < store@.len() implies #[trigger] store@[k]
                == old(store)@[k].with_link(links_of(store@)[k]) by {
                old(store)@[k].lemma_with_link(l, l);
            }
        }
    }

    /// Puts node `item` in front of node `at`.
    pub fn insert_before<T: HasLink>(store: &mut Vec<T>, item: usize, at: usize)
        requires
            item < old(store)@.len(),
            at < old(store)@.len(),
            links_within(links_of(old(store)@)),
        ensures
            links_of(final(store)@) == spec_insert_before(links_of(old(store)@), item, at),
            relinked(old(store)@, final(store)@, links_of(final(store)@)),
            links_within(links_of(final(store)@)),
    {
        let ghost l0 = links_of(store@);
        assert(l0[at as int].within(l0.len() as int));
        let prev_ptr: Option<usize> = store[at].link().prev();
        Self::set_next_of(store, item, Some(at));
        let ghost s1 = store@;
        Self::set_prev_of(store, item, prev_ptr);
        let ghost s2 = store@;
        proof {
            lemma_relinked_twice(old(store)@, s1, s2, links_of(s1), links_of(s2));
            assert(links_of(s2) =~= l0.update(item as int, Link { next: Some(at), prev: prev_ptr }));
        }
        if let Some(prev) = prev_ptr {
            Self::set_next_of(store, prev, Some(item));
        }
        let ghost s3 = store@;
        proof {
            if prev_ptr is Some {
                lemma_relinked_twice(old(store)@, s2, s3, links_of(s2), links_of(s3));
            }
        }
        Self::set_prev_of(store, at, Some(item));
        proof {
            lemma_relinked_twice(old(store)@, s3, store@, links_of(s3), links_of(store@));
        }
    }

    /// Puts node `item` behind node `at`.
    pub fn insert_after<T: HasLink>(store: &mut Vec<T>, item: usize, at: usize)
        requires
            item < old(store)@.len(),
            at < old(store)@.len(),
            links_within(links_of(old(store)@)),
        ensures
            links_of(final(store)@) == spec_insert_after(links_of(old(store)@), item, at),
            relinked(old(store)@, final(store)@, links_of(final(store)@)),
            links_within(links_of(final(store)@)),
    {
        let ghost l0 = links_of(store@);
        assert(l0[at as int].within(l0.len() as int));
        let next_ptr: Option<usize> = store[at].link().next();
        Self::set_prev_of(store, item, Some(at));
        let ghost s1 = store@;
        Self::set_next_of(store, item, next_ptr);
        let ghost s2 = store@;
        proof {
            lemma_relinked_twice(old(store)@, s1, s2, links_of(s1), links_of(s2));
            assert(links_of(s2) =~= l0.update(item as int, Link { next: next_ptr, prev: Some(at) }));
        }
        if let Some(next) = next_ptr {
            Self::set_prev_of(store, next, Some(item));
        }
        let ghost s3 = store@;
        proof {
            if next_ptr is Some {
                lemma_relinked_twice(old(store)@, s2, s3, links_of(s2), links_of(s3));
            }
        }
        Self::set_next_of(store, at, Some(item));
        proof {
            lemma_relinked_twice(old(store)@, s3, store@, links_of(s3), links_of(store@));
        }
    }

    /// Takes node `item` out from between its neighbours and clears its link.
    pub fn remove<T: HasLink>(store: &mut Vec<T>, item: usize)
        requires
            item < old(store)@.len(),
            links_within(links_of(old(store)@)),
        ensures
            links_of(final(store)@) == spec_remove(links_of(old(store)@), item),
            relinked(old(store)@, final(store)@, links_of(final(store)@)),
            links_within(links_of(final(store)@)),
    {
        let ghost l0 = links_of(store@);
        assert(l0[item as int].within(l0.len() as int));
        let prev_ptr: Option<usize> = store[item].link().prev();
        let next_ptr: Option<usize> = store[item].link().next();
        proof {
            let l = old(store)@[item as int].spec_link();
            assert forall|k: int| 0 <= k < store@.len() implies #[trigger] store@[k]
                == old(store)@[k].with_link(l0[k]) by {
                old(store)@[k].lemma_with_link(l, l);
            }
        }
        if let Some(prev) = prev_ptr {
            Self::set_next_of(store, prev, next_ptr);
        }
        let ghost s1 = store@;
        if let Some(next) = next_ptr {
            Self::set_prev_of(store, next, prev_ptr);
        }
        let ghost s2 = store@;
        proof {
            if next_ptr is Some {
                lemma_relinked_twice(old(store)@, s1, s2, links_of(s1), links_of(s2));
            }
        }
        Self::set_next_of(store, item, None);
        let ghost s3 = store@;
        proof {
            lemma_relinked_twice(old(store)@, s2, s3, links_of(s2), links_of(s3));
        }
        Self::set_prev_of(store, item, None);
        proof {
            lemma_relinked_twice(old(store)@, s3, store@, links_of(s3), links_of(store@));
            assert(links_of(store@) =~= spec_remove(l0, item));
        }
    }

    /// A drainer that starts at node `start`.
    pub fn drain(start: usize) -> (r: ListDrainer)
        ensures
            r.next == Some(start),
    {
        ListDrainer::new(Some(start))
    }
}

/// A walk along the `next` links of a list.
#[derive(Clone, Copy, Debug)]
pub struct ListIter {
    pub next: Option<usize>,
}

impl ListIter {
    pub fn new(start: Option<usize>) -> (r: Self)
        ensures
            r.next == start,
    {
        Self { next: start }
    }

    /// The node the walk stands on; the walk moves on to that node's successor.
    pub fn next<T: HasLink>(&mut self, store: &Vec<T>) -> (r: Option<usize>)
        requires
            old(self).next matches Some(i) ==> i < store@.len(),
        ensures
            r == old(self).next,
            final(self).next == match r {
                Some(i) => store@[i as int].spec_link().next,
                None => None,
            },
    {
        match self.next {
            Some(current) => {
                self.next = store[current].link().next();
                Some(current)
            },
            None => None,
        }
    }
}

/// A walk along the `next` links that unlinks each node it yields.
#[derive(Clone, Copy, Debug)]
pub struct ListDrainer {
    pub next: Option<usize>,
}

impl ListDrainer {
    pub fn new(start: Option<usize>) -> (r: Self)
        ensures
            r.next == start,
    {
        Self { next: start }
    }

    /// The node the walk stands on, unlinked; the walk moves on to the
    /// successor that node had.
    pub fn next<T: HasLink>(&mut self, store: &mut Vec<T>) -> (r: Option<usize>)
        requires
            old(self).next matches Some(i) ==> i < old(store)@.len(),
            links_within(links_of(old(store)@)),
        ensures
            r == old(self).next,
            links_within(links_of(final(store)@)),
            match r {
                Some(i) => final(self).next == old(store)@[i as int].spec_link().next && links_of(
                    final(store)@,
                ) == spec_remove(links_of(old(store)@), i) && relinked(
                    old(store)@,
                    final(store)@,
                    links_of(final(store)@),
                ),
                None => final(self).next is None && final(store)@ == old(store)@,
            },
    {
        match self.next {
            Some(current) => {
                self.next = store[current].link().next();
                List::remove(store, current);
                Some(current)
            },
            None => None,
        }
    }
}

} // verus!
