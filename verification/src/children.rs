use vstd::prelude::*;

use crate::ids::{PeerId, RemoteId};
use crate::sort_key::{key_lt, lemma_key_lt_order, Cmp, KeyView, SortKey};

verus! {

/// Whether a sequence of keys is strictly increasing.
pub open spec fn sorted(s: Seq<KeyView>) -> bool {
    forall|i: int, j: int| 0 <= i < j < s.len() ==> key_lt(s[i], s[j])
}

/// The children of one group: a set of sort keys, kept in increasing order.
pub struct Children {
    keys: Vec<SortKey>,
}

impl View for Children {
    type V = Seq<KeyView>;

    closed spec fn view(&self) -> Seq<KeyView> {
        self.keys@.map_values(|k: SortKey| k@)
    }
}

impl Children {
    /// The keys are strictly increasing.
    pub open spec fn wf(&self) -> bool {
        sorted(self@)
    }

    pub fn new() -> (r: Children)
        ensures
            r@ == Seq::<KeyView>::empty(),
            r.wf(),
    {
        let r = Children { keys: Vec::new() };
        assert(r@ =~= Seq::<KeyView>::empty());
        r
    }

    pub fn len(&self) -> (r: usize)
        ensures
            r == self@.len(),
    {
        self.keys.len()
    }

    pub fn is_empty(&self) -> (r: bool)
        ensures
            r == (self@.len() == 0),
    {
        self.keys.len() == 0
    }

    /// The identifiers of the children, in key order.
    pub fn ids(&self) -> (r: Vec<RemoteId>)
        ensures
            r@ == self@.map_values(|k: KeyView| k.1),
    {
        let mut r: Vec<RemoteId> = Vec::new();
        let mut i: usize = 0;
        while i < self.keys.len()
            invariant
                0 <= i <= self.keys@.len(),
                r@ == self@.take(i as int).map_values(|k: KeyView| k.1),
            decreases self.keys@.len() - i,
        {
            r.push(self.keys[i].id);
            i = i + 1;
            assert(self@.take(i as int).map_values(|k: KeyView| k.1) =~= self@.take(
                (i - 1) as int,
            ).map_values(|k: KeyView| k.1).push(self@[i - 1].1));
        }
        assert(self@.take(i as int) =~= self@);
        r
    }

    /// The sort bytes of the child at position `i`.
    pub fn sort_at(&self, i: usize) -> (r: &Vec<u8>)
        requires
            i < self@.len(),
        ensures
            r@ == self@[i as int].0,
    {
        &self.keys[i].sort
    }

    /// Adds a key; returns `false`, changing nothing, where it is already
    /// present.
    pub fn insert(&mut self, key: SortKey) -> (r: bool)
        requires
            old(self).wf(),
        ensures
            final(self).wf(),
            r == !old(self)@.contains(key@),
            !r ==> final(self)@ == old(self)@,
            r ==> final(self)@.len() == old(self)@.len() + 1,
            forall|x: KeyView| #[trigger]
                final(self)@.contains(x) <==> (old(self)@.contains(x) || x == key@),
    {
        proof {
            lemma_key_lt_order();
        }
        let ghost old_view = self@;
        let mut i: usize = 0;
        while i < self.keys.len() && self.keys[i].compare(key.sort.as_slice(), key.id) == Cmp::Less
            invariant
                0 <= i <= self.keys@.len(),
                self@ == old_view,
                sorted(old_view),
                forall|j: int| 0 <= j < i ==> key_lt(#[trigger] old_view[j], key@),
            decreases self.keys@.len() - i,
        {
            proof {
                assert(self@[i as int] == self.keys@[i as int]@);
            }
            i = i + 1;
        }
        if i < self.keys.len() {
            proof {
                assert(self@[i as int] == self.keys@[i as int]@);
            }
            if self.keys[i].compare(key.sort.as_slice(), key.id) == Cmp::Equal {
                proof {
                    assert(old_view[i as int] == key@);
                    assert(old_view.contains(key@));
                }
                return false;
            }
        }
        proof {
            assert forall|j: int| i <= j < old_view.len() implies key_lt(
                key@,
                #[trigger] old_view[j],
            ) by {
                assert(key_lt(key@, old_view[i as int]));
                if j > i as int {
                    assert(key_lt(old_view[i as int], old_view[j]));
                }
            }
            assert(!old_view.contains(key@));
        }
        self.keys.insert(i, key);
        proof {
            assert(self@ =~= old_view.insert(i as int, key@));
            assert forall|x: KeyView| #[trigger]
                self@.contains(x) <==> (old_view.contains(x) || x == key@) by {
                if self@.contains(x) {
                    let k = choose|k: int| 0 <= k < self@.len() && self@[k] == x;
                    if k < i {
                        assert(old_view[k] == x);
                    } else if k > i {
                        assert(old_view[k - 1] == x);
                    }
                }
                if old_view.contains(x) {
                    let k = choose|k: int| 0 <= k < old_view.len() && old_view[k] == x;
                    if k < i {
                        assert(self@[k] == x);
                    } else {
                        assert(self@[k + 1] == x);
                    }
                }
                if x == key@ {
                    assert(self@[i as int] == x);
                }
            }
        }
        true
    }

    /// Removes the key made of `sort` and `id`; returns whether it was
    /// present.
    pub fn remove(&mut self, sort: &[u8], id: RemoteId) -> (r: bool)
        requires
            old(self).wf(),
        ensures
            final(self).wf(),
            r == old(self)@.contains((sort@, id)),
            !r ==> final(self)@ == old(self)@,
            r ==> final(self)@.len() + 1 == old(self)@.len(),
            forall|x: KeyView| #[trigger]
                final(self)@.contains(x) <==> (old(self)@.contains(x) && x != (sort@, id)),
    {
        proof {
            lemma_key_lt_order();
        }
        let ghost old_view = self@;
        let ghost k = (sort@, id);
        let mut i: usize = 0;
        while i < self.keys.len()
            invariant
                0 <= i <= self.keys@.len(),
                self@ == old_view,
                sorted(old_view),
                old_view == old(self)@,
                k == (sort@, id),
                forall|j: int| 0 <= j < i ==> #[trigger] old_view[j] != k,
            decreases self.keys@.len() - i,
        {
            proof {
                assert(self@[i as int] == self.keys@[i as int]@);
            }
            match self.keys[i].compare(sort, id) {
                Cmp::Equal => {
                    proof {
                        assert(old_view[i as int] == k);
                        assert(old_view.contains(k));
                    }
                    self.keys.remove(i);
                    proof {
                        assert(self@ =~= old_view.remove(i as int));
                        assert(self@.len() + 1 == old_view.len());
                        assert forall|x: KeyView| #[trigger]
                            self@.contains(x) <==> (old_view.contains(x) && x != k) by {
                            if self@.contains(x) {
                                let m = choose|m: int| 0 <= m < self@.len() && self@[m] == x;
                                if m < i {
                                    assert(old_view[m] == x);
                                    assert(key_lt(old_view[m], old_view[i as int]));
                                } else {
                                    assert(old_view[m + 1] == x);
                                    assert(key_lt(old_view[i as int], old_view[m + 1]));
                                }
                            }
                            if old_view.contains(x) && x != k {
                                let m = choose|m: int|
                                    0 <= m < old_view.len() && old_view[m] == x;
                                if m < i {
                                    assert(self@[m] == x);
                                } else {
                                    assert(m != i);
                                    assert(self@[m - 1] == x);
                                }
                            }
                        }
                    }
                    return true;
                },
                _ => {},
            }
            i = i + 1;
        }
        false
    }

    /// Keeps only the keys whose object belongs to a peer that `keep`
    /// accepts.
    pub fn retain_peers<F: Fn(PeerId) -> bool>(&mut self, keep: &F)
        requires
            old(self).wf(),
            forall|p: PeerId| keep.requires((p,)),
        ensures
            final(self).wf(),
            forall|x: KeyView| #[trigger]
                final(self)@.contains(x) ==> old(self)@.contains(x) && keep.ensures(
                    (x.1.peer_id,),
                    true,
                ),
            forall|x: KeyView| #[trigger]
                old(self)@.contains(x) && !final(self)@.contains(x) ==> keep.ensures(
                    (x.1.peer_id,),
                    false,
                ),
    {
        let ghost old_view = self@;
        let ghost mut j: int = 0;
        let mut i: usize = 0;
        while i < self.keys.len()
            invariant
                0 <= i <= self@.len(),
                0 <= j <= old_view.len(),
                self@.len() - i == old_view.len() - j,
                self@.subrange(i as int, self@.len() as int) == old_view.subrange(
                    j,
                    old_view.len() as int,
                ),
                sorted(self@),
                forall|p: PeerId| keep.requires((p,)),
                forall|a: int|
                    0 <= a < i ==> old_view.contains(#[trigger] self@[a]) && keep.ensures(
                        (self@[a].1.peer_id,),
                        true,
                    ),
                forall|m: int|
                    0 <= m < j ==> self@.take(i as int).contains(#[trigger] old_view[m])
                        || keep.ensures((old_view[m].1.peer_id,), false),
            decreases self@.len() - i,
        {
            let ghost before = self@;
            assert(self@.subrange(i as int, self@.len() as int)[0] == before[i as int]);
            assert(old_view.subrange(j, old_view.len() as int)[0] == old_view[j]);
            assert(before[i as int] == self.keys@[i as int]@);
            let peer = self.keys[i].id.peer_id;
            if keep(peer) {
                i = i + 1;
                proof {
                    assert(old_view.contains(old_view[j]));
                    assert forall|m: int|
                        0 <= m < j + 1 implies self@.take(i as int).contains(
                            #[trigger] old_view[m],
                        ) || keep.ensures((old_view[m].1.peer_id,), false) by {
                        if m == j {
                            assert(self@.take(i as int)[i - 1] == old_view[m]);
                        } else if self@.take(i - 1).contains(old_view[m]) {
                            let w = choose|w: int|
                                0 <= w < i - 1 && #[trigger] self@.take(i - 1)[w] == old_view[m];
                            assert(self@.take(i as int)[w] == old_view[m]);
                        }
                    }
                    assert(self@.subrange(i as int, self@.len() as int) =~= before.subrange(
                        i as int,
                        before.len() as int,
                    ));
                    assert(old_view.subrange(j + 1, old_view.len() as int) =~= old_view.subrange(
                        j,
                        old_view.len() as int,
                    ).subrange(1, old_view.len() - j));
                    assert(before.subrange(i as int, before.len() as int) =~= before.subrange(
                        i - 1,
                        before.len() as int,
                    ).subrange(1, before.len() - i + 1));
                    j = j + 1;
                }
            } else {
                self.keys.remove(i);
                proof {
                    assert(self@ =~= before.remove(i as int));
                    assert(self@.take(i as int) =~= before.take(i as int));
                    assert forall|m: int|
                        0 <= m < j + 1 implies self@.take(i as int).contains(
                            #[trigger] old_view[m],
                        ) || keep.ensures((old_view[m].1.peer_id,), false) by {}
                    assert(self@.subrange(i as int, self@.len() as int) =~= before.subrange(
                        i + 1,
                        before.len() as int,
                    ));
                    assert(old_view.subrange(j + 1, old_view.len() as int) =~= old_view.subrange(
                        j,
                        old_view.len() as int,
                    ).subrange(1, old_view.len() - j));
                    assert(before.subrange(i + 1, before.len() as int) =~= before.subrange(
                        i as int,
                        before.len() as int,
                    ).subrange(1, before.len() - i));
                    j = j + 1;
                }
            }
        }
        proof {
            assert(self@.take(i as int) =~= self@);
            assert forall|x: KeyView| #[trigger]
                old_view.contains(x) && !self@.contains(x) implies keep.ensures(
                (x.1.peer_id,),
                false,
            ) by {
                let m = choose|m: int| 0 <= m < old_view.len() && old_view[m] == x;
            }
        }
    }

    /// Keeps the keys of objects whose peer `keep` accepts, in order.
    pub fn filter_peers<F: Fn(PeerId) -> bool>(&mut self, keep: &F)
        requires
            old(self).wf(),
            forall|p: PeerId| keep.requires((p,)),
            forall|p: PeerId, a: bool, b: bool|
                keep.ensures((p,), a) && keep.ensures((p,), b) ==> a == b,
        ensures
            final(self).wf(),
            final(self)@ == old(self)@.filter(|k: KeyView| keep.ensures((k.1.peer_id,), true)),
    {
        let ghost p = |k: KeyView| keep.ensures((k.1.peer_id,), true);
        let ghost all = self@;
        let ghost mut j: int = 0;
        let mut i: usize = 0;
        proof {
            reveal(Seq::filter);
            assert(all.take(0).filter(p) =~= Seq::<KeyView>::empty());
            assert(self@ =~= all.take(0).filter(p) + all.skip(0));
        }
        while i < self.keys.len()
            invariant
                0 <= j <= all.len(),
                i == all.take(j).filter(p).len(),
                self@ == all.take(j).filter(p) + all.skip(j),
                p == (|k: KeyView| keep.ensures((k.1.peer_id,), true)),
                all == old(self)@,
                forall|q: PeerId| keep.requires((q,)),
                forall|q: PeerId, a: bool, b: bool|
                    keep.ensures((q,), a) && keep.ensures((q,), b) ==> a == b,
            decreases all.len() - j,
        {
            let ghost before = self@;
            proof {
                assert(before[i as int] == all.skip(j)[0]);
                assert(all.skip(j)[0] == all[j]);
                assert(all.take(j + 1).drop_last() =~= all.take(j));
                assert(all.take(j + 1).last() == all[j]);
                reveal(Seq::filter);
            }
            let peer = self.keys[i].id.peer_id;
            if keep(peer) {
                i = i + 1;
                proof {
                    assert(p(all[j]));
                    assert(all.take(j + 1).filter(p) == all.take(j).filter(p).push(all[j]));
                    assert(all.skip(j + 1) =~= all.skip(j).drop_first());
                    j = j + 1;
                    assert(self@ =~= all.take(j).filter(p) + all.skip(j));
                }
            } else {
                self.keys.remove(i);
                proof {
                    assert(self@ =~= before.remove(i as int));
                    assert(!p(all[j]));
                    assert(all.take(j + 1).filter(p) == all.take(j).filter(p));
                    assert(all.skip(j + 1) =~= all.skip(j).drop_first());
                    j = j + 1;
                    assert(self@ =~= all.take(j).filter(p) + all.skip(j));
                }
            }
        }
        proof {
            assert(all.take(j) =~= all);
            lemma_filter_sorted(all, p);
        }
    }
}

/// Whether a key belongs to an object other than `id`.
pub open spec fn other_than(id: RemoteId) -> spec_fn(KeyView) -> bool {
    |k: KeyView| k.1 != id
}

/// The keys of `s` of objects other than `id`.
pub open spec fn without_id(s: Seq<KeyView>, id: RemoteId) -> Seq<KeyView> {
    s.filter(other_than(id))
}

impl Children {
    /// Drops every key of object `id`, keeping the rest in order.
    pub(crate) fn remove_id(&mut self, id: RemoteId)
        requires
            old(self).wf(),
        ensures
            final(self).wf(),
            final(self)@ == without_id(old(self)@, id),
    {
        let ghost p = other_than(id);
        let ghost all = self@;
        let ghost mut j: int = 0;
        let mut i: usize = 0;
        proof {
            reveal(Seq::filter);
            assert(all.take(0).filter(p) =~= Seq::<KeyView>::empty());
            assert(self@ =~= all.take(0).filter(p) + all.skip(0));
        }
        while i < self.keys.len()
            invariant
                0 <= j <= all.len(),
                i == all.take(j).filter(p).len(),
                self@ == all.take(j).filter(p) + all.skip(j),
                p == other_than(id),
                all == old(self)@,
            decreases all.len() - j,
        {
            let ghost before = self@;
            proof {
                assert(before[i as int] == all.skip(j)[0]);
                assert(all.skip(j)[0] == all[j]);
                assert(all.take(j + 1).drop_last() =~= all.take(j));
                assert(all.take(j + 1).last() == all[j]);
                reveal(Seq::filter);
            }
            if !self.keys[i].id.same(&id) {
                i = i + 1;
                proof {
                    assert(p(all[j]));
                    assert(all.take(j + 1).filter(p) == all.take(j).filter(p).push(all[j]));
                    assert(all.skip(j + 1) =~= all.skip(j).drop_first());
                    j = j + 1;
                    assert(self@ =~= all.take(j).filter(p) + all.skip(j));
                }
            } else {
                self.keys.remove(i);
                proof {
                    assert(self@ =~= before.remove(i as int));
                    assert(!p(all[j]));
                    assert(all.take(j + 1).filter(p) == all.take(j).filter(p));
                    assert(all.skip(j + 1) =~= all.skip(j).drop_first());
                    j = j + 1;
                    assert(self@ =~= all.take(j).filter(p) + all.skip(j));
                }
            }
        }
        proof {
            assert(all.take(j) =~= all);
            lemma_filter_sorted(all, p);
        }
    }
}

/// Filtering keeps a sorted list sorted.
pub proof fn lemma_filter_sorted(s: Seq<KeyView>, p: spec_fn(KeyView) -> bool)
    requires
        sorted(s),
    ensures
        sorted(s.filter(p)),
    decreases s.len(),
{
    reveal(Seq::filter);
    if s.len() > 0 {
        let init = s.drop_last();
        assert forall|i: int, j: int| 0 <= i < j < init.len() implies key_lt(init[i], init[j]) by {
            assert(init[i] == s[i] && init[j] == s[j]);
        }
        lemma_filter_sorted(init, p);
        let f = init.filter(p);
        if p(s.last()) {
            let g = f.push(s.last());
            assert forall|i: int, j: int| 0 <= i < j < g.len() implies key_lt(g[i], g[j]) by {
                if j == g.len() - 1 {
                    assert(f.contains(g[i])) by {
                        assert(f[i] == g[i]);
                    }
                    init.lemma_filter_contains_rev(p, g[i]);
                    let k = choose|k: int| 0 <= k < init.len() && init[k] == g[i];
                    assert(s[k] == g[i]);
                    assert(s[s.len() - 1] == g[j]);
                } else {
                    assert(g[i] == f[i] && g[j] == f[j]);
                }
            }
        }
    }
}

} // verus!
