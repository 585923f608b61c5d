//! Component storage: a packed table of (handle, value) entries with an
//! index table from entity index to entry offset.
use std::collections::VecDeque;
use vstd::prelude::*;

use crate::entity::{Entity, VerifiedEntity};

verus! {

/// A piece of plain data attached to an entity.
pub trait Component: Copy + Send + Sync + 'static {}

impl<T: Copy + Send + Sync + 'static> Component for T {}

/// Whether `slots` holds an entry stored under exactly the handle `e`.
pub open spec fn stored<T>(slots: Map<u32, (Entity, T)>, e: Entity) -> bool {
    slots.contains_key(e.index()) && slots[e.index()].0 == e
}

/// The value held for `e`, if an entry is stored under exactly `e`.
pub open spec fn lookup<T>(slots: Map<u32, (Entity, T)>, e: Entity) -> Option<T> {
    if stored(slots, e) {
        Some(slots[e.index()].1)
    } else {
        None
    }
}

/// Storing `v` for `e` and then reading `e` gives `v`; after removing `e`'s
/// entry a read of `e` gives nothing; and a removal hands back a value only
/// when the entry was stored under exactly `e` (same index and generation),
/// so a handle `x` of another generation on that index reads nothing.
pub proof fn lemma_round_trip<T>(slots: Map<u32, (Entity, T)>, e: Entity, v: T, x: Entity)
    ensures
        lookup(slots.insert(e.index(), (e, v)), e) == Some(v),
        lookup(slots.remove(e.index()), e) is None,
        lookup(slots, e) is Some ==> slots[e.index()].0 == e,
        x.index() == e.index() && x != e ==> lookup(slots.insert(e.index(), (e, v)), x) is None,
{
}

/// Storage of one component type, keyed by entity.
///
/// A storage holds at most one entry per entity index: `slots` maps an index
/// to the handle the entry was stored under and its value. Reads compare the
/// stored handle with the one asked for, so an entry left behind by a dead
/// entity is never handed out for a later entity on the same index.
pub trait Storage<T>: Sized {
    /// Internal consistency of the storage.
    spec fn wf(&self) -> bool;

    /// The entry held for each index.
    spec fn slots(&self) -> Map<u32, (Entity, T)>;

    /// The order in which `entities` lists the stored handles.
    spec fn order(&self) -> Seq<Entity>;

    /// The listing order holds each stored handle exactly once.
    proof fn lemma_order_unique(&self)
        requires
            self.wf(),
        ensures
            self.order().no_duplicates(),
            forall|x: Entity| self.order().contains(x) <==> stored(self.slots(), x),
    ;

    /// Stores `data` for `e`, replacing whatever its index held.
    fn set(&mut self, e: VerifiedEntity, data: T)
        requires
            old(self).wf(),
        ensures
            final(self).wf(),
            final(self).slots() == old(self).slots().insert(e@.index(), (e@, data)),
    ;

    /// Whether an entry is stored under exactly `e`.
    fn has(&self, e: VerifiedEntity) -> (r: bool)
        requires
            self.wf(),
        ensures
            r == stored(self.slots(), e@),
    ;

    /// The value stored for `e`.
    fn get(&self, e: VerifiedEntity) -> (r: Option<&T>)
        requires
            self.wf(),
        ensures
            r is Some <==> stored(self.slots(), e@),
            r matches Some(v) ==> *v == self.slots()[e@.index()].1,
    ;

    /// A mutable reference to the value stored for `e`.
    fn get_mut(&mut self, e: VerifiedEntity) -> (r: Option<&mut T>)
        requires
            old(self).wf(),
        ensures
            r is Some <==> stored(old(self).slots(), e@),
            r matches Some(v) ==> {
                &&& *v == old(self).slots()[e@.index()].1
                &&& final(self).wf()
                &&& final(self).slots() == old(self).slots().insert(e@.index(), (e@, *final(v)))
            },
            r is None ==> *final(self) == *old(self),
    ;

    /// Drops the entry on `e`'s index, returning its value only if it was
    /// stored under exactly `e`.
    fn remove(&mut self, e: VerifiedEntity) -> (r: Option<T>)
        requires
            old(self).wf(),
        ensures
            final(self).wf(),
            final(self).slots() == old(self).slots().remove(e@.index()),
            r == lookup(old(self).slots(), e@),
            !old(self).slots().contains_key(e@.index()) ==> *final(self) == *old(self),
    ;

    /// Drops whatever entry `e`'s index holds; `e` need not be alive.
    fn destroy(&mut self, e: Entity)
        requires
            old(self).wf(),
        ensures
            final(self).wf(),
            final(self).slots() == old(self).slots().remove(e.index()),
            !old(self).slots().contains_key(e.index()) ==> *final(self) == *old(self),
    ;

    /// The handles of all entries, each once, in storage order.
    fn entities(&self) -> (r: Vec<Entity>)
        requires
            self.wf(),
        ensures
            r@ == self.order(),
            r@.no_duplicates(),
            forall|x: Entity| r@.contains(x) <==> stored(self.slots(), x),
    ;
}

/// The default storage: entries packed in a vector, an index table from
/// entity index to offset, and a queue of offsets free for reuse.
pub struct DefaultStorage<T: Component> {
    data: Vec<(Entity, T)>,
    indices: Vec<Option<usize>>,
    unused: VecDeque<usize>,
}

impl<T: Component> DefaultStorage<T> {
    /// Whether the entry at offset `off` is the one its index points to.
    pub closed spec fn live_at(&self, off: int) -> bool {
        &&& 0 <= off < self.data@.len()
        &&& (self.data@[off].0.index() as int) < self.indices@.len()
        &&& self.indices@[self.data@[off].0.index() as int] is Some
        &&& self.indices@[self.data@[off].0.index() as int]->0 as int == off
    }

    /// Handles of the live entries among the first `n` offsets, in order.
    pub closed spec fn live_prefix(&self, n: int) -> Seq<Entity>
        decreases n,
    {
        if n <= 0 {
            Seq::empty()
        } else if self.live_at(n - 1) {
            self.live_prefix(n - 1).push(self.data@[n - 1].0)
        } else {
            self.live_prefix(n - 1)
        }
    }

    /// The free queue holds offsets in range that no index points to, each once.
    pub closed spec fn queue_ok(&self) -> bool {
        &&& forall|k: int| 0 <= k < self.unused@.len() ==> {
                let off = #[trigger] self.unused@[k] as int;
                &&& off < self.data@.len()
                &&& !self.live_at(off)
            }
        &&& self.unused@.no_duplicates()
    }

    /// The free queue stays valid when `post` keeps `pre`'s queue from
    /// `shift` on, appends `extra` (offsets now free and not queued before),
    /// and leaves the liveness of every kept offset as it was.
    proof fn lemma_queue_kept(pre: Self, post: Self, shift: int, extra: Seq<usize>)
        requires
            pre.queue_ok(),
            0 <= shift <= pre.unused@.len(),
            post.unused@ == pre.unused@.subrange(shift, pre.unused@.len() as int) + extra,
            pre.data@.len() <= post.data@.len(),
            forall|k: int|
                shift <= k < pre.unused@.len() ==> post.live_at(#[trigger] pre.unused@[k] as int)
                    == pre.live_at(pre.unused@[k] as int),
            forall|k: int|
                0 <= k < extra.len() ==> {
                    let off = #[trigger] extra[k];
                    &&& (off as int) < post.data@.len()
                    &&& !post.live_at(off as int)
                    &&& !pre.unused@.contains(off)
                },
            extra.no_duplicates(),
        ensures
            post.queue_ok(),
    {
        let kept = pre.unused@.subrange(shift, pre.unused@.len() as int);
        let q = post.unused@;
        assert forall|k: int| 0 <= k < q.len() implies {
            let off = #[trigger] q[k] as int;
            &&& off < post.data@.len()
            &&& !post.live_at(off)
        } by {
            if k < kept.len() {
                assert(q[k] == pre.unused@[k + shift]);
            } else {
                assert(q[k] == extra[k - kept.len()]);
            }
        }
        assert forall|a: int, b: int| 0 <= a < b < q.len() implies q[a] != q[b] by {
            if b < kept.len() {
                assert(q[a] == pre.unused@[a + shift] && q[b] == pre.unused@[b + shift]);
            } else if a < kept.len() {
                assert(q[a] == pre.unused@[a + shift]);
                assert(q[b] == extra[b - kept.len()]);
            } else {
                assert(q[a] == extra[a - kept.len()] && q[b] == extra[b - kept.len()]);
            }
        }
    }

    /// Unlinks index `id` from offset `off` and queues `off` for reuse.
    fn release(&mut self, id: usize, off: usize)
        requires
            old(self).wf(),
            id < old(self).indices@.len(),
            old(self).indices@[id as int] == Some(off),
        ensures
            final(self).wf(),
            final(self).data@ == old(self).data@,
            final(self).slots() == old(self).slots().remove(id as u32),
    {
        let ghost pre = *self;
        proof {
            assert(pre.live_at(off as int));
        }
        self.indices.set(id, None);
        self.unused.push_back(off);
        assert forall|o: int| 0 <= o < self.data@.len() && o != off implies self.live_at(o) == pre.live_at(o) by {
            let i = self.data@[o].0.index() as int;
            if i != id && i < self.indices@.len() {
                assert(self.indices@[i] == pre.indices@[i]);
            } else if i == id {
                assert(pre.indices@[i] == Some(off));
                assert(self.indices@[i] == None::<usize>);
            }
        }
        proof {
            assert(pre.unused@.subrange(0, pre.unused@.len() as int) =~= pre.unused@);
            assert(self.unused@ =~= pre.unused@.subrange(0, pre.unused@.len() as int) + seq![off]);
            assert(!pre.unused@.contains(off)) by {
                if pre.unused@.contains(off) {
                    let k = choose|k: int| 0 <= k < pre.unused@.len() && pre.unused@[k] == off;
                    assert(!pre.live_at(pre.unused@[k] as int));
                }
            }
            Self::lemma_queue_kept(pre, *self, 0, seq![off]);
        }
        assert forall|i: int| 0 <= i < self.indices@.len() && #[trigger] self.indices@[i] is Some implies {
            let o = self.indices@[i]->0 as int;
            &&& o < self.data@.len()
            &&& self.data@[o].0.index() == i
        } by {
            assert(pre.indices@[i] == self.indices@[i]);
        }
        assert(self.slots() =~= pre.slots().remove(id as u32));
    }

    /// An empty storage.
    pub fn new() -> (r: Self)
        ensures
            r.wf(),
            r.slots() == Map::<u32, (Entity, T)>::empty(),
    {
        let r = DefaultStorage { data: Vec::new(), indices: Vec::new(), unused: VecDeque::new() };
        assert(r.slots() =~= Map::<u32, (Entity, T)>::empty());
        r
    }
}

impl<T: Component> DefaultStorage<T> {
    /// Every handle in `live_prefix(n)` is stored, at an offset below `n`,
    /// each once, and every live entry below `n` is listed.
    proof fn lemma_live_prefix(&self, n: int)
        requires
            self.wf(),
            0 <= n <= self.data@.len(),
        ensures
            self.live_prefix(n).no_duplicates(),
            forall|i: int| 0 <= i < self.live_prefix(n).len() ==> {
                let x = #[trigger] self.live_prefix(n)[i];
                &&& (x.index() as int) < self.indices@.len()
                &&& self.indices@[x.index() as int] is Some
                &&& (self.indices@[x.index() as int]->0 as int) < n
                &&& self.data@[self.indices@[x.index() as int]->0 as int].0 == x
            },
            forall|k: int| 0 <= k < n && self.live_at(k) ==> self.live_prefix(n).contains(
                #[trigger] self.data@[k].0,
            ),
        decreases n,
    {
        if n > 0 {
            self.lemma_live_prefix(n - 1);
            let prev = self.live_prefix(n - 1);
            let cur = self.live_prefix(n);
            if self.live_at(n - 1) {
                let x = self.data@[n - 1].0;
                assert(cur == prev.push(x));
                if prev.contains(x) {
                    let i = choose|i: int| 0 <= i < prev.len() && prev[i] == x;
                    assert(prev[i] == x);
                }
                assert forall|a: int, b: int| 0 <= a < b < cur.len() implies cur[a] != cur[b] by {
                    if b == prev.len() {
                        assert(cur[a] == prev[a]);
                        assert(cur[b] == x);
                        let pa = prev[a];
                        assert(self.indices@[x.index() as int]->0 as int == n - 1);
                        assert((self.indices@[pa.index() as int]->0 as int) < n - 1);
                        assert(pa != x);
                    } else {
                        assert(cur[a] == prev[a] && cur[b] == prev[b]);
                        assert(prev.no_duplicates());
                        assert(prev[a] != prev[b]);
                    }
                }
                assert forall|i: int| 0 <= i < cur.len() implies {
                    let y = #[trigger] cur[i];
                    &&& (y.index() as int) < self.indices@.len()
                    &&& self.indices@[y.index() as int] is Some
                    &&& (self.indices@[y.index() as int]->0 as int) < n
                    &&& self.data@[self.indices@[y.index() as int]->0 as int].0 == y
                } by {
                    if i < prev.len() {
                        assert(cur[i] == prev[i]);
                    } else {
                        assert(cur[i] == x);
                        assert(self.indices@[x.index() as int]->0 as int == n - 1);
                    }
                }
                assert forall|k: int| 0 <= k < n && self.live_at(k) implies cur.contains(
                    #[trigger] self.data@[k].0,
                ) by {
                    if k < n - 1 {
                        let j = choose|j: int| 0 <= j < prev.len() && prev[j] == self.data@[k].0;
                        assert(cur[j] == self.data@[k].0);
                    } else {
                        assert(cur[prev.len() as int] == self.data@[k].0);
                    }
                }
            } else {
                assert(cur == prev);
                assert forall|k: int| 0 <= k < n && self.live_at(k) implies cur.contains(
                    #[trigger] self.data@[k].0,
                ) by {
                    assert(k < n - 1);
                }
            }
        }
    }

    proof fn lemma_slots_stored(&self, x: Entity)
        requires
            self.wf(),
            stored(self.slots(), x),
        ensures
            self.live_at(self.indices@[x.index() as int]->0 as int),
            self.data@[self.indices@[x.index() as int]->0 as int].0 == x,
    {
    }
}

impl<T: Component> Storage<T> for DefaultStorage<T> {
    closed spec fn wf(&self) -> bool {
        &&& forall|id: int| 0 <= id < self.indices@.len() && #[trigger] self.indices@[id] is Some
            ==> {
                let off = self.indices@[id]->0 as int;
                &&& off < self.data@.len()
                &&& self.data@[off].0.index() == id
            }
        &&& self.queue_ok()
    }

    closed spec fn slots(&self) -> Map<u32, (Entity, T)> {
        Map::new(
            |id: u32| (id as int) < self.indices@.len() && self.indices@[id as int] is Some,
            |id: u32| self.data@[self.indices@[id as int]->0 as int],
        )
    }

    closed spec fn order(&self) -> Seq<Entity> {
        self.live_prefix(self.data@.len() as int)
    }

    proof fn lemma_order_unique(&self) {
        let r = self.order();
        self.lemma_live_prefix(self.data@.len() as int);
        assert forall|x: Entity| r.contains(x) <==> stored(self.slots(), x) by {
            if r.contains(x) {
                let i = choose|i: int| 0 <= i < r.len() && r[i] == x;
                assert(r[i] == x);
            }
            if stored(self.slots(), x) {
                self.lemma_slots_stored(x);
            }
        }
    }

    fn set(&mut self, e: VerifiedEntity, data: T) {
        let ent = e.entity();
        let id = ent.id() as usize;
        proof {
            ent.lemma_index_bound();
        }
        while self.indices.len() <= id
            invariant
                self.wf(),
                self.slots() == old(self).slots(),
                self.data@ == old(self).data@,
                self.unused@ == old(self).unused@,
                id < crate::entity::MAX_INDICES,
            decreases id + 1 - self.indices@.len(),
        {
            let ghost pre = *self;
            self.indices.push(None);
            assert forall|off: int| 0 <= off < self.data@.len() implies self.live_at(off) == pre.live_at(off) by {
                let i = self.data@[off].0.index() as int;
                if i < pre.indices@.len() {
                    assert(self.indices@[i] == pre.indices@[i]);
                }
            }
            proof {
                assert(self.unused@ =~= pre.unused@.subrange(0, pre.unused@.len() as int) + Seq::empty());
                Self::lemma_queue_kept(pre, *self, 0, Seq::empty());
            }
            assert forall|i: int| 0 <= i < self.indices@.len() && #[trigger] self.indices@[i] is Some implies {
                let off = self.indices@[i]->0 as int;
                &&& off < self.data@.len()
                &&& self.data@[off].0.index() == i
            } by {
                assert(pre.indices@[i] == self.indices@[i]);
            }
            assert(self.slots() =~= pre.slots());
        }
        let ghost pre = *self;
        let entry = (ent, data);
        match self.indices[id] {
            Some(off) => {
                self.data.set(off, entry);
                assert forall|o: int| 0 <= o < self.data@.len() implies self.live_at(o) == pre.live_at(o) by {
                }
                proof {
                    assert(self.unused@ =~= pre.unused@.subrange(0, pre.unused@.len() as int) + Seq::empty());
                    Self::lemma_queue_kept(pre, *self, 0, Seq::empty());
                }
            },
            None => {
                let off: usize;
                match self.unused.pop_front() {
                    Some(o) => {
                        off = o;
                        assert(pre.unused@[0] == o);
                        self.data.set(off, entry);
                    },
                    None => {
                        off = self.data.len();
                        self.data.push(entry);
                    },
                }
                self.indices.set(id, Some(off));
                assert forall|o: int| 0 <= o < self.data@.len() && o != off implies self.live_at(o) == pre.live_at(o) by {
                    let i = self.data@[o].0.index() as int;
                    assert(self.data@[o] == pre.data@[o]);
                    if i == id {
                        if pre.live_at(o) {
                            assert(pre.indices@[id as int] == Some(o as usize));
                        }
                    } else if i < self.indices@.len() {
                        assert(self.indices@[i] == pre.indices@[i]);
                    }
                }
                assert(self.live_at(off as int));
                proof {
                    let shift: int = if self.unused@.len() < pre.unused@.len() { 1 } else { 0 };
                    assert(self.unused@ =~= pre.unused@.subrange(shift, pre.unused@.len() as int) + Seq::empty());
                    assert forall|k: int| shift <= k < pre.unused@.len() implies self.live_at(#[trigger] pre.unused@[k] as int)
                        == pre.live_at(pre.unused@[k] as int) by {
                        if shift == 1 {
                            assert(pre.unused@[0] != pre.unused@[k]);
                        } else {
                            assert(pre.unused@[k] != off as usize);
                        }
                    }
                    Self::lemma_queue_kept(pre, *self, shift, Seq::empty());
                }
                assert forall|i: int| 0 <= i < self.indices@.len() && #[trigger] self.indices@[i] is Some implies {
                    let o = self.indices@[i]->0 as int;
                    &&& o < self.data@.len()
                    &&& self.data@[o].0.index() == i
                } by {
                    if i != id {
                        let o = pre.indices@[i]->0 as int;
                        assert(pre.data@[o].0.index() == i);
                        if o == off {
                            if pre.unused@.len() > 0 && self.unused@.len() < pre.unused@.len() {
                                assert(pre.live_at(o));
                                assert(!pre.live_at(pre.unused@[0] as int));
                            }
                        }
                    }
                }
            },
        }
        assert(self.slots() =~= pre.slots().insert(e@.index(), (e@, data))) by {
            assert forall|i: u32| #[trigger] self.slots().contains_key(i) && i != e@.index() implies self.slots()[i] == pre.slots()[i] by {
                let o = pre.indices@[i as int]->0 as int;
                assert(pre.data@[o].0.index() == i);
            }
        }
    }

    fn has(&self, e: VerifiedEntity) -> (r: bool) {
        let ent = e.entity();
        let id = ent.id() as usize;
        if id < self.indices.len() {
            match self.indices[id] {
                Some(off) => self.data[off].0 == ent,
                None => false,
            }
        } else {
            false
        }
    }

    fn get(&self, e: VerifiedEntity) -> (r: Option<&T>) {
        let ent = e.entity();
        let id = ent.id() as usize;
        if id < self.indices.len() {
            if let Some(off) = self.indices[id] {
                if self.data[off].0 == ent {
                    return Some(&self.data[off].1);
                }
            }
        }
        None
    }

    fn get_mut(&mut self, e: VerifiedEntity) -> (r: Option<&mut T>) {
        let ent = e.entity();
        let id = ent.id() as usize;
        if id < self.indices.len() {
            if let Some(off) = self.indices[id] {
                if self.data[off].0 == ent {
                    return Some(&mut self.data[off].1);
                }
            }
        }
        None
    }

    fn remove(&mut self, e: VerifiedEntity) -> (r: Option<T>) {
        let ent = e.entity();
        let id = ent.id() as usize;
        if id < self.indices.len() {
            if let Some(off) = self.indices[id] {
                self.release(id, off);
                if self.data[off].0 == ent {
                    return Some(self.data[off].1);
                }
            }
        }
        None
    }

    fn destroy(&mut self, e: Entity) {
        let id = e.id() as usize;
        if id < self.indices.len() {
            if let Some(off) = self.indices[id] {
                self.release(id, off);
            }
        }
    }

    fn entities(&self) -> (r: Vec<Entity>) {
        let mut r: Vec<Entity> = Vec::new();
        let mut k: usize = 0;
        while k < self.data.len()
            invariant
                self.wf(),
                k <= self.data@.len(),
                r@ == self.live_prefix(k as int),
            decreases self.data@.len() - k,
        {
            let ent = self.data[k].0;
            let id = ent.id() as usize;
            if id < self.indices.len() {
                match self.indices[id] {
                    Some(off) => {
                        if off == k {
                            r.push(ent);
                        }
                    },
                    None => {},
                }
            }
            k += 1;
        }
        proof {
            self.lemma_order_unique();
        }
        r
    }
}

} // verus!
