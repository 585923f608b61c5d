//! Entity handles and their allocation.
use std::collections::VecDeque;
use std::marker::PhantomData;
use vstd::prelude::*;

verus! {

/// Number of bits of an entity handle that hold its index.
pub const ID_BITS: u32 = 24;

/// Bit mask selecting the index part of a handle.
pub const ID_MASK: u32 = 0xff_ffff;

/// Number of distinct indices a handle can name.
pub const MAX_INDICES: usize = 0x100_0000;

/// A freed index is handed out again only once this many indices are waiting.
pub const MIN_UNUSED: usize = 1024;

/// An opaque handle naming an entity: an 8-bit generation above a 24-bit index.
///
/// Two handles are equal exactly when their raw bits are equal.
#[derive(Debug, Clone, Copy, PartialEq, Eq, Structural, Hash)]
pub struct Entity {
    id: u32,
}

impl Entity {
    /// The generation part of the handle.
    pub closed spec fn generation(self) -> u8 {
        (self.id >> 24u32) as u8
    }

    /// The index part of the handle.
    pub closed spec fn index(self) -> u32 {
        self.id & 0xff_ffffu32
    }

    pub(crate) fn new(gen: u8, id: u32) -> (r: Entity)
        requires
            id < MAX_INDICES,
        ensures
            r.generation() == gen,
            r.index() == id,
    {
        let g: u32 = gen as u32;
        assert(((g << 24u32) | id) >> 24u32 == g && ((g << 24u32) | id) & 0xff_ffffu32 == id)
            by (bit_vector)
            requires
                g < 256u32,
                id < 0x100_0000u32,
        ;
        Entity { id: (g << ID_BITS) | id }
    }

    /// The generation part of the handle.
    pub fn gen(&self) -> (r: u8)
        ensures
            r == self.generation(),
    {
        (self.id >> ID_BITS) as u8
    }

    /// The index part of the handle.
    pub fn id(&self) -> (r: u32)
        ensures
            r == self.index(),
    {
        self.id & ID_MASK
    }

    /// An index is always below the number of indices a handle can name.
    pub proof fn lemma_index_bound(self)
        ensures
            (self.index() as int) < MAX_INDICES as int,
    {
        let id = self.id;
        assert(id & 0xff_ffffu32 < 0x100_0000u32) by (bit_vector);
    }

    /// A handle is determined by its generation and its index.
    pub proof fn lemma_eq_parts(self, other: Entity)
        ensures
            (self.generation() == other.generation() && self.index() == other.index())
                <==> self == other,
    {
        let a = self.id;
        let b = other.id;
        assert(((a >> 24u32) as u8 == (b >> 24u32) as u8 && a & 0xff_ffffu32 == b & 0xff_ffffu32)
            ==> a == b) by (bit_vector);
    }
}

/// The generation that follows `g`; it wraps after 255.
pub open spec fn next_generation(g: u8) -> u8 {
    if g == 255 {
        0
    } else {
        (g + 1) as u8
    }
}

/// Allocates and recycles entity handles.
///
/// `gens[i]` is the current generation of index `i`; `unused` queues freed
/// indices, oldest first. A handle is alive exactly when the generation it
/// carries is the current generation of its index.
pub struct EntityManager {
    gens: Vec<u8>,
    unused: VecDeque<u32>,
}

impl EntityManager {
    /// Current generation of each index handed out so far.
    pub closed spec fn gens(&self) -> Seq<u8> {
        self.gens@
    }

    /// Freed indices waiting to be reissued, oldest first.
    pub closed spec fn unused(&self) -> Seq<u32> {
        self.unused@
    }

    /// Well-formedness: every index fits in a handle, and every queued index
    /// has been handed out before.
    pub open spec fn wf(&self) -> bool {
        &&& self.gens().len() <= MAX_INDICES
        &&& forall|k: int| 0 <= k < self.unused().len() ==> (#[trigger] self.unused()[k] as int) < self.gens().len()
    }

    /// Whether `e` is alive in this manager.
    pub open spec fn alive(&self, e: Entity) -> bool {
        &&& (e.index() as int) < self.gens().len()
        &&& self.gens()[e.index() as int] == e.generation()
    }

    /// Whether `next` may run: either a freed index is ready for reuse, or a
    /// fresh index is still available.
    pub open spec fn can_issue(&self) -> bool {
        self.unused().len() >= MIN_UNUSED || self.gens().len() < MAX_INDICES
    }

    /// The effect of `next` on `old`, giving `new` and the issued handle `r`.
    pub open spec fn next_step(old: EntityManager, new: EntityManager, r: Entity) -> bool {
        if old.unused().len() >= MIN_UNUSED {
            &&& r.index() == old.unused()[0]
            &&& r.generation() == old.gens()[old.unused()[0] as int]
            &&& new.gens() == old.gens()
            &&& new.unused() == old.unused().drop_first()
        } else {
            &&& r.index() as int == old.gens().len()
            &&& r.generation() == 0
            &&& new.gens() == old.gens().push(0)
            &&& new.unused() == old.unused()
        }
    }

    /// The effect of `destroy(e)` on `old`, giving `new`.
    pub open spec fn destroy_step(old: EntityManager, new: EntityManager, e: Entity) -> bool {
        if old.alive(e) {
            &&& new.gens() == old.gens().update(e.index() as int, next_generation(e.generation()))
            &&& new.unused() == old.unused().push(e.index())
        } else {
            &&& new.gens() == old.gens()
            &&& new.unused() == old.unused()
        }
    }

    /// Creates a manager that has issued no handle.
    pub fn new() -> (r: EntityManager)
        ensures
            r.wf(),
            r.gens().len() == 0,
            r.unused().len() == 0,
    {
        EntityManager { gens: Vec::new(), unused: VecDeque::new() }
    }

    /// Issues a handle: the oldest freed index once enough are queued,
    /// otherwise a fresh index at generation 0.
    pub fn next(&mut self) -> (r: Entity)
        requires
            old(self).wf(),
            old(self).can_issue(),
        ensures
            final(self).wf(),
            Self::next_step(*old(self), *final(self), r),
            final(self).alive(r),
    {
        if self.unused.len() >= MIN_UNUSED {
            let ghost q = self.unused@;
            assert((old(self).unused()[0] as int) < old(self).gens().len());
            let id = self.unused.pop_front().unwrap();
            assert(id == q[0] && (q[0] as int) < self.gens@.len());
            assert forall|k: int| 0 <= k < self.unused@.len() implies (#[trigger] self.unused@[k] as int) < self.gens@.len() by {
                assert(self.unused@[k] == q[k + 1]);
                assert((old(self).unused()[k + 1] as int) < old(self).gens().len());
            }
            let g = self.gens[id as usize];
            Entity::new(g, id)
        } else {
            let len = self.gens.len();
            self.gens.push(0);
            assert forall|k: int| 0 <= k < self.unused@.len() implies (#[trigger] self.unused@[k] as int) < self.gens@.len() by {}
            Entity::new(0, len as u32)
        }
    }

    /// Whether `entity` is alive.
    pub fn is_alive(&self, entity: Entity) -> (r: bool)
        ensures
            r == self.alive(entity),
    {
        let id = entity.id() as usize;
        id < self.gens.len() && self.gens[id] == entity.gen()
    }

    /// Returns a liveness-proof handle for `entity` if it is alive.
    pub fn verify(&self, entity: Entity) -> (r: Option<VerifiedEntity<'_>>)
        ensures
            r is Some <==> self.alive(entity),
            r matches Some(v) ==> v@ == entity,
    {
        if self.is_alive(entity) {
            Some(VerifiedEntity { inner: entity, _marker: PhantomData })
        } else {
            None
        }
    }

    /// Destroys `entity`: its index moves to the next generation and is queued
    /// for reuse. Does nothing if it is already dead.
    pub fn destroy(&mut self, entity: Entity)
        requires
            old(self).wf(),
        ensures
            final(self).wf(),
            Self::destroy_step(*old(self), *final(self), entity),
            !final(self).alive(entity),
    {
        if !self.is_alive(entity) {
            return;
        }
        let id = entity.id();
        let g = self.gens[id as usize];
        let ng = if g == 255 { 0 } else { g + 1 };
        self.gens.set(id as usize, ng);
        self.unused.push_back(id);
        assert forall|k: int| 0 <= k < self.unused@.len() implies (#[trigger] self.unused@[k] as int) < self.gens@.len() by {
            if k < self.unused@.len() - 1 {
                assert(self.unused@[k] == old(self).unused()[k]);
                assert((old(self).unused()[k] as int) < old(self).gens().len());
            } else {
                assert(self.unused@[k] == id);
            }
        }
    }
}

/// A handle is alive as soon as `next` issues it, and a handle of an index
/// issued earlier that is dead stays dead across `next`: in particular it is
/// not the handle issued, even when its index is the one being recycled.
pub proof fn lemma_next_keeps_dead(old: EntityManager, new: EntityManager, r: Entity, e: Entity)
    requires
        old.wf(),
        EntityManager::next_step(old, new, r),
        (e.index() as int) < old.gens().len(),
        !old.alive(e),
    ensures
        new.alive(r),
        !new.alive(e),
        r != e,
{
    if old.unused().len() >= MIN_UNUSED {
        assert((old.unused()[0] as int) < old.gens().len());
    } else {
        assert(new.gens()[e.index() as int] == old.gens()[e.index() as int]);
    }
    r.lemma_eq_parts(e);
}

/// After `destroy(x)` the handle `x` is dead, and every handle that was dead
/// stays dead, except one that names the same index with exactly the
/// generation that follows `x`'s (the 8-bit generation has wrapped round).
pub proof fn lemma_destroy_keeps_dead(old: EntityManager, new: EntityManager, x: Entity, e: Entity)
    requires
        old.wf(),
        EntityManager::destroy_step(old, new, x),
        !old.alive(e),
        !(old.alive(x) && x.index() == e.index() && next_generation(x.generation())
            == e.generation()),
    ensures
        !new.alive(x),
        !new.alive(e),
{
}

/// While fewer than `MIN_UNUSED` freed indices are queued, `next` reissues
/// none of them: it hands out a fresh index.
pub proof fn lemma_no_early_reuse(old: EntityManager, new: EntityManager, r: Entity)
    requires
        old.wf(),
        EntityManager::next_step(old, new, r),
        old.unused().len() < MIN_UNUSED,
    ensures
        !old.unused().contains(r.index()),
        r.index() as int == old.gens().len(),
{
    if old.unused().contains(r.index()) {
        let k = choose|k: int| 0 <= k < old.unused().len() && old.unused()[k] == r.index();
        assert((old.unused()[k] as int) < old.gens().len());
    }
}

/// A recycled index comes back one generation past the handle destroyed on it:
/// destroying a live `x` sets its index's generation to the next one.
pub proof fn lemma_destroy_advances(old: EntityManager, new: EntityManager, x: Entity)
    requires
        old.wf(),
        old.alive(x),
        EntityManager::destroy_step(old, new, x),
    ensures
        new.gens()[x.index() as int] == next_generation(x.generation()),
        new.gens()[x.index() as int] != x.generation(),
        new.unused().last() == x.index(),
{
}

/// One call on a manager, with the handle it concerns: `Next(r)` issued
/// `r`, `Destroy(x)` destroyed `x`.
pub enum ManagerOp {
    Next(Entity),
    Destroy(Entity),
}

/// Whether `op` takes the manager from `old` to `new`.
pub open spec fn op_step(old: EntityManager, new: EntityManager, op: ManagerOp) -> bool {
    match op {
        ManagerOp::Next(r) => EntityManager::next_step(old, new, r),
        ManagerOp::Destroy(x) => EntityManager::destroy_step(old, new, x),
    }
}

/// Over any run of `next` and `destroy` calls, a dead handle of an index
/// issued earlier stays dead in every later state, also when its index is
/// recycled, unless some `destroy` of a live handle on that index brings the
/// generation round to exactly the dead handle's (the 8-bit wrap).
pub proof fn lemma_dead_stays_dead(states: Seq<EntityManager>, ops: Seq<ManagerOp>, e: Entity)
    requires
        states.len() == ops.len() + 1,
        forall|k: int| 0 <= k < ops.len() ==> op_step(states[k], states[k + 1], #[trigger] ops[k]),
        (e.index() as int) < states[0].gens().len(),
        !states[0].alive(e),
        forall|k: int|
            0 <= k < ops.len() ==> match #[trigger] ops[k] {
                ManagerOp::Destroy(x) => !(states[k].alive(x) && x.index() == e.index()
                    && next_generation(x.generation()) == e.generation()),
                ManagerOp::Next(_) => true,
            },
    ensures
        forall|k: int| 0 <= k < states.len() ==> !(#[trigger] states[k]).alive(e),
    decreases ops.len(),
{
    if ops.len() > 0 {
        let n = ops.len() - 1;
        lemma_dead_stays_dead(states.take(states.len() - 1), ops.take(n), e);
        assert forall|k: int| 0 <= k <= n implies (e.index() as int) < (#[trigger] states[k]).gens().len() by {
            lemma_issued_index_stays(states, ops, e, k);
        }
        let pre = states[n];
        let post = states[n + 1];
        assert(op_step(pre, post, ops[n]));
        assert(!states.take(states.len() - 1)[n].alive(e));
        assert forall|k: int| 0 <= k < states.len() implies !(#[trigger] states[k]).alive(e) by {
            if k < states.len() - 1 {
                assert(states.take(states.len() - 1)[k] == states[k]);
            }
        }
    }
}

/// Indices are never withdrawn: one issued before a run stays issued.
proof fn lemma_issued_index_stays(states: Seq<EntityManager>, ops: Seq<ManagerOp>, e: Entity, k: int)
    requires
        states.len() == ops.len() + 1,
        forall|j: int| 0 <= j < ops.len() ==> op_step(states[j], states[j + 1], #[trigger] ops[j]),
        (e.index() as int) < states[0].gens().len(),
        0 <= k < states.len(),
    ensures
        (e.index() as int) < states[k].gens().len(),
    decreases k,
{
    if k > 0 {
        lemma_issued_index_stays(states, ops, e, k - 1);
        assert(op_step(states[k - 1], states[k], ops[k - 1]));
    }
}

/// A handle checked alive by `EntityManager::verify`; it lives no longer than
/// the shared borrow of the manager that produced it.
#[derive(Debug, Clone, Copy)]
pub struct VerifiedEntity<'a> {
    inner: Entity,
    _marker: PhantomData<&'a EntityManager>,
}

impl<'a> View for VerifiedEntity<'a> {
    type V = Entity;

    closed spec fn view(&self) -> Entity {
        self.inner
    }
}

impl<'a> VerifiedEntity<'a> {
    /// The handle that was checked.
    pub fn entity(&self) -> (r: Entity)
        ensures
            r == self@,
    {
        self.inner
    }
}

} // verus!
