//! Filters, the pipeline that intersects them, and the query builder.
use std::marker::PhantomData;
use vstd::prelude::*;

use crate::entity::{Entity, EntityManager, VerifiedEntity};
use crate::set::{ComponentSet, Contains, LockGroup, Locked, Slot};
use crate::storage::{stored, Component, DefaultStorage, Storage};
use crate::world::WorldHandle;

verus! {

/// A predicate over one component type's storage.
///
/// A filter may accept an entity only if the storage holds an entry for it.
pub trait Filter {
    type Component: Component;

    /// Whether the filter accepts `e` against `storage`.
    spec fn accepts(&self, storage: DefaultStorage<Self::Component>, e: Entity) -> bool;

    /// An accepted entity has an entry in the storage.
    proof fn lemma_accepts_stored(&self, storage: DefaultStorage<Self::Component>, e: Entity)
        requires
            storage.wf(),
            self.accepts(storage, e),
        ensures
            stored(storage.slots(), e),
    ;

    /// Tests `e` against `storage`.
    fn pred(&self, storage: &DefaultStorage<Self::Component>, e: VerifiedEntity) -> (r: bool)
        requires
            storage.wf(),
        ensures
            r == self.accepts(*storage, e@),
    ;
}

/// The filter that accepts exactly the entities holding a `T` component.
pub struct Has<T: Component> {
    _marker: PhantomData<T>,
}

impl<T: Component> Has<T> {
    /// The filter for component `T`.
    pub closed spec fn spec_new() -> Has<T> {
        Has { _marker: PhantomData }
    }

    /// The filter for component `T`.
    pub fn new() -> (r: Self)
        ensures
            r == Self::spec_new(),
    {
        Has { _marker: PhantomData }
    }
}

impl<T: Component> Filter for Has<T> {
    type Component = T;

    open spec fn accepts(&self, storage: DefaultStorage<T>, e: Entity) -> bool {
        stored(storage.slots(), e)
    }

    proof fn lemma_accepts_stored(&self, storage: DefaultStorage<T>, e: Entity) {
    }

    fn pred(&self, storage: &DefaultStorage<T>, e: VerifiedEntity) -> (r: bool) {
        storage.has(e)
    }
}

/// One step of a pipeline: a filter and the position of its component's
/// storage in the set.
pub struct Stage<Fl, I> {
    /// The filter applied at this step.
    pub filter: Fl,
    /// Marks the set position of the filter's component storage.
    pub slot: PhantomData<I>,
}

/// Whether the candidate list `c` holds, slot by slot, the handle of `seed`
/// where `keep` accepts it and a tombstone elsewhere.
pub open spec fn candidates_match<'b>(
    c: Seq<Option<VerifiedEntity<'b>>>,
    seed: Seq<Entity>,
    keep: spec_fn(Entity) -> bool,
) -> bool {
    &&& c.len() == seed.len()
    &&& forall|i: int|
        0 <= i < c.len() ==> match #[trigger] c[i] {
            Some(v) => keep(seed[i]) && v@ == seed[i],
            None => !keep(seed[i]),
        }
}

/// Seeds a candidate list from `s`: each stored handle in storage order,
/// kept where it is alive in `em` and `f` accepts it.
fn seed_candidates<'b, Fl: Filter>(
    f: &Fl,
    s: &DefaultStorage<Fl::Component>,
    em: &'b EntityManager,
) -> (r: Vec<Option<VerifiedEntity<'b>>>)
    requires
        s.wf(),
    ensures
        candidates_match(r@, s.order(), |e: Entity| em.alive(e) && f.accepts(*s, e)),
{
    let es = s.entities();
    let mut r: Vec<Option<VerifiedEntity<'b>>> = Vec::new();
    let mut i: usize = 0;
    while i < es.len()
        invariant
            s.wf(),
            es@ == s.order(),
            i <= es@.len(),
            r@.len() == i,
            forall|j: int|
                0 <= j < i ==> match #[trigger] r@[j] {
                    Some(v) => em.alive(es@[j]) && f.accepts(*s, es@[j]) && v@ == es@[j],
                    None => !(em.alive(es@[j]) && f.accepts(*s, es@[j])),
                },
        decreases es@.len() - i,
    {
        let e = es[i];
        let slot = match em.verify(e) {
            Some(v) => {
                if f.pred(s, v) {
                    Some(v)
                } else {
                    None
                }
            },
            None => None,
        };
        r.push(slot);
        i += 1;
    }
    r
}

/// Tombstones every candidate of `c` that `f` rejects against `s`.
fn refine_candidates<'b, Fl: Filter>(
    f: &Fl,
    s: &DefaultStorage<Fl::Component>,
    c: &mut Vec<Option<VerifiedEntity<'b>>>,
)
    requires
        s.wf(),
    ensures
        final(c)@.len() == old(c)@.len(),
        forall|i: int|
            0 <= i < old(c)@.len() ==> #[trigger] final(c)@[i] == match old(c)@[i] {
                Some(v) => if f.accepts(*s, v@) {
                    Some(v)
                } else {
                    None
                },
                None => None,
            },
{
    let mut i: usize = 0;
    while i < c.len()
        invariant
            s.wf(),
            c@.len() == old(c)@.len(),
            i <= c@.len(),
            forall|j: int|
                0 <= j < i ==> #[trigger] c@[j] == match old(c)@[j] {
                    Some(v) => if f.accepts(*s, v@) {
                        Some(v)
                    } else {
                        None
                    },
                    None => None,
                },
            forall|j: int| i <= j < c@.len() ==> #[trigger] c@[j] == old(c)@[j],
        decreases c@.len() - i,
    {
        if let Some(v) = c[i] {
            if !f.pred(s, v) {
                c.set(i, None);
            }
        }
        i += 1;
    }
}

/// The predicate a pipeline applies to the seed: alive in `em` and accepted
/// by every filter of `f` against `locks`.
pub open spec fn keep_pred<'a, S: ComponentSet, F: FilterGroup<'a, S>>(
    f: F,
    locks: F::Locks,
    em: EntityManager,
) -> spec_fn(Entity) -> bool {
    |e: Entity| em.alive(e) && f.accepts(locks, e)
}

/// The entities a pipeline yields, in order: the first filter's storage
/// order, kept where alive and accepted by every filter. An empty pipeline
/// yields nothing.
pub open spec fn matched<'a, S: ComponentSet, F: FilterGroup<'a, S>>(
    f: F,
    locks: F::Locks,
    em: EntityManager,
) -> Seq<Entity> {
    match f.seed(locks) {
        Some(seed) => seed.filter(keep_pred(f, locks, em)),
        None => Seq::empty(),
    }
}

/// A pipeline yields exactly the entities that are alive and accepted by
/// every stage, each once, and hands out for each the component values its
/// stages' storages hold for it.
pub proof fn lemma_pipeline_exact<'a, S: ComponentSet, F: FilterGroup<'a, S>>(
    f: F,
    locks: F::Locks,
    em: EntityManager,
    x: Entity,
)
    requires
        locks.wf(),
        f.seed(locks) is Some,
    ensures
        matched(f, locks, em).no_duplicates(),
        matched(f, locks, em).contains(x) <==> em.alive(x) && f.accepts(locks, x),
{
    let seed = f.seed(locks)->0;
    let keep = keep_pred(f, locks, em);
    f.lemma_seed_unique(locks);
    lemma_filter_unique(seed, keep);
    broadcast use vstd::seq_lib::group_filter_ensures;

    if matched(f, locks, em).contains(x) {
        let k = choose|k: int| 0 <= k < seed.filter(keep).len() && seed.filter(keep)[k] == x;
        assert(keep(seed.filter(keep)[k]));
    }
    if em.alive(x) && f.accepts(locks, x) {
        f.lemma_accepted_seeded(locks, x);
        let k = choose|k: int| 0 <= k < seed.len() && seed[k] == x;
        assert(keep(seed[k]));
    }
}

/// An ordered group of filters over the component set `S`, built up one
/// stage at a time as `((((), s0), s1), ...)`.
pub trait FilterGroup<'a, S: ComponentSet>: Sized {
    /// The locks the group holds while it runs: one per stage, in order.
    type Locks: LockGroup;

    /// The data handed out per match: one component value per stage.
    type Item;

    /// The set positions of the stages' components, in order.
    spec fn positions(&self) -> Seq<usize>;

    /// The first stage's storage order, or nothing for an empty group.
    spec fn seed(&self, locks: Self::Locks) -> Option<Seq<Entity>>;

    /// Whether every stage accepts `e`.
    spec fn accepts(&self, locks: Self::Locks, e: Entity) -> bool;

    /// The component values of `e`, one per stage.
    spec fn item(&self, locks: Self::Locks, e: Entity) -> Self::Item;

    /// Whether each stage's lock in `locks` is the lock that `set` holds
    /// for that stage's component.
    spec fn holds(&self, locks: Self::Locks, set: S) -> bool;

    /// Whether every stage's storage holds an entry stored under exactly `e`.
    spec fn stores(&self, locks: Self::Locks, e: Entity) -> bool;

    /// An entity every stage accepts is stored in every stage's storage.
    proof fn lemma_accepted_stored(&self, locks: Self::Locks, e: Entity)
        requires
            locks.wf(),
            self.accepts(locks, e),
        ensures
            self.stores(locks, e),
    ;

    /// An empty group accepts everything.
    proof fn lemma_unseeded_accepts(&self, locks: Self::Locks, e: Entity)
        requires
            self.seed(locks) is None,
        ensures
            self.accepts(locks, e),
    ;

    /// The seed lists each handle at most once.
    proof fn lemma_seed_unique(&self, locks: Self::Locks)
        requires
            locks.wf(),
        ensures
            self.seed(locks) matches Some(s) ==> s.no_duplicates(),
    ;

    /// An entity every stage accepts is in the seed.
    proof fn lemma_accepted_seeded(&self, locks: Self::Locks, e: Entity)
        requires
            locks.wf(),
            self.accepts(locks, e),
            self.seed(locks) is Some,
        ensures
            self.seed(locks)->0.contains(e),
    ;

    /// Appends the stages' set positions to `out`.
    fn push_positions(&self, out: &mut Vec<usize>)
        ensures
            final(out)@ == old(out)@ + self.positions(),
    ;

    /// Locks each stage's storage, in stage order.
    fn acquire(&self, set: &'a S) -> (r: Self::Locks)
        ensures
            r.wf(),
            self.holds(r, *set),
    ;

    /// The candidate list: the seed with a tombstone on every handle that is
    /// dead or rejected by some stage.
    fn candidates<'b>(&self, locks: &Self::Locks, em: &'b EntityManager) -> (r: Option<
        Vec<Option<VerifiedEntity<'b>>>,
    >)
        requires
            locks.wf(),
        ensures
            r is None <==> self.seed(*locks) is None,
            r matches Some(c) ==> candidates_match(
                c@,
                self.seed(*locks)->0,
                |e: Entity| em.alive(e) && self.accepts(*locks, e),
            ),
    ;

    /// Reads the component values of an accepted entity.
    fn fetch(&self, locks: &Self::Locks, e: VerifiedEntity) -> (r: Self::Item)
        requires
            locks.wf(),
            self.accepts(*locks, e@),
        ensures
            r == self.item(*locks, e@),
    ;
}

impl<'a, S: ComponentSet> FilterGroup<'a, S> for () {
    type Locks = ();

    type Item = ();

    open spec fn positions(&self) -> Seq<usize> {
        Seq::empty()
    }

    open spec fn seed(&self, locks: ()) -> Option<Seq<Entity>> {
        None
    }

    open spec fn accepts(&self, locks: (), e: Entity) -> bool {
        true
    }

    open spec fn item(&self, locks: (), e: Entity) -> () {
        ()
    }

    proof fn lemma_unseeded_accepts(&self, locks: (), e: Entity) {
    }

    proof fn lemma_seed_unique(&self, locks: ()) {
    }

    proof fn lemma_accepted_seeded(&self, locks: (), e: Entity) {
    }

    open spec fn holds(&self, locks: (), set: S) -> bool {
        true
    }

    open spec fn stores(&self, locks: (), e: Entity) -> bool {
        true
    }

    proof fn lemma_accepted_stored(&self, locks: (), e: Entity) {
    }

    fn push_positions(&self, out: &mut Vec<usize>) {
        assert(out@ =~= out@ + Seq::<usize>::empty());
    }

    fn acquire(&self, set: &'a S) -> (r: ()) {
        ()
    }

    fn candidates<'b>(&self, locks: &(), em: &'b EntityManager) -> (r: Option<
        Vec<Option<VerifiedEntity<'b>>>,
    >) {
        None
    }

    fn fetch(&self, locks: &(), e: VerifiedEntity) -> (r: ()) {
        ()
    }
}

impl<'a, S: ComponentSet + Contains<Fl::Component, I>, R: FilterGroup<'a, S>, Fl: Filter, I: Slot> FilterGroup<
    'a,
    S,
> for (R, Stage<Fl, I>) {
    type Locks = (R::Locks, Locked<'a, Fl::Component>);

    type Item = (R::Item, Fl::Component);

    open spec fn positions(&self) -> Seq<usize> {
        self.0.positions().push(I::position())
    }

    open spec fn seed(&self, locks: Self::Locks) -> Option<Seq<Entity>> {
        match self.0.seed(locks.0) {
            Some(s) => Some(s),
            None => Some(locks.1@.order()),
        }
    }

    open spec fn accepts(&self, locks: Self::Locks, e: Entity) -> bool {
        self.0.accepts(locks.0, e) && self.1.filter.accepts(locks.1@, e)
    }

    open spec fn item(&self, locks: Self::Locks, e: Entity) -> Self::Item {
        (self.0.item(locks.0, e), locks.1@.slots()[e.index()].1)
    }

    proof fn lemma_unseeded_accepts(&self, locks: Self::Locks, e: Entity) {
    }

    proof fn lemma_seed_unique(&self, locks: Self::Locks) {
        self.0.lemma_seed_unique(locks.0);
        locks.1@.lemma_order_unique();
    }

    open spec fn holds(&self, locks: Self::Locks, set: S) -> bool {
        &&& self.0.holds(locks.0, set)
        &&& locks.1.lock() == <S as Contains<Fl::Component, I>>::slot_spec(&set)
    }

    open spec fn stores(&self, locks: Self::Locks, e: Entity) -> bool {
        self.0.stores(locks.0, e) && stored(locks.1@.slots(), e)
    }

    proof fn lemma_accepted_stored(&self, locks: Self::Locks, e: Entity) {
        self.0.lemma_accepted_stored(locks.0, e);
        self.1.filter.lemma_accepts_stored(locks.1@, e);
    }

    proof fn lemma_accepted_seeded(&self, locks: Self::Locks, e: Entity) {
        if self.0.seed(locks.0) is Some {
            self.0.lemma_accepted_seeded(locks.0, e);
        } else {
            self.1.filter.lemma_accepts_stored(locks.1@, e);
            locks.1@.lemma_order_unique();
        }
    }

    fn push_positions(&self, out: &mut Vec<usize>) {
        self.0.push_positions(out);
        out.push(I::offset());
        assert(out@ =~= old(out)@ + self.positions());
    }

    fn acquire(&self, set: &'a S) -> (r: Self::Locks) {
        let rest = self.0.acquire(set);
        let last = Locked::acquire(set.slot());
        (rest, last)
    }

    fn candidates<'b>(&self, locks: &Self::Locks, em: &'b EntityManager) -> (r: Option<
        Vec<Option<VerifiedEntity<'b>>>,
    >) {
        let storage = locks.1.storage();
        match self.0.candidates(&locks.0, em) {
            None => {
                let c = seed_candidates(&self.1.filter, storage, em);
                proof {
                    assert forall|e: Entity| #[trigger] self.0.accepts(locks.0, e) by {
                        self.0.lemma_unseeded_accepts(locks.0, e);
                    }
                }
                Some(c)
            },
            Some(c0) => {
                let mut c = c0;
                refine_candidates(&self.1.filter, storage, &mut c);
                Some(c)
            },
        }
    }

    fn fetch(&self, locks: &Self::Locks, e: VerifiedEntity) -> (r: Self::Item) {
        let rest = self.0.fetch(&locks.0, e);
        let storage = locks.1.storage();
        proof {
            self.1.filter.lemma_accepts_stored(*storage, e@);
        }
        let v = *storage.get(e).unwrap();
        (rest, v)
    }
}

/// Builds an all-`Has` group of stages from a tuple of component types;
/// `Idx` is the tuple of their set positions, left to inference.
pub trait FilterFactory<S: ComponentSet, Idx> {
    type Filters;

    /// The stages built: one `Has` per component type, in tuple order.
    spec fn filters() -> Self::Filters;

    fn create() -> (r: Self::Filters)
        ensures
            r == Self::filters(),
    ;
}

impl<S: ComponentSet + Contains<A, IA>, A: Component, IA: Slot> FilterFactory<S, (IA,)> for (A,) {
    type Filters = ((), Stage<Has<A>, IA>);

    open spec fn filters() -> Self::Filters {
        ((), Stage { filter: Has::spec_new(), slot: PhantomData })
    }

    fn create() -> (r: Self::Filters) {
        ((), Stage { filter: Has::new(), slot: PhantomData })
    }
}

impl<
    S: ComponentSet + Contains<A, IA> + Contains<B, IB>,
    A: Component,
    IA: Slot,
    B: Component,
    IB: Slot,
> FilterFactory<S, (IA, IB)> for (A, B) {
    type Filters = (((), Stage<Has<A>, IA>), Stage<Has<B>, IB>);

    open spec fn filters() -> Self::Filters {
        (
            ((), Stage { filter: Has::spec_new(), slot: PhantomData }),
            Stage { filter: Has::spec_new(), slot: PhantomData },
        )
    }

    fn create() -> (r: Self::Filters) {
        (((), Stage { filter: Has::new(), slot: PhantomData }), Stage { filter: Has::new(), slot: PhantomData })
    }
}

impl<
    S: ComponentSet + Contains<A, IA> + Contains<B, IB> + Contains<C, IC>,
    A: Component,
    IA: Slot,
    B: Component,
    IB: Slot,
    C: Component,
    IC: Slot,
> FilterFactory<S, (IA, IB, IC)> for (A, B, C) {
    type Filters = ((((), Stage<Has<A>, IA>), Stage<Has<B>, IB>), Stage<Has<C>, IC>);

    open spec fn filters() -> Self::Filters {
        (
            (
                ((), Stage { filter: Has::spec_new(), slot: PhantomData }),
                Stage { filter: Has::spec_new(), slot: PhantomData },
            ),
            Stage { filter: Has::spec_new(), slot: PhantomData },
        )
    }

    fn create() -> (r: Self::Filters) {
        (
            (((), Stage { filter: Has::new(), slot: PhantomData }), Stage { filter: Has::new(), slot: PhantomData }),
            Stage { filter: Has::new(), slot: PhantomData },
        )
    }
}

/// Why a query could not run.
#[derive(Debug, Clone, Copy, PartialEq, Eq, Structural)]
pub enum QueryError {
    /// Two stages name the same component storage.
    DuplicateComponent,
}

/// Whether `out` is what `op` returns for some liveness-proof handle of `e`
/// and the values `item`.
pub open spec fn produced_by<'a, Item, R, Op: Fn(VerifiedEntity<'a>, Item) -> R>(
    op: Op,
    e: Entity,
    item: Item,
    out: R,
) -> bool {
    exists|v: VerifiedEntity<'a>| v@ == e && op.ensures((v, item), out)
}

/// Keeping a prefix one element longer keeps that element too, when `p` holds of it.
proof fn lemma_filter_take<A>(s: Seq<A>, p: spec_fn(A) -> bool, i: int)
    requires
        0 <= i < s.len(),
    ensures
        s.take(i + 1).filter(p) == if p(s[i]) {
            s.take(i).filter(p).push(s[i])
        } else {
            s.take(i).filter(p)
        },
{
    reveal(Seq::filter);
    assert(s.take(i + 1).drop_last() =~= s.take(i));
    assert(s.take(i + 1).last() == s[i]);
}

/// Filtering keeps only elements of the source, so a sequence without
/// repeats filters to one without repeats.
proof fn lemma_filter_unique<A>(s: Seq<A>, p: spec_fn(A) -> bool)
    requires
        s.no_duplicates(),
    ensures
        s.filter(p).no_duplicates(),
        forall|x: A| s.filter(p).contains(x) ==> s.contains(x),
    decreases s.len(),
{
    reveal(Seq::filter);
    if s.len() > 0 {
        let d = s.drop_last();
        assert(d.no_duplicates()) by {
            assert forall|a: int, b: int| 0 <= a < b < d.len() implies d[a] != d[b] by {
                assert(d[a] == s[a] && d[b] == s[b]);
            }
        }
        lemma_filter_unique(d, p);
        let f = s.filter(p);
        let fd = d.filter(p);
        assert forall|x: A| fd.contains(x) implies s.contains(x) by {
            assert(d.contains(x));
            let k = choose|k: int| 0 <= k < d.len() && d[k] == x;
            assert(s[k] == d[k]);
        }
        if p(s.last()) {
            assert(f == fd.push(s.last()));
            assert(!fd.contains(s.last())) by {
                if fd.contains(s.last()) {
                    assert(d.contains(s.last()));
                    let k = choose|k: int| 0 <= k < d.len() && d[k] == s.last();
                    assert(s[k] == d[k]);
                    assert(s[k] == s[s.len() - 1]);
                }
            }
            assert forall|a: int, b: int| 0 <= a < b < f.len() implies f[a] != f[b] by {
                if b == f.len() - 1 {
                    assert(fd[a] == f[a]);
                    assert(fd.contains(f[a]));
                } else {
                    assert(fd[a] == f[a] && fd[b] == f[b]);
                }
            }
            assert forall|x: A| f.contains(x) implies s.contains(x) by {
                let k = choose|k: int| 0 <= k < f.len() && f[k] == x;
                if k < fd.len() {
                    assert(fd[k] == x);
                    assert(fd.contains(x));
                } else {
                    assert(s[s.len() - 1] == x);
                }
            }
        }
    }
}

/// Whether some value occurs twice in `v`.
fn has_duplicates(v: &Vec<usize>) -> (r: bool)
    ensures
        r == !v@.no_duplicates(),
{
    let mut i: usize = 0;
    while i < v.len()
        invariant
            i <= v@.len(),
            forall|a: int, b: int| 0 <= a < i && a < b < v@.len() ==> v@[a] != v@[b],
        decreases v@.len() - i,
    {
        let mut j: usize = i + 1;
        while j < v.len()
            invariant
                i < v@.len(),
                i < j <= v@.len(),
                forall|a: int, b: int| 0 <= a < i && a < b < v@.len() ==> v@[a] != v@[b],
                forall|b: int| i < b < j ==> v@[i as int] != v@[b],
            decreases v@.len() - j,
        {
            if v[i] == v[j] {
                return true;
            }
            j += 1;
        }
        i += 1;
    }
    false
}

/// A query under construction: a component set, an entity manager and the
/// filter stages added so far.
pub struct Query<'a, S: ComponentSet, F> {
    entities: &'a EntityManager,
    data: &'a S,
    filters: F,
}

impl<'a, S: ComponentSet, F> Query<'a, S, F> {
    /// The entity manager the query checks liveness against.
    pub closed spec fn manager(&self) -> EntityManager {
        *self.entities
    }

    /// The component set the query reads.
    pub closed spec fn components(&self) -> S {
        *self.data
    }

    /// The filter stages, first added innermost.
    pub closed spec fn filters(&self) -> F {
        self.filters
    }

    /// A query over the world behind `wh` with the given stages.
    pub fn new(wh: &WorldHandle<'a, S>, filters: F) -> (r: Query<'a, S, F>)
        ensures
            r.manager() == wh.manager(),
            r.components() == wh.components(),
            r.filters() == filters,
    {
        Query { entities: wh.entities(), data: wh.data(), filters }
    }

    /// Adds a stage that keeps only entities holding a `T` component.
    pub fn with<T: Component, I: Slot>(self) -> (r: Query<'a, S, (F, Stage<Has<T>, I>)>)
        where
            S: Contains<T, I>,
        ensures
            r.manager() == self.manager(),
            r.components() == self.components(),
            r.filters().0 == self.filters(),
    {
        self.with_filtered(Has::new())
    }

    /// Adds a stage that keeps only entities `f` accepts.
    pub fn with_filtered<Fl: Filter, I: Slot>(self, f: Fl) -> (r: Query<'a, S, (F, Stage<Fl, I>)>)
        where
            S: Contains<Fl::Component, I>,
        ensures
            r.manager() == self.manager(),
            r.components() == self.components(),
            r.filters().0 == self.filters(),
            r.filters().1.filter == f,
    {
        Query {
            entities: self.entities,
            data: self.data,
            filters: (self.filters, Stage { filter: f, slot: PhantomData }),
        }
    }

    /// Locks the stages' storages in one burst, in stage order, without
    /// running the pipeline; or an error, taking no lock, if two stages name
    /// one storage. The locks stay held until released through `LockGroup`:
    /// dropping them leaves the storages locked for good.
    pub fn acquire_locks(&self) -> (r: Result<F::Locks, QueryError>)
        where
            F: FilterGroup<'a, S>,
        ensures
            r is Err <==> !self.filters().positions().no_duplicates(),
            r matches Ok(locks) ==> locks.wf() && self.filters().holds(locks, self.components()),
    {
        let mut positions: Vec<usize> = Vec::new();
        self.filters.push_positions(&mut positions);
        assert(positions@ =~= self.filters.positions());
        if has_duplicates(&positions) {
            return Err(QueryError::DuplicateComponent);
        }
        Ok(self.filters.acquire(self.data))
    }

    /// Runs the pipeline: locks the stages' storages in stage order, then
    /// calls `op` on each matching entity and its component values, in the
    /// first stage's storage order. Returns what `op` returned together with
    /// the still-held locks, or an error if two stages name one storage.
    /// The locks stay held until released through `LockGroup`: dropping them
    /// leaves the storages locked for good.
    pub fn for_each<R, Op: Fn(VerifiedEntity<'a>, F::Item) -> R>(self, op: Op) -> (r: Result<
        (Vec<R>, F::Locks),
        QueryError,
    >)
        where
            F: FilterGroup<'a, S>,
        requires
            forall|v: VerifiedEntity<'a>, it: F::Item| op.requires((v, it)),
        ensures
            r is Err <==> !self.filters().positions().no_duplicates(),
            r matches Ok((out, locks)) ==> {
                let m = matched(self.filters(), locks, self.manager());
                &&& locks.wf()
                &&& self.filters().holds(locks, self.components())
                &&& out@.len() == m.len()
                &&& forall|i: int|
                    0 <= i < m.len() ==> produced_by(
                        op,
                        m[i],
                        self.filters().item(locks, m[i]),
                        #[trigger] out@[i],
                    )
            },
    {
        let locks = match self.acquire_locks() {
            Ok(locks) => locks,
            Err(e) => {
                return Err(e);
            },
        };
        let Query { entities, data, filters } = self;
        let mut out: Vec<R> = Vec::new();
        match filters.candidates(&locks, entities) {
            None => {},
            Some(c) => {
                let ghost seed = filters.seed(locks)->0;
                let ghost keep = keep_pred(filters, locks, *entities);
                assert(candidates_match(c@, seed, keep));
                let ghost mut picked: Seq<Entity> = Seq::empty();
                let mut i: usize = 0;
                assert(seed.take(0).filter(keep) =~= Seq::<Entity>::empty()) by {
                    reveal(Seq::filter);
                }
                while i < c.len()
                    invariant
                        locks.wf(),
                        i <= c@.len(),
                        candidates_match(c@, seed, keep),
                        keep == keep_pred(filters, locks, *entities),
                        picked == seed.take(i as int).filter(keep),
                        out@.len() == picked.len(),
                        forall|j: int|
                            0 <= j < picked.len() ==> produced_by(
                                op,
                                picked[j],
                                filters.item(locks, picked[j]),
                                #[trigger] out@[j],
                            ),
                        forall|v: VerifiedEntity<'a>, it: F::Item| op.requires((v, it)),
                    decreases c@.len() - i,
                {
                    proof {
                        lemma_filter_take(seed, keep, i as int);
                    }
                    let ghost prev = picked;
                    if let Some(v) = c[i] {
                        let item = filters.fetch(&locks, v);
                        let o = op(v, item);
                        out.push(o);
                        proof {
                            picked = picked.push(v@);
                            assert forall|j: int| 0 <= j < picked.len() implies produced_by(
                                op,
                                picked[j],
                                filters.item(locks, picked[j]),
                                #[trigger] out@[j],
                            ) by {
                                if j < prev.len() {
                                    assert(picked[j] == prev[j]);
                                } else {
                                    assert(out@[j] == o);
                                }
                            }
                        }
                    }
                    i += 1;
                }
                assert(seed.take(c@.len() as int) =~= seed);
            },
        }
        Ok((out, locks))
    }

    /// Runs the pipeline and returns the matching entities, in the first
    /// stage's storage order, together with the still-held locks; or an
    /// error if two stages name one storage. Every entity returned has an
    /// entry in each stage's locked storage. The locks stay held until
    /// released through `LockGroup`: dropping them leaves the storages locked
    /// for good.
    pub fn execute(self) -> (r: Result<(Vec<Entity>, F::Locks), QueryError>)
        where
            F: FilterGroup<'a, S>,
        ensures
            r is Err <==> !self.filters().positions().no_duplicates(),
            r matches Ok((es, locks)) ==> {
                &&& locks.wf()
                &&& self.filters().holds(locks, self.components())
                &&& es@ == matched(self.filters(), locks, self.manager())
                &&& es@.no_duplicates()
                &&& forall|i: int| 0 <= i < es@.len() ==> self.filters().stores(locks, #[trigger] es@[i])
            },
    {
        let ghost filters = self.filters();
        let ghost em = self.manager();
        let ghost set = self.components();
        let get_entity = |v: VerifiedEntity<'a>, it: F::Item| -> (e: Entity)
            ensures
                e == v@,
            { v.entity() };
        let r = self.for_each(get_entity);
        match r {
            Ok((es, locks)) => {
                proof {
                    let m = matched(filters, locks, em);
                    assert forall|i: int| 0 <= i < m.len() implies es@[i] == m[i] by {
                        assert(produced_by(get_entity, m[i], filters.item(locks, m[i]), es@[i]));
                        let v = choose|v: VerifiedEntity<'a>|
                            v@ == m[i] && get_entity.ensures((v, filters.item(locks, m[i])), es@[i]);
                    }
                    assert(es@ =~= m);
                    filters.lemma_seed_unique(locks);
                    if let Some(seed) = filters.seed(locks) {
                        lemma_filter_unique(seed, keep_pred(filters, locks, em));
                        broadcast use vstd::seq_lib::group_filter_ensures;
                        assert forall|i: int| 0 <= i < es@.len() implies filters.stores(locks, #[trigger] es@[i]) by {
                            assert(keep_pred(filters, locks, em)(seed.filter(keep_pred(filters, locks, em))[i]));
                            filters.lemma_accepted_stored(locks, es@[i]);
                        }
                    }
                }
                Ok((es, locks))
            },
            Err(e) => Err(e),
        }
    }
}

} // verus!
