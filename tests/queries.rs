use snorkium::entity::{Entity, EntityManager, MIN_UNUSED};
use snorkium::query::QueryError;
use snorkium::set::{Empty, LockGroup};
use snorkium::storage::{DefaultStorage, Storage};
use snorkium::world::World;

#[derive(Clone, Copy, Debug, PartialEq)]
struct A(u32);

#[derive(Clone, Copy, Debug, PartialEq)]
struct B(i64);

#[derive(Clone, Copy, Debug, PartialEq)]
struct C(u8);

#[test]
fn storage_round_trip() {
    let mut manager = EntityManager::new();
    let e = manager.next();
    let f = manager.next();
    let mut s: DefaultStorage<A> = DefaultStorage::new();
    let ve = manager.verify(e).unwrap();
    let vf = manager.verify(f).unwrap();
    assert!(!s.has(ve));
    s.set(ve, A(7));
    assert!(s.has(ve));
    assert_eq!(s.get(ve), Some(&A(7)));
    assert_eq!(s.get(vf), None);
    s.set(ve, A(8));
    assert_eq!(s.get(ve), Some(&A(8)));
    *s.get_mut(ve).unwrap() = A(9);
    assert_eq!(s.get(ve), Some(&A(9)));
    assert_eq!(s.remove(ve), Some(A(9)));
    assert_eq!(s.get(ve), None);
    assert_eq!(s.remove(ve), None);
    assert!(s.entities().is_empty());
}

#[test]
fn storage_reuses_freed_offsets_and_lists_live_entries() {
    let mut manager = EntityManager::new();
    let es: Vec<Entity> = (0..4).map(|_| manager.next()).collect();
    let mut s: DefaultStorage<A> = DefaultStorage::new();
    for (k, e) in es.iter().enumerate() {
        s.set(manager.verify(*e).unwrap(), A(k as u32));
    }
    assert_eq!(s.entities(), es);
    s.destroy(es[1]);
    assert_eq!(s.entities(), vec![es[0], es[2], es[3]]);
    let extra = manager.next();
    s.set(manager.verify(extra).unwrap(), A(40));
    // the freed offset of es[1] is taken by the new entry
    assert_eq!(s.entities(), vec![es[0], extra, es[2], es[3]]);
    assert_eq!(s.get(manager.verify(extra).unwrap()), Some(&A(40)));
}

#[test]
fn storage_never_surfaces_a_stale_generation() {
    let mut manager = EntityManager::new();
    let old = manager.next();
    let mut s: DefaultStorage<A> = DefaultStorage::new();
    s.set(manager.verify(old).unwrap(), A(1));
    manager.destroy(old);
    for _ in 0..MIN_UNUSED - 1 {
        let e = manager.next();
        manager.destroy(e);
    }
    let new = manager.next();
    assert_eq!(new.id(), old.id());
    let vn = manager.verify(new).unwrap();
    assert!(!s.has(vn));
    assert_eq!(s.get(vn), None);
    // removing under the new handle frees the stale entry but returns nothing
    assert_eq!(s.remove(vn), None);
    assert!(s.entities().is_empty());
    s.set(vn, A(2));
    assert_eq!(s.get(vn), Some(&A(2)));
}

#[test]
fn two_storages_intersect_on_shared_entity() {
    let mut world = World::new(Empty.push::<A>().push::<B>());
    let e1 = world.entities_mut().next();
    let e2 = world.entities_mut().next();
    let e3 = world.entities_mut().next();
    {
        let h = world.handle();
        let em = h.entities();
        let mut la = h.data().lock::<A, _>();
        la.storage_mut().set(em.verify(e1).unwrap(), A(1));
        la.storage_mut().set(em.verify(e2).unwrap(), A(2));
        la.release();
        let mut lb = h.data().lock::<B, _>();
        lb.storage_mut().set(em.verify(e2).unwrap(), B(20));
        lb.storage_mut().set(em.verify(e3).unwrap(), B(30));
        lb.release();

        let (es, locks) = h.query().with::<A, _>().with::<B, _>().execute().unwrap();
        assert_eq!(es, vec![e2]);
        locks.release();
    }
    world.entities_mut().destroy(e2);
    {
        let h = world.handle();
        let (es, locks) = h.query().with::<A, _>().with::<B, _>().execute().unwrap();
        assert!(es.is_empty());
        locks.release();
    }
}

#[test]
fn for_each_hands_out_values_in_seed_order() {
    let mut world = World::new(Empty.push::<A>().push::<B>().push::<C>());
    let es: Vec<Entity> = (0..5).map(|_| world.entities_mut().next()).collect();
    {
        let h = world.handle();
        let em = h.entities();
        let mut lb = h.data().lock::<B, _>();
        for k in [4usize, 0, 2, 3] {
            lb.storage_mut().set(em.verify(es[k]).unwrap(), B(-(k as i64)));
        }
        lb.release();
        let mut la = h.data().lock::<A, _>();
        for k in [0usize, 1, 2, 4] {
            la.storage_mut().set(em.verify(es[k]).unwrap(), A(10 * k as u32));
        }
        la.release();

        let (out, locks) = h
            .query()
            .with::<B, _>()
            .with::<A, _>()
            .for_each(|v, (((), b), a)| (v.entity(), b, a))
            .unwrap();
        // B's storage order, kept where A is present too
        assert_eq!(
            out,
            vec![(es[4], B(-4), A(40)), (es[0], B(0), A(0)), (es[2], B(-2), A(20))]
        );
        locks.release();

        let (none, locks) = h.query().with::<C, _>().with::<A, _>().execute().unwrap();
        assert!(none.is_empty());
        locks.release();
    }
}

#[test]
fn write_phase_through_retained_locks() {
    let mut world = World::new(Empty.push::<A>());
    let e = world.entities_mut().next();
    let h = world.handle();
    let em = h.entities();
    let mut la = h.data().lock::<A, _>();
    la.storage_mut().set(em.verify(e).unwrap(), A(1));
    la.release();

    let (es, mut locks) = h.query().with::<A, _>().execute().unwrap();
    assert_eq!(es, vec![e]);
    for x in &es {
        let v = em.verify(*x).unwrap();
        let cur = *locks.1.storage().get(v).unwrap();
        locks.1.storage_mut().set(v, A(cur.0 + 1));
    }
    locks.release();

    let (vals, locks) = h.query().with::<A, _>().for_each(|_, ((), a)| a).unwrap();
    assert_eq!(vals, vec![A(2)]);
    locks.release();
}

#[test]
fn dead_entities_in_storage_are_skipped() {
    let mut world = World::new(Empty.push::<A>());
    let e1 = world.entities_mut().next();
    let e2 = world.entities_mut().next();
    {
        let h = world.handle();
        let em = h.entities();
        let mut la = h.data().lock::<A, _>();
        la.storage_mut().set(em.verify(e1).unwrap(), A(1));
        la.storage_mut().set(em.verify(e2).unwrap(), A(2));
        la.release();
    }
    world.entities_mut().destroy(e1);
    let h = world.handle();
    let (es, locks) = h.query().with::<A, _>().execute().unwrap();
    assert_eq!(es, vec![e2]);
    locks.release();
}

#[test]
fn empty_query_yields_nothing() {
    let mut world = World::new(Empty.push::<A>());
    let _e = world.entities_mut().next();
    let h = world.handle();
    let (es, ()) = h.query().execute().unwrap();
    assert!(es.is_empty());
}

#[test]
fn duplicate_component_is_refused() {
    let world = World::new(Empty.push::<A>().push::<B>());
    let h = world.handle();
    let r = h.query().with::<A, _>().with::<B, _>().with::<A, _>().execute();
    assert_eq!(r.err(), Some(QueryError::DuplicateComponent));
    // the refused query took no lock
    let (es, locks) = h.query().with::<A, _>().execute().unwrap();
    assert!(es.is_empty());
    locks.release();
}

#[test]
fn factory_builds_an_all_has_pipeline() {
    let mut world = World::new(Empty.push::<A>().push::<B>().push::<C>());
    let e1 = world.entities_mut().next();
    let e2 = world.entities_mut().next();
    let h = world.handle();
    let em = h.entities();
    let mut la = h.data().lock::<A, _>();
    la.storage_mut().set(em.verify(e1).unwrap(), A(1));
    la.storage_mut().set(em.verify(e2).unwrap(), A(2));
    la.release();
    let mut lc = h.data().lock::<C, _>();
    lc.storage_mut().set(em.verify(e2).unwrap(), C(5));
    lc.release();

    let (out, locks) = h
        .query_of::<(C, A), _>()
        .for_each(|v, (((), c), a)| (v.entity(), c, a))
        .unwrap();
    assert_eq!(out, vec![(e2, C(5), A(2))]);
    locks.release();

    let (es, locks) = h.query_of::<(A, B, C), _>().execute().unwrap();
    assert!(es.is_empty());
    locks.release();

    let (es, locks) = h.query_of::<(A,), _>().execute().unwrap();
    assert_eq!(es, vec![e1, e2]);
    locks.release();
}

fn shareable_between_threads<T: Send + Sync>() {}

#[test]
fn worlds_can_be_shared_between_threads() {
    shareable_between_threads::<World<snorkium::set::SetEntry<B, snorkium::set::SetEntry<A, Empty>>>>();
    shareable_between_threads::<snorkium::entity::EntityManager>();
}

#[test]
fn remove_or_destroy_without_entry_leaves_storage_alone() {
    let mut manager = EntityManager::new();
    let e = manager.next();
    let f = manager.next();
    let far = manager.next();
    let mut s: DefaultStorage<A> = DefaultStorage::new();
    s.set(manager.verify(f).unwrap(), A(1));
    s.set(manager.verify(e).unwrap(), A(2));
    let before = s.entities();
    assert_eq!(s.remove(manager.verify(far).unwrap()), None);
    s.destroy(far);
    s.destroy(e);
    s.destroy(e);
    assert_eq!(s.entities(), vec![f]);
    assert_eq!(before, vec![f, e]);
}

#[test]
fn push_custom_installs_a_filled_storage() {
    let mut manager = EntityManager::new();
    let e = manager.next();
    let mut s: DefaultStorage<C> = DefaultStorage::new();
    s.set(manager.verify(e).unwrap(), C(9));
    let set = Empty.push::<A>().push_custom(s);
    let lc = set.lock::<C, _>();
    assert_eq!(lc.storage().get(manager.verify(e).unwrap()), Some(&C(9)));
    lc.release();
    let la = set.lock::<A, _>();
    assert!(la.storage().entities().is_empty());
    la.release();
}

#[test]
fn acquire_locks_takes_the_group_in_one_burst() {
    let mut world = World::new(Empty.push::<A>().push::<B>());
    let e = world.entities_mut().next();
    let h = world.handle();
    let mut locks = h.query_of::<(A, B), _>().acquire_locks().unwrap();
    let v = h.entities().verify(e).unwrap();
    locks.0 .1.storage_mut().set(v, A(3));
    locks.1.storage_mut().set(v, B(4));
    locks.release();
    let (out, locks) = h.query_of::<(B, A), _>().for_each(|_, (((), b), a)| (b, a)).unwrap();
    assert_eq!(out, vec![(B(4), A(3))]);
    locks.release();
    let dup = h.query().with::<B, _>().with::<B, _>().acquire_locks();
    assert_eq!(dup.err(), Some(QueryError::DuplicateComponent));
}
