use snorkium::entity::{Entity, EntityManager, MIN_UNUSED};

#[test]
fn smoke() {
    let mut manager = EntityManager::new();

    let e1 = manager.next();
    let e2 = manager.next();
    let e3 = manager.next();

    assert!(manager.is_alive(e1));
    assert!(manager.is_alive(e2));
    assert!(manager.is_alive(e3));

    manager.destroy(e2);

    assert!(manager.is_alive(e1));
    assert!(!manager.is_alive(e2));
    assert!(manager.is_alive(e3));

    manager.destroy(e2);
    manager.destroy(e3);

    assert!(manager.is_alive(e1));
    assert!(!manager.is_alive(e2));
    assert!(!manager.is_alive(e3));
}

#[test]
fn fresh_handles_count_up_from_zero() {
    let mut manager = EntityManager::new();
    let a = manager.next();
    let b = manager.next();
    assert_eq!((a.gen(), a.id()), (0, 0));
    assert_eq!((b.gen(), b.id()), (0, 1));
    assert_ne!(a, b);
}

#[test]
fn verify_gives_handle_only_while_alive() {
    let mut manager = EntityManager::new();
    let e = manager.next();
    assert_eq!(manager.verify(e).map(|v| v.entity()), Some(e));
    manager.destroy(e);
    assert!(manager.verify(e).is_none());
}

#[test]
fn no_reuse_below_threshold() {
    let mut manager = EntityManager::new();
    let mut seen: Vec<u32> = Vec::new();
    for _ in 0..MIN_UNUSED - 1 {
        let e = manager.next();
        seen.push(e.id());
        manager.destroy(e);
    }
    // 1023 indices are queued: the next handle is still a fresh index.
    let e = manager.next();
    assert_eq!(e.id(), (MIN_UNUSED - 1) as u32);
    assert_eq!(e.gen(), 0);
    assert!(!seen.contains(&e.id()));
}

#[test]
fn reuse_starts_at_threshold_with_next_generation() {
    let mut manager = EntityManager::new();
    let first = manager.next();
    manager.destroy(first);
    for _ in 0..MIN_UNUSED - 1 {
        let e = manager.next();
        manager.destroy(e);
    }
    let e = manager.next();
    assert_eq!(e.id(), first.id());
    assert_eq!(e.gen(), first.gen() + 1);
    assert!(manager.is_alive(e));
    assert!(!manager.is_alive(first));
}

#[test]
fn two_thousand_entities_recycle_indices() {
    let mut manager = EntityManager::new();
    let mut destroyed: Vec<Entity> = Vec::new();
    for _ in 0..2000 {
        let e = manager.next();
        assert!(manager.is_alive(e));
        manager.destroy(e);
        assert!(!manager.is_alive(e));
        destroyed.push(e);
    }
    let mut reused = 0;
    for (k, e) in destroyed.iter().enumerate() {
        if let Some(earlier) = destroyed[..k].iter().rev().find(|d| d.id() == e.id()) {
            assert_eq!(e.gen(), earlier.gen() + 1);
            reused += 1;
        }
    }
    assert!(reused >= 2000 - 1024);
    for e in &destroyed {
        assert!(!manager.is_alive(*e));
    }
}

#[test]
fn destroying_a_stale_handle_changes_nothing() {
    let mut manager = EntityManager::new();
    let first = manager.next();
    manager.destroy(first);
    for _ in 0..MIN_UNUSED - 1 {
        let e = manager.next();
        manager.destroy(e);
    }
    let again = manager.next();
    assert_eq!(again.id(), first.id());
    manager.destroy(first);
    assert!(manager.is_alive(again));
    assert!(!manager.is_alive(first));
}
