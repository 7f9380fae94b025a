use srecs::components::Parent;
use srecs::world::World;
use srecs::Entity;

#[derive(Debug, PartialEq)]
struct Position {
    x: u64,
    y: u64,
}

#[derive(Debug, PartialEq)]
struct Name(String);

#[test]
fn identifiers_are_distinct() {
    let mut world = World::new();
    let mut seen: Vec<Entity> = Vec::new();
    for _ in 0..20 {
        let e = world.add_entity();
        for s in seen.iter() {
            assert_ne!(*s, e);
            assert_ne!(s.uuid, e.uuid);
            assert_ne!(s.idx, e.idx);
        }
        seen.push(e);
    }
    assert_eq!(seen[0], Entity { idx: 0, uuid: 1 });
    assert_eq!(seen[19], Entity { idx: 19, uuid: 20 });
}

#[test]
fn removed_slot_is_reused_with_new_generation() {
    let mut world = World::new();
    let e1 = world.add_entity();
    let e2 = world.add_entity();
    assert_eq!(e1, Entity { idx: 0, uuid: 1 });
    assert_eq!(e2, Entity { idx: 1, uuid: 2 });
    world.remove_entity(e1);
    world.confirm_changes();
    assert!(!world.is_valid_entity(&e1));
    let e3 = world.add_entity();
    assert_eq!(e3.idx, 0);
    assert_eq!(e3.uuid, 3);
    assert!(!world.is_valid_entity(&e1));
    assert!(world.is_valid_entity(&e3));
    assert!(world.is_valid_entity(&e2));
}

#[test]
fn generations_never_repeat() {
    let mut world = World::new();
    let mut uuids: Vec<usize> = Vec::new();
    for round in 0..5 {
        let a = world.add_entity();
        let b = world.add_entity();
        uuids.push(a.uuid);
        uuids.push(b.uuid);
        if round % 2 == 0 {
            world.remove_entity(a);
        }
        world.remove_entity(b);
        world.confirm_changes();
    }
    for i in 0..uuids.len() {
        for j in (i + 1)..uuids.len() {
            assert!(uuids[i] < uuids[j]);
        }
    }
}

#[test]
fn staged_removal_keeps_entity() {
    let mut world = World::new();
    let e = world.add_entity();
    world.confirm_changes();
    world.add_component(&e, Position { x: 1, y: 2 });
    world.remove_entity(e);
    assert!(world.is_valid_entity(&e));
    assert_eq!(world.get_component::<Position>(&e), Some(&Position { x: 1, y: 2 }));
    assert_eq!(world.list_removals(), vec![e]);
    world.confirm_changes();
    assert!(!world.is_valid_entity(&e));
    assert_eq!(world.get_component::<Position>(&e), None);
    assert!(world.list_removals().is_empty());
}

#[test]
fn component_round_trip() {
    let mut world = World::new();
    let e = world.add_entity();
    assert_eq!(world.add_component(&e, Name(String::from("box"))), None);
    assert_eq!(world.get_component::<Name>(&e), Some(&Name(String::from("box"))));
    assert!(world.has_component::<Name>(&e));
    assert!(!world.has_component::<Position>(&e));
}

#[test]
fn second_insert_replaces_first() {
    let mut world = World::new();
    let e = world.add_entity();
    assert_eq!(world.add_component(&e, Position { x: 1, y: 1 }), None);
    assert_eq!(
        world.add_component(&e, Position { x: 2, y: 3 }),
        Some(Position { x: 1, y: 1 })
    );
    assert_eq!(world.get_component::<Position>(&e), Some(&Position { x: 2, y: 3 }));
    assert_eq!(world.remove_component::<Position>(&e), Some(Position { x: 2, y: 3 }));
    assert_eq!(world.remove_component::<Position>(&e), None);
    assert_eq!(world.get_component::<Position>(&e), None);
}

#[test]
fn mutation_is_visible() {
    let mut world = World::new();
    let e = world.add_entity();
    world.add_component(&e, Position { x: 0, y: 0 });
    world.confirm_changes();
    assert!(world.list_changes().is_empty());
    if let Some(p) = world.get_mut_component::<Position>(&e) {
        p.x = 7;
        p.y = 9;
    } else {
        panic!("missing component");
    }
    assert_eq!(world.get_component::<Position>(&e), Some(&Position { x: 7, y: 9 }));
    assert_eq!(world.list_changes(), vec![e]);
}

#[test]
fn mutation_is_not_inherited() {
    let mut world = World::new();
    let parent = world.add_entity();
    let child = world.add_entity();
    world.add_component(&parent, Position { x: 4, y: 5 });
    assert!(world.set_parent(&child, &parent));
    assert!(world.get_mut_component::<Position>(&child).is_none());
    assert_eq!(world.get_component::<Position>(&child), Some(&Position { x: 4, y: 5 }));
    assert!(world.has_component::<Position>(&child));
    assert_eq!(world.remove_component::<Position>(&child), None);
    assert_eq!(world.get_component::<Position>(&parent), Some(&Position { x: 4, y: 5 }));
}

#[test]
fn new_entities_visible_after_commit() {
    let mut world = World::new();
    let a = world.add_entity();
    world.confirm_changes();
    let b = world.add_entity();
    assert_eq!(world.list_entities(), vec![a]);
    assert_eq!(world.list_additions(), vec![b]);
    let mut it = world.iterator();
    assert_eq!(it.next(), Some(a));
    assert_eq!(it.next(), None);
    world.confirm_changes();
    assert_eq!(world.list_entities(), vec![a, b]);
    assert!(world.list_additions().is_empty());
    let mut it = world.iterator();
    assert_eq!(it.next(), Some(a));
    assert_eq!(it.next(), Some(b));
    assert_eq!(it.next(), None);
}

#[test]
fn commit_prunes_parent_links() {
    let mut world = World::new();
    let parent = world.add_entity();
    let child = world.add_entity();
    let other = world.add_entity();
    assert!(world.set_parent(&child, &parent));
    assert!(world.set_parent(&other, &child));
    assert_eq!(world.get_parent(&child), Some(parent));
    world.remove_entity(parent);
    assert_eq!(world.get_parent(&child), Some(parent));
    world.confirm_changes();
    assert_eq!(world.get_parent(&child), None);
    assert_eq!(world.get_parent(&other), Some(child));
}

#[test]
fn set_parent_needs_valid_entities() {
    let mut world = World::new();
    let a = world.add_entity();
    let stale = Entity { idx: 5, uuid: 9 };
    let unused = Entity { idx: 0, uuid: 0 };
    assert!(!world.set_parent(&a, &stale));
    assert!(!world.set_parent(&stale, &a));
    assert!(!world.set_parent(&unused, &a));
    assert_eq!(world.get_parent(&a), None);
    assert_eq!(world.get_parent(&stale), None);
    let b = world.add_entity();
    assert!(world.set_parent(&a, &b));
    world.unlink_parent(&a);
    assert_eq!(world.get_parent(&a), None);
}

#[test]
fn parent_link_chain_inherits() {
    let mut world = World::new();
    let root = world.add_entity();
    let mid = world.add_entity();
    let leaf = world.add_entity();
    world.add_component(&root, Name(String::from("root")));
    world.add_component(&mid, Name(String::from("mid")));
    assert!(world.set_parent(&mid, &root));
    assert!(world.set_parent(&leaf, &mid));
    assert_eq!(world.get_component::<Name>(&leaf), Some(&Name(String::from("mid"))));
    world.remove_component::<Name>(&mid);
    assert_eq!(world.get_component::<Name>(&leaf), Some(&Name(String::from("root"))));
}

#[test]
fn parent_cycle_ends_search() {
    let mut world = World::new();
    let a = world.add_entity();
    let b = world.add_entity();
    assert!(world.set_parent(&a, &b));
    assert!(world.set_parent(&b, &a));
    assert!(!world.has_component::<Position>(&a));
    assert_eq!(world.get_component::<Position>(&b), None);
    world.add_component(&b, Position { x: 1, y: 1 });
    assert!(world.has_component::<Position>(&a));
    assert_eq!(world.get_component::<Position>(&a), Some(&Position { x: 1, y: 1 }));
}

#[test]
fn parent_component_inherits() {
    let mut world = World::new();
    let parent = world.add_entity();
    let child = world.add_entity();
    world.add_component(&parent, Position { x: 10, y: 12 });
    world.add_component(&child, Parent(parent));
    assert_eq!(world.get_component::<Position>(&child), Some(&Position { x: 10, y: 12 }));
    world.remove_entity(parent);
    world.confirm_changes();
    assert_eq!(world.get_component::<Position>(&child), None);
}

#[test]
fn invalid_entity_is_a_no_op() {
    let mut world = World::new();
    let e = world.add_entity();
    let ghost = Entity { idx: e.idx, uuid: e.uuid + 1 };
    assert_eq!(world.add_component(&ghost, Position { x: 1, y: 1 }), None);
    assert!(world.get_component::<Position>(&e).is_none());
    assert!(world.list_changes().is_empty());
    assert!(!world.has_component::<Position>(&ghost));
    assert!(world.get_mut_component::<Position>(&ghost).is_none());
    assert_eq!(world.remove_component::<Position>(&ghost), None);
    assert!(!world.is_valid_entity(&Entity { idx: 40, uuid: 1 }));
}

#[test]
fn uuid_lookup() {
    let mut world = World::new();
    let a = world.add_entity();
    let b = world.add_entity();
    assert_eq!(world.get_uuid(a.idx), 1);
    assert_eq!(world.get_uuid(b.idx), 2);
    assert_eq!(world.get_uuid(100), 0);
    world.remove_entity(a);
    world.confirm_changes();
    assert_eq!(world.get_uuid(a.idx), 0);
}

#[test]
fn changes_are_recorded_once() {
    let mut world = World::new();
    let e = world.add_entity();
    world.add_component(&e, Position { x: 1, y: 1 });
    world.add_component(&e, Name(String::from("n")));
    assert_eq!(world.list_changes(), vec![e]);
    world.confirm_changes();
    assert!(world.list_changes().is_empty());
    assert!(world.get_mut_component::<Name>(&e).is_some());
    world.remove_component::<Position>(&e);
    assert_eq!(world.list_changes(), vec![e]);
}

#[test]
fn reused_slot_starts_empty() {
    let mut world = World::new();
    let a = world.add_entity();
    let p = world.add_entity();
    world.add_component(&a, Position { x: 1, y: 2 });
    world.add_component(&a, Parent(p));
    assert!(world.set_parent(&a, &p));
    world.remove_entity(a);
    world.confirm_changes();
    let b = world.add_entity();
    assert_eq!(b.idx, a.idx);
    assert_ne!(b.uuid, a.uuid);
    assert_eq!(world.get_component::<Position>(&b), None);
    assert_eq!(world.get_parent(&b), None);
    assert!(!world.has_component::<Parent>(&b));
    assert!(world.get_mut_component::<Position>(&b).is_none());
    assert!(world.list_changes().is_empty());
    assert_eq!(world.list_entities(), vec![p]);
}

#[test]
fn records_list_each_entity_once() {
    let mut world = World::new();
    let a = world.add_entity();
    let b = world.add_entity();
    let c = world.add_entity();
    let mut added = world.list_additions();
    added.sort_by_key(|e| e.idx);
    assert_eq!(added, vec![a, b, c]);
    world.confirm_changes();
    world.remove_entity(a);
    world.remove_entity(c);
    world.remove_entity(c);
    let mut removed = world.list_removals();
    removed.sort_by_key(|e| e.idx);
    assert_eq!(removed, vec![a, c]);
    world.confirm_changes();
    assert_eq!(world.list_entities(), vec![b]);
    let d = world.add_entity();
    let e = world.add_entity();
    assert_eq!(d.uuid, 4);
    assert_eq!(e.uuid, 5);
    let mut reused = vec![d.idx, e.idx];
    reused.sort();
    assert_eq!(reused, vec![0, 2]);
}
