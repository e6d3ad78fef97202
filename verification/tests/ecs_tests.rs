use engine_2d::ecs::{Entity, World};

const POS: u64 = 1;
const VEL: u64 = 2;
const HP: u64 = 3;

#[test]
fn spawn_hands_out_fresh_ids() {
    let mut w: World<i64> = World::new();
    let a = w.spawn().build();
    let b = w.spawn().build();
    assert_eq!(a, Entity(1));
    assert_eq!(b, Entity(2));
    assert!(w.is_alive(a) && w.is_alive(b));
    assert_eq!(w.entity_count(), 2);
    assert!(!w.is_alive(Entity(3)));
}

#[test]
fn builder_attaches_components() {
    let mut w: World<i64> = World::new();
    let e = w.spawn().with(POS, 10).with(VEL, -3).build();
    assert_eq!(w.get(e, POS), Some(&10));
    assert_eq!(w.get(e, VEL), Some(&-3));
    assert_eq!(w.get(e, HP), None);
    assert!(w.has(e, POS));
    assert!(!w.has(e, HP));
}

#[test]
fn add_replaces_and_get_reads_back() {
    let mut w: World<i64> = World::new();
    let e = w.spawn().build();
    w.add(e, POS, 1);
    w.add(e, POS, 2);
    assert_eq!(w.get(e, POS), Some(&2));
    assert_eq!(w.entities_with(POS), vec![e]);
}

#[test]
fn add_works_on_any_handle() {
    let mut w: World<i64> = World::new();
    w.add(Entity(99), POS, 5);
    assert_eq!(w.get(Entity(99), POS), Some(&5));
    assert!(!w.is_alive(Entity(99)));
}

#[test]
fn get_mut_writes_through() {
    let mut w: World<i64> = World::new();
    let e = w.spawn().with(HP, 100).build();
    if let Some(hp) = w.get_mut(e, HP) {
        *hp -= 30;
    }
    assert_eq!(w.get(e, HP), Some(&70));
    assert!(w.get_mut(e, VEL).is_none());
}

#[test]
fn remove_detaches_one_kind() {
    let mut w: World<i64> = World::new();
    let e = w.spawn().with(POS, 1).with(VEL, 2).build();
    w.remove(e, POS);
    assert!(!w.has(e, POS));
    assert_eq!(w.get(e, VEL), Some(&2));
    w.remove(e, POS);
    assert!(!w.has(e, POS));
}

#[test]
fn despawn_waits_for_flush() {
    let mut w: World<i64> = World::new();
    let a = w.spawn().with(POS, 1).with(VEL, 2).build();
    let b = w.spawn().with(POS, 3).build();
    w.despawn(a);
    assert!(w.is_alive(a));
    assert_eq!(w.get(a, POS), Some(&1));
    w.flush_dead();
    assert!(!w.is_alive(a));
    assert!(!w.has(a, POS));
    assert!(!w.has(a, VEL));
    assert!(w.is_alive(b));
    assert_eq!(w.get(b, POS), Some(&3));
    assert_eq!(w.entity_count(), 1);
}

#[test]
fn flush_twice_and_duplicate_despawn() {
    let mut w: World<i64> = World::new();
    let a = w.spawn().with(POS, 1).build();
    w.despawn(a);
    w.despawn(a);
    w.despawn(Entity(42));
    w.flush_dead();
    w.flush_dead();
    assert!(!w.is_alive(a));
    assert_eq!(w.entity_count(), 0);
}

#[test]
fn ids_are_not_reused_after_despawn() {
    let mut w: World<i64> = World::new();
    let a = w.spawn().build();
    w.despawn(a);
    w.flush_dead();
    let b = w.spawn().build();
    assert_eq!(b, Entity(2));
    assert_ne!(a, b);
}

#[test]
fn entities_with_lists_each_once() {
    let mut w: World<i64> = World::new();
    let a = w.spawn().with(POS, 1).build();
    let _b = w.spawn().with(VEL, 1).build();
    let c = w.spawn().with(POS, 2).with(VEL, 2).build();
    let mut got = w.entities_with(POS);
    got.sort();
    assert_eq!(got, vec![a, c]);
    assert!(w.entities_with(HP).is_empty());
}

#[test]
fn query_pairs_entity_and_component() {
    let mut w: World<i64> = World::new();
    let a = w.spawn().with(POS, 10).build();
    let b = w.spawn().with(POS, 20).build();
    let mut got: Vec<(Entity, i64)> = w.query(POS).into_iter().map(|(e, v)| (e, *v)).collect();
    got.sort();
    assert_eq!(got, vec![(a, 10), (b, 20)]);
}

#[test]
fn query2_needs_both_kinds() {
    let mut w: World<i64> = World::new();
    let a = w.spawn().with(POS, 1).with(VEL, 5).build();
    let _b = w.spawn().with(POS, 2).build();
    let _c = w.spawn().with(VEL, 3).build();
    let got: Vec<(Entity, i64, i64)> =
        w.query2(POS, VEL).into_iter().map(|(e, p, v)| (e, *p, *v)).collect();
    assert_eq!(got, vec![(a, 1, 5)]);
    assert!(w.query2(POS, HP).is_empty());
}

#[test]
fn query3_needs_all_three_kinds() {
    let mut w: World<i64> = World::new();
    let _a = w.spawn().with(POS, 1).with(VEL, 5).build();
    let b = w.spawn().with(HP, 9).with(POS, 2).with(VEL, 6).build();
    let got: Vec<(Entity, i64, i64, i64)> = w
        .query3(POS, VEL, HP)
        .into_iter()
        .map(|(e, p, v, h)| (e, *p, *v, *h))
        .collect();
    assert_eq!(got, vec![(b, 2, 6, 9)]);
}

#[test]
fn all_entities_lists_live_ones() {
    let mut w: World<i64> = World::new();
    let a = w.spawn().build();
    let b = w.spawn().build();
    let c = w.spawn().build();
    w.despawn(b);
    w.flush_dead();
    let mut got = w.all_entities();
    got.sort();
    assert_eq!(got, vec![a, c]);
}

#[test]
fn default_world_is_empty() {
    let mut w: World<u8> = World::default();
    assert_eq!(w.entity_count(), 0);
    assert!(w.all_entities().is_empty());
    assert_eq!(w.spawn().build(), Entity(1));
}

#[test]
fn fresh_world_can_spawn() {
    let mut w: World<i64> = World::new();
    assert!(w.can_spawn());
    let e = w.spawn().build();
    assert_eq!(e, Entity(1));
    assert!(w.can_spawn());
}
