use bevy::ecs::entity::{Entity, EntityHashSet};
use peer_authority::{ControlledEntities, ObjectId};

fn object_of(entity: Entity) -> ObjectId {
    ObjectId::from_bits(entity.to_bits()).unwrap()
}

#[test]
fn default_set_is_empty() {
    let set = ControlledEntities::default();
    assert!(set.0.is_empty());
    assert!(set.entities().is_empty());
    assert_eq!(set, ControlledEntities::default());
    assert_eq!(set, ControlledEntities(EntityHashSet::default()));
}

#[test]
fn insert_twice_yields_one_member_and_one_change() {
    let mut set = ControlledEntities::default();
    let object = ObjectId::from_raw(3);
    assert!(set.insert(object));
    assert!(!set.insert(object));
    assert_eq!(set.0.len(), 1);
    assert_eq!(set.entities(), vec![object]);
}

#[test]
fn remove_of_a_non_member_changes_nothing() {
    let mut set = ControlledEntities::default();
    let member = ObjectId::from_raw(3);
    let stranger = ObjectId::from_raw(4);
    set.insert(member);
    assert!(!set.remove(stranger));
    assert_eq!(set.entities(), vec![member]);
    assert!(set.remove(member));
    assert!(!set.remove(member));
    assert!(set.entities().is_empty());
}

#[test]
fn contains_tells_members_from_others() {
    let mut set = ControlledEntities::default();
    let member = ObjectId::from_raw(3);
    assert!(!set.contains(member));
    set.insert(member);
    assert!(set.contains(member));
    assert!(!set.contains(ObjectId::from_raw(4)));
    // the same index in another generation is another object
    let reborn = ObjectId::from_bits((2u64 << 32) | 3).unwrap();
    assert!(!set.contains(reborn));
}

#[test]
fn set_holds_the_entity_with_the_same_bits() {
    let mut set = ControlledEntities::default();
    set.insert(ObjectId::from_raw(12));
    assert!(set.0.contains(&Entity::from_raw(12)));
    assert_eq!(set, ControlledEntities(EntityHashSet::from_iter([Entity::from_raw(12)])));

    let filled = ControlledEntities(EntityHashSet::from_iter([
        Entity::from_raw(1),
        Entity::from_raw(2),
    ]));
    assert!(filled.contains(object_of(Entity::from_raw(1))));
    assert!(filled.contains(ObjectId::from_raw(2)));
    assert!(!filled.contains(ObjectId::from_raw(3)));
}

#[test]
fn entities_lists_every_member_once() {
    let mut set = ControlledEntities::default();
    for index in [5u32, 1, 9, 5, 1] {
        set.insert(ObjectId::from_raw(index));
    }
    let mut bits: Vec<u64> = set.entities().iter().map(|id| id.to_bits()).collect();
    bits.sort();
    assert_eq!(
        bits,
        vec![
            Entity::from_raw(1).to_bits(),
            Entity::from_raw(5).to_bits(),
            Entity::from_raw(9).to_bits()
        ]
    );
}
