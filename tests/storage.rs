use sandbox_core::game::{
    create_character_registry, create_item_registry, GameCharacterId, GameItemId, GameTag,
};
use sandbox_core::storage::{
    CommandQueue, DropItemCommand, InsertItemCommand, TransferCommand, TransferError,
};
use sandbox_core::components::{Character, CharacterRole, Health, PrototypeBundle};
use sandbox_core::world::{Entity, ItemState, World};

type Placement = (f32, f32, f32);

fn world_with_storage_and_item(
    storage_at: Placement,
    item_at: Placement,
) -> (World<GameTag, Placement>, Entity, Entity) {
    let items = create_item_registry();
    let characters = create_character_registry();
    let mut world = World::new((0.0, 0.0, 0.0));
    let s = characters.spawn_at(GameCharacterId::Player, storage_at, &mut world).unwrap();
    let i = items.spawn_at(GameItemId::LongSword, item_at, &mut world).unwrap();
    (world, s, i)
}

#[test]
fn insert_then_drop_lands_at_the_storage() {
    let (mut world, s, i) = world_with_storage_and_item((3.0, 0.0, 4.0), (0.0, 0.0, 0.0));
    assert_eq!(world.item_state(i), Some(ItemState::World));
    assert_eq!(InsertItemCommand { storage: s, item: i }.apply(&mut world), Ok(()));
    assert_eq!(world.item_state(i), Some(ItemState::Contained(s)));
    assert_eq!(world.contents(s), vec![i]);
    assert_eq!(world.placement(i), None);
    assert_eq!(world.parent(i), Some(s));
    assert_eq!(DropItemCommand { storage: s, item: i }.apply(&mut world), Ok(()));
    assert_eq!(world.item_state(i), Some(ItemState::World));
    assert_eq!(world.placement(i), Some((3.0, 0.0, 4.0)));
    assert_eq!(world.parent(i), None);
    assert_eq!(world.contents(s), vec![]);
}

#[test]
fn second_insert_is_rejected() {
    let (mut world, s, i) = world_with_storage_and_item((3.0, 0.0, 4.0), (0.0, 0.0, 0.0));
    assert_eq!(world.insert_item(InsertItemCommand { storage: s, item: i }), Ok(()));
    assert_eq!(
        world.insert_item(InsertItemCommand { storage: s, item: i }),
        Err(TransferError::ItemNotInWorld)
    );
    assert_eq!(world.contents(s), vec![i]);
    assert_eq!(world.item_state(i), Some(ItemState::Contained(s)));
}

#[test]
fn drop_from_the_wrong_storage_is_rejected() {
    let items = create_item_registry();
    let characters = create_character_registry();
    let mut world: World<GameTag, Placement> = World::new((0.0, 0.0, 0.0));
    let s1 = characters.spawn_at(GameCharacterId::Player, (1.0, 0.0, 1.0), &mut world).unwrap();
    let s2 = characters.spawn_at(GameCharacterId::Enemy, (9.0, 0.0, 9.0), &mut world).unwrap();
    let i = items.spawn_at(GameItemId::Chestplate, (0.0, 0.0, 0.0), &mut world).unwrap();
    world.insert_item(InsertItemCommand { storage: s1, item: i }).unwrap();
    assert_eq!(
        world.drop_item(DropItemCommand { storage: s2, item: i }),
        Err(TransferError::ItemNotInStorage)
    );
    assert_eq!(world.item_state(i), Some(ItemState::Contained(s1)));
    assert_eq!(world.contents(s1), vec![i]);
    assert_eq!(world.contents(s2), vec![]);
}

#[test]
fn a_spawned_storage_drops_at_the_origin() {
    let items = create_item_registry();
    let characters = create_character_registry();
    let mut world: World<GameTag, Placement> = World::new((5.0, 0.0, -5.0));
    let s = characters.spawn(GameCharacterId::Player, &mut world).unwrap();
    let i = items.spawn_at(GameItemId::LongSword, (0.0, 0.0, 0.0), &mut world).unwrap();
    world.insert_item(InsertItemCommand { storage: s, item: i }).unwrap();
    world.drop_item(DropItemCommand { storage: s, item: i }).unwrap();
    assert_eq!(world.placement(i), Some((5.0, 0.0, -5.0)));
}

#[test]
fn drop_uses_the_storage_placement_at_the_time_of_the_drop() {
    let (mut world, s, i) = world_with_storage_and_item((3.0, 0.0, 4.0), (7.0, 1.0, 7.0));
    world.insert_item(InsertItemCommand { storage: s, item: i }).unwrap();
    assert!(world.relocate(s, (-2.0, 0.5, 6.0)));
    world.drop_item(DropItemCommand { storage: s, item: i }).unwrap();
    assert_eq!(world.placement(i), Some((-2.0, 0.5, 6.0)));
}

#[test]
fn relocate_refuses_a_contained_item() {
    let (mut world, s, i) = world_with_storage_and_item((3.0, 0.0, 4.0), (0.0, 0.0, 0.0));
    world.insert_item(InsertItemCommand { storage: s, item: i }).unwrap();
    assert!(!world.relocate(i, (1.0, 1.0, 1.0)));
    assert_eq!(world.placement(i), None);
}

#[test]
fn transfers_reject_wrong_kinds_of_entity() {
    let (mut world, s, i) = world_with_storage_and_item((3.0, 0.0, 4.0), (0.0, 0.0, 0.0));
    assert_eq!(
        world.insert_item(InsertItemCommand { storage: s, item: s }),
        Err(TransferError::NotAnItem)
    );
    assert_eq!(
        world.insert_item(InsertItemCommand { storage: i, item: i }),
        Err(TransferError::NotAStorage)
    );
    let missing = Entity { index: 99 };
    assert_eq!(
        world.insert_item(InsertItemCommand { storage: missing, item: i }),
        Err(TransferError::NotAStorage)
    );
    assert_eq!(
        world.drop_item(DropItemCommand { storage: s, item: missing }),
        Err(TransferError::NotAnItem)
    );
    assert_eq!(
        world.drop_item(DropItemCommand { storage: s, item: i }),
        Err(TransferError::ItemNotInStorage)
    );
    assert_eq!(world.item_state(i), Some(ItemState::World));
}

#[test]
fn drop_from_an_unplaced_storage_is_rejected() {
    let items = create_item_registry();
    let characters = create_character_registry();
    let mut world: World<GameTag, Placement> = World::new((0.0, 0.0, 0.0));
    let chest = PrototypeBundle::Character(Character {
        name: "Chest".to_string(),
        role: CharacterRole::Npc,
        health: Health::full(),
    });
    let s = world.spawn_bundle(None, chest, None);
    let i = items.spawn_at(GameItemId::LongSword, (0.0, 0.0, 0.0), &mut world).unwrap();
    world.insert_item(InsertItemCommand { storage: s, item: i }).unwrap();
    assert_eq!(
        world.drop_item(DropItemCommand { storage: s, item: i }),
        Err(TransferError::StorageNotPlaced)
    );
    assert_eq!(world.item_state(i), Some(ItemState::Contained(s)));
}

#[test]
fn queued_commands_apply_in_order_at_sync() {
    let (mut world, s, i) = world_with_storage_and_item((3.0, 0.0, 4.0), (0.0, 0.0, 0.0));
    let mut queue = CommandQueue::new();
    queue.queue(TransferCommand::Insert(InsertItemCommand { storage: s, item: i }));
    queue.queue(TransferCommand::Insert(InsertItemCommand { storage: s, item: i }));
    queue.queue(TransferCommand::Drop(DropItemCommand { storage: s, item: i }));
    assert_eq!(queue.len(), 3);
    assert_eq!(world.item_state(i), Some(ItemState::World));
    let outcomes = queue.sync(&mut world);
    assert_eq!(outcomes, vec![Ok(()), Err(TransferError::ItemNotInWorld), Ok(())]);
    assert_eq!(queue.len(), 0);
    assert_eq!(world.item_state(i), Some(ItemState::World));
    assert_eq!(world.placement(i), Some((3.0, 0.0, 4.0)));
    assert!(world.stray_items().is_empty());
}

#[test]
fn containment_lists_follow_insertion_order() {
    let items = create_item_registry();
    let characters = create_character_registry();
    let mut world: World<GameTag, Placement> = World::new((0.0, 0.0, 0.0));
    let s = characters.spawn_at(GameCharacterId::Player, (0.0, 0.0, 0.0), &mut world).unwrap();
    let a = items.spawn_at(GameItemId::LongSword, (1.0, 0.0, 0.0), &mut world).unwrap();
    let b = items.spawn_at(GameItemId::Chestplate, (2.0, 0.0, 0.0), &mut world).unwrap();
    let c = items.spawn_at(GameItemId::LongSword, (3.0, 0.0, 0.0), &mut world).unwrap();
    for item in [b, a, c] {
        world.insert_item(InsertItemCommand { storage: s, item }).unwrap();
    }
    assert_eq!(world.contents(s), vec![b, a, c]);
    world.drop_item(DropItemCommand { storage: s, item: a }).unwrap();
    assert_eq!(world.contents(s), vec![b, c]);
    for item in [a, b, c] {
        let listed = world.contents(s).contains(&item);
        assert_eq!(listed, world.parent(item) == Some(s));
        assert_ne!(world.item_state(item), Some(ItemState::Stray));
    }
}

#[test]
fn auditor_reports_items_in_neither_state() {
    let items = create_item_registry();
    let mut world: World<GameTag, Placement> = World::new((0.0, 0.0, 0.0));
    let placed = items.spawn(GameItemId::LongSword, &mut world).unwrap();
    let template = items.get(GameItemId::Chestplate).unwrap().duplicate();
    let stray = world.spawn_bundle(Some(GameTag::Item(GameItemId::Chestplate)), template, None);
    assert_eq!(world.item_state(placed), Some(ItemState::World));
    assert_eq!(world.item_state(stray), Some(ItemState::Stray));
    assert_eq!(world.stray_items(), vec![stray]);
}

#[test]
fn item_state_of_a_non_item_is_none() {
    let (world, s, _) = world_with_storage_and_item((3.0, 0.0, 4.0), (0.0, 0.0, 0.0));
    assert_eq!(world.item_state(s), None);
    assert_eq!(world.item_state(Entity { index: 42 }), None);
}

#[test]
fn despawning_a_contained_item_takes_it_off_the_list() {
    let (mut world, s, i) = world_with_storage_and_item((3.0, 0.0, 4.0), (0.0, 0.0, 0.0));
    world.insert_item(InsertItemCommand { storage: s, item: i }).unwrap();
    assert!(world.despawn(i));
    assert!(!world.is_alive(i));
    assert_eq!(world.contents(s), vec![]);
    assert!(!world.despawn(i));
}

#[test]
fn despawning_a_storage_takes_its_items_with_it() {
    let (mut world, s, i) = world_with_storage_and_item((3.0, 0.0, 4.0), (0.0, 0.0, 0.0));
    world.insert_item(InsertItemCommand { storage: s, item: i }).unwrap();
    assert!(world.despawn(s));
    assert!(!world.is_alive(s));
    assert!(!world.is_alive(i));
    assert_eq!(world.instances::<GameItemId>(None), vec![]);
}

#[test]
fn despawn_instances_takes_the_first_or_all() {
    let items = create_item_registry();
    let mut world: World<GameTag, Placement> = World::new((0.0, 0.0, 0.0));
    let a = items.spawn_at(GameItemId::LongSword, (0.0, 0.0, 0.0), &mut world).unwrap();
    let b = items.spawn_at(GameItemId::LongSword, (1.0, 0.0, 0.0), &mut world).unwrap();
    let c = items.spawn_at(GameItemId::LongSword, (2.0, 0.0, 0.0), &mut world).unwrap();
    let p = items.spawn_at(GameItemId::Chestplate, (3.0, 0.0, 0.0), &mut world).unwrap();
    assert_eq!(world.despawn_instances(GameItemId::LongSword, false), vec![a]);
    assert_eq!(world.instances(Some(GameItemId::LongSword)), vec![b, c]);
    assert_eq!(world.despawn_instances(GameItemId::LongSword, true), vec![b, c]);
    assert_eq!(world.instances(Some(GameItemId::LongSword)), vec![]);
    assert_eq!(world.instances(Some(GameItemId::Chestplate)), vec![p]);
    assert_eq!(world.despawn_instances(GameItemId::LongSword, true), vec![]);
}
