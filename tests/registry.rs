use sandbox_core::components::{CharacterRole, Item, ItemDescription, ItemValue, PrototypeBundle};
use sandbox_core::game::{
    create_character_registry, create_item_registry, GameCharacterId, GameItemId, GameTag,
};
use sandbox_core::prototype::{LookupError, PrototypeId, PrototypeRegistry};
use sandbox_core::world::World;

type Placement = (f32, f32, f32);

fn item_bundle(name: &str, description: &str) -> PrototypeBundle {
    PrototypeBundle::Item(Item {
        name: name.to_string(),
        description: ItemDescription(description.to_string()),
        value: ItemValue(0),
    })
}

#[test]
fn two_swords_are_listed_apart_from_chestplates() {
    let items = create_item_registry();
    let mut world: World<GameTag, Placement> = World::new((0.0, 0.0, 0.0));
    let a = items.spawn(GameItemId::LongSword, &mut world).unwrap();
    let b = items.spawn(GameItemId::LongSword, &mut world).unwrap();
    assert_ne!(a, b);
    assert_eq!(world.instance(a), Some(GameTag::Item(GameItemId::LongSword)));
    assert_eq!(world.instance(b), Some(GameTag::Item(GameItemId::LongSword)));
    assert_eq!(world.instances(Some(GameItemId::LongSword)), vec![a, b]);
    assert_eq!(world.instances(Some(GameItemId::Chestplate)), vec![]);
}

#[test]
fn listing_without_an_id_gives_every_instance_of_that_registry() {
    let items = create_item_registry();
    let characters = create_character_registry();
    let mut world: World<GameTag, Placement> = World::new((0.0, 0.0, 0.0));
    let p = characters.spawn(GameCharacterId::Player, &mut world).unwrap();
    let s = items.spawn(GameItemId::LongSword, &mut world).unwrap();
    let c = items.spawn(GameItemId::Chestplate, &mut world).unwrap();
    assert_eq!(world.instances::<GameItemId>(None), vec![s, c]);
    assert_eq!(world.instances::<GameCharacterId>(None), vec![p]);
}

#[test]
fn spawn_attaches_tag_and_template() {
    let items = create_item_registry();
    let mut world: World<GameTag, Placement> = World::new((1.0, 2.0, 3.0));
    let e = items.spawn(GameItemId::Chestplate, &mut world).unwrap();
    let tag = world.prototype_instance::<GameItemId>(e).unwrap();
    assert_eq!(tag.id(), GameItemId::Chestplate);
    match world.bundle(e).unwrap() {
        PrototypeBundle::Item(i) => {
            assert_eq!(i.name, "Chestplate");
            assert_eq!(i.description.0, "Heavy steel chestplate");
            assert_eq!(i.value, ItemValue(0));
        }
        PrototypeBundle::Character(_) => panic!("expected an item"),
    }
    assert_eq!(world.placement(e), Some((1.0, 2.0, 3.0)));
    assert_eq!(world.parent(e), None);
    assert!(world.stray_items().is_empty());
}

#[test]
fn spawned_characters_carry_their_template() {
    let characters = create_character_registry();
    let mut world: World<GameTag, Placement> = World::new((0.0, 0.0, 0.0));
    let e = characters.spawn(GameCharacterId::Enemy, &mut world).unwrap();
    match world.bundle(e).unwrap() {
        PrototypeBundle::Character(c) => {
            assert_eq!(c.name, "NPC");
            assert_eq!(c.role, CharacterRole::Npc);
            assert_eq!(c.health.current, 100);
            assert_eq!(c.health.max, 100);
        }
        PrototypeBundle::Item(_) => panic!("expected a character"),
    }
    assert!(world.is_storage(e));
    assert!(!world.is_item(e));
}

#[test]
fn spawn_at_sets_the_placement_exactly() {
    let items = create_item_registry();
    let mut world: World<GameTag, Placement> = World::new((0.0, 0.0, 0.0));
    let e = items.spawn_at(GameItemId::Chestplate, (-10.0, 0.0, 2.5), &mut world).unwrap();
    assert_eq!(world.placement(e), Some((-10.0, 0.0, 2.5)));
    assert_eq!(world.instance(e), Some(GameTag::Item(GameItemId::Chestplate)));
}

#[test]
fn unregistered_id_reports_lookup_error() {
    assert_eq!(GameItemId::parse("Ghost"), None);
    let mut registry: PrototypeRegistry<GameItemId> = PrototypeRegistry::new();
    registry.register(GameItemId::LongSword, item_bundle("Sword", "Long steel sword"));
    let mut world: World<GameTag, Placement> = World::new((0.0, 0.0, 0.0));
    let r = registry.spawn(GameItemId::Chestplate, &mut world);
    assert_eq!(r, Err(LookupError { id: GameItemId::Chestplate }));
    assert_eq!(world.len(), 0);
    assert!(registry.contains(GameItemId::LongSword));
    assert!(!registry.contains(GameItemId::Chestplate));
    let r = registry.spawn_at(GameItemId::Chestplate, (1.0, 2.0, 3.0), &mut world);
    assert!(r.is_err());
    assert_eq!(world.len(), 0);
}

#[test]
fn lookup_error_names_the_key() {
    let e = LookupError { id: GameItemId::Chestplate };
    assert_eq!(e.message(), "Prototype with id 'Chestplate' does not exist in registry");
}

#[test]
fn register_replaces_the_template_under_a_key() {
    let mut registry: PrototypeRegistry<GameItemId> = PrototypeRegistry::new();
    registry.register(GameItemId::LongSword, item_bundle("Sword", "old"));
    registry.register(GameItemId::LongSword, item_bundle("Sword", "new"));
    match registry.get(GameItemId::LongSword).unwrap() {
        PrototypeBundle::Item(i) => assert_eq!(i.description.0, "new"),
        PrototypeBundle::Character(_) => panic!("expected an item"),
    }
    assert!(registry.get(GameItemId::Chestplate).is_none());
}

#[test]
fn from_pairs_keeps_the_last_template_per_key() {
    let registry = PrototypeRegistry::from_pairs(vec![
        (GameItemId::LongSword, item_bundle("Sword", "first")),
        (GameItemId::Chestplate, item_bundle("Chestplate", "plate")),
        (GameItemId::LongSword, item_bundle("Sword", "second")),
    ]);
    match registry.get(GameItemId::LongSword).unwrap() {
        PrototypeBundle::Item(i) => assert_eq!(i.description.0, "second"),
        PrototypeBundle::Character(_) => panic!("expected an item"),
    }
    assert!(registry.contains(GameItemId::Chestplate));
}

#[test]
fn identifiers_round_trip_through_text() {
    for id in [GameItemId::Chestplate, GameItemId::LongSword] {
        assert_eq!(GameItemId::parse(&id.display()), Some(id));
    }
    for id in [GameCharacterId::Player, GameCharacterId::Enemy] {
        assert_eq!(GameCharacterId::parse(&id.display()), Some(id));
    }
    assert_eq!(GameItemId::LongSword.display(), "LongSword");
    assert_eq!(GameCharacterId::Enemy.display(), "Enemy");
}

#[test]
fn identifiers_parse_ignoring_case() {
    assert_eq!(GameItemId::parse("longsword"), Some(GameItemId::LongSword));
    assert_eq!(GameItemId::parse("CHESTPLATE"), Some(GameItemId::Chestplate));
    assert_eq!(GameCharacterId::parse("pLaYeR"), Some(GameCharacterId::Player));
    assert_eq!(GameItemId::parse("Sword"), None);
    assert_eq!(GameItemId::parse(""), None);
    assert_eq!(GameItemId::parse("LongSword "), None);
    assert_eq!(GameCharacterId::parse("Chestplate"), None);
}

#[test]
fn same_compares_keys() {
    assert!(GameItemId::LongSword.same(&GameItemId::LongSword));
    assert!(!GameItemId::LongSword.same(&GameItemId::Chestplate));
}
