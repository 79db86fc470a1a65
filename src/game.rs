use vstd::prelude::*;
use vstd::string::*;

use crate::components::{Character, CharacterRole, Health, Item, ItemDescription, ItemValue, PrototypeBundle};
use crate::prototype::{InstanceTag, PrototypeId, PrototypeRegistry};
use crate::text::{eq_ignore_ascii_case, str_eq_ignore_ascii_case};

verus! {

/// The items that the game defines.
#[derive(Clone, Copy, PartialEq, Eq, Structural, Debug, Hash)]
pub enum GameItemId {
    Chestplate,
    LongSword,
}

/// The characters that the game defines.
#[derive(Clone, Copy, PartialEq, Eq, Structural, Debug, Hash)]
pub enum GameCharacterId {
    Player,
    Enemy,
}

/// The instance tag of the game's world: the key of a character or of an item.
#[derive(Clone, Copy, PartialEq, Eq, Structural, Debug, Hash)]
pub enum GameTag {
    Character(GameCharacterId),
    Item(GameItemId),
}

impl InstanceTag<GameItemId> for GameTag {
    open spec fn tag_spec(id: GameItemId) -> GameTag {
        GameTag::Item(id)
    }

    open spec fn key_spec(self) -> Option<GameItemId> {
        match self {
            GameTag::Item(id) => Some(id),
            GameTag::Character(_) => None,
        }
    }

    fn tag(id: GameItemId) -> (r: GameTag) {
        GameTag::Item(id)
    }

    fn key(&self) -> (r: Option<GameItemId>) {
        match self {
            GameTag::Item(id) => Some(*id),
            GameTag::Character(_) => None,
        }
    }

    proof fn lemma_key_of_tag(id: GameItemId) {
    }
}

impl InstanceTag<GameCharacterId> for GameTag {
    open spec fn tag_spec(id: GameCharacterId) -> GameTag {
        GameTag::Character(id)
    }

    open spec fn key_spec(self) -> Option<GameCharacterId> {
        match self {
            GameTag::Character(id) => Some(id),
            GameTag::Item(_) => None,
        }
    }

    fn tag(id: GameCharacterId) -> (r: GameTag) {
        GameTag::Character(id)
    }

    fn key(&self) -> (r: Option<GameCharacterId>) {
        match self {
            GameTag::Character(id) => Some(*id),
            GameTag::Item(_) => None,
        }
    }

    proof fn lemma_key_of_tag(id: GameCharacterId) {
    }
}

impl PrototypeId for GameItemId {
    open spec fn display_spec(self) -> Seq<char> {
        match self {
            GameItemId::Chestplate => "Chestplate"@,
            GameItemId::LongSword => "LongSword"@,
        }
    }

    open spec fn parse_spec(s: Seq<char>) -> Option<GameItemId> {
        if eq_ignore_ascii_case(s, "Chestplate"@) {
            Some(GameItemId::Chestplate)
        } else if eq_ignore_ascii_case(s, "LongSword"@) {
            Some(GameItemId::LongSword)
        } else {
            None
        }
    }

    fn display(&self) -> (r: String) {
        match self {
            GameItemId::Chestplate => String::from_str("Chestplate"),
            GameItemId::LongSword => String::from_str("LongSword"),
        }
    }

    fn parse(s: &str) -> (r: Option<GameItemId>) {
        if str_eq_ignore_ascii_case(s, "Chestplate") {
            Some(GameItemId::Chestplate)
        } else if str_eq_ignore_ascii_case(s, "LongSword") {
            Some(GameItemId::LongSword)
        } else {
            None
        }
    }

    fn same(&self, other: &GameItemId) -> (r: bool) {
        *self == *other
    }

    proof fn lemma_parse_display(x: GameItemId) {
        reveal_strlit("Chestplate");
        reveal_strlit("LongSword");
    }
}

impl PrototypeId for GameCharacterId {
    open spec fn display_spec(self) -> Seq<char> {
        match self {
            GameCharacterId::Player => "Player"@,
            GameCharacterId::Enemy => "Enemy"@,
        }
    }

    open spec fn parse_spec(s: Seq<char>) -> Option<GameCharacterId> {
        if eq_ignore_ascii_case(s, "Player"@) {
            Some(GameCharacterId::Player)
        } else if eq_ignore_ascii_case(s, "Enemy"@) {
            Some(GameCharacterId::Enemy)
        } else {
            None
        }
    }

    fn display(&self) -> (r: String) {
        match self {
            GameCharacterId::Player => String::from_str("Player"),
            GameCharacterId::Enemy => String::from_str("Enemy"),
        }
    }

    fn parse(s: &str) -> (r: Option<GameCharacterId>) {
        if str_eq_ignore_ascii_case(s, "Player") {
            Some(GameCharacterId::Player)
        } else if str_eq_ignore_ascii_case(s, "Enemy") {
            Some(GameCharacterId::Enemy)
        } else {
            None
        }
    }

    fn same(&self, other: &GameCharacterId) -> (r: bool) {
        *self == *other
    }

    proof fn lemma_parse_display(x: GameCharacterId) {
        reveal_strlit("Player");
        reveal_strlit("Enemy");
    }
}


/// The bundle is an item with the given name and description, worth nothing.
pub open spec fn is_item_template(b: PrototypeBundle, name: Seq<char>, description: Seq<char>) -> bool {
    b matches PrototypeBundle::Item(i) && i.name@ == name && i.description.0@ == description
        && i.value == ItemValue(0)
}

/// The bundle is a character with the given name and role, at full health.
pub open spec fn is_character_template(
    b: PrototypeBundle,
    name: Seq<char>,
    role: CharacterRole,
) -> bool {
    b matches PrototypeBundle::Character(c) && c.name@ == name && c.role == role && c.health
        == Health { current: 100, max: 100 }
}

fn item_template(name: &str, description: &str) -> (r: PrototypeBundle)
    ensures
        is_item_template(r, name@, description@),
{
    PrototypeBundle::Item(
        Item {
            name: String::from_str(name),
            description: ItemDescription(String::from_str(description)),
            value: ItemValue(0),
        },
    )
}

fn character_template(name: &str, role: CharacterRole) -> (r: PrototypeBundle)
    ensures
        is_character_template(r, name@, role),
{
    PrototypeBundle::Character(Character { name: String::from_str(name), role, health: Health::full() })
}

/// The game's item templates.
pub fn create_item_registry() -> (r: PrototypeRegistry<GameItemId>)
    ensures
        r.wf(),
        r@.dom() == set![GameItemId::Chestplate, GameItemId::LongSword],
        is_item_template(r@[GameItemId::Chestplate], "Chestplate"@, "Heavy steel chestplate"@),
        is_item_template(r@[GameItemId::LongSword], "Sword"@, "Long steel sword"@),
{
    let mut r = PrototypeRegistry::new();
    r.register(GameItemId::Chestplate, item_template("Chestplate", "Heavy steel chestplate"));
    r.register(GameItemId::LongSword, item_template("Sword", "Long steel sword"));
    assert(r@.dom() =~= set![GameItemId::Chestplate, GameItemId::LongSword]);
    r
}

/// The game's character templates.
pub fn create_character_registry() -> (r: PrototypeRegistry<GameCharacterId>)
    ensures
        r.wf(),
        r@.dom() == set![GameCharacterId::Player, GameCharacterId::Enemy],
        is_character_template(r@[GameCharacterId::Player], "Player"@, CharacterRole::Player),
        is_character_template(r@[GameCharacterId::Enemy], "NPC"@, CharacterRole::Npc),
{
    let mut r = PrototypeRegistry::new();
    r.register(GameCharacterId::Player, character_template("Player", CharacterRole::Player));
    r.register(GameCharacterId::Enemy, character_template("NPC", CharacterRole::Npc));
    assert(r@.dom() =~= set![GameCharacterId::Player, GameCharacterId::Enemy]);
    r
}

} // verus!
