use vstd::prelude::*;

verus! {

/// Hit points of a character.
#[derive(Clone, Copy, PartialEq, Eq, Structural, Debug, Hash)]
pub struct Health {
    pub current: u16,
    pub max: u16,
}

impl Health {
    /// The health a character starts with: 100 of 100.
    pub fn full() -> (r: Health)
        ensures
            r.current == 100 && r.max == 100,
    {
        Health { current: 100, max: 100 }
    }
}

/// Text shown when an item is focused.
#[derive(Debug)]
pub struct ItemDescription(pub String);

/// What an item is worth.
#[derive(Clone, Copy, PartialEq, Eq, Structural, Debug, Hash)]
pub struct ItemValue(pub u16);

/// Whether a character is controlled by the player or by the game.
#[derive(Clone, Copy, PartialEq, Eq, Structural, Debug, Hash)]
pub enum CharacterRole {
    Player,
    Npc,
}

/// The components of an item: its name, description and value.
#[derive(Debug)]
pub struct Item {
    pub name: String,
    pub description: ItemDescription,
    pub value: ItemValue,
}

/// The components of a character. Every character can hold items.
#[derive(Debug)]
pub struct Character {
    pub name: String,
    pub role: CharacterRole,
    pub health: Health,
}

/// A template: the set of components that a spawned entity receives.
#[derive(Debug)]
pub enum PrototypeBundle {
    Item(Item),
    Character(Character),
}

impl PrototypeBundle {
    /// Entities made from this bundle are items.
    pub open spec fn is_item(&self) -> bool {
        self is Item
    }

    /// Entities made from this bundle can store items.
    pub open spec fn is_storage(&self) -> bool {
        self is Character
    }

    pub fn marks_item(&self) -> (r: bool)
        ensures
            r == self.is_item(),
    {
        match self {
            PrototypeBundle::Item(_) => true,
            PrototypeBundle::Character(_) => false,
        }
    }

    pub fn marks_storage(&self) -> (r: bool)
        ensures
            r == self.is_storage(),
    {
        match self {
            PrototypeBundle::Item(_) => false,
            PrototypeBundle::Character(_) => true,
        }
    }

    /// The entity's display name.
    pub fn name(&self) -> (r: &String)
        ensures
            r == (match self {
                PrototypeBundle::Item(i) => i.name,
                PrototypeBundle::Character(c) => c.name,
            }),
    {
        match self {
            PrototypeBundle::Item(i) => &i.name,
            PrototypeBundle::Character(c) => &c.name,
        }
    }

    /// A fresh copy of every component.
    pub fn duplicate(&self) -> (r: PrototypeBundle)
        ensures
            r == *self,
    {
        match self {
            PrototypeBundle::Item(i) => PrototypeBundle::Item(
                Item {
                    name: i.name.clone(),
                    description: ItemDescription(i.description.0.clone()),
                    value: i.value,
                },
            ),
            PrototypeBundle::Character(c) => PrototypeBundle::Character(
                Character { name: c.name.clone(), role: c.role, health: c.health },
            ),
        }
    }
}

} // verus!
