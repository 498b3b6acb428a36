//! The game world as the server holds it: rooms, items, NPCs and quests, each table keyed
//! by id. A table is a vector of `(id, value)` pairs in which no id occurs twice.

use crate::text::{chars_of, opt_str, same_chars, strs};
use vstd::prelude::*;

verus! {

/// A room.
pub struct Location {
    pub name: String,
    pub description: String,
    /// Direction to destination room id.
    pub exits: Vec<(String, String)>,
    pub items: Vec<String>,
    pub npcs: Vec<String>,
}

/// An item definition.
pub struct Item {
    pub name: String,
    pub description: String,
    pub obtainable: bool,
}

/// Fighting figures of an NPC.
#[derive(Clone, Copy)]
pub struct Stats {
    pub hp: u32,
    pub damage: Option<u32>,
    pub max_hp: u32,
}

/// A non-player character.
pub struct Npc {
    pub name: String,
    pub role: String,
    pub hostile: bool,
    pub description: String,
    pub dialogue: Vec<String>,
    pub quests: Vec<String>,
    pub stats: Stats,
    pub respawn_seconds: Option<u32>,
    pub engaged_by: Option<String>,
}

/// What a quest asks for.
pub struct Objective {
    pub item: Option<String>,
    pub deliver_to: Option<String>,
    pub target: Option<String>,
    pub count: Option<u32>,
}

/// What a quest gives.
pub struct Reward {
    pub item: String,
}

/// A quest definition.
pub struct Quest {
    pub name: String,
    pub giver: String,
    pub quest_type: String,
    pub description: String,
    pub objective: Objective,
    pub reward: Reward,
}

/// The map: where players start and respawn, and the rooms.
pub struct World {
    pub start_location: String,
    pub respawn_location: String,
    pub locations: Vec<(String, Location)>,
}

/// The whole game definition.
pub struct GameWorld {
    pub world: World,
    pub items: Vec<(String, Item)>,
    pub npcs: Vec<(String, Npc)>,
    pub quests: Vec<(String, Quest)>,
}

pub struct LocationView {
    pub name: Seq<char>,
    pub description: Seq<char>,
    pub exits: Seq<(Seq<char>, Seq<char>)>,
    pub items: Seq<Seq<char>>,
    pub npcs: Seq<Seq<char>>,
}

pub struct ItemView {
    pub name: Seq<char>,
    pub description: Seq<char>,
    pub obtainable: bool,
}

pub struct NpcView {
    pub name: Seq<char>,
    pub role: Seq<char>,
    pub hostile: bool,
    pub description: Seq<char>,
    pub dialogue: Seq<Seq<char>>,
    pub quests: Seq<Seq<char>>,
    pub stats: Stats,
    pub respawn_seconds: Option<u32>,
    pub engaged_by: Option<Seq<char>>,
}

pub struct ObjectiveView {
    pub item: Option<Seq<char>>,
    pub deliver_to: Option<Seq<char>>,
    pub target: Option<Seq<char>>,
    pub count: Option<u32>,
}

pub struct QuestView {
    pub name: Seq<char>,
    pub giver: Seq<char>,
    pub quest_type: Seq<char>,
    pub description: Seq<char>,
    pub objective: ObjectiveView,
    pub reward_item: Seq<char>,
}

pub struct WorldView {
    pub start_location: Seq<char>,
    pub respawn_location: Seq<char>,
    pub locations: Seq<(Seq<char>, LocationView)>,
}

pub struct GameWorldView {
    pub world: WorldView,
    pub items: Seq<(Seq<char>, ItemView)>,
    pub npcs: Seq<(Seq<char>, NpcView)>,
    pub quests: Seq<(Seq<char>, QuestView)>,
}

impl View for Location {
    type V = LocationView;

    open spec fn view(&self) -> LocationView {
        LocationView {
            name: self.name@,
            description: self.description@,
            exits: table_view(self.exits@),
            items: strs(self.items@),
            npcs: strs(self.npcs@),
        }
    }
}

impl View for Item {
    type V = ItemView;

    open spec fn view(&self) -> ItemView {
        ItemView { name: self.name@, description: self.description@, obtainable: self.obtainable }
    }
}

impl View for Npc {
    type V = NpcView;

    open spec fn view(&self) -> NpcView {
        NpcView {
            name: self.name@,
            role: self.role@,
            hostile: self.hostile,
            description: self.description@,
            dialogue: strs(self.dialogue@),
            quests: strs(self.quests@),
            stats: self.stats,
            respawn_seconds: self.respawn_seconds,
            engaged_by: opt_str(self.engaged_by),
        }
    }
}

impl View for Quest {
    type V = QuestView;

    open spec fn view(&self) -> QuestView {
        QuestView {
            name: self.name@,
            giver: self.giver@,
            quest_type: self.quest_type@,
            description: self.description@,
            objective: ObjectiveView {
                item: opt_str(self.objective.item),
                deliver_to: opt_str(self.objective.deliver_to),
                target: opt_str(self.objective.target),
                count: self.objective.count,
            },
            reward_item: self.reward.item@,
        }
    }
}

/// The views of a table.
pub open spec fn table_view<V: View>(m: Seq<(String, V)>) -> Seq<(Seq<char>, V::V)> {
    m.map_values(|e: (String, V)| (e.0@, e.1@))
}

impl View for World {
    type V = WorldView;

    open spec fn view(&self) -> WorldView {
        WorldView {
            start_location: self.start_location@,
            respawn_location: self.respawn_location@,
            locations: table_view(self.locations@),
        }
    }
}

impl View for GameWorld {
    type V = GameWorldView;

    open spec fn view(&self) -> GameWorldView {
        GameWorldView {
            world: self.world@,
            items: table_view(self.items@),
            npcs: table_view(self.npcs@),
            quests: table_view(self.quests@),
        }
    }
}

/// Position of the first entry with key `k`, or -1.
pub open spec fn key_pos<V>(m: Seq<(Seq<char>, V)>, k: Seq<char>) -> int
    decreases m.len(),
{
    if m.len() == 0 {
        -1
    } else if m[0].0 == k {
        0
    } else {
        let r = key_pos(m.drop_first(), k);
        if r < 0 {
            -1
        } else {
            r + 1
        }
    }
}

/// The value stored under `k`, if any.
pub open spec fn lookup<V>(m: Seq<(Seq<char>, V)>, k: Seq<char>) -> Option<V> {
    let i = key_pos(m, k);
    if i < 0 {
        None
    } else {
        Some(m[i].1)
    }
}

/// Whether `k` is a key of the table.
pub open spec fn has_key<V>(m: Seq<(Seq<char>, V)>, k: Seq<char>) -> bool {
    key_pos(m, k) >= 0
}

/// No key occurs twice.
pub open spec fn keys_unique<V>(m: Seq<(Seq<char>, V)>) -> bool {
    forall|i: int, j: int| 0 <= i < j < m.len() ==> m[i].0 != m[j].0
}

/// `key_pos` is the first position holding the key.
pub proof fn lemma_key_pos<V>(m: Seq<(Seq<char>, V)>, k: Seq<char>)
    ensures
        -1 <= key_pos(m, k) < m.len(),
        key_pos(m, k) >= 0 ==> m[key_pos(m, k)].0 == k,
        forall|j: int| 0 <= j < key_pos(m, k) ==> m[j].0 != k,
        key_pos(m, k) < 0 ==> forall|j: int| 0 <= j < m.len() ==> m[j].0 != k,
    decreases m.len(),
{
    if m.len() > 0 && m[0].0 != k {
        lemma_key_pos(m.drop_first(), k);
        assert forall|j: int| 0 < j < m.len() implies m[j] == m.drop_first()[j - 1] by {}
    }
}

/// Where a key stands is unchanged by replacing values.
pub proof fn lemma_key_pos_update<V>(m: Seq<(Seq<char>, V)>, i: int, v: V, k: Seq<char>)
    requires
        0 <= i < m.len(),
    ensures
        key_pos(m.update(i, (m[i].0, v)), k) == key_pos(m, k),
    decreases m.len(),
{
    let m2 = m.update(i, (m[i].0, v));
    assert(m2[0].0 == m[0].0);
    if m[0].0 != k {
        if i == 0 {
            assert(m2.drop_first() =~= m.drop_first());
        } else {
            assert(m2.drop_first() =~= m.drop_first().update(i - 1, (m[i].0, v)));
            lemma_key_pos_update(m.drop_first(), i - 1, v, k);
        }
    }
}

/// Finds the entry of a table whose key is `k`.
pub fn find_key<V: View>(m: &Vec<(String, V)>, k: &[char]) -> (r: Option<usize>)
    ensures
        match r {
            Some(i) => i == key_pos(table_view(m@), k@),
            None => key_pos(table_view(m@), k@) < 0,
        },
{
    let ghost t = table_view(m@);
    proof {
        lemma_key_pos(t, k@);
    }
    let mut i: usize = 0;
    while i < m.len()
        invariant
            i <= m@.len(),
            t == table_view(m@),
            forall|j: int| 0 <= j < i ==> t[j].0 != k@,
        decreases m@.len() - i,
    {
        if same_chars(chars_of(m[i].0.as_str()).as_slice(), k) {
            proof {
                lemma_key_pos(t, k@);
                assert(t[i as int].0 == k@);
                if key_pos(t, k@) >= 0 && key_pos(t, k@) < i {
                    assert(t[key_pos(t, k@)].0 == k@);
                }
            }
            return Some(i);
        }
        i = i + 1;
    }
    proof {
        lemma_key_pos(t, k@);
        if key_pos(t, k@) >= 0 {
            assert(t[key_pos(t, k@)].0 == k@);
        }
    }
    None
}

} // verus!
