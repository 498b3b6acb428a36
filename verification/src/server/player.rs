//! A connected player's state.

use crate::server::world::table_view;
use crate::text::{opt_str, strs};
use vstd::prelude::*;

verus! {

/// What the server remembers of one connected player.
pub struct Player {
    pub room: String,
    pub name: String,
    pub inventory: Vec<String>,
    pub hp: u32,
    pub max_hp: u32,
    /// Damage dealt by each attack.
    pub pv: u32,
    /// `healthy` or `in_combat`.
    pub combat: String,
    pub quest_to_do: Vec<String>,
    pub quest_dine: Vec<String>,
    /// Progress of each accepted quest.
    pub quest_progress: Vec<(String, u32)>,
    pub target_npc: Option<String>,
    pub group: Option<String>,
    pub invite_from: Option<String>,
    /// How many lines of each NPC's dialogue the player has heard.
    pub dialogue_progress: Vec<(String, usize)>,
}

pub struct PlayerView {
    pub room: Seq<char>,
    pub name: Seq<char>,
    pub inventory: Seq<Seq<char>>,
    pub hp: u32,
    pub max_hp: u32,
    pub pv: u32,
    pub combat: Seq<char>,
    pub quest_to_do: Seq<Seq<char>>,
    pub quest_dine: Seq<Seq<char>>,
    pub quest_progress: Seq<(Seq<char>, u32)>,
    pub target_npc: Option<Seq<char>>,
    pub group: Option<Seq<char>>,
    pub invite_from: Option<Seq<char>>,
    pub dialogue_progress: Seq<(Seq<char>, usize)>,
}

impl View for Player {
    type V = PlayerView;

    open spec fn view(&self) -> PlayerView {
        PlayerView {
            room: self.room@,
            name: self.name@,
            inventory: strs(self.inventory@),
            hp: self.hp,
            max_hp: self.max_hp,
            pv: self.pv,
            combat: self.combat@,
            quest_to_do: strs(self.quest_to_do@),
            quest_dine: strs(self.quest_dine@),
            quest_progress: table_view(self.quest_progress@),
            target_npc: opt_str(self.target_npc),
            group: opt_str(self.group),
            invite_from: opt_str(self.invite_from),
            dialogue_progress: table_view(self.dialogue_progress@),
        }
    }
}

/// The views of a sequence of players.
pub open spec fn player_views(v: Seq<Player>) -> Seq<PlayerView> {
    v.map_values(|p: Player| p@)
}

/// A player just connected under `name` in `room`: full health, fighting for 15, no quests.
pub open spec fn fresh_player(name: Seq<char>, room: Seq<char>) -> PlayerView {
    PlayerView {
        room,
        name,
        inventory: Seq::empty(),
        hp: 100,
        max_hp: 100,
        pv: 15,
        combat: "healthy"@,
        quest_to_do: Seq::empty(),
        quest_dine: Seq::empty(),
        quest_progress: Seq::empty(),
        target_npc: None,
        group: None,
        invite_from: None,
        dialogue_progress: Seq::empty(),
    }
}

} // verus!
