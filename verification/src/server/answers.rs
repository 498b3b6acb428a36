//! What the commands that report on the game answer, and what a defended blow does, stated
//! over the caller's own state: the room a `LOOK` shows, the `STATUS` fields, the journal of
//! `QUESTS`, a `QUEST` on a kill quest, and `DEFEND`.

use crate::server::commands::{
    defend_spec, find_npc_spec, look_spec, quest_spec, quests_spec, status_spec,
};
use crate::server::game::{player_pos, ServerView};
use crate::server::player::PlayerView;
use crate::server::reply::{
    reply_caller, CombatView, QuestEntryView, ReplyView, RoomInfoView, TargetView,
};
use crate::server::world::{lookup, NpcView, QuestView};
use crate::text::{decimal, trim};
use vstd::prelude::*;

verus! {

/// The names of the players standing in `room`, in the order they joined.
pub open spec fn standing_in(ps: Seq<PlayerView>, room: Seq<char>) -> Seq<Seq<char>> {
    ps.filter_map(|q: PlayerView| if q.room == room { Some(q.name) } else { None })
}

proof fn lemma_standing_in(ps: Seq<PlayerView>, room: Seq<char>)
    ensures
        crate::server::game::names_in(ps, room) == standing_in(ps, room),
    decreases ps.len(),
{
    if ps.len() > 0 {
        lemma_standing_in(ps.drop_last(), room);
        if ps.last().room == room {
            assert(standing_in(ps, room) =~= standing_in(ps.drop_last(), room).push(ps.last().name));
        }
    }
}

/// `LOOK` shows the caller's own room: its id, name, description and exits, exactly the
/// players standing in it (the caller among them) in the order they joined, and the room's
/// items and NPCs. Nothing changes.
pub proof fn law_look_shows_the_room(s: ServerView, name: Seq<char>)
    requires
        player_pos(s.players, name) >= 0,
        lookup(s.world.world.locations, s.players[player_pos(s.players, name)].room) is Some,
    ensures
        ({
            let room = s.players[player_pos(s.players, name)].room;
            let loc = lookup(s.world.world.locations, room)->0;
            let e = look_spec(s, name);
            &&& e.state == s
            &&& e.out.len() == 1
            &&& e.out[0].to == TargetView::Caller
            &&& e.out[0].reply == ReplyView::Look(
                RoomInfoView {
                    id: room,
                    name: loc.name,
                    description: loc.description,
                    exits: loc.exits,
                },
                standing_in(s.players, room),
                loc.items,
                loc.npcs,
            )
            &&& standing_in(s.players, room).contains(name)
        }),
{
    let i = player_pos(s.players, name);
    crate::server::game::lemma_player_pos(s.players, name);
    let room = s.players[i].room;
    lemma_standing_in(s.players, room);
    lemma_names_in_has(s.players, room, i);
}

proof fn lemma_names_in_has(ps: Seq<PlayerView>, room: Seq<char>, i: int)
    requires
        0 <= i < ps.len(),
        ps[i].room == room,
    ensures
        crate::server::game::names_in(ps, room).contains(ps[i].name),
    decreases ps.len(),
{
    let n = crate::server::game::names_in(ps, room);
    if i == ps.len() - 1 {
        assert(n[n.len() - 1] == ps[i].name);
    } else {
        lemma_names_in_has(ps.drop_last(), room, i);
        let m = crate::server::game::names_in(ps.drop_last(), room);
        let k = choose|k: int| 0 <= k < m.len() && m[k] == ps[i].name;
        assert(n[k] == m[k]);
    }
}

/// `STATUS` reports the caller's hp, maximum hp and fight state as they are: a player in a
/// fight is reported `in_combat`. Nothing changes.
pub proof fn law_status_reports_the_player(s: ServerView, name: Seq<char>)
    requires
        player_pos(s.players, name) >= 0,
    ensures
        ({
            let p = s.players[player_pos(s.players, name)];
            let e = status_spec(s, name);
            &&& e.state == s
            &&& e.out.len() == 1
            &&& e.out[0].to == TargetView::Caller
            &&& e.out[0].reply matches ReplyView::Status(hp, max_hp, st) && hp == p.hp
                && max_hp == p.max_hp && st == p.combat
            &&& crate::server::commands::fighting(s, name) ==> e.out[0].reply
                == ReplyView::Status(p.hp, p.max_hp, "in_combat"@)
        }),
{
}

/// The steps a quest needs: its objective's count, one where none is given or the quest is
/// unknown.
pub open spec fn steps_needed(quests: Seq<(Seq<char>, QuestView)>, qid: Seq<char>) -> u32 {
    match lookup(quests, qid) {
        Some(q) => match q.objective.count {
            Some(c) => c,
            None => 1,
        },
        None => 1,
    }
}

/// The steps counted so far on a quest: its progress entry, none where there is no entry.
pub open spec fn steps_made(p: PlayerView, qid: Seq<char>) -> u32 {
    match lookup(p.quest_progress, qid) {
        Some(c) => c,
        None => 0,
    }
}

/// `QUESTS` lists every accepted quest, in the order accepted, as `in_progress` with its
/// counted steps over the steps it needs, then every completed quest, in the order completed,
/// as `completed` and `done`. Nothing changes.
pub proof fn law_journal_lists_every_quest(s: ServerView, name: Seq<char>)
    requires
        player_pos(s.players, name) >= 0,
    ensures
        ({
            let p = s.players[player_pos(s.players, name)];
            let e = quests_spec(s, name);
            let n = p.quest_to_do.len();
            &&& e.state == s
            &&& e.out.len() == 1
            &&& e.out[0].to == TargetView::Caller
            &&& e.out[0].reply matches ReplyView::Quests(l) && {
                &&& l.len() == n + p.quest_dine.len()
                &&& forall|j: int|
                    0 <= j < n ==> (#[trigger] l[j]).quest_id == p.quest_to_do[j] && l[j].status
                        == "in_progress"@ && l[j].progress == decimal(
                        steps_made(p, p.quest_to_do[j]) as nat,
                    ) + "/"@ + decimal(steps_needed(s.world.quests, p.quest_to_do[j]) as nat)
                &&& forall|j: int|
                    n <= j < l.len() ==> (#[trigger] l[j]).quest_id == p.quest_dine[j - n]
                        && l[j].status == "completed"@ && l[j].progress == "done"@
            }
        }),
{
}

/// `QUEST` on the NPC that gave an accepted kill quest (one that asks for no item): while
/// fewer targets are counted than it needs, the answer is `in_progress` with the counted
/// steps over the steps needed and nothing changes; once they are all counted, the quest is
/// completed: it leaves the accepted quests, joins the completed ones, and its reward is added
/// to the inventory.
pub proof fn law_kill_quest_completes_when_counted(
    s: ServerView,
    name: Seq<char>,
    r: Seq<char>,
    id: Seq<char>,
    a: int,
)
    requires
        player_pos(s.players, name) >= 0,
        find_npc_spec(s.world, s.players[player_pos(s.players, name)].room, trim(r)) == Some(id),
        lookup(s.world.npcs, id) is Some,
        0 <= a < lookup(s.world.npcs, id)->0.quests.len(),
        s.players[player_pos(s.players, name)].quest_to_do.contains(
            lookup(s.world.npcs, id)->0.quests[a],
        ),
        forall|j: int|
            0 <= j < a ==> !s.players[player_pos(s.players, name)].quest_to_do.contains(
                #[trigger] lookup(s.world.npcs, id)->0.quests[j],
            ),
        lookup(s.world.quests, lookup(s.world.npcs, id)->0.quests[a]) is Some,
        lookup(s.world.quests, lookup(s.world.npcs, id)->0.quests[a])->0.objective.item is None,
    ensures
        ({
            let i = player_pos(s.players, name);
            let p = s.players[i];
            let qid = lookup(s.world.npcs, id)->0.quests[a];
            let q = lookup(s.world.quests, qid)->0;
            let cur = steps_made(p, qid);
            let total = steps_needed(s.world.quests, qid);
            let e = quest_spec(s, name, Some(r));
            &&& e.out.len() == 1
            &&& e.out[0].to == TargetView::Caller
            &&& cur < total ==> {
                &&& e.state == s
                &&& e.out[0].reply == ReplyView::Quest(
                    QuestEntryView {
                        quest_id: qid,
                        name: q.name,
                        description: q.description,
                        status: "in_progress"@,
                        progress: decimal(cur as nat) + "/"@ + decimal(total as nat),
                    },
                )
            }
            &&& cur >= total ==> {
                &&& e.out[0].reply == ReplyView::Quest(
                    QuestEntryView {
                        quest_id: qid,
                        name: q.name,
                        description: q.description,
                        status: "completed"@,
                        progress: "done"@,
                    },
                )
                &&& e.state.players[i].quest_dine == p.quest_dine.push(qid)
                &&& e.state.players[i].inventory == p.inventory.push(q.reward_item)
                &&& e.state.players[i].quest_progress == p.quest_progress
                &&& e.state.players.len() == s.players.len()
                &&& e.state.world == s.world
            }
        }),
{
    let i = player_pos(s.players, name);
    crate::server::game::lemma_player_pos(s.players, name);
    let p = s.players[i];
    let offered = lookup(s.world.npcs, id)->0.quests;
    crate::text::lemma_first_pos_at(offered, crate::server::commands::in_list(p.quest_to_do), a);
}

/// `QUEST` on the NPC that gave an accepted fetch quest: while the item it asks for is not in
/// the inventory, the answer is `in_progress` and nothing changes; once it is there, the quest
/// is completed: the item (its first copy) is handed over, the reward takes its place at the
/// end of the inventory, and the quest leaves the accepted quests for the completed ones.
pub proof fn law_fetch_quest_completes_when_held(
    s: ServerView,
    name: Seq<char>,
    r: Seq<char>,
    id: Seq<char>,
    a: int,
)
    requires
        player_pos(s.players, name) >= 0,
        find_npc_spec(s.world, s.players[player_pos(s.players, name)].room, trim(r)) == Some(id),
        lookup(s.world.npcs, id) is Some,
        0 <= a < lookup(s.world.npcs, id)->0.quests.len(),
        s.players[player_pos(s.players, name)].quest_to_do.contains(
            lookup(s.world.npcs, id)->0.quests[a],
        ),
        forall|j: int|
            0 <= j < a ==> !s.players[player_pos(s.players, name)].quest_to_do.contains(
                #[trigger] lookup(s.world.npcs, id)->0.quests[j],
            ),
        lookup(s.world.quests, lookup(s.world.npcs, id)->0.quests[a]) is Some,
        lookup(s.world.quests, lookup(s.world.npcs, id)->0.quests[a])->0.objective.item is Some,
    ensures
        ({
            let i = player_pos(s.players, name);
            let p = s.players[i];
            let qid = lookup(s.world.npcs, id)->0.quests[a];
            let q = lookup(s.world.quests, qid)->0;
            let it = q.objective.item->0;
            let e = quest_spec(s, name, Some(r));
            &&& e.out.len() == 1
            &&& e.out[0].to == TargetView::Caller
            &&& !p.inventory.contains(it) ==> {
                &&& e.state == s
                &&& e.out[0].reply matches ReplyView::Quest(qe) && qe.quest_id == qid && qe.status
                    == "in_progress"@
            }
            &&& p.inventory.contains(it) ==> {
                &&& e.out[0].reply matches ReplyView::Quest(qe) && qe.quest_id == qid && qe.status
                    == "completed"@ && qe.progress == "done"@
                &&& e.state.players[i].quest_dine == p.quest_dine.push(qid)
                &&& exists|k: int|
                    0 <= k < p.inventory.len() && p.inventory[k] == it && (forall|j: int|
                        0 <= j < k ==> p.inventory[j] != it) && e.state.players[i].inventory
                        == p.inventory.remove(k).push(q.reward_item)
                &&& e.state.players.len() == s.players.len()
                &&& e.state.world == s.world
            }
        }),
{
    let i = player_pos(s.players, name);
    crate::server::game::lemma_player_pos(s.players, name);
    let p = s.players[i];
    let offered = lookup(s.world.npcs, id)->0.quests;
    crate::text::lemma_first_pos_at(offered, crate::server::commands::in_list(p.quest_to_do), a);
    let qid = offered[a];
    let it = lookup(s.world.quests, qid)->0.objective.item->0;
    crate::text::lemma_text_pos(p.inventory, it);
    if p.inventory.contains(it) {
        let k = crate::text::text_pos(p.inventory, it);
        assert(p.inventory[k] == it);
    }
}

/// `DEFEND` in a fight takes exactly half the NPC's damage (rounded down) off the player's
/// hp and deals none. A player left with hp is still in the fight, and told so; a player whose
/// hp the blow brings to 0 (or would bring below it) is dead: back in the respawn room with 50
/// hp, out of the fight, the NPC free again, and told that they died.
pub proof fn law_defend_halves_the_blow(s: ServerView, name: Seq<char>, id: Seq<char>)
    requires
        player_pos(s.players, name) >= 0,
        s.players[player_pos(s.players, name)].combat == "in_combat"@,
        s.players[player_pos(s.players, name)].target_npc == Some(id),
        lookup(s.world.npcs, id) is Some,
    ensures
        ({
            let i = player_pos(s.players, name);
            let p = s.players[i];
            let n = lookup(s.world.npcs, id)->0;
            let dmg: u32 = match n.stats.damage {
                Some(d) => d,
                None => 0,
            };
            let red: u32 = (dmg / 2) as u32;
            let e = defend_spec(s, name);
            &&& e.out.len() >= 1
            &&& e.state.players.len() == s.players.len()
            &&& forall|j: int| 0 <= j < s.players.len() && j != i ==> e.state.players[j] == s.players[j]
            &&& p.hp > red ==> {
                &&& e.state.players[i] == (PlayerView { hp: (p.hp - red) as u32, ..p })
                &&& e.state.world == s.world
                &&& e.out == seq![
                    reply_caller(
                        ReplyView::Combat(
                            CombatView {
                                action: "defend"@,
                                attacker_hp: (p.hp - red) as u32,
                                target_hp: n.stats.hp,
                                damage_dealt: 0,
                                damage_taken: red,
                                status: "in_combat"@,
                                message: None,
                            },
                        ),
                    ),
                ]
            }
            &&& p.hp <= red ==> {
                &&& e.state.players[i] == (PlayerView {
                    hp: 50,
                    combat: "healthy"@,
                    target_npc: None,
                    room: s.world.world.respawn_location,
                    ..p
                })
                &&& lookup(e.state.world.npcs, id) == Some(NpcView { engaged_by: None, ..n })
                &&& e.out[0] == reply_caller(
                    ReplyView::Combat(
                        CombatView {
                            action: "defend"@,
                            attacker_hp: 0,
                            target_hp: n.stats.hp,
                            damage_dealt: 0,
                            damage_taken: red,
                            status: "dead"@,
                            message: Some(
                                "you died, respawned in "@ + s.world.world.respawn_location
                                    + " with 50 hp"@,
                            ),
                        },
                    ),
                )
            }
        }),
{
    let i = player_pos(s.players, name);
    crate::server::game::lemma_player_pos(s.players, name);
    let k = crate::server::world::key_pos(s.world.npcs, id);
    crate::server::world::lemma_key_pos(s.world.npcs, id);
    let n = lookup(s.world.npcs, id)->0;
    crate::server::world::lemma_key_pos_update(s.world.npcs, k, NpcView { engaged_by: None, ..n }, id);
}

} // verus!
