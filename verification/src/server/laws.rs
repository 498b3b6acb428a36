//! Properties of the server as a whole, proved over the specifications of its operations.

use crate::server::commands::{
    attack_spec, chat_spec, command_spec, death_spec, defend_spec, drop_spec, engage_spec,
    fighting, flee_spec, group_spec, inventory_spec, look_spec, move_cast, move_spec,
    quest_spec, quests_spec, status_spec, strike_spec, take_spec, talk_spec, who_spec, win_spec,
};
use crate::server::world::{has_key, key_pos, lemma_key_pos, lookup, NpcView};
use crate::server::game::{cast, connect_spec, disconnect_spec, player_pos, server_ok, AudienceView, ServerView};
use crate::server::player::PlayerView;
use crate::server::reply::{OutView, TargetView};
use crate::server::session::{line_spec, SessionView};
use vstd::prelude::*;

verus! {

/// How many of the lines go back to the connection that sent the command.
pub open spec fn caller_lines(out: Seq<OutView>) -> nat
    decreases out.len(),
{
    if out.len() == 0 {
        0
    } else {
        caller_lines(out.drop_last()) + if out.last().to is Caller {
            1nat
        } else {
            0nat
        }
    }
}

proof fn lemma_caller_lines_add(a: Seq<OutView>, b: Seq<OutView>)
    ensures
        caller_lines(a + b) == caller_lines(a) + caller_lines(b),
    decreases b.len(),
{
    if b.len() > 0 {
        lemma_caller_lines_add(a, b.drop_last());
        assert((a + b).drop_last() =~= a + b.drop_last());
    } else {
        assert(a + b =~= a);
    }
}

proof fn lemma_cast_silent(
    ps: Seq<PlayerView>,
    aud: AudienceView,
    exclude: Option<Seq<char>>,
    line: Seq<char>,
)
    ensures
        caller_lines(cast(ps, aud, exclude, line)) == 0,
    decreases ps.len(),
{
    if ps.len() > 0 {
        lemma_cast_silent(ps.drop_last(), aud, exclude, line);
        let rest = cast(ps.drop_last(), aud, exclude, line);
        let x = crate::server::reply::to_player(ps.last().name, line);
        assert(rest.push(x).drop_last() =~= rest);
    }
}

proof fn lemma_move_cast_silent(ps: Seq<PlayerView>, from: Seq<char>, to: Seq<char>, name: Seq<char>)
    ensures
        caller_lines(move_cast(ps, from, to, name)) == 0,
    decreases ps.len(),
{
    if ps.len() > 0 {
        lemma_move_cast_silent(ps.drop_last(), from, to, name);
        let rest = move_cast(ps.drop_last(), from, to, name);
        assert forall|x: OutView| rest.push(x).drop_last() == rest by {
            assert(rest.push(x).drop_last() =~= rest);
        }
    }
}

/// The facts about counting replies that the per-command proofs use.
proof fn lemma_counting()
    ensures
        forall|a: Seq<OutView>, b: Seq<OutView>|
            #[trigger] caller_lines(a + b) == caller_lines(a) + caller_lines(b),
        forall|ps: Seq<PlayerView>, aud: AudienceView, exclude: Option<Seq<char>>, line: Seq<char>|
            #[trigger] caller_lines(cast(ps, aud, exclude, line)) == 0,
        forall|ps: Seq<PlayerView>, from: Seq<char>, to: Seq<char>, name: Seq<char>|
            #[trigger] caller_lines(move_cast(ps, from, to, name)) == 0,
        forall|x: OutView|
            #[trigger] caller_lines(seq![x]) == if x.to is Caller {
                1nat
            } else {
                0nat
            },
        forall|a: Seq<OutView>, x: OutView|
            #[trigger] caller_lines(a.push(x)) == caller_lines(a) + if x.to is Caller {
                1nat
            } else {
                0nat
            },
        caller_lines(Seq::empty()) == 0,
{
    assert forall|a: Seq<OutView>, b: Seq<OutView>|
        #[trigger] caller_lines(a + b) == caller_lines(a) + caller_lines(b) by {
        lemma_caller_lines_add(a, b);
    }
    assert forall|ps: Seq<PlayerView>, aud: AudienceView, exclude: Option<Seq<char>>, line: Seq<char>|
        #[trigger] caller_lines(cast(ps, aud, exclude, line)) == 0 by {
        lemma_cast_silent(ps, aud, exclude, line);
    }
    assert forall|ps: Seq<PlayerView>, from: Seq<char>, to: Seq<char>, name: Seq<char>|
        #[trigger] caller_lines(move_cast(ps, from, to, name)) == 0 by {
        lemma_move_cast_silent(ps, from, to, name);
    }
    assert forall|x: OutView|
        #[trigger] caller_lines(seq![x]) == if x.to is Caller {
            1nat
        } else {
            0nat
        } by {
        assert(seq![x].drop_last() =~= Seq::<OutView>::empty());
        assert(seq![x].last() == x);
        assert(caller_lines(Seq::<OutView>::empty()) == 0);
    }
    assert forall|a: Seq<OutView>, x: OutView|
        #[trigger] caller_lines(a.push(x)) == caller_lines(a) + if x.to is Caller {
            1nat
        } else {
            0nat
        } by {
        assert(a.push(x).drop_last() =~= a);
    }
}

/// The player `name` is connected.
pub open spec fn present(s: ServerView, name: Seq<char>) -> bool {
    player_pos(s.players, name) >= 0
}

proof fn lemma_look_one(s: ServerView, name: Seq<char>)
    requires
        server_ok(s),
        present(s, name),
    ensures
        caller_lines(look_spec(s, name).out) == 1,
{
    lemma_counting();
    crate::server::game::lemma_player_pos(s.players, name);
    let i = player_pos(s.players, name);
    assert(has_key(s.world.world.locations, s.players[i].room));
}

proof fn lemma_simple_one(s: ServerView, name: Seq<char>, rest: Option<Seq<char>>)
    requires
        server_ok(s),
        present(s, name),
    ensures
        caller_lines(move_spec(s, name, rest).out) == 1,
        caller_lines(chat_spec(s, name, rest).out) == 1,
        caller_lines(who_spec(s, name).out) == 1,
        caller_lines(status_spec(s, name).out) == 1,
        caller_lines(inventory_spec(s, name).out) == 1,
        caller_lines(quests_spec(s, name).out) == 1,
{
    lemma_counting();
    crate::server::game::lemma_player_pos(s.players, name);
}

proof fn lemma_group_one(s: ServerView, name: Seq<char>, rest: Option<Seq<char>>)
    requires
        server_ok(s),
        present(s, name),
    ensures
        caller_lines(group_spec(s, name, rest).out) == 1,
{
    lemma_counting();
    crate::server::game::lemma_player_pos(s.players, name);
    match rest {
        Some(r) => {
            let g = crate::text::splitn(r, 2, ' ');
            if g[0] == "INVITE"@ {
                let arg = crate::text::piece(g, 1);
                if arg is Some {
                    let x = crate::server::reply::to_player(arg->0, "EVT GROUP INVITE "@ + name);
                    let y = crate::server::reply::to_caller("OK"@);
                    assert(seq![x, y] =~= seq![x].push(y));
                }
                assert(caller_lines(group_spec(s, name, rest).out) == 1);
            } else if g[0] == "LEAVE"@ {
                let (s2, o) = crate::server::game::leave_group_spec(s, name);
                assert(caller_lines(o) == 0);
                assert(caller_lines(group_spec(s, name, rest).out) == 1);
            } else {
                assert(caller_lines(group_spec(s, name, rest).out) == 1);
            }
        },
        None => {},
    }
}

proof fn lemma_items_one(s: ServerView, name: Seq<char>, rest: Option<Seq<char>>)
    requires
        server_ok(s),
        present(s, name),
    ensures
        caller_lines(take_spec(s, name, rest).out) == 1,
        caller_lines(drop_spec(s, name, rest).out) == 1,
        caller_lines(talk_spec(s, name, rest).out) == 1,
        caller_lines(quest_spec(s, name, rest).out) == 1,
{
    lemma_counting();
    crate::server::game::lemma_player_pos(s.players, name);
}


proof fn lemma_combat_one(s: ServerView, name: Seq<char>, rest: Option<Seq<char>>)
    requires
        server_ok(s),
        present(s, name),
    ensures
        caller_lines(attack_spec(s, name, rest).out) == 1,
        caller_lines(defend_spec(s, name).out) == 1,
        caller_lines(flee_spec(s, name).out) == 1,
{
    lemma_counting();
    crate::server::game::lemma_player_pos(s.players, name);
    assert(caller_lines(engage_spec(s, name, rest).out) == 1);
    assert(caller_lines(strike_spec(s, name).out) == 1);
}

/// One reply per command: a command from a connected player sends exactly one line back to
/// its sender, whatever else it tells other players.
pub proof fn law_one_reply_per_command(s: ServerView, name: Seq<char>, line: Seq<char>)
    requires
        server_ok(s),
        present(s, name),
    ensures
        caller_lines(command_spec(s, name, line).out) == 1,
{
    lemma_counting();
    let rest = crate::server::commands::command_rest(line);
    lemma_look_one(s, name);
    lemma_simple_one(s, name, rest);
    lemma_group_one(s, name, rest);
    lemma_items_one(s, name, rest);
    lemma_combat_one(s, name, rest);
}

/// A line from a connection that has not named its player yet also gets exactly one reply.
pub proof fn law_one_reply_before_connecting(s: ServerView, line: Seq<char>, clone_ok: bool)
    ensures
        caller_lines(connect_spec(s, line, clone_ok).1) == 1,
{
    lemma_counting();
}


/// The same players, by name and in the same order.
pub open spec fn same_names(a: Seq<PlayerView>, b: Seq<PlayerView>) -> bool {
    a.len() == b.len() && forall|j: int| 0 <= j < a.len() ==> #[trigger] a[j].name == b[j].name
}

proof fn lemma_names_simple(s: ServerView, name: Seq<char>, rest: Option<Seq<char>>)
    requires
        server_ok(s),
    ensures
        same_names(s.players, look_spec(s, name).state.players),
        same_names(s.players, move_spec(s, name, rest).state.players),
        same_names(s.players, chat_spec(s, name, rest).state.players),
        same_names(s.players, who_spec(s, name).state.players),
        same_names(s.players, status_spec(s, name).state.players),
        same_names(s.players, inventory_spec(s, name).state.players),
        same_names(s.players, quests_spec(s, name).state.players),
        same_names(s.players, group_spec(s, name, rest).state.players),
{
    crate::server::game::lemma_player_pos(s.players, name);
    match rest {
        Some(r) => {
            let g = crate::text::splitn(r, 2, ' ');
            let arg = crate::text::piece(g, 1);
            if g[0] == "INVITE"@ && arg is Some {
                let t = player_pos(s.players, arg->0);
                crate::server::game::lemma_player_pos(s.players, arg->0);
                assert(same_names(s.players, group_spec(s, name, rest).state.players));
            } else if g[0] == "JOIN"@ && arg is Some {
                let li = player_pos(s.players, arg->0);
                crate::server::game::lemma_player_pos(s.players, arg->0);
                assert(same_names(s.players, group_spec(s, name, rest).state.players));
            } else {
                assert(same_names(s.players, group_spec(s, name, rest).state.players));
            }
        },
        None => {},
    }
}

proof fn lemma_names_items(s: ServerView, name: Seq<char>, rest: Option<Seq<char>>)
    requires
        server_ok(s),
    ensures
        same_names(s.players, take_spec(s, name, rest).state.players),
        same_names(s.players, drop_spec(s, name, rest).state.players),
        same_names(s.players, talk_spec(s, name, rest).state.players),
        same_names(s.players, quest_spec(s, name, rest).state.players),
{
    crate::server::game::lemma_player_pos(s.players, name);
}

proof fn lemma_names_strike(s: ServerView, name: Seq<char>)
    requires
        server_ok(s),
        present(s, name),
    ensures
        same_names(s.players, strike_spec(s, name).state.players),
{
    crate::server::game::lemma_player_pos(s.players, name);
    let i = player_pos(s.players, name);
    let p = s.players[i];
    match p.target_npc {
        None => {},
        Some(id) => match crate::server::world::lookup(s.world.npcs, id) {
            None => {},
            Some(n) => if n.stats.hp != 0 {
                let nhp = crate::server::commands::sat_sub(n.stats.hp, p.pv);
                let n1 = crate::server::world::NpcView {
                    stats: crate::server::world::Stats { hp: nhp, ..n.stats },
                    ..n
                };
                let s1 = crate::server::commands::set_npc(s, id, n1);
                assert(s1.players == s.players);
                if nhp == 0 {
                    let delay: u32 = match n.respawn_seconds {
                        Some(d) => d,
                        None => 30,
                    };
                    let w = win_spec(s1, i, name, id, delay);
                    assert(same_names(s.players, w.state.players));
                } else {
                    let dmg: u32 = match n.stats.damage {
                        Some(d) => d,
                        None => 0,
                    };
                    let php = crate::server::commands::sat_sub(p.hp, dmg);
                    let s2 = crate::server::game::with_player(s1, i, PlayerView { hp: php, ..p });
                    assert(same_names(s.players, s2.players));
                    if php == 0 {
                        let d = death_spec(s2, i, name, id, nhp, "attack"@, p.pv, dmg);
                        assert(same_names(s2.players, d.state.players));
                    }
                }
            },
        },
    }
}

proof fn lemma_names_combat(s: ServerView, name: Seq<char>, rest: Option<Seq<char>>)
    requires
        server_ok(s),
    ensures
        same_names(s.players, attack_spec(s, name, rest).state.players),
        same_names(s.players, defend_spec(s, name).state.players),
        same_names(s.players, flee_spec(s, name).state.players),
{
    crate::server::game::lemma_player_pos(s.players, name);
    assert(same_names(s.players, engage_spec(s, name, rest).state.players));
    if fighting(s, name) {
        lemma_names_strike(s, name);
    }
}

/// Commands never connect or disconnect anyone: the players keep their names and order.
pub proof fn law_commands_keep_players(s: ServerView, name: Seq<char>, line: Seq<char>)
    requires
        server_ok(s),
    ensures
        same_names(s.players, command_spec(s, name, line).state.players),
{
    let rest = crate::server::commands::command_rest(line);
    lemma_names_simple(s, name, rest);
    lemma_names_items(s, name, rest);
    lemma_names_combat(s, name, rest);
}


/// A connection that has named its player speaks for a connected player.
pub open spec fn session_ok(s: ServerView, ses: SessionView) -> bool {
    ses.connected ==> present(s, ses.name)
}

/// Every line of a connection gets exactly one reply, and a connection that has named its
/// player keeps speaking for a connected player until it ends.
pub proof fn law_session_lines(s: ServerView, ses: SessionView, line: Seq<char>, clone_ok: bool)
    requires
        server_ok(s),
        session_ok(s, ses),
    ensures
        caller_lines(line_spec(s, ses, line, clone_ok).out) == 1,
        session_ok(line_spec(s, ses, line, clone_ok).state, line_spec(s, ses, line, clone_ok).session),
{
    if ses.connected {
        law_one_reply_per_command(s, ses.name, line);
        law_commands_keep_players(s, ses.name, line);
        let s2 = command_spec(s, ses.name, line).state;
        crate::server::game::lemma_player_pos(s.players, ses.name);
        crate::server::game::lemma_player_pos(s2.players, ses.name);
        let i = player_pos(s.players, ses.name);
        assert(s2.players[i].name == ses.name);
    } else {
        law_one_reply_before_connecting(s, line, clone_ok);
        let (s2, out, ok, n) = connect_spec(s, line, clone_ok);
        if ok {
            crate::server::game::lemma_player_pos(s2.players, n);
            assert(s2.players[s2.players.len() - 1].name == n);
        }
    }
}


/// A player who connects and then leaves without a command leaves the game as it was, except
/// that NPCs marked as fighting that name are free.
pub proof fn law_connect_then_leave(s: ServerView, line: Seq<char>, clone_ok: bool)
    requires
        server_ok(s),
        connect_spec(s, line, clone_ok).2,
    ensures
        disconnect_spec(connect_spec(s, line, clone_ok).0, connect_spec(s, line, clone_ok).3).0
            == crate::server::game::release_npcs(s, connect_spec(s, line, clone_ok).3),
{
    let (s2, out, ok, n) = connect_spec(s, line, clone_ok);
    let ps = s2.players;
    crate::server::game::lemma_player_pos(s.players, n);
    crate::server::game::lemma_player_pos(ps, n);
    assert(ps[s.players.len() as int].name == n);
    assert forall|j: int| 0 <= j < s.players.len() implies ps[j].name != n by {
        assert(ps[j] == s.players[j]);
    }
    assert(player_pos(ps, n) == s.players.len());
    assert(ps.remove(s.players.len() as int) =~= s.players);
    let s3 = ServerView { players: s.players, ..s2 };
    assert(s3 == s);
}


/// Player `p` is fighting NPC `id`.
pub open spec fn fights(p: PlayerView, id: Seq<char>) -> bool {
    p.combat == "in_combat"@ && p.target_npc == Some(id)
}

/// A player in a fight holds the lock of the NPC they fight: it exists, is alive, and is
/// marked as fought by them.
pub open spec fn holds_lock(s: ServerView, p: PlayerView) -> bool {
    p.combat == "in_combat"@ ==> match p.target_npc {
        Some(t) => match lookup(s.world.npcs, t) {
            Some(n) => n.engaged_by == Some(p.name) && n.stats.hp > 0,
            None => false,
        },
        None => false,
    }
}

/// Every player in a fight holds the lock of the NPC they fight.
pub open spec fn locks_held(s: ServerView) -> bool {
    forall|i: int| 0 <= i < s.players.len() ==> holds_lock(s, #[trigger] s.players[i])
}

/// The same NPCs, and players that fight as before.
pub open spec fn same_fights(a: ServerView, b: ServerView) -> bool {
    &&& a.world.npcs == b.world.npcs
    &&& a.players.len() == b.players.len()
    &&& forall|j: int|
        0 <= j < a.players.len() ==> (#[trigger] a.players[j]).combat == b.players[j].combat
            && a.players[j].target_npc == b.players[j].target_npc && a.players[j].name
            == b.players[j].name
}

proof fn lemma_same_fights(a: ServerView, b: ServerView)
    requires
        locks_held(a),
        same_fights(a, b),
    ensures
        locks_held(b),
{
    assert forall|i: int| 0 <= i < b.players.len() implies holds_lock(b, #[trigger] b.players[i]) by {
        assert(holds_lock(a, a.players[i]));
    }
}

/// With unique names, only the player holding an NPC's lock fights it.
proof fn lemma_only_fighter(s: ServerView, i: int, id: Seq<char>)
    requires
        locks_held(s),
        forall|a: int, b: int|
            0 <= a < b < s.players.len() ==> #[trigger] s.players[a].name
                != #[trigger] s.players[b].name,
        0 <= i < s.players.len(),
        fights(s.players[i], id),
    ensures
        forall|j: int| 0 <= j < s.players.len() && j != i ==> !fights(#[trigger] s.players[j], id),
{
    assert forall|j: int| 0 <= j < s.players.len() && j != i implies !fights(
        #[trigger] s.players[j],
        id,
    ) by {
        assert(holds_lock(s, s.players[i]));
        assert(holds_lock(s, s.players[j]));
        if j < i {
            assert(s.players[j].name != s.players[i].name);
        } else {
            assert(s.players[i].name != s.players[j].name);
        }
    }
}

/// Where NPC `id` stands in the table after `set_npc`, and what the others hold.
proof fn lemma_lookup_set_npc(s: ServerView, id: Seq<char>, n: NpcView, t: Seq<char>)
    ensures
        lookup(crate::server::commands::set_npc(s, id, n).world.npcs, t) == if t == id && has_key(
            s.world.npcs,
            id,
        ) {
            Some(n)
        } else {
            lookup(s.world.npcs, t)
        },
{
    let k = key_pos(s.world.npcs, id);
    lemma_key_pos(s.world.npcs, id);
    if k >= 0 {
        let m = s.world.npcs;
        crate::server::world::lemma_key_pos_update(m, k, n, t);
        lemma_key_pos(m, t);
        if t != id && key_pos(m, t) >= 0 {
            assert(key_pos(m, t) != k);
        }
    }
}

/// Changing NPC `id` keeps every lock where the fighters of `id` still hold it.
proof fn lemma_lock_set_npc(s: ServerView, id: Seq<char>, n: NpcView)
    requires
        locks_held(s),
        forall|j: int|
            0 <= j < s.players.len() && fights(#[trigger] s.players[j], id) ==> n.engaged_by == Some(
                s.players[j].name,
            ) && n.stats.hp > 0,
    ensures
        locks_held(crate::server::commands::set_npc(s, id, n)),
{
    let s2 = crate::server::commands::set_npc(s, id, n);
    assert(s2.players == s.players);
    assert forall|i: int| 0 <= i < s2.players.len() implies holds_lock(s2, #[trigger] s2.players[i]) by {
        let p = s.players[i];
        assert(holds_lock(s, p));
        match p.target_npc {
            Some(t) => {
                lemma_lookup_set_npc(s, id, n, t);
            },
            None => {},
        }
    }
}

/// Freeing NPC `id` that nobody fights keeps every lock.
proof fn lemma_lock_free(s: ServerView, id: Seq<char>)
    requires
        locks_held(s),
        forall|j: int| 0 <= j < s.players.len() ==> !fights(#[trigger] s.players[j], id),
    ensures
        locks_held(crate::server::commands::free_npc(s, id)),
{
    match lookup(s.world.npcs, id) {
        Some(n) => {
            lemma_lock_set_npc(s, id, NpcView { engaged_by: None, ..n });
        },
        None => {},
    }
}

/// Replacing player `i` by one that holds its lock keeps every lock.
proof fn lemma_lock_with_player(s: ServerView, i: int, p: PlayerView)
    requires
        locks_held(s),
        0 <= i < s.players.len(),
        holds_lock(s, p),
    ensures
        locks_held(crate::server::game::with_player(s, i, p)),
{
    let s2 = crate::server::game::with_player(s, i, p);
    assert forall|j: int| 0 <= j < s2.players.len() implies holds_lock(s2, #[trigger] s2.players[j]) by {
        if j != i {
            assert(holds_lock(s, s.players[j]));
        }
    }
}

/// Freeing the NPC that player `i` alone fights, and taking `i` out of the fight, keeps every
/// lock.
proof fn lemma_lock_free_then_calm(s: ServerView, i: int, id: Seq<char>, p: PlayerView)
    requires
        locks_held(s),
        0 <= i < s.players.len(),
        forall|j: int| 0 <= j < s.players.len() && j != i ==> !fights(#[trigger] s.players[j], id),
        p.combat != "in_combat"@,
    ensures
        locks_held(crate::server::game::with_player(crate::server::commands::free_npc(s, id), i, p)),
{
    let s1 = crate::server::commands::free_npc(s, id);
    let s2 = crate::server::game::with_player(s1, i, p);
    assert(s1.players == s.players);
    assert forall|j: int| 0 <= j < s2.players.len() implies holds_lock(s2, #[trigger] s2.players[j]) by {
        if j != i {
            let q = s.players[j];
            assert(holds_lock(s, q));
            match lookup(s.world.npcs, id) {
                Some(n) => match q.target_npc {
                    Some(t) => {
                        lemma_lookup_set_npc(s, id, NpcView { engaged_by: None, ..n }, t);
                    },
                    None => {},
                },
                None => {},
            }
        }
    }
}


proof fn lemma_fights_simple(s: ServerView, name: Seq<char>, rest: Option<Seq<char>>)
    requires
        server_ok(s),
    ensures
        same_fights(s, look_spec(s, name).state),
        same_fights(s, move_spec(s, name, rest).state),
        same_fights(s, chat_spec(s, name, rest).state),
        same_fights(s, who_spec(s, name).state),
        same_fights(s, status_spec(s, name).state),
        same_fights(s, inventory_spec(s, name).state),
        same_fights(s, quests_spec(s, name).state),
{
    crate::server::game::lemma_player_pos(s.players, name);
}

proof fn lemma_fights_group(s: ServerView, name: Seq<char>, rest: Option<Seq<char>>)
    requires
        server_ok(s),
    ensures
        same_fights(s, group_spec(s, name, rest).state),
{
    crate::server::game::lemma_player_pos(s.players, name);
    match rest {
        Some(r) => {
            let g = crate::text::splitn(r, 2, ' ');
            let arg = crate::text::piece(g, 1);
            if arg is Some {
                crate::server::game::lemma_player_pos(s.players, arg->0);
            }
            assert(same_fights(s, group_spec(s, name, rest).state));
        },
        None => {},
    }
}

proof fn lemma_fights_items(s: ServerView, name: Seq<char>, rest: Option<Seq<char>>)
    requires
        server_ok(s),
    ensures
        same_fights(s, take_spec(s, name, rest).state),
        same_fights(s, drop_spec(s, name, rest).state),
        same_fights(s, talk_spec(s, name, rest).state),
        same_fights(s, quest_spec(s, name, rest).state),
{
    crate::server::game::lemma_player_pos(s.players, name);
}


proof fn lemma_healthy_not_fighting()
    ensures
        "healthy"@ != "in_combat"@,
{
    reveal_strlit("healthy");
    reveal_strlit("in_combat");
    assert("healthy"@.len() == 7);
    assert("in_combat"@.len() == 9);
}

/// No two players share a name.
pub open spec fn names_unique(ps: Seq<PlayerView>) -> bool {
    forall|a: int, b: int| 0 <= a < b < ps.len() ==> #[trigger] ps[a].name != #[trigger] ps[b].name
}

proof fn lemma_lock_death(
    s: ServerView,
    i: int,
    name: Seq<char>,
    id: Seq<char>,
    npc_hp: u32,
    action: Seq<char>,
    dealt: u32,
    taken: u32,
)
    requires
        locks_held(s),
        names_unique(s.players),
        0 <= i < s.players.len(),
        fights(s.players[i], id),
    ensures
        locks_held(death_spec(s, i, name, id, npc_hp, action, dealt, taken).state),
{
    lemma_healthy_not_fighting();
    lemma_only_fighter(s, i, id);
    let p = s.players[i];
    lemma_lock_free_then_calm(
        s,
        i,
        id,
        PlayerView {
            hp: 50,
            combat: "healthy"@,
            target_npc: None,
            room: s.world.world.respawn_location,
            ..p
        },
    );
}

proof fn lemma_lock_engage(s: ServerView, name: Seq<char>, rest: Option<Seq<char>>)
    requires
        server_ok(s),
        locks_held(s),
        !fighting(s, name),
    ensures
        locks_held(engage_spec(s, name, rest).state),
{
    crate::server::game::lemma_player_pos(s.players, name);
    let i = player_pos(s.players, name);
    match rest {
        Some(r) => if i >= 0 {
            let p = s.players[i];
            match crate::server::commands::find_npc_spec(s.world, p.room, crate::text::trim(r)) {
                Some(id) => match lookup(s.world.npcs, id) {
                    Some(n) => if n.hostile && n.stats.hp != 0 && n.engaged_by is None {
                        let n2 = NpcView { engaged_by: Some(name), ..n };
                        assert forall|j: int|
                            0 <= j < s.players.len() && fights(#[trigger] s.players[j], id) implies n2.engaged_by
                            == Some(s.players[j].name) && n2.stats.hp > 0 by {
                            assert(holds_lock(s, s.players[j]));
                        }
                        lemma_lock_set_npc(s, id, n2);
                        let s1 = crate::server::commands::set_npc(s, id, n2);
                        lemma_key_pos(s.world.npcs, id);
                        lemma_lookup_set_npc(s, id, n2, id);
                        let p2 = PlayerView { combat: "in_combat"@, target_npc: Some(id), ..p };
                        assert(holds_lock(s1, p2));
                        lemma_lock_with_player(s1, i, p2);
                    },
                    None => {},
                },
                None => {},
            }
        },
        None => {},
    }
}

proof fn lemma_lock_win(s: ServerView, i: int, name: Seq<char>, id: Seq<char>, n1: NpcView, delay: u32)
    requires
        locks_held(s),
        names_unique(s.players),
        0 <= i < s.players.len(),
        fights(s.players[i], id),
    ensures
        locks_held(
            win_spec(crate::server::commands::set_npc(s, id, n1), i, name, id, delay).state,
        ),
{
    lemma_healthy_not_fighting();
    lemma_only_fighter(s, i, id);
    let p = s.players[i];
    let calm = crate::server::commands::calm(p);
    let s1 = crate::server::commands::set_npc(s, id, n1);
    let t1 = crate::server::game::with_player(s, i, calm);
    lemma_lock_with_player(s, i, calm);
    assert forall|j: int| 0 <= j < t1.players.len() implies !fights(#[trigger] t1.players[j], id) by {
        if j != i {
            assert(t1.players[j] == s.players[j]);
        }
    }
    lemma_lock_set_npc(t1, id, n1);
    let t2 = crate::server::commands::set_npc(t1, id, n1);
    let u1 = crate::server::game::with_player(s1, i, calm);
    assert(u1 == t2);
    let li = key_pos(u1.world.world.locations, p.room);
    let u2 = if li < 0 {
        u1
    } else {
        let loc = u1.world.world.locations[li].1;
        crate::server::game::with_location(
            u1,
            li,
            crate::server::world::LocationView {
                npcs: crate::text::remove_all(loc.npcs, id),
                ..loc
            },
        )
    };
    assert(same_fights(u1, u2));
    lemma_same_fights(u1, u2);
    assert forall|j: int| 0 <= j < u2.players.len() implies !fights(#[trigger] u2.players[j], id) by {
        assert(u2.players[j] == t1.players[j]);
    }
    lemma_lock_free(u2, id);
    let u3 = crate::server::commands::free_npc(u2, id);
    let p4 = PlayerView {
        quest_progress: crate::server::commands::advance(
            p.quest_progress,
            p.quest_to_do,
            s1.world.quests,
            id,
            true,
        ),
        ..calm
    };
    assert(u3.players == u2.players);
    lemma_lock_with_player(u3, i, p4);
}

proof fn lemma_lock_strike(s: ServerView, name: Seq<char>)
    requires
        server_ok(s),
        locks_held(s),
        fighting(s, name),
    ensures
        locks_held(strike_spec(s, name).state),
{
    crate::server::game::lemma_player_pos(s.players, name);
    let i = player_pos(s.players, name);
    let p = s.players[i];
    assert(holds_lock(s, p));
    match p.target_npc {
        None => {},
        Some(id) => match lookup(s.world.npcs, id) {
            None => {},
            Some(n) => {
                let nhp = crate::server::commands::sat_sub(n.stats.hp, p.pv);
                let n1 = NpcView { stats: crate::server::world::Stats { hp: nhp, ..n.stats }, ..n };
                if nhp == 0 {
                    let delay: u32 = match n.respawn_seconds {
                        Some(d) => d,
                        None => 30,
                    };
                    lemma_lock_win(s, i, name, id, n1, delay);
                } else {
                    lemma_only_fighter(s, i, id);
                    lemma_lock_set_npc(s, id, n1);
                    let s1 = crate::server::commands::set_npc(s, id, n1);
                    lemma_key_pos(s.world.npcs, id);
                    lemma_lookup_set_npc(s, id, n1, id);
                    let dmg: u32 = match n.stats.damage {
                        Some(d) => d,
                        None => 0,
                    };
                    let php = crate::server::commands::sat_sub(p.hp, dmg);
                    let p2 = PlayerView { hp: php, ..p };
                    assert(holds_lock(s1, p2));
                    lemma_lock_with_player(s1, i, p2);
                    let s2 = crate::server::game::with_player(s1, i, p2);
                    if php == 0 {
                        assert(names_unique(s2.players)) by {
                            assert forall|a: int, b: int|
                                0 <= a < b < s2.players.len() implies #[trigger] s2.players[a].name
                                != #[trigger] s2.players[b].name by {
                                assert(s2.players[a].name == s.players[a].name);
                                assert(s2.players[b].name == s.players[b].name);
                            }
                        }
                        lemma_lock_death(s2, i, name, id, nhp, "attack"@, p.pv, dmg);
                    }
                }
            },
        },
    }
}

proof fn lemma_lock_defend_flee(s: ServerView, name: Seq<char>)
    requires
        server_ok(s),
        locks_held(s),
    ensures
        locks_held(defend_spec(s, name).state),
        locks_held(flee_spec(s, name).state),
{
    lemma_healthy_not_fighting();
    crate::server::game::lemma_player_pos(s.players, name);
    match crate::server::commands::foe(s, name) {
        None => {},
        Some(id) => {
            let i = player_pos(s.players, name);
            let p = s.players[i];
            lemma_only_fighter(s, i, id);
            lemma_lock_free_then_calm(s, i, id, crate::server::commands::calm(p));
            let dmg: u32 = match lookup(s.world.npcs, id) {
                Some(n) => match n.stats.damage {
                    Some(d) => d,
                    None => 0,
                },
                None => 0,
            };
            let red = (dmg / 2) as u32;
            let php = crate::server::commands::sat_sub(p.hp, red);
            let p2 = PlayerView { hp: php, ..p };
            assert(holds_lock(s, s.players[i]));
            lemma_lock_with_player(s, i, p2);
            let s1 = crate::server::game::with_player(s, i, p2);
            assert(names_unique(s1.players)) by {
                assert forall|a: int, b: int|
                    0 <= a < b < s1.players.len() implies #[trigger] s1.players[a].name
                    != #[trigger] s1.players[b].name by {
                    assert(s1.players[a].name == s.players[a].name);
                    assert(s1.players[b].name == s.players[b].name);
                }
            }
            let nhp: u32 = match lookup(s.world.npcs, id) {
                Some(n) => n.stats.hp,
                None => 0,
            };
            lemma_lock_death(s1, i, name, id, nhp, "defend"@, 0, red);
        },
    }
}

/// One fighter at a time: every command keeps each player in a fight holding the lock of
/// the NPC they fight, so no NPC is ever fought by two players.
pub proof fn law_combat_locks(s: ServerView, name: Seq<char>, line: Seq<char>)
    requires
        server_ok(s),
        locks_held(s),
    ensures
        locks_held(command_spec(s, name, line).state),
{
    let rest = crate::server::commands::command_rest(line);
    lemma_fights_simple(s, name, rest);
    lemma_fights_group(s, name, rest);
    lemma_fights_items(s, name, rest);
    lemma_same_fights(s, look_spec(s, name).state);
    lemma_same_fights(s, move_spec(s, name, rest).state);
    lemma_same_fights(s, chat_spec(s, name, rest).state);
    lemma_same_fights(s, who_spec(s, name).state);
    lemma_same_fights(s, status_spec(s, name).state);
    lemma_same_fights(s, inventory_spec(s, name).state);
    lemma_same_fights(s, quests_spec(s, name).state);
    lemma_same_fights(s, group_spec(s, name, rest).state);
    lemma_same_fights(s, take_spec(s, name, rest).state);
    lemma_same_fights(s, drop_spec(s, name, rest).state);
    lemma_same_fights(s, talk_spec(s, name, rest).state);
    lemma_same_fights(s, quest_spec(s, name, rest).state);
    lemma_lock_defend_flee(s, name);
    if fighting(s, name) {
        lemma_lock_strike(s, name);
    } else {
        lemma_lock_engage(s, name, rest);
    }
}

/// Two different players are never in a fight with the same NPC.
pub proof fn law_one_fighter(s: ServerView, a: int, b: int, id: Seq<char>)
    requires
        server_ok(s),
        locks_held(s),
        0 <= a < s.players.len(),
        0 <= b < s.players.len(),
        a != b,
        fights(s.players[a], id),
    ensures
        !fights(s.players[b], id),
{
    lemma_only_fighter(s, a, id);
}


/// Connecting, leaving, and bringing back an NPC nobody fights keep every lock too; so does
/// every line of a connection.
pub proof fn law_locks_kept(s: ServerView, ses: SessionView, line: Seq<char>, name: Seq<char>, npc: Seq<char>, room: Seq<char>, clone_ok: bool)
    requires
        server_ok(s),
        locks_held(s),
    ensures
        locks_held(connect_spec(s, line, clone_ok).0),
        locks_held(disconnect_spec(s, name).0),
        (forall|j: int| 0 <= j < s.players.len() ==> !fights(#[trigger] s.players[j], npc))
            ==> locks_held(crate::server::session::respawn_spec(s, npc, room)),
        locks_held(line_spec(s, ses, line, clone_ok).state),
{
    lemma_healthy_not_fighting();
    let c = connect_spec(s, line, clone_ok).0;
    assert forall|i: int| 0 <= i < c.players.len() implies holds_lock(c, #[trigger] c.players[i]) by {
        if i < s.players.len() {
            assert(c.players[i] == s.players[i]);
            assert(holds_lock(s, s.players[i]));
        }
    }
    lemma_locks_disconnect(s, name);
    if forall|j: int| 0 <= j < s.players.len() ==> !fights(#[trigger] s.players[j], npc) {
        lemma_locks_respawn(s, npc, room);
    }
    if ses.connected {
        law_combat_locks(s, ses.name, line);
    }
}

proof fn lemma_locks_respawn(s: ServerView, npc: Seq<char>, room: Seq<char>)
    requires
        locks_held(s),
        forall|j: int| 0 <= j < s.players.len() ==> !fights(#[trigger] s.players[j], npc),
    ensures
        locks_held(crate::server::session::respawn_spec(s, npc, room)),
{
    let s1 = match lookup(s.world.npcs, npc) {
        Some(n) => {
            let n2 = NpcView {
                stats: crate::server::world::Stats { hp: n.stats.max_hp, ..n.stats },
                engaged_by: None,
                ..n
            };
            lemma_lock_set_npc(s, npc, n2);
            crate::server::commands::set_npc(s, npc, n2)
        },
        None => s,
    };
    let li = key_pos(s1.world.world.locations, room);
    if li >= 0 {
        let loc = s1.world.world.locations[li].1;
        if !loc.npcs.contains(npc) {
            let s2 = crate::server::game::with_location(
                s1,
                li,
                crate::server::world::LocationView { npcs: loc.npcs.push(npc), ..loc },
            );
            lemma_same_fights(s1, s2);
        }
    }
}

/// Where a key stands depends on the keys alone.
proof fn lemma_key_pos_same_keys<V>(m1: Seq<(Seq<char>, V)>, m2: Seq<(Seq<char>, V)>, k: Seq<char>)
    requires
        m1.len() == m2.len(),
        forall|j: int| 0 <= j < m1.len() ==> #[trigger] m1[j].0 == m2[j].0,
    ensures
        key_pos(m1, k) == key_pos(m2, k),
    decreases m1.len(),
{
    if m1.len() > 0 {
        assert(m1[0].0 == m2[0].0);
        assert forall|j: int| 0 <= j < m1.len() - 1 implies #[trigger] m1.drop_first()[j].0
            == m2.drop_first()[j].0 by {
            assert(m1[j + 1].0 == m2[j + 1].0);
        }
        lemma_key_pos_same_keys(m1.drop_first(), m2.drop_first(), k);
    }
}

proof fn lemma_locks_disconnect(s: ServerView, name: Seq<char>)
    requires
        server_ok(s),
        locks_held(s),
    ensures
        locks_held(disconnect_spec(s, name).0),
{
    if name.len() > 0 {
        crate::server::game::lemma_player_pos(s.players, name);
        let i = player_pos(s.players, name);
        let s1 = if i < 0 {
            s
        } else {
            ServerView { players: s.players.remove(i), ..s }
        };
        assert forall|j: int| 0 <= j < s1.players.len() implies holds_lock(s1, #[trigger] s1.players[j])
            && s1.players[j].name != name by {
            if i >= 0 && j >= i {
                assert(s1.players[j] == s.players[j + 1]);
                assert(holds_lock(s, s.players[j + 1]));
                assert(s.players[i].name != s.players[j + 1].name);
            } else {
                assert(s1.players[j] == s.players[j]);
                assert(holds_lock(s, s.players[j]));
            }
        }
        let s2 = crate::server::game::release_npcs(s1, name);
        assert forall|j: int| 0 <= j < s2.players.len() implies holds_lock(s2, #[trigger] s2.players[j]) by {
            let p = s1.players[j];
            assert(holds_lock(s1, p));
            assert(p.name != name);
            match p.target_npc {
                Some(t) => {
                    let m = s1.world.npcs;
                    lemma_key_pos(m, t);
                    crate::server::game::lemma_release_npcs(s1, name);
                    lemma_key_pos_same_keys(m, s2.world.npcs, t);
                    let k = key_pos(m, t);
                    if k >= 0 {
                        assert(s2.world.npcs[k] == crate::server::game::released(m[k], name));
                    }
                },
                None => {},
            }
        }
        let (s3, o) = crate::server::game::leave_group_spec(s2, name);
        crate::server::game::lemma_player_pos(s2.players, name);
        assert(player_pos(s2.players, name) < 0);
    }
}


/// Bringing an NPC back twice is bringing it back once: full health, free, and in the room
/// once.
pub proof fn law_respawn_once(s: ServerView, npc: Seq<char>, room: Seq<char>)
    requires
        server_ok(s),
    ensures
        crate::server::session::respawn_spec(crate::server::session::respawn_spec(s, npc, room), npc, room)
            == crate::server::session::respawn_spec(s, npc, room),
{
    let r1 = crate::server::session::respawn_spec(s, npc, room);
    let s1 = match lookup(s.world.npcs, npc) {
        Some(n) => crate::server::commands::set_npc(
            s,
            npc,
            NpcView {
                stats: crate::server::world::Stats { hp: n.stats.max_hp, ..n.stats },
                engaged_by: None,
                ..n
            },
        ),
        None => s,
    };
    lemma_key_pos(s.world.npcs, npc);
    match lookup(s.world.npcs, npc) {
        Some(n) => {
            let n2 = NpcView {
                stats: crate::server::world::Stats { hp: n.stats.max_hp, ..n.stats },
                engaged_by: None,
                ..n
            };
            lemma_lookup_set_npc(s, npc, n2, npc);
            crate::server::game::lemma_ok_with_npc(s, key_pos(s.world.npcs, npc), n2);
        },
        None => {},
    }
    let li = key_pos(s1.world.world.locations, room);
    lemma_key_pos(s1.world.world.locations, room);
    if li >= 0 {
        let loc = s1.world.world.locations[li].1;
        if !loc.npcs.contains(npc) {
            let l2 = crate::server::world::LocationView { npcs: loc.npcs.push(npc), ..loc };
            crate::server::game::lemma_ok_with_location(s1, li, l2);
            assert(l2.npcs[loc.npcs.len() as int] == npc);
        }
    }
    lemma_key_pos(r1.world.npcs, npc);
    lemma_key_pos(r1.world.world.locations, room);
    match lookup(r1.world.npcs, npc) {
        Some(m) => {
            let m2 = NpcView {
                stats: crate::server::world::Stats { hp: m.stats.max_hp, ..m.stats },
                engaged_by: None,
                ..m
            };
            assert(m2 == m);
            let k = key_pos(r1.world.npcs, npc);
            assert(r1.world.npcs.update(k, (r1.world.npcs[k].0, m2)) =~= r1.world.npcs);
        },
        None => {},
    }
}


/// A sound journal: no quest is accepted twice, completed twice, or both accepted and
/// completed.
pub open spec fn journal_ok(p: PlayerView) -> bool {
    &&& p.quest_to_do.no_duplicates()
    &&& p.quest_dine.no_duplicates()
    &&& forall|q: Seq<char>| !(p.quest_to_do.contains(q) && #[trigger] p.quest_dine.contains(q))
}

pub open spec fn journals_ok(s: ServerView) -> bool {
    forall|i: int| 0 <= i < s.players.len() ==> journal_ok(#[trigger] s.players[i])
}

/// The same players' journals.
pub open spec fn same_journals(a: ServerView, b: ServerView) -> bool {
    &&& a.players.len() == b.players.len()
    &&& forall|j: int|
        0 <= j < a.players.len() ==> (#[trigger] a.players[j]).quest_to_do == b.players[j].quest_to_do
            && a.players[j].quest_dine == b.players[j].quest_dine
}

proof fn lemma_same_journals(a: ServerView, b: ServerView)
    requires
        journals_ok(a),
        same_journals(a, b),
    ensures
        journals_ok(b),
{
    assert forall|i: int| 0 <= i < b.players.len() implies journal_ok(#[trigger] b.players[i]) by {
        assert(journal_ok(a.players[i]));
        assert(b.players[i].quest_to_do == a.players[i].quest_to_do);
        assert(b.players[i].quest_dine == a.players[i].quest_dine);
    }
}

proof fn lemma_remove_all(s: Seq<Seq<char>>, x: Seq<char>)
    ensures
        forall|y: Seq<char>| #[trigger] crate::text::remove_all(s, x).contains(y) <==> (s.contains(y) && y != x),
        s.no_duplicates() ==> crate::text::remove_all(s, x).no_duplicates(),
    decreases s.len(),
{
    if s.len() > 0 {
        let t = s.drop_last();
        lemma_remove_all(t, x);
        let r = crate::text::remove_all(t, x);
        assert forall|y: Seq<char>| s.contains(y) <==> (t.contains(y) || y == s.last()) by {
            if s.contains(y) {
                let k = choose|k: int| 0 <= k < s.len() && s[k] == y;
                if k < s.len() - 1 {
                    assert(t[k] == y);
                }
            }
            if t.contains(y) {
                let k = choose|k: int| 0 <= k < t.len() && t[k] == y;
                assert(s[k] == y);
            }
            if y == s.last() {
                assert(s[s.len() - 1] == y);
            }
        }
        if s.last() != x {
            assert forall|y: Seq<char>| r.push(s.last()).contains(y) <==> (r.contains(y) || y == s.last()) by {
                if r.push(s.last()).contains(y) {
                    let k = choose|k: int| 0 <= k < r.push(s.last()).len() && r.push(s.last())[k] == y;
                    if k < r.len() {
                        assert(r[k] == y);
                    }
                }
                if r.contains(y) {
                    let k = choose|k: int| 0 <= k < r.len() && r[k] == y;
                    assert(r.push(s.last())[k] == y);
                }
                if y == s.last() {
                    assert(r.push(s.last())[r.len() as int] == y);
                }
            }
            if s.no_duplicates() {
                assert(t.no_duplicates());
                assert(!t.contains(s.last())) by {
                    if t.contains(s.last()) {
                        let k = choose|k: int| 0 <= k < t.len() && t[k] == s.last();
                        assert(s[k] == s[s.len() - 1]);
                    }
                }
                assert(!r.contains(s.last()));
                let rp = r.push(s.last());
                assert forall|a: int, b: int| 0 <= a < b < rp.len() implies rp[a] != rp[b] by {
                    if b == r.len() {
                        assert(r.contains(rp[a]));
                    } else {
                        assert(rp[a] == r[a] && rp[b] == r[b]);
                    }
                }
            }
        } else {
            if s.no_duplicates() {
                assert(t.no_duplicates());
            }
        }
        assert forall|y: Seq<char>| #[trigger] crate::text::remove_all(s, x).contains(y) <==> (s.contains(
            y,
        ) && y != x) by {
            assert(s.contains(y) <==> (t.contains(y) || y == s.last()));
            assert(r.contains(y) <==> (t.contains(y) && y != x));
        }
    }
}

proof fn lemma_journals_simple(s: ServerView, name: Seq<char>, rest: Option<Seq<char>>)
    requires
        server_ok(s),
    ensures
        same_journals(s, look_spec(s, name).state),
        same_journals(s, move_spec(s, name, rest).state),
        same_journals(s, chat_spec(s, name, rest).state),
        same_journals(s, who_spec(s, name).state),
        same_journals(s, status_spec(s, name).state),
        same_journals(s, inventory_spec(s, name).state),
        same_journals(s, quests_spec(s, name).state),
        same_journals(s, take_spec(s, name, rest).state),
        same_journals(s, drop_spec(s, name, rest).state),
        same_journals(s, talk_spec(s, name, rest).state),
{
    crate::server::game::lemma_player_pos(s.players, name);
}

proof fn lemma_journals_group(s: ServerView, name: Seq<char>, rest: Option<Seq<char>>)
    requires
        server_ok(s),
    ensures
        same_journals(s, group_spec(s, name, rest).state),
{
    crate::server::game::lemma_player_pos(s.players, name);
    match rest {
        Some(r) => {
            let g = crate::text::splitn(r, 2, ' ');
            let arg = crate::text::piece(g, 1);
            if arg is Some {
                crate::server::game::lemma_player_pos(s.players, arg->0);
            }
            assert(same_journals(s, group_spec(s, name, rest).state));
        },
        None => {},
    }
}

proof fn lemma_journals_combat(s: ServerView, name: Seq<char>, rest: Option<Seq<char>>)
    requires
        server_ok(s),
    ensures
        same_journals(s, attack_spec(s, name, rest).state),
        same_journals(s, defend_spec(s, name).state),
        same_journals(s, flee_spec(s, name).state),
{
    crate::server::game::lemma_player_pos(s.players, name);
    assert(same_journals(s, engage_spec(s, name, rest).state));
    if fighting(s, name) {
        let i = player_pos(s.players, name);
        let p = s.players[i];
        match p.target_npc {
            Some(id) => match lookup(s.world.npcs, id) {
                Some(n) => if n.stats.hp != 0 {
                    let nhp = crate::server::commands::sat_sub(n.stats.hp, p.pv);
                    let n1 = NpcView { stats: crate::server::world::Stats { hp: nhp, ..n.stats }, ..n };
                    let s1 = crate::server::commands::set_npc(s, id, n1);
                    assert(s1.players == s.players);
                    if nhp == 0 {
                        let delay: u32 = match n.respawn_seconds {
                            Some(d) => d,
                            None => 30,
                        };
                        let w = win_spec(s1, i, name, id, delay);
                        assert(same_journals(s, w.state));
                    } else {
                        let dmg: u32 = match n.stats.damage {
                            Some(d) => d,
                            None => 0,
                        };
                        let php = crate::server::commands::sat_sub(p.hp, dmg);
                        let s2 = crate::server::game::with_player(s1, i, PlayerView { hp: php, ..p });
                        assert(same_journals(s, s2));
                        let d = death_spec(s2, i, name, id, nhp, "attack"@, p.pv, dmg);
                        assert(same_journals(s2, d.state));
                    }
                } else {
                },
                None => {},
            },
            None => {},
        }
        assert(same_journals(s, strike_spec(s, name).state));
    }
}

proof fn lemma_journal_quest(s: ServerView, name: Seq<char>, rest: Option<Seq<char>>)
    requires
        server_ok(s),
        journals_ok(s),
    ensures
        journals_ok(quest_spec(s, name, rest).state),
{
    crate::server::game::lemma_player_pos(s.players, name);
    let i = player_pos(s.players, name);
    match rest {
        Some(r) => if i >= 0 {
            let p = s.players[i];
            assert(journal_ok(p));
            let quests = s.world.quests;
            match crate::server::commands::find_npc_spec(s.world, p.room, crate::text::trim(r)) {
                Some(id) => {
                    let offered = match lookup(s.world.npcs, id) {
                        Some(n) => n.quests,
                        None => Seq::empty(),
                    };
                    let fa = crate::server::commands::in_list(p.quest_to_do);
                    let fb = crate::server::commands::not_in_list(p.quest_dine);
                    let a = crate::text::first_pos(offered, fa);
                    let b = crate::text::first_pos(offered, fb);
                    crate::text::lemma_first_pos(offered, fa);
                    crate::text::lemma_first_pos(offered, fb);
                    if offered.len() > 0 && a >= 0 {
                        let qid = offered[a];
                        assert(p.quest_to_do.contains(qid));
                        lemma_remove_all(p.quest_to_do, qid);
                        let to_do = crate::text::remove_all(p.quest_to_do, qid);
                        let dine = p.quest_dine.push(qid);
                        assert(!p.quest_dine.contains(qid));
                        assert forall|x: int, y: int| 0 <= x < y < dine.len() implies dine[x] != dine[y] by {
                            if y == p.quest_dine.len() {
                                assert(p.quest_dine.contains(dine[x]));
                            }
                        }
                        assert forall|q: Seq<char>| !(to_do.contains(q) && #[trigger] dine.contains(q)) by {
                            assert(to_do.contains(q) <==> (p.quest_to_do.contains(q) && q != qid));
                            if dine.contains(q) && q != qid {
                                let k = choose|k: int| 0 <= k < dine.len() && dine[k] == q;
                                if k < p.quest_dine.len() {
                                    assert(p.quest_dine[k] == q);
                                    assert(p.quest_dine.contains(q));
                                } else {
                                    assert(dine[k] == qid);
                                }
                            }
                        }
                        lemma_journal_update(s, i);
                    } else if offered.len() > 0 && b >= 0 {
                        let qid = offered[b];
                        assert(!p.quest_dine.contains(qid));
                        assert(!p.quest_to_do.contains(qid)) by {
                            if p.quest_to_do.contains(qid) {
                                assert(fa(offered[b]));
                            }
                        }
                        let to_do = p.quest_to_do.push(qid);
                        assert forall|x: int, y: int| 0 <= x < y < to_do.len() implies to_do[x] != to_do[y] by {
                            if y == p.quest_to_do.len() {
                                assert(p.quest_to_do.contains(to_do[x]));
                            }
                        }
                        assert forall|q: Seq<char>| !(to_do.contains(q) && #[trigger] p.quest_dine.contains(q)) by {
                            if to_do.contains(q) && q != qid {
                                let k = choose|k: int| 0 <= k < to_do.len() && to_do[k] == q;
                                if k < p.quest_to_do.len() {
                                    assert(p.quest_to_do[k] == q);
                                }
                            }
                        }
                        lemma_journal_update(s, i);
                    }
                },
                None => {},
            }
        },
        None => {},
    }
}

/// Replacing player `i` by one whose journal is sound keeps every journal sound.
proof fn lemma_journal_update(s: ServerView, i: int)
    requires
        journals_ok(s),
        0 <= i < s.players.len(),
    ensures
        forall|p: PlayerView|
            journal_ok(p) ==> journals_ok(#[trigger] crate::server::game::with_player(s, i, p)),
{
    assert forall|p: PlayerView| journal_ok(p) implies journals_ok(
        #[trigger] crate::server::game::with_player(s, i, p),
    ) by {
        let s2 = crate::server::game::with_player(s, i, p);
        assert forall|j: int| 0 <= j < s2.players.len() implies journal_ok(#[trigger] s2.players[j]) by {
            if j != i {
                assert(journal_ok(s.players[j]));
            }
        }
    }
}

/// Each quest is rewarded at most once: every command, connection and departure keeps each
/// journal free of a quest accepted twice, completed twice, or both accepted and completed.
pub proof fn law_quests_once(s: ServerView, name: Seq<char>, line: Seq<char>, clone_ok: bool)
    requires
        server_ok(s),
        journals_ok(s),
    ensures
        journals_ok(command_spec(s, name, line).state),
        journals_ok(connect_spec(s, line, clone_ok).0),
        journals_ok(disconnect_spec(s, name).0),
{
    let rest = crate::server::commands::command_rest(line);
    lemma_journals_simple(s, name, rest);
    lemma_journals_group(s, name, rest);
    lemma_journals_combat(s, name, rest);
    lemma_journal_quest(s, name, rest);
    lemma_same_journals(s, look_spec(s, name).state);
    lemma_same_journals(s, move_spec(s, name, rest).state);
    lemma_same_journals(s, chat_spec(s, name, rest).state);
    lemma_same_journals(s, who_spec(s, name).state);
    lemma_same_journals(s, status_spec(s, name).state);
    lemma_same_journals(s, inventory_spec(s, name).state);
    lemma_same_journals(s, quests_spec(s, name).state);
    lemma_same_journals(s, take_spec(s, name, rest).state);
    lemma_same_journals(s, drop_spec(s, name, rest).state);
    lemma_same_journals(s, talk_spec(s, name, rest).state);
    lemma_same_journals(s, group_spec(s, name, rest).state);
    lemma_same_journals(s, attack_spec(s, name, rest).state);
    lemma_same_journals(s, defend_spec(s, name).state);
    lemma_same_journals(s, flee_spec(s, name).state);
    let c = connect_spec(s, line, clone_ok).0;
    assert forall|i: int| 0 <= i < c.players.len() implies journal_ok(#[trigger] c.players[i]) by {
        if i < s.players.len() {
            assert(c.players[i] == s.players[i]);
        }
    }
    lemma_journals_disconnect(s, name);
}

proof fn lemma_journals_disconnect(s: ServerView, name: Seq<char>)
    requires
        server_ok(s),
        journals_ok(s),
    ensures
        journals_ok(disconnect_spec(s, name).0),
{
    if name.len() > 0 {
        crate::server::game::lemma_player_pos(s.players, name);
        let i = player_pos(s.players, name);
        let s1 = if i < 0 {
            s
        } else {
            ServerView { players: s.players.remove(i), ..s }
        };
        assert forall|j: int| 0 <= j < s1.players.len() implies journal_ok(#[trigger] s1.players[j]) by {
            if i >= 0 && j >= i {
                assert(s1.players[j] == s.players[j + 1]);
            } else {
                assert(s1.players[j] == s.players[j]);
            }
        }
        let s2 = crate::server::game::release_npcs(s1, name);
        assert(s2.players == s1.players);
        crate::server::game::lemma_player_pos(s2.players, name);
        assert(player_pos(s2.players, name) < 0) by {
            if player_pos(s2.players, name) >= 0 {
                let k = player_pos(s2.players, name);
                if i >= 0 && k >= i {
                    assert(s2.players[k] == s.players[k + 1]);
                } else {
                    assert(s2.players[k] == s.players[k]);
                }
            }
        }
    }
}


/// No NPC has more health than before: the NPCs keep their places and ids.
pub open spec fn no_healing(a: ServerView, b: ServerView) -> bool {
    &&& a.world.npcs.len() == b.world.npcs.len()
    &&& forall|k: int|
        0 <= k < a.world.npcs.len() ==> (#[trigger] b.world.npcs[k]).0 == a.world.npcs[k].0
            && b.world.npcs[k].1.stats.hp <= a.world.npcs[k].1.stats.hp
}

proof fn lemma_no_healing_set_npc(s: ServerView, id: Seq<char>, n: NpcView)
    requires
        lookup(s.world.npcs, id) matches Some(m) && n.stats.hp <= m.stats.hp,
    ensures
        no_healing(s, crate::server::commands::set_npc(s, id, n)),
{
    lemma_key_pos(s.world.npcs, id);
}

proof fn lemma_no_healing_free(s: ServerView, id: Seq<char>)
    ensures
        no_healing(s, crate::server::commands::free_npc(s, id)),
{
    lemma_key_pos(s.world.npcs, id);
}

proof fn lemma_no_healing_trans(a: ServerView, b: ServerView, c: ServerView)
    requires
        no_healing(a, b),
        no_healing(b, c),
    ensures
        no_healing(a, c),
{
    assert forall|k: int| 0 <= k < a.world.npcs.len() implies (#[trigger] c.world.npcs[k]).0
        == a.world.npcs[k].0 && c.world.npcs[k].1.stats.hp <= a.world.npcs[k].1.stats.hp by {
        assert(b.world.npcs[k].0 == a.world.npcs[k].0);
    }
}

proof fn lemma_no_healing_strike(s: ServerView, name: Seq<char>)
    requires
        server_ok(s),
        fighting(s, name),
    ensures
        no_healing(s, strike_spec(s, name).state),
{
    crate::server::game::lemma_player_pos(s.players, name);
    let i = player_pos(s.players, name);
    let p = s.players[i];
    match p.target_npc {
        None => {},
        Some(id) => match lookup(s.world.npcs, id) {
            None => {},
            Some(n) => if n.stats.hp == 0 {
                lemma_no_healing_free(s, id);
            } else {
                let nhp = crate::server::commands::sat_sub(n.stats.hp, p.pv);
                let n1 = NpcView { stats: crate::server::world::Stats { hp: nhp, ..n.stats }, ..n };
                let s1 = crate::server::commands::set_npc(s, id, n1);
                lemma_no_healing_set_npc(s, id, n1);
                if nhp == 0 {
                    let calm = crate::server::commands::calm(p);
                    let u1 = crate::server::game::with_player(s1, i, calm);
                    assert(no_healing(s1, u1));
                    let li = key_pos(u1.world.world.locations, p.room);
                    let u2 = if li < 0 {
                        u1
                    } else {
                        let loc = u1.world.world.locations[li].1;
                        crate::server::game::with_location(
                            u1,
                            li,
                            crate::server::world::LocationView {
                                npcs: crate::text::remove_all(loc.npcs, id),
                                ..loc
                            },
                        )
                    };
                    assert(no_healing(u1, u2));
                    lemma_no_healing_free(u2, id);
                    lemma_no_healing_trans(s, s1, u1);
                    lemma_no_healing_trans(s, u1, u2);
                    lemma_no_healing_trans(s, u2, crate::server::commands::free_npc(u2, id));
                } else {
                    let dmg: u32 = match n.stats.damage {
                        Some(d) => d,
                        None => 0,
                    };
                    let php = crate::server::commands::sat_sub(p.hp, dmg);
                    let s2 = crate::server::game::with_player(s1, i, PlayerView { hp: php, ..p });
                    lemma_no_healing_free(s2, id);
                    lemma_no_healing_trans(s, s1, s2);
                    lemma_no_healing_trans(s, s2, crate::server::commands::free_npc(s2, id));
                }
            },
        },
    }
}

/// Wounds persist: no command, connection or departure gives an NPC health back; only
/// bringing it back after its defeat does.
pub proof fn law_wounds_persist(s: ServerView, name: Seq<char>, line: Seq<char>, clone_ok: bool)
    requires
        server_ok(s),
    ensures
        no_healing(s, command_spec(s, name, line).state),
        no_healing(s, connect_spec(s, line, clone_ok).0),
        no_healing(s, disconnect_spec(s, name).0),
{
    let rest = crate::server::commands::command_rest(line);
    lemma_fights_simple(s, name, rest);
    lemma_fights_group(s, name, rest);
    lemma_fights_items(s, name, rest);
    crate::server::game::lemma_player_pos(s.players, name);
    match crate::server::commands::foe(s, name) {
        Some(id) => {
            lemma_no_healing_free(s, id);
            let i = player_pos(s.players, name);
            let p = s.players[i];
            let dmg: u32 = match lookup(s.world.npcs, id) {
                Some(n) => match n.stats.damage {
                    Some(d) => d,
                    None => 0,
                },
                None => 0,
            };
            let php = crate::server::commands::sat_sub(p.hp, (dmg / 2) as u32);
            let s1 = crate::server::game::with_player(s, i, PlayerView { hp: php, ..p });
            lemma_no_healing_free(s1, id);
            lemma_no_healing_trans(s, s1, crate::server::commands::free_npc(s1, id));
        },
        None => {},
    }
    if fighting(s, name) {
        lemma_no_healing_strike(s, name);
    } else {
        let i = player_pos(s.players, name);
        match rest {
            Some(r) => if i >= 0 {
                let p = s.players[i];
                match crate::server::commands::find_npc_spec(s.world, p.room, crate::text::trim(r)) {
                    Some(id) => match lookup(s.world.npcs, id) {
                        Some(n) => {
                            lemma_no_healing_set_npc(s, id, NpcView { engaged_by: Some(name), ..n });
                        },
                        None => {},
                    },
                    None => {},
                }
            },
            None => {},
        }
    }
    if name.len() > 0 {
        let i = player_pos(s.players, name);
        let s1 = if i < 0 {
            s
        } else {
            ServerView { players: s.players.remove(i), ..s }
        };
        crate::server::game::lemma_release_npcs(s1, name);
    }
}

/// A player who leaves frees at once every NPC they were fighting.
pub proof fn law_departure_frees(s: ServerView, name: Seq<char>, k: int)
    requires
        server_ok(s),
        name.len() > 0,
        0 <= k < s.world.npcs.len(),
    ensures
        disconnect_spec(s, name).0.world.npcs[k].1.engaged_by != Some(name),
{
    crate::server::game::lemma_player_pos(s.players, name);
    let i = player_pos(s.players, name);
    let s1 = if i < 0 {
        s
    } else {
        ServerView { players: s.players.remove(i), ..s }
    };
    crate::server::game::lemma_release_npcs(s1, name);
    let s2 = crate::server::game::release_npcs(s1, name);
    crate::server::game::lemma_player_pos(s2.players, name);
}


/// Dropping an item just taken puts it back: the room holds the same items again (the item
/// now last in its list) and the player's hand is as it was; the quest progress the taking
/// made stays. Stated for a take that succeeds (the id names an obtainable item lying in the
/// player's room) and where nothing already in hand answers to the id.
pub proof fn law_drop_undoes_take(s: ServerView, name: Seq<char>, id: Seq<char>)
    requires
        server_ok(s),
        present(s, name),
        crate::text::trim(id) == id,
        id.len() > 0,
        lookup(s.world.items, id) matches Some(it) && it.obtainable,
        lookup(s.world.world.locations, s.players[player_pos(s.players, name)].room) matches Some(
            loc,
        ) && loc.items.contains(id),
        forall|j: int|
            0 <= j < s.players[player_pos(s.players, name)].inventory.len()
                ==> !crate::server::commands::drop_matches(
                #[trigger] s.players[player_pos(s.players, name)].inventory[j],
                s.world.items,
                id,
            ),
    ensures
        ({
            let i = player_pos(s.players, name);
            let room = s.players[i].room;
            let d = drop_spec(take_spec(s, name, Some(id)).state, name, Some(id)).state;
            &&& d.players[i].inventory == s.players[i].inventory
            &&& d.players[i].room == room
            &&& lookup(d.world.world.locations, room) matches Some(l2) && l2.items.to_multiset()
                == lookup(s.world.world.locations, room)->0.items.to_multiset()
        }),
{
    crate::server::game::lemma_player_pos(s.players, name);
    let i = player_pos(s.players, name);
    let p = s.players[i];
    let locs = s.world.world.locations;
    let li = key_pos(locs, p.room);
    lemma_key_pos(locs, p.room);
    lemma_key_pos(s.world.items, id);
    let loc = locs[li].1;
    let pos = crate::text::text_pos(loc.items, id);
    crate::text::lemma_text_pos(loc.items, id);
    let l1 = crate::server::world::LocationView { items: loc.items.remove(pos), ..loc };
    let s1 = crate::server::game::with_location(s, li, l1);
    crate::server::game::lemma_ok_with_location(s, li, l1);
    let p2 = PlayerView {
        inventory: p.inventory.push(id),
        quest_progress: crate::server::commands::advance(
            p.quest_progress,
            p.quest_to_do,
            s.world.quests,
            id,
            false,
        ),
        ..p
    };
    let t = crate::server::game::with_player(s1, i, p2);
    assert(take_spec(s, name, Some(id)).state == t);
    // The drop finds the item just taken, the last thing in hand.
    crate::server::game::lemma_player_pos(t.players, name);
    assert(t.players[i].name == name);
    assert(player_pos(t.players, name) == i);
    let f = crate::server::commands::drop_pred(t.world.items, id);
    let inv2 = p2.inventory;
    assert forall|j: int| 0 <= j < p.inventory.len() implies !f(#[trigger] inv2[j]) by {
        assert(inv2[j] == p.inventory[j]);
    }
    assert(f(inv2[p.inventory.len() as int]));
    crate::text::lemma_first_pos_at(inv2, f, p.inventory.len() as int);
    assert(inv2.remove(p.inventory.len() as int) =~= p.inventory);
    assert(key_pos(t.world.world.locations, p.room) == li);
    let d = drop_spec(t, name, Some(id)).state;
    let l2 = crate::server::world::LocationView { items: l1.items.push(id), ..l1 };
    assert(d.world.world.locations[li].1 == l2);
    crate::server::game::lemma_ok_with_location(t, li, l2);
    assert(key_pos(d.world.world.locations, p.room) == li);
    broadcast use vstd::seq_lib::group_to_multiset_ensures;
    assert(l2.items.to_multiset() =~= loc.items.to_multiset().remove(id).insert(id));
    assert(loc.items.to_multiset().count(id) > 0);
    assert(loc.items.to_multiset().remove(id).insert(id) =~= loc.items.to_multiset());
}


/// Every counted step stays within its quest's total.
pub open spec fn within_totals(prog: Seq<(Seq<char>, u32)>, quests: Seq<(Seq<char>, crate::server::world::QuestView)>) -> bool {
    forall|k: int|
        0 <= k < prog.len() ==> (lookup(quests, #[trigger] prog[k].0) matches Some(q) ==> prog[k].1
            <= crate::server::commands::quest_total(q))
}

/// `b` keeps the entries of `a`, in place, each at least as far on.
pub open spec fn no_step_back(a: Seq<(Seq<char>, u32)>, b: Seq<(Seq<char>, u32)>) -> bool {
    a.len() <= b.len() && forall|k: int| 0 <= k < a.len() ==> (#[trigger] b[k]).0 == a[k].0 && b[k].1 >= a[k].1
}

proof fn lemma_bump_bounded(
    prog: Seq<(Seq<char>, u32)>,
    quests: Seq<(Seq<char>, crate::server::world::QuestView)>,
    qid: Seq<char>,
    q: crate::server::world::QuestView,
)
    requires
        within_totals(prog, quests),
        lookup(quests, qid) == Some(q),
    ensures
        within_totals(crate::server::commands::progress_bump(prog, qid, crate::server::commands::quest_total(q)), quests),
        no_step_back(prog, crate::server::commands::progress_bump(prog, qid, crate::server::commands::quest_total(q))),
{
    lemma_key_pos(prog, qid);
}

/// Counted quest progress never goes back and never passes a quest's total: advancing on a
/// taken item or a killed NPC keeps every entry in place, lowers none, and raises none past
/// its quest's total.
pub proof fn law_progress_bounded(
    prog: Seq<(Seq<char>, u32)>,
    to_do: Seq<Seq<char>>,
    quests: Seq<(Seq<char>, crate::server::world::QuestView)>,
    id: Seq<char>,
    kill: bool,
)
    requires
        within_totals(prog, quests),
    ensures
        within_totals(crate::server::commands::advance(prog, to_do, quests, id, kill), quests),
        no_step_back(prog, crate::server::commands::advance(prog, to_do, quests, id, kill)),
    decreases to_do.len(),
{
    if to_do.len() > 0 {
        law_progress_bounded(prog, to_do.drop_last(), quests, id, kill);
        let p1 = crate::server::commands::advance(prog, to_do.drop_last(), quests, id, kill);
        match lookup(quests, to_do.last()) {
            Some(q) => {
                if crate::server::commands::counts(q, id, kill) {
                    lemma_bump_bounded(p1, quests, to_do.last(), q);
                    let p2 = crate::server::commands::progress_bump(p1, to_do.last(), crate::server::commands::quest_total(q));
                    assert forall|k: int| 0 <= k < prog.len() implies (#[trigger] p2[k]).0 == prog[k].0
                        && p2[k].1 >= prog[k].1 by {
                        assert(p1[k].0 == prog[k].0 && p1[k].1 >= prog[k].1);
                    }
                }
            },
            None => {},
        }
    }
}

/// How far quest `qid` has come: its entry, or 0 where it has none yet.
pub open spec fn progress_of(prog: Seq<(Seq<char>, u32)>, qid: Seq<char>) -> u32 {
    match lookup(prog, qid) {
        Some(c) => c,
        None => 0,
    }
}

/// Whether no quest stands twice in `to_do`.
pub open spec fn no_repeats(to_do: Seq<Seq<char>>) -> bool {
    forall|a: int, b: int| 0 <= a < b < to_do.len() ==> to_do[a] != to_do[b]
}

proof fn lemma_bump_at(prog: Seq<(Seq<char>, u32)>, qid: Seq<char>, total: u32, other: Seq<char>)
    ensures
        progress_of(crate::server::commands::progress_bump(prog, qid, total), qid) == if progress_of(
            prog,
            qid,
        ) < total {
            (progress_of(prog, qid) + 1) as u32
        } else {
            progress_of(prog, qid)
        },
        other != qid ==> progress_of(crate::server::commands::progress_bump(prog, qid, total), other)
            == progress_of(prog, other),
{
    lemma_key_pos(prog, qid);
    lemma_key_pos(prog, other);
    let k = key_pos(prog, qid);
    if k < 0 {
        let p2 = prog.push((qid, if 0 < total { 1u32 } else { 0u32 }));
        lemma_key_pos(p2, qid);
        lemma_key_pos(p2, other);
        assert(p2[prog.len() as int].0 == qid);
        if other != qid {
            if key_pos(prog, other) >= 0 {
                assert(p2[key_pos(prog, other)] == prog[key_pos(prog, other)]);
            }
            if key_pos(p2, other) >= 0 {
                assert(p2[key_pos(p2, other)] == prog[key_pos(p2, other)]);
            }
        }
    } else if prog[k].1 < total {
        crate::server::world::lemma_key_pos_update(prog, k, (prog[k].1 + 1) as u32, qid);
        crate::server::world::lemma_key_pos_update(prog, k, (prog[k].1 + 1) as u32, other);
    }
}

/// One kill (or one taken item) moves each accepted quest that counts it exactly one step,
/// up to the quest's total, and leaves every other quest where it was. So a quest's progress
/// never goes back and never passes its total.
pub proof fn law_progress_step(
    prog: Seq<(Seq<char>, u32)>,
    to_do: Seq<Seq<char>>,
    quests: Seq<(Seq<char>, crate::server::world::QuestView)>,
    id: Seq<char>,
    kill: bool,
    qid: Seq<char>,
)
    requires
        within_totals(prog, quests),
        no_repeats(to_do),
    ensures
        progress_of(crate::server::commands::advance(prog, to_do, quests, id, kill), qid) == match lookup(
            quests,
            qid,
        ) {
            Some(q) => if to_do.contains(qid) && crate::server::commands::counts(q, id, kill) {
                if progress_of(prog, qid) < crate::server::commands::quest_total(q) {
                    (progress_of(prog, qid) + 1) as u32
                } else {
                    crate::server::commands::quest_total(q)
                }
            } else {
                progress_of(prog, qid)
            },
            None => progress_of(prog, qid),
        },
    decreases to_do.len(),
{
    lemma_key_pos(prog, qid);
    if to_do.len() > 0 {
        let init = to_do.drop_last();
        assert(no_repeats(init)) by {
            assert forall|a: int, b: int| 0 <= a < b < init.len() implies init[a] != init[b] by {
                assert(init[a] == to_do[a] && init[b] == to_do[b]);
            }
        }
        law_progress_step(prog, init, quests, id, kill, qid);
        let p1 = crate::server::commands::advance(prog, init, quests, id, kill);
        let last = to_do.last();
        if last == qid {
            assert(!init.contains(qid)) by {
                if init.contains(qid) {
                    let a = choose|a: int| 0 <= a < init.len() && init[a] == qid;
                    assert(to_do[a] == to_do[to_do.len() - 1]);
                }
            }
            assert(to_do.contains(qid)) by {
                assert(to_do[to_do.len() - 1] == qid);
            }
            match lookup(quests, qid) {
                Some(q) => {
                    lemma_bump_at(p1, qid, crate::server::commands::quest_total(q), qid);
                    if key_pos(prog, qid) >= 0 {
                        assert(prog[key_pos(prog, qid)].1 <= crate::server::commands::quest_total(q));
                    }
                },
                None => {},
            }
        } else {
            assert(to_do.contains(qid) == init.contains(qid)) by {
                if to_do.contains(qid) {
                    let a = choose|a: int| 0 <= a < to_do.len() && to_do[a] == qid;
                    assert(a < to_do.len() - 1);
                    assert(init[a] == qid);
                }
                if init.contains(qid) {
                    let a = choose|a: int| 0 <= a < init.len() && init[a] == qid;
                    assert(to_do[a] == qid);
                }
            }
            match lookup(quests, last) {
                Some(q) => {
                    lemma_bump_at(p1, last, crate::server::commands::quest_total(q), qid);
                },
                None => {},
            }
        }
    }
}

/// How many of an NPC's lines the player has heard (none before the first `TALK`).
pub open spec fn heard(p: PlayerView, id: Seq<char>) -> usize {
    match lookup(p.dialogue_progress, id) {
        Some(c) => c,
        None => 0,
    }
}

/// Each player hears an NPC's lines in turn from the first, whatever others say to it: a
/// `TALK` that reaches an NPC with lines answers the line at the count of this player's
/// earlier calls to that NPC (modulo the number of lines), counts one call more (the count
/// wraps at the largest `usize`), leaves this player's other counts, every other player and
/// the world as they were. A newly connected player has heard nothing.
pub proof fn law_talk_turns(s: ServerView, name: Seq<char>, r: Seq<char>, other: Seq<char>, room: Seq<char>)
    requires
        present(s, name),
    ensures
        heard(crate::server::player::fresh_player(name, room), other) == 0,
        ({
            let i = player_pos(s.players, name);
            let p = s.players[i];
            let e = talk_spec(s, name, Some(r));
            &&& e.state.world == s.world
            &&& e.state.players.len() == s.players.len()
            &&& forall|j: int| 0 <= j < s.players.len() && j != i ==> e.state.players[j] == s.players[j]
            &&& match crate::server::commands::find_npc_spec(s.world, p.room, crate::text::trim(r)) {
                Some(id) => match lookup(s.world.npcs, id) {
                    Some(n) => n.dialogue.len() > 0 ==> {
                        &&& e.out == seq![
                            crate::server::reply::reply_caller(
                                crate::server::reply::ReplyView::Talk(
                                    id,
                                    n.dialogue[(heard(p, id) as int) % (n.dialogue.len() as int)],
                                ),
                            ),
                        ]
                        &&& heard(e.state.players[i], id) == if heard(p, id) == usize::MAX {
                            0
                        } else {
                            (heard(p, id) + 1) as usize
                        }
                        &&& other != id ==> heard(e.state.players[i], other) == heard(p, other)
                    },
                    None => true,
                },
                None => true,
            }
        }),
{
    crate::server::game::lemma_player_pos(s.players, name);
    let i = player_pos(s.players, name);
    let p = s.players[i];
    let dp = p.dialogue_progress;
    match crate::server::commands::find_npc_spec(s.world, p.room, crate::text::trim(r)) {
        Some(id) => match lookup(s.world.npcs, id) {
            Some(n) => if n.dialogue.len() > 0 {
                let k = key_pos(dp, id);
                lemma_key_pos(dp, id);
                lemma_key_pos(dp, other);
                let c: usize = if k < 0 { 0 } else { dp[k].1 };
                let c2: usize = if c == usize::MAX { 0 } else { (c + 1) as usize };
                if k < 0 {
                    let d2 = dp.push((id, c2));
                    lemma_key_pos(d2, id);
                    lemma_key_pos(d2, other);
                    assert(d2[dp.len() as int].0 == id);
                    if other != id {
                        if key_pos(dp, other) >= 0 {
                            assert(d2[key_pos(dp, other)] == dp[key_pos(dp, other)]);
                        }
                        if key_pos(d2, other) >= 0 {
                            assert(d2[key_pos(d2, other)] == dp[key_pos(d2, other)]);
                        }
                    }
                } else {
                    crate::server::world::lemma_key_pos_update(dp, k, c2, id);
                    crate::server::world::lemma_key_pos_update(dp, k, c2, other);
                }
            },
            None => {},
        },
        None => {},
    }
}

/// Only the players' dialogue counts differ between `a` and `b`.
pub open spec fn only_talk_changed(a: ServerView, b: ServerView) -> bool {
    &&& b.world == a.world
    &&& b.next_group_id == a.next_group_id
    &&& b.players.len() == a.players.len()
    &&& forall|j: int|
        0 <= j < a.players.len() ==> #[trigger] b.players[j] == (PlayerView {
            dialogue_progress: b.players[j].dialogue_progress,
            ..a.players[j]
        })
}

/// The state after the lines of `calls` were handled one after the other, each line with the
/// name of the player who sent it.
pub open spec fn talks(s: ServerView, calls: Seq<(Seq<char>, Seq<char>)>) -> ServerView
    decreases calls.len(),
{
    if calls.len() == 0 {
        s
    } else {
        command_spec(talks(s, calls.drop_last()), calls.last().0, calls.last().1).state
    }
}

/// Whether `line` from `name` is a `TALK` that reaches NPC `id`, the caller's room and fight
/// read in `s`.
pub open spec fn talk_reaches(s: ServerView, name: Seq<char>, line: Seq<char>, id: Seq<char>) -> bool {
    &&& crate::server::commands::command_word(line) == "TALK"@
    &&& present(s, name)
    &&& !fighting(s, name)
    &&& crate::server::commands::command_rest(line) matches Some(r)
        && crate::server::commands::find_npc_spec(
        s.world,
        s.players[player_pos(s.players, name)].room,
        crate::text::trim(r),
    ) == Some(id)
}

/// How many of `calls` are `TALK` lines of `name` that reach `id`, rooms and fights read in `s`.
pub open spec fn talks_to(s: ServerView, calls: Seq<(Seq<char>, Seq<char>)>, name: Seq<char>, id: Seq<char>) -> nat
    decreases calls.len(),
{
    if calls.len() == 0 {
        0
    } else {
        talks_to(s, calls.drop_last(), name, id) + if calls.last().0 == name && talk_reaches(
            s,
            name,
            calls.last().1,
            id,
        ) {
            1nat
        } else {
            0nat
        }
    }
}

proof fn lemma_pos_same_names(a: Seq<PlayerView>, b: Seq<PlayerView>, n: Seq<char>)
    requires
        a.len() == b.len(),
        forall|j: int| 0 <= j < a.len() ==> #[trigger] a[j].name == b[j].name,
    ensures
        player_pos(a, n) == player_pos(b, n),
{
    crate::server::game::lemma_player_pos(a, n);
    crate::server::game::lemma_player_pos(b, n);
    let i = player_pos(a, n);
    let k = player_pos(b, n);
    if i >= 0 {
        assert(b[i].name == n);
    }
    if k >= 0 {
        assert(a[k].name == n);
    }
}

/// A line whose command word is `TALK` is refused in a fight and is a `TALK` otherwise.
proof fn lemma_talk_command(s: ServerView, c: Seq<char>, line: Seq<char>)
    requires
        crate::server::commands::command_word(line) == "TALK"@,
    ensures
        command_spec(s, c, line) == if fighting(s, c) {
            crate::server::commands::refused(s, "409 IN_COMBAT"@)
        } else {
            talk_spec(s, c, crate::server::commands::command_rest(line))
        },
{
    reveal_strlit("TALK");
    reveal_strlit("CONNECT");
    reveal_strlit("LOOK");
    reveal_strlit("MOVE");
    reveal_strlit("QUIT");
    reveal_strlit("CHAT");
    reveal_strlit("WHO");
    reveal_strlit("GROUP");
    reveal_strlit("TAKE");
    reveal_strlit("DROP");
    reveal_strlit("INVENTORY");
    reveal_strlit("ATTACK");
    reveal_strlit("DEFEND");
    reveal_strlit("FLEE");
    reveal_strlit("STATUS");
    let w = "TALK"@;
    assert(w.len() == 4 && w[0] == 'T' && w[1] == 'A' && w[2] == 'L');
    assert(w != "CONNECT"@ && w != "LOOK"@ && w != "MOVE"@ && w != "QUIT"@ && w != "CHAT"@);
    assert(w != "WHO"@ && w != "GROUP"@ && w != "TAKE"@ && w != "DROP"@ && w != "INVENTORY"@);
    assert(w != "ATTACK"@ && w != "DEFEND"@ && w != "FLEE"@ && w != "STATUS"@);
}

/// One `TALK` line from `c`: only dialogue counts change, and `name`'s count for `id` grows by
/// one exactly when the line is `name`'s and reaches `id`.
proof fn lemma_talk_step(
    s: ServerView,
    t: ServerView,
    c: Seq<char>,
    line: Seq<char>,
    name: Seq<char>,
    id: Seq<char>,
)
    requires
        only_talk_changed(s, t),
        crate::server::commands::command_word(line) == "TALK"@,
        present(s, name),
        lookup(s.world.npcs, id) matches Some(n) && n.dialogue.len() > 0,
        heard(t.players[player_pos(s.players, name)], id) < usize::MAX,
    ensures
        only_talk_changed(s, command_spec(t, c, line).state),
        heard(command_spec(t, c, line).state.players[player_pos(s.players, name)], id) == heard(
            t.players[player_pos(s.players, name)],
            id,
        ) + if c == name && talk_reaches(s, name, line, id) {
            1int
        } else {
            0int
        },
{
    lemma_talk_command(t, c, line);
    assert forall|j: int| 0 <= j < s.players.len() implies #[trigger] s.players[j].name
        == t.players[j].name by {
        assert(t.players[j] == (PlayerView { dialogue_progress: t.players[j].dialogue_progress, ..s.players[j] }));
    }
    lemma_pos_same_names(s.players, t.players, name);
    lemma_pos_same_names(s.players, t.players, c);
    crate::server::game::lemma_player_pos(s.players, name);
    crate::server::game::lemma_player_pos(s.players, c);
    let i = player_pos(s.players, name);
    let ic = player_pos(s.players, c);
    if ic >= 0 {
        assert(t.players[ic] == (PlayerView { dialogue_progress: t.players[ic].dialogue_progress, ..s.players[ic] }));
    }
    assert(t.players[i] == (PlayerView { dialogue_progress: t.players[i].dialogue_progress, ..s.players[i] }));
    assert(fighting(t, c) == fighting(s, c));
    let e = command_spec(t, c, line);
    let rest = crate::server::commands::command_rest(line);
    if !fighting(t, c) && ic >= 0 {
        if let Some(r) = rest {
            law_talk_turns(t, c, r, id, s.players[ic].room);
            let p = t.players[ic];
            match crate::server::commands::find_npc_spec(t.world, p.room, crate::text::trim(r)) {
                Some(id2) => match lookup(t.world.npcs, id2) {
                    Some(n2) => if n2.dialogue.len() > 0 {
                        assert(e.state.players[ic] == (PlayerView {
                            dialogue_progress: e.state.players[ic].dialogue_progress,
                            ..p
                        }));
                        assert forall|j: int| 0 <= j < s.players.len() implies #[trigger] e.state.players[j]
                            == (PlayerView {
                            dialogue_progress: e.state.players[j].dialogue_progress,
                            ..s.players[j]
                        }) by {
                            if j != ic {
                                assert(t.players[j] == (PlayerView {
                                    dialogue_progress: t.players[j].dialogue_progress,
                                    ..s.players[j]
                                }));
                            }
                        }
                        if ic == i {
                            assert(c == name);
                        } else {
                            assert(c != name);
                        }
                    },
                    None => {},
                },
                None => {},
            }
        }
    }
}

/// Each player hears an NPC's lines in turn, whatever other players say to it. After any run of
/// `TALK` lines from any players, nothing but the players' dialogue counts has changed; the
/// count of lines that `name` has heard from `id` has grown by exactly the number of those lines
/// that were `name`'s own and reached `id`; and `name`'s next `TALK` that reaches `id` answers
/// the line at that count, modulo the number of lines (a newly connected player starts at the
/// first line, see `law_talk_turns`). `TALK <a>` is such a line, with `a` as what follows.
pub proof fn law_talk_history(
    s: ServerView,
    calls: Seq<(Seq<char>, Seq<char>)>,
    name: Seq<char>,
    id: Seq<char>,
    line: Seq<char>,
    a: Seq<char>,
)
    requires
        present(s, name),
        lookup(s.world.npcs, id) matches Some(n) && n.dialogue.len() > 0,
        forall|k: int|
            0 <= k < calls.len() ==> crate::server::commands::command_word(#[trigger] calls[k].1)
                == "TALK"@,
        heard(s.players[player_pos(s.players, name)], id) + calls.len() < usize::MAX,
    ensures
        only_talk_changed(s, talks(s, calls)),
        heard(talks(s, calls).players[player_pos(s.players, name)], id) == heard(
            s.players[player_pos(s.players, name)],
            id,
        ) + talks_to(s, calls, name, id),
        talk_reaches(s, name, line, id) ==> command_spec(talks(s, calls), name, line).out == seq![
            crate::server::reply::reply_caller(
                crate::server::reply::ReplyView::Talk(
                    id,
                    lookup(s.world.npcs, id)->0.dialogue[(heard(s.players[player_pos(s.players, name)], id)
                        + talks_to(s, calls, name, id)) % (lookup(s.world.npcs, id)->0.dialogue.len() as int)],
                ),
            ),
        ],
        crate::server::commands::command_word("TALK "@ + a) == "TALK"@,
        crate::server::commands::command_rest("TALK "@ + a) == Some(a),
    decreases calls.len(),
{
    let i = player_pos(s.players, name);
    lemma_talks(s, calls, name, id);
    let t = talks(s, calls);
    if talk_reaches(s, name, line, id) {
        lemma_talk_command(t, name, line);
        assert forall|j: int| 0 <= j < s.players.len() implies #[trigger] s.players[j].name
            == t.players[j].name by {
            assert(t.players[j] == (PlayerView { dialogue_progress: t.players[j].dialogue_progress, ..s.players[j] }));
        }
        lemma_pos_same_names(s.players, t.players, name);
        crate::server::game::lemma_player_pos(s.players, name);
        assert(t.players[i] == (PlayerView { dialogue_progress: t.players[i].dialogue_progress, ..s.players[i] }));
        assert(fighting(t, name) == fighting(s, name));
        let r = crate::server::commands::command_rest(line)->0;
        law_talk_turns(t, name, r, id, s.players[i].room);
    }
    reveal_strlit("TALK ");
    reveal_strlit("TALK");
    assert("TALK "@ =~= "TALK"@ + seq![' ']);
    assert(!"TALK"@.contains(' ')) by {
        assert forall|j: int| 0 <= j < 4 implies "TALK"@[j] != ' ' by {}
    }
    crate::text::lemma_split_first("TALK"@, a, 2);
    assert("TALK"@ + seq![' '] + a =~= "TALK "@ + a);
    assert(crate::text::splitn(a, 1, ' ') == seq![a]);
    assert(crate::text::splitn("TALK "@ + a, 2, ' ') =~= seq!["TALK"@, a]);
}

proof fn lemma_talks(s: ServerView, calls: Seq<(Seq<char>, Seq<char>)>, name: Seq<char>, id: Seq<char>)
    requires
        present(s, name),
        lookup(s.world.npcs, id) matches Some(n) && n.dialogue.len() > 0,
        forall|k: int|
            0 <= k < calls.len() ==> crate::server::commands::command_word(#[trigger] calls[k].1)
                == "TALK"@,
        heard(s.players[player_pos(s.players, name)], id) + calls.len() < usize::MAX,
    ensures
        only_talk_changed(s, talks(s, calls)),
        heard(talks(s, calls).players[player_pos(s.players, name)], id) == heard(
            s.players[player_pos(s.players, name)],
            id,
        ) + talks_to(s, calls, name, id),
        talks_to(s, calls, name, id) <= calls.len(),
    decreases calls.len(),
{
    if calls.len() > 0 {
        let init = calls.drop_last();
        assert forall|k: int| 0 <= k < init.len() implies crate::server::commands::command_word(
            #[trigger] init[k].1,
        ) == "TALK"@ by {
            assert(init[k] == calls[k]);
        }
        lemma_talks(s, init, name, id);
        assert(calls.last() == calls[calls.len() - 1]);
        lemma_talk_step(s, talks(s, init), calls.last().0, calls.last().1, name, id);
    } else {
        assert(talks(s, calls) == s);
        assert forall|j: int| 0 <= j < s.players.len() implies #[trigger] s.players[j] == (PlayerView {
            dialogue_progress: s.players[j].dialogue_progress,
            ..s.players[j]
        }) by {}
    }
}

} // verus!

