//! A connection's life on the server: loading the world, the lines a connection sends
//! before and after it names its player, and what its end leaves behind.

use crate::server::commands::{command_spec, set_npc, takes_group_number};
use crate::server::game::{
    connect_spec, disconnect_spec, server_ok, with_location, world_ok, GameServer, ServerView,
};
use crate::server::reply::{out_views, respawn_view, OutView, Outgoing, Respawn, RespawnView};
use crate::server::validate::{validate_world, world_errors};
use crate::server::world::{
    find_key, key_pos, keys_unique, lemma_key_pos, lookup, table_view, GameWorld, GameWorldView, Location,
    LocationView, NpcView,
};
use crate::text::{chars_of, find_text, is_lit, lemma_text_pos, strs, trim, trim_chars};
use vstd::prelude::*;

verus! {

/// NPCs defined without a maximum hp (zero) take their starting hp as maximum.
pub open spec fn normalized(w: GameWorldView) -> GameWorldView {
    GameWorldView {
        npcs: w.npcs.map_values(
            |e: (Seq<char>, NpcView)|
                if e.1.stats.max_hp == 0 {
                    (
                        e.0,
                        NpcView {
                            stats: crate::server::world::Stats { max_hp: e.1.stats.hp, ..e.1.stats },
                            ..e.1
                        },
                    )
                } else {
                    e
                },
        ),
        ..w
    }
}

/// Gives each NPC without a maximum hp its starting hp as maximum.
pub fn normalize_stats(w: &mut GameWorld)
    ensures
        final(w)@ == normalized(old(w)@),
{
    let ghost w0 = w@;
    let mut k: usize = 0;
    while k < w.npcs.len()
        invariant
            k <= w.npcs@.len(),
            w.npcs@.len() == w0.npcs.len(),
            w@ == (GameWorldView { npcs: w@.npcs, ..w0 }),
            forall|j: int| 0 <= j < k ==> w@.npcs[j] == #[trigger] normalized(w0).npcs[j],
            forall|j: int| k <= j < w.npcs@.len() ==> w@.npcs[j] == #[trigger] w0.npcs[j],
        decreases w.npcs@.len() - k,
    {
        let ghost t0 = w.npcs@;
        if w.npcs[k].1.stats.max_hp == 0 {
            let hp = w.npcs[k].1.stats.hp;
            w.npcs[k].1.stats.max_hp = hp;
        }
        proof {
            assert forall|j: int| 0 <= j < w.npcs@.len() && j != k implies w.npcs@[j] == t0[j] by {}
        }
        k = k + 1;
    }
    assert(w@.npcs =~= normalized(w0).npcs);
}

/// Whether every id of a table occurs once.
pub fn ids_distinct<V: View>(t: &Vec<(String, V)>) -> (r: bool)
    ensures
        r == keys_unique(table_view(t@)),
{
    let ghost tv = table_view(t@);
    let mut i: usize = 0;
    while i < t.len()
        invariant
            i <= t@.len(),
            tv == table_view(t@),
            forall|a: int, b: int| 0 <= a < b < tv.len() && a < i ==> tv[a].0 != tv[b].0,
        decreases t@.len() - i,
    {
        let mut j: usize = i + 1;
        while j < t.len()
            invariant
                i < j <= t@.len(),
                tv == table_view(t@),
                forall|a: int, b: int| 0 <= a < b < tv.len() && a < i ==> tv[a].0 != tv[b].0,
                forall|b: int| i < b < j ==> tv[i as int].0 != tv[b].0,
            decreases t@.len() - j,
        {
            if crate::text::same_chars(chars_of(t[i].0.as_str()).as_slice(), chars_of(t[j].0.as_str()).as_slice()) {
                assert(tv[i as int].0 == tv[j as int].0);
                return false;
            }
            j = j + 1;
        }
        i = i + 1;
    }
    true
}

/// Whether each table of the world holds every id once, as a definition read from maps does.
pub open spec fn tables_distinct(w: GameWorldView) -> bool {
    keys_unique(w.world.locations) && keys_unique(w.items) && keys_unique(w.npcs) && keys_unique(
        w.quests,
    )
}

pub fn world_ids_distinct(w: &GameWorld) -> (r: bool)
    ensures
        r == tables_distinct(w@),
{
    ids_distinct(&w.world.locations) && ids_distinct(&w.items) && ids_distinct(&w.npcs)
        && ids_distinct(&w.quests)
}

impl GameServer {
    /// A server on a checked world, with nobody connected and group numbers from 1.
    pub fn new(world: GameWorld) -> (r: GameServer)
        requires
            world_ok(world@),
        ensures
            r@ == (ServerView { world: world@, players: Seq::empty(), next_group_id: 1 }),
            server_ok(r@),
    {
        let r = GameServer { world, players: Vec::new(), next_group_id: 1 };
        assert(r@.players =~= Seq::empty());
        r
    }

    /// Completes a world as read from its definition and checks it: the server ready to run,
    /// or every problem found, in the order `world_errors` gives.
    pub fn load_world(world: GameWorld) -> (r: Result<GameServer, Vec<String>>)
        requires
            tables_distinct(world@),
        ensures
            match r {
                Ok(g) => world_errors(normalized(world@)).len() == 0 && g@ == (ServerView {
                    world: normalized(world@),
                    players: Seq::empty(),
                    next_group_id: 1,
                }) && server_ok(g@),
                Err(e) => world_errors(normalized(world@)).len() > 0 && strs(e@) == world_errors(
                    normalized(world@),
                ),
            },
    {
        let mut world = world;
        normalize_stats(&mut world);
        let errors = validate_world(&world);
        if errors.len() > 0 {
            return Err(errors);
        }
        proof {
            crate::server::validate::lemma_checked_world(world@);
        }
        Ok(GameServer::new(world))
    }
}


/// NPC `npc` back at full health and free, and standing in `room` (once) where that room
/// exists.
pub open spec fn respawn_spec(s: ServerView, npc: Seq<char>, room: Seq<char>) -> ServerView {
    let s1 = match lookup(s.world.npcs, npc) {
        Some(n) => set_npc(
            s,
            npc,
            NpcView {
                stats: crate::server::world::Stats { hp: n.stats.max_hp, ..n.stats },
                engaged_by: None,
                ..n
            },
        ),
        None => s,
    };
    let li = key_pos(s1.world.world.locations, room);
    if li < 0 {
        s1
    } else {
        let loc = s1.world.world.locations[li].1;
        if loc.npcs.contains(npc) {
            s1
        } else {
            with_location(s1, li, LocationView { npcs: loc.npcs.push(npc), ..loc })
        }
    }
}

impl GameServer {
    /// Brings a killed NPC back once its respawn delay is over.
    pub fn respawn_npc(&mut self, npc: &str, room: &str)
        requires
            server_ok(old(self)@),
        ensures
            server_ok(final(self)@),
            final(self)@ == respawn_spec(old(self)@, npc@, room@),
    {
        let ghost s0 = self@;
        match find_key(&self.world.npcs, chars_of(npc).as_slice()) {
            Some(ni) => {
                proof {
                    lemma_key_pos(s0.world.npcs, npc@);
                }
                let ghost n0 = s0.world.npcs[ni as int].1;
                let ghost n1 = NpcView {
                    stats: crate::server::world::Stats { hp: n0.stats.max_hp, ..n0.stats },
                    engaged_by: None,
                    ..n0
                };
                let ghost t0 = self.world.npcs@;
                let m = self.world.npcs[ni].1.stats.max_hp;
                self.world.npcs[ni].1.stats.hp = m;
                self.world.npcs[ni].1.engaged_by = None;
                assert(self.world.npcs@ =~= t0.update(ni as int, self.world.npcs@[ni as int]));
                assert(self@.world.npcs =~= s0.world.npcs.update(ni as int, (s0.world.npcs[ni as int].0, n1)));
                proof {
                    crate::server::game::lemma_ok_with_npc(s0, ni as int, n1);
                }
            },
            None => {
                proof {
                    lemma_key_pos(s0.world.npcs, npc@);
                }
            },
        }
        let ghost s1 = self@;
        match find_key(&self.world.world.locations, chars_of(room).as_slice()) {
            Some(li) => {
                proof {
                    lemma_key_pos(s1.world.world.locations, room@);
                    lemma_text_pos(s1.world.world.locations[li as int].1.npcs, npc@);
                }
                if find_text(&self.world.world.locations[li].1.npcs, npc).is_none() {
                    let ghost locs0 = self.world.world.locations@;
                    let ghost loc0 = s1.world.world.locations[li as int].1;
                    self.world.world.locations[li].1.npcs.push(String::from_str(npc));
                    assert(self@.world.world.locations[li as int].1.npcs =~= loc0.npcs.push(npc@));
                    assert(self.world.world.locations@ == locs0.update(
                        li as int,
                        self.world.world.locations@[li as int],
                    ));
                    assert(self@.world.world.locations =~= s1.world.world.locations.update(
                        li as int,
                        (
                            s1.world.world.locations[li as int].0,
                            LocationView { npcs: loc0.npcs.push(npc@), ..loc0 },
                        ),
                    ));
                    proof {
                        crate::server::game::lemma_ok_with_location(
                            s1,
                            li as int,
                            LocationView { npcs: loc0.npcs.push(npc@), ..loc0 },
                        );
                    }
                }
            },
            None => {
                proof {
                    lemma_key_pos(s1.world.world.locations, room@);
                }
            },
        }
    }
}

/// Where a connection stands: whether it has named its player, and under which name.
pub struct Session {
    pub connected: bool,
    pub name: String,
}

/// What one line of a connection produced: the lines to send, an NPC to bring back later,
/// and whether the connection ends.
pub struct LineOutcome {
    pub out: Vec<Outgoing>,
    pub respawn: Option<Respawn>,
    pub close: bool,
}

pub struct SessionView {
    pub connected: bool,
    pub name: Seq<char>,
}

impl View for Session {
    type V = SessionView;

    open spec fn view(&self) -> SessionView {
        SessionView { connected: self.connected, name: self.name@ }
    }
}

/// The result of one line: the server, the lines sent, the NPC to bring back, the session,
/// and whether the connection ends.
pub struct LineEffect {
    pub state: ServerView,
    pub out: Seq<OutView>,
    pub respawn: Option<RespawnView>,
    pub session: SessionView,
    pub close: bool,
}

/// One line of a connection. A line that reads `QUIT` once trimmed ends it, after it is
/// handled as a command (or, before connecting, as a connection line). Before connecting,
/// every other line is a connection attempt; after, a command of the named player.
pub open spec fn line_spec(s: ServerView, ses: SessionView, line: Seq<char>, clone_ok: bool) -> LineEffect {
    if ses.connected {
        let e = command_spec(s, ses.name, line);
        LineEffect {
            state: e.state,
            out: e.out,
            respawn: e.respawn,
            session: ses,
            close: trim(line) == "QUIT"@,
        }
    } else {
        let (s2, out, ok, n) = connect_spec(s, line, clone_ok);
        if trim(line) == "QUIT"@ {
            LineEffect { state: s2, out, respawn: None, session: ses, close: true }
        } else {
            LineEffect {
                state: s2,
                out,
                respawn: None,
                session: SessionView { connected: ok, name: n },
                close: false,
            }
        }
    }
}

/// Whether the line needs a fresh group number.
pub open spec fn line_takes_group_number(s: ServerView, ses: SessionView, line: Seq<char>) -> bool {
    ses.connected && takes_group_number(s, ses.name, line)
}

/// What the end of a connection sends: the player leaves, if one was named.
pub open spec fn end_spec(s: ServerView, ses: SessionView) -> (ServerView, Seq<OutView>) {
    if ses.connected {
        disconnect_spec(s, ses.name)
    } else {
        (s, Seq::empty())
    }
}

impl Session {
    /// A new connection: not yet a player, greeted with the protocol version.
    pub fn open() -> (r: (Session, Vec<Outgoing>))
        ensures
            !r.0@.connected,
            r.0@.name.len() == 0,
            out_views(r.1@) == seq![crate::server::reply::to_caller("OK hello proto=1"@)],
    {
        let mut out: Vec<Outgoing> = Vec::new();
        crate::server::game::say(&mut out, crate::text::text("OK hello proto=1"));
        assert(out_views(out@) =~= seq![crate::server::reply::to_caller("OK hello proto=1"@)]);
        (Session { connected: false, name: String::new() }, out)
    }
}

impl GameServer {
    /// Handles one line received on a connection.
    pub fn handle_line(&mut self, session: &mut Session, line: &str, clone_ok: bool) -> (r: LineOutcome)
        requires
            server_ok(old(self)@),
            line_takes_group_number(old(self)@, old(session)@, line@) ==> old(self).next_group_id
                < u32::MAX,
        ensures
            server_ok(final(self)@),
            final(self)@ == line_spec(old(self)@, old(session)@, line@, clone_ok).state,
            out_views(r.out@) == line_spec(old(self)@, old(session)@, line@, clone_ok).out,
            respawn_view(r.respawn) == line_spec(old(self)@, old(session)@, line@, clone_ok).respawn,
            final(session)@ == line_spec(old(self)@, old(session)@, line@, clone_ok).session,
            r.close == line_spec(old(self)@, old(session)@, line@, clone_ok).close,
    {
        let quit = is_lit(trim_chars(chars_of(line).as_slice()).as_slice(), "QUIT");
        if session.connected {
            let o = self.parse_command(session.name.as_str(), line);
            LineOutcome { out: o.out, respawn: o.respawn, close: quit }
        } else {
            let (ok, name, out) = self.connect_user(line, clone_ok);
            if !quit {
                session.connected = ok;
                session.name = name;
            }
            LineOutcome { out, respawn: None, close: quit }
        }
    }

    /// Handles the end of a connection.
    pub fn end_session(&mut self, session: &Session) -> (out: Vec<Outgoing>)
        requires
            server_ok(old(self)@),
        ensures
            server_ok(final(self)@),
            final(self)@ == end_spec(old(self)@, session@).0,
            out_views(out@) == end_spec(old(self)@, session@).1,
    {
        if session.connected {
            self.disconnect_player(session.name.as_str())
        } else {
            let out: Vec<Outgoing> = Vec::new();
            assert(out_views(out@) =~= Seq::<OutView>::empty());
            out
        }
    }
}

} // verus!
