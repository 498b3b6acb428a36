//! The server's shared state, the players' arrival and departure, and the fan-out of
//! events to players.

use crate::server::player::{fresh_player, player_views, Player, PlayerView};
use crate::server::reply::{
    error_out, out_views, to_caller, to_player, OutView, Outgoing, Reply, Target,
};
use crate::server::world::{
    has_key, key_pos, table_view, GameWorld, GameWorldView, LocationView, NpcView, WorldView,
};
use crate::text::{
    chars_of, decimal, decimal_chars, has_space, is_lit, is_space, join2, piece, same_chars,
    split_n, splitn, string_of, text, trim, trim_chars,
};
use vstd::prelude::*;

verus! {

/// Everything the server shares between connections.
pub struct GameServer {
    pub world: GameWorld,
    pub players: Vec<Player>,
    pub next_group_id: u32,
}

pub struct ServerView {
    pub world: GameWorldView,
    pub players: Seq<PlayerView>,
    pub next_group_id: u32,
}

impl View for GameServer {
    type V = ServerView;

    open spec fn view(&self) -> ServerView {
        ServerView {
            world: self.world@,
            players: player_views(self.players@),
            next_group_id: self.next_group_id,
        }
    }
}

/// Position of the player called `name`, or -1.
pub open spec fn player_pos(ps: Seq<PlayerView>, name: Seq<char>) -> int
    decreases ps.len(),
{
    if ps.len() == 0 {
        -1
    } else if ps[0].name == name {
        0
    } else {
        let r = player_pos(ps.drop_first(), name);
        if r < 0 {
            -1
        } else {
            r + 1
        }
    }
}

pub proof fn lemma_player_pos(ps: Seq<PlayerView>, name: Seq<char>)
    ensures
        -1 <= player_pos(ps, name) < ps.len(),
        player_pos(ps, name) >= 0 ==> ps[player_pos(ps, name)].name == name,
        forall|j: int| 0 <= j < player_pos(ps, name) ==> ps[j].name != name,
        player_pos(ps, name) < 0 ==> forall|j: int| 0 <= j < ps.len() ==> ps[j].name != name,
    decreases ps.len(),
{
    if ps.len() > 0 && ps[0].name != name {
        lemma_player_pos(ps.drop_first(), name);
        assert forall|j: int| 0 < j < ps.len() implies ps[j] == ps.drop_first()[j - 1] by {}
    }
}

/// The world is consistent: tables have unique keys, the start and respawn rooms exist,
/// and every exit leads to a room.
pub open spec fn world_ok(w: GameWorldView) -> bool {
    &&& crate::server::world::keys_unique(w.world.locations)
    &&& crate::server::world::keys_unique(w.items)
    &&& crate::server::world::keys_unique(w.npcs)
    &&& crate::server::world::keys_unique(w.quests)
    &&& has_key(w.world.locations, w.world.start_location)
    &&& has_key(w.world.locations, w.world.respawn_location)
    &&& forall|i: int, j: int|
        0 <= i < w.world.locations.len() && 0 <= j < w.world.locations[i].1.exits.len()
            ==> has_key(w.world.locations, #[trigger] w.world.locations[i].1.exits[j].1)
}

/// The invariant kept by every operation of the server: a consistent world, and players
/// under unique names, each standing in a room.
pub open spec fn server_ok(s: ServerView) -> bool {
    &&& world_ok(s.world)
    &&& forall|i: int, j: int|
        0 <= i < j < s.players.len() ==> #[trigger] s.players[i].name != #[trigger] s.players[j].name
    &&& forall|i: int|
        0 <= i < s.players.len() ==> has_key(s.world.world.locations, #[trigger] s.players[i].room)
}

/// Who hears a broadcast.
pub enum Audience {
    Room(String),
    Everyone,
    Group(String),
}

pub enum AudienceView {
    Room(Seq<char>),
    Everyone,
    Group(Seq<char>),
}

impl View for Audience {
    type V = AudienceView;

    open spec fn view(&self) -> AudienceView {
        match self {
            Audience::Room(r) => AudienceView::Room(r@),
            Audience::Everyone => AudienceView::Everyone,
            Audience::Group(g) => AudienceView::Group(g@),
        }
    }
}

/// Whether player `p` hears a broadcast to `aud` that leaves out `exclude`.
pub open spec fn hears(p: PlayerView, aud: AudienceView, exclude: Option<Seq<char>>) -> bool {
    &&& match aud {
        AudienceView::Room(r) => p.room == r,
        AudienceView::Everyone => true,
        AudienceView::Group(g) => p.group == Some(g),
    }
    &&& exclude != Some(p.name)
}

/// The line `line` sent to each player who hears it, in the order of the players.
pub open spec fn cast(
    ps: Seq<PlayerView>,
    aud: AudienceView,
    exclude: Option<Seq<char>>,
    line: Seq<char>,
) -> Seq<OutView>
    decreases ps.len(),
{
    if ps.len() == 0 {
        Seq::empty()
    } else {
        let rest = cast(ps.drop_last(), aud, exclude, line);
        if hears(ps.last(), aud, exclude) {
            rest.push(to_player(ps.last().name, line))
        } else {
            rest
        }
    }
}

/// The names of the players standing in `room`, in order.
pub open spec fn names_in(ps: Seq<PlayerView>, room: Seq<char>) -> Seq<Seq<char>>
    decreases ps.len(),
{
    if ps.len() == 0 {
        Seq::empty()
    } else if ps.last().room == room {
        names_in(ps.drop_last(), room).push(ps.last().name)
    } else {
        names_in(ps.drop_last(), room)
    }
}

/// `s` with player `i` replaced.
pub open spec fn with_player(s: ServerView, i: int, p: PlayerView) -> ServerView {
    ServerView { players: s.players.update(i, p), ..s }
}

/// `s` with NPC `i` replaced.
pub open spec fn with_npc(s: ServerView, i: int, n: NpcView) -> ServerView {
    ServerView {
        world: GameWorldView { npcs: s.world.npcs.update(i, (s.world.npcs[i].0, n)), ..s.world },
        ..s
    }
}

/// Every NPC that fought `name` is free again.
pub open spec fn release_npcs(s: ServerView, name: Seq<char>) -> ServerView {
    ServerView {
        world: GameWorldView {
            npcs: s.world.npcs.map_values(
                |e: (Seq<char>, NpcView)|
                    if e.1.engaged_by == Some(name) {
                        (e.0, NpcView { engaged_by: None, ..e.1 })
                    } else {
                        e
                    },
            ),
            ..s.world
        },
        ..s
    }
}

/// The effect of a player leaving their group, and the lines it sends: the other members
/// are told.
pub open spec fn leave_group_spec(s: ServerView, name: Seq<char>) -> (ServerView, Seq<OutView>) {
    let i = player_pos(s.players, name);
    if i < 0 || s.players[i].group is None {
        (s, Seq::empty())
    } else {
        let g = s.players[i].group->0;
        let s2 = with_player(s, i, PlayerView { group: None, ..s.players[i] });
        (s2, cast(s2.players, AudienceView::Group(g), Some(name), "EVT GROUP LEAVE "@ + name))
    }
}

/// The effect of a first line from a connection that is not yet a player, and the lines it
/// sends; the flag and name say whether and as whom it connected. A connection that could
/// not be duplicated (`clone_ok` false) is refused with an internal error.
pub open spec fn connect_spec(s: ServerView, line: Seq<char>, clone_ok: bool) -> (
    ServerView,
    Seq<OutView>,
    bool,
    Seq<char>,
) {
    let args = splitn(line, 2, ' ');
    if args[0] == "CONNECT"@ {
        match piece(args, 1) {
            None => (s, seq![error_out("400 MALFORMED_COMMAND"@)], false, Seq::empty()),
            Some(a) => {
                let n = trim(a);
                if n.len() == 0 || (exists|k: int| 0 <= k < n.len() && is_space(#[trigger] n[k])) {
                    (s, seq![error_out("400 MALFORMED_COMMAND"@)], false, Seq::empty())
                } else if player_pos(s.players, n) >= 0 {
                    (s, seq![error_out("201 NAME_IN_USE"@)], false, Seq::empty())
                } else if !clone_ok {
                    (s, seq![error_out("500 INTERNAL_ERROR"@)], false, Seq::empty())
                } else {
                    let room = s.world.world.start_location;
                    let s2 = ServerView { players: s.players.push(fresh_player(n, room)), ..s };
                    (
                        s2,
                        seq![to_caller("OK connected"@)] + cast(
                            s2.players,
                            AudienceView::Room(room),
                            Some(n),
                            "EVT ROOM PRESENCE ENTER "@ + n,
                        ) + cast(
                            s2.players,
                            AudienceView::Everyone,
                            None,
                            "EVT STATS players="@ + decimal(s2.players.len()),
                        ),
                        true,
                        n,
                    )
                }
            },
        }
    } else if args[0] == "QUIT"@ {
        (s, seq![to_caller("OK bye"@)], false, Seq::empty())
    } else {
        (s, seq![error_out("100 NOT_CONNECTED"@)], false, Seq::empty())
    }
}

/// The effect of a player's connection closing, and the lines it sends: the room hears
/// them leave, everyone gets the new head count, and NPCs they fought are free again.
pub open spec fn disconnect_spec(s: ServerView, name: Seq<char>) -> (ServerView, Seq<OutView>) {
    if name.len() == 0 {
        (s, Seq::empty())
    } else {
        let i = player_pos(s.players, name);
        let s1 = if i < 0 {
            s
        } else {
            ServerView { players: s.players.remove(i), ..s }
        };
        let s2 = release_npcs(s1, name);
        let out = (if i < 0 {
            Seq::empty()
        } else {
            cast(
                s2.players,
                AudienceView::Room(s.players[i].room),
                None,
                "EVT ROOM PRESENCE LEAVE "@ + name,
            )
        }) + cast(
            s2.players,
            AudienceView::Everyone,
            None,
            "EVT STATS players="@ + decimal(s2.players.len()),
        );
        let (s3, out3) = leave_group_spec(s2, name);
        (s3, out + out3)
    }
}

/// Appends a text line for the caller.
pub fn say(out: &mut Vec<Outgoing>, line: String)
    ensures
        out_views(final(out)@) == out_views(old(out)@).push(to_caller(line@)),
{
    out.push(Outgoing { to: Target::Caller, reply: Reply::Text(line) });
    assert(out_views(out@) =~= out_views(old(out)@).push(to_caller(line@)));
}

/// Appends `ERR <code>` for the caller.
pub fn say_err(out: &mut Vec<Outgoing>, code: &str)
    ensures
        out_views(final(out)@) == out_views(old(out)@).push(error_out(code@)),
{
    say(out, join2("ERR ", code));
}

/// Appends a structured reply for the caller.
pub fn answer(out: &mut Vec<Outgoing>, reply: Reply)
    ensures
        out_views(final(out)@) == out_views(old(out)@).push(
            crate::server::reply::reply_caller(reply@),
        ),
{
    let ghost r = reply@;
    out.push(Outgoing { to: Target::Caller, reply });
    assert(out_views(out@) =~= out_views(old(out)@).push(crate::server::reply::reply_caller(r)));
}

/// Appends a text line for the player `name`.
pub fn tell(out: &mut Vec<Outgoing>, name: String, line: String)
    ensures
        out_views(final(out)@) == out_views(old(out)@).push(to_player(name@, line@)),
{
    out.push(Outgoing { to: Target::Player(name), reply: Reply::Text(line) });
    assert(out_views(out@) =~= out_views(old(out)@).push(to_player(name@, line@)));
}

/// Whether the player hears the broadcast.
fn player_hears(p: &Player, aud: &Audience, exclude: Option<&str>) -> (r: bool)
    ensures
        r == hears(p@, aud@, match exclude {
            Some(e) => Some(e@),
            None => None,
        }),
{
    let pn = chars_of(p.name.as_str());
    let excluded = match exclude {
        Some(e) => is_lit(pn.as_slice(), e),
        None => false,
    };
    if excluded {
        return false;
    }
    match aud {
        Audience::Room(r) => p.room == *r,
        Audience::Everyone => true,
        Audience::Group(g) => match &p.group {
            Some(pg) => *pg == *g,
            None => false,
        },
    }
}

pub open spec fn opt_view(o: Option<&str>) -> Option<Seq<char>> {
    match o {
        Some(e) => Some(e@),
        None => None,
    }
}

/// Number of characters of a decimal count.
pub fn count_text(n: usize) -> (r: String)
    ensures
        r@ == decimal(n as nat),
{
    string_of(decimal_chars(n as u64).as_slice())
}

impl GameServer {
    /// Sends `line` to every player who hears a broadcast to `aud` that leaves out `exclude`.
    pub fn broadcast(
        &self,
        out: &mut Vec<Outgoing>,
        aud: &Audience,
        exclude: Option<&str>,
        line: &str,
    )
        ensures
            out_views(final(out)@) == out_views(old(out)@) + cast(
                player_views(self.players@),
                aud@,
                opt_view(exclude),
                line@,
            ),
    {
        let ghost ps = player_views(self.players@);
        let mut i: usize = 0;
        while i < self.players.len()
            invariant
                i <= self.players@.len(),
                ps == player_views(self.players@),
                out_views(out@) == out_views(old(out)@) + cast(
                    ps.take(i as int),
                    aud@,
                    opt_view(exclude),
                    line@,
                ),
            decreases self.players@.len() - i,
        {
            assert(ps.take(i + 1).drop_last() == ps.take(i as int));
            assert(ps.take(i + 1).last() == self.players@[i as int]@);
            if player_hears(&self.players[i], aud, exclude) {
                tell(out, self.players[i].name.clone(), text(line));
            }
            assert(out_views(out@) == out_views(old(out)@) + cast(
                ps.take(i + 1),
                aud@,
                opt_view(exclude),
                line@,
            ));
            i = i + 1;
        }
        assert(ps.take(self.players@.len() as int) == ps);
    }

    /// Finds the player called `name`.
    pub fn find_player(&self, name: &str) -> (r: Option<usize>)
        ensures
            match r {
                Some(i) => i == player_pos(self@.players, name@) && i < self.players@.len()
                    && self@.players[i as int].name == name@,
                None => player_pos(self@.players, name@) < 0,
            },
    {
        let ghost ps = self@.players;
        proof {
            lemma_player_pos(ps, name@);
        }
        let mut i: usize = 0;
        while i < self.players.len()
            invariant
                i <= self.players@.len(),
                ps == self@.players,
                forall|j: int| 0 <= j < i ==> ps[j].name != name@,
            decreases self.players@.len() - i,
        {
            if is_lit(chars_of(self.players[i].name.as_str()).as_slice(), name) {
                proof {
                    lemma_player_pos(ps, name@);
                    assert(ps[i as int].name == name@);
                    if player_pos(ps, name@) >= 0 && player_pos(ps, name@) < i {
                        assert(ps[player_pos(ps, name@)].name == name@);
                    }
                }
                return Some(i);
            }
            i = i + 1;
        }
        proof {
            lemma_player_pos(ps, name@);
            if player_pos(ps, name@) >= 0 {
                assert(ps[player_pos(ps, name@)].name == name@);
            }
        }
        None
    }

    /// The names of the players standing in `room`.
    pub fn names_in_room(&self, room: &str) -> (r: Vec<String>)
        ensures
            crate::text::strs(r@) == names_in(self@.players, room@),
    {
        let ghost ps = self@.players;
        let mut r: Vec<String> = Vec::new();
        let mut i: usize = 0;
        while i < self.players.len()
            invariant
                i <= self.players@.len(),
                ps == self@.players,
                crate::text::strs(r@) == names_in(ps.take(i as int), room@),
            decreases self.players@.len() - i,
        {
            assert(ps.take(i + 1).drop_last() == ps.take(i as int));
            assert(ps.take(i + 1).last() == self.players@[i as int]@);
            if is_lit(chars_of(self.players[i].room.as_str()).as_slice(), room) {
                crate::text::push_text(&mut r, self.players[i].name.clone());
            }
            i = i + 1;
        }
        assert(ps.take(self.players@.len() as int) == ps);
        r
    }
}

/// An NPC after the fight with `name` is called off.
pub open spec fn released(e: (Seq<char>, NpcView), name: Seq<char>) -> (Seq<char>, NpcView) {
    if e.1.engaged_by == Some(name) {
        (e.0, NpcView { engaged_by: None, ..e.1 })
    } else {
        e
    }
}

pub proof fn lemma_release_npcs(s: ServerView, name: Seq<char>)
    ensures
        release_npcs(s, name).world.npcs.len() == s.world.npcs.len(),
        forall|j: int|
            0 <= j < s.world.npcs.len() ==> #[trigger] release_npcs(s, name).world.npcs[j]
                == released(s.world.npcs[j], name),
{
}

impl GameServer {
    /// Handles a line from a connection that is not yet a player: `CONNECT <name>` makes it
    /// one in the start room, `QUIT` says goodbye, anything else is refused. `clone_ok` says
    /// whether the connection could be duplicated to reach the new player, without which the
    /// connection is refused as an internal error.
    /// Returns whether it connected, under which name, and the lines to send.
    pub fn connect_user(&mut self, line: &str, clone_ok: bool) -> (r: (bool, String, Vec<Outgoing>))
        requires
            server_ok(old(self)@),
        ensures
            server_ok(final(self)@),
            ({
                let (s2, out, ok, n) = connect_spec(old(self)@, line@, clone_ok);
                &&& final(self)@ == s2
                &&& out_views(r.2@) == out
                &&& r.0 == ok
                &&& r.1@ == n
            }),
    {
        let cs = chars_of(line);
        let args = split_n(cs.as_slice(), 2, ' ');
        let mut out: Vec<Outgoing> = Vec::new();
        assert(out_views(out@) =~= Seq::<OutView>::empty());
        if is_lit(args[0].as_slice(), "CONNECT") {
            if args.len() < 2 {
                say_err(&mut out, "400 MALFORMED_COMMAND");
                assert(out_views(out@) =~= seq![error_out("400 MALFORMED_COMMAND"@)]);
                return (false, String::new(), out);
            }
            let n = trim_chars(args[1].as_slice());
            if n.len() == 0 || has_space(n.as_slice()) {
                say_err(&mut out, "400 MALFORMED_COMMAND");
                assert(out_views(out@) =~= seq![error_out("400 MALFORMED_COMMAND"@)]);
                return (false, String::new(), out);
            }
            let name = string_of(n.as_slice());
            if self.find_player(name.as_str()).is_some() {
                say_err(&mut out, "201 NAME_IN_USE");
                assert(out_views(out@) =~= seq![error_out("201 NAME_IN_USE"@)]);
                return (false, String::new(), out);
            }
            if !clone_ok {
                say_err(&mut out, "500 INTERNAL_ERROR");
                assert(out_views(out@) =~= seq![error_out("500 INTERNAL_ERROR"@)]);
                return (false, String::new(), out);
            }
            let ghost s0 = self@;
            proof {
                lemma_player_pos(s0.players, name@);
            }
            let room = self.world.world.start_location.clone();
            let player = Player {
                room: room.clone(),
                name: name.clone(),
                inventory: Vec::new(),
                hp: 100,
                max_hp: 100,
                pv: 15,
                combat: text("healthy"),
                quest_to_do: Vec::new(),
                quest_dine: Vec::new(),
                quest_progress: Vec::new(),
                target_npc: None,
                group: None,
                invite_from: None,
                dialogue_progress: Vec::new(),
            };
            assert(player@.inventory =~= Seq::<Seq<char>>::empty());
            assert(player@.quest_to_do =~= Seq::<Seq<char>>::empty());
            assert(player@.quest_dine =~= Seq::<Seq<char>>::empty());
            assert(player@.quest_progress =~= Seq::<(Seq<char>, u32)>::empty());
            assert(player@.dialogue_progress =~= Seq::<(Seq<char>, usize)>::empty());
            assert(player@ == fresh_player(name@, room@));
            let ghost p0 = self.players@;
            self.players.push(player);
            assert(player_views(self.players@) =~= s0.players.push(fresh_player(name@, room@)));
            say(&mut out, text("OK connected"));
            assert(out_views(out@) =~= seq![to_caller("OK connected"@)]);
            let enter = join2("EVT ROOM PRESENCE ENTER ", name.as_str());
            self.broadcast(&mut out, &Audience::Room(room), Some(name.as_str()), enter.as_str());
            let stats = join2("EVT STATS players=", count_text(self.players.len()).as_str());
            self.broadcast(&mut out, &Audience::Everyone, None, stats.as_str());
            proof {
                let ps = self@.players;
                assert forall|i: int, j: int| 0 <= i < j < ps.len() implies #[trigger] ps[i].name
                    != #[trigger] ps[j].name by {
                    if j == ps.len() - 1 {
                        assert(s0.players[i].name != name@);
                    } else {
                        assert(s0.players[i].name != s0.players[j].name);
                    }
                }
                assert forall|i: int| 0 <= i < ps.len() implies has_key(
                    self@.world.world.locations,
                    #[trigger] ps[i].room,
                ) by {
                    if i < ps.len() - 1 {
                        assert(ps[i] == s0.players[i]);
                    }
                }
            }
            (true, name, out)
        } else if is_lit(args[0].as_slice(), "QUIT") {
            say(&mut out, text("OK bye"));
            assert(out_views(out@) =~= seq![to_caller("OK bye"@)]);
            (false, String::new(), out)
        } else {
            say_err(&mut out, "100 NOT_CONNECTED");
            assert(out_views(out@) =~= seq![error_out("100 NOT_CONNECTED"@)]);
            (false, String::new(), out)
        }
    }

    /// Takes the player `name` out of their group; the other members are told.
    pub fn leave_group(&mut self, name: &str, out: &mut Vec<Outgoing>)
        requires
            server_ok(old(self)@),
        ensures
            server_ok(final(self)@),
            final(self)@ == leave_group_spec(old(self)@, name@).0,
            out_views(final(out)@) == out_views(old(out)@) + leave_group_spec(old(self)@, name@).1,
    {
        let i = match self.find_player(name) {
            Some(i) => i,
            None => {
                assert(out_views(out@) =~= out_views(out@) + Seq::<OutView>::empty());
                return ;
            },
        };
        let g = match &self.players[i].group {
            Some(g) => g.clone(),
            None => {
                assert(out_views(out@) =~= out_views(out@) + Seq::<OutView>::empty());
                return ;
            },
        };
        let ghost s0 = self@;
        self.players[i].group = None;
        assert(self@.players =~= s0.players.update(
            i as int,
            PlayerView { group: None, ..s0.players[i as int] },
        ));
        let line = join2("EVT GROUP LEAVE ", name);
        self.broadcast(out, &Audience::Group(g), Some(name), line.as_str());
        proof {
            let ps = self@.players;
            assert forall|a: int, b: int| 0 <= a < b < ps.len() implies #[trigger] ps[a].name
                != #[trigger] ps[b].name by {
                assert(s0.players[a].name != s0.players[b].name);
            }
            assert forall|a: int| 0 <= a < ps.len() implies has_key(
                self@.world.world.locations,
                #[trigger] ps[a].room,
            ) by {
                assert(ps[a].room == s0.players[a].room);
            }
        }
    }

    fn release_npcs_of(&mut self, name: &str)
        ensures
            final(self)@ == release_npcs(old(self)@, name@),
    {
        let ghost s0 = self@;
        proof {
            lemma_release_npcs(s0, name@);
        }
        let mut i: usize = 0;
        while i < self.world.npcs.len()
            invariant
                i <= self.world.npcs@.len(),
                self.world.npcs@.len() == s0.world.npcs.len(),
                self@.players == s0.players,
                self@.next_group_id == s0.next_group_id,
                self@.world.world == s0.world.world,
                self@.world.items == s0.world.items,
                self@.world.quests == s0.world.quests,
                forall|j: int|
                    0 <= j < i ==> #[trigger] self@.world.npcs[j] == released(s0.world.npcs[j], name@),
                forall|j: int| i <= j < self.world.npcs@.len() ==> #[trigger] self@.world.npcs[j] == s0.world.npcs[j],
            decreases self.world.npcs@.len() - i,
        {
            assert(self@.world.npcs[i as int] == s0.world.npcs[i as int]);
            let hit = match &self.world.npcs[i].1.engaged_by {
                Some(e) => is_lit(chars_of(e.as_str()).as_slice(), name),
                None => false,
            };
            if hit {
                let ghost before = self.world.npcs@;
                assert(table_view(before)[i as int] == s0.world.npcs[i as int]);
                assert(s0.world.npcs[i as int].1.engaged_by == Some(name@));
                self.world.npcs[i].1.engaged_by = None;
                assert(self.world.npcs@[i as int].0 == before[i as int].0);
                assert(self.world.npcs@[i as int].1.name == before[i as int].1.name);
                assert(self.world.npcs@[i as int].1.stats == before[i as int].1.stats);
                assert(self.world.npcs@[i as int].1.engaged_by is None);
                assert(self.world.npcs@ == before.update(i as int, self.world.npcs@[i as int]));
                assert(self@.world.npcs[i as int] == released(s0.world.npcs[i as int], name@));
                assert forall|j: int| 0 <= j < self.world.npcs@.len() && j != i implies #[trigger] self@.world.npcs[j]
                    == table_view(before)[j] by {}
            }
            i = i + 1;
        }
        assert(self@.world.npcs =~= release_npcs(s0, name@).world.npcs);
    }

    /// The player `name` is gone: the room hears them leave, everyone gets the new head count,
    /// and the NPCs they fought are free again.
    pub fn disconnect_player(&mut self, name: &str) -> (out: Vec<Outgoing>)
        requires
            server_ok(old(self)@),
        ensures
            server_ok(final(self)@),
            final(self)@ == disconnect_spec(old(self)@, name@).0,
            out_views(out@) == disconnect_spec(old(self)@, name@).1,
    {
        let mut out: Vec<Outgoing> = Vec::new();
        assert(out_views(out@) =~= Seq::<OutView>::empty());
        let nc = chars_of(name);
        if nc.len() == 0 {
            return out;
        }
        let ghost s0 = self@;
        let room = match self.find_player(name) {
            Some(i) => {
                let p = self.players.remove(i);
                assert(self@.players =~= s0.players.remove(i as int));
                Some(p.room)
            },
            None => None,
        };
        let ghost s1 = self@;
        proof {
            let ps = s1.players;
            assert forall|a: int, b: int| 0 <= a < b < ps.len() implies #[trigger] ps[a].name
                != #[trigger] ps[b].name by {
                let i = player_pos(s0.players, name@);
                if i >= 0 {
                    if a < i {
                        if b < i {
                        } else {
                            assert(ps[b] == s0.players[b + 1]);
                        }
                    } else {
                        assert(ps[a] == s0.players[a + 1]);
                        assert(ps[b] == s0.players[b + 1]);
                    }
                }
            }
            assert forall|a: int| 0 <= a < ps.len() implies has_key(
                s1.world.world.locations,
                #[trigger] ps[a].room,
            ) by {
                let i = player_pos(s0.players, name@);
                if i >= 0 && a >= i {
                    assert(ps[a] == s0.players[a + 1]);
                }
            }
        }
        self.release_npcs_of(name);
        match room {
            Some(r) => {
                let line = join2("EVT ROOM PRESENCE LEAVE ", name);
                self.broadcast(&mut out, &Audience::Room(r), None, line.as_str());
            },
            None => {},
        }
        let stats = join2("EVT STATS players=", count_text(self.players.len()).as_str());
        self.broadcast(&mut out, &Audience::Everyone, None, stats.as_str());
        self.leave_group(name, &mut out);
        out
    }
}

/// `s` with room `li` replaced.
pub open spec fn with_location(s: ServerView, li: int, loc: LocationView) -> ServerView {
    ServerView {
        world: GameWorldView {
            world: WorldView {
                locations: s.world.world.locations.update(li, (s.world.world.locations[li].0, loc)),
                ..s.world.world
            },
            ..s.world
        },
        ..s
    }
}

/// Changing what lies in a room, but not its exits, keeps the invariant.
pub proof fn lemma_ok_with_location(s: ServerView, li: int, loc: LocationView)
    requires
        server_ok(s),
        0 <= li < s.world.world.locations.len(),
        loc.exits == s.world.world.locations[li].1.exits,
    ensures
        server_ok(with_location(s, li, loc)),
        forall|k: Seq<char>|
            key_pos(#[trigger] with_location(s, li, loc).world.world.locations, k) == key_pos(
                s.world.world.locations,
                k,
            ),
{
    let l0 = s.world.world.locations;
    let s2 = with_location(s, li, loc);
    let l2 = s2.world.world.locations;
    assert forall|k: Seq<char>| key_pos(l2, k) == key_pos(l0, k) by {
        crate::server::world::lemma_key_pos_update(l0, li, loc, k);
    }
    assert forall|a: int, b: int| 0 <= a < b < l2.len() implies l2[a].0 != l2[b].0 by {
        assert(l0[a].0 != l0[b].0);
    }
    assert forall|a: int, j: int| 0 <= a < l2.len() && 0 <= j < l2[a].1.exits.len() implies has_key(
        l2,
        #[trigger] l2[a].1.exits[j].1,
    ) by {
        assert(l2[a].1.exits == l0[a].1.exits);
        assert(has_key(l0, l0[a].1.exits[j].1));
    }
    assert forall|a: int| 0 <= a < s2.players.len() implies has_key(
        l2,
        #[trigger] s2.players[a].room,
    ) by {
        assert(has_key(l0, s.players[a].room));
    }
    assert(has_key(l2, s.world.world.start_location));
    assert(has_key(l2, s.world.world.respawn_location));
}

/// Changing an NPC keeps the invariant.
pub proof fn lemma_ok_with_npc(s: ServerView, ni: int, n: NpcView)
    requires
        server_ok(s),
        0 <= ni < s.world.npcs.len(),
    ensures
        server_ok(with_npc(s, ni, n)),
        forall|k: Seq<char>|
            key_pos(#[trigger] with_npc(s, ni, n).world.npcs, k) == key_pos(s.world.npcs, k),
{
    let s2 = with_npc(s, ni, n);
    assert forall|k: Seq<char>| key_pos(s2.world.npcs, k) == key_pos(s.world.npcs, k) by {
        crate::server::world::lemma_key_pos_update(s.world.npcs, ni, n, k);
    }
    assert forall|a: int, b: int| 0 <= a < b < s2.world.npcs.len() implies s2.world.npcs[a].0
        != s2.world.npcs[b].0 by {
        assert(s.world.npcs[a].0 != s.world.npcs[b].0);
    }
}

} // verus!
