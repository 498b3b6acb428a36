//! What each command of a connected player does to the game, and what it sends.

use crate::server::game::{
    answer, cast, lemma_player_pos, names_in, player_pos, say, say_err, server_ok, tell,
    with_player, Audience, AudienceView, GameServer, ServerView,
};
use crate::server::player::{player_views, PlayerView};
use crate::server::reply::{
    encode_string_list, error_out, json_string_array, out_views, reply_caller, to_caller,
    to_player, LookReply, OutView, Outgoing, Reply, ReplyView, RespawnView, RoomInfo, RoomInfoView,
    QuestEntryView, QuestReply, StatusReply, TalkReply, WhoReply, Respawn, respawn_view, Outcome, quest_entry_view, quest_entry_views, CombatReply, CombatView,
};
use crate::server::game::with_location;
use crate::server::world::{
    find_key, has_key, key_pos, lemma_key_pos, lookup, table_view, GameWorld, GameWorldView,
    ItemView, LocationView, NpcView, QuestView, Stats,
};
use crate::text::{
    chars_of, copy_texts, without, decimal, eq_ignore_case, opt_str, remove_all, find_text, first_pos, is_lit, join2,
    lemma_first_pos_at, lemma_first_pos_none, lemma_text_pos, piece, same_chars,
    same_ignoring_case, split_n, splitn, string_of, strs, text, text_pos, trim, trim_chars,
};
use vstd::prelude::*;

verus! {

/// The result of a command: the new state, the lines to send, and an NPC to bring back later.
pub struct Effect {
    pub state: ServerView,
    pub out: Seq<OutView>,
    pub respawn: Option<RespawnView>,
}

pub open spec fn said(s: ServerView, out: Seq<OutView>) -> Effect {
    Effect { state: s, out, respawn: None }
}

pub open spec fn quiet(s: ServerView) -> Effect {
    said(s, Seq::empty())
}

pub open spec fn refused(s: ServerView, code: Seq<char>) -> Effect {
    said(s, seq![error_out(code)])
}

/// `LOOK`: the caller's room, with the players, items and NPCs in it.
pub open spec fn look_spec(s: ServerView, name: Seq<char>) -> Effect {
    let i = player_pos(s.players, name);
    if i < 0 {
        quiet(s)
    } else {
        let room = s.players[i].room;
        match lookup(s.world.world.locations, room) {
            None => quiet(s),
            Some(loc) => said(
                s,
                seq![
                    reply_caller(
                        ReplyView::Look(
                            RoomInfoView {
                                id: room,
                                name: loc.name,
                                description: loc.description,
                                exits: loc.exits,
                            },
                            names_in(s.players, room),
                            loc.items,
                            loc.npcs,
                        ),
                    ),
                ],
            ),
        }
    }
}

/// The presence lines of a move from `from` to `to`: the players in `from` see the mover
/// leave, the others in `to` see them enter.
pub open spec fn move_cast(
    ps: Seq<PlayerView>,
    from: Seq<char>,
    to: Seq<char>,
    name: Seq<char>,
) -> Seq<OutView>
    decreases ps.len(),
{
    if ps.len() == 0 {
        Seq::empty()
    } else {
        let rest = move_cast(ps.drop_last(), from, to, name);
        let p = ps.last();
        if p.room == from {
            rest.push(to_player(p.name, "EVT ROOM PRESENCE LEAVE "@ + name))
        } else if p.room == to {
            rest.push(to_player(p.name, "EVT ROOM PRESENCE ENTER "@ + name))
        } else {
            rest
        }
    }
}

/// `MOVE <direction>`: follows the exit of that name out of the caller's room.
pub open spec fn move_spec(s: ServerView, name: Seq<char>, rest: Option<Seq<char>>) -> Effect {
    match rest {
        None => refused(s, "400 MALFORMED_COMMAND"@),
        Some(r) => {
            let dir = splitn(r, 2, ' ')[0];
            let i = player_pos(s.players, name);
            if i < 0 {
                quiet(s)
            } else {
                let from = s.players[i].room;
                let loc = lookup(s.world.world.locations, from)->0;
                match lookup(loc.exits, dir) {
                    None => refused(s, "301 NO_EXIT"@),
                    Some(to) => {
                        let s2 = with_player(s, i, PlayerView { room: to, ..s.players[i] });
                        said(
                            s2,
                            seq![to_caller("OK room="@ + to)] + move_cast(s2.players, from, to, name),
                        )
                    },
                }
            }
        },
    }
}

/// `CHAT <scope> <message>`: relays the message to everyone, to the caller's group, or to
/// the caller's room.
pub open spec fn chat_spec(s: ServerView, name: Seq<char>, rest: Option<Seq<char>>) -> Effect {
    match rest {
        None => refused(s, "400 MALFORMED_COMMAND"@),
        Some(r) => {
            let sub = splitn(r, 2, ' ');
            let msg = match piece(sub, 1) {
                Some(m) => m,
                None => Seq::empty(),
            };
            let i = player_pos(s.players, name);
            if sub[0] == "GLOBAL"@ {
                said(
                    s,
                    seq![to_caller("OK"@)] + cast(
                        s.players,
                        AudienceView::Everyone,
                        None,
                        "EVT GLOBAL CHAT "@ + name + " "@ + msg,
                    ),
                )
            } else if sub[0] == "GROUP"@ {
                if i < 0 || s.players[i].group is None {
                    refused(s, "401 NOT_IN_GROUP"@)
                } else {
                    said(
                        s,
                        seq![to_caller("OK"@)] + cast(
                            s.players,
                            AudienceView::Group(s.players[i].group->0),
                            None,
                            "EVT GROUP CHAT "@ + name + " "@ + msg,
                        ),
                    )
                }
            } else if sub[0] == "ROOM"@ {
                let room = if i < 0 {
                    Seq::empty()
                } else {
                    s.players[i].room
                };
                said(
                    s,
                    seq![to_caller("OK"@)] + cast(
                        s.players,
                        AudienceView::Room(room),
                        None,
                        "EVT ROOM CHAT "@ + name + " "@ + msg,
                    ),
                )
            } else {
                refused(s, "400 MALFORMED_COMMAND"@)
            }
        },
    }
}

/// `WHO`: the players in the caller's room and the number online.
pub open spec fn who_spec(s: ServerView, name: Seq<char>) -> Effect {
    let i = player_pos(s.players, name);
    let room = if i < 0 {
        Seq::empty()
    } else {
        s.players[i].room
    };
    said(
        s,
        seq![reply_caller(ReplyView::Who(names_in(s.players, room), s.players.len() as u32))],
    )
}

/// `STATUS`: the caller's health and combat state.
pub open spec fn status_spec(s: ServerView, name: Seq<char>) -> Effect {
    let i = player_pos(s.players, name);
    if i < 0 {
        quiet(s)
    } else {
        let p = s.players[i];
        said(s, seq![reply_caller(ReplyView::Status(p.hp, p.max_hp, p.combat))])
    }
}

/// `INVENTORY`: the caller's items as a JSON array.
pub open spec fn inventory_spec(s: ServerView, name: Seq<char>) -> Effect {
    let i = player_pos(s.players, name);
    if i < 0 {
        refused(s, "404 PLAYER_NOT_FOUND"@)
    } else {
        said(s, seq![to_caller("OK "@ + json_string_array(s.players[i].inventory))])
    }
}

/// Keeps the invariant when only fields of one player other than name and room change.
pub proof fn lemma_ok_with_player(s: ServerView, i: int, p: PlayerView)
    requires
        server_ok(s),
        0 <= i < s.players.len(),
        p.name == s.players[i].name,
        crate::server::world::has_key(s.world.world.locations, p.room),
    ensures
        server_ok(with_player(s, i, p)),
{
    let s2 = with_player(s, i, p);
    assert forall|a: int, b: int| 0 <= a < b < s2.players.len() implies #[trigger] s2.players[a].name
        != #[trigger] s2.players[b].name by {
        assert(s.players[a].name != s.players[b].name);
    }
    assert forall|a: int| 0 <= a < s2.players.len() implies crate::server::world::has_key(
        s2.world.world.locations,
        #[trigger] s2.players[a].room,
    ) by {
        if a != i {
            assert(s2.players[a] == s.players[a]);
        }
    }
}

impl GameServer {
    /// Replaces the view of player `i` after a change of its fields.
    proof fn lemma_players_after(old_ps: Seq<crate::server::player::Player>, new_ps: Seq<crate::server::player::Player>, i: int)
        requires
            0 <= i < old_ps.len(),
            new_ps == old_ps.update(i, new_ps[i]),
        ensures
            player_views(new_ps) == player_views(old_ps).update(i, new_ps[i]@),
    {
        assert(player_views(new_ps) =~= player_views(old_ps).update(i, new_ps[i]@));
    }

    pub fn look(&self, name: &str, out: &mut Vec<Outgoing>)
        ensures
            look_spec(self@, name@).state == self@,
            out_views(final(out)@) == out_views(old(out)@) + look_spec(self@, name@).out,
    {
        let i = match self.find_player(name) {
            Some(i) => i,
            None => {
                assert(out_views(out@) =~= out_views(out@) + Seq::<OutView>::empty());
                return ;
            },
        };
        let room = self.players[i].room.clone();
        let li = match find_key(&self.world.world.locations, chars_of(room.as_str()).as_slice()) {
            Some(li) => li,
            None => {
                assert(out_views(out@) =~= out_views(out@) + Seq::<OutView>::empty());
                return ;
            },
        };
        proof {
            lemma_key_pos(self@.world.world.locations, room@);
        }
        let loc = &self.world.world.locations[li].1;
        let mut exits: Vec<(String, String)> = Vec::new();
        let mut k: usize = 0;
        while k < loc.exits.len()
            invariant
                k <= loc.exits@.len(),
                table_view(exits@) == table_view(loc.exits@).take(k as int),
            decreases loc.exits@.len() - k,
        {
            let ghost before = exits@;
            let a = loc.exits[k].0.clone();
            let b = loc.exits[k].1.clone();
            exits.push((a, b));
            assert(exits@ == before.push((a, b)));
            assert(table_view(exits@) =~= table_view(before).push((a@, b@)));
            assert(table_view(exits@) =~= table_view(loc.exits@).take(k + 1));
            k = k + 1;
        }
        assert(table_view(loc.exits@).take(loc.exits@.len() as int) == table_view(loc.exits@));
        let reply = LookReply {
            room: RoomInfo {
                id: room.clone(),
                name: loc.name.clone(),
                description: loc.description.clone(),
                exits,
            },
            players: self.names_in_room(room.as_str()),
            items: copy_texts(&loc.items),
            npcs: copy_texts(&loc.npcs),
        };
        answer(out, Reply::Look(reply));
    }

    pub fn move_to(&mut self, name: &str, rest: Option<&[char]>, out: &mut Vec<Outgoing>)
        requires
            server_ok(old(self)@),
        ensures
            server_ok(final(self)@),
            final(self)@ == move_spec(old(self)@, name@, match rest {
                Some(r) => Some(r@),
                None => None,
            }).state,
            out_views(final(out)@) == out_views(old(out)@) + move_spec(old(self)@, name@, match rest {
                Some(r) => Some(r@),
                None => None,
            }).out,
    {
        let r = match rest {
            None => {
                say_err(out, "400 MALFORMED_COMMAND");
                return ;
            },
            Some(r) => r,
        };
        let parts = split_n(r, 2, ' ');
        let i = match self.find_player(name) {
            Some(i) => i,
            None => {
                assert(out_views(out@) =~= out_views(out@) + Seq::<OutView>::empty());
                return ;
            },
        };
        let ghost s0 = self@;
        let from = self.players[i].room.clone();
        proof {
            lemma_key_pos(s0.world.world.locations, from@);
            assert(crate::server::world::has_key(s0.world.world.locations, s0.players[i as int].room));
        }
        let li = find_key(&self.world.world.locations, chars_of(from.as_str()).as_slice()).unwrap();
        let exits = &self.world.world.locations[li].1.exits;
        let ei = match find_key(exits, parts[0].as_slice()) {
            Some(ei) => ei,
            None => {
                say_err(out, "301 NO_EXIT");
                return ;
            },
        };
        proof {
            lemma_key_pos(table_view(exits@), parts@[0]@);
        }
        let to = exits[ei].1.clone();
        proof {
            let w = s0.world;
            assert(w.world.locations[li as int].1.exits[ei as int].1 == to@);
            assert(crate::server::world::has_key(w.world.locations, w.world.locations[li as int].1.exits[ei as int].1));
        }
        let ghost ps0 = self.players@;
        self.players[i].room = to.clone();
        proof {
            GameServer::lemma_players_after(ps0, self.players@, i as int);
            lemma_ok_with_player(s0, i as int, self@.players[i as int]);
        }
        say(out, join2("OK room=", to.as_str()));
        let leave = join2("EVT ROOM PRESENCE LEAVE ", name);
        let enter = join2("EVT ROOM PRESENCE ENTER ", name);
        let ghost out1 = out_views(out@);
        let ghost ps = self@.players;
        let mut k: usize = 0;
        while k < self.players.len()
            invariant
                k <= self.players@.len(),
                ps == self@.players,
                out_views(out@) == out1 + move_cast(ps.take(k as int), from@, to@, name@),
                leave@ == "EVT ROOM PRESENCE LEAVE "@ + name@,
                enter@ == "EVT ROOM PRESENCE ENTER "@ + name@,
            decreases self.players@.len() - k,
        {
            assert(ps.take(k + 1).drop_last() == ps.take(k as int));
            assert(ps.take(k + 1).last() == self.players@[k as int]@);
            if self.players[k].room == from {
                tell(out, self.players[k].name.clone(), leave.clone());
            } else if self.players[k].room == to {
                tell(out, self.players[k].name.clone(), enter.clone());
            }
            k = k + 1;
        }
        assert(ps.take(self.players@.len() as int) == ps);
        assert(out_views(out@) =~= out_views(old(out)@) + (seq![to_caller("OK room="@ + to@)]
            + move_cast(ps, from@, to@, name@)));
    }

    pub fn chat(&self, name: &str, rest: Option<&[char]>, out: &mut Vec<Outgoing>)
        ensures
            chat_spec(self@, name@, match rest {
                Some(r) => Some(r@),
                None => None,
            }).state == self@,
            out_views(final(out)@) == out_views(old(out)@) + chat_spec(self@, name@, match rest {
                Some(r) => Some(r@),
                None => None,
            }).out,
    {
        let r = match rest {
            None => {
                say_err(out, "400 MALFORMED_COMMAND");
                return ;
            },
            Some(r) => r,
        };
        let sub = split_n(r, 2, ' ');
        let msg = if sub.len() >= 2 {
            string_of(sub[1].as_slice())
        } else {
            String::new()
        };
        let pi = self.find_player(name);
        let ghost o0 = out_views(out@);
        if is_lit(sub[0].as_slice(), "GLOBAL") {
            say(out, text("OK"));
            let line = join2("EVT GLOBAL CHAT ", name).concat(" ").concat(msg.as_str());
            self.broadcast(out, &Audience::Everyone, None, line.as_str());
        } else if is_lit(sub[0].as_slice(), "GROUP") {
            let g = match pi {
                Some(i) => match &self.players[i].group {
                    Some(g) => g.clone(),
                    None => {
                        say_err(out, "401 NOT_IN_GROUP");
                        return ;
                    },
                },
                None => {
                    say_err(out, "401 NOT_IN_GROUP");
                    return ;
                },
            };
            say(out, text("OK"));
            let line = join2("EVT GROUP CHAT ", name).concat(" ").concat(msg.as_str());
            self.broadcast(out, &Audience::Group(g), None, line.as_str());
        } else if is_lit(sub[0].as_slice(), "ROOM") {
            let room = match pi {
                Some(i) => self.players[i].room.clone(),
                None => String::new(),
            };
            say(out, text("OK"));
            let line = join2("EVT ROOM CHAT ", name).concat(" ").concat(msg.as_str());
            self.broadcast(out, &Audience::Room(room), None, line.as_str());
        } else {
            say_err(out, "400 MALFORMED_COMMAND");
            return ;
        }
        assert(out_views(out@) =~= o0 + chat_spec(self@, name@, Some(r@)).out);
    }

    pub fn who(&self, name: &str, out: &mut Vec<Outgoing>)
        ensures
            who_spec(self@, name@).state == self@,
            out_views(final(out)@) == out_views(old(out)@) + who_spec(self@, name@).out,
    {
        let room = match self.find_player(name) {
            Some(i) => self.players[i].room.clone(),
            None => String::new(),
        };
        let reply = WhoReply { room: self.names_in_room(room.as_str()), server: self.players.len() as u32 };
        answer(out, Reply::Who(reply));
    }

    pub fn status(&self, name: &str, out: &mut Vec<Outgoing>)
        ensures
            status_spec(self@, name@).state == self@,
            out_views(final(out)@) == out_views(old(out)@) + status_spec(self@, name@).out,
    {
        match self.find_player(name) {
            Some(i) => {
                let p = &self.players[i];
                answer(
                    out,
                    Reply::Status(StatusReply { hp: p.hp, max_hp: p.max_hp, status: p.combat.clone() }),
                );
            },
            None => {
                assert(out_views(out@) =~= out_views(out@) + Seq::<OutView>::empty());
            },
        }
    }

    pub fn inventory(&self, name: &str, out: &mut Vec<Outgoing>)
        ensures
            inventory_spec(self@, name@).state == self@,
            out_views(final(out)@) == out_views(old(out)@) + inventory_spec(self@, name@).out,
    {
        match self.find_player(name) {
            Some(i) => {
                let json = encode_string_list(&self.players[i].inventory);
                say(out, join2("OK ", json.as_str()));
            },
            None => say_err(out, "404 PLAYER_NOT_FOUND"),
        }
    }
}

/// Whether the player is in a group.
pub open spec fn in_group(s: ServerView, name: Seq<char>) -> bool {
    let i = player_pos(s.players, name);
    i >= 0 && s.players[i].group is Some
}

/// Whether a `GROUP` command creates a group (and so takes the next group number).
pub open spec fn makes_group(s: ServerView, name: Seq<char>, rest: Option<Seq<char>>) -> bool {
    &&& rest is Some
    &&& splitn(rest->0, 2, ' ')[0] == "CREATE"@
    &&& !in_group(s, name)
}

/// A non-blank argument.
pub open spec fn given(a: Option<Seq<char>>) -> bool {
    a is Some && crate::text::trim(a->0).len() != 0
}

/// `GROUP CREATE|INVITE <player>|JOIN <leader>|LEAVE`.
pub open spec fn group_spec(s: ServerView, name: Seq<char>, rest: Option<Seq<char>>) -> Effect {
    match rest {
        None => refused(s, "400 MALFORMED_COMMAND"@),
        Some(r) => {
            let g = splitn(r, 2, ' ');
            let arg = piece(g, 1);
            let i = player_pos(s.players, name);
            if g[0] == "CREATE"@ {
                if in_group(s, name) {
                    refused(s, "402 ALREADY_IN_GROUP"@)
                } else {
                    let id = "grp_"@ + crate::text::decimal(s.next_group_id as nat);
                    let s1 = ServerView { next_group_id: (s.next_group_id + 1) as u32, ..s };
                    let s2 = if i < 0 {
                        s1
                    } else {
                        with_player(s1, i, PlayerView { group: Some(id), ..s.players[i] })
                    };
                    said(s2, seq![to_caller("OK group="@ + id)])
                }
            } else if g[0] == "INVITE"@ {
                if !given(arg) {
                    refused(s, "400 MALFORMED_COMMAND"@)
                } else if !in_group(s, name) {
                    refused(s, "401 NOT_IN_GROUP"@)
                } else {
                    let t = player_pos(s.players, arg->0);
                    if t < 0 {
                        refused(s, "404 PLAYER_NOT_FOUND"@)
                    } else {
                        said(
                            with_player(s, t, PlayerView { invite_from: Some(name), ..s.players[t] }),
                            seq![
                                to_player(arg->0, "EVT GROUP INVITE "@ + name),
                                to_caller("OK"@),
                            ],
                        )
                    }
                }
            } else if g[0] == "JOIN"@ {
                if !given(arg) {
                    refused(s, "400 MALFORMED_COMMAND"@)
                } else if in_group(s, name) {
                    refused(s, "402 ALREADY_IN_GROUP"@)
                } else if !(i >= 0 && s.players[i].invite_from == arg) {
                    refused(s, "403 NOT_INVITED"@)
                } else {
                    let li = player_pos(s.players, arg->0);
                    if li < 0 || s.players[li].group is None {
                        refused(s, "404 PLAYER_NOT_FOUND"@)
                    } else {
                        let lg = s.players[li].group->0;
                        let s2 = with_player(
                            s,
                            i,
                            PlayerView { invite_from: None, group: Some(lg), ..s.players[i] },
                        );
                        said(
                            s2,
                            seq![to_caller("OK group="@ + lg)] + cast(
                                s2.players,
                                AudienceView::Group(lg),
                                Some(name),
                                "EVT GROUP JOIN "@ + name,
                            ),
                        )
                    }
                }
            } else if g[0] == "LEAVE"@ {
                if !in_group(s, name) {
                    refused(s, "401 NOT_IN_GROUP"@)
                } else {
                    let (s2, o) = crate::server::game::leave_group_spec(s, name);
                    said(s2, o.push(to_caller("OK"@)))
                }
            } else {
                refused(s, "400 MALFORMED_COMMAND"@)
            }
        },
    }
}

pub open spec fn opt_chars(o: Option<&[char]>) -> Option<Seq<char>> {
    match o {
        Some(r) => Some(r@),
        None => None,
    }
}

impl GameServer {
    fn in_group_now(&self, name: &str) -> (r: bool)
        ensures
            r == in_group(self@, name@),
    {
        match self.find_player(name) {
            Some(i) => self.players[i].group.is_some(),
            None => false,
        }
    }

    #[verifier::rlimit(30)]
    pub fn group(&mut self, name: &str, rest: Option<&[char]>, out: &mut Vec<Outgoing>)
        requires
            server_ok(old(self)@),
            makes_group(old(self)@, name@, opt_chars(rest)) ==> old(self).next_group_id < u32::MAX,
        ensures
            server_ok(final(self)@),
            final(self)@ == group_spec(old(self)@, name@, opt_chars(rest)).state,
            out_views(final(out)@) == out_views(old(out)@) + group_spec(
                old(self)@,
                name@,
                opt_chars(rest),
            ).out,
    {
        let r = match rest {
            None => {
                say_err(out, "400 MALFORMED_COMMAND");
                return ;
            },
            Some(r) => r,
        };
        let g = split_n(r, 2, ' ');
        let ghost s0 = self@;
        let ghost o0 = out_views(out@);
        let arg: Option<String> = if g.len() >= 2 {
            Some(string_of(g[1].as_slice()))
        } else {
            None
        };
        let given_arg = match &arg {
            Some(a) => crate::text::trim_chars(chars_of(a.as_str()).as_slice()).len() != 0,
            None => false,
        };
        if is_lit(g[0].as_slice(), "CREATE") {
            if self.in_group_now(name) {
                say_err(out, "402 ALREADY_IN_GROUP");
                return ;
            }
            let id = join2("grp_", string_of(crate::text::decimal_chars(self.next_group_id as u64).as_slice()).as_str());
            self.next_group_id = self.next_group_id + 1;
            match self.find_player(name) {
                Some(i) => {
                    let ghost ps0 = self.players@;
                    let ghost s1 = self@;
                    self.players[i].group = Some(id.clone());
                    proof {
                        GameServer::lemma_players_after(ps0, self.players@, i as int);
                        assert(server_ok(s1));
                        lemma_ok_with_player(s1, i as int, self@.players[i as int]);
                    }
                },
                None => {},
            }
            say(out, join2("OK group=", id.as_str()));
            assert(out_views(out@) =~= o0 + seq![to_caller("OK group="@ + id@)]);
        } else if is_lit(g[0].as_slice(), "INVITE") {
            if !given_arg {
                say_err(out, "400 MALFORMED_COMMAND");
                return ;
            }
            let target = arg.unwrap();
            if !self.in_group_now(name) {
                say_err(out, "401 NOT_IN_GROUP");
                return ;
            }
            let t = match self.find_player(target.as_str()) {
                Some(t) => t,
                None => {
                    say_err(out, "404 PLAYER_NOT_FOUND");
                    return ;
                },
            };
            let ghost ps0 = self.players@;
            self.players[t].invite_from = Some(String::from_str(name));
            proof {
                GameServer::lemma_players_after(ps0, self.players@, t as int);
                lemma_ok_with_player(s0, t as int, self@.players[t as int]);
            }
            tell(out, target.clone(), join2("EVT GROUP INVITE ", name));
            say(out, text("OK"));
            assert(out_views(out@) =~= o0 + seq![
                to_player(target@, "EVT GROUP INVITE "@ + name@),
                to_caller("OK"@),
            ]);
        } else if is_lit(g[0].as_slice(), "JOIN") {
            if !given_arg {
                say_err(out, "400 MALFORMED_COMMAND");
                return ;
            }
            let leader = arg.unwrap();
            if self.in_group_now(name) {
                say_err(out, "402 ALREADY_IN_GROUP");
                return ;
            }
            let pi = self.find_player(name);
            let invited = match pi {
                Some(i) => match &self.players[i].invite_from {
                    Some(f) => *f == leader,
                    None => false,
                },
                None => false,
            };
            if !invited {
                say_err(out, "403 NOT_INVITED");
                return ;
            }
            let i = pi.unwrap();
            let lg = match self.find_player(leader.as_str()) {
                Some(li) => match &self.players[li].group {
                    Some(lg) => lg.clone(),
                    None => {
                        say_err(out, "404 PLAYER_NOT_FOUND");
                        return ;
                    },
                },
                None => {
                    say_err(out, "404 PLAYER_NOT_FOUND");
                    return ;
                },
            };
            let ghost ps0 = self.players@;
            self.players[i].invite_from = None;
            self.players[i].group = Some(lg.clone());
            assert(self.players@ =~= ps0.update(i as int, self.players@[i as int]));
            proof {
                GameServer::lemma_players_after(ps0, self.players@, i as int);
                lemma_ok_with_player(s0, i as int, self@.players[i as int]);
            }
            say(out, join2("OK group=", lg.as_str()));
            let line = join2("EVT GROUP JOIN ", name);
            self.broadcast(out, &Audience::Group(lg), Some(name), line.as_str());
            assert(out_views(out@) =~= o0 + group_spec(s0, name@, Some(r@)).out);
        } else if is_lit(g[0].as_slice(), "LEAVE") {
            if !self.in_group_now(name) {
                say_err(out, "401 NOT_IN_GROUP");
                return ;
            }
            self.leave_group(name, out);
            say(out, text("OK"));
            assert(out_views(out@) =~= o0 + group_spec(s0, name@, Some(r@)).out);
        } else {
            say_err(out, "400 MALFORMED_COMMAND");
        }
    }
}

/// How many steps a quest needs: its count, one by default.
pub open spec fn quest_total(q: QuestView) -> u32 {
    match q.objective.count {
        Some(c) => c,
        None => 1,
    }
}

/// One step more on quest `qid`, up to `total`; a quest without progress yet starts at 0.
pub open spec fn progress_bump(prog: Seq<(Seq<char>, u32)>, qid: Seq<char>, total: u32) -> Seq<
    (Seq<char>, u32),
> {
    let k = key_pos(prog, qid);
    if k < 0 {
        prog.push((qid, if 0 < total { 1u32 } else { 0u32 }))
    } else if prog[k].1 < total {
        prog.update(k, (qid, (prog[k].1 + 1) as u32))
    } else {
        prog
    }
}

/// Whether quest `q` counts `id`: a killed NPC for a kill quest, a taken item otherwise.
pub open spec fn counts(q: QuestView, id: Seq<char>, kill: bool) -> bool {
    if kill {
        q.objective.target == Some(id)
    } else {
        q.objective.item == Some(id)
    }
}

/// The progress after `id` was taken or killed: every accepted quest that counts it moves
/// one step, up to its total.
pub open spec fn advance(
    prog: Seq<(Seq<char>, u32)>,
    to_do: Seq<Seq<char>>,
    quests: Seq<(Seq<char>, QuestView)>,
    id: Seq<char>,
    kill: bool,
) -> Seq<(Seq<char>, u32)>
    decreases to_do.len(),
{
    if to_do.len() == 0 {
        prog
    } else {
        let p1 = advance(prog, to_do.drop_last(), quests, id, kill);
        match lookup(quests, to_do.last()) {
            Some(q) => if counts(q, id, kill) {
                progress_bump(p1, to_do.last(), quest_total(q))
            } else {
                p1
            },
            None => p1,
        }
    }
}

/// Whether an item's display name matches `input` up to ASCII case.
pub open spec fn named_like(input: Seq<char>) -> spec_fn((Seq<char>, ItemView)) -> bool {
    |e: (Seq<char>, ItemView)| eq_ignore_case(e.1.name, input)
}

/// The item a `TAKE` argument names: an item id, or else the first item whose display name
/// matches up to ASCII case.
pub open spec fn take_target(items: Seq<(Seq<char>, ItemView)>, input: Seq<char>) -> Option<
    Seq<char>,
> {
    if has_key(items, input) {
        Some(input)
    } else {
        let k = first_pos(items, named_like(input));
        if k < 0 {
            None
        } else {
            Some(items[k].0)
        }
    }
}

/// `TAKE <item>`: moves an obtainable item lying in the caller's room into their inventory;
/// quests that ask for it advance.
pub open spec fn take_spec(s: ServerView, name: Seq<char>, rest: Option<Seq<char>>) -> Effect {
    match rest {
        None => refused(s, "400 MALFORMED_COMMAND"@),
        Some(r) => {
            let input = trim(r);
            let i = player_pos(s.players, name);
            if input.len() == 0 {
                refused(s, "400 MALFORMED_COMMAND"@)
            } else if i < 0 {
                quiet(s)
            } else {
                let p = s.players[i];
                match take_target(s.world.items, input) {
                    None => refused(s, "404 ITEM_NOT_FOUND"@),
                    Some(id) => {
                        let li = key_pos(s.world.world.locations, p.room);
                        if li < 0 || !s.world.world.locations[li].1.items.contains(id) {
                            refused(s, "404 ITEM_NOT_FOUND"@)
                        } else if !(match lookup(s.world.items, id) {
                            Some(it) => it.obtainable,
                            None => false,
                        }) {
                            refused(s, "405 ITEM_NOT_OBTAINABLE"@)
                        } else {
                            let loc = s.world.world.locations[li].1;
                            let s1 = with_location(
                                s,
                                li,
                                LocationView { items: loc.items.remove(text_pos(loc.items, id)), ..loc },
                            );
                            let p2 = PlayerView {
                                inventory: p.inventory.push(id),
                                quest_progress: advance(
                                    p.quest_progress,
                                    p.quest_to_do,
                                    s.world.quests,
                                    id,
                                    false,
                                ),
                                ..p
                            };
                            said(with_player(s1, i, p2), seq![to_caller("OK taken="@ + id)])
                        }
                    },
                }
            }
        },
    }
}

/// Whether inventory entry `x` is what a `DROP` argument names: by id, or by display name up
/// to ASCII case.
pub open spec fn drop_matches(
    x: Seq<char>,
    items: Seq<(Seq<char>, ItemView)>,
    input: Seq<char>,
) -> bool {
    x == input || match lookup(items, x) {
        Some(it) => eq_ignore_case(it.name, input),
        None => false,
    }
}

pub open spec fn drop_pred(items: Seq<(Seq<char>, ItemView)>, input: Seq<char>) -> spec_fn(
    Seq<char>,
) -> bool {
    |x: Seq<char>| drop_matches(x, items, input)
}

/// `DROP <item>`: moves the first matching inventory entry into the caller's room.
pub open spec fn drop_spec(s: ServerView, name: Seq<char>, rest: Option<Seq<char>>) -> Effect {
    match rest {
        None => refused(s, "400 MALFORMED_COMMAND"@),
        Some(r) => {
            let input = trim(r);
            let i = player_pos(s.players, name);
            if input.len() == 0 {
                refused(s, "400 MALFORMED_COMMAND"@)
            } else if i < 0 {
                quiet(s)
            } else {
                let p = s.players[i];
                let k = first_pos(p.inventory, drop_pred(s.world.items, input));
                if k < 0 {
                    refused(s, "404 ITEM_NOT_IN_INVENTORY"@)
                } else {
                    let id = p.inventory[k];
                    let s1 = with_player(s, i, PlayerView { inventory: p.inventory.remove(k), ..p });
                    let li = key_pos(s.world.world.locations, p.room);
                    if li < 0 {
                        said(s1, seq![error_out("404 ITEM_NOT_FOUND"@)])
                    } else {
                        let loc = s.world.world.locations[li].1;
                        said(
                            with_location(s1, li, LocationView { items: loc.items.push(id), ..loc }),
                            seq![to_caller("OK dropped="@ + id)],
                        )
                    }
                }
            }
        },
    }
}

fn bump_progress(prog: &mut Vec<(String, u32)>, qid: &str, total: u32)
    ensures
        table_view(final(prog)@) == progress_bump(table_view(old(prog)@), qid@, total),
{
    let ghost t0 = table_view(prog@);
    match find_key(prog, chars_of(qid).as_slice()) {
        None => {
            let v: u32 = if 0 < total {
                1
            } else {
                0
            };
            prog.push((String::from_str(qid), v));
            assert(table_view(prog@) =~= t0.push((qid@, v)));
        },
        Some(k) => {
            proof {
                crate::server::world::lemma_key_pos(t0, qid@);
            }
            if prog[k].1 < total {
                let v = prog[k].1 + 1;
                prog[k].1 = v;
                assert(table_view(prog@) =~= t0.update(k as int, (qid@, v)));
            }
        },
    }
}

impl GameServer {
    /// Moves every quest of player `i` that counts `id` one step on.
    fn advance_progress(&mut self, i: usize, id: &str, kill: bool)
        requires
            server_ok(old(self)@),
            i < old(self)@.players.len(),
        ensures
            server_ok(final(self)@),
            final(self)@ == with_player(
                old(self)@,
                i as int,
                PlayerView {
                    quest_progress: advance(
                        old(self)@.players[i as int].quest_progress,
                        old(self)@.players[i as int].quest_to_do,
                        old(self)@.world.quests,
                        id@,
                        kill,
                    ),
                    ..old(self)@.players[i as int]
                },
            ),
    {
        let ghost s0 = self@;
        let ghost p0 = s0.players[i as int];
        let mut k: usize = 0;
        let n = self.players[i].quest_to_do.len();
        assert(p0.quest_to_do.take(0) =~= Seq::<Seq<char>>::empty());
        assert(s0.players.update(i as int, p0) =~= s0.players);
        while k < n
            invariant
                i < self.players@.len(),
                i < s0.players.len(),
                p0 == s0.players[i as int],
                n == p0.quest_to_do.len(),
                k <= n,
                server_ok(s0),
                server_ok(self@),
                self@ == with_player(
                    s0,
                    i as int,
                    PlayerView {
                        quest_progress: advance(
                            p0.quest_progress,
                            p0.quest_to_do.take(k as int),
                            s0.world.quests,
                            id@,
                            kill,
                        ),
                        ..p0
                    },
                ),
            decreases n - k,
        {
            assert(p0.quest_to_do.take(k + 1).drop_last() == p0.quest_to_do.take(k as int));
            assert(self@.players[i as int] == PlayerView {
                quest_progress: advance(
                    p0.quest_progress,
                    p0.quest_to_do.take(k as int),
                    s0.world.quests,
                    id@,
                    kill,
                ),
                ..p0
            });
            assert(self@.players[i as int].quest_to_do == p0.quest_to_do);
            assert(self@.players[i as int].quest_to_do[k as int] == p0.quest_to_do[k as int]);
            let qid = self.players[i].quest_to_do[k].clone();
            let ghost before = advance(
                p0.quest_progress,
                p0.quest_to_do.take(k as int),
                s0.world.quests,
                id@,
                kill,
            );
            let ghost after = advance(
                p0.quest_progress,
                p0.quest_to_do.take(k + 1),
                s0.world.quests,
                id@,
                kill,
            );
            assert(p0.quest_to_do.take(k + 1).last() == qid@);
            assert(after == match lookup(s0.world.quests, qid@) {
                Some(q) => if counts(q, id@, kill) {
                    progress_bump(before, qid@, quest_total(q))
                } else {
                    before
                },
                None => before,
            });
            match find_key(&self.world.quests, chars_of(qid.as_str()).as_slice()) {
                Some(qi) => {
                    proof {
                        crate::server::world::lemma_key_pos(s0.world.quests, qid@);
                    }
                    let obj = &self.world.quests[qi].1.objective;
                    let hit = match if kill {
                        &obj.target
                    } else {
                        &obj.item
                    } {
                        Some(x) => is_lit(chars_of(x.as_str()).as_slice(), id),
                        None => false,
                    };
                    assert(hit == counts(s0.world.quests[qi as int].1, id@, kill));
                    if hit {
                        let total = match obj.count {
                            Some(c) => c,
                            None => 1,
                        };
                        assert(total == quest_total(s0.world.quests[qi as int].1));
                        let ghost ps0 = self.players@;
                        bump_progress(&mut self.players[i].quest_progress, qid.as_str(), total);
                        proof {
                            GameServer::lemma_players_after(ps0, self.players@, i as int);
                            assert(self@.players =~= s0.players.update(
                                i as int,
                                PlayerView { quest_progress: after, ..p0 },
                            ));
                        }
                    }
                },
                None => {},
            }
            k = k + 1;
            proof {
                lemma_ok_with_player(s0, i as int, self@.players[i as int]);
            }
        }
        assert(p0.quest_to_do.take(n as int) == p0.quest_to_do);
    }

    fn find_item_named(&self, input: &[char]) -> (r: Option<usize>)
        ensures
            match r {
                Some(k) => k == first_pos(self@.world.items, named_like(input@)) && k
                    < self.world.items@.len(),
                None => first_pos(self@.world.items, named_like(input@)) < 0,
            },
    {
        let ghost f = named_like(input@);
        let mut k: usize = 0;
        while k < self.world.items.len()
            invariant
                k <= self.world.items@.len(),
                f == named_like(input@),
                forall|j: int| 0 <= j < k ==> !f(#[trigger] self@.world.items[j]),
            decreases self.world.items@.len() - k,
        {
            let hit = same_ignoring_case(chars_of(self.world.items[k].1.name.as_str()).as_slice(), input);
            assert(hit == f(self@.world.items[k as int]));
            if hit {
                proof {
                    lemma_first_pos_at(self@.world.items, f, k as int);
                }
                return Some(k);
            }
            k = k + 1;
        }
        proof {
            lemma_first_pos_none(self@.world.items, f);
        }
        None
    }

    #[verifier::rlimit(40)]
    pub fn take(&mut self, name: &str, rest: Option<&[char]>, out: &mut Vec<Outgoing>)
        requires
            server_ok(old(self)@),
        ensures
            server_ok(final(self)@),
            final(self)@ == take_spec(old(self)@, name@, opt_chars(rest)).state,
            out_views(final(out)@) == out_views(old(out)@) + take_spec(
                old(self)@,
                name@,
                opt_chars(rest),
            ).out,
    {
        let r = match rest {
            None => {
                say_err(out, "400 MALFORMED_COMMAND");
                return ;
            },
            Some(r) => r,
        };
        let input = trim_chars(r);
        if input.len() == 0 {
            say_err(out, "400 MALFORMED_COMMAND");
            return ;
        }
        let i = match self.find_player(name) {
            Some(i) => i,
            None => {
                assert(out_views(out@) =~= out_views(out@) + Seq::<OutView>::empty());
                return ;
            },
        };
        let ghost s0 = self@;
        let ghost o0 = out_views(out@);
        let id: String = match find_key(&self.world.items, input.as_slice()) {
            Some(_) => string_of(input.as_slice()),
            None => match self.find_item_named(input.as_slice()) {
                Some(k) => self.world.items[k].0.clone(),
                None => {
                    say_err(out, "404 ITEM_NOT_FOUND");
                    return ;
                },
            },
        };
        assert(take_target(s0.world.items, input@) == Some(id@));
        let room = self.players[i].room.clone();
        let li = match find_key(&self.world.world.locations, chars_of(room.as_str()).as_slice()) {
            Some(li) => li,
            None => {
                say_err(out, "404 ITEM_NOT_FOUND");
                return ;
            },
        };
        proof {
            lemma_key_pos(s0.world.world.locations, room@);
        }
        let k = match find_text(&self.world.world.locations[li].1.items, id.as_str()) {
            Some(k) => k,
            None => {
                proof {
                    lemma_text_pos(s0.world.world.locations[li as int].1.items, id@);
                }
                say_err(out, "404 ITEM_NOT_FOUND");
                return ;
            },
        };
        proof {
            lemma_text_pos(s0.world.world.locations[li as int].1.items, id@);
        }
        let obtainable = match find_key(&self.world.items, chars_of(id.as_str()).as_slice()) {
            Some(ii) => {
                proof {
                    lemma_key_pos(s0.world.items, id@);
                }
                self.world.items[ii].1.obtainable
            },
            None => false,
        };
        if !obtainable {
            say_err(out, "405 ITEM_NOT_OBTAINABLE");
            return ;
        }
        let ghost locs0 = self.world.world.locations@;
        let ghost loc0 = s0.world.world.locations[li as int].1;
        self.world.world.locations[li].1.items.remove(k);
        assert(self.world.world.locations@ == locs0.update(li as int, self.world.world.locations@[li as int]));
        assert(self@.world.world.locations[li as int].1.items =~= loc0.items.remove(k as int));
        assert(self@.world.world.locations =~= s0.world.world.locations.update(
            li as int,
            (s0.world.world.locations[li as int].0, LocationView { items: loc0.items.remove(k as int), ..loc0 }),
        ));
        let ghost s1 = self@;
        assert(s1 == with_location(s0, li as int, LocationView { items: loc0.items.remove(k as int), ..loc0 }));
        proof {
            crate::server::game::lemma_ok_with_location(
                s0,
                li as int,
                LocationView { items: loc0.items.remove(k as int), ..loc0 },
            );
        }
        let ghost p0 = s0.players[i as int];
        let ghost ps0 = self.players@;
        self.players[i].inventory.push(id.clone());
        proof {
            GameServer::lemma_players_after(ps0, self.players@, i as int);
            assert(self@.players[i as int].inventory =~= p0.inventory.push(id@));
            lemma_ok_with_player(s1, i as int, self@.players[i as int]);
        }
        let ghost s2 = self@;
        assert(s2 == with_player(s1, i as int, PlayerView { inventory: p0.inventory.push(id@), ..p0 }));
        self.advance_progress(i, id.as_str(), false);
        let ghost p2 = PlayerView {
            inventory: p0.inventory.push(id@),
            quest_progress: advance(p0.quest_progress, p0.quest_to_do, s0.world.quests, id@, false),
            ..p0
        };
        assert(self@.players =~= s1.players.update(i as int, p2));
        assert(self@ == with_player(s1, i as int, p2));
        say(out, join2("OK taken=", id.as_str()));
    }

    #[verifier::rlimit(40)]
    pub fn drop_item(&mut self, name: &str, rest: Option<&[char]>, out: &mut Vec<Outgoing>)
        requires
            server_ok(old(self)@),
        ensures
            server_ok(final(self)@),
            final(self)@ == drop_spec(old(self)@, name@, opt_chars(rest)).state,
            out_views(final(out)@) == out_views(old(out)@) + drop_spec(
                old(self)@,
                name@,
                opt_chars(rest),
            ).out,
    {
        let r = match rest {
            None => {
                say_err(out, "400 MALFORMED_COMMAND");
                return ;
            },
            Some(r) => r,
        };
        let input = trim_chars(r);
        if input.len() == 0 {
            say_err(out, "400 MALFORMED_COMMAND");
            return ;
        }
        let i = match self.find_player(name) {
            Some(i) => i,
            None => {
                assert(out_views(out@) =~= out_views(out@) + Seq::<OutView>::empty());
                return ;
            },
        };
        let ghost s0 = self@;
        let ghost p0 = s0.players[i as int];
        let ghost f = drop_pred(s0.world.items, input@);
        let mut k: usize = 0;
        let n = self.players[i].inventory.len();
        let mut found = false;
        while k < n
            invariant_except_break
                !found,
            invariant
                i < self.players@.len(),
                self@ == s0,
                p0 == s0.players[i as int],
                n == p0.inventory.len(),
                k <= n,
                f == drop_pred(s0.world.items, input@),
                forall|j: int| 0 <= j < k ==> !f(#[trigger] p0.inventory[j]),
            ensures
                found ==> k < n && f(p0.inventory[k as int]),
                !found ==> k == n,
            decreases n - k,
        {
            let x = &self.players[i].inventory[k];
            let xs = chars_of(x.as_str());
            let by_name = match find_key(&self.world.items, xs.as_slice()) {
                Some(ii) => {
                    proof {
                        lemma_key_pos(s0.world.items, x@);
                    }
                    same_ignoring_case(chars_of(self.world.items[ii].1.name.as_str()).as_slice(), input.as_slice())
                },
                None => false,
            };
            assert(p0.inventory[k as int] == x@);
            assert(by_name == match lookup(s0.world.items, x@) {
                Some(it) => eq_ignore_case(it.name, input@),
                None => false,
            });
            let same = same_chars(xs.as_slice(), input.as_slice());
            assert((same || by_name) == f(p0.inventory[k as int]));
            if same || by_name {
                found = true;
                break;
            }
            k = k + 1;
        }
        if !found {
            proof {
                lemma_first_pos_none(p0.inventory, f);
            }
            say_err(out, "404 ITEM_NOT_IN_INVENTORY");
            return ;
        }
        proof {
            lemma_first_pos_at(p0.inventory, f, k as int);
        }
        let ghost ps0 = self.players@;
        let id = self.players[i].inventory.remove(k);
        proof {
            GameServer::lemma_players_after(ps0, self.players@, i as int);
            assert(self@.players[i as int].inventory =~= p0.inventory.remove(k as int));
            lemma_ok_with_player(s0, i as int, self@.players[i as int]);
        }
        let ghost s1 = self@;
        let room = self.players[i].room.clone();
        match find_key(&self.world.world.locations, chars_of(room.as_str()).as_slice()) {
            None => {
                say_err(out, "404 ITEM_NOT_FOUND");
            },
            Some(li) => {
                proof {
                    lemma_key_pos(s1.world.world.locations, room@);
                }
                let ghost locs0 = self.world.world.locations@;
                let ghost loc0 = s1.world.world.locations[li as int].1;
                self.world.world.locations[li].1.items.push(id.clone());
                assert(self.world.world.locations@ == locs0.update(li as int, self.world.world.locations@[li as int]));
                assert(self@.world.world.locations[li as int].1.items =~= loc0.items.push(id@));
                assert(self@.world.world.locations =~= s1.world.world.locations.update(
                    li as int,
                    (s1.world.world.locations[li as int].0, LocationView { items: loc0.items.push(id@), ..loc0 }),
                ));
                proof {
                    crate::server::game::lemma_ok_with_location(
                        s1,
                        li as int,
                        LocationView { items: loc0.items.push(id@), ..loc0 },
                    );
                }
                say(out, join2("OK dropped=", id.as_str()));
            },
        }
    }
}

/// Whether NPC id `id` is what an argument names: by id, or by display name up to ASCII case.
pub open spec fn npc_like(npcs: Seq<(Seq<char>, NpcView)>, arg: Seq<char>) -> spec_fn(Seq<char>) -> bool {
    |id: Seq<char>| id == arg || match lookup(npcs, id) {
        Some(n) => eq_ignore_case(n.name, arg),
        None => false,
    }
}

/// The first NPC in `room` that `arg` names.
pub open spec fn find_npc_spec(w: GameWorldView, room: Seq<char>, arg: Seq<char>) -> Option<Seq<char>> {
    match lookup(w.world.locations, room) {
        None => None,
        Some(loc) => {
            let k = first_pos(loc.npcs, npc_like(w.npcs, arg));
            if k < 0 {
                None
            } else {
                Some(loc.npcs[k])
            }
        },
    }
}

/// Finds the NPC standing in `room` that `npc_arg` names, by id or by display name.
pub fn find_npc_in_room(w: &GameWorld, room: &str, npc_arg: &str) -> (r: Option<String>)
    ensures
        opt_str(r) == find_npc_spec(w@, room@, npc_arg@),
{
    let li = match find_key(&w.world.locations, chars_of(room).as_slice()) {
        Some(li) => li,
        None => return None,
    };
    proof {
        lemma_key_pos(w@.world.locations, room@);
    }
    let ghost f = npc_like(w@.npcs, npc_arg@);
    let npcs = &w.world.locations[li].1.npcs;
    let ghost ids = strs(npcs@);
    let arg = chars_of(npc_arg);
    let mut k: usize = 0;
    while k < npcs.len()
        invariant
            k <= npcs@.len(),
            ids == strs(npcs@),
            lookup(w@.world.locations, room@) == Some(w@.world.locations[li as int].1),
            w@.world.locations[li as int].1.npcs == ids,
            f == npc_like(w@.npcs, npc_arg@),
            arg@ == npc_arg@,
            forall|j: int| 0 <= j < k ==> !f(#[trigger] ids[j]),
        decreases npcs@.len() - k,
    {
        let id = chars_of(npcs[k].as_str());
        let by_name = match find_key(&w.npcs, id.as_slice()) {
            Some(ni) => {
                proof {
                    lemma_key_pos(w@.npcs, id@);
                }
                same_ignoring_case(chars_of(w.npcs[ni].1.name.as_str()).as_slice(), arg.as_slice())
            },
            None => false,
        };
        let same = same_chars(id.as_slice(), arg.as_slice());
        assert((same || by_name) == f(ids[k as int]));
        if same || by_name {
            proof {
                lemma_first_pos_at(ids, f, k as int);
            }
            return Some(npcs[k].clone());
        }
        k = k + 1;
    }
    proof {
        lemma_first_pos_none(ids, f);
    }
    None
}

/// `TALK <npc>`: the next line of the NPC's dialogue for this player; each player hears
/// the lines in turn from the first.
pub open spec fn talk_spec(s: ServerView, name: Seq<char>, rest: Option<Seq<char>>) -> Effect {
    match rest {
        None => refused(s, "400 MALFORMED_COMMAND"@),
        Some(r) => {
            let arg = trim(r);
            let i = player_pos(s.players, name);
            if i < 0 {
                quiet(s)
            } else {
                let p = s.players[i];
                match find_npc_spec(s.world, p.room, arg) {
                    None => refused(s, "404 NPC_NOT_FOUND"@),
                    Some(id) => match lookup(s.world.npcs, id) {
                        Some(n) => if n.dialogue.len() > 0 {
                            let dp = p.dialogue_progress;
                            let k = key_pos(dp, id);
                            let c: usize = if k < 0 {
                                0
                            } else {
                                dp[k].1
                            };
                            let c2: usize = if c == usize::MAX {
                                0
                            } else {
                                (c + 1) as usize
                            };
                            let dp2 = if k < 0 {
                                dp.push((id, c2))
                            } else {
                                dp.update(k, (id, c2))
                            };
                            said(
                                with_player(s, i, PlayerView { dialogue_progress: dp2, ..p }),
                                seq![
                                    reply_caller(
                                        ReplyView::Talk(id, n.dialogue[(c as int) % (n.dialogue.len() as int)]),
                                    ),
                                ],
                            )
                        } else {
                            refused(s, "404 NPC_NOT_FOUND"@)
                        },
                        None => refused(s, "404 NPC_NOT_FOUND"@),
                    },
                }
            }
        },
    }
}

impl GameServer {
    #[verifier::rlimit(40)]
    pub fn talk(&mut self, name: &str, rest: Option<&[char]>, out: &mut Vec<Outgoing>)
        requires
            server_ok(old(self)@),
        ensures
            server_ok(final(self)@),
            final(self)@ == talk_spec(old(self)@, name@, opt_chars(rest)).state,
            out_views(final(out)@) == out_views(old(out)@) + talk_spec(
                old(self)@,
                name@,
                opt_chars(rest),
            ).out,
    {
        let r = match rest {
            None => {
                say_err(out, "400 MALFORMED_COMMAND");
                return ;
            },
            Some(r) => r,
        };
        let arg = string_of(trim_chars(r).as_slice());
        let i = match self.find_player(name) {
            Some(i) => i,
            None => {
                assert(out_views(out@) =~= out_views(out@) + Seq::<OutView>::empty());
                return ;
            },
        };
        let ghost s0 = self@;
        let ghost p0 = s0.players[i as int];
        let id = match find_npc_in_room(&self.world, self.players[i].room.as_str(), arg.as_str()) {
            Some(id) => id,
            None => {
                say_err(out, "404 NPC_NOT_FOUND");
                return ;
            },
        };
        let ni = match find_key(&self.world.npcs, chars_of(id.as_str()).as_slice()) {
            Some(ni) => ni,
            None => {
                say_err(out, "404 NPC_NOT_FOUND");
                return ;
            },
        };
        proof {
            lemma_key_pos(s0.world.npcs, id@);
        }
        let lines = self.world.npcs[ni].1.dialogue.len();
        if lines == 0 {
            say_err(out, "404 NPC_NOT_FOUND");
            return ;
        }
        let ghost dp = p0.dialogue_progress;
        let ghost ps0 = self.players@;
        let c: usize;
        match find_key(&self.players[i].dialogue_progress, chars_of(id.as_str()).as_slice()) {
            Some(k) => {
                proof {
                    lemma_key_pos(dp, id@);
                }
                c = self.players[i].dialogue_progress[k].1;
                let c2 = c.wrapping_add(1);
                assert(c2 == (if c == usize::MAX { 0 } else { (c + 1) as usize }));
                self.players[i].dialogue_progress[k].1 = c2;
                assert(self.players@ =~= ps0.update(i as int, self.players@[i as int]));
                assert(self@.players[i as int].dialogue_progress =~= dp.update(k as int, (id@, c2)));
            },
            None => {
                c = 0;
                self.players[i].dialogue_progress.push((id.clone(), 1));
                assert(self.players@ =~= ps0.update(i as int, self.players@[i as int]));
                assert(self@.players[i as int].dialogue_progress =~= dp.push((id@, 1usize)));
            },
        }
        proof {
            GameServer::lemma_players_after(ps0, self.players@, i as int);
            lemma_ok_with_player(s0, i as int, self@.players[i as int]);
        }
        let line = self.world.npcs[ni].1.dialogue[c % lines].clone();
        answer(out, Reply::Talk(TalkReply { npc: id, dialogue: line }));
    }
}

/// A journal entry for quest `qid`: its name (the id where the quest is unknown), its
/// description (empty where unknown), a status and a progress text.
pub open spec fn quest_entry(
    quests: Seq<(Seq<char>, QuestView)>,
    qid: Seq<char>,
    status: Seq<char>,
    progress: Seq<char>,
) -> QuestEntryView {
    QuestEntryView {
        quest_id: qid,
        name: match lookup(quests, qid) {
            Some(q) => q.name,
            None => qid,
        },
        description: match lookup(quests, qid) {
            Some(q) => q.description,
            None => Seq::empty(),
        },
        status,
        progress,
    }
}

/// The steps quest `qid` needs (one where the quest is unknown).
pub open spec fn total_of(quests: Seq<(Seq<char>, QuestView)>, qid: Seq<char>) -> u32 {
    match lookup(quests, qid) {
        Some(q) => quest_total(q),
        None => 1,
    }
}

/// The steps made on quest `qid` (none where there is no entry).
pub open spec fn count_of(prog: Seq<(Seq<char>, u32)>, qid: Seq<char>) -> u32 {
    match lookup(prog, qid) {
        Some(c) => c,
        None => 0,
    }
}

/// `a/b` in decimal.
pub open spec fn fraction(a: u32, b: u32) -> Seq<char> {
    decimal(a as nat) + "/"@ + decimal(b as nat)
}

/// `prog` with `qid` set to `v`: replaced where present, appended otherwise.
pub open spec fn map_insert(prog: Seq<(Seq<char>, u32)>, qid: Seq<char>, v: u32) -> Seq<(Seq<char>, u32)> {
    let k = key_pos(prog, qid);
    if k < 0 {
        prog.push((qid, v))
    } else {
        prog.update(k, (qid, v))
    }
}

pub open spec fn in_list(l: Seq<Seq<char>>) -> spec_fn(Seq<char>) -> bool {
    |q: Seq<char>| l.contains(q)
}

pub open spec fn not_in_list(l: Seq<Seq<char>>) -> spec_fn(Seq<char>) -> bool {
    |q: Seq<char>| !l.contains(q)
}

/// The item a fetch quest asks for; none for other quests.
pub open spec fn fetched_item(quests: Seq<(Seq<char>, QuestView)>, qid: Seq<char>) -> Option<Seq<char>> {
    match lookup(quests, qid) {
        Some(q) => q.objective.item,
        None => None,
    }
}

/// Whether an accepted quest is done: a fetch quest when the item it asks for is in the
/// inventory, any other quest when its counted steps reach its total.
pub open spec fn quest_done(inv: Seq<Seq<char>>, needed: Option<Seq<char>>, cur: u32, total: u32) -> bool {
    match needed {
        Some(it) => inv.contains(it),
        None => cur >= total,
    }
}

/// The inventory once the item a quest asks for is handed over (its first occurrence).
pub open spec fn consume(inv: Seq<Seq<char>>, needed: Option<Seq<char>>) -> Seq<Seq<char>> {
    match needed {
        Some(it) => inv.remove(text_pos(inv, it)),
        None => inv,
    }
}

/// `QUEST <npc>`: for the first quest the NPC offers that the player has accepted, reports
/// progress, or completes it when it is done (a fetch quest when its item is in the
/// inventory, which is then handed over; another quest when every step is counted): the
/// reward goes into the inventory. Otherwise accepts the first offered quest not yet
/// completed.
pub open spec fn quest_spec(s: ServerView, name: Seq<char>, rest: Option<Seq<char>>) -> Effect {
    match rest {
        None => refused(s, "400 MALFORMED_COMMAND"@),
        Some(r) => {
            let arg = trim(r);
            let i = player_pos(s.players, name);
            if i < 0 {
                quiet(s)
            } else {
                let p = s.players[i];
                let quests = s.world.quests;
                match find_npc_spec(s.world, p.room, arg) {
                    None => refused(s, "404 NPC_NOT_FOUND"@),
                    Some(id) => {
                        let offered = match lookup(s.world.npcs, id) {
                            Some(n) => n.quests,
                            None => Seq::empty(),
                        };
                        let a = first_pos(offered, in_list(p.quest_to_do));
                        let b = first_pos(offered, not_in_list(p.quest_dine));
                        if offered.len() == 0 {
                            refused(s, "406 NO_QUEST_AVAILABLE"@)
                        } else if a >= 0 {
                            let qid = offered[a];
                            let total = total_of(quests, qid);
                            let cur = count_of(p.quest_progress, qid);
                            let needed = fetched_item(quests, qid);
                            if quest_done(p.inventory, needed, cur, total) {
                                let kept = consume(p.inventory, needed);
                                let p2 = PlayerView {
                                    quest_to_do: remove_all(p.quest_to_do, qid),
                                    quest_dine: p.quest_dine.push(qid),
                                    inventory: match lookup(quests, qid) {
                                        Some(q) => kept.push(q.reward_item),
                                        None => kept,
                                    },
                                    ..p
                                };
                                said(
                                    with_player(s, i, p2),
                                    seq![
                                        reply_caller(
                                            ReplyView::Quest(
                                                quest_entry(quests, qid, "completed"@, "done"@),
                                            ),
                                        ),
                                    ],
                                )
                            } else {
                                said(
                                    s,
                                    seq![
                                        reply_caller(
                                            ReplyView::Quest(
                                                quest_entry(
                                                    quests,
                                                    qid,
                                                    "in_progress"@,
                                                    fraction(cur, total),
                                                ),
                                            ),
                                        ),
                                    ],
                                )
                            }
                        } else if b >= 0 {
                            let qid = offered[b];
                            let p2 = PlayerView {
                                quest_to_do: p.quest_to_do.push(qid),
                                quest_progress: map_insert(p.quest_progress, qid, 0),
                                ..p
                            };
                            said(
                                with_player(s, i, p2),
                                seq![
                                    reply_caller(
                                        ReplyView::Quest(
                                            quest_entry(
                                                quests,
                                                qid,
                                                "in_progress"@,
                                                fraction(0, total_of(quests, qid)),
                                            ),
                                        ),
                                    ),
                                ],
                            )
                        } else {
                            refused(s, "412 QUEST_ALREADY_COMPLETED"@)
                        }
                    },
                }
            }
        },
    }
}

/// The journal: accepted quests with their progress, then completed ones.
pub open spec fn journal(quests: Seq<(Seq<char>, QuestView)>, p: PlayerView) -> Seq<QuestEntryView> {
    p.quest_to_do.map_values(
        |q: Seq<char>|
            quest_entry(
                quests,
                q,
                "in_progress"@,
                fraction(count_of(p.quest_progress, q), total_of(quests, q)),
            ),
    ) + p.quest_dine.map_values(|q: Seq<char>| quest_entry(quests, q, "completed"@, "done"@))
}

/// `QUESTS`: the caller's journal.
pub open spec fn quests_spec(s: ServerView, name: Seq<char>) -> Effect {
    let i = player_pos(s.players, name);
    if i < 0 {
        quiet(s)
    } else {
        said(s, seq![reply_caller(ReplyView::Quests(journal(s.world.quests, s.players[i])))])
    }
}

fn number_text(n: u32) -> (r: String)
    ensures
        r@ == decimal(n as nat),
{
    string_of(crate::text::decimal_chars(n as u64).as_slice())
}

fn fraction_text(a: u32, b: u32) -> (r: String)
    ensures
        r@ == fraction(a, b),
{
    number_text(a).concat("/").concat(number_text(b).as_str())
}

impl GameServer {
    fn total_for(&self, qid: &str) -> (r: u32)
        ensures
            r == total_of(self@.world.quests, qid@),
    {
        match find_key(&self.world.quests, chars_of(qid).as_slice()) {
            Some(qi) => {
                proof {
                    lemma_key_pos(self@.world.quests, qid@);
                }
                match self.world.quests[qi].1.objective.count {
                    Some(c) => c,
                    None => 1,
                }
            },
            None => 1,
        }
    }

    fn entry_for(&self, qid: &str, status: &str, progress: String) -> (r: QuestReply)
        ensures
            quest_entry_view(r) == quest_entry(self@.world.quests, qid@, status@, progress@),
    {
        let (qname, desc) = match find_key(&self.world.quests, chars_of(qid).as_slice()) {
            Some(qi) => {
                proof {
                    lemma_key_pos(self@.world.quests, qid@);
                }
                (self.world.quests[qi].1.name.clone(), self.world.quests[qi].1.description.clone())
            },
            None => (String::from_str(qid), String::new()),
        };
        QuestReply {
            quest_id: String::from_str(qid),
            name: qname,
            description: desc,
            status: String::from_str(status),
            progress,
        }
    }

    fn progress_of(p: &crate::server::player::Player, qid: &str) -> (r: u32)
        ensures
            r == count_of(p@.quest_progress, qid@),
    {
        match find_key(&p.quest_progress, chars_of(qid).as_slice()) {
            Some(k) => {
                proof {
                    lemma_key_pos(p@.quest_progress, qid@);
                }
                p.quest_progress[k].1
            },
            None => 0,
        }
    }

    pub fn quests(&self, name: &str, out: &mut Vec<Outgoing>)
        ensures
            quests_spec(self@, name@).state == self@,
            out_views(final(out)@) == out_views(old(out)@) + quests_spec(self@, name@).out,
    {
        let i = match self.find_player(name) {
            Some(i) => i,
            None => {
                assert(out_views(out@) =~= out_views(out@) + Seq::<OutView>::empty());
                return ;
            },
        };
        let p = &self.players[i];
        let ghost pv = self@.players[i as int];
        let ghost quests = self@.world.quests;
        let ghost open_part = pv.quest_to_do.map_values(
            |q: Seq<char>|
                quest_entry(
                    quests,
                    q,
                    "in_progress"@,
                    fraction(count_of(pv.quest_progress, q), total_of(quests, q)),
                ),
        );
        let ghost done_part = pv.quest_dine.map_values(
            |q: Seq<char>| quest_entry(quests, q, "completed"@, "done"@),
        );
        let mut list: Vec<QuestReply> = Vec::new();
        assert(quest_entry_views(list@) =~= open_part.take(0));
        let mut k: usize = 0;
        while k < p.quest_to_do.len()
            invariant
                k <= p.quest_to_do@.len(),
                pv == p@,
                quests == self@.world.quests,
                open_part.len() == pv.quest_to_do.len(),
                forall|j: int|
                    0 <= j < open_part.len() ==> #[trigger] open_part[j] == quest_entry(
                        quests,
                        pv.quest_to_do[j],
                        "in_progress"@,
                        fraction(
                            count_of(pv.quest_progress, pv.quest_to_do[j]),
                            total_of(quests, pv.quest_to_do[j]),
                        ),
                    ),
                quest_entry_views(list@) == open_part.take(k as int),
            decreases p.quest_to_do@.len() - k,
        {
            let qid = p.quest_to_do[k].as_str();
            let prog = fraction_text(GameServer::progress_of(p, qid), self.total_for(qid));
            let e = self.entry_for(qid, "in_progress", prog);
            let ghost l0 = list@;
            list.push(e);
            assert(quest_entry_views(list@) =~= quest_entry_views(l0).push(quest_entry_view(e)));
            assert(open_part.take(k + 1) =~= open_part.take(k as int).push(open_part[k as int]));
            k = k + 1;
        }
        assert(open_part.take(p.quest_to_do@.len() as int) == open_part);
        assert(open_part + done_part.take(0) =~= open_part);
        let mut k: usize = 0;
        while k < p.quest_dine.len()
            invariant
                k <= p.quest_dine@.len(),
                pv == p@,
                quests == self@.world.quests,
                done_part.len() == pv.quest_dine.len(),
                forall|j: int|
                    0 <= j < done_part.len() ==> #[trigger] done_part[j] == quest_entry(
                        quests,
                        pv.quest_dine[j],
                        "completed"@,
                        "done"@,
                    ),
                quest_entry_views(list@) == open_part + done_part.take(k as int),
            decreases p.quest_dine@.len() - k,
        {
            let qid = p.quest_dine[k].as_str();
            let e = self.entry_for(qid, "completed", text("done"));
            let ghost l0 = list@;
            list.push(e);
            assert(quest_entry_views(list@) =~= quest_entry_views(l0).push(quest_entry_view(e)));
            assert(open_part + done_part.take(k + 1) =~= (open_part + done_part.take(k as int)).push(
                done_part[k as int],
            ));
            k = k + 1;
        }
        assert(done_part.take(p.quest_dine@.len() as int) == done_part);
        answer(out, Reply::Quests(list));
    }

    #[verifier::rlimit(60)]
    pub fn quest(&mut self, name: &str, rest: Option<&[char]>, out: &mut Vec<Outgoing>)
        requires
            server_ok(old(self)@),
        ensures
            server_ok(final(self)@),
            final(self)@ == quest_spec(old(self)@, name@, opt_chars(rest)).state,
            out_views(final(out)@) == out_views(old(out)@) + quest_spec(
                old(self)@,
                name@,
                opt_chars(rest),
            ).out,
    {
        let r = match rest {
            None => {
                say_err(out, "400 MALFORMED_COMMAND");
                return ;
            },
            Some(r) => r,
        };
        let arg = string_of(trim_chars(r).as_slice());
        let i = match self.find_player(name) {
            Some(i) => i,
            None => {
                assert(out_views(out@) =~= out_views(out@) + Seq::<OutView>::empty());
                return ;
            },
        };
        let ghost s0 = self@;
        let ghost p0 = s0.players[i as int];
        let id = match find_npc_in_room(&self.world, self.players[i].room.as_str(), arg.as_str()) {
            Some(id) => id,
            None => {
                say_err(out, "404 NPC_NOT_FOUND");
                return ;
            },
        };
        let offered: Vec<String> = match find_key(&self.world.npcs, chars_of(id.as_str()).as_slice()) {
            Some(ni) => {
                proof {
                    lemma_key_pos(s0.world.npcs, id@);
                }
                copy_texts(&self.world.npcs[ni].1.quests)
            },
            None => {
                let v: Vec<String> = Vec::new();
                assert(strs(v@) =~= Seq::<Seq<char>>::empty());
                v
            },
        };
        if offered.len() == 0 {
            say_err(out, "406 NO_QUEST_AVAILABLE");
            return ;
        }
        let ghost off = strs(offered@);
        // The first offered quest already accepted.
        let ghost fa = in_list(p0.quest_to_do);
        let mut a: usize = 0;
        let mut hit = false;
        while a < offered.len()
            invariant_except_break
                !hit,
            invariant
                a <= offered@.len(),
                off == strs(offered@),
                fa == in_list(p0.quest_to_do),
                i < self.players@.len(),
                self@ == s0,
                p0 == s0.players[i as int],
                forall|j: int| 0 <= j < a ==> !fa(#[trigger] off[j]),
            ensures
                hit ==> a < offered@.len() && fa(off[a as int]),
                !hit ==> a == offered@.len(),
            decreases offered@.len() - a,
        {
            let found = find_text(&self.players[i].quest_to_do, offered[a].as_str());
            proof {
                lemma_text_pos(p0.quest_to_do, off[a as int]);
            }
            if found.is_some() {
                hit = true;
                break;
            }
            a = a + 1;
        }
        if hit {
            proof {
                crate::text::lemma_first_pos_at(off, fa, a as int);
            }
            let qid = offered[a].clone();
            let total = self.total_for(qid.as_str());
            let cur = GameServer::progress_of(&self.players[i], qid.as_str());
            let (reward, needed): (Option<String>, Option<String>) = match find_key(
                &self.world.quests,
                chars_of(qid.as_str()).as_slice(),
            ) {
                Some(qi) => {
                    proof {
                        lemma_key_pos(s0.world.quests, qid@);
                    }
                    (
                        Some(self.world.quests[qi].1.reward.item.clone()),
                        match &self.world.quests[qi].1.objective.item {
                            Some(it) => Some(it.clone()),
                            None => None,
                        },
                    )
                },
                None => (None, None),
            };
            assert(opt_str(needed) == fetched_item(s0.world.quests, qid@));
            let at: Option<usize> = match &needed {
                Some(it) => {
                    proof {
                        lemma_text_pos(p0.inventory, it@);
                    }
                    find_text(&self.players[i].inventory, it.as_str())
                },
                None => None,
            };
            let done = match &needed {
                Some(_) => at.is_some(),
                None => cur >= total,
            };
            assert(done == quest_done(p0.inventory, fetched_item(s0.world.quests, qid@), cur, total));
            if done {
                let ghost ps0 = self.players@;
                let to_do = crate::text::without(&self.players[i].quest_to_do, qid.as_str());
                self.players[i].quest_to_do = to_do;
                self.players[i].quest_dine.push(qid.clone());
                match at {
                    Some(k) => {
                        self.players[i].inventory.remove(k);
                    },
                    None => {},
                }
                proof {
                    assert(strs(self.players@[i as int].inventory@) =~= consume(
                        p0.inventory,
                        fetched_item(s0.world.quests, qid@),
                    ));
                }
                match reward {
                    Some(it) => self.players[i].inventory.push(it),
                    None => {},
                }
                proof {
                    assert(self.players@ =~= ps0.update(i as int, self.players@[i as int]));
                    GameServer::lemma_players_after(ps0, self.players@, i as int);
                    assert(self@.players[i as int].quest_dine =~= p0.quest_dine.push(qid@));
                    let kept = consume(p0.inventory, fetched_item(s0.world.quests, qid@));
                    assert(self@.players[i as int].inventory =~= match lookup(s0.world.quests, qid@) {
                        Some(q) => kept.push(q.reward_item),
                        None => kept,
                    });
                    lemma_ok_with_player(s0, i as int, self@.players[i as int]);
                }
                let e = self.entry_for(qid.as_str(), "completed", text("done"));
                answer(out, Reply::Quest(e));
            } else {
                let e = self.entry_for(qid.as_str(), "in_progress", fraction_text(cur, total));
                answer(out, Reply::Quest(e));
            }
            return ;
        }
        proof {
            crate::text::lemma_first_pos_none(off, fa);
        }
        let ghost fb = not_in_list(p0.quest_dine);
        let mut b: usize = 0;
        let mut hit_b = false;
        while b < offered.len()
            invariant_except_break
                !hit_b,
            invariant
                b <= offered@.len(),
                off == strs(offered@),
                fb == not_in_list(p0.quest_dine),
                i < self.players@.len(),
                self@ == s0,
                p0 == s0.players[i as int],
                forall|j: int| 0 <= j < b ==> !fb(#[trigger] off[j]),
            ensures
                hit_b ==> b < offered@.len() && fb(off[b as int]),
                !hit_b ==> b == offered@.len(),
            decreases offered@.len() - b,
        {
            let found = find_text(&self.players[i].quest_dine, offered[b].as_str());
            proof {
                lemma_text_pos(p0.quest_dine, off[b as int]);
            }
            if found.is_none() {
                hit_b = true;
                break;
            }
            b = b + 1;
        }
        if !hit_b {
            proof {
                crate::text::lemma_first_pos_none(off, fb);
            }
            say_err(out, "412 QUEST_ALREADY_COMPLETED");
            return ;
        }
        proof {
            crate::text::lemma_first_pos_at(off, fb, b as int);
        }
        let qid = offered[b].clone();
        let ghost ps0 = self.players@;
        self.players[i].quest_to_do.push(qid.clone());
        let ghost prog0 = p0.quest_progress;
        match find_key(&self.players[i].quest_progress, chars_of(qid.as_str()).as_slice()) {
            Some(k) => {
                proof {
                    lemma_key_pos(prog0, qid@);
                }
                self.players[i].quest_progress[k].1 = 0;
                assert(self.players@[i as int].quest_progress@ =~= ps0[i as int].quest_progress@.update(k as int, (ps0[i as int].quest_progress@[k as int].0, 0u32)));
                assert(self@.players[i as int].quest_progress =~= map_insert(prog0, qid@, 0));
            },
            None => {
                self.players[i].quest_progress.push((qid.clone(), 0));
                assert(self@.players[i as int].quest_progress =~= map_insert(prog0, qid@, 0));
            },
        }
        proof {
            assert(self.players@ =~= ps0.update(i as int, self.players@[i as int]));
            GameServer::lemma_players_after(ps0, self.players@, i as int);
            assert(self@.players[i as int].quest_to_do =~= p0.quest_to_do.push(qid@));
            lemma_ok_with_player(s0, i as int, self@.players[i as int]);
        }
        let total = self.total_for(qid.as_str());
        let e = self.entry_for(qid.as_str(), "in_progress", fraction_text(0, total));
        answer(out, Reply::Quest(e));
    }
}

/// `s` with the NPC `id` replaced, where it exists.
pub open spec fn set_npc(s: ServerView, id: Seq<char>, n: NpcView) -> ServerView {
    let k = key_pos(s.world.npcs, id);
    if k < 0 {
        s
    } else {
        crate::server::game::with_npc(s, k, n)
    }
}

/// `s` with the NPC `id` free to fight again.
pub open spec fn free_npc(s: ServerView, id: Seq<char>) -> ServerView {
    match lookup(s.world.npcs, id) {
        Some(n) => set_npc(s, id, NpcView { engaged_by: None, ..n }),
        None => s,
    }
}

/// A player out of any fight.
pub open spec fn calm(p: PlayerView) -> PlayerView {
    PlayerView { combat: "healthy"@, target_npc: None, ..p }
}

pub open spec fn sat_sub(a: u32, b: u32) -> u32 {
    if a >= b {
        (a - b) as u32
    } else {
        0
    }
}

/// A combat reply to the caller.
pub open spec fn combat_out(
    action: Seq<char>,
    attacker_hp: u32,
    target_hp: u32,
    damage_dealt: u32,
    damage_taken: u32,
    status: Seq<char>,
    message: Option<Seq<char>>,
) -> OutView {
    reply_caller(
        ReplyView::Combat(
            CombatView { action, attacker_hp, target_hp, damage_dealt, damage_taken, status, message },
        ),
    )
}

/// The NPC the player is fighting, if they are fighting.
pub open spec fn foe(s: ServerView, name: Seq<char>) -> Option<Seq<char>> {
    let i = player_pos(s.players, name);
    if i >= 0 && s.players[i].combat == "in_combat"@ {
        s.players[i].target_npc
    } else {
        None
    }
}

/// The caller (player `i`) died fighting `id`: back in the respawn room with 50 hp, out of
/// the fight, the NPC free; the room they died in is told.
pub open spec fn death_spec(
    s: ServerView,
    i: int,
    name: Seq<char>,
    id: Seq<char>,
    npc_hp: u32,
    action: Seq<char>,
    dealt: u32,
    taken: u32,
) -> Effect {
    let p = s.players[i];
    let respawn = s.world.world.respawn_location;
    let s2 = with_player(
        free_npc(s, id),
        i,
        PlayerView { hp: 50, combat: "healthy"@, target_npc: None, room: respawn, ..p },
    );
    said(
        s2,
        seq![
            combat_out(
                action,
                0,
                npc_hp,
                dealt,
                taken,
                "dead"@,
                Some("you died, respawned in "@ + respawn + " with 50 hp"@),
            ),
        ] + cast(
            s2.players,
            AudienceView::Room(p.room),
            Some(name),
            "EVT ROOM CHAT "@ + name + " * dynamic combat died fighting "@ + id,
        ),
    )
}

/// `FLEE`: leaves the fight at no cost; the NPC is free and the room is told.
pub open spec fn flee_spec(s: ServerView, name: Seq<char>) -> Effect {
    match foe(s, name) {
        None => refused(s, "407 NOT_IN_COMBAT"@),
        Some(id) => {
            let i = player_pos(s.players, name);
            let p = s.players[i];
            let s2 = with_player(free_npc(s, id), i, calm(p));
            said(
                s2,
                seq![combat_out("flee"@, p.hp, 0, 0, 0, "fled"@, Some("you fled the combat"@))]
                    + cast(
                    s2.players,
                    AudienceView::Room(p.room),
                    Some(name),
                    "EVT ROOM CHAT "@ + name + " * dynamic combat fled from "@ + id,
                ),
            )
        },
    }
}

/// `DEFEND`: deals nothing and takes half the NPC's damage.
pub open spec fn defend_spec(s: ServerView, name: Seq<char>) -> Effect {
    match foe(s, name) {
        None => refused(s, "407 NOT_IN_COMBAT"@),
        Some(id) => {
            let i = player_pos(s.players, name);
            let p = s.players[i];
            let dmg: u32 = match lookup(s.world.npcs, id) {
                Some(n) => match n.stats.damage {
                    Some(d) => d,
                    None => 0,
                },
                None => 0,
            };
            let red = (dmg / 2) as u32;
            let php = sat_sub(p.hp, red);
            let s1 = with_player(s, i, PlayerView { hp: php, ..p });
            let nhp: u32 = match lookup(s.world.npcs, id) {
                Some(n) => n.stats.hp,
                None => 0,
            };
            if php < 1 {
                death_spec(s1, i, name, id, nhp, "defend"@, 0, red)
            } else {
                said(s1, seq![combat_out("defend"@, php, nhp, 0, red, "in_combat"@, None)])
            }
        },
    }
}

impl GameServer {
    /// Frees NPC `id`, where it exists.
    fn free_npc_now(&mut self, id: &str)
        requires
            server_ok(old(self)@),
        ensures
            server_ok(final(self)@),
            final(self)@ == free_npc(old(self)@, id@),
    {
        match find_key(&self.world.npcs, chars_of(id).as_slice()) {
            Some(ni) => {
                let ghost s0 = self@;
                proof {
                    lemma_key_pos(s0.world.npcs, id@);
                }
                let ghost n0 = s0.world.npcs[ni as int].1;
                let ghost t0 = self.world.npcs@;
                self.world.npcs[ni].1.engaged_by = None;
                assert(self.world.npcs@ =~= t0.update(ni as int, self.world.npcs@[ni as int]));
                assert(self@.world.npcs =~= s0.world.npcs.update(
                    ni as int,
                    (s0.world.npcs[ni as int].0, NpcView { engaged_by: None, ..n0 }),
                ));
                proof {
                    crate::server::game::lemma_ok_with_npc(s0, ni as int, NpcView { engaged_by: None, ..n0 });
                }
            },
            None => {},
        }
    }

    /// The caller, player `i`, died fighting `id`.
    #[verifier::rlimit(30)]
    fn die(
        &mut self,
        i: usize,
        name: &str,
        id: &str,
        npc_hp: u32,
        action: &str,
        dealt: u32,
        taken: u32,
        out: &mut Vec<Outgoing>,
    )
        requires
            server_ok(old(self)@),
            i < old(self)@.players.len(),
            old(self)@.players[i as int].name == name@,
        ensures
            server_ok(final(self)@),
            final(self)@ == death_spec(old(self)@, i as int, name@, id@, npc_hp, action@, dealt, taken).state,
            out_views(final(out)@) == out_views(old(out)@) + death_spec(
                old(self)@,
                i as int,
                name@,
                id@,
                npc_hp,
                action@,
                dealt,
                taken,
            ).out,
    {
        let ghost s0 = self@;
        let ghost p0 = s0.players[i as int];
        let ghost o0 = out_views(out@);
        let respawn = self.world.world.respawn_location.clone();
        let old_room = self.players[i].room.clone();
        self.free_npc_now(id);
        let ghost s1 = self@;
        let ghost ps0 = self.players@;
        self.players[i].hp = 50;
        self.players[i].combat = text("healthy");
        self.players[i].target_npc = None;
        self.players[i].room = respawn.clone();
        proof {
            assert(self.players@ =~= ps0.update(i as int, self.players@[i as int]));
            GameServer::lemma_players_after(ps0, self.players@, i as int);
            lemma_key_pos(s1.world.world.locations, respawn@);
            lemma_ok_with_player(s1, i as int, self@.players[i as int]);
        }
        let msg = join2("you died, respawned in ", respawn.as_str()).concat(" with 50 hp");
        answer(
            out,
            Reply::Combat(
                CombatReply {
                    action: text(action),
                    attacker_hp: 0,
                    target_hp: npc_hp,
                    damage_dealt: dealt,
                    damage_taken: taken,
                    status: text("dead"),
                    message: Some(msg),
                },
            ),
        );
        let line = join2("EVT ROOM CHAT ", name).concat(" * dynamic combat died fighting ").concat(id);
        self.broadcast(out, &Audience::Room(old_room), Some(name), line.as_str());
        assert(out_views(out@) =~= o0 + death_spec(s0, i as int, name@, id@, npc_hp, action@, dealt, taken).out);
    }

    fn foe_of(&self, name: &str) -> (r: Option<(usize, String)>)
        ensures
            match r {
                Some((i, id)) => foe(self@, name@) == Some(id@) && i == player_pos(self@.players, name@)
                    && i < self.players@.len() && self@.players[i as int].name == name@,
                None => foe(self@, name@) is None,
            },
    {
        match self.find_player(name) {
            Some(i) => {
                if is_lit(chars_of(self.players[i].combat.as_str()).as_slice(), "in_combat") {
                    match &self.players[i].target_npc {
                        Some(t) => Some((i, t.clone())),
                        None => None,
                    }
                } else {
                    None
                }
            },
            None => None,
        }
    }

    pub fn flee(&mut self, name: &str, out: &mut Vec<Outgoing>)
        requires
            server_ok(old(self)@),
        ensures
            server_ok(final(self)@),
            final(self)@ == flee_spec(old(self)@, name@).state,
            out_views(final(out)@) == out_views(old(out)@) + flee_spec(old(self)@, name@).out,
    {
        let (i, id) = match self.foe_of(name) {
            Some(f) => f,
            None => {
                say_err(out, "407 NOT_IN_COMBAT");
                return ;
            },
        };
        let ghost s0 = self@;
        let ghost o0 = out_views(out@);
        let room = self.players[i].room.clone();
        let hp = self.players[i].hp;
        self.free_npc_now(id.as_str());
        let ghost s1 = self@;
        let ghost ps0 = self.players@;
        self.players[i].combat = text("healthy");
        self.players[i].target_npc = None;
        proof {
            assert(self.players@ =~= ps0.update(i as int, self.players@[i as int]));
            GameServer::lemma_players_after(ps0, self.players@, i as int);
            lemma_ok_with_player(s1, i as int, self@.players[i as int]);
        }
        answer(
            out,
            Reply::Combat(
                CombatReply {
                    action: text("flee"),
                    attacker_hp: hp,
                    target_hp: 0,
                    damage_dealt: 0,
                    damage_taken: 0,
                    status: text("fled"),
                    message: Some(text("you fled the combat")),
                },
            ),
        );
        let line = join2("EVT ROOM CHAT ", name).concat(" * dynamic combat fled from ").concat(id.as_str());
        self.broadcast(out, &Audience::Room(room), Some(name), line.as_str());
        assert(out_views(out@) =~= o0 + flee_spec(s0, name@).out);
    }

    pub fn defend(&mut self, name: &str, out: &mut Vec<Outgoing>)
        requires
            server_ok(old(self)@),
        ensures
            server_ok(final(self)@),
            final(self)@ == defend_spec(old(self)@, name@).state,
            out_views(final(out)@) == out_views(old(out)@) + defend_spec(old(self)@, name@).out,
    {
        let (i, id) = match self.foe_of(name) {
            Some(f) => f,
            None => {
                say_err(out, "407 NOT_IN_COMBAT");
                return ;
            },
        };
        let ghost s0 = self@;
        let (dmg, nhp): (u32, u32) = match find_key(&self.world.npcs, chars_of(id.as_str()).as_slice()) {
            Some(ni) => {
                proof {
                    lemma_key_pos(s0.world.npcs, id@);
                }
                let d = match self.world.npcs[ni].1.stats.damage {
                    Some(d) => d,
                    None => 0,
                };
                (d, self.world.npcs[ni].1.stats.hp)
            },
            None => (0, 0),
        };
        let red = dmg / 2;
        let hp0 = self.players[i].hp;
        let php = if hp0 >= red {
            hp0 - red
        } else {
            0
        };
        let ghost ps0 = self.players@;
        self.players[i].hp = php;
        proof {
            GameServer::lemma_players_after(ps0, self.players@, i as int);
            lemma_ok_with_player(s0, i as int, self@.players[i as int]);
        }
        assert(self@.players[i as int].name == name@);
        if php < 1 {
            self.die(i, name, id.as_str(), nhp, "defend", 0, red, out);
        } else {
            answer(
                out,
                Reply::Combat(
                    CombatReply {
                        action: text("defend"),
                        attacker_hp: php,
                        target_hp: nhp,
                        damage_dealt: 0,
                        damage_taken: red,
                        status: text("in_combat"),
                        message: None,
                    },
                ),
            );
        }
    }
}


/// Whether the player `name` is in a fight.
pub open spec fn fighting(s: ServerView, name: Seq<char>) -> bool {
    let i = player_pos(s.players, name);
    i >= 0 && s.players[i].combat == "in_combat"@
}

/// `ATTACK <npc>` out of a fight: engages a hostile, living NPC of the caller's room that
/// nobody fights yet; the room is told.
pub open spec fn engage_spec(s: ServerView, name: Seq<char>, rest: Option<Seq<char>>) -> Effect {
    match rest {
        None => refused(s, "400 MALFORMED_COMMAND"@),
        Some(r) => {
            let i = player_pos(s.players, name);
            if i < 0 {
                quiet(s)
            } else {
                let p = s.players[i];
                match find_npc_spec(s.world, p.room, trim(r)) {
                    None => refused(s, "404 NPC_NOT_FOUND"@),
                    Some(id) => match lookup(s.world.npcs, id) {
                        None => refused(s, "405 NPC_NOT_HOSTILE"@),
                        Some(n) => if !n.hostile {
                            refused(s, "405 NPC_NOT_HOSTILE"@)
                        } else if n.stats.hp == 0 {
                            refused(s, "404 NPC_NOT_FOUND"@)
                        } else if n.engaged_by is Some {
                            refused(s, "407 NPC_BUSY"@)
                        } else {
                            let s1 = with_player(
                                set_npc(s, id, NpcView { engaged_by: Some(name), ..n }),
                                i,
                                PlayerView { combat: "in_combat"@, target_npc: Some(id), ..p },
                            );
                            said(
                                s1,
                                seq![
                                    combat_out(
                                        "engage"@,
                                        p.hp,
                                        n.stats.hp,
                                        0,
                                        0,
                                        "in_combat"@,
                                        Some("combat started with "@ + id),
                                    ),
                                ] + cast(
                                    s1.players,
                                    AudienceView::Room(p.room),
                                    Some(name),
                                    "EVT ROOM CHAT "@ + name + " * dynamic combat engaged against "@ + id,
                                ),
                            )
                        },
                    },
                }
            }
        },
    }
}

/// The caller (player `i`) killed NPC `id`, which stood in their room: out of the fight, the
/// NPC gone from the room and free, kill quests advanced, the room told, and the NPC due back
/// after its respawn delay (30 seconds where it has none).
pub open spec fn win_spec(s: ServerView, i: int, name: Seq<char>, id: Seq<char>, delay: u32) -> Effect {
    let p = s.players[i];
    let s1 = with_player(s, i, calm(p));
    let li = key_pos(s1.world.world.locations, p.room);
    let s2 = if li < 0 {
        s1
    } else {
        let loc = s1.world.world.locations[li].1;
        with_location(s1, li, LocationView { npcs: remove_all(loc.npcs, id), ..loc })
    };
    let s3 = free_npc(s2, id);
    let s4 = with_player(
        s3,
        i,
        PlayerView {
            quest_progress: advance(p.quest_progress, p.quest_to_do, s.world.quests, id, true),
            ..calm(p)
        },
    );
    Effect {
        state: s4,
        out: seq![combat_out("attack"@, p.hp, 0, p.pv, 0, "won"@, Some("you won the fight"@))]
            + cast(
            s4.players,
            AudienceView::Room(p.room),
            Some(name),
            "EVT ROOM CHAT "@ + name + " * dynamic combat defeated "@ + id,
        ),
        respawn: Some(RespawnView { npc: id, room: p.room, delay_secs: delay as u64 }),
    }
}

/// `ATTACK` in a fight: the caller hits the NPC for their damage; the NPC, if it lives,
/// hits back for its own.
pub open spec fn strike_spec(s: ServerView, name: Seq<char>) -> Effect {
    let i = player_pos(s.players, name);
    let p = s.players[i];
    match p.target_npc {
        None => refused(
            with_player(s, i, PlayerView { combat: "healthy"@, ..p }),
            "407 NOT_IN_COMBAT"@,
        ),
        Some(id) => match lookup(s.world.npcs, id) {
            None => refused(with_player(s, i, calm(p)), "404 NPC_NOT_FOUND"@),
            Some(n) => if n.stats.hp == 0 {
                refused(with_player(free_npc(s, id), i, calm(p)), "404 NPC_NOT_FOUND"@)
            } else {
                let nhp = sat_sub(n.stats.hp, p.pv);
                let n1 = NpcView { stats: Stats { hp: nhp, ..n.stats }, ..n };
                let s1 = set_npc(s, id, n1);
                if nhp == 0 {
                    let delay: u32 = match n.respawn_seconds {
                        Some(d) => d,
                        None => 30,
                    };
                    win_spec(s1, i, name, id, delay)
                } else {
                    let dmg: u32 = match n.stats.damage {
                        Some(d) => d,
                        None => 0,
                    };
                    let php = sat_sub(p.hp, dmg);
                    let s2 = with_player(s1, i, PlayerView { hp: php, ..p });
                    if php == 0 {
                        death_spec(s2, i, name, id, nhp, "attack"@, p.pv, dmg)
                    } else {
                        said(s2, seq![combat_out("attack"@, php, nhp, p.pv, dmg, "in_combat"@, None)])
                    }
                }
            },
        },
    }
}

/// `ATTACK`: engages an NPC out of a fight, strikes it in one.
pub open spec fn attack_spec(s: ServerView, name: Seq<char>, rest: Option<Seq<char>>) -> Effect {
    if fighting(s, name) {
        strike_spec(s, name)
    } else {
        engage_spec(s, name, rest)
    }
}


impl GameServer {
    /// Player `i` leaves any fight.
    fn calm_player(&mut self, i: usize)
        requires
            server_ok(old(self)@),
            i < old(self)@.players.len(),
        ensures
            server_ok(final(self)@),
            final(self)@ == with_player(old(self)@, i as int, calm(old(self)@.players[i as int])),
    {
        let ghost s0 = self@;
        let ghost ps0 = self.players@;
        self.players[i].combat = text("healthy");
        self.players[i].target_npc = None;
        proof {
            assert(self.players@ =~= ps0.update(i as int, self.players@[i as int]));
            GameServer::lemma_players_after(ps0, self.players@, i as int);
            lemma_ok_with_player(s0, i as int, self@.players[i as int]);
        }
    }

    fn engage(&mut self, name: &str, rest: Option<&[char]>, out: &mut Vec<Outgoing>)
        requires
            server_ok(old(self)@),
        ensures
            server_ok(final(self)@),
            final(self)@ == engage_spec(old(self)@, name@, opt_chars(rest)).state,
            out_views(final(out)@) == out_views(old(out)@) + engage_spec(
                old(self)@,
                name@,
                opt_chars(rest),
            ).out,
    {
        let r = match rest {
            None => {
                say_err(out, "400 MALFORMED_COMMAND");
                return ;
            },
            Some(r) => r,
        };
        let arg = string_of(trim_chars(r).as_slice());
        let i = match self.find_player(name) {
            Some(i) => i,
            None => {
                assert(out_views(out@) =~= out_views(out@) + Seq::<OutView>::empty());
                return ;
            },
        };
        let ghost s0 = self@;
        let ghost o0 = out_views(out@);
        let room = self.players[i].room.clone();
        let id = match find_npc_in_room(&self.world, room.as_str(), arg.as_str()) {
            Some(id) => id,
            None => {
                say_err(out, "404 NPC_NOT_FOUND");
                return ;
            },
        };
        let ni = match find_key(&self.world.npcs, chars_of(id.as_str()).as_slice()) {
            Some(ni) => ni,
            None => {
                proof {
                    lemma_key_pos(s0.world.npcs, id@);
                }
                say_err(out, "405 NPC_NOT_HOSTILE");
                return ;
            },
        };
        proof {
            lemma_key_pos(s0.world.npcs, id@);
        }
        if !self.world.npcs[ni].1.hostile {
            say_err(out, "405 NPC_NOT_HOSTILE");
            return ;
        }
        if self.world.npcs[ni].1.stats.hp == 0 {
            say_err(out, "404 NPC_NOT_FOUND");
            return ;
        }
        if self.world.npcs[ni].1.engaged_by.is_some() {
            say_err(out, "407 NPC_BUSY");
            return ;
        }
        let nhp = self.world.npcs[ni].1.stats.hp;
        let php = self.players[i].hp;
        let ghost n0 = s0.world.npcs[ni as int].1;
        let ghost t0 = self.world.npcs@;
        self.world.npcs[ni].1.engaged_by = Some(String::from_str(name));
        assert(self.world.npcs@ =~= t0.update(ni as int, self.world.npcs@[ni as int]));
        assert(self@.world.npcs =~= s0.world.npcs.update(
            ni as int,
            (s0.world.npcs[ni as int].0, NpcView { engaged_by: Some(name@), ..n0 }),
        ));
        proof {
            crate::server::game::lemma_ok_with_npc(s0, ni as int, NpcView { engaged_by: Some(name@), ..n0 });
        }
        let ghost s1 = self@;
        assert(s1 == set_npc(s0, id@, NpcView { engaged_by: Some(name@), ..n0 }));
        let ghost ps0 = self.players@;
        self.players[i].combat = text("in_combat");
        self.players[i].target_npc = Some(id.clone());
        proof {
            assert(self.players@ =~= ps0.update(i as int, self.players@[i as int]));
            GameServer::lemma_players_after(ps0, self.players@, i as int);
            lemma_ok_with_player(s1, i as int, self@.players[i as int]);
        }
        answer(
            out,
            Reply::Combat(
                CombatReply {
                    action: text("engage"),
                    attacker_hp: php,
                    target_hp: nhp,
                    damage_dealt: 0,
                    damage_taken: 0,
                    status: text("in_combat"),
                    message: Some(join2("combat started with ", id.as_str())),
                },
            ),
        );
        let line = join2("EVT ROOM CHAT ", name).concat(" * dynamic combat engaged against ").concat(
            id.as_str(),
        );
        self.broadcast(out, &Audience::Room(room), Some(name), line.as_str());
        assert(out_views(out@) =~= o0 + engage_spec(s0, name@, opt_chars(rest)).out);
    }

    /// The caller, player `i`, killed NPC `id`.
    #[verifier::rlimit(40)]
    fn win(&mut self, i: usize, name: &str, id: &str, delay: u32, out: &mut Vec<Outgoing>) -> (r:
        Respawn)
        requires
            server_ok(old(self)@),
            i < old(self)@.players.len(),
        ensures
            server_ok(final(self)@),
            final(self)@ == win_spec(old(self)@, i as int, name@, id@, delay).state,
            out_views(final(out)@) == out_views(old(out)@) + win_spec(
                old(self)@,
                i as int,
                name@,
                id@,
                delay,
            ).out,
            respawn_view(Some(r)) == win_spec(old(self)@, i as int, name@, id@, delay).respawn,
    {
        let ghost s0 = self@;
        let ghost p0 = s0.players[i as int];
        let ghost o0 = out_views(out@);
        let room = self.players[i].room.clone();
        let hp = self.players[i].hp;
        let pv = self.players[i].pv;
        self.calm_player(i);
        let ghost s1 = self@;
        match find_key(&self.world.world.locations, chars_of(room.as_str()).as_slice()) {
            Some(li) => {
                proof {
                    lemma_key_pos(s1.world.world.locations, room@);
                }
                let ghost locs0 = self.world.world.locations@;
                let ghost loc0 = s1.world.world.locations[li as int].1;
                let kept = without(&self.world.world.locations[li].1.npcs, id);
                self.world.world.locations[li].1.npcs = kept;
                assert(self.world.world.locations@ == locs0.update(
                    li as int,
                    self.world.world.locations@[li as int],
                ));
                assert(self@.world.world.locations =~= s1.world.world.locations.update(
                    li as int,
                    (
                        s1.world.world.locations[li as int].0,
                        LocationView { npcs: remove_all(loc0.npcs, id@), ..loc0 },
                    ),
                ));
                proof {
                    crate::server::game::lemma_ok_with_location(
                        s1,
                        li as int,
                        LocationView { npcs: remove_all(loc0.npcs, id@), ..loc0 },
                    );
                }
            },
            None => {
                proof {
                    lemma_key_pos(s1.world.world.locations, room@);
                }
            },
        }
        self.free_npc_now(id);
        self.advance_progress(i, id, true);
        answer(
            out,
            Reply::Combat(
                CombatReply {
                    action: text("attack"),
                    attacker_hp: hp,
                    target_hp: 0,
                    damage_dealt: pv,
                    damage_taken: 0,
                    status: text("won"),
                    message: Some(text("you won the fight")),
                },
            ),
        );
        let line = join2("EVT ROOM CHAT ", name).concat(" * dynamic combat defeated ").concat(id);
        self.broadcast(out, &Audience::Room(room.clone()), Some(name), line.as_str());
        assert(out_views(out@) =~= o0 + win_spec(s0, i as int, name@, id@, delay).out);
        Respawn { npc: String::from_str(id), room, delay_secs: delay as u64 }
    }
}


impl GameServer {
    /// `ATTACK` by player `i`, who is in a fight.
    #[verifier::rlimit(60)]
    fn strike(&mut self, i: usize, name: &str, out: &mut Vec<Outgoing>) -> (r: Option<Respawn>)
        requires
            server_ok(old(self)@),
            i == player_pos(old(self)@.players, name@),
            i < old(self)@.players.len(),
            old(self)@.players[i as int].name == name@,
        ensures
            server_ok(final(self)@),
            final(self)@ == strike_spec(old(self)@, name@).state,
            out_views(final(out)@) == out_views(old(out)@) + strike_spec(old(self)@, name@).out,
            respawn_view(r) == strike_spec(old(self)@, name@).respawn,
    {
        let ghost s0 = self@;
        let ghost p0 = s0.players[i as int];
        let id = match &self.players[i].target_npc {
            Some(t) => t.clone(),
            None => {
                let ghost ps0 = self.players@;
                self.players[i].combat = text("healthy");
                proof {
                    assert(self.players@ =~= ps0.update(i as int, self.players@[i as int]));
                    GameServer::lemma_players_after(ps0, self.players@, i as int);
                    lemma_ok_with_player(s0, i as int, self@.players[i as int]);
                }
                say_err(out, "407 NOT_IN_COMBAT");
                return None;
            },
        };
        let ni = match find_key(&self.world.npcs, chars_of(id.as_str()).as_slice()) {
            Some(ni) => ni,
            None => {
                proof {
                    lemma_key_pos(s0.world.npcs, id@);
                }
                self.calm_player(i);
                say_err(out, "404 NPC_NOT_FOUND");
                return None;
            },
        };
        proof {
            lemma_key_pos(s0.world.npcs, id@);
        }
        if self.world.npcs[ni].1.stats.hp == 0 {
            self.free_npc_now(id.as_str());
            self.calm_player(i);
            say_err(out, "404 NPC_NOT_FOUND");
            return None;
        }
        let pv = self.players[i].pv;
        let nhp0 = self.world.npcs[ni].1.stats.hp;
        let nhp = if nhp0 >= pv {
            nhp0 - pv
        } else {
            0
        };
        let dmg: u32 = match self.world.npcs[ni].1.stats.damage {
            Some(d) => d,
            None => 0,
        };
        let delay: u32 = match self.world.npcs[ni].1.respawn_seconds {
            Some(d) => d,
            None => 30,
        };
        let ghost n0 = s0.world.npcs[ni as int].1;
        let ghost n1 = NpcView { stats: Stats { hp: nhp, ..n0.stats }, ..n0 };
        let ghost t0 = self.world.npcs@;
        self.world.npcs[ni].1.stats.hp = nhp;
        assert(self.world.npcs@ =~= t0.update(ni as int, self.world.npcs@[ni as int]));
        assert(self@.world.npcs =~= s0.world.npcs.update(ni as int, (s0.world.npcs[ni as int].0, n1)));
        proof {
            crate::server::game::lemma_ok_with_npc(s0, ni as int, n1);
        }
        let ghost s1 = self@;
        assert(s1 == set_npc(s0, id@, n1));
        if nhp == 0 {
            let rs = self.win(i, name, id.as_str(), delay, out);
            return Some(rs);
        }
        let hp0 = self.players[i].hp;
        let php = if hp0 >= dmg {
            hp0 - dmg
        } else {
            0
        };
        let ghost ps0 = self.players@;
        self.players[i].hp = php;
        proof {
            assert(self.players@ =~= ps0.update(i as int, self.players@[i as int]));
            GameServer::lemma_players_after(ps0, self.players@, i as int);
            lemma_ok_with_player(s1, i as int, self@.players[i as int]);
        }
        assert(self@.players[i as int].name == name@);
        if php == 0 {
            self.die(i, name, id.as_str(), nhp, "attack", pv, dmg, out);
        } else {
            answer(
                out,
                Reply::Combat(
                    CombatReply {
                        action: text("attack"),
                        attacker_hp: php,
                        target_hp: nhp,
                        damage_dealt: pv,
                        damage_taken: dmg,
                        status: text("in_combat"),
                        message: None,
                    },
                ),
            );
        }
        None
    }

    /// `ATTACK [<npc>]`: engages an NPC of the caller's room, or strikes the one they fight.
    /// Returns the NPC to bring back later where the blow killed it.
    pub fn attack(&mut self, name: &str, rest: Option<&[char]>, out: &mut Vec<Outgoing>) -> (r:
        Option<Respawn>)
        requires
            server_ok(old(self)@),
        ensures
            server_ok(final(self)@),
            final(self)@ == attack_spec(old(self)@, name@, opt_chars(rest)).state,
            out_views(final(out)@) == out_views(old(out)@) + attack_spec(
                old(self)@,
                name@,
                opt_chars(rest),
            ).out,
            respawn_view(r) == attack_spec(old(self)@, name@, opt_chars(rest)).respawn,
    {
        match self.find_player(name) {
            Some(i) => {
                if is_lit(chars_of(self.players[i].combat.as_str()).as_slice(), "in_combat") {
                    return self.strike(i, name, out);
                }
            },
            None => {},
        }
        self.engage(name, rest, out);
        None
    }
}


/// The commands a player in a fight may still give.
pub open spec fn allowed_in_combat(cmd: Seq<char>) -> bool {
    cmd == "ATTACK"@ || cmd == "DEFEND"@ || cmd == "FLEE"@ || cmd == "STATUS"@ || cmd == "CHAT"@
}

/// The command word of a line, and what follows the first space.
pub open spec fn command_word(line: Seq<char>) -> Seq<char> {
    splitn(line, 2, ' ')[0]
}

pub open spec fn command_rest(line: Seq<char>) -> Option<Seq<char>> {
    piece(splitn(line, 2, ' '), 1)
}

/// Whether a line from player `name` creates a group, and so takes the next group number.
pub open spec fn takes_group_number(s: ServerView, name: Seq<char>, line: Seq<char>) -> bool {
    &&& !fighting(s, name)
    &&& command_word(line) == "GROUP"@
    &&& makes_group(s, name, command_rest(line))
}

/// What one line from the connected player `name` does. In a fight only `ATTACK`, `DEFEND`,
/// `FLEE`, `STATUS` and `CHAT` are heard; an unknown command is malformed.
pub open spec fn command_spec(s: ServerView, name: Seq<char>, line: Seq<char>) -> Effect {
    let cmd = command_word(line);
    let rest = command_rest(line);
    if fighting(s, name) && !allowed_in_combat(cmd) {
        refused(s, "409 IN_COMBAT"@)
    } else if cmd == "CONNECT"@ {
        refused(s, "101 ALREADY_CONNECTED"@)
    } else if cmd == "LOOK"@ {
        look_spec(s, name)
    } else if cmd == "MOVE"@ {
        move_spec(s, name, rest)
    } else if cmd == "QUIT"@ {
        said(s, seq![to_caller("OK bye"@)])
    } else if cmd == "CHAT"@ {
        chat_spec(s, name, rest)
    } else if cmd == "WHO"@ {
        who_spec(s, name)
    } else if cmd == "GROUP"@ {
        group_spec(s, name, rest)
    } else if cmd == "TAKE"@ {
        take_spec(s, name, rest)
    } else if cmd == "DROP"@ {
        drop_spec(s, name, rest)
    } else if cmd == "INVENTORY"@ {
        inventory_spec(s, name)
    } else if cmd == "TALK"@ {
        talk_spec(s, name, rest)
    } else if cmd == "STATUS"@ {
        status_spec(s, name)
    } else if cmd == "QUEST"@ {
        quest_spec(s, name, rest)
    } else if cmd == "QUESTS"@ {
        quests_spec(s, name)
    } else if cmd == "ATTACK"@ {
        attack_spec(s, name, rest)
    } else if cmd == "DEFEND"@ {
        defend_spec(s, name)
    } else if cmd == "FLEE"@ {
        flee_spec(s, name)
    } else {
        refused(s, "400 MALFORMED_COMMAND"@)
    }
}

impl GameServer {
    fn fighting_now(&self, name: &str) -> (r: bool)
        ensures
            r == fighting(self@, name@),
    {
        match self.find_player(name) {
            Some(i) => is_lit(chars_of(self.players[i].combat.as_str()).as_slice(), "in_combat"),
            None => false,
        }
    }

    /// Whether `line` from player `name` would create a group, taking the next group number.
    pub fn takes_group_number(&self, name: &str, line: &str) -> (r: bool)
        ensures
            r == takes_group_number(self@, name@, line@),
    {
        let args = split_n(chars_of(line).as_slice(), 2, ' ');
        if self.fighting_now(name) || !is_lit(args[0].as_slice(), "GROUP") || args.len() < 2 {
            return false;
        }
        let g = split_n(args[1].as_slice(), 2, ' ');
        is_lit(g[0].as_slice(), "CREATE") && !self.in_group_now(name)
    }

    /// Carries out one line from the connected player `name`: the lines to send, and an NPC
    /// to bring back later where the line killed one.
    #[verifier::rlimit(60)]
    pub fn parse_command(&mut self, name: &str, line: &str) -> (r: Outcome)
        requires
            server_ok(old(self)@),
            takes_group_number(old(self)@, name@, line@) ==> old(self).next_group_id < u32::MAX,
        ensures
            server_ok(final(self)@),
            final(self)@ == command_spec(old(self)@, name@, line@).state,
            out_views(r.out@) == command_spec(old(self)@, name@, line@).out,
            respawn_view(r.respawn) == command_spec(old(self)@, name@, line@).respawn,
    {
        let ghost s0 = self@;
        let args = split_n(chars_of(line).as_slice(), 2, ' ');
        let cmd = args[0].as_slice();
        let rest: Option<&[char]> = if args.len() >= 2 {
            Some(args[1].as_slice())
        } else {
            None
        };
        assert(opt_chars(rest) == command_rest(line@));
        assert(cmd@ == command_word(line@));
        let mut out: Vec<Outgoing> = Vec::new();
        assert(out_views(out@) =~= Seq::<OutView>::empty());
        let mut respawn: Option<Respawn> = None;
        let allowed = is_lit(cmd, "ATTACK") || is_lit(cmd, "DEFEND") || is_lit(cmd, "FLEE")
            || is_lit(cmd, "STATUS") || is_lit(cmd, "CHAT");
        if self.fighting_now(name) && !allowed {
            say_err(&mut out, "409 IN_COMBAT");
        } else if is_lit(cmd, "CONNECT") {
            say_err(&mut out, "101 ALREADY_CONNECTED");
        } else if is_lit(cmd, "LOOK") {
            self.look(name, &mut out);
        } else if is_lit(cmd, "MOVE") {
            self.move_to(name, rest, &mut out);
        } else if is_lit(cmd, "QUIT") {
            say(&mut out, text("OK bye"));
        } else if is_lit(cmd, "CHAT") {
            self.chat(name, rest, &mut out);
        } else if is_lit(cmd, "WHO") {
            self.who(name, &mut out);
        } else if is_lit(cmd, "GROUP") {
            proof {
                reveal_strlit("GROUP");
                reveal_strlit("ATTACK");
                reveal_strlit("DEFEND");
                reveal_strlit("FLEE");
                reveal_strlit("STATUS");
                reveal_strlit("CHAT");
                reveal_strlit("CREATE");
            }
            assert(!allowed_in_combat(cmd@));
            self.group(name, rest, &mut out);
        } else if is_lit(cmd, "TAKE") {
            self.take(name, rest, &mut out);
        } else if is_lit(cmd, "DROP") {
            self.drop_item(name, rest, &mut out);
        } else if is_lit(cmd, "INVENTORY") {
            self.inventory(name, &mut out);
        } else if is_lit(cmd, "TALK") {
            self.talk(name, rest, &mut out);
        } else if is_lit(cmd, "STATUS") {
            self.status(name, &mut out);
        } else if is_lit(cmd, "QUEST") {
            self.quest(name, rest, &mut out);
        } else if is_lit(cmd, "QUESTS") {
            self.quests(name, &mut out);
        } else if is_lit(cmd, "ATTACK") {
            respawn = self.attack(name, rest, &mut out);
        } else if is_lit(cmd, "DEFEND") {
            self.defend(name, &mut out);
        } else if is_lit(cmd, "FLEE") {
            self.flee(name, &mut out);
        } else {
            say_err(&mut out, "400 MALFORMED_COMMAND");
        }
        Outcome { out, respawn }
    }
}

} // verus!
