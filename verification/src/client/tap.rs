//! The client's model of the game: it reconciles each server reply with the oldest
//! command still waiting for one, and applies asynchronous events.

use crate::client::protocol::{
    CombatReply, EvtType, LookReply, MsgView, QuestReply, ServerMsg, StatusReply, TalkReply,
    WhoReply,
};
use crate::client::state::{prettify, prettify_spec, ChatTab, Room};
use crate::text::{
    chars_of, decimal, decimal_chars, is_lit, join2, opt_str, piece, push_text, split_n,
    remove_all, splitn, without, string_of, strs, text, trim, trim_chars, views,
};
use std::collections::VecDeque;
use std::sync::mpsc::{Receiver, Sender};
use vstd::prelude::*;

verus! {

#[verifier::external_type_specification]
#[verifier::external_body]
#[verifier::reject_recursive_types(T)]
pub struct ExSender<T>(Sender<T>);

#[verifier::external_type_specification]
#[verifier::external_body]
#[verifier::reject_recursive_types(T)]
pub struct ExReceiver<T>(Receiver<T>);

/// The writer's end of the connection, and the lines handed to it so far, in order.
pub struct Outbox {
    pub tx: Sender<String>,
    pub handed: Ghost<Seq<Seq<char>>>,
}

/// Hands a line to the network writer (`Sender::send`). When the writer takes it (`Ok`), the
/// line is the last one handed; when the writer is gone (`Err`), nothing is handed. Which of
/// the two happens depends on the connection, and is not stated.
#[verifier::external_body]
fn send_line(out: &mut Outbox, line: String) -> (sent: bool)
    ensures
        final(out).handed@ == if sent {
            old(out).handed@.push(line@)
        } else {
            old(out).handed@
        },
{
    out.tx.send(line).is_ok()
}

/// What `serde_json::from_str::<Vec<String>>` makes of a text: the list of strings it holds,
/// or nothing where the text is not a JSON array of strings.
pub uninterp spec fn json_string_list(text: Seq<char>) -> Option<Seq<Seq<char>>>;

/// Decodes a JSON array of strings (`serde_json::from_str::<Vec<String>>`).
#[verifier::external_body]
fn decode_string_list(text: &str) -> (r: Option<Vec<String>>)
    ensures
        match r {
            Some(v) => json_string_list(text@) == Some(strs(v@)),
            None => json_string_list(text@) is None,
        },
{
    serde_json::from_str::<Vec<String>>(text).ok()
}

/// One journal entry, with its texts as character sequences.
pub struct QuestView {
    pub quest_id: Seq<char>,
    pub name: Option<Seq<char>>,
    pub description: Option<Seq<char>>,
    pub status: Seq<char>,
    pub progress: Seq<char>,
}

pub open spec fn quest_view(q: QuestReply) -> QuestView {
    QuestView {
        quest_id: q.quest_id@,
        name: opt_str(q.name),
        description: opt_str(q.description),
        status: q.status@,
        progress: q.progress@,
    }
}

pub open spec fn quest_views(v: Seq<QuestReply>) -> Seq<QuestView> {
    v.map_values(|q: QuestReply| quest_view(q))
}

/// Index of the first journal entry with the given id, or -1.
pub open spec fn quest_pos(qs: Seq<QuestView>, id: Seq<char>) -> int
    decreases qs.len(),
{
    if qs.len() == 0 {
        -1
    } else if qs[0].quest_id == id {
        0
    } else {
        let r = quest_pos(qs.drop_first(), id);
        if r < 0 {
            -1
        } else {
            r + 1
        }
    }
}

/// The journal after an entry was reported: it replaces the first entry with its id,
/// or is appended where there is none.
pub open spec fn upsert_quest(qs: Seq<QuestView>, q: QuestView) -> Seq<QuestView> {
    let i = quest_pos(qs, q.quest_id);
    if i < 0 {
        qs.push(q)
    } else {
        qs.update(i, q)
    }
}

/// What the client knows of the game.
pub struct ClientView {
    pub server_address: Seq<char>,
    pub connected: bool,
    pub disconnected: bool,
    pub username: Seq<char>,
    pub room: Option<Room>,
    pub players: Seq<Seq<char>>,
    pub server_players: u32,
    pub items: Seq<Seq<char>>,
    pub npcs: Seq<Seq<char>>,
    pub inventory: Seq<Seq<char>>,
    pub hp: u32,
    pub max_hp: u32,
    pub group: Option<Seq<char>>,
    pub group_invite: Option<Seq<char>>,
    pub in_combat: bool,
    pub combat_target: Option<Seq<char>>,
    pub combat_target_hp: u32,
    pub combat_target_max_hp: u32,
    pub combat_history: Seq<Seq<char>>,
    pub quests: Seq<QuestView>,
    pub chat_global: Seq<Seq<char>>,
    pub chat_room: Seq<Seq<char>>,
    pub chat_group: Seq<Seq<char>>,
    pub logs: Seq<Seq<char>>,
    pub active_tab: ChatTab,
    pub chat_input: Seq<char>,
    pub pending: Seq<Seq<char>>,
    /// The lines handed to the server, in order.
    pub handed: Seq<Seq<char>>,
}

/// The JSON payload of an `OK` reply, decoded according to the command it answers.
/// `None` inside a variant means the payload did not decode.
pub enum Decoded {
    Nothing,
    Status(Option<StatusReply>),
    Look(Option<LookReply>),
    Who(Option<WhoReply>),
    Talk(Option<TalkReply>),
    Combat(Option<CombatReply>),
    Quests(Option<Vec<QuestReply>>),
    Quest(Option<QuestReply>),
}

/// Which JSON payload the next reply needs decoded.
#[derive(PartialEq, Eq, Structural, Clone, Copy, Debug)]
pub enum ReplyKind {
    Nothing,
    Status,
    Look,
    Who,
    Talk,
    Combat,
    Quests,
    Quest,
}

/// The graphical client's state and its two ends of the connection.
pub struct TapClient {
    pub server_address: String,
    pub connected: bool,
    pub disconnected: bool,
    pub username: String,
    pub room: Option<Room>,
    pub players: Vec<String>,
    pub server_players: u32,
    pub items: Vec<String>,
    pub npcs: Vec<String>,
    pub inventory: Vec<String>,
    pub hp: u32,
    pub max_hp: u32,
    pub group: Option<String>,
    pub group_invite: Option<String>,
    pub in_combat: bool,
    pub combat_target: Option<String>,
    pub combat_target_hp: u32,
    pub combat_target_max_hp: u32,
    pub combat_history: Vec<String>,
    pub quests: Vec<QuestReply>,
    pub chat_global: Vec<String>,
    pub chat_room: Vec<String>,
    pub chat_group: Vec<String>,
    pub logs: Vec<String>,
    pub active_tab: ChatTab,
    pub chat_input: String,
    pub pending_cmds: VecDeque<String>,
    pub rx: Receiver<String>,
    pub tx_out: Outbox,
}

impl View for TapClient {
    type V = ClientView;

    open spec fn view(&self) -> ClientView {
        ClientView {
            server_address: self.server_address@,
            connected: self.connected,
            disconnected: self.disconnected,
            username: self.username@,
            room: self.room,
            players: strs(self.players@),
            server_players: self.server_players,
            items: strs(self.items@),
            npcs: strs(self.npcs@),
            inventory: strs(self.inventory@),
            hp: self.hp,
            max_hp: self.max_hp,
            group: opt_str(self.group),
            group_invite: opt_str(self.group_invite),
            in_combat: self.in_combat,
            combat_target: opt_str(self.combat_target),
            combat_target_hp: self.combat_target_hp,
            combat_target_max_hp: self.combat_target_max_hp,
            combat_history: strs(self.combat_history@),
            quests: quest_views(self.quests@),
            chat_global: strs(self.chat_global@),
            chat_room: strs(self.chat_room@),
            chat_group: strs(self.chat_group@),
            logs: strs(self.logs@),
            active_tab: self.active_tab,
            chat_input: self.chat_input@,
            pending: strs(self.pending_cmds@),
            handed: self.tx_out.handed@,
        }
    }
}

/// The state before anything was received: not connected, full health, empty lists.
pub open spec fn initial_view(address: Seq<char>) -> ClientView {
    ClientView {
        server_address: address,
        connected: false,
        disconnected: false,
        username: Seq::empty(),
        room: None,
        players: Seq::empty(),
        server_players: 0,
        items: Seq::empty(),
        npcs: Seq::empty(),
        inventory: Seq::empty(),
        hp: 100,
        max_hp: 100,
        group: None,
        group_invite: None,
        in_combat: false,
        combat_target: None,
        combat_target_hp: 0,
        combat_target_max_hp: 0,
        combat_history: Seq::empty(),
        quests: Seq::empty(),
        chat_global: Seq::empty(),
        chat_room: Seq::empty(),
        chat_group: Seq::empty(),
        logs: Seq::empty(),
        active_tab: ChatTab::Room,
        chat_input: Seq::empty(),
        pending: Seq::empty(),
        handed: Seq::empty(),
    }
}

/// `v` with one more log line.
pub open spec fn logged(v: ClientView, line: Seq<char>) -> ClientView {
    ClientView { logs: v.logs.push(line), ..v }
}

/// The effect of sending `cmd`: when the writer took it, it is the last line handed to the
/// server, waits for its reply and is logged; otherwise the client notes that it is not
/// connected.
pub open spec fn after_send(v: ClientView, cmd: Seq<char>, sent: bool) -> ClientView {
    if sent {
        ClientView {
            pending: v.pending.push(cmd),
            logs: v.logs.push(">> "@ + cmd),
            handed: v.handed.push(cmd),
            ..v
        }
    } else {
        logged(v, "(not connected)"@)
    }
}

/// The effect of sending `cmds` in order, the writer taking each one as `sent` says.
pub open spec fn after_sends(v: ClientView, cmds: Seq<Seq<char>>, sent: Seq<bool>) -> ClientView
    decreases cmds.len(),
{
    if cmds.len() == 0 || sent.len() != cmds.len() {
        v
    } else {
        after_send(after_sends(v, cmds.drop_last(), sent.drop_last()), cmds.last(), sent.last())
    }
}

/// The effect of an event pushed by the server.
pub open spec fn event_step(v: ClientView, e: crate::client::protocol::EvtView) -> ClientView {
    match e {
        crate::client::protocol::EvtView::Enter(u) => ClientView { players: v.players.push(u), ..v },
        crate::client::protocol::EvtView::Leave(u) => ClientView {
            players: remove_all(v.players, u),
            ..v
        },
        crate::client::protocol::EvtView::Chat(tab, u, m) => match tab {
            ChatTab::Global => ClientView { chat_global: v.chat_global.push(u + ": "@ + m), ..v },
            ChatTab::Room => ClientView { chat_room: v.chat_room.push(u + ": "@ + m), ..v },
            ChatTab::Group => ClientView { chat_group: v.chat_group.push(u + ": "@ + m), ..v },
        },
        crate::client::protocol::EvtView::GroupInvite(l) => ClientView {
            logs: v.logs.push("Group invite from "@ + l),
            group_invite: Some(l),
            ..v
        },
        crate::client::protocol::EvtView::GroupJoin(u) => ClientView {
            chat_group: v.chat_group.push("* "@ + u + " joined the group"@),
            ..v
        },
        crate::client::protocol::EvtView::GroupLeave(u) => ClientView {
            chat_group: v.chat_group.push("* "@ + u + " left the group"@),
            ..v
        },
        crate::client::protocol::EvtView::PlayerCount(n) => ClientView { server_players: n, ..v },
    }
}

/// The pieces of a `key=value` reply: `Some(value)` when the reply is exactly `key=value`.
pub open spec fn keyed_value(d: Seq<char>, key: Seq<char>) -> Option<Seq<char>> {
    let p = splitn(d, 3, '=');
    if p[0] == key && piece(p, 1) is Some && piece(p, 2) is None {
        Some(p[1])
    } else {
        None
    }
}

/// The reply to a combat command `w`, `enemy` being the command's argument if it had one.
pub open spec fn combat_step(
    v: ClientView,
    w: Seq<char>,
    enemy: Option<Seq<char>>,
    d: Seq<char>,
    dec: Decoded,
) -> (ClientView, Seq<Seq<char>>) {
    let unexpected = "Unexpected reply to "@ + w + ": "@ + d;
    match dec {
        Decoded::Combat(Some(s)) => match enemy {
            Some(e) => if v.in_combat {
                (logged(v, unexpected + " (already in a fight)"@), seq![])
            } else {
                (
                    ClientView {
                        in_combat: true,
                        combat_target: Some(e),
                        hp: s.attacker_hp,
                        combat_target_hp: s.target_hp,
                        combat_target_max_hp: s.target_hp,
                        combat_history: match s.message {
                            Some(m) => v.combat_history.push(m@),
                            None => v.combat_history,
                        },
                        ..v
                    },
                    seq![],
                )
            },
            None => if !v.in_combat {
                (logged(v, unexpected + " (not in a fight)"@), seq![])
            } else if s.status@ == "in_combat"@ {
                let target = match v.combat_target {
                    Some(t) => t,
                    None => "Unknown"@,
                };
                (
                    ClientView {
                        hp: s.attacker_hp,
                        combat_target_hp: s.target_hp,
                        combat_history: v.combat_history.push(
                            "Inflicted "@ + decimal(s.damage_dealt as nat) + " to "@ + target
                                + ", counter attacked for "@ + decimal(s.damage_taken as nat),
                        ),
                        ..v
                    },
                    seq![],
                )
            } else if s.status@ == "won"@ || s.status@ == "fled"@ || s.status@ == "dead"@ {
                (
                    ClientView {
                        in_combat: false,
                        combat_target: None,
                        combat_target_hp: 0,
                        combat_target_max_hp: 0,
                        combat_history: v.combat_history.push(
                            match s.message {
                                Some(m) => m@,
                                None => "Combat ended"@,
                            },
                        ),
                        ..v
                    },
                    seq!["LOOK"@, "STATUS"@],
                )
            } else {
                (logged(v, unexpected), seq![])
            },
        },
        _ => (logged(v, unexpected), seq![]),
    }
}

/// The effect of `OK <d>` answering command `c` (already taken off the queue), and the
/// commands it makes the client send.
pub open spec fn ok_step(v: ClientView, c: Seq<char>, d: Seq<char>, dec: Decoded) -> (
    ClientView,
    Seq<Seq<char>>,
) {
    let words = splitn(c, 3, ' ');
    let w = words[0];
    let arg = piece(words, 1);
    if w == "CONNECT"@ {
        if d == "connected"@ {
            (ClientView { connected: true, ..v }, seq!["LOOK"@, "INVENTORY"@, "STATUS"@])
        } else {
            (logged(v, "Unexpected reply to CONNECT: "@ + d), seq![])
        }
    } else if w == "MOVE"@ {
        if keyed_value(d, "room"@) is Some {
            (v, seq!["LOOK"@])
        } else {
            (logged(v, "Unexpected reply to MOVE: "@ + d), seq![])
        }
    } else if w == "TAKE"@ {
        match keyed_value(d, "taken"@) {
            Some(item) => (
                ClientView {
                    items: remove_all(v.items, item),
                    inventory: v.inventory.push(item),
                    ..v
                },
                seq![],
            ),
            None => (logged(v, "Unexpected reply to TAKE: "@ + d), seq![]),
        }
    } else if w == "DROP"@ {
        match keyed_value(d, "dropped"@) {
            Some(item) => (
                ClientView {
                    inventory: remove_all(v.inventory, item),
                    items: v.items.push(item),
                    ..v
                },
                seq![],
            ),
            None => (logged(v, "Unexpected reply to DROP: "@ + d), seq![]),
        }
    } else if w == "GROUP"@ {
        if arg == Some("JOIN"@) || arg == Some("CREATE"@) {
            match keyed_value(d, "group"@) {
                Some(g) => (ClientView { group: Some(g), group_invite: None, ..v }, seq![]),
                None => (logged(v, "Unexpected reply to GROUP: "@ + d), seq![]),
            }
        } else if arg == Some("LEAVE"@) {
            if d.len() != 0 {
                (logged(v, "Unexpected reply to GROUP LEAVE: "@ + d), seq![])
            } else {
                (ClientView { group: None, ..v }, seq![])
            }
        } else {
            (logged(v, "Unexpected reply to GROUP: "@ + d), seq![])
        }
    } else if w == "CHAT"@ {
        if d.len() != 0 {
            (logged(v, "Unexpected reply to CHAT: "@ + d), seq![])
        } else {
            (v, seq![])
        }
    } else if w == "STATUS"@ {
        match dec {
            Decoded::Status(Some(s)) => (ClientView { hp: s.hp, max_hp: s.max_hp, ..v }, seq![]),
            _ => (logged(v, "Unexpected reply to STATUS: "@ + d), seq![]),
        }
    } else if w == "LOOK"@ {
        match dec {
            Decoded::Look(Some(s)) => (
                ClientView {
                    room: Some(s.room),
                    players: strs(s.players@),
                    items: strs(s.items@),
                    npcs: strs(s.npcs@),
                    ..v
                },
                seq![],
            ),
            _ => (logged(v, "Unexpected reply to LOOK: "@ + d), seq![]),
        }
    } else if w == "WHO"@ {
        match dec {
            Decoded::Who(Some(s)) => (
                ClientView { players: strs(s.room@), server_players: s.server, ..v },
                seq![],
            ),
            _ => (logged(v, "Unexpected reply to WHO: "@ + d), seq![]),
        }
    } else if w == "TALK"@ {
        match dec {
            Decoded::Talk(Some(s)) => (
                ClientView {
                    chat_room: v.chat_room.push(
                        "[NPC DIALOGUE] "@ + prettify_spec(s.npc@) + ": "@ + s.dialogue@,
                    ),
                    ..v
                },
                seq![],
            ),
            _ => (logged(v, "Unexpected reply to TALK: "@ + d), seq![]),
        }
    } else if w == "INVENTORY"@ {
        match json_string_list(d) {
            Some(list) => (ClientView { inventory: list, ..v }, seq![]),
            None => (logged(v, "Unexpected reply to INVENTORY: "@ + d), seq![]),
        }
    } else if w == "ATTACK"@ || w == "DEFEND"@ || w == "FLEE"@ {
        combat_step(v, w, arg, d, dec)
    } else if w == "QUESTS"@ {
        match dec {
            Decoded::Quests(Some(list)) => (ClientView { quests: quest_views(list@), ..v }, seq![]),
            _ => (logged(v, "Unexpected reply to QUESTS: "@ + d), seq![]),
        }
    } else if w == "QUEST"@ {
        match (arg, dec) {
            (Some(_), Decoded::Quest(Some(s))) => (
                ClientView { quests: upsert_quest(v.quests, quest_view(s)), ..v },
                if s.status@ == "completed"@ {
                    seq!["INVENTORY"@]
                } else {
                    seq![]
                },
            ),
            _ => (logged(v, "Unexpected reply to QUEST: "@ + d), seq![]),
        }
    } else if w == "QUIT"@ {
        if d != "bye"@ {
            (logged(v, "Unexpected reply to QUIT: "@ + d), seq![])
        } else {
            (logged(v, "Quitting"@), seq![])
        }
    } else {
        (logged(v, "OK to '"@ + c + "': "@ + d), seq![])
    }
}

/// The effect of one server line on the client, and the commands it makes the client send.
/// `OK` and `ERR` replies answer the oldest command still waiting (one reply per command,
/// in order); events bypass that queue.
pub open spec fn step(v: ClientView, m: MsgView, dec: Decoded) -> (ClientView, Seq<Seq<char>>) {
    match m {
        MsgView::Evt(e) => (event_step(v, e), seq![]),
        MsgView::OkReply(d) => if v.pending.len() == 0 {
            (logged(v, "Unsolicited OK: "@ + d), seq![])
        } else {
            ok_step(ClientView { pending: v.pending.drop_first(), ..v }, v.pending[0], d, dec)
        },
        MsgView::ErrReply(code, desc) => if code == 900 {
            (ClientView { disconnected: true, ..logged(v, "Disconnected: "@ + desc) }, seq![])
        } else if v.pending.len() == 0 {
            (logged(v, "Unsolicited ERR: "@ + decimal(code as nat) + " "@ + desc), seq![])
        } else {
            (
                logged(
                    ClientView { pending: v.pending.drop_first(), ..v },
                    "ERR to '"@ + v.pending[0] + "': "@ + decimal(code as nat) + " "@ + desc,
                ),
                seq![],
            )
        },
        MsgView::Unknown(d) => (logged(v, "(unparsed) "@ + d), seq![]),
    }
}

/// Which payload the reply `m` needs decoded, given the commands waiting for a reply.
pub open spec fn expected_spec(v: ClientView, m: MsgView) -> ReplyKind {
    match m {
        MsgView::OkReply(_) => if v.pending.len() == 0 {
            ReplyKind::Nothing
        } else {
            let words = splitn(v.pending[0], 3, ' ');
            let w = words[0];
            if w == "STATUS"@ {
                ReplyKind::Status
            } else if w == "LOOK"@ {
                ReplyKind::Look
            } else if w == "WHO"@ {
                ReplyKind::Who
            } else if w == "TALK"@ {
                ReplyKind::Talk
            } else if w == "ATTACK"@ || w == "DEFEND"@ || w == "FLEE"@ {
                ReplyKind::Combat
            } else if w == "QUESTS"@ {
                ReplyKind::Quests
            } else if w == "QUEST"@ && piece(words, 1) is Some {
                ReplyKind::Quest
            } else {
                ReplyKind::Nothing
            }
        },
        _ => ReplyKind::Nothing,
    }
}

/// Whether the reply `m` answers a command after which the journal is fetched again:
/// any command but `QUESTS` itself.
pub open spec fn refreshes_quests(v: ClientView, m: MsgView) -> bool {
    &&& m is OkReply
    &&& v.pending.len() > 0
    &&& splitn(v.pending[0], 3, ' ')[0] != "QUESTS"@
}

/// Whether a name can be used to connect: not blank, and without spaces.
pub open spec fn username_ok_spec(name: Seq<char>) -> bool {
    trim(name).len() != 0 && !name.contains(' ')
}

/// The chat command for what was typed in a tab, if anything but white space was typed.
pub open spec fn chat_command_spec(tab: ChatTab, input: Seq<char>) -> Option<Seq<char>> {
    if trim(input).len() == 0 {
        None
    } else {
        let scope = match tab {
            ChatTab::Global => "GLOBAL"@,
            ChatTab::Room => "ROOM"@,
            ChatTab::Group => "GROUP"@,
        };
        Some("CHAT "@ + scope + " "@ + input)
    }
}

fn first_word_is(words: &Vec<Vec<char>>, lit: &str) -> (r: bool)
    requires
        words@.len() >= 1,
    ensures
        r == (views(words@)[0] == lit@),
{
    is_lit(words[0].as_slice(), lit)
}

fn piece_lit(words: &Vec<Vec<char>>, i: usize, lit: &str) -> (r: bool)
    ensures
        r == (piece(views(words@), i as int) == Some(lit@)),
{
    i < words.len() && is_lit(words[i].as_slice(), lit)
}

/// The value of a `key=value` reply.
fn keyed(d: &[char], key: &str) -> (r: Option<String>)
    ensures
        opt_str(r) == keyed_value(d@, key@),
{
    let p = split_n(d, 3, '=');
    if is_lit(p[0].as_slice(), key) && p.len() == 2 {
        Some(string_of(p[1].as_slice()))
    } else {
        None
    }
}

fn number_text(n: u32) -> (r: String)
    ensures
        r@ == decimal(n as nat),
{
    string_of(decimal_chars(n as u64).as_slice())
}

fn opt_string_copy(o: &Option<String>) -> (r: Option<String>)
    ensures
        opt_str(r) == opt_str(*o),
{
    match o {
        Some(s) => Some(s.clone()),
        None => None,
    }
}

impl TapClient {
    /// A client for the server at `address`, reading server lines from `rx` and writing
    /// commands to `tx_out`.
    pub fn new(address: String, rx: Receiver<String>, tx_out: Sender<String>) -> (c: TapClient)
        ensures
            c@ == initial_view(address@),
    {
        let c = TapClient {
            server_address: address,
            connected: false,
            disconnected: false,
            username: String::new(),
            room: None,
            players: Vec::new(),
            server_players: 0,
            items: Vec::new(),
            npcs: Vec::new(),
            inventory: Vec::new(),
            hp: 100,
            max_hp: 100,
            group: None,
            group_invite: None,
            in_combat: false,
            combat_target: None,
            combat_target_hp: 0,
            combat_target_max_hp: 0,
            combat_history: Vec::new(),
            quests: Vec::new(),
            chat_global: Vec::new(),
            chat_room: Vec::new(),
            chat_group: Vec::new(),
            logs: Vec::new(),
            active_tab: ChatTab::Room,
            chat_input: String::new(),
            pending_cmds: VecDeque::new(),
            rx,
            tx_out: Outbox { tx: tx_out, handed: Ghost(Seq::empty()) },
        };
        assert(c@.players =~= Seq::<Seq<char>>::empty());
        assert(c@.items =~= Seq::<Seq<char>>::empty());
        assert(c@.npcs =~= Seq::<Seq<char>>::empty());
        assert(c@.inventory =~= Seq::<Seq<char>>::empty());
        assert(c@.combat_history =~= Seq::<Seq<char>>::empty());
        assert(c@.quests =~= Seq::<QuestView>::empty());
        assert(c@.chat_global =~= Seq::<Seq<char>>::empty());
        assert(c@.chat_room =~= Seq::<Seq<char>>::empty());
        assert(c@.chat_group =~= Seq::<Seq<char>>::empty());
        assert(c@.logs =~= Seq::<Seq<char>>::empty());
        assert(c@.pending =~= Seq::<Seq<char>>::empty());
        c
    }

    fn log(&mut self, line: String)
        ensures
            final(self)@ == logged(old(self)@, line@),
    {
        push_text(&mut self.logs, line);
    }

    /// Sends a command to the server; when the writer takes it, the command waits for its reply.
    pub fn send_command(&mut self, cmd: String) -> (sent: bool)
        ensures
            final(self)@ == after_send(old(self)@, cmd@, sent),
    {
        let log_line = join2(">> ", cmd.as_str());
        if !send_line(&mut self.tx_out, cmd.clone()) {
            self.log(text("(not connected)"));
            return false;
        }
        let ghost p0 = self.pending_cmds@;
        self.pending_cmds.push_back(cmd);
        assert(strs(self.pending_cmds@) =~= strs(p0).push(cmd@));
        self.log(log_line);
        true
    }

    /// Sends `cmds` in order.
    pub fn send_all(&mut self, cmds: Vec<String>)
        ensures
            exists|sent: Seq<bool>|
                sent.len() == cmds@.len() && final(self)@ == after_sends(
                    old(self)@,
                    strs(cmds@),
                    sent,
                ),
    {
        let ghost v0 = self@;
        let ghost mut sent: Seq<bool> = Seq::empty();
        let mut i: usize = 0;
        while i < cmds.len()
            invariant
                i <= cmds@.len(),
                sent.len() == i,
                self@ == after_sends(v0, strs(cmds@).take(i as int), sent),
            decreases cmds@.len() - i,
        {
            let ok = self.send_command(cmds[i].clone());
            proof {
                let t = strs(cmds@).take(i + 1);
                assert(t.drop_last() == strs(cmds@).take(i as int));
                assert(sent.push(ok).drop_last() == sent);
                sent = sent.push(ok);
            }
            i = i + 1;
        }
        assert(strs(cmds@).take(cmds@.len() as int) == strs(cmds@));
    }

    /// Notes a line just received from the server.
    pub fn note_received(&mut self, line: &str)
        ensures
            final(self)@ == logged(old(self)@, "<< "@ + line@),
    {
        self.log(join2("<< ", line));
    }
}

fn no_cmds() -> (r: Vec<String>)
    ensures
        strs(r@) == Seq::<Seq<char>>::empty(),
{
    let r: Vec<String> = Vec::new();
    assert(strs(r@) =~= Seq::<Seq<char>>::empty());
    r
}

fn cmds_of(a: &str, b: &str, c: &str, n: usize) -> (r: Vec<String>)
    requires
        1 <= n <= 3,
    ensures
        n == 1 ==> strs(r@) == seq![a@],
        n == 2 ==> strs(r@) == seq![a@, b@],
        n == 3 ==> strs(r@) == seq![a@, b@, c@],
{
    let mut r: Vec<String> = Vec::new();
    r.push(text(a));
    if n >= 2 {
        r.push(text(b));
    }
    if n >= 3 {
        r.push(text(c));
    }
    assert(n == 1 ==> strs(r@) =~= seq![a@]);
    assert(n == 2 ==> strs(r@) =~= seq![a@, b@]);
    assert(n == 3 ==> strs(r@) =~= seq![a@, b@, c@]);
    r
}

pub proof fn lemma_quest_pos(qs: Seq<QuestView>, id: Seq<char>)
    ensures
        -1 <= quest_pos(qs, id) < qs.len(),
        quest_pos(qs, id) >= 0 ==> qs[quest_pos(qs, id)].quest_id == id,
        forall|j: int| 0 <= j < quest_pos(qs, id) ==> qs[j].quest_id != id,
        quest_pos(qs, id) < 0 ==> forall|j: int| 0 <= j < qs.len() ==> qs[j].quest_id != id,
    decreases qs.len(),
{
    if qs.len() > 0 && qs[0].quest_id != id {
        lemma_quest_pos(qs.drop_first(), id);
        assert forall|j: int| 0 < j < qs.len() implies qs[j] == qs.drop_first()[j - 1] by {}
    }
}

impl TapClient {
    fn event_update(&mut self, e: EvtType)
        ensures
            final(self)@ == event_step(old(self)@, e@),
    {
        match e {
            EvtType::Enter(u) => push_text(&mut self.players, u),
            EvtType::Leave(u) => {
                self.players = without(&self.players, u.as_str());
            },
            EvtType::Chat(tab, u, m) => {
                let line = u.concat(": ").concat(m.as_str());
                match tab {
                    ChatTab::Global => push_text(&mut self.chat_global, line),
                    ChatTab::Room => push_text(&mut self.chat_room, line),
                    ChatTab::Group => push_text(&mut self.chat_group, line),
                }
            },
            EvtType::GroupInvite(l) => {
                self.log(join2("Group invite from ", l.as_str()));
                self.group_invite = Some(l);
            },
            EvtType::GroupJoin(u) => {
                push_text(
                    &mut self.chat_group,
                    join2("* ", u.as_str()).concat(" joined the group"),
                );
            },
            EvtType::GroupLeave(u) => {
                push_text(&mut self.chat_group, join2("* ", u.as_str()).concat(" left the group"));
            },
            EvtType::PlayerCount(n) => {
                self.server_players = n;
            },
        }
    }

    #[verifier::rlimit(40)]
    fn combat_update(
        &mut self,
        w: String,
        enemy: Option<String>,
        d: String,
        dec: Decoded,
    ) -> (cmds: Vec<String>)
        ensures
            (final(self)@, strs(cmds@)) == combat_step(old(self)@, w@, opt_str(enemy), d@, dec),
    {
        let unexpected = join2("Unexpected reply to ", w.as_str()).concat(": ").concat(d.as_str());
        match dec {
            Decoded::Combat(Some(s)) => match enemy {
                Some(e) => {
                    if self.in_combat {
                        self.log(unexpected.concat(" (already in a fight)"));
                    } else {
                        self.in_combat = true;
                        self.combat_target = Some(e);
                        self.hp = s.attacker_hp;
                        self.combat_target_hp = s.target_hp;
                        self.combat_target_max_hp = s.target_hp;
                        match s.message {
                            Some(m) => push_text(&mut self.combat_history, m),
                            None => {},
                        }
                    }
                    no_cmds()
                },
                None => {
                    if !self.in_combat {
                        self.log(unexpected.concat(" (not in a fight)"));
                        no_cmds()
                    } else if is_lit(chars_of(s.status.as_str()).as_slice(), "in_combat") {
                        let target = match &self.combat_target {
                            Some(t) => t.clone(),
                            None => text("Unknown"),
                        };
                        let line = join2("Inflicted ", number_text(s.damage_dealt).as_str()).concat(
                            " to ",
                        ).concat(target.as_str()).concat(", counter attacked for ").concat(
                            number_text(s.damage_taken).as_str(),
                        );
                        self.hp = s.attacker_hp;
                        self.combat_target_hp = s.target_hp;
                        push_text(&mut self.combat_history, line);
                        no_cmds()
                    } else if is_lit(chars_of(s.status.as_str()).as_slice(), "won") || is_lit(
                        chars_of(s.status.as_str()).as_slice(),
                        "fled",
                    ) || is_lit(chars_of(s.status.as_str()).as_slice(), "dead") {
                        self.in_combat = false;
                        self.combat_target = None;
                        self.combat_target_hp = 0;
                        self.combat_target_max_hp = 0;
                        let line = match s.message {
                            Some(m) => m,
                            None => text("Combat ended"),
                        };
                        push_text(&mut self.combat_history, line);
                        cmds_of("LOOK", "STATUS", "", 2)
                    } else {
                        self.log(unexpected);
                        no_cmds()
                    }
                },
            },
            _ => {
                self.log(unexpected);
                no_cmds()
            },
        }
    }

    fn quest_update(&mut self, s: QuestReply)
        ensures
            final(self)@ == (ClientView {
                quests: upsert_quest(old(self)@.quests, quest_view(s)),
                ..old(self)@
            }),
    {
        proof {
            lemma_quest_pos(quest_views(self.quests@), s.quest_id@);
        }
        let mut i: usize = 0;
        while i < self.quests.len()
            invariant
                i <= self.quests@.len(),
                self@ == old(self)@,
                forall|j: int|
                    0 <= j < i ==> quest_views(self.quests@)[j].quest_id != s.quest_id@,
            decreases self.quests@.len() - i,
        {
            if self.quests[i].quest_id == s.quest_id {
                proof {
                    let qs = quest_views(self.quests@);
                    lemma_quest_pos(qs, s.quest_id@);
                    assert(qs[i as int].quest_id == s.quest_id@);
                    if quest_pos(qs, s.quest_id@) >= 0 && quest_pos(qs, s.quest_id@) < i {
                        assert(qs[quest_pos(qs, s.quest_id@)].quest_id == s.quest_id@);
                    }
                    assert(quest_pos(qs, s.quest_id@) == i);
                }
                let ghost qs0 = self.quests@;
                self.quests.set(i, s);
                assert(quest_views(self.quests@) =~= quest_views(qs0).update(
                    i as int,
                    quest_view(s),
                ));
                return ;
            }
            i = i + 1;
        }
        proof {
            lemma_quest_pos(quest_views(self.quests@), s.quest_id@);
        }
        let ghost qs0 = self.quests@;
        self.quests.push(s);
        assert(quest_views(self.quests@) =~= quest_views(qs0).push(quest_view(s)));
    }
}

impl TapClient {
    #[verifier::rlimit(80)]
    fn ok_update(&mut self, c: String, d: String, dec: Decoded) -> (cmds: Vec<String>)
        ensures
            (final(self)@, strs(cmds@)) == ok_step(old(self)@, c@, d@, dec),
    {
        let words = split_n(chars_of(c.as_str()).as_slice(), 3, ' ');
        let dc = chars_of(d.as_str());
        if first_word_is(&words, "CONNECT") {
            if is_lit(dc.as_slice(), "connected") {
                self.connected = true;
                cmds_of("LOOK", "INVENTORY", "STATUS", 3)
            } else {
                self.log(join2("Unexpected reply to CONNECT: ", d.as_str()));
                no_cmds()
            }
        } else if first_word_is(&words, "MOVE") {
            if keyed(dc.as_slice(), "room").is_some() {
                cmds_of("LOOK", "", "", 1)
            } else {
                self.log(join2("Unexpected reply to MOVE: ", d.as_str()));
                no_cmds()
            }
        } else if first_word_is(&words, "TAKE") {
            match keyed(dc.as_slice(), "taken") {
                Some(item) => {
                    self.items = without(&self.items, item.as_str());
                    push_text(&mut self.inventory, item);
                },
                None => self.log(join2("Unexpected reply to TAKE: ", d.as_str())),
            }
            no_cmds()
        } else if first_word_is(&words, "DROP") {
            match keyed(dc.as_slice(), "dropped") {
                Some(item) => {
                    self.inventory = without(&self.inventory, item.as_str());
                    push_text(&mut self.items, item);
                },
                None => self.log(join2("Unexpected reply to DROP: ", d.as_str())),
            }
            no_cmds()
        } else if first_word_is(&words, "GROUP") {
            if piece_lit(&words, 1, "JOIN") || piece_lit(&words, 1, "CREATE") {
                match keyed(dc.as_slice(), "group") {
                    Some(g) => {
                        self.group = Some(g);
                        self.group_invite = None;
                    },
                    None => self.log(join2("Unexpected reply to GROUP: ", d.as_str())),
                }
            } else if piece_lit(&words, 1, "LEAVE") {
                if dc.len() != 0 {
                    self.log(join2("Unexpected reply to GROUP LEAVE: ", d.as_str()));
                } else {
                    self.group = None;
                }
            } else {
                self.log(join2("Unexpected reply to GROUP: ", d.as_str()));
            }
            no_cmds()
        } else if first_word_is(&words, "CHAT") {
            if dc.len() != 0 {
                self.log(join2("Unexpected reply to CHAT: ", d.as_str()));
            }
            no_cmds()
        } else if first_word_is(&words, "STATUS") {
            match dec {
                Decoded::Status(Some(s)) => {
                    self.hp = s.hp;
                    self.max_hp = s.max_hp;
                },
                _ => self.log(join2("Unexpected reply to STATUS: ", d.as_str())),
            }
            no_cmds()
        } else if first_word_is(&words, "LOOK") {
            match dec {
                Decoded::Look(Some(s)) => {
                    self.room = Some(s.room);
                    self.players = s.players;
                    self.items = s.items;
                    self.npcs = s.npcs;
                },
                _ => self.log(join2("Unexpected reply to LOOK: ", d.as_str())),
            }
            no_cmds()
        } else if first_word_is(&words, "WHO") {
            match dec {
                Decoded::Who(Some(s)) => {
                    self.players = s.room;
                    self.server_players = s.server;
                },
                _ => self.log(join2("Unexpected reply to WHO: ", d.as_str())),
            }
            no_cmds()
        } else if first_word_is(&words, "TALK") {
            match dec {
                Decoded::Talk(Some(s)) => {
                    let line = join2("[NPC DIALOGUE] ", prettify(s.npc.as_str()).as_str()).concat(
                        ": ",
                    ).concat(s.dialogue.as_str());
                    push_text(&mut self.chat_room, line);
                },
                _ => self.log(join2("Unexpected reply to TALK: ", d.as_str())),
            }
            no_cmds()
        } else if first_word_is(&words, "INVENTORY") {
            match decode_string_list(d.as_str()) {
                Some(list) => {
                    self.inventory = list;
                },
                None => self.log(join2("Unexpected reply to INVENTORY: ", d.as_str())),
            }
            no_cmds()
        } else if first_word_is(&words, "ATTACK") || first_word_is(&words, "DEFEND")
            || first_word_is(&words, "FLEE") {
            let w = string_of(words[0].as_slice());
            let enemy = if words.len() >= 2 {
                Some(string_of(words[1].as_slice()))
            } else {
                None
            };
            self.combat_update(w, enemy, d, dec)
        } else if first_word_is(&words, "QUESTS") {
            match dec {
                Decoded::Quests(Some(list)) => {
                    self.quests = list;
                },
                _ => self.log(join2("Unexpected reply to QUESTS: ", d.as_str())),
            }
            no_cmds()
        } else if first_word_is(&words, "QUEST") {
            if words.len() >= 2 {
                match dec {
                    Decoded::Quest(Some(s)) => {
                        let done = is_lit(chars_of(s.status.as_str()).as_slice(), "completed");
                        self.quest_update(s);
                        if done {
                            cmds_of("INVENTORY", "", "", 1)
                        } else {
                            no_cmds()
                        }
                    },
                    _ => {
                        self.log(join2("Unexpected reply to QUEST: ", d.as_str()));
                        no_cmds()
                    },
                }
            } else {
                self.log(join2("Unexpected reply to QUEST: ", d.as_str()));
                no_cmds()
            }
        } else if first_word_is(&words, "QUIT") {
            if !is_lit(dc.as_slice(), "bye") {
                self.log(join2("Unexpected reply to QUIT: ", d.as_str()));
            } else {
                self.log(text("Quitting"));
            }
            no_cmds()
        } else {
            self.log(join2("OK to '", c.as_str()).concat("': ").concat(d.as_str()));
            no_cmds()
        }
    }

    /// Applies one server line to the state; returns the commands that the line makes the
    /// client send next (they are not sent here).
    pub fn update(&mut self, msg: ServerMsg, dec: Decoded) -> (cmds: Vec<String>)
        ensures
            final(self)@ == step(old(self)@, msg@, dec).0,
            strs(cmds@) == step(old(self)@, msg@, dec).1,
    {
        match msg {
            ServerMsg::Evt(e) => {
                self.event_update(e);
                no_cmds()
            },
            ServerMsg::OkReply(d) => {
                let ghost p0 = self.pending_cmds@;
                match self.pending_cmds.pop_front() {
                    None => {
                        self.log(join2("Unsolicited OK: ", d.as_str()));
                        no_cmds()
                    },
                    Some(c) => {
                        assert(strs(self.pending_cmds@) =~= strs(p0).drop_first());
                        self.ok_update(c, d, dec)
                    },
                }
            },
            ServerMsg::ErrReply(code, desc) => {
                if code == 900 {
                    self.disconnected = true;
                    self.log(join2("Disconnected: ", desc.as_str()));
                } else {
                    let ghost p0 = self.pending_cmds@;
                    let num = number_text(code as u32);
                    match self.pending_cmds.pop_front() {
                        None => self.log(
                            join2("Unsolicited ERR: ", num.as_str()).concat(" ").concat(
                                desc.as_str(),
                            ),
                        ),
                        Some(c) => {
                            assert(strs(self.pending_cmds@) =~= strs(p0).drop_first());
                            self.log(
                                join2("ERR to '", c.as_str()).concat("': ").concat(
                                    num.as_str(),
                                ).concat(" ").concat(desc.as_str()),
                            );
                        },
                    }
                }
                no_cmds()
            },
            ServerMsg::Unknown(d) => {
                self.log(join2("(unparsed) ", d.as_str()));
                no_cmds()
            },
        }
    }
}

/// Sending does not touch the fight.
proof fn lemma_sends_keep_combat(v: ClientView, cmds: Seq<Seq<char>>, sent: Seq<bool>)
    ensures
        after_sends(v, cmds, sent).in_combat == v.in_combat,
    decreases cmds.len(),
{
    if cmds.len() > 0 && sent.len() == cmds.len() {
        lemma_sends_keep_combat(v, cmds.drop_last(), sent.drop_last());
    }
}

/// The commands that one server line makes the client send, journal refresh included.
pub open spec fn sends_after(v: ClientView, m: MsgView, dec: Decoded) -> Seq<Seq<char>> {
    let (v1, cmds) = step(v, m, dec);
    if refreshes_quests(v, m) && !v1.in_combat {
        cmds.push("QUESTS"@)
    } else {
        cmds
    }
}

impl TapClient {
    /// Applies one server line and sends the commands it calls for.
    pub fn apply(&mut self, msg: ServerMsg, dec: Decoded)
        ensures
            exists|sent: Seq<bool>|
                sent.len() == step(old(self)@, msg@, dec).1.len() && final(self)@ == after_sends(
                    step(old(self)@, msg@, dec).0,
                    step(old(self)@, msg@, dec).1,
                    sent,
                ),
    {
        let cmds = self.update(msg, dec);
        self.send_all(cmds);
    }

    fn refresh_needed(&self, msg: &ServerMsg) -> (r: bool)
        ensures
            r == refreshes_quests(self@, msg@),
    {
        match msg {
            ServerMsg::OkReply(_) => {
                if self.pending_cmds.len() == 0 {
                    false
                } else {
                    let words = split_n(chars_of(self.pending_cmds[0].as_str()).as_slice(), 3, ' ');
                    !first_word_is(&words, "QUESTS")
                }
            },
            _ => false,
        }
    }

    /// Which payload the reply `msg` needs decoded before it is applied.
    pub fn expected_reply(&self, msg: &ServerMsg) -> (r: ReplyKind)
        ensures
            r == expected_spec(self@, msg@),
    {
        match msg {
            ServerMsg::OkReply(_) => {
                if self.pending_cmds.len() == 0 {
                    ReplyKind::Nothing
                } else {
                    let words = split_n(chars_of(self.pending_cmds[0].as_str()).as_slice(), 3, ' ');
                    if first_word_is(&words, "STATUS") {
                        ReplyKind::Status
                    } else if first_word_is(&words, "LOOK") {
                        ReplyKind::Look
                    } else if first_word_is(&words, "WHO") {
                        ReplyKind::Who
                    } else if first_word_is(&words, "TALK") {
                        ReplyKind::Talk
                    } else if first_word_is(&words, "ATTACK") || first_word_is(&words, "DEFEND")
                        || first_word_is(&words, "FLEE") {
                        ReplyKind::Combat
                    } else if first_word_is(&words, "QUESTS") {
                        ReplyKind::Quests
                    } else if first_word_is(&words, "QUEST") && words.len() >= 2 {
                        ReplyKind::Quest
                    } else {
                        ReplyKind::Nothing
                    }
                }
            },
            _ => ReplyKind::Nothing,
        }
    }

    /// Applies one server line, sends what it calls for, and then, after a reply to any
    /// command but `QUESTS` and outside a fight, asks for the journal again.
    pub fn receive(&mut self, msg: ServerMsg, dec: Decoded)
        ensures
            exists|sent: Seq<bool>|
                sent.len() == sends_after(old(self)@, msg@, dec).len() && final(self)@
                    == after_sends(
                    step(old(self)@, msg@, dec).0,
                    sends_after(old(self)@, msg@, dec),
                    sent,
                ),
    {
        let ghost v0 = self@;
        let ghost m = msg@;
        let refresh = self.refresh_needed(&msg);
        self.apply(msg, dec);
        let ghost (v1, cmds) = step(v0, m, dec);
        let ghost sent1 = choose|sent: Seq<bool>|
            sent.len() == cmds.len() && self@ == after_sends(v1, cmds, sent);
        proof {
            lemma_sends_keep_combat(v1, cmds, sent1);
        }
        if refresh && !self.in_combat {
            let ok = self.send_command(text("QUESTS"));
            proof {
                let all = cmds.push("QUESTS"@);
                let sent = sent1.push(ok);
                assert(all.drop_last() == cmds);
                assert(sent.drop_last() == sent1);
                assert(self@ == after_sends(v1, all, sent));
                assert(sends_after(v0, m, dec) == all);
                assert(sent.len() == sends_after(v0, m, dec).len() && self@ == after_sends(
                    v1,
                    sends_after(v0, m, dec),
                    sent,
                ));
            }
        } else {
            assert(sends_after(v0, m, dec) == cmds);
            assert(sent1.len() == sends_after(v0, m, dec).len() && self@ == after_sends(
                v1,
                sends_after(v0, m, dec),
                sent1,
            ));
        }
    }

    /// Whether `name` may be used to connect: not blank and without spaces.
    pub fn username_ok(name: &str) -> (r: bool)
        ensures
            r == username_ok_spec(name@),
    {
        let cs = chars_of(name);
        let t = trim_chars(cs.as_slice());
        t.len() != 0 && !crate::text::has_char(cs.as_slice(), ' ')
    }

    /// The command that connects under `name`.
    pub fn connect_command(name: &str) -> (r: String)
        ensures
            r@ == "CONNECT "@ + name@,
    {
        join2("CONNECT ", name)
    }

    /// The chat command for what was typed in `tab`, unless only white space was typed.
    pub fn chat_command(tab: ChatTab, input: &str) -> (r: Option<String>)
        ensures
            opt_str(r) == chat_command_spec(tab, input@),
    {
        let t = trim_chars(chars_of(input).as_slice());
        if t.len() == 0 {
            return None;
        }
        let scope = match tab {
            ChatTab::Global => "GLOBAL",
            ChatTab::Room => "ROOM",
            ChatTab::Group => "GROUP",
        };
        Some(join2("CHAT ", scope).concat(" ").concat(input))
    }

    /// The title of a journal entry: its name, or else its id made readable.
    pub fn quest_title(q: &QuestReply) -> (r: String)
        ensures
            r@ == match q.name {
                Some(n) => n@,
                None => crate::client::state::prettify_spec(q.quest_id@),
            },
    {
        match &q.name {
            Some(n) => n.clone(),
            None => crate::client::state::prettify(q.quest_id.as_str()),
        }
    }
}

/// The commands the panels offer, each the command word, a space and what it acts on.
impl TapClient {
    /// `MOVE <direction>`: the "Go" button of an exit.
    pub fn move_command(direction: &str) -> (cmd: String)
        ensures
            cmd@ == "MOVE "@ + direction@,
    {
        join2("MOVE ", direction)
    }

    /// `TAKE <item>`: the "Take" button of an item in the room.
    pub fn take_command(item: &str) -> (cmd: String)
        ensures
            cmd@ == "TAKE "@ + item@,
    {
        join2("TAKE ", item)
    }

    /// `TALK <npc>`: the "Talk" button of an NPC in the room.
    pub fn talk_command(npc: &str) -> (cmd: String)
        ensures
            cmd@ == "TALK "@ + npc@,
    {
        join2("TALK ", npc)
    }

    /// `ATTACK <npc>`: the "Attack" button of an NPC in the room.
    pub fn attack_command(npc: &str) -> (cmd: String)
        ensures
            cmd@ == "ATTACK "@ + npc@,
    {
        join2("ATTACK ", npc)
    }

    /// `QUEST <npc>`: the "Quest" button of an NPC in the room.
    pub fn quest_command(npc: &str) -> (cmd: String)
        ensures
            cmd@ == "QUEST "@ + npc@,
    {
        join2("QUEST ", npc)
    }

    /// `DROP <item>`: the "Drop" button of an item in the inventory, offered out of a fight.
    pub fn drop_command(&self, item: &str) -> (cmd: Option<String>)
        ensures
            match cmd {
                Some(c) => !self@.in_combat && c@ == "DROP "@ + item@,
                None => self@.in_combat,
            },
    {
        if self.in_combat {
            None
        } else {
            Some(join2("DROP ", item))
        }
    }

    /// `GROUP INVITE <player>`: offered for another player in the room while the client is
    /// in a group.
    pub fn invite_command(&self, player: &str) -> (cmd: Option<String>)
        ensures
            match cmd {
                Some(c) => c@ == "GROUP INVITE "@ + player@,
                None => true,
            },
            cmd is Some <==> (self@.group is Some && player@ != self@.username
                && self@.players.contains(player@)),
    {
        proof {
            crate::text::lemma_text_pos(self@.players, player@);
        }
        if self.group.is_none() {
            return None;
        }
        if is_lit(chars_of(self.username.as_str()).as_slice(), player) {
            return None;
        }
        match crate::text::find_text(&self.players, player) {
            Some(_) => Some(join2("GROUP INVITE ", player)),
            None => None,
        }
    }

    /// `GROUP JOIN <leader>`: offered while the client is in no group and has an invitation.
    pub fn join_command(&self) -> (cmd: Option<String>)
        ensures
            match cmd {
                Some(c) => self@.group is None && (self@.group_invite matches Some(l) && c@ == "GROUP JOIN "@ + l),
                None => self@.group is Some || self@.group_invite is None,
            },
    {
        if self.group.is_some() {
            return None;
        }
        match &self.group_invite {
            Some(l) => Some(join2("GROUP JOIN ", l.as_str())),
            None => None,
        }
    }
}

} // verus!

