//! What the server sends: text lines and structured replies that travel as JSON.

use crate::text::{opt_str, strs};
use crate::server::world::table_view;
use vstd::prelude::*;

verus! {

/// Who receives a line: the connection that sent the command, or a connected player.
pub enum Target {
    Caller,
    Player(String),
}

/// The room part of a `LOOK` reply.
pub struct RoomInfo {
    pub id: String,
    pub name: String,
    pub description: String,
    pub exits: Vec<(String, String)>,
}

/// `LOOK`: the room and who and what is in it.
pub struct LookReply {
    pub room: RoomInfo,
    pub players: Vec<String>,
    pub items: Vec<String>,
    pub npcs: Vec<String>,
}

/// `STATUS`: health and combat state.
pub struct StatusReply {
    pub hp: u32,
    pub max_hp: u32,
    pub status: String,
}

/// `WHO`: players in the room, and how many are online.
pub struct WhoReply {
    pub room: Vec<String>,
    pub server: u32,
}

/// `TALK`: one line of an NPC's dialogue.
pub struct TalkReply {
    pub npc: String,
    pub dialogue: String,
}

/// A combat round.
pub struct CombatReply {
    pub action: String,
    pub attacker_hp: u32,
    pub target_hp: u32,
    pub damage_dealt: u32,
    pub damage_taken: u32,
    pub status: String,
    pub message: Option<String>,
}

/// One journal entry.
pub struct QuestReply {
    pub quest_id: String,
    pub name: String,
    pub description: String,
    pub status: String,
    pub progress: String,
}

/// One line to send: either plain text, or `OK ` followed by a JSON payload.
pub enum Reply {
    Text(String),
    Look(LookReply),
    Status(StatusReply),
    Who(WhoReply),
    Talk(TalkReply),
    Combat(CombatReply),
    Quest(QuestReply),
    Quests(Vec<QuestReply>),
}

/// A line and its recipient.
pub struct Outgoing {
    pub to: Target,
    pub reply: Reply,
}

/// An NPC to bring back after a delay.
pub struct Respawn {
    pub npc: String,
    pub room: String,
    pub delay_secs: u64,
}

/// What a command produced.
pub struct Outcome {
    pub out: Vec<Outgoing>,
    pub respawn: Option<Respawn>,
}

pub enum TargetView {
    Caller,
    Player(Seq<char>),
}

pub struct RoomInfoView {
    pub id: Seq<char>,
    pub name: Seq<char>,
    pub description: Seq<char>,
    pub exits: Seq<(Seq<char>, Seq<char>)>,
}

pub struct CombatView {
    pub action: Seq<char>,
    pub attacker_hp: u32,
    pub target_hp: u32,
    pub damage_dealt: u32,
    pub damage_taken: u32,
    pub status: Seq<char>,
    pub message: Option<Seq<char>>,
}

pub struct QuestEntryView {
    pub quest_id: Seq<char>,
    pub name: Seq<char>,
    pub description: Seq<char>,
    pub status: Seq<char>,
    pub progress: Seq<char>,
}

pub enum ReplyView {
    Text(Seq<char>),
    Look(RoomInfoView, Seq<Seq<char>>, Seq<Seq<char>>, Seq<Seq<char>>),
    Status(u32, u32, Seq<char>),
    Who(Seq<Seq<char>>, u32),
    Talk(Seq<char>, Seq<char>),
    Combat(CombatView),
    Quest(QuestEntryView),
    Quests(Seq<QuestEntryView>),
}

pub struct OutView {
    pub to: TargetView,
    pub reply: ReplyView,
}

pub struct RespawnView {
    pub npc: Seq<char>,
    pub room: Seq<char>,
    pub delay_secs: u64,
}

impl View for Target {
    type V = TargetView;

    open spec fn view(&self) -> TargetView {
        match self {
            Target::Caller => TargetView::Caller,
            Target::Player(n) => TargetView::Player(n@),
        }
    }
}

pub open spec fn quest_entry_view(q: QuestReply) -> QuestEntryView {
    QuestEntryView {
        quest_id: q.quest_id@,
        name: q.name@,
        description: q.description@,
        status: q.status@,
        progress: q.progress@,
    }
}

pub open spec fn quest_entry_views(v: Seq<QuestReply>) -> Seq<QuestEntryView> {
    v.map_values(|q: QuestReply| quest_entry_view(q))
}

impl View for Reply {
    type V = ReplyView;

    open spec fn view(&self) -> ReplyView {
        match self {
            Reply::Text(t) => ReplyView::Text(t@),
            Reply::Look(l) => ReplyView::Look(
                RoomInfoView {
                    id: l.room.id@,
                    name: l.room.name@,
                    description: l.room.description@,
                    exits: table_view(l.room.exits@),
                },
                strs(l.players@),
                strs(l.items@),
                strs(l.npcs@),
            ),
            Reply::Status(s) => ReplyView::Status(s.hp, s.max_hp, s.status@),
            Reply::Who(w) => ReplyView::Who(strs(w.room@), w.server),
            Reply::Talk(t) => ReplyView::Talk(t.npc@, t.dialogue@),
            Reply::Combat(c) => ReplyView::Combat(
                CombatView {
                    action: c.action@,
                    attacker_hp: c.attacker_hp,
                    target_hp: c.target_hp,
                    damage_dealt: c.damage_dealt,
                    damage_taken: c.damage_taken,
                    status: c.status@,
                    message: opt_str(c.message),
                },
            ),
            Reply::Quest(q) => ReplyView::Quest(quest_entry_view(*q)),
            Reply::Quests(v) => ReplyView::Quests(quest_entry_views(v@)),
        }
    }
}

impl View for Outgoing {
    type V = OutView;

    open spec fn view(&self) -> OutView {
        OutView { to: self.to@, reply: self.reply@ }
    }
}

/// The views of a sequence of outgoing lines.
pub open spec fn out_views(v: Seq<Outgoing>) -> Seq<OutView> {
    v.map_values(|o: Outgoing| o@)
}

pub open spec fn respawn_view(r: Option<Respawn>) -> Option<RespawnView> {
    match r {
        Some(r) => Some(RespawnView { npc: r.npc@, room: r.room@, delay_secs: r.delay_secs }),
        None => None,
    }
}

/// A text line to the caller.
pub open spec fn to_caller(line: Seq<char>) -> OutView {
    OutView { to: TargetView::Caller, reply: ReplyView::Text(line) }
}

/// A structured reply to the caller.
pub open spec fn reply_caller(r: ReplyView) -> OutView {
    OutView { to: TargetView::Caller, reply: r }
}

/// A text line to a player.
pub open spec fn to_player(name: Seq<char>, line: Seq<char>) -> OutView {
    OutView { to: TargetView::Player(name), reply: ReplyView::Text(line) }
}

/// The error line `ERR <code>` to the caller.
pub open spec fn error_out(code: Seq<char>) -> OutView {
    to_caller("ERR "@ + code)
}

} // verus!

verus! {

/// A lowercase hexadecimal digit.
pub open spec fn hex_digit(d: nat) -> char {
    seq!['0', '1', '2', '3', '4', '5', '6', '7', '8', '9', 'a', 'b', 'c', 'd', 'e', 'f'][d as int]
}

/// How a character stands inside a JSON string: a quote, a backslash and the control
/// characters are escaped (the usual short forms where there is one, `\u00` and two hex digits
/// otherwise); every other character stands for itself.
pub open spec fn json_escape(c: char) -> Seq<char> {
    if c == '"' {
        seq!['\\', '"']
    } else if c == '\\' {
        seq!['\\', '\\']
    } else if c == '\u{8}' {
        seq!['\\', 'b']
    } else if c == '\t' {
        seq!['\\', 't']
    } else if c == '\n' {
        seq!['\\', 'n']
    } else if c == '\u{c}' {
        seq!['\\', 'f']
    } else if c == '\r' {
        seq!['\\', 'r']
    } else if (c as nat) < 0x20 {
        seq!['\\', 'u', '0', '0', hex_digit((c as nat) / 16), hex_digit((c as nat) % 16)]
    } else {
        seq![c]
    }
}

/// The escaped characters of a text.
pub open spec fn json_text(s: Seq<char>) -> Seq<char>
    decreases s.len(),
{
    if s.len() == 0 {
        Seq::empty()
    } else {
        json_text(s.drop_last()) + json_escape(s.last())
    }
}

/// A text as a JSON string.
pub open spec fn json_string(s: Seq<char>) -> Seq<char> {
    seq!['"'] + json_text(s) + seq!['"']
}

/// JSON strings separated by commas.
pub open spec fn json_items(items: Seq<Seq<char>>) -> Seq<char>
    decreases items.len(),
{
    if items.len() == 0 {
        Seq::empty()
    } else if items.len() == 1 {
        json_string(items[0])
    } else {
        json_items(items.drop_last()) + seq![','] + json_string(items.last())
    }
}

/// A list of texts as a compact JSON array of strings.
pub open spec fn json_string_array(items: Seq<Seq<char>>) -> Seq<char> {
    seq!['['] + json_items(items) + seq![']']
}

/// Writes a list of strings as a compact JSON array (`serde_json::to_string`): brackets,
/// commas without spaces, each string quoted with the escapes of `json_escape`. Serialising
/// strings cannot fail, so the error case, which returns an empty text, does not arise.
#[verifier::external_body]
pub(crate) fn encode_string_list(v: &Vec<String>) -> (r: String)
    ensures
        r@ == json_string_array(strs(v@)),
{
    serde_json::to_string(v).unwrap_or_default()
}

} // verus!
