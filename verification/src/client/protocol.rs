//! Parsing one line received from the server.

use crate::client::state::{ChatTab, Room};
use crate::text::{
    chars_of, find_char, parse_u16, parse_u32, parse_unsigned, piece, same_chars, split_n, split_once,
    splitn, string_of, views,
};
use vstd::prelude::*;

verus! {

/// An asynchronous event pushed by the server.
#[derive(Debug, PartialEq)]
pub enum EvtType {
    Enter(String),
    Leave(String),
    Chat(ChatTab, String, String),
    GroupInvite(String),
    GroupJoin(String),
    GroupLeave(String),
    PlayerCount(u32),
}

/// One line received from the server.
#[derive(Debug, PartialEq)]
pub enum ServerMsg {
    OkReply(String),
    ErrReply(u16, String),
    Evt(EvtType),
    Unknown(String),
}

/// A `STATUS` reply.
pub struct StatusReply {
    pub hp: u32,
    pub max_hp: u32,
    pub status: String,
}

/// A `LOOK` reply.
pub struct LookReply {
    pub room: Room,
    pub players: Vec<String>,
    pub items: Vec<String>,
    pub npcs: Vec<String>,
}

/// A `TALK` reply.
pub struct TalkReply {
    pub npc: String,
    pub dialogue: String,
}

/// A `WHO` reply.
pub struct WhoReply {
    pub room: Vec<String>,
    pub server: u32,
}

/// A reply to `ATTACK`, `DEFEND` or `FLEE`.
pub struct CombatReply {
    pub action: String,
    pub attacker_hp: u32,
    pub target_hp: u32,
    pub damage_dealt: u32,
    pub damage_taken: u32,
    pub status: String,
    pub message: Option<String>,
}

/// One quest of the journal, as `QUEST` and `QUESTS` report it.
pub struct QuestReply {
    pub quest_id: String,
    pub name: Option<String>,
    pub description: Option<String>,
    pub status: String,
    pub progress: String,
}

/// An event, with its texts as character sequences.
pub enum EvtView {
    Enter(Seq<char>),
    Leave(Seq<char>),
    Chat(ChatTab, Seq<char>, Seq<char>),
    GroupInvite(Seq<char>),
    GroupJoin(Seq<char>),
    GroupLeave(Seq<char>),
    PlayerCount(u32),
}

/// A server line, with its texts as character sequences.
pub enum MsgView {
    OkReply(Seq<char>),
    ErrReply(u16, Seq<char>),
    Evt(EvtView),
    Unknown(Seq<char>),
}

impl View for EvtType {
    type V = EvtView;

    open spec fn view(&self) -> EvtView {
        match self {
            EvtType::Enter(u) => EvtView::Enter(u@),
            EvtType::Leave(u) => EvtView::Leave(u@),
            EvtType::Chat(t, u, m) => EvtView::Chat(*t, u@, m@),
            EvtType::GroupInvite(u) => EvtView::GroupInvite(u@),
            EvtType::GroupJoin(u) => EvtView::GroupJoin(u@),
            EvtType::GroupLeave(u) => EvtView::GroupLeave(u@),
            EvtType::PlayerCount(n) => EvtView::PlayerCount(*n),
        }
    }
}

impl View for ServerMsg {
    type V = MsgView;

    open spec fn view(&self) -> MsgView {
        match self {
            ServerMsg::OkReply(d) => MsgView::OkReply(d@),
            ServerMsg::ErrReply(c, d) => MsgView::ErrReply(*c, d@),
            ServerMsg::Evt(e) => MsgView::Evt(e@),
            ServerMsg::Unknown(d) => MsgView::Unknown(d@),
        }
    }
}

pub open spec fn word_ok() -> Seq<char> {
    seq!['O', 'K']
}

pub open spec fn word_err() -> Seq<char> {
    seq!['E', 'R', 'R']
}

pub open spec fn word_evt() -> Seq<char> {
    seq!['E', 'V', 'T']
}

pub open spec fn word_room() -> Seq<char> {
    seq!['R', 'O', 'O', 'M']
}

pub open spec fn word_global() -> Seq<char> {
    seq!['G', 'L', 'O', 'B', 'A', 'L']
}

pub open spec fn word_group() -> Seq<char> {
    seq!['G', 'R', 'O', 'U', 'P']
}

pub open spec fn word_presence() -> Seq<char> {
    seq!['P', 'R', 'E', 'S', 'E', 'N', 'C', 'E']
}

pub open spec fn word_enter() -> Seq<char> {
    seq!['E', 'N', 'T', 'E', 'R']
}

pub open spec fn word_leave() -> Seq<char> {
    seq!['L', 'E', 'A', 'V', 'E']
}

pub open spec fn word_chat() -> Seq<char> {
    seq!['C', 'H', 'A', 'T']
}

pub open spec fn word_invite() -> Seq<char> {
    seq!['I', 'N', 'V', 'I', 'T', 'E']
}

pub open spec fn word_join() -> Seq<char> {
    seq!['J', 'O', 'I', 'N']
}

pub open spec fn word_stats() -> Seq<char> {
    seq!['S', 'T', 'A', 'T', 'S']
}

pub open spec fn word_players() -> Seq<char> {
    seq!['p', 'l', 'a', 'y', 'e', 'r', 's']
}

/// The event that the text after `EVT ` denotes; `line` is the whole line, quoted when malformed.
pub open spec fn evt_spec(e: Seq<char>, line: Seq<char>) -> MsgView {
    let p = splitn(e, 4, ' ');
    let (a, b, c, d) = (piece(p, 0), piece(p, 1), piece(p, 2), piece(p, 3));
    let malformed = MsgView::Unknown("Malformed EVT: "@ + line);
    if a == Some(word_room()) && b == Some(word_presence()) && c == Some(word_enter()) && d is Some {
        MsgView::Evt(EvtView::Enter(d->0))
    } else if a == Some(word_room()) && b == Some(word_presence()) && c == Some(word_leave())
        && d is Some {
        MsgView::Evt(EvtView::Leave(d->0))
    } else if a is Some && b == Some(word_chat()) && c is Some && d is Some {
        if a->0 == word_room() {
            MsgView::Evt(EvtView::Chat(ChatTab::Room, c->0, d->0))
        } else if a->0 == word_global() {
            MsgView::Evt(EvtView::Chat(ChatTab::Global, c->0, d->0))
        } else if a->0 == word_group() {
            MsgView::Evt(EvtView::Chat(ChatTab::Group, c->0, d->0))
        } else {
            malformed
        }
    } else if a == Some(word_group()) && b == Some(word_invite()) && c is Some && d is None {
        MsgView::Evt(EvtView::GroupInvite(c->0))
    } else if a == Some(word_group()) && b == Some(word_join()) && c is Some && d is None {
        MsgView::Evt(EvtView::GroupJoin(c->0))
    } else if a == Some(word_group()) && b == Some(word_leave()) && c is Some && d is None {
        MsgView::Evt(EvtView::GroupLeave(c->0))
    } else if a == Some(word_stats()) && b is Some && c is None && d is None {
        let st = splitn(b->0, 2, '=');
        if st[0] == word_players() && piece(st, 1) is Some && parse_unsigned(
            st[1],
            u32::MAX as nat,
        ) is Some {
            MsgView::Evt(EvtView::PlayerCount(parse_unsigned(st[1], u32::MAX as nat)->0 as u32))
        } else {
            malformed
        }
    } else {
        malformed
    }
}

/// What a line from the server means: `OK <data>`, `ERR <code> <message>`, `EVT ...`,
/// or anything else, which is reported as malformed with the line quoted.
pub open spec fn parse_line_spec(line: Seq<char>) -> MsgView {
    let parts = splitn(line, 2, ' ');
    let rest = piece(parts, 1);
    if parts[0] == word_ok() {
        MsgView::OkReply(
            match rest {
                Some(r) => r,
                None => Seq::empty(),
            },
        )
    } else if parts[0] == word_err() {
        let malformed = MsgView::Unknown("Malformed ERR: "@ + line);
        match rest {
            None => malformed,
            Some(text) => {
                let ep = splitn(text, 2, ' ');
                if piece(ep, 1) is Some && parse_unsigned(ep[0], u16::MAX as nat) is Some {
                    MsgView::ErrReply(parse_unsigned(ep[0], u16::MAX as nat)->0 as u16, ep[1])
                } else {
                    malformed
                }
            },
        }
    } else if parts[0] == word_evt() {
        evt_spec(
            match rest {
                Some(r) => r,
                None => Seq::empty(),
            },
            line,
        )
    } else {
        MsgView::Unknown("Malformed message: "@ + line)
    }
}

/// `splitn` with two pieces is one cut at the first separator.
pub proof fn lemma_splitn_two(s: Seq<char>, c: char)
    ensures
        find_char(s, c) < 0 ==> splitn(s, 2, c) == seq![s],
        find_char(s, c) >= 0 ==> splitn(s, 2, c) == seq![
            s.take(find_char(s, c)),
            s.skip(find_char(s, c) + 1),
        ],
{
    reveal_with_fuel(splitn, 2);
    if find_char(s, c) >= 0 {
        assert(splitn(s, 2, c) =~= seq![s.take(find_char(s, c)), s.skip(find_char(s, c) + 1)]);
    }
}

fn quoted(prefix: &str, line: &str) -> (r: String)
    ensures
        r@ == prefix@ + line@,
{
    let mut r = String::from_str(prefix);
    r.append(line);
    r
}

fn piece_is(p: &Vec<Vec<char>>, i: usize, w: &[char]) -> (r: bool)
    ensures
        r == (piece(views(p@), i as int) == Some(w@)),
{
    i < p.len() && same_chars(p[i].as_slice(), w)
}

fn parse_evt(e: &[char], line: &str) -> (m: ServerMsg)
    ensures
        m@ == evt_spec(e@, line@),
{
    let p = split_n(e, 4, ' ');
    let ghost ps = views(p@);
    let n = p.len();
    let room = ['R', 'O', 'O', 'M'];
    let presence = ['P', 'R', 'E', 'S', 'E', 'N', 'C', 'E'];
    let enter = ['E', 'N', 'T', 'E', 'R'];
    let leave = ['L', 'E', 'A', 'V', 'E'];
    let chat = ['C', 'H', 'A', 'T'];
    let global = ['G', 'L', 'O', 'B', 'A', 'L'];
    let group = ['G', 'R', 'O', 'U', 'P'];
    let invite = ['I', 'N', 'V', 'I', 'T', 'E'];
    let join = ['J', 'O', 'I', 'N'];
    let stats = ['S', 'T', 'A', 'T', 'S'];
    let malformed = quoted("Malformed EVT: ", line);
    if piece_is(&p, 0, &room) && piece_is(&p, 1, &presence) && piece_is(&p, 2, &enter) && n >= 4 {
        ServerMsg::Evt(EvtType::Enter(string_of(p[3].as_slice())))
    } else if piece_is(&p, 0, &room) && piece_is(&p, 1, &presence) && piece_is(&p, 2, &leave) && n >= 4 {
        ServerMsg::Evt(EvtType::Leave(string_of(p[3].as_slice())))
    } else if n >= 4 && piece_is(&p, 1, &chat) {
        let user = string_of(p[2].as_slice());
        let msg = string_of(p[3].as_slice());
        if piece_is(&p, 0, &room) {
            ServerMsg::Evt(EvtType::Chat(ChatTab::Room, user, msg))
        } else if piece_is(&p, 0, &global) {
            ServerMsg::Evt(EvtType::Chat(ChatTab::Global, user, msg))
        } else if piece_is(&p, 0, &group) {
            ServerMsg::Evt(EvtType::Chat(ChatTab::Group, user, msg))
        } else {
            ServerMsg::Unknown(malformed)
        }
    } else if piece_is(&p, 0, &group) && piece_is(&p, 1, &invite) && n == 3 {
        ServerMsg::Evt(EvtType::GroupInvite(string_of(p[2].as_slice())))
    } else if piece_is(&p, 0, &group) && piece_is(&p, 1, &join) && n == 3 {
        ServerMsg::Evt(EvtType::GroupJoin(string_of(p[2].as_slice())))
    } else if piece_is(&p, 0, &group) && piece_is(&p, 1, &leave) && n == 3 {
        ServerMsg::Evt(EvtType::GroupLeave(string_of(p[2].as_slice())))
    } else if piece_is(&p, 0, &stats) && n == 2 {
        let st = split_n(p[1].as_slice(), 2, '=');
        let players = ['p', 'l', 'a', 'y', 'e', 'r', 's'];
        if same_chars(st[0].as_slice(), &players) && st.len() >= 2 {
            match parse_u32(st[1].as_slice()) {
                Some(count) => ServerMsg::Evt(EvtType::PlayerCount(count)),
                None => ServerMsg::Unknown(malformed),
            }
        } else {
            ServerMsg::Unknown(malformed)
        }
    } else {
        ServerMsg::Unknown(malformed)
    }
}

/// Parses one line received from the server.
pub fn parse_line(line: &str) -> (m: ServerMsg)
    ensures
        m@ == parse_line_spec(line@),
{
    let cs = chars_of(line);
    proof {
        lemma_splitn_two(cs@, ' ');
    }
    let (first, rest) = split_once(cs.as_slice(), ' ');
    if same_chars(first.as_slice(), &['O', 'K']) {
        match rest {
            Some(r) => ServerMsg::OkReply(string_of(r.as_slice())),
            None => ServerMsg::OkReply(String::new()),
        }
    } else if same_chars(first.as_slice(), &['E', 'R', 'R']) {
        match rest {
            None => ServerMsg::Unknown(quoted("Malformed ERR: ", line)),
            Some(text) => {
                proof {
                    lemma_splitn_two(text@, ' ');
                }
                let (code, msg) = split_once(text.as_slice(), ' ');
                match msg {
                    None => ServerMsg::Unknown(quoted("Malformed ERR: ", line)),
                    Some(msg) => match parse_u16(code.as_slice()) {
                        Some(n) => ServerMsg::ErrReply(n, string_of(msg.as_slice())),
                        None => ServerMsg::Unknown(quoted("Malformed ERR: ", line)),
                    },
                }
            },
        }
    } else if same_chars(first.as_slice(), &['E', 'V', 'T']) {
        match rest {
            Some(r) => parse_evt(r.as_slice(), line),
            None => {
                let empty: Vec<char> = Vec::new();
                parse_evt(empty.as_slice(), line)
            },
        }
    } else {
        ServerMsg::Unknown(quoted("Malformed message: ", line))
    }
}

} // verus!
