use tap_mud::client::protocol::{parse_line, EvtType, ServerMsg};
use tap_mud::client::state::{prettify, ChatTab};

#[test]
fn parse_ok() {
    assert_eq!(parse_line("OK connected"), ServerMsg::OkReply("connected".to_string()));
    assert_eq!(parse_line("OK"), ServerMsg::OkReply("".to_string()));
    assert_eq!(parse_line("OK hello proto=1"), ServerMsg::OkReply("hello proto=1".to_string()));
    assert_eq!(
        parse_line(r#"OK { "room": { }, "players":["alice"] }"#),
        ServerMsg::OkReply(r#"{ "room": { }, "players":["alice"] }"#.to_string())
    );
}

#[test]
fn parse_err() {
    assert_eq!(parse_line("ERR 404 ITEM_NOT_FOUND"), ServerMsg::ErrReply(404, "ITEM_NOT_FOUND".to_string()));
    assert_eq!(parse_line("ERR 201 NAME_IN_USE"), ServerMsg::ErrReply(201, "NAME_IN_USE".to_string()));
    assert_eq!(parse_line("ERR abc xyz"), ServerMsg::Unknown("Malformed ERR: ERR abc xyz".to_string()));
    assert_eq!(parse_line("ERR"), ServerMsg::Unknown("Malformed ERR: ERR".to_string()));
    assert_eq!(parse_line("ERR 404"), ServerMsg::Unknown("Malformed ERR: ERR 404".to_string()));
}

#[test]
fn parse_presence() {
    assert_eq!(
        parse_line("EVT ROOM PRESENCE ENTER alice"),
        ServerMsg::Evt(EvtType::Enter("alice".to_string()))
    );
    assert_eq!(
        parse_line("EVT ROOM PRESENCE LEAVE bob"),
        ServerMsg::Evt(EvtType::Leave("bob".to_string()))
    );
}

#[test]
fn parse_chat() {
    assert_eq!(
        parse_line("EVT ROOM CHAT alice salut tout le monde"),
        ServerMsg::Evt(EvtType::Chat(ChatTab::Room, "alice".to_string(), "salut tout le monde".to_string()))
    );
    assert_eq!(
        parse_line("EVT GLOBAL CHAT bob hey!"),
        ServerMsg::Evt(EvtType::Chat(ChatTab::Global, "bob".to_string(), "hey!".to_string()))
    );
    assert_eq!(
        parse_line("EVT GROUP CHAT carol on y va"),
        ServerMsg::Evt(EvtType::Chat(ChatTab::Group, "carol".to_string(), "on y va".to_string()))
    );
}

#[test]
fn parse_group() {
    assert_eq!(parse_line("EVT GROUP INVITE alice"), ServerMsg::Evt(EvtType::GroupInvite("alice".to_string())));
    assert_eq!(parse_line("EVT GROUP JOIN bob"), ServerMsg::Evt(EvtType::GroupJoin("bob".to_string())));
    assert_eq!(parse_line("EVT GROUP LEAVE carol"), ServerMsg::Evt(EvtType::GroupLeave("carol".to_string())));
    assert_eq!(
        parse_line("EVT GROUP INVITE alice bob"),
        ServerMsg::Unknown("Malformed EVT: EVT GROUP INVITE alice bob".to_string())
    );
}

#[test]
fn parse_stats() {
    assert_eq!(parse_line("EVT STATS players=5"), ServerMsg::Evt(EvtType::PlayerCount(5)));
    assert_eq!(
        parse_line("EVT STATS players=abc"),
        ServerMsg::Unknown("Malformed EVT: EVT STATS players=abc".to_string())
    );
}

#[test]
fn parse_garbage() {
    assert_eq!(parse_line("GARBAGE stuff"), ServerMsg::Unknown("Malformed message: GARBAGE stuff".to_string()));
    assert_eq!(parse_line(""), ServerMsg::Unknown("Malformed message: ".to_string()));
}

#[test]
fn parse_err_code_edges() {
    assert_eq!(parse_line("ERR +404 X"), ServerMsg::ErrReply(404, "X".to_string()));
    assert_eq!(parse_line("ERR 70000 X"), ServerMsg::Unknown("Malformed ERR: ERR 70000 X".to_string()));
    assert_eq!(parse_line("ERR 900 DISCONNECTED"), ServerMsg::ErrReply(900, "DISCONNECTED".to_string()));
}

#[test]
fn parse_evt_edges() {
    assert_eq!(parse_line("EVT ROOM PRESENCE ENTER"), ServerMsg::Unknown("Malformed EVT: EVT ROOM PRESENCE ENTER".to_string()));
    assert_eq!(parse_line("EVT PARTY CHAT a b"), ServerMsg::Unknown("Malformed EVT: EVT PARTY CHAT a b".to_string()));
    assert_eq!(parse_line("EVT STATS count=5"), ServerMsg::Unknown("Malformed EVT: EVT STATS count=5".to_string()));
    assert_eq!(parse_line("EVT"), ServerMsg::Unknown("Malformed EVT: EVT".to_string()));
    assert_eq!(parse_line("EVT STATS players=4294967295"), ServerMsg::Evt(EvtType::PlayerCount(4294967295)));
    assert_eq!(parse_line("EVT STATS players=4294967296"), ServerMsg::Unknown("Malformed EVT: EVT STATS players=4294967296".to_string()));
}

#[test]
fn prettify_ids() {
    assert_eq!(prettify("loc.town_square"), "town square");
    assert_eq!(prettify("item.frothy_ale"), "frothy ale");
    assert_eq!(prettify("npc.old_guard"), "old guard");
    assert_eq!(prettify("alice"), "alice");
    assert_eq!(prettify("loc."), "");
}
