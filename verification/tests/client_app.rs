use serde_json::Value;
use std::collections::HashMap;
use std::sync::mpsc::{channel, Receiver};
use tap_mud::client::protocol::{
    parse_line, CombatReply, LookReply, QuestReply, ServerMsg, StatusReply, TalkReply, WhoReply,
};
use tap_mud::client::state::{ChatTab, Room};
use tap_mud::client::tap::{Decoded, ReplyKind, TapClient};

fn client() -> (TapClient, Receiver<String>) {
    let (_tx, rx) = channel();
    let (tx_out, out) = channel();
    (TapClient::new("test".to_string(), rx, tx_out), out)
}

fn text_field(v: &Value, key: &str) -> Option<String> {
    v.get(key)?.as_str().map(|s| s.to_string())
}

fn opt_text_field(v: &Value, key: &str) -> Option<Option<String>> {
    match v.get(key) {
        None | Some(Value::Null) => Some(None),
        Some(x) => x.as_str().map(|s| Some(s.to_string())),
    }
}

fn u32_field(v: &Value, key: &str) -> Option<u32> {
    let n = v.get(key)?.as_u64()?;
    u32::try_from(n).ok()
}

fn list_field(v: &Value, key: &str) -> Option<Vec<String>> {
    let a = v.get(key)?.as_array()?;
    a.iter().map(|x| x.as_str().map(|s| s.to_string())).collect()
}

fn room_of(v: &Value) -> Option<Room> {
    let exits_v = v.get("exits")?.as_object()?;
    let mut exits = HashMap::new();
    for (k, x) in exits_v {
        exits.insert(k.clone(), x.as_str()?.to_string());
    }
    Some(Room {
        id: text_field(v, "id")?,
        name: text_field(v, "name")?,
        description: text_field(v, "description")?,
        exits,
    })
}

fn quest_of(v: &Value) -> Option<QuestReply> {
    Some(QuestReply {
        quest_id: text_field(v, "quest_id")?,
        name: opt_text_field(v, "name")?,
        description: opt_text_field(v, "description")?,
        status: text_field(v, "status")?,
        progress: text_field(v, "progress")?,
    })
}

/// Decodes the payload of an `OK` line the way the application does before applying it.
fn decode(kind: ReplyKind, data: &str) -> Decoded {
    let v: Option<Value> = serde_json::from_str(data).ok();
    let v = v.as_ref();
    match kind {
        ReplyKind::Nothing => Decoded::Nothing,
        ReplyKind::Status => Decoded::Status(v.and_then(|v| {
            Some(StatusReply {
                hp: u32_field(v, "hp")?,
                max_hp: u32_field(v, "max_hp")?,
                status: text_field(v, "status")?,
            })
        })),
        ReplyKind::Look => Decoded::Look(v.and_then(|v| {
            Some(LookReply {
                room: room_of(v.get("room")?)?,
                players: list_field(v, "players")?,
                items: list_field(v, "items")?,
                npcs: list_field(v, "npcs")?,
            })
        })),
        ReplyKind::Who => Decoded::Who(v.and_then(|v| {
            Some(WhoReply { room: list_field(v, "room")?, server: u32_field(v, "server")? })
        })),
        ReplyKind::Talk => Decoded::Talk(v.and_then(|v| {
            Some(TalkReply { npc: text_field(v, "npc")?, dialogue: text_field(v, "dialogue")? })
        })),
        ReplyKind::Combat => Decoded::Combat(v.and_then(|v| {
            Some(CombatReply {
                action: text_field(v, "action")?,
                attacker_hp: u32_field(v, "attacker_hp")?,
                target_hp: u32_field(v, "target_hp")?,
                damage_dealt: u32_field(v, "damage_dealt")?,
                damage_taken: u32_field(v, "damage_taken")?,
                status: text_field(v, "status")?,
                message: opt_text_field(v, "message")?,
            })
        })),
        ReplyKind::Quests => Decoded::Quests(
            v.and_then(|v| v.as_array()?.iter().map(quest_of).collect::<Option<Vec<_>>>()),
        ),
        ReplyKind::Quest => Decoded::Quest(v.and_then(quest_of)),
    }
}

fn apply_line(c: &mut TapClient, reply: &str) {
    let msg = parse_line(reply);
    let kind = c.expected_reply(&msg);
    let dec = match &msg {
        ServerMsg::OkReply(data) => decode(kind, data),
        _ => Decoded::Nothing,
    };
    c.apply(msg, dec);
}

fn feed(c: &mut TapClient, sent: &str, reply: &str) {
    c.pending_cmds.push_back(sent.to_string());
    apply_line(c, reply);
}

fn last_log(c: &TapClient) -> &str {
    c.logs.last().map(|s| s.as_str()).unwrap_or("")
}

#[test]
fn connect_ok_sets_connected_and_sends_initial_salvo() {
    let (mut c, out) = client();
    feed(&mut c, "CONNECT test", "OK connected");
    assert!(c.connected);
    assert_eq!(out.try_recv().unwrap(), "LOOK");
    assert_eq!(out.try_recv().unwrap(), "INVENTORY");
    assert_eq!(out.try_recv().unwrap(), "STATUS");
    assert!(out.try_recv().is_err());
    assert_eq!(c.pending_cmds.len(), 3);
}

#[test]
fn connect_unexpected_reply_is_logged() {
    let (mut c, _out) = client();
    feed(&mut c, "CONNECT test", "OK weird");
    assert!(!c.connected);
    assert!(last_log(&c).contains("CONNECT"));
}

#[test]
fn status_ok_updates_hp() {
    let (mut c, _out) = client();
    feed(
        &mut c,
        "STATUS",
        r#"OK {"hp": 55, "max_hp": 120, "status": "healthy"}"#,
    );
    assert_eq!(c.hp, 55);
    assert_eq!(c.max_hp, 120);
}

#[test]
fn status_malformed_json_is_logged_and_state_untouched() {
    let (mut c, _out) = client();
    feed(&mut c, "STATUS", r#"OK {"hp": "abc"}"#);
    assert_eq!(c.hp, 100);
    assert!(last_log(&c).contains("STATUS"));
}

#[test]
fn look_ok_fills_room_and_lists() {
    let (mut c, _out) = client();
    feed(
        &mut c,
        "LOOK",
        r#"OK {"room": {"id": "loc.tavern", "name": "The Rusty Tankard", "description": "Smoky.", "exits": {"south": "loc.square", "up": "loc.attic"}}, "players": ["alice", "bob"], "items": ["item.ale"], "npcs": ["npc.barkeep"]}"#,
    );
    let room = c.room.as_ref().expect("room should be set");
    assert_eq!(room.name, "The Rusty Tankard");
    assert_eq!(room.exits.len(), 2);
    assert_eq!(room.exits.get("up").unwrap(), "loc.attic");
    assert_eq!(c.players, vec!["alice", "bob"]);
    assert_eq!(c.items, vec!["item.ale"]);
    assert_eq!(c.npcs, vec!["npc.barkeep"]);
}

#[test]
fn look_replaces_previous_state_not_appends() {
    let (mut c, _out) = client();
    c.players = vec!["ghost".to_string()];
    c.items = vec!["item.old".to_string()];
    feed(
        &mut c,
        "LOOK",
        r#"OK {"room": {"id": "loc.a", "name": "A", "description": "d", "exits": {}}, "players": [], "items": [], "npcs": []}"#,
    );
    assert!(c.players.is_empty());
    assert!(c.items.is_empty());
}

#[test]
fn look_missing_key_is_logged_room_stays_none() {
    let (mut c, _out) = client();
    feed(&mut c, "LOOK", r#"OK {"players": [], "items": [], "npcs": []}"#);
    assert!(c.room.is_none());
    assert!(last_log(&c).contains("LOOK"));
}

#[test]
fn inventory_ok_replaces_inventory() {
    let (mut c, _out) = client();
    c.inventory = vec!["item.old".to_string()];
    feed(&mut c, "INVENTORY", r#"OK ["item.herbs", "item.bread"]"#);
    assert_eq!(c.inventory, vec!["item.herbs", "item.bread"]);
}

#[test]
fn inventory_empty_list_is_valid() {
    let (mut c, _out) = client();
    c.inventory = vec!["item.old".to_string()];
    feed(&mut c, "INVENTORY", "OK []");
    assert!(c.inventory.is_empty());
}

#[test]
fn who_ok_updates_server_players_and_room_list() {
    let (mut c, _out) = client();
    feed(&mut c, "WHO", r#"OK {"room": ["alice", "bob"], "server": 7}"#);
    assert_eq!(c.server_players, 7);
    assert_eq!(c.players, vec!["alice", "bob"]);
}

#[test]
fn talk_ok_displays_dialogue_in_room_chat() {
    let (mut c, _out) = client();
    feed(
        &mut c,
        "TALK npc.guard",
        r#"OK {"npc": "guard", "dialogue": "Stay safe, traveler."}"#,
    );
    let line = c.chat_room.last().expect("dialogue should be in room chat");
    assert!(line.contains("Stay safe, traveler."));
    assert!(line.contains("guard"));
}

#[test]
fn move_ok_triggers_look() {
    let (mut c, out) = client();
    feed(&mut c, "MOVE north", "OK room=loc.tavern");
    assert_eq!(out.try_recv().unwrap(), "LOOK");
    assert_eq!(c.pending_cmds.len(), 1);
}

#[test]
fn move_unexpected_reply_is_logged() {
    let (mut c, out) = client();
    feed(&mut c, "MOVE north", "OK nonsense");
    assert!(out.try_recv().is_err());
    assert!(last_log(&c).contains("MOVE"));
}

#[test]
fn take_ok_moves_item_from_room_to_inventory() {
    let (mut c, _out) = client();
    c.items = vec!["item.herbs".to_string(), "item.rock".to_string()];
    feed(&mut c, "TAKE item.herbs", "OK taken=item.herbs");
    assert_eq!(c.items, vec!["item.rock"]);
    assert_eq!(c.inventory, vec!["item.herbs"]);
}

#[test]
fn take_by_display_name_uses_canonical_id_from_reply() {
    let (mut c, _out) = client();
    c.items = vec!["item.herbs".to_string()];
    feed(&mut c, "TAKE Herbs", "OK taken=item.herbs");
    assert!(c.items.is_empty());
    assert_eq!(c.inventory, vec!["item.herbs"]);
}

#[test]
fn drop_ok_moves_item_from_inventory_to_room() {
    let (mut c, _out) = client();
    c.inventory = vec!["item.bread".to_string()];
    feed(&mut c, "DROP item.bread", "OK dropped=item.bread");
    assert!(c.inventory.is_empty());
    assert_eq!(c.items, vec!["item.bread"]);
}

#[test]
fn group_create_ok_sets_group() {
    let (mut c, _out) = client();
    feed(&mut c, "GROUP CREATE", "OK group=grp_123");
    assert_eq!(c.group.as_deref(), Some("grp_123"));
}

#[test]
fn group_join_ok_sets_group() {
    let (mut c, _out) = client();
    feed(&mut c, "GROUP JOIN alice", "OK group=grp_777");
    assert_eq!(c.group.as_deref(), Some("grp_777"));
}

#[test]
fn group_leave_ok_clears_group() {
    let (mut c, _out) = client();
    c.group = Some("grp_123".to_string());
    feed(&mut c, "GROUP LEAVE", "OK");
    assert!(c.group.is_none());
}

#[test]
fn err_dequeues_like_ok_keeping_order() {
    let (mut c, _out) = client();
    c.pending_cmds.push_back("STATUS".to_string());
    c.pending_cmds.push_back("INVENTORY".to_string());
    apply_line(&mut c, "ERR 500 SERVER_ERROR");
    assert!(last_log(&c).contains("STATUS"));
    apply_line(&mut c, r#"OK ["item.x"]"#);
    assert_eq!(c.inventory, vec!["item.x"]);
    assert!(c.pending_cmds.is_empty());
}

#[test]
fn unsolicited_ok_is_logged_not_crashing() {
    let (mut c, _out) = client();
    apply_line(&mut c, "OK hello proto=1");
    assert!(last_log(&c).to_lowercase().contains("unsolicited"));
    assert!(c.pending_cmds.is_empty());
}

#[test]
fn unsolicited_err_is_logged() {
    let (mut c, _out) = client();
    apply_line(&mut c, "ERR 500 SERVER_ERROR");
    assert!(last_log(&c).to_lowercase().contains("unsolicited"));
}

#[test]
fn evt_enter_and_leave_update_players() {
    let (mut c, _out) = client();
    apply_line(&mut c, "EVT ROOM PRESENCE ENTER carol");
    assert_eq!(c.players, vec!["carol"]);
    apply_line(&mut c, "EVT ROOM PRESENCE LEAVE carol");
    assert!(c.players.is_empty());
    assert!(c.pending_cmds.is_empty());
}

#[test]
fn evt_chat_goes_to_the_right_tab() {
    let (mut c, _out) = client();
    apply_line(&mut c, "EVT ROOM CHAT alice salut tout le monde");
    apply_line(&mut c, "EVT GLOBAL CHAT bob hey");
    apply_line(&mut c, "EVT GROUP CHAT carol go");
    assert!(c.chat_room.last().unwrap().contains("salut tout le monde"));
    assert!(c.chat_global.last().unwrap().contains("hey"));
    assert!(c.chat_group.last().unwrap().contains("go"));
}

#[test]
fn evt_stats_updates_server_players() {
    let (mut c, _out) = client();
    apply_line(&mut c, "EVT STATS players=12");
    assert_eq!(c.server_players, 12);
}

#[test]
fn evt_group_join_leave_are_visible_in_group_chat() {
    let (mut c, _out) = client();
    apply_line(&mut c, "EVT GROUP JOIN dave");
    assert!(c.chat_group.last().unwrap().contains("dave"));
    apply_line(&mut c, "EVT GROUP LEAVE dave");
    assert!(c.chat_group.last().unwrap().contains("dave"));
}

#[test]
fn unknown_line_is_logged_and_harmless() {
    let (mut c, _out) = client();
    apply_line(&mut c, "GARBAGE stuff");
    assert!(last_log(&c).contains("GARBAGE stuff"));
    assert!(c.pending_cmds.is_empty());
    assert!(!c.connected);
}

fn receive_line(c: &mut TapClient, reply: &str) {
    let msg = parse_line(reply);
    let kind = c.expected_reply(&msg);
    let dec = match &msg {
        ServerMsg::OkReply(data) => decode(kind, data),
        _ => Decoded::Nothing,
    };
    c.receive(msg, dec);
}

#[test]
fn new_client_starts_disconnected_at_full_health() {
    let (c, _out) = client();
    assert!(!c.connected && !c.disconnected);
    assert_eq!((c.hp, c.max_hp), (100, 100));
    assert_eq!(c.active_tab, ChatTab::Room);
    assert!(c.pending_cmds.is_empty() && c.logs.is_empty());
}

#[test]
fn journal_is_fetched_after_replies_but_not_after_itself() {
    let (mut c, out) = client();
    c.pending_cmds.push_back("MOVE north".to_string());
    receive_line(&mut c, "OK room=loc.tavern");
    assert_eq!(out.try_recv().unwrap(), "LOOK");
    assert_eq!(out.try_recv().unwrap(), "QUESTS");
    assert!(out.try_recv().is_err());
    c.pending_cmds.clear();
    c.pending_cmds.push_back("QUESTS".to_string());
    receive_line(&mut c, r#"OK [{"quest_id": "quest.rats", "status": "in_progress", "progress": "0/1"}]"#);
    assert!(out.try_recv().is_err());
    assert_eq!(c.quests.len(), 1);
    assert_eq!(c.quests[0].name, None);
    receive_line(&mut c, "EVT STATS players=3");
    assert!(out.try_recv().is_err());
}

#[test]
fn a_fight_from_engagement_to_victory() {
    let (mut c, out) = client();
    feed(
        &mut c,
        "ATTACK npc.rat",
        r#"OK {"action": "engage", "attacker_hp": 100, "target_hp": 20, "damage_dealt": 0, "damage_taken": 0, "status": "in_combat", "message": "combat started with npc.rat"}"#,
    );
    assert!(c.in_combat);
    assert_eq!(c.combat_target.as_deref(), Some("npc.rat"));
    assert_eq!((c.combat_target_hp, c.combat_target_max_hp), (20, 20));
    feed(
        &mut c,
        "ATTACK",
        r#"OK {"action": "attack", "attacker_hp": 95, "target_hp": 5, "damage_dealt": 15, "damage_taken": 5, "status": "in_combat", "message": null}"#,
    );
    assert_eq!((c.hp, c.combat_target_hp), (95, 5));
    assert_eq!(c.combat_history.last().unwrap(), "Inflicted 15 to npc.rat, counter attacked for 5");
    feed(
        &mut c,
        "ATTACK",
        r#"OK {"action": "attack", "attacker_hp": 95, "target_hp": 0, "damage_dealt": 15, "damage_taken": 0, "status": "won", "message": "you won the fight"}"#,
    );
    assert!(!c.in_combat);
    assert!(c.combat_target.is_none());
    assert_eq!(c.combat_history.last().unwrap(), "you won the fight");
    assert_eq!(out.try_recv().unwrap(), "LOOK");
    assert_eq!(out.try_recv().unwrap(), "STATUS");
}

#[test]
fn completed_quest_refreshes_the_inventory() {
    let (mut c, out) = client();
    feed(
        &mut c,
        "QUEST npc.guard",
        r#"OK {"quest_id": "quest.rats", "name": "Rat Problem", "description": "Rats.", "status": "completed", "progress": "done"}"#,
    );
    assert_eq!(c.quests.len(), 1);
    assert_eq!(c.quests[0].status, "completed");
    assert_eq!(out.try_recv().unwrap(), "INVENTORY");
}

#[test]
fn disconnection_notice_and_greeting() {
    let (mut c, _out) = client();
    apply_line(&mut c, "OK hello proto=1");
    assert_eq!(last_log(&c), "Unsolicited OK: hello proto=1");
    c.pending_cmds.push_back("LOOK".to_string());
    apply_line(&mut c, "ERR 900 DISCONNECTED");
    assert!(c.disconnected);
    assert_eq!(last_log(&c), "Disconnected: DISCONNECTED");
    assert_eq!(c.pending_cmds.len(), 1);
}

#[test]
fn sending_without_a_writer_is_logged() {
    let (_tx, rx) = channel();
    let (tx_out, out) = channel::<String>();
    drop(out);
    let mut c = TapClient::new("test".to_string(), rx, tx_out);
    assert!(!c.send_command("LOOK".to_string()));
    assert_eq!(last_log(&c), "(not connected)");
    assert!(c.pending_cmds.is_empty());
    let (mut d, out2) = client();
    assert!(d.send_command("LOOK".to_string()));
    assert_eq!(last_log(&d), ">> LOOK");
    assert_eq!(out2.try_recv().unwrap(), "LOOK");
}

#[test]
fn command_texts_for_the_panels() {
    assert!(TapClient::username_ok("alice"));
    assert!(!TapClient::username_ok(""));
    assert!(!TapClient::username_ok("   "));
    assert!(!TapClient::username_ok("al ice"));
    assert_eq!(TapClient::connect_command("alice"), "CONNECT alice");
    assert_eq!(TapClient::chat_command(ChatTab::Global, "hi all"), Some("CHAT GLOBAL hi all".to_string()));
    assert_eq!(TapClient::chat_command(ChatTab::Group, "go"), Some("CHAT GROUP go".to_string()));
    assert_eq!(TapClient::chat_command(ChatTab::Room, "  "), None);
}

#[test]
fn expected_payloads_follow_the_waiting_command() {
    let (mut c, _out) = client();
    let ok = parse_line("OK {}");
    assert_eq!(c.expected_reply(&ok), ReplyKind::Nothing);
    for (cmd, kind) in [
        ("STATUS", ReplyKind::Status),
        ("LOOK", ReplyKind::Look),
        ("WHO", ReplyKind::Who),
        ("TALK npc.x", ReplyKind::Talk),
        ("DEFEND", ReplyKind::Combat),
        ("QUESTS", ReplyKind::Quests),
        ("QUEST npc.x", ReplyKind::Quest),
        ("QUEST", ReplyKind::Nothing),
        ("INVENTORY", ReplyKind::Nothing),
    ] {
        c.pending_cmds.clear();
        c.pending_cmds.push_back(cmd.to_string());
        assert_eq!(c.expected_reply(&ok), kind, "{cmd}");
    }
    assert_eq!(c.expected_reply(&parse_line("EVT STATS players=1")), ReplyKind::Nothing);
}

#[test]
fn quest_titles_fall_back_to_the_readable_id() {
    let named = QuestReply {
        quest_id: "quest.rat_problem".to_string(),
        name: Some("Rat Problem".to_string()),
        description: None,
        status: "in_progress".to_string(),
        progress: "0/1".to_string(),
    };
    assert_eq!(TapClient::quest_title(&named), "Rat Problem");
    let bare = QuestReply { name: None, ..named };
    assert_eq!(TapClient::quest_title(&bare), "quest.rat_problem");
    let item = QuestReply { quest_id: "item.old_sword".to_string(), ..bare };
    assert_eq!(TapClient::quest_title(&item), "old sword");
}

#[test]
fn console_lines_are_trimmed_and_quit_ends() {
    assert_eq!(tap_mud::client::console::console_command("   "), None);
    assert_eq!(tap_mud::client::console::console_command("  LOOK \t"), Some(("LOOK".to_string(), false)));
    assert_eq!(tap_mud::client::console::console_command(" QUIT"), Some(("QUIT".to_string(), true)));
    assert_eq!(tap_mud::client::console::console_command("QUIT now"), Some(("QUIT now".to_string(), false)));
}

#[test]
fn panel_buttons_send_their_command_lines() {
    assert_eq!(TapClient::move_command("north"), "MOVE north");
    assert_eq!(TapClient::take_command("item.herbs"), "TAKE item.herbs");
    assert_eq!(TapClient::talk_command("npc.guard"), "TALK npc.guard");
    assert_eq!(TapClient::attack_command("npc.rat"), "ATTACK npc.rat");
    assert_eq!(TapClient::quest_command("npc.barkeep"), "QUEST npc.barkeep");
    let (mut c, _out) = client();
    assert_eq!(c.drop_command("item.coin"), Some("DROP item.coin".to_string()));
    c.in_combat = true;
    assert_eq!(c.drop_command("item.coin"), None);
}

#[test]
fn group_invites_are_offered_only_in_a_group_for_others_present() {
    let (mut c, _out) = client();
    c.username = "alice".to_string();
    c.players = vec!["alice".to_string(), "bob".to_string()];
    assert_eq!(c.invite_command("bob"), None);
    c.group = Some("group-1".to_string());
    assert_eq!(c.invite_command("bob"), Some("GROUP INVITE bob".to_string()));
    assert_eq!(c.invite_command("alice"), None);
    assert_eq!(c.invite_command("carol"), None);
    assert_eq!(c.join_command(), None);
    c.group = None;
    assert_eq!(c.join_command(), None);
    c.group_invite = Some("bob".to_string());
    assert_eq!(c.join_command(), Some("GROUP JOIN bob".to_string()));
}

#[test]
fn a_quest_reported_twice_keeps_one_journal_entry() {
    let (mut c, _out) = client();
    let first = r#"OK {"quest_id":"quest.herbs","name":"Herbal Remedy","description":"d","status":"in_progress","progress":"0/1"}"#;
    let second = r#"OK {"quest_id":"quest.herbs","name":"Herbal Remedy","description":"d","status":"completed","progress":"done"}"#;
    feed(&mut c, "QUEST npc.barkeep", first);
    feed(&mut c, "QUEST npc.barkeep", second);
    assert_eq!(c.quests.len(), 1);
    assert_eq!(c.quests[0].status, "completed");
}
