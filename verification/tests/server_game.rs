use tap_mud::server::game::GameServer;
use tap_mud::server::reply::{Outgoing, Reply, Target};
use tap_mud::server::session::{LineOutcome, Session};
use tap_mud::server::world::{
    GameWorld, Item, Location, Npc, Objective, Quest, Reward, Stats, World,
};

fn st(x: &str) -> String {
    x.to_string()
}

fn strs(v: &[&str]) -> Vec<String> {
    v.iter().map(|x| x.to_string()).collect()
}

fn room(name: &str, exits: &[(&str, &str)], items: &[&str], npcs: &[&str]) -> Location {
    Location {
        name: st(name),
        description: format!("{name}, as it is."),
        exits: exits.iter().map(|(d, t)| (st(d), st(t))).collect(),
        items: strs(items),
        npcs: strs(npcs),
    }
}

fn item(name: &str, obtainable: bool) -> Item {
    Item { name: st(name), description: st("An item."), obtainable }
}

fn npc(
    name: &str,
    hostile: bool,
    dialogue: &[&str],
    quests: &[&str],
    hp: u32,
    damage: Option<u32>,
    max_hp: u32,
    respawn: Option<u32>,
) -> Npc {
    Npc {
        name: st(name),
        role: st("role"),
        hostile,
        description: st("Someone."),
        dialogue: strs(dialogue),
        quests: strs(quests),
        stats: Stats { hp, damage, max_hp },
        respawn_seconds: respawn,
        engaged_by: None,
    }
}

fn quest(name: &str, giver: &str, item: Option<&str>, target: Option<&str>, count: Option<u32>, reward: &str) -> Quest {
    Quest {
        name: st(name),
        giver: st(giver),
        quest_type: st(if item.is_some() { "fetch" } else { "kill" }),
        description: format!("{name}: do it."),
        objective: Objective {
            item: item.map(st),
            deliver_to: item.map(|_| st(giver)),
            target: target.map(st),
            count,
        },
        reward: Reward { item: st(reward) },
    }
}

fn world() -> GameWorld {
    GameWorld {
        world: World {
            start_location: st("loc.square"),
            respawn_location: st("loc.tavern"),
            locations: vec![
                (
                    st("loc.square"),
                    room(
                        "Square",
                        &[("north", "loc.tavern"), ("south", "loc.road"), ("east", "loc.market")],
                        &["item.herbs"],
                        &["npc.guard"],
                    ),
                ),
                (
                    st("loc.tavern"),
                    room("Tavern", &[("south", "loc.square")], &["item.ale", "item.altar"], &["npc.barkeep"]),
                ),
                (
                    st("loc.market"),
                    room("Market", &[("west", "loc.square"), ("south", "loc.road")], &[], &[]),
                ),
                (
                    st("loc.road"),
                    room(
                        "Road",
                        &[("north", "loc.square"), ("east", "loc.market"), ("down", "loc.cave")],
                        &[],
                        &["npc.rat"],
                    ),
                ),
                (st("loc.cave"), room("Cave", &[("up", "loc.road")], &[], &["npc.wolf"])),
            ],
        },
        items: vec![
            (st("item.herbs"), item("Healing Herbs", true)),
            (st("item.ale"), item("Frothy Ale", true)),
            (st("item.altar"), item("Ancient Altar", false)),
            (st("item.sword"), item("Old Sword", true)),
            (st("item.coin"), item("Gold Coin", true)),
        ],
        npcs: vec![
            (st("npc.guard"), npc("Guard", false, &["Halt!", "Move along."], &["quest.rats"], 50, None, 50, None)),
            (st("npc.barkeep"), npc("Barkeep", false, &["Welcome!"], &["quest.herbs"], 40, None, 40, None)),
            (st("npc.rat"), npc("Giant Rat", true, &[], &[], 20, Some(5), 0, Some(10))),
            (st("npc.wolf"), npc("Dire Wolf", true, &[], &[], 200, Some(60), 200, None)),
        ],
        quests: vec![
            (st("quest.herbs"), quest("Herbal Remedy", "npc.barkeep", Some("item.herbs"), None, None, "item.coin")),
            (st("quest.rats"), quest("Rat Problem", "npc.guard", None, Some("npc.rat"), Some(1), "item.sword")),
        ],
    }
}

fn server() -> GameServer {
    match GameServer::load_world(world()) {
        Ok(g) => g,
        Err(e) => panic!("world refused: {e:?}"),
    }
}

fn send(g: &mut GameServer, ses: &mut Session, line: &str) -> LineOutcome {
    g.handle_line(ses, line, true)
}

fn join(g: &mut GameServer, name: &str) -> Session {
    let (mut ses, _) = Session::open();
    let r = send(g, &mut ses, &format!("CONNECT {name}"));
    assert_eq!(caller_texts(&r.out), vec!["OK connected"]);
    assert!(ses.connected);
    ses
}

fn caller_texts(out: &[Outgoing]) -> Vec<String> {
    out.iter()
        .filter_map(|o| match (&o.to, &o.reply) {
            (Target::Caller, Reply::Text(t)) => Some(t.clone()),
            _ => None,
        })
        .collect()
}

fn texts_to(out: &[Outgoing], name: &str) -> Vec<String> {
    out.iter()
        .filter_map(|o| match (&o.to, &o.reply) {
            (Target::Player(p), Reply::Text(t)) if p == name => Some(t.clone()),
            _ => None,
        })
        .collect()
}

fn caller_reply(out: &[Outgoing]) -> &Reply {
    let mut it = out.iter().filter(|o| matches!(o.to, Target::Caller));
    let r = it.next().expect("a reply to the caller");
    assert!(it.next().is_none(), "exactly one reply to the caller");
    &r.reply
}

/// The combat figures of the caller's reply: action, attacker hp, target hp, dealt, taken,
/// status, message.
fn combat(out: &[Outgoing]) -> (String, u32, u32, u32, u32, String, Option<String>) {
    match caller_reply(out) {
        Reply::Combat(c) => (
            c.action.clone(),
            c.attacker_hp,
            c.target_hp,
            c.damage_dealt,
            c.damage_taken,
            c.status.clone(),
            c.message.clone(),
        ),
        _ => panic!("not a combat reply"),
    }
}

fn look(g: &mut GameServer, ses: &mut Session) -> (String, Vec<String>, Vec<String>, Vec<String>) {
    let r = send(g, ses, "LOOK");
    match caller_reply(&r.out) {
        Reply::Look(l) => (l.room.id.clone(), l.players.clone(), l.items.clone(), l.npcs.clone()),
        _ => panic!("not a look reply"),
    }
}

#[test]
fn connect_greets_and_announces() {
    let mut g = server();
    let (mut a, hello) = Session::open();
    assert_eq!(caller_texts(&hello), vec!["OK hello proto=1"]);
    let r = send(&mut g, &mut a, "CONNECT alice");
    assert_eq!(caller_texts(&r.out), vec!["OK connected"]);
    assert_eq!(texts_to(&r.out, "alice"), vec!["EVT STATS players=1"]);
    assert!(a.connected);
    assert_eq!(a.name, "alice");
    assert!(!r.close);
    let (mut b, _) = Session::open();
    let r = send(&mut g, &mut b, "CONNECT bob");
    assert_eq!(texts_to(&r.out, "alice"), vec!["EVT ROOM PRESENCE ENTER bob", "EVT STATS players=2"]);
    assert_eq!(texts_to(&r.out, "bob"), vec!["EVT STATS players=2"]);
}

#[test]
fn connect_errors_and_quit() {
    let mut g = server();
    let _a = join(&mut g, "alice");
    let (mut s, _) = Session::open();
    assert_eq!(caller_texts(&send(&mut g, &mut s, "CONNECT").out), vec!["ERR 400 MALFORMED_COMMAND"]);
    assert_eq!(caller_texts(&send(&mut g, &mut s, "CONNECT   ").out), vec!["ERR 400 MALFORMED_COMMAND"]);
    assert_eq!(caller_texts(&send(&mut g, &mut s, "CONNECT a b").out), vec!["ERR 400 MALFORMED_COMMAND"]);
    assert_eq!(caller_texts(&send(&mut g, &mut s, "CONNECT alice").out), vec!["ERR 201 NAME_IN_USE"]);
    assert_eq!(caller_texts(&send(&mut g, &mut s, "LOOK").out), vec!["ERR 100 NOT_CONNECTED"]);
    assert!(!s.connected);
    let r = send(&mut g, &mut s, "QUIT");
    assert_eq!(caller_texts(&r.out), vec!["OK bye"]);
    assert!(r.close);
    let r = g.handle_line(&mut s, "CONNECT carol", false);
    assert_eq!(caller_texts(&r.out), vec!["ERR 500 INTERNAL_ERROR"]);
    assert!(!s.connected);
    assert_eq!(g.players.len(), 1);
    assert_eq!(caller_texts(&send(&mut g, &mut s, "CONNECT").out), vec!["ERR 400 MALFORMED_COMMAND"]);
    let (mut t, _) = Session::open();
    let r = send(&mut g, &mut t, " QUIT ");
    assert_eq!(caller_texts(&r.out), vec!["ERR 100 NOT_CONNECTED"]);
    assert!(r.close);
}

#[test]
fn connected_commands_basics() {
    let mut g = server();
    let mut a = join(&mut g, "alice");
    assert_eq!(caller_texts(&send(&mut g, &mut a, "CONNECT alice").out), vec!["ERR 101 ALREADY_CONNECTED"]);
    assert_eq!(caller_texts(&send(&mut g, &mut a, "DANCE").out), vec!["ERR 400 MALFORMED_COMMAND"]);
    assert_eq!(caller_texts(&send(&mut g, &mut a, "").out), vec!["ERR 400 MALFORMED_COMMAND"]);
    let r = send(&mut g, &mut a, "STATUS");
    match caller_reply(&r.out) {
        Reply::Status(s) => {
            assert_eq!((s.hp, s.max_hp), (100, 100));
            assert_eq!(s.status, "healthy");
        }
        _ => panic!("not a status reply"),
    }
    let r = send(&mut g, &mut a, "QUIT");
    assert_eq!(caller_texts(&r.out), vec!["OK bye"]);
    assert!(r.close);
}

#[test]
fn look_describes_the_room() {
    let mut g = server();
    let mut a = join(&mut g, "alice");
    let r = send(&mut g, &mut a, "LOOK");
    match caller_reply(&r.out) {
        Reply::Look(l) => {
            assert_eq!(l.room.id, "loc.square");
            assert_eq!(l.room.name, "Square");
            assert_eq!(l.room.exits.len(), 3);
            assert_eq!(l.room.exits[0], (st("north"), st("loc.tavern")));
            assert_eq!(l.players, vec!["alice"]);
            assert_eq!(l.items, vec!["item.herbs"]);
            assert_eq!(l.npcs, vec!["npc.guard"]);
        }
        _ => panic!("not a look reply"),
    }
}

#[test]
fn move_follows_exits_and_tells_the_rooms() {
    let mut g = server();
    let mut a = join(&mut g, "alice");
    let mut b = join(&mut g, "bob");
    let r = send(&mut g, &mut a, "MOVE north");
    assert_eq!(caller_texts(&r.out), vec!["OK room=loc.tavern"]);
    assert_eq!(texts_to(&r.out, "bob"), vec!["EVT ROOM PRESENCE LEAVE alice"]);
    assert_eq!(look(&mut g, &mut a).0, "loc.tavern");
    assert_eq!(caller_texts(&send(&mut g, &mut a, "MOVE west").out), vec!["ERR 301 NO_EXIT"]);
    assert_eq!(caller_texts(&send(&mut g, &mut a, "MOVE").out), vec!["ERR 400 MALFORMED_COMMAND"]);
    let r = send(&mut g, &mut b, "MOVE north");
    assert_eq!(texts_to(&r.out, "alice"), vec!["EVT ROOM PRESENCE ENTER bob"]);
    let r = send(&mut g, &mut b, "WHO");
    match caller_reply(&r.out) {
        Reply::Who(w) => {
            assert_eq!(w.room, vec!["alice", "bob"]);
            assert_eq!(w.server, 2);
        }
        _ => panic!("not a who reply"),
    }
}

#[test]
fn take_and_drop_move_items() {
    let mut g = server();
    let mut a = join(&mut g, "alice");
    assert_eq!(caller_texts(&send(&mut g, &mut a, "TAKE healing HERBS").out), vec!["OK taken=item.herbs"]);
    assert_eq!(caller_texts(&send(&mut g, &mut a, "INVENTORY").out), vec![r#"OK ["item.herbs"]"#]);
    assert!(look(&mut g, &mut a).2.is_empty());
    assert_eq!(caller_texts(&send(&mut g, &mut a, "TAKE item.herbs").out), vec!["ERR 404 ITEM_NOT_FOUND"]);
    assert_eq!(caller_texts(&send(&mut g, &mut a, "TAKE").out), vec!["ERR 400 MALFORMED_COMMAND"]);
    assert_eq!(caller_texts(&send(&mut g, &mut a, "TAKE   ").out), vec!["ERR 400 MALFORMED_COMMAND"]);
    send(&mut g, &mut a, "MOVE north");
    assert_eq!(caller_texts(&send(&mut g, &mut a, "TAKE item.altar").out), vec!["ERR 405 ITEM_NOT_OBTAINABLE"]);
    assert_eq!(caller_texts(&send(&mut g, &mut a, "DROP Healing Herbs").out), vec!["OK dropped=item.herbs"]);
    assert_eq!(look(&mut g, &mut a).2, vec!["item.ale", "item.altar", "item.herbs"]);
    assert_eq!(caller_texts(&send(&mut g, &mut a, "DROP item.herbs").out), vec!["ERR 404 ITEM_NOT_IN_INVENTORY"]);
    assert_eq!(caller_texts(&send(&mut g, &mut a, "INVENTORY").out), vec!["OK []"]);
}

#[test]
fn chat_reaches_its_scope() {
    let mut g = server();
    let mut a = join(&mut g, "alice");
    let mut b = join(&mut g, "bob");
    let r = send(&mut g, &mut a, "CHAT ROOM hello there");
    assert_eq!(caller_texts(&r.out), vec!["OK"]);
    assert_eq!(texts_to(&r.out, "bob"), vec!["EVT ROOM CHAT alice hello there"]);
    assert_eq!(texts_to(&r.out, "alice"), vec!["EVT ROOM CHAT alice hello there"]);
    send(&mut g, &mut b, "MOVE north");
    let r = send(&mut g, &mut a, "CHAT ROOM anyone?");
    assert!(texts_to(&r.out, "bob").is_empty());
    let r = send(&mut g, &mut a, "CHAT GLOBAL hi all");
    assert_eq!(texts_to(&r.out, "bob"), vec!["EVT GLOBAL CHAT alice hi all"]);
    assert_eq!(caller_texts(&send(&mut g, &mut a, "CHAT GROUP psst").out), vec!["ERR 401 NOT_IN_GROUP"]);
    assert_eq!(caller_texts(&send(&mut g, &mut a, "CHAT SHOUT x").out), vec!["ERR 400 MALFORMED_COMMAND"]);
    assert_eq!(caller_texts(&send(&mut g, &mut a, "CHAT").out), vec!["ERR 400 MALFORMED_COMMAND"]);
}

#[test]
fn groups_form_and_part() {
    let mut g = server();
    let mut a = join(&mut g, "alice");
    let mut b = join(&mut g, "bob");
    assert_eq!(caller_texts(&send(&mut g, &mut b, "GROUP JOIN alice").out), vec!["ERR 403 NOT_INVITED"]);
    assert_eq!(caller_texts(&send(&mut g, &mut a, "GROUP INVITE bob").out), vec!["ERR 401 NOT_IN_GROUP"]);
    assert_eq!(caller_texts(&send(&mut g, &mut a, "GROUP CREATE").out), vec!["OK group=grp_1"]);
    assert_eq!(caller_texts(&send(&mut g, &mut a, "GROUP CREATE").out), vec!["ERR 402 ALREADY_IN_GROUP"]);
    assert_eq!(caller_texts(&send(&mut g, &mut a, "GROUP INVITE carol").out), vec!["ERR 404 PLAYER_NOT_FOUND"]);
    let r = send(&mut g, &mut a, "GROUP INVITE bob");
    assert_eq!(caller_texts(&r.out), vec!["OK"]);
    assert_eq!(texts_to(&r.out, "bob"), vec!["EVT GROUP INVITE alice"]);
    let r = send(&mut g, &mut b, "GROUP JOIN alice");
    assert_eq!(caller_texts(&r.out), vec!["OK group=grp_1"]);
    assert_eq!(texts_to(&r.out, "alice"), vec!["EVT GROUP JOIN bob"]);
    let r = send(&mut g, &mut a, "CHAT GROUP go");
    assert_eq!(texts_to(&r.out, "bob"), vec!["EVT GROUP CHAT alice go"]);
    let r = send(&mut g, &mut b, "GROUP LEAVE");
    assert_eq!(caller_texts(&r.out), vec!["OK"]);
    assert_eq!(texts_to(&r.out, "alice"), vec!["EVT GROUP LEAVE bob"]);
    assert_eq!(caller_texts(&send(&mut g, &mut b, "GROUP LEAVE").out), vec!["ERR 401 NOT_IN_GROUP"]);
    assert_eq!(caller_texts(&send(&mut g, &mut b, "GROUP CREATE").out), vec!["OK group=grp_2"]);
    assert_eq!(caller_texts(&send(&mut g, &mut b, "GROUP").out), vec!["ERR 400 MALFORMED_COMMAND"]);
}

#[test]
fn talk_rotates_dialogue_per_player() {
    let mut g = server();
    let mut a = join(&mut g, "alice");
    let mut b = join(&mut g, "bob");
    let lines: Vec<String> = (0..3)
        .map(|_| match caller_reply(&send(&mut g, &mut a, "TALK guard").out) {
            Reply::Talk(t) => {
                assert_eq!(t.npc, "npc.guard");
                t.dialogue.clone()
            }
            _ => panic!("not a talk reply"),
        })
        .collect();
    assert_eq!(lines, vec!["Halt!", "Move along.", "Halt!"]);
    match caller_reply(&send(&mut g, &mut b, "TALK npc.guard").out) {
        Reply::Talk(t) => assert_eq!(t.dialogue, "Halt!"),
        _ => panic!("not a talk reply"),
    }
    assert_eq!(caller_texts(&send(&mut g, &mut a, "TALK nobody").out), vec!["ERR 404 NPC_NOT_FOUND"]);
}

#[test]
fn kill_quest_from_accept_to_reward() {
    let mut g = server();
    let mut a = join(&mut g, "alice");
    match caller_reply(&send(&mut g, &mut a, "QUEST guard").out) {
        Reply::Quest(q) => {
            assert_eq!(q.quest_id, "quest.rats");
            assert_eq!(q.name, "Rat Problem");
            assert_eq!(q.status, "in_progress");
            assert_eq!(q.progress, "0/1");
        }
        _ => panic!("not a quest reply"),
    }
    send(&mut g, &mut a, "MOVE south");
    let r = send(&mut g, &mut a, "ATTACK Giant Rat");
    assert_eq!(
        combat(&r.out),
        (st("engage"), 100, 20, 0, 0, st("in_combat"), Some(st("combat started with npc.rat")))
    );
    assert_eq!(caller_texts(&send(&mut g, &mut a, "LOOK").out), vec!["ERR 409 IN_COMBAT"]);
    let r = send(&mut g, &mut a, "ATTACK");
    assert_eq!(combat(&r.out), (st("attack"), 95, 5, 15, 5, st("in_combat"), None));
    assert!(r.respawn.is_none());
    let r = send(&mut g, &mut a, "ATTACK");
    assert_eq!(combat(&r.out), (st("attack"), 95, 0, 15, 0, st("won"), Some(st("you won the fight"))));
    let back = r.respawn.expect("the rat comes back");
    assert_eq!((back.npc.as_str(), back.room.as_str(), back.delay_secs), ("npc.rat", "loc.road", 10));
    assert!(look(&mut g, &mut a).3.is_empty());
    send(&mut g, &mut a, "MOVE north");
    match caller_reply(&send(&mut g, &mut a, "QUEST npc.guard").out) {
        Reply::Quest(q) => {
            assert_eq!(q.status, "completed");
            assert_eq!(q.progress, "done");
        }
        _ => panic!("not a quest reply"),
    }
    assert_eq!(caller_texts(&send(&mut g, &mut a, "INVENTORY").out), vec![r#"OK ["item.sword"]"#]);
    assert_eq!(caller_texts(&send(&mut g, &mut a, "QUEST npc.guard").out), vec!["ERR 412 QUEST_ALREADY_COMPLETED"]);
    match caller_reply(&send(&mut g, &mut a, "QUESTS").out) {
        Reply::Quests(v) => {
            assert_eq!(v.len(), 1);
            assert_eq!(v[0].quest_id, "quest.rats");
            assert_eq!(v[0].status, "completed");
        }
        _ => panic!("not a journal"),
    }
    g.respawn_npc("npc.rat", "loc.road");
    send(&mut g, &mut a, "MOVE south");
    assert_eq!(look(&mut g, &mut a).3, vec!["npc.rat"]);
    let r = send(&mut g, &mut a, "ATTACK npc.rat");
    assert_eq!(combat(&r.out).2, 20);
}

#[test]
fn fetch_quest_needs_the_item_in_hand() {
    let mut g = server();
    let mut a = join(&mut g, "alice");
    assert_eq!(caller_texts(&send(&mut g, &mut a, "QUEST npc.guard npc").out), vec!["ERR 404 NPC_NOT_FOUND"]);
    send(&mut g, &mut a, "MOVE north");
    match caller_reply(&send(&mut g, &mut a, "QUEST barkeep").out) {
        Reply::Quest(q) => assert_eq!((q.status.as_str(), q.progress.as_str()), ("in_progress", "0/1")),
        _ => panic!("not a quest reply"),
    }
    send(&mut g, &mut a, "MOVE south");
    send(&mut g, &mut a, "TAKE item.herbs");
    send(&mut g, &mut a, "DROP item.herbs");
    send(&mut g, &mut a, "MOVE north");
    match caller_reply(&send(&mut g, &mut a, "QUEST barkeep").out) {
        Reply::Quest(q) => assert_eq!((q.status.as_str(), q.progress.as_str()), ("in_progress", "1/1")),
        _ => panic!("not a quest reply"),
    }
    send(&mut g, &mut a, "MOVE south");
    send(&mut g, &mut a, "TAKE item.herbs");
    send(&mut g, &mut a, "MOVE north");
    match caller_reply(&send(&mut g, &mut a, "QUEST barkeep").out) {
        Reply::Quest(q) => {
            assert_eq!(q.name, "Herbal Remedy");
            assert_eq!((q.status.as_str(), q.progress.as_str()), ("completed", "done"));
        }
        _ => panic!("not a quest reply"),
    }
    assert_eq!(caller_texts(&send(&mut g, &mut a, "INVENTORY").out), vec![r#"OK ["item.coin"]"#]);
    match caller_reply(&send(&mut g, &mut a, "QUESTS").out) {
        Reply::Quests(v) => assert_eq!(v[0].status, "completed"),
        _ => panic!("not a journal"),
    }
}

#[test]
fn death_sends_the_player_back_with_half_health() {
    let mut g = server();
    let mut a = join(&mut g, "alice");
    send(&mut g, &mut a, "MOVE south");
    send(&mut g, &mut a, "MOVE down");
    let mut b = join(&mut g, "bob");
    send(&mut g, &mut b, "MOVE south");
    send(&mut g, &mut b, "MOVE down");
    let r = send(&mut g, &mut a, "ATTACK Dire Wolf");
    assert_eq!(texts_to(&r.out, "bob"), vec!["EVT ROOM CHAT alice * dynamic combat engaged against npc.wolf"]);
    let r = send(&mut g, &mut a, "ATTACK");
    assert_eq!(combat(&r.out), (st("attack"), 40, 185, 15, 60, st("in_combat"), None));
    let r = send(&mut g, &mut a, "ATTACK");
    assert_eq!(
        combat(&r.out),
        (st("attack"), 0, 170, 15, 60, st("dead"), Some(st("you died, respawned in loc.tavern with 50 hp")))
    );
    assert_eq!(texts_to(&r.out, "bob"), vec!["EVT ROOM CHAT alice * dynamic combat died fighting npc.wolf"]);
    match caller_reply(&send(&mut g, &mut a, "STATUS").out) {
        Reply::Status(s) => assert_eq!((s.hp, s.status.as_str()), (50, "healthy")),
        _ => panic!("not a status reply"),
    }
    assert_eq!(look(&mut g, &mut a).0, "loc.tavern");
    let r = send(&mut g, &mut b, "ATTACK npc.wolf");
    assert_eq!(combat(&r.out).2, 170);
}

#[test]
fn defend_halves_and_flee_frees() {
    let mut g = server();
    let mut a = join(&mut g, "alice");
    assert_eq!(caller_texts(&send(&mut g, &mut a, "DEFEND").out), vec!["ERR 407 NOT_IN_COMBAT"]);
    assert_eq!(caller_texts(&send(&mut g, &mut a, "FLEE").out), vec!["ERR 407 NOT_IN_COMBAT"]);
    assert_eq!(caller_texts(&send(&mut g, &mut a, "ATTACK Guard").out), vec!["ERR 405 NPC_NOT_HOSTILE"]);
    assert_eq!(caller_texts(&send(&mut g, &mut a, "ATTACK").out), vec!["ERR 400 MALFORMED_COMMAND"]);
    assert_eq!(caller_texts(&send(&mut g, &mut a, "ATTACK npc.rat").out), vec!["ERR 404 NPC_NOT_FOUND"]);
    send(&mut g, &mut a, "MOVE south");
    send(&mut g, &mut a, "ATTACK npc.rat");
    let r = send(&mut g, &mut a, "DEFEND");
    assert_eq!(combat(&r.out), (st("defend"), 98, 20, 0, 2, st("in_combat"), None));
    let r = send(&mut g, &mut a, "CHAT ROOM still here");
    assert_eq!(caller_texts(&r.out), vec!["OK"]);
    let r = send(&mut g, &mut a, "FLEE");
    assert_eq!(combat(&r.out), (st("flee"), 98, 0, 0, 0, st("fled"), Some(st("you fled the combat"))));
    assert_eq!(look(&mut g, &mut a).3, vec!["npc.rat"]);
    let r = send(&mut g, &mut a, "ATTACK npc.rat");
    assert_eq!(combat(&r.out).1, 98);
}

#[test]
fn one_fighter_per_npc_until_the_fighter_leaves() {
    let mut g = server();
    let mut a = join(&mut g, "alice");
    let mut b = join(&mut g, "bob");
    send(&mut g, &mut a, "MOVE south");
    send(&mut g, &mut b, "MOVE south");
    send(&mut g, &mut a, "ATTACK npc.rat");
    assert_eq!(caller_texts(&send(&mut g, &mut b, "ATTACK npc.rat").out), vec!["ERR 407 NPC_BUSY"]);
    let out = g.end_session(&a);
    assert_eq!(texts_to(&out, "bob"), vec!["EVT ROOM PRESENCE LEAVE alice", "EVT STATS players=1"]);
    let r = send(&mut g, &mut b, "ATTACK npc.rat");
    assert_eq!(combat(&r.out).0, "engage");
}

#[test]
fn group_numbers_come_in_order() {
    let mut g = server();
    let mut a = join(&mut g, "alice");
    assert!(g.takes_group_number("alice", "GROUP CREATE"));
    assert!(!g.takes_group_number("alice", "GROUP LEAVE"));
    assert!(!g.takes_group_number("alice", "LOOK"));
    send(&mut g, &mut a, "GROUP CREATE");
    assert!(!g.takes_group_number("alice", "GROUP CREATE"));
    assert_eq!(g.next_group_id, 2);
}

#[test]
fn a_visit_without_commands_leaves_the_game_as_it_was() {
    let mut g = server();
    let a = join(&mut g, "alice");
    assert_eq!(g.players.len(), 1);
    let out = g.end_session(&a);
    assert!(out.iter().all(|o| matches!(o.to, Target::Player(_))));
    assert!(g.players.is_empty());
    let mut b = join(&mut g, "alice");
    assert_eq!(look(&mut g, &mut b).1, vec!["alice"]);
}

#[test]
fn bringing_an_npc_back_twice_places_it_once() {
    let mut g = server();
    let mut a = join(&mut g, "alice");
    send(&mut g, &mut a, "MOVE south");
    send(&mut g, &mut a, "ATTACK npc.rat");
    send(&mut g, &mut a, "ATTACK");
    let r = send(&mut g, &mut a, "ATTACK");
    assert!(r.respawn.is_some());
    g.respawn_npc("npc.rat", "loc.road");
    g.respawn_npc("npc.rat", "loc.road");
    assert_eq!(look(&mut g, &mut a).3, vec!["npc.rat"]);
    let (_, rat) = g.world.npcs.iter().find(|(id, _)| id == "npc.rat").unwrap();
    assert_eq!((rat.stats.hp, rat.stats.max_hp), (20, 20));
    assert!(rat.engaged_by.is_none());
}

#[test]
fn every_line_gets_one_reply() {
    let mut g = server();
    let mut a = join(&mut g, "alice");
    let _b = join(&mut g, "bob");
    for line in [
        "LOOK", "WHO", "MOVE south", "ATTACK npc.rat", "LOOK", "DEFEND", "CHAT ROOM hi", "FLEE",
        "TAKE nothing", "DROP nothing", "TALK rat", "QUEST rat", "QUESTS", "INVENTORY", "STATUS",
        "GROUP CREATE", "GROUP INVITE bob", "GROUP LEAVE", "BOGUS", "",
    ] {
        let r = send(&mut g, &mut a, line);
        let replies = r.out.iter().filter(|o| matches!(o.to, Target::Caller)).count();
        assert_eq!(replies, 1, "{line}");
    }
}

#[test]
fn dropping_what_was_taken_puts_it_back() {
    let mut g = server();
    let mut a = join(&mut g, "alice");
    send(&mut g, &mut a, "MOVE north");
    let before = look(&mut g, &mut a).2;
    assert_eq!(before, vec!["item.ale", "item.altar"]);
    send(&mut g, &mut a, "TAKE item.ale");
    send(&mut g, &mut a, "DROP item.ale");
    assert_eq!(look(&mut g, &mut a).2, vec!["item.altar", "item.ale"]);
    assert_eq!(caller_texts(&send(&mut g, &mut a, "INVENTORY").out), vec!["OK []"]);
}

#[test]
fn a_fetch_quest_completes_as_soon_as_the_item_is_in_hand() {
    let mut g = server();
    let mut a = join(&mut g, "alice");
    send(&mut g, &mut a, "TAKE item.herbs");
    send(&mut g, &mut a, "MOVE north");
    match caller_reply(&send(&mut g, &mut a, "QUEST barkeep").out) {
        Reply::Quest(q) => assert_eq!((q.status.as_str(), q.progress.as_str()), ("in_progress", "0/1")),
        _ => panic!("not a quest reply"),
    }
    match caller_reply(&send(&mut g, &mut a, "QUEST barkeep").out) {
        Reply::Quest(q) => assert_eq!((q.status.as_str(), q.progress.as_str()), ("completed", "done")),
        _ => panic!("not a quest reply"),
    }
    assert_eq!(caller_texts(&send(&mut g, &mut a, "INVENTORY").out), vec![r#"OK ["item.coin"]"#]);
}

#[test]
fn inventory_names_are_written_as_escaped_json_strings() {
    let mut w = world();
    let odd = "item.a\u{1}b\"c\\";
    w.items.push((st(odd), item("Odd Thing", true)));
    w.world.locations[0].1.items.push(st(odd));
    let mut g = match GameServer::load_world(w) {
        Ok(g) => g,
        Err(e) => panic!("world refused: {e:?}"),
    };
    let mut a = join(&mut g, "alice");
    assert_eq!(caller_texts(&send(&mut g, &mut a, &format!("TAKE {odd}")).out), vec![format!("OK taken={odd}")]);
    assert_eq!(caller_texts(&send(&mut g, &mut a, "INVENTORY").out), vec![r#"OK ["item.a\u0001b\"c\\"]"#]);
}

fn heard_line(g: &mut GameServer, ses: &mut Session, line: &str) -> String {
    match caller_reply(&send(g, ses, line).out) {
        Reply::Talk(t) => t.dialogue.clone(),
        _ => panic!("not a talk reply"),
    }
}

#[test]
fn others_talking_does_not_move_a_players_place_in_the_dialogue() {
    let mut g = server();
    let mut a = join(&mut g, "alice");
    let mut b = join(&mut g, "bob");
    assert_eq!(heard_line(&mut g, &mut a, "TALK guard"), "Halt!");
    assert_eq!(heard_line(&mut g, &mut b, "TALK guard"), "Halt!");
    assert_eq!(heard_line(&mut g, &mut b, "TALK guard"), "Move along.");
    assert_eq!(heard_line(&mut g, &mut b, "TALK guard"), "Halt!");
    assert_eq!(heard_line(&mut g, &mut a, "TALK guard"), "Move along.");
}
