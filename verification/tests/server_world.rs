use tap_mud::server::flood::FloodMeter;
use tap_mud::server::game::GameServer;
use tap_mud::server::session::{ids_distinct, normalize_stats, world_ids_distinct};
use tap_mud::server::validate::validate_world;
use tap_mud::server::world::{GameWorld, Item, Location, Npc, Objective, Quest, Reward, Stats, World};

fn st(x: &str) -> String {
    x.to_string()
}

fn room(exits: &[(&str, &str)], items: &[&str], npcs: &[&str]) -> Location {
    Location {
        name: st("Room"),
        description: st("A room."),
        exits: exits.iter().map(|(d, t)| (st(d), st(t))).collect(),
        items: items.iter().map(|x| st(x)).collect(),
        npcs: npcs.iter().map(|x| st(x)).collect(),
    }
}

fn item(name: &str) -> Item {
    Item { name: st(name), description: st("An item."), obtainable: true }
}

fn npc(name: &str, quests: &[&str], hp: u32, max_hp: u32) -> Npc {
    Npc {
        name: st(name),
        role: st("role"),
        hostile: true,
        description: st("Someone."),
        dialogue: vec![],
        quests: quests.iter().map(|x| st(x)).collect(),
        stats: Stats { hp, damage: Some(3), max_hp },
        respawn_seconds: None,
        engaged_by: None,
    }
}

fn quest(giver: &str, item: Option<&str>, target: Option<&str>, reward: &str) -> Quest {
    Quest {
        name: st("Quest"),
        giver: st(giver),
        quest_type: st("kill"),
        description: st("Do it."),
        objective: Objective { item: item.map(st), deliver_to: None, target: target.map(st), count: None },
        reward: Reward { item: st(reward) },
    }
}

fn broken_world() -> GameWorld {
    GameWorld {
        world: World {
            start_location: st("loc.nowhere"),
            respawn_location: st("loc.tavern"),
            locations: vec![
                (
                    st("loc.square"),
                    room(
                        &[("north", "loc.tavern"), ("south", "loc.road"), ("east", "loc.market"), ("west", "loc.void")],
                        &["item.herbs"],
                        &[],
                    ),
                ),
                (st("loc.tavern"), room(&[("south", "loc.square")], &["item.ale", "item.ghost"], &["npc.barkeep"])),
                (st("loc.market"), room(&[("west", "loc.square"), ("south", "loc.road")], &[], &[])),
                (
                    st("loc.road"),
                    room(&[("north", "loc.square"), ("east", "loc.market"), ("down", "loc.cave")], &[], &["npc.ghost"]),
                ),
                (st("loc.cave"), room(&[("up", "loc.road")], &[], &[])),
            ],
        },
        items: vec![(st("item.herbs"), item("Healing Herbs")), (st("item.ale"), item("Healing Herbs"))],
        npcs: vec![(st("npc.barkeep"), npc("Barkeep", &["quest.rats", "quest.none"], 10, 10))],
        quests: vec![(st("quest.rats"), quest("npc.nobody", None, Some("npc.dragon"), "item.crown"))],
    }
}

#[test]
fn validation_lists_every_problem_in_order() {
    let errors = validate_world(&broken_world());
    assert_eq!(
        errors,
        vec![
            "start_location 'loc.nowhere' does not exist",
            "exit 'west' of 'loc.square' points to unknown room 'loc.void'",
            "room 'loc.tavern' contains unknown item 'item.ghost'",
            "room 'loc.road' contains unknown npc 'npc.ghost'",
            "npc 'npc.barkeep' offers unknown quest 'quest.none'",
            "quest 'quest.rats' giver 'npc.nobody' does not exist",
            "quest 'quest.rats' objective target 'npc.dragon' does not exist",
            "quest 'quest.rats' reward item 'item.crown' does not exist",
            r#"display name 'Healing Herbs' is shared by several items: ["item.herbs", "item.ale"]"#,
        ]
    );
    match GameServer::load_world(broken_world()) {
        Ok(_) => panic!("a broken world must be refused"),
        Err(e) => assert_eq!(e.len(), 9),
    }
}

#[test]
fn validation_wants_reachable_rooms_and_a_loop() {
    let w = GameWorld {
        world: World {
            start_location: st("a"),
            respawn_location: st("a"),
            locations: vec![
                (st("a"), room(&[("east", "b")], &[], &[])),
                (st("b"), room(&[("west", "a"), ("east", "c")], &[], &[])),
                (st("c"), room(&[("west", "b")], &[], &[])),
                (st("d"), room(&[], &[], &[])),
            ],
        },
        items: vec![],
        npcs: vec![(st("npc.x"), npc("X", &[], 1, 1)), (st("npc.y"), npc("X", &[], 1, 1))],
        quests: vec![],
    };
    assert_eq!(
        validate_world(&w),
        vec![
            r#"display name 'X' is shared by several npcs: ["npc.x", "npc.y"]"#,
            "room 'd' cannot be reached from 'a'",
            "world map has no loop: a full circuit must be possible (line-only maps are not allowed)",
        ]
    );
}

#[test]
fn a_small_circuit_passes() {
    let w = GameWorld {
        world: World {
            start_location: st("a"),
            respawn_location: st("b"),
            locations: vec![
                (st("a"), room(&[("east", "b"), ("south", "c")], &[], &[])),
                (st("b"), room(&[("west", "a"), ("south", "c")], &[], &[])),
                (st("c"), room(&[("north", "a"), ("up", "b")], &[], &[])),
            ],
        },
        items: vec![],
        npcs: vec![],
        quests: vec![],
    };
    assert!(validate_world(&w).is_empty());
    assert!(GameServer::load_world(w).is_ok());
}

#[test]
fn missing_max_hp_takes_the_starting_hp() {
    let mut w = broken_world();
    w.npcs.push((st("npc.rat"), npc("Rat", &[], 20, 0)));
    normalize_stats(&mut w);
    assert_eq!(w.npcs[0].1.stats.max_hp, 10);
    assert_eq!(w.npcs[1].1.stats.max_hp, 20);
    assert_eq!(w.npcs[1].1.stats.hp, 20);
}

#[test]
fn ids_are_checked_for_repeats() {
    let mut w = broken_world();
    assert!(world_ids_distinct(&w));
    assert!(ids_distinct(&w.items));
    w.items.push((st("item.ale"), item("Another")));
    assert!(!ids_distinct(&w.items));
    assert!(!world_ids_distinct(&w));
}

#[test]
fn more_than_a_hundred_lines_in_five_seconds_is_a_flood() {
    let mut m = FloodMeter::new();
    for t in 0..100u64 {
        assert!(!m.note(t * 10));
    }
    assert!(m.note(4999));
    assert!(m.note(5000));
    let mut slow = FloodMeter::new();
    for t in 0..300u64 {
        assert!(!slow.note(t * 50), "line {t}");
    }
    assert_eq!(slow.recent.len(), 100);
    assert!(slow.note(299 * 50 + 1));
}
