use rift_rumble_bot::discord::bot::{parse_command, Command, Handler, Reply};
use rift_rumble_bot::entities::entity::{
    CustomHashMap, GenericStaticData, RiftRumbleEntity, RiftRumbleEntityCollection, RuneSlot, RuneTree,
};
use std::sync::Arc;

fn entity(kind: u8, id: &str) -> Arc<RiftRumbleEntity> {
    let d = GenericStaticData { id: id.to_string(), name: id.to_string() };
    Arc::new(match kind {
        0 => RiftRumbleEntity::Champion(d),
        1 => RiftRumbleEntity::Item(d, false),
        2 => RiftRumbleEntity::Rune(d),
        _ => RiftRumbleEntity::Summoner(d),
    })
}

fn collection() -> RiftRumbleEntityCollection {
    let mut c = RiftRumbleEntityCollection::new();
    c.champions = vec![entity(0, "Ahri")];
    c.items = (1..=6).map(|i| entity(1, &i.to_string())).collect();
    c.runes = ["Domination", "Precision"]
        .iter()
        .map(|k| RuneTree {
            key: k.to_string(),
            slots: (0..4u8).map(|r| RuneSlot { row: r, runes: vec![entity(2, &format!("{k}{r}"))] }).collect(),
        })
        .collect();
    c.summoners = vec![entity(3, "Flash"), entity(3, "Ignite")];
    c
}

#[test]
fn parses_commands() {
    assert_eq!(parse_command("!open"), Command::Open);
    assert_eq!(parse_command("!participate"), Command::Participate);
    assert_eq!(parse_command("!leave"), Command::Leave);
    assert_eq!(parse_command("!start"), Command::Start);
    assert_eq!(parse_command("!open "), Command::Other);
    assert_eq!(parse_command("hello"), Command::Other);
    assert_eq!(parse_command(""), Command::Other);
}

#[test]
fn participate_records_a_loadout() {
    let c = collection();
    let mut roster = CustomHashMap::new();
    let replies = Handler::message(&mut roster, Some(&c), 42, "!participate");
    assert_eq!(
        replies,
        vec![Reply::Roster, Reply::Private("You have been added to the Rift Rumble!".to_string())]
    );
    assert_eq!(roster.0.len(), 1);
    let set = &roster.0[&42];
    assert_eq!(set.items.len(), 5);
    Handler::message(&mut roster, Some(&c), 7, "!participate");
    assert_eq!(roster.0.len(), 2);
}

#[test]
fn open_clears_the_roster() {
    let c = collection();
    let mut roster = CustomHashMap::new();
    Handler::message(&mut roster, Some(&c), 42, "!participate");
    let replies = Handler::message(&mut roster, Some(&c), 1, "!open");
    assert_eq!(replies, vec![Reply::Public("Rift Rumble initialized!".to_string())]);
    assert!(roster.0.is_empty());
}

#[test]
fn leave_only_answers() {
    let c = collection();
    let mut roster = CustomHashMap::new();
    Handler::message(&mut roster, Some(&c), 42, "!participate");
    let replies = Handler::message(&mut roster, Some(&c), 42, "!leave");
    assert_eq!(replies, vec![Reply::Private("You have been removed from the Rift Rumble!".to_string())]);
    assert!(roster.0.contains_key(&42));
}

#[test]
fn start_and_chatter_do_nothing() {
    let c = collection();
    let mut roster = CustomHashMap::new();
    assert!(Handler::message(&mut roster, Some(&c), 42, "!start").is_empty());
    assert!(Handler::message(&mut roster, Some(&c), 42, "gg").is_empty());
    assert!(roster.0.is_empty());
}

#[test]
fn participating_again_replaces_the_loadout() {
    let c = collection();
    let mut roster = CustomHashMap::new();
    Handler::message(&mut roster, Some(&c), 42, "!participate");
    Handler::message(&mut roster, Some(&c), 42, "!participate");
    assert_eq!(roster.0.len(), 1);
}

#[test]
fn open_and_leave_need_no_collection() {
    let c = collection();
    let mut roster = CustomHashMap::new();
    Handler::message(&mut roster, Some(&c), 42, "!participate");
    let replies = Handler::message(&mut roster, None, 42, "!leave");
    assert_eq!(replies.len(), 1);
    assert_eq!(roster.0.len(), 1);
    Handler::message(&mut roster, None, 1, "!open");
    assert!(roster.0.is_empty());
}
