use rift_rumble_bot::entities::entity::{RiftRumbleEntity, RuneTree};
use rift_rumble_bot::entities::entity_loader::{
    decimal_string, item_is_eligible, load_champion_from_json, load_items_from_json,
    load_runes_from_json, load_summoners_from_json,
};
use rift_rumble_bot::entities::json::JsonValue;
use std::sync::Arc;

fn s(text: &str) -> JsonValue {
    JsonValue::Str(text.to_string())
}

fn n(value: u64) -> JsonValue {
    JsonValue::Number(Some(value))
}

fn b(value: bool) -> JsonValue {
    JsonValue::Bool(value)
}

fn arr(elems: Vec<JsonValue>) -> JsonValue {
    JsonValue::Array(elems)
}

fn obj(members: Vec<(&str, JsonValue)>) -> JsonValue {
    JsonValue::Object(members.into_iter().map(|(k, v)| (k.to_string(), v)).collect())
}

fn fields(e: &RiftRumbleEntity) -> (String, String) {
    match e {
        RiftRumbleEntity::Champion(d)
        | RiftRumbleEntity::Rune(d)
        | RiftRumbleEntity::Summoner(d)
        | RiftRumbleEntity::Item(d, _) => (d.id.clone(), d.name.clone()),
    }
}

fn item_json(into: bool, purchasable: bool, total: u64, on_rift: bool, tags: Vec<&str>) -> JsonValue {
    let mut members = vec![];
    if into {
        members.push(("into", arr(vec![s("3157")])));
    }
    members.push(("gold", obj(vec![("purchasable", b(purchasable)), ("total", n(total))])));
    members.push(("maps", obj(vec![("11", b(on_rift)), ("12", b(true))])));
    members.push(("name", s("Some Item")));
    members.push(("tags", arr(tags.into_iter().map(s).collect())));
    obj(members)
}

#[test]
fn decimal_numerals() {
    assert_eq!(decimal_string(0), "0");
    assert_eq!(decimal_string(7), "7");
    assert_eq!(decimal_string(10), "10");
    assert_eq!(decimal_string(8005), "8005");
    assert_eq!(decimal_string(u64::MAX), u64::MAX.to_string());
}

#[test]
fn eligible_item() {
    assert_eq!(item_is_eligible(&item_json(false, true, 3000, true, vec!["Damage"])), Some(true));
}

#[test]
fn ineligible_items() {
    assert_eq!(item_is_eligible(&item_json(true, true, 3000, true, vec![])), Some(false));
    assert_eq!(item_is_eligible(&item_json(false, false, 3000, true, vec![])), Some(false));
    assert_eq!(item_is_eligible(&item_json(false, true, 1700, true, vec![])), Some(false));
    assert_eq!(item_is_eligible(&item_json(false, true, 1701, false, vec![])), Some(false));
    assert_eq!(
        item_is_eligible(&item_json(false, true, 3000, true, vec!["Boots", "Consumable"])),
        Some(false)
    );
}

#[test]
fn item_with_missing_fields_is_an_error() {
    assert_eq!(item_is_eligible(&obj(vec![("name", s("x"))])), None);
    assert_eq!(item_is_eligible(&obj(vec![("gold", obj(vec![("purchasable", b(true))]))])), None);
    // A built item is rejected before its missing fields are read.
    assert_eq!(item_is_eligible(&obj(vec![("into", arr(vec![]))])), Some(false));
    // A cheap item is rejected before its maps are read.
    assert_eq!(
        item_is_eligible(&obj(vec![("gold", obj(vec![("purchasable", b(true)), ("total", n(300))]))])),
        Some(false)
    );
}

#[test]
fn loads_a_champion() {
    let json = obj(vec![(
        "data",
        obj(vec![("Ahri", obj(vec![("key", s("103")), ("name", s("Ahri")), ("title", s("the Nine-Tailed Fox"))]))]),
    )]);
    let mut champions: Vec<Arc<RiftRumbleEntity>> = vec![];
    assert_eq!(load_champion_from_json(&mut champions, &json), Some(()));
    assert_eq!(champions.len(), 1);
    assert!(matches!(*champions[0], RiftRumbleEntity::Champion(_)));
    assert_eq!(fields(&champions[0]), ("103".to_string(), "Ahri".to_string()));
}

#[test]
fn champion_without_key_is_an_error() {
    let json = obj(vec![("data", obj(vec![("Ahri", obj(vec![("name", s("Ahri"))]))]))]);
    let mut champions: Vec<Arc<RiftRumbleEntity>> = vec![];
    assert_eq!(load_champion_from_json(&mut champions, &json), None);
    assert!(champions.is_empty());
    assert_eq!(load_champion_from_json(&mut champions, &obj(vec![("data", obj(vec![]))])), None);
    assert_eq!(load_champion_from_json(&mut champions, &s("data")), None);
}

#[test]
fn loads_eligible_items_only() {
    let json = obj(vec![(
        "data",
        obj(vec![
            ("1001", item_json(true, true, 300, true, vec!["Boots"])),
            ("3031", item_json(false, true, 3400, true, vec!["Damage"])),
            ("3340", item_json(false, false, 0, true, vec!["Trinket"])),
            ("6653", item_json(false, true, 3200, true, vec!["SpellDamage"])),
        ]),
    )]);
    let mut items: Vec<Arc<RiftRumbleEntity>> = vec![item_keep()];
    assert_eq!(load_items_from_json(&mut items, &json), Some(()));
    assert_eq!(items.len(), 3);
    assert_eq!(fields(&items[1]), ("3031".to_string(), "Some Item".to_string()));
    assert_eq!(fields(&items[2]).0, "6653");
    assert!(matches!(*items[2], RiftRumbleEntity::Item(_, false)));
}

fn item_keep() -> Arc<RiftRumbleEntity> {
    Arc::new(RiftRumbleEntity::Item(
        rift_rumble_bot::entities::entity::GenericStaticData { id: "0".to_string(), name: "kept".to_string() },
        true,
    ))
}

#[test]
fn item_error_keeps_the_items_read_before_it() {
    let json = obj(vec![(
        "data",
        obj(vec![
            ("3031", item_json(false, true, 3400, true, vec![])),
            ("3032", obj(vec![("name", s("broken"))])),
            ("6653", item_json(false, true, 3200, true, vec![])),
        ]),
    )]);
    let mut items: Vec<Arc<RiftRumbleEntity>> = vec![];
    assert_eq!(load_items_from_json(&mut items, &json), None);
    assert_eq!(items.len(), 1);
    assert_eq!(fields(&items[0]).0, "3031");
}

#[test]
fn loads_classic_summoners_only() {
    let json = obj(vec![(
        "data",
        obj(vec![
            ("SummonerFlash", obj(vec![("modes", arr(vec![s("CLASSIC"), s("ARAM")])), ("name", s("Flash"))])),
            ("SummonerSnowball", obj(vec![("modes", arr(vec![s("ARAM")])), ("name", s("Mark"))])),
        ]),
    )]);
    let mut summoners: Vec<Arc<RiftRumbleEntity>> = vec![];
    assert_eq!(load_summoners_from_json(&mut summoners, &json), Some(()));
    assert_eq!(summoners.len(), 1);
    assert!(matches!(*summoners[0], RiftRumbleEntity::Summoner(_)));
    assert_eq!(fields(&summoners[0]), ("SummonerFlash".to_string(), "Flash".to_string()));
}

#[test]
fn summoner_without_modes_is_an_error() {
    let json = obj(vec![("data", obj(vec![("SummonerFlash", obj(vec![("name", s("Flash"))]))]))]);
    let mut summoners: Vec<Arc<RiftRumbleEntity>> = vec![];
    assert_eq!(load_summoners_from_json(&mut summoners, &json), None);
    assert!(summoners.is_empty());
}

fn rune_json(id: u64, key: &str) -> JsonValue {
    obj(vec![("id", n(id)), ("key", s(key)), ("name", s(key))])
}

fn runes_document() -> JsonValue {
    arr(vec![
        obj(vec![
            ("id", n(8100)),
            ("key", s("Domination")),
            (
                "slots",
                arr(vec![
                    obj(vec![("runes", arr(vec![rune_json(8112, "Electrocute"), rune_json(8124, "Predator")]))]),
                    obj(vec![("runes", arr(vec![rune_json(8126, "CheapShot")]))]),
                ]),
            ),
        ]),
        obj(vec![
            ("key", s("Precision")),
            ("slots", arr(vec![obj(vec![("runes", arr(vec![rune_json(8005, "PressTheAttack")]))])])),
        ]),
    ])
}

#[test]
fn loads_runes_by_tree_and_row() {
    let mut runes: Vec<RuneTree> = vec![];
    assert_eq!(load_runes_from_json(&mut runes, &runes_document()), Some(()));
    assert_eq!(runes.len(), 2);
    assert_eq!(runes[0].key, "Domination");
    assert_eq!(runes[0].slots.len(), 2);
    assert_eq!(runes[0].slots[0].row, 0);
    assert_eq!(runes[0].slots[0].runes.len(), 2);
    assert_eq!(fields(&runes[0].slots[0].runes[1]), ("8124".to_string(), "Predator".to_string()));
    assert_eq!(runes[0].slots[1].row, 1);
    assert!(matches!(*runes[0].slots[1].runes[0], RiftRumbleEntity::Rune(_)));
    assert_eq!(runes[1].key, "Precision");
    assert_eq!(fields(&runes[1].slots[0].runes[0]).0, "8005");
}

#[test]
fn loading_runes_twice_appends_to_the_same_rows() {
    let mut runes: Vec<RuneTree> = vec![];
    load_runes_from_json(&mut runes, &runes_document());
    load_runes_from_json(&mut runes, &runes_document());
    assert_eq!(runes.len(), 2);
    assert_eq!(runes[0].slots.len(), 2);
    assert_eq!(runes[0].slots[0].runes.len(), 4);
    assert_eq!(fields(&runes[0].slots[0].runes[3]).0, "8124");
}

#[test]
fn rune_errors() {
    let mut runes: Vec<RuneTree> = vec![];
    assert_eq!(load_runes_from_json(&mut runes, &obj(vec![])), None);
    let broken = arr(vec![obj(vec![
        ("key", s("Domination")),
        (
            "slots",
            arr(vec![obj(vec![("runes", arr(vec![rune_json(8112, "Electrocute"), obj(vec![("key", s("NoId"))])]))])]),
        ),
    ])]);
    assert_eq!(load_runes_from_json(&mut runes, &broken), None);
    assert_eq!(runes.len(), 1);
    assert_eq!(runes[0].slots[0].runes.len(), 1);
    let negative = arr(vec![obj(vec![
        ("key", s("Sorcery")),
        ("slots", arr(vec![obj(vec![("runes", arr(vec![obj(vec![("id", JsonValue::Number(None)), ("key", s("X"))])]))])])),
    ])]);
    assert_eq!(load_runes_from_json(&mut runes, &negative), None);
    assert_eq!(runes.len(), 1);
}

use rift_rumble_bot::entities::entity_loader::{
    load_champion_from_bytes, load_items_from_bytes, load_runes_from_bytes,
    load_summoners_from_bytes,
};
use rift_rumble_bot::entities::json::parse_json;

#[test]
fn parses_json_documents() {
    match parse_json(br#"{"b": [1, -2, 2.5, "x", true, null], "a": {}}"#) {
        Some(JsonValue::Object(members)) => {
            assert_eq!(members.len(), 2);
            let b = members.iter().find(|(k, _)| k == "b").unwrap();
            match &b.1 {
                JsonValue::Array(elems) => {
                    assert_eq!(elems.len(), 6);
                    assert!(matches!(elems[0], JsonValue::Number(Some(1))));
                    assert!(matches!(elems[1], JsonValue::Number(None)));
                    assert!(matches!(elems[2], JsonValue::Number(None)));
                    assert!(matches!(&elems[3], JsonValue::Str(s) if s == "x"));
                    assert!(matches!(elems[4], JsonValue::Bool(true)));
                    assert!(matches!(elems[5], JsonValue::Null));
                }
                _ => panic!("not an array"),
            }
        }
        _ => panic!("not an object"),
    }
    assert!(parse_json(b"{not json").is_none());
    assert!(parse_json(b"").is_none());
}

#[test]
fn loads_a_champion_file() {
    let mut champions: Vec<Arc<RiftRumbleEntity>> = vec![];
    let file = br#"{"type":"champion","data":{"Ahri":{"key":"103","name":"Ahri"}}}"#;
    assert_eq!(load_champion_from_bytes(&mut champions, file), Some(()));
    assert_eq!(fields(&champions[0]), ("103".to_string(), "Ahri".to_string()));
    assert_eq!(load_champion_from_bytes(&mut champions, b"]"), None);
    assert_eq!(champions.len(), 1);
}

#[test]
fn loads_an_item_file() {
    let mut items: Vec<Arc<RiftRumbleEntity>> = vec![];
    let file = br#"{"data":{
        "3031":{"name":"Infinity Edge","gold":{"purchasable":true,"total":3400},"maps":{"11":true},"tags":["Damage"]},
        "2003":{"name":"Health Potion","gold":{"purchasable":true,"total":50},"maps":{"11":true},"tags":["Consumable"]}
    }}"#;
    assert_eq!(load_items_from_bytes(&mut items, file), Some(()));
    assert_eq!(items.len(), 1);
    assert_eq!(fields(&items[0]), ("3031".to_string(), "Infinity Edge".to_string()));
    assert_eq!(load_items_from_bytes(&mut items, b"nope"), None);
    assert_eq!(items.len(), 1);
}

#[test]
fn loads_a_rune_file() {
    let mut runes: Vec<RuneTree> = vec![];
    let file = br#"[{"id":8100,"key":"Domination","slots":[{"runes":[{"id":8112,"key":"Electrocute"}]},{"runes":[{"id":8126,"key":"CheapShot"},{"id":8139,"key":"TasteOfBlood"}]}]}]"#;
    assert_eq!(load_runes_from_bytes(&mut runes, file), Some(()));
    assert_eq!(runes.len(), 1);
    assert_eq!(runes[0].slots.len(), 2);
    assert_eq!(runes[0].slots[1].row, 1);
    assert_eq!(fields(&runes[0].slots[1].runes[1]), ("8139".to_string(), "TasteOfBlood".to_string()));
    assert_eq!(load_runes_from_bytes(&mut runes, b"[1,"), None);
    assert_eq!(runes.len(), 1);
}

#[test]
fn loads_a_summoner_file() {
    let mut summoners: Vec<Arc<RiftRumbleEntity>> = vec![];
    let file = br#"{"data":{"SummonerFlash":{"name":"Flash","modes":["CLASSIC"]},"SummonerPoroThrow":{"name":"Mark","modes":["ARAM"]}}}"#;
    assert_eq!(load_summoners_from_bytes(&mut summoners, file), Some(()));
    assert_eq!(summoners.len(), 1);
    assert_eq!(fields(&summoners[0]), ("SummonerFlash".to_string(), "Flash".to_string()));
}

#[test]
fn duplicate_keys_read_each_members_own_value() {
    let json = obj(vec![(
        "data",
        obj(vec![
            ("3031", item_json(false, true, 3400, true, vec![])),
            ("3031", obj(vec![("into", arr(vec![]))])),
        ]),
    )]);
    let mut items: Vec<Arc<RiftRumbleEntity>> = vec![];
    assert_eq!(load_items_from_json(&mut items, &json), Some(()));
    assert_eq!(items.len(), 1);
}
