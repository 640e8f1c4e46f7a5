use rift_rumble_bot::entities::entity::{
    get_next_random_num_closed, next_number_from_draw, randomize_skill_order, GenericStaticData,
    RiftRumbleEntity, RiftRumbleEntityCollection, RuneSlot, RuneTree,
};
use std::collections::HashSet;
use std::sync::Arc;

fn data(id: &str, name: &str) -> GenericStaticData {
    GenericStaticData { id: id.to_string(), name: name.to_string() }
}

fn champion(id: &str) -> Arc<RiftRumbleEntity> {
    Arc::new(RiftRumbleEntity::Champion(data(id, id)))
}

fn item(id: &str, mythic: bool) -> Arc<RiftRumbleEntity> {
    Arc::new(RiftRumbleEntity::Item(data(id, id), mythic))
}

fn rune(id: &str) -> Arc<RiftRumbleEntity> {
    Arc::new(RiftRumbleEntity::Rune(data(id, id)))
}

fn summoner(id: &str) -> Arc<RiftRumbleEntity> {
    Arc::new(RiftRumbleEntity::Summoner(data(id, id)))
}

fn id_of(e: &RiftRumbleEntity) -> String {
    e.id().clone()
}

fn slot(row: u8, ids: &[&str]) -> RuneSlot {
    RuneSlot { row, runes: ids.iter().map(|i| rune(i)).collect() }
}

fn tree(key: &str) -> RuneTree {
    RuneTree {
        key: key.to_string(),
        slots: vec![
            slot(0, &[&format!("{key}-k1"), &format!("{key}-k2")]),
            slot(1, &[&format!("{key}-a1"), &format!("{key}-a2")]),
            slot(2, &[&format!("{key}-b1")]),
            slot(3, &[&format!("{key}-c1"), &format!("{key}-c2"), &format!("{key}-c3")]),
        ],
    }
}

fn sample_collection() -> RiftRumbleEntityCollection {
    let mut c = RiftRumbleEntityCollection::new();
    c.champions = vec![champion("Ahri"), champion("Garen"), champion("Lux")];
    c.items = vec![
        item("3031", false),
        item("6653", true),
        item("3089", false),
        item("6655", true),
        item("3157", false),
        item("3135", false),
        item("3089", false),
        item("3020", false),
        item("3116", false),
    ];
    c.runes = vec![tree("Domination"), tree("Precision"), tree("Sorcery")];
    c.summoners = vec![summoner("SummonerFlash"), summoner("SummonerDot"), summoner("SummonerHeal")];
    c
}

#[test]
fn next_number_skips_the_taken_number() {
    assert_eq!(next_number_from_draw(Some(2), 0, 5, 0), 0);
    assert_eq!(next_number_from_draw(Some(2), 0, 5, 1), 1);
    assert_eq!(next_number_from_draw(Some(2), 0, 5, 2), 3);
    assert_eq!(next_number_from_draw(Some(2), 0, 5, 3), 4);
}

#[test]
fn next_number_ignores_a_taken_number_outside_the_range() {
    assert_eq!(next_number_from_draw(Some(9), 0, 5, 4), 4);
    assert_eq!(next_number_from_draw(None, 1, 3, 2), 2);
    assert_eq!(next_number_from_draw(None, 1, 3, 1), 1);
}

#[test]
fn random_numbers_stay_in_range_and_avoid_the_taken_one() {
    let mut seen = HashSet::new();
    for _ in 0..300 {
        let n = get_next_random_num_closed(Some(1), 0, 3);
        assert!(n < 3);
        assert_ne!(n, 1);
        seen.insert(n);
    }
    assert_eq!(seen, [0usize, 2].into_iter().collect());
}

#[test]
fn random_numbers_cover_the_range() {
    let mut seen = HashSet::new();
    for _ in 0..300 {
        let n = get_next_random_num_closed(None, 1, 3);
        assert!(n == 1 || n == 2);
        seen.insert(n);
    }
    assert_eq!(seen.len(), 2);
}

#[test]
fn skill_order_is_a_permutation_of_q_w_e() {
    let mut orders = HashSet::new();
    for _ in 0..100 {
        let (a, b, c) = randomize_skill_order();
        let mut all = vec![a.clone(), b.clone(), c.clone()];
        all.sort();
        assert_eq!(all, vec!["E".to_string(), "Q".to_string(), "W".to_string()]);
        orders.insert((a, b, c));
    }
    assert!(orders.len() > 1);
}

#[test]
fn new_collection_is_empty() {
    let c = RiftRumbleEntityCollection::new();
    assert!(c.champions.is_empty());
    assert!(c.items.is_empty());
    assert!(c.runes.is_empty());
    assert!(c.summoners.is_empty());
    assert!(!c.can_randomize());
}

#[test]
fn champion_comes_from_the_collection() {
    let c = sample_collection();
    let mut seen = HashSet::new();
    for _ in 0..200 {
        let champ = c.randomize_champion();
        assert!(matches!(*champ, RiftRumbleEntity::Champion(_)));
        seen.insert(id_of(&champ));
    }
    assert_eq!(seen.len(), 3);
}

#[test]
fn summoners_are_two_different_entries() {
    let c = sample_collection();
    for _ in 0..200 {
        let (a, b) = c.randomize_summoners();
        assert_ne!(id_of(&a), id_of(&b));
    }
}

#[test]
fn items_start_with_the_first_mythic_and_have_distinct_ids() {
    let c = sample_collection();
    for _ in 0..200 {
        let items = c.randomize_items();
        assert_eq!(items.len(), 5);
        assert_eq!(id_of(&items[0]), "6653");
        assert!(matches!(*items[0], RiftRumbleEntity::Item(_, true)));
        for it in &items[1..] {
            assert!(matches!(**it, RiftRumbleEntity::Item(_, false)));
        }
        let ids: HashSet<String> = items.iter().map(|i| id_of(i)).collect();
        assert_eq!(ids.len(), 5);
    }
}

#[test]
fn items_without_mythic_are_five_plain_items() {
    let mut c = sample_collection();
    c.items = vec![
        item("1", false),
        item("2", false),
        item("3", false),
        item("4", false),
        item("5", false),
        item("5", false),
    ];
    let items = c.randomize_items();
    let ids: HashSet<String> = items.iter().map(|i| id_of(i)).collect();
    assert_eq!(ids, ["1", "2", "3", "4", "5"].iter().map(|s| s.to_string()).collect());
}

#[test]
fn item_pool_must_be_large_enough() {
    let mut c = sample_collection();
    c.items = vec![item("1", false), item("2", false), item("3", false), item("4", false)];
    assert!(!c.can_randomize());
    c.items.push(item("4", false));
    assert!(!c.can_randomize());
    c.items.push(item("9", true));
    assert!(c.can_randomize());
    c.items = vec![item("9", true), item("1", false), item("2", false), item("3", false), item("9", false)];
    assert!(!c.can_randomize());
}

#[test]
fn runes_pick_a_primary_and_a_different_secondary_tree() {
    let c = sample_collection();
    for _ in 0..200 {
        let runes = c.randomize_runes();
        assert_eq!(runes.len(), 2);
        let (primary, primary_runes) = &runes[0];
        let (secondary, secondary_runes) = &runes[1];
        assert_ne!(primary, secondary);
        assert_eq!(primary_runes.len(), 4);
        let prefixes = ["k", "a", "b", "c"];
        for (k, r) in primary_runes.iter().enumerate() {
            assert!(id_of(r).starts_with(&format!("{primary}-{}", prefixes[k])));
        }
        assert_eq!(secondary_runes.len(), 2);
        assert!(id_of(&secondary_runes[0]).starts_with(&format!("{secondary}-a")));
        assert!(id_of(&secondary_runes[1]).starts_with(&format!("{secondary}-b")));
    }
}

#[test]
fn randomize_set_draws_a_full_loadout() {
    let c = sample_collection();
    assert!(c.can_randomize());
    let set = c.randomize_set();
    assert!(matches!(*set.champion, RiftRumbleEntity::Champion(_)));
    assert_eq!(set.items.len(), 5);
    assert_eq!(set.runes.len(), 2);
    assert_ne!(id_of(&set.summoners.0), id_of(&set.summoners.1));
    let mut skills = vec![set.skill_order.0, set.skill_order.1, set.skill_order.2];
    skills.sort();
    assert_eq!(skills, vec!["E", "Q", "W"]);
}

#[test]
fn rune_trees_must_be_well_formed() {
    let mut c = sample_collection();
    c.runes[1].key = "Domination".to_string();
    assert!(!c.can_randomize());
    let mut c = sample_collection();
    c.runes[0].slots[2].row = 1;
    assert!(!c.can_randomize());
    let mut c = sample_collection();
    c.runes[2].slots[0].runes.clear();
    assert!(!c.can_randomize());
    let mut c = sample_collection();
    c.runes.truncate(1);
    assert!(!c.can_randomize());
}

#[test]
fn summoners_and_champions_are_needed() {
    let mut c = sample_collection();
    c.summoners.truncate(1);
    assert!(!c.can_randomize());
    let mut c = sample_collection();
    c.champions.clear();
    assert!(!c.can_randomize());
}

use rift_rumble_bot::entities::entity::{draw_span_of, skill_order_of};

#[test]
fn draw_spans() {
    assert_eq!(draw_span_of(None, 0, 5), 5);
    assert_eq!(draw_span_of(Some(2), 0, 5), 4);
    assert_eq!(draw_span_of(Some(7), 0, 5), 5);
    assert_eq!(draw_span_of(Some(1), 1, 3), 1);
}

#[test]
fn picks_at_given_positions() {
    let c = sample_collection();
    assert_eq!(id_of(&c.champion_at(1)), "Garen");
    let (a, b) = c.summoners_at(2, 0);
    assert_eq!(id_of(&a), "SummonerHeal");
    assert_eq!(id_of(&b), "SummonerFlash");
}

#[test]
fn skill_order_follows_the_list() {
    assert_eq!(
        skill_order_of(&vec!["W", "E", "Q"]),
        ("W".to_string(), "E".to_string(), "Q".to_string())
    );
}

#[test]
fn items_from_given_draws() {
    let c = sample_collection();
    // Candidates after the mythic 6653: 3031, 3089, 3157, 3135, 3089(dup), 3020, 3116.
    let picked = c.items_from_draws(&vec![0, 0, 0, 0]);
    let ids: Vec<String> = picked.iter().map(|i| id_of(i)).collect();
    assert_eq!(ids, vec!["6653", "3031", "3089", "3157", "3135"]);
    // Once 3089 is taken, its second copy is no candidate.
    let picked = c.items_from_draws(&vec![1, 4, 3]);
    let ids: Vec<String> = picked.iter().map(|i| id_of(i)).collect();
    assert_eq!(ids, vec!["6653", "3089", "3116", "3020"]);
}

#[test]
fn runes_from_given_draws() {
    let c = sample_collection();
    let r = c.runes_from_draws(2, 0, 2, 1, &vec![1, 0, 0, 2], &vec![1, 0]);
    assert_eq!(r[0].0, "Sorcery");
    let ids: Vec<String> = r[0].1.iter().map(|x| id_of(x)).collect();
    assert_eq!(ids, vec!["Sorcery-k2", "Sorcery-a1", "Sorcery-b1", "Sorcery-c3"]);
    assert_eq!(r[1].0, "Domination");
    let ids: Vec<String> = r[1].1.iter().map(|x| id_of(x)).collect();
    assert_eq!(ids, vec!["Domination-a2", "Domination-b1"]);
}
