use crate::entities::entity::{
    runes_well_formed, slots_well_formed, EntityView, GenericStaticData, RiftRumbleEntity,
    RuneSlot, RuneSlotView, RuneTree, RuneTreeView, StaticDataView,
};
use crate::entities::json::{
    array_contains_string, contains_string, get_in, get_member, is_string, lookup, parse_json,
    spec_as_array,
    spec_as_bool, spec_as_object, spec_as_str, spec_as_u64, spec_get, spec_parse_json, JsonValue,
};
use std::sync::Arc;
use vstd::prelude::*;

verus! {

/// The map in which Data Dragon tells where an item can be bought: Summoner's
/// Rift.
pub const SUMMONERS_RIFT_ID: &'static str = "11";

/// The game mode whose summoner spells are handed out.
pub const CLASSIC_MODE: &'static str = "CLASSIC";

// ---------------------------------------------------------------------------
// Decimal numerals
// ---------------------------------------------------------------------------

/// The decimal digit for `d` (below ten).
pub open spec fn digit_char(d: nat) -> char {
    if d == 0 {
        '0'
    } else if d == 1 {
        '1'
    } else if d == 2 {
        '2'
    } else if d == 3 {
        '3'
    } else if d == 4 {
        '4'
    } else if d == 5 {
        '5'
    } else if d == 6 {
        '6'
    } else if d == 7 {
        '7'
    } else if d == 8 {
        '8'
    } else {
        '9'
    }
}

/// The decimal numeral of `n`, without leading zeros.
pub open spec fn decimal(n: nat) -> Seq<char>
    decreases n,
{
    if n < 10 {
        seq![digit_char(n)]
    } else {
        decimal(n / 10).push(digit_char(n % 10))
    }
}

fn digit(d: u64) -> (r: &'static str)
    requires
        d < 10,
    ensures
        r@ == seq![digit_char(d as nat)],
{
    proof {
        reveal_strlit("0");
        reveal_strlit("1");
        reveal_strlit("2");
        reveal_strlit("3");
        reveal_strlit("4");
        reveal_strlit("5");
        reveal_strlit("6");
        reveal_strlit("7");
        reveal_strlit("8");
        reveal_strlit("9");
    }
    if d == 0 {
        "0"
    } else if d == 1 {
        "1"
    } else if d == 2 {
        "2"
    } else if d == 3 {
        "3"
    } else if d == 4 {
        "4"
    } else if d == 5 {
        "5"
    } else if d == 6 {
        "6"
    } else if d == 7 {
        "7"
    } else if d == 8 {
        "8"
    } else {
        "9"
    }
}

/// The decimal numeral of `n` (what `u64::to_string` writes).
pub fn decimal_string(n: u64) -> (r: String)
    ensures
        r@ == decimal(n as nat),
    decreases n,
{
    if n < 10 {
        String::from_str(digit(n))
    } else {
        let mut r = decimal_string(n / 10);
        r.append(digit(n % 10));
        r
    }
}

// ---------------------------------------------------------------------------
// Item eligibility
// ---------------------------------------------------------------------------

/// Whether an item of Data Dragon's `item.json` can be part of a loadout: a
/// finished item (it builds into nothing), purchasable, costing more than
/// 1700 gold, sold on Summoner's Rift and not a consumable. `None` when a
/// field that the decision reads is missing or of the wrong kind.
pub open spec fn spec_item_is_eligible(item: JsonValue) -> Option<bool> {
    if spec_get(item, "into"@) is Some {
        Some(false)
    } else {
        match spec_as_bool(get_in(spec_get(item, "gold"@), "purchasable"@)) {
            None => None,
            Some(false) => Some(false),
            Some(true) => match spec_as_u64(get_in(spec_get(item, "gold"@), "total"@)) {
                None => None,
                Some(total) => if total <= 1700 {
                    Some(false)
                } else {
                    match spec_as_bool(get_in(spec_get(item, "maps"@), SUMMONERS_RIFT_ID@)) {
                        None => None,
                        Some(false) => Some(false),
                        Some(true) => match spec_as_array(spec_get(item, "tags"@)) {
                            None => None,
                            Some(tags) => Some(!contains_string(tags, "Consumable"@)),
                        },
                    }
                },
            },
        }
    }
}

/// Decides whether an item can be part of a loadout.
pub fn item_is_eligible(item: &JsonValue) -> (r: Option<bool>)
    ensures
        r == spec_item_is_eligible(*item),
{
    if item.get("into").is_none() {
        if item.get("gold")?.get("purchasable")?.as_bool()? {
            if item.get("gold")?.get("total")?.as_u64()? > 1700 {
                if item.get("maps")?.get(SUMMONERS_RIFT_ID)?.as_bool()? {
                    if !array_contains_string(item.get("tags")?.as_array()?, "Consumable") {
                        return Some(true);
                    }
                }
            }
        }
    }
    Some(false)
}

/// An item is eligible exactly when it builds into nothing, is purchasable,
/// costs more than 1700 gold, is sold on Summoner's Rift (map "11") and has
/// no "Consumable" tag.
pub proof fn law_item_eligible_iff(item: JsonValue)
    ensures
        spec_item_is_eligible(item) == Some(true) <==> {
            &&& spec_get(item, "into"@) is None
            &&& get_in(spec_get(item, "gold"@), "purchasable"@) == Some(JsonValue::Bool(true))
            &&& get_in(spec_get(item, "gold"@), "total"@) matches Some(JsonValue::Number(Some(t)))
            &&& t > 1700
            &&& get_in(spec_get(item, "maps"@), "11"@) == Some(JsonValue::Bool(true))
            &&& spec_get(item, "tags"@) matches Some(JsonValue::Array(tags))
            &&& !exists|i: int| 0 <= i < tags@.len() && #[trigger] is_string(tags@[i], "Consumable"@)
        },
{
}

/// For an item that builds into nothing, is purchasable for `total` gold, is
/// sold on Summoner's Rift and is no consumable, the price alone decides:
/// it is eligible exactly when `total` exceeds 1700.
pub proof fn law_item_gold_threshold(item: JsonValue, total: u64, tags: Seq<JsonValue>)
    requires
        spec_get(item, "into"@) is None,
        get_in(spec_get(item, "gold"@), "purchasable"@) == Some(JsonValue::Bool(true)),
        get_in(spec_get(item, "gold"@), "total"@) == Some(JsonValue::Number(Some(total))),
        get_in(spec_get(item, "maps"@), "11"@) == Some(JsonValue::Bool(true)),
        spec_as_array(spec_get(item, "tags"@)) == Some(tags),
        !exists|i: int| 0 <= i < tags.len() && #[trigger] is_string(tags[i], "Consumable"@),
    ensures
        spec_item_is_eligible(item) == Some(total > 1700),
{
}

// ---------------------------------------------------------------------------
// Scans that stop at the first failure
// ---------------------------------------------------------------------------

/// Runs `step` over the first `n` elements of `elems`, in order, and
/// concatenates what the steps emit; it stops at the first step that fails.
/// The flag tells whether every step succeeded. A step that fails may have
/// emitted part of its output before failing.
pub open spec fn scan<T, R>(elems: Seq<T>, n: nat, step: spec_fn(int, T) -> (Seq<R>, bool)) -> (
    Seq<R>,
    bool,
)
    decreases n,
{
    if n == 0 {
        (Seq::empty(), true)
    } else {
        let prev = scan(elems, (n - 1) as nat, step);
        if !prev.1 {
            prev
        } else {
            let cur = step(n - 1, elems[n - 1]);
            (prev.0 + cur.0, cur.1)
        }
    }
}

/// Once a scan has failed, running it further changes nothing.
pub proof fn lemma_scan_stops<T, R>(
    elems: Seq<T>,
    m: nat,
    n: nat,
    step: spec_fn(int, T) -> (Seq<R>, bool),
)
    requires
        m <= n,
        !scan(elems, m, step).1,
    ensures
        scan(elems, n, step) == scan(elems, m, step),
    decreases n,
{
    if n > m {
        lemma_scan_stops(elems, m, (n - 1) as nat, step);
    }
}

/// One step of a scan, spelt out: the scan of `n + 1` elements after a
/// successful scan of `n`.
pub proof fn lemma_scan_next<T, R>(
    elems: Seq<T>,
    n: nat,
    step: spec_fn(int, T) -> (Seq<R>, bool),
)
    requires
        scan(elems, n, step).1,
    ensures
        scan(elems, n + 1, step) == (
            scan(elems, n, step).0 + step(n as int, elems[n as int]).0,
            step(n as int, elems[n as int]).1,
        ),
{
    assert(scan(elems, n + 1, step) == {
        let prev = scan(elems, n, step);
        let cur = step(n as int, elems[n as int]);
        (prev.0 + cur.0, cur.1)
    });
}

/// In a scan that succeeded, every step succeeded and all that it emitted
/// is in the scan's output.
pub proof fn lemma_scan_keeps_step<T, R>(
    elems: Seq<T>,
    n: nat,
    step: spec_fn(int, T) -> (Seq<R>, bool),
    k: int,
)
    requires
        scan(elems, n, step).1,
        0 <= k < n,
    ensures
        step(k, elems[k]).1,
        forall|x: R| step(k, elems[k]).0.contains(x) ==> #[trigger] scan(elems, n, step).0.contains(x),
    decreases n,
{
    let prev = scan(elems, (n - 1) as nat, step);
    let cur = step(n - 1, elems[n - 1]);
    assert(prev.1);
    assert(scan(elems, n, step) == (prev.0 + cur.0, cur.1));
    if k < n - 1 {
        lemma_scan_keeps_step(elems, (n - 1) as nat, step, k);
        assert forall|x: R| step(k, elems[k]).0.contains(x) implies #[trigger] scan(
            elems,
            n,
            step,
        ).0.contains(x) by {
            assert(scan(elems, (n - 1) as nat, step).0.contains(x));
            let j = choose|j: int| 0 <= j < prev.0.len() && prev.0[j] == x;
            assert((prev.0 + cur.0)[j] == x);
        }
    } else {
        assert forall|x: R| step(k, elems[k]).0.contains(x) implies #[trigger] scan(
            elems,
            n,
            step,
        ).0.contains(x) by {
            let j = choose|j: int| 0 <= j < cur.0.len() && cur.0[j] == x;
            assert((prev.0 + cur.0)[prev.0.len() + j] == x);
        }
    }
}

/// All that a scan outputs was emitted by one of its steps.
pub proof fn lemma_scan_output_origin<T, R>(
    elems: Seq<T>,
    n: nat,
    step: spec_fn(int, T) -> (Seq<R>, bool),
    x: R,
)
    requires
        scan(elems, n, step).0.contains(x),
    ensures
        exists|k: int| 0 <= k < n && #[trigger] step(k, elems[k]).0.contains(x),
    decreases n,
{
    let prev = scan(elems, (n - 1) as nat, step);
    let cur = step(n - 1, elems[n - 1]);
    if !prev.1 {
        lemma_scan_output_origin(elems, (n - 1) as nat, step, x);
    } else {
        let out = prev.0 + cur.0;
        assert(scan(elems, n, step).0 == out);
        let j = choose|j: int| 0 <= j < out.len() && out[j] == x;
        if j < prev.0.len() {
            assert(prev.0[j] == x);
            lemma_scan_output_origin(elems, (n - 1) as nat, step, x);
        } else {
            assert(cur.0[j - prev.0.len()] == x);
            assert(step(n - 1, elems[n - 1]).0.contains(x));
        }
    }
}

// ---------------------------------------------------------------------------
// Champions
// ---------------------------------------------------------------------------

/// The champion described by one of Data Dragon's champion files: the only
/// (first) member of its `data` object, with the `key` field as the
/// identifier and the `name` field as the name. `None` when a field that is
/// read is missing or of the wrong kind.
pub open spec fn spec_champion(json: JsonValue) -> Option<EntityView> {
    match spec_as_object(spec_get(json, "data"@)) {
        None => None,
        Some(members) => if members.len() == 0 {
            None
        } else {
            let champion = lookup(members, members[0].0@);
            match spec_as_object(champion) {
                None => None,
                Some(_) => match (
                    spec_as_str(get_in(champion, "key"@)),
                    spec_as_str(get_in(champion, "name"@)),
                ) {
                    (Some(id), Some(name)) => Some(
                        EntityView::Champion(StaticDataView { id, name }),
                    ),
                    _ => None,
                },
            }
        },
    }
}

/// Reads the champion of a parsed champion file and appends it to
/// `champions`.
pub fn load_champion_from_json(champions: &mut Vec<Arc<RiftRumbleEntity>>, json: &JsonValue) -> (r:
    Option<()>)
    ensures
        r is Some <==> spec_champion(*json) is Some,
        match spec_champion(*json) {
            Some(champion) => final(champions).deep_view() == old(champions).deep_view().push(
                champion,
            ),
            None => final(champions).deep_view() == old(champions).deep_view(),
        },
{
    let json = json.get("data")?.as_object()?;
    if json.len() == 0 {
        return None;
    }
    let json = get_member(json, json[0].0.as_str())?.as_object()?;
    let id = get_member(json, "key")?.as_str()?.clone();
    let name = get_member(json, "name")?.as_str()?.clone();
    let ghost before = champions.deep_view();
    champions.push(Arc::new(RiftRumbleEntity::Champion(GenericStaticData { id, name })));
    assert(champions.deep_view() =~= before.push(champions@[champions@.len() - 1].deep_view()));
    Some(())
}

/// The champion of a champion file is the first member of its `data`
/// object: its identifier is that member's `key` string and its name is that
/// member's `name` string. A file without a `data` object, with an empty one,
/// or whose first member lacks either string gives no champion.
pub proof fn law_champion_is_first_data_member(json: JsonValue)
    ensures
        spec_champion(json) == match spec_get(json, "data"@) {
            Some(JsonValue::Object(members)) => if members@.len() == 0 {
                None
            } else {
                match (spec_get(members@[0].1, "key"@), spec_get(members@[0].1, "name"@)) {
                    (Some(JsonValue::Str(id)), Some(JsonValue::Str(name))) => Some(
                        EntityView::Champion(StaticDataView { id: id@, name: name@ }),
                    ),
                    _ => None,
                }
            },
            _ => None,
        },
{
    match spec_get(json, "data"@) {
        Some(JsonValue::Object(members)) => {
            if members@.len() > 0 {
                assert(lookup(members@, members@[0].0@) == Some(members@[0].1));
            }
        },
        _ => {},
    }
}

// ---------------------------------------------------------------------------
// Items
// ---------------------------------------------------------------------------

/// What reading member `member` (identifier and item) of the `data` object
/// of `item.json` gives: the item when it is eligible, nothing when it is
/// not, and a failure when a field that is read is missing.
pub open spec fn item_step(member: (String, JsonValue)) -> (Seq<EntityView>, bool) {
    match spec_item_is_eligible(member.1) {
        None => (Seq::empty(), false),
        Some(false) => (Seq::empty(), true),
        Some(true) => match spec_as_str(spec_get(member.1, "name"@)) {
            None => (Seq::empty(), false),
            Some(name) => (
                seq![EntityView::Item(StaticDataView { id: member.0@, name }, false)],
                true,
            ),
        },
    }
}

/// The items read out of `item.json`, in member order, and whether the
/// reading succeeded.
pub open spec fn spec_items(json: JsonValue) -> (Seq<EntityView>, bool) {
    match spec_as_object(spec_get(json, "data"@)) {
        None => (Seq::empty(), false),
        Some(members) => scan(
            members,
            members.len(),
            |k: int, member: (String, JsonValue)| item_step(member),
        ),
    }
}

/// Reads the eligible items of a parsed `item.json` and appends them to
/// `items`. The file gives no mythic flag, so every item is recorded as not
/// mythic. On a failure the items read before it stay appended.
pub fn load_items_from_json(items: &mut Vec<Arc<RiftRumbleEntity>>, json: &JsonValue) -> (r:
    Option<()>)
    ensures
        r is Some <==> spec_items(*json).1,
        final(items).deep_view() == old(items).deep_view() + spec_items(*json).0,
{
    let ghost start = items.deep_view();
    let data = json.get("data");
    if data.is_none() {
        assert(start + Seq::<EntityView>::empty() =~= start);
        return None;
    }
    let members = data.unwrap().as_object();
    if members.is_none() {
        assert(start + Seq::<EntityView>::empty() =~= start);
        return None;
    }
    let members = members.unwrap();
    let ghost step = |k: int, member: (String, JsonValue)| item_step(member);
    assert(spec_items(*json) == scan(members@, members@.len(), step));
    let mut i: usize = 0;
    assert(start + scan(members@, 0, step).0 =~= start);
    while i < members.len()
        invariant
            i <= members@.len(),
            scan(members@, i as nat, step).1,
            start == old(items).deep_view(),
            items.deep_view() == start + scan(members@, i as nat, step).0,
            step == (|k: int, member: (String, JsonValue)| item_step(member)),
            spec_items(*json) == scan(members@, members@.len(), step),
        decreases members@.len() - i,
    {
        proof {
            lemma_scan_next(members@, i as nat, step);
        }
        let ghost prev = scan(members@, i as nat, step).0;
        let id = &members[i].0;
        let item = &members[i].1;
        let eligible = item_is_eligible(item);
        if eligible.is_none() {
            proof {
                assert(step(i as int, members@[i as int]) == (Seq::<EntityView>::empty(), false));
                lemma_scan_stops(members@, (i + 1) as nat, members@.len(), step);
            }
            assert(prev + Seq::<EntityView>::empty() =~= prev);
            return None;
        }
        if eligible.unwrap() {
            let name = item.get("name");
            if name.is_none() {
                proof {
                    lemma_scan_stops(members@, (i + 1) as nat, members@.len(), step);
                }
                assert(prev + Seq::<EntityView>::empty() =~= prev);
                return None;
            }
            let name = name.unwrap().as_str();
            if name.is_none() {
                proof {
                    lemma_scan_stops(members@, (i + 1) as nat, members@.len(), step);
                }
                assert(prev + Seq::<EntityView>::empty() =~= prev);
                return None;
            }
            let name = name.unwrap().clone();
            let ghost before = items.deep_view();
            items.push(
                Arc::new(RiftRumbleEntity::Item(GenericStaticData { id: id.clone(), name }, false)),
            );
            assert(items.deep_view() =~= before.push(items@[items@.len() - 1].deep_view()));
            assert(items.deep_view() =~= start + scan(members@, (i + 1) as nat, step).0);
        } else {
            assert(scan(members@, (i + 1) as nat, step).0 =~= prev);
        }
        i = i + 1;
    }
    Some(())
}

/// Reading `item.json` keeps exactly the eligible items: when it succeeds,
/// an item is among those read if and only if some member of the `data`
/// object is eligible, has a `name` string, and gives that item (its key as
/// identifier, its name as name, not mythic).
pub proof fn law_items_are_the_eligible_items(
    json: JsonValue,
    members: Seq<(String, JsonValue)>,
    item: EntityView,
)
    requires
        spec_get(json, "data"@) matches Some(JsonValue::Object(data)) && data@ == members,
        spec_items(json).1,
    ensures
        spec_items(json).0.contains(item) <==> exists|k: int|
            0 <= k < members.len() && {
                &&& spec_item_is_eligible((#[trigger] members[k]).1) == Some(true)
                &&& spec_get(members[k].1, "name"@) matches Some(JsonValue::Str(name))
                &&& item == EntityView::Item(StaticDataView { id: members[k].0@, name: name@ }, false)
            },
{
    let step = |k: int, member: (String, JsonValue)| item_step(member);
    assert(spec_items(json) == scan(members, members.len(), step));
    if spec_items(json).0.contains(item) {
        lemma_scan_output_origin(members, members.len(), step, item);
        let k = choose|k: int| 0 <= k < members.len() && #[trigger] step(k, members[k]).0.contains(item);
        assert(item_step(members[k]).0.contains(item));
    }
    if exists|k: int|
        0 <= k < members.len() && {
            &&& spec_item_is_eligible((#[trigger] members[k]).1) == Some(true)
            &&& spec_get(members[k].1, "name"@) matches Some(JsonValue::Str(name))
            &&& item == EntityView::Item(StaticDataView { id: members[k].0@, name: name@ }, false)
        } {
        let k = choose|k: int|
            0 <= k < members.len() && {
                &&& spec_item_is_eligible((#[trigger] members[k]).1) == Some(true)
                &&& spec_get(members[k].1, "name"@) matches Some(JsonValue::Str(name))
                &&& item == EntityView::Item(StaticDataView { id: members[k].0@, name: name@ }, false)
            };
        lemma_scan_keeps_step(members, members.len(), step, k);
        assert(item_step(members[k]).0 == seq![item]);
        assert(step(k, members[k]).0[0] == item);
    }
}

// ---------------------------------------------------------------------------
// Summoner spells
// ---------------------------------------------------------------------------

/// What reading member `member` (identifier and spell) of the `data` object
/// of `summoner.json` gives: the spell when its modes include the classic
/// mode, nothing when they do not, and a failure when a field that is read is
/// missing.
pub open spec fn summoner_step(member: (String, JsonValue)) -> (Seq<EntityView>, bool) {
    match spec_as_array(spec_get(member.1, "modes"@)) {
        None => (Seq::empty(), false),
        Some(modes) => if !contains_string(modes, CLASSIC_MODE@) {
            (Seq::empty(), true)
        } else {
            match spec_as_str(spec_get(member.1, "name"@)) {
                None => (Seq::empty(), false),
                Some(name) => (
                    seq![EntityView::Summoner(StaticDataView { id: member.0@, name })],
                    true,
                ),
            }
        },
    }
}

/// The summoner spells read out of `summoner.json`, in member order, and
/// whether the reading succeeded.
pub open spec fn spec_summoners(json: JsonValue) -> (Seq<EntityView>, bool) {
    match spec_as_object(spec_get(json, "data"@)) {
        None => (Seq::empty(), false),
        Some(members) => scan(
            members,
            members.len(),
            |k: int, member: (String, JsonValue)| summoner_step(member),
        ),
    }
}

/// Reads the summoner spells of the classic mode out of a parsed
/// `summoner.json` and appends them to `summoners`. On a failure the spells
/// read before it stay appended.
pub fn load_summoners_from_json(summoners: &mut Vec<Arc<RiftRumbleEntity>>, json: &JsonValue) -> (r:
    Option<()>)
    ensures
        r is Some <==> spec_summoners(*json).1,
        final(summoners).deep_view() == old(summoners).deep_view() + spec_summoners(*json).0,
{
    let ghost start = summoners.deep_view();
    let data = json.get("data");
    if data.is_none() {
        assert(start + Seq::<EntityView>::empty() =~= start);
        return None;
    }
    let members = data.unwrap().as_object();
    if members.is_none() {
        assert(start + Seq::<EntityView>::empty() =~= start);
        return None;
    }
    let members = members.unwrap();
    let ghost step = |k: int, member: (String, JsonValue)| summoner_step(member);
    assert(spec_summoners(*json) == scan(members@, members@.len(), step));
    let mut i: usize = 0;
    assert(start + scan(members@, 0, step).0 =~= start);
    while i < members.len()
        invariant
            i <= members@.len(),
            scan(members@, i as nat, step).1,
            start == old(summoners).deep_view(),
            summoners.deep_view() == start + scan(members@, i as nat, step).0,
            step == (|k: int, member: (String, JsonValue)| summoner_step(member)),
            spec_summoners(*json) == scan(members@, members@.len(), step),
        decreases members@.len() - i,
    {
        proof {
            lemma_scan_next(members@, i as nat, step);
        }
        let ghost prev = scan(members@, i as nat, step).0;
        let id = &members[i].0;
        let spell = &members[i].1;
        let modes = match spell.get("modes") {
            Some(modes) => modes.as_array(),
            None => None,
        };
        if modes.is_none() {
            proof {
                assert(step(i as int, members@[i as int]) == (Seq::<EntityView>::empty(), false));
                lemma_scan_stops(members@, (i + 1) as nat, members@.len(), step);
            }
            assert(prev + Seq::<EntityView>::empty() =~= prev);
            return None;
        }
        if array_contains_string(modes.unwrap(), CLASSIC_MODE) {
            let name = match spell.get("name") {
                Some(name) => name.as_str(),
                None => None,
            };
            if name.is_none() {
                proof {
                    lemma_scan_stops(members@, (i + 1) as nat, members@.len(), step);
                }
                assert(prev + Seq::<EntityView>::empty() =~= prev);
                return None;
            }
            let name = name.unwrap().clone();
            let ghost before = summoners.deep_view();
            summoners.push(
                Arc::new(RiftRumbleEntity::Summoner(GenericStaticData { id: id.clone(), name })),
            );
            assert(summoners.deep_view() =~= before.push(summoners@[summoners@.len() - 1].deep_view()));
            assert(summoners.deep_view() =~= start + scan(members@, (i + 1) as nat, step).0);
        } else {
            assert(scan(members@, (i + 1) as nat, step).0 =~= prev);
        }
        i = i + 1;
    }
    Some(())
}

/// Reading `summoner.json` keeps exactly the spells that the classic mode
/// offers: when it succeeds, a spell is among those read if and only if some
/// member of the `data` object has a `modes` array holding the string
/// "CLASSIC" at any position, a `name` string, and gives that spell (its key
/// as identifier, its name as name).
pub proof fn law_summoners_are_the_classic_spells(
    json: JsonValue,
    members: Seq<(String, JsonValue)>,
    spell: EntityView,
)
    requires
        spec_get(json, "data"@) matches Some(JsonValue::Object(data)) && data@ == members,
        spec_summoners(json).1,
    ensures
        spec_summoners(json).0.contains(spell) <==> exists|k: int|
            0 <= k < members.len() && {
                &&& spec_get((#[trigger] members[k]).1, "modes"@) matches Some(
                    JsonValue::Array(modes),
                )
                &&& exists|i: int| 0 <= i < modes@.len() && #[trigger] is_string(modes@[i], "CLASSIC"@)
                &&& spec_get(members[k].1, "name"@) matches Some(JsonValue::Str(name))
                &&& spell == EntityView::Summoner(StaticDataView { id: members[k].0@, name: name@ })
            },
{
    let step = |k: int, member: (String, JsonValue)| summoner_step(member);
    assert(spec_summoners(json) == scan(members, members.len(), step));
    assert(CLASSIC_MODE@ == "CLASSIC"@);
    if spec_summoners(json).0.contains(spell) {
        lemma_scan_output_origin(members, members.len(), step, spell);
        let k = choose|k: int| 0 <= k < members.len() && #[trigger] step(k, members[k]).0.contains(spell);
        assert(summoner_step(members[k]).0.contains(spell));
        let modes = spec_as_array(spec_get(members[k].1, "modes"@)).unwrap();
        assert(contains_string(modes, CLASSIC_MODE@));
    }
    if exists|k: int|
        0 <= k < members.len() && {
            &&& spec_get((#[trigger] members[k]).1, "modes"@) matches Some(JsonValue::Array(modes))
            &&& exists|i: int| 0 <= i < modes@.len() && #[trigger] is_string(modes@[i], "CLASSIC"@)
            &&& spec_get(members[k].1, "name"@) matches Some(JsonValue::Str(name))
            &&& spell == EntityView::Summoner(StaticDataView { id: members[k].0@, name: name@ })
        } {
        let k = choose|k: int|
            0 <= k < members.len() && {
                &&& spec_get((#[trigger] members[k]).1, "modes"@) matches Some(
                    JsonValue::Array(modes),
                )
                &&& exists|i: int| 0 <= i < modes@.len() && #[trigger] is_string(modes@[i], "CLASSIC"@)
                &&& spec_get(members[k].1, "name"@) matches Some(JsonValue::Str(name))
                &&& spell == EntityView::Summoner(StaticDataView { id: members[k].0@, name: name@ })
            };
        lemma_scan_keeps_step(members, members.len(), step, k);
        assert(summoner_step(members[k]).0 == seq![spell]);
        assert(step(k, members[k]).0[0] == spell);
    }
}

// ---------------------------------------------------------------------------
// Runes
// ---------------------------------------------------------------------------

/// A rune read out of `runesReforged.json`, with the tree and row it belongs to.
pub struct RuneRecord {
    pub tree: Seq<char>,
    pub row: u8,
    pub rune: EntityView,
}

/// `slots` with `rune` added to row `row`: appended to the row's runes when
/// the row is there, and a new row holding just the rune otherwise.
pub open spec fn add_to_row(slots: Seq<RuneSlotView>, row: u8, rune: EntityView) -> Seq<
    RuneSlotView,
> {
    if exists|k: int| 0 <= k < slots.len() && #[trigger] slots[k].row == row {
        let k = choose|k: int| 0 <= k < slots.len() && #[trigger] slots[k].row == row;
        slots.update(k, RuneSlotView { row, runes: slots[k].runes.push(rune) })
    } else {
        slots.push(RuneSlotView { row, runes: seq![rune] })
    }
}

/// `trees` with the rune of `record` added to its tree: to the tree when it
/// is there, and to a new tree otherwise.
pub open spec fn add_rune(trees: Seq<RuneTreeView>, record: RuneRecord) -> Seq<RuneTreeView> {
    if exists|t: int| 0 <= t < trees.len() && #[trigger] trees[t].key == record.tree {
        let t = choose|t: int| 0 <= t < trees.len() && #[trigger] trees[t].key == record.tree;
        trees.update(
            t,
            RuneTreeView {
                key: record.tree,
                slots: add_to_row(trees[t].slots, record.row, record.rune),
            },
        )
    } else {
        trees.push(
            RuneTreeView {
                key: record.tree,
                slots: seq![RuneSlotView { row: record.row, runes: seq![record.rune] }],
            },
        )
    }
}

/// `trees` with the runes of `records` added one after another.
pub open spec fn apply_records(trees: Seq<RuneTreeView>, records: Seq<RuneRecord>) -> Seq<
    RuneTreeView,
>
    decreases records.len(),
{
    if records.len() == 0 {
        trees
    } else {
        add_rune(apply_records(trees, records.drop_last()), records.last())
    }
}

/// Adding two runs of records one after the other adds their concatenation.
pub proof fn lemma_apply_concat(trees: Seq<RuneTreeView>, a: Seq<RuneRecord>, b: Seq<RuneRecord>)
    ensures
        apply_records(trees, a + b) == apply_records(apply_records(trees, a), b),
    decreases b.len(),
{
    if b.len() == 0 {
        assert(a + b =~= a);
    } else {
        lemma_apply_concat(trees, a, b.drop_last());
        assert((a + b).drop_last() =~= a + b.drop_last());
        assert((a + b).last() == b.last());
    }
}

/// What reading one rune gives: its identifier (the decimal numeral of the
/// `id` number) and its name (the `key` field), in tree `tree` and row `slot`
/// (the row's position, cut to a byte as `as u8` does).
pub open spec fn rune_step(tree: Seq<char>, slot: int, rune: JsonValue) -> (Seq<RuneRecord>, bool) {
    match spec_as_u64(spec_get(rune, "id"@)) {
        None => (Seq::empty(), false),
        Some(n) => match spec_as_str(spec_get(rune, "key"@)) {
            None => (Seq::empty(), false),
            Some(name) => (
                seq![
                    RuneRecord {
                        tree,
                        row: slot as u8,
                        rune: EntityView::Rune(StaticDataView { id: decimal(n as nat), name }),
                    },
                ],
                true,
            ),
        },
    }
}

/// What reading the row at position `slot` of tree `tree` gives: its runes.
pub open spec fn slot_step(tree: Seq<char>, slot: int, content: JsonValue) -> (
    Seq<RuneRecord>,
    bool,
) {
    match spec_as_array(spec_get(content, "runes"@)) {
        None => (Seq::empty(), false),
        Some(runes) => scan(runes, runes.len(), |k: int, rune: JsonValue| rune_step(tree, slot, rune)),
    }
}

/// What reading one tree gives: the runes of all its rows, under its `key`.
pub open spec fn tree_step(entry: JsonValue) -> (Seq<RuneRecord>, bool) {
    match spec_as_object(Some(entry)) {
        None => (Seq::empty(), false),
        Some(members) => match spec_as_str(lookup(members, "key"@)) {
            None => (Seq::empty(), false),
            Some(key) => match spec_as_array(lookup(members, "slots"@)) {
                None => (Seq::empty(), false),
                Some(slots) => scan(
                    slots,
                    slots.len(),
                    |s: int, content: JsonValue| slot_step(key, s, content),
                ),
            },
        },
    }
}

/// A rune that is added can be read back: its tree holds a row with the
/// rune's row number whose last rune is the added one.
pub proof fn law_added_rune_is_found(trees: Seq<RuneTreeView>, record: RuneRecord)
    ensures
        exists|t: int, k: int|
            0 <= t < add_rune(trees, record).len() && 0 <= k < add_rune(
                trees,
                record,
            )[t].slots.len() && #[trigger] add_rune(trees, record)[t].key == record.tree
                && #[trigger] add_rune(trees, record)[t].slots[k].row == record.row && add_rune(
                trees,
                record,
            )[t].slots[k].runes.len() > 0 && add_rune(
                trees,
                record,
            )[t].slots[k].runes.last() == record.rune,
{
    let after = add_rune(trees, record);
    if exists|t: int| 0 <= t < trees.len() && #[trigger] trees[t].key == record.tree {
        let t = choose|t: int| 0 <= t < trees.len() && #[trigger] trees[t].key == record.tree;
        let slots = trees[t].slots;
        if exists|k: int| 0 <= k < slots.len() && #[trigger] slots[k].row == record.row {
            let k = choose|k: int| 0 <= k < slots.len() && #[trigger] slots[k].row == record.row;
            assert(after[t].slots == add_to_row(slots, record.row, record.rune));
            assert(after[t].slots[k].runes == slots[k].runes.push(record.rune));
            assert(after[t].key == record.tree && after[t].slots[k].row == record.row
                && after[t].slots[k].runes.last() == record.rune);
        } else {
            let k = slots.len() as int;
            assert(after[t].slots == add_to_row(slots, record.row, record.rune));
            assert(after[t].key == record.tree && after[t].slots[k].row == record.row
                && after[t].slots[k].runes.last() == record.rune);
        }
    } else {
        let t = trees.len() as int;
        assert(after[t].key == record.tree && after[t].slots[0].row == record.row
            && after[t].slots[0].runes.last() == record.rune);
    }
}

/// `trees` has a tree keyed `key` with a row numbered `row`.
pub open spec fn has_row(trees: Seq<RuneTreeView>, key: Seq<char>, row: u8) -> bool {
    exists|t: int, k: int|
        0 <= t < trees.len() && 0 <= k < trees[t].slots.len() && trees[t].key == key
            && (#[trigger] trees[t].slots[k]).row == row
}

/// Adding a rune removes no row, and the rune's own row is there after it.
pub proof fn lemma_add_rune_rows(trees: Seq<RuneTreeView>, record: RuneRecord, key: Seq<char>, row: u8)
    ensures
        has_row(add_rune(trees, record), record.tree, record.row),
        has_row(trees, key, row) ==> has_row(add_rune(trees, record), key, row),
{
    law_added_rune_is_found(trees, record);
    let after = add_rune(trees, record);
    let t = choose|t: int, k: int|
        0 <= t < after.len() && 0 <= k < after[t].slots.len() && #[trigger] after[t].key
            == record.tree && #[trigger] after[t].slots[k].row == record.row
            && after[t].slots[k].runes.len() > 0 && after[t].slots[k].runes.last() == record.rune;
    assert(after[t.0].slots[t.1].row == record.row);
    if has_row(trees, key, row) {
        let (a, b) = choose|a: int, b: int|
            0 <= a < trees.len() && 0 <= b < trees[a].slots.len() && trees[a].key == key
                && (#[trigger] trees[a].slots[b]).row == row;
        if exists|c: int| 0 <= c < trees.len() && #[trigger] trees[c].key == record.tree {
            let c = choose|c: int| 0 <= c < trees.len() && #[trigger] trees[c].key == record.tree;
            if a == c {
                let slots = trees[c].slots;
                let new_slots = add_to_row(slots, record.row, record.rune);
                assert(after[a].slots == new_slots);
                if exists|m: int| 0 <= m < slots.len() && #[trigger] slots[m].row == record.row {
                    let m = choose|m: int| 0 <= m < slots.len() && #[trigger] slots[m].row == record.row;
                    assert(new_slots[b].row == row);
                } else {
                    assert(new_slots[b] == slots[b]);
                }
                assert(after[a].slots[b].row == row);
            } else {
                assert(after[a] == trees[a]);
            }
        } else {
            assert(after[a] == trees[a]);
        }
        assert(after[a].slots[b].row == row);
    }
}

/// Adding runes removes no row, and each rune's row is there after it.
pub proof fn lemma_apply_records_rows(
    trees: Seq<RuneTreeView>,
    records: Seq<RuneRecord>,
    key: Seq<char>,
    row: u8,
)
    ensures
        has_row(trees, key, row) ==> has_row(apply_records(trees, records), key, row),
        (exists|j: int|
            0 <= j < records.len() && #[trigger] records[j].tree == key && records[j].row == row)
            ==> has_row(apply_records(trees, records), key, row),
    decreases records.len(),
{
    if records.len() > 0 {
        let before = apply_records(trees, records.drop_last());
        lemma_apply_records_rows(trees, records.drop_last(), key, row);
        lemma_add_rune_rows(before, records.last(), key, row);
        if exists|j: int|
            0 <= j < records.len() && #[trigger] records[j].tree == key && records[j].row == row {
            let j = choose|j: int|
                0 <= j < records.len() && #[trigger] records[j].tree == key && records[j].row
                    == row;
            if j < records.len() - 1 {
                assert(records.drop_last()[j].tree == key);
            }
        }
    }
}

/// `trees` has a tree keyed `key` whose row numbered `row` offers `rune`.
pub open spec fn has_rune(trees: Seq<RuneTreeView>, key: Seq<char>, row: u8, rune: EntityView) -> bool {
    exists|t: int, k: int|
        0 <= t < trees.len() && 0 <= k < trees[t].slots.len() && trees[t].key == key
            && (#[trigger] trees[t].slots[k]).row == row && trees[t].slots[k].runes.contains(rune)
}

/// Adding a rune takes no rune away, and the added rune is there after it.
pub proof fn lemma_add_rune_runes(
    trees: Seq<RuneTreeView>,
    record: RuneRecord,
    key: Seq<char>,
    row: u8,
    rune: EntityView,
)
    ensures
        has_rune(add_rune(trees, record), record.tree, record.row, record.rune),
        has_rune(trees, key, row, rune) ==> has_rune(add_rune(trees, record), key, row, rune),
{
    law_added_rune_is_found(trees, record);
    let after = add_rune(trees, record);
    let t = choose|t: int, k: int|
        0 <= t < after.len() && 0 <= k < after[t].slots.len() && #[trigger] after[t].key
            == record.tree && #[trigger] after[t].slots[k].row == record.row
            && after[t].slots[k].runes.len() > 0 && after[t].slots[k].runes.last() == record.rune;
    let found = after[t.0].slots[t.1];
    assert(found.runes[found.runes.len() - 1] == record.rune);
    assert(found.runes.contains(record.rune));
    if has_rune(trees, key, row, rune) {
        let (a, b) = choose|a: int, b: int|
            0 <= a < trees.len() && 0 <= b < trees[a].slots.len() && trees[a].key == key
                && (#[trigger] trees[a].slots[b]).row == row && trees[a].slots[b].runes.contains(
                rune,
            );
        if exists|c: int| 0 <= c < trees.len() && #[trigger] trees[c].key == record.tree {
            let c = choose|c: int| 0 <= c < trees.len() && #[trigger] trees[c].key == record.tree;
            if a == c {
                let slots = trees[c].slots;
                let new_slots = add_to_row(slots, record.row, record.rune);
                assert(after[a].slots == new_slots);
                if exists|m: int| 0 <= m < slots.len() && #[trigger] slots[m].row == record.row {
                    let m = choose|m: int| 0 <= m < slots.len() && #[trigger] slots[m].row == record.row;
                    if m == b {
                        let i = choose|i: int| 0 <= i < slots[b].runes.len() && slots[b].runes[i] == rune;
                        assert(new_slots[b].runes[i] == rune);
                    } else {
                        assert(new_slots[b] == slots[b]);
                    }
                } else {
                    assert(new_slots[b] == slots[b]);
                }
                assert(after[a].slots[b].row == row && after[a].slots[b].runes.contains(rune));
            } else {
                assert(after[a] == trees[a]);
            }
        } else {
            assert(after[a] == trees[a]);
        }
        assert(after[a].slots[b].row == row && after[a].slots[b].runes.contains(rune));
    }
}

/// Adding runes takes no rune away, and each added rune is there after it.
pub proof fn lemma_apply_records_runes(
    trees: Seq<RuneTreeView>,
    records: Seq<RuneRecord>,
    key: Seq<char>,
    row: u8,
    rune: EntityView,
)
    ensures
        has_rune(trees, key, row, rune) ==> has_rune(apply_records(trees, records), key, row, rune),
        records.contains(RuneRecord { tree: key, row, rune }) ==> has_rune(
            apply_records(trees, records),
            key,
            row,
            rune,
        ),
    decreases records.len(),
{
    if records.len() > 0 {
        let before = apply_records(trees, records.drop_last());
        lemma_apply_records_runes(trees, records.drop_last(), key, row, rune);
        lemma_add_rune_runes(before, records.last(), key, row, rune);
        let wanted = RuneRecord { tree: key, row, rune };
        if records.contains(wanted) {
            let j = choose|j: int| 0 <= j < records.len() && records[j] == wanted;
            if j < records.len() - 1 {
                assert(records.drop_last()[j] == wanted);
            }
        }
    }
}

/// The runes read out of `runesReforged.json`, tree after tree, row after
/// row, and whether the reading succeeded.
pub open spec fn spec_rune_records(json: JsonValue) -> (Seq<RuneRecord>, bool) {
    match spec_as_array(Some(json)) {
        None => (Seq::empty(), false),
        Some(entries) => scan(entries, entries.len(), |e: int, entry: JsonValue| tree_step(entry)),
    }
}

/// Every slot of every tree of `runesReforged.json` becomes a row: when
/// reading the document succeeds, the tree keyed by entry `e`'s `key` string
/// has a row numbered `s` for each position `s` of the entry's `slots` array
/// whose `runes` array is not empty, whatever trees there were before.
pub proof fn law_every_slot_becomes_a_row(
    trees: Seq<RuneTreeView>,
    json: JsonValue,
    e: int,
    key: Seq<char>,
    s: int,
)
    requires
        spec_rune_records(json).1,
        ({
            &&& json matches JsonValue::Array(entries)
            &&& 0 <= e < entries@.len()
            &&& spec_as_str(spec_get(entries@[e], "key"@)) == Some(key)
            &&& spec_get(entries@[e], "slots"@) matches Some(JsonValue::Array(slots))
            &&& 0 <= s < slots@.len()
            &&& spec_get(slots@[s], "runes"@) matches Some(JsonValue::Array(runes))
            &&& runes@.len() > 0
        }),
    ensures
        has_row(apply_records(trees, spec_rune_records(json).0), key, s as u8),
{
    let entries = spec_as_array(Some(json)).unwrap();
    let entry = entries[e];
    let members = spec_as_object(Some(entry)).unwrap();
    let slots = spec_as_array(lookup(members, "slots"@)).unwrap();
    let content = slots[s];
    let runes = spec_as_array(spec_get(content, "runes"@)).unwrap();
    let tree_fn = |e: int, entry: JsonValue| tree_step(entry);
    let slot_fn = |s: int, content: JsonValue| slot_step(key, s, content);
    let rune_fn = |k: int, rune: JsonValue| rune_step(key, s, rune);
    assert(spec_rune_records(json) == scan(entries, entries.len(), tree_fn));
    lemma_scan_keeps_step(entries, entries.len(), tree_fn, e);
    assert(tree_step(entry) == scan(slots, slots.len(), slot_fn));
    lemma_scan_keeps_step(slots, slots.len(), slot_fn, s);
    assert(slot_step(key, s, content) == scan(runes, runes.len(), rune_fn));
    lemma_scan_keeps_step(runes, runes.len(), rune_fn, 0);
    assert(rune_fn(0, runes[0]) == rune_step(key, s, runes[0]));
    let record = rune_step(key, s, runes[0]).0[0];
    assert(record.tree == key && record.row == s as u8);
    assert(rune_fn(0, runes[0]).0.contains(record));
    assert(scan(runes, runes.len(), rune_fn).0.contains(record));
    assert(slot_fn(s, content).0.contains(record));
    assert(scan(slots, slots.len(), slot_fn).0.contains(record));
    assert(tree_fn(e, entry).0.contains(record));
    assert(scan(entries, entries.len(), tree_fn).0.contains(record));
    let all = spec_rune_records(json).0;
    let j = choose|j: int| 0 <= j < all.len() && all[j] == record;
    assert(all[j].tree == key && all[j].row == s as u8);
    lemma_apply_records_rows(trees, all, key, s as u8);
}

/// Every rune of `runesReforged.json` is offered in its tree and row: when
/// reading the document succeeds, the tree keyed by entry `e`'s `key` string
/// has, in the row numbered `s`, the rune at position `k` of the `runes`
/// array of the entry's slot `s`, with the decimal numeral of its `id` number
/// as identifier and its `key` string as name, whatever trees there were
/// before.
pub proof fn law_every_rune_is_in_its_row(
    trees: Seq<RuneTreeView>,
    json: JsonValue,
    e: int,
    key: Seq<char>,
    s: int,
    k: int,
    id: u64,
    name: Seq<char>,
)
    requires
        spec_rune_records(json).1,
        ({
            &&& json matches JsonValue::Array(entries)
            &&& 0 <= e < entries@.len()
            &&& spec_as_str(spec_get(entries@[e], "key"@)) == Some(key)
            &&& spec_get(entries@[e], "slots"@) matches Some(JsonValue::Array(slots))
            &&& 0 <= s < slots@.len()
            &&& spec_get(slots@[s], "runes"@) matches Some(JsonValue::Array(runes))
            &&& 0 <= k < runes@.len()
            &&& spec_get(runes@[k], "id"@) == Some(JsonValue::Number(Some(id)))
            &&& spec_as_str(spec_get(runes@[k], "key"@)) == Some(name)
        }),
    ensures
        has_rune(
            apply_records(trees, spec_rune_records(json).0),
            key,
            s as u8,
            EntityView::Rune(StaticDataView { id: decimal(id as nat), name }),
        ),
{
    let entries = spec_as_array(Some(json)).unwrap();
    let entry = entries[e];
    let members = spec_as_object(Some(entry)).unwrap();
    let slots = spec_as_array(lookup(members, "slots"@)).unwrap();
    let content = slots[s];
    let runes = spec_as_array(spec_get(content, "runes"@)).unwrap();
    let tree_fn = |e: int, entry: JsonValue| tree_step(entry);
    let slot_fn = |s: int, content: JsonValue| slot_step(key, s, content);
    let rune_fn = |k: int, rune: JsonValue| rune_step(key, s, rune);
    assert(spec_rune_records(json) == scan(entries, entries.len(), tree_fn));
    lemma_scan_keeps_step(entries, entries.len(), tree_fn, e);
    assert(tree_step(entry) == scan(slots, slots.len(), slot_fn));
    lemma_scan_keeps_step(slots, slots.len(), slot_fn, s);
    assert(slot_step(key, s, content) == scan(runes, runes.len(), rune_fn));
    lemma_scan_keeps_step(runes, runes.len(), rune_fn, k);
    assert(rune_fn(k, runes[k]) == rune_step(key, s, runes[k]));
    let rune = EntityView::Rune(StaticDataView { id: decimal(id as nat), name });
    let record = RuneRecord { tree: key, row: s as u8, rune };
    assert(rune_step(key, s, runes[k]).0 == seq![record]);
    assert(rune_fn(k, runes[k]).0[0] == record);
    assert(rune_fn(k, runes[k]).0.contains(record));
    assert(scan(runes, runes.len(), rune_fn).0.contains(record));
    assert(slot_fn(s, content).0.contains(record));
    assert(scan(slots, slots.len(), slot_fn).0.contains(record));
    assert(tree_fn(e, entry).0.contains(record));
    assert(scan(entries, entries.len(), tree_fn).0.contains(record));
    lemma_apply_records_runes(trees, spec_rune_records(json).0, key, s as u8, rune);
}

/// Adds `rune` to row `row` of `slots`.
fn insert_into_row(slots: &mut Vec<RuneSlot>, row: u8, rune: Arc<RiftRumbleEntity>)
    requires
        slots_well_formed(old(slots)@),
    ensures
        slots_well_formed(final(slots)@),
        final(slots).deep_view() == add_to_row(old(slots).deep_view(), row, rune.deep_view()),
{
    let ghost before = slots.deep_view();
    let mut k: usize = 0;
    while k < slots.len()
        invariant
            k <= slots@.len(),
            before == slots.deep_view(),
            before == old(slots).deep_view(),
            slots_well_formed(slots@),
            forall|j: int| 0 <= j < k ==> (#[trigger] slots@[j]).row != row,
        decreases slots@.len() - k,
    {
        if slots[k].row == row {
            let ghost old_slots = slots@;
            let mut slot = slots.remove(k);
            slot.runes.push(rune);
            slots.insert(k, slot);
            proof {
                assert(slots@ =~= old_slots.update(k as int, slot));
                assert(before[k as int].row == row);
                let c = choose|c: int| 0 <= c < before.len() && #[trigger] before[c].row == row;
                if c != k {
                    assert(old_slots[c].row != old_slots[k as int].row);
                }
                assert(slot.runes.deep_view() =~= before[k as int].runes.push(rune.deep_view()));
                assert(slots.deep_view() =~= before.update(
                    k as int,
                    RuneSlotView { row, runes: before[k as int].runes.push(rune.deep_view()) },
                ));
                assert forall|a: int, b: int|
                    0 <= a < b < slots@.len() implies #[trigger] slots@[a].row
                    != #[trigger] slots@[b].row by {
                    assert(old_slots[a].row != old_slots[b].row);
                }
                assert forall|j: int| 0 <= j < slots@.len() implies (#[trigger] slots@[j]).runes@.len()
                    > 0 by {
                    assert(old_slots[j].runes@.len() > 0);
                }
            }
            return;
        }
        k = k + 1;
    }
    let mut runes: Vec<Arc<RiftRumbleEntity>> = Vec::new();
    runes.push(rune);
    let ghost old_slots = slots@;
    slots.push(RuneSlot { row, runes });
    proof {
        assert(!exists|c: int| 0 <= c < before.len() && #[trigger] before[c].row == row) by {
            if exists|c: int| 0 <= c < before.len() && #[trigger] before[c].row == row {
                let c = choose|c: int| 0 <= c < before.len() && #[trigger] before[c].row == row;
                assert(old_slots[c].row == row);
            }
        }
        assert(slots@[slots@.len() - 1].runes.deep_view() =~= seq![rune.deep_view()]);
        assert(slots.deep_view() =~= before.push(RuneSlotView { row, runes: seq![rune.deep_view()] }));
        assert forall|a: int, b: int|
            0 <= a < b < slots@.len() implies #[trigger] slots@[a].row != #[trigger] slots@[b].row by {
            if b < old_slots.len() {
                assert(old_slots[a].row != old_slots[b].row);
            } else {
                assert(old_slots[a].row != row);
            }
        }
        assert forall|j: int| 0 <= j < slots@.len() implies (#[trigger] slots@[j]).runes@.len() > 0 by {
            if j < old_slots.len() {
                assert(old_slots[j].runes@.len() > 0);
            }
        }
    }
}

/// Adds `rune` to row `row` of tree `tree` of `trees`.
fn insert_rune(trees: &mut Vec<RuneTree>, tree: &String, row: u8, rune: Arc<RiftRumbleEntity>)
    requires
        runes_well_formed(old(trees)@),
    ensures
        runes_well_formed(final(trees)@),
        final(trees).deep_view() == add_rune(
            old(trees).deep_view(),
            RuneRecord { tree: tree@, row, rune: rune.deep_view() },
        ),
{
    let ghost before = trees.deep_view();
    let ghost record = RuneRecord { tree: tree@, row, rune: rune.deep_view() };
    let mut t: usize = 0;
    while t < trees.len()
        invariant
            t <= trees@.len(),
            before == trees.deep_view(),
            before == old(trees).deep_view(),
            runes_well_formed(trees@),
            forall|j: int| 0 <= j < t ==> (#[trigger] trees@[j]).key@ != tree@,
        decreases trees@.len() - t,
    {
        if trees[t].key == *tree {
            let ghost old_trees = trees@;
            let mut entry = trees.remove(t);
            assert(slots_well_formed(old_trees[t as int].slots@));
            insert_into_row(&mut entry.slots, row, rune);
            trees.insert(t, entry);
            proof {
                assert(trees@ =~= old_trees.update(t as int, entry));
                assert(before[t as int] == old_trees[t as int].deep_view());
                assert(before[t as int].key == tree@);
                let c = choose|c: int| 0 <= c < before.len() && #[trigger] before[c].key == tree@;
                if c != t {
                    assert(old_trees[c].key@ != old_trees[t as int].key@);
                }
                assert(trees.deep_view() =~= before.update(
                    t as int,
                    RuneTreeView {
                        key: tree@,
                        slots: add_to_row(before[t as int].slots, row, rune.deep_view()),
                    },
                ));
                assert forall|a: int, b: int|
                    0 <= a < b < trees@.len() implies #[trigger] trees@[a].key@
                    != #[trigger] trees@[b].key@ by {
                    assert(old_trees[a].key@ != old_trees[b].key@);
                }
                assert forall|j: int| 0 <= j < trees@.len() implies slots_well_formed(
                    (#[trigger] trees@[j]).slots@,
                ) by {
                    if j != t {
                        assert(slots_well_formed(old_trees[j].slots@));
                    }
                }
            }
            return;
        }
        t = t + 1;
    }
    let mut runes: Vec<Arc<RiftRumbleEntity>> = Vec::new();
    runes.push(rune);
    let mut slots: Vec<RuneSlot> = Vec::new();
    slots.push(RuneSlot { row, runes });
    let ghost old_trees = trees@;
    trees.push(RuneTree { key: tree.clone(), slots });
    proof {
        assert(!exists|c: int| 0 <= c < before.len() && #[trigger] before[c].key == tree@) by {
            if exists|c: int| 0 <= c < before.len() && #[trigger] before[c].key == tree@ {
                let c = choose|c: int| 0 <= c < before.len() && #[trigger] before[c].key == tree@;
                assert(old_trees[c].key@ == tree@);
            }
        }
        let last = trees@[trees@.len() - 1];
        assert(last.slots@[0].runes.deep_view() =~= seq![rune.deep_view()]);
        assert(last.slots.deep_view() =~= seq![RuneSlotView { row, runes: seq![rune.deep_view()] }]);
        assert(trees.deep_view() =~= before.push(
            RuneTreeView {
                key: tree@,
                slots: seq![RuneSlotView { row, runes: seq![rune.deep_view()] }],
            },
        ));
        assert forall|a: int, b: int|
            0 <= a < b < trees@.len() implies #[trigger] trees@[a].key@ != #[trigger] trees@[b].key@ by {
            if b < old_trees.len() {
                assert(old_trees[a].key@ != old_trees[b].key@);
            } else {
                assert(old_trees[a].key@ != tree@);
            }
        }
        assert forall|j: int| 0 <= j < trees@.len() implies slots_well_formed(
            (#[trigger] trees@[j]).slots@,
        ) by {
            if j < old_trees.len() {
                assert(slots_well_formed(old_trees[j].slots@));
            }
        }
    }
}

/// Reads the runes of the row at position `slot` of tree `tree` and adds them.
fn load_slot(runes: &mut Vec<RuneTree>, tree: &String, slot: usize, content: &JsonValue) -> (ok:
    bool)
    requires
        runes_well_formed(old(runes)@),
    ensures
        runes_well_formed(final(runes)@),
        final(runes).deep_view() == apply_records(
            old(runes).deep_view(),
            slot_step(tree@, slot as int, *content).0,
        ),
        ok == slot_step(tree@, slot as int, *content).1,
{
    let ghost start = runes.deep_view();
    let list = match content.get("runes") {
        Some(v) => v.as_array(),
        None => None,
    };
    if list.is_none() {
        return false;
    }
    let list = list.unwrap();
    let ghost step = |k: int, rune: JsonValue| rune_step(tree@, slot as int, rune);
    assert(slot_step(tree@, slot as int, *content) == scan(list@, list@.len(), step));
    let mut k: usize = 0;
    while k < list.len()
        invariant
            k <= list@.len(),
            runes_well_formed(runes@),
            start == old(runes).deep_view(),
            step == (|k: int, rune: JsonValue| rune_step(tree@, slot as int, rune)),
            slot_step(tree@, slot as int, *content) == scan(list@, list@.len(), step),
            scan(list@, k as nat, step).1,
            runes.deep_view() == apply_records(start, scan(list@, k as nat, step).0),
        decreases list@.len() - k,
    {
        proof {
            lemma_scan_next(list@, k as nat, step);
        }
        let ghost prev = scan(list@, k as nat, step).0;
        let rune = &list[k];
        let id = match rune.get("id") {
            Some(v) => v.as_u64(),
            None => None,
        };
        let name = match rune.get("key") {
            Some(v) => v.as_str(),
            None => None,
        };
        if id.is_none() || name.is_none() {
            proof {
                assert(step(k as int, list@[k as int]) == (Seq::<RuneRecord>::empty(), false));
                lemma_scan_stops(list@, (k + 1) as nat, list@.len(), step);
                assert(prev + Seq::<RuneRecord>::empty() =~= prev);
            }
            return false;
        }
        let id = decimal_string(id.unwrap());
        let name = name.unwrap().clone();
        let ghost record = RuneRecord {
            tree: tree@,
            row: slot as u8,
            rune: EntityView::Rune(StaticDataView { id: id@, name: name@ }),
        };
        insert_rune(runes, tree, slot as u8, Arc::new(RiftRumbleEntity::Rune(GenericStaticData { id, name })));
        proof {
            assert(step(k as int, list@[k as int]) == (seq![record], true));
            let next = prev + seq![record];
            assert(next.drop_last() =~= prev);
            assert(next.last() == record);
        }
        k = k + 1;
    }
    true
}

/// Reads the runes of one tree of `runesReforged.json` and adds them.
fn load_tree(runes: &mut Vec<RuneTree>, entry: &JsonValue) -> (ok: bool)
    requires
        runes_well_formed(old(runes)@),
    ensures
        runes_well_formed(final(runes)@),
        final(runes).deep_view() == apply_records(old(runes).deep_view(), tree_step(*entry).0),
        ok == tree_step(*entry).1,
{
    let members = entry.as_object();
    if members.is_none() {
        return false;
    }
    let members = members.unwrap();
    let key = match get_member(members, "key") {
        Some(v) => v.as_str(),
        None => None,
    };
    if key.is_none() {
        return false;
    }
    let tree = key.unwrap().clone();
    let slots = match get_member(members, "slots") {
        Some(v) => v.as_array(),
        None => None,
    };
    if slots.is_none() {
        return false;
    }
    let slots = slots.unwrap();
    let ghost start = runes.deep_view();
    let ghost step = |s: int, content: JsonValue| slot_step(tree@, s, content);
    assert(tree_step(*entry) == scan(slots@, slots@.len(), step));
    let mut s: usize = 0;
    while s < slots.len()
        invariant
            s <= slots@.len(),
            runes_well_formed(runes@),
            start == old(runes).deep_view(),
            step == (|s: int, content: JsonValue| slot_step(tree@, s, content)),
            tree_step(*entry) == scan(slots@, slots@.len(), step),
            scan(slots@, s as nat, step).1,
            runes.deep_view() == apply_records(start, scan(slots@, s as nat, step).0),
        decreases slots@.len() - s,
    {
        proof {
            lemma_scan_next(slots@, s as nat, step);
        }
        let ghost prev = scan(slots@, s as nat, step).0;
        let ok = load_slot(runes, &tree, s, &slots[s]);
        proof {
            let cur = step(s as int, slots@[s as int]);
            lemma_apply_concat(start, prev, cur.0);
            if !ok {
                lemma_scan_stops(slots@, (s + 1) as nat, slots@.len(), step);
            }
        }
        if !ok {
            return false;
        }
        s = s + 1;
    }
    true
}

/// Reads the runes of a parsed `runesReforged.json` and adds each to its
/// tree and row of `runes`, creating trees and rows as they first appear.
/// On a failure the runes read before it stay added.
pub fn load_runes_from_json(runes: &mut Vec<RuneTree>, json: &JsonValue) -> (r: Option<()>)
    requires
        runes_well_formed(old(runes)@),
    ensures
        runes_well_formed(final(runes)@),
        final(runes).deep_view() == apply_records(
            old(runes).deep_view(),
            spec_rune_records(*json).0,
        ),
        r is Some <==> spec_rune_records(*json).1,
{
    let entries = json.as_array()?;
    let ghost start = runes.deep_view();
    let ghost step = |e: int, entry: JsonValue| tree_step(entry);
    assert(spec_rune_records(*json) == scan(entries@, entries@.len(), step));
    let mut e: usize = 0;
    while e < entries.len()
        invariant
            e <= entries@.len(),
            runes_well_formed(runes@),
            start == old(runes).deep_view(),
            step == (|e: int, entry: JsonValue| tree_step(entry)),
            spec_rune_records(*json) == scan(entries@, entries@.len(), step),
            scan(entries@, e as nat, step).1,
            runes.deep_view() == apply_records(start, scan(entries@, e as nat, step).0),
        decreases entries@.len() - e,
    {
        proof {
            lemma_scan_next(entries@, e as nat, step);
        }
        let ghost prev = scan(entries@, e as nat, step).0;
        let ok = load_tree(runes, &entries[e]);
        proof {
            let cur = step(e as int, entries@[e as int]);
            lemma_apply_concat(start, prev, cur.0);
            if !ok {
                lemma_scan_stops(entries@, (e + 1) as nat, entries@.len(), step);
            }
        }
        if !ok {
            return None;
        }
        e = e + 1;
    }
    Some(())
}

// ---------------------------------------------------------------------------
// Reading the files' contents
// ---------------------------------------------------------------------------

/// Parses the contents of a champion file and appends its champion. Nothing
/// changes when the contents are not a JSON document.
pub fn load_champion_from_bytes(champions: &mut Vec<Arc<RiftRumbleEntity>>, bytes: &[u8]) -> (r:
    Option<()>)
    ensures
        match spec_parse_json(bytes@) {
            None => r is None && final(champions).deep_view() == old(champions).deep_view(),
            Some(json) => {
                &&& r is Some <==> spec_champion(json) is Some
                &&& match spec_champion(json) {
                    Some(champion) => final(champions).deep_view() == old(
                        champions,
                    ).deep_view().push(champion),
                    None => final(champions).deep_view() == old(champions).deep_view(),
                }
            },
        },
{
    let json = parse_json(bytes)?;
    load_champion_from_json(champions, &json)
}

/// Parses the contents of `item.json` and appends its eligible items. Nothing
/// changes when the contents are not a JSON document.
pub fn load_items_from_bytes(items: &mut Vec<Arc<RiftRumbleEntity>>, bytes: &[u8]) -> (r: Option<
    (),
>)
    ensures
        match spec_parse_json(bytes@) {
            None => r is None && final(items).deep_view() == old(items).deep_view(),
            Some(json) => {
                &&& r is Some <==> spec_items(json).1
                &&& final(items).deep_view() == old(items).deep_view() + spec_items(json).0
            },
        },
{
    let json = parse_json(bytes)?;
    load_items_from_json(items, &json)
}

/// Parses the contents of `runesReforged.json` and adds its runes. Nothing
/// changes when the contents are not a JSON document.
pub fn load_runes_from_bytes(runes: &mut Vec<RuneTree>, bytes: &[u8]) -> (r: Option<()>)
    requires
        runes_well_formed(old(runes)@),
    ensures
        runes_well_formed(final(runes)@),
        match spec_parse_json(bytes@) {
            None => r is None && final(runes).deep_view() == old(runes).deep_view(),
            Some(json) => {
                &&& r is Some <==> spec_rune_records(json).1
                &&& final(runes).deep_view() == apply_records(
                    old(runes).deep_view(),
                    spec_rune_records(json).0,
                )
            },
        },
{
    let json = parse_json(bytes)?;
    load_runes_from_json(runes, &json)
}

/// Parses the contents of `summoner.json` and appends its summoner spells of
/// the classic mode. Nothing changes when the contents are not a JSON
/// document.
pub fn load_summoners_from_bytes(summoners: &mut Vec<Arc<RiftRumbleEntity>>, bytes: &[u8]) -> (r:
    Option<()>)
    ensures
        match spec_parse_json(bytes@) {
            None => r is None && final(summoners).deep_view() == old(summoners).deep_view(),
            Some(json) => {
                &&& r is Some <==> spec_summoners(json).1
                &&& final(summoners).deep_view() == old(summoners).deep_view() + spec_summoners(
                    json,
                ).0
            },
        },
{
    let json = parse_json(bytes)?;
    load_summoners_from_json(summoners, &json)
}

} // verus!
