use crate::random::{gen_range, shuffle};
use std::collections::HashMap;
use std::sync::Arc;
use vstd::prelude::*;

verus! {

/// The identifier and display name that every piece of static game data has.
#[derive(Debug)]
pub struct GenericStaticData {
    pub id: String,
    pub name: String,
}

/// A piece of static game data. The flag of `Item` tells a mythic item.
#[derive(Debug)]
pub enum RiftRumbleEntity {
    Champion(GenericStaticData),
    Item(GenericStaticData, bool),
    Rune(GenericStaticData),
    Summoner(GenericStaticData),
}

/// What a `GenericStaticData` holds, as character sequences.
pub struct StaticDataView {
    pub id: Seq<char>,
    pub name: Seq<char>,
}

/// What a `RiftRumbleEntity` holds, as character sequences.
pub enum EntityView {
    Champion(StaticDataView),
    Item(StaticDataView, bool),
    Rune(StaticDataView),
    Summoner(StaticDataView),
}

impl View for GenericStaticData {
    type V = StaticDataView;

    open spec fn view(&self) -> StaticDataView {
        StaticDataView { id: self.id@, name: self.name@ }
    }
}

impl View for RiftRumbleEntity {
    type V = EntityView;

    open spec fn view(&self) -> EntityView {
        match self {
            RiftRumbleEntity::Champion(d) => EntityView::Champion(d@),
            RiftRumbleEntity::Item(d, mythic) => EntityView::Item(d@, *mythic),
            RiftRumbleEntity::Rune(d) => EntityView::Rune(d@),
            RiftRumbleEntity::Summoner(d) => EntityView::Summoner(d@),
        }
    }
}

impl DeepView for RiftRumbleEntity {
    type V = EntityView;

    open spec fn deep_view(&self) -> EntityView {
        self@
    }
}

/// The identifier of any entity.
pub open spec fn entity_id(e: RiftRumbleEntity) -> Seq<char> {
    match e {
        RiftRumbleEntity::Champion(d) => d.id@,
        RiftRumbleEntity::Item(d, _) => d.id@,
        RiftRumbleEntity::Rune(d) => d.id@,
        RiftRumbleEntity::Summoner(d) => d.id@,
    }
}

impl RiftRumbleEntity {
    /// The identifier of the entity.
    pub fn id(&self) -> (r: &String)
        ensures
            r@ == entity_id(*self),
    {
        match self {
            RiftRumbleEntity::Champion(d) => &d.id,
            RiftRumbleEntity::Item(d, _) => &d.id,
            RiftRumbleEntity::Rune(d) => &d.id,
            RiftRumbleEntity::Summoner(d) => &d.id,
        }
    }
}

/// A second handle on the entity behind `entity` (`Arc::clone`).
///
/// Trusted: `Arc::clone` makes another pointer to the same allocation, so
/// the new handle denotes the same value.
#[verifier::external_body]
fn share(entity: &Arc<RiftRumbleEntity>) -> (r: Arc<RiftRumbleEntity>)
    ensures
        r == *entity,
{
    Arc::clone(entity)
}

/// One row of a rune tree and the runes that can fill it.
#[derive(Debug)]
pub struct RuneSlot {
    pub row: u8,
    pub runes: Vec<Arc<RiftRumbleEntity>>,
}

/// A rune tree (such as "Domination") and its rows.
#[derive(Debug)]
pub struct RuneTree {
    pub key: String,
    pub slots: Vec<RuneSlot>,
}

/// What a `RuneSlot` holds.
pub struct RuneSlotView {
    pub row: u8,
    pub runes: Seq<EntityView>,
}

/// What a `RuneTree` holds.
pub struct RuneTreeView {
    pub key: Seq<char>,
    pub slots: Seq<RuneSlotView>,
}

impl View for RuneSlot {
    type V = RuneSlotView;

    open spec fn view(&self) -> RuneSlotView {
        RuneSlotView { row: self.row, runes: self.runes.deep_view() }
    }
}

impl DeepView for RuneSlot {
    type V = RuneSlotView;

    open spec fn deep_view(&self) -> RuneSlotView {
        self@
    }
}

impl View for RuneTree {
    type V = RuneTreeView;

    open spec fn view(&self) -> RuneTreeView {
        RuneTreeView { key: self.key@, slots: self.slots.deep_view() }
    }
}

impl DeepView for RuneTree {
    type V = RuneTreeView;

    open spec fn deep_view(&self) -> RuneTreeView {
        self@
    }
}

/// The rows of a tree are numbered apart, and each row offers a rune.
pub open spec fn slots_well_formed(slots: Seq<RuneSlot>) -> bool {
    &&& forall|a: int, b: int|
        0 <= a < b < slots.len() ==> #[trigger] slots[a].row != #[trigger] slots[b].row
    &&& forall|k: int| 0 <= k < slots.len() ==> (#[trigger] slots[k]).runes@.len() > 0
}

/// The trees are keyed apart, and each tree's rows are well formed.
pub open spec fn runes_well_formed(trees: Seq<RuneTree>) -> bool {
    &&& forall|a: int, b: int|
        0 <= a < b < trees.len() ==> #[trigger] trees[a].key@ != #[trigger] trees[b].key@
    &&& forall|t: int| 0 <= t < trees.len() ==> slots_well_formed((#[trigger] trees[t]).slots@)
}

/// A random loadout handed to one participant.
///
/// `runes` holds the primary tree first and the secondary tree second, each
/// with the runes picked from it.
#[derive(Debug)]
pub struct RiftRumbleEntitySet {
    pub champion: Arc<RiftRumbleEntity>,
    pub items: Vec<Arc<RiftRumbleEntity>>,
    pub runes: Vec<(String, Vec<Arc<RiftRumbleEntity>>)>,
    pub summoners: (Arc<RiftRumbleEntity>, Arc<RiftRumbleEntity>),
    pub skill_order: (String, String, String),
}

/// All the static game data a loadout is drawn from.
///
/// The rune trees are a vector of trees, each with a vector of rows, kept
/// apart by tree key and row number (`runes_well_formed`): vstd's `HashMap`
/// specification says nothing of a map keyed by `String`, so a vector holds
/// what the proofs need.
pub struct RiftRumbleEntityCollection {
    pub champions: Vec<Arc<RiftRumbleEntity>>,
    pub items: Vec<Arc<RiftRumbleEntity>>,
    pub runes: Vec<RuneTree>,
    pub summoners: Vec<Arc<RiftRumbleEntity>>,
}

/// The participants of the current Rift Rumble, by Discord user id, with
/// their loadouts.
#[derive(Debug)]
pub struct CustomHashMap(pub HashMap<u64, RiftRumbleEntitySet>);

impl CustomHashMap {
    /// A roster with no participants.
    pub fn new() -> (r: CustomHashMap)
        ensures
            r.0@ == Map::<u64, RiftRumbleEntitySet>::empty(),
    {
        CustomHashMap(HashMap::new())
    }
}

// ---------------------------------------------------------------------------
// Random numbers
// ---------------------------------------------------------------------------

/// Whether `taken` names a number of `start..end`, which must not be drawn.
pub open spec fn excludes(taken: Option<usize>, start: usize, end: usize) -> bool {
    taken matches Some(t) && start <= t < end
}

/// How many numbers a draw for `get_next_random_num_closed` chooses among:
/// the numbers of `start..end`, less the taken one.
pub open spec fn draw_span(taken: Option<usize>, start: usize, end: usize) -> int {
    if excludes(taken, start, end) {
        end - start - 1
    } else {
        end - start
    }
}

/// A number of `start..end` other than `taken` can be drawn.
pub open spec fn can_draw(taken: Option<usize>, start: usize, end: usize) -> bool {
    start < end && draw_span(taken, start, end) >= 1
}

/// The number that the draw `draw` (one of `start..start + draw_span`) stands
/// for: the draws at or above the taken number move up by one, past it.
pub open spec fn number_from_draw(taken: Option<usize>, start: usize, end: usize, draw: usize) -> int {
    match taken {
        Some(t) => if start <= t < end && draw >= t {
            draw + 1
        } else {
            draw as int
        },
        None => draw as int,
    }
}

/// Maps a uniform draw among the allowed numbers onto `start..end` less the
/// taken number.
pub fn next_number_from_draw(taken: Option<usize>, start: usize, end: usize, draw: usize) -> (r:
    usize)
    requires
        start <= draw < start + draw_span(taken, start, end),
    ensures
        r == number_from_draw(taken, start, end, draw),
        start <= r < end,
        taken != Some(r),
{
    match taken {
        Some(t) => {
            if start <= t && t < end && draw >= t {
                draw + 1
            } else {
                draw
            }
        },
        None => draw,
    }
}

/// The draws map one to one onto the numbers that may be drawn: different
/// draws give different numbers, and every number of `start..end` other than
/// `taken` is given by some draw. A uniform draw thus gives every allowed
/// number the same chance.
pub proof fn law_draws_match_allowed_numbers(taken: Option<usize>, start: usize, end: usize)
    requires
        can_draw(taken, start, end),
    ensures
        forall|d1: usize, d2: usize|
            start <= d1 < start + draw_span(taken, start, end) && start <= d2 < start + draw_span(
                taken,
                start,
                end,
            ) && d1 != d2 ==> #[trigger] number_from_draw(taken, start, end, d1)
                != #[trigger] number_from_draw(taken, start, end, d2),
        forall|n: usize|
            start <= n < end && taken != Some(n) ==> exists|d: usize|
                start <= d < start + draw_span(taken, start, end) && #[trigger] number_from_draw(
                    taken,
                    start,
                    end,
                    d,
                ) == n,
{
    assert forall|n: usize| start <= n < end && taken != Some(n) implies exists|d: usize|
        start <= d < start + draw_span(taken, start, end) && #[trigger] number_from_draw(
            taken,
            start,
            end,
            d,
        ) == n by {
        match taken {
            Some(t) => {
                if start <= t < end && n > t {
                    let d = (n - 1) as usize;
                    assert(number_from_draw(taken, start, end, d) == n);
                } else {
                    assert(number_from_draw(taken, start, end, n) == n);
                }
            },
            None => {
                assert(number_from_draw(taken, start, end, n) == n);
            },
        }
    }
}

/// How many numbers a draw chooses among (`draw_span`).
pub fn draw_span_of(taken: Option<usize>, start: usize, end: usize) -> (s: usize)
    requires
        can_draw(taken, start, end),
    ensures
        s == draw_span(taken, start, end),
{
    match taken {
        Some(t) => if start <= t && t < end {
            end - start - 1
        } else {
            end - start
        },
        None => end - start,
    }
}

/// A random number of `start..end` other than `taken`, each such number
/// equally likely.
pub fn get_next_random_num_closed(taken: Option<usize>, start: usize, end: usize) -> (r: usize)
    requires
        can_draw(taken, start, end),
    ensures
        start <= r < end,
        taken != Some(r),
        exists|draw: usize|
            start <= draw < start + draw_span(taken, start, end) && r == number_from_draw(
                taken,
                start,
                end,
                draw,
            ),
{
    let span = draw_span_of(taken, start, end);
    let draw = gen_range(start, start + span);
    next_number_from_draw(taken, start, end, draw)
}

// ---------------------------------------------------------------------------
// Champion, summoner spells, skill order
// ---------------------------------------------------------------------------

/// The positions of the two summoner spells that the draws `first_draw` (of
/// `0..len`) and `second_draw` (of `0..len - 1`) pick: the second draw skips
/// the first position.
pub open spec fn summoner_positions(len: nat, first_draw: usize, second_draw: usize) -> (int, int) {
    (
        number_from_draw(None, 0, len as usize, first_draw),
        number_from_draw(Some(first_draw), 0, len as usize, second_draw),
    )
}

/// Any ordered pair `(i, j)` of different positions of a list of `len`
/// summoner spells can come out of the draws, and the draws give nothing
/// else than a pair of different positions.
pub proof fn law_every_summoner_pair_can_be_drawn(len: usize, i: int, j: int)
    requires
        len >= 2,
        0 <= i < len,
        0 <= j < len,
        i != j,
    ensures
        exists|first_draw: usize, second_draw: usize|
            first_draw < len && second_draw < len - 1 && #[trigger] summoner_positions(
                len as nat,
                first_draw,
                second_draw,
            ) == (i, j),
        forall|first_draw: usize, second_draw: usize|
            first_draw < len && second_draw < len - 1 ==> {
                let p = #[trigger] summoner_positions(len as nat, first_draw, second_draw);
                0 <= p.0 < len && 0 <= p.1 < len && p.0 != p.1
            },
{
    let first_draw = i as usize;
    let second_draw = if j > i {
        (j - 1) as usize
    } else {
        j as usize
    };
    assert(summoner_positions(len as nat, first_draw, second_draw) == (i, j));
}

/// `pair` holds the entries of `list` at two different positions.
pub open spec fn two_distinct_picks(
    list: Seq<Arc<RiftRumbleEntity>>,
    pair: (Arc<RiftRumbleEntity>, Arc<RiftRumbleEntity>),
) -> bool {
    exists|i: int, j: int|
        0 <= i < list.len() && 0 <= j < list.len() && i != j && pair.0 == list[i] && pair.1
            == list[j]
}

/// `order` is an order of the three skills Q, W and E, each named once.
pub open spec fn is_skill_order(order: (String, String, String)) -> bool {
    let a = order.0@;
    let b = order.1@;
    let c = order.2@;
    &&& a != b
    &&& b != c
    &&& a != c
    &&& (a == "Q"@ || a == "W"@ || a == "E"@)
    &&& (b == "Q"@ || b == "W"@ || b == "E"@)
    &&& (c == "Q"@ || c == "W"@ || c == "E"@)
}

/// A random order in which to level the skills Q, W and E.
pub fn randomize_skill_order() -> (r: (String, String, String))
    ensures
        is_skill_order(r),
{
    let mut skills: Vec<&str> = Vec::new();
    skills.push("Q");
    skills.push("W");
    skills.push("E");
    let ghost before = skills@;
    proof {
        reveal_strlit("Q");
        reveal_strlit("W");
        reveal_strlit("E");
        assert(before[0]@ == "Q"@ && before[1]@ == "W"@ && before[2]@ == "E"@);
        assert("Q"@[0] != "W"@[0] && "W"@[0] != "E"@[0] && "Q"@[0] != "E"@[0]);
        assert(before.no_duplicates());
        before.lemma_multiset_has_no_duplicates();
    }
    shuffle(&mut skills);
    proof {
        let after = skills@;
        broadcast use vstd::seq_lib::group_to_multiset_ensures;

        assert forall|x: &str| after.to_multiset().contains(x) implies after.to_multiset().count(
            x,
        ) == 1 by {
            assert(before.to_multiset().contains(x));
        }
        after.lemma_multiset_has_no_duplicates_conv();
        assert forall|k: int| 0 <= k < 3 implies (after[k] == before[0] || after[k] == before[1]
            || after[k] == before[2]) by {
            assert(after.contains(after[k]));
            assert(after.to_multiset().count(after[k]) > 0);
            assert(before.to_multiset().count(after[k]) > 0);
            assert(before.contains(after[k]));
        }
        assert(after[0] != after[1]);
        assert(after[1] != after[2]);
        assert(after[0] != after[2]);
    }
    skill_order_of(&skills)
}

/// The skill order that a shuffled list of the three skills gives: its
/// entries in order.
pub fn skill_order_of(skills: &Vec<&str>) -> (r: (String, String, String))
    requires
        skills@.len() == 3,
    ensures
        r.0@ == skills@[0]@,
        r.1@ == skills@[1]@,
        r.2@ == skills@[2]@,
{
    (skills[0].to_owned(), skills[1].to_owned(), skills[2].to_owned())
}


// ---------------------------------------------------------------------------
// Items
// ---------------------------------------------------------------------------

/// An item that is not mythic.
pub open spec fn is_plain_item(e: RiftRumbleEntity) -> bool {
    e matches RiftRumbleEntity::Item(_, false)
}

/// A mythic item.
pub open spec fn is_mythic_item(e: RiftRumbleEntity) -> bool {
    e matches RiftRumbleEntity::Item(_, true)
}

/// The identifiers of `entities`, in order.
pub open spec fn ids_of(entities: Seq<Arc<RiftRumbleEntity>>) -> Seq<Seq<char>> {
    entities.map_values(|e: Arc<RiftRumbleEntity>| entity_id(*e))
}

pub open spec fn has_mythic(items: Seq<Arc<RiftRumbleEntity>>) -> bool {
    exists|i: int| 0 <= i < items.len() && #[trigger] is_mythic_item(*items[i])
}

/// `m` is the position of the first mythic item of `items`.
pub open spec fn is_first_mythic(items: Seq<Arc<RiftRumbleEntity>>, m: int) -> bool {
    &&& 0 <= m < items.len()
    &&& is_mythic_item(*items[m])
    &&& forall|j: int| 0 <= j < m ==> !#[trigger] is_mythic_item(*items[j])
}

/// The position of the first mythic item (meaningful when there is one).
pub open spec fn first_mythic_index(items: Seq<Arc<RiftRumbleEntity>>) -> int {
    choose|m: int| is_first_mythic(items, m)
}

/// The identifier of the first mythic item (meaningful when there is one).
pub open spec fn first_mythic_id(items: Seq<Arc<RiftRumbleEntity>>) -> Seq<char> {
    entity_id(*items[first_mythic_index(items)])
}

/// The identifiers of the items that are not mythic.
pub open spec fn plain_item_ids(items: Seq<Arc<RiftRumbleEntity>>) -> Set<Seq<char>> {
    Set::new(
        |id: Seq<char>|
            exists|i: int|
                0 <= i < items.len() && #[trigger] is_plain_item(*items[i]) && entity_id(*items[i])
                    == id,
    )
}

/// The identifiers the random part of an item pick chooses among: those of the
/// items that are not mythic, less that of the first mythic item.
pub open spec fn item_pool(items: Seq<Arc<RiftRumbleEntity>>) -> Set<Seq<char>> {
    if has_mythic(items) {
        plain_item_ids(items).remove(first_mythic_id(items))
    } else {
        plain_item_ids(items)
    }
}

/// How many items a pick draws at random: five, less the mythic item that
/// comes first when there is one.
pub open spec fn random_item_count(items: Seq<Arc<RiftRumbleEntity>>) -> nat {
    if has_mythic(items) {
        4
    } else {
        5
    }
}

/// The pool offers enough identifiers to complete a pick.
pub open spec fn items_pickable(items: Seq<Arc<RiftRumbleEntity>>) -> bool {
    item_pool(items).len() >= random_item_count(items)
}

/// `picked` is a pick of five items from `items`: identifiers apart, the first
/// mythic item of `items` first if there is one, and otherwise items that are
/// not mythic.
pub open spec fn valid_item_pick(
    items: Seq<Arc<RiftRumbleEntity>>,
    picked: Seq<Arc<RiftRumbleEntity>>,
) -> bool {
    &&& picked.len() == 5
    &&& ids_of(picked).no_duplicates()
    &&& forall|k: int| 0 <= k < picked.len() ==> items.contains(#[trigger] picked[k])
    &&& if has_mythic(items) {
        &&& picked[0] == items[first_mythic_index(items)]
        &&& forall|k: int| 1 <= k < picked.len() ==> is_plain_item(*#[trigger] picked[k])
    } else {
        forall|k: int| 0 <= k < picked.len() ==> is_plain_item(*#[trigger] picked[k])
    }
}

/// Position `i` of `items` holds an item that is not mythic and whose
/// identifier no entry of `chosen` has.
pub open spec fn is_item_candidate(
    items: Seq<Arc<RiftRumbleEntity>>,
    chosen: Seq<Arc<RiftRumbleEntity>>,
    i: int,
) -> bool {
    &&& 0 <= i < items.len()
    &&& is_plain_item(*items[i])
    &&& !ids_of(chosen).contains(entity_id(*items[i]))
}

/// `positions` lists, in increasing order, exactly the positions that
/// satisfy `is_item_candidate`.
pub open spec fn lists_item_candidates(
    items: Seq<Arc<RiftRumbleEntity>>,
    chosen: Seq<Arc<RiftRumbleEntity>>,
    positions: Seq<usize>,
) -> bool {
    &&& forall|k: int|
        0 <= k < positions.len() ==> is_item_candidate(items, chosen, #[trigger] positions[k] as int)
    &&& forall|k: int, l: int|
        0 <= k < l < positions.len() ==> #[trigger] positions[k] < #[trigger] positions[l]
    &&& forall|i: int| #[trigger] is_item_candidate(items, chosen, i) ==> positions.contains(i as usize)
}

/// What an item pick starts with: the first mythic item when there is one.
pub open spec fn first_pick(items: Seq<Arc<RiftRumbleEntity>>) -> Seq<Arc<RiftRumbleEntity>> {
    if has_mythic(items) {
        seq![items[first_mythic_index(items)]]
    } else {
        Seq::empty()
    }
}

/// The items that the draws `draws` pick: `first_pick`, then for each draw
/// the item at that place of the candidate positions given the items picked
/// so far.
pub open spec fn item_pick_from_draws(
    items: Seq<Arc<RiftRumbleEntity>>,
    draws: Seq<usize>,
) -> Seq<Arc<RiftRumbleEntity>>
    decreases draws.len(),
{
    if draws.len() == 0 {
        first_pick(items)
    } else {
        let prev = item_pick_from_draws(items, draws.drop_last());
        prev.push(items[item_candidate_positions(items, prev)[draws.last() as int] as int])
    }
}

/// Each draw falls among the candidate positions at its turn.
pub open spec fn item_draws_fit(items: Seq<Arc<RiftRumbleEntity>>, draws: Seq<usize>) -> bool {
    forall|k: int|
        0 <= k < draws.len() ==> #[trigger] draws[k] < item_candidate_positions(
            items,
            item_pick_from_draws(items, draws.take(k)),
        ).len()
}

/// Whether some entry of `chosen` has identifier `id`.
fn has_id(chosen: &Vec<Arc<RiftRumbleEntity>>, id: &String) -> (r: bool)
    ensures
        r == ids_of(chosen@).contains(id@),
{
    let mut k: usize = 0;
    while k < chosen.len()
        invariant
            k <= chosen@.len(),
            forall|j: int| 0 <= j < k ==> entity_id(*chosen@[j]) != id@,
        decreases chosen@.len() - k,
    {
        let entry: &RiftRumbleEntity = &chosen[k];
        assert(*entry == *chosen@[k as int]);
        let entry_id = entry.id();
        assert(entry_id@ == entity_id(*chosen@[k as int]));
        if *entry_id == *id {
            assert(ids_of(chosen@)[k as int] == id@);
            return true;
        }
        k = k + 1;
    }
    proof {
        if ids_of(chosen@).contains(id@) {
            let j = choose|j: int| 0 <= j < ids_of(chosen@).len() && ids_of(chosen@)[j] == id@;
            assert(entity_id(*chosen@[j]) == id@);
        }
    }
    false
}

/// The candidate positions below `n`, in increasing order.
pub open spec fn candidates_below(
    items: Seq<Arc<RiftRumbleEntity>>,
    chosen: Seq<Arc<RiftRumbleEntity>>,
    n: int,
) -> Seq<usize>
    decreases n,
{
    if n <= 0 {
        Seq::empty()
    } else {
        let prev = candidates_below(items, chosen, n - 1);
        if is_item_candidate(items, chosen, n - 1) {
            prev.push((n - 1) as usize)
        } else {
            prev
        }
    }
}

/// All candidate positions of `items` given the items `chosen`, in increasing
/// order.
pub open spec fn item_candidate_positions(
    items: Seq<Arc<RiftRumbleEntity>>,
    chosen: Seq<Arc<RiftRumbleEntity>>,
) -> Seq<usize> {
    candidates_below(items, chosen, items.len() as int)
}

/// The positions of `items` a random item can be taken from, given the items
/// `chosen` so far: the items that are not mythic and whose identifier is not
/// chosen yet, in order.
pub fn item_candidates(items: &Vec<Arc<RiftRumbleEntity>>, chosen: &Vec<Arc<RiftRumbleEntity>>) -> (r:
    Vec<usize>)
    ensures
        r@ == item_candidate_positions(items@, chosen@),
        lists_item_candidates(items@, chosen@, r@),
{
    let mut r: Vec<usize> = Vec::new();
    let mut i: usize = 0;
    while i < items.len()
        invariant
            i <= items@.len(),
            r@ == candidates_below(items@, chosen@, i as int),
            forall|k: int| 0 <= k < r@.len() ==> #[trigger] r@[k] < i,
            forall|k: int|
                0 <= k < r@.len() ==> is_item_candidate(items@, chosen@, #[trigger] r@[k] as int),
            forall|k: int, l: int| 0 <= k < l < r@.len() ==> #[trigger] r@[k] < #[trigger] r@[l],
            forall|j: int|
                0 <= j < i && #[trigger] is_item_candidate(items@, chosen@, j) ==> r@.contains(
                    j as usize,
                ),
        decreases items@.len() - i,
    {
        let entry: &RiftRumbleEntity = &items[i];
        assert(*entry == *items@[i as int]);
        let plain = match entry {
            RiftRumbleEntity::Item(_, mythic) => !*mythic,
            _ => false,
        };
        assert(plain == is_plain_item(*items@[i as int]));
        let ghost before = r@;
        if plain && !has_id(chosen, entry.id()) {
            r.push(i);
            assert(r@[r@.len() - 1] == i);
        }
        proof {
            assert forall|j: int|
                0 <= j < i + 1 && #[trigger] is_item_candidate(items@, chosen@, j) implies r@.contains(
                j as usize,
            ) by {
                if j == i {
                    assert(r@[r@.len() - 1] == i);
                } else {
                    assert(before.contains(j as usize));
                    let k = choose|k: int| 0 <= k < before.len() && before[k] == j as usize;
                    assert(r@[k] == j as usize);
                }
            }
        }
        i = i + 1;
    }
    r
}

/// The position of the first mythic item, if any.
fn find_first_mythic(items: &Vec<Arc<RiftRumbleEntity>>) -> (r: Option<usize>)
    ensures
        match r {
            Some(m) => is_first_mythic(items@, m as int),
            None => !has_mythic(items@),
        },
{
    let mut i: usize = 0;
    while i < items.len()
        invariant
            i <= items@.len(),
            forall|j: int| 0 <= j < i ==> !#[trigger] is_mythic_item(*items@[j]),
        decreases items@.len() - i,
    {
        match &*items[i] {
            RiftRumbleEntity::Item(_, true) => {
                return Some(i);
            },
            _ => {},
        }
        i = i + 1;
    }
    None
}


/// There is only one first mythic item.
proof fn lemma_first_mythic_unique(items: Seq<Arc<RiftRumbleEntity>>, m: int)
    requires
        is_first_mythic(items, m),
    ensures
        has_mythic(items),
        first_mythic_index(items) == m,
{
    let c = first_mythic_index(items);
    assert(is_first_mythic(items, c));
    if c < m {
        assert(!is_mythic_item(*items[c]));
    }
    if m < c {
        assert(!is_mythic_item(*items[m]));
    }
}

/// While a pick is short of five items, some item can still be drawn.
proof fn lemma_item_candidate_exists(
    items: Seq<Arc<RiftRumbleEntity>>,
    chosen: Seq<Arc<RiftRumbleEntity>>,
)
    requires
        items_pickable(items),
        ids_of(chosen).no_duplicates(),
        chosen.len() < 5,
        has_mythic(items) ==> chosen.len() >= 1 && chosen[0] == items[first_mythic_index(items)],
        has_mythic(items) ==> forall|k: int|
            1 <= k < chosen.len() ==> is_plain_item(*#[trigger] chosen[k]),
        !has_mythic(items) ==> forall|k: int|
            0 <= k < chosen.len() ==> is_plain_item(*#[trigger] chosen[k]),
    ensures
        exists|i: int| is_item_candidate(items, chosen, i),
{
    let ids = ids_of(chosen);
    let taken = ids.to_set();
    ids.unique_seq_to_set();
    assert(taken.finite()) by {
        vstd::seq_lib::seq_to_set_is_finite(ids);
    }
    if !(exists|i: int| is_item_candidate(items, chosen, i)) {
        if has_mythic(items) {
            let mid = first_mythic_id(items);
            assert(ids[0] == mid);
            assert(taken.contains(mid));
            let rest = taken.remove(mid);
            assert forall|id: Seq<char>| item_pool(items).contains(id) implies rest.contains(id) by {
                let i = choose|i: int|
                    0 <= i < items.len() && #[trigger] is_plain_item(*items[i]) && entity_id(
                        *items[i],
                    ) == id;
                assert(!is_item_candidate(items, chosen, i));
                assert(ids.contains(id));
            }
            vstd::set_lib::lemma_len_subset(item_pool(items), rest);
            assert(rest.len() == taken.len() - 1);
        } else {
            assert forall|id: Seq<char>| item_pool(items).contains(id) implies taken.contains(id) by {
                let i = choose|i: int|
                    0 <= i < items.len() && #[trigger] is_plain_item(*items[i]) && entity_id(
                        *items[i],
                    ) == id;
                assert(!is_item_candidate(items, chosen, i));
                assert(ids.contains(id));
            }
            vstd::set_lib::lemma_len_subset(item_pool(items), taken);
        }
    }
}


// ---------------------------------------------------------------------------
// Runes
// ---------------------------------------------------------------------------

/// Entry `k` of `picked` is a rune offered by row `chosen[k]` of `slots`.
pub open spec fn picks_one_per_slot(
    picked: Seq<Arc<RiftRumbleEntity>>,
    slots: Seq<RuneSlot>,
    chosen: Seq<int>,
) -> bool {
    &&& picked.len() == chosen.len()
    &&& forall|k: int|
        0 <= k < picked.len() ==> 0 <= #[trigger] chosen[k] < slots.len() && slots[chosen[k]].runes@.contains(
            picked[k],
        )
}

/// Every row of `slots`, in order.
pub open spec fn every_slot(slots: Seq<RuneSlot>) -> Seq<int> {
    Seq::new(slots.len(), |k: int| k)
}

/// The rows a secondary tree offers its runes from.
pub open spec fn is_secondary_row(row: u8) -> bool {
    row == 1 || row == 2
}

/// `chosen` lists, in increasing order, exactly the positions of the rows of
/// `slots` that are secondary rows.
pub open spec fn lists_secondary_slots(slots: Seq<RuneSlot>, chosen: Seq<int>) -> bool {
    &&& forall|m: int|
        0 <= m < chosen.len() ==> 0 <= #[trigger] chosen[m] < slots.len() && is_secondary_row(
            slots[chosen[m]].row,
        )
    &&& forall|m: int, l: int| 0 <= m < l < chosen.len() ==> #[trigger] chosen[m] < #[trigger] chosen[l]
    &&& forall|k: int|
        0 <= k < slots.len() && is_secondary_row(#[trigger] slots[k].row) ==> chosen.contains(k)
}

/// The runes that the draws `picks` pick from `slots`, one per row: the rune
/// at `picks[k]` of row `k`.
pub open spec fn primary_runes(slots: Seq<RuneSlot>, picks: Seq<usize>) -> Seq<
    Arc<RiftRumbleEntity>,
> {
    Seq::new(slots.len(), |k: int| slots[k].runes@[picks[k] as int])
}

/// There is a draw for each row, within the row's runes.
pub open spec fn primary_picks_fit(slots: Seq<RuneSlot>, picks: Seq<usize>) -> bool {
    &&& picks.len() == slots.len()
    &&& forall|k: int| 0 <= k < slots.len() ==> #[trigger] picks[k] < slots[k].runes@.len()
}

/// The positions, below `n`, of the rows of `slots` numbered `a` or `b`, in
/// increasing order.
pub open spec fn row_positions(slots: Seq<RuneSlot>, a: u8, b: u8, n: int) -> Seq<int>
    decreases n,
{
    if n <= 0 {
        Seq::empty()
    } else {
        let prev = row_positions(slots, a, b, n - 1);
        if slots[n - 1].row == a || slots[n - 1].row == b {
            prev.push(n - 1)
        } else {
            prev
        }
    }
}

/// The positions of all the rows of `slots` numbered `a` or `b`.
pub open spec fn secondary_positions(slots: Seq<RuneSlot>, a: u8, b: u8) -> Seq<int> {
    row_positions(slots, a, b, slots.len() as int)
}

/// The runes that the draws `picks` pick from the rows of `slots` numbered
/// `a` or `b`: the rune at `picks[m]` of the `m`-th such row.
pub open spec fn secondary_runes(slots: Seq<RuneSlot>, a: u8, b: u8, picks: Seq<usize>) -> Seq<
    Arc<RiftRumbleEntity>,
> {
    let positions = secondary_positions(slots, a, b);
    Seq::new(positions.len(), |m: int| slots[positions[m]].runes@[picks[m] as int])
}

/// There is a draw for each row numbered `a` or `b`, within the row's runes.
pub open spec fn secondary_picks_fit(slots: Seq<RuneSlot>, a: u8, b: u8, picks: Seq<usize>) -> bool {
    let positions = secondary_positions(slots, a, b);
    &&& picks.len() == positions.len()
    &&& forall|m: int|
        0 <= m < positions.len() ==> #[trigger] picks[m] < slots[positions[m]].runes@.len()
}

/// The positions below `k` are a prefix of those below `n`.
proof fn lemma_row_positions_prefix(slots: Seq<RuneSlot>, a: u8, b: u8, k: int, n: int)
    requires
        0 <= k <= n,
    ensures
        row_positions(slots, a, b, k).len() <= row_positions(slots, a, b, n).len(),
        forall|m: int|
            0 <= m < row_positions(slots, a, b, k).len() ==> #[trigger] row_positions(
                slots,
                a,
                b,
                n,
            )[m] == row_positions(slots, a, b, k)[m],
    decreases n - k,
{
    if k < n {
        lemma_row_positions_prefix(slots, a, b, k, n - 1);
    }
}

/// The positions below `n` are in range, increasing, numbered `a` or `b`, and
/// all there.
proof fn lemma_row_positions(slots: Seq<RuneSlot>, a: u8, b: u8, n: int)
    requires
        n <= slots.len(),
    ensures
        forall|m: int|
            0 <= m < row_positions(slots, a, b, n).len() ==> 0 <= #[trigger] row_positions(
                slots,
                a,
                b,
                n,
            )[m] < n && (slots[row_positions(slots, a, b, n)[m]].row == a || slots[row_positions(
                slots,
                a,
                b,
                n,
            )[m]].row == b),
        forall|m: int, l: int|
            0 <= m < l < row_positions(slots, a, b, n).len() ==> #[trigger] row_positions(
                slots,
                a,
                b,
                n,
            )[m] < #[trigger] row_positions(slots, a, b, n)[l],
        forall|k: int|
            0 <= k < n && (#[trigger] slots[k].row == a || slots[k].row == b) ==> row_positions(
                slots,
                a,
                b,
                n,
            ).contains(k),
    decreases n,
{
    if n > 0 {
        lemma_row_positions(slots, a, b, n - 1);
        let prev = row_positions(slots, a, b, n - 1);
        let cur = row_positions(slots, a, b, n);
        assert forall|k: int| 0 <= k < n && (#[trigger] slots[k].row == a || slots[k].row == b) implies cur.contains(k) by {
            if k < n - 1 {
                assert(prev.contains(k));
                let m = choose|m: int| 0 <= m < prev.len() && prev[m] == k;
                assert(cur[m] == k);
            } else {
                assert(cur[cur.len() - 1] == k);
            }
        }
    }
}

/// The primary tree of a pick: the tree's key, and one rune from every row.
pub open spec fn is_primary_pick(tree: RuneTree, pick: (String, Vec<Arc<RiftRumbleEntity>>)) -> bool {
    &&& pick.0@ == tree.key@
    &&& picks_one_per_slot(pick.1@, tree.slots@, every_slot(tree.slots@))
}

/// The secondary tree of a pick: the tree's key, and one rune from each of
/// its secondary rows, in row order.
pub open spec fn is_secondary_pick(
    tree: RuneTree,
    pick: (String, Vec<Arc<RiftRumbleEntity>>),
) -> bool {
    &&& pick.0@ == tree.key@
    &&& exists|chosen: Seq<int>|
        lists_secondary_slots(tree.slots@, chosen) && #[trigger] picks_one_per_slot(
            pick.1@,
            tree.slots@,
            chosen,
        )
}

/// `picked` holds a primary and a secondary tree, two different trees of
/// `trees`, with their runes.
pub open spec fn valid_rune_pick(
    trees: Seq<RuneTree>,
    picked: Seq<(String, Vec<Arc<RiftRumbleEntity>>)>,
) -> bool {
    &&& picked.len() == 2
    &&& exists|p: int, q: int|
        0 <= p < trees.len() && 0 <= q < trees.len() && p != q && #[trigger] is_primary_pick(
            trees[p],
            picked[0],
        ) && #[trigger] is_secondary_pick(trees[q], picked[1])
}

// ---------------------------------------------------------------------------
// Checks of the preconditions
// ---------------------------------------------------------------------------

/// Whether the rows of a tree are numbered apart and each offers a rune.
pub fn check_slots(slots: &Vec<RuneSlot>) -> (r: bool)
    ensures
        r == slots_well_formed(slots@),
{
    let mut b: usize = 0;
    while b < slots.len()
        invariant
            b <= slots@.len(),
            forall|x: int, y: int|
                0 <= x < y < b ==> #[trigger] slots@[x].row != #[trigger] slots@[y].row,
            forall|k: int| 0 <= k < b ==> (#[trigger] slots@[k]).runes@.len() > 0,
        decreases slots@.len() - b,
    {
        if slots[b].runes.len() == 0 {
            return false;
        }
        let mut a: usize = 0;
        while a < b
            invariant
                a <= b < slots@.len(),
                forall|x: int| 0 <= x < a ==> #[trigger] slots@[x].row != slots@[b as int].row,
            decreases b - a,
        {
            if slots[a].row == slots[b].row {
                return false;
            }
            a = a + 1;
        }
        b = b + 1;
    }
    true
}

/// Whether the trees are keyed apart and each is well formed.
pub fn check_runes(trees: &Vec<RuneTree>) -> (r: bool)
    ensures
        r == runes_well_formed(trees@),
{
    let mut b: usize = 0;
    while b < trees.len()
        invariant
            b <= trees@.len(),
            forall|x: int, y: int|
                0 <= x < y < b ==> #[trigger] trees@[x].key@ != #[trigger] trees@[y].key@,
            forall|t: int| 0 <= t < b ==> slots_well_formed((#[trigger] trees@[t]).slots@),
        decreases trees@.len() - b,
    {
        if !check_slots(&trees[b].slots) {
            return false;
        }
        let mut a: usize = 0;
        while a < b
            invariant
                a <= b < trees@.len(),
                forall|x: int| 0 <= x < a ==> #[trigger] trees@[x].key@ != trees@[b as int].key@,
            decreases b - a,
        {
            if trees[a].key == trees[b].key {
                return false;
            }
            a = a + 1;
        }
        b = b + 1;
    }
    true
}

/// The pool of `item_pool` restricted to the first `n` items.
pub open spec fn item_pool_prefix(items: Seq<Arc<RiftRumbleEntity>>, n: int) -> Set<Seq<char>> {
    Set::new(
        |id: Seq<char>|
            exists|i: int|
                0 <= i < n && #[trigger] is_plain_item(*items[i]) && entity_id(*items[i]) == id && (
                has_mythic(items) ==> id != first_mythic_id(items)),
    )
}

/// Whether the items offer enough identifiers for `randomize_items`.
pub fn check_items(items: &Vec<Arc<RiftRumbleEntity>>) -> (r: bool)
    ensures
        r == items_pickable(items@),
{
    let ghost all = items@;
    let mythic = find_first_mythic(items);
    let needed: usize = match mythic {
        Some(m) => {
            proof {
                lemma_first_mythic_unique(all, m as int);
            }
            4
        },
        None => 5,
    };
    let mut seen: Vec<Arc<RiftRumbleEntity>> = Vec::new();
    let mut i: usize = 0;
    while i < items.len()
        invariant
            all == items@,
            i <= all.len(),
            mythic matches Some(m) ==> has_mythic(all) && m == first_mythic_index(all) && m
                < all.len(),
            mythic is None ==> !has_mythic(all),
            ids_of(seen@).no_duplicates(),
            ids_of(seen@).to_set() == item_pool_prefix(all, i as int),
        decreases all.len() - i,
    {
        let ghost before = seen@;
        let entry: &RiftRumbleEntity = &items[i];
        assert(*entry == *all[i as int]);
        let plain = match entry {
            RiftRumbleEntity::Item(_, m) => !*m,
            _ => false,
        };
        let id = entry.id();
        let excluded = match mythic {
            Some(m) => *items[m].id() == *id,
            None => false,
        };
        if plain && !excluded && !has_id(&seen, id) {
            seen.push(share(&items[i]));
            proof {
                assert(ids_of(seen@) =~= ids_of(before).push(id@));
            }
        }
        proof {
            let next = item_pool_prefix(all, i + 1);
            assert forall|x: Seq<char>| next.contains(x) <==> ids_of(seen@).to_set().contains(x) by {
                if next.contains(x) {
                    let j = choose|j: int|
                        0 <= j < i + 1 && #[trigger] is_plain_item(*all[j]) && entity_id(*all[j]) == x
                            && (has_mythic(all) ==> x != first_mythic_id(all));
                    if j < i {
                        assert(item_pool_prefix(all, i as int).contains(x));
                        assert(ids_of(before).to_set().contains(x));
                        assert(ids_of(before).contains(x));
                        let k = choose|k: int| 0 <= k < ids_of(before).len() && ids_of(before)[k] == x;
                        assert(ids_of(seen@)[k] == x);
                    } else {
                        if !(plain && !excluded && !ids_of(before).contains(x)) {
                            assert(ids_of(before).contains(x));
                            let k = choose|k: int| 0 <= k < ids_of(before).len() && ids_of(before)[k] == x;
                            assert(ids_of(seen@)[k] == x);
                        } else {
                            assert(ids_of(seen@)[before.len() as int] == x);
                        }
                    }
                }
                if ids_of(seen@).to_set().contains(x) {
                    let k = choose|k: int| 0 <= k < ids_of(seen@).len() && ids_of(seen@)[k] == x;
                    if k < before.len() {
                        assert(ids_of(before)[k] == x);
                        assert(ids_of(before).to_set().contains(x));
                        assert(item_pool_prefix(all, i as int).contains(x));
                        let j = choose|j: int|
                            0 <= j < i && #[trigger] is_plain_item(*all[j]) && entity_id(*all[j]) == x
                                && (has_mythic(all) ==> x != first_mythic_id(all));
                        assert(0 <= j < i + 1);
                    } else {
                        assert(is_plain_item(*all[i as int]));
                    }
                }
            }
            assert(next =~= ids_of(seen@).to_set());
        }
        i = i + 1;
    }
    proof {
        assert(item_pool_prefix(all, all.len() as int) =~= item_pool(all));
        ids_of(seen@).unique_seq_to_set();
    }
    seen.len() >= needed
}

impl RiftRumbleEntityCollection {
    /// An empty collection.
    pub fn new() -> (r: RiftRumbleEntityCollection)
        ensures
            r.champions@.len() == 0,
            r.items@.len() == 0,
            r.runes@.len() == 0,
            r.summoners@.len() == 0,
            r.well_formed(),
    {
        RiftRumbleEntityCollection {
            champions: Vec::new(),
            items: Vec::new(),
            runes: Vec::new(),
            summoners: Vec::new(),
        }
    }

    /// The rune trees are keyed apart, their rows numbered apart, and every
    /// row offers a rune.
    pub open spec fn well_formed(&self) -> bool {
        runes_well_formed(self.runes@)
    }

    /// A loadout can be drawn from the collection: it has a champion, enough
    /// items, two well-formed rune trees and two summoner spells.
    pub open spec fn randomizable(&self) -> bool {
        &&& self.champions@.len() >= 1
        &&& items_pickable(self.items@)
        &&& self.runes@.len() >= 2
        &&& self.well_formed()
        &&& self.summoners@.len() >= 2
    }

    /// `set` is a loadout drawn from the collection: a champion of it, a valid
    /// item pick, a valid rune pick, summoner spells from two different
    /// entries, and an order of the three skills.
    pub open spec fn is_loadout(&self, set: RiftRumbleEntitySet) -> bool {
        &&& self.champions@.contains(set.champion)
        &&& valid_item_pick(self.items@, set.items@)
        &&& valid_rune_pick(self.runes@, set.runes@)
        &&& two_distinct_picks(self.summoners@, set.summoners)
        &&& is_skill_order(set.skill_order)
    }

    /// Whether a loadout can be drawn from the collection.
    pub fn can_randomize(&self) -> (r: bool)
        ensures
            r == self.randomizable(),
    {
        self.champions.len() >= 1 && check_items(&self.items) && self.runes.len() >= 2
            && check_runes(&self.runes) && self.summoners.len() >= 2
    }

    /// A random loadout drawn from the collection.
    pub fn randomize_set(&self) -> (r: RiftRumbleEntitySet)
        requires
            self.randomizable(),
        ensures
            self.is_loadout(r),
    {
        RiftRumbleEntitySet {
            champion: self.randomize_champion(),
            items: self.randomize_items(),
            runes: self.randomize_runes(),
            summoners: self.randomize_summoners(),
            skill_order: randomize_skill_order(),
        }
    }

    /// A random champion of the collection.
    pub fn randomize_champion(&self) -> (r: Arc<RiftRumbleEntity>)
        requires
            self.champions@.len() >= 1,
        ensures
            self.champions@.contains(r),
    {
        let index = get_next_random_num_closed(None, 0, self.champions.len());
        self.champion_at(index)
    }

    /// The champion at position `index`.
    pub fn champion_at(&self, index: usize) -> (r: Arc<RiftRumbleEntity>)
        requires
            index < self.champions@.len(),
        ensures
            r == self.champions@[index as int],
    {
        share(&self.champions[index])
    }

    /// Five random items: the first mythic item of the collection when there
    /// is one, then items that are not mythic, drawn at random until the pick
    /// holds five identifiers apart.
    pub fn randomize_items(&self) -> (r: Vec<Arc<RiftRumbleEntity>>)
        requires
            items_pickable(self.items@),
        ensures
            valid_item_pick(self.items@, r@),
            exists|draws: Seq<usize>|
                item_draws_fit(self.items@, draws) && r@ == #[trigger] item_pick_from_draws(
                    self.items@,
                    draws,
                ),
    {
        let ghost items = self.items@;
        let count: usize = match find_first_mythic(&self.items) {
            Some(m) => {
                proof {
                    lemma_first_mythic_unique(items, m as int);
                }
                4
            },
            None => 5,
        };
        let mut draws: Vec<usize> = Vec::new();
        while draws.len() < count
            invariant
                items == self.items@,
                items_pickable(items),
                count == random_item_count(items),
                draws@.len() <= count,
                item_draws_fit(items, draws@),
            decreases count - draws@.len(),
        {
            let picked = self.items_from_draws(&draws);
            let candidates = item_candidates(&self.items, &picked);
            proof {
                lemma_item_candidate_exists(items, picked@);
                let i = choose|i: int| is_item_candidate(items, picked@, i);
                assert(candidates@.contains(i as usize));
            }
            let draw = gen_range(0, candidates.len());
            let ghost before = draws@;
            draws.push(draw);
            proof {
                assert forall|k: int| 0 <= k < draws@.len() implies #[trigger] draws@[k]
                    < item_candidate_positions(
                    items,
                    item_pick_from_draws(items, draws@.take(k)),
                ).len() by {
                    if k < before.len() {
                        assert(draws@.take(k) =~= before.take(k));
                        assert(draws@[k] == before[k]);
                    } else {
                        assert(draws@.take(k) =~= before);
                    }
                }
            }
        }
        let r = self.items_from_draws(&draws);
        assert(r@ == item_pick_from_draws(items, draws@));
        r
    }

    /// The items that the draws `draws` pick: the first mythic item when there
    /// is one, then, for each draw, the candidate item at that place of the
    /// candidate positions given the items picked so far.
    pub fn items_from_draws(&self, draws: &Vec<usize>) -> (r: Vec<Arc<RiftRumbleEntity>>)
        requires
            item_draws_fit(self.items@, draws@),
        ensures
            r@ == item_pick_from_draws(self.items@, draws@),
            r@.len() == first_pick(self.items@).len() + draws@.len(),
            ids_of(r@).no_duplicates(),
            forall|k: int| 0 <= k < r@.len() ==> self.items@.contains(#[trigger] r@[k]),
            has_mythic(self.items@) ==> r@.len() >= 1 && r@[0] == self.items@[first_mythic_index(
                self.items@,
            )],
            has_mythic(self.items@) ==> forall|k: int|
                1 <= k < r@.len() ==> is_plain_item(*#[trigger] r@[k]),
            !has_mythic(self.items@) ==> forall|k: int|
                0 <= k < r@.len() ==> is_plain_item(*#[trigger] r@[k]),
    {
        let ghost items = self.items@;
        let mut selected: Vec<Arc<RiftRumbleEntity>> = Vec::new();
        match find_first_mythic(&self.items) {
            Some(m) => {
                proof {
                    lemma_first_mythic_unique(items, m as int);
                }
                selected.push(share(&self.items[m]));
            },
            None => {},
        }
        assert(selected@ =~= first_pick(items));
        assert(draws@.take(0) =~= Seq::<usize>::empty());
        let mut k: usize = 0;
        while k < draws.len()
            invariant
                items == self.items@,
                item_draws_fit(items, draws@),
                k <= draws@.len(),
                selected@ == item_pick_from_draws(items, draws@.take(k as int)),
                selected@.len() == first_pick(items).len() + k,
                ids_of(selected@).no_duplicates(),
                forall|j: int| 0 <= j < selected@.len() ==> items.contains(#[trigger] selected@[j]),
                has_mythic(items) ==> selected@.len() >= 1 && selected@[0]
                    == items[first_mythic_index(items)],
                has_mythic(items) ==> forall|j: int|
                    1 <= j < selected@.len() ==> is_plain_item(*#[trigger] selected@[j]),
                !has_mythic(items) ==> forall|j: int|
                    0 <= j < selected@.len() ==> is_plain_item(*#[trigger] selected@[j]),
            decreases draws@.len() - k,
        {
            let candidates = item_candidates(&self.items, &selected);
            assert(draws@[k as int] < candidates@.len());
            let position = candidates[draws[k]];
            assert(is_item_candidate(items, selected@, position as int));
            let ghost before = selected@;
            let item = share(&self.items[position]);
            selected.push(item);
            proof {
                assert(ids_of(selected@) =~= ids_of(before).push(entity_id(*items[position as int])));
                assert(items.contains(items[position as int]));
                assert(selected@[before.len() as int] == items[position as int]);
                let next = draws@.take(k + 1);
                assert(next.drop_last() =~= draws@.take(k as int));
                assert(next.last() == draws@[k as int]);
            }
            k = k + 1;
        }
        assert(draws@.take(draws@.len() as int) =~= draws@);
        selected
    }

    /// Random runes: a primary tree with a random rune from every row, and a
    /// different, secondary tree with a random rune from each of its rows 1
    /// and 2.
    pub fn randomize_runes(&self) -> (r: Vec<(String, Vec<Arc<RiftRumbleEntity>>)>)
        requires
            self.runes@.len() >= 2,
            runes_well_formed(self.runes@),
        ensures
            valid_rune_pick(self.runes@, r@),
    {
        let tree_index = get_next_random_num_closed(None, 0, self.runes.len());
        let slots = &self.runes[tree_index].slots;
        assert(slots_well_formed(slots@));
        let mut primary_picks: Vec<usize> = Vec::new();
        let mut k: usize = 0;
        while k < slots.len()
            invariant
                k <= slots@.len(),
                slots_well_formed(slots@),
                primary_picks@.len() == k,
                forall|j: int| 0 <= j < k ==> #[trigger] primary_picks@[j] < slots@[j].runes@.len(),
            decreases slots@.len() - k,
        {
            assert(slots@[k as int].runes@.len() > 0);
            primary_picks.push(gen_range(0, slots[k].runes.len()));
            k = k + 1;
        }

        let second_tree_index = get_next_random_num_closed(Some(tree_index), 0, self.runes.len());
        let first_random_row = get_next_random_num_closed(None, 1, 3) as u8;
        let second_random_row = get_next_random_num_closed(Some(first_random_row as usize), 1, 3) as u8;
        let slots2 = &self.runes[second_tree_index].slots;
        assert(slots_well_formed(slots2@));
        let mut secondary_picks: Vec<usize> = Vec::new();
        let mut k: usize = 0;
        while k < slots2.len()
            invariant
                k <= slots2@.len(),
                slots_well_formed(slots2@),
                secondary_picks@.len() == row_positions(
                    slots2@,
                    first_random_row,
                    second_random_row,
                    k as int,
                ).len(),
                forall|m: int|
                    0 <= m < secondary_picks@.len() ==> #[trigger] secondary_picks@[m]
                        < slots2@[row_positions(
                        slots2@,
                        first_random_row,
                        second_random_row,
                        k as int,
                    )[m]].runes@.len(),
            decreases slots2@.len() - k,
        {
            let ghost before = secondary_picks@;
            if slots2[k].row == first_random_row || slots2[k].row == second_random_row {
                assert(slots2@[k as int].runes@.len() > 0);
                secondary_picks.push(gen_range(0, slots2[k].runes.len()));
            }
            proof {
                let pos = row_positions(slots2@, first_random_row, second_random_row, k + 1);
                assert forall|m: int| 0 <= m < secondary_picks@.len() implies #[trigger] secondary_picks@[m]
                    < slots2@[pos[m]].runes@.len() by {
                    if m < before.len() {
                        assert(secondary_picks@[m] == before[m]);
                    }
                }
            }
            k = k + 1;
        }
        let r = self.runes_from_draws(
            tree_index,
            second_tree_index,
            first_random_row,
            second_random_row,
            &primary_picks,
            &secondary_picks,
        );
        proof {
            let tree = self.runes@[tree_index as int];
            let tree2 = self.runes@[second_tree_index as int];
            assert(picks_one_per_slot(r@[0].1@, tree.slots@, every_slot(tree.slots@))) by {
                assert forall|j: int| 0 <= j < r@[0].1@.len() implies 0 <= #[trigger] every_slot(
                    tree.slots@,
                )[j] < tree.slots@.len() && tree.slots@[every_slot(tree.slots@)[j]].runes@.contains(
                    r@[0].1@[j],
                ) by {
                    assert(r@[0].1@[j] == tree.slots@[j].runes@[primary_picks@[j] as int]);
                }
            }
            assert(is_primary_pick(tree, r@[0]));
            let pos = secondary_positions(slots2@, first_random_row, second_random_row);
            lemma_row_positions(slots2@, first_random_row, second_random_row, slots2@.len() as int);
            assert(forall|row: u8| (row == first_random_row || row == second_random_row) <==> is_secondary_row(row));
            assert(lists_secondary_slots(slots2@, pos));
            assert(picks_one_per_slot(r@[1].1@, slots2@, pos)) by {
                assert forall|m: int| 0 <= m < r@[1].1@.len() implies 0 <= #[trigger] pos[m]
                    < slots2@.len() && slots2@[pos[m]].runes@.contains(r@[1].1@[m]) by {
                    assert(r@[1].1@[m] == slots2@[pos[m]].runes@[secondary_picks@[m] as int]);
                }
            }
            assert(is_secondary_pick(tree2, r@[1]));
        }
        r
    }

    /// The runes that the draws pick: from tree `primary`, the rune at
    /// `primary_picks[k]` of each row `k`; from tree `secondary`, for each of
    /// its rows numbered `first_row` or `second_row` in turn, the rune at the
    /// next entry of `secondary_picks`.
    pub fn runes_from_draws(
        &self,
        primary: usize,
        secondary: usize,
        first_row: u8,
        second_row: u8,
        primary_picks: &Vec<usize>,
        secondary_picks: &Vec<usize>,
    ) -> (r: Vec<(String, Vec<Arc<RiftRumbleEntity>>)>)
        requires
            primary < self.runes@.len(),
            secondary < self.runes@.len(),
            primary_picks_fit(self.runes@[primary as int].slots@, primary_picks@),
            secondary_picks_fit(
                self.runes@[secondary as int].slots@,
                first_row,
                second_row,
                secondary_picks@,
            ),
        ensures
            r@.len() == 2,
            r@[0].0@ == self.runes@[primary as int].key@,
            r@[0].1@ == primary_runes(self.runes@[primary as int].slots@, primary_picks@),
            r@[1].0@ == self.runes@[secondary as int].key@,
            r@[1].1@ == secondary_runes(
                self.runes@[secondary as int].slots@,
                first_row,
                second_row,
                secondary_picks@,
            ),
    {
        let tree = &self.runes[primary];
        let mut primary_runes_picked: Vec<Arc<RiftRumbleEntity>> = Vec::new();
        let mut k: usize = 0;
        while k < tree.slots.len()
            invariant
                k <= tree.slots@.len(),
                primary_picks_fit(tree.slots@, primary_picks@),
                primary_runes_picked@.len() == k,
                forall|j: int|
                    0 <= j < k ==> #[trigger] primary_runes_picked@[j] == tree.slots@[j].runes@[primary_picks@[j] as int],
            decreases tree.slots@.len() - k,
        {
            assert(primary_picks@[k as int] < tree.slots@[k as int].runes@.len());
            primary_runes_picked.push(share(&tree.slots[k].runes[primary_picks[k]]));
            k = k + 1;
        }
        assert(primary_runes_picked@ =~= primary_runes(tree.slots@, primary_picks@));

        let tree2 = &self.runes[secondary];
        let ghost slots2 = tree2.slots@;
        let ghost full = secondary_positions(slots2, first_row, second_row);
        let mut secondary_runes_picked: Vec<Arc<RiftRumbleEntity>> = Vec::new();
        let mut k: usize = 0;
        while k < tree2.slots.len()
            invariant
                slots2 == tree2.slots@,
                full == secondary_positions(slots2, first_row, second_row),
                k <= slots2.len(),
                secondary_picks_fit(slots2, first_row, second_row, secondary_picks@),
                secondary_runes_picked@.len() == row_positions(slots2, first_row, second_row, k as int).len(),
                forall|m: int|
                    0 <= m < secondary_runes_picked@.len() ==> #[trigger] secondary_runes_picked@[m]
                        == slots2[full[m]].runes@[secondary_picks@[m] as int],
            decreases slots2.len() - k,
        {
            proof {
                lemma_row_positions_prefix(slots2, first_row, second_row, k + 1, slots2.len() as int);
                lemma_row_positions_prefix(slots2, first_row, second_row, k as int, k + 1);
            }
            if tree2.slots[k].row == first_row || tree2.slots[k].row == second_row {
                let m = secondary_runes_picked.len();
                proof {
                    let pos = row_positions(slots2, first_row, second_row, k + 1);
                    assert(pos[m as int] == k);
                    assert(full[m as int] == k);
                    assert(secondary_picks@[m as int] < slots2[k as int].runes@.len());
                }
                secondary_runes_picked.push(share(&tree2.slots[k].runes[secondary_picks[m]]));
            }
            k = k + 1;
        }
        assert(secondary_runes_picked@ =~= secondary_runes(slots2, first_row, second_row, secondary_picks@));
        let mut r: Vec<(String, Vec<Arc<RiftRumbleEntity>>)> = Vec::new();
        r.push((tree.key.clone(), primary_runes_picked));
        r.push((tree2.key.clone(), secondary_runes_picked));
        r
    }

    /// Two random summoner spells, taken from two different entries: the
    /// first at a position drawn from all positions, the second at a
    /// position drawn from all the others.
    pub fn randomize_summoners(&self) -> (r: (Arc<RiftRumbleEntity>, Arc<RiftRumbleEntity>))
        requires
            self.summoners@.len() >= 2,
        ensures
            two_distinct_picks(self.summoners@, r),
            exists|first_draw: usize, second_draw: usize|
                first_draw < self.summoners@.len() && second_draw < self.summoners@.len() - 1 && r
                    == (
                    self.summoners@[summoner_positions(self.summoners@.len(), first_draw, second_draw).0],
                    self.summoners@[summoner_positions(self.summoners@.len(), first_draw, second_draw).1],
                ),
    {
        let first_index = get_next_random_num_closed(None, 0, self.summoners.len());
        let second_index = get_next_random_num_closed(Some(first_index), 0, self.summoners.len());
        proof {
            let len = self.summoners@.len() as usize;
            let first_draw = choose|draw: usize|
                0 <= draw < 0 + draw_span(None, 0, len) && first_index == number_from_draw(
                    None,
                    0,
                    len,
                    draw,
                );
            let second_draw = choose|draw: usize|
                0 <= draw < 0 + draw_span(Some(first_index), 0, len) && second_index
                    == number_from_draw(Some(first_index), 0, len, draw);
            assert(first_draw == first_index);
            assert(summoner_positions(len as nat, first_draw, second_draw) == (
                first_index as int,
                second_index as int,
            ));
        }
        self.summoners_at(first_index, second_index)
    }

    /// The summoner spells at positions `first` and `second`.
    pub fn summoners_at(&self, first: usize, second: usize) -> (r: (
        Arc<RiftRumbleEntity>,
        Arc<RiftRumbleEntity>,
    ))
        requires
            first < self.summoners@.len(),
            second < self.summoners@.len(),
        ensures
            r.0 == self.summoners@[first as int],
            r.1 == self.summoners@[second as int],
    {
        (share(&self.summoners[first]), share(&self.summoners[second]))
    }
}

} // verus!
