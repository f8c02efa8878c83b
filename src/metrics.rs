//! Distances to the all-simples and single-suit shapes, and the metric
//! bundles of a hand and of each of its one-tile discards.
use vstd::prelude::*;
use crate::shanten::{calc_all, calc_chitoi, calc_kokushi, calc_normal, chiitoi_shanten,
    combined_shanten, is_orphan, is_terminal_or_honor, kokushi_shanten, lemma_combined_floor,
    normal_shanten, tile_total};
use crate::tables::Tables;

verus! {

/// Every count lies in `0..=4` and there are 34 kinds.
pub open spec fn legal_hand(s: Seq<u8>) -> bool {
    s.len() == 34 && forall|i: int| 0 <= i < 34 ==> #[trigger] s[i] <= 4
}

/// The counts at the positions that `keep` selects, zero elsewhere.
pub open spec fn keep_part(s: Seq<u8>, keep: spec_fn(int) -> bool) -> Seq<u8> {
    Seq::new(s.len(), |i: int| if keep(i) { s[i] } else { 0u8 })
}

/// The counts at the positions that `keep` leaves out, zero elsewhere.
pub open spec fn drop_part(s: Seq<u8>, keep: spec_fn(int) -> bool) -> Seq<u8> {
    Seq::new(s.len(), |i: int| if keep(i) { 0u8 } else { s[i] })
}

pub open spec fn orphan_keep() -> spec_fn(int) -> bool {
    |i: int| is_orphan(i)
}

/// Positions of suit `suit` (0, 1 or 2; any other value selects none).
pub open spec fn in_suit(i: int, suit: int) -> bool {
    ||| suit == 0 && 0 <= i <= 8
    ||| suit == 1 && 9 <= i <= 17
    ||| suit == 2 && 18 <= i <= 26
}

pub open spec fn honitsu_keep(suit: int) -> spec_fn(int) -> bool {
    |i: int| in_suit(i, suit) || 27 <= i <= 33
}

/// Terminal and honor tiles must all go; what remains is measured by the
/// combined shanten of the simples alone, or by a penalty of 8 when none remain.
pub open spec fn tanyao_spec(t: &Tables, s: Seq<u8>) -> int {
    let mid = drop_part(s, orphan_keep());
    let outside = tile_total(keep_part(s, orphan_keep()));
    if tile_total(mid) == 0 {
        outside + 8
    } else {
        outside + combined_shanten(t, mid, tile_total(mid) / 3)
    }
}

/// Tiles of the other two suits must all go; what remains is measured by the
/// combined shanten of the suit and the honors, or by a penalty of 8 when none remain.
pub open spec fn honitsu_spec(t: &Tables, s: Seq<u8>, suit: int) -> int {
    let kept = keep_part(s, honitsu_keep(suit));
    let outside = tile_total(drop_part(s, honitsu_keep(suit)));
    if tile_total(kept) == 0 {
        outside + 8
    } else {
        outside + combined_shanten(t, kept, tile_total(kept) / 3)
    }
}

proof fn lemma_split_total(s: Seq<u8>, keep: spec_fn(int) -> bool)
    ensures
        tile_total(keep_part(s, keep)) + tile_total(drop_part(s, keep)) == tile_total(s),
        tile_total(keep_part(s, keep)) >= 0,
        tile_total(drop_part(s, keep)) >= 0,
    decreases s.len(),
{
    if s.len() > 0 {
        lemma_split_total(s.drop_last(), keep);
        assert(keep_part(s, keep).drop_last() =~= keep_part(s.drop_last(), keep));
        assert(drop_part(s, keep).drop_last() =~= drop_part(s.drop_last(), keep));
    }
}

/// Number of positions below `n` that `keep` selects.
spec fn kept_below(keep: spec_fn(int) -> bool, n: int) -> int
    decreases n,
{
    if n <= 0 {
        0
    } else {
        kept_below(keep, n - 1) + if keep(n - 1) {
            1int
        } else {
            0int
        }
    }
}

proof fn lemma_part_cap(s: Seq<u8>, keep: spec_fn(int) -> bool)
    requires
        forall|i: int| 0 <= i < s.len() ==> #[trigger] s[i] <= 4,
    ensures
        tile_total(keep_part(s, keep)) <= 4 * kept_below(keep, s.len() as int),
    decreases s.len(),
{
    if s.len() > 0 {
        lemma_part_cap(s.drop_last(), keep);
        assert(keep_part(s, keep).drop_last() =~= keep_part(s.drop_last(), keep));
    }
}

proof fn lemma_orphan_tiles_cap(s: Seq<u8>)
    requires
        legal_hand(s),
    ensures
        tile_total(keep_part(s, orphan_keep())) <= 52,
{
    lemma_part_cap(s, orphan_keep());
    reveal_with_fuel(kept_below, 35);
    assert(kept_below(orphan_keep(), 34) == 13);
}

/// Number of positions below `n` that `keep` leaves out.
spec fn dropped_below(keep: spec_fn(int) -> bool, n: int) -> int
    decreases n,
{
    if n <= 0 {
        0
    } else {
        dropped_below(keep, n - 1) + if keep(n - 1) {
            0int
        } else {
            1int
        }
    }
}

proof fn lemma_drop_cap(s: Seq<u8>, keep: spec_fn(int) -> bool)
    requires
        forall|i: int| 0 <= i < s.len() ==> #[trigger] s[i] <= 4,
    ensures
        tile_total(drop_part(s, keep)) <= 4 * dropped_below(keep, s.len() as int),
    decreases s.len(),
{
    if s.len() > 0 {
        lemma_drop_cap(s.drop_last(), keep);
        assert(drop_part(s, keep).drop_last() =~= drop_part(s.drop_last(), keep));
    }
}

/// Honors are always kept, so at most 27 positions lie outside a single-suit restriction.
proof fn lemma_honitsu_dropped(suit: int, n: int)
    requires
        0 <= n <= 34,
    ensures
        dropped_below(honitsu_keep(suit), n) <= if n <= 27 {
            n
        } else {
            27
        },
    decreases n,
{
    if n > 0 {
        lemma_honitsu_dropped(suit, n - 1);
    }
}

proof fn lemma_off_suit_cap(s: Seq<u8>, suit: int)
    requires
        legal_hand(s),
    ensures
        tile_total(drop_part(s, honitsu_keep(suit))) <= 108,
{
    lemma_drop_cap(s, honitsu_keep(suit));
    lemma_honitsu_dropped(suit, 34);
}

/// Total number of tiles of a hand.
fn hand_total(tiles: &[u8; 34]) -> (r: u16)
    ensures
        r == tile_total(tiles@),
{
    let mut total: u16 = 0;
    let mut i: usize = 0;
    while i < 34
        invariant
            i <= 34,
            total == tile_total(tiles@.take(i as int)),
            total <= 255 * i,
        decreases 34 - i,
    {
        proof {
            assert(tiles@.take(i + 1).drop_last() =~= tiles@.take(i as int));
        }
        total = total + tiles[i] as u16;
        i += 1;
    }
    assert(tiles@.take(34) =~= tiles@);
    total
}

pub fn is_man(idx: usize) -> (r: bool)
    ensures
        r == in_suit(idx as int, 0),
{
    idx <= 8
}

pub fn is_pin(idx: usize) -> (r: bool)
    ensures
        r == in_suit(idx as int, 1),
{
    9 <= idx && idx <= 17
}

pub fn is_sou(idx: usize) -> (r: bool)
    ensures
        r == in_suit(idx as int, 2),
{
    18 <= idx && idx <= 26
}

pub fn is_honor(idx: usize) -> (r: bool)
    ensures
        r == (idx >= 27),
{
    idx >= 27
}

/// Whether `idx` belongs to suit `suit` (0, 1 or 2).
pub fn is_main_suit(idx: usize, suit: u8) -> (r: bool)
    ensures
        r == in_suit(idx as int, suit as int),
{
    match suit {
        0 => is_man(idx),
        1 => is_pin(idx),
        2 => is_sou(idx),
        _ => false,
    }
}

/// Distance to an all-simples hand: the terminal and honor tiles, plus the
/// combined shanten of the simples (or 8 when the hand holds no simples).
pub fn tanyao_distance(tables: &Tables, tiles: &[u8; 34]) -> (r: i8)
    requires
        legal_hand(tiles@),
        tile_total(drop_part(tiles@, orphan_keep())) <= 14,
    ensures
        r == tanyao_spec(tables, tiles@),
{
    let ghost keep = orphan_keep();
    let mut mid_only = [0u8; 34];
    let mut t_count: u8 = 0;
    let mut i: usize = 0;
    while i < 34
        invariant
            i <= 34,
            legal_hand(tiles@),
            keep == orphan_keep(),
            forall|k: int|
                0 <= k < 34 ==> #[trigger] mid_only@[k] == (if k < i && !is_orphan(k) {
                    tiles@[k]
                } else {
                    0u8
                }),
            t_count == tile_total(keep_part(tiles@, keep).take(i as int)),
            t_count <= 4 * i,
        decreases 34 - i,
    {
        proof {
            assert(keep_part(tiles@, keep).take(i + 1).drop_last() =~= keep_part(tiles@, keep).take(
                i as int,
            ));
        }
        let c = tiles[i];
        if is_terminal_or_honor(i) {
            t_count = t_count + c;
        } else {
            mid_only[i] = c;
        }
        i += 1;
    }
    proof {
        assert(keep_part(tiles@, keep).take(34) =~= keep_part(tiles@, keep));
        assert(mid_only@ =~= drop_part(tiles@, keep));
        lemma_orphan_tiles_cap(tiles@);
    }
    let count_mid = hand_total(&mid_only);
    if count_mid == 0 {
        return t_count as i8 + 8;
    }
    let len_div3 = (count_mid / 3) as u8;
    let shanten_mid = calc_all(tables, &mid_only, len_div3);
    t_count as i8 + shanten_mid
}

/// Distance to a single-suit hand in suit `suit` (0, 1 or 2): the tiles of
/// the other suits, plus the combined shanten of the suit and the honors (or
/// 8 when the hand holds none of them).
///
/// Where suit or honor tiles remain, the tiles of the other suits are
/// bounded by 68 so that the sum stays within `i8` whatever the table entries
/// (a shanten is at most 59).
pub fn honitsu_distance_for_suit(tables: &Tables, tiles: &[u8; 34], suit: u8) -> (r: i8)
    requires
        legal_hand(tiles@),
        tile_total(keep_part(tiles@, honitsu_keep(suit as int))) <= 14,
        tile_total(keep_part(tiles@, honitsu_keep(suit as int))) > 0 ==> tile_total(
            drop_part(tiles@, honitsu_keep(suit as int)),
        ) <= 68,
    ensures
        r == honitsu_spec(tables, tiles@, suit as int),
{
    let ghost keep = honitsu_keep(suit as int);
    let mut filtered = [0u8; 34];
    let mut off_color: u8 = 0;
    let mut i: usize = 0;
    while i < 34
        invariant
            i <= 34,
            legal_hand(tiles@),
            keep == honitsu_keep(suit as int),
            forall|k: int|
                0 <= k < 34 ==> #[trigger] filtered@[k] == (if k < i && keep(k) {
                    tiles@[k]
                } else {
                    0u8
                }),
            off_color == tile_total(drop_part(tiles@, keep).take(i as int)),
            off_color <= 4 * i,
        decreases 34 - i,
    {
        proof {
            assert(drop_part(tiles@, keep).take(i + 1).drop_last() =~= drop_part(tiles@, keep).take(
                i as int,
            ));
        }
        let c = tiles[i];
        if is_main_suit(i, suit) || is_honor(i) {
            filtered[i] = c;
        } else {
            off_color = off_color + c;
        }
        i += 1;
    }
    proof {
        assert(drop_part(tiles@, keep).take(34) =~= drop_part(tiles@, keep));
        assert(filtered@ =~= keep_part(tiles@, keep));
        lemma_off_suit_cap(tiles@, suit as int);
    }
    let count_f = hand_total(&filtered);
    if count_f == 0 {
        return off_color as i8 + 8;
    }
    let len_div3 = (count_f / 3) as u8;
    let shanten_filtered = calc_all(tables, &filtered, len_div3);
    off_color as i8 + shanten_filtered
}

/// The metric bundle of a hand.
#[derive(Debug, Clone, Copy, PartialEq, Eq)]
pub struct HandMetrics {
    pub normal_shanten: i8,
    pub chiitoi_shanten: i8,
    pub kokushi_shanten: i8,
    pub tanyao_distance: i8,
    /// One distance per suit, in suit order.
    pub honitsu_distance: [i8; 3],
}

/// The metric bundle of the hand left after discarding one tile of `tile_index`.
#[derive(Debug, Clone, Copy, PartialEq, Eq)]
pub struct DiscardMetrics {
    /// Kind discarded, 0..=33.
    pub tile_index: u8,
    pub normal_shanten: i8,
    pub chiitoi_shanten: i8,
    pub kokushi_shanten: i8,
    pub tanyao_distance: i8,
    /// One distance per suit, in suit order.
    pub honitsu_distance: [i8; 3],
}

/// `m` holds the metrics of hand `s`, with its meld target at a third of its tiles.
pub open spec fn hand_metrics_of(m: HandMetrics, t: &Tables, s: Seq<u8>) -> bool {
    &&& m.normal_shanten == normal_shanten(t, s, tile_total(s) / 3)
    &&& m.chiitoi_shanten == chiitoi_shanten(s)
    &&& m.kokushi_shanten == kokushi_shanten(s)
    &&& m.tanyao_distance == tanyao_spec(t, s)
    &&& forall|k: int| 0 <= k < 3 ==> #[trigger] m.honitsu_distance@[k] == honitsu_spec(t, s, k)
}

/// `d` holds the metrics of hand `s`, as `hand_metrics_of` states them.
pub open spec fn discard_metrics_of(d: DiscardMetrics, t: &Tables, s: Seq<u8>) -> bool {
    &&& d.normal_shanten == normal_shanten(t, s, tile_total(s) / 3)
    &&& d.chiitoi_shanten == chiitoi_shanten(s)
    &&& d.kokushi_shanten == kokushi_shanten(s)
    &&& d.tanyao_distance == tanyao_spec(t, s)
    &&& forall|k: int| 0 <= k < 3 ==> #[trigger] d.honitsu_distance@[k] == honitsu_spec(t, s, k)
}

/// The kinds present in `s`, ascending.
pub open spec fn present_kinds(s: Seq<u8>) -> Seq<int>
    decreases s.len(),
{
    if s.len() == 0 {
        Seq::empty()
    } else if s.last() > 0 {
        present_kinds(s.drop_last()).push(s.len() - 1)
    } else {
        present_kinds(s.drop_last())
    }
}

/// Hand `s` with one tile of kind `i` taken out.
pub open spec fn discard_one(s: Seq<u8>, i: int) -> Seq<u8> {
    s.update(i, (s[i] - 1) as u8)
}

proof fn lemma_discard_total(s: Seq<u8>, i: int)
    requires
        0 <= i < s.len(),
        s[i] > 0,
    ensures
        tile_total(discard_one(s, i)) == tile_total(s) - 1,
    decreases s.len(),
{
    if i < s.len() - 1 {
        lemma_discard_total(s.drop_last(), i);
        assert(discard_one(s, i).drop_last() =~= discard_one(s.drop_last(), i));
    } else {
        assert(discard_one(s, i).drop_last() =~= s.drop_last());
    }
}

proof fn lemma_parts_of_small_hand(s: Seq<u8>)
    requires
        legal_hand(s),
        tile_total(s) <= 14,
    ensures
        tile_total(drop_part(s, orphan_keep())) <= 14,
        forall|k: int|
            0 <= k < 3 ==> tile_total(keep_part(s, #[trigger] honitsu_keep(k))) <= 14 && tile_total(
                drop_part(s, honitsu_keep(k)),
            ) <= 14,
{
    lemma_split_total(s, orphan_keep());
    lemma_split_total(s, honitsu_keep(0));
    lemma_split_total(s, honitsu_keep(1));
    lemma_split_total(s, honitsu_keep(2));
}

/// All metrics of a hand of at most fourteen tiles.
pub fn eval_hand(tables: &Tables, tiles: &[u8; 34]) -> (r: HandMetrics)
    requires
        legal_hand(tiles@),
        tile_total(tiles@) <= 14,
    ensures
        hand_metrics_of(r, tables, tiles@),
{
    proof {
        lemma_parts_of_small_hand(tiles@);
    }
    let count = hand_total(tiles);
    let len_div3 = (count / 3) as u8;
    let normal = calc_normal(tables, tiles, len_div3);
    let chiitoi = calc_chitoi(tiles);
    let kokushi = calc_kokushi(tiles);
    let tanyao = tanyao_distance(tables, tiles);
    let honitsu = [
        honitsu_distance_for_suit(tables, tiles, 0),
        honitsu_distance_for_suit(tables, tiles, 1),
        honitsu_distance_for_suit(tables, tiles, 2),
    ];
    HandMetrics {
        normal_shanten: normal,
        chiitoi_shanten: chiitoi,
        kokushi_shanten: kokushi,
        tanyao_distance: tanyao,
        honitsu_distance: honitsu,
    }
}

/// `r` lists, entry by entry, the kinds `kinds` of hand `s` with the metrics
/// of `s` after discarding one tile of that kind.
pub open spec fn discards_listed(r: Seq<DiscardMetrics>, t: &Tables, s: Seq<u8>, kinds: Seq<int>) -> bool {
    &&& r.len() == kinds.len()
    &&& forall|k: int|
        0 <= k < r.len() ==> {
            &&& #[trigger] r[k].tile_index == kinds[k]
            &&& discard_metrics_of(r[k], t, discard_one(s, kinds[k]))
        }
}

proof fn lemma_discards_listed_push(
    r: Seq<DiscardMetrics>,
    t: &Tables,
    s: Seq<u8>,
    kinds: Seq<int>,
    d: DiscardMetrics,
    i: int,
)
    requires
        discards_listed(r, t, s, kinds),
        d.tile_index == i,
        discard_metrics_of(d, t, discard_one(s, i)),
    ensures
        discards_listed(r.push(d), t, s, kinds.push(i)),
{
    let r2 = r.push(d);
    let k2 = kinds.push(i);
    assert forall|k: int| 0 <= k < r2.len() implies {
        &&& #[trigger] r2[k].tile_index == k2[k]
        &&& discard_metrics_of(r2[k], t, discard_one(s, k2[k]))
    } by {
        if k < r.len() {
            assert(r2[k] == r[k]);
            assert(k2[k] == kinds[k]);
        }
    }
}

/// The metrics after each possible one-tile discard, one entry per kind
/// present, by ascending kind.
pub fn eval_discards(tables: &Tables, tiles: &[u8; 34]) -> (r: Vec<DiscardMetrics>)
    requires
        legal_hand(tiles@),
        tile_total(tiles@) <= 15,
    ensures
        discards_listed(r@, tables, tiles@, present_kinds(tiles@)),
{
    let mut result: Vec<DiscardMetrics> = Vec::new();
    let mut i: usize = 0;
    while i < 34
        invariant
            i <= 34,
            legal_hand(tiles@),
            tile_total(tiles@) <= 15,
            discards_listed(result@, tables, tiles@, present_kinds(tiles@.take(i as int))),
        decreases 34 - i,
    {
        let ghost pre = tiles@.take(i as int);
        let ghost nxt = tiles@.take(i + 1);
        proof {
            assert(nxt.drop_last() =~= pre);
            assert(nxt.last() == tiles@[i as int]);
        }
        if tiles[i] > 0 {
            let mut tmp = *tiles;
            tmp[i] = tmp[i] - 1;
            proof {
                assert(tmp@ =~= discard_one(tiles@, i as int));
                lemma_discard_total(tiles@, i as int);
            }
            let h = eval_hand(tables, &tmp);
            let d = DiscardMetrics {
                tile_index: i as u8,
                normal_shanten: h.normal_shanten,
                chiitoi_shanten: h.chiitoi_shanten,
                kokushi_shanten: h.kokushi_shanten,
                tanyao_distance: h.tanyao_distance,
                honitsu_distance: h.honitsu_distance,
            };
            proof {
                lemma_discards_listed_push(result@, tables, tiles@, present_kinds(pre), d, i as int);
                assert(present_kinds(nxt) == present_kinds(pre).push(i as int));
            }
            result.push(d);
        } else {
            assert(present_kinds(nxt) == present_kinds(pre));
        }
        i += 1;
    }
    assert(tiles@.take(34) =~= tiles@);
    result
}

/// Both distances are at least -1, and below zero only when no tile lies
/// outside the restriction and the tiles inside it already form a complete hand.
pub proof fn lemma_distance_floor(t: &Tables, s: Seq<u8>, suit: int)
    requires
        legal_hand(s),
        tile_total(drop_part(s, orphan_keep())) <= 14,
        tile_total(keep_part(s, honitsu_keep(suit))) <= 14,
    ensures
        tanyao_spec(t, s) >= 0 || (tile_total(keep_part(s, orphan_keep())) == 0 && combined_shanten(
            t,
            drop_part(s, orphan_keep()),
            tile_total(drop_part(s, orphan_keep())) / 3,
        ) == -1),
        honitsu_spec(t, s, suit) >= 0 || (tile_total(drop_part(s, honitsu_keep(suit))) == 0
            && combined_shanten(
            t,
            keep_part(s, honitsu_keep(suit)),
            tile_total(keep_part(s, honitsu_keep(suit))) / 3,
        ) == -1),
{
    lemma_split_total(s, orphan_keep());
    lemma_split_total(s, honitsu_keep(suit));
    let mid = drop_part(s, orphan_keep());
    let kept = keep_part(s, honitsu_keep(suit));
    lemma_combined_floor(t, mid, tile_total(mid) / 3);
    lemma_combined_floor(t, kept, tile_total(kept) / 3);
}

/// `present_kinds` lists, in strictly ascending order, exactly the kinds held.
pub proof fn lemma_present_kinds(s: Seq<u8>)
    ensures
        forall|a: int, b: int|
            0 <= a < b < present_kinds(s).len() ==> present_kinds(s)[a] < present_kinds(s)[b],
        forall|k: int|
            0 <= k < present_kinds(s).len() ==> 0 <= #[trigger] present_kinds(s)[k] < s.len() && s[present_kinds(s)[k]] > 0,
        forall|i: int| 0 <= i < s.len() && s[i] > 0 ==> #[trigger] present_kinds(s).contains(i),
    decreases s.len(),
{
    if s.len() > 0 {
        let p = s.drop_last();
        lemma_present_kinds(p);
        assert forall|i: int| 0 <= i < s.len() && s[i] > 0 implies #[trigger] present_kinds(s).contains(i) by {
            if i < s.len() - 1 {
                assert(p[i] == s[i]);
                assert(present_kinds(p).contains(i));
                let k = choose|k: int| 0 <= k < present_kinds(p).len() && present_kinds(p)[k] == i;
                if s.last() > 0 {
                    assert(present_kinds(s) == present_kinds(p).push(s.len() - 1));
                    assert(present_kinds(s)[k] == i);
                } else {
                    assert(present_kinds(s) == present_kinds(p));
                }
            } else {
                assert(present_kinds(s).last() == i);
            }
        }
    }
}

/// Each entry of `eval_discards` carries the same metrics that `eval_hand`
/// gives the hand with that kind's count lowered by one.
pub proof fn lemma_discard_entry_is_hand_metrics(
    t: &Tables,
    s: Seq<u8>,
    d: DiscardMetrics,
    h: HandMetrics,
    i: int,
)
    requires
        discard_metrics_of(d, t, discard_one(s, i)),
        hand_metrics_of(h, t, discard_one(s, i)),
    ensures
        d.normal_shanten == h.normal_shanten,
        d.chiitoi_shanten == h.chiitoi_shanten,
        d.kokushi_shanten == h.kokushi_shanten,
        d.tanyao_distance == h.tanyao_distance,
        d.honitsu_distance@ == h.honitsu_distance@,
{
    assert(d.honitsu_distance@ =~= h.honitsu_distance@);
}

} // verus!
