//! Standard, seven-pairs and thirteen-orphans shanten, and their minimum.
use vstd::prelude::*;
use crate::tables::{entry_or_zero, Tables, JIHAI_TABLE_SIZE, SUHAI_TABLE_SIZE};
use vstd::arithmetic::div_mod::lemma_fundamental_div_mod_converse;

verus! {

/// Base-5 number whose digits, most significant first, are the counts of `s`.
pub open spec fn group_index(s: Seq<u8>) -> int
    decreases s.len(),
{
    if s.len() == 0 {
        0
    } else {
        group_index(s.drop_last()) * 5 + s.last()
    }
}

/// Largest `group_index` of `n` counts of at most 255.
spec fn index_cap(n: nat) -> int
    decreases n,
{
    if n == 0 {
        0
    } else {
        index_cap((n - 1) as nat) * 5 + 255
    }
}

proof fn lemma_index_cap_mono(i: nat, j: nat)
    requires
        i <= j,
    ensures
        0 <= index_cap(i) <= index_cap(j),
    decreases j,
{
    if i < j {
        lemma_index_cap_mono(i, (j - 1) as nat);
    } else if j > 0 {
        lemma_index_cap_mono((j - 1) as nat, (j - 1) as nat);
    }
}

/// A table entry read as integers.
pub open spec fn widen(e: Seq<u8>) -> Seq<int> {
    Seq::new(10, |s: int| e[s] as int)
}

pub open spec fn min2(a: int, b: int) -> int {
    if a <= b {
        a
    } else {
        b
    }
}

/// Best cost of `j` melds without the pair, where the accumulator takes
/// `k'` of them for some `k'` in `0..=k` and the new group the rest.
pub open spec fn plain_min(acc: Seq<int>, tab: Seq<int>, j: int, k: int) -> int
    decreases k,
{
    if k <= 0 {
        acc[0] + tab[j]
    } else {
        min2(plain_min(acc, tab, j, k - 1), acc[k] + tab[j - k])
    }
}

/// Best cost of `p` melds and the pair, where one side holds `q'` melds and
/// the pair, the other side the remaining `p - q'` melds, for `q'` in `0..=q`.
pub open spec fn pair_min(acc: Seq<int>, tab: Seq<int>, p: int, q: int) -> int
    decreases q,
{
    let here = min2(acc[5 + q] + tab[p - q], acc[p - q] + tab[5 + q]);
    if q <= 0 {
        here
    } else {
        min2(pair_min(acc, tab, p, q - 1), here)
    }
}

/// Merges a suit group's entry into the accumulator for a budget of `m` melds:
/// slots `0..=m` and `5..=5+m` take the best split, the others stay.
pub open spec fn merge_suit(acc: Seq<int>, tab: Seq<int>, m: int) -> Seq<int> {
    Seq::new(
        10,
        |s: int|
            if s <= m {
                plain_min(acc, tab, s, s)
            } else if 5 <= s <= 5 + m {
                pair_min(acc, tab, s - 5, s - 5)
            } else {
                acc[s]
            },
    )
}

/// Merges the honor group's entry: only the slot of `m` melds and the pair changes.
pub open spec fn merge_honor(acc: Seq<int>, tab: Seq<int>, m: int) -> Seq<int> {
    acc.update(5 + m, pair_min(acc, tab, m, m))
}

/// Entry of suit group `g` (0, 1 or 2) of a 34-count hand.
pub open spec fn suit_group(t: &Tables, tiles: Seq<u8>, g: int) -> Seq<int> {
    widen(entry_or_zero(t.suit_table(), group_index(tiles.subrange(9 * g, 9 * g + 9))))
}

/// Entry of the honor group of a 34-count hand.
pub open spec fn honor_group(t: &Tables, tiles: Seq<u8>) -> Seq<int> {
    widen(entry_or_zero(t.honor_table(), group_index(tiles.subrange(27, 34))))
}

/// The four groups merged in order: three suits, then honors.
pub open spec fn merged_hand(t: &Tables, tiles: Seq<u8>, m: int) -> Seq<int> {
    let a1 = merge_suit(suit_group(t, tiles, 0), suit_group(t, tiles, 1), m);
    let a2 = merge_suit(a1, suit_group(t, tiles, 2), m);
    merge_honor(a2, honor_group(t, tiles), m)
}

/// Standard shanten: the merged cost of `m` melds and a pair, less one.
pub open spec fn normal_shanten(t: &Tables, tiles: Seq<u8>, m: int) -> int {
    merged_hand(t, tiles, m)[5 + m] - 1
}

pub open spec fn all_at_most(e: Seq<u8>, cap: int) -> bool {
    forall|s: int| 0 <= s < 10 ==> #[trigger] e[s] <= cap
}

/// Base-5 index of the `len` counts of `tiles` from `start` on.
fn sum_tiles(tiles: &[u8; 34], start: usize, len: usize) -> (r: usize)
    requires
        len <= 9,
        start + len <= 34,
    ensures
        r == group_index(tiles@.subrange(start as int, start + len)),
{
    let mut acc: usize = 0;
    let mut i: usize = 0;
    while i < len
        invariant
            i <= len <= 9,
            start + len <= 34,
            acc == group_index(tiles@.subrange(start as int, start + i)),
            acc <= index_cap(i as nat),
        decreases len - i,
    {
        proof {
            lemma_index_cap_mono((i + 1) as nat, 9);
            reveal_with_fuel(index_cap, 10);
            assert(index_cap(9) == 124511655);
            let next = tiles@.subrange(start as int, start + i + 1);
            assert(next.drop_last() =~= tiles@.subrange(start as int, start + i));
        }
        acc = acc * 5 + tiles[start + i] as usize;
        i += 1;
    }
    acc
}

/// Merges the suit entry at `index` into `lhs` for a budget of `m` melds.
fn add_suhai(tables: &Tables, lhs: &mut [u8; 10], index: usize, m: usize, Ghost(cap): Ghost<int>)
    requires
        m <= 4,
        0 <= cap <= 240,
        all_at_most(old(lhs)@, cap),
    ensures
        widen(final(lhs)@) == merge_suit(
            widen(old(lhs)@),
            widen(entry_or_zero(tables.suit_table(), index as int)),
            m as int,
        ),
        all_at_most(final(lhs)@, cap + 15),
{
    let tab = tables.suit_entry(index);
    let acc = *lhs;
    let ghost a = widen(acc@);
    let ghost t = widen(tab@);
    let mut out = acc;
    let mut j: usize = 0;
    while j <= m
        invariant
            m <= 4,
            j <= m + 1,
            0 <= cap <= 240,
            all_at_most(acc@, cap),
            forall|s: int| 0 <= s < 10 ==> #[trigger] tab@[s] < 16,
            a == widen(acc@),
            t == widen(tab@),
            forall|s: int|
                0 <= s < 10 ==> #[trigger] out@[s] as int == (if s < j {
                    plain_min(a, t, s, s)
                } else if 5 <= s < 5 + j {
                    pair_min(a, t, s - 5, s - 5)
                } else {
                    a[s]
                }),
            all_at_most(out@, cap + 15),
        decreases m + 1 - j,
    {
        let mut best: u8 = acc[0] + tab[j];
        let mut k: usize = 1;
        while k <= j
            invariant
                1 <= k <= j + 1,
                j <= 4,
                all_at_most(acc@, cap),
                0 <= cap <= 240,
                forall|s: int| 0 <= s < 10 ==> #[trigger] tab@[s] < 16,
                a == widen(acc@),
                t == widen(tab@),
                best as int == plain_min(a, t, j as int, k - 1),
                best <= cap + 15,
            decreases j + 1 - k,
        {
            let c = acc[k] + tab[j - k];
            if c < best {
                best = c;
            }
            k += 1;
        }
        let mut best_pair: u8 = acc[5] + tab[j];
        let other: u8 = acc[j] + tab[5];
        if other < best_pair {
            best_pair = other;
        }
        let mut q: usize = 1;
        while q <= j
            invariant
                1 <= q <= j + 1,
                j <= 4,
                all_at_most(acc@, cap),
                0 <= cap <= 240,
                forall|s: int| 0 <= s < 10 ==> #[trigger] tab@[s] < 16,
                a == widen(acc@),
                t == widen(tab@),
                best_pair as int == pair_min(a, t, j as int, q - 1),
                best_pair <= cap + 15,
            decreases j + 1 - q,
        {
            let c1 = acc[5 + q] + tab[j - q];
            let c2 = acc[j - q] + tab[5 + q];
            if c1 < best_pair {
                best_pair = c1;
            }
            if c2 < best_pair {
                best_pair = c2;
            }
            q += 1;
        }
        out[j] = best;
        out[5 + j] = best_pair;
        j += 1;
    }
    *lhs = out;
    assert(widen(out@) =~= merge_suit(a, t, m as int));
}

/// Merges the honor entry at `index` into `lhs`: only slot `5 + m` changes.
fn add_jihai(tables: &Tables, lhs: &mut [u8; 10], index: usize, m: usize, Ghost(cap): Ghost<int>)
    requires
        m <= 4,
        0 <= cap <= 240,
        all_at_most(old(lhs)@, cap),
    ensures
        widen(final(lhs)@) == merge_honor(
            widen(old(lhs)@),
            widen(entry_or_zero(tables.honor_table(), index as int)),
            m as int,
        ),
        all_at_most(final(lhs)@, cap + 15),
        tables.honor_table().len() == JIHAI_TABLE_SIZE,
{
    let tab = tables.honor_entry(index);
    let ghost a = widen(lhs@);
    let ghost t = widen(tab@);
    let j = m + 5;
    let mut sht: u8 = lhs[5] + tab[m];
    let other: u8 = lhs[m] + tab[5];
    if other < sht {
        sht = other;
    }
    let mut q: usize = 1;
    while q <= m
        invariant
            1 <= q <= m + 1,
            m <= 4,
            all_at_most(lhs@, cap),
            0 <= cap <= 240,
            forall|s: int| 0 <= s < 10 ==> #[trigger] tab@[s] < 16,
            a == widen(lhs@),
            t == widen(tab@),
            sht as int == pair_min(a, t, m as int, q - 1),
            sht <= cap + 15,
        decreases m + 1 - q,
    {
        let c1 = lhs[5 + q] + tab[m - q];
        let c2 = lhs[m - q] + tab[5 + q];
        if c1 < sht {
            sht = c1;
        }
        if c2 < sht {
            sht = c2;
        }
        q += 1;
    }
    lhs[j] = sht;
    assert(widen(lhs@) =~= merge_honor(a, t, m as int));
}

/// Standard shanten of a hand of `len_div3` melds and a pair; -1 is complete.
pub fn calc_normal(tables: &Tables, tiles: &[u8; 34], len_div3: u8) -> (r: i8)
    requires
        len_div3 <= 4,
    ensures
        r == normal_shanten(tables, tiles@, len_div3 as int),
        -1 <= r <= 59,
        tables.suit_table().len() == SUHAI_TABLE_SIZE,
        tables.honor_table().len() == JIHAI_TABLE_SIZE,
{
    let m = len_div3 as usize;
    let mut ret = tables.suit_entry(sum_tiles(tiles, 0, 9));
    add_suhai(tables, &mut ret, sum_tiles(tiles, 9, 9), m, Ghost(15));
    add_suhai(tables, &mut ret, sum_tiles(tiles, 18, 9), m, Ghost(30));
    add_jihai(tables, &mut ret, sum_tiles(tiles, 27, 7), m, Ghost(45));
    (ret[5 + m] as i8) - 1
}

/// Number of kinds present (count above zero).
pub open spec fn kinds_present(s: Seq<u8>) -> int
    decreases s.len(),
{
    if s.len() == 0 {
        0
    } else {
        kinds_present(s.drop_last()) + if s.last() > 0 {
            1int
        } else {
            0int
        }
    }
}

/// Number of kinds held at least twice.
pub open spec fn pair_kinds(s: Seq<u8>) -> int
    decreases s.len(),
{
    if s.len() == 0 {
        0
    } else {
        pair_kinds(s.drop_last()) + if s.last() >= 2 {
            1int
        } else {
            0int
        }
    }
}

/// Total number of tiles.
pub open spec fn tile_total(s: Seq<u8>) -> int
    decreases s.len(),
{
    if s.len() == 0 {
        0
    } else {
        tile_total(s.drop_last()) + s.last()
    }
}

/// A kind held twice takes two tiles, and a pair kind is also a kind present.
proof fn lemma_pairs_fit(s: Seq<u8>)
    ensures
        2 * pair_kinds(s) <= tile_total(s),
        pair_kinds(s) <= kinds_present(s),
    decreases s.len(),
{
    if s.len() > 0 {
        lemma_pairs_fit(s.drop_last());
    }
}

/// On at most fourteen tiles seven-pairs shanten is never below -1.
proof fn lemma_chiitoi_floor(s: Seq<u8>)
    requires
        tile_total(s) <= 14,
    ensures
        chiitoi_shanten(s) >= -1,
{
    lemma_pairs_fit(s);
}

/// Seven-pairs shanten: six less the pairs, plus the kinds missing to reach seven.
pub open spec fn chiitoi_shanten(tiles: Seq<u8>) -> int {
    6 - pair_kinds(tiles) + if kinds_present(tiles) < 7 {
        7 - kinds_present(tiles)
    } else {
        0
    }
}

/// The thirteen terminal and honor kinds: 1 and 9 of each suit, and every honor.
pub open spec fn is_orphan(i: int) -> bool {
    i == 0 || i == 8 || i == 9 || i == 17 || i == 18 || i == 26 || 27 <= i <= 33
}

/// Number of terminal or honor kinds present.
pub open spec fn orphan_kinds(s: Seq<u8>) -> int
    decreases s.len(),
{
    if s.len() == 0 {
        0
    } else {
        orphan_kinds(s.drop_last()) + if is_orphan(s.len() - 1) && s.last() > 0 {
            1int
        } else {
            0int
        }
    }
}

/// Number of terminal or honor kinds held at least twice.
pub open spec fn orphan_pairs(s: Seq<u8>) -> int
    decreases s.len(),
{
    if s.len() == 0 {
        0
    } else {
        orphan_pairs(s.drop_last()) + if is_orphan(s.len() - 1) && s.last() >= 2 {
            1int
        } else {
            0int
        }
    }
}

/// Number of terminal or honor positions below `n`.
spec fn orphans_below(n: int) -> int
    decreases n,
{
    if n <= 0 {
        0
    } else {
        orphans_below(n - 1) + if is_orphan(n - 1) {
            1int
        } else {
            0int
        }
    }
}

proof fn lemma_orphan_kinds_bound(s: Seq<u8>)
    ensures
        orphan_kinds(s) <= orphans_below(s.len() as int),
    decreases s.len(),
{
    if s.len() > 0 {
        lemma_orphan_kinds_bound(s.drop_last());
    }
}

/// A hand holds at most thirteen terminal or honor kinds, so thirteen-orphans
/// shanten is never below -1.
proof fn lemma_kokushi_floor(tiles: Seq<u8>)
    requires
        tiles.len() == 34,
    ensures
        kokushi_shanten(tiles) >= -1,
{
    lemma_orphan_kinds_bound(tiles);
    reveal_with_fuel(orphans_below, 35);
    assert(orphans_below(34) == 13);
}

/// Thirteen-orphans shanten: thirteen less the terminal/honor kinds present,
/// less one more when one of them is doubled.
pub open spec fn kokushi_shanten(tiles: Seq<u8>) -> int {
    13 - orphan_kinds(tiles) - if orphan_pairs(tiles) > 0 {
        1int
    } else {
        0int
    }
}

/// The least of the applicable shanten: seven pairs and thirteen orphans count
/// only for a full hand that is not already complete, and thirteen orphans only
/// while the minimum so far is not negative.
pub open spec fn combined_shanten(t: &Tables, tiles: Seq<u8>, m: int) -> int {
    let n = normal_shanten(t, tiles, m);
    if n < 0 || m < 4 {
        n
    } else {
        let c = min2(n, chiitoi_shanten(tiles));
        if c >= 0 {
            min2(c, kokushi_shanten(tiles))
        } else {
            c
        }
    }
}

pub fn is_terminal_or_honor(idx: usize) -> (r: bool)
    ensures
        r == is_orphan(idx as int),
{
    idx == 0 || idx == 8 || idx == 9 || idx == 17 || idx == 18 || idx == 26 || (27 <= idx
        && idx <= 33)
}

/// Seven-pairs shanten of a hand.
pub fn calc_chitoi(tiles: &[u8; 34]) -> (r: i8)
    ensures
        r == chiitoi_shanten(tiles@),
{
    let mut pairs: u8 = 0;
    let mut kinds: u8 = 0;
    let mut i: usize = 0;
    while i < 34
        invariant
            i <= 34,
            kinds as int == kinds_present(tiles@.take(i as int)),
            pairs as int == pair_kinds(tiles@.take(i as int)),
            pairs <= kinds <= i,
        decreases 34 - i,
    {
        proof {
            assert(tiles@.take(i + 1).drop_last() =~= tiles@.take(i as int));
        }
        let c = tiles[i];
        if c > 0 {
            kinds += 1;
            if c >= 2 {
                pairs += 1;
            }
        }
        i += 1;
    }
    assert(tiles@.take(34) =~= tiles@);
    let redunct: u8 = if kinds < 7 {
        7 - kinds
    } else {
        0
    };
    6 - pairs as i8 + redunct as i8
}

/// Thirteen-orphans shanten of a hand.
pub fn calc_kokushi(tiles: &[u8; 34]) -> (r: i8)
    ensures
        r == kokushi_shanten(tiles@),
{
    let mut pairs: u8 = 0;
    let mut kinds: u8 = 0;
    let mut i: usize = 0;
    while i < 34
        invariant
            i <= 34,
            kinds as int == orphan_kinds(tiles@.take(i as int)),
            pairs as int == orphan_pairs(tiles@.take(i as int)),
            pairs <= kinds <= i,
        decreases 34 - i,
    {
        proof {
            assert(tiles@.take(i + 1).drop_last() =~= tiles@.take(i as int));
        }
        let c = tiles[i];
        if is_terminal_or_honor(i) && c > 0 {
            kinds += 1;
            if c >= 2 {
                pairs += 1;
            }
        }
        i += 1;
    }
    assert(tiles@.take(34) =~= tiles@);
    let redunct: i8 = if pairs > 0 {
        1
    } else {
        0
    };
    13 - kinds as i8 - redunct
}

/// Combined shanten: the standard one, lowered by seven pairs and thirteen
/// orphans where they apply.
pub fn calc_all(tables: &Tables, tiles: &[u8; 34], len_div3: u8) -> (r: i8)
    requires
        len_div3 <= 4,
    ensures
        r == combined_shanten(tables, tiles@, len_div3 as int),
        r <= normal_shanten(tables, tiles@, len_div3 as int),
        r <= 59,
        tile_total(tiles@) <= 14 ==> r >= -1,
{
    proof {
        if tile_total(tiles@) <= 14 {
            lemma_chiitoi_floor(tiles@);
        }
        lemma_kokushi_floor(tiles@);
    }
    let shanten = calc_normal(tables, tiles, len_div3);
    if shanten < 0 || len_div3 < 4 {
        return shanten;
    }
    let chitoi = calc_chitoi(tiles);
    let c = if chitoi < shanten {
        chitoi
    } else {
        shanten
    };
    if c >= 0 {
        let kokushi = calc_kokushi(tiles);
        if kokushi < c {
            kokushi
        } else {
            c
        }
    } else {
        c
    }
}

proof fn lemma_min_nonneg(acc: Seq<int>, tab: Seq<int>, j: int, k: int, q: int)
    requires
        acc.len() == 10,
        tab.len() == 10,
        forall|s: int| 0 <= s < 10 ==> #[trigger] acc[s] >= 0,
        forall|s: int| 0 <= s < 10 ==> #[trigger] tab[s] >= 0,
        0 <= k <= j <= 4,
        0 <= q <= j,
    ensures
        plain_min(acc, tab, j, k) >= 0,
        pair_min(acc, tab, j, q) >= 0,
    decreases k + q,
{
    if k > 0 {
        lemma_min_nonneg(acc, tab, j, k - 1, q);
    }
    if q > 0 {
        lemma_min_nonneg(acc, tab, j, k, q - 1);
    }
}

proof fn lemma_merge_nonneg(acc: Seq<int>, tab: Seq<int>, m: int)
    requires
        acc.len() == 10,
        tab.len() == 10,
        forall|s: int| 0 <= s < 10 ==> #[trigger] acc[s] >= 0,
        forall|s: int| 0 <= s < 10 ==> #[trigger] tab[s] >= 0,
        0 <= m <= 4,
    ensures
        merge_suit(acc, tab, m).len() == 10,
        forall|s: int| 0 <= s < 10 ==> #[trigger] merge_suit(acc, tab, m)[s] >= 0,
        forall|s: int| 0 <= s < 10 ==> #[trigger] merge_honor(acc, tab, m)[s] >= 0,
{
    assert forall|s: int| 0 <= s < 10 implies #[trigger] merge_suit(acc, tab, m)[s] >= 0 by {
        if s <= m {
            lemma_min_nonneg(acc, tab, s, s, 0);
        } else if 5 <= s <= 5 + m {
            lemma_min_nonneg(acc, tab, s - 5, 0, s - 5);
        }
    }
    lemma_min_nonneg(acc, tab, m, 0, m);
}

/// Standard shanten is never below -1, for every hand and meld target in `0..=4`.
pub proof fn lemma_normal_floor(t: &Tables, tiles: Seq<u8>, m: int)
    requires
        0 <= m <= 4,
    ensures
        normal_shanten(t, tiles, m) >= -1,
{
    let g0 = suit_group(t, tiles, 0);
    let g1 = suit_group(t, tiles, 1);
    let g2 = suit_group(t, tiles, 2);
    let h = honor_group(t, tiles);
    let a1 = merge_suit(g0, g1, m);
    lemma_merge_nonneg(g0, g1, m);
    lemma_merge_nonneg(a1, g2, m);
    lemma_merge_nonneg(merge_suit(a1, g2, m), h, m);
}

/// The combined shanten never exceeds the standard shanten.
pub proof fn lemma_combined_not_above_standard(t: &Tables, tiles: Seq<u8>, m: int)
    ensures
        combined_shanten(t, tiles, m) <= normal_shanten(t, tiles, m),
{
}

/// On a hand of at most fourteen tiles the combined shanten is never below -1.
pub proof fn lemma_combined_floor(t: &Tables, tiles: Seq<u8>, m: int)
    requires
        tiles.len() == 34,
        tile_total(tiles) <= 14,
        0 <= m <= 4,
    ensures
        combined_shanten(t, tiles, m) >= -1,
{
    lemma_normal_floor(t, tiles, m);
    lemma_chiitoi_floor(tiles);
    lemma_kokushi_floor(tiles);
}

proof fn lemma_base5_digit(x: int, p: int, y: int, q: int)
    requires
        0 <= p < 5,
        0 <= q < 5,
        x * 5 + p == y * 5 + q,
    ensures
        p == q,
        x == y,
{
    assert(p == q && x == y) by (nonlinear_arith)
        requires
            0 <= p < 5,
            0 <= q < 5,
            x * 5 + p == y * 5 + q,
    ;
}

/// Base-5 encoding of a group's counts is one-to-one on counts in `0..=4`:
/// two groups share a table entry only when their counts are identical.
pub proof fn lemma_group_index_injective(a: Seq<u8>, b: Seq<u8>)
    requires
        a.len() == b.len(),
        forall|i: int| 0 <= i < a.len() ==> #[trigger] a[i] <= 4,
        forall|i: int| 0 <= i < b.len() ==> #[trigger] b[i] <= 4,
        group_index(a) == group_index(b),
    ensures
        a == b,
    decreases a.len(),
{
    if a.len() > 0 {
        lemma_base5_digit(group_index(a.drop_last()), a.last() as int, group_index(b.drop_last()), b.last() as int);
        lemma_group_index_injective(a.drop_last(), b.drop_last());
        assert(a =~= b.drop_last().push(b.last()));
        assert(b =~= b.drop_last().push(b.last()));
    }
}

proof fn lemma_plain_min_le(acc: Seq<int>, tab: Seq<int>, j: int, k: int, k2: int)
    requires
        0 <= k2 <= k <= j,
    ensures
        plain_min(acc, tab, j, k) <= acc[k2] + tab[j - k2],
    decreases k,
{
    if k > k2 {
        lemma_plain_min_le(acc, tab, j, k - 1, k2);
    }
}

proof fn lemma_pair_min_le(acc: Seq<int>, tab: Seq<int>, p: int, q: int, q2: int)
    requires
        0 <= q2 <= q <= p,
    ensures
        pair_min(acc, tab, p, q) <= acc[5 + q2] + tab[p - q2],
        pair_min(acc, tab, p, q) <= acc[p - q2] + tab[5 + q2],
    decreases q,
{
    if q > q2 {
        lemma_pair_min_le(acc, tab, p, q - 1, q2);
    }
}

/// Slot of a group's entry that holds `n` melds, and the pair when `holds_pair`.
pub open spec fn slot(n: int, holds_pair: bool) -> int {
    if holds_pair {
        5 + n
    } else {
        n
    }
}

/// Cost of one way to build the hand: `m0`, `m1`, `m2` melds in the three
/// suits, `m3` in the honors, and the pair in group `g` (3 for honors).
pub open spec fn split_cost(
    t: &Tables,
    tiles: Seq<u8>,
    m0: int,
    m1: int,
    m2: int,
    m3: int,
    g: int,
) -> int {
    suit_group(t, tiles, 0)[slot(m0, g == 0)] + suit_group(t, tiles, 1)[slot(m1, g == 1)]
        + suit_group(t, tiles, 2)[slot(m2, g == 2)] + honor_group(t, tiles)[slot(m3, g == 3)]
}

/// No way of placing `m` melds and the pair across the four groups costs less
/// than the merged result: standard shanten plus one is at most its cost.
pub proof fn lemma_normal_at_most_any_split(
    t: &Tables,
    tiles: Seq<u8>,
    m: int,
    m0: int,
    m1: int,
    m2: int,
    m3: int,
    g: int,
)
    requires
        0 <= m <= 4,
        0 <= m0,
        0 <= m1,
        0 <= m2,
        0 <= m3,
        m0 + m1 + m2 + m3 == m,
        0 <= g <= 3,
    ensures
        normal_shanten(t, tiles, m) + 1 <= split_cost(t, tiles, m0, m1, m2, m3, g),
{
    let g0 = suit_group(t, tiles, 0);
    let g1 = suit_group(t, tiles, 1);
    let g2 = suit_group(t, tiles, 2);
    let h = honor_group(t, tiles);
    let a1 = merge_suit(g0, g1, m);
    let a2 = merge_suit(a1, g2, m);
    let j1 = m0 + m1;
    let j2 = m0 + m1 + m2;
    assert(normal_shanten(t, tiles, m) + 1 == pair_min(a2, h, m, m));
    if g == 3 {
        lemma_pair_min_le(a2, h, m, m, m3);
        lemma_plain_min_le(a1, g2, j2, j2, j1);
        lemma_plain_min_le(g0, g1, j1, j1, m0);
    } else {
        lemma_pair_min_le(a2, h, m, m, m - m3);
        assert(a2[5 + j2] == pair_min(a1, g2, j2, j2));
        if g == 2 {
            lemma_pair_min_le(a1, g2, j2, j2, m2);
            lemma_plain_min_le(g0, g1, j1, j1, m0);
        } else {
            lemma_pair_min_le(a1, g2, j2, j2, j1);
            assert(a1[5 + j1] == pair_min(g0, g1, j1, j1));
            if g == 1 {
                lemma_pair_min_le(g0, g1, j1, j1, m1);
            } else {
                lemma_pair_min_le(g0, g1, j1, j1, m0);
            }
        }
    }
}

proof fn plain_witness(acc: Seq<int>, tab: Seq<int>, j: int, k: int) -> (w: int)
    requires
        0 <= k,
    ensures
        0 <= w <= k,
        plain_min(acc, tab, j, k) == acc[w] + tab[j - w],
    decreases k,
{
    if k <= 0 {
        0
    } else {
        let w = plain_witness(acc, tab, j, k - 1);
        if plain_min(acc, tab, j, k - 1) <= acc[k] + tab[j - k] {
            w
        } else {
            k
        }
    }
}

proof fn pair_witness(acc: Seq<int>, tab: Seq<int>, p: int, q: int) -> (r: (int, bool))
    requires
        0 <= q,
    ensures
        0 <= r.0 <= q,
        pair_min(acc, tab, p, q) == if r.1 {
            acc[5 + r.0] + tab[p - r.0]
        } else {
            acc[p - r.0] + tab[5 + r.0]
        },
    decreases q,
{
    let here = if acc[5 + q] + tab[p - q] <= acc[p - q] + tab[5 + q] {
        (q, true)
    } else {
        (q, false)
    };
    if q <= 0 {
        here
    } else {
        let w = pair_witness(acc, tab, p, q - 1);
        if pair_min(acc, tab, p, q - 1) <= min2(acc[5 + q] + tab[p - q], acc[p - q] + tab[5 + q]) {
            w
        } else {
            here
        }
    }
}

/// The merged result is the cost of one actual way of placing `m` melds and
/// the pair across the four groups; with `lemma_normal_at_most_any_split`,
/// standard shanten plus one is the least cost over all such ways.
pub proof fn lemma_normal_attained_by_split(t: &Tables, tiles: Seq<u8>, m: int)
    requires
        0 <= m <= 4,
    ensures
        exists|m0: int, m1: int, m2: int, m3: int, g: int|
            0 <= m0 && 0 <= m1 && 0 <= m2 && 0 <= m3 && m0 + m1 + m2 + m3 == m && 0 <= g <= 3
                && normal_shanten(t, tiles, m) + 1 == #[trigger] split_cost(t, tiles, m0, m1, m2, m3, g),
{
    let g0 = suit_group(t, tiles, 0);
    let g1 = suit_group(t, tiles, 1);
    let g2 = suit_group(t, tiles, 2);
    let h = honor_group(t, tiles);
    let a1 = merge_suit(g0, g1, m);
    let a2 = merge_suit(a1, g2, m);
    assert(normal_shanten(t, tiles, m) + 1 == pair_min(a2, h, m, m));
    let (q, acc_pair) = pair_witness(a2, h, m, m);
    if acc_pair {
        assert(a2[5 + q] == pair_min(a1, g2, q, q));
        let (q1, acc_pair1) = pair_witness(a1, g2, q, q);
        if acc_pair1 {
            assert(a1[5 + q1] == pair_min(g0, g1, q1, q1));
            let (q0, acc_pair0) = pair_witness(g0, g1, q1, q1);
            if acc_pair0 {
                assert(split_cost(t, tiles, q0, q1 - q0, q - q1, m - q, 0) == normal_shanten(t, tiles, m) + 1);
            } else {
                assert(split_cost(t, tiles, q1 - q0, q0, q - q1, m - q, 1) == normal_shanten(t, tiles, m) + 1);
            }
        } else {
            assert(a1[q - q1] == plain_min(g0, g1, q - q1, q - q1));
            let k = plain_witness(g0, g1, q - q1, q - q1);
            assert(split_cost(t, tiles, k, q - q1 - k, q1, m - q, 2) == normal_shanten(t, tiles, m) + 1);
        }
    } else {
        assert(a2[m - q] == plain_min(a1, g2, m - q, m - q));
        let k = plain_witness(a1, g2, m - q, m - q);
        assert(a1[k] == plain_min(g0, g1, k, k));
        let k0 = plain_witness(g0, g1, k, k);
        assert(split_cost(t, tiles, k0, k - k0, m - q - k, q, 3) == normal_shanten(t, tiles, m) + 1);
    }
}

/// The `n` base-5 digits of `x`, most significant first.
pub open spec fn base5_digits(x: int, n: nat) -> Seq<u8>
    decreases n,
{
    if n == 0 {
        Seq::empty()
    } else {
        base5_digits(x / 5, (n - 1) as nat).push((x % 5) as u8)
    }
}

/// Round trip: decoding a group's base-5 index recovers its counts, for
/// counts in `0..=4`; so each group reads its own table entry.
pub proof fn lemma_group_index_round_trip(a: Seq<u8>)
    requires
        forall|i: int| 0 <= i < a.len() ==> #[trigger] a[i] <= 4,
    ensures
        base5_digits(group_index(a), a.len()) == a,
    decreases a.len(),
{
    if a.len() > 0 {
        let p = a.drop_last();
        assert forall|i: int| 0 <= i < p.len() implies #[trigger] p[i] <= 4 by {
            assert(p[i] == a[i]);
        }
        lemma_group_index_round_trip(p);
        lemma_fundamental_div_mod_converse(group_index(a), 5, group_index(p), a.last() as int);
        assert(a =~= p.push(a.last()));
    }
}

proof fn lemma_orphan_kinds_full(s: Seq<u8>)
    requires
        forall|i: int| 0 <= i < s.len() && is_orphan(i) ==> #[trigger] s[i] > 0,
    ensures
        orphan_kinds(s) == orphans_below(s.len() as int),
    decreases s.len(),
{
    if s.len() > 0 {
        let p = s.drop_last();
        assert forall|i: int| 0 <= i < p.len() && is_orphan(i) implies #[trigger] p[i] > 0 by {
            assert(p[i] == s[i]);
        }
        lemma_orphan_kinds_full(p);
    }
}

proof fn lemma_orphan_pairs_nonneg(s: Seq<u8>)
    ensures
        orphan_pairs(s) >= 0,
    decreases s.len(),
{
    if s.len() > 0 {
        lemma_orphan_pairs_nonneg(s.drop_last());
    }
}

proof fn lemma_orphan_pairs_found(s: Seq<u8>, i: int)
    requires
        0 <= i < s.len(),
        is_orphan(i),
        s[i] >= 2,
    ensures
        orphan_pairs(s) >= 1,
    decreases s.len(),
{
    lemma_orphan_pairs_nonneg(s.drop_last());
    if i < s.len() - 1 {
        assert(s.drop_last()[i] == s[i]);
        lemma_orphan_pairs_found(s.drop_last(), i);
    }
}

/// A hand holding all thirteen terminal and honor kinds, one of them at least
/// twice, is a complete thirteen-orphans hand.
pub proof fn lemma_kokushi_complete(tiles: Seq<u8>, i: int)
    requires
        tiles.len() == 34,
        forall|k: int| 0 <= k < 34 && is_orphan(k) ==> #[trigger] tiles[k] > 0,
        is_orphan(i),
        tiles[i] >= 2,
    ensures
        kokushi_shanten(tiles) == -1,
{
    lemma_orphan_kinds_full(tiles);
    lemma_orphan_pairs_found(tiles, i);
    reveal_with_fuel(orphans_below, 35);
    assert(orphans_below(34) == 13);
}

} // verus!
