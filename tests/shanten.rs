use std::collections::HashMap;
use std::io::Write;

use flate2::write::GzEncoder;
use flate2::Compression;

use shanten_pyo::metrics::{is_honor, is_main_suit, is_man, is_pin, is_sou};
use shanten_pyo::shanten::is_terminal_or_honor;
use shanten_pyo::tables::{decode_table, read_table};
use shanten_pyo::{
    calc_all, calc_chitoi, calc_kokushi, calc_normal, ensure_init, eval_discards, eval_hand,
    honitsu_distance_for_suit, tanyao_distance, TableError, Tables, JIHAI_TABLE_SIZE,
    SUHAI_TABLE_SIZE,
};

/// Parses "123m456p789s1234567z" into a count vector.
fn hand(text: &str) -> [u8; 34] {
    let mut tiles = [0u8; 34];
    let mut digits: Vec<usize> = Vec::new();
    for ch in text.chars() {
        match ch {
            '1'..='9' => digits.push(ch as usize - '1' as usize),
            'm' | 'p' | 's' | 'z' => {
                let base = match ch {
                    'm' => 0,
                    'p' => 9,
                    's' => 18,
                    _ => 27,
                };
                for d in digits.drain(..) {
                    tiles[base + d] += 1;
                }
            }
            _ => panic!("bad tile text"),
        }
    }
    tiles
}

fn index_of(counts: &[u8]) -> usize {
    counts.iter().fold(0, |acc, &x| acc * 5 + x as usize)
}

fn grow(
    melds: &Vec<Vec<usize>>,
    from: usize,
    cur: &mut Vec<u8>,
    n: usize,
    width: usize,
    out: &mut Vec<(usize, bool, Vec<u8>)>,
) {
    if cur.iter().all(|&c| c <= 4) {
        out.push((n, false, cur.clone()));
        for p in 0..width {
            cur[p] += 2;
            if cur[p] <= 4 {
                out.push((n, true, cur.clone()));
            }
            cur[p] -= 2;
        }
    } else {
        return;
    }
    if n == 4 {
        return;
    }
    for k in from..melds.len() {
        for &r in &melds[k] {
            cur[r] += 1;
        }
        grow(melds, k, cur, n + 1, width, out);
        for &r in &melds[k] {
            cur[r] -= 1;
        }
    }
}

/// Every target shape of `melds` melds (with or without a pair) inside one group.
fn shapes(width: usize, runs: bool) -> Vec<(usize, bool, Vec<u8>)> {
    let mut melds: Vec<Vec<usize>> = Vec::new();
    for r in 0..width {
        melds.push(vec![r, r, r]);
    }
    if runs {
        for r in 0..width - 2 {
            melds.push(vec![r, r + 1, r + 2]);
        }
    }
    let mut out = Vec::new();
    let mut cur = vec![0u8; width];
    grow(&melds, 0, &mut cur, 0, width, &mut out);
    out
}

/// Tiles to add to `counts` to reach each shape: slots 0..=4 without a pair,
/// slots 5..=9 with one.
fn entry(counts: &[u8], all: &Vec<(usize, bool, Vec<u8>)>) -> [u8; 10] {
    let mut e = [15u8; 10];
    for (n, pair, target) in all {
        let cost: u32 = target
            .iter()
            .zip(counts.iter())
            .map(|(&t, &c)| if t > c { (t - c) as u32 } else { 0 })
            .sum();
        let slot = if *pair { 5 + n } else { *n };
        if cost < e[slot] as u32 {
            e[slot] = cost as u8;
        }
    }
    e
}

fn pack(entries: &[[u8; 10]]) -> Vec<u8> {
    let mut raw = Vec::with_capacity(entries.len() * 5);
    for e in entries {
        for k in 0..5 {
            raw.push(e[2 * k] | (e[2 * k + 1] << 4));
        }
    }
    raw
}

fn gzip(raw: &[u8]) -> Vec<u8> {
    let mut enc = GzEncoder::new(Vec::new(), Compression::none());
    enc.write_all(raw).unwrap();
    enc.finish().unwrap()
}

fn sub_hands(h: &[u8; 34]) -> Vec<[u8; 34]> {
    let mut out = vec![*h];
    let mut mid = *h;
    for i in [0, 8, 9, 17, 18, 26, 27, 28, 29, 30, 31, 32, 33] {
        mid[i] = 0;
    }
    out.push(mid);
    for suit in 0..3 {
        let mut f = *h;
        for i in 0..27 {
            if i / 9 != suit {
                f[i] = 0;
            }
        }
        out.push(f);
    }
    out
}

/// Tables whose entries are right for every group that the metrics of
/// `hands`, and of each of their one-tile discards, look up; zero elsewhere.
fn tables_for(hands: &[[u8; 34]]) -> Tables {
    let suit_shapes = shapes(9, true);
    let honor_shapes = shapes(7, false);
    let mut suit: HashMap<usize, [u8; 10]> = HashMap::new();
    let mut honor: HashMap<usize, [u8; 10]> = HashMap::new();
    let mut all: Vec<[u8; 34]> = Vec::new();
    for h in hands {
        all.extend(sub_hands(h));
        for i in 0..34 {
            if h[i] > 0 {
                let mut d = *h;
                d[i] -= 1;
                all.extend(sub_hands(&d));
            }
        }
    }
    for h in &all {
        for g in 0..3 {
            let c = &h[9 * g..9 * g + 9];
            suit.entry(index_of(c)).or_insert_with(|| entry(c, &suit_shapes));
        }
        let c = &h[27..34];
        honor.entry(index_of(c)).or_insert_with(|| entry(c, &honor_shapes));
    }
    let mut suit_entries = vec![[0u8; 10]; SUHAI_TABLE_SIZE];
    for (i, e) in suit {
        suit_entries[i] = e;
    }
    let mut honor_entries = vec![[0u8; 10]; JIHAI_TABLE_SIZE];
    for (i, e) in honor {
        honor_entries[i] = e;
    }
    ensure_init(&gzip(&pack(&suit_entries)), &gzip(&pack(&honor_entries))).unwrap()
}

fn total(h: &[u8; 34]) -> u8 {
    h.iter().sum()
}

#[test]
fn read_table_unpacks_nibbles() {
    let raw = vec![0x21, 0x43, 0x65, 0x87, 0xa9, 0x0f, 0xf0, 0x00, 0x12, 0x34];
    let t = read_table(&gzip(&raw), 2).unwrap();
    assert_eq!(t, vec![[1, 2, 3, 4, 5, 6, 7, 8, 9, 10], [15, 0, 0, 15, 0, 0, 2, 1, 4, 3]]);
}

#[test]
fn decode_table_ignores_trailing_bytes() {
    let raw = vec![0x10, 0, 0, 0, 0, 0xff, 0xff];
    assert_eq!(decode_table(&raw, 1), Ok(vec![[0, 1, 0, 0, 0, 0, 0, 0, 0, 0]]));
}

#[test]
fn read_table_wrong_length() {
    let raw = vec![0u8; 15];
    assert_eq!(
        read_table(&gzip(&raw), 4),
        Err(TableError::WrongLength { expected: 4, found: 3 })
    );
}

#[test]
fn read_table_rejects_garbage() {
    let raw = vec![1u8, 2, 3, 4, 5];
    assert_eq!(read_table(&raw, 1), Err(TableError::Decompress));
}

#[test]
fn ensure_init_detects_truncated_suit_table() {
    let suit = gzip(&vec![0u8; (SUHAI_TABLE_SIZE - 1) * 5]);
    let honor = gzip(&vec![0u8; JIHAI_TABLE_SIZE * 5]);
    assert_eq!(
        ensure_init(&suit, &honor).err(),
        Some(TableError::WrongLength {
            expected: SUHAI_TABLE_SIZE,
            found: SUHAI_TABLE_SIZE - 1
        })
    );
}

#[test]
fn ensure_init_detects_truncated_honor_table() {
    let suit = gzip(&vec![0u8; SUHAI_TABLE_SIZE * 5]);
    let honor = gzip(&vec![0u8; JIHAI_TABLE_SIZE * 5 - 5]);
    assert_eq!(
        ensure_init(&suit, &honor).err(),
        Some(TableError::WrongLength {
            expected: JIHAI_TABLE_SIZE,
            found: JIHAI_TABLE_SIZE - 1
        })
    );
}

#[test]
fn ensure_init_loads_entries() {
    let mut suit_entries = vec![[0u8; 10]; SUHAI_TABLE_SIZE];
    suit_entries[SUHAI_TABLE_SIZE - 1] = [1, 2, 3, 4, 5, 6, 7, 8, 9, 10];
    let honor_entries = vec![[0u8; 10]; JIHAI_TABLE_SIZE];
    let t = ensure_init(&gzip(&pack(&suit_entries)), &gzip(&pack(&honor_entries))).unwrap();
    assert_eq!(t.suit_entry(SUHAI_TABLE_SIZE - 1), [1, 2, 3, 4, 5, 6, 7, 8, 9, 10]);
    assert_eq!(t.suit_entry(0), [0; 10]);
    assert_eq!(t.suit_entry(SUHAI_TABLE_SIZE), [0; 10]);
    assert_eq!(t.honor_entry(JIHAI_TABLE_SIZE + 3), [0; 10]);
}

#[test]
fn complete_standard_hand_is_minus_one() {
    let h = hand("111m222p333s456s77z");
    let t = tables_for(&[h]);
    assert_eq!(calc_normal(&t, &h, 4), -1);
    assert_eq!(calc_all(&t, &h, 4), -1);
}

#[test]
fn tenpai_standard_hand_is_zero() {
    let h = hand("111m222p333s45s77z");
    let t = tables_for(&[h]);
    assert_eq!(calc_normal(&t, &h, 4), 0);
}

#[test]
fn one_away_from_tenpai_is_one() {
    let h = hand("111m222p333s49s77z");
    let t = tables_for(&[h]);
    assert_eq!(calc_normal(&t, &h, 4), 1);
}

#[test]
fn standard_shanten_is_stable() {
    let h = hand("19m19p19s1234567z");
    let t = tables_for(&[h]);
    let a = calc_normal(&t, &h, 4);
    let b = calc_normal(&t, &h, 4);
    assert_eq!(a, b);
    assert!(a >= -1);
    assert_eq!(eval_hand(&t, &h), eval_hand(&t, &h));
}

#[test]
fn seven_pairs_complete() {
    let h = hand("1133m5577p99s1122z");
    assert_eq!(calc_chitoi(&h), -1);
}

#[test]
fn seven_kinds_six_pairs_is_tenpai() {
    let h = hand("1133m5577p99s112z");
    assert_eq!(calc_chitoi(&h), 0);
}

#[test]
fn seven_pairs_counts_missing_kinds() {
    // four kinds, two of them paired: 6 - 2 + (7 - 4)
    let h = hand("11m22p3s4z");
    assert_eq!(calc_chitoi(&h), 7);
    assert_eq!(calc_chitoi(&[0u8; 34]), 13);
}

#[test]
fn thirteen_orphans_complete() {
    let h = hand("19m19p19s12345677z");
    assert_eq!(calc_kokushi(&h), -1);
}

#[test]
fn thirteen_orphans_without_pair_is_tenpai() {
    let h = hand("19m19p19s1234567z");
    assert_eq!(calc_kokushi(&h), 0);
    let simples = hand("234m567p");
    assert_eq!(calc_kokushi(&simples), 13);
}

#[test]
fn combined_takes_seven_pairs() {
    let h = hand("1133m5577p99s1122z");
    let t = tables_for(&[h]);
    let normal = calc_normal(&t, &h, 4);
    assert!(normal > 0);
    assert_eq!(calc_all(&t, &h, 4), -1);
}

#[test]
fn combined_takes_thirteen_orphans() {
    let h = hand("19m19p19s12345677z");
    let t = tables_for(&[h]);
    assert!(calc_normal(&t, &h, 4) > 0);
    assert_eq!(calc_all(&t, &h, 4), -1);
}

#[test]
fn combined_ignores_special_shapes_below_four_melds() {
    let h = hand("1133m5577p");
    let t = tables_for(&[h]);
    assert_eq!(calc_all(&t, &h, 2), calc_normal(&t, &h, 2));
}

#[test]
fn combined_never_above_standard() {
    let hands = [
        hand("111m222p333s456s77z"),
        hand("1133m5577p99s1122z"),
        hand("19m19p19s12345677z"),
        hand("147m258p369s1234z"),
    ];
    let t = tables_for(&hands);
    for h in &hands {
        assert!(calc_all(&t, h, total(h) / 3) <= calc_normal(&t, h, total(h) / 3));
    }
}

#[test]
fn tanyao_all_terminals_gets_penalty() {
    let h = hand("19m19p19s1234567z");
    let t = tables_for(&[h]);
    assert_eq!(tanyao_distance(&t, &h), 13 + 8);
}

#[test]
fn tanyao_counts_terminals_plus_middle_shanten() {
    let h = hand("111m222p333s456s77z");
    let t = tables_for(&[h]);
    let mut mid = h;
    for i in [0, 8, 9, 17, 18, 26, 27, 28, 29, 30, 31, 32, 33] {
        mid[i] = 0;
    }
    assert_eq!(tanyao_distance(&t, &h), 5 + calc_all(&t, &mid, 3));
    assert_eq!(tanyao_distance(&t, &h), 6);
}

#[test]
fn honitsu_no_suit_tiles_gets_penalty() {
    let h = hand("123p456p789p");
    let t = tables_for(&[h]);
    assert_eq!(honitsu_distance_for_suit(&t, &h, 0), 9 + 8);
    assert_eq!(honitsu_distance_for_suit(&t, &h, 1), 1);
}

#[test]
fn honitsu_complete_single_suit_hand() {
    let h = hand("123456789m11177z");
    let t = tables_for(&[h]);
    assert_eq!(honitsu_distance_for_suit(&t, &h, 0), -1);
    assert_eq!(honitsu_distance_for_suit(&t, &h, 1), 9 - 1);
}

#[test]
fn distances_non_negative_on_incomplete_hand() {
    let h = hand("147m258p369s1234z");
    let t = tables_for(&[h]);
    let m = eval_hand(&t, &h);
    assert!(m.tanyao_distance >= 0);
    for d in m.honitsu_distance {
        assert!(d >= 0);
    }
}

#[test]
fn eval_hand_bundles_all_metrics() {
    let h = hand("111m222p333s456s77z");
    let t = tables_for(&[h]);
    let m = eval_hand(&t, &h);
    assert_eq!(m.normal_shanten, -1);
    assert_eq!(m.chiitoi_shanten, calc_chitoi(&h));
    assert_eq!(m.kokushi_shanten, calc_kokushi(&h));
    assert_eq!(m.tanyao_distance, tanyao_distance(&t, &h));
    for s in 0..3u8 {
        assert_eq!(m.honitsu_distance[s as usize], honitsu_distance_for_suit(&t, &h, s));
    }
}

#[test]
fn eval_discards_one_entry_per_kind_in_order() {
    let h = hand("111m222p333s456s77z");
    let t = tables_for(&[h]);
    let ds = eval_discards(&t, &h);
    let kinds: Vec<u8> = (0..34u8).filter(|&i| h[i as usize] > 0).collect();
    assert_eq!(ds.iter().map(|d| d.tile_index).collect::<Vec<u8>>(), kinds);
    for d in &ds {
        let mut reduced = h;
        reduced[d.tile_index as usize] -= 1;
        let m = eval_hand(&t, &reduced);
        assert_eq!(d.normal_shanten, m.normal_shanten);
        assert_eq!(d.chiitoi_shanten, m.chiitoi_shanten);
        assert_eq!(d.kokushi_shanten, m.kokushi_shanten);
        assert_eq!(d.tanyao_distance, m.tanyao_distance);
        assert_eq!(d.honitsu_distance, m.honitsu_distance);
    }
}

#[test]
fn eval_discards_empty_hand() {
    let h = [0u8; 34];
    let t = tables_for(&[h]);
    assert!(eval_discards(&t, &h).is_empty());
}

#[test]
fn eval_discards_tenpai_after_right_discard() {
    let h = hand("111m222p333s459s77z");
    let t = tables_for(&[h]);
    let ds = eval_discards(&t, &h);
    let nine_sou = ds.iter().find(|d| d.tile_index == 26).unwrap();
    assert_eq!(nine_sou.normal_shanten, 0);
}

#[test]
fn index_helpers_split_the_kinds() {
    assert!(is_man(0) && is_man(8) && !is_man(9));
    assert!(is_pin(9) && is_pin(17) && !is_pin(18));
    assert!(is_sou(18) && is_sou(26) && !is_sou(27));
    assert!(is_honor(27) && is_honor(33) && !is_honor(26));
    assert!(is_main_suit(4, 0) && is_main_suit(13, 1) && is_main_suit(22, 2));
    assert!(!is_main_suit(4, 1) && !is_main_suit(30, 0) && !is_main_suit(4, 3));
    let orphans: Vec<usize> = (0..34).filter(|&i| is_terminal_or_honor(i)).collect();
    assert_eq!(orphans, vec![0, 8, 9, 17, 18, 26, 27, 28, 29, 30, 31, 32, 33]);
}

#[test]
fn combined_of_tenpai_hand_is_zero() {
    let h = hand("111m222p333s45s77z");
    let t = tables_for(&[h]);
    assert_eq!(calc_all(&t, &h, 4), 0);
}

#[test]
fn honitsu_penalty_with_every_off_suit_tile() {
    let mut h = [0u8; 34];
    for i in 0..18 {
        h[i] = 4;
    }
    let t = tables_for(&[]);
    assert_eq!(honitsu_distance_for_suit(&t, &h, 2), 72 + 8);
}
