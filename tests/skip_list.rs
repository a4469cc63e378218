use advanced_structures::skip_list::{Sampler, SkipList, SkipListError, HALF};

/// Replays fixed draws, repeating the last one.
struct Fixed {
    draws: Vec<f64>,
    at: usize,
}

impl Sampler for Fixed {
    fn sample(&mut self) -> u32 {
        let i = if self.at < self.draws.len() { self.at } else { self.draws.len() - 1 };
        self.at += 1;
        (self.draws[i] * 4294967296.0) as u32
    }
}

fn keys(l: &SkipList<i32>) -> Vec<usize> {
    let mut out = Vec::new();
    let mut it = l.iter();
    while let Some((k, _)) = it.next() {
        out.push(k);
    }
    out
}

#[test]
fn ordered_insert_rejects_duplicate() {
    let mut l: SkipList<i32> = SkipList::with_fraction(HALF);
    let mut s = Fixed { draws: vec![0.9], at: 0 };
    let mut results = Vec::new();
    for k in [3usize, 1, 4, 1, 5, 9, 2, 6] {
        results.push(l.insert_with(k, k as i32 * 10, &mut s));
    }
    assert_eq!(results[3], Err(SkipListError::KeyExists));
    assert_eq!(results.iter().filter(|r| r.is_ok()).count(), 7);
    assert_eq!(l.len(), 7);
    assert_eq!(keys(&l), vec![1, 2, 3, 4, 5, 6, 9]);
    assert_eq!(l.cur_level(), 0);
    assert_eq!(l.find(1), Some(&10));
}

#[test]
fn pop_lowers_the_level() {
    let mut l: SkipList<i32> = SkipList::default();
    let mut s = Fixed { draws: vec![0.1, 0.1, 0.9, 0.9, 0.9], at: 0 };
    l.insert_with(10, 1, &mut s).unwrap();
    assert!(l.cur_level() >= 1);
    assert_eq!(l.cur_level(), 2);
    for k in [20usize, 30, 40, 50] {
        l.insert_with(k, 1, &mut s).unwrap();
    }
    assert_eq!(l.pop(10), Some(1));
    assert_eq!(l.pop(20), Some(1));
    assert_eq!(l.cur_level(), 0);
    assert_eq!(l.find(10), None);
    assert_eq!(l.pop(10), None);
    assert_eq!(keys(&l), vec![30, 40, 50]);
}

#[test]
fn levels_rise_strictly_and_nest() {
    let mut l: SkipList<i32> = SkipList::new(HALF, 4);
    for (k, h) in [(5usize, 2usize), (1, 0), (9, 4), (3, 1), (7, 2)] {
        l.insert_at_level(k, 0, h).unwrap();
    }
    assert_eq!(l.cur_level(), 4);
    assert_eq!(l.level_keys(0), vec![1, 3, 5, 7, 9]);
    assert_eq!(l.level_keys(1), vec![3, 5, 7, 9]);
    assert_eq!(l.level_keys(2), vec![5, 7, 9]);
    assert_eq!(l.level_keys(3), vec![9]);
    assert_eq!(l.level_keys(4), vec![9]);
    assert_eq!(l.pop(9), Some(0));
    assert_eq!(l.cur_level(), 2);
    assert_eq!(l.level_keys(3), Vec::<usize>::new());
}

#[test]
fn random_heights_stay_under_ceiling() {
    let mut l: SkipList<u8> = SkipList::new(HALF, 3);
    for k in 0..200usize {
        l.insert(k, 1).unwrap();
    }
    assert_eq!(l.len(), 200);
    assert!(l.cur_level() <= 3);
    assert_eq!(keys_u8(&l), (0..200).collect::<Vec<usize>>());
}

fn keys_u8(l: &SkipList<u8>) -> Vec<usize> {
    let mut out = Vec::new();
    let mut it = l.iter();
    while let Some((k, _)) = it.next() {
        out.push(k);
    }
    out
}

#[test]
fn clone_keeps_pairs_and_heights() {
    let mut l: SkipList<i32> = SkipList::new(HALF, 5);
    for (k, h) in [(4usize, 3usize), (2, 0), (8, 1)] {
        l.insert_at_level(k, k as i32, h).unwrap();
    }
    let c = l.clone();
    let cc = c.clone();
    assert_eq!(keys(&cc), keys(&c));
    assert_eq!(cc.cur_level(), c.cur_level());
    assert_eq!(cc.cur_level(), 3);
    for lv in 0..=5 {
        assert_eq!(cc.level_keys(lv), l.level_keys(lv));
    }
    assert_eq!(cc.find(8), Some(&8));
}

#[test]
fn clear_empties() {
    let mut l: SkipList<i32> = SkipList::new(HALF, 2);
    l.insert_at_level(1, 1, 2).unwrap();
    l.clear();
    assert!(l.is_empty());
    assert_eq!(l.cur_level(), 0);
    assert_eq!(l.max_level(), 2);
}

#[test]
fn next_level_steps_and_caps() {
    let l: SkipList<i32> = SkipList::new(HALF, 2);
    assert_eq!(l.next_level(0, 10), Some(1));
    assert_eq!(l.next_level(1, HALF - 1), Some(2));
    assert_eq!(l.next_level(2, 10), None);
    assert_eq!(l.next_level(0, HALF), None);
}

#[test]
fn height_counts_leading_low_draws() {
    let l: SkipList<i32> = SkipList::new(HALF, 3);
    assert_eq!(l.level_for_draws(&vec![1, 2, HALF, 3]), 2);
    assert_eq!(l.level_for_draws(&vec![HALF]), 0);
    assert_eq!(l.level_for_draws(&vec![1, 1, 1, 1, 1]), 3);
    assert_eq!(l.level_for_draws(&vec![]), 0);
    let mut s = Fixed { draws: vec![0.1, 0.1, 0.9], at: 0 };
    assert_eq!(l.random_level(&mut s), 2);
}
