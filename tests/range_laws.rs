use regex_dfa::{CharMap, CharMultiMap, CharRange, CharSet};
use std::cmp::Ordering;

const MAX: u32 = u32::MAX;

fn set_of(ranges: &[(u32, u32)]) -> CharSet {
    let mut cs = CharSet::new();
    for r in ranges {
        cs.push(CharRange::new(r.0, r.1));
    }
    cs
}

fn ranges_of(cs: &CharSet) -> Vec<(u32, u32)> {
    cs.iter().iter().map(|r| (r.start, r.end)).collect()
}

#[test]
fn range_basics() {
    let r = CharRange::new(3, 7);
    assert!(r.contains(3) && r.contains(7) && !r.contains(8) && !r.contains(2));
    assert!(!r.is_empty());
    assert!(CharRange::new(5, 4).is_empty());
    assert_eq!(CharRange::full(), CharRange::new(0, MAX));
    assert_eq!(CharRange::single(9), CharRange::new(9, 9));
}

#[test]
fn range_against_point() {
    let r = CharRange::new(10, 20);
    assert_eq!(r.cmp_point(9), Ordering::Greater);
    assert_eq!(r.cmp_point(10), Ordering::Equal);
    assert_eq!(r.cmp_point(20), Ordering::Equal);
    assert_eq!(r.cmp_point(21), Ordering::Less);
}

#[test]
fn range_intersection_empty_iff_disjoint() {
    let a = CharRange::new(1, 5);
    assert_eq!(a.intersection(&CharRange::new(4, 9)), CharRange::new(4, 5));
    assert!(!a.intersection(&CharRange::new(5, 9)).is_empty());
    assert!(a.intersection(&CharRange::new(6, 9)).is_empty());
    assert!(a.intersection(&CharRange::new(7, 3)).is_empty());
}

#[test]
fn range_cover_is_smallest() {
    let a = CharRange::new(1, 5);
    assert_eq!(a.cover(&CharRange::new(8, 9)), CharRange::new(1, 9));
    assert_eq!(a.cover(&CharRange::new(2, 3)), CharRange::new(1, 5));
    assert_eq!(a.cover(&CharRange::new(1, 0)), a);
    assert_eq!(CharRange::new(1, 0).cover(&a), a);
}

#[test]
fn normalize_twice_is_normalize_once() {
    let mut map = CharMap::from_vec(vec![
        (CharRange::new(0, 3), 0),
        (CharRange::new(4, 6), 0),
        (CharRange::new(7, 9), 1),
        (CharRange::new(10, 12), 1),
    ]);
    map.normalize();
    let once = CharMap::from_vec(map.iter().to_vec());
    map.normalize();
    assert_eq!(map, once);
    assert_eq!(map.len(), 2);
    assert_eq!(map.get(5), Some(&0));
    assert_eq!(map.get(11), Some(&1));
}

#[test]
fn normalize_set_merges_touching_ranges() {
    let mut cs = set_of(&[(0, 3), (4, 9), (11, 12)]);
    cs.normalize();
    assert_eq!(ranges_of(&cs), vec![(0, 9), (11, 12)]);
}

#[test]
fn union_and_intersect_commute() {
    let a = set_of(&[(1, 3), (10, 20), (30, 30)]);
    let b = set_of(&[(2, 5), (15, 25)]);
    assert_eq!(a.union(&b), b.union(&a));
    assert_eq!(ranges_of(&a.union(&b)), vec![(1, 5), (10, 25), (30, 30)]);
    assert_eq!(a.intersect(&b), b.intersect(&a));
    assert_eq!(ranges_of(&a.intersect(&b)), vec![(2, 3), (15, 20)]);
}

#[test]
fn union_keeps_touching_ranges_apart() {
    let a = set_of(&[(1, 3)]);
    let b = set_of(&[(4, 5)]);
    assert_eq!(ranges_of(&a.union(&b)), vec![(1, 3), (4, 5)]);
}

#[test]
fn set_and_negation() {
    let a = set_of(&[(0, 4), (10, 20), (MAX - 1, MAX - 1)]);
    let n = a.negated();
    assert_eq!(ranges_of(&n), vec![(5, 9), (21, MAX - 2), (MAX, MAX)]);
    let mut all = a.union(&n);
    all.normalize();
    assert!(all.is_full());
    assert!(a.intersect(&n).is_empty());
    assert_eq!(ranges_of(&CharSet::new().negated()), vec![(0, MAX)]);
    assert!(CharSet::full().negated().is_empty());
}

#[test]
fn except_newlines() {
    assert_eq!(ranges_of(&CharSet::except("\n\r")), vec![(0, 9), (11, 12), (14, MAX)]);
    let e = CharSet::except("ab");
    assert!(!e.contains('a' as u32) && !e.contains('b' as u32) && e.contains('c' as u32));
    assert_eq!(CharSet::except(""), CharSet::full());
}

#[test]
fn counting_and_ascii() {
    let a = set_of(&[(0, 9), (65, 90)]);
    assert_eq!(a.char_count(), 36);
    assert!(a.is_ascii());
    assert!(!set_of(&[(100, 200)]).is_ascii());
    assert!(CharSet::new().is_ascii());
    assert!(!a.contains_non_ascii());
    assert!(set_of(&[(0x80, 0xD7FF), (0xE000, 0x10FFFF)]).contains_non_ascii());
    assert!(set_of(&[(0x70, 0x100), (0x101, 0xD800), (0xE000, MAX)]).contains_non_ascii());
    assert!(!set_of(&[(0x80, 0xD7FF), (0xE001, 0x10FFFF)]).contains_non_ascii());
}

#[test]
fn sort_orders_pushed_ranges() {
    let mut cs = set_of(&[(20, 30), (1, 2), (5, 9)]);
    cs.sort();
    assert_eq!(ranges_of(&cs), vec![(1, 2), (5, 9), (20, 30)]);
    let fv = CharSet::from_vec(vec![(CharRange::new(8, 9), ()), (CharRange::new(0, 1), ())]);
    assert_eq!(ranges_of(&fv), vec![(0, 1), (8, 9)]);
}

#[test]
fn map_helpers() {
    let mut m = CharMap::new();
    m.push(CharRange::new(0, 4), &1);
    m.push(CharRange::new(6, 8), &2);
    m.push(CharRange::new(10, 12), &3);
    let odd = m.filter_values(|v| v % 2 == 1);
    assert_eq!(odd, CharMap::from_vec(vec![(CharRange::new(0, 4), 1), (CharRange::new(10, 12), 3)]));
    m.map_values(|v| v * 10);
    assert_eq!(m.get(7), Some(&20));
    let s = m.to_char_set();
    assert_eq!(ranges_of(&s), vec![(0, 4), (6, 8), (10, 12)]);
    let back = s.to_char_map(7u8);
    assert_eq!(back.get(11), Some(&7u8));
    let clipped = m.intersect(&set_of(&[(3, 7)]));
    assert_eq!(clipped, CharMap::from_vec(vec![(CharRange::new(3, 4), 10), (CharRange::new(6, 7), 20)]));
    m.extend(&[(CharRange::new(20, 21), 4)]);
    assert_eq!(m.len(), 4);
    assert!(!m.is_full() && !m.is_empty());
}

#[test]
fn multimap_split_scenario() {
    let mm = CharMultiMap::from_vec(vec![(CharRange::new(1, 5), 'A'), (CharRange::new(3, 4), 'B')]);
    let expected = CharMultiMap::from_vec(vec![
        (CharRange::new(1, 2), 'A'),
        (CharRange::new(3, 4), 'A'),
        (CharRange::new(5, 5), 'A'),
        (CharRange::new(3, 4), 'B'),
    ]);
    assert_eq!(mm.split(), expected);
}

#[test]
fn multimap_split_at_top_of_code_space() {
    let mm = CharMultiMap::from_vec(vec![(CharRange::new(0, MAX), 1usize), (CharRange::new(MAX, MAX), 2)]);
    let expected = CharMultiMap::from_vec(vec![
        (CharRange::new(0, MAX - 1), 1usize),
        (CharRange::new(MAX, MAX), 1),
        (CharRange::new(MAX, MAX), 2),
    ]);
    assert_eq!(mm.split(), expected);
    let kept = mm.filter_values(|v| *v == 2);
    assert_eq!(kept.entries().len(), 1);
}

#[test]
fn from_pairs_checks_and_sorts() {
    let set = CharSet::from_pairs(vec![CharRange::new(20, 30), CharRange::new(1, 2), CharRange::new(5, 9)]).unwrap();
    assert_eq!(ranges_of(&set), vec![(1, 2), (5, 9), (20, 30)]);
    assert!(CharSet::from_pairs(vec![CharRange::new(1, 5), CharRange::new(5, 9)]).is_none());
    assert!(CharSet::from_pairs(vec![CharRange::new(3, 2)]).is_none());
    assert!(CharSet::from_pairs(vec![]).unwrap().is_empty());
    assert_eq!(ranges_of(&CharSet::from_pairs(vec![CharRange::new(4, 5), CharRange::new(6, 6)]).unwrap()), vec![(4, 5), (6, 6)]);
}
