use regex_dfa::{CharMap, CharMultiMap, CharRange, CharSet};

const MAX: u32 = u32::MAX;

fn make_mm(xs: &[(u32, u32, usize)]) -> CharMultiMap<usize> {
    CharMultiMap::from_vec(xs.iter().map(|x| (CharRange::new(x.0, x.1), x.2)).collect())
}

#[test]
fn test_get() {
    let mut cm = CharMap::new();
    cm.push(CharRange::single(1), &10);
    cm.push(CharRange::single(3), &11);
    cm.push(CharRange::new(5, 7), &12);
    cm.push(CharRange::single(9), &13);
    assert_eq!(cm.get(1), Some(&10));
    assert_eq!(cm.get(3), Some(&11));
    assert_eq!(cm.get(5), Some(&12));
    assert_eq!(cm.get(6), Some(&12));
    assert_eq!(cm.get(9), Some(&13));
    assert_eq!(cm.get(0), None);
    assert_eq!(cm.get(2), None);
    assert_eq!(cm.get(4), None);
    assert_eq!(cm.get(77), None);
}

#[test]
fn test_contains() {
    let mut cs = CharSet::new();
    cs.push(CharRange::single(1));
    cs.push(CharRange::new(5, 7));
    assert!(cs.contains(1));
    assert!(cs.contains(5));
    assert!(cs.contains(6));
    assert!(cs.contains(7));
    assert!(!cs.contains(0));
    assert!(!cs.contains(4));
    assert!(!cs.contains(8));
}

#[test]
fn test_except() {
    assert_eq!(CharSet::except(""), CharSet::full());
    assert_eq!(CharSet::except("\0"), CharSet::from_vec(vec![(CharRange::new(1, MAX), ())]));

    let mut cs = CharSet::new();
    cs.push(CharRange::new(0, 9));
    cs.push(CharRange::new(11, 12));
    cs.push(CharRange::new(14, MAX));
    assert_eq!(CharSet::except("\n\r"), cs);
}

#[test]
fn test_intersect() {
    let mut cs1 = CharSet::new();
    let mut cs2 = CharSet::new();
    let mut result = CharSet::new();

    cs1.push(CharRange::new(1, 20));
    cs2.push(CharRange::new(2, 4));
    result.push(CharRange::new(2, 4));
    assert_eq!(result, cs1.intersect(&cs2));
    assert_eq!(result, cs2.intersect(&cs1));

    cs2.push(CharRange::new(7, 8));
    result.push(CharRange::new(7, 8));
    assert_eq!(result, cs1.intersect(&cs2));
    assert_eq!(result, cs2.intersect(&cs1));

    cs2.push(CharRange::new(15, 25));
    result.push(CharRange::new(15, 20));
    assert_eq!(result, cs1.intersect(&cs2));
    assert_eq!(result, cs2.intersect(&cs1));
}

#[test]
fn test_union() {
    let mut cs1 = CharSet::new();
    let mut cs2 = CharSet::new();
    let mut result = CharSet::new();
    assert_eq!(result, cs1.union(&cs2));

    cs1.push(CharRange::new(1, 3));
    result.push(CharRange::new(1, 3));
    assert_eq!(result, cs1.union(&cs2));
    assert_eq!(result, cs2.union(&cs1));

    cs2.push(CharRange::new(5, 6));
    result.push(CharRange::new(5, 6));
    assert_eq!(result, cs1.union(&cs2));
    assert_eq!(result, cs2.union(&cs1));

    // The second range of the expected result grows to end at 8.
    cs1.push(CharRange::new(6, 8));
    let mut result = CharSet::new();
    result.push(CharRange::new(1, 3));
    result.push(CharRange::new(5, 8));
    assert_eq!(result, cs1.union(&cs2));
    assert_eq!(result, cs2.union(&cs1));

    // ... and then to end at 10.
    cs1.push(CharRange::new(7, 10));
    let mut result = CharSet::new();
    result.push(CharRange::new(1, 3));
    result.push(CharRange::new(5, 10));
    assert_eq!(result, cs1.union(&cs2));
    assert_eq!(result, cs2.union(&cs1));

    cs1.push(CharRange::new(15, 20));
    result.push(CharRange::new(15, 20));
    assert_eq!(result, cs1.union(&cs2));
    assert_eq!(result, cs2.union(&cs1));
}

#[test]
fn test_normalize() {
    let mut map = CharMap::from_vec(vec![
        (CharRange::new(0, 3), 0),
        (CharRange::new(5, 6), 0),
        (CharRange::new(7, 9), 0),
        (CharRange::new(15, 16), 0),
        (CharRange::new(17, 20), 1),
        (CharRange::new(21, 23), 1),
    ]);
    let target = CharMap::from_vec(vec![
        (CharRange::new(0, 3), 0),
        (CharRange::new(5, 9), 0),
        (CharRange::new(15, 16), 0),
        (CharRange::new(17, 23), 1),
    ]);
    map.normalize();
    assert_eq!(map, target);
}

#[test]
fn test_multimap_intersect() {
    let mm = make_mm(&[(1, 5, 1), (2, 6, 2), (3, 6, 3), (7, 10, 1), (4, 9, 4)]);
    let mut cs = CharSet::new();

    assert_eq!(mm.intersect(&cs), CharMultiMap::new());
    cs.push(CharRange::new(11, 100));
    assert_eq!(mm.intersect(&cs), CharMultiMap::new());
    cs.push(CharRange::new(7, 8));
    cs.sort();
    assert_eq!(mm.intersect(&cs), make_mm(&[(7, 8, 1), (7, 8, 4)]));
    cs.push(CharRange::new(2, 3));
    cs.sort();
    assert_eq!(
        mm.intersect(&cs),
        make_mm(&[(2, 3, 1), (2, 3, 2), (3, 3, 3), (7, 8, 1), (7, 8, 4)])
    );
    cs.push(CharRange::new(0, 1));
    cs.sort();
    assert_eq!(
        mm.intersect(&cs),
        make_mm(&[(1, 1, 1), (2, 3, 1), (2, 3, 2), (3, 3, 3), (7, 8, 1), (7, 8, 4)])
    );
}

#[test]
fn test_split() {
    assert_eq!(
        make_mm(&[(1, 5, 1), (6, 8, 2), (9, 10, 3)]).split(),
        make_mm(&[(1, 5, 1), (6, 8, 2), (9, 10, 3)])
    );
    assert_eq!(
        make_mm(&[(1, 5, 1), (3, 4, 2)]).split(),
        make_mm(&[(1, 2, 1), (3, 4, 1), (5, 5, 1), (3, 4, 2)])
    );
    assert_eq!(
        make_mm(&[(1, 5, 1), (3, 4, 2), (0, 1, 3)]).split(),
        make_mm(&[(1, 1, 1), (2, 2, 1), (3, 4, 1), (5, 5, 1), (3, 4, 2), (0, 0, 3), (1, 1, 3)])
    );
}

#[test]
fn group_collects_values_per_atomic_range() {
    let mm = make_mm(&[(1, 5, 1), (3, 4, 2), (0, 1, 3), (4, 4, 1)]);
    let grouped = mm.group();
    let got: Vec<(u32, u32, Vec<usize>)> = grouped
        .iter()
        .iter()
        .map(|e| (e.0.start, e.0.end, e.1.elements()))
        .collect();
    assert_eq!(
        got,
        vec![
            (0, 0, vec![3]),
            (1, 1, vec![1, 3]),
            (2, 2, vec![1]),
            (3, 3, vec![1, 2]),
            (4, 4, vec![1, 2]),
            (5, 5, vec![1]),
        ]
    );
    assert!(make_mm(&[]).group().is_empty());
}
