use std::collections::HashSet;

use flossfinder::color::DmcColor;
use flossfinder::matching::best_matches;

fn colors() -> Vec<DmcColor> {
    ["1", "2", "3", "1 ", "5"]
        .iter()
        .map(|c| DmcColor { code: c.to_string(), name: String::new(), hex: String::new(), rgb: (0, 0, 0) })
        .collect()
}

fn indexes(r: &[flossfinder::matching::MatchResult]) -> Vec<usize> {
    r.iter().map(|m| m.color_index).collect()
}

#[test]
fn best_matches_ranks_by_distance_then_position() {
    let c = colors();
    let d = [0u64, 5, 3, 1, 3];
    let r = best_matches(&c, 0, 10, None, &d);
    assert_eq!(indexes(&r), vec![2, 4, 1]);
    assert_eq!(r.iter().map(|m| m.distance).collect::<Vec<_>>(), vec![3, 3, 5]);
}

#[test]
fn best_matches_excludes_the_target_code() {
    let c = colors();
    let d = [0u64, 5, 3, 1, 3];
    let r = best_matches(&c, 3, 10, None, &d);
    assert_eq!(indexes(&r), vec![2, 4, 1]);
}

#[test]
fn best_matches_keeps_the_closest_count() {
    let c = colors();
    let d = [0u64, 5, 3, 1, 3];
    assert_eq!(indexes(&best_matches(&c, 0, 2, None, &d)), vec![2, 4]);
    assert_eq!(indexes(&best_matches(&c, 0, 1, None, &d)), vec![2]);
    assert!(best_matches(&c, 0, 0, None, &d).is_empty());
}

#[test]
fn best_matches_offers_only_allowed_colours() {
    let c = colors();
    let d = [0u64, 5, 3, 1, 3];
    let allowed: HashSet<usize> = [1usize, 4, 0].into_iter().collect();
    assert_eq!(indexes(&best_matches(&c, 0, 10, Some(&allowed), &d)), vec![4, 1]);
    let none: HashSet<usize> = HashSet::new();
    assert!(best_matches(&c, 0, 10, Some(&none), &d).is_empty());
}

#[test]
fn best_matches_orders_float_distances_by_their_bits() {
    let c = colors();
    let d: Vec<u64> = [0.0f64, 12.5, 0.25, 7.0, 12.25].iter().map(|x| x.to_bits()).collect();
    let r = best_matches(&c, 0, 10, None, &d);
    assert_eq!(indexes(&r), vec![2, 4, 1]);
    assert_eq!(f64::from_bits(r[0].distance), 0.25);
}

#[test]
fn best_matches_is_the_same_for_the_same_input() {
    let c = colors();
    let d = [9u64, 4, 4, 1, 2];
    let a = indexes(&best_matches(&c, 1, 3, None, &d));
    let b = indexes(&best_matches(&c, 1, 3, None, &d));
    assert_eq!(a, b);
    assert_eq!(a, vec![3, 4, 2]);
}

#[test]
fn asking_for_fewer_matches_gives_the_start_of_the_longer_list() {
    let c = colors();
    let d = [0u64, 5, 3, 1, 3];
    let long = best_matches(&c, 0, 3, None, &d);
    for n in 0..=4usize {
        let short = best_matches(&c, 0, n, None, &d);
        let k = n.min(long.len());
        assert_eq!(indexes(&short), indexes(&long[..k]));
        assert_eq!(
            short.iter().map(|m| m.distance).collect::<Vec<_>>(),
            long[..k].iter().map(|m| m.distance).collect::<Vec<_>>()
        );
    }
}
