use advent::grid::HeightMap;
use advent::grid::MapError;

fn example_map() -> HeightMap {
    let example = "Sabqponm\nabcryxxl\naccszExk\nacctuvwj\nabdefghi\n";
    HeightMap::from_str(example).expect("failed to read map")
}

#[test]
fn example_test() {
    let map = example_map();
    let solution = map.climb().expect("failed to find route");
    assert_eq!(solution.first().copied(), Some((0, 0)));
    assert_eq!(solution.last().copied(), Some((5, 2)));
    assert_eq!(solution.len() - 1, 31);
}

#[test]
fn test_linear_ramp() {
    let map = HeightMap::from_str("SbcdefghijklmnopqrstuvwxyzE").unwrap();
    let solution = map.climb().expect("failed to find route");
    assert_eq!(solution.len(), map.width());
    assert_eq!(solution.len() - 1, 26);
}

#[test]
fn test_no_route_over_cliff() {
    let map = HeightMap::from_str("SE").unwrap();
    assert!(map.climb().is_none());
}

#[test]
fn test_descend_is_no_longer() {
    let map = example_map();
    let climb = map.climb().expect("failed to find route");
    let descent = map.descend().expect("failed to find route");
    assert!(descent.len() <= climb.len());
    assert_eq!(descent.len() - 1, 29);
}

#[test]
fn test_search_repeats_identically() {
    let map = example_map();
    let first = map.climb().expect("failed to find route");
    let second = map.climb().expect("failed to find route");
    assert_eq!(first, second);
}

#[test]
fn test_missing_markers() {
    assert_eq!(HeightMap::from_str("abc\ndef\n").unwrap_err(), MapError::MissingStart);
    assert_eq!(HeightMap::from_str("abc\nSef\n").unwrap_err(), MapError::MissingEnd);
}

#[test]
fn test_map_lookups() {
    let map = example_map();
    assert_eq!(map.height(), 5);
    assert_eq!(map.width(), 8);
    assert_eq!(map.get((0, 0)), Some(0));
    assert_eq!(map.get((5, 2)), Some(26));
    assert_eq!(map.get((8, 0)), None);
    assert_eq!(map.get_char((0, 0)), Some('S'));
    assert_eq!(map.get_char((5, 2)), Some('E'));
    assert_eq!(map.get_char((1, 0)), Some('a'));
    assert_eq!(map.get_char((9, 9)), None);
    assert!(map.can_climb((0, 0), (1, 0)));
    assert!(!map.can_climb((0, 0), (3, 0)));
    assert!(map.can_descend((2, 0), (1, 0)));
    assert!(!map.can_descend((3, 0), (2, 0)));
    assert_eq!(advent::grid::height('a'), 0);
    assert_eq!(advent::grid::height('z'), 25);
    assert_eq!(advent::grid::height('E'), 26);
    assert_eq!(advent::grid::height('S'), 0);
    assert_eq!(advent::grid::distance((0, 0), (3, 4)), 7);
}

#[test]
fn test_path_mask_marks_route() {
    let map = example_map();
    let solution = map.climb().expect("failed to find route");
    let mask = map.path_mask(&solution);
    assert!(mask[0][0]);
    assert!(mask[2][5]);
    let marked: usize = mask
        .iter()
        .map(|row| row.iter().filter(|&&b| b).count())
        .sum();
    assert_eq!(marked, solution.len());
}

#[test]
fn test_candidates_order() {
    let map = example_map();
    assert_eq!(map.candidates((1, 1)), vec![(0, 1), (1, 0), (1, 2), (2, 1)]);
    assert_eq!(map.candidates((0, 0)), vec![(0, 1), (1, 0)]);
    assert_eq!(map.candidates((7, 0)), vec![(6, 0), (7, 1)]);
    assert_eq!(map.candidates((0, 4)), vec![(0, 3), (1, 4)]);
    assert_eq!(map.candidates((99, 99)), Vec::<(usize, usize)>::new());
}

#[test]
fn test_raising_a_cell_never_shortens() {
    let open_map = HeightMap::from_str("Sabqponm\nabcryxxl\naccszExk\nacctuvwj\nabdefghi\n")
        .unwrap();
    let blocked_map = HeightMap::from_str("Szbqponm\nabcryxxl\naccszExk\nacctuvwj\nabdefghi\n")
        .unwrap();
    let open_len = open_map.climb().expect("failed to find route").len();
    match blocked_map.climb() {
        Some(path) => assert!(path.len() >= open_len),
        None => {}
    }
}

#[test]
fn test_empty_map_text() {
    assert_eq!(HeightMap::from_str("").unwrap_err(), MapError::MissingStart);
}

#[test]
fn test_trailing_whitespace_ignored() {
    let map = HeightMap::from_str("Sa  \nbE\t\n").unwrap();
    assert_eq!(map.height(), 2);
    assert_eq!(map.width(), 2);
    assert_eq!(map.get((2, 0)), None);
}
