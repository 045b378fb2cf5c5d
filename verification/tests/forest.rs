use advent::trees::Direction;
use advent::trees::Grid;

fn example_grid() -> Grid {
    let example = "30373\n25512\n65332\n33549\n35390\n";
    Grid::try_from(example).unwrap()
}

#[test]
fn test_signed_add() {
    assert!(
        advent::trees::signed_add(2, 1) == Some(3),
        "positive input, positive output"
    );
    assert!(
        advent::trees::signed_add(2, 0) == Some(2),
        "zero input, positive output"
    );
    assert!(
        advent::trees::signed_add(2, -1) == Some(1),
        "negative input, positive output"
    );
    assert!(
        advent::trees::signed_add(2, -2) == Some(0),
        "negative input, zero output"
    );
    assert!(
        advent::trees::signed_add(2, -3).is_none(),
        "negative input, negative output"
    );
}

#[test]
fn d8p1_test_example() {
    let grid = example_grid();
    let all_visible = grid.all_visible();
    let all_visible_count = all_visible.len();
    assert!(grid.visible((1, 0)));
    assert!(grid.visible((1, 1)));
    assert!(grid.visible((2, 1)));
    assert!(grid.visible((3, 2)));

    assert!(!grid.visible((3, 1)));
    assert!(!grid.visible((2, 2)));

    assert!(all_visible_count == 21, "{} != 21", all_visible_count);
}

#[test]
fn test_all_visible_from() {
    let grid = example_grid();
    assert!(grid.all_visible_from(1, Direction::E) == vec![((4, 1), 2), ((2, 1), 5)]);
    assert!(
        grid.all_visible_from(4, Direction::W) == vec![((0, 4), 3), ((1, 4), 5), ((3, 4), 9)]
    );
    assert!(grid.all_visible_from(0, Direction::S) == vec![((0, 4), 3), ((0, 2), 6)]);
    assert!(grid.all_visible_from(4, Direction::N) == vec![((4, 0), 3), ((4, 3), 9)]);
}

#[test]
fn test_try_from_rejects_letters() {
    assert!(Grid::try_from("123\n1a3\n").is_none());
}

#[test]
fn test_walk_iterator_steps() {
    let grid = example_grid();
    let mut walk = grid.walk((1, 1), Direction::S);
    assert_eq!(walk.next(), Some(((1, 1), 5)));
    assert_eq!(walk.next(), Some(((1, 2), 5)));
    assert_eq!(walk.next(), Some(((1, 3), 3)));
    assert_eq!(walk.next(), Some(((1, 4), 5)));
    assert_eq!(walk.next(), None);
}

#[test]
fn test_empty_forest() {
    let grid = Grid::try_from("").unwrap();
    assert_eq!(grid.height(), 0);
    assert_eq!(grid.width(), 0);
    assert!(grid.all_visible().is_empty());
}
