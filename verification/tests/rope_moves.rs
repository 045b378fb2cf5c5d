use advent::rope::max_diff;
use advent::rope::Command;
use advent::rope::Coord;
use advent::rope::Rope;

fn same_cells(got: &Vec<Coord>, expected: &Vec<Coord>) {
    for c in expected {
        assert!(got.contains(c), "missing {:?}", c);
    }
    for c in got {
        assert!(expected.contains(c), "extra {:?}", c);
    }
}

#[test]
fn test_example_part1() {
    let example = "R 4\nU 4\nL 3\nD 1\nR 4\nD 1\nL 5\nR 2\n";
    let commands = Command::parse_all(example).unwrap();
    let mut rope = Rope::new(2);
    let tail_pos = rope.tail_positions(&commands);
    let expected = vec![
        Coord(0, 0),
        Coord(1, 0),
        Coord(1, 2),
        Coord(2, 0),
        Coord(2, 2),
        Coord(2, 4),
        Coord(3, 0),
        Coord(3, 2),
        Coord(3, 3),
        Coord(3, 4),
        Coord(4, 1),
        Coord(4, 2),
        Coord(4, 3),
    ];
    same_cells(&tail_pos, &expected);
}

#[test]
fn test_example_part2() {
    let example = "R 4\nU 4\nL 3\nD 1\nR 4\nD 1\nL 5\nR 2\n";
    let commands = Command::parse_all(example).unwrap();
    let mut rope = Rope::new(10);
    let tail_pos = rope.tail_positions(&commands);
    let expected = vec![Coord(0, 0)];
    same_cells(&tail_pos, &expected);
}

#[test]
fn test_example2_part2_tail_positions() {
    let example = "R 5\nU 8\nL 8\nD 3\nR 17\nD 10\nL 25\nU 20\n";
    let commands = Command::parse_all(example).unwrap();
    let mut rope = Rope::new(10);
    let tail_pos = rope.tail_positions(&commands);
    assert!(tail_pos.len() == 36);
}

#[test]
fn test_example2_part2() {
    let example = "R 5\nU 8\nL 8\nD 3\nR 17\nD 10\nL 25\nU 20\n";
    let commands = Command::parse_all(example).unwrap();
    let mut rope = Rope::new(10);
    let expected_positions = [
        vec![
            Coord(5, 0),
            Coord(4, 0),
            Coord(3, 0),
            Coord(2, 0),
            Coord(1, 0),
            Coord(0, 0),
            Coord(0, 0),
            Coord(0, 0),
            Coord(0, 0),
            Coord(0, 0),
        ],
        vec![
            Coord(5, 8),
            Coord(5, 7),
            Coord(5, 6),
            Coord(5, 5),
            Coord(5, 4),
            Coord(4, 4),
            Coord(3, 3),
            Coord(2, 2),
            Coord(1, 1),
            Coord(0, 0),
        ],
    ];
    for (command, expected) in commands.iter().zip(expected_positions) {
        let _ = rope.run(command.direction, command.distance);
        assert!(rope.segments.len() == 10);
        assert!(expected.len() == 10);
        assert!(rope.segments == expected);
    }
}

#[test]
fn test_max_diff() {
    assert!(max_diff(1, 2, 1) == 2);
    assert!(max_diff(1, 3, 1) == 2);
    assert!(max_diff(2, 1, 1) == 1);
    assert!(max_diff(2, -1, 1) == 1);
    assert!(max_diff(-2, -4, 1) == -3);
    assert!(max_diff(-2, 0, 1) == -1);
    assert!(max_diff(-2, -1, 1) == -1);
    assert!(max_diff(-2, -2, 1) == -2);
}

#[test]
fn test_command_rejected() {
    assert!(Command::parse_all("R x\n").is_none());
    assert!(Command::parse_all("5 R\n").is_none());
}

#[test]
fn test_follow_moves_diagonally() {
    let mut knot = Coord(0, 0);
    knot.follow(&Coord(2, 1));
    assert!(knot == Coord(1, 1));
    let mut still = Coord(0, 0);
    still.follow(&Coord(1, 1));
    assert!(still == Coord(0, 0));
}
