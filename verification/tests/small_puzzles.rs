use advent::calories;
use advent::filesystem::FsError;
use advent::filesystem::InputLine;
use advent::filesystem::Machine;
use advent::markers;
use advent::ranges;
use advent::rps;
use advent::rps::Choice;
use advent::rps::Outcome;
use advent::rps::RpsError;
use advent::rucksack;
use advent::stacks;
use advent::stacks::Move;
use advent::stacks::StackError;
use advent::stacks::Stacks;

#[test]
fn test_group_totals() {
    let input = "1000\n2000\n3000\n\n4000\n\n5000\n6000\n\n7000\n8000\n9000\n\n10000\n\n";
    let totals = calories::group_totals(input).unwrap();
    assert_eq!(totals, vec![6000, 4000, 11000, 24000, 10000]);
    assert_eq!(calories::max_total(&totals), Some(24000));
    assert_eq!(calories::top_three_sum(&totals), Some(45000));
    assert_eq!(calories::max_total(&Vec::new()), None);
    assert_eq!(calories::top_three_sum(&vec![1, 2]), None);
    assert!(calories::group_totals("12\nx\n\n").is_none());
}

#[test]
fn test_rps_scoring() {
    assert_eq!(Choice::Rock.winners_index(), 0);
    assert_eq!(Choice::Scissors.value(), 3);
    assert_eq!(Choice::Rock.would_beat(), Choice::Scissors);
    assert_eq!(Choice::Rock.would_lose_to(), Choice::Paper);
    assert_eq!(Choice::Rock.play(Choice::Scissors), Outcome::Win);
    assert_eq!(Choice::Rock.play(Choice::Rock), Outcome::Tie);
    assert_eq!(Choice::Rock.play(Choice::Paper), Outcome::Lose);
    assert_eq!(rps::score(&(Choice::Rock, Choice::Paper)), (1, 8));
    assert_eq!(rps::score(&(Choice::Rock, Choice::Rock)), (4, 4));
}

#[test]
fn test_rps_parse_line() {
    assert_eq!(rps::parse_line("A Y"), Ok((Choice::Rock, Choice::Rock)));
    assert_eq!(rps::parse_line("B X"), Ok((Choice::Paper, Choice::Rock)));
    assert_eq!(rps::parse_line("C Z"), Ok((Choice::Scissors, Choice::Rock)));
    assert_eq!(rps::parse_line("D Y"), Err(RpsError::BadLeft));
    assert_eq!(rps::parse_line("A Q"), Err(RpsError::BadRight));
    assert_eq!(rps::parse_line("A"), Err(RpsError::MissingColumn));
}

#[test]
fn test_rucksack_priorities() {
    assert_eq!(rucksack::value('a'), 1);
    assert_eq!(rucksack::value('z'), 26);
    assert_eq!(rucksack::value('A'), 27);
    assert_eq!(rucksack::value('Z'), 52);
    assert_eq!(rucksack::value('1'), 0);
    let (left, right) = rucksack::parse_line("vJrwpWtwJgWrhcsFMMfFFhFp");
    assert_eq!(left, "vJrwpWtwJgWr");
    assert_eq!(right, "hcsFMMfFFhFp");
    assert_eq!(rucksack::prioritize(left, right), 16);
    let group = vec![
        String::from("vJrwpWtwJgWrhcsFMMfFFhFp"),
        String::from("jqHRNqRjqzjGDLGLrsFMfFZSrLrFZsSL"),
        String::from("PmmdzqPrVvPwwTWBwg"),
    ];
    assert_eq!(rucksack::group_value(&group), 18);
}

#[test]
fn test_range_overlap() {
    assert_eq!(ranges::parse_line("2-4,6-8"), Some(((2, 4), (6, 8))));
    assert_eq!(ranges::parse_line("2-4,6-8x"), None);
    assert_eq!(ranges::parse_line("2-4,6"), None);
    assert!(ranges::contains((2, 8), (3, 7)));
    assert!(!ranges::contains((2, 8), (3, 9)));
    assert!(ranges::overlap((5, 7), (7, 9)));
    assert!(ranges::overlap((2, 8), (3, 7)));
    assert!(!ranges::overlap((2, 4), (6, 8)));
}

#[test]
fn test_markers_in_datastream() {
    assert_eq!(markers::find_start_of_packet("mjqjpqmgbljsphdztnvjfqwrcgsmlb"), Some(3));
    assert_eq!(markers::find_start_of_packet("bvwbjplbgvbhsrlpgdmjqwftvncz"), Some(1));
    assert_eq!(markers::find_start_of_packet("nppdvjthqldpwncqszvftbrmjlhg"), Some(2));
    assert_eq!(markers::find_start_of_packet("aaaa"), None);
    assert_eq!(
        markers::find_start_of_message("mjqjpqmgbljsphdztnvjfqwrcgsmlb"),
        Some(5)
    );
}

#[test]
fn test_crate_stacks() {
    let mut st = Stacks::new(3);
    st.push(1, 'Z').unwrap();
    st.push(1, 'N').unwrap();
    st.push(2, 'M').unwrap();
    st.push(2, 'C').unwrap();
    st.push(2, 'D').unwrap();
    st.push(3, 'P').unwrap();
    assert!(st.push(4, 'X').is_err());
    assert_eq!(st.pop(3), Some('P'));
    st.push(3, 'P').unwrap();
    assert_eq!(st.top(0), Some('N'));
    st.mv(1, 2, 1).unwrap();
    assert_eq!(st.list_tops(), vec![Some('D'), Some('C'), Some('P')]);
    st.mv(3, 1, 3).unwrap();
    assert_eq!(st.list_tops(), vec![None, Some('C'), Some('D')]);
    assert!(st.mv(5, 2, 1).is_err());
    let tops = st.list_tops();
    let formatted: String = stacks::format_tops(&tops).into_iter().collect();
    assert_eq!(formatted, "??D");
}

#[test]
fn test_parse_crate_drawing() {
    let input = "    [D]    \n[N] [C]    \n[Z] [M] [P]\n 1   2   3 \n\nmove 1 from 2 to 1\nmove 3 from 1 to 3\nmove 2 from 2 to 1\nmove 1 from 1 to 2\n";
    let (mut st, moves) = stacks::parse_input(input).unwrap();
    assert_eq!(st.list_tops(), vec![Some('N'), Some('D'), Some('P')]);
    assert_eq!(moves.len(), 4);
    assert_eq!(moves[0], stacks::Move { count: 1, from_col: 2, to_col: 1 });
    for m in &moves {
        st.mv(m.count, m.from_col, m.to_col).unwrap();
    }
    let formatted: String = stacks::format_tops(&st.list_tops()).into_iter().collect();
    assert_eq!(formatted, "MCD");
}

#[test]
fn test_move_from_str() {
    assert_eq!(
        Move::from_str("move 12 from 3 to 4"),
        Ok(Move { count: 12, from_col: 3, to_col: 4 })
    );
    assert_eq!(
        Move::from_str("xx move 2 from 1 to 9 yy"),
        Ok(Move { count: 2, from_col: 1, to_col: 9 })
    );
    assert_eq!(Move::from_str("shift 2 from 1 to 9"), Err(StackError::BadInstruction));
}

#[test]
fn test_filesystem_machine() {
    let transcript = [
        "$ cd /", "$ ls", "dir a", "14848514 b.txt", "8504156 c.dat", "dir d", "$ cd a",
        "$ ls", "dir e", "29116 f", "2557 g", "62596 h.lst", "$ cd e", "$ ls", "584 i",
        "$ cd ..", "$ cd ..", "$ cd d", "$ ls", "4060174 j", "8033020 d.log", "5626152 d.ext",
        "7214296 k",
    ];
    let mut machine = Machine::new();
    for line in transcript {
        let cmd = InputLine::from_str(line).unwrap();
        machine.run(&cmd).unwrap();
    }
    assert_eq!(machine.fs.du(), 48381165);
    let a = machine.fs.get("a").unwrap();
    assert_eq!(a.du(), 94853);
    assert!(a.is_dir());
    let e = a.get("e").unwrap();
    assert_eq!(e.du(), 584);
    let path = vec![String::from("a"), String::from("e"), String::from("i")];
    let i = machine.fs.get_path(&path).unwrap();
    assert!(!i.is_dir());
    assert_eq!(i.name(), "i");
    assert_eq!(i.du(), 584);
}

#[test]
fn test_machine_paths() {
    let mut machine = Machine::new();
    let pwd: String = machine.pwd().into_iter().collect();
    assert_eq!(pwd, "/");
    machine
        .run(&InputLine::from_str("dir sub").unwrap())
        .unwrap();
    machine.run(&InputLine::from_str("$ cd sub").unwrap()).unwrap();
    let pwd2: String = machine.pwd().into_iter().collect();
    assert_eq!(pwd2, "/sub");
    machine.run(&InputLine::from_str("$ cd ..").unwrap()).unwrap();
    assert!(machine.cd("..").is_err());
    assert!(InputLine::from_str("$ mv a b").is_err());
}

#[test]
fn test_empty_drawing_rejected() {
    assert_eq!(
        stacks::parse_input("\nmove 1 from 1 to 2\n").unwrap_err(),
        StackError::NoPuzzleLines
    );
}

#[test]
fn test_transcript_bad_paths() {
    let mut machine = Machine::new();
    machine.run(&InputLine::from_str("$ cd nowhere").unwrap()).unwrap();
    assert_eq!(
        machine.run(&InputLine::from_str("dir x").unwrap()),
        Err(FsError::NoSuchPath)
    );
    let mut second = Machine::new();
    second.run(&InputLine::from_str("5 f").unwrap()).unwrap();
    second.run(&InputLine::from_str("$ cd f").unwrap()).unwrap();
    assert_eq!(
        second.run(&InputLine::from_str("dir x").unwrap()),
        Err(FsError::NotADirectory)
    );
}

#[test]
fn test_empty_inputs() {
    assert_eq!(calories::group_totals("").unwrap(), Vec::<usize>::new());
    assert_eq!(markers::find_start_of_packet(""), None);
    assert_eq!(markers::find_start_of_message(""), None);
}
