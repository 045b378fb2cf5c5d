use advent::crt;
use advent::monkeys::Monkey;
use advent::signal::Op;
use advent::signal::Program;

fn cathode_program() -> String {
    let lines: [&str; 146] = [
        "addx 15", "addx -11", "addx 6", "addx -3", "addx 5", "addx -1", "addx -8", "addx 13",
        "addx 4", "noop", "addx -1", "addx 5", "addx -1", "addx 5", "addx -1", "addx 5",
        "addx -1", "addx 5", "addx -1", "addx -35", "addx 1", "addx 24", "addx -19", "addx 1",
        "addx 16", "addx -11", "noop", "noop", "addx 21", "addx -15", "noop", "noop", "addx -3",
        "addx 9", "addx 1", "addx -3", "addx 8", "addx 1", "addx 5", "noop", "noop", "noop",
        "noop", "noop", "addx -36", "noop", "addx 1", "addx 7", "noop", "noop", "noop", "addx 2",
        "addx 6", "noop", "noop", "noop", "noop", "noop", "addx 1", "noop", "noop", "addx 7",
        "addx 1", "noop", "addx -13", "addx 13", "addx 7", "noop", "addx 1", "addx -33", "noop",
        "noop", "noop", "addx 2", "noop", "noop", "noop", "addx 8", "noop", "addx -1", "addx 2",
        "addx 1", "noop", "addx 17", "addx -9", "addx 1", "addx 1", "addx -3", "addx 11", "noop",
        "noop", "addx 1", "noop", "addx 1", "noop", "noop", "addx -13", "addx -19", "addx 1",
        "addx 3", "addx 26", "addx -30", "addx 12", "addx -1", "addx 3", "addx 1", "noop",
        "noop", "noop", "addx -9", "addx 18", "addx 1", "addx 2", "noop", "noop", "addx 9",
        "noop", "noop", "noop", "addx -1", "addx 2", "addx -37", "addx 1", "addx 3", "noop",
        "addx 15", "addx -21", "addx 22", "addx -6", "addx 1", "noop", "addx 2", "addx 1",
        "noop", "addx -10", "noop", "noop", "addx 20", "addx 1", "addx 2", "addx 2", "addx -6",
        "addx -11", "noop", "noop", "noop",
    ];
    let mut text = String::new();
    for line in lines {
        text.push_str(line);
        text.push('\n');
    }
    text
}

#[test]
fn d10p1_test_example() {
    let listing = cathode_program();
    let ops = Op::parse_all(&listing).unwrap();
    let mut program = Program::new();
    program.run(&ops);
    let expected: Vec<isize> = vec![1, 16, 5, 11, 8, 13, 12, 4, 17, 21];
    for (history, expected_x) in program.history.iter().zip(expected) {
        assert_eq!(history.initial_state.x, expected_x);
    }

    assert_eq!(program.signal_strength(20), Some(420));
    assert_eq!(program.signal_strength(60), Some(1140));
    assert_eq!(program.signal_strength(100), Some(1800));
    assert_eq!(program.signal_strength(140), Some(2940));
    assert_eq!(program.signal_strength(180), Some(2880));
    assert_eq!(program.signal_strength(220), Some(3960));
}

#[test]
fn d10p2_test_example() {
    let listing = cathode_program();
    let ops = Op::parse_all(&listing).unwrap();
    let mut program = crt::Program::new();
    program.run(&ops);
    let rendered: String = program.render().into_iter().collect();
    let expected = "##  ##  ##  ##  ##  ##  ##  ##  ##  ##  \n\
                    ###   ###   ###   ###   ###   ###   ### \n\
                    ####    ####    ####    ####    ####    \n\
                    #####     #####     #####     #####     \n\
                    ######      ######      ######      ####\n\
                    #######       #######       #######     ";
    assert_eq!(rendered, expected, "outputs do not match");
}

#[test]
fn test_op_parse_rejects_garbage() {
    assert_eq!(
        Op::parse_all("noop\nskip 3\n").unwrap_err(),
        advent::signal::OpError::BadInstruction(1)
    );
}

fn monkey_notes() -> String {
    let mut text = String::new();
    text.push_str("Monkey 0:\n");
    text.push_str("  Starting items: 79, 98\n");
    text.push_str("  Operation: new = old * 19\n");
    text.push_str("  Test: divisible by 23\n");
    text.push_str("    If true: throw to monkey 2\n");
    text.push_str("    If false: throw to monkey 3\n");
    text.push_str("\n");
    text.push_str("Monkey 1:\n");
    text.push_str("  Starting items: 54, 65, 75, 74\n");
    text.push_str("  Operation: new = old + 6\n");
    text.push_str("  Test: divisible by 19\n");
    text.push_str("    If true: throw to monkey 2\n");
    text.push_str("    If false: throw to monkey 0\n");
    text.push_str("\n");
    text.push_str("Monkey 2:\n");
    text.push_str("  Starting items: 79, 60, 97\n");
    text.push_str("  Operation: new = old * old\n");
    text.push_str("  Test: divisible by 13\n");
    text.push_str("    If true: throw to monkey 1\n");
    text.push_str("    If false: throw to monkey 3\n");
    text.push_str("\n");
    text.push_str("Monkey 3:\n");
    text.push_str("  Starting items: 74\n");
    text.push_str("  Operation: new = old + 3\n");
    text.push_str("  Test: divisible by 17\n");
    text.push_str("    If true: throw to monkey 0\n");
    text.push_str("    If false: throw to monkey 1\n");
    text
}

#[test]
fn d11p1_test_parse_monkey() {
    let example = monkey_notes();
    let monkey = Monkey::parse(&example).unwrap();
    assert_eq!(monkey.0.index, 0);
}

#[test]
fn d11p1_test_parse_monkeys() {
    let example = monkey_notes();
    let mut remaining = example;
    let mut monkeys = Vec::new();
    while !remaining.is_empty() {
        let (monkey, rest) = Monkey::parse(&remaining).unwrap();
        monkeys.push(monkey);
        remaining = rest;
    }
    assert_eq!(monkeys.len(), 4);
}

#[test]
fn d11p2_test_parse_monkey() {
    let example = monkey_notes();
    let monkey = Monkey::parse(&example).unwrap();
    assert_eq!(monkey.0.items, vec![79, 98]);
}

#[test]
fn d11p2_test_parse_monkeys() {
    let example = monkey_notes();
    let monkeys = Monkey::parse_all(&example).unwrap();
    assert_eq!(monkeys.len(), 4);
}

#[test]
fn test_10000_rounds_of_monkey_business() {
    let example = monkey_notes();

    let mut monkeys = Monkey::parse_all(&example).unwrap();
    advent::monkeys::run_rounds(&mut monkeys, 10000).unwrap();
    assert_eq!(monkeys[0].inspections, 52166);
    assert_eq!(monkeys[1].inspections, 47830);
    assert_eq!(monkeys[2].inspections, 1938);
    assert_eq!(monkeys[3].inspections, 52013);
    assert_eq!(advent::monkeys::calculate_monkey_business(&monkeys), 2713310158);
}

#[test]
fn test_parse_name_reads_greeting() {
    let (name, rest) = advent::monkeys::parse_name("Hello, Ada! rest").unwrap();
    assert_eq!(name, "Ada");
    assert_eq!(rest, " rest");
    assert!(advent::monkeys::parse_name("Goodbye, Ada!").is_none());
    let named = advent::monkeys::Name::from_str("Hello, Grace!").unwrap();
    assert_eq!(named.0, "Grace");
}

#[test]
fn test_zero_divisor_round_fails() {
    let mut notes = String::new();
    notes.push_str("Monkey 0:\n");
    notes.push_str("  Starting items: 5\n");
    notes.push_str("  Operation: new = old + 1\n");
    notes.push_str("  Test: divisible by 0\n");
    notes.push_str("    If true: throw to monkey 0\n");
    notes.push_str("    If false: throw to monkey 0\n");
    let mut monkeys = Monkey::parse_all(&notes).unwrap();
    assert!(advent::monkeys::run_round(&mut monkeys, 7).is_err());
    assert!(advent::monkeys::run_rounds(&mut monkeys, 1).is_err());
    assert!(advent::monkeys::Name::from_str("Monkey 0:").is_err());
}
