use aoc::y2021::day1;
use aoc::y2021::day10;
use aoc::y2021::day10::AnalyzedLine;
use aoc::y2021::day2;
use aoc::y2021::day2::Cmd;
use aoc::y2021::day2::ParseError;
use aoc::y2021::day3;
use aoc::y2021::day4;
use aoc::y2021::day6;
use aoc::y2021::day7;
use aoc::text::NumError;

#[test]
fn day1_input() {
    assert_eq!(
        day1::input_generator("199\n200\n208\n210\n200\n207\n240\n269\n260\n263"),
        [199, 200, 208, 210, 200, 207, 240, 269, 260, 263]
    );
}

#[test]
fn increasing_seqs() {
    assert_eq!(day1::count_increasing_seqs(&vec![199, 200, 208, 200]), 2);
}

#[test]
fn day1_sample1() {
    assert_eq!(
        day1::part1(&vec![199, 200, 208, 210, 200, 207, 240, 269, 260, 263]),
        7
    );
}

#[test]
fn day1_sample2() {
    assert_eq!(
        day1::part2(&vec![199, 200, 208, 210, 200, 207, 240, 269, 260, 263]),
        5
    );
}

#[test]
fn day2_input() {
    let input = day2::input_generator("up 3\ndown 5\nforward 1").expect("Input should be valid");

    assert_eq!(input[0], Cmd::Up(3));
    assert_eq!(input[1], Cmd::Down(5));
    assert_eq!(input[2], Cmd::Forward(1));
}

#[test]
fn foo_command_is_invalid() {
    let input = day2::input_generator("foo 3\ndown 5\nforward 1");

    assert_eq!(input, Err(ParseError::InvalidCmd));
}

#[test]
fn up_without_param_is_invalid() {
    let input = day2::input_generator("up\ndown 5\nforward 1");

    assert_eq!(input, Err(ParseError::InvalidCmd));
}

#[test]
fn empty_input_is_invalid() {
    let input = day2::input_generator("");

    assert_eq!(input, Err(ParseError::InvalidCmd));
}

#[test]
fn invalid_command_format() {
    let input = day2::input_generator("");

    assert_eq!(input.unwrap_err().message(), "Invalid command");
}

#[test]
fn up_with_letter_is_parse_error() {
    let input = day2::input_generator("up x\ndown 5\nforward 1");

    assert!(matches!(input, Err(ParseError::Parse(_))));
}

#[test]
fn parse_error_format() {
    let input = day2::input_generator("up x\ndown 5\nforward 1");

    assert_eq!(
        input.unwrap_err().message(),
        "Failed to parse command parameter: invalid digit found in string"
    );
}

#[test]
fn day2_sample1() {
    let commands = vec![
        Cmd::Forward(5),
        Cmd::Down(5),
        Cmd::Forward(8),
        Cmd::Up(3),
        Cmd::Down(8),
        Cmd::Forward(2),
    ];

    assert_eq!(day2::part1(&commands), 150);
}

#[test]
fn day2_sample2() {
    let commands = vec![
        Cmd::Forward(5),
        Cmd::Down(5),
        Cmd::Forward(8),
        Cmd::Up(3),
        Cmd::Down(8),
        Cmd::Forward(2),
    ];

    assert_eq!(day2::part2(&commands), 900);
}

#[test]
fn number_parsing() {
    assert_eq!(aoc::text::parse_u64("357"), Ok(357));
    assert_eq!(aoc::text::parse_u64(""), Err(NumError::InvalidDigit));
    assert_eq!(aoc::text::parse_u64("3x"), Err(NumError::InvalidDigit));
    assert_eq!(aoc::text::parse_u64("18446744073709551615"), Ok(u64::MAX));
    assert_eq!(
        aoc::text::parse_u64("18446744073709551616"),
        Err(NumError::Overflow)
    );
}

#[test]
fn input() {
    assert!(true)
}

#[test]
fn day3_power_consumption() {
    let input = vec![
        String::from("00100"),
        String::from("11110"),
        String::from("10110"),
        String::from("10111"),
        String::from("10101"),
        String::from("01111"),
        String::from("00111"),
        String::from("11100"),
        String::from("10000"),
        String::from("11001"),
        String::from("00010"),
        String::from("01010"),
    ];

    assert_eq!(day3::part1(&input), 198);
}

#[test]
fn o2_rating() {
    let mut input = vec![
        String::from("00100"),
        String::from("11110"),
        String::from("10110"),
        String::from("10111"),
        String::from("10101"),
        String::from("01111"),
        String::from("00111"),
        String::from("11100"),
        String::from("10000"),
        String::from("11001"),
        String::from("00010"),
        String::from("01010"),
    ];

    assert_eq!(day3::calculate_rating(&mut input, true), 23);
}

#[test]
fn co2_rating() {
    let mut input = vec![
        String::from("00100"),
        String::from("11110"),
        String::from("10110"),
        String::from("10111"),
        String::from("10101"),
        String::from("01111"),
        String::from("00111"),
        String::from("11100"),
        String::from("10000"),
        String::from("11001"),
        String::from("00010"),
        String::from("01010"),
    ];
    assert_eq!(day3::calculate_rating(&mut input, false), 10);
}

#[test]
fn day3_part2_sample() {
    let input = vec![
        String::from("00100"),
        String::from("11110"),
        String::from("10110"),
        String::from("10111"),
        String::from("10101"),
        String::from("01111"),
        String::from("00111"),
        String::from("11100"),
        String::from("10000"),
        String::from("11001"),
        String::from("00010"),
        String::from("01010"),
    ];
    assert_eq!(day3::part2(&input), 230);
}

#[test]
fn day4_input() {
    let bingo = day4::input_generator(
        "7,4,9,5,11,17,23,2,0,14,21,24,10,16,13,6,15,25,12,22,18,20,8,19,3,26,1

        22 13 17 11  0
         8  2 23  4 24
        21  9 14 16  7
         6 10  3 18  5
         1 12 20 15 19

         3 15  0  2 22
         9 18 13 17  5
        19  8  7 25 23
        20 11 10 24  4
        14 21 16 12  6

        14 21 17 24  4
        10 16 15  9 19
        18  8 23 26 20
        22 11 13  6  5
         2  0 12  3  7",
    );

    assert_eq!(
        bingo.picks,
        [
            7, 4, 9, 5, 11, 17, 23, 2, 0, 14, 21, 24, 10, 16, 13, 6, 15, 25, 12, 22, 18, 20, 8,
            19, 3, 26, 1
        ]
    );

    assert_eq!(bingo.boards.len(), 3);

    assert_eq!(bingo.boards[0].spaces.len(), 25);
    assert_eq!(bingo.boards[1].spaces.len(), 25);
    assert_eq!(bingo.boards[2].spaces.len(), 25);
}

#[test]
fn day4_scores() {
    let bingo = day4::input_generator(
        "7,4,9,5,11,17,23,2,0,14,21,24,10,16,13,6,15,25,12,22,18,20,8,19,3,26,1

22 13 17 11  0
 8  2 23  4 24
21  9 14 16  7
 6 10  3 18  5
 1 12 20 15 19

 3 15  0  2 22
 9 18 13 17  5
19  8  7 25 23
20 11 10 24  4
14 21 16 12  6

14 21 17 24  4
10 16 15  9 19
18  8 23 26 20
22 11 13  6  5
 2  0 12  3  7",
    );
    assert_eq!(day4::part1(&bingo), 4512);
    assert_eq!(day4::part2(&bingo), 1924);
}

#[test]
fn simulate_is_correct() {
    let mut fish_counts = vec![1, 1, 2, 3, 0, 0, 0, 0, 0];

    day6::simulate(&mut fish_counts);

    assert_eq!(fish_counts, [1, 2, 3, 0, 0, 0, 1, 0, 1]);
}

#[test]
fn day6_small_population() {
    let counts = day6::input_generator("1,2,3,3");
    assert_eq!(counts, [0, 1, 1, 2, 0, 0, 0, 0, 0]);
    // after 18 days the sample population of 3,4,3,1,2 has 26 fish
    let start = day6::input_generator("3,4,3,1,2");
    let mut fish = start.clone();
    for _ in 0..18 {
        day6::simulate(&mut fish);
    }
    let total: u64 = fish.iter().sum();
    assert_eq!(total, 26);
    assert_eq!(day6::part1(&start), 5934);
    assert_eq!(day6::part2(&start), 26984457539);
}

#[test]
fn fuel_test() {
    assert_eq!(day7::fuel(4), 10);
}

#[test]
fn day7_samples() {
    let positions = day7::input_generator("16,1,2,0,4,2,7,1,2,14");
    assert_eq!(day7::part1(&positions), 37);
    assert_eq!(day7::part2(&positions), 168);
}

#[test]
fn day10_input() {
    assert_eq!(day10::input_generator("[{(\n(({[}{"), vec!["[{(", "(({[}{"]);
}

#[test]
fn analysis() {
    assert_eq!(
        day10::analyze(&String::from("{([(<{}[<>[]}>{[]{[(<()>")),
        AnalyzedLine::Corrupted('}')
    );
    assert_eq!(
        day10::analyze(&String::from("[({(<(())[]>[[{[]{<()<>>")),
        AnalyzedLine::Incomplete(vec!['[', '(', '{', '(', '[', '[', '{', '{'])
    );
}

#[test]
fn completion() {
    assert_eq!(day10::completion_string(vec!['(', '[', '{', '<']), ">}])");
}

#[test]
fn completion_score() {
    assert_eq!(day10::score_completion(String::from("}}]])})]")), 288957);
    assert_eq!(day10::score_completion(String::from(")}>]})")), 5566);
    assert_eq!(day10::score_completion(String::from("}}>}>))))")), 1480781);
    assert_eq!(day10::score_completion(String::from("]]}}]}]}>")), 995444);
    assert_eq!(day10::score_completion(String::from("])}>")), 294);
}

#[test]
fn symbol_score() {
    assert_eq!(day10::score_symbol(')'), 3);
    assert_eq!(day10::score_symbol(']'), 57);
    assert_eq!(day10::score_symbol('}'), 1197);
    assert_eq!(day10::score_symbol('>'), 25137);
}

#[test]
fn day10_parts() {
    let lines = day10::input_generator(
        "[({(<(())[]>[[{[]{<()<>>\n[(()[<>])]({[<{<<[]>>(\n{([(<{}[<>[]}>{[]{[(<()>\n(((({<>}<{<{<>}{[]{[]{}\n[[<[([]))<([[{}[[()]]]\n[{[{({}]{}}([{[{{{}}([]\n{<[[]]>}<{[{[{[]{()[[[]\n[<(<(<(<{}))><([]([]()\n<{([([[(<>()){}]>(<<{{\n<{([{{}}[<[[[<>{}]]]>[]]",
    );
    assert_eq!(day10::part1(&lines), 26397);
    assert_eq!(day10::part2(&lines), 288957);
}
