use aoc::y2022::day3;
use aoc::y2022::day5;
use aoc::y2022::day6;

#[test]
fn day3_input() {
    let input = "vJrwpWtwJgWrhcsFMMfFFhFp\njqHRNqRjqzjGDLGLrsFMfFZSrLrFZsSL\nPmmdzqPrVvPwwTWBwg\nwMqvLMZHhHMvwLHjbvcjnnSBnvTQFn\nttgJtRGJQctTZtZT\nCrZsJsPPZsGzwwsLwLmpwMDw";
    assert_eq!(day3::input_generator(input), input);
}

#[test]
fn day3_sample1() {
    let input = "vJrwpWtwJgWrhcsFMMfFFhFp\njqHRNqRjqzjGDLGLrsFMfFZSrLrFZsSL\nPmmdzqPrVvPwwTWBwg\nwMqvLMZHhHMvwLHjbvcjnnSBnvTQFn\nttgJtRGJQctTZtZT\nCrZsJsPPZsGzwwsLwLmpwMDw";
    assert_eq!(day3::part1(&day3::input_generator(input)), 157);
}

#[test]
fn day3_sample2() {
    let input = "vJrwpWtwJgWrhcsFMMfFFhFp\njqHRNqRjqzjGDLGLrsFMfFZSrLrFZsSL\nPmmdzqPrVvPwwTWBwg\nwMqvLMZHhHMvwLHjbvcjnnSBnvTQFn\nttgJtRGJQctTZtZT\nCrZsJsPPZsGzwwsLwLmpwMDw";
    assert_eq!(day3::part2(&day3::input_generator(input)), 70);
}

#[test]
fn day5_input() {
    let input = "    [D]
[N] [C]
[Z] [M] [P]
 1   2   3

move 1 from 2 to 1
move 3 from 1 to 3
move 2 from 2 to 1
move 1 from 1 to 2";

    assert_eq!(
        day5::input_generator(input),
        (
            vec![vec!['Z', 'N'], vec!['M', 'C', 'D'], vec!['P'],],
            vec![(1, 2, 1), (3, 1, 3), (2, 2, 1), (1, 1, 2)]
        )
    );
}

#[test]
fn day5_sample1() {
    let input = "    [D]
[N] [C]
[Z] [M] [P]
 1   2   3

move 1 from 2 to 1
move 3 from 1 to 3
move 2 from 2 to 1
move 1 from 1 to 2";

    assert_eq!(day5::part1(&day5::input_generator(input)), vec!['C', 'M', 'Z']);
}

#[test]
fn day5_sample2() {
    let input = "    [D]
[N] [C]
[Z] [M] [P]
 1   2   3

move 1 from 2 to 1
move 3 from 1 to 3
move 2 from 2 to 1
move 1 from 1 to 2";

    assert_eq!(day5::part2(&day5::input_generator(input)), vec!['M', 'C', 'D']);
}

#[test]
fn day6_input() {
    let input = "bvwbjplbgvbhsrlpgdmjqwftvncz";
    assert_eq!(
        day6::input_generator(input),
        [
            'b', 'v', 'w', 'b', 'j', 'p', 'l', 'b', 'g', 'v', 'b', 'h', 's', 'r', 'l', 'p', 'g',
            'd', 'm', 'j', 'q', 'w', 'f', 't', 'v', 'n', 'c', 'z'
        ]
    );
}

#[test]
fn day6_sample1() {
    let input = "bvwbjplbgvbhsrlpgdmjqwftvncz";
    assert_eq!(day6::part1(&day6::input_generator(input)), 5);
}

#[test]
fn day6_sample2() {
    let input = "nppdvjthqldpwncqszvftbrmjlhg";
    assert_eq!(day6::part1(&day6::input_generator(input)), 6);
}

#[test]
fn sample3() {
    let input = "nznrnfrfntjfmvfwmzdfjlvtqnbhcprsg";
    assert_eq!(day6::part1(&day6::input_generator(input)), 10);
}

#[test]
fn sample4() {
    let input = "zcfzfwzzqfrljwzlrfnpqdbhtmscgvjw";
    assert_eq!(day6::part1(&day6::input_generator(input)), 11);
}

#[test]
fn sample5() {
    let input = "mjqjpqmgbljsphdztnvjfqwrcgsmlb";
    assert_eq!(day6::part2(&day6::input_generator(input)), 19);
}

#[test]
fn sample6() {
    let input = "bvwbjplbgvbhsrlpgdmjqwftvncz";
    assert_eq!(day6::part2(&day6::input_generator(input)), 23);
}

#[test]
fn sample7() {
    let input = "nppdvjthqldpwncqszvftbrmjlhg";
    assert_eq!(day6::part2(&day6::input_generator(input)), 23);
}

#[test]
fn sample8() {
    let input = "nznrnfrfntjfmvfwmzdfjlvtqnbhcprsg";
    assert_eq!(day6::part2(&day6::input_generator(input)), 29);
}

#[test]
fn sample9() {
    let input = "zcfzfwzzqfrljwzlrfnpqdbhtmscgvjw";
    assert_eq!(day6::part2(&day6::input_generator(input)), 26);
}

#[test]
fn day6_no_marker() {
    // a stream of repeated pairs never has four distinct characters in a row
    assert_eq!(day6::find_marker(&day6::input_generator("aabbaabbaabb"), 4), None);
}
