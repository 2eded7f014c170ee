use aoc::y2020::day1::find_pair_result;
use aoc::y2020::day1::find_tri_result;
use aoc::y2020::day2::Password;
use aoc::y2020::day3::Slope;
use aoc::y2020::day3::calculate_trees_hit;
use aoc::y2020::day3::feature_at;
use aoc::y2020::day5::ParseError;
use aoc::y2020::day5::Seat;
use aoc::y2020::day5::find_open_seat;
use aoc::y2020::policy_sled_rental;
use aoc::y2020::policy_toboggan_corporate;

#[test]
fn expense_pairs() {
    let nums: Vec<i64> = vec![1721, 979, 366, 299, 675, 1456];
    assert_eq!(find_pair_result(&nums), 514579);
    assert_eq!(find_tri_result(&nums), 241861950);
    let none: Vec<i64> = vec![1, 2, 3];
    assert_eq!(find_pair_result(&none), -1);
    assert_eq!(find_tri_result(&none), -1);
}

#[test]
fn toboggan_trees() {
    let rows = [
        "..##.......",
        "#...#...#..",
        ".#....#..#.",
        "..#.#...#.#",
        ".#...##..#.",
        "..#.##.....",
        ".#.#.#....#",
        ".#........#",
        "#.##...#...",
        "#...##....#",
        ".#..#...#.#",
    ];
    let map: Vec<Vec<char>> = rows.iter().map(|r| r.chars().collect()).collect();
    assert_eq!(feature_at(&map, 2, 0), '#');
    assert_eq!(feature_at(&map, 13, 0), '#');
    assert_eq!(calculate_trees_hit(&map, &Slope { x: 3, y: 1 }), 7);
    assert_eq!(calculate_trees_hit(&map, &Slope { x: 1, y: 1 }), 2);
    assert_eq!(calculate_trees_hit(&map, &Slope { x: 1, y: 2 }), 2);
}

#[test]
fn test_seat_parsing() {
    assert_eq!(
        Ok(Seat {
            source: "BFFFBBFRRR".to_owned(),
            ..Default::default()
        }),
        Seat::from_str("BFFFBBFRRR")
    );

    assert_eq!(Err(ParseError), Seat::from_str("BFFFBBZRRR"));
}

#[test]
fn test_find() {
    assert_eq!(357, Seat::from_str("FBFBBFFRLR").unwrap().find().seat);

    assert_eq!(567, Seat::from_str("BFFFBBFRRR").unwrap().find().seat);

    assert_eq!(119, Seat::from_str("FFFBBBFRRR").unwrap().find().seat);

    assert_eq!(820, Seat::from_str("BBFFBBFRLL").unwrap().find().seat);
}

#[test]
fn open_seat_is_found() {
    let seats: Vec<u16> = vec![3, 4, 6, 7];
    assert_eq!(find_open_seat(&seats, 3, 7), 5);
    let full: Vec<u16> = vec![3, 4, 5];
    assert_eq!(find_open_seat(&full, 3, 5), 0);
}

#[test]
fn password_rule_parsing() {
    let pw = Password::from_str("1-3 a: abcde").unwrap();
    assert_eq!(pw.start, 1);
    assert_eq!(pw.end, 3);
    assert_eq!(pw.letter, 'a');
    assert_eq!(pw.password, "abcde");

    assert!(Password::from_str("1-x a: abcde").is_err());
    assert!(Password::from_str("1-3 ab: abcde").is_err());
    assert!(Password::from_str("300-3 a: abcde").is_err());
}

#[test]
fn sled_policy() {
    let ok = Password::from_str("1-3 a: abcde").unwrap();
    assert!(policy_sled_rental::validate(&ok).is_some());
    let no = Password::from_str("1-3 b: cdefg").unwrap();
    assert!(policy_sled_rental::validate(&no).is_none());
    let two = Password::from_str("2-9 c: ccccccccc").unwrap();
    assert!(policy_sled_rental::validate(&two).is_some());
}

#[test]
fn toboggan_policy() {
    let ok = Password::from_str("1-3 a: abcde").unwrap();
    assert!(policy_toboggan_corporate::validate(&ok).is_some());
    let no = Password::from_str("1-3 b: cdefg").unwrap();
    assert!(policy_toboggan_corporate::validate(&no).is_none());
    let both = Password::from_str("2-9 c: ccccccccc").unwrap();
    assert!(policy_toboggan_corporate::validate(&both).is_none());
}
