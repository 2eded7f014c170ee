pub mod day1;
pub mod day10;
pub mod day16;
pub mod day2;
pub mod day3;
pub mod day4;
pub mod day6;
pub mod day7;
