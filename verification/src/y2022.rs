pub mod day3;
pub mod day5;
pub mod day6;
