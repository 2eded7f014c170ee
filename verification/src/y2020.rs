pub mod day1;
pub mod day2;
pub mod day3;
pub mod day5;
pub mod policy_sled_rental;
pub mod policy_toboggan_corporate;
