use hypatia::calendar::days_in_month;
use hypatia::calendar::days_in_year;
use hypatia::calendar::is_leap_year;
use hypatia::calendar::Month;
use hypatia::calendar::Year;
use hypatia::collatz::collatz;
use hypatia::collatz::CollazGraph;
use hypatia::number_as_words;
use hypatia::puzzles::char_value;
use hypatia::puzzles::factorial;
use hypatia::puzzles::perm;
use hypatia::puzzles::square_of_sums;
use hypatia::puzzles::sum_of_squares;

#[test]
fn words_for_small_numbers() {
    assert_eq!(number_as_words(1), "one");
    assert_eq!(number_as_words(14), "fourteen");
    assert_eq!(number_as_words(21), "twenty one");
    assert_eq!(number_as_words(100), "one hundred");
    assert_eq!(number_as_words(115), "one hundred and fifteen");
    assert_eq!(number_as_words(342), "three hundred and forty two");
    assert_eq!(number_as_words(1000), "one thousand");
}

#[test]
fn words_letter_count_up_to_one_thousand() {
    let mut count = 0;
    for i in 1..=1000 {
        count += number_as_words(i).chars().filter(|c| *c != ' ').count();
    }
    assert_eq!(count, 21124);
}

#[test]
fn leap_years_follow_the_century_rule() {
    // The century count of 1900 is nineteen, which four does not divide, so
    // the rule keeps it; the century count of 2000 divides by four, so the
    // rule excludes it.
    assert!(is_leap_year(Year::new(1900)));
    assert!(is_leap_year(Year::new(1904)));
    assert!(!is_leap_year(Year::new(1901)));
    assert!(!is_leap_year(Year::new(2000)));
}

#[test]
fn month_and_year_lengths() {
    assert_eq!(days_in_month(Year::new(1901), Month::new(0)), 31);
    assert_eq!(days_in_month(Year::new(1901), Month::new(3)), 30);
    assert_eq!(days_in_month(Year::new(1901), Month::new(1)), 28);
    assert_eq!(days_in_month(Year::new(1904), Month::new(1)), 29);
    assert_eq!(days_in_year(Year::new(1904)), 366);
    assert_eq!(days_in_year(Year::new(1901)), 365);
}

#[test]
fn collatz_steps() {
    assert_eq!(collatz(6), 3);
    assert_eq!(collatz(3), 10);
    assert_eq!(collatz(16), 8);
}

#[test]
fn collatz_chain_lengths_are_memoised() {
    let mut graph = CollazGraph::new();
    assert_eq!(graph.traverse(1), Some(1));
    assert_eq!(graph.traverse(2), Some(2));
    // 6 -> 3 -> 10 -> 5 -> 16 -> 8 -> 4 -> 2 -> 1
    assert_eq!(graph.traverse(6), Some(9));
    assert_eq!(graph.traverse(3), Some(8));
    for i in 2..=100 {
        graph.traverse(i);
    }
    let (longest, length) = graph.longest_chain();
    assert_eq!(longest, 97);
    assert_eq!(length, 119);
}

#[test]
fn letter_values() {
    assert_eq!(char_value('A'), 1);
    assert_eq!(char_value('C'), 3);
    assert_eq!(char_value('Z'), 26);
}

#[test]
fn square_of_sums_and_sum_of_squares() {
    assert_eq!(sum_of_squares(10), 385);
    assert_eq!(square_of_sums(10), 3025);
    assert_eq!(square_of_sums(100) - sum_of_squares(100), 25164150);
}

#[test]
fn factorial_of_ten() {
    assert_eq!(factorial(10).to_text(), "3628800");
}

#[test]
fn factorial_of_one_hundred_has_digit_sum_648() {
    let f = factorial(100);
    let digit_sum: u64 = f.digits().iter().map(|&d| u64::from(d)).sum();
    assert_eq!(digit_sum, 648);
}

#[test]
fn first_permutations_are_lexicographic() {
    assert_eq!(perm(0, 3), vec![0, 1, 2]);
    assert_eq!(perm(1, 3), vec![0, 2, 1]);
    assert_eq!(perm(2, 3), vec![1, 0, 2]);
    assert_eq!(perm(5, 3), vec![2, 1, 0]);
}

#[test]
fn millionth_permutation_of_ten_digits() {
    // The puzzle counts permutations from one, so the millionth is index
    // 999999 counted from zero.
    assert_eq!(perm(999999, 10), vec![2, 7, 8, 3, 9, 1, 5, 4, 6, 0]);
}
