use puzzles::d01;
use puzzles::d02;
use puzzles::d03;
use puzzles::d04;
use puzzles::d05;

const D01_INPUT: &str = "3   4\n4   3\n2   5\n1   3\n3   9\n3   3";

#[test]
fn d01_test_part1() {
    assert_eq!(d01::part1(D01_INPUT), Some(11));
}

#[test]
fn d01_test_part2() {
    assert_eq!(d01::part2(D01_INPUT), Some(31));
}

#[test]
fn d01_empty_input() {
    assert_eq!(d01::part1(""), Some(0));
    assert_eq!(d01::part2(""), Some(0));
}

#[test]
fn d01_bad_line() {
    assert_eq!(d01::part1("3 4\nfive 6"), None);
}

const D02_INPUT: &str = "7 6 4 2 1\n1 2 7 8 9\n9 7 6 2 1\n1 3 2 4 5\n8 6 4 4 1\n1 3 6 7 9";

#[test]
fn d02_test_part1() {
    assert_eq!(d02::part1(D02_INPUT), Some(2));
}

#[test]
fn d02_test_part2() {
    assert_eq!(d02::part2(D02_INPUT), Some(4));
}

#[test]
fn d03_test_part1() {
    let input = [
        "xmul(2,4)%&mul[3,7]!@^do_not_mul(5,5)+mul(32,64]t",
        "hen(mul(11,8)mul(8,5))",
    ]
    .join("");
    assert_eq!(d03::part1(&input), Some(161));
}

#[test]
fn d03_test_part2() {
    let input = "xmul(2,4)&mul[3,7]!^don't()_mul(5,5)+mul(32,64](mul(11,8)undo()?mul(8,5))";
    assert_eq!(d03::part2(input), Some(48));
}

#[test]
fn d03_plain() {
    assert_eq!(d03::part1("mul(3,5)"), Some(15));
    assert_eq!(d03::part1("mul(3, 5)"), Some(0));
    assert_eq!(d03::part2("don't()mul(3,5)do()mul(2,2)"), Some(4));
}

const D04_INPUT: &str = "MMMSXXMASM\nMSAMXMSMSA\nAMXSXMAAMM\nMSAMASMSMX\nXMASAMXAMM\nXXAMMXXAMA\nSMSMSASXSS\nSAXAMASAAA\nMAMMMXMMMM\nMXMXAXMASX";

#[test]
fn d04_test_part1() {
    assert_eq!(d04::part1(D04_INPUT), Some(18));
}

#[test]
fn d04_test_part2() {
    assert_eq!(d04::part2(D04_INPUT), Some(9));
}

const D05_INPUT: &str = "47|53\n97|13\n97|61\n97|47\n75|29\n61|13\n75|53\n29|13\n97|29\n53|29\n61|53\n97|53\n61|29\n47|13\n75|47\n97|75\n47|61\n75|61\n47|29\n75|13\n53|13\n\n75,47,61,53,29\n97,61,53,29,13\n75,29,13\n75,97,47,61,53\n61,13,29\n97,13,75,29,47";

#[test]
fn d05_test_part1() {
    assert_eq!(d05::part1(D05_INPUT), Some(143));
}

#[test]
fn d05_test_part2() {
    assert_eq!(d05::part2(D05_INPUT), Some(123));
}

#[test]
fn d05_no_separator() {
    assert_eq!(d05::part1("47|53"), Some(0));
}
