use puzzles::d08;
use puzzles::d09;
use puzzles::d10;
use puzzles::d11;
use puzzles::d18;
use puzzles::d25;

const D08_INPUT: &str = "............\n........0...\n.....0......\n.......0....\n....0.......\n......A.....\n............\n............\n........A...\n.........A..\n............\n............";

#[test]
fn d08_test_part1() {
    assert_eq!(d08::part1(D08_INPUT), Some(14));
}

#[test]
fn d08_test_part2() {
    assert_eq!(d08::part2(D08_INPUT), Some(34));
}

const D09_INPUT: &str = "2333133121414131402";

#[test]
fn d09_test_part1() {
    assert_eq!(d09::part1(D09_INPUT), Some(1928));
}

#[test]
fn d09_test_part2() {
    assert_eq!(d09::part2(D09_INPUT), Some(2858));
}

const D10_INPUT: &str = "89010123\n78121874\n87430965\n96549874\n45678903\n32019012\n01329801\n10456732";

#[test]
fn d10_test_part1() {
    assert_eq!(d10::part1(D10_INPUT), Some(36));
}

#[test]
fn d10_test_part2() {
    assert_eq!(d10::part2(D10_INPUT), Some(81));
}

#[test]
fn d11_test_part1() {
    assert_eq!(d11::part1("125 17"), Some(55312));
}

#[test]
fn d11_single_blink() {
    // 0 becomes 1; 10 splits; 99 splits; 999 is multiplied
    assert_eq!(d11::parse_and_do("0 1 10 99 999", 1), Some(7));
}

const D18_INPUT: &str = "5,4\n4,2\n4,5\n3,0\n2,1\n6,3\n2,4\n1,5\n0,6\n3,3\n2,6\n5,1\n1,2\n5,5\n2,5\n6,5\n1,4\n0,4\n6,4\n1,1\n6,1\n1,0\n0,5\n1,6\n2,0";

#[test]
fn d18_test_part1() {
    assert_eq!(d18::solve_part1(D18_INPUT, 7, 7, 12), Some(22));
}

#[test]
fn d18_test_part2() {
    assert_eq!(d18::solve_part2(D18_INPUT, 7, 7), Some((6, 1)));
}

const D25_INPUT: &str = "#####\n.####\n.####\n.####\n.#.#.\n.#...\n.....\n\n#####\n##.##\n.#.##\n...##\n...#.\n...#.\n.....\n\n.....\n#....\n#....\n#...#\n#.#.#\n#.###\n#####\n\n.....\n.....\n#.#..\n###..\n###.#\n###.#\n#####\n\n.....\n.....\n.....\n#....\n#.#..\n#.#.#\n#####\n";

#[test]
fn d25_test_part1() {
    assert_eq!(d25::part1(D25_INPUT), Some(3));
}

#[test]
fn d25_test_part2() {
    let _ = d25::part2(D25_INPUT);
}
