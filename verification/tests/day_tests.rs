use advent_of_code::day01;
use advent_of_code::day13;
use advent_of_code::day16;
use advent_of_code::day02;
use advent_of_code::day03;
use advent_of_code::day07;
use advent_of_code::day08;
use advent_of_code::day09;
use advent_of_code::day10;
use advent_of_code::day11;
use advent_of_code::day12;
use advent_of_code::day17;
use advent_of_code::day18;
use advent_of_code::day19;
use advent_of_code::day25;

#[test]
fn day01_part_one_example() {
    let input = "3   4\n4   3\n2   5\n1   3\n3   9\n3   3\n";
    assert_eq!(day01::part_one(input), Some(11));
}

#[test]
fn day01_part_two_example() {
    let input = "3   4\n4   3\n2   5\n1   3\n3   9\n3   3\n";
    assert_eq!(day01::part_two(input), Some(31));
}

#[test]
fn day02_part_one_example() {
    let input = "7 6 4 2 1\n1 2 7 8 9\n9 7 6 2 1\n1 3 2 4 5\n8 6 4 4 1\n1 3 6 7 9\n";
    assert_eq!(day02::part_one(input), Some(2));
}

#[test]
fn day02_part_two_example() {
    let input = "7 6 4 2 1\n1 2 7 8 9\n9 7 6 2 1\n1 3 2 4 5\n8 6 4 4 1\n1 3 6 7 9\n";
    assert_eq!(day02::part_two(input), Some(4));
}

#[test]
fn day02_is_safe_cases() {
    assert!(day02::is_safe(&[7, 6, 4, 2, 1]));
    assert!(!day02::is_safe(&[1, 2, 7, 8, 9]));
    assert!(day02::is_safe(&[1, 3, 6, 7, 9]));
    assert!(!day02::can_be_made_safe(&[9, 7, 6, 2, 1]));
    assert!(day02::can_be_made_safe(&[1, 3, 2, 4, 5]));
    assert!(day02::can_be_made_safe(&[8, 6, 4, 4, 1]));
}

#[test]
fn day03_part_one_example() {
    let input = "xmul(2,4)%&mul[3,7]!@^do_not_mul(5,5)+mul(32,64]then(mul(11,8)mul(8,5))";
    assert_eq!(day03::part_one(input), Some(161));
}

#[test]
fn day03_part_two_example() {
    let input = "xmul(2,4)&mul[3,7]!^don't()_mul(5,5)+mul(32,64](mul(11,8)undo()?mul(8,5))";
    assert_eq!(day03::part_two(input), Some(48));
}

const DAY07_EXAMPLE: &str = "190: 10 19\n3267: 81 40 27\n83: 17 5\n156: 15 6\n7290: 6 8 6 15\n161011: 16 10 13\n192: 17 8 14\n21037: 9 7 18 13\n292: 11 6 16 20\n";

#[test]
fn day07_part_one_example() {
    assert_eq!(day07::part_one(DAY07_EXAMPLE), Some(3749));
}

#[test]
fn day07_part_two_example() {
    assert_eq!(day07::part_two(DAY07_EXAMPLE), Some(11387));
}

#[test]
fn test_can_be_made_true_part_two() {
    assert!(day07::can_be_made_true_with_merge(7290, &[6, 8, 6, 15]));
    assert!(day07::can_be_made_true_with_merge(192, &[17, 8, 14]));
}

#[test]
fn day08_part_one_example() {
    let input = "............\n........0...\n.....0......\n.......0....\n....0.......\n......A.....\n............\n............\n........A...\n.........A..\n............\n............\n";
    assert_eq!(day08::part_one(input), Some(14));
}

#[test]
fn day08_two_antennas() {
    // two antennas in a row project one antinode each side
    assert_eq!(day08::part_one("..........\n...a..a...\n..........\n"), Some(2));
}

#[test]
fn day09_part_one_example() {
    assert_eq!(day09::part_one("2333133121414131402\n"), Some(1928));
}

#[test]
fn day09_part_one_tiny() {
    // 12345: one block of file 0, two gaps, three of file 1, four gaps,
    // five of file 2 compacts to 022111222
    assert_eq!(day09::part_one("12345\n"), Some(60));
}

#[test]
fn day10_part_one_example() {
    let input = "89010123\n78121874\n87430965\n96549874\n45678903\n32019012\n01329801\n10456732\n";
    assert_eq!(day10::part_one(input), Some(36));
}

#[test]
fn day10_single_trailhead() {
    // one trailhead that reaches a single peak two ways still scores one
    let input = "0123456789\n";
    assert_eq!(day10::part_one(input), Some(1));
}

#[test]
fn day11_part_one_example() {
    assert_eq!(day11::part_one("125 17\n"), Some(55312));
}

#[test]
fn day11_part_two_example() {
    assert_eq!(day11::part_two("125 17\n"), Some(65601038650482));
}

#[test]
fn day12_part_one_small_example() {
    assert_eq!(day12::part_one("AAAA\nBBCD\nBBCC\nEEEC\n"), Some(140));
}

#[test]
fn day12_part_one_holes_example() {
    assert_eq!(day12::part_one("OOOOO\nOXOXO\nOOOOO\nOXOXO\nOOOOO\n"), Some(772));
}

#[test]
fn day12_part_one_large_example() {
    let input = "RRRRIICCFF\nRRRRIICCCF\nVVRRRCCFFF\nVVRCCCJFFF\nVVVVCJJCFE\nVVIVCCJJEE\nVVIIICJJEE\nMIIIIIJJEE\nMIIISIJEEE\nMMMISSJEEE\n";
    assert_eq!(day12::part_one(input), Some(1930));
}

const DAY13_EXAMPLE: &str = "Button A: X+94, Y+34\nButton B: X+22, Y+67\nPrize: X=8400, Y=5400\n\nButton A: X+26, Y+66\nButton B: X+67, Y+21\nPrize: X=12748, Y=12176\n\nButton A: X+17, Y+86\nButton B: X+84, Y+37\nPrize: X=7870, Y=6450\n\nButton A: X+69, Y+23\nButton B: X+27, Y+71\nPrize: X=18641, Y=10279\n";

#[test]
fn day13_part_one_example() {
    assert_eq!(day13::part_one(DAY13_EXAMPLE), Some(480));
}

#[test]
fn day13_solve_equation_exact() {
    let eq = day13::Equation { ax: 94, ay: 34, bx: 22, by: 67, rx: 8400, ry: 5400 };
    assert_eq!(day13::solve_equation(&eq, 0), Some(280));
    let eq2 = day13::Equation { ax: 26, ay: 66, bx: 67, by: 21, rx: 12748, ry: 12176 };
    assert_eq!(day13::solve_equation(&eq2, 0), Some(0));
}

#[test]
fn day13_part_two_example() {
    // with the shifted prizes only the second and fourth machines pay out
    let r = day13::part_two(DAY13_EXAMPLE);
    assert!(r.is_some());
    assert_eq!(r, Some(875318608908));
}

const DAY16_EXAMPLE_1: &str = "###############\n#.......#....E#\n#.#.###.#.###.#\n#.....#.#...#.#\n#.###.#####.#.#\n#.#.#.......#.#\n#.#.#####.###.#\n#...........#.#\n###.#.#####.#.#\n#...#.....#.#.#\n#.#.#.###.#.#.#\n#.....#...#.#.#\n#.###.#.#.#.#.#\n#S..#.....#...#\n###############\n";

const DAY16_EXAMPLE_2: &str = "#################\n#...#...#...#..E#\n#.#.#.#.#.#.#.#.#\n#.#.#.#...#...#.#\n#.#.#.#.###.#.#.#\n#...#.#.#.....#.#\n#.#.#.#.#.#####.#\n#.#...#.#.#.....#\n#.#.#####.#.###.#\n#.#.#.......#...#\n#.#.###.#####.###\n#.#.#...#.....#.#\n#.#.#.#####.###.#\n#.#.#.........#.#\n#.#.#.#########.#\n#S#.............#\n#################\n";

#[test]
fn day16_part_one_first_example() {
    assert_eq!(day16::part_one(DAY16_EXAMPLE_1), Some(7036));
}

#[test]
fn day16_part_one_second_example() {
    assert_eq!(day16::part_one(DAY16_EXAMPLE_2), Some(11048));
}

const DAY17_EXAMPLE: &str =
    "Register A: 729\nRegister B: 0\nRegister C: 0\n\nProgram: 0,1,5,4,3,0\n";

#[test]
fn day17_part_one_example() {
    assert_eq!(day17::part_one(DAY17_EXAMPLE).as_deref(), Some("4,6,3,5,6,3,5,2,1,0"));
}

#[test]
fn day17_part_two_example() {
    let input = "Register A: 2024\nRegister B: 0\nRegister C: 0\n\nProgram: 0,3,5,4,3,0\n";
    assert_eq!(day17::part_two(input), Some(117440));
}

const DAY18_EXAMPLE: &str = "5,4\n4,2\n4,5\n3,0\n2,1\n6,3\n2,4\n1,5\n0,6\n3,3\n2,6\n5,1\n1,2\n5,5\n2,5\n6,5\n1,4\n0,4\n6,4\n1,1\n6,1\n1,0\n0,5\n1,6\n2,0\n";

#[test]
fn day18_part_one_example() {
    assert_eq!(day18::solve_part_one(DAY18_EXAMPLE, 7, 12), Some(22));
}

#[test]
fn day18_part_two_example() {
    assert_eq!(day18::solve_part_two(DAY18_EXAMPLE, 7, 12), Some((6, 1)));
}

const DAY19_EXAMPLE: &str =
    "r, wr, b, g, bwu, rb, gb, br\n\nbrwrr\nbggr\ngbbr\nrrbgbr\nubwu\nbwurrg\nbrgr\nbbrgwb\n";

#[test]
fn day19_part_one_example() {
    assert_eq!(day19::part_one(DAY19_EXAMPLE), Some(6));
}

#[test]
fn day19_part_two_example() {
    assert_eq!(day19::part_two(DAY19_EXAMPLE), Some(16));
}

const DAY25_EXAMPLE: &str = "#####\n.####\n.####\n.####\n.#.#.\n.#...\n.....\n\n#####\n##.##\n.#.##\n...##\n...#.\n...#.\n.....\n\n.....\n#....\n#....\n#...#\n#.#.#\n#.###\n#####\n\n.....\n.....\n#.#..\n###..\n###.#\n###.#\n#####\n\n.....\n.....\n.....\n#....\n#.#..\n#.#.#\n#####\n";

#[test]
fn day25_part_one_example() {
    assert_eq!(day25::part_one(DAY25_EXAMPLE), Some(3));
}

#[test]
fn day25_part_two_is_empty() {
    assert_eq!(day25::part_two(DAY25_EXAMPLE), None);
}
