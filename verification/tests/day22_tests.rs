use advent_of_code::day22::next;
use advent_of_code::day22::part_one;
use advent_of_code::day22::part_two;

#[test]
fn test_next() {
    assert_eq!(next(123), 15887950);
}

#[test]
fn test_2000() {
    let mut a = 1;
    for _ in 0..2000 {
        a = next(a);
    }
    assert_eq!(a, 8685429);
}

#[test]
fn test_10() {
    let nbr = 123;
    let mut v = vec![nbr];
    for _ in 0..9 {
        let last = *v.last().unwrap();
        v.push(next(last));
    }
    assert_eq!(v.len(), 10);
    assert_eq!(v[1], 15887950);
    assert_eq!(v[2], 16495136);
}

#[test]
fn day22_part_one_example() {
    assert_eq!(part_one("1\n10\n100\n2024\n"), Some(37327623));
}

#[test]
fn day22_part_two_example() {
    assert_eq!(part_two("1\n2\n3\n2024\n"), Some(23));
}
