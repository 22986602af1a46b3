use advent_of_code::day14::Robot;
use advent_of_code::day14::Vec2;
use advent_of_code::day14::solve_part_one;

#[test]
fn test_robot_go() {
    let mut robot = Robot { pos: Vec2 { x: 0, y: 0 }, v: Vec2 { x: 1, y: 0 } };
    robot.step(1, 10, 10);
    assert_eq!(robot.pos, Vec2 { x: 1, y: 0 });
}

#[test]
fn test_robot_wrap() {
    let mut robot = Robot { pos: Vec2 { x: 9, y: 9 }, v: Vec2 { x: 1, y: 1 } };
    robot.step(1, 10, 10);
    assert_eq!(robot.pos, Vec2 { x: 0, y: 0 });
}

#[test]
fn test_robot_wrap_neg() {
    let mut robot = Robot { pos: Vec2 { x: 0, y: 0 }, v: Vec2 { x: -1, y: -1 } };
    robot.step(1, 10, 10);
    assert_eq!(robot.pos, Vec2 { x: 9, y: 9 });
}

#[test]
fn day14_part_one_example() {
    let input = "p=0,4 v=3,-3\np=6,3 v=-1,-3\np=10,3 v=-1,2\np=2,0 v=2,-1\np=0,0 v=1,3\np=3,0 v=-2,-2\np=7,6 v=-1,-3\np=3,0 v=-1,-2\np=9,3 v=2,3\np=7,3 v=-1,2\np=2,4 v=2,-3\np=9,5 v=-3,-3\n";
    assert_eq!(solve_part_one(input, 100, 11, 7), Some(12));
}
