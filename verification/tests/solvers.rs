use daily_puzzles::day01;
use daily_puzzles::day02;
use daily_puzzles::day04;
use daily_puzzles::day05;
use daily_puzzles::day06;
use daily_puzzles::day09;
use daily_puzzles::day8;
use daily_puzzles::day9;
use daily_puzzles::template;

fn to_lines(text: &str) -> Vec<String> {
    text.lines().map(|l| l.to_string()).collect()
}

const ALMANAC: &str = "seeds: 79 14 55 13\n\nseed-to-soil map:\n50 98 2\n52 50 48\n\nsoil-to-fertilizer map:\n0 15 37\n37 52 2\n39 0 15\n\nfertilizer-to-water map:\n49 53 8\n0 11 42\n42 0 7\n57 7 4\n\nwater-to-light map:\n88 18 7\n18 25 70\n\nlight-to-temperature map:\n45 77 23\n81 45 19\n68 64 13\n\ntemperature-to-humidity map:\n0 69 1\n1 0 69\n\nhumidity-to-location map:\n60 56 37\n56 93 4\n";

#[test]
fn day05_test_part1() {
    let input = to_lines(ALMANAC);
    let expected = 35;
    assert_eq!(day05::part1(&input), expected);
}

#[test]
fn day05_test_part2() {
    let input = to_lines(ALMANAC);
    let expected = 46;
    assert_eq!(day05::part2(&input), expected);
}

#[test]
fn day01_test_part1() {
    let input = to_lines("1abc2\npqr3stu8vwx\na1b2c3d4e5f\ntreb7uchet\n");
    let expected = 142;
    assert_eq!(day01::part1(&input), expected);
}

#[test]
fn day04_test_part1() {
    let input = to_lines(
        "Card 1: 41 48 83 86 17 | 83 86  6 31 17  9 48 53\nCard 2: 13 32 20 16 61 | 61 30 68 82 17 32 24 19\nCard 3:  1 21 53 59 44 | 69 82 63 72 16 21 14  1\nCard 4: 41 92 73 84 69 | 59 84 76 51 58  5 54 83\nCard 5: 87 83 26 28 32 | 88 30 70 12 93 22 82 36\nCard 6: 31 18 13 56 72 | 74 77 10 23 35 67 36 11\n",
    );
    let expected = 13;
    assert_eq!(day04::part1(&input), expected);
}

#[test]
fn day04_test_part2() {
    let input = to_lines(
        "Card 1: 41 48 83 86 17 | 83 86  6 31 17  9 48 53\nCard 2: 13 32 20 16 61 | 61 30 68 82 17 32 24 19\nCard 3:  1 21 53 59 44 | 69 82 63 72 16 21 14  1\nCard 4: 41 92 73 84 69 | 59 84 76 51 58  5 54 83\nCard 5: 87 83 26 28 32 | 88 30 70 12 93 22 82 36\nCard 6: 31 18 13 56 72 | 74 77 10 23 35 67 36 11\n",
    );
    let expected = 30;
    assert_eq!(day04::part2(&input), expected);
}

#[test]
fn day06_test_part1() {
    let input = to_lines("Time:      7  15   30\nDistance:  9  40  200\n");
    let expected = 288;
    assert_eq!(day06::part1(&input), expected);
}

#[test]
fn day06_test_part2() {
    let input = to_lines("Time:      7  15   30\nDistance:  9  40  200\n");
    let expected = 71503;
    assert_eq!(day06::part2(&input), expected);
}

#[test]
fn day9_test_part1() {
    let input = "0 3 6 9 12 15\n1 3 6 10 15 21\n10 13 16 21 30 45";
    let expected = 114;
    assert_eq!(day9::part1(input), expected);
}

#[test]
fn day9_test_part2() {
    let input = "0 3 6 9 12 15\n1 3 6 10 15 21\n10 13 16 21 30 45";
    let expected = 2;
    assert_eq!(day9::part2(input), expected);
}

#[test]
fn day09_test_part1() {
    let input = to_lines("0 3 6 9 12 15\n1 3 6 10 15 21\n10 13 16 21 30 45\n");
    let expected = 114;
    assert_eq!(day09::part1(&input), expected);
}

#[test]
fn day09_test_part2() {
    let input = to_lines("0 3 6 9 12 15\n1 3 6 10 15 21\n10 13 16 21 30 45\n");
    let expected = 2;
    assert_eq!(day09::part2(&input), expected);
}

#[test]
fn template_test_part1() {
    let input = "";
    let expected = 0;
    assert_eq!(template::part1(input), expected);
}

#[test]
fn template_test_part2() {
    let input = "";
    let expected = 0;
    assert_eq!(template::part2(input), expected);
}

#[test]
fn day8_test_part1() {
    let input = "LLR\n\nAAA = (BBB, BBB)\nBBB = (AAA, ZZZ)\nZZZ = (ZZZ, ZZZ)";
    let expected = 6;
    assert_eq!(day8::part1(input), expected);
}

#[test]
fn day8_test_part2() {
    let input = "LR\n\n11A = (11B, XXX)\n11B = (XXX, 11Z)\n11Z = (11B, XXX)\n22A = (22B, XXX)\n22B = (22C, 22C)\n22C = (22Z, 22Z)\n22Z = (22B, 22B)\nXXX = (XXX, XXX)";
    let expected = 6;
    assert_eq!(day8::part2(input), expected);
}

#[test]
fn day02_test_part1() {
    let input = to_lines("Game 1: 3 blue, 4 red; 1 red, 2 green, 6 blue; 2 green\nGame 2: 1 blue, 2 green; 3 green, 4 blue, 1 red; 1 green, 1 blue\nGame 3: 8 green, 6 blue, 20 red; 5 blue, 4 red, 13 green; 5 green, 1 red\nGame 4: 1 green, 3 red, 6 blue; 3 green, 6 red; 3 green, 15 blue, 14 red\nGame 5: 6 red, 1 blue, 3 green; 2 blue, 1 red, 2 green\n");
    let expected = 8;
    assert_eq!(day02::part1(&input), expected);
}

#[test]
fn day02_test_part2() {
    let input = to_lines("Game 1: 3 blue, 4 red; 1 red, 2 green, 6 blue; 2 green\nGame 2: 1 blue, 2 green; 3 green, 4 blue, 1 red; 1 green, 1 blue\nGame 3: 8 green, 6 blue, 20 red; 5 blue, 4 red, 13 green; 5 green, 1 red\nGame 4: 1 green, 3 red, 6 blue; 3 green, 6 red; 3 green, 15 blue, 14 red\nGame 5: 6 red, 1 blue, 3 green; 2 blue, 1 red, 2 green\n");
    let expected = 2286;
    assert_eq!(day02::part2(&input), expected);
}
