use daily_puzzles::day9;

#[test]
fn derive_takes_differences() {
    let v = vec![0, 3, 6, 9, 12, 15];
    let d = day9::derive(&v);
    assert_eq!(d, vec![3, 3, 3, 3, 3]);
}

#[test]
fn integrate_runs_sums() {
    let v = vec![3, 3, 3];
    let r = day9::integrate(&v, 1);
    assert_eq!(r, vec![1, 4, 7, 10]);
}

#[test]
fn extrapolate_extends_by_one() {
    assert_eq!(day9::extrapolate(&vec![0, 3, 6, 9, 12, 15]), 18);
    assert_eq!(day9::extrapolate(&vec![1, 3, 6, 10, 15, 21]), 28);
    assert_eq!(day9::extrapolate(&vec![10, 13, 16, 21, 30, 45]), 68);
    assert_eq!(day9::extrapolate(&vec![0, 0, 0]), 0);
    assert_eq!(day9::extrapolate(&vec![-3, -6, -9]), -12);
}

#[test]
fn races_count_winning_holds() {
    assert_eq!(day6_ways(7, 9), 4);
    assert_eq!(day6_ways(15, 40), 8);
    assert_eq!(day6_ways(30, 200), 9);
}

fn day6_ways(t: u64, d: u64) -> u64 {
    daily_puzzles::day06::get_improvement_possibilities(t, d)
}

#[test]
fn card_scoring() {
    assert_eq!(daily_puzzles::day04::score(0), 0);
    assert_eq!(daily_puzzles::day04::score(1), 1);
    assert_eq!(daily_puzzles::day04::score(4), 8);
}

#[test]
fn card_matches_are_distinct() {
    let w = vec![41, 48, 83, 86, 17];
    let p = vec![83, 86, 6, 31, 17, 9, 48, 53];
    assert_eq!(daily_puzzles::day04::count_matches(&w, &p), 4);
    // a repeated pick counts once
    let p2 = vec![83, 83, 83];
    assert_eq!(daily_puzzles::day04::count_matches(&w, &p2), 1);
}
