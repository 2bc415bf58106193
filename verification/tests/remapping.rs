use daily_puzzles::day05::{Interval, RemapEntry, RemapTable};

fn table(entries: Vec<RemapEntry>) -> RemapTable {
    RemapTable { entries }
}

fn entry(destination: u64, source: u64, length: u64) -> RemapEntry {
    RemapEntry { source, destination, length }
}

#[test]
fn single_value_translated() {
    let t = table(vec![entry(50, 98, 2), entry(52, 50, 48)]);
    assert_eq!(t.get_destination(98), 50);
    assert_eq!(t.get_destination(99), 51);
    assert_eq!(t.get_destination(53), 55);
    // a value outside every entry passes through unchanged
    assert_eq!(t.get_destination(10), 10);
}

#[test]
fn empty_table_is_identity() {
    // identity fallback: an empty table changes nothing
    let t = table(vec![]);
    assert_eq!(t.get_destination(0), 0);
    assert_eq!(t.get_destination(12345), 12345);
    let out = t.get_destination_ranges(&Interval { start: 7, length: 5 });
    assert_eq!(out.len(), 1);
    assert_eq!(out[0], Interval { start: 7, length: 5 });
}

#[test]
fn interval_partition_lengths() {
    // partition: output lengths add up to the input length
    let t = table(vec![entry(52, 50, 48), entry(50, 98, 2)]);
    let input = Interval { start: 40, length: 70 };
    let out = t.get_destination_ranges(&input);
    let total: u64 = out.iter().map(|iv| iv.length).sum();
    assert_eq!(total, input.length);
    assert!(out.iter().all(|iv| iv.length > 0));
}

#[test]
fn single_value_lands_in_mapped_interval() {
    // the mapped single value sits inside one of the mapped pieces
    let t = table(vec![entry(52, 50, 48), entry(50, 98, 2)]);
    let input = Interval { start: 40, length: 70 };
    let out = t.get_destination_ranges(&input);
    for x in 40..110u64 {
        let y = t.get_destination(x);
        assert!(
            out.iter().any(|iv| iv.start <= y && y < iv.start + iv.length),
            "value {} mapped to {} lies in no output interval",
            x,
            y
        );
    }
}

#[test]
fn exact_cover_single_output() {
    // an interval exactly matching one entry's source interval comes
    // back as one translated interval, unsplit
    let t = table(vec![entry(52, 50, 48)]);
    let out = t.get_destination_ranges(&Interval { start: 50, length: 48 });
    assert_eq!(out.len(), 1);
    assert_eq!(out[0], Interval { start: 52, length: 48 });
}

#[test]
fn no_overlap_returns_input() {
    // an interval no entry touches comes back alone and unchanged
    let t = table(vec![entry(52, 50, 48)]);
    let out = t.get_destination_ranges(&Interval { start: 200, length: 10 });
    assert_eq!(out.len(), 1);
    assert_eq!(out[0], Interval { start: 200, length: 10 });
}

#[test]
fn straddling_interval_is_split() {
    let t = table(vec![entry(0, 10, 10)]);
    let input = Interval { start: 5, length: 20 };
    let out = t.get_destination_ranges(&input);
    let total: u64 = out.iter().map(|iv| iv.length).sum();
    assert_eq!(total, 20);
    // the covered middle moved to [0, 10); the flanks stayed
    assert!(out.contains(&Interval { start: 0, length: 10 }));
    assert!(out.contains(&Interval { start: 5, length: 5 }));
    assert!(out.contains(&Interval { start: 20, length: 5 }));
}

#[test]
fn intersection_of_intervals() {
    let a = Interval { start: 10, length: 10 };
    let b = Interval { start: 15, length: 10 };
    let c = a.intersection(&b).unwrap();
    assert_eq!(c, Interval { start: 15, length: 5 });
    // touching intervals share no point
    let d = Interval { start: 20, length: 5 };
    assert!(a.intersection(&d).is_none());
}

#[test]
fn parsing_is_repeatable() {
    // parsing the same text twice yields structurally equal results
    let lines: Vec<String> = [
        "seeds: 79 14 55 13",
        "",
        "seed-to-soil map:",
        "50 98 2",
        "52 50 48",
    ]
    .iter()
    .map(|l| l.to_string())
    .collect();
    let (seeds_a, tables_a) = daily_puzzles::day05::parse_input(&lines);
    let (seeds_b, tables_b) = daily_puzzles::day05::parse_input(&lines);
    assert_eq!(seeds_a, seeds_b);
    assert_eq!(seeds_a, vec![79, 14, 55, 13]);
    assert_eq!(tables_a.len(), tables_b.len());
    for (ta, tb) in tables_a.iter().zip(tables_b.iter()) {
        assert_eq!(ta.entries, tb.entries);
    }
    assert_eq!(
        tables_a[0].entries,
        vec![entry(50, 98, 2), entry(52, 50, 48)]
    );
}
