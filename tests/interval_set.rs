use cryophile::interval::{freeze_progress, Interval, IntervalSet};

#[test]
fn basic_interval_set() {
    let mut intervals = IntervalSet::new();

    // {[1..1]}
    intervals.insert(Interval::point(1));
    assert_eq!(intervals.len(), 1);
    assert_eq!(intervals.last(), Some(Interval::point(1)).as_ref());
    assert_eq!(intervals.first(), Some(Interval::point(1)).as_ref());

    // {[1..1], [3..3]}
    intervals.insert(Interval::point(3));
    assert_eq!(intervals.len(), 2);
    assert_eq!(intervals.last(), Some(Interval::point(1)).as_ref());
    assert_eq!(intervals.first(), Some(Interval::point(3)).as_ref());

    // {[1..1], [3..4]}
    intervals.insert(Interval::point(4));
    assert_eq!(intervals.len(), 2);
    assert_eq!(intervals.last(), Some(Interval::point(1)).as_ref());
    assert_eq!(intervals.first(), Some(Interval::new(3, 4)).as_ref());

    // {[1..1], [3..4], [7..7]}
    intervals.insert(Interval::point(7));
    assert_eq!(intervals.len(), 3);
    assert_eq!(intervals.last(), Some(Interval::point(1)).as_ref());
    assert_eq!(intervals.first(), Some(Interval::point(7)).as_ref());

    // {[1..1], [3..4], [6..7]}
    intervals.insert(Interval::point(6));
    assert_eq!(intervals.len(), 3);
    assert_eq!(intervals.last(), Some(Interval::point(1)).as_ref());
    assert_eq!(
        intervals.get(&Interval::point(3)),
        Some(Interval::new(3, 4)).as_ref()
    );
    assert_eq!(
        intervals.get(&Interval::point(4)),
        Some(Interval::new(3, 4)).as_ref()
    );
    assert_eq!(
        intervals.get(&Interval::new(3, 4)),
        Some(Interval::new(3, 4)).as_ref()
    );
    assert_eq!(
        intervals.get(&Interval::new(4, 5)),
        Some(Interval::new(3, 4)).as_ref()
    );
    assert_eq!(
        intervals.get(&Interval::new(2, 3)),
        Some(Interval::new(3, 4)).as_ref()
    );
    assert_eq!(
        intervals.get(&Interval::new(2, 5)),
        Some(Interval::new(3, 4)).as_ref()
    );
    assert_eq!(intervals.get(&Interval::point(2)), None);
    assert_eq!(intervals.get(&Interval::point(5)), None);
    assert_eq!(
        intervals.get(&Interval::new(3, 6)),
        Some(Interval::new(6, 7)).as_ref()
    );
    assert_eq!(
        intervals.get(&Interval::new(4, 6)),
        Some(Interval::new(6, 7)).as_ref()
    );
    assert_eq!(
        intervals.get(&Interval::new(1, 7)),
        Some(Interval::new(6, 7)).as_ref()
    );
    assert_eq!(intervals.first(), Some(Interval::new(6, 7)).as_ref());

    // {[1..4], [6..7]}
    intervals.insert(Interval::point(2));
    assert_eq!(intervals.len(), 2);
    assert_eq!(intervals.last(), Some(Interval::new(1, 4)).as_ref());
    assert_eq!(intervals.first(), Some(Interval::new(6, 7)).as_ref());

    // {[1..7]}
    intervals.insert(Interval::point(5));
    assert_eq!(intervals.len(), 1);
    assert_eq!(intervals.last(), Some(Interval::new(1, 7)).as_ref());
    assert_eq!(intervals.first(), Some(Interval::new(1, 7)).as_ref());
}

#[test]
fn insert_between_neighbours_joins_them() {
    let mut intervals = IntervalSet::new();
    intervals.insert(Interval::new(2, 4));
    intervals.insert(Interval::new(6, 9));
    assert_eq!(intervals.len(), 2);
    intervals.insert(Interval::point(5));
    assert_eq!(intervals.len(), 1);
    assert_eq!(intervals.first(), Some(&Interval::new(2, 9)));
}

#[test]
fn insert_without_neighbours_stands_alone() {
    let mut intervals = IntervalSet::new();
    intervals.insert(Interval::point(1));
    intervals.insert(Interval::point(10));
    intervals.insert(Interval::point(5));
    assert_eq!(intervals.len(), 3);
    assert_eq!(intervals.get(&Interval::point(5)), Some(&Interval::point(5)));
    assert!(!intervals.is_empty());
    assert!(IntervalSet::new().is_empty());
    assert_eq!(IntervalSet::new().first(), None);
}

#[test]
fn interval_constructors() {
    assert_eq!(Interval::new(5, 2), Interval { start: 2, end: 5 });
    assert_eq!(Interval::from_range(3..7), Interval { start: 3, end: 6 });
    let a = Interval::new(4, 5);
    let e = a.envelope(&Interval::new(1, 3), &Interval::new(6, 9));
    assert_eq!(e, Interval { start: 1, end: 9 });
}

#[test]
fn freeze_progress_sees_complete_backup() {
    let paths: Vec<String> = ["q/chunk.2", "q/chunk.0", "q/chunk.1", "q/notes.txt", "q/chunk.3"]
        .iter()
        .map(|s| s.to_string())
        .collect();
    let (set, complete) = freeze_progress(&paths);
    assert!(complete);
    assert_eq!(set.len(), 1);
    assert_eq!(set.last(), Some(&Interval::new(0, 3)));
}

#[test]
fn freeze_progress_sees_gap_or_missing_sentinel() {
    let gap: Vec<String> = ["chunk.0", "chunk.1", "chunk.3"].iter().map(|s| s.to_string()).collect();
    let (set, complete) = freeze_progress(&gap);
    assert!(!complete);
    assert_eq!(set.len(), 2);
    let unsealed: Vec<String> = ["chunk.1", "chunk.2"].iter().map(|s| s.to_string()).collect();
    let (set, complete) = freeze_progress(&unsealed);
    assert!(!complete);
    assert_eq!(set.last(), Some(&Interval::new(1, 2)));
    let twice: Vec<String> = ["a/chunk.1", "b/chunk.1"].iter().map(|s| s.to_string()).collect();
    let (set, _) = freeze_progress(&twice);
    assert_eq!(set.len(), 1);
}

#[test]
fn insert_of_overlapping_interval_takes_the_union() {
    let mut intervals = IntervalSet::new();
    intervals.insert(Interval::new(1, 2));
    intervals.insert(Interval::new(5, 6));
    intervals.insert(Interval::new(10, 12));
    intervals.insert(Interval::new(2, 8));
    assert_eq!(intervals.len(), 2);
    assert_eq!(intervals.last(), Some(&Interval::new(1, 8)));
    assert_eq!(intervals.first(), Some(&Interval::new(10, 12)));
    intervals.insert(Interval::point(11));
    assert_eq!(intervals.len(), 2);
    intervals.insert(Interval::point(9));
    assert_eq!(intervals.len(), 1);
    assert_eq!(intervals.first(), Some(&Interval::new(1, 12)));
}
