use cryophile::fragment::{parse_chunk_index, Fragment, FragmentQueue};

fn frag(i: i32) -> Fragment {
    Fragment { index: i, path: format!("restore/chunk.{i}") }
}

#[test]
fn fragment_from_path() {
    let f = Fragment::new(String::from("/spool/restore/x/chunk.12")).unwrap();
    assert_eq!(f.index(), 12);
    assert!(!f.is_zero());
    assert!(Fragment::new(String::from("chunk.0")).unwrap().is_zero());
    assert!(Fragment::new(String::from("chunk")).is_none());
    assert!(Fragment::new(String::from("chunk.")).is_none());
    assert!(Fragment::new(String::from("chunk.-1")).is_none());
    assert!(Fragment::new(String::from("chunk.1x")).is_none());
    assert!(Fragment::new(String::from(".7")).is_none());
    assert!(Fragment::new(String::from("dir.3/chunk")).is_none());
    assert!(Fragment::new(String::from("chunk.2147483648")).is_none());
    assert_eq!(Fragment::new(String::from("chunk.2147483647")).unwrap().index, i32::MAX);
}

#[test]
fn chunk_index_parsing() {
    assert_eq!(parse_chunk_index("0"), Some(0));
    assert_eq!(parse_chunk_index("007"), Some(7));
    assert_eq!(parse_chunk_index(""), None);
    assert_eq!(parse_chunk_index("+1"), None);
    assert_eq!(parse_chunk_index("99999999999"), None);
}

#[test]
fn out_of_order_arrival_is_delivered_in_order() {
    let mut q = FragmentQueue::new();
    let mut downstream: Vec<Option<String>> = Vec::new();
    for i in [2, 1, 4, 3, 0] {
        if let Some(p) = q.send(frag(i)) {
            downstream.push(Some(p));
        }
        for p in q.send_backlog() {
            downstream.push(Some(p));
        }
        if q.send_zero_maybe() {
            downstream.push(None);
        }
    }
    assert_eq!(
        downstream,
        vec![
            Some(String::from("restore/chunk.1")),
            Some(String::from("restore/chunk.2")),
            Some(String::from("restore/chunk.3")),
            Some(String::from("restore/chunk.4")),
            None
        ]
    );
}

#[test]
fn offered_paths_come_out_in_order() {
    let mut q = FragmentQueue::new();
    let paths: Vec<String> = ["d/chunk.2", "d/chunk.1", "d/chunk.4", "d/chunk.3", "d/chunk.0"]
        .iter()
        .map(|s| s.to_string())
        .collect();
    let (out, done) = q.offer_paths(paths);
    assert_eq!(out, vec!["d/chunk.1", "d/chunk.2", "d/chunk.3", "d/chunk.4"]);
    assert!(done);
}

#[test]
fn no_end_while_a_gap_remains() {
    let mut q = FragmentQueue::new();
    assert_eq!(q.send(frag(0)), None);
    assert!(q.send_zero_maybe());
    let mut q = FragmentQueue::new();
    assert_eq!(q.send(frag(2)), None);
    assert_eq!(q.send(frag(0)), None);
    assert!(q.send_backlog().is_empty());
    assert!(!q.send_zero_maybe());
    assert_eq!(q.send_path(String::from("x/chunk.1")), Some(String::from("x/chunk.1")));
    assert_eq!(q.send_backlog(), vec![String::from("restore/chunk.2")]);
    assert!(q.send_zero_maybe());
}

#[test]
fn sentinel_and_unrelated_files_are_never_emitted() {
    let mut q = FragmentQueue::new();
    assert_eq!(q.send_path(String::from("x/chunk.0")), None);
    assert_eq!(q.send_path(String::from("x/readme")), None);
    assert!(q.send_zero_maybe());
    let (out, done) = q.offer_paths(vec![String::from("x/other.txt")]);
    assert!(out.is_empty());
    assert!(done);
}

#[test]
fn repeated_chunk_is_dropped() {
    let mut q = FragmentQueue::new();
    assert_eq!(q.send(frag(1)), Some(String::from("restore/chunk.1")));
    assert_eq!(q.send(frag(1)), None);
    assert_eq!(q.send(frag(0)), None);
    assert!(q.send_backlog().is_empty());
    assert!(q.send_zero_maybe());
}

#[test]
fn held_copy_of_a_chunk_handed_on_directly_is_dropped() {
    let mut q = FragmentQueue::new();
    assert_eq!(q.send(frag(3)), None);
    assert_eq!(q.send(frag(1)), Some(String::from("restore/chunk.1")));
    assert_eq!(q.send(frag(2)), Some(String::from("restore/chunk.2")));
    assert_eq!(q.send(frag(3)), Some(String::from("restore/chunk.3")));
    assert_eq!(q.send(frag(0)), None);
    assert!(q.send_backlog().is_empty());
    assert!(q.send_zero_maybe());
}

#[test]
fn duplicates_in_backlog_are_dropped() {
    let mut q = FragmentQueue::new();
    for i in [2, 2, 3, 0] {
        assert_eq!(q.send(frag(i)), None);
    }
    assert_eq!(q.send(frag(1)), Some(String::from("restore/chunk.1")));
    assert_eq!(
        q.send_backlog(),
        vec![String::from("restore/chunk.2"), String::from("restore/chunk.3")]
    );
    assert!(q.send_zero_maybe());
}

#[test]
fn walk_in_two_rounds() {
    let mut q = FragmentQueue::new();
    let (out, done) = q.offer_paths(vec![String::from("d/chunk.3"), String::from("d/chunk.1")]);
    assert_eq!(out, vec!["d/chunk.1"]);
    assert!(!done);
    let (out, done) = q.offer_paths(vec![String::from("d/chunk.0"), String::from("d/chunk.2")]);
    assert_eq!(out, vec!["d/chunk.2", "d/chunk.3"]);
    assert!(done);
}
