use stupid_fish::builtins::cd::history::{
    check_status_datagram, now_timestamp, seconds_since_epoch, timestamp_from_offset, History,
    NotAPath, UnexpectedData,
};

#[test]
fn tests() -> std::io::Result<()> {
    const MAX_SIZE: usize = 3;

    let mut hist = History::new(MAX_SIZE);

    hist.add("aaa");
    hist.add("bbb");
    hist.add("ccc");
    assert_eq!(hist.len(), MAX_SIZE);
    assert_eq!(hist.len_by_path(), MAX_SIZE);

    // Adding existing → updates time, doesn't grow size
    hist.add("bbb");
    assert_eq!(hist.len(), MAX_SIZE);
    assert_eq!(hist.len_by_path(), MAX_SIZE);

    // Adding new → oldest ("aaa") should be removed
    hist.add("ddd");
    assert_eq!(hist.len(), MAX_SIZE);
    assert_eq!(hist.len_by_path(), MAX_SIZE);

    let recent: Vec<_> = hist.recents().into_iter().map(|(_, p)| p).collect();
    assert_eq!(recent, vec!["ddd", "bbb", "ccc"]);

    Ok(())
}

fn paths_of(hist: &History) -> Vec<String> {
    hist.recents().into_iter().map(|(_, p)| p).collect()
}

#[test]
fn new_history_keeps_at_least_one_entry() {
    let mut hist = History::new(0);
    assert_eq!(hist.len(), 0);
    hist.add_at("/a", 1);
    hist.add_at("/b", 2);
    assert_eq!(hist.len(), 1);
    assert_eq!(hist.len_by_path(), 1);
    assert_eq!(hist.recents(), vec![(2, "/b".to_string())]);
}

#[test]
fn add_at_lists_newest_first_with_instants() {
    let mut hist = History::new(5);
    hist.add_at("/x", 10);
    hist.add_at("/y", 20);
    hist.add_at("/z", 15);
    assert_eq!(
        hist.recents(),
        vec![(20, "/y".to_string()), (15, "/z".to_string()), (10, "/x".to_string())]
    );
}

#[test]
fn revisit_moves_path_to_front_and_keeps_size() {
    let mut hist = History::new(3);
    hist.add_at("/a", 1);
    hist.add_at("/b", 2);
    hist.add_at("/c", 3);
    hist.add_at("/a", 4);
    assert_eq!(hist.len(), 3);
    assert_eq!(hist.len_by_path(), 3);
    assert_eq!(paths_of(&hist), vec!["/a", "/c", "/b"]);
}

#[test]
fn new_path_at_capacity_evicts_oldest() {
    let mut hist = History::new(2);
    hist.add_at("/a", 1);
    hist.add_at("/b", 2);
    hist.add_at("/c", 3);
    assert_eq!(hist.len(), 2);
    assert_eq!(hist.len_by_path(), 2);
    assert_eq!(paths_of(&hist), vec!["/c", "/b"]);
}

#[test]
fn visit_at_a_recorded_instant_replaces_that_entry_in_the_time_index() {
    // Two visits that the clock reports at the same instant: the time index keeps the
    // later path there, the path index keeps both.
    let mut hist = History::new(3);
    hist.add_at("/a", 7);
    hist.add_at("/b", 7);
    assert_eq!(hist.len(), 1);
    assert_eq!(hist.len_by_path(), 2);
    assert_eq!(hist.recents(), vec![(7, "/b".to_string())]);
}

#[test]
fn clear_forgets_everything() {
    let mut hist = History::new(3);
    hist.add_at("/a", 1);
    hist.add_at("/b", 2);
    hist.clear();
    assert_eq!(hist.len(), 0);
    assert_eq!(hist.len_by_path(), 0);
    assert!(hist.recents().is_empty());
    hist.add_at("/c", 3);
    assert_eq!(paths_of(&hist), vec!["/c"]);
}

#[test]
fn replace_paths_loads_in_order() {
    let mut hist = History::new(3);
    hist.add_at("/old", 1);
    let items = vec![Some("/p".to_string()), Some("/q".to_string())];
    assert_eq!(hist.replace_paths(&items), Ok(()));
    assert_eq!(paths_of(&hist), vec!["/q", "/p"]);
}

#[test]
fn replace_paths_stops_at_an_item_that_is_not_a_path() {
    let mut hist = History::new(3);
    hist.add_at("/old", 1);
    let items = vec![Some("/p".to_string()), None, Some("/q".to_string())];
    assert_eq!(hist.replace_paths(&items), Err(NotAPath));
    assert_eq!(paths_of(&hist), vec!["/p"]);
}

#[test]
fn recent_seconds_rounds_down_and_clamps_before_epoch() {
    let mut hist = History::new(3);
    hist.add_at("/before", -5);
    hist.add_at("/after", 2_999_999_999);
    assert_eq!(
        hist.recent_seconds(),
        vec![(2, "/after".to_string()), (0, "/before".to_string())]
    );
}

#[test]
fn timestamps_from_offsets() {
    assert_eq!(timestamp_from_offset(Ok(42)), 42);
    assert_eq!(timestamp_from_offset(Err(42)), -42);
    assert_eq!(timestamp_from_offset(Ok(u128::MAX)), i128::MAX);
    assert_eq!(timestamp_from_offset(Err(u128::MAX)), i128::MIN);
    assert_eq!(timestamp_from_offset(Ok(i128::MAX as u128)), i128::MAX);
}

#[test]
fn seconds_since_epoch_values() {
    assert_eq!(seconds_since_epoch(-1), 0);
    assert_eq!(seconds_since_epoch(0), 0);
    assert_eq!(seconds_since_epoch(999_999_999), 0);
    assert_eq!(seconds_since_epoch(1_000_000_000), 1);
    assert_eq!(seconds_since_epoch(1_725_029_869_123_456_789), 1_725_029_869);
    assert_eq!(seconds_since_epoch(i128::MAX), u64::MAX);
}

#[test]
fn clock_reads_after_2020() {
    // 2020-01-01 in nanoseconds since the Unix epoch.
    assert!(now_timestamp() > 1_577_836_800_000_000_000);
}

#[test]
fn status_datagrams_must_be_text() {
    assert_eq!(check_status_datagram(b"/home/user"), Ok(()));
    assert_eq!(check_status_datagram("caf\u{e9}".as_bytes()), Ok(()));
    assert_eq!(check_status_datagram(&[0xff, 0xfe]), Err(UnexpectedData));
    assert_eq!(check_status_datagram(&[0xc0, 0x80]), Err(UnexpectedData));
    assert_eq!(check_status_datagram(b""), Ok(()));
}

#[test]
fn second_visit_equals_one_visit_at_the_later_instant() {
    let mut twice = History::new(2);
    let mut once = History::new(2);
    for h in [&mut twice, &mut once] {
        h.add_at("/a", 1);
        h.add_at("/b", 2);
    }
    twice.add_at("/c", 3);
    twice.add_at("/c", 4);
    once.add_at("/c", 4);
    assert_eq!(twice.recents(), once.recents());
    assert_eq!(twice.len_by_path(), once.len_by_path());
}

#[test]
fn distinct_paths_fill_up_to_capacity() {
    for k in 0..6 {
        let mut h = History::new(3);
        for i in 0..k {
            h.add_at(&format!("/p{i}"), i as i128);
        }
        assert_eq!(h.len(), k.min(3));
        assert_eq!(h.len_by_path(), k.min(3));
    }
}

#[test]
fn listing_names_each_path_once_even_after_a_repeated_instant() {
    let mut h = History::new(3);
    h.add_at("/a", 5);
    h.add_at("/b", 5);
    h.add_at("/a", 6);
    let entries = h.recents();
    assert_eq!(entries, vec![(6, "/a".to_string())]);
    assert!(h.len() <= 3);
}

#[test]
fn duplicate_lists_the_same_entries_and_evolves_on_its_own() {
    let mut hist = History::new(2);
    hist.add_at("/a", 1);
    hist.add_at("/b", 2);
    let mut copy = hist.duplicate();
    assert_eq!(copy.recents(), hist.recents());
    assert_eq!(copy.len(), 2);
    assert_eq!(copy.len_by_path(), 2);

    copy.add_at("/c", 3);
    assert_eq!(copy.recents(), vec![(3, "/c".to_string()), (2, "/b".to_string())]);
    assert_eq!(hist.recents(), vec![(2, "/b".to_string()), (1, "/a".to_string())]);

    hist.add_at("/a", 4);
    assert_eq!(hist.recents(), vec![(4, "/a".to_string()), (2, "/b".to_string())]);
}

#[test]
fn duplicate_rebuilds_the_path_index_from_the_time_index() {
    let mut hist = History::new(3);
    hist.add_at("/a", 1);
    hist.add_at("/b", 1);
    assert_eq!(hist.len_by_path(), 2);
    let copy = hist.duplicate();
    assert_eq!(copy.recents(), vec![(1, "/b".to_string())]);
    assert_eq!(copy.len(), 1);
    assert_eq!(copy.len_by_path(), 1);
}

#[test]
fn repeated_visit_lists_the_same_paths_as_one_visit() {
    let mut once = History::new(3);
    let mut twice = History::new(3);
    for (i, p) in ["/a", "/b", "/c"].iter().enumerate() {
        once.add_at(p, i as i128);
        twice.add_at(p, i as i128);
    }
    once.add_at("/a", 10);
    twice.add_at("/a", 11);
    twice.add_at("/a", 12);
    assert_eq!(paths_of(&once), paths_of(&twice));
    assert_eq!(paths_of(&once), vec!["/a", "/c", "/b"]);
    assert_eq!(once.len(), twice.len());
}
