use heartbeat_etl::Config;
use heartbeat_etl::buffer::Beatbuffer;
use heartbeat_etl::heartbeat::{Heartbeat, Heartbeats};
use heartbeat_etl::store::{BeatBuffers, slot_add, slot_get_full};
use heartbeat_etl::tree::Tree;

fn hb(path: &str, domain: Option<&str>, agent: Option<&str>, time: i64) -> Heartbeat {
    Heartbeat {
        pathline: path.to_string(),
        entity: None,
        category: None,
        browser: None,
        domain: domain.map(|s| s.to_string()),
        user_agent: agent.map(|s| s.to_string()),
        time,
        created_at: time,
    }
}

fn batch(user: u128, beats: Vec<Heartbeat>) -> Heartbeats {
    Heartbeats { trace_id: 7, user_id: user, list: beats }
}

#[test]
fn empty_buffer_never_full() {
    let b = Beatbuffer { start: 0, end: i64::MAX, beats: Vec::new() };
    assert!(!b.is_full(&Config::new(0, 0)));
    assert!(!b.is_full(&Config::new(1, 1)));
    let b2 = Beatbuffer::default();
    assert!(!b2.is_full(&Config::new(0, -1)));
}

#[test]
fn fullness_thresholds() {
    let cfg = Config::new(3, 100);
    let two = Beatbuffer { start: 0, end: 50, beats: vec![hb("/a", None, None, 0), hb("/a", None, None, 50)] };
    assert!(!two.is_full(&cfg));
    let three = Beatbuffer {
        start: 0,
        end: 50,
        beats: vec![hb("/a", None, None, 0), hb("/a", None, None, 20), hb("/a", None, None, 50)],
    };
    assert!(three.is_full(&cfg));
    let wide = Beatbuffer { start: 0, end: 100, beats: vec![hb("/a", None, None, 0)] };
    assert!(wide.is_full(&cfg));
    let narrow = Beatbuffer { start: 0, end: 99, beats: vec![hb("/a", None, None, 0), hb("/a", None, None, 99)] };
    assert!(!narrow.is_full(&cfg));
}

#[test]
fn from_batch_window_is_min_to_max() {
    let b = Beatbuffer::from_batch(
        batch(1, vec![hb("/a", None, None, 5), hb("/b", None, None, 1), hb("/c", None, None, 3)]),
        42,
    );
    assert_eq!(b.start, 1);
    assert_eq!(b.end, 5);
    assert_eq!(b.beats.len(), 3);
}

#[test]
fn from_batch_empty_uses_clock_value() {
    let b = Beatbuffer::from_batch(batch(1, Vec::new()), 42);
    assert_eq!(b.start, 42);
    assert_eq!(b.end, 42);
    assert!(b.beats.is_empty());
}

#[test]
fn add_widens_window_and_appends() {
    let mut b = Beatbuffer::from_batch(batch(1, vec![hb("/a", None, None, 10)]), 0);
    b.add(batch(1, vec![hb("/b", None, None, 3), hb("/c", None, None, 20)]));
    assert_eq!(b.start, 3);
    assert_eq!(b.end, 20);
    assert_eq!(b.beats.len(), 3);
    assert_eq!(b.beats[0].pathline, "/a");
    assert_eq!(b.beats[1].pathline, "/b");
    assert_eq!(b.beats[2].pathline, "/c");
}

#[test]
fn grouping_adjacency_three_groups() {
    let b = Beatbuffer::from_batch(
        batch(
            1,
            vec![
                hb("/p", Some("x"), None, 0),
                hb("/p", Some("x"), None, 1),
                hb("/p", Some("y"), None, 2),
                hb("/p", Some("x"), None, 3),
            ],
        ),
        0,
    );
    let groups = b.into_domains();
    assert_eq!(
        groups,
        vec![
            ("x".to_string(), vec![0, 1]),
            ("y".to_string(), vec![2]),
            ("x".to_string(), vec![3]),
        ]
    );
}

#[test]
fn grouping_missing_tag_is_empty_key_but_separate_run() {
    let b = Beatbuffer::from_batch(
        batch(1, vec![hb("/p", None, None, 0), hb("/p", Some(""), None, 1)]),
        0,
    );
    let groups = b.into_domains();
    assert_eq!(groups, vec![("".to_string(), vec![0]), ("".to_string(), vec![1])]);
}

#[test]
fn grouping_by_user_agent() {
    let b = Beatbuffer::from_batch(
        batch(
            1,
            vec![
                hb("/p", None, Some("ff"), 0),
                hb("/p", None, Some("ff"), 1),
                hb("/p", None, Some("cr"), 2),
            ],
        ),
        0,
    );
    let groups = b.into_agents();
    assert_eq!(groups, vec![("ff".to_string(), vec![0, 1]), ("cr".to_string(), vec![2])]);
}

#[test]
fn tree_shared_prefix_two_children() {
    let mut t = Tree::new();
    t.insert("/a/b", 1);
    t.insert("/a/c", 2);
    assert_eq!(t.child_count("/a"), Some(2));
    assert_eq!(t.times_of("/a/b"), vec![1]);
    assert_eq!(t.times_of("/a/c"), vec![2]);
    assert_eq!(t.times_of("/a"), Vec::<i64>::new());
    assert_eq!(t.times_of("/a/d"), Vec::<i64>::new());
}

#[test]
fn tree_repeated_insert_accumulates_on_one_node() {
    let mut t = Tree::new();
    t.insert("/a/b", 1);
    t.insert("/a/b", 2);
    assert_eq!(t.times_of("/a/b"), vec![1, 2]);
    assert_eq!(t.child_count("/a"), Some(1));
    assert_eq!(t.child_count("/a/b"), Some(0));
}

#[test]
fn tree_skips_empty_segments() {
    let mut t = Tree::new();
    t.insert("/a//b/", 1);
    assert_eq!(t.times_of("a/b"), vec![1]);
    assert_eq!(t.times_of("/a/b"), vec![1]);
}

#[test]
fn tree_empty_path_accumulates_at_root() {
    let mut t = Tree::new();
    t.insert("", 9);
    t.insert("/", 10);
    assert_eq!(t.times_of(""), vec![9, 10]);
}

#[test]
fn slot_add_creates_and_evicts() {
    let cfg = Config::new(2, 1000);
    let out = slot_add(None, batch(1, vec![hb("/a", None, None, 0)]), 0, &cfg);
    assert!(out.evicted.is_none());
    let kept = out.store_back.expect("buffer should be stored back");
    let out2 = slot_add(Some(kept), batch(1, vec![hb("/b", None, None, 1)]), 0, &cfg);
    assert!(out2.store_back.is_none());
    let full = out2.evicted.expect("buffer should be evicted at the count threshold");
    assert_eq!(full.beats.len(), 2);
}

#[test]
fn slot_get_full_leaves_non_full_buffer() {
    let cfg = Config::new(3, 1000);
    let b = Beatbuffer::from_batch(batch(1, vec![hb("/a", None, None, 0)]), 0);
    let out = slot_get_full(Some(b), &cfg);
    assert!(out.evicted.is_none());
    assert!(out.store_back.is_some());
    let out2 = slot_get_full(None, &cfg);
    assert!(out2.evicted.is_none());
    assert!(out2.store_back.is_none());
}

#[test]
fn store_get_full_takes_only_full_buffers() {
    let mut store = BeatBuffers::new(Config::new(10, 5));
    assert!(store.add(batch(1, vec![hb("/a", None, None, 0)]), 0).is_none());
    assert!(store.get_full(1).is_none());
    assert!(store.get_full(2).is_none());
    let full = Beatbuffer { start: 0, end: 5, beats: vec![hb("/b", None, None, 0), hb("/c", None, None, 5)] };
    store.entries.push((3, full));
    let b = store.get_full(3).expect("span reached the threshold");
    assert_eq!(b.beats.len(), 2);
    assert!(store.get_full(3).is_none());
    assert_eq!(store.flush().len(), 1);
}

#[test]
fn flush_empties_store_each_entry_once() {
    let mut store = BeatBuffers::new(Config::new(10, 1000));
    store.add(batch(1, vec![hb("/a", None, None, 0)]), 0);
    store.add(batch(2, vec![hb("/b", None, None, 1)]), 0);
    store.add(batch(1, vec![hb("/c", None, None, 2)]), 0);
    let drained = store.flush();
    assert_eq!(drained.len(), 2);
    let mut keys: Vec<u128> = drained.iter().map(|e| e.0).collect();
    keys.sort();
    assert_eq!(keys, vec![1, 2]);
    let one = drained.iter().find(|e| e.0 == 1).unwrap();
    assert_eq!(one.1.beats.len(), 2);
    let again = store.flush();
    assert!(again.is_empty());
    assert!(store.get_full(1).is_none());
}

#[test]
fn distinct_users_do_not_share_buffers() {
    let cfg = Config::new(2, 1000);
    let mut store = BeatBuffers::new(cfg);
    assert!(store.add(batch(1, vec![hb("/a", None, None, 0)]), 0).is_none());
    assert!(store.add(batch(2, vec![hb("/b", None, None, 0)]), 0).is_none());
    let evicted = store.add(batch(1, vec![hb("/c", None, None, 1)]), 0);
    let b = evicted.expect("user 1 reached the count threshold");
    assert_eq!(b.beats.len(), 2);
    let drained = store.flush();
    assert_eq!(drained.len(), 1);
    assert_eq!(drained[0].0, 2);
}

#[test]
fn end_to_end_three_heartbeats() {
    let cfg = Config::new(3, 1_000_000);
    let mut store = BeatBuffers::new(cfg);
    let (t0, t1, t2) = (100, 200, 300);
    assert!(store.add(batch(9, vec![hb("/x", None, None, t0)]), 0).is_none());
    assert!(store.add(batch(9, vec![hb("/x", None, None, t1)]), 0).is_none());
    let evicted = store.add(batch(9, vec![hb("/y", None, None, t2)]), 0);
    let buf = evicted.expect("third add reaches the count threshold");
    assert_eq!(buf.beats.len(), 3);
    assert_eq!(buf.beats[0].time, t0);
    assert_eq!(buf.beats[1].time, t1);
    assert_eq!(buf.beats[2].time, t2);
    let (summary, tree) = buf.into_payloads();
    assert_eq!(summary.from_time, t0);
    assert_eq!(summary.to_time, t2);
    assert_eq!(tree.times_of("/x"), vec![t0, t1]);
    assert_eq!(tree.times_of("/y"), vec![t2]);
    assert!(store.flush().is_empty());
}

#[test]
fn from_batch_now_with_non_empty_batch() {
    let b = Beatbuffer::from_batch_now(batch(1, vec![hb("/a", None, None, 7), hb("/b", None, None, 2)]));
    assert_eq!(b.start, 2);
    assert_eq!(b.end, 7);
    assert_eq!(b.beats.len(), 2);
}
