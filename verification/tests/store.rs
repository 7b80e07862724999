use qstream::stats::{behind, json_escape, StoreInfo};
use qstream::store::{
    manifest_edge, prunable, resident_bytes, segment_name, store_bytes, store_segments,
};
use qstream::table::{Group, Table};

const SECOND: u128 = 1_000_000_000;

#[test]
fn json_escape_handles_specials() {
    assert_eq!(json_escape("plain"), "plain");
    assert_eq!(json_escape("a\"b\\c\nd\te"), "a\\\"b\\\\c\\nd\\te");
    assert_eq!(json_escape("\u{1}"), "\\u0001");
}

#[test]
fn json_escape_keeps_letters() {
    assert_eq!(json_escape("caf\u{e9}\r\u{1f}"), "caf\u{e9}\\r\\u001f");
}

#[test]
fn names_of_segments() {
    assert!(segment_name("seg_0001.ts"));
    assert!(segment_name("seg_.ts"));
    assert!(!segment_name("seg_1.mp4"));
    assert!(!segment_name("live.m3u8"));
}

#[test]
fn stored_bytes() {
    let files = vec![
        ("seg_1.ts".to_string(), 10),
        ("live.m3u8".to_string(), 100),
        ("seg_2.ts".to_string(), 5),
    ];
    assert_eq!(store_bytes(&files), 15);
    assert_eq!(store_bytes(&[]), 0);
}

#[test]
fn stored_segments() {
    let names: Vec<String> = vec!["seg_0007.ts", "x", "seg_0042.ts", "seg_y.ts", "seg_0041.ts"]
        .into_iter()
        .map(String::from)
        .collect();
    assert_eq!(store_segments(&names), (3, 42));
}

#[test]
fn edge_of_a_manifest() {
    assert_eq!(manifest_edge(b"#EXTM3U\nseg_0007.ts\nseg_0009.ts\n"), 9);
    assert_eq!(manifest_edge(b"seg_0007.ts\nother.ts\n"), 0);
    assert_eq!(manifest_edge(b""), 0);
}

#[test]
fn pruning_spares_the_playlist() {
    let files = vec![
        ("seg_1.ts".to_string(), Some(60 * SECOND)),
        ("seg_2.ts".to_string(), Some(60 * SECOND)),
        ("seg_3.ts".to_string(), Some(60 * SECOND - 1)),
        ("seg_4.ts".to_string(), None),
        ("seg_5.ts.tmp".to_string(), Some(61 * SECOND)),
        ("live.m3u8".to_string(), Some(999 * SECOND)),
    ];
    assert_eq!(
        prunable(&files, b"#EXTM3U\nseg_2.ts\n", 60),
        vec!["seg_1.ts", "seg_5.ts.tmp"]
    );
}

#[test]
fn resident_memory() {
    assert_eq!(resident_bytes("1000 25 3 4\n"), 25 * 4096);
    assert_eq!(resident_bytes("1000"), 0);
    assert_eq!(resident_bytes(""), 0);
}

#[test]
fn segments_behind() {
    let mut store = StoreInfo {
        store_bytes: 0,
        store_segments: 0,
        edge_segment: 12,
        local_newest: 9,
        rss_bytes: 0,
    };
    assert_eq!(behind(&store), 3);
    store.local_newest = 13;
    assert_eq!(behind(&store), 0);
}

#[test]
fn tables_keep_their_order() {
    let mut t: Table<String, u32> = Table::new();
    t.insert("b".to_string(), 1);
    t.insert("a".to_string(), 2);
    t.insert("b".to_string(), 3);
    t.enter("a".to_string(), 9);
    t.enter("c".to_string(), 4);
    assert_eq!(t.len(), 3);
    assert_eq!(t.find(&"a".to_string()), Some(1));
    assert_eq!(t.get(&"b".to_string()), Some(&3));
    assert_eq!(t.get(&"a".to_string()), Some(&2));
    assert_eq!(t.get(&"z".to_string()), None);
    *t.value_mut(1) = 7;
    assert_eq!(t.value_at(1), &7);
    assert_eq!(t.key_at(2), "c");
    assert_eq!(t.remove(&"a".to_string()), Some(7));
    assert_eq!(t.remove(&"a".to_string()), None);
    assert_eq!(t.pop_first(), Some(("b".to_string(), 3)));
    t.push_last("d".to_string(), 5);
    assert!(t.contains(&"c".to_string()) && t.contains(&"d".to_string()));
    t.clear();
    assert_eq!(t.pop_first(), None);
}

#[test]
fn groups_hold_a_key_once() {
    let mut g: Group<u16> = Group::new();
    g.add_key(3);
    g.add_key(5);
    g.add_key(3);
    assert_eq!(g.len(), 2);
    assert_eq!(*g.at(1), 5);
    g.drop_key(&3);
    assert!(!g.contains(&3) && g.contains(&5));
    g.clear();
    assert_eq!(g.len(), 0);
}
