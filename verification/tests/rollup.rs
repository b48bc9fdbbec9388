use shardvault::rollup::{prefixes_of, AggDeltaEntry, Aggregate, Rollup};

#[test]
fn record_updates_every_prefix() {
    let mut r = Rollup::default();
    r.record("a/b/c", 10);
    let one = Aggregate {
        object_count: 1,
        byte_count: 10,
    };
    assert_eq!(r.get(""), one);
    assert_eq!(r.get("a"), one);
    assert_eq!(r.get("a/b"), one);
    assert_eq!(r.get("a/b/c"), Aggregate::default());
    assert_eq!(r.get("a/b/c/d"), Aggregate::default());
}

#[test]
fn record_accumulates() {
    let mut r = Rollup::default();
    r.record("x/y", 3);
    r.record("x/z", 7);
    assert_eq!(
        r.get("x"),
        Aggregate {
            object_count: 2,
            byte_count: 10,
        }
    );
    assert_eq!(
        r.get(""),
        Aggregate {
            object_count: 2,
            byte_count: 10
        }
    );
}

#[test]
fn deltas_match_record() {
    let deltas = Rollup::deltas_for("x/y/z", 7);
    let prefixes: Vec<&str> = deltas.iter().map(|d| d.prefix.as_str()).collect();
    assert_eq!(prefixes, vec!["", "x", "x/y"]);
    for d in &deltas {
        assert_eq!(d.object_count_delta, 1);
        assert_eq!(d.byte_count_delta, 7);
    }
}

#[test]
fn empty_key_records_root_only() {
    let mut r = Rollup::default();
    r.record("", 3);
    assert_eq!(
        r.get(""),
        Aggregate {
            object_count: 1,
            byte_count: 3,
        }
    );
}

#[test]
fn empty_segments_are_skipped() {
    let mut r = Rollup::default();
    r.record("a//b", 1);
    assert_eq!(r.get("").object_count, 1);
    assert_eq!(r.get("a").object_count, 1);
    assert_eq!(r.get("a/b").object_count, 0);
}

#[test]
fn overwriting_replaces_the_counted_length() {
    let mut r = Rollup::default();
    r.record("a/b", 10);
    r.record("a/c", 5);
    r.record("a/b", 4);
    let both = Aggregate {
        object_count: 2,
        byte_count: 9,
    };
    assert_eq!(r.get("a"), both);
    assert_eq!(r.get(""), both);
    assert_eq!(r.object_total(), 2);
}

#[test]
fn prefixes_run_from_the_root() {
    assert_eq!(prefixes_of("/a//b/c/"), vec!["", "a", "a/b"]);
    assert_eq!(prefixes_of("one"), vec![""]);
    assert_eq!(prefixes_of("///"), vec![""]);
}

#[test]
fn a_default_delta_changes_nothing() {
    let d = AggDeltaEntry::default();
    assert_eq!(d.prefix, "");
    assert_eq!((d.object_count_delta, d.byte_count_delta), (0, 0));
}
