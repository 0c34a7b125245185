use url_counter::item::CountItem;
use url_counter::selector::TopK;

fn item(key: &str, cnt: u64) -> CountItem {
    CountItem { key: key.as_bytes().to_vec(), cnt }
}

#[test]
fn selector_retains_largest_counts() {
    let mut sel = TopK::new(2);
    sel.insert(item("w", 5));
    sel.insert(item("x", 1));
    sel.insert(item("y", 7));
    sel.insert(item("z", 3));
    let out = sel.drain_descending();
    assert_eq!(out.len(), 2);
    assert_eq!(out[0].key, b"y".to_vec());
    assert_eq!(out[0].cnt, 7);
    assert_eq!(out[1].key, b"w".to_vec());
    assert_eq!(out[1].cnt, 5);
}

#[test]
fn selector_minimum_retained_is_kth_largest() {
    // counts 9, 4, 4, 2, 1 with k = 3: the 3rd largest count is 4
    let mut sel = TopK::new(3);
    for (k, c) in [("a", 9u64), ("b", 4), ("c", 4), ("d", 2), ("e", 1)] {
        sel.insert(item(k, c));
    }
    let out = sel.drain_descending();
    assert_eq!(out.len(), 3);
    assert_eq!(out[2].cnt, 4);
}

#[test]
fn selector_ties_keep_any_of_the_tied() {
    let mut sel = TopK::new(2);
    sel.insert(item("a", 2));
    sel.insert(item("b", 2));
    sel.insert(item("c", 2));
    let out = sel.drain_descending();
    assert_eq!(out.len(), 2);
    assert_eq!(out[0].cnt, 2);
    assert_eq!(out[1].cnt, 2);
    assert_ne!(out[0].key, out[1].key);
}

#[test]
fn selector_capacity_zero_retains_nothing() {
    let mut sel = TopK::new(0);
    sel.insert(item("a", 10));
    sel.insert(item("b", 20));
    assert_eq!(sel.len(), 0);
    let out = sel.drain_descending();
    assert!(out.is_empty());
}

#[test]
fn selector_below_capacity_keeps_everything() {
    let mut sel = TopK::new(10);
    sel.insert(item("a", 1));
    sel.insert(item("b", 2));
    assert_eq!(sel.len(), 2);
    let out = sel.drain_descending();
    assert_eq!(out.len(), 2);
    assert_eq!(out[0].cnt, 2);
    assert_eq!(out[1].cnt, 1);
}

#[test]
fn selector_equal_count_does_not_evict() {
    // once full, a new item must be strictly greater to replace the
    // minimum. Which of two count-tied items survives is unspecified —
    // any tied item is acceptable — and this documents the permitted
    // outcome this implementation picks: the incumbent stays.
    let mut sel = TopK::new(1);
    sel.insert(item("first", 3));
    sel.insert(item("same", 3));
    let out = sel.drain_descending();
    assert_eq!(out.len(), 1);
    assert_eq!(out[0].key, b"first".to_vec());
}
