use symspell::grapheme_iterator::GraphemeClusters;

#[test]
fn iterator_test() {
    let s = "🚀this is a test string🚀";
    let it = GraphemeClusters::new(s).items();
    assert_eq!(it.len(), 23);
}

#[test]
fn iterator_test2() {
    let s = "🚀rocket ";
    let it = GraphemeClusters::new(s).items();
    for (grapheme, _range) in it {
        assert_eq!(grapheme.len() > 0, true)
    }
}

#[test]
fn len_test() {
    let s = "🚀this is a test string🚀";
    let gc = GraphemeClusters::new(s);
    let len = gc.len();
    assert_eq!(len, 23);
}

#[test]
fn slice_test() {
    let s = "🚀this is a test string🚀";
    let gc = GraphemeClusters::new(s);
    let byte_range1 = gc.get_slice_range(1..5);

    let slice = &s[byte_range1.clone()];
    assert_eq!(slice, "this");
    assert_eq!(byte_range1, 4..8);
}

#[test]
fn index_test() {
    let s = "🚀this is a test string🚀";
    let gc = GraphemeClusters::new(s);
    assert_eq!(gc.at(22), "🚀")
}

#[test]
fn item_ranges_cover_the_bytes() {
    let s = "a🚀é";
    let items = GraphemeClusters::new(s).items();
    assert_eq!(items.len(), 3);
    assert_eq!(items[0].1, 0..1);
    assert_eq!(items[1].1, 1..5);
    assert_eq!(items[2].1, 5..7);
    assert_eq!(items[2].0, "é");
}

#[test]
fn out_of_range_is_empty() {
    let gc = GraphemeClusters::new("abc");
    assert_eq!(gc.get_slice_range(2..9), 0..0);
    assert_eq!(gc.at(3), "");
}
