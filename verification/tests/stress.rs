use immutable_text::text::Text;

fn single(c: char) -> Text {
    Text::create(vec![c])
}

#[test]
fn many_sequential_edits_come_back_to_the_start() {
    // 100,000 single-character inserts at increasing positions, then as
    // many removals from the front. Each edit must stay cheap (the tree
    // stays shallow), and the original five characters must survive.
    let mut t = Text::create("hello".chars().collect());
    let one = single('1');
    for i in 0..100_000usize {
        t = t.insert(i, &one).unwrap();
    }
    assert_eq!(t.length(), 100_005);
    // The tree must stay shallow: far below the hundred thousand levels
    // a degenerate chain would reach, and within a small multiple of the
    // seventeen or so levels a perfectly balanced tree would need.
    assert!(t.depth() <= 64, "depth {} after inserts", t.depth());
    for _ in 0..100_000usize {
        t = t.remove(0, 1).unwrap();
    }
    let flat: String = t.materialize().into_iter().collect();
    assert_eq!(flat, "hello");
}
