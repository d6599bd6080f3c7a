use msm_engine::index::InvertedIndex;

#[test]
fn lists_spill_and_return_inline() {
    let mut idx = InvertedIndex::new(3, 2);
    assert_eq!(idx.buckets(), 3);
    idx.push(1, 10);
    idx.push(1, 11);
    idx.push(0, 7);
    // The slot of bucket 1 is full: the third position moves it out.
    idx.push(1, 12);
    idx.push(1, 13);
    assert_eq!(idx.list_of(1), vec![10, 11, 12, 13]);
    assert_eq!(idx.len_of(1), 4);
    assert_eq!(idx.list_of(0), vec![7]);
    assert_eq!(idx.list_of(2), Vec::<usize>::new());
    // Halved, the list fits its slot again.
    idx.set_list(1, vec![10, 12]);
    assert_eq!(idx.list_of(1), vec![10, 12]);
    idx.push(1, 99);
    assert_eq!(idx.list_of(1), vec![10, 12, 99]);
    assert_eq!(idx.list_of(0), vec![7]);
    idx.set_list(2, vec![1, 2, 3, 4, 5]);
    assert_eq!(idx.list_of(2), vec![1, 2, 3, 4, 5]);
    assert_eq!(idx.len_of(2), 5);
}

#[test]
fn empty_index() {
    let idx = InvertedIndex::new(0, 4);
    assert_eq!(idx.buckets(), 0);
}
