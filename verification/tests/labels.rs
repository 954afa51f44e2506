use progress_element::labels::{LabelsCache, NodeListId};

#[test]
fn new_cache_is_empty() {
    let cache = LabelsCache::new();
    assert_eq!(cache.get(), None);
}

#[test]
fn populate_keeps_the_first_collection() {
    let mut cache = LabelsCache::new();
    assert_eq!(cache.populate(NodeListId(5)), NodeListId(5));
    assert_eq!(cache.get(), Some(NodeListId(5)));
    assert_eq!(cache.populate(NodeListId(6)), NodeListId(5));
    assert_eq!(cache.get(), Some(NodeListId(5)));
}

#[test]
fn invalidate_empties_the_cache() {
    let mut cache = LabelsCache::new();
    cache.populate(NodeListId(1));
    cache.invalidate();
    assert_eq!(cache.get(), None);
    assert_eq!(cache.populate(NodeListId(2)), NodeListId(2));
    cache.invalidate();
    cache.invalidate();
    assert_eq!(cache.get(), None);
}
