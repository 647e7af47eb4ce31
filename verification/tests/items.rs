use lookups::collections::Retrieve;
use lookups::lookup::index::MultiPosIndex;
use lookups::lookup::store::item::gather;
use lookups::lookup::store::item::Itemer;
use lookups::lookup::store::item::Items;
use lookups::lookup::store::listing::Positions;
use lookups::lookup::store::presized;
use lookups::lookup::store::view::View;
use lookups::lookup::store::Retriever;
use lookups::lookup::store::Store;
use lookups::lookup::store::PRESIZE_LIMIT;
use std::collections::HashMap;

#[test]
fn itemer_hands_out_the_item_at_a_position() {
    let items = vec!["a", "b", "c"];
    assert_eq!(&"b", items.item(&1));
    assert_eq!(Some(&"c"), items.find(&2));
    assert_eq!(None, items.find(&3));

    let mut map = HashMap::new();
    map.insert(7usize, "x");
    assert_eq!(&"x", map.item(&7));
    assert_eq!(Some(&"x"), map.find(&7));
    assert_eq!(None, map.find(&8));
}

#[test]
fn items_walk_in_the_order_of_the_positions() {
    let items = vec!["a", "b", "c"];
    let mut walk = Items::new(&items, vec![2, 0, 2]);
    assert_eq!(Some(&"c"), walk.next());
    assert_eq!(Some(&"a"), walk.next());
    assert_eq!(Some(&"c"), walk.next());
    assert_eq!(None, walk.next());
    assert_eq!(None, walk.next());
}

#[test]
fn gather_passes_over_positions_without_an_item() {
    let items = vec!["a", "b", "c"];
    assert_eq!(vec![&"c", &"a"], gather(&items, &[2, 9, 0]));
    assert!(gather(&items, &[]).is_empty());
}

#[test]
fn room_is_made_up_to_a_limit() {
    assert_eq!(0, presized(0));
    assert_eq!(17, presized(17));
    assert_eq!(PRESIZE_LIMIT, presized(PRESIZE_LIMIT));
    assert_eq!(PRESIZE_LIMIT, presized(PRESIZE_LIMIT + 1));
    assert_eq!(PRESIZE_LIMIT, presized(usize::MAX));
}

#[test]
fn an_index_lists_its_positions_in_key_order() {
    let mut idx = MultiPosIndex::<usize>::with_capacity(0);
    idx.insert(4, 1).unwrap();
    idx.insert(2, 9).unwrap();
    idx.insert(4, 0).unwrap();
    assert_eq!(vec![9, 0, 1], idx.positions());
    idx.delete(2, &9);
    assert_eq!(vec![0, 1], idx.positions());
}

#[test]
fn retrieve_reads_items_through_a_view() {
    let items = vec!["a", "b", "c"];
    let mut idx = MultiPosIndex::<usize>::with_capacity(0);
    idx.insert(1, 2).unwrap();
    idx.insert(1, 0).unwrap();
    idx.insert(3, 1).unwrap();
    idx.insert(5, 17).unwrap();

    let all = Retrieve::new(View::new(&idx), &items);
    assert!(all.contains_key(3));
    assert!(!all.contains_key(4));
    assert_eq!(vec![&"a", &"c"], all.get_by_key(1));
    assert_eq!(vec![&"b", &"a", &"c"], all.get_by_many_keys(vec![3, 4, 1]));
    assert!(all.get_by_key(5).is_empty());
    assert_eq!(&[17], all.lookup().pos_by_key(5));
}
