use disjoint_sets::{DisjointSets, Error, Node, UnionFind};

#[test]
fn test_union_find() {
    let mut sets = DisjointSets::new();

    // Find non-existent item.
    assert_eq!(sets.contains(&1), false);

    sets.make_set(1).unwrap();
    sets.make_set(2).unwrap();
    sets.make_set(3).unwrap();
    sets.make_set(4).unwrap();
    sets.make_set(5).unwrap();

    assert_eq!(sets.num_items(), 5);

    assert!(sets.contains(&1));
    assert!(sets.contains(&2));
    assert!(sets.contains(&3));
    assert!(sets.contains(&4));
    assert!(sets.contains(&5));

    assert!(!sets.same_set(&1, &2).unwrap());
    assert!(!sets.same_set(&1, &3).unwrap());
    assert!(!sets.same_set(&2, &3).unwrap());
    assert!(sets.same_set(&1, &1).unwrap());

    // (1, 2), (3), (4), (5)
    sets.union(&1, &2).unwrap();
    assert!(sets.same_set(&1, &2).unwrap());
    assert!(!sets.same_set(&1, &3).unwrap());
    assert_eq!(sets.set_size(&1).unwrap(), 2);
    assert_eq!(sets.set_size(&2).unwrap(), 2);
    assert_eq!(sets.set_size(&3).unwrap(), 1);
    assert_eq!(sets.num_sets(), 4);
    // (1, 2), (3, 4), (5)
    sets.union(&3, &4).unwrap();
    assert!(sets.same_set(&3, &4).unwrap());
    assert!(!sets.same_set(&1, &3).unwrap());
    assert_eq!(sets.set_size(&3).unwrap(), 2);
    assert_eq!(sets.set_size(&4).unwrap(), 2);
    assert_eq!(sets.set_size(&5).unwrap(), 1);
    assert_eq!(sets.num_sets(), 3);
    // (1, 2, 3, 4), (5)
    sets.union(&1, &3).unwrap();
    assert!(sets.same_set(&1, &2).unwrap());
    assert!(sets.same_set(&1, &4).unwrap());
    assert!(sets.same_set(&2, &3).unwrap());
    assert!(sets.same_set(&2, &4).unwrap());
    assert!(!sets.same_set(&4, &5).unwrap());
    assert_eq!(sets.set_size(&1).unwrap(), 4);
    assert_eq!(sets.set_size(&2).unwrap(), 4);
    assert_eq!(sets.set_size(&3).unwrap(), 4);
    assert_eq!(sets.set_size(&4).unwrap(), 4);
    assert_eq!(sets.set_size(&5).unwrap(), 1);
    assert_eq!(sets.num_sets(), 2);
    // (1, 2, 3, 4. 5)
    sets.union(&1, &5).unwrap();
    assert!(sets.same_set(&1, &2).unwrap());
    assert!(sets.same_set(&2, &3).unwrap());
    assert!(sets.same_set(&3, &4).unwrap());
    assert!(sets.same_set(&4, &5).unwrap());
    assert!(sets.same_set(&1, &5).unwrap());
    assert_eq!(sets.set_size(&1).unwrap(), 5);
    assert_eq!(sets.set_size(&2).unwrap(), 5);
    assert_eq!(sets.set_size(&3).unwrap(), 5);
    assert_eq!(sets.set_size(&4).unwrap(), 5);
    assert_eq!(sets.set_size(&5).unwrap(), 5);
    assert_eq!(sets.num_sets(), 1);
}

fn five_singletons() -> DisjointSets {
    let mut sets = DisjointSets::new();
    for i in 1..=5u64 {
        sets.make_set(i).unwrap();
    }
    sets
}

#[test]
fn empty_structure_has_no_sets() {
    let sets = DisjointSets::new();
    assert_eq!(sets.num_items(), 0);
    assert_eq!(sets.num_sets(), 0);
    assert!(!sets.contains(&0));
}

#[test]
fn new_singleton_is_its_own_representative() {
    let mut sets = DisjointSets::new();
    sets.make_set(42).unwrap();
    assert!(sets.contains(&42));
    assert_eq!(sets.find_set(&42), Ok(42));
    assert_eq!(sets.set_size(&42), Ok(1));
    assert_eq!(sets.num_sets(), 1);
}

#[test]
fn make_set_twice_is_refused() {
    let mut sets = five_singletons();
    sets.union(&1, &2).unwrap();
    assert_eq!(sets.make_set(1), Err(Error::ItemExists));
    assert_eq!(sets.make_set(2), Err(Error::ItemExists));
    assert_eq!(sets.num_items(), 5);
    assert_eq!(sets.num_sets(), 4);
    assert_eq!(sets.set_size(&1), Ok(2));
}

#[test]
fn unknown_item_is_not_found() {
    let mut sets = five_singletons();
    assert_eq!(sets.find_set(&99), Err(Error::ItemNotFound));
    assert_eq!(sets.set_size(&99), Err(Error::ItemNotFound));
    assert_eq!(sets.same_set(&1, &99), Err(Error::ItemNotFound));
    assert_eq!(sets.same_set(&99, &1), Err(Error::ItemNotFound));
    assert_eq!(sets.union(&99, &1), Err(Error::ItemNotFound));
    assert_eq!(sets.union(&1, &99), Err(Error::ItemNotFound));
    assert!(!sets.contains(&99));
    assert_eq!(sets.num_sets(), 5);
    assert_eq!(sets.num_items(), 5);
}

#[test]
fn scenario_five_items() {
    let mut sets = five_singletons();
    assert_eq!(sets.num_sets(), 5);
    sets.union(&1, &2).unwrap();
    assert_eq!(sets.set_size(&1), Ok(2));
    assert_eq!(sets.set_size(&2), Ok(2));
    assert_eq!(sets.num_sets(), 4);
    sets.union(&3, &4).unwrap();
    assert_eq!(sets.num_sets(), 3);
    sets.union(&1, &3).unwrap();
    assert_eq!(sets.same_set(&1, &4), Ok(true));
    assert_eq!(sets.set_size(&1), Ok(4));
    assert_eq!(sets.num_sets(), 2);
    sets.union(&1, &5).unwrap();
    assert_eq!(sets.num_sets(), 1);
    assert_eq!(sets.set_size(&1), Ok(5));
    for a in 1..=5u64 {
        for b in 1..=5u64 {
            assert_eq!(sets.same_set(&a, &b), Ok(true));
        }
    }
}

#[test]
fn equal_sizes_keep_first_representative() {
    let mut sets = five_singletons();
    sets.union(&1, &2).unwrap();
    assert_eq!(sets.find_set(&2), Ok(1));
    sets.union(&4, &3).unwrap();
    assert_eq!(sets.find_set(&3), Ok(4));
    assert_eq!(sets.find_set(&4), Ok(4));
}

#[test]
fn smaller_set_goes_under_larger() {
    let mut sets = five_singletons();
    sets.union(&1, &2).unwrap();
    sets.union(&5, &1).unwrap();
    assert_eq!(sets.find_set(&5), Ok(1));
    assert_eq!(sets.set_size(&5), Ok(3));
}

#[test]
fn union_order_gives_same_partition() {
    let mut a = five_singletons();
    let mut b = five_singletons();
    a.union(&1, &2).unwrap();
    b.union(&2, &1).unwrap();
    a.union(&3, &2).unwrap();
    b.union(&2, &3).unwrap();
    for x in 1..=5u64 {
        for y in 1..=5u64 {
            assert_eq!(a.same_set(&x, &y), b.same_set(&x, &y));
        }
    }
    assert_eq!(a.same_set(&1, &3), Ok(true));
    assert_eq!(a.find_set(&3), Ok(1));
    assert_eq!(b.find_set(&3), Ok(2));
}

#[test]
fn union_within_one_set_changes_nothing() {
    let mut sets = five_singletons();
    sets.union(&1, &2).unwrap();
    sets.union(&2, &3).unwrap();
    let before = sets.num_sets();
    assert_eq!(sets.union(&3, &1), Ok(()));
    assert_eq!(sets.num_sets(), before);
    assert_eq!(sets.set_size(&3), Ok(3));
    assert_eq!(sets.find_set(&3), Ok(1));
}

#[test]
fn repeated_find_gives_same_representative() {
    let mut sets = five_singletons();
    sets.union(&1, &2).unwrap();
    sets.union(&3, &4).unwrap();
    sets.union(&3, &5).unwrap();
    sets.union(&1, &3).unwrap();
    let first = sets.find_set(&5).unwrap();
    let second = sets.find_set(&5).unwrap();
    assert_eq!(first, second);
    assert_eq!(first, 3);
}

#[test]
fn counts_stay_consistent() {
    let mut sets = five_singletons();
    sets.make_set(6).unwrap();
    sets.union(&1, &2).unwrap();
    sets.union(&3, &6).unwrap();
    sets.union(&2, &6).unwrap();
    assert!(sets.num_sets() <= sets.num_items());
    let mut total = 0;
    for a in 1..=6u64 {
        if sets.find_set(&a) == Ok(a) {
            total += sets.set_size(&a).unwrap();
        }
    }
    assert_eq!(total, sets.num_items());
    assert_eq!(sets.num_sets(), 3);
}

#[test]
fn trait_methods_match_inherent_ones() {
    let mut sets = DisjointSets::new();
    UnionFind::make_set(&mut sets, 7).unwrap();
    UnionFind::make_set(&mut sets, 8).unwrap();
    assert_eq!(UnionFind::make_set(&mut sets, 7), Err(Error::ItemExists));
    assert_eq!(UnionFind::same_set(&mut sets, &7, &8), Ok(false));
    UnionFind::union(&mut sets, &7, &8).unwrap();
    assert_eq!(UnionFind::same_set(&mut sets, &7, &8), Ok(true));
}

#[test]
fn node_starts_as_own_root() {
    let mut node = Node::new(3);
    assert_eq!(node.item(), 3);
    assert_eq!(node.parent(), 3);
    assert_eq!(node.rank(), 1);
    assert!(node.is_representative());
    node.set_parent(5);
    node.set_rank(4);
    assert_eq!(node.parent(), 5);
    assert_eq!(node.rank(), 4);
    assert_eq!(node.item(), 3);
    assert!(!node.is_representative());
}

#[test]
fn default_is_empty() {
    let mut sets = DisjointSets::default();
    assert_eq!(sets.num_items(), 0);
    sets.make_set(1).unwrap();
    let copy = sets.clone();
    assert!(copy.contains(&1));
    assert_eq!(copy.num_sets(), 1);
}

#[test]
fn node_as_ref_gives_its_id() {
    let node = Node::new(9);
    let id: &usize = node.as_ref();
    assert_eq!(*id, 9);
}

#[test]
fn trait_errors_on_missing_items() {
    let mut sets = DisjointSets::new();
    UnionFind::make_set(&mut sets, 1).unwrap();
    assert_eq!(UnionFind::union(&mut sets, &1, &2), Err(Error::ItemNotFound));
    assert_eq!(UnionFind::same_set(&mut sets, &2, &1), Err(Error::ItemNotFound));
    assert_eq!(UnionFind::same_set(&mut sets, &1, &1), Ok(true));
}
