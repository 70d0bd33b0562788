use kitties::owned::{KittyLinkedItem, OwnedKitties};

fn link(prev: Option<u32>, next: Option<u32>) -> Option<KittyLinkedItem> {
    Some(KittyLinkedItem { prev, next })
}

#[test]
fn owned_kitties_can_append_values() {
    let mut owned = OwnedKitties::new();
    owned.append(0, 1);

    assert_eq!(owned.get(&(0, None)), link(Some(1), Some(1)));
    assert_eq!(owned.get(&(0, Some(1))), link(None, None));

    owned.append(0, 2);

    assert_eq!(owned.get(&(0, None)), link(Some(2), Some(1)));
    assert_eq!(owned.get(&(0, Some(1))), link(None, Some(2)));
    assert_eq!(owned.get(&(0, Some(2))), link(Some(1), None));

    owned.append(0, 3);

    assert_eq!(owned.get(&(0, None)), link(Some(3), Some(1)));
    assert_eq!(owned.get(&(0, Some(1))), link(None, Some(2)));
    assert_eq!(owned.get(&(0, Some(2))), link(Some(1), Some(3)));
    assert_eq!(owned.get(&(0, Some(3))), link(Some(2), None));
}

#[test]
fn owned_kitties_can_remove_values() {
    let mut owned = OwnedKitties::new();
    owned.append(0, 1);
    owned.append(0, 2);
    owned.append(0, 3);

    owned.remove(0, 2);

    assert_eq!(owned.get(&(0, None)), link(Some(3), Some(1)));
    assert_eq!(owned.get(&(0, Some(1))), link(None, Some(3)));
    assert_eq!(owned.get(&(0, Some(2))), None);
    assert_eq!(owned.get(&(0, Some(3))), link(Some(1), None));

    owned.remove(0, 1);

    assert_eq!(owned.get(&(0, None)), link(Some(3), Some(3)));
    assert_eq!(owned.get(&(0, Some(1))), None);
    assert_eq!(owned.get(&(0, Some(2))), None);
    assert_eq!(owned.get(&(0, Some(3))), link(None, None));

    owned.remove(0, 3);

    assert_eq!(owned.get(&(0, None)), link(None, None));
    assert_eq!(owned.get(&(0, Some(1))), None);
    assert_eq!(owned.get(&(0, Some(2))), None);
    assert_eq!(owned.get(&(0, Some(2))), None);
}

#[test]
fn append_then_remove_restores_empty_sentinel() {
    let mut owned = OwnedKitties::new();
    owned.append(5, 42);
    owned.remove(5, 42);
    assert_eq!(owned.get(&(5, None)), link(None, None));
    assert_eq!(owned.get(&(5, Some(42))), None);
}

#[test]
fn remove_of_absent_id_changes_nothing() {
    let mut owned = OwnedKitties::new();
    owned.append(1, 10);
    owned.remove(1, 11);
    owned.remove(2, 10);
    assert_eq!(owned.get(&(1, None)), link(Some(10), Some(10)));
    assert_eq!(owned.get(&(1, Some(10))), link(None, None));
    assert_eq!(owned.get(&(2, None)), None);
}

#[test]
fn accounts_keep_separate_lists() {
    let mut owned = OwnedKitties::new();
    owned.append(1, 10);
    owned.append(2, 20);
    owned.append(1, 11);
    assert_eq!(owned.get(&(1, None)), link(Some(11), Some(10)));
    assert_eq!(owned.get(&(2, None)), link(Some(20), Some(20)));
    assert_eq!(owned.get(&(1, Some(10))), link(None, Some(11)));
    assert_eq!(owned.get(&(2, Some(20))), link(None, None));
}

#[test]
fn walks_visit_same_ids_in_reverse_order() {
    let mut owned = OwnedKitties::new();
    for id in [4u32, 9, 2, 7] {
        owned.append(3, id);
    }
    owned.remove(3, 9);
    let mut forward = Vec::new();
    let mut cur = owned.get(&(3, None)).unwrap().next;
    while let Some(id) = cur {
        forward.push(id);
        cur = owned.get(&(3, Some(id))).unwrap().next;
    }
    let mut backward = Vec::new();
    let mut cur = owned.get(&(3, None)).unwrap().prev;
    while let Some(id) = cur {
        backward.push(id);
        cur = owned.get(&(3, Some(id))).unwrap().prev;
    }
    assert_eq!(forward, vec![4, 2, 7]);
    backward.reverse();
    assert_eq!(backward, forward);
}
