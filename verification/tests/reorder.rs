use score_sync::reorder::{move_item, reorder_to_index};

#[test]
fn drop_targets() {
    assert_eq!(reorder_to_index(0, 3, true), 3);
    assert_eq!(reorder_to_index(0, 3, false), 2);
    assert_eq!(reorder_to_index(4, 1, true), 2);
    assert_eq!(reorder_to_index(4, 1, false), 1);
}

#[test]
fn dropped_item_lands_next_to_anchor() {
    for from in 0..5usize {
        for anchor in 0..5usize {
            if from == anchor {
                continue;
            }
            for after in [false, true] {
                let mut v: Vec<usize> = (0..5).collect();
                let to = reorder_to_index(from, anchor, after);
                move_item(&mut v, from, to);
                assert_eq!(v[to], from);
                if after {
                    assert_eq!(v[to - 1], anchor);
                } else {
                    assert_eq!(v[to + 1], anchor);
                }
                let mut sorted = v.clone();
                sorted.sort();
                assert_eq!(sorted, vec![0, 1, 2, 3, 4]);
            }
        }
    }
}

#[test]
fn moves() {
    let mut v = vec!['a', 'b', 'c', 'd'];
    move_item(&mut v, 0, 2);
    assert_eq!(v, vec!['b', 'c', 'a', 'd']);
    move_item(&mut v, 3, 0);
    assert_eq!(v, vec!['d', 'b', 'c', 'a']);
    move_item(&mut v, 1, 99);
    assert_eq!(v, vec!['d', 'c', 'a', 'b']);
    move_item(&mut v, 9, 0);
    assert_eq!(v, vec!['d', 'c', 'a', 'b']);
    move_item(&mut v, 2, 2);
    assert_eq!(v, vec!['d', 'c', 'a', 'b']);
}
