use hclust::binary_tree::HeapPair;
use hclust::max_heap::MaxHeap;

fn drain<V>(h: &mut MaxHeap<i64, V>) -> Vec<(i64, V)> {
    let mut out = Vec::new();
    loop {
        match h.pop_max() {
            Some(e) => out.push(e),
            None => return out,
        }
    }
}

#[test]
fn new_heap_is_empty() {
    let mut h: MaxHeap<i64, u8> = MaxHeap::new();
    assert_eq!(h.len(), 0);
    assert!(h.pop_max().is_none());
    assert_eq!(h.len(), 0);
}

#[test]
fn pop_returns_greatest_key_first() {
    let mut h: MaxHeap<i64, &str> = MaxHeap::new();
    h.insert(3, "c");
    h.insert(10, "j");
    h.insert(-4, "z");
    h.insert(7, "g");
    assert_eq!(h.len(), 4);
    assert_eq!(h.pop_max(), Some((10, "j")));
    assert_eq!(h.len(), 3);
    assert_eq!(h.pop_max(), Some((7, "g")));
    assert_eq!(h.pop_max(), Some((3, "c")));
    assert_eq!(h.pop_max(), Some((-4, "z")));
    assert_eq!(h.pop_max(), None);
    assert_eq!(h.len(), 0);
}

#[test]
fn single_entry_comes_back() {
    let mut h: MaxHeap<i64, HeapPair> = MaxHeap::new();
    h.insert(5, HeapPair::new(1, 2));
    assert_eq!(h.len(), 1);
    assert_eq!(h.pop_max(), Some((5, HeapPair { from_index: 1, to_index: 2 })));
    assert_eq!(h.pop_max(), None);
}

#[test]
fn popped_keys_never_increase() {
    let mut h: MaxHeap<i64, usize> = MaxHeap::new();
    let mut x: i64 = 12345;
    let mut inserted: Vec<(i64, usize)> = Vec::new();
    for i in 0..500usize {
        x = (x * 1103515245 + 12345) % 2147483648;
        let key = x % 1000 - 500;
        h.insert(key, i);
        inserted.push((key, i));
    }
    assert_eq!(h.len(), 500);
    let out = drain(&mut h);
    assert_eq!(out.len(), 500);
    for w in out.windows(2) {
        assert!(w[0].0 >= w[1].0);
    }
    let mut a = inserted.clone();
    let mut b = out.clone();
    a.sort();
    b.sort();
    assert_eq!(a, b);
}

#[test]
fn equal_keys_all_come_out() {
    let mut h: MaxHeap<i64, u8> = MaxHeap::new();
    h.insert(1, 10);
    h.insert(1, 20);
    h.insert(1, 30);
    h.insert(0, 40);
    let out = drain(&mut h);
    assert_eq!(out.len(), 4);
    assert_eq!(out[3], (0, 40));
    let mut firsts: Vec<u8> = out[..3].iter().map(|e| e.1).collect();
    firsts.sort();
    assert_eq!(firsts, vec![10, 20, 30]);
    assert!(out[..3].iter().all(|e| e.0 == 1));
}

#[test]
fn inserts_and_pops_interleave() {
    let mut h: MaxHeap<i64, char> = MaxHeap::new();
    h.insert(2, 'b');
    h.insert(9, 'i');
    assert_eq!(h.pop_max(), Some((9, 'i')));
    h.insert(5, 'e');
    h.insert(1, 'a');
    assert_eq!(h.pop_max(), Some((5, 'e')));
    assert_eq!(h.pop_max(), Some((2, 'b')));
    h.insert(7, 'g');
    assert_eq!(h.pop_max(), Some((7, 'g')));
    assert_eq!(h.pop_max(), Some((1, 'a')));
    assert_eq!(h.pop_max(), None);
}

#[test]
fn ascending_and_descending_input() {
    let mut up: MaxHeap<i64, ()> = MaxHeap::new();
    let mut down: MaxHeap<i64, ()> = MaxHeap::new();
    for k in 0..64i64 {
        up.insert(k, ());
        down.insert(63 - k, ());
    }
    let want: Vec<i64> = (0..64i64).rev().collect();
    let got_up: Vec<i64> = drain(&mut up).iter().map(|e| e.0).collect();
    let got_down: Vec<i64> = drain(&mut down).iter().map(|e| e.0).collect();
    assert_eq!(got_up, want);
    assert_eq!(got_down, want);
}

#[test]
fn float_keys_without_nan_are_ordered() {
    let mut h: MaxHeap<f64, &str> = MaxHeap::new();
    h.insert(-2.0, "a");
    h.insert(-9.5, "b");
    h.insert(-3.25, "c");
    assert_eq!(h.pop_max(), Some((-2.0, "a")));
    assert_eq!(h.pop_max(), Some((-3.25, "c")));
    assert_eq!(h.pop_max(), Some((-9.5, "b")));
    assert_eq!(h.pop_max(), None);
}

#[test]
fn extreme_keys() {
    let mut h: MaxHeap<i64, u8> = MaxHeap::new();
    h.insert(i64::MIN, 0);
    h.insert(i64::MAX, 1);
    h.insert(0, 2);
    assert_eq!(h.pop_max(), Some((i64::MAX, 1)));
    assert_eq!(h.pop_max(), Some((0, 2)));
    assert_eq!(h.pop_max(), Some((i64::MIN, 0)));
}

#[test]
fn insert_moves_the_new_entry_up_its_own_path_only() {
    // slots after the first three inserts: 9 | 5 7; the fourth entry goes to
    // slot 3, under slot 1, and climbs to the root over slot 1
    let mut h: MaxHeap<i64, char> = MaxHeap::new();
    h.insert(9, 'a');
    h.insert(5, 'b');
    h.insert(7, 'c');
    h.insert(11, 'd');
    assert_eq!(h.len(), 4);
    assert_eq!(h.pop_max(), Some((11, 'd')));
    assert_eq!(h.pop_max(), Some((9, 'a')));
    assert_eq!(h.pop_max(), Some((7, 'c')));
    assert_eq!(h.pop_max(), Some((5, 'b')));
}
