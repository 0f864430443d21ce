use algorst::heap::Heap;

fn drain(heap: &mut Heap<u32>) -> Vec<u32> {
    let mut out = Vec::new();
    loop {
        match heap.pop() {
            Some(x) => out.push(x),
            None => return out,
        }
    }
}

/// A fixed sequence of scrambled values, the same on every run.
fn scrambled(n: usize, modulus: u32) -> Vec<u32> {
    let mut state: u32 = 2463534242;
    let mut out = Vec::with_capacity(n);
    for _ in 0..n {
        state ^= state << 13;
        state ^= state >> 17;
        state ^= state << 5;
        out.push(state % modulus);
    }
    out
}

#[test]
fn test_single_push() {
    let mut heap: Heap<u32> = Heap::new();
    heap.push(42);
    assert_eq!(heap.len(), 1);
}

#[test]
fn test_single_push_and_pop() {
    let mut heap: Heap<u32> = Heap::new();
    heap.push(42);
    let popped = heap.pop();
    assert_eq!(popped.unwrap(), 42);
}

#[test]
fn test_more_push_and_pop() {
    let mut heap: Heap<u32> = Heap::new();

    heap.push(42);
    heap.pop();

    let to_add = vec![42, 342, 352, 541, 511, 0, 531, 342];
    for idx in 0..to_add.len() {
        heap.push(to_add[idx]);
    }

    let expected = vec![541, 531, 511, 352, 342, 342, 42, 0];
    let mut actual = Vec::new();
    for _idx in 0..expected.len() {
        actual.push(heap.pop().unwrap());
    }

    assert_eq!(expected, actual);
    assert_eq!(heap.len(), 0);
}

#[test]
fn single_element_round_trip() {
    let mut heap: Heap<u32> = Heap::new();
    heap.push(42);
    assert_eq!(heap.len(), 1);
    assert_eq!(heap.pop(), Some(42));
    assert_eq!(heap.len(), 0);
    assert_eq!(heap.pop(), None);
}

#[test]
fn new_heap_is_empty() {
    let heap: Heap<u32> = Heap::new();
    assert_eq!(heap.len(), 0);
}

#[test]
fn with_capacity_starts_empty_and_grows() {
    let mut heap: Heap<u32> = Heap::with_capacity(2);
    assert_eq!(heap.len(), 0);
    assert_eq!(heap.pop(), None);
    for x in [5, 1, 9, 3, 7] {
        heap.push(x);
    }
    assert_eq!(heap.len(), 5);
    assert_eq!(drain(&mut heap), vec![9, 7, 5, 3, 1]);
}

#[test]
fn with_capacity_zero_works() {
    let mut heap: Heap<u32> = Heap::with_capacity(0);
    heap.push(1);
    assert_eq!(heap.pop(), Some(1));
}

#[test]
fn pop_on_empty_gives_none_and_keeps_len() {
    let mut heap: Heap<u32> = Heap::new();
    assert_eq!(heap.pop(), None);
    assert_eq!(heap.len(), 0);
    assert_eq!(heap.pop(), None);
    assert_eq!(heap.len(), 0);
}

#[test]
fn ascending_pushes_come_out_descending() {
    // Every push lands below smaller elements and has to move to the root.
    let mut heap: Heap<u32> = Heap::new();
    for x in 1..=10 {
        heap.push(x);
    }
    assert_eq!(drain(&mut heap), vec![10, 9, 8, 7, 6, 5, 4, 3, 2, 1]);
}

#[test]
fn descending_pushes_come_out_descending() {
    // No push moves; every pop has to move the last element down.
    let mut heap: Heap<u32> = Heap::new();
    for x in (1..=10).rev() {
        heap.push(x);
    }
    assert_eq!(drain(&mut heap), vec![10, 9, 8, 7, 6, 5, 4, 3, 2, 1]);
}

#[test]
fn two_elements_with_only_a_left_child() {
    let mut heap: Heap<u32> = Heap::new();
    heap.push(1);
    heap.push(2);
    heap.push(3);
    // After this pop the root has a left child and no right one.
    assert_eq!(heap.pop(), Some(3));
    assert_eq!(heap.len(), 2);
    assert_eq!(heap.pop(), Some(2));
    assert_eq!(heap.pop(), Some(1));
    assert_eq!(heap.pop(), None);
}

#[test]
fn greater_child_moves_up_when_both_outrank_the_parent() {
    let mut heap: Heap<u32> = Heap::new();
    for x in [9, 8, 7, 1] {
        heap.push(x);
    }
    // Pop moves 1 to the root, below which sit 8 and 7.
    assert_eq!(heap.pop(), Some(9));
    assert_eq!(heap.pop(), Some(8));
    assert_eq!(heap.pop(), Some(7));
    assert_eq!(heap.pop(), Some(1));
}

#[test]
fn equal_elements_all_come_back() {
    let mut heap: Heap<u32> = Heap::new();
    for x in [3, 3, 1, 3, 1, 1] {
        heap.push(x);
    }
    assert_eq!(drain(&mut heap), vec![3, 3, 3, 1, 1, 1]);
}

#[test]
fn len_counts_pushes_minus_successful_pops() {
    let mut heap: Heap<u32> = Heap::new();
    let values = scrambled(200, 50);
    let mut pushed = 0usize;
    let mut popped = 0usize;
    for (k, x) in values.iter().enumerate() {
        if k % 3 == 2 {
            if heap.pop().is_some() {
                popped += 1;
            }
            if heap.pop().is_some() {
                popped += 1;
            }
            if heap.pop().is_some() {
                popped += 1;
            }
        } else {
            heap.push(*x);
            pushed += 1;
        }
        assert_eq!(heap.len(), pushed - popped);
    }
}

#[test]
fn pop_returns_the_maximum_of_what_is_held() {
    let mut heap: Heap<u32> = Heap::new();
    let mut held: Vec<u32> = Vec::new();
    let values = scrambled(300, 1000);
    for (k, x) in values.iter().enumerate() {
        heap.push(*x);
        held.push(*x);
        if k % 4 == 3 {
            held.sort();
            let expected = held.pop();
            assert_eq!(heap.pop(), expected);
        }
    }
    held.sort();
    while let Some(expected) = held.pop() {
        assert_eq!(heap.pop(), Some(expected));
    }
    assert_eq!(heap.pop(), None);
}

#[test]
fn popping_everything_sorts() {
    let values = scrambled(500, 97);
    let mut heap: Heap<u32> = Heap::new();
    for x in values.iter() {
        heap.push(*x);
    }
    let out = drain(&mut heap);
    let mut expected = values.clone();
    expected.sort();
    expected.reverse();
    assert_eq!(out, expected);
    for w in out.windows(2) {
        assert!(w[0] >= w[1]);
    }
}

#[test]
fn n_pushes_then_n_pops_empty_the_heap() {
    let values = scrambled(64, 1 << 20);
    let mut heap: Heap<u32> = Heap::with_capacity(values.len());
    for x in values.iter() {
        heap.push(*x);
    }
    assert_eq!(heap.len(), 64);
    let mut got = 0;
    for _ in 0..values.len() {
        assert!(heap.pop().is_some());
        got += 1;
    }
    assert_eq!(got, 64);
    assert_eq!(heap.len(), 0);
    assert_eq!(heap.pop(), None);
}

#[test]
fn heap_of_strings_orders_by_the_type() {
    let mut heap: Heap<String> = Heap::new();
    for s in ["pear", "apple", "zebra", "mango"] {
        heap.push(String::from(s));
    }
    assert_eq!(heap.pop().unwrap(), "zebra");
    assert_eq!(heap.pop().unwrap(), "pear");
    assert_eq!(heap.pop().unwrap(), "mango");
    assert_eq!(heap.pop().unwrap(), "apple");
    assert_eq!(heap.pop(), None);
}

#[test]
fn heap_of_pairs_orders_by_first_then_second() {
    let mut heap: Heap<(u8, i32)> = Heap::new();
    for p in [(1, 5), (2, -1), (1, 7), (2, 3)] {
        heap.push(p);
    }
    assert_eq!(heap.pop(), Some((2, 3)));
    assert_eq!(heap.pop(), Some((2, -1)));
    assert_eq!(heap.pop(), Some((1, 7)));
    assert_eq!(heap.pop(), Some((1, 5)));
}
