use succinct::sparse_array::SparseArray;

fn multiples_of_three() -> SparseArray {
    let mut sparse_array = SparseArray::create(20);
    for i in 0..20u64 {
        if i % 3 == 0 {
            sparse_array.append(format!("some_value of {}", i), i);
        }
    }
    sparse_array.finalize();
    sparse_array
}

#[test]
fn scenario_multiples_of_three() {
    let sparse_array = multiples_of_three();
    assert_eq!(sparse_array.size(), 20);
    assert_eq!(sparse_array.num_elem(), 7);

    let mut s = String::new();
    assert!(sparse_array.get_at_rank(0, &mut s));
    assert_eq!(s, "some_value of 0");

    // The 0-indexed present elements sit at 0, 3, 6, 9, 12, 15, 18.
    assert_eq!(sparse_array.get_index_of(3), 9);
    assert_eq!(sparse_array.get_index_of(6), 18);

    // Position 7 holds no element.
    let mut t = String::from("untouched");
    assert!(!sparse_array.get_at_index(7, &mut t));
    assert_eq!(t, "untouched");

    assert_eq!(sparse_array.num_elem_at(18), 7);
}

#[test]
fn every_appended_pair_is_retrievable() {
    let sparse_array = multiples_of_three();
    for (k, pos) in [0u64, 3, 6, 9, 12, 15, 18].iter().enumerate() {
        let mut s = String::new();
        assert!(sparse_array.get_at_index(*pos, &mut s));
        assert_eq!(s, format!("some_value of {}", pos));
        assert_eq!(sparse_array.get_index_of(k as u64), *pos);
    }
}

#[test]
fn get_at_rank_fails_past_the_last_element() {
    let sparse_array = multiples_of_three();
    let mut s = String::from("kept");
    assert!(!sparse_array.get_at_rank(7, &mut s));
    assert_eq!(s, "kept");
    assert!(!sparse_array.get_at_rank(u64::MAX, &mut s));
}

#[test]
fn get_index_of_past_the_last_element_is_sentinel() {
    let sparse_array = multiples_of_three();
    assert_eq!(sparse_array.get_index_of(7), u64::MAX);
}

#[test]
fn append_past_the_declared_size_is_ignored() {
    let mut sparse_array = SparseArray::create(20);
    sparse_array.append(String::from("inside"), 4);
    sparse_array.append(String::from("outside"), 20);
    sparse_array.append(String::from("far outside"), 1000);
    sparse_array.finalize();
    assert_eq!(sparse_array.num_elem(), 1);
    let mut s = String::new();
    assert!(sparse_array.get_at_index(4, &mut s));
    assert_eq!(s, "inside");
}

#[test]
fn num_elem_at_is_inclusive() {
    let sparse_array = multiples_of_three();
    assert_eq!(sparse_array.num_elem_at(0), 1);
    assert_eq!(sparse_array.num_elem_at(2), 1);
    assert_eq!(sparse_array.num_elem_at(3), 2);
    assert_eq!(sparse_array.num_elem_at(17), 6);
    assert_eq!(sparse_array.num_elem_at(19), 7);
}

#[test]
fn rank_and_select_agree_with_the_bitmap() {
    let sparse_array = multiples_of_three();
    let mut brute: u64 = 0;
    for i in 0..20usize {
        assert_eq!(sparse_array.get_rank1(i), brute);
        if i % 3 == 0 {
            brute += 1;
        }
    }
    for r in 1..=7u64 {
        // The r-th present element sits at 3 * (r - 1), so the first prefix
        // of rank r ends one past it.
        assert_eq!(sparse_array.get_select1(r), 3 * (r - 1) + 1);
    }
    assert_eq!(sparse_array.get_select1(0), 0);
    assert_eq!(sparse_array.get_select1(8), u64::MAX);
}

#[test]
fn empty_sparse_array_reports_nothing() {
    let mut sparse_array = SparseArray::create(16);
    sparse_array.finalize();
    assert_eq!(sparse_array.num_elem(), 0);
    assert_eq!(sparse_array.get_index_of(0), u64::MAX);
    let mut s = String::new();
    assert!(!sparse_array.get_at_index(5, &mut s));
    assert_eq!(sparse_array.num_elem_at(15), 0);
}

#[test]
fn overhead_accounts_for_bitmap_tables_and_payload() {
    let mut sparse_array = SparseArray::create(20);
    sparse_array.append(String::from("abc"), 2);
    sparse_array.append(String::from("de"), 11);
    sparse_array.finalize();
    // size 20: one packed word of 8 bytes; block 2 bits wide -> 10 entries,
    // superblock 16 bits -> 2 entries; 5 payload bytes.
    assert_eq!(sparse_array.get_overhead(), 8 + 5 + 2 * 8 + 10 * 2);
}

#[test]
fn same_query_twice_after_one_finalize() {
    let sparse_array = multiples_of_three();
    for i in 0..20u64 {
        let mut a = String::new();
        let mut b = String::new();
        assert_eq!(
            sparse_array.get_at_index(i, &mut a),
            sparse_array.get_at_index(i, &mut b)
        );
        assert_eq!(a, b);
        assert_eq!(sparse_array.num_elem_at(i), sparse_array.num_elem_at(i));
    }
    for r in 0..9u64 {
        assert_eq!(sparse_array.get_index_of(r), sparse_array.get_index_of(r));
        assert_eq!(sparse_array.get_select1(r), sparse_array.get_select1(r));
    }
}

#[test]
fn finalize_again_leaves_answers_unchanged() {
    let mut sparse_array = multiples_of_three();
    let before: Vec<u64> = (0..20).map(|i| sparse_array.get_rank1(i)).collect();
    sparse_array.finalize();
    let after: Vec<u64> = (0..20).map(|i| sparse_array.get_rank1(i)).collect();
    assert_eq!(before, after);
}

#[test]
fn larger_array_agrees_with_brute_force() {
    let size = 500u64;
    let mut sparse_array = SparseArray::create(size);
    let positions: Vec<u64> = (0..size).filter(|p| p % 7 == 3).collect();
    for &p in positions.iter() {
        sparse_array.append(format!("at {}", p), p);
    }
    sparse_array.finalize();

    assert_eq!(sparse_array.num_elem(), positions.len() as u64);
    for (k, &p) in positions.iter().enumerate() {
        assert_eq!(sparse_array.get_index_of(k as u64), p);
        let mut s = String::new();
        assert!(sparse_array.get_at_index(p, &mut s));
        assert_eq!(s, format!("at {}", p));
    }
    let mut brute: u64 = 0;
    for i in 0..size {
        if i % 7 == 3 {
            brute += 1;
        }
        assert_eq!(sparse_array.num_elem_at(i), brute);
        let mut s = String::new();
        assert_eq!(sparse_array.get_at_index(i, &mut s), i % 7 == 3);
    }
}
