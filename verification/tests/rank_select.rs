use succinct::bit_vector::BitVector;
use succinct::rank_support::RankSupport;
use succinct::select_support::SelectSupport;

fn patterned_vector(size: usize) -> (BitVector, Vec<bool>) {
    let mut bv = BitVector::new(size);
    let mut mirror = vec![false; size];
    for i in 0..size {
        let set = (i * 37) % 7 < 2;
        bv.set(i, set);
        mirror[i] = set;
    }
    (bv, mirror)
}

#[test]
fn rank_matches_scenario_positions() {
    let mut bv = BitVector::new(100);
    for &p in [5usize, 10, 30, 36, 50, 70].iter() {
        bv.set(p, true);
    }
    let rank_support = RankSupport::new(bv);
    // rank1 counts strictly before its argument.
    assert_eq!(rank_support.rank1(10), 1);
    assert_eq!(rank_support.rank1(30), 2);
    assert_eq!(rank_support.rank1(50), 4);
    assert_eq!(rank_support.rank1(70), 5);
    assert_eq!(rank_support.rank1(71), 6);
    // The counts inclusive of each set position.
    assert_eq!(rank_support.rank1(11), 2);
    assert_eq!(rank_support.rank1(31), 3);
    assert_eq!(rank_support.rank1(51), 5);
    assert_eq!(rank_support.rank1(6), 1);
    assert_eq!(rank_support.rank1(37), 4);
}

#[test]
fn rank_matches_brute_force_everywhere() {
    let (bv, mirror) = patterned_vector(300);
    let rank_support = RankSupport::new(bv);
    let mut brute: u64 = 0;
    for i in 0..300 {
        assert_eq!(rank_support.rank1(i), brute, "rank1 differs at {}", i);
        if mirror[i] {
            brute += 1;
        }
    }
}

#[test]
fn rank_of_zero_is_zero() {
    let (bv, _) = patterned_vector(123);
    let rank_support = RankSupport::new(bv);
    assert_eq!(rank_support.rank1(0), 0);
}

#[test]
fn rank_index_reports_its_size() {
    let (bv, _) = patterned_vector(256);
    let rank_support = RankSupport::new(bv);
    assert_eq!(rank_support.bit_vector_size(), 256);
    // size 256: block 4 bits wide -> 64 entries, superblock 64 bits -> 4.
    assert_eq!(rank_support.overhead(), 4 * 64 + 64 * 16);
    let select_support = SelectSupport::new(&rank_support);
    assert_eq!(select_support.overhead(), 4 * 64 + 64 * 16);
}

#[test]
fn select_inverts_rank_at_every_answerable_rank() {
    let (bv, mirror) = patterned_vector(190);
    let total: u64 = mirror.iter().filter(|&&b| b).count() as u64;
    let rank_support = RankSupport::new(bv);
    let select_support = SelectSupport::new(&rank_support);

    // Prefix counts, brute force: counts[i] = ones strictly before i.
    let mut counts = vec![0u64; 191];
    for i in 0..190 {
        counts[i + 1] = counts[i] + if mirror[i] { 1 } else { 0 };
    }
    for r in 1..=total {
        let s = select_support.select1(r);
        let s = s as usize;
        assert!(1 <= s && s <= 190);
        assert_eq!(counts[s], r, "select1({}) is not a qualifying prefix", r);
        assert_eq!(counts[s - 1], r - 1, "select1({}) is not the first", r);
        assert!(mirror[s - 1]);
    }
}

#[test]
fn select_of_zero_is_zero_and_past_total_is_sentinel() {
    let (bv, mirror) = patterned_vector(150);
    let total: u64 = mirror.iter().filter(|&&b| b).count() as u64;
    let rank_support = RankSupport::new(bv);
    let select_support = SelectSupport::new(&rank_support);
    assert_eq!(select_support.select1(0), 0);
    assert_eq!(select_support.select1(total + 1), u64::MAX);
    assert_eq!(select_support.select1(u64::MAX), u64::MAX);
}

#[test]
fn select_on_empty_vector_finds_nothing() {
    let bv = BitVector::new(80);
    let rank_support = RankSupport::new(bv);
    let select_support = SelectSupport::new(&rank_support);
    assert_eq!(select_support.select1(1), u64::MAX);
    assert_eq!(select_support.select1(0), 0);
}

#[test]
fn select_on_dense_vector_is_identity() {
    let mut bv = BitVector::new(150);
    for i in 0..150 {
        bv.set(i, true);
    }
    let rank_support = RankSupport::new(bv);
    let select_support = SelectSupport::new(&rank_support);
    for r in 1..=150u64 {
        assert_eq!(select_support.select1(r), r);
    }
}

#[test]
fn select_reaches_a_set_final_bit() {
    let mut bv = BitVector::new(96);
    bv.set(40, true);
    bv.set(95, true);
    let rank_support = RankSupport::new(bv);
    let select_support = SelectSupport::new(&rank_support);
    assert_eq!(select_support.select1(1), 41);
    assert_eq!(select_support.select1(2), 96);
    assert_eq!(select_support.select1(3), u64::MAX);
}

#[test]
fn finalize_rank_rebuilds_the_same_tables() {
    let mut bv = BitVector::new(100);
    for &p in [5usize, 10, 30, 36, 50, 70].iter() {
        bv.set(p, true);
    }
    let mut rank_support = RankSupport::new(bv);
    rank_support.finalize_rank();
    assert_eq!(rank_support.rank1(50), 4);
    assert_eq!(rank_support.rank1(99), 6);
}

#[test]
fn repeated_queries_return_identical_results() {
    let (bv, _) = patterned_vector(170);
    let rank_support = RankSupport::new(bv);
    for i in [0usize, 1, 64, 113, 169] {
        assert_eq!(rank_support.rank1(i), rank_support.rank1(i));
    }
    let select_support = SelectSupport::new(&rank_support);
    for r in [0u64, 1, 5, 1000] {
        assert_eq!(select_support.select1(r), select_support.select1(r));
    }
}
