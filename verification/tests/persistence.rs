use succinct::bit_vector::BitVector;
use succinct::rank_support::RankSupport;
use succinct::select_support::SelectSupport;

fn patterned_vector(size: usize) -> BitVector {
    let mut bv = BitVector::new(size);
    for i in 0..size {
        bv.set(i, (i * 13) % 5 < 2);
    }
    bv
}

#[test]
fn bit_vector_round_trips_bit_for_bit() {
    let bv = patterned_vector(100);
    let bytes = bv.save();
    assert_eq!(bytes.len(), 8 + 8 * 2);
    let loaded = BitVector::load(&bytes).expect("own encoding must parse");
    assert_eq!(loaded.size(), bv.size());
    for i in 0..100 {
        assert_eq!(loaded.get(i), bv.get(i));
    }
}

#[test]
fn bit_vector_round_trips_rank_for_rank() {
    let bv = patterned_vector(300);
    let bytes = bv.save();
    let loaded = BitVector::load(&bytes).expect("own encoding must parse");
    let original_rank = RankSupport::new(bv);
    let loaded_rank = RankSupport::new(loaded);
    for i in 0..300 {
        assert_eq!(original_rank.rank1(i), loaded_rank.rank1(i));
    }
}

#[test]
fn bit_vector_load_rejects_malformed_bytes() {
    assert!(BitVector::load(&Vec::new()).is_none());
    assert!(BitVector::load(&vec![1u8, 2, 3]).is_none());

    let bv = patterned_vector(100);
    let bytes = bv.save();

    // A truncated word region is an error, not a shorter vector.
    let truncated = bytes[..bytes.len() - 3].to_vec();
    assert!(BitVector::load(&truncated).is_none());
    let missing_word = bytes[..bytes.len() - 8].to_vec();
    assert!(BitVector::load(&missing_word).is_none());

    // Extra trailing bytes are an error too.
    let mut padded = bytes.clone();
    padded.push(0);
    assert!(BitVector::load(&padded).is_none());

    // A size header that does not match the word count is rejected.
    let mut lying = bytes.clone();
    lying[0] = lying[0].wrapping_add(200);
    assert!(BitVector::load(&lying).is_none());
}

#[test]
fn rank_index_round_trips_rank_for_rank() {
    let rank_original = RankSupport::new(patterned_vector(300));
    let bytes = rank_original.save();
    let loaded =
        RankSupport::load(patterned_vector(300), &bytes).expect("own encoding must parse");
    for i in 0..300 {
        assert_eq!(loaded.rank1(i), rank_original.rank1(i));
    }
}

#[test]
fn rank_index_load_rejects_mismatched_bytes() {
    let rank_original = RankSupport::new(patterned_vector(300));
    let bytes = rank_original.save();

    // A bit vector of another size derives other parameters.
    assert!(RankSupport::load(patterned_vector(500), &bytes).is_none());

    // Truncated or padded table regions are errors.
    assert!(RankSupport::load(patterned_vector(300), &bytes[..10]).is_none());
    let truncated = bytes[..bytes.len() - 1].to_vec();
    assert!(RankSupport::load(patterned_vector(300), &truncated).is_none());
    let mut padded = bytes.clone();
    padded.push(0);
    assert!(RankSupport::load(patterned_vector(300), &padded).is_none());

    // A corrupted parameter header is rejected.
    let mut lying = bytes.clone();
    lying[0] = lying[0].wrapping_add(1);
    assert!(RankSupport::load(patterned_vector(300), &lying).is_none());
}

#[test]
fn select_round_trips_through_its_rank_index() {
    let rank_original = RankSupport::new(patterned_vector(190));
    let select_original = SelectSupport::new(&rank_original);
    let bytes = select_original.save();
    assert_eq!(bytes, rank_original.save());

    let rank_loaded =
        RankSupport::load(patterned_vector(190), &bytes).expect("own encoding must parse");
    let select_loaded = SelectSupport::load(&rank_loaded);
    for r in 0..80u64 {
        assert_eq!(select_loaded.select1(r), select_original.select1(r));
    }
}
