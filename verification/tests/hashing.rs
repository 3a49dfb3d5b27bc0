use rustychain::accounts::Transaction;
use rustychain::blockchain::{hash_meets_difficulty, BlockHeader, SearchStep};
use rustychain::sha128::{
    add_wrapping, u128_to_u8_array, u8_array_to_u128, Sha128, OVERFLOW_PROTECTION,
};

fn tx_with_hash(hash: u128) -> Transaction {
    Transaction { hash, sender_address: 1, receiver_address: 2, amount: 3 }
}

#[test]
fn overflow_protection_is_half_the_range() {
    assert_eq!(OVERFLOW_PROTECTION, u128::MAX >> 1);
}

#[test]
fn big_endian_bytes_of_a_number() {
    let bytes = u128_to_u8_array(0x0102_0304_0506_0708_090a_0b0c_0d0e_0f10);
    assert_eq!(bytes, [1, 2, 3, 4, 5, 6, 7, 8, 9, 10, 11, 12, 13, 14, 15, 16]);
    assert_eq!(u128_to_u8_array(0), [0u8; 16]);
    assert_eq!(u128_to_u8_array(u128::MAX), [0xffu8; 16]);
}

#[test]
fn number_of_big_endian_bytes() {
    let n = u8_array_to_u128([1, 2, 3, 4, 5, 6, 7, 8, 9, 10, 11, 12, 13, 14, 15, 16]);
    assert_eq!(n, 0x0102_0304_0506_0708_090a_0b0c_0d0e_0f10);
    assert_eq!(u8_array_to_u128([0xffu8; 16]), u128::MAX);
}

#[test]
fn bytes_round_trip() {
    for n in [0u128, 1, 255, 256, 1 << 64, u128::MAX - 7, 31] {
        assert_eq!(u8_array_to_u128(u128_to_u8_array(n)), n);
    }
}

#[test]
fn wrapping_sum() {
    assert_eq!(add_wrapping(1, 2), 3);
    assert_eq!(add_wrapping(u128::MAX, 1), 0);
    assert_eq!(add_wrapping(u128::MAX, u128::MAX), u128::MAX - 1);
}

#[test]
fn hash_of_known_inputs() {
    assert_eq!(Sha128::hash(0), 73476375384164767517212904947171775016);
    assert_eq!(Sha128::hash(1), 165139968508487951343830423722153636902);
    assert_eq!(Sha128::hash(u128::MAX), 120661952751413029326166645825795238067);
}

#[test]
fn hash_is_deterministic() {
    assert_eq!(Sha128::hash(42), Sha128::hash(42));
    assert_ne!(Sha128::hash(42), Sha128::hash(43));
}

#[test]
fn identity_is_the_hash_of_the_secret() {
    assert_eq!(Sha128::public_key(31), 133983338751587475823058948481952950675);
    assert_eq!(Sha128::public_key(31), Sha128::hash(31));
}

#[test]
fn address_is_the_hash_of_the_identity() {
    assert_eq!(Sha128::address(31), 56399288467595366516650358335630402808);
    assert_eq!(Sha128::address(31), Sha128::hash(Sha128::public_key(31)));
}

#[test]
fn transaction_hash_formula() {
    let pk = Sha128::public_key(31);
    assert_eq!(Sha128::transaction_hash(pk, 12345, 100), 7545156714601773760072041145076905372);
    let m = OVERFLOW_PROTECTION;
    assert_eq!(
        Sha128::transaction_hash(pk, 12345, 100),
        Sha128::hash((pk % m).wrapping_add(12345 % m).wrapping_add(100 % m))
    );
}

#[test]
fn transaction_hash_of_large_values_wraps() {
    let m = OVERFLOW_PROTECTION;
    assert_eq!(
        Sha128::transaction_hash(m - 1, m - 1, m - 1),
        88346829116623921477436109362286781774
    );
    assert_eq!(
        Sha128::transaction_hash(u128::MAX, u128::MAX, u128::MAX),
        184902319306412087062078373045137062511
    );
    assert_eq!(Sha128::transaction_hash(u128::MAX, u128::MAX, u128::MAX), Sha128::hash(3));
}

#[test]
fn block_hash_formula() {
    let header = BlockHeader { time: 99, nonce: 7, pre_hash: 8, merkle: 9, difficulty: 5 };
    assert_eq!(header.get_data(), 29);
    assert_eq!(Sha128::block_hash(&header), 265246214363707331905050240847247761296);
    assert_eq!(Sha128::block_hash(&header), Sha128::hash(29));
}

#[test]
fn block_hash_ignores_the_time() {
    let a = BlockHeader { time: 1, nonce: 7, pre_hash: 8, merkle: 9, difficulty: 5 };
    let b = BlockHeader { time: 2, nonce: 7, pre_hash: 8, merkle: 9, difficulty: 5 };
    assert_eq!(Sha128::block_hash(&a), Sha128::block_hash(&b));
}

#[test]
fn merkle_of_nothing_is_zero() {
    assert_eq!(Transaction::get_merkle(&[]), 0);
}

#[test]
fn merkle_of_one_pairs_it_with_itself() {
    let m = OVERFLOW_PROTECTION;
    let tx = tx_with_hash(10);
    assert_eq!(Transaction::get_merkle(&[tx]), 253409752865755429650209020384146156506);
    assert_eq!(Transaction::get_merkle(&[tx]), Sha128::hash(2 * (tx.get_hash() % m)));
    let big = tx_with_hash(u128::MAX - 3);
    assert_eq!(Transaction::get_merkle(&[big]), Sha128::hash(2 * (big.get_hash() % m)));
}

#[test]
fn merkle_of_two_combines_them() {
    let m = OVERFLOW_PROTECTION;
    let a = tx_with_hash(10);
    let b = tx_with_hash(20);
    assert_eq!(Transaction::get_merkle(&[a, b]), 275448268318484481649844145688068862768);
    assert_eq!(Transaction::get_merkle(&[a, b]), Sha128::hash(10 % m + 20 % m));
}

#[test]
fn merkle_of_three_takes_the_last_twice() {
    let txs = [tx_with_hash(10), tx_with_hash(20), tx_with_hash(30)];
    assert_eq!(Transaction::get_merkle(&txs), 74672492956643066714667202123113505472);
}

#[test]
fn merkle_of_six_moves_the_unpaired_hash_ahead() {
    let txs = [
        tx_with_hash(1),
        tx_with_hash(2),
        tx_with_hash(3),
        tx_with_hash(4),
        tx_with_hash(5),
        tx_with_hash(6),
    ];
    assert_eq!(Transaction::get_merkle(&txs), 292108062411125796594518282213323196761);
}

#[test]
fn merkle_depends_on_the_order() {
    let a = [tx_with_hash(1), tx_with_hash(2), tx_with_hash(3), tx_with_hash(4)];
    let b = [tx_with_hash(1), tx_with_hash(3), tx_with_hash(2), tx_with_hash(4)];
    assert_ne!(Transaction::get_merkle(&a), Transaction::get_merkle(&b));
}

#[test]
fn difficulty_counts_leading_zero_bits() {
    assert!(hash_meets_difficulty(u128::MAX, 0));
    assert!(hash_meets_difficulty(u128::MAX >> 5, 5));
    assert!(!hash_meets_difficulty(u128::MAX >> 4, 5));
    assert!(hash_meets_difficulty(1, 127));
    assert!(!hash_meets_difficulty(2, 127));
    assert!(hash_meets_difficulty(0, 128));
    assert!(!hash_meets_difficulty(1, 128));
    assert!(!hash_meets_difficulty(1, 200));
}

#[test]
fn first_valid_nonce_of_a_header() {
    let header = BlockHeader { time: 0, nonce: 0, pre_hash: 8, merkle: 9, difficulty: 5 };
    assert_eq!(header.search_nonce(5, 0, 1), Some(15));
    for n in 0..15u128 {
        let tried = BlockHeader { nonce: n, ..header };
        assert!(!tried.is_valid(5));
    }
    assert!(BlockHeader { nonce: 15, ..header }.is_valid(5));
}

#[test]
fn every_worker_finds_a_valid_nonce() {
    let header = BlockHeader { time: 0, nonce: 0, pre_hash: 8, merkle: 9, difficulty: 5 };
    let expected = [48u128, 57, 298, 15];
    for worker in 0..4u128 {
        let nonce = header.search_nonce(5, worker, 4).unwrap();
        assert_eq!(nonce, expected[worker as usize]);
        assert_eq!(nonce % 4, worker);
        let found = BlockHeader { nonce, ..header };
        assert_eq!(Sha128::block_hash(&found) >> (128 - 5), 0);
    }
}

#[test]
fn search_gives_up_where_the_candidates_end() {
    let header = BlockHeader { time: 0, nonce: 0, pre_hash: 8, merkle: 9, difficulty: 128 };
    assert_eq!(header.search_nonce(128, u128::MAX - 2, 2), None);
}

#[test]
fn difficulty_zero_accepts_the_first_nonce() {
    let header = BlockHeader { time: 0, nonce: 0, pre_hash: 8, merkle: 9, difficulty: 0 };
    assert_eq!(header.search_nonce(0, 3, 7), Some(3));
}

#[test]
fn one_attempt_of_a_worker() {
    let header = BlockHeader { time: 0, nonce: 0, pre_hash: 8, merkle: 9, difficulty: 5 };
    assert_eq!(header.search_step(5, 14, 4), SearchStep::Next(18));
    assert_eq!(header.search_step(5, 15, 4), SearchStep::Found(15));
    assert_eq!(header.search_step(5, u128::MAX - 3, 4), SearchStep::Exhausted);
    assert_eq!(header.search_step(5, u128::MAX - 4, 4), SearchStep::Next(u128::MAX));
    assert_eq!(header.search_step(0, u128::MAX, 4), SearchStep::Found(u128::MAX));
}
