use rustychain::accounts::Transaction;
use rustychain::blockchain::{Block, BlockHeader, Chain, BLOCK_REWARD, DEFAULT_DIFFICULTY};
use rustychain::error::{AccountDNE, ChainError, TransactionError};
use rustychain::miner::Miner;
use rustychain::node::Node;
use rustychain::sha128::Sha128;

const SYSTEM_SECRET: u128 = 31;

fn balance(chain: &Chain, address: u128) -> u128 {
    chain.get_accounts().get_account_amount(&address).unwrap()
}

fn reserved(chain: &Chain, address: u128) -> u128 {
    chain.get_accounts().get_account_pending_amount(&address).unwrap()
}

#[test]
fn genesis_block_is_neutral() {
    let chain = Chain::init();
    assert_eq!(chain.get_chain().len(), 1);
    let genesis = &chain.get_chain()[0];
    assert_eq!(genesis.header.pre_hash, 0);
    assert_eq!(genesis.header.nonce, 0);
    assert_eq!(genesis.header.merkle, 0);
    assert_eq!(genesis.header.difficulty, 5);
    assert_eq!(DEFAULT_DIFFICULTY, 5);
    assert!(genesis.transactions.is_empty());
    assert!(chain.get_curr_transactions().is_empty());
    assert_eq!(chain.get_difficulty(), DEFAULT_DIFFICULTY);
    assert_eq!(chain.get_reward(), BLOCK_REWARD);
    assert_eq!(BLOCK_REWARD, 50);
    assert_eq!(balance(&chain, Sha128::address(SYSTEM_SECRET)), 21_000_000);
}

#[test]
fn genesis_block_of_a_given_difficulty() {
    let block = Block::get_genesis_block(7);
    assert_eq!(block.header.nonce, 0);
    assert_eq!(block.header.pre_hash, 0);
    assert_eq!(block.header.merkle, 0);
    assert_eq!(block.get_difficulty(), 7);
    assert!(block.transactions.is_empty());
}

#[test]
fn new_block_points_at_the_previous_one() {
    let genesis = Block::get_genesis_block(5);
    let tx = Transaction::generate_transaction(31, 12345, 100);
    let block = Block::new_block(&genesis, vec![tx]);
    assert_eq!(block.header.pre_hash, genesis.get_hash());
    assert_eq!(block.header.pre_hash, 270632956873982843090481436029238646304);
    assert_eq!(block.header.merkle, Transaction::get_merkle(&[tx]));
    assert_eq!(block.header.nonce, 0);
    assert_eq!(block.header.time, 0);
    assert_eq!(block.header.difficulty, 5);
    assert_eq!(block.transactions, vec![tx]);
}

#[test]
fn signing_fills_the_pool() {
    let mut chain = Chain::with_difficulty(5);
    let system = Sha128::address(SYSTEM_SECRET);
    let tx = chain.sign_transaction(SYSTEM_SECRET, 555, 100).unwrap();
    assert_eq!(chain.get_curr_transactions(), &vec![tx]);
    assert_eq!(reserved(&chain, system), 100);
    assert_eq!(balance(&chain, system), 21_000_000);
}

#[test]
fn failed_signing_leaves_the_pool() {
    let mut chain = Chain::with_difficulty(5);
    assert_eq!(
        chain.sign_transaction(SYSTEM_SECRET, 555, 21_000_001),
        Err(TransactionError::InsufficientFunds { balance: 21_000_000, reserved: 0 })
    );
    assert_eq!(chain.sign_transaction(77, 555, 1), Err(TransactionError::AccountNotFound));
    assert!(chain.get_curr_transactions().is_empty());
    assert_eq!(reserved(&chain, Sha128::address(SYSTEM_SECRET)), 0);
}

#[test]
fn end_to_end_sign_and_mine() {
    let mut chain = Chain::with_difficulty(5);
    let system = Sha128::address(SYSTEM_SECRET);
    let receiver = Sha128::address(77);
    let miner = Sha128::address(5);
    assert_eq!(balance(&chain, system), 21_000_000);

    let signed = chain.sign_transaction(SYSTEM_SECRET, receiver, 100).unwrap();
    assert_eq!(reserved(&chain, system), 100);

    chain.mine(miner, 4);

    assert_eq!(balance(&chain, system), 21_000_000 - 100);
    assert_eq!(reserved(&chain, system), 0);
    assert_eq!(balance(&chain, receiver), 100);
    assert_eq!(balance(&chain, miner), 50);
    assert_eq!(chain.get_chain().len(), 2);
    assert!(chain.get_curr_transactions().is_empty());

    let genesis = &chain.get_chain()[0];
    let block = &chain.get_chain()[1];
    assert_eq!(block.header.pre_hash, Sha128::block_hash(&genesis.header));
    assert_eq!(block.transactions, vec![Transaction::transaction_to_miner(miner, 50), signed]);
    assert_eq!(block.header.merkle, Transaction::get_merkle(&block.transactions));
    assert_eq!(block.header.difficulty, 5);
    assert_eq!(Sha128::block_hash(&block.header) >> (128 - 5), 0);
}

#[test]
fn mining_mints_the_reward() {
    let mut chain = Chain::with_difficulty(5);
    let miner = Sha128::address(5);
    let before = chain.get_accounts().total_supply();
    let _ = chain.sign_transaction(SYSTEM_SECRET, 555, 1000);
    chain.mine(miner, 1);
    assert_eq!(chain.get_accounts().total_supply(), before + 50);
    chain.mine(miner, 0);
    assert_eq!(chain.get_accounts().total_supply(), before + 100);
    assert_eq!(balance(&chain, miner), 100);
    assert_eq!(balance(&chain, 555), 1000);
    assert_eq!(balance(&chain, Sha128::address(SYSTEM_SECRET)), 21_000_000 - 1000);
}

#[test]
fn mined_blocks_are_linked_and_meet_the_difficulty() {
    let mut chain = Chain::with_difficulty(6);
    let miner = Sha128::address(5);
    for round in 0..4u128 {
        let _ = chain.sign_transaction(SYSTEM_SECRET, 1000 + round, 10 * (round + 1));
        chain.mine(miner, 2);
    }
    let blocks = chain.get_chain();
    assert_eq!(blocks.len(), 5);
    for i in 1..blocks.len() {
        assert_eq!(blocks[i].header.pre_hash, Sha128::block_hash(&blocks[i - 1].header));
        assert_eq!(blocks[i].get_hash() >> (128 - 6), 0);
        assert_eq!(blocks[i].header.merkle, Transaction::get_merkle(&blocks[i].transactions));
        assert_eq!(blocks[i].transactions.len(), 2);
    }
}

#[test]
fn mine_adopts_the_first_valid_nonce() {
    let mut chain = Chain::with_difficulty(5);
    let miner = Sha128::address(5);
    let header = chain.get_next_header(miner);
    let expected = header.search_nonce(5, 0, 1).unwrap();
    chain.mine(miner, 3);
    assert_eq!(chain.get_chain()[1].header.nonce, expected);
    assert_eq!(BlockHeader { time: 0, ..chain.get_chain()[1].header }, BlockHeader {
        nonce: expected,
        ..header
    });
}

#[test]
fn proof_of_work_sets_a_valid_nonce() {
    let chain = Chain::with_difficulty(5);
    let genesis = Block::get_genesis_block(5);
    let mut block = Block::new_block(&genesis, vec![Transaction::transaction_to_miner(1, 50)]);
    let before = block.header;
    assert!(chain.pow(&mut block, 4));
    assert!(block.header.is_valid(5));
    assert_eq!(BlockHeader { nonce: 0, ..block.header }, before);
    assert_eq!(block.transactions.len(), 1);
}

#[test]
fn a_nonce_found_elsewhere_is_checked() {
    let mut chain = Chain::with_difficulty(5);
    let miner = Sha128::address(5);
    let _ = chain.sign_transaction(SYSTEM_SECRET, 555, 100);
    let header = chain.get_next_header(miner);
    let good = header.search_nonce(5, 3, 4).unwrap();
    let mut bad: u128 = 0;
    while (BlockHeader { nonce: bad, ..header }).is_valid(5) {
        bad += 1;
    }
    assert!(!chain.mine_with_nonce(miner, bad));
    assert_eq!(chain.get_chain().len(), 1);
    assert_eq!(chain.get_curr_transactions().len(), 1);
    assert_eq!(chain.get_accounts().get_account_amount(&miner), Err(AccountDNE));

    assert!(chain.mine_with_nonce(miner, good));
    assert_eq!(chain.get_chain().len(), 2);
    assert_eq!(chain.get_chain()[1].header.nonce, good);
    assert!(chain.get_curr_transactions().is_empty());
    assert_eq!(balance(&chain, miner), 50);
    assert_eq!(balance(&chain, 555), 100);
}

#[test]
fn reward_transaction_of_the_chain() {
    let chain = Chain::with_difficulty(5);
    let tx = chain.miner_reward_transaction(4242, 50);
    assert_eq!(tx, Transaction::transaction_to_miner(4242, 50));
}

#[test]
fn candidate_of_one_block_does_not_link() {
    let local = Chain::with_difficulty(5);
    let candidate = Chain::with_difficulty(5);
    assert_eq!(local.check_health(&candidate), Err(ChainError::ChainPrevHashMismatch));
}

#[test]
fn candidate_one_block_ahead_does_not_link() {
    let mut chain = Chain::with_difficulty(5);
    chain.mine(1, 1);
    let local = chain.clone();
    chain.mine(1, 1);
    assert_eq!(local.check_health(&chain), Err(ChainError::ChainPrevHashMismatch));
}

#[test]
fn candidate_two_blocks_ahead_is_healthy() {
    let mut chain = Chain::with_difficulty(5);
    chain.mine(1, 1);
    chain.mine(2, 1);
    let local = chain.clone();
    chain.mine(3, 1);
    chain.mine(4, 1);
    assert_eq!(local.check_health(&chain), Ok(()));
}

#[test]
fn candidate_from_another_tip_does_not_link() {
    let mut chain = Chain::with_difficulty(5);
    chain.mine(1, 1);
    chain.mine(2, 1);
    let mut local = chain.clone();
    let _ = local.sign_transaction(SYSTEM_SECRET, 555, 5);
    local.mine(9, 1);
    let _ = chain.sign_transaction(SYSTEM_SECRET, 777, 6);
    chain.mine(3, 1);
    let forked_tip = chain.clone();
    chain.mine(4, 1);
    chain.mine(5, 1);
    assert_eq!(forked_tip.check_health(&chain), Ok(()));
    assert_eq!(local.check_health(&chain), Err(ChainError::ChainPrevHashMismatch));
}

#[test]
fn candidate_with_another_history_is_broken() {
    let mut local = Chain::with_difficulty(5);
    local.mine(1, 1);
    let started = std::time::Instant::now();
    while started.elapsed() < std::time::Duration::from_millis(3) {}
    let mut candidate = Chain::with_difficulty(5);
    candidate.mine(1, 1);
    candidate.mine(2, 1);
    candidate.mine(3, 1);
    assert_eq!(
        candidate.get_chain()[2].header.pre_hash,
        Sha128::block_hash(&local.get_chain()[1].header)
    );
    if local.get_chain()[0].same_as(&candidate.get_chain()[0]) {
        assert_eq!(local.check_health(&candidate), Ok(()));
    } else {
        assert_eq!(local.check_health(&candidate), Err(ChainError::ChainBroken));
    }
}

#[test]
fn candidate_with_a_rewritten_block_is_broken() {
    let mut chain = Chain::with_difficulty(5);
    chain.mine(1, 1);
    chain.mine(2, 1);
    let local = chain.clone();
    chain.mine(3, 1);
    chain.mine(4, 1);
    assert_eq!(local.check_health(&chain), Ok(()));
    let mut earlier = Chain::with_difficulty(5);
    earlier.mine(1, 1);
    earlier.mine(2, 1);
    let stamped = local.get_chain()[1].header.time != earlier.get_chain()[1].header.time
        || local.get_chain()[0].header.time != earlier.get_chain()[0].header.time;
    let expected = if stamped { Err(ChainError::ChainBroken) } else { Ok(()) };
    assert_eq!(earlier.check_health(&chain), expected);
}

#[test]
fn blocks_compare_by_header_and_transactions() {
    let genesis = Block::get_genesis_block(5);
    let tx = Transaction::generate_transaction(31, 12345, 100);
    let a = Block::new_block(&genesis, vec![tx]);
    let b = Block::new_block(&genesis, vec![tx]);
    assert!(a.same_as(&b));
    let mut c = Block::new_block(&genesis, vec![tx]);
    c.transactions.push(tx);
    assert!(!a.same_as(&c));
    let mut d = Block::new_block(&genesis, vec![tx]);
    d.header.time = 1;
    assert!(!a.same_as(&d));
}

#[test]
fn miner_signs_with_its_own_secret() {
    let mut miner = Miner::new(SYSTEM_SECRET, 2);
    assert_eq!(miner.get_private_key(), SYSTEM_SECRET);
    assert_eq!(miner.get_threads(), 2);
    let tx = miner.send_transaction(555, 10).unwrap();
    assert_eq!(tx.get_sender_address(), Sha128::address(SYSTEM_SECRET));
    assert_eq!(miner.get_chain().get_curr_transactions().len(), 1);
    assert_eq!(
        miner.send_transaction_with_another_private_key(77, 555, 10),
        Err(TransactionError::AccountNotFound)
    );
    let second = miner.send_transaction_with_another_private_key(SYSTEM_SECRET, 556, 20).unwrap();
    assert_eq!(second.get_receiver_address(), 556);
    assert_eq!(miner.get_chain().get_curr_transactions().len(), 2);
}

#[test]
fn node_holds_the_chain() {
    let mut chain = Chain::with_difficulty(5);
    chain.mine(1, 1);
    let node = Node::new(chain);
    assert_eq!(node.get_chain().get_chain().len(), 2);
}

#[test]
fn miner_rejects_a_nonce_that_is_not_valid() {
    let mut miner = Miner::new(5, 4);
    let header = miner.get_next_header();
    let genesis_hash = Sha128::block_hash(&miner.get_chain().get_chain()[0].header);
    assert_eq!(header.pre_hash, genesis_hash);
    assert_eq!(header.difficulty, 5);
    assert_eq!(header.nonce, 0);
    assert_eq!(
        header.merkle,
        Transaction::get_merkle(&[Transaction::transaction_to_miner(Sha128::address(5), 50)])
    );
    let mut bad: u128 = 0;
    while (BlockHeader { nonce: bad, ..header }).is_valid(5) {
        bad += 1;
    }
    assert!(!miner.mine_with_nonce(bad));
    assert_eq!(miner.get_chain().get_chain().len(), 1);
    assert_eq!(miner.get_chain().get_accounts().total_supply(), 21_000_000);
}

#[test]
fn fresh_chain_has_room_for_the_reward() {
    let chain = Chain::init();
    assert!(chain.reward_fits());
}

#[test]
fn end_to_end_on_a_fresh_default_chain() {
    let mut chain = Chain::init();
    let system = Sha128::address(SYSTEM_SECRET);
    let receiver = Sha128::address(77);
    let miner = Sha128::address(5);
    assert_eq!(chain.get_difficulty(), 5);
    let signed = chain.sign_transaction(SYSTEM_SECRET, receiver, 100).unwrap();
    assert_eq!(reserved(&chain, system), 100);
    chain.mine(miner, 4);
    assert_eq!(balance(&chain, system), 21_000_000 - 100);
    assert_eq!(reserved(&chain, system), 0);
    assert_eq!(balance(&chain, receiver), 100);
    assert_eq!(balance(&chain, miner), 50);
    assert_eq!(chain.get_chain().len(), 2);
    let block = &chain.get_chain()[1];
    assert_eq!(block.header.pre_hash, Sha128::block_hash(&chain.get_chain()[0].header));
    assert_eq!(block.transactions, vec![Transaction::transaction_to_miner(miner, 50), signed]);
    assert_eq!(block.header.difficulty, 5);
    assert_eq!(Sha128::block_hash(&block.header) >> (128 - 5), 0);
}

#[test]
fn miner_sends_twice_and_mines() {
    let mut miner = Miner::new(SYSTEM_SECRET, 4);
    let own = Sha128::address(SYSTEM_SECRET);
    assert!(miner.send_transaction(555, 10).is_ok());
    assert!(miner.send_transaction(556, 20).is_ok());
    miner.mine();
    let chain = miner.get_chain();
    assert_eq!(chain.get_chain().len(), 2);
    assert_eq!(chain.get_chain()[1].transactions.len(), 3);
    assert_eq!(balance(chain, own), 21_000_000 - 30 + 50);
    assert_eq!(balance(chain, 555), 10);
    assert_eq!(balance(chain, 556), 20);
    assert_eq!(chain.get_accounts().total_supply(), 21_000_050);
    assert_eq!(Sha128::block_hash(&chain.get_chain()[1].header) >> (128 - 5), 0);
}

#[test]
fn miner_takes_a_nonce_found_by_a_worker() {
    let mut miner = Miner::new(9, 4);
    let header = miner.get_next_header();
    let nonce = header.search_nonce(5, 2, 4).unwrap();
    assert!(miner.mine_with_nonce(nonce));
    assert_eq!(miner.get_chain().get_chain()[1].header.nonce, nonce);
    assert_eq!(balance(miner.get_chain(), Sha128::address(9)), 50);
}
