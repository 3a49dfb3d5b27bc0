use vstd::prelude::*;
use vstd::arithmetic::div_mod::{lemma_fundamental_div_mod, lemma_mod_add_multiples_vanish};
use std::time::UNIX_EPOCH;
use crate::accounts::{
    apply_sealed_to, credit_in, lemma_backed_settles, lemma_credit_keeps_backing,
    lemma_credit_keeps_sound, lemma_reserve_keeps_backing, merkle_root, pool_backed, reserve_in,
    reward_transaction, signed_transaction, total_balance, Account, Accounts, Transaction,
    INITIAL_SUPPLY,
};
use crate::error::{ChainError, TransactionError};
use crate::sha128::{add_wrapping, address_of, block_hash_of, header_data, Sha128, OVERFLOW_PROTECTION};

verus! {

/// Difficulty of a chain made by `Chain::init`.
pub const DEFAULT_DIFFICULTY: u8 = 5;

/// What the miner of a block is credited with.
pub const BLOCK_REWARD: u8 = 50;

/// The consensus-relevant fields of a block, plus its display-only time stamp.
#[derive(Clone, Copy, Debug, PartialEq, Eq, Structural)]
pub struct BlockHeader {
    pub time: u128,
    pub nonce: u128,
    pub pre_hash: u128,
    pub merkle: u128,
    pub difficulty: u8,
}

/// The top `difficulty` bits of `hash` are zero.
pub open spec fn meets_difficulty(hash: u128, difficulty: u8) -> bool {
    if difficulty == 0 {
        true
    } else if difficulty >= 128 {
        hash == 0
    } else {
        hash >> ((128 - difficulty) as u32) == 0
    }
}

/// With `nonce` in it, `header` hashes to a value that meets `difficulty`.
pub open spec fn nonce_valid(header: BlockHeader, difficulty: u8, nonce: u128) -> bool {
    meets_difficulty(block_hash_of(BlockHeader { nonce, ..header }), difficulty)
}

/// `nonce` is one of `start`, `start + stride`, `start + 2 * stride`, ...
pub open spec fn is_candidate(start: u128, stride: u128, nonce: u128) -> bool {
    nonce >= start && (nonce - start) % (stride as int) == 0
}

/// `nonce` is valid and no candidate before it is.
pub open spec fn is_first_valid(
    header: BlockHeader,
    difficulty: u8,
    start: u128,
    stride: u128,
    nonce: u128,
) -> bool {
    &&& is_candidate(start, stride, nonce)
    &&& nonce_valid(header, difficulty, nonce)
    &&& forall|m: u128|
        is_candidate(start, stride, m) && m < nonce ==> !#[trigger] nonce_valid(
            header,
            difficulty,
            m,
        )
}

/// What one attempt of a worker comes to.
#[derive(Clone, Copy, Debug, PartialEq, Eq, Structural)]
pub enum SearchStep {
    /// The nonce tried is valid.
    Found(u128),
    /// The nonce tried is not valid; this one is the worker's next.
    Next(u128),
    /// The nonce tried is not valid, and the worker has no next one.
    Exhausted,
}

/// After the candidate `nonce` the next one is `nonce + stride`.
proof fn lemma_next_candidate(start: u128, stride: u128, nonce: u128)
    requires
        stride >= 1,
        is_candidate(start, stride, nonce),
    ensures
        (nonce + stride - start) % (stride as int) == 0,
        forall|m: u128| #[trigger] is_candidate(start, stride, m) && m > nonce ==> m >= nonce + stride,
{
    let s = stride as int;
    let a = nonce - start;
    lemma_mod_add_multiples_vanish(a, s);
    assert forall|m: u128| #[trigger] is_candidate(start, stride, m) && m > nonce implies m >= nonce
        + stride by {
        let b = m - start;
        lemma_fundamental_div_mod(a, s);
        lemma_fundamental_div_mod(b, s);
        assert(b - a >= s) by (nonlinear_arith)
            requires
                s >= 1,
                a == s * (a / s),
                b == s * (b / s),
                a < b,
        ;
    }
}

impl BlockHeader {
    /// The value that is hashed to identify the block.
    pub fn get_data(&self) -> (r: u128)
        ensures
            r == header_data(*self),
    {
        let a: u128 = self.nonce % OVERFLOW_PROTECTION;
        let b: u128 = self.pre_hash % OVERFLOW_PROTECTION;
        let c: u128 = self.merkle % OVERFLOW_PROTECTION;
        let ab: u128 = add_wrapping(a, b);
        let abc: u128 = add_wrapping(ab, c);
        add_wrapping(abc, self.difficulty as u128)
    }

    /// Whether the header, with the nonce it holds, meets `difficulty`.
    pub fn is_valid(&self, difficulty: u8) -> (r: bool)
        ensures
            r == nonce_valid(*self, difficulty, self.nonce),
    {
        hash_meets_difficulty(Sha128::block_hash(self), difficulty)
    }

    /// Tries the nonces `start`, `start + stride`, ... in this order, as one
    /// worker of `stride` does, and returns the first that is valid; `None`
    /// where none of them is.
    pub fn search_nonce(&self, difficulty: u8, start: u128, stride: u128) -> (r: Option<u128>)
        requires
            stride >= 1,
        ensures
            match r {
                Some(nonce) => is_first_valid(*self, difficulty, start, stride, nonce),
                None => forall|m: u128|
                    is_candidate(start, stride, m) ==> !#[trigger] nonce_valid(
                        *self,
                        difficulty,
                        m,
                    ),
            },
    {
        let mut nonce: u128 = start;
        assert(0int % (stride as int) == 0) by (nonlinear_arith)
            requires
                stride >= 1,
        ;
        loop
            invariant
                stride >= 1,
                is_candidate(start, stride, nonce),
                forall|m: u128|
                    is_candidate(start, stride, m) && m < nonce ==> !#[trigger] nonce_valid(
                        *self,
                        difficulty,
                        m,
                    ),
            decreases u128::MAX - nonce,
        {
            proof {
                lemma_next_candidate(start, stride, nonce);
            }
            match self.search_step(difficulty, nonce, stride) {
                SearchStep::Found(found) => {
                    return Some(found);
                },
                SearchStep::Next(next) => {
                    nonce = next;
                },
                SearchStep::Exhausted => {
                    return None;
                },
            }
        }
    }

    /// One attempt of a worker of `stride`: tries `nonce` and, where it is
    /// not valid, names the worker's next nonce, if there is one.
    pub fn search_step(&self, difficulty: u8, nonce: u128, stride: u128) -> (r: SearchStep)
        ensures
            r == if nonce_valid(*self, difficulty, nonce) {
                SearchStep::Found(nonce)
            } else if nonce + stride <= u128::MAX {
                SearchStep::Next((nonce + stride) as u128)
            } else {
                SearchStep::Exhausted
            },
    {
        let mut local_header = *self;
        local_header.nonce = nonce;
        if local_header.is_valid(difficulty) {
            SearchStep::Found(nonce)
        } else if nonce <= u128::MAX - stride {
            SearchStep::Next(nonce + stride)
        } else {
            SearchStep::Exhausted
        }
    }
}

/// Whether the top `difficulty` bits of `hash` are zero.
pub fn hash_meets_difficulty(hash: u128, difficulty: u8) -> (r: bool)
    ensures
        r == meets_difficulty(hash, difficulty),
{
    if difficulty == 0 {
        true
    } else if difficulty >= 128 {
        hash == 0
    } else {
        let shift: u32 = (128 - difficulty) as u32;
        hash >> shift == 0
    }
}

/// Calls `SystemTime::elapsed` on the Unix epoch and gives the time since
/// then in whole microseconds; zero where the clock stands before the epoch.
/// The value depends on the clock, and nothing is claimed of it.
#[verifier::external_body]
pub(crate) fn get_time() -> u128 {
    match UNIX_EPOCH.elapsed() {
        Ok(elapsed) => elapsed.as_micros(),
        Err(_) => 0,
    }
}

/// A header and the transactions that it commits to.
#[derive(Clone, Debug)]
pub struct Block {
    pub header: BlockHeader,
    pub transactions: Vec<Transaction>,
}

/// The two blocks have equal headers and hold the same transactions.
pub open spec fn same_block(a: Block, b: Block) -> bool {
    a.header == b.header && a.transactions@ == b.transactions@
}

/// The first block of a chain of `difficulty`.
pub open spec fn is_genesis(block: Block, difficulty: u8) -> bool {
    &&& block.header.nonce == 0
    &&& block.header.pre_hash == 0
    &&& block.header.merkle == 0
    &&& block.header.difficulty == difficulty
    &&& block.transactions@.len() == 0
}

/// The header of a block that follows `prev` and holds `txs`, before a nonce
/// is found and the time is stamped.
pub open spec fn header_after(prev: BlockHeader, txs: Seq<Transaction>) -> BlockHeader {
    BlockHeader {
        time: 0,
        nonce: 0,
        pre_hash: block_hash_of(prev),
        merkle: merkle_root(txs),
        difficulty: prev.difficulty,
    }
}

/// `block` names `prev` as the block before it, commits to its own
/// transactions, and its hash meets `difficulty`.
pub open spec fn follows(prev: Block, block: Block, difficulty: u8) -> bool {
    &&& block.header.pre_hash == block_hash_of(prev.header)
    &&& block.header.merkle == merkle_root(block.transactions@)
    &&& block.header.difficulty == difficulty
    &&& meets_difficulty(block_hash_of(block.header), difficulty)
}

/// The block at `i` follows the one before it.
pub open spec fn linked_at(blocks: Seq<Block>, difficulty: u8, i: int) -> bool {
    follows(blocks[i - 1], blocks[i], difficulty)
}

/// The candidate's last block but one names the local tip as the block before
/// it. A candidate of fewer than two blocks does not link.
pub open spec fn tip_links(local: Seq<Block>, candidate: Seq<Block>) -> bool {
    &&& local.len() >= 1
    &&& candidate.len() >= 2
    &&& candidate[candidate.len() - 2].header.pre_hash == block_hash_of(local.last().header)
}

/// How many blocks from the start two chains are compared on: all of the
/// shorter one but its last.
pub open spec fn compared_prefix(local: Seq<Block>, candidate: Seq<Block>) -> int {
    if local.len() <= candidate.len() {
        local.len() - 1
    } else {
        candidate.len() - 1
    }
}

/// The two chains hold the same blocks over the compared prefix.
pub open spec fn prefixes_agree(local: Seq<Block>, candidate: Seq<Block>) -> bool {
    forall|i: int|
        0 <= i < compared_prefix(local, candidate) ==> #[trigger] same_block(local[i], candidate[i])
}

impl Block {
    pub fn get_genesis_block(difficulty: u8) -> (r: Block)
        ensures
            is_genesis(r, difficulty),
    {
        let header = BlockHeader { time: get_time(), nonce: 0, pre_hash: 0, merkle: 0, difficulty };
        Block { header, transactions: Vec::new() }
    }

    pub fn new_block(prev_block: &Block, transactions: Vec<Transaction>) -> (r: Block)
        ensures
            r.header == header_after(prev_block.header, transactions@),
            r.transactions == transactions,
    {
        let merkle: u128 = Transaction::get_merkle(transactions.as_slice());
        Block {
            header: BlockHeader {
                time: 0,
                nonce: 0,
                pre_hash: prev_block.get_hash(),
                merkle,
                difficulty: prev_block.get_difficulty(),
            },
            transactions,
        }
    }

    pub fn get_hash(&self) -> (r: u128)
        ensures
            r == block_hash_of(self.header),
    {
        Sha128::block_hash(&self.header)
    }

    pub fn get_difficulty(&self) -> (r: u8)
        ensures
            r == self.header.difficulty,
    {
        self.header.difficulty
    }

    /// Whether the two blocks have equal headers and the same transactions.
    pub fn same_as(&self, other: &Block) -> (r: bool)
        ensures
            r == same_block(*self, *other),
    {
        if !(self.header == other.header) {
            return false;
        }
        if self.transactions.len() != other.transactions.len() {
            return false;
        }
        let mut i: usize = 0;
        while i < self.transactions.len()
            invariant
                i <= self.transactions.len(),
                self.transactions.len() == other.transactions.len(),
                forall|j: int| 0 <= j < i ==> self.transactions@[j] == other.transactions@[j],
            decreases self.transactions.len() - i,
        {
            if !(self.transactions[i] == other.transactions[i]) {
                return false;
            }
            i += 1;
        }
        assert(self.transactions@ =~= other.transactions@);
        true
    }
}

/// The chain of blocks, with the ledger that they add up to and the pool of
/// transactions that are signed and wait for a block.
#[derive(Clone, Debug)]
pub struct Chain {
    chain: Vec<Block>,
    accounts: Accounts,
    curr_trans: Vec<Transaction>,
    difficulty: u8,
    reward: u8,
}

impl Chain {
    pub closed spec fn blocks(&self) -> Seq<Block> {
        self.chain@
    }

    pub closed spec fn accounts(&self) -> Accounts {
        self.accounts
    }

    pub closed spec fn pool(&self) -> Seq<Transaction> {
        self.curr_trans@
    }

    pub closed spec fn difficulty(&self) -> u8 {
        self.difficulty
    }

    pub closed spec fn reward(&self) -> u8 {
        self.reward
    }

    /// What holds of every chain: it starts with a genesis block, every other
    /// block follows the one before it with a proof of work, the ledger is
    /// sound, and the pool is backed by the reservations in the ledger.
    pub open spec fn wf(&self) -> bool {
        &&& self.blocks().len() >= 1
        &&& self.difficulty() <= 128
        &&& is_genesis(self.blocks()[0], self.difficulty())
        &&& forall|i: int|
            0 < i < self.blocks().len() ==> #[trigger] linked_at(self.blocks(), self.difficulty(), i)
        &&& self.accounts().wf()
        &&& pool_backed(self.accounts()@, self.pool())
    }

    /// The transactions of the next block: the miner's reward, then the pool.
    pub open spec fn sealed(&self, miner_address: u128) -> Seq<Transaction> {
        seq![reward_transaction(miner_address, self.reward())] + self.pool()
    }

    /// The header of the next block, before a nonce is found.
    pub open spec fn next_header(&self, miner_address: u128) -> BlockHeader {
        header_after(self.blocks().last().header, self.sealed(miner_address))
    }

    /// The total has room for one more reward.
    pub open spec fn can_mint(&self) -> bool {
        self.accounts().supply() + self.reward() <= u128::MAX
    }

    /// `next` has the state of `self`.
    pub open spec fn unchanged(&self, next: &Chain) -> bool {
        &&& next.blocks() == self.blocks()
        &&& next.pool() == self.pool()
        &&& next.accounts()@ == self.accounts()@
        &&& next.accounts().supply() == self.accounts().supply()
        &&& next.difficulty() == self.difficulty()
        &&& next.reward() == self.reward()
    }

    /// `next` is `self` after a block with `nonce` was mined for
    /// `miner_address`: the block is appended, the pool is empty, and the
    /// ledger holds the reward and every transaction of the pool.
    pub open spec fn mined(&self, next: &Chain, miner_address: u128, nonce: u128) -> bool {
        &&& next.blocks().len() == self.blocks().len() + 1
        &&& next.blocks().take(self.blocks().len() as int) == self.blocks()
        &&& next.blocks().last().header == (BlockHeader {
            time: next.blocks().last().header.time,
            nonce,
            ..self.next_header(miner_address)
        })
        &&& next.blocks().last().transactions@ == self.sealed(miner_address)
        &&& next.pool() == Seq::<Transaction>::empty()
        &&& next.accounts()@ == apply_sealed_to(self.accounts()@, self.sealed(miner_address))
        &&& next.accounts().supply() == self.accounts().supply() + self.reward()
        &&& next.difficulty() == self.difficulty()
        &&& next.reward() == self.reward()
    }

    /// `next` is `self` after a call to sign gave `r`: where the sender has an
    /// account with `amount` unreserved, `r` is the signed transaction, which
    /// has joined the pool, and the amount is reserved; otherwise `r` is the
    /// error and nothing has changed.
    pub open spec fn signed(
        &self,
        next: &Chain,
        private_key: u128,
        receiver_address: u128,
        amount: u128,
        r: Result<Transaction, TransactionError>,
    ) -> bool {
        let sender = address_of(private_key);
        &&& next.blocks() == self.blocks()
        &&& next.difficulty() == self.difficulty()
        &&& next.reward() == self.reward()
        &&& next.accounts().supply() == self.accounts().supply()
        &&& match r {
            Ok(tx) => {
                &&& self.accounts()@.contains_key(sender)
                &&& self.accounts()@[sender].amount - self.accounts()@[sender].pending_amount
                    >= amount
                &&& tx == signed_transaction(private_key, receiver_address, amount)
                &&& next.pool() == self.pool().push(tx)
                &&& next.accounts()@ == reserve_in(self.accounts()@, sender, amount)
            },
            Err(TransactionError::AccountNotFound) => {
                &&& !self.accounts()@.contains_key(sender)
                &&& self.unchanged(next)
            },
            Err(TransactionError::InsufficientFunds { balance, reserved }) => {
                &&& self.accounts()@.contains_key(sender)
                &&& balance == self.accounts()@[sender].amount
                &&& reserved == self.accounts()@[sender].pending_amount
                &&& balance - reserved < amount
                &&& self.unchanged(next)
            },
        }
    }

    /// A chain of the default difficulty that holds the genesis block alone.
    pub fn init() -> (r: Self)
        ensures
            r.wf(),
            r.blocks().len() == 1,
            r.pool() == Seq::<Transaction>::empty(),
            r.difficulty() == DEFAULT_DIFFICULTY,
            r.reward() == BLOCK_REWARD,
            r.accounts()@ == Accounts::new_spec(),
            r.accounts().supply() == INITIAL_SUPPLY,
    {
        Chain::with_difficulty(DEFAULT_DIFFICULTY)
    }

    /// A chain of `difficulty` that holds the genesis block alone.
    pub fn with_difficulty(difficulty: u8) -> (r: Self)
        requires
            difficulty <= 128,
        ensures
            r.wf(),
            r.blocks().len() == 1,
            r.pool() == Seq::<Transaction>::empty(),
            r.difficulty() == difficulty,
            r.reward() == BLOCK_REWARD,
            r.accounts()@ == Accounts::new_spec(),
            r.accounts().supply() == INITIAL_SUPPLY,
    {
        let mut chain: Vec<Block> = Vec::new();
        chain.push(Block::get_genesis_block(difficulty));
        let accounts = Accounts::new();
        let curr_trans: Vec<Transaction> = Vec::new();
        proof {
            lemma_empty_pool_backed(accounts@);
        }
        Chain { chain, accounts, curr_trans, difficulty, reward: BLOCK_REWARD }
    }

    /// Accepts `chain` where its last block but one names the local tip as
    /// the block before it, and the two chains hold the same blocks from the
    /// start over all of the shorter one but its last block.
    pub fn check_health(&self, chain: &Chain) -> (r: Result<(), ChainError>)
        requires
            self.wf(),
        ensures
            match r {
                Ok(_) => tip_links(self.blocks(), chain.blocks()) && prefixes_agree(
                    self.blocks(),
                    chain.blocks(),
                ),
                Err(ChainError::ChainPrevHashMismatch) => !tip_links(self.blocks(), chain.blocks()),
                Err(ChainError::ChainBroken) => tip_links(self.blocks(), chain.blocks())
                    && !prefixes_agree(self.blocks(), chain.blocks()),
            },
    {
        if chain.chain.len() < 2 {
            return Err(ChainError::ChainPrevHashMismatch);
        }
        let curr_block_hash: u128 = self.chain[self.chain.len() - 1].get_hash();
        let new_chain_prev_hash: u128 = chain.chain[chain.chain.len() - 2].header.pre_hash;
        if curr_block_hash != new_chain_prev_hash {
            return Err(ChainError::ChainPrevHashMismatch);
        }
        let compared: usize = if self.chain.len() <= chain.chain.len() {
            self.chain.len() - 1
        } else {
            chain.chain.len() - 1
        };
        let mut i: usize = 0;
        while i < compared
            invariant
                i <= compared,
                compared == compared_prefix(self.blocks(), chain.blocks()),
                tip_links(self.blocks(), chain.blocks()),
                compared < self.chain.len(),
                compared < chain.chain.len(),
                forall|j: int| 0 <= j < i ==> #[trigger] same_block(self.blocks()[j], chain.blocks()[j]),
            decreases compared - i,
        {
            if !self.chain[i].same_as(&chain.chain[i]) {
                assert(!same_block(self.blocks()[i as int], chain.blocks()[i as int]));
                return Err(ChainError::ChainBroken);
            }
            i += 1;
        }
        Ok(())
    }

    /// Sets in `block` the first nonce, counting up from zero, with which its
    /// hash meets the chain's difficulty, and says whether there is one.
    /// Whatever the number of workers, they try these nonces between them,
    /// so the nonce found is one that they could deliver.
    pub fn pow(&self, block: &mut Block, num_threads: u8) -> (found: bool)
        ensures
            final(block).transactions == old(block).transactions,
            final(block).header == (BlockHeader {
                nonce: final(block).header.nonce,
                ..old(block).header
            }),
            found ==> is_first_valid(
                old(block).header,
                self.difficulty(),
                0,
                1,
                final(block).header.nonce,
            ),
            !found ==> final(block).header == old(block).header && forall|m: u128|
                !#[trigger] nonce_valid(old(block).header, self.difficulty(), m),
    {
        match block.header.search_nonce(self.difficulty, 0, 1) {
            Some(nonce) => {
                block.header.nonce = nonce;
                true
            },
            None => {
                assert forall|m: u128| !#[trigger] nonce_valid(
                    old(block).header,
                    self.difficulty(),
                    m,
                ) by {
                    assert(is_candidate(0, 1, m));
                }
                false
            },
        }
    }

    /// The reward transaction of the next block, which credits
    /// `miner_address` with `reward` that no account is debited for.
    pub fn miner_reward_transaction(&self, miner_address: u128, reward: u8) -> (r: Transaction)
        ensures
            r == reward_transaction(miner_address, reward),
    {
        Transaction::transaction_to_miner(miner_address, reward)
    }

    /// Signs a transaction against the ledger and, where that succeeds, adds
    /// it to the pool; the chain stays as it is where it fails.
    pub fn sign_transaction(&mut self, private_key: u128, receiver_address: u128, amount: u128) -> (r:
        Result<Transaction, TransactionError>)
        requires
            old(self).wf(),
        ensures
            final(self).wf(),
            old(self).signed(final(self), private_key, receiver_address, amount, r),
    {
        let r = self.accounts.sign_transaction(private_key, receiver_address, amount);
        match r {
            Ok(transaction) => {
                proof {
                    lemma_reserve_keeps_backing(old(self).accounts()@, old(self).pool(), transaction);
                }
                self.curr_trans.push(transaction);
            },
            Err(_) => {},
        }
        r
    }

    /// The header that a nonce is sought for when `miner_address` mines the
    /// next block.
    pub fn get_next_header(&self, miner_address: u128) -> (r: BlockHeader)
        requires
            self.wf(),
        ensures
            r == self.next_header(miner_address),
    {
        let block = self.seal(miner_address);
        block.header
    }

    /// The next block without a nonce: the reward and the pool, behind the tip.
    fn seal(&self, miner_address: u128) -> (r: Block)
        requires
            self.wf(),
        ensures
            r.header == self.next_header(miner_address),
            r.transactions@ == self.sealed(miner_address),
    {
        let mut sealed: Vec<Transaction> = Vec::new();
        sealed.push(self.miner_reward_transaction(miner_address, self.reward));
        let mut i: usize = 0;
        while i < self.curr_trans.len()
            invariant
                i <= self.curr_trans.len(),
                sealed@ == seq![reward_transaction(miner_address, self.reward())] + self.pool().take(
                    i as int,
                ),
            decreases self.curr_trans.len() - i,
        {
            sealed.push(self.curr_trans[i]);
            assert(sealed@ =~= seq![reward_transaction(miner_address, self.reward())]
                + self.pool().take(i + 1));
            i += 1;
        }
        assert(self.pool().take(i as int) =~= self.pool());
        Block::new_block(&self.chain[self.chain.len() - 1], sealed)
    }

    /// Appends `block`, whose nonce is valid, credits the reward, settles the
    /// pool and empties it.
    fn append(&mut self, block: Block, miner_address: u128)
        requires
            old(self).wf(),
            old(self).can_mint(),
            block.transactions@ == old(self).sealed(miner_address),
            block.header == (BlockHeader {
                nonce: block.header.nonce,
                ..old(self).next_header(miner_address)
            }),
            nonce_valid(
                old(self).next_header(miner_address),
                old(self).difficulty(),
                block.header.nonce,
            ),
        ensures
            final(self).wf(),
            old(self).mined(final(self), miner_address, block.header.nonce),
    {
        let mut block = block;
        block.header.time = get_time();
        proof {
            let sealed = block.transactions@;
            let credited = credit_in(self.accounts()@, miner_address, self.reward() as u128);
            assert(sealed[0] == reward_transaction(miner_address, self.reward()));
            assert(sealed.skip(1) =~= self.pool());
            lemma_credit_keeps_sound(self.accounts()@, miner_address, self.reward() as u128);
            lemma_credit_keeps_backing(
                self.accounts()@,
                self.pool(),
                miner_address,
                self.reward() as u128,
            );
            lemma_backed_settles(credited, self.pool());
        }
        self.accounts.apply_sealed(block.transactions.as_slice());
        self.curr_trans.clear();
        self.chain.push(block);
        proof {
            let blocks = self.blocks();
            let n = old(self).blocks().len() as int;
            assert(blocks.take(n) =~= old(self).blocks());
            assert forall|i: int| 0 < i < blocks.len() implies #[trigger] linked_at(
                blocks,
                self.difficulty(),
                i,
            ) by {
                if i < n {
                    assert(linked_at(old(self).blocks(), old(self).difficulty(), i));
                } else {
                    if n == 1 {
                        assert(old(self).blocks()[0].header.difficulty == self.difficulty());
                    } else {
                        assert(linked_at(old(self).blocks(), old(self).difficulty(), n - 1));
                    }
                }
            }
        }
    }

    /// Whether the total has room for one more reward.
    pub fn reward_fits(&self) -> (r: bool)
        requires
            self.wf(),
        ensures
            r == self.can_mint(),
    {
        self.accounts.total_supply() <= u128::MAX - self.reward as u128
    }

    /// Mines the next block with `nonce`, which somebody else has found:
    /// where the nonce is valid for the next header and the total has room
    /// for the reward, the block is appended as `mine` would append it;
    /// otherwise nothing changes.
    pub fn mine_with_nonce(&mut self, miner_address: u128, nonce: u128) -> (accepted: bool)
        requires
            old(self).wf(),
        ensures
            final(self).wf(),
            accepted == (old(self).can_mint() && nonce_valid(
                old(self).next_header(miner_address),
                old(self).difficulty(),
                nonce,
            )),
            accepted ==> old(self).mined(final(self), miner_address, nonce),
            !accepted ==> old(self).unchanged(final(self)),
    {
        if !self.reward_fits() {
            return false;
        }
        let mut new_block = self.seal(miner_address);
        new_block.header.nonce = nonce;
        if new_block.header.is_valid(self.difficulty) {
            self.append(new_block, miner_address);
            true
        } else {
            false
        }
    }

    /// Mines the next block for `miner_address`: seals the reward and the
    /// pool into a block behind the tip, finds the first valid nonce,
    /// credits the reward, settles the pool and appends the block. Where no
    /// nonce is valid, or the total has no room for the reward, nothing
    /// changes.
    pub fn mine(&mut self, miner_address: u128, num_threads: u8)
        requires
            old(self).wf(),
        ensures
            final(self).wf(),
            (old(self).can_mint() && exists|n: u128| #[trigger]
                nonce_valid(old(self).next_header(miner_address), old(self).difficulty(), n))
                ==> exists|n: u128|
                #[trigger] is_first_valid(
                    old(self).next_header(miner_address),
                    old(self).difficulty(),
                    0,
                    1,
                    n,
                ) && old(self).mined(final(self), miner_address, n),
            (!old(self).can_mint() || forall|n: u128| !#[trigger]
                nonce_valid(old(self).next_header(miner_address), old(self).difficulty(), n))
                ==> old(self).unchanged(final(self)),
    {
        if !self.reward_fits() {
            return ;
        }
        let mut new_block = self.seal(miner_address);
        let ghost header = new_block.header;
        if self.pow(&mut new_block, num_threads) {
            let ghost nonce = new_block.header.nonce;
            self.append(new_block, miner_address);
            assert(is_first_valid(header, old(self).difficulty(), 0, 1, nonce) && old(self).mined(
                final(self),
                miner_address,
                nonce,
            ));
        }
    }

    pub fn get_curr_transactions(&self) -> (r: &Vec<Transaction>)
        ensures
            r@ == self.pool(),
    {
        &self.curr_trans
    }

    pub fn get_chain(&self) -> (r: &Vec<Block>)
        ensures
            r@ == self.blocks(),
    {
        &self.chain
    }

    pub fn get_accounts(&self) -> (r: &Accounts)
        ensures
            *r == self.accounts(),
    {
        &self.accounts
    }

    pub fn get_difficulty(&self) -> (r: u8)
        ensures
            r == self.difficulty(),
    {
        self.difficulty
    }

    pub fn get_reward(&self) -> (r: u8)
        ensures
            r == self.reward(),
    {
        self.reward
    }
}

/// A ledger backs the empty pool where nothing is reserved in it.
pub proof fn lemma_empty_pool_backed(m: Map<u128, Account>)
    requires
        forall|a: u128| m.contains_key(a) ==> (#[trigger] m[a]).pending_amount == 0,
    ensures
        pool_backed(m, Seq::<Transaction>::empty()),
{
}

/// Mining a block adds the reward to the sum of all balances, and nothing
/// else.
pub proof fn lemma_mining_mints_reward(before: Chain, after: Chain, miner_address: u128, nonce: u128)
    requires
        before.wf(),
        after.wf(),
        before.mined(&after, miner_address, nonce),
    ensures
        total_balance(after.accounts()@) == total_balance(before.accounts()@) + before.reward(),
{
}

/// The candidates of one worker have at most one first valid nonce.
pub proof fn lemma_first_valid_unique(
    header: BlockHeader,
    difficulty: u8,
    start: u128,
    stride: u128,
    a: u128,
    b: u128,
)
    requires
        is_first_valid(header, difficulty, start, stride, a),
        is_first_valid(header, difficulty, start, stride, b),
    ensures
        a == b,
{
}

/// Below every valid nonce there is a first valid one, which is the one that
/// the search counting up from zero finds.
pub proof fn lemma_first_valid_exists(header: BlockHeader, difficulty: u8, nonce: u128)
    requires
        nonce_valid(header, difficulty, nonce),
    ensures
        exists|first: u128| first <= nonce && #[trigger] is_first_valid(header, difficulty, 0, 1, first),
    decreases nonce,
{
    if exists|m: u128| m < nonce && #[trigger] nonce_valid(header, difficulty, m) {
        let m = choose|m: u128| m < nonce && #[trigger] nonce_valid(header, difficulty, m);
        lemma_first_valid_exists(header, difficulty, m);
    } else {
        assert((nonce - 0) % 1 == 0);
        assert(is_first_valid(header, difficulty, 0, 1, nonce));
    }
}

/// The nonce that any one of several workers finds is valid, as the nonce of
/// the search counting up from zero is, and is not below that one.
pub proof fn lemma_worker_nonce_is_valid(
    header: BlockHeader,
    difficulty: u8,
    worker: u128,
    workers: u128,
    nonce: u128,
)
    requires
        workers >= 1,
        is_first_valid(header, difficulty, worker, workers, nonce),
    ensures
        nonce_valid(header, difficulty, nonce),
        exists|first: u128| first <= nonce && #[trigger] is_first_valid(header, difficulty, 0, 1, first),
{
    lemma_first_valid_exists(header, difficulty, nonce);
}

/// The first block of a chain names no block before it and has nonce zero.
pub proof fn lemma_genesis(chain: Chain)
    requires
        chain.wf(),
    ensures
        chain.blocks()[0].header.pre_hash == 0,
        chain.blocks()[0].header.nonce == 0,
        chain.blocks()[0].transactions@.len() == 0,
{
}

/// Every block after the first names the hash of the block before it.
pub proof fn lemma_chain_linked(chain: Chain, i: int)
    requires
        chain.wf(),
        0 < i < chain.blocks().len(),
    ensures
        chain.blocks()[i].header.pre_hash == block_hash_of(chain.blocks()[i - 1].header),
{
    assert(linked_at(chain.blocks(), chain.difficulty(), i));
}

/// The hash of every block after the first meets the difficulty that the
/// block's header names, which is the chain's.
pub proof fn lemma_mined_blocks_meet_difficulty(chain: Chain, i: int)
    requires
        chain.wf(),
        0 < i < chain.blocks().len(),
    ensures
        chain.blocks()[i].header.difficulty == chain.difficulty(),
        meets_difficulty(block_hash_of(chain.blocks()[i].header), chain.blocks()[i].header.difficulty),
{
    assert(linked_at(chain.blocks(), chain.difficulty(), i));
}

} // verus!
