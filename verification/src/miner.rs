use vstd::prelude::*;
use crate::accounts::{Accounts, Transaction, INITIAL_SUPPLY};
use crate::blockchain::{
    is_first_valid, nonce_valid, BlockHeader, Chain, BLOCK_REWARD, DEFAULT_DIFFICULTY,
};
use crate::error::TransactionError;
use crate::sha128::{address_of, Sha128};

verus! {

/// A chain together with the secret that its owner signs and mines with.
pub struct Miner {
    chain: Chain,
    private_key: u128,
    threads: u8,
}

impl Miner {
    pub closed spec fn chain(&self) -> Chain {
        self.chain
    }

    pub closed spec fn private_key(&self) -> u128 {
        self.private_key
    }

    pub closed spec fn threads(&self) -> u8 {
        self.threads
    }

    /// A miner on a fresh chain.
    pub fn new(private_key: u128, threads: u8) -> (r: Self)
        ensures
            r.chain().wf(),
            r.chain().blocks().len() == 1,
            r.chain().pool() == Seq::<Transaction>::empty(),
            r.chain().difficulty() == DEFAULT_DIFFICULTY,
            r.chain().reward() == BLOCK_REWARD,
            r.chain().accounts()@ == Accounts::new_spec(),
            r.chain().accounts().supply() == INITIAL_SUPPLY,
            r.private_key() == private_key,
            r.threads() == threads,
    {
        Miner { chain: Chain::init(), private_key, threads }
    }

    /// Mines the next block for the miner's own address.
    pub fn mine(&mut self)
        requires
            old(self).chain().wf(),
        ensures
            final(self).chain().wf(),
            final(self).private_key() == old(self).private_key(),
            final(self).threads() == old(self).threads(),
            (old(self).chain().can_mint() && exists|n: u128| #[trigger]
                nonce_valid(
                    old(self).chain().next_header(address_of(old(self).private_key())),
                    old(self).chain().difficulty(),
                    n,
                )) ==> exists|n: u128|
                #[trigger] is_first_valid(
                    old(self).chain().next_header(address_of(old(self).private_key())),
                    old(self).chain().difficulty(),
                    0,
                    1,
                    n,
                ) && old(self).chain().mined(
                    &final(self).chain(),
                    address_of(old(self).private_key()),
                    n,
                ),
            (!old(self).chain().can_mint() || forall|n: u128| !#[trigger]
                nonce_valid(
                    old(self).chain().next_header(address_of(old(self).private_key())),
                    old(self).chain().difficulty(),
                    n,
                )) ==> old(self).chain().unchanged(&final(self).chain()),
    {
        self.chain.mine(Sha128::address(self.private_key), self.threads);
    }

    /// Signs a transaction with the miner's own secret.
    pub fn send_transaction(&mut self, receiver_address: u128, amount: u128) -> (r: Result<
        Transaction,
        TransactionError,
    >)
        requires
            old(self).chain().wf(),
        ensures
            final(self).chain().wf(),
            final(self).private_key() == old(self).private_key(),
            final(self).threads() == old(self).threads(),
            old(self).chain().signed(
                &final(self).chain(),
                old(self).private_key(),
                receiver_address,
                amount,
                r,
            ),
    {
        self.chain.sign_transaction(self.private_key, receiver_address, amount)
    }

    /// Signs a transaction with another secret than the miner's own.
    pub fn send_transaction_with_another_private_key(
        &mut self,
        sender_private_key: u128,
        receiver_address: u128,
        amount: u128,
    ) -> (r: Result<Transaction, TransactionError>)
        requires
            old(self).chain().wf(),
        ensures
            final(self).chain().wf(),
            final(self).private_key() == old(self).private_key(),
            final(self).threads() == old(self).threads(),
            old(self).chain().signed(
                &final(self).chain(),
                sender_private_key,
                receiver_address,
                amount,
                r,
            ),
    {
        self.chain.sign_transaction(sender_private_key, receiver_address, amount)
    }

    /// The header that a nonce is sought for when the miner mines next.
    pub fn get_next_header(&self) -> (r: BlockHeader)
        requires
            self.chain().wf(),
        ensures
            r == self.chain().next_header(address_of(self.private_key())),
    {
        self.chain.get_next_header(Sha128::address(self.private_key))
    }

    /// Mines the next block for the miner's own address with `nonce`, where
    /// it is valid and the total has room for the reward; nothing changes
    /// otherwise.
    pub fn mine_with_nonce(&mut self, nonce: u128) -> (accepted: bool)
        requires
            old(self).chain().wf(),
        ensures
            final(self).chain().wf(),
            final(self).private_key() == old(self).private_key(),
            final(self).threads() == old(self).threads(),
            accepted == (old(self).chain().can_mint() && nonce_valid(
                old(self).chain().next_header(address_of(old(self).private_key())),
                old(self).chain().difficulty(),
                nonce,
            )),
            accepted ==> old(self).chain().mined(
                &final(self).chain(),
                address_of(old(self).private_key()),
                nonce,
            ),
            !accepted ==> old(self).chain().unchanged(&final(self).chain()),
    {
        self.chain.mine_with_nonce(Sha128::address(self.private_key), nonce)
    }

    pub fn get_chain(&self) -> (r: &Chain)
        ensures
            *r == self.chain(),
    {
        &self.chain
    }

    pub fn get_private_key(&self) -> (r: u128)
        ensures
            r == self.private_key(),
    {
        self.private_key
    }

    pub fn get_threads(&self) -> (r: u8)
        ensures
            r == self.threads(),
    {
        self.threads
    }
}

} // verus!
