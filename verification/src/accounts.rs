use vstd::prelude::*;
use std::collections::HashMap;
use vstd::std_specs::iter::IteratorSpec;
use crate::error::{AccountDNE, TransactionError};
use crate::sha128::{
    address_of, hash128, public_key_of, transaction_hash_of, Sha128, OVERFLOW_PROTECTION,
};

verus! {

broadcast use vstd::std_specs::hash::group_hash_axioms;

/// Secret of the system account, which is funded at start and named as the
/// sender of every mining reward.
pub const SYSTEM_PRIVATE_KEY: u128 = 31;

/// Balance of the system account in a fresh ledger.
pub const INITIAL_SUPPLY: u128 = 21_000_000;

/// One account: what it owns, and how much of that is earmarked by signed
/// transactions that no block holds yet.
#[derive(Clone, Copy, Debug, PartialEq, Eq, Structural)]
pub struct Account {
    pub public_key: Option<u128>,
    pub amount: u128,
    pub pending_amount: u128,
}

/// A transfer of `amount` from one address to another.
#[derive(Clone, Copy, Debug, PartialEq, Eq, Structural)]
pub struct Transaction {
    pub hash: u128,
    pub sender_address: u128,
    pub receiver_address: u128,
    pub amount: u128,
}

/// Balance held at `address`; nothing where there is no account.
pub open spec fn balance_at(m: Map<u128, Account>, address: u128) -> nat {
    if m.contains_key(address) {
        m[address].amount as nat
    } else {
        0
    }
}

/// Amount reserved at `address`; nothing where there is no account.
pub open spec fn reserved_at(m: Map<u128, Account>, address: u128) -> nat {
    if m.contains_key(address) {
        m[address].pending_amount as nat
    } else {
        0
    }
}

/// Sum of the balances at all addresses below `bound`.
pub open spec fn total_below(m: Map<u128, Account>, bound: nat) -> nat
    decreases bound,
{
    if bound == 0 {
        0
    } else {
        total_below(m, (bound - 1) as nat) + if bound - 1 <= u128::MAX {
            balance_at(m, (bound - 1) as u128)
        } else {
            0
        }
    }
}

/// Sum of the balances of all accounts.
pub open spec fn total_balance(m: Map<u128, Account>) -> nat {
    total_below(m, (u128::MAX + 1) as nat)
}

/// No account has more reserved than it owns.
pub open spec fn no_over_reservation(m: Map<u128, Account>) -> bool {
    forall|a: u128| #[trigger] m.contains_key(a) ==> m[a].amount >= m[a].pending_amount
}

/// The ledger after `amount` more is reserved at `address`.
pub open spec fn reserve_in(m: Map<u128, Account>, address: u128, amount: u128) -> Map<
    u128,
    Account,
> {
    m.insert(
        address,
        Account { pending_amount: (m[address].pending_amount + amount) as u128, ..m[address] },
    )
}

/// The ledger after `amount` is credited at `address`, whose account is made
/// if there is none.
pub open spec fn credit_in(m: Map<u128, Account>, address: u128, amount: u128) -> Map<
    u128,
    Account,
> {
    if m.contains_key(address) {
        m.insert(address, Account { amount: (m[address].amount + amount) as u128, ..m[address] })
    } else {
        m.insert(address, Account { public_key: None, amount: amount, pending_amount: 0 })
    }
}

/// The ledger after `amount` leaves both the balance and the reservation at
/// `address`.
pub open spec fn debit_in(m: Map<u128, Account>, address: u128, amount: u128) -> Map<
    u128,
    Account,
> {
    m.insert(
        address,
        Account {
            amount: (m[address].amount - amount) as u128,
            pending_amount: (m[address].pending_amount - amount) as u128,
            ..m[address]
        },
    )
}

/// The sender of `tx` has an account that owns and has reserved its amount.
pub open spec fn can_settle_one(m: Map<u128, Account>, tx: Transaction) -> bool {
    &&& m.contains_key(tx.sender_address)
    &&& m[tx.sender_address].amount >= tx.amount
    &&& m[tx.sender_address].pending_amount >= tx.amount
}

/// The ledger after `tx` is settled: the sender is debited, then the receiver
/// credited.
pub open spec fn settle_one(m: Map<u128, Account>, tx: Transaction) -> Map<u128, Account> {
    credit_in(debit_in(m, tx.sender_address, tx.amount), tx.receiver_address, tx.amount)
}

/// Each of `txs` can be settled in turn, against the ledger that the ones
/// before it leave.
pub open spec fn can_settle(m: Map<u128, Account>, txs: Seq<Transaction>) -> bool
    decreases txs.len(),
{
    if txs.len() == 0 {
        true
    } else {
        can_settle_one(m, txs[0]) && can_settle(settle_one(m, txs[0]), txs.skip(1))
    }
}

/// The ledger after `txs` are settled one after the other, first to last.
pub open spec fn settle(m: Map<u128, Account>, txs: Seq<Transaction>) -> Map<u128, Account>
    decreases txs.len(),
{
    if txs.len() == 0 {
        m
    } else {
        settle(settle_one(m, txs[0]), txs.skip(1))
    }
}

/// Replacing the account at `address` moves the sum below `bound` by the
/// difference of the balances, where `address` is below `bound`.
pub proof fn lemma_total_below_insert(m: Map<u128, Account>, address: u128, v: Account, bound: nat)
    ensures
        total_below(m.insert(address, v), bound) == if address < bound {
            total_below(m, bound) - balance_at(m, address) + v.amount
        } else {
            total_below(m, bound) as int
        },
        address < bound ==> total_below(m, bound) >= balance_at(m, address),
    decreases bound,
{
    if bound > 0 {
        lemma_total_below_insert(m, address, v, (bound - 1) as nat);
    }
}

/// Replacing one account moves the total by the difference of the balances.
pub proof fn lemma_total_insert(m: Map<u128, Account>, address: u128, v: Account)
    ensures
        total_balance(m.insert(address, v)) == total_balance(m) - balance_at(m, address)
            + v.amount,
        balance_at(m, address) <= total_balance(m),
{
    lemma_total_below_insert(m, address, v, (u128::MAX + 1) as nat);
}

/// A ledger without accounts holds nothing.
pub proof fn lemma_total_below_empty(bound: nat)
    ensures
        total_below(Map::<u128, Account>::empty(), bound) == 0,
    decreases bound,
{
    if bound > 0 {
        lemma_total_below_empty((bound - 1) as nat);
    }
}

/// Settling moves amounts between accounts and keeps their sum.
pub proof fn lemma_settle_conserves_total(m: Map<u128, Account>, txs: Seq<Transaction>)
    requires
        can_settle(m, txs),
        total_balance(m) <= u128::MAX,
    ensures
        total_balance(settle(m, txs)) == total_balance(m),
    decreases txs.len(),
{
    if txs.len() > 0 {
        let tx = txs[0];
        let m1 = debit_in(m, tx.sender_address, tx.amount);
        let m2 = settle_one(m, tx);
        lemma_total_insert(m, tx.sender_address, m1[tx.sender_address]);
        lemma_total_insert(m1, tx.receiver_address, m2[tx.receiver_address]);
        lemma_settle_conserves_total(m2, txs.skip(1));
    }
}

/// A reservation within the unreserved balance leaves no account
/// over-reserved.
pub proof fn lemma_reserve_keeps_balance_above(m: Map<u128, Account>, address: u128, amount: u128)
    requires
        no_over_reservation(m),
        m.contains_key(address),
        m[address].amount - m[address].pending_amount >= amount,
    ensures
        no_over_reservation(reserve_in(m, address, amount)),
        total_balance(reserve_in(m, address, amount)) == total_balance(m),
{
    lemma_total_insert(m, address, reserve_in(m, address, amount)[address]);
}

/// What a sealed set mints: the amount of its first transaction, which is
/// the miner's reward.
pub open spec fn minted_by(sealed: Seq<Transaction>) -> nat {
    if sealed.len() == 0 {
        0
    } else {
        sealed[0].amount as nat
    }
}

/// The ledger after the sealed set of a block is applied: the reward, which
/// comes first, is credited to its receiver and debited nowhere; the
/// transactions after it are settled in their order.
pub open spec fn apply_sealed_to(m: Map<u128, Account>, sealed: Seq<Transaction>) -> Map<
    u128,
    Account,
> {
    if sealed.len() == 0 {
        m
    } else {
        settle(credit_in(m, sealed[0].receiver_address, sealed[0].amount), sealed.skip(1))
    }
}

/// Once the reward is credited, each transaction after it can be settled in
/// turn.
pub open spec fn can_apply_sealed(m: Map<u128, Account>, sealed: Seq<Transaction>) -> bool {
    sealed.len() == 0 || can_settle(
        credit_in(m, sealed[0].receiver_address, sealed[0].amount),
        sealed.skip(1),
    )
}

/// Sum of the reservations at all addresses below `bound`.
pub open spec fn reserved_below(m: Map<u128, Account>, bound: nat) -> nat
    decreases bound,
{
    if bound == 0 {
        0
    } else {
        reserved_below(m, (bound - 1) as nat) + if bound - 1 <= u128::MAX {
            reserved_at(m, (bound - 1) as u128)
        } else {
            0
        }
    }
}

/// Sum of the reservations of all accounts.
pub open spec fn total_reserved(m: Map<u128, Account>) -> nat {
    reserved_below(m, (u128::MAX + 1) as nat)
}

/// Sum of the amounts of `txs`.
pub open spec fn sum_amounts(txs: Seq<Transaction>) -> nat
    decreases txs.len(),
{
    if txs.len() == 0 {
        0
    } else {
        txs[0].amount as nat + sum_amounts(txs.skip(1))
    }
}

/// Replacing the account at `address` moves the sum of reservations below
/// `bound` by the difference of the two reservations, where `address` is
/// below `bound`.
pub proof fn lemma_reserved_below_insert(
    m: Map<u128, Account>,
    address: u128,
    v: Account,
    bound: nat,
)
    ensures
        reserved_below(m.insert(address, v), bound) == if address < bound {
            reserved_below(m, bound) - reserved_at(m, address) + v.pending_amount
        } else {
            reserved_below(m, bound) as int
        },
        address < bound ==> reserved_below(m, bound) >= reserved_at(m, address),
    decreases bound,
{
    if bound > 0 {
        lemma_reserved_below_insert(m, address, v, (bound - 1) as nat);
    }
}

/// Replacing one account moves the sum of reservations by the difference of
/// the two reservations.
pub proof fn lemma_reserved_insert(m: Map<u128, Account>, address: u128, v: Account)
    ensures
        total_reserved(m.insert(address, v)) == total_reserved(m) - reserved_at(m, address)
            + v.pending_amount,
        reserved_at(m, address) <= total_reserved(m),
{
    lemma_reserved_below_insert(m, address, v, (u128::MAX + 1) as nat);
}

/// Settling releases the reservations of the transactions settled: the sum
/// of all reservations falls by the sum of their amounts.
pub proof fn lemma_settle_releases_reservations(m: Map<u128, Account>, txs: Seq<Transaction>)
    requires
        can_settle(m, txs),
    ensures
        total_reserved(settle(m, txs)) == total_reserved(m) - sum_amounts(txs),
    decreases txs.len(),
{
    if txs.len() > 0 {
        let tx = txs[0];
        let m1 = debit_in(m, tx.sender_address, tx.amount);
        let m2 = settle_one(m, tx);
        lemma_reserved_insert(m, tx.sender_address, m1[tx.sender_address]);
        lemma_reserved_insert(m1, tx.receiver_address, m2[tx.receiver_address]);
        lemma_settle_releases_reservations(m2, txs.skip(1));
    }
}

/// What a sealed set settles: the sum of the amounts of the transactions
/// after the reward.
pub open spec fn settled_by(sealed: Seq<Transaction>) -> nat {
    if sealed.len() == 0 {
        0
    } else {
        sum_amounts(sealed.skip(1))
    }
}

/// Applying a sealed set releases the reservations of the transactions after
/// the reward, and reserves nothing for the reward.
pub proof fn lemma_sealed_set_releases_reservations(m: Map<u128, Account>, sealed: Seq<Transaction>)
    requires
        can_apply_sealed(m, sealed),
    ensures
        total_reserved(apply_sealed_to(m, sealed)) == total_reserved(m) - settled_by(sealed),
{
    if sealed.len() > 0 {
        let credited = credit_in(m, sealed[0].receiver_address, sealed[0].amount);
        lemma_reserved_insert(m, sealed[0].receiver_address, credited[sealed[0].receiver_address]);
        lemma_settle_releases_reservations(credited, sealed.skip(1));
    }
}

/// A credit that the total has room for adds its amount to the total and
/// leaves no account over-reserved.
pub proof fn lemma_credit_keeps_sound(m: Map<u128, Account>, address: u128, amount: u128)
    requires
        no_over_reservation(m),
        total_balance(m) + amount <= u128::MAX,
    ensures
        no_over_reservation(credit_in(m, address, amount)),
        total_balance(credit_in(m, address, amount)) == total_balance(m) + amount,
{
    lemma_total_insert(m, address, credit_in(m, address, amount)[address]);
}

/// Applying a sealed set adds the reward to the sum of all balances, and
/// nothing else: the reward is newly issued, and every other transaction
/// moves its amount from one balance to another.
pub proof fn lemma_sealed_set_mints_reward(m: Map<u128, Account>, sealed: Seq<Transaction>)
    requires
        can_apply_sealed(m, sealed),
        total_balance(m) + minted_by(sealed) <= u128::MAX,
    ensures
        total_balance(apply_sealed_to(m, sealed)) == total_balance(m) + minted_by(sealed),
{
    if sealed.len() > 0 {
        let credited = credit_in(m, sealed[0].receiver_address, sealed[0].amount);
        lemma_total_insert(m, sealed[0].receiver_address, credited[sealed[0].receiver_address]);
        lemma_settle_conserves_total(credited, sealed.skip(1));
    }
}

/// Sum of the amounts of the transactions in `pool` that `address` sends.
pub open spec fn reserved_in(pool: Seq<Transaction>, address: u128) -> nat
    decreases pool.len(),
{
    if pool.len() == 0 {
        0
    } else {
        (if pool[0].sender_address == address {
            pool[0].amount as nat
        } else {
            0
        }) + reserved_in(pool.skip(1), address)
    }
}

/// Every sender in `pool` has an account, and what is reserved at each
/// address is what the transactions in `pool` take from it.
pub open spec fn pool_backed(m: Map<u128, Account>, pool: Seq<Transaction>) -> bool {
    &&& forall|i: int| 0 <= i < pool.len() ==> m.contains_key(#[trigger] pool[i].sender_address)
    &&& forall|a: u128|
        #![trigger reserved_at(m, a)]
        #![trigger reserved_in(pool, a)]
        reserved_at(m, a) == reserved_in(pool, a)
}

/// A transaction that joins the pool adds its amount to what its sender has
/// in the pool.
pub proof fn lemma_reserved_in_push(pool: Seq<Transaction>, tx: Transaction, address: u128)
    ensures
        reserved_in(pool.push(tx), address) == reserved_in(pool, address) + if tx.sender_address
            == address {
            tx.amount as nat
        } else {
            0
        },
    decreases pool.len(),
{
    reveal_with_fuel(reserved_in, 2);
    if pool.len() == 0 {
        assert(pool.push(tx).skip(1).len() == 0);
    } else {
        assert(pool.push(tx).skip(1) =~= pool.skip(1).push(tx));
        lemma_reserved_in_push(pool.skip(1), tx, address);
    }
}

/// Signing keeps the pool backed: the reservation and the pool grow by the
/// same amount.
pub proof fn lemma_reserve_keeps_backing(m: Map<u128, Account>, pool: Seq<Transaction>, tx: Transaction)
    requires
        pool_backed(m, pool),
        m.contains_key(tx.sender_address),
        m[tx.sender_address].amount - m[tx.sender_address].pending_amount >= tx.amount,
    ensures
        pool_backed(reserve_in(m, tx.sender_address, tx.amount), pool.push(tx)),
{
    let m2 = reserve_in(m, tx.sender_address, tx.amount);
    let pool2 = pool.push(tx);
    assert forall|i: int| 0 <= i < pool2.len() implies m2.contains_key(
        #[trigger] pool2[i].sender_address,
    ) by {
        if i < pool.len() {
            assert(m.contains_key(pool[i].sender_address));
        }
    }
    assert forall|a: u128|
        #![trigger reserved_at(m2, a)]
        #![trigger reserved_in(pool2, a)]
        reserved_at(m2, a) == reserved_in(pool2, a) by {
        lemma_reserved_in_push(pool, tx, a);
        assert(reserved_at(m, a) == reserved_in(pool, a));
    }
}

/// Crediting an address keeps the pool backed.
pub proof fn lemma_credit_keeps_backing(
    m: Map<u128, Account>,
    pool: Seq<Transaction>,
    address: u128,
    amount: u128,
)
    requires
        pool_backed(m, pool),
    ensures
        pool_backed(credit_in(m, address, amount), pool),
{
    let m2 = credit_in(m, address, amount);
    assert forall|i: int| 0 <= i < pool.len() implies m2.contains_key(
        #[trigger] pool[i].sender_address,
    ) by {
        assert(m.contains_key(pool[i].sender_address));
    }
    assert forall|a: u128|
        #![trigger reserved_at(m2, a)]
        #![trigger reserved_in(pool, a)]
        reserved_at(m2, a) == reserved_in(pool, a) by {
        assert(reserved_at(m, a) == reserved_in(pool, a));
    }
}

/// A pool that is backed can be settled, and nothing stays reserved then.
pub proof fn lemma_backed_settles(m: Map<u128, Account>, pool: Seq<Transaction>)
    requires
        no_over_reservation(m),
        total_balance(m) <= u128::MAX,
        pool_backed(m, pool),
    ensures
        can_settle(m, pool),
        pool_backed(settle(m, pool), Seq::<Transaction>::empty()),
    decreases pool.len(),
{
    if pool.len() == 0 {
        assert(pool =~= Seq::<Transaction>::empty());
    } else {
        let tx = pool[0];
        let rest = pool.skip(1);
        let s = tx.sender_address;
        assert(m.contains_key(pool[0].sender_address));
        assert(reserved_at(m, s) == reserved_in(pool, s));
        let m1 = debit_in(m, s, tx.amount);
        let m2 = credit_in(m1, tx.receiver_address, tx.amount);
        lemma_total_insert(m, s, m1[s]);
        lemma_total_insert(m1, tx.receiver_address, m2[tx.receiver_address]);
        assert(no_over_reservation(m2));
        assert forall|i: int| 0 <= i < rest.len() implies m2.contains_key(
            #[trigger] rest[i].sender_address,
        ) by {
            assert(m.contains_key(pool[i + 1].sender_address));
        }
        assert forall|a: u128|
            #![trigger reserved_at(m2, a)]
            #![trigger reserved_in(rest, a)]
            reserved_at(m2, a) == reserved_in(rest, a) by {
            assert(reserved_at(m, a) == reserved_in(pool, a));
        }
        lemma_backed_settles(m2, rest);
    }
}

/// The ledger: one account for each address that was funded or credited.
#[derive(Clone, Debug)]
pub struct Accounts {
    accounts_map: HashMap<u128, Account>,
    supply: u128,
}

impl View for Accounts {
    type V = Map<u128, Account>;

    closed spec fn view(&self) -> Map<u128, Account> {
        self.accounts_map@
    }
}

impl Accounts {
    /// The total that the ledger keeps count of.
    pub closed spec fn supply(&self) -> u128 {
        self.supply
    }

    /// No account is over-reserved, and the count of the total is right.
    pub open spec fn wf(&self) -> bool {
        &&& no_over_reservation(self@)
        &&& self.supply() == total_balance(self@)
    }

    /// The accounts of a fresh ledger: the system account alone, funded with
    /// the initial supply.
    pub open spec fn new_spec() -> Map<u128, Account> {
        Map::<u128, Account>::empty().insert(
            address_of(SYSTEM_PRIVATE_KEY),
            Account {
                public_key: Some(public_key_of(SYSTEM_PRIVATE_KEY)),
                amount: INITIAL_SUPPLY,
                pending_amount: 0,
            },
        )
    }

    /// A ledger with the system account alone, funded with the initial supply.
    pub fn new() -> (r: Self)
        ensures
            r.wf(),
            r@ == Accounts::new_spec(),
            r.supply() == INITIAL_SUPPLY,
    {
        let mut accounts_map: HashMap<u128, Account> = HashMap::new();
        let mut system_account = Account::new_with_private_key(SYSTEM_PRIVATE_KEY);
        system_account.amount = INITIAL_SUPPLY;
        let address: u128 = Sha128::address(SYSTEM_PRIVATE_KEY);
        accounts_map.insert(address, system_account);
        proof {
            lemma_total_below_empty((u128::MAX + 1) as nat);
            lemma_total_insert(Map::<u128, Account>::empty(), address, system_account);
        }
        Accounts { accounts_map, supply: INITIAL_SUPPLY }
    }

    /// The sum of all balances.
    pub fn total_supply(&self) -> (r: u128)
        requires
            self.wf(),
        ensures
            r == self.supply(),
            r == total_balance(self@),
    {
        self.supply
    }

    /// The addresses that have an account, each once, in no particular order.
    pub fn get_addresses(&self) -> (r: Vec<u128>)
        ensures
            r@.to_set() == self@.dom(),
            r@.no_duplicates(),
    {
        let mut out: Vec<u128> = Vec::new();
        let keys = self.accounts_map.keys();
        let ghost all = keys.remaining();
        for key in it: keys
            invariant
                out@.len() == it.index(),
                forall|j: int| 0 <= j < out@.len() ==> out@[j] == *it.seq()[j],
                it.seq() == all,
        {
            out.push(*key);
        }
        assert(out@ =~= all.unref());
        out
    }

    /// The balance at `address`, or the error where no account is there.
    pub fn get_account_amount(&self, address: &u128) -> (r: Result<u128, AccountDNE>)
        ensures
            match r {
                Ok(amount) => self@.contains_key(*address) && amount == self@[*address].amount,
                Err(_) => !self@.contains_key(*address),
            },
    {
        match self.accounts_map.get(address) {
            Some(account) => Ok(account.get_amount()),
            None => Err(AccountDNE),
        }
    }

    /// The amount reserved at `address`, or the error where no account is there.
    pub fn get_account_pending_amount(&self, address: &u128) -> (r: Result<u128, AccountDNE>)
        ensures
            match r {
                Ok(amount) => self@.contains_key(*address) && amount
                    == self@[*address].pending_amount,
                Err(_) => !self@.contains_key(*address),
            },
    {
        match self.accounts_map.get(address) {
            Some(account) => Ok(account.get_pending_amount()),
            None => Err(AccountDNE),
        }
    }

    /// Reserves `amount` at the address of `private_key` and returns the
    /// transaction, where the account there has that much unreserved;
    /// otherwise the ledger stays as it is.
    pub fn sign_transaction(&mut self, private_key: u128, receiver_address: u128, amount: u128) -> (r:
        Result<Transaction, TransactionError>)
        requires
            old(self).wf(),
        ensures
            final(self).wf(),
            final(self).supply() == old(self).supply(),
            match r {
                Ok(tx) => {
                    &&& old(self)@.contains_key(address_of(private_key))
                    &&& old(self)@[address_of(private_key)].amount - old(self)@[address_of(
                        private_key,
                    )].pending_amount >= amount
                    &&& tx == signed_transaction(private_key, receiver_address, amount)
                    &&& final(self)@ == reserve_in(old(self)@, address_of(private_key), amount)
                },
                Err(TransactionError::AccountNotFound) => {
                    &&& !old(self)@.contains_key(address_of(private_key))
                    &&& final(self)@ == old(self)@
                },
                Err(TransactionError::InsufficientFunds { balance, reserved }) => {
                    &&& old(self)@.contains_key(address_of(private_key))
                    &&& balance == old(self)@[address_of(private_key)].amount
                    &&& reserved == old(self)@[address_of(private_key)].pending_amount
                    &&& balance - reserved < amount
                    &&& final(self)@ == old(self)@
                },
            },
    {
        let sender_address: u128 = Sha128::address(private_key);
        let found: Option<Account> = match self.accounts_map.get(&sender_address) {
            Some(account) => Some(*account),
            None => None,
        };
        match found {
            Some(account) => {
                if account.get_amount() - account.get_pending_amount() >= amount {
                    let reserved = Account {
                        public_key: account.public_key,
                        amount: account.amount,
                        pending_amount: account.pending_amount + amount,
                    };
                    proof {
                        lemma_total_insert(self@, sender_address, reserved);
                    }
                    self.accounts_map.insert(sender_address, reserved);
                    Ok(Transaction::generate_transaction(private_key, receiver_address, amount))
                } else {
                    Err(
                        TransactionError::InsufficientFunds {
                            balance: account.get_amount(),
                            reserved: account.get_pending_amount(),
                        },
                    )
                }
            },
            None => Err(TransactionError::AccountNotFound),
        }
    }

    /// Credits `amount` at `address` out of nothing: the total grows by it.
    pub fn issue(&mut self, address: u128, amount: u128)
        requires
            old(self).wf(),
            old(self).supply() + amount <= u128::MAX,
        ensures
            final(self).wf(),
            final(self)@ == credit_in(old(self)@, address, amount),
            final(self).supply() == old(self).supply() + amount,
    {
        let found: Option<Account> = match self.accounts_map.get(&address) {
            Some(account) => Some(*account),
            None => None,
        };
        let mut account = match found {
            Some(account) => account,
            None => Account::new(),
        };
        proof {
            lemma_total_insert(self@, address, account);
            lemma_total_insert(
                self@,
                address,
                Account { amount: (account.amount + amount) as u128, ..account },
            );
        }
        account.amount = account.amount + amount;
        self.accounts_map.insert(address, account);
        self.supply = self.supply + amount;
    }

    /// Takes `amount` from the balance and from the reservation at `address`.
    fn debit(&mut self, address: u128, amount: u128)
        requires
            old(self).wf(),
            old(self)@.contains_key(address),
            old(self)@[address].amount >= amount,
            old(self)@[address].pending_amount >= amount,
        ensures
            final(self).wf(),
            final(self)@ == debit_in(old(self)@, address, amount),
            final(self).supply() == old(self).supply() - amount,
    {
        let found: Option<Account> = match self.accounts_map.get(&address) {
            Some(account) => Some(*account),
            None => None,
        };
        let mut account = match found {
            Some(account) => account,
            None => Account::new(),
        };
        proof {
            lemma_total_insert(
                self@,
                address,
                Account {
                    amount: (account.amount - amount) as u128,
                    pending_amount: (account.pending_amount - amount) as u128,
                    ..account
                },
            );
        }
        account.amount = account.amount - amount;
        account.pending_amount = account.pending_amount - amount;
        self.accounts_map.insert(address, account);
        self.supply = self.supply - amount;
    }

    /// Settles the transactions from position `from` on, in order.
    fn settle_from(&mut self, transactions: &[Transaction], from: usize)
        requires
            old(self).wf(),
            from <= transactions@.len(),
            can_settle(old(self)@, transactions@.skip(from as int)),
        ensures
            final(self).wf(),
            final(self)@ == settle(old(self)@, transactions@.skip(from as int)),
            final(self).supply() == old(self).supply(),
    {
        let mut i: usize = from;
        while i < transactions.len()
            invariant
                from <= i <= transactions@.len(),
                self.wf(),
                self.supply() == old(self).supply(),
                can_settle(self@, transactions@.skip(i as int)),
                settle(self@, transactions@.skip(i as int)) == settle(
                    old(self)@,
                    transactions@.skip(from as int),
                ),
            decreases transactions@.len() - i,
        {
            let transaction = transactions[i];
            proof {
                assert(transactions@.skip(i as int)[0] == transaction);
                assert(transactions@.skip(i as int).skip(1) =~= transactions@.skip(i + 1));
            }
            self.debit(transaction.get_sender_address(), transaction.amount);
            self.issue(transaction.get_receiver_address(), transaction.amount);
            i += 1;
        }
    }

    /// Settles `transactions` in order: each one leaves its sender's balance
    /// and reservation and reaches its receiver's balance. The total stays.
    pub fn update_accounts(&mut self, transactions: Vec<Transaction>)
        requires
            old(self).wf(),
            can_settle(old(self)@, transactions@),
        ensures
            final(self).wf(),
            final(self)@ == settle(old(self)@, transactions@),
            final(self).supply() == old(self).supply(),
            total_balance(final(self)@) == total_balance(old(self)@),
            total_reserved(final(self)@) == total_reserved(old(self)@) - sum_amounts(
                transactions@,
            ),
    {
        assert(transactions@.skip(0) =~= transactions@);
        proof {
            lemma_settle_releases_reservations(self@, transactions@);
        }
        self.settle_from(transactions.as_slice(), 0);
    }

    /// Applies the sealed set of a block: credits the reward, which comes
    /// first and is debited nowhere, then settles the transactions after it
    /// in order. The sum of all balances grows by the reward.
    pub fn apply_sealed(&mut self, sealed: &[Transaction])
        requires
            old(self).wf(),
            old(self).supply() + minted_by(sealed@) <= u128::MAX,
            can_apply_sealed(old(self)@, sealed@),
        ensures
            final(self).wf(),
            final(self)@ == apply_sealed_to(old(self)@, sealed@),
            final(self).supply() == old(self).supply() + minted_by(sealed@),
            total_balance(final(self)@) == total_balance(old(self)@) + minted_by(sealed@),
            total_reserved(final(self)@) == total_reserved(old(self)@) - settled_by(sealed@),
    {
        proof {
            lemma_sealed_set_releases_reservations(self@, sealed@);
        }
        if sealed.len() > 0 {
            let reward = sealed[0];
            self.issue(reward.get_receiver_address(), reward.amount);
            self.settle_from(sealed, 1);
        }
    }
}

impl Account {
    pub fn new() -> (r: Self)
        ensures
            r == (Account { public_key: None, amount: 0, pending_amount: 0 }),
    {
        Account { public_key: None, amount: 0, pending_amount: 0 }
    }

    pub fn new_with_private_key(private_key: u128) -> (r: Self)
        ensures
            r == (Account {
                public_key: Some(public_key_of(private_key)),
                amount: 0,
                pending_amount: 0,
            }),
    {
        Account { public_key: Some(Sha128::public_key(private_key)), amount: 0, pending_amount: 0 }
    }

    pub fn get_amount(&self) -> (r: u128)
        ensures
            r == self.amount,
    {
        self.amount
    }

    pub fn get_pending_amount(&self) -> (r: u128)
        ensures
            r == self.pending_amount,
    {
        self.pending_amount
    }
}

/// The transaction that the holder of `private_key` signs.
pub open spec fn signed_transaction(private_key: u128, receiver_address: u128, amount: u128) -> Transaction {
    Transaction {
        hash: transaction_hash_of(public_key_of(private_key), receiver_address, amount),
        sender_address: address_of(private_key),
        receiver_address,
        amount,
    }
}

/// The transaction that names the system account as the sender of a reward:
/// the one that the system account would sign, though nothing is reserved
/// for it.
pub open spec fn reward_transaction(receiver_address: u128, amount: u8) -> Transaction {
    signed_transaction(SYSTEM_PRIVATE_KEY, receiver_address, amount as u128)
}

/// The hash that stands for the two hashes `h1` and `h2`, in this order.
pub open spec fn combine(h1: u128, h2: u128) -> u128 {
    hash128((h1 % OVERFLOW_PROTECTION + h2 % OVERFLOW_PROTECTION) as u128)
}

/// Folds a queue of hashes into one: the two at the front leave and their
/// combination joins at the back, until one is left. A hash that finds no
/// partner in one pass over the queue is thus the first of the next pass.
pub open spec fn fold_pairs(queue: Seq<u128>) -> u128
    decreases queue.len(),
{
    if queue.len() == 0 {
        0
    } else if queue.len() == 1 {
        queue[0]
    } else {
        fold_pairs(queue.skip(2).push(combine(queue[0], queue[1])))
    }
}

/// The hashes of `txs`, in their order.
pub open spec fn hashes_of(txs: Seq<Transaction>) -> Seq<u128> {
    txs.map_values(|tx: Transaction| tx.hash)
}

/// The commitment to `txs`: nothing for no transaction; else their hashes,
/// the last one taken twice where their number is odd, folded into one.
pub open spec fn merkle_root(txs: Seq<Transaction>) -> u128 {
    let hashes = hashes_of(txs);
    if hashes.len() % 2 == 1 {
        fold_pairs(hashes.push(hashes.last()))
    } else {
        fold_pairs(hashes)
    }
}

/// No transactions commit to zero.
pub proof fn lemma_merkle_root_empty()
    ensures
        merkle_root(Seq::<Transaction>::empty()) == 0,
{
}

/// A single transaction is paired with itself.
pub proof fn lemma_merkle_root_single(tx: Transaction)
    ensures
        merkle_root(seq![tx]) == hash128((2 * (tx.hash % OVERFLOW_PROTECTION)) as u128),
{
    let hashes = hashes_of(seq![tx]);
    let queue = hashes.push(hashes.last());
    reveal_with_fuel(fold_pairs, 3);
    assert(queue.skip(2).push(combine(queue[0], queue[1])).len() == 1);
}

/// Two transactions are combined in their order.
pub proof fn lemma_merkle_root_pair(tx1: Transaction, tx2: Transaction)
    ensures
        merkle_root(seq![tx1, tx2]) == hash128(
            (tx1.hash % OVERFLOW_PROTECTION + tx2.hash % OVERFLOW_PROTECTION) as u128,
        ),
{
    let queue = hashes_of(seq![tx1, tx2]);
    reveal_with_fuel(fold_pairs, 3);
    assert(queue.skip(2).push(combine(queue[0], queue[1])).len() == 1);
}

impl Transaction {
    /// The transaction that the holder of `private_key` signs.
    pub fn generate_transaction(private_key: u128, receiver_address: u128, amount: u128) -> (r: Self)
        ensures
            r == signed_transaction(private_key, receiver_address, amount),
    {
        Transaction {
            hash: Sha128::transaction_hash(Sha128::public_key(private_key), receiver_address, amount),
            sender_address: Sha128::address(private_key),
            receiver_address,
            amount,
        }
    }

    /// The reward of `amount` for the miner at `receiver_address`.
    pub fn transaction_to_miner(receiver_address: u128, amount: u8) -> (r: Self)
        ensures
            r == reward_transaction(receiver_address, amount),
    {
        Transaction::generate_transaction(SYSTEM_PRIVATE_KEY, receiver_address, amount as u128)
    }

    /// The commitment to `curr_trans` and their order.
    pub fn get_merkle(curr_trans: &[Transaction]) -> (r: u128)
        ensures
            r == merkle_root(curr_trans@),
    {
        let mut merkle: Vec<u128> = Vec::new();
        let mut i: usize = 0;
        while i < curr_trans.len()
            invariant
                i <= curr_trans.len(),
                merkle@ == hashes_of(curr_trans@).take(i as int),
            decreases curr_trans.len() - i,
        {
            merkle.push(curr_trans[i].get_hash());
            assert(merkle@ =~= hashes_of(curr_trans@).take(i + 1));
            i += 1;
        }
        assert(merkle@ =~= hashes_of(curr_trans@));
        if merkle.len() % 2 == 1 {
            let last: u128 = merkle[merkle.len() - 1];
            merkle.push(last);
        }
        let mut head: usize = 0;
        assert(merkle@.skip(0) =~= merkle@);
        while merkle.len() - head > 1
            invariant
                head <= merkle.len(),
                fold_pairs(merkle@.skip(head as int)) == merkle_root(curr_trans@),
            decreases merkle.len() - head,
        {
            let ghost queue = merkle@.skip(head as int);
            let h1: u128 = merkle[head] % OVERFLOW_PROTECTION;
            let h2: u128 = merkle[head + 1] % OVERFLOW_PROTECTION;
            let nh: u128 = Sha128::hash(h1 + h2);
            merkle.push(nh);
            head += 2;
            assert(merkle@.skip(head as int) =~= queue.skip(2).push(combine(queue[0], queue[1])));
        }
        if head < merkle.len() {
            assert(merkle@.skip(head as int).len() == 1);
            merkle[head]
        } else {
            0
        }
    }

    pub fn get_sender_address(&self) -> (r: u128)
        ensures
            r == self.sender_address,
    {
        self.sender_address
    }

    pub fn get_receiver_address(&self) -> (r: u128)
        ensures
            r == self.receiver_address,
    {
        self.receiver_address
    }

    pub fn get_hash(&self) -> (r: u128)
        ensures
            r == self.hash,
    {
        self.hash
    }
}

} // verus!
