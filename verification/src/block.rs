//! Blocks, proof of work, and the chain that holds them.
use vstd::prelude::*;
use crate::address_map::{AddressMap, Duplicate};
use crate::crypto::{hash_str, hash_text};
use crate::encoding::{decimal, decimal_string};
use crate::ledger::{
    apply_balance, update_metadata_delta, apply_count, lemma_replay_push, balance_rule, balance_step, balances_of, count_step, chain_balances,
    chain_counts, count_rule, detail_rule, fold_blocks, fold_txs, lemma_details_agree_with_balances,
    lemma_chain_balances_def, lemma_chain_counts_def, lemma_fold_blocks_err, lemma_fold_blocks_prefix, lemma_fold_txs_err, lemma_fold_txs_prefix,
    replay_details, value_or_zero, amount_of, counts_match, detail_or_default, chain_sent, lemma_detail_txs_balances, lemma_detail_txs_nonce, lemma_replay_nonce, lemma_details_agree_with_counts, lemma_replayed_transfer_refused,
};
use crate::merkle::{compute_merkle_root, merkle_root};
use vstd::arithmetic::div_mod::lemma_small_mod;
use crate::transaction::{coinbase_addr, is_coinbase_address, signature_valid, Transaction};
use crate::{INIT_ADJ_INTERVAL, INIT_TARGET_TIME};

verus! {

/// A block: a numbered, timestamped list of transactions, linked to its
/// predecessor by `prev_hash` and sealed by `hash` and the proof-of-work `nonce`.
#[derive(Debug, Clone, PartialEq)]
pub struct Block {
    pub index: u32,
    pub timestamp: u64,
    pub hash: String,
    pub prev_hash: String,
    pub nonce: u64,
    pub mined_difficulty: usize,
    pub merkle_root: String,
    pub transactions: Vec<Transaction>,
}

/// The mathematical content of an address detail.
pub struct DetailView {
    pub balance: u64,
    pub nonce: u64,
    pub txs: Seq<Transaction>,
}

/// What the chain knows of an address: its balance, how many transactions
/// it has sent, and every transaction that it sent or received.
#[derive(Debug, Clone, PartialEq)]
pub struct AddressDetail {
    pub balance: u64,
    pub nonce: u64,
    pub txs: Vec<Transaction>,
}

impl View for AddressDetail {
    type V = DetailView;

    open spec fn view(&self) -> DetailView {
        DetailView { balance: self.balance, nonce: self.nonce, txs: self.txs@ }
    }
}

impl AddressDetail {
    /// The view of a fresh detail.
    pub open spec fn empty_view() -> DetailView {
        DetailView { balance: 0, nonce: 0, txs: Seq::empty() }
    }

    /// A detail with no balance and no transactions.
    pub fn new() -> (d: AddressDetail)
        ensures
            d@ == AddressDetail::empty_view(),
    {
        AddressDetail { balance: 0, nonce: 0, txs: Vec::new() }
    }
}

impl Duplicate for AddressDetail {
    fn duplicate(&self) -> (r: AddressDetail) {
        let mut txs: Vec<Transaction> = Vec::new();
        let n = self.txs.len();
        let mut i: usize = 0;
        while i < n
            invariant
                n == self.txs@.len(),
                i <= n,
                txs@ =~= self.txs@.subrange(0, i as int),
            decreases n - i,
        {
            txs.push(self.txs[i].duplicate());
            i = i + 1;
        }
        assert(self.txs@.subrange(0, n as int) =~= self.txs@);
        AddressDetail { balance: self.balance, nonce: self.nonce, txs }
    }
}

/// The hash of a block header: SHA-256 (as lower-case hex) of the decimal
/// index and timestamp, the Merkle root, the previous hash and the decimal nonce.
pub open spec fn block_hash(index: u32, timestamp: u64, merkle: Seq<char>, prev: Seq<char>, nonce: u64) -> Seq<
    char,
> {
    hash_text(
        decimal(index as nat) + decimal(timestamp as nat) + merkle + prev + decimal(nonce as nat),
    )
}

/// The hash that block `b`'s header calls for.
pub open spec fn hash_of(b: Block) -> Seq<char> {
    block_hash(b.index, b.timestamp, b.merkle_root@, b.prev_hash@, b.nonce)
}

/// Whether `h` starts with `d` zero digits.
pub open spec fn has_leading_zeros(h: Seq<char>, d: nat) -> bool {
    d <= h.len() && forall|i: int| 0 <= i < d ==> h[i] == '0'
}

/// Whether nonce `n` makes the header of `b` meet difficulty `d`.
pub open spec fn nonce_meets(b: Block, n: u64, d: nat) -> bool {
    has_leading_zeros(block_hash(b.index, b.timestamp, b.merkle_root@, b.prev_hash@, n), d)
}

/// `n` zero digits.
pub open spec fn zeros(n: nat) -> Seq<char> {
    Seq::new(n, |i: int| '0')
}

/// Calls `chrono::Utc::now`: the current Unix time in seconds, of which
/// nothing is promised.
#[verifier::external_body]
fn current_timestamp() -> u64 {
    chrono::Utc::now().timestamp() as u64
}

/// Whether `h` starts with `d` zero digits.
pub fn leading_zeros(h: &String, d: usize) -> (r: bool)
    ensures
        r == has_leading_zeros(h@, d as nat),
{
    let n = h.as_str().unicode_len();
    if d > n {
        return false;
    }
    let mut i: usize = 0;
    while i < d
        invariant
            d <= n,
            n == h@.len(),
            i <= d,
            forall|j: int| 0 <= j < i ==> h@[j] == '0',
        decreases d - i,
    {
        if h.as_str().get_char(i) != '0' {
            return false;
        }
        i = i + 1;
    }
    true
}

/// A string of `n` zero digits.
fn zero_string(n: usize) -> (r: String)
    ensures
        r@ == zeros(n as nat),
{
    let mut s = String::new();
    let mut i: usize = 0;
    while i < n
        invariant
            i <= n,
            s@ =~= zeros(i as nat),
        decreases n - i,
    {
        proof {
            reveal_strlit("0");
        }
        s.append("0");
        i = i + 1;
    }
    s
}

impl Block {
    /// The first block: index 0, no transactions, an empty Merkle root and
    /// 64 zero digits as previous hash, made at `timestamp`.
    pub fn genesis_at(timestamp: u64) -> (b: Block)
        ensures
            b.index == 0,
            b.timestamp == timestamp,
            b.transactions@.len() == 0,
            b.merkle_root@ == Seq::<char>::empty(),
            b.prev_hash@ == zeros(64),
            b.nonce == 0,
            b.mined_difficulty == 0,
            b.hash@ == hash_of(b),
    {
        let mut block = Block {
            index: 0,
            timestamp,
            transactions: Vec::new(),
            merkle_root: String::new(),
            hash: String::new(),
            prev_hash: zero_string(64),
            nonce: 0,
            mined_difficulty: 0,
        };
        block.hash = block.calculate_hash();
        block
    }

    /// The first block (see `genesis_at`), made now.
    pub fn genesis() -> (b: Block)
        ensures
            b.index == 0,
            b.transactions@.len() == 0,
            b.merkle_root@ == Seq::<char>::empty(),
            b.prev_hash@ == zeros(64),
            b.nonce == 0,
            b.mined_difficulty == 0,
            b.hash@ == hash_of(b),
    {
        Block::genesis_at(current_timestamp())
    }

    /// The hash that the block's header calls for (see `block_hash`).
    pub fn calculate_hash(&self) -> (r: String)
        ensures
            r@ == hash_of(*self),
            r@.len() == 64,
    {
        let mut input = decimal_string(self.index as u64);
        input.append(decimal_string(self.timestamp).as_str());
        input.append(self.merkle_root.as_str());
        input.append(self.prev_hash.as_str());
        input.append(decimal_string(self.nonce).as_str());
        hash_str(input.as_str())
    }

    /// An unmined block of `transactions` made at `timestamp`: its Merkle
    /// root computed, nonce and difficulty zero, and its hash filled in.
    pub fn with_timestamp(
        index: u32,
        timestamp: u64,
        transactions: Vec<Transaction>,
        prev_hash: String,
    ) -> (b: Block)
        ensures
            b.index == index,
            b.timestamp == timestamp,
            b.transactions@ == transactions@,
            b.prev_hash == prev_hash,
            b.merkle_root@ == merkle_root(transactions@),
            b.nonce == 0,
            b.mined_difficulty == 0,
            b.hash@ == hash_of(b),
    {
        let merkle_root = compute_merkle_root(transactions.as_slice());
        let mut block = Block {
            index,
            timestamp,
            transactions,
            merkle_root,
            nonce: 0,
            mined_difficulty: 0,
            hash: String::new(),
            prev_hash,
        };
        block.hash = block.calculate_hash();
        block
    }

    /// An unmined block (see `with_timestamp`) made now.
    pub fn new(index: u32, transactions: Vec<Transaction>, prev_hash: String) -> (b: Block)
        ensures
            b.index == index,
            b.transactions@ == transactions@,
            b.prev_hash == prev_hash,
            b.merkle_root@ == merkle_root(transactions@),
            b.nonce == 0,
            b.mined_difficulty == 0,
            b.hash@ == hash_of(b),
    {
        Block::with_timestamp(index, current_timestamp(), transactions, prev_hash)
    }

    /// Proof of work: counts the nonce up from its current value to the
    /// first one whose header hash starts with `difficulty` zero digits, and
    /// seals the block with that hash and difficulty. Should no nonce up to
    /// `u64::MAX` do, the block is left at nonce `u64::MAX`.
    pub fn mine_block(&mut self, difficulty: usize)
        requires
            difficulty <= 64,
        ensures
            final(self).index == old(self).index,
            final(self).timestamp == old(self).timestamp,
            final(self).merkle_root == old(self).merkle_root,
            final(self).prev_hash == old(self).prev_hash,
            final(self).transactions == old(self).transactions,
            final(self).mined_difficulty == difficulty,
            final(self).hash@ == hash_of(*final(self)),
            old(self).nonce <= final(self).nonce,
            forall|n: u64|
                old(self).nonce <= n < final(self).nonce ==> !nonce_meets(
                    *old(self),
                    n,
                    difficulty as nat,
                ),
            nonce_meets(*old(self), final(self).nonce, difficulty as nat) || final(self).nonce
                == u64::MAX,
    {
        let ghost orig = *self;
        let mut h = self.calculate_hash();
        while !leading_zeros(&h, difficulty) && self.nonce < u64::MAX
            invariant
                self.index == orig.index,
                self.timestamp == orig.timestamp,
                self.merkle_root == orig.merkle_root,
                self.prev_hash == orig.prev_hash,
                self.transactions == orig.transactions,
                orig.nonce <= self.nonce,
                h@ == hash_of(*self),
                forall|n: u64|
                    orig.nonce <= n < self.nonce ==> !nonce_meets(orig, n, difficulty as nat),
            decreases u64::MAX - self.nonce,
        {
            self.nonce = self.nonce + 1;
            h = self.calculate_hash();
        }
        self.hash = h;
        self.mined_difficulty = difficulty;
    }
}

/// The chain: its blocks, the difficulty for the next block and how it is
/// adjusted, and the address details kept up to date as blocks are added.
#[derive(Debug)]
pub struct Blockchain {
    pub chain: Vec<Block>,
    pub difficulty: usize,
    pub target_block_time: u64,
    pub adjustment_interval: u32,
    pub address_details: AddressMap<AddressDetail>,
}

/// An error text about block number `index`: `prefix`, the number, `suffix`.
pub open spec fn block_msg(prefix: Seq<char>, index: u32, suffix: Seq<char>) -> Seq<char> {
    prefix + decimal(index as nat) + suffix
}

fn block_message(prefix: &str, index: u32, suffix: &str) -> (r: String)
    ensures
        r@ == block_msg(prefix@, index, suffix@),
{
    let mut s = prefix.to_owned();
    s.append(decimal_string(index as u64).as_str());
    s.append(suffix);
    s
}

/// The checks that a block must pass to follow the blocks `prev`, in
/// order: its hash is the hash of its header; its Merkle root is that of its
/// transactions; its number is the number of blocks before it and it names
/// the hash of the last of them; its hash meets its own difficulty; its
/// first transaction, and only that one, comes from the coinbase; every
/// signature is valid.
pub open spec fn check_block_spec(prev: Seq<Block>, b: Block) -> Result<(), Seq<char>> {
    let txs = b.transactions@;
    if b.hash@ != hash_of(b) {
        Err(block_msg("\u{274c} \u{533a}\u{5757}"@, b.index, "\u{7684}\u{54c8}\u{5e0c}\u{4e0d}\u{5339}\u{914d}\u{ff0c}\u{88ab}\u{7be1}\u{6539}\u{ff01}"@))
    } else if b.merkle_root@ != merkle_root(txs) {
        Err(block_msg("\u{274c} \u{533a}\u{5757}"@, b.index, "\u{7684}Merkle\u{6839}\u{4e0e}\u{4ea4}\u{6613}\u{4e0d}\u{5339}\u{914d}\u{ff0c}\u{4ea4}\u{6613}\u{88ab}\u{7be1}\u{6539}\u{ff01}"@))
    } else if prev.len() == 0 || b.index != prev.len() || b.prev_hash@ != prev.last().hash@ {
        Err(block_msg("\u{274c} \u{533a}\u{5757}"@, b.index, "\u{7684}\u{524d}\u{54c8}\u{5e0c}\u{4e0d}\u{5339}\u{914d}\u{ff0c}\u{94fe}\u{65ad}\u{88c2}\u{ff01}"@))
    } else if !has_leading_zeros(b.hash@, b.mined_difficulty as nat) {
        Err(block_msg("\u{274c} \u{533a}\u{5757}"@, b.index, "\u{7684}\u{5de5}\u{4f5c}\u{91cf}\u{8bc1}\u{660e}\u{65e0}\u{6548}\u{ff01}"@))
    } else if txs.len() == 0 || txs[0].sender@ != coinbase_addr() {
        Err(block_msg("\u{274c} \u{533a}\u{5757}"@, b.index, "\u{7f3a}\u{5c11}\u{6216}\u{653e}\u{9519}\u{4e86}coinbase"@))
    } else if exists|i: int| 1 <= i < txs.len() && (#[trigger] txs[i]).sender@ == coinbase_addr() {
        Err(block_msg("\u{274c} \u{533a}\u{5757}"@, b.index, "\u{6709}\u{4e0d}\u{6b62}\u{4e00}\u{7b14}coinbase"@))
    } else if exists|i: int| 0 <= i < txs.len() && !signature_valid((#[trigger] txs[i])@) {
        Err(block_msg("\u{274c} \u{533a}\u{5757}"@, b.index, "\u{5b58}\u{5728}\u{7b7e}\u{540d}\u{65e0}\u{6548}\u{7684}\u{4ea4}\u{6613}"@))
    } else {
        Ok(())
    }
}

/// The checks of blocks 1 to `n - 1` of `chain`, each against the blocks
/// before it; the first failure stops them.
pub open spec fn checks_upto(chain: Seq<Block>, n: int) -> Result<(), Seq<char>>
    decreases n,
{
    if n <= 1 {
        Ok(())
    } else {
        match checks_upto(chain, n - 1) {
            Err(e) => Err(e),
            Ok(_) => check_block_spec(chain.subrange(0, n - 1), chain[n - 1]),
        }
    }
}

/// Whether a whole chain is valid: every block after the first passes its
/// checks, and balances and transaction counts replay without error.
pub open spec fn chain_validity(chain: Seq<Block>) -> Result<(), Seq<char>> {
    match checks_upto(chain, chain.len() as int) {
        Err(e) => Err(e),
        Ok(_) => match chain_balances(chain) {
            Err(e) => Err(e),
            Ok(_) => match chain_counts(chain) {
                Err(e) => Err(e),
                Ok(_) => Ok(()),
            },
        },
    }
}

/// The difficulty after a block joins: at every block whose number is a
/// multiple of `interval`, the time the last `interval` blocks took is
/// held against `target * interval`; under half of it raises the
/// difficulty by one, over twice of it lowers it by one (neither past the
/// bounds of `usize`). With no interval, or where the clock ran backwards,
/// nothing changes.
pub open spec fn adjusted_difficulty(chain: Seq<Block>, difficulty: usize, target: u64, interval: u32) -> usize {
    let last = chain.last();
    if interval == 0 || last.index % interval != 0 {
        difficulty
    } else {
        let first = chain[chain.len() - interval];
        if last.timestamp < first.timestamp {
            difficulty
        } else {
            let actual = last.timestamp - first.timestamp;
            let target_time = target * interval;
            if actual < target_time / 2 {
                if difficulty == usize::MAX {
                    difficulty
                } else {
                    (difficulty + 1) as usize
                }
            } else if actual > target_time * 2 {
                if difficulty == 0 {
                    0
                } else {
                    (difficulty - 1) as usize
                }
            } else {
                difficulty
            }
        }
    }
}

/// What adding `block` to `bc` gives: the error of the first failed check,
/// else the address details after replaying the block's transactions (or
/// the error of that replay).
pub open spec fn add_block_result(bc: Blockchain, block: Block) -> Result<
    Map<Seq<char>, DetailView>,
    Seq<char>,
> {
    match check_block_spec(bc.chain@, block) {
        Err(e) => Err(e),
        Ok(_) => fold_txs(bc.address_details@, block.transactions@, block.index, detail_rule()),
    }
}

/// The running state of transaction filtering: simulated balances and
/// transaction counts, and the transactions accepted and refused so far.
pub struct FilterState {
    pub balances: Map<Seq<char>, u64>,
    pub counts: Map<Seq<char>, u64>,
    pub valid: Seq<Transaction>,
    pub invalid: Seq<Transaction>,
}

/// One step of filtering. A coinbase transaction is accepted and credited
/// unless the credit would pass `u64::MAX`. Any other is accepted if its
/// signature is valid, the sender can pay amount and fee, and its nonce is
/// the sender's count so far; then the sender pays, the receiver is
/// credited and the sender's count rises. Everything else is refused.
pub open spec fn filter_step(st: FilterState, t: Transaction) -> FilterState {
    let refused = FilterState {
        balances: st.balances,
        counts: st.counts,
        valid: st.valid,
        invalid: st.invalid.push(t),
    };
    if t.sender@ == coinbase_addr() {
        let got = value_or_zero(st.balances, t.receiver@);
        if got + t.amount > u64::MAX {
            refused
        } else {
            FilterState {
                balances: st.balances.insert(t.receiver@, (got + t.amount) as u64),
                counts: st.counts,
                valid: st.valid.push(t),
                invalid: st.invalid,
            }
        }
    } else {
        let have = value_or_zero(st.balances, t.sender@);
        let c = value_or_zero(st.counts, t.sender@);
        if signature_valid(t@) && t.amount + t.fee <= have && c == t.nonce && c < u64::MAX {
            let b1 = st.balances.insert(t.sender@, (have - t.amount - t.fee) as u64);
            let got = value_or_zero(b1, t.receiver@);
            if got + t.amount > u64::MAX {
                refused
            } else {
                FilterState {
                    balances: b1.insert(t.receiver@, (got + t.amount) as u64),
                    counts: st.counts.insert(t.sender@, (c + 1) as u64),
                    valid: st.valid.push(t),
                    invalid: st.invalid,
                }
            }
        } else {
            refused
        }
    }
}

/// Filtering of `txs` in order from `st`.
pub open spec fn filter_fold(st: FilterState, txs: Seq<Transaction>) -> FilterState
    decreases txs.len(),
{
    if txs.len() == 0 {
        st
    } else {
        filter_step(filter_fold(st, txs.drop_last()), txs.last())
    }
}

/// Filtering of `txs` against the balances and counts of `chain`.
pub open spec fn filter_result(chain: Seq<Block>, txs: Seq<Transaction>) -> FilterState {
    filter_fold(
        FilterState {
            balances: chain_balances(chain)->Ok_0,
            counts: chain_counts(chain)->Ok_0,
            valid: Seq::empty(),
            invalid: Seq::empty(),
        },
        txs,
    )
}

/// Filtering transactions none of which comes from the coinbase only
/// appends transactions with valid signatures that do not come from it.
pub proof fn lemma_filter_accepts_signed(st: FilterState, txs: Seq<Transaction>)
    requires
        forall|j: int| 0 <= j < txs.len() ==> (#[trigger] txs[j]).sender@ != coinbase_addr(),
    ensures
        filter_fold(st, txs).valid.len() >= st.valid.len(),
        filter_fold(st, txs).valid.subrange(0, st.valid.len() as int) == st.valid,
        forall|k: int|
            st.valid.len() <= k < filter_fold(st, txs).valid.len() ==> (#[trigger] filter_fold(
                st,
                txs,
            ).valid[k]).sender@ != coinbase_addr() && signature_valid(filter_fold(st, txs).valid[k]@),
    decreases txs.len(),
{
    if txs.len() == 0 {
        assert(st.valid.subrange(0, st.valid.len() as int) =~= st.valid);
    } else {
        let d = txs.drop_last();
        assert forall|j: int| 0 <= j < d.len() implies (#[trigger] d[j]).sender@ != coinbase_addr() by {
            assert(d[j] == txs[j]);
        }
        lemma_filter_accepts_signed(st, d);
        let mid = filter_fold(st, d);
        let t = txs.last();
        assert(t.sender@ != coinbase_addr());
        let fin = filter_step(mid, t);
        assert(filter_fold(st, txs) == fin);
        if fin.valid.len() > mid.valid.len() {
            assert(fin.valid == mid.valid.push(t));
            assert(fin.valid.subrange(0, st.valid.len() as int) =~= mid.valid.subrange(
                0,
                st.valid.len() as int,
            ));
        } else {
            assert(fin.valid == mid.valid);
        }
    }
}

/// Address details that agree with the chain hold exactly the balances
/// that replaying the chain gives, so `compute_balances` succeeds on such a
/// chain and agrees with the details.
pub proof fn lemma_details_match_balances(bc: Blockchain)
    requires
        bc.details_consistent(),
    ensures
        chain_balances(bc.chain@) == Ok::<Map<Seq<char>, u64>, Seq<char>>(
            balances_of(bc.address_details@),
        ),
{
    lemma_details_agree_with_balances(Map::empty(), bc.chain@);
    assert(balances_of(Map::<Seq<char>, DetailView>::empty()) =~= Map::<Seq<char>, u64>::empty());
    lemma_chain_balances_def(bc.chain@);
}

/// Address details that agree with the chain are an exact record of it:
/// where the transaction counts replay, every address but the coinbase has
/// as its nonce the number of transfers it has sent, and the balances are
/// those that replaying the chain gives.
pub proof fn lemma_details_are_exact(bc: Blockchain)
    requires
        bc.details_consistent(),
        chain_counts(bc.chain@) is Ok,
    ensures
        chain_balances(bc.chain@) == Ok::<Map<Seq<char>, u64>, Seq<char>>(
            balances_of(bc.address_details@),
        ),
        counts_match(chain_counts(bc.chain@)->Ok_0, bc.address_details@),
{
    lemma_details_match_balances(bc);
    lemma_chain_counts_def(bc.chain@);
    let c0 = Map::<Seq<char>, u64>::empty();
    let d0 = Map::<Seq<char>, DetailView>::empty();
    assert(counts_match(c0, d0)) by {
        assert forall|a: Seq<char>| a != coinbase_addr() implies #[trigger] value_or_zero(c0, a)
            == detail_or_default(d0, a).nonce by {}
    }
    lemma_details_agree_with_counts(c0, d0, bc.chain@);
}

/// A chain that ends in a replayed transfer is not valid: where the chain
/// before the last block replays its counts and a transfer of the last
/// block repeats the sender and nonce of one before it, the chain fails.
pub proof fn lemma_replayed_chain_invalid(chain: Seq<Block>, b: Block, i: int, j: int, k: int)
    requires
        chain_counts(chain) is Ok,
        0 <= i < chain.len(),
        0 <= j < chain[i].transactions@.len(),
        chain[i].transactions@[j].sender@ != coinbase_addr(),
        0 <= k < b.transactions@.len(),
        b.transactions@[k].sender@ == chain[i].transactions@[j].sender@,
        b.transactions@[k].nonce == chain[i].transactions@[j].nonce,
    ensures
        chain_counts(chain.push(b)) is Err,
        chain_validity(chain.push(b)) is Err,
{
    lemma_replayed_transfer_refused(chain, b, i, j, k);
}

/// The checks of a prefix do not look past it.
pub proof fn lemma_checks_push(chain: Seq<Block>, b: Block, n: int)
    requires
        0 <= n <= chain.len(),
    ensures
        checks_upto(chain.push(b), n) == checks_upto(chain, n),
    decreases n,
{
    if n > 1 {
        lemma_checks_push(chain, b, n - 1);
        assert(chain.push(b).subrange(0, n - 1) =~= chain.subrange(0, n - 1));
        assert(chain.push(b)[n - 1] == chain[n - 1]);
    }
}

/// Whether the address details of `bc` are an exact record of its chain:
/// their balances are those that replaying the chain gives, and every
/// address but the coinbase has as its nonce the number of transactions it
/// has sent on the chain.
pub open spec fn details_exact(bc: Blockchain) -> bool {
    &&& chain_balances(bc.chain@) == Ok::<Map<Seq<char>, u64>, Seq<char>>(
        balances_of(bc.address_details@),
    )
    &&& forall|a: Seq<char>|
        a != coinbase_addr() ==> #[trigger] detail_or_default(bc.address_details@, a).nonce
            == chain_sent(bc.chain@, a)
}

/// Details that agree with the chain are an exact record of it.
pub proof fn lemma_consistent_details_exact(bc: Blockchain)
    requires
        bc.details_consistent(),
    ensures
        details_exact(bc),
{
    lemma_details_match_balances(bc);
    lemma_replay_nonce(bc.chain@);
    assert forall|a: Seq<char>| a != coinbase_addr() implies #[trigger] detail_or_default(
        bc.address_details@,
        a,
    ).nonce == chain_sent(bc.chain@, a) by {
        assert(detail_or_default(replay_details(Map::empty(), bc.chain@)->Ok_0, a).nonce
            == chain_sent(bc.chain@, a));
    }
}

/// An exact record stays exact when a block's transactions replay on it.
proof fn lemma_details_exact_push(blocks: Seq<Block>, d: Map<Seq<char>, DetailView>, b: Block)
    requires
        fold_txs(d, b.transactions@, b.index, detail_rule()) is Ok,
    ensures
        ({
            let d2 = fold_txs(d, b.transactions@, b.index, detail_rule())->Ok_0;
            &&& chain_balances(blocks) == Ok::<Map<Seq<char>, u64>, Seq<char>>(balances_of(d))
                ==> chain_balances(blocks.push(b)) == Ok::<Map<Seq<char>, u64>, Seq<char>>(
                balances_of(d2),
            )
            &&& (forall|a: Seq<char>|
                a != coinbase_addr() ==> #[trigger] detail_or_default(d, a).nonce == chain_sent(
                    blocks,
                    a,
                )) ==> forall|a: Seq<char>|
                a != coinbase_addr() ==> #[trigger] detail_or_default(d2, a).nonce == chain_sent(
                    blocks.push(b),
                    a,
                )
        }),
{
    let d2 = fold_txs(d, b.transactions@, b.index, detail_rule())->Ok_0;
    assert(blocks.push(b).drop_last() =~= blocks);
    lemma_detail_txs_balances(d, b.transactions@, b.index);
    lemma_detail_txs_nonce(d, b.transactions@, b.index);
    if forall|a: Seq<char>|
        a != coinbase_addr() ==> #[trigger] detail_or_default(d, a).nonce == chain_sent(blocks, a) {
        assert forall|a: Seq<char>| a != coinbase_addr() implies #[trigger] detail_or_default(
            d2,
            a,
        ).nonce == chain_sent(blocks.push(b), a) by {
            assert(detail_or_default(d, a).nonce == chain_sent(blocks, a));
        }
    }
}

/// A block passes the checks to follow the blocks `prev` exactly when it
/// extends them and is well formed: `prev` is not empty, the block's number
/// is the number of blocks in `prev` and it names the hash of the last of
/// them; its hash is its header's hash and has as many leading zeros as its
/// difficulty; its Merkle root is that of its transactions; its first
/// transaction, and no other, comes from the coinbase; every signature is
/// valid.
pub proof fn lemma_block_checks_mean(prev: Seq<Block>, b: Block)
    ensures
        check_block_spec(prev, b) is Ok <==> {
            let txs = b.transactions@;
            &&& prev.len() > 0
            &&& b.index == prev.len()
            &&& b.prev_hash@ == prev.last().hash@
            &&& b.hash@ == hash_of(b)
            &&& has_leading_zeros(b.hash@, b.mined_difficulty as nat)
            &&& b.merkle_root@ == merkle_root(txs)
            &&& txs.len() > 0
            &&& txs[0].sender@ == coinbase_addr()
            &&& forall|i: int| 1 <= i < txs.len() ==> (#[trigger] txs[i]).sender@ != coinbase_addr()
            &&& forall|i: int| 0 <= i < txs.len() ==> signature_valid((#[trigger] txs[i])@)
        },
{
}

proof fn lemma_checks_upto_mean(chain: Seq<Block>, n: int)
    requires
        n <= chain.len(),
    ensures
        checks_upto(chain, n) is Ok <==> forall|i: int|
            1 <= i < n ==> #[trigger] check_block_spec(chain.subrange(0, i), chain[i]) is Ok,
    decreases n,
{
    if n > 1 {
        lemma_checks_upto_mean(chain, n - 1);
        if checks_upto(chain, n) is Ok {
            assert forall|i: int| 1 <= i < n implies #[trigger] check_block_spec(
                chain.subrange(0, i),
                chain[i],
            ) is Ok by {}
        }
    }
}

/// A chain is valid exactly when every block after the first passes the
/// checks to follow the blocks before it, and its balances and transaction
/// counts replay without error.
pub proof fn lemma_chain_validity_means(chain: Seq<Block>)
    ensures
        chain_validity(chain) is Ok <==> {
            &&& forall|i: int|
                1 <= i < chain.len() ==> #[trigger] check_block_spec(chain.subrange(0, i), chain[i])
                    is Ok
            &&& chain_balances(chain) is Ok
            &&& chain_counts(chain) is Ok
        },
{
    lemma_checks_upto_mean(chain, chain.len() as int);
}

/// The difficulty adjustment looks only at the last `interval` blocks: two
/// chains that end in the same `interval` blocks get the same difficulty.
pub proof fn lemma_adjustment_window(
    c1: Seq<Block>,
    c2: Seq<Block>,
    difficulty: usize,
    target: u64,
    interval: u32,
)
    requires
        c1.len() > 0,
        c2.len() > 0,
        c1.len() >= interval,
        c2.len() >= interval,
        c1.last() == c2.last(),
        c1.subrange(c1.len() - interval, c1.len() as int) == c2.subrange(
            c2.len() - interval,
            c2.len() as int,
        ),
    ensures
        adjusted_difficulty(c1, difficulty, target, interval) == adjusted_difficulty(
            c2,
            difficulty,
            target,
            interval,
        ),
{
    if interval > 0 {
        let w1 = c1.subrange(c1.len() - interval, c1.len() as int);
        let w2 = c2.subrange(c2.len() - interval, c2.len() as int);
        assert(w1[0] == c1[c1.len() - interval]);
        assert(w2[0] == c2[c2.len() - interval]);
    }
}

/// Which way the difficulty moves, measured over the last `interval`
/// blocks, from the block `interval` places before the end to the last:
/// it stays where the last block's number is no multiple of `interval`;
/// otherwise it rises by one where that time is under half of
/// `target * interval`, falls by one where it is over twice of it, and
/// stays in between (never past the bounds of `usize`).
pub proof fn lemma_adjustment_direction(chain: Seq<Block>, difficulty: usize, target: u64, interval: u32)
    requires
        chain.len() > 0,
        chain.len() >= interval,
    ensures
        interval == 0 || chain.last().index % interval != 0 ==> adjusted_difficulty(
            chain,
            difficulty,
            target,
            interval,
        ) == difficulty,
        ({
            let first = chain[chain.len() - interval].timestamp;
            let last = chain.last().timestamp;
            let window = target * interval;
            interval > 0 && chain.last().index % interval == 0 && first <= last ==> {
                &&& last - first < window / 2 ==> adjusted_difficulty(
                    chain,
                    difficulty,
                    target,
                    interval,
                ) == if difficulty < usize::MAX {
                    difficulty + 1
                } else {
                    difficulty as int
                }
                &&& last - first > window * 2 ==> adjusted_difficulty(
                    chain,
                    difficulty,
                    target,
                    interval,
                ) == if difficulty > 0 {
                    difficulty - 1
                } else {
                    0
                }
                &&& window / 2 <= last - first <= window * 2 ==> adjusted_difficulty(
                    chain,
                    difficulty,
                    target,
                    interval,
                ) == difficulty
            }
        }),
{
}

/// One step of filtering, in terms of what the step keeps: a transaction is
/// accepted exactly when it replays on the simulated balances and, unless
/// it comes from the coinbase, its signature is valid and its nonce is the
/// sender's count so far (below `u64::MAX`). An accepted one moves the
/// balances as the replay does and raises its sender's count by one; a
/// refused one changes nothing but the refused list.
pub proof fn lemma_filter_step_means(st: FilterState, t: Transaction)
    ensures
        ({
            let next = filter_step(st, t);
            let accepted = balance_step(st.balances, t, 0) is Ok && (t.sender@ == coinbase_addr() || (
            signature_valid(t@) && value_or_zero(st.counts, t.sender@) == t.nonce && t.nonce
                < u64::MAX));
            &&& accepted ==> next.valid == st.valid.push(t) && next.invalid == st.invalid
                && next.balances == balance_step(st.balances, t, 0)->Ok_0
            &&& accepted && t.sender@ != coinbase_addr() ==> next.counts == st.counts.insert(
                t.sender@,
                (t.nonce + 1) as u64,
            )
            &&& accepted && t.sender@ == coinbase_addr() ==> next.counts == st.counts
            &&& !accepted ==> next.valid == st.valid && next.invalid == st.invalid.push(t)
                && next.balances == st.balances && next.counts == st.counts
        }),
{
}

/// Once a check fails, the checks of every longer prefix fail the same way.
proof fn lemma_checks_err(chain: Seq<Block>, n: int)
    requires
        1 <= n <= chain.len(),
        checks_upto(chain, n) is Err,
    ensures
        checks_upto(chain, chain.len() as int) == checks_upto(chain, n),
    decreases chain.len() - n,
{
    if n < chain.len() {
        lemma_checks_err(chain, n + 1);
    }
}

impl Blockchain {
    /// The address details are what replaying the whole chain gives.
    pub open spec fn details_consistent(&self) -> bool {
        replay_details(Map::empty(), self.chain@) == Ok::<
            Map<Seq<char>, DetailView>,
            Seq<char>,
        >(self.address_details@)
    }

    /// A chain that holds only a genesis block, mines at `difficulty`, and
    /// adjusts every `INIT_ADJ_INTERVAL` blocks towards `INIT_TARGET_TIME`.
    pub fn new(difficulty: usize) -> (bc: Blockchain)
        ensures
            bc.chain@.len() == 1,
            bc.chain@[0].index == 0,
            bc.chain@[0].transactions@.len() == 0,
            bc.chain@[0].prev_hash@ == zeros(64),
            bc.chain@[0].merkle_root@ == Seq::<char>::empty(),
            bc.chain@[0].nonce == 0,
            bc.chain@[0].mined_difficulty == 0,
            bc.chain@[0].hash@ == hash_of(bc.chain@[0]),
            bc.difficulty == difficulty,
            bc.target_block_time == INIT_TARGET_TIME,
            bc.adjustment_interval == INIT_ADJ_INTERVAL,
            bc.address_details@ == Map::<Seq<char>, DetailView>::empty(),
            bc.details_consistent(),
    {
        let genesis = Block::genesis();
        let mut chain = Vec::new();
        chain.push(genesis);
        let bc = Blockchain {
            chain,
            difficulty,
            target_block_time: INIT_TARGET_TIME,
            adjustment_interval: INIT_ADJ_INTERVAL,
            address_details: AddressMap::new(),
        };
        proof {
            let blocks = bc.chain@;
            assert(blocks.drop_last().len() == 0);
            assert(fold_blocks(Map::<Seq<char>, DetailView>::empty(), blocks.drop_last(), detail_rule())
                == Ok::<Map<Seq<char>, DetailView>, Seq<char>>(Map::empty()));
            assert(fold_txs(
                Map::<Seq<char>, DetailView>::empty(),
                blocks.last().transactions@,
                blocks.last().index,
                detail_rule(),
            ) == Ok::<Map<Seq<char>, DetailView>, Seq<char>>(Map::empty()));
        }
        bc
    }

    /// The last block of the chain.
    pub fn latest_block(&self) -> (b: &Block)
        requires
            self.chain@.len() > 0,
        ensures
            *b == self.chain@.last(),
    {
        &self.chain[self.chain.len() - 1]
    }

    /// The balance of every address that the chain's transactions touch,
    /// replayed from the first block (see `balance_step`); the first
    /// transaction that cannot be paid is the error.
    pub fn compute_balances(&self) -> (r: Result<AddressMap<u64>, String>)
        ensures
            match r {
                Ok(m) => chain_balances(self.chain@) == Ok::<Map<Seq<char>, u64>, Seq<char>>(m@),
                Err(e) => chain_balances(self.chain@) == Err::<Map<Seq<char>, u64>, Seq<char>>(
                    e@,
                ),
            },
    {
        let ghost blocks = self.chain@;
        let ghost empty = Map::<Seq<char>, u64>::empty();
        let mut m: AddressMap<u64> = AddressMap::new();
        let nb = self.chain.len();
        let mut i: usize = 0;
        while i < nb
            invariant
                nb == blocks.len(),
                blocks == self.chain@,
                empty == Map::<Seq<char>, u64>::empty(),
                i <= nb,
                fold_blocks(empty, blocks.subrange(0, i as int), balance_rule()) == Ok::<
                    Map<Seq<char>, u64>,
                    Seq<char>,
                >(m@),
            decreases nb - i,
        {
            let block = &self.chain[i];
            let ghost txs = block.transactions@;
            let ghost start = m@;
            let nt = block.transactions.len();
            let mut j: usize = 0;
            while j < nt
                invariant
                    nt == txs.len(),
                    txs == block.transactions@,
                    i < nb,
                    nb == blocks.len(),
                    blocks == self.chain@,
                    empty == Map::<Seq<char>, u64>::empty(),
                    *block == blocks[i as int],
                    fold_blocks(empty, blocks.subrange(0, i as int), balance_rule()) == Ok::<
                        Map<Seq<char>, u64>,
                        Seq<char>,
                    >(start),
                    j <= nt,
                    fold_txs(start, txs.subrange(0, j as int), block.index, balance_rule()) == Ok::<
                        Map<Seq<char>, u64>,
                        Seq<char>,
                    >(m@),
                decreases nt - j,
            {
                proof {
                    lemma_fold_txs_prefix(start, txs, block.index, balance_rule(), j as int);
                }
                let ghost before = m@;
                match apply_balance(&mut m, &block.transactions[j], block.index) {
                    Ok(_) => {},
                    Err(e) => {
                        proof {
                            assert(balance_rule()(before, txs[j as int], block.index) == balance_step(
                                before,
                                txs[j as int],
                                block.index,
                            ));
                            lemma_fold_txs_err(start, txs, block.index, balance_rule(), j + 1);
                            lemma_fold_blocks_prefix(empty, blocks, balance_rule(), i as int);
                            lemma_fold_blocks_err(empty, blocks, balance_rule(), i + 1);
                            lemma_chain_balances_def(blocks);
                        }
                        return Err(e);
                    },
                }
                j = j + 1;
            }
            proof {
                assert(txs.subrange(0, nt as int) =~= txs);
                lemma_fold_blocks_prefix(empty, blocks, balance_rule(), i as int);
            }
            i = i + 1;
        }
        proof {
            assert(blocks.subrange(0, nb as int) =~= blocks);
            lemma_chain_balances_def(blocks);
        }
        Ok(m)
    }

    /// The balance of every address that the chain's transactions touch,
    /// replayed from the first block (see `count_step`); the first
    /// transaction that cannot be paid is the error.
    pub fn get_tx_count(&self) -> (r: Result<AddressMap<u64>, String>)
        ensures
            match r {
                Ok(m) => chain_counts(self.chain@) == Ok::<Map<Seq<char>, u64>, Seq<char>>(m@),
                Err(e) => chain_counts(self.chain@) == Err::<Map<Seq<char>, u64>, Seq<char>>(
                    e@,
                ),
            },
    {
        let ghost blocks = self.chain@;
        let ghost empty = Map::<Seq<char>, u64>::empty();
        let mut m: AddressMap<u64> = AddressMap::new();
        let nb = self.chain.len();
        let mut i: usize = 0;
        while i < nb
            invariant
                nb == blocks.len(),
                blocks == self.chain@,
                empty == Map::<Seq<char>, u64>::empty(),
                i <= nb,
                fold_blocks(empty, blocks.subrange(0, i as int), count_rule()) == Ok::<
                    Map<Seq<char>, u64>,
                    Seq<char>,
                >(m@),
            decreases nb - i,
        {
            let block = &self.chain[i];
            let ghost txs = block.transactions@;
            let ghost start = m@;
            let nt = block.transactions.len();
            let mut j: usize = 0;
            while j < nt
                invariant
                    nt == txs.len(),
                    txs == block.transactions@,
                    i < nb,
                    nb == blocks.len(),
                    blocks == self.chain@,
                    empty == Map::<Seq<char>, u64>::empty(),
                    *block == blocks[i as int],
                    fold_blocks(empty, blocks.subrange(0, i as int), count_rule()) == Ok::<
                        Map<Seq<char>, u64>,
                        Seq<char>,
                    >(start),
                    j <= nt,
                    fold_txs(start, txs.subrange(0, j as int), block.index, count_rule()) == Ok::<
                        Map<Seq<char>, u64>,
                        Seq<char>,
                    >(m@),
                decreases nt - j,
            {
                proof {
                    lemma_fold_txs_prefix(start, txs, block.index, count_rule(), j as int);
                }
                let ghost before = m@;
                match apply_count(&mut m, &block.transactions[j], block.index) {
                    Ok(_) => {},
                    Err(e) => {
                        proof {
                            assert(count_rule()(before, txs[j as int], block.index) == count_step(
                                before,
                                txs[j as int],
                                block.index,
                            ));
                            lemma_fold_txs_err(start, txs, block.index, count_rule(), j + 1);
                            lemma_fold_blocks_prefix(empty, blocks, count_rule(), i as int);
                            lemma_fold_blocks_err(empty, blocks, count_rule(), i + 1);
                            lemma_chain_counts_def(blocks);
                        }
                        return Err(e);
                    },
                }
                j = j + 1;
            }
            proof {
                assert(txs.subrange(0, nt as int) =~= txs);
                lemma_fold_blocks_prefix(empty, blocks, count_rule(), i as int);
            }
            i = i + 1;
        }
        proof {
            assert(blocks.subrange(0, nb as int) =~= blocks);
            lemma_chain_counts_def(blocks);
        }
        Ok(m)
    }

    /// Moves the difficulty as `adjusted_difficulty` says for the chain as it
    /// stands.
    fn adjust_difficulty(&mut self)
        requires
            old(self).chain@.len() >= 1,
            old(self).adjustment_interval > 0 && old(self).chain@.last().index % old(
                self,
            ).adjustment_interval == 0 ==> old(self).chain@.len() >= old(self).adjustment_interval,
        ensures
            final(self).difficulty == adjusted_difficulty(
                old(self).chain@,
                old(self).difficulty,
                old(self).target_block_time,
                old(self).adjustment_interval,
            ),
            final(self).chain == old(self).chain,
            final(self).target_block_time == old(self).target_block_time,
            final(self).adjustment_interval == old(self).adjustment_interval,
            final(self).address_details == old(self).address_details,
    {
        if self.adjustment_interval == 0 {
            return;
        }
        let n = self.chain.len();
        let last_index = self.chain[n - 1].index;
        if last_index % self.adjustment_interval != 0 {
            return;
        }
        let start = n - self.adjustment_interval as usize;
        let first_time = self.chain[start].timestamp;
        let last_time = self.chain[n - 1].timestamp;
        if last_time < first_time {
            return;
        }
        let actual_time = (last_time - first_time) as u128;
        proof {
            assert(self.target_block_time * self.adjustment_interval <= u64::MAX * u32::MAX) by (nonlinear_arith)
                requires
                    self.target_block_time <= u64::MAX,
                    self.adjustment_interval <= u32::MAX,
            ;
        }
        let target_time = (self.target_block_time as u128) * (self.adjustment_interval as u128);
        if actual_time < target_time / 2 {
            self.difficulty = self.difficulty.saturating_add(1);
        } else if actual_time > target_time * 2 {
            self.difficulty = self.difficulty.saturating_sub(1);
        }
    }

    /// Adds `block` if it passes its checks (see `check_block_spec`) and its
    /// transactions replay on the address details (see `detail_step`); the
    /// details then take the replay's result, the block joins the chain,
    /// and the difficulty is adjusted (see `adjusted_difficulty`). A refused
    /// block leaves the chain as it was. Details that agree with the chain
    /// still do afterwards.
    pub fn add_block(&mut self, block: Block) -> (r: Result<(), String>)
        ensures
            match add_block_result(*old(self), block) {
                Err(e) => r is Err && r->Err_0@ == e && *final(self) == *old(self),
                Ok(d) => {
                    &&& r is Ok
                    &&& final(self).chain@ == old(self).chain@.push(block)
                    &&& final(self).address_details@ == d
                    &&& final(self).difficulty == adjusted_difficulty(
                        final(self).chain@,
                        old(self).difficulty,
                        old(self).target_block_time,
                        old(self).adjustment_interval,
                    )
                    &&& final(self).target_block_time == old(self).target_block_time
                    &&& final(self).adjustment_interval == old(self).adjustment_interval
                },
            },
            old(self).details_consistent() ==> final(self).details_consistent(),
            details_exact(*old(self)) ==> details_exact(*final(self)),
            r is Ok ==> old(self).chain@.len() > 0 && block.index == old(self).chain@.len()
                && block.prev_hash@ == old(self).chain@.last().hash@,
    {
        match self.check_block(&block) {
            Err(e) => {
                return Err(e);
            },
            Ok(_) => {},
        }
        let mut details = self.address_details.duplicate();
        match update_metadata_delta(&mut details, &block) {
            Err(e) => {
                return Err(e);
            },
            Ok(_) => {},
        }
        let ghost old_chain = self.chain@;
        let ghost old_details = self.address_details@;
        proof {
            lemma_block_checks_mean(old_chain, block);
        }
        let ghost index = block.index;
        self.address_details = details;
        self.chain.push(block);
        proof {
            lemma_replay_push(Map::empty(), old_chain, self.chain@.last());
            assert(self.chain@ == old_chain.push(self.chain@.last()));
            lemma_details_exact_push(old_chain, old_details, self.chain@.last());
            if index % self.adjustment_interval == 0 && index < self.adjustment_interval {
                lemma_small_mod(index as nat, self.adjustment_interval as nat);
            }
        }
        self.adjust_difficulty();
        Ok(())
    }

    /// Rebuilds the address details by replaying every block of the chain on
    /// top of the details there are (see `detail_step`); on an error they
    /// are left as they were. From empty details this makes them agree with
    /// the chain.
    pub fn recover_state(&mut self) -> (r: Result<(), String>)
        ensures
            match replay_details(old(self).address_details@, old(self).chain@) {
                Err(e) => r is Err && r->Err_0@ == e && *final(self) == *old(self),
                Ok(d) => {
                    &&& r is Ok
                    &&& final(self).address_details@ == d
                    &&& final(self).chain == old(self).chain
                    &&& final(self).difficulty == old(self).difficulty
                    &&& final(self).target_block_time == old(self).target_block_time
                    &&& final(self).adjustment_interval == old(self).adjustment_interval
                },
            },
            old(self).address_details@ == Map::<Seq<char>, DetailView>::empty() && r is Ok
                ==> final(self).details_consistent(),
    {
        let ghost blocks = self.chain@;
        let ghost start = self.address_details@;
        let mut details = self.address_details.duplicate();
        let nb = self.chain.len();
        let mut i: usize = 0;
        while i < nb
            invariant
                nb == blocks.len(),
                blocks == self.chain@,
                start == self.address_details@,
                i <= nb,
                fold_blocks(start, blocks.subrange(0, i as int), detail_rule()) == Ok::<
                    Map<Seq<char>, DetailView>,
                    Seq<char>,
                >(details@),
            decreases nb - i,
        {
            proof {
                lemma_fold_blocks_prefix(start, blocks, detail_rule(), i as int);
            }
            match update_metadata_delta(&mut details, &self.chain[i]) {
                Err(e) => {
                    proof {
                        lemma_fold_blocks_err(start, blocks, detail_rule(), i + 1);
                    }
                    return Err(e);
                },
                Ok(_) => {},
            }
            i = i + 1;
        }
        proof {
            assert(blocks.subrange(0, nb as int) =~= blocks);
        }
        self.address_details = details;
        Ok(())
    }

    /// Whether the whole chain is valid (see `chain_validity`): the error of
    /// the first failed check, else of the balance replay, else of the
    /// transaction count replay.
    pub fn is_valid(&self) -> (r: Result<(), String>)
        ensures
            match r {
                Ok(_) => chain_validity(self.chain@) is Ok,
                Err(e) => chain_validity(self.chain@) == Err::<(), Seq<char>>(e@),
            },
    {
        let ghost blocks = self.chain@;
        let n = self.chain.len();
        let mut i: usize = 1;
        while i < n
            invariant
                n == blocks.len(),
                blocks == self.chain@,
                1 <= i,
                i <= n || n == 0,
                checks_upto(blocks, i as int) is Ok,
            decreases n - i,
        {
            match self.check_block_after(i, &self.chain[i]) {
                Err(e) => {
                    proof {
                        lemma_checks_err(blocks, i as int + 1);
                    }
                    return Err(e);
                },
                Ok(_) => {},
            }
            i = i + 1;
        }
        proof {
            if n > 0 {
                assert(i == n);
            }
        }
        match self.compute_balances() {
            Err(e) => {
                return Err(e);
            },
            Ok(_) => {},
        }
        match self.get_tx_count() {
            Err(e) => {
                return Err(e);
            },
            Ok(_) => {},
        }
        Ok(())
    }

    /// Splits `txs` into the transactions that may go into the next block
    /// and those that may not (see `filter_step`), simulating balances and
    /// counts from the chain's own, transaction by transaction.
    pub fn filter_valid_txs(&self, txs: Vec<Transaction>) -> (r: (Vec<Transaction>, Vec<Transaction>))
        requires
            chain_balances(self.chain@) is Ok,
            chain_counts(self.chain@) is Ok,
        ensures
            r.0@ == filter_result(self.chain@, txs@).valid,
            r.1@ == filter_result(self.chain@, txs@).invalid,
    {
        let mut balances = match self.compute_balances() {
            Ok(b) => b,
            Err(_) => AddressMap::new(),
        };
        let mut counts = match self.get_tx_count() {
            Ok(c) => c,
            Err(_) => AddressMap::new(),
        };
        let mut valid: Vec<Transaction> = Vec::new();
        let mut invalid: Vec<Transaction> = Vec::new();
        let ghost init = FilterState {
            balances: chain_balances(self.chain@)->Ok_0,
            counts: chain_counts(self.chain@)->Ok_0,
            valid: Seq::empty(),
            invalid: Seq::empty(),
        };
        let n = txs.len();
        let mut j: usize = 0;
        while j < n
            invariant
                n == txs@.len(),
                j <= n,
                filter_fold(init, txs@.subrange(0, j as int)) == (FilterState {
                    balances: balances@,
                    counts: counts@,
                    valid: valid@,
                    invalid: invalid@,
                }),
            decreases n - j,
        {
            proof {
                assert(txs@.subrange(0, j + 1).drop_last() =~= txs@.subrange(0, j as int));
            }
            let tx = &txs[j];
            if is_coinbase_address(&tx.sender) {
                let got = amount_of(&balances, &tx.receiver);
                match got.checked_add(tx.amount) {
                    Some(v) => {
                        balances.replace(&tx.receiver, v);
                        valid.push(tx.duplicate());
                    },
                    None => {
                        invalid.push(tx.duplicate());
                    },
                }
            } else {
                let have = amount_of(&balances, &tx.sender);
                let c = amount_of(&counts, &tx.sender);
                let affordable = match tx.amount.checked_add(tx.fee) {
                    Some(cost) => cost <= have,
                    None => false,
                };
                if affordable && c == tx.nonce && c < u64::MAX && tx.verify() {
                    let after = have - tx.amount - tx.fee;
                    let got = if tx.sender.eq(&tx.receiver) {
                        after
                    } else {
                        amount_of(&balances, &tx.receiver)
                    };
                    match got.checked_add(tx.amount) {
                        Some(v) => {
                            balances.replace(&tx.sender, after);
                            balances.replace(&tx.receiver, v);
                            counts.replace(&tx.sender, c + 1);
                            valid.push(tx.duplicate());
                        },
                        None => {
                            invalid.push(tx.duplicate());
                        },
                    }
                } else {
                    invalid.push(tx.duplicate());
                }
            }
            j = j + 1;
        }
        proof {
            assert(txs@.subrange(0, n as int) =~= txs@);
        }
        (valid, invalid)
    }

    /// Checks `block` as the block to follow the whole chain (see
    /// `check_block_spec`).
    fn check_block(&self, block: &Block) -> (r: Result<(), String>)
        ensures
            match r {
                Ok(_) => check_block_spec(self.chain@, *block) is Ok,
                Err(e) => check_block_spec(self.chain@, *block) == Err::<(), Seq<char>>(e@),
            },
    {
        proof {
            assert(self.chain@.subrange(0, self.chain@.len() as int) =~= self.chain@);
        }
        self.check_block_after(self.chain.len(), block)
    }

    /// Checks `block` as the block to follow the first `len` blocks of the
    /// chain (see `check_block_spec`).
    fn check_block_after(&self, len: usize, block: &Block) -> (r: Result<(), String>)
        requires
            len <= self.chain@.len(),
        ensures
            match r {
                Ok(_) => check_block_spec(self.chain@.subrange(0, len as int), *block) is Ok,
                Err(e) => check_block_spec(self.chain@.subrange(0, len as int), *block) == Err::<
                    (),
                    Seq<char>,
                >(e@),
            },
    {
        let ghost prev = self.chain@.subrange(0, len as int);
        let computed = block.calculate_hash();
        if !block.hash.eq(&computed) {
            return Err(block_message("\u{274c} \u{533a}\u{5757}", block.index, "\u{7684}\u{54c8}\u{5e0c}\u{4e0d}\u{5339}\u{914d}\u{ff0c}\u{88ab}\u{7be1}\u{6539}\u{ff01}"));
        }
        let root = compute_merkle_root(block.transactions.as_slice());
        if !block.merkle_root.eq(&root) {
            return Err(block_message("\u{274c} \u{533a}\u{5757}", block.index, "\u{7684}Merkle\u{6839}\u{4e0e}\u{4ea4}\u{6613}\u{4e0d}\u{5339}\u{914d}\u{ff0c}\u{4ea4}\u{6613}\u{88ab}\u{7be1}\u{6539}\u{ff01}"));
        }
        if len == 0 || block.index as usize != len
            || !block.prev_hash.eq(&self.chain[len - 1].hash) {
            return Err(block_message("\u{274c} \u{533a}\u{5757}", block.index, "\u{7684}\u{524d}\u{54c8}\u{5e0c}\u{4e0d}\u{5339}\u{914d}\u{ff0c}\u{94fe}\u{65ad}\u{88c2}\u{ff01}"));
        }
        if !leading_zeros(&block.hash, block.mined_difficulty) {
            return Err(block_message("\u{274c} \u{533a}\u{5757}", block.index, "\u{7684}\u{5de5}\u{4f5c}\u{91cf}\u{8bc1}\u{660e}\u{65e0}\u{6548}\u{ff01}"));
        }
        let txs = &block.transactions;
        if txs.len() == 0 || !is_coinbase_address(&txs[0].sender) {
            return Err(block_message("\u{274c} \u{533a}\u{5757}", block.index, "\u{7f3a}\u{5c11}\u{6216}\u{653e}\u{9519}\u{4e86}coinbase"));
        }
        let n = txs.len();
        let mut i: usize = 1;
        while i < n
            invariant
                n == txs@.len(),
                1 <= i <= n,
                txs == block.transactions,
                block.hash@ == hash_of(*block),
                len <= self.chain@.len(),
                prev == self.chain@.subrange(0, len as int),
                block.merkle_root@ == merkle_root(txs@),
                len > 0 && block.index == len && block.prev_hash@ == prev.last().hash@,
                has_leading_zeros(block.hash@, block.mined_difficulty as nat),
                txs@[0].sender@ == coinbase_addr(),
                forall|k: int| 1 <= k < i ==> txs@[k].sender@ != coinbase_addr(),
            decreases n - i,
        {
            if is_coinbase_address(&txs[i].sender) {
                assert(txs@[i as int].sender@ == coinbase_addr());
                return Err(block_message("\u{274c} \u{533a}\u{5757}", block.index, "\u{6709}\u{4e0d}\u{6b62}\u{4e00}\u{7b14}coinbase"));
            }
            i = i + 1;
        }
        let mut i: usize = 0;
        while i < n
            invariant
                n == txs@.len(),
                i <= n,
                txs == block.transactions,
                block.hash@ == hash_of(*block),
                len <= self.chain@.len(),
                prev == self.chain@.subrange(0, len as int),
                block.merkle_root@ == merkle_root(txs@),
                len > 0 && block.index == len && block.prev_hash@ == prev.last().hash@,
                has_leading_zeros(block.hash@, block.mined_difficulty as nat),
                txs@[0].sender@ == coinbase_addr(),
                forall|k: int| 1 <= k < n ==> txs@[k].sender@ != coinbase_addr(),
                forall|k: int| 0 <= k < i ==> signature_valid(txs@[k]@),
            decreases n - i,
        {
            if !txs[i].verify() {
                assert(!signature_valid(txs@[i as int]@));
                return Err(block_message("\u{274c} \u{533a}\u{5757}", block.index, "\u{5b58}\u{5728}\u{7b7e}\u{540d}\u{65e0}\u{6548}\u{7684}\u{4ea4}\u{6613}"));
            }
            i = i + 1;
        }
        Ok(())
    }
}

} // verus!
