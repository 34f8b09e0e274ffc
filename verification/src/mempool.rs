//! The pool of transactions waiting for a block, and the miner that packs
//! them into blocks.
use vstd::prelude::*;
use crate::block::{
    add_block_result, adjusted_difficulty, chain_validity, check_block_spec, checks_upto,
    filter_fold, filter_result, filter_step, hash_of, lemma_checks_push,
    lemma_filter_accepts_signed, nonce_meets, Block, Blockchain, FilterState,
};
use crate::ledger::value_or_zero;
use crate::ledger::{
    balance_rule, balance_step, chain_balances, chain_counts, count_rule, count_step, fold_blocks,
    fold_txs, lemma_fold_txs_prepend,
};
use crate::merkle::merkle_root;
use crate::transaction::{coinbase_addr, signature_valid, Transaction, TxView};
use crate::REWARD;

verus! {

/// Whether some transaction of `s` has the content `t`.
pub open spec fn contains_tx(s: Seq<Transaction>, t: TxView) -> bool {
    exists|i: int| 0 <= i < s.len() && (#[trigger] s[i])@ == t
}

/// No two transactions of `s` have the same content.
pub open spec fn distinct_txs(s: Seq<Transaction>) -> bool {
    forall|i: int, j: int| 0 <= i < j < s.len() ==> (#[trigger] s[i])@ != (#[trigger] s[j])@
}

/// The transactions of `s` whose content is not among `gone`, in order.
pub open spec fn without(s: Seq<Transaction>, gone: Seq<Transaction>) -> Seq<Transaction>
    decreases s.len(),
{
    if s.len() == 0 {
        s
    } else if contains_tx(gone, s.last()@) {
        without(s.drop_last(), gone)
    } else {
        without(s.drop_last(), gone).push(s.last())
    }
}

/// The position of the first transaction with the highest fee among the
/// first `n` of `s`.
pub open spec fn best_index(s: Seq<Transaction>, n: int) -> int
    decreases n,
{
    if n <= 1 {
        0
    } else {
        let b = best_index(s, n - 1);
        if s[n - 1].fee > s[b].fee {
            n - 1
        } else {
            b
        }
    }
}

/// The `k` transactions of `s` with the highest fees, highest first; of
/// equal fees the earlier comes first.
pub open spec fn pick_top(s: Seq<Transaction>, k: nat) -> Seq<Transaction>
    decreases k,
{
    if k == 0 || s.len() == 0 {
        Seq::empty()
    } else {
        let i = best_index(s, s.len() as int);
        seq![s[i]] + pick_top(s.remove(i), (k - 1) as nat)
    }
}

/// What `pick_top` leaves of `s`, in order.
pub open spec fn pick_rest(s: Seq<Transaction>, k: nat) -> Seq<Transaction>
    decreases k,
{
    if k == 0 || s.len() == 0 {
        s
    } else {
        let i = best_index(s, s.len() as int);
        pick_rest(s.remove(i), (k - 1) as nat)
    }
}

/// The sum of the fees of `s`.
pub open spec fn fee_total(s: Seq<Transaction>) -> int
    decreases s.len(),
{
    if s.len() == 0 {
        0
    } else {
        fee_total(s.drop_last()) + s.last().fee
    }
}

proof fn lemma_best_index(s: Seq<Transaction>, n: int)
    requires
        1 <= n <= s.len(),
    ensures
        0 <= best_index(s, n) < n,
        forall|j: int| 0 <= j < n ==> (#[trigger] s[j]).fee <= s[best_index(s, n)].fee,
    decreases n,
{
    if n > 1 {
        lemma_best_index(s, n - 1);
    }
}

proof fn lemma_pick_bound(s: Seq<Transaction>, k: nat, bound: u64)
    requires
        forall|j: int| 0 <= j < s.len() ==> s[j].fee <= bound,
    ensures
        forall|m: int| 0 <= m < pick_top(s, k).len() ==> pick_top(s, k)[m].fee <= bound,
        forall|m: int| 0 <= m < pick_rest(s, k).len() ==> pick_rest(s, k)[m].fee <= bound,
    decreases k,
{
    if k > 0 && s.len() > 0 {
        let i = best_index(s, s.len() as int);
        lemma_best_index(s, s.len() as int);
        let t = s.remove(i);
        assert forall|j: int| 0 <= j < t.len() implies t[j].fee <= bound by {
            if j < i {
                assert(t[j] == s[j]);
            } else {
                assert(t[j] == s[j + 1]);
            }
        }
        lemma_pick_bound(t, (k - 1) as nat, bound);
        let p = pick_top(t, (k - 1) as nat);
        let top = seq![s[i]] + p;
        assert(pick_top(s, k) == top);
        assert(pick_rest(s, k) == pick_rest(t, (k - 1) as nat));
        assert forall|m: int| 0 <= m < top.len() implies top[m].fee <= bound by {
            if m > 0 {
                assert(top[m] == p[m - 1]);
            }
        }
    }
}

/// What `pick_top` and `pick_rest` give: as many transactions as asked for
/// or as there are, highest fee first, all from `s`, together with the
/// rest exactly `s`, and none of the rest with a higher fee than a picked one.
pub proof fn lemma_pick_top(s: Seq<Transaction>, k: nat)
    ensures
        pick_top(s, k).len() == if k < s.len() {
            k as int
        } else {
            s.len() as int
        },
        forall|a: int, b: int|
            0 <= a < b < pick_top(s, k).len() ==> pick_top(s, k)[a].fee >= pick_top(s, k)[b].fee,
        s.to_multiset() =~= pick_top(s, k).to_multiset().add(pick_rest(s, k).to_multiset()),
        forall|a: int, b: int|
            0 <= a < pick_top(s, k).len() && 0 <= b < pick_rest(s, k).len() ==> pick_rest(
                s,
                k,
            )[b].fee <= pick_top(s, k)[a].fee,
    decreases k,
{
    broadcast use vstd::seq_lib::group_to_multiset_ensures;

    if k == 0 || s.len() == 0 {
        assert(pick_top(s, k) =~= Seq::<Transaction>::empty());
    } else {
        let i = best_index(s, s.len() as int);
        lemma_best_index(s, s.len() as int);
        let x = s[i];
        let t = s.remove(i);
        let p = pick_top(t, (k - 1) as nat);
        let r = pick_rest(t, (k - 1) as nat);
        lemma_pick_top(t, (k - 1) as nat);
        assert forall|j: int| 0 <= j < t.len() implies t[j].fee <= x.fee by {
            if j < i {
                assert(t[j] == s[j]);
            } else {
                assert(t[j] == s[j + 1]);
            }
        }
        lemma_pick_bound(t, (k - 1) as nat, x.fee);
        let top = seq![x] + p;
        assert(pick_top(s, k) == top);
        assert(forall|m: int| 0 < m < top.len() ==> top[m] == p[m - 1]);
        vstd::seq_lib::to_multiset_remove(s, i);
        assert(top =~= p.insert(0, x));
        vstd::seq_lib::to_multiset_insert(p, 0, x);
        assert(s.contains(x));
        assert(s.to_multiset().count(x) > 0);
        assert(t.to_multiset() =~= s.to_multiset().remove(x));
        assert(s.to_multiset() =~= t.to_multiset().insert(x));
        assert(top.to_multiset() =~= p.to_multiset().insert(x));
        assert(s.to_multiset() =~= top.to_multiset().add(r.to_multiset()));
    }
}

/// Transactions waiting to be mined; no content waits twice.
#[derive(Debug)]
pub struct MemeryPool {
    candidate: Vec<Transaction>,
}

impl MemeryPool {
    /// No transaction waits twice.
    #[verifier::type_invariant]
    closed spec fn wf(&self) -> bool {
        distinct_txs(self.candidate@)
    }

    /// The waiting transactions, in the order they came.
    pub closed spec fn view(&self) -> Seq<Transaction> {
        self.candidate@
    }

    /// An empty pool.
    pub fn new() -> (p: MemeryPool)
        ensures
            p@.len() == 0,
    {
        MemeryPool { candidate: Vec::new() }
    }

    /// The waiting transactions; no two have the same content.
    pub fn candidate(&self) -> (r: &Vec<Transaction>)
        ensures
            r@ == self@,
            distinct_txs(r@),
    {
        proof {
            use_type_invariant(self);
        }
        &self.candidate
    }

    /// A copy of the pool.
    pub fn duplicate(&self) -> (r: MemeryPool)
        ensures
            r@ == self@,
    {
        proof {
            use_type_invariant(self);
        }
        let mut v: Vec<Transaction> = Vec::new();
        let n = self.candidate.len();
        let mut i: usize = 0;
        while i < n
            invariant
                n == self.candidate@.len(),
                i <= n,
                v@ =~= self.candidate@.subrange(0, i as int),
            decreases n - i,
        {
            v.push(self.candidate[i].duplicate());
            i = i + 1;
        }
        proof {
            assert(v@ =~= self.candidate@);
        }
        MemeryPool { candidate: v }
    }

    /// Whether a transaction with the content of `tx` waits.
    fn holds(&self, tx: &Transaction) -> (r: bool)
        ensures
            r == contains_tx(self@, tx@),
    {
        let n = self.candidate.len();
        let mut i: usize = 0;
        while i < n
            invariant
                n == self.candidate@.len(),
                i <= n,
                forall|j: int| 0 <= j < i ==> self.candidate@[j]@ != tx@,
            decreases n - i,
        {
            if self.candidate[i].same_as(tx) {
                return true;
            }
            i = i + 1;
        }
        false
    }

    /// Lets `tx` wait, unless a transaction with its content already does.
    pub fn push(&mut self, tx: Transaction)
        ensures
            final(self)@ == if contains_tx(old(self)@, tx@) {
                old(self)@
            } else {
                old(self)@.push(tx)
            },
    {
        proof {
            use_type_invariant(&*self);
        }
        if !self.holds(&tx) {
            let ghost before = self.candidate@;
            let mut v: Vec<Transaction> = Vec::new();
            std::mem::swap(&mut v, &mut self.candidate);
            v.push(tx);
            proof {
                assert forall|i: int, j: int| 0 <= i < j < v@.len() implies (#[trigger] v@[i])@
                    != (#[trigger] v@[j])@ by {
                    if j == before.len() {
                        assert(v@[i] == before[i]);
                    } else {
                        assert(v@[i] == before[i] && v@[j] == before[j]);
                    }
                }
            }
            self.candidate = v;
        }
    }

    /// Adds `tx` if its signature is valid (a transaction already waiting is
    /// not added again); else refuses it with "Invalid Transaction".
    pub fn submit(&mut self, tx: Transaction) -> (r: Result<(), String>)
        ensures
            signature_valid(tx@) ==> r is Ok && final(self)@ == if contains_tx(old(self)@, tx@) {
                old(self)@
            } else {
                old(self)@.push(tx)
            },
            !signature_valid(tx@) ==> r is Err && r->Err_0@ == "Invalid Transaction"@
                && final(self)@ == old(self)@,
    {
        if tx.verify() {
            self.push(tx);
            Ok(())
        } else {
            Err("Invalid Transaction".to_owned())
        }
    }

    /// Position of the first transaction with the highest fee in `v`.
    fn best(v: &Vec<Transaction>) -> (r: usize)
        requires
            v@.len() > 0,
        ensures
            r == best_index(v@, v@.len() as int),
    {
        let n = v.len();
        let mut b: usize = 0;
        let mut i: usize = 1;
        while i < n
            invariant
                n == v@.len(),
                1 <= i <= n,
                0 <= b < i,
                b == best_index(v@, i as int),
            decreases n - i,
        {
            if v[i].fee > v[b].fee {
                b = i;
            }
            i = i + 1;
        }
        b
    }

    /// The `count` waiting transactions with the highest fees, highest first
    /// (see `pick_top`); the pool itself is not changed.
    pub fn select(&self, count: usize) -> (r: Vec<Transaction>)
        ensures
            r@ == pick_top(self@, count as nat),
            r@.len() == if count < self@.len() {
                count as int
            } else {
                self@.len() as int
            },
            distinct_txs(r@),
            forall|a: int, b: int| 0 <= a < b < r@.len() ==> r@[a].fee >= r@[b].fee,
            self@.to_multiset() =~= r@.to_multiset().add(pick_rest(self@, count as nat).to_multiset()),
            forall|t: Transaction, a: int|
                #![trigger self@.contains(t), r@[a]]
                self@.contains(t) && !r@.contains(t) && 0 <= a < r@.len() ==> t.fee <= r@[a].fee,
            forall|a: int, b: int|
                0 <= a < r@.len() && 0 <= b < pick_rest(self@, count as nat).len() ==> pick_rest(
                    self@,
                    count as nat,
                )[b].fee <= r@[a].fee,
    {
        proof {
            use_type_invariant(self);
        }
        let mut rest: Vec<Transaction> = Vec::new();
        let n = self.candidate.len();
        let mut i: usize = 0;
        while i < n
            invariant
                n == self.candidate@.len(),
                i <= n,
                rest@ =~= self.candidate@.subrange(0, i as int),
            decreases n - i,
        {
            rest.push(self.candidate[i].duplicate());
            i = i + 1;
        }
        let mut out: Vec<Transaction> = Vec::new();
        proof {
            assert(self.candidate@.subrange(0, n as int) =~= self.candidate@);
            assert(out@ + pick_top(rest@, count as nat) =~= pick_top(rest@, count as nat));
        }
        let mut k: usize = 0;
        while k < count && rest.len() > 0
            invariant
                k <= count,
                out@ + pick_top(rest@, (count - k) as nat) =~= pick_top(
                    self.candidate@,
                    count as nat,
                ),
            decreases count - k,
        {
            let b = MemeryPool::best(&rest);
            proof {
                lemma_best_index(rest@, rest@.len() as int);
            }
            let ghost before = rest@;
            let t = rest.remove(b);
            proof {
                assert(rest@ == before.remove(b as int));
                assert(pick_top(before, (count - k) as nat) == seq![t] + pick_top(
                    rest@,
                    (count - k - 1) as nat,
                ));
            }
            out.push(t);
            k = k + 1;
        }
        proof {
            lemma_pick_top(self.candidate@, count as nat);
            lemma_pick_distinct(self.candidate@, count as nat);
            lemma_unpicked(self.candidate@, count as nat);
        }
        out
    }

    /// Drops from the pool every transaction with the content of one of
    /// `txs`.
    pub fn remove(&mut self, txs: &[Transaction])
        ensures
            final(self)@ == without(old(self)@, txs@),
            forall|i: int|
                0 <= i < final(self)@.len() ==> !contains_tx(txs@, (#[trigger] final(self)@[i])@),
            forall|i: int|
                0 <= i < old(self)@.len() && !contains_tx(txs@, old(self)@[i]@) ==> contains_tx(
                    final(self)@,
                    (#[trigger] old(self)@[i])@,
                ),
    {
        proof {
            use_type_invariant(&*self);
        }
        let mut kept: Vec<Transaction> = Vec::new();
        let ghost old_candidate = self.candidate@;
        let n = self.candidate.len();
        let mut i: usize = 0;
        while i < n
            invariant
                n == self.candidate@.len(),
                old_candidate == self.candidate@,
                i <= n,
                kept@ == without(self.candidate@.subrange(0, i as int), txs@),
            decreases n - i,
        {
            proof {
                assert(self.candidate@.subrange(0, i + 1).drop_last() =~= self.candidate@.subrange(
                    0,
                    i as int,
                ));
            }
            let tx = &self.candidate[i];
            let m = txs.len();
            let mut listed = false;
            let mut j: usize = 0;
            while j < m
                invariant
                    m == txs@.len(),
                    j <= m,
                    listed == exists|q: int| 0 <= q < j && (#[trigger] txs@[q])@ == tx@,
                decreases m - j,
            {
                if txs[j].same_as(tx) {
                    listed = true;
                }
                j = j + 1;
            }
            if !listed {
                kept.push(tx.duplicate());
            }
            i = i + 1;
        }
        proof {
            assert(self.candidate@.subrange(0, n as int) =~= self.candidate@);
        }
        proof {
            lemma_without_gone(old_candidate, txs@);
            lemma_without_keeps(old_candidate, txs@);
            lemma_without_distinct(old_candidate, txs@);
        }
        self.candidate = kept;
    }
}

proof fn lemma_pick_contained(s: Seq<Transaction>, k: nat)
    ensures
        forall|j: int| 0 <= j < pick_top(s, k).len() ==> s.contains(#[trigger] pick_top(s, k)[j]),
{
    broadcast use vstd::seq_lib::group_to_multiset_ensures;

    lemma_pick_top(s, k);
    let p = pick_top(s, k);
    assert forall|j: int| 0 <= j < p.len() implies s.contains(#[trigger] p[j]) by {
        assert(p.contains(p[j]));
        assert(p.to_multiset().count(p[j]) > 0);
        assert(s.to_multiset().count(p[j]) > 0);
    }
}

/// Picking from transactions that are all distinct gives distinct ones.
proof fn lemma_pick_distinct(s: Seq<Transaction>, k: nat)
    requires
        distinct_txs(s),
    ensures
        distinct_txs(pick_top(s, k)),
    decreases k,
{
    if k > 0 && s.len() > 0 {
        let i = best_index(s, s.len() as int);
        lemma_best_index(s, s.len() as int);
        let t = s.remove(i);
        assert(distinct_txs(t)) by {
            assert forall|a: int, b: int| 0 <= a < b < t.len() implies (#[trigger] t[a])@
                != (#[trigger] t[b])@ by {
                let a2 = if a < i { a } else { a + 1 };
                let b2 = if b < i { b } else { b + 1 };
                assert(t[a] == s[a2] && t[b] == s[b2]);
            }
        }
        lemma_pick_distinct(t, (k - 1) as nat);
        lemma_pick_contained(t, (k - 1) as nat);
        let p = pick_top(t, (k - 1) as nat);
        let top = seq![s[i]] + p;
        assert(pick_top(s, k) == top);
        assert forall|a: int, b: int| 0 <= a < b < top.len() implies (#[trigger] top[a])@
            != (#[trigger] top[b])@ by {
            assert(top[b] == p[b - 1]);
            if a == 0 {
                assert(t.contains(p[b - 1]));
                let q = choose|q: int| 0 <= q < t.len() && t[q] == p[b - 1];
                let q2 = if q < i { q } else { q + 1 };
                assert(t[q] == s[q2]);
            } else {
                assert(top[a] == p[a - 1]);
            }
        }
    }
}

/// A transaction of `s` that is not picked has no higher fee than any that is.
proof fn lemma_unpicked(s: Seq<Transaction>, k: nat)
    ensures
        forall|t: Transaction, a: int|
            #![trigger s.contains(t), pick_top(s, k)[a]]
            s.contains(t) && !pick_top(s, k).contains(t) && 0 <= a < pick_top(s, k).len() ==> t.fee
                <= pick_top(s, k)[a].fee,
{
    broadcast use vstd::seq_lib::group_to_multiset_ensures;

    lemma_pick_top(s, k);
    let p = pick_top(s, k);
    let r = pick_rest(s, k);
    assert forall|t: Transaction, a: int|
        #![trigger s.contains(t), p[a]]
        s.contains(t) && !p.contains(t) && 0 <= a < p.len() implies t.fee <= p[a].fee by {
        assert(s.to_multiset().count(t) > 0);
        assert(p.to_multiset().count(t) == 0);
        assert(r.to_multiset().count(t) > 0);
        assert(r.contains(t));
        let q = choose|q: int| 0 <= q < r.len() && r[q] == t;
        assert(r[q].fee <= p[a].fee);
    }
}

proof fn lemma_fee_prefix(s: Seq<Transaction>, i: int)
    requires
        0 <= i < s.len(),
    ensures
        fee_total(s.subrange(0, i + 1)) == fee_total(s.subrange(0, i)) + s[i].fee,
{
    assert(s.subrange(0, i + 1).drop_last() =~= s.subrange(0, i));
}

proof fn lemma_fee_mono(s: Seq<Transaction>, j: int)
    requires
        0 <= j <= s.len(),
    ensures
        fee_total(s.subrange(0, j)) <= fee_total(s),
    decreases s.len() - j,
{
    if j == s.len() {
        assert(s.subrange(0, j) =~= s);
    } else {
        lemma_fee_prefix(s, j);
        lemma_fee_mono(s, j + 1);
    }
}

/// Whether `t` is the reward transaction that pays `amount` to `addr`.
pub open spec fn is_reward(t: TxView, addr: Seq<char>, amount: int) -> bool {
    &&& t.sender == coinbase_addr()
    &&& t.receiver == addr
    &&& t.amount == amount
    &&& t.signature == Seq::<char>::empty()
    &&& t.fee == 0
    &&& t.nonce == 0
}

/// The transfers a miner packs into the next block of `chain` from its
/// pool `pool`: of the ten highest-fee waiting transactions, those that
/// pass the filter against the chain (see `filter_step`), in order.
pub open spec fn kept_txs(chain: Seq<Block>, pool: Seq<Transaction>) -> Seq<Transaction> {
    filter_result(chain, pick_top(pool, 10)).valid
}

/// Whether `b` is a block that a miner at `addr` with pool `pool` builds on
/// `chain` at `difficulty`: numbered one past the latest block and naming
/// its hash; first the reward for the block (block reward plus the fees of
/// the transfers in it), then the kept transfers; its Merkle root that of
/// its transactions; mined at `difficulty` with the first nonce that meets
/// it, or at nonce `u64::MAX` where none does.
pub open spec fn is_assembled(
    addr: Seq<char>,
    pool: Seq<Transaction>,
    chain: Seq<Block>,
    difficulty: usize,
    b: Block,
) -> bool {
    let kept = kept_txs(chain, pool);
    &&& b.index == chain.last().index + 1
    &&& b.prev_hash == chain.last().hash
    &&& b.transactions@.len() == kept.len() + 1
    &&& is_reward(b.transactions@[0]@, addr, REWARD + fee_total(kept))
    &&& b.transactions@.drop_first() == kept
    &&& b.merkle_root@ == merkle_root(b.transactions@)
    &&& b.mined_difficulty == difficulty
    &&& b.hash@ == hash_of(b)
    &&& forall|n: u64| n < b.nonce ==> !nonce_meets(b, n, difficulty as nat)
    &&& nonce_meets(b, b.nonce, difficulty as nat) || b.nonce == u64::MAX
}

/// Whether a miner with pool `pool` can build a block on `chain` at its
/// difficulty: the chain has a block and room for one more number, the
/// difficulty fits a hash, balances and counts replay, and the block reward
/// plus the fees of the ten highest-fee waiting transactions fits a `u64`.
pub open spec fn can_assemble(pool: Seq<Transaction>, chain: Blockchain) -> bool {
    &&& chain.chain@.len() > 0
    &&& chain.chain@.last().index < u32::MAX
    &&& chain.difficulty <= 64
    &&& chain_balances(chain.chain@) is Ok
    &&& chain_counts(chain.chain@) is Ok
    &&& fee_total(pick_top(pool, 10)) <= u64::MAX - REWARD
}

/// Filtering keeps no more fees than it is handed.
proof fn lemma_filter_fees(st: FilterState, txs: Seq<Transaction>)
    ensures
        fee_total(filter_fold(st, txs).valid) <= fee_total(st.valid) + fee_total(txs),
    decreases txs.len(),
{
    if txs.len() > 0 {
        lemma_filter_fees(st, txs.drop_last());
        let mid = filter_fold(st, txs.drop_last());
        let fin = filter_step(mid, txs.last());
        if fin.valid.len() > mid.valid.len() {
            assert(fin.valid == mid.valid.push(txs.last()));
            assert(fin.valid.drop_last() =~= mid.valid);
        } else {
            assert(fin.valid == mid.valid);
        }
    }
}

/// The sum of the fees of `txs`, or `None` where it passes `u64::MAX`.
fn sum_fees(txs: &Vec<Transaction>) -> (r: Option<u64>)
    ensures
        match r {
            Some(v) => v == fee_total(txs@),
            None => fee_total(txs@) > u64::MAX,
        },
{
    let mut fees: u64 = 0;
    let n = txs.len();
    let mut i: usize = 0;
    while i < n
        invariant
            n == txs@.len(),
            i <= n,
            fees == fee_total(txs@.subrange(0, i as int)),
        decreases n - i,
    {
        proof {
            lemma_fee_prefix(txs@, i as int);
        }
        match fees.checked_add(txs[i].fee) {
            Some(v) => {
                fees = v;
            },
            None => {
                proof {
                    lemma_fee_mono(txs@, i + 1);
                }
                return None;
            },
        }
        i = i + 1;
    }
    proof {
        assert(txs@.subrange(0, n as int) =~= txs@);
    }
    Some(fees)
}

/// A miner: the address its rewards go to, and its pool of waiting transactions.
#[derive(Debug)]
pub struct Miner {
    pub address: String,
    pub pool: MemeryPool,
}

impl Miner {
    /// Builds and mines the next block of `chain` (see `is_assembled`): the
    /// reward (block reward plus the fees of the transfers in the block),
    /// then those of the ten highest-fee waiting transactions that pass the
    /// filter against the chain, on top of the latest block, mined at the
    /// chain's difficulty. Where the chain's blocks are numbered by their
    /// places, no waiting transaction comes from the coinbase address and a
    /// nonce was found, the block passes the checks to join the chain.
    pub fn assemble_block(&self, chain: &Blockchain) -> (b: Block)
        requires
            can_assemble(self.pool@, *chain),
        ensures
            is_assembled(self.address@, self.pool@, chain.chain@, chain.difficulty, b),
            ({
                &&& chain.chain@.last().index == chain.chain@.len() - 1
                &&& forall|j: int|
                    0 <= j < self.pool@.len() ==> (#[trigger] self.pool@[j]).sender@
                        != coinbase_addr()
                &&& nonce_meets(b, b.nonce, chain.difficulty as nat)
            }) ==> check_block_spec(chain.chain@, b) is Ok,
    {
        let sel = self.pool.select(10);
        let prev = chain.latest_block();
        let ghost init = FilterState {
            balances: chain_balances(chain.chain@)->Ok_0,
            counts: chain_counts(chain.chain@)->Ok_0,
            valid: Seq::empty(),
            invalid: Seq::empty(),
        };
        let (mut kept, _) = chain.filter_valid_txs(sel);
        let ghost kept_seq = kept@;
        proof {
            lemma_filter_fees(init, sel@);
            assert(fee_total(Seq::<Transaction>::empty()) == 0);
        }
        let fees = match sum_fees(&kept) {
            Some(v) => v,
            None => 0,
        };
        let coinbase = Transaction::new_coinbase(self.address.as_str(), fees);
        let mut all: Vec<Transaction> = Vec::new();
        all.push(coinbase);
        all.append(&mut kept);
        proof {
            assert(all@.drop_first() =~= kept_seq);
        }
        let mut block = Block::new(prev.index + 1, all, prev.hash.clone());
        let ghost unmined = block;
        block.mine_block(chain.difficulty);
        proof {
            assert forall|n: u64| #[trigger] nonce_meets(block, n, chain.difficulty as nat) == nonce_meets(
                unmined,
                n,
                chain.difficulty as nat,
            ) by {}
            if chain.chain@.last().index == chain.chain@.len() - 1 && (forall|j: int|
                0 <= j < self.pool@.len() ==> (#[trigger] self.pool@[j]).sender@ != coinbase_addr())
                && nonce_meets(block, block.nonce, chain.difficulty as nat) {
                lemma_assembled_block_passes(self, chain, block);
            }
        }
        block
    }

    /// One round of mining on `chain`: with transactions waiting and a
    /// block that can be built (see `can_assemble`), builds and mines it
    /// (see `assemble_block`) and offers it to the chain (see `add_block`);
    /// once it joins, its transfers leave the pool. With nothing waiting,
    /// or no block to build, nothing happens and the answer is `None`.
    pub fn mine_step(&mut self, chain: &mut Blockchain) -> (r: Option<Result<(), String>>)
        requires
            old(chain).chain@.len() > 0,
        ensures
            r is None <==> old(self).pool@.len() == 0 || !can_assemble(old(self).pool@, *old(chain)),
            r is None ==> *final(chain) == *old(chain) && final(self).pool@ == old(self).pool@,
            final(self).address == old(self).address,
            old(chain).details_consistent() ==> final(chain).details_consistent(),
            r is Some ==> exists|b: Block|
                {
                    &&& is_assembled(
                        old(self).address@,
                        old(self).pool@,
                        old(chain).chain@,
                        old(chain).difficulty,
                        b,
                    )
                    &&& match add_block_result(*old(chain), b) {
                        Err(e) => {
                            &&& r matches Some(Err(msg)) && msg@ == e
                            &&& *final(chain) == *old(chain)
                            &&& final(self).pool@ == old(self).pool@
                        },
                        Ok(d) => {
                            &&& r matches Some(Ok(_))
                            &&& final(chain).chain@ == old(chain).chain@.push(b)
                            &&& final(chain).address_details@ == d
                            &&& final(chain).difficulty == adjusted_difficulty(
                                final(chain).chain@,
                                old(chain).difficulty,
                                old(chain).target_block_time,
                                old(chain).adjustment_interval,
                            )
                            &&& final(chain).target_block_time == old(chain).target_block_time
                            &&& final(chain).adjustment_interval == old(chain).adjustment_interval
                            &&& final(self).pool@ == without(old(self).pool@, b.transactions@.drop_first())
                        },
                    }
                },
    {
        if self.pool.candidate().len() == 0 {
            return None;
        }
        let n = chain.chain.len();
        if chain.chain[n - 1].index == u32::MAX || chain.difficulty > 64 {
            return None;
        }
        match chain.compute_balances() {
            Ok(_) => {},
            Err(_) => {
                return None;
            },
        }
        match chain.get_tx_count() {
            Ok(_) => {},
            Err(_) => {
                return None;
            },
        }
        let top = self.pool.select(10);
        match sum_fees(&top) {
            Some(v) => {
                if v > u64::MAX - REWARD {
                    return None;
                }
            },
            None => {
                return None;
            },
        }
        let block = self.assemble_block(chain);
        let ghost b = block;
        let mut mined: Vec<Transaction> = Vec::new();
        let m = block.transactions.len();
        let mut i: usize = 1;
        while i < m
            invariant
                m == block.transactions@.len(),
                1 <= i <= m,
                mined@ =~= block.transactions@.subrange(1, i as int),
            decreases m - i,
        {
            mined.push(block.transactions[i].duplicate());
            i = i + 1;
        }
        proof {
            assert(mined@ =~= b.transactions@.drop_first());
        }
        match chain.add_block(block) {
            Ok(_) => {
                self.pool.remove(mined.as_slice());
                Some(Ok(()))
            },
            Err(e) => Some(Err(e)),
        }
    }
}

proof fn lemma_pick_from_pool(s: Seq<Transaction>, k: nat)
    requires
        forall|j: int| 0 <= j < s.len() ==> (#[trigger] s[j]).sender@ != coinbase_addr(),
    ensures
        forall|j: int|
            0 <= j < pick_top(s, k).len() ==> (#[trigger] pick_top(s, k)[j]).sender@ != coinbase_addr(),
{
    lemma_pick_contained(s, k);
    let p = pick_top(s, k);
    assert forall|j: int| 0 <= j < p.len() implies (#[trigger] p[j]).sender@ != coinbase_addr() by {
        assert(s.contains(p[j]));
    }
}

proof fn lemma_assembled_block_passes(m: &Miner, chain: &Blockchain, b: Block)
    requires
        can_assemble(m.pool@, *chain),
        is_assembled(m.address@, m.pool@, chain.chain@, chain.difficulty, b),
        chain.chain@.last().index == chain.chain@.len() - 1,
        forall|j: int| 0 <= j < m.pool@.len() ==> (#[trigger] m.pool@[j]).sender@ != coinbase_addr(),
        nonce_meets(b, b.nonce, chain.difficulty as nat),
    ensures
        check_block_spec(chain.chain@, b) is Ok,
{
    let sel = pick_top(m.pool@, 10);
    let init = FilterState {
        balances: chain_balances(chain.chain@)->Ok_0,
        counts: chain_counts(chain.chain@)->Ok_0,
        valid: Seq::empty(),
        invalid: Seq::empty(),
    };
    lemma_pick_from_pool(m.pool@, 10);
    lemma_filter_accepts_signed(init, sel);
    let txs = b.transactions@;
    let kept = kept_txs(chain.chain@, m.pool@);
    assert(txs.len() >= 1);
    assert forall|i: int| 1 <= i < txs.len() implies (#[trigger] txs[i]).sender@ != coinbase_addr()
        && signature_valid(txs[i]@) by {
        assert(txs[i] == txs.drop_first()[i - 1]);
        assert(txs[i] == kept[i - 1]);
    }
    assert forall|i: int| 0 <= i < txs.len() implies signature_valid((#[trigger] txs[i])@) by {
        if i == 0 {
            assert(txs[0].sender@ == coinbase_addr());
        }
    }
}

/// The filter's starting state against `chain`.
pub open spec fn filter_start(chain: Seq<Block>) -> FilterState {
    FilterState {
        balances: chain_balances(chain)->Ok_0,
        counts: chain_counts(chain)->Ok_0,
        valid: Seq::empty(),
        invalid: Seq::empty(),
    }
}

/// Whether the balance of the miner at `addr`, as the filter follows it
/// through the ten highest-fee waiting transactions, stays within
/// `u64::MAX` with the block's reward added at every step.
pub open spec fn reward_fits(addr: Seq<char>, pool: Seq<Transaction>, chain: Seq<Block>) -> bool {
    let sel = pick_top(pool, 10);
    let reward = REWARD + fee_total(kept_txs(chain, pool));
    forall|n: int|
        0 <= n <= sel.len() ==> #[trigger] value_or_zero(
            filter_fold(filter_start(chain), sel.subrange(0, n)).balances,
            addr,
        ) + reward <= u64::MAX
}

proof fn lemma_replay_kept(
    st0: FilterState,
    sel: Seq<Transaction>,
    n: int,
    b0: Map<Seq<char>, u64>,
    c0: Map<Seq<char>, u64>,
    addr: Seq<char>,
    delta: int,
    idx: u32,
)
    requires
        0 <= n <= sel.len(),
        delta >= 0,
        st0.valid.len() == 0,
        forall|j: int| 0 <= j < sel.len() ==> (#[trigger] sel[j]).sender@ != coinbase_addr(),
        forall|a: Seq<char>|
            #[trigger] value_or_zero(b0, a) == value_or_zero(st0.balances, a) + if a == addr {
                delta
            } else {
                0
            },
        forall|a: Seq<char>|
            a != coinbase_addr() ==> #[trigger] value_or_zero(c0, a) == value_or_zero(st0.counts, a),
        forall|m: int|
            0 <= m <= n ==> #[trigger] value_or_zero(filter_fold(st0, sel.subrange(0, m)).balances, addr)
                + delta <= u64::MAX,
    ensures
        ({
            let st = filter_fold(st0, sel.subrange(0, n));
            &&& fold_txs(b0, st.valid, idx, balance_rule()) is Ok
            &&& forall|a: Seq<char>|
                #[trigger] value_or_zero(fold_txs(b0, st.valid, idx, balance_rule())->Ok_0, a)
                    == value_or_zero(st.balances, a) + if a == addr {
                    delta
                } else {
                    0
                }
            &&& fold_txs(c0, st.valid, idx, count_rule()) is Ok
            &&& forall|a: Seq<char>|
                a != coinbase_addr() ==> #[trigger] value_or_zero(
                    fold_txs(c0, st.valid, idx, count_rule())->Ok_0,
                    a,
                ) == value_or_zero(st.counts, a)
        }),
    decreases n,
{
    if n == 0 {
        assert(sel.subrange(0, 0) =~= Seq::<Transaction>::empty());
    } else {
        lemma_replay_kept(st0, sel, n - 1, b0, c0, addr, delta, idx);
        assert(sel.subrange(0, n).drop_last() =~= sel.subrange(0, n - 1));
        let st = filter_fold(st0, sel.subrange(0, n - 1));
        let t = sel[n - 1];
        assert(sel.subrange(0, n).last() == t);
        let st2 = filter_step(st, t);
        assert(filter_fold(st0, sel.subrange(0, n)) == st2);
        assert(t.sender@ != coinbase_addr());
        if st2.valid.len() > st.valid.len() {
            assert(st2.valid == st.valid.push(t));
            assert(st2.valid.drop_last() =~= st.valid);
            let r = fold_txs(b0, st.valid, idx, balance_rule())->Ok_0;
            let q = fold_txs(c0, st.valid, idx, count_rule())->Ok_0;
            assert(value_or_zero(filter_fold(st0, sel.subrange(0, n)).balances, addr) + delta
                <= u64::MAX);
            let have = value_or_zero(st.balances, t.sender@);
            assert(value_or_zero(r, t.sender@) >= have);
            let b1 = st.balances.insert(t.sender@, (have - t.amount - t.fee) as u64);
            let m1 = r.insert(t.sender@, (value_or_zero(r, t.sender@) - t.amount - t.fee) as u64);
            assert forall|a: Seq<char>| #[trigger] value_or_zero(m1, a) == value_or_zero(b1, a) + if a
                == addr {
                delta
            } else {
                0
            } by {
                assert(value_or_zero(r, a) == value_or_zero(st.balances, a) + if a == addr {
                    delta
                } else {
                    0
                });
                assert(value_or_zero(r, t.sender@) == have + if t.sender@ == addr {
                    delta
                } else {
                    0
                });
            }
            let got = value_or_zero(b1, t.receiver@);
            assert(value_or_zero(st2.balances, t.receiver@) == got + t.amount);
            let r2 = m1.insert(t.receiver@, (value_or_zero(m1, t.receiver@) + t.amount) as u64);
            assert(balance_step(r, t, idx) == Ok::<Map<Seq<char>, u64>, Seq<char>>(r2));
            assert forall|a: Seq<char>| #[trigger] value_or_zero(r2, a) == value_or_zero(
                st2.balances,
                a,
            ) + if a == addr {
                delta
            } else {
                0
            } by {
                assert(value_or_zero(m1, a) == value_or_zero(b1, a) + if a == addr {
                    delta
                } else {
                    0
                });
                assert(value_or_zero(m1, t.receiver@) == got + if t.receiver@ == addr {
                    delta
                } else {
                    0
                });
            }
            assert(value_or_zero(q, t.sender@) == value_or_zero(st.counts, t.sender@));
            assert(count_step(q, t, idx) is Ok);
            let q2 = count_step(q, t, idx)->Ok_0;
            assert forall|a: Seq<char>| a != coinbase_addr() implies #[trigger] value_or_zero(q2, a)
                == value_or_zero(st2.counts, a) by {
                assert(value_or_zero(q, a) == value_or_zero(st.counts, a));
            }
        } else {
            assert(st2.valid == st.valid);
            assert(st2.balances == st.balances && st2.counts == st.counts);
        }
    }
}

/// A block that a miner builds on a valid chain keeps it valid: where the
/// chain's blocks are numbered by their places, no waiting transaction comes
/// from the coinbase address, the miner's balance stays within `u64::MAX`
/// with the reward added (see `reward_fits`) and a nonce was found, the
/// chain with the block added is valid.
pub proof fn lemma_assembled_block_keeps_chain_valid(m: Miner, chain: Blockchain, b: Block)
    requires
        chain_validity(chain.chain@) is Ok,
        can_assemble(m.pool@, chain),
        is_assembled(m.address@, m.pool@, chain.chain@, chain.difficulty, b),
        chain.chain@.last().index == chain.chain@.len() - 1,
        forall|j: int| 0 <= j < m.pool@.len() ==> (#[trigger] m.pool@[j]).sender@ != coinbase_addr(),
        reward_fits(m.address@, m.pool@, chain.chain@),
        nonce_meets(b, b.nonce, chain.difficulty as nat),
    ensures
        chain_validity(chain.chain@.push(b)) is Ok,
{
    let blocks = chain.chain@;
    let addr = m.address@;
    let pool = m.pool@;
    let sel = pick_top(pool, 10);
    let kept = kept_txs(blocks, pool);
    let delta = REWARD + fee_total(kept);
    let st0 = filter_start(blocks);
    let all = blocks.push(b);
    lemma_assembled_block_passes(&m, &chain, b);
    lemma_checks_push(blocks, b, blocks.len() as int);
    assert(all.subrange(0, blocks.len() as int) =~= blocks);
    assert(all.drop_last() =~= blocks);
    assert(checks_upto(all, all.len() as int) is Ok);
    lemma_pick_from_pool(pool, 10);
    let txs = b.transactions@;
    let cb = txs[0];
    assert(txs =~= seq![cb] + kept);
    assert(sel.subrange(0, sel.len() as int) =~= sel);
    assert(filter_fold(st0, sel.subrange(0, 0)) == st0) by {
        assert(sel.subrange(0, 0) =~= Seq::<Transaction>::empty());
    }
    assert(value_or_zero(filter_fold(st0, sel.subrange(0, 0)).balances, addr) + delta <= u64::MAX);
    // the reward comes first
    let bal = chain_balances(blocks)->Ok_0;
    let cnt = chain_counts(blocks)->Ok_0;
    assert(balance_step(bal, cb, b.index) is Ok);
    let b0 = balance_step(bal, cb, b.index)->Ok_0;
    assert forall|a: Seq<char>| #[trigger] value_or_zero(b0, a) == value_or_zero(st0.balances, a)
        + if a == addr {
        delta
    } else {
        0
    } by {}
    assert(count_step(cnt, cb, b.index) is Ok);
    let c0 = count_step(cnt, cb, b.index)->Ok_0;
    assert forall|a: Seq<char>| a != coinbase_addr() implies #[trigger] value_or_zero(c0, a)
        == value_or_zero(st0.counts, a) by {}
    assert forall|mm: int| 0 <= mm <= sel.len() implies #[trigger] value_or_zero(
        filter_fold(st0, sel.subrange(0, mm)).balances,
        addr,
    ) + delta <= u64::MAX by {}
    lemma_replay_kept(st0, sel, sel.len() as int, b0, c0, addr, delta, b.index);
    lemma_fold_txs_prepend(bal, cb, kept, b.index, balance_rule());
    lemma_fold_txs_prepend(cnt, cb, kept, b.index, count_rule());
    assert(fold_blocks(Map::empty(), all, balance_rule()) == fold_txs(bal, txs, b.index, balance_rule()));
    assert(fold_blocks(Map::empty(), all, count_rule()) == fold_txs(cnt, txs, b.index, count_rule()));
}

proof fn lemma_without_sub(s: Seq<Transaction>, gone: Seq<Transaction>)
    ensures
        forall|m: int|
            0 <= m < without(s, gone).len() ==> contains_tx(s, (#[trigger] without(s, gone)[m])@),
    decreases s.len(),
{
    if s.len() > 0 {
        lemma_without_sub(s.drop_last(), gone);
        let w = without(s.drop_last(), gone);
        assert forall|m: int| 0 <= m < w.len() implies contains_tx(s, (#[trigger] w[m])@) by {
            let q = choose|q: int| 0 <= q < s.drop_last().len() && s.drop_last()[q]@ == w[m]@;
            assert(s[q] == s.drop_last()[q]);
        }
        if !contains_tx(gone, s.last()@) {
            let w2 = w.push(s.last());
            assert forall|m: int| 0 <= m < w2.len() implies contains_tx(s, (#[trigger] w2[m])@) by {
                if m < w.len() {
                    assert(w2[m] == w[m]);
                } else {
                    assert(s[s.len() - 1]@ == w2[m]@);
                }
            }
        }
    }
}

proof fn lemma_without_gone(s: Seq<Transaction>, gone: Seq<Transaction>)
    ensures
        forall|m: int|
            0 <= m < without(s, gone).len() ==> !contains_tx(gone, (#[trigger] without(s, gone)[m])@),
    decreases s.len(),
{
    if s.len() > 0 {
        lemma_without_gone(s.drop_last(), gone);
        let w = without(s.drop_last(), gone);
        if !contains_tx(gone, s.last()@) {
            let w2 = w.push(s.last());
            assert forall|m: int| 0 <= m < w2.len() implies !contains_tx(gone, (#[trigger] w2[m])@) by {
                if m < w.len() {
                    assert(w2[m] == w[m]);
                }
            }
        }
    }
}

proof fn lemma_without_keeps(s: Seq<Transaction>, gone: Seq<Transaction>)
    ensures
        forall|i: int|
            0 <= i < s.len() && !contains_tx(gone, s[i]@) ==> contains_tx(
                without(s, gone),
                (#[trigger] s[i])@,
            ),
    decreases s.len(),
{
    if s.len() > 0 {
        let d = s.drop_last();
        lemma_without_keeps(d, gone);
        let w = without(d, gone);
        assert forall|i: int| 0 <= i < s.len() && !contains_tx(gone, s[i]@) implies contains_tx(
            without(s, gone),
            (#[trigger] s[i])@,
        ) by {
            if i < s.len() - 1 {
                assert(s[i] == d[i]);
                let q = choose|q: int| 0 <= q < w.len() && w[q]@ == d[i]@;
                if !contains_tx(gone, s.last()@) {
                    assert(w.push(s.last())[q] == w[q]);
                }
            } else {
                let w2 = w.push(s.last());
                assert(w2[w.len() as int] == s.last());
            }
        }
    }
}

/// Removing transactions from a list keeps exactly the others: every
/// transaction left was in the list and is none of the removed ones, and
/// every transaction of the list that is none of the removed ones is left.
pub proof fn lemma_without_means(s: Seq<Transaction>, gone: Seq<Transaction>)
    ensures
        forall|i: int|
            0 <= i < without(s, gone).len() ==> contains_tx(s, (#[trigger] without(s, gone)[i])@)
                && !contains_tx(gone, without(s, gone)[i]@),
        forall|i: int|
            0 <= i < s.len() && !contains_tx(gone, s[i]@) ==> contains_tx(
                without(s, gone),
                (#[trigger] s[i])@,
            ),
{
    lemma_without_sub(s, gone);
    lemma_without_gone(s, gone);
    lemma_without_keeps(s, gone);
}

proof fn lemma_without_distinct(s: Seq<Transaction>, gone: Seq<Transaction>)
    requires
        distinct_txs(s),
    ensures
        distinct_txs(without(s, gone)),
    decreases s.len(),
{
    if s.len() > 0 {
        let d = s.drop_last();
        assert(distinct_txs(d)) by {
            assert forall|i: int, j: int| 0 <= i < j < d.len() implies (#[trigger] d[i])@ != (#[trigger] d[j])@ by {
                assert(d[i] == s[i] && d[j] == s[j]);
            }
        }
        lemma_without_distinct(d, gone);
        lemma_without_sub(d, gone);
        let w = without(d, gone);
        if !contains_tx(gone, s.last()@) {
            let w2 = w.push(s.last());
            assert forall|i: int, j: int| 0 <= i < j < w2.len() implies (#[trigger] w2[i])@ != (#[trigger] w2[j])@ by {
                if j == w.len() {
                    assert(w2[i] == w[i]);
                    assert(contains_tx(d, w[i]@));
                    let q = choose|q: int| 0 <= q < d.len() && d[q]@ == w[i]@;
                    assert(s[q] == d[q]);
                } else {
                    assert(w2[i] == w[i] && w2[j] == w[j]);
                }
            }
        }
    }
}

} // verus!
