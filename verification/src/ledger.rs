//! Account state replayed from the transactions of a chain: balances,
//! transaction counts and per-address details, and how they relate.
use vstd::prelude::*;
use crate::address_map::AddressMap;
use crate::block::{AddressDetail, Block, DetailView};
use crate::encoding::{decimal, decimal_string};
use crate::transaction::{coinbase_addr, is_coinbase_address, Transaction};

verus! {

/// One step of a replay over transactions: the new state or an error text.
pub type Step<S> = spec_fn(S, Transaction, u32) -> Result<S, Seq<char>>;

/// Replays `txs` of the block numbered `block` from `s`; the first error stops it.
pub open spec fn fold_txs<S>(s: S, txs: Seq<Transaction>, block: u32, step: Step<S>) -> Result<
    S,
    Seq<char>,
>
    decreases txs.len(),
{
    if txs.len() == 0 {
        Ok(s)
    } else {
        match fold_txs(s, txs.drop_last(), block, step) {
            Ok(t) => step(t, txs.last(), block),
            Err(e) => Err(e),
        }
    }
}

/// Replays every transaction of `blocks`, block by block, from `s`.
pub open spec fn fold_blocks<S>(s: S, blocks: Seq<Block>, step: Step<S>) -> Result<S, Seq<char>>
    decreases blocks.len(),
{
    if blocks.len() == 0 {
        Ok(s)
    } else {
        match fold_blocks(s, blocks.drop_last(), step) {
            Ok(t) => fold_txs(t, blocks.last().transactions@, blocks.last().index, step),
            Err(e) => Err(e),
        }
    }
}

/// Replaying one more transaction is one more step.
pub proof fn lemma_fold_txs_prefix<S>(s: S, txs: Seq<Transaction>, block: u32, step: Step<S>, j: int)
    requires
        0 <= j < txs.len(),
    ensures
        fold_txs(s, txs.subrange(0, j + 1), block, step) == match fold_txs(
            s,
            txs.subrange(0, j),
            block,
            step,
        ) {
            Ok(t) => step(t, txs[j], block),
            Err(e) => Err(e),
        },
{
    assert(txs.subrange(0, j + 1).drop_last() =~= txs.subrange(0, j));
}

/// An error in a prefix of the transactions is the error of the whole replay.
pub proof fn lemma_fold_txs_err<S>(s: S, txs: Seq<Transaction>, block: u32, step: Step<S>, j: int)
    requires
        0 <= j <= txs.len(),
        fold_txs(s, txs.subrange(0, j), block, step) is Err,
    ensures
        fold_txs(s, txs, block, step) == fold_txs(s, txs.subrange(0, j), block, step),
    decreases txs.len() - j,
{
    if j < txs.len() {
        lemma_fold_txs_prefix(s, txs, block, step, j);
        lemma_fold_txs_err(s, txs, block, step, j + 1);
    } else {
        assert(txs.subrange(0, j) =~= txs);
    }
}

/// Replaying a transaction and then others is one step, then the rest.
pub proof fn lemma_fold_txs_prepend<S>(s: S, x: Transaction, rest: Seq<Transaction>, block: u32, step: Step<S>)
    ensures
        fold_txs(s, seq![x] + rest, block, step) == match step(s, x, block) {
            Ok(t) => fold_txs(t, rest, block, step),
            Err(e) => Err(e),
        },
    decreases rest.len(),
{
    let whole = seq![x] + rest;
    if rest.len() == 0 {
        assert(whole.drop_last() =~= Seq::<Transaction>::empty());
        assert(whole.last() == x);
    } else {
        assert(whole.drop_last() =~= seq![x] + rest.drop_last());
        assert(whole.last() == rest.last());
        lemma_fold_txs_prepend(s, x, rest.drop_last(), block, step);
    }
}

/// Replaying one more block is replaying its transactions.
pub proof fn lemma_fold_blocks_prefix<S>(s: S, blocks: Seq<Block>, step: Step<S>, i: int)
    requires
        0 <= i < blocks.len(),
    ensures
        fold_blocks(s, blocks.subrange(0, i + 1), step) == match fold_blocks(
            s,
            blocks.subrange(0, i),
            step,
        ) {
            Ok(t) => fold_txs(t, blocks[i].transactions@, blocks[i].index, step),
            Err(e) => Err(e),
        },
{
    assert(blocks.subrange(0, i + 1).drop_last() =~= blocks.subrange(0, i));
}

/// An error in a prefix of the blocks is the error of the whole replay.
pub proof fn lemma_fold_blocks_err<S>(s: S, blocks: Seq<Block>, step: Step<S>, i: int)
    requires
        0 <= i <= blocks.len(),
        fold_blocks(s, blocks.subrange(0, i), step) is Err,
    ensures
        fold_blocks(s, blocks, step) == fold_blocks(s, blocks.subrange(0, i), step),
    decreases blocks.len() - i,
{
    if i < blocks.len() {
        lemma_fold_blocks_prefix(s, blocks, step, i);
        lemma_fold_blocks_err(s, blocks, step, i + 1);
    } else {
        assert(blocks.subrange(0, i) =~= blocks);
    }
}

/// The value of `k` in `m`, or zero.
pub open spec fn value_or_zero(m: Map<Seq<char>, u64>, k: Seq<char>) -> u64 {
    if m.contains_key(k) {
        m[k]
    } else {
        0
    }
}

/// "<sender>'s balance underflowed at Block #<n>, tx: <signature>"
pub open spec fn underflow_msg(who: Seq<char>, block: u32, sig: Seq<char>) -> Seq<char> {
    who + "'s balance underflowed at Block #"@ + decimal(block as nat) + ", tx: "@ + sig
}

/// "<receiver>'s balance overflowed at Block #<n>, tx: <signature>"
pub open spec fn overflow_msg(who: Seq<char>, block: u32, sig: Seq<char>) -> Seq<char> {
    who + "'s balance overflowed at Block #"@ + decimal(block as nat) + ", tx: "@ + sig
}

/// "Sender <sender> has Multiple nonce <nonce> at Block #<n> tx: <signature>"
pub open spec fn nonce_msg(who: Seq<char>, nonce: u64, block: u32, sig: Seq<char>) -> Seq<char> {
    "Sender "@ + who + " has Multiple nonce "@ + decimal(nonce as nat) + " at Block #"@ + decimal(
        block as nat,
    ) + " tx: "@ + sig
}

/// A transfer's effect on balances: a sender other than the coinbase pays
/// amount and fee, and the receiver gains the amount. A sender that cannot
/// pay, or a receiver whose balance would pass `u64::MAX`, is an error.
pub open spec fn balance_step(m: Map<Seq<char>, u64>, t: Transaction, block: u32) -> Result<
    Map<Seq<char>, u64>,
    Seq<char>,
> {
    let have = value_or_zero(m, t.sender@);
    if t.sender@ != coinbase_addr() && have < t.amount + t.fee {
        Err(underflow_msg(t.sender@, block, t.signature@))
    } else {
        let m1 = if t.sender@ != coinbase_addr() {
            m.insert(t.sender@, (have - t.amount - t.fee) as u64)
        } else {
            m
        };
        let got = value_or_zero(m1, t.receiver@);
        if got + t.amount > u64::MAX {
            Err(overflow_msg(t.receiver@, block, t.signature@))
        } else {
            Ok(m1.insert(t.receiver@, (got + t.amount) as u64))
        }
    }
}

/// A transfer's effect on transaction counts: a transaction whose nonce is
/// the sender's count so far raises the count; another one is an error,
/// unless it comes from the coinbase, which is then skipped.
pub open spec fn count_step(m: Map<Seq<char>, u64>, t: Transaction, block: u32) -> Result<
    Map<Seq<char>, u64>,
    Seq<char>,
> {
    let c = value_or_zero(m, t.sender@);
    if c == t.nonce && c < u64::MAX {
        Ok(m.insert(t.sender@, (c + 1) as u64))
    } else if c == t.nonce || t.sender@ != coinbase_addr() {
        Err(nonce_msg(t.sender@, t.nonce, block, t.signature@))
    } else {
        Ok(m)
    }
}

/// The replay rule for balances.
pub open spec fn balance_rule() -> Step<Map<Seq<char>, u64>> {
    |m: Map<Seq<char>, u64>, t: Transaction, b: u32| balance_step(m, t, b)
}

/// The replay rule for transaction counts.
pub open spec fn count_rule() -> Step<Map<Seq<char>, u64>> {
    |m: Map<Seq<char>, u64>, t: Transaction, b: u32| count_step(m, t, b)
}

/// The balance of every address that the transactions of `blocks` touch.
pub open spec fn chain_balances(blocks: Seq<Block>) -> Result<Map<Seq<char>, u64>, Seq<char>> {
    fold_blocks(Map::empty(), blocks, balance_rule())
}

/// How many transactions each sender has made, in nonce order, on `blocks`.
pub open spec fn chain_counts(blocks: Seq<Block>) -> Result<Map<Seq<char>, u64>, Seq<char>> {
    fold_blocks(Map::empty(), blocks, count_rule())
}

/// `chain_balances` unfolded.
pub proof fn lemma_chain_balances_def(blocks: Seq<Block>)
    ensures
        chain_balances(blocks) == fold_blocks(Map::<Seq<char>, u64>::empty(), blocks, balance_rule()),
{
}

/// `chain_counts` unfolded.
pub proof fn lemma_chain_counts_def(blocks: Seq<Block>)
    ensures
        chain_counts(blocks) == fold_blocks(Map::<Seq<char>, u64>::empty(), blocks, count_rule()),
{
}

/// The detail of `k` in `d`, or the empty detail.
pub open spec fn detail_or_default(d: Map<Seq<char>, DetailView>, k: Seq<char>) -> DetailView {
    if d.contains_key(k) {
        d[k]
    } else {
        DetailView { balance: 0, nonce: 0, txs: Seq::empty() }
    }
}

/// A transfer's effect on address details: a sender other than the coinbase
/// pays amount and fee, counts one more transaction and records it; the
/// receiver gains the amount and records it. What `balance_step` refuses,
/// and a sender count that would pass `u64::MAX`, is an error.
pub open spec fn detail_step(d: Map<Seq<char>, DetailView>, t: Transaction, block: u32) -> Result<
    Map<Seq<char>, DetailView>,
    Seq<char>,
> {
    let s = detail_or_default(d, t.sender@);
    if t.sender@ != coinbase_addr() && s.balance < t.amount + t.fee {
        Err(underflow_msg(t.sender@, block, t.signature@))
    } else if t.sender@ != coinbase_addr() && s.nonce == u64::MAX {
        Err(nonce_msg(t.sender@, t.nonce, block, t.signature@))
    } else {
        let d1 = if t.sender@ != coinbase_addr() {
            d.insert(
                t.sender@,
                DetailView {
                    balance: (s.balance - t.amount - t.fee) as u64,
                    nonce: (s.nonce + 1) as u64,
                    txs: s.txs.push(t),
                },
            )
        } else {
            d
        };
        let r = detail_or_default(d1, t.receiver@);
        if r.balance + t.amount > u64::MAX {
            Err(overflow_msg(t.receiver@, block, t.signature@))
        } else {
            Ok(
                d1.insert(
                    t.receiver@,
                    DetailView {
                        balance: (r.balance + t.amount) as u64,
                        nonce: r.nonce,
                        txs: r.txs.push(t),
                    },
                ),
            )
        }
    }
}

/// The replay rule for address details.
pub open spec fn detail_rule() -> Step<Map<Seq<char>, DetailView>> {
    |d: Map<Seq<char>, DetailView>, t: Transaction, b: u32| detail_step(d, t, b)
}

/// The address details that replaying `blocks` on top of `d` gives.
pub open spec fn replay_details(d: Map<Seq<char>, DetailView>, blocks: Seq<Block>) -> Result<
    Map<Seq<char>, DetailView>,
    Seq<char>,
> {
    fold_blocks(d, blocks, detail_rule())
}

/// Replaying a chain with one more block is replaying that block on the rest.
pub proof fn lemma_replay_push(d: Map<Seq<char>, DetailView>, blocks: Seq<Block>, b: Block)
    ensures
        replay_details(d, blocks.push(b)) == match replay_details(d, blocks) {
            Ok(t) => fold_txs(t, b.transactions@, b.index, detail_rule()),
            Err(e) => Err(e),
        },
{
    assert(blocks.push(b).drop_last() =~= blocks);
}

/// The balances held in address details.
pub open spec fn balances_of(d: Map<Seq<char>, DetailView>) -> Map<Seq<char>, u64> {
    Map::new(|k: Seq<char>| d.contains_key(k), |k: Seq<char>| d[k].balance)
}

proof fn lemma_detail_step_balances(d: Map<Seq<char>, DetailView>, t: Transaction, block: u32)
    requires
        detail_step(d, t, block) is Ok,
    ensures
        balance_step(balances_of(d), t, block) == Ok::<Map<Seq<char>, u64>, Seq<char>>(
            balances_of(detail_step(d, t, block)->Ok_0),
        ),
{
    let m = balances_of(d);
    let s = detail_or_default(d, t.sender@);
    assert(value_or_zero(m, t.sender@) == s.balance);
    let d1 = if t.sender@ != coinbase_addr() {
        d.insert(
            t.sender@,
            DetailView {
                balance: (s.balance - t.amount - t.fee) as u64,
                nonce: (s.nonce + 1) as u64,
                txs: s.txs.push(t),
            },
        )
    } else {
        d
    };
    let m1 = if t.sender@ != coinbase_addr() {
        m.insert(t.sender@, (s.balance - t.amount - t.fee) as u64)
    } else {
        m
    };
    assert(balances_of(d1) =~= m1);
    let r = detail_or_default(d1, t.receiver@);
    assert(value_or_zero(m1, t.receiver@) == r.balance);
    let d2 = d1.insert(
        t.receiver@,
        DetailView { balance: (r.balance + t.amount) as u64, nonce: r.nonce, txs: r.txs.push(t) },
    );
    assert(balances_of(d2) =~= m1.insert(t.receiver@, (r.balance + t.amount) as u64));
}

pub proof fn lemma_detail_txs_balances(
    d: Map<Seq<char>, DetailView>,
    txs: Seq<Transaction>,
    block: u32,
)
    requires
        fold_txs(d, txs, block, detail_rule()) is Ok,
    ensures
        fold_txs(balances_of(d), txs, block, balance_rule()) == Ok::<
            Map<Seq<char>, u64>,
            Seq<char>,
        >(balances_of(fold_txs(d, txs, block, detail_rule())->Ok_0)),
    decreases txs.len(),
{
    if txs.len() > 0 {
        lemma_detail_txs_balances(d, txs.drop_last(), block);
        let prev = fold_txs(d, txs.drop_last(), block, detail_rule())->Ok_0;
        lemma_detail_step_balances(prev, txs.last(), block);
    }
}

/// Replaying details and replaying balances agree: where the details replay
/// succeeds, the balance replay from the same balances succeeds too and
/// gives the balances of the details.
pub proof fn lemma_details_agree_with_balances(d: Map<Seq<char>, DetailView>, blocks: Seq<Block>)
    requires
        replay_details(d, blocks) is Ok,
    ensures
        fold_blocks(balances_of(d), blocks, balance_rule()) == Ok::<
            Map<Seq<char>, u64>,
            Seq<char>,
        >(balances_of(replay_details(d, blocks)->Ok_0)),
    decreases blocks.len(),
{
    if blocks.len() > 0 {
        lemma_details_agree_with_balances(d, blocks.drop_last());
        let prev = replay_details(d, blocks.drop_last())->Ok_0;
        lemma_detail_txs_balances(prev, blocks.last().transactions@, blocks.last().index);
    }
}

/// Whether the counts `c` and the details `d` agree on every address but
/// the coinbase: the count is the detail's nonce.
pub open spec fn counts_match(c: Map<Seq<char>, u64>, d: Map<Seq<char>, DetailView>) -> bool {
    forall|a: Seq<char>|
        a != coinbase_addr() ==> #[trigger] value_or_zero(c, a) == detail_or_default(d, a).nonce
}

proof fn lemma_steps_keep_counts_match(
    c: Map<Seq<char>, u64>,
    d: Map<Seq<char>, DetailView>,
    t: Transaction,
    block: u32,
)
    requires
        counts_match(c, d),
        count_step(c, t, block) is Ok,
        detail_step(d, t, block) is Ok,
    ensures
        counts_match(count_step(c, t, block)->Ok_0, detail_step(d, t, block)->Ok_0),
{
    let c2 = count_step(c, t, block)->Ok_0;
    let d2 = detail_step(d, t, block)->Ok_0;
    assert forall|a: Seq<char>| a != coinbase_addr() implies #[trigger] value_or_zero(c2, a)
        == detail_or_default(d2, a).nonce by {
        assert(value_or_zero(c, a) == detail_or_default(d, a).nonce);
        if t.sender@ != coinbase_addr() {
            assert(value_or_zero(c, t.sender@) == detail_or_default(d, t.sender@).nonce);
        }
    }
}

proof fn lemma_txs_keep_counts_match(
    c: Map<Seq<char>, u64>,
    d: Map<Seq<char>, DetailView>,
    txs: Seq<Transaction>,
    block: u32,
)
    requires
        counts_match(c, d),
        fold_txs(c, txs, block, count_rule()) is Ok,
        fold_txs(d, txs, block, detail_rule()) is Ok,
    ensures
        counts_match(
            fold_txs(c, txs, block, count_rule())->Ok_0,
            fold_txs(d, txs, block, detail_rule())->Ok_0,
        ),
    decreases txs.len(),
{
    if txs.len() > 0 {
        lemma_txs_keep_counts_match(c, d, txs.drop_last(), block);
        lemma_steps_keep_counts_match(
            fold_txs(c, txs.drop_last(), block, count_rule())->Ok_0,
            fold_txs(d, txs.drop_last(), block, detail_rule())->Ok_0,
            txs.last(),
            block,
        );
    }
}

/// Replaying counts and replaying details agree: where both succeed from
/// counts and details that agree on every address but the coinbase, they
/// still agree afterwards.
pub proof fn lemma_details_agree_with_counts(
    c: Map<Seq<char>, u64>,
    d: Map<Seq<char>, DetailView>,
    blocks: Seq<Block>,
)
    requires
        counts_match(c, d),
        fold_blocks(c, blocks, count_rule()) is Ok,
        replay_details(d, blocks) is Ok,
    ensures
        counts_match(fold_blocks(c, blocks, count_rule())->Ok_0, replay_details(d, blocks)->Ok_0),
    decreases blocks.len(),
{
    if blocks.len() > 0 {
        lemma_details_agree_with_counts(c, d, blocks.drop_last());
        lemma_txs_keep_counts_match(
            fold_blocks(c, blocks.drop_last(), count_rule())->Ok_0,
            replay_details(d, blocks.drop_last())->Ok_0,
            blocks.last().transactions@,
            blocks.last().index,
        );
    }
}

proof fn lemma_count_txs_grow(c: Map<Seq<char>, u64>, txs: Seq<Transaction>, block: u32)
    requires
        fold_txs(c, txs, block, count_rule()) is Ok,
    ensures
        forall|a: Seq<char>|
            #[trigger] value_or_zero(fold_txs(c, txs, block, count_rule())->Ok_0, a) >= value_or_zero(
                c,
                a,
            ),
    decreases txs.len(),
{
    if txs.len() > 0 {
        lemma_count_txs_grow(c, txs.drop_last(), block);
        let p = fold_txs(c, txs.drop_last(), block, count_rule())->Ok_0;
        let q = fold_txs(c, txs, block, count_rule())->Ok_0;
        assert forall|a: Seq<char>| #[trigger] value_or_zero(q, a) >= value_or_zero(c, a) by {
            assert(value_or_zero(p, a) >= value_or_zero(c, a));
        }
    }
}

proof fn lemma_count_blocks_grow(c: Map<Seq<char>, u64>, blocks: Seq<Block>)
    requires
        fold_blocks(c, blocks, count_rule()) is Ok,
    ensures
        forall|a: Seq<char>|
            #[trigger] value_or_zero(fold_blocks(c, blocks, count_rule())->Ok_0, a) >= value_or_zero(
                c,
                a,
            ),
    decreases blocks.len(),
{
    if blocks.len() > 0 {
        lemma_count_blocks_grow(c, blocks.drop_last());
        let p = fold_blocks(c, blocks.drop_last(), count_rule())->Ok_0;
        lemma_count_txs_grow(p, blocks.last().transactions@, blocks.last().index);
        let q = fold_blocks(c, blocks, count_rule())->Ok_0;
        assert forall|a: Seq<char>| #[trigger] value_or_zero(q, a) >= value_or_zero(c, a) by {
            assert(value_or_zero(p, a) >= value_or_zero(c, a));
        }
    }
}

proof fn lemma_count_txs_pass(c: Map<Seq<char>, u64>, txs: Seq<Transaction>, block: u32, j: int)
    requires
        fold_txs(c, txs, block, count_rule()) is Ok,
        0 <= j < txs.len(),
        txs[j].sender@ != coinbase_addr(),
    ensures
        value_or_zero(fold_txs(c, txs, block, count_rule())->Ok_0, txs[j].sender@) > txs[j].nonce,
    decreases txs.len(),
{
    let a = txs[j].sender@;
    let p = fold_txs(c, txs.drop_last(), block, count_rule())->Ok_0;
    if j < txs.len() - 1 {
        assert(txs.drop_last()[j] == txs[j]);
        lemma_count_txs_pass(c, txs.drop_last(), block, j);
        assert(value_or_zero(count_step(p, txs.last(), block)->Ok_0, a) >= value_or_zero(p, a));
    }
}

proof fn lemma_count_blocks_pass(c: Map<Seq<char>, u64>, blocks: Seq<Block>, i: int, j: int)
    requires
        fold_blocks(c, blocks, count_rule()) is Ok,
        0 <= i < blocks.len(),
        0 <= j < blocks[i].transactions@.len(),
        blocks[i].transactions@[j].sender@ != coinbase_addr(),
    ensures
        value_or_zero(
            fold_blocks(c, blocks, count_rule())->Ok_0,
            blocks[i].transactions@[j].sender@,
        ) > blocks[i].transactions@[j].nonce,
    decreases blocks.len(),
{
    let t = blocks[i].transactions@[j];
    let p = fold_blocks(c, blocks.drop_last(), count_rule())->Ok_0;
    if i == blocks.len() - 1 {
        lemma_count_txs_pass(p, blocks.last().transactions@, blocks.last().index, j);
    } else {
        assert(blocks.drop_last()[i] == blocks[i]);
        lemma_count_blocks_pass(c, blocks.drop_last(), i, j);
        lemma_count_txs_grow(p, blocks.last().transactions@, blocks.last().index);
        assert(value_or_zero(fold_blocks(c, blocks, count_rule())->Ok_0, t.sender@) >= value_or_zero(
            p,
            t.sender@,
        ));
    }
}

/// A transfer already on a chain cannot be replayed: where the chain's
/// transaction counts replay, a further block that carries a transfer from
/// the same sender with the same nonce makes the counts fail.
pub proof fn lemma_replayed_transfer_refused(chain: Seq<Block>, b: Block, i: int, j: int, k: int)
    requires
        chain_counts(chain) is Ok,
        0 <= i < chain.len(),
        0 <= j < chain[i].transactions@.len(),
        chain[i].transactions@[j].sender@ != coinbase_addr(),
        0 <= k < b.transactions@.len(),
        b.transactions@[k].sender@ == chain[i].transactions@[j].sender@,
        b.transactions@[k].nonce == chain[i].transactions@[j].nonce,
    ensures
        chain_counts(chain.push(b)) is Err,
{
    let t = chain[i].transactions@[j];
    let c = chain_counts(chain)->Ok_0;
    lemma_count_blocks_pass(Map::empty(), chain, i, j);
    assert(chain.push(b).drop_last() =~= chain);
    let txs = b.transactions@;
    match fold_txs(c, txs.subrange(0, k), b.index, count_rule()) {
        Ok(p) => {
            lemma_count_txs_grow(c, txs.subrange(0, k), b.index);
            assert(value_or_zero(p, t.sender@) >= value_or_zero(c, t.sender@));
            lemma_fold_txs_prefix(c, txs, b.index, count_rule(), k);
            lemma_fold_txs_err(c, txs, b.index, count_rule(), k + 1);
        },
        Err(_) => {
            lemma_fold_txs_err(c, txs, b.index, count_rule(), k);
        },
    }
}

/// The sum of the values of `m` at the keys of `keys`.
pub open spec fn total_over(m: Map<Seq<char>, u64>, keys: Set<Seq<char>>) -> int
    decreases keys.len(),
    when keys.finite()
{
    if keys.len() == 0 {
        0
    } else {
        let k = keys.choose();
        value_or_zero(m, k) + total_over(m, keys.remove(k))
    }
}

/// The sum of all balances of `m`.
pub open spec fn total(m: Map<Seq<char>, u64>) -> int {
    total_over(m, m.dom())
}

/// What one transaction adds to the coins there are: a coinbase
/// transaction its amount; any other takes its fee out.
pub open spec fn tx_supply(t: Transaction) -> int {
    if t.sender@ == coinbase_addr() {
        t.amount as int
    } else {
        -t.fee
    }
}

/// What the transactions `txs` add to the coins there are.
pub open spec fn txs_supply(txs: Seq<Transaction>) -> int
    decreases txs.len(),
{
    if txs.len() == 0 {
        0
    } else {
        txs_supply(txs.drop_last()) + tx_supply(txs.last())
    }
}

/// What the transactions of `blocks` add to the coins there are: coinbase
/// amounts less the fees of the transfers.
pub open spec fn blocks_supply(blocks: Seq<Block>) -> int
    decreases blocks.len(),
{
    if blocks.len() == 0 {
        0
    } else {
        blocks_supply(blocks.drop_last()) + txs_supply(blocks.last().transactions@)
    }
}

proof fn lemma_total_remove(m: Map<Seq<char>, u64>, keys: Set<Seq<char>>, k: Seq<char>)
    requires
        keys.finite(),
        keys.contains(k),
    ensures
        total_over(m, keys) == value_or_zero(m, k) + total_over(m, keys.remove(k)),
    decreases keys.len(),
{
    let c = keys.choose();
    if c != k {
        lemma_total_remove(m, keys.remove(c), k);
        lemma_total_remove(m, keys.remove(k), c);
        assert(keys.remove(c).remove(k) =~= keys.remove(k).remove(c));
    }
}

proof fn lemma_total_agree(m1: Map<Seq<char>, u64>, m2: Map<Seq<char>, u64>, keys: Set<Seq<char>>)
    requires
        keys.finite(),
        forall|k: Seq<char>| keys.contains(k) ==> value_or_zero(m1, k) == value_or_zero(m2, k),
    ensures
        total_over(m1, keys) == total_over(m2, keys),
    decreases keys.len(),
{
    if keys.len() > 0 {
        let c = keys.choose();
        lemma_total_agree(m1, m2, keys.remove(c));
    }
}

proof fn lemma_total_insert(m: Map<Seq<char>, u64>, k: Seq<char>, v: u64)
    requires
        m.dom().finite(),
    ensures
        m.insert(k, v).dom().finite(),
        total(m.insert(k, v)) == total(m) - value_or_zero(m, k) + v,
{
    let m2 = m.insert(k, v);
    let d2 = m2.dom();
    assert(d2 =~= m.dom().insert(k));
    lemma_total_remove(m2, d2, k);
    lemma_total_agree(m2, m, d2.remove(k));
    if m.dom().contains(k) {
        lemma_total_remove(m, m.dom(), k);
        assert(d2.remove(k) =~= m.dom().remove(k));
    } else {
        assert(d2.remove(k) =~= m.dom());
    }
}

proof fn lemma_balance_step_total(m: Map<Seq<char>, u64>, t: Transaction, block: u32)
    requires
        m.dom().finite(),
        balance_step(m, t, block) is Ok,
    ensures
        balance_step(m, t, block)->Ok_0.dom().finite(),
        total(balance_step(m, t, block)->Ok_0) == total(m) + tx_supply(t),
{
    let have = value_or_zero(m, t.sender@);
    let m1 = if t.sender@ != coinbase_addr() {
        m.insert(t.sender@, (have - t.amount - t.fee) as u64)
    } else {
        m
    };
    if t.sender@ != coinbase_addr() {
        lemma_total_insert(m, t.sender@, (have - t.amount - t.fee) as u64);
    }
    let got = value_or_zero(m1, t.receiver@);
    lemma_total_insert(m1, t.receiver@, (got + t.amount) as u64);
}

proof fn lemma_txs_total(m: Map<Seq<char>, u64>, txs: Seq<Transaction>, block: u32)
    requires
        m.dom().finite(),
        fold_txs(m, txs, block, balance_rule()) is Ok,
    ensures
        fold_txs(m, txs, block, balance_rule())->Ok_0.dom().finite(),
        total(fold_txs(m, txs, block, balance_rule())->Ok_0) == total(m) + txs_supply(txs),
    decreases txs.len(),
{
    if txs.len() > 0 {
        lemma_txs_total(m, txs.drop_last(), block);
        lemma_balance_step_total(
            fold_txs(m, txs.drop_last(), block, balance_rule())->Ok_0,
            txs.last(),
            block,
        );
    }
}

proof fn lemma_blocks_total(blocks: Seq<Block>)
    requires
        chain_balances(blocks) is Ok,
    ensures
        chain_balances(blocks)->Ok_0.dom().finite(),
        total(chain_balances(blocks)->Ok_0) == blocks_supply(blocks),
    decreases blocks.len(),
{
    if blocks.len() == 0 {
        assert(Map::<Seq<char>, u64>::empty().dom() =~= Set::<Seq<char>>::empty());
    } else {
        lemma_blocks_total(blocks.drop_last());
        lemma_txs_total(
            chain_balances(blocks.drop_last())->Ok_0,
            blocks.last().transactions@,
            blocks.last().index,
        );
    }
}

/// Coins are conserved: where the balances of a chain replay, they add up
/// to the amounts of its coinbase transactions less the fees of its other
/// transactions.
pub proof fn lemma_balances_conserve_supply(blocks: Seq<Block>)
    requires
        chain_balances(blocks) is Ok,
    ensures
        total(chain_balances(blocks)->Ok_0) == blocks_supply(blocks),
{
    lemma_blocks_total(blocks);
}

/// What a transaction does to balances, in terms of the balances alone.
/// A transfer from an address other than the coinbase goes through exactly
/// when the sender holds at least amount plus fee and the receiver's
/// balance stays within `u64::MAX`; the sender then holds amount plus fee
/// less (only the fee less when paying itself), the receiver the amount
/// more, and every other balance is unchanged. A coinbase transaction goes
/// through exactly when the receiver's balance stays within `u64::MAX`, and
/// credits the amount.
pub proof fn lemma_balance_step_pays(m: Map<Seq<char>, u64>, t: Transaction, block: u32)
    ensures
        ({
            let r = balance_step(m, t, block);
            let s = t.sender@;
            let v = t.receiver@;
            let have = value_or_zero(m, s);
            let got = value_or_zero(m, v);
            &&& s != coinbase_addr() && s != v ==> (r is Ok <==> have >= t.amount + t.fee && got
                + t.amount <= u64::MAX)
            &&& s != coinbase_addr() && s == v ==> (r is Ok <==> have >= t.amount + t.fee)
            &&& s == coinbase_addr() ==> (r is Ok <==> got + t.amount <= u64::MAX)
            &&& r is Ok && s != coinbase_addr() && s != v ==> value_or_zero(r->Ok_0, s) == have
                - t.amount - t.fee && value_or_zero(r->Ok_0, v) == got + t.amount
            &&& r is Ok && s != coinbase_addr() && s == v ==> value_or_zero(r->Ok_0, s) == have
                - t.fee
            &&& r is Ok && s == coinbase_addr() ==> value_or_zero(r->Ok_0, v) == got + t.amount
            &&& r is Ok ==> forall|a: Seq<char>|
                a != s && a != v ==> #[trigger] value_or_zero(r->Ok_0, a) == value_or_zero(m, a)
        }),
{
}

/// What a transaction does to transaction counts: one whose nonce is its
/// sender's count so far (below `u64::MAX`) raises that count by one and
/// leaves the others; any other is refused, unless it comes from the
/// coinbase, which then leaves every count as it was.
pub proof fn lemma_count_step_counts(m: Map<Seq<char>, u64>, t: Transaction, block: u32)
    ensures
        ({
            let r = count_step(m, t, block);
            let c = value_or_zero(m, t.sender@);
            &&& c == t.nonce && c < u64::MAX ==> r is Ok && value_or_zero(r->Ok_0, t.sender@) == c
                + 1 && forall|a: Seq<char>|
                a != t.sender@ ==> #[trigger] value_or_zero(r->Ok_0, a) == value_or_zero(m, a)
            &&& c != t.nonce && t.sender@ == coinbase_addr() ==> r == Ok::<
                Map<Seq<char>, u64>,
                Seq<char>,
            >(m)
            &&& (c != t.nonce || c == u64::MAX) && t.sender@ != coinbase_addr() ==> r is Err
        }),
{
}

/// A transaction replays on address details exactly when it replays on
/// their balances and, for a sender other than the coinbase, the sender's
/// nonce can still rise; the details' balances then move as the balances do.
pub proof fn lemma_detail_step_pays(d: Map<Seq<char>, DetailView>, t: Transaction, block: u32)
    ensures
        detail_step(d, t, block) is Ok <==> balance_step(balances_of(d), t, block) is Ok && (
        t.sender@ == coinbase_addr() || detail_or_default(d, t.sender@).nonce < u64::MAX),
        detail_step(d, t, block) is Ok ==> balance_step(balances_of(d), t, block) == Ok::<
            Map<Seq<char>, u64>,
            Seq<char>,
        >(balances_of(detail_step(d, t, block)->Ok_0)),
{
    let m = balances_of(d);
    let s = detail_or_default(d, t.sender@);
    assert(value_or_zero(m, t.sender@) == s.balance);
    if detail_step(d, t, block) is Ok {
        lemma_detail_step_balances(d, t, block);
    } else if t.sender@ == coinbase_addr() || s.balance >= t.amount + t.fee {
        if t.sender@ == coinbase_addr() || s.nonce < u64::MAX {
            let d1 = if t.sender@ != coinbase_addr() {
                d.insert(
                    t.sender@,
                    DetailView {
                        balance: (s.balance - t.amount - t.fee) as u64,
                        nonce: (s.nonce + 1) as u64,
                        txs: s.txs.push(t),
                    },
                )
            } else {
                d
            };
            let m1 = if t.sender@ != coinbase_addr() {
                m.insert(t.sender@, (s.balance - t.amount - t.fee) as u64)
            } else {
                m
            };
            assert(balances_of(d1) =~= m1);
            assert(value_or_zero(m1, t.receiver@) == detail_or_default(d1, t.receiver@).balance);
        }
    }
}

/// How many of the transactions `txs` come from `a`.
pub open spec fn txs_sent(txs: Seq<Transaction>, a: Seq<char>) -> nat
    decreases txs.len(),
{
    if txs.len() == 0 {
        0
    } else {
        txs_sent(txs.drop_last(), a) + if txs.last().sender@ == a {
            1nat
        } else {
            0nat
        }
    }
}

/// How many of the transactions of `blocks` come from `a`.
pub open spec fn chain_sent(blocks: Seq<Block>, a: Seq<char>) -> nat
    decreases blocks.len(),
{
    if blocks.len() == 0 {
        0
    } else {
        chain_sent(blocks.drop_last(), a) + txs_sent(blocks.last().transactions@, a)
    }
}

/// Replaying details raises the nonce of every address but the coinbase by
/// the number of transactions it sends.
pub proof fn lemma_detail_txs_nonce(d: Map<Seq<char>, DetailView>, txs: Seq<Transaction>, block: u32)
    requires
        fold_txs(d, txs, block, detail_rule()) is Ok,
    ensures
        forall|a: Seq<char>|
            a != coinbase_addr() ==> #[trigger] detail_or_default(
                fold_txs(d, txs, block, detail_rule())->Ok_0,
                a,
            ).nonce == detail_or_default(d, a).nonce + txs_sent(txs, a),
    decreases txs.len(),
{
    if txs.len() > 0 {
        lemma_detail_txs_nonce(d, txs.drop_last(), block);
        let p = fold_txs(d, txs.drop_last(), block, detail_rule())->Ok_0;
        let q = fold_txs(d, txs, block, detail_rule())->Ok_0;
        assert forall|a: Seq<char>| a != coinbase_addr() implies #[trigger] detail_or_default(
            q,
            a,
        ).nonce == detail_or_default(d, a).nonce + txs_sent(txs, a) by {
            assert(detail_or_default(p, a).nonce == detail_or_default(d, a).nonce + txs_sent(
                txs.drop_last(),
                a,
            ));
        }
    }
}

/// Replaying details from none gives every address but the coinbase the
/// number of transactions it sends on the chain as its nonce.
pub proof fn lemma_replay_nonce(blocks: Seq<Block>)
    requires
        replay_details(Map::empty(), blocks) is Ok,
    ensures
        forall|a: Seq<char>|
            a != coinbase_addr() ==> #[trigger] detail_or_default(
                replay_details(Map::empty(), blocks)->Ok_0,
                a,
            ).nonce == chain_sent(blocks, a),
    decreases blocks.len(),
{
    if blocks.len() > 0 {
        lemma_replay_nonce(blocks.drop_last());
        let p = replay_details(Map::empty(), blocks.drop_last())->Ok_0;
        lemma_detail_txs_nonce(p, blocks.last().transactions@, blocks.last().index);
        assert forall|a: Seq<char>| a != coinbase_addr() implies #[trigger] detail_or_default(
            replay_details(Map::empty(), blocks)->Ok_0,
            a,
        ).nonce == chain_sent(blocks, a) by {
            assert(detail_or_default(p, a).nonce == chain_sent(blocks.drop_last(), a));
        }
    } else {
        assert forall|a: Seq<char>| a != coinbase_addr() implies #[trigger] detail_or_default(
            replay_details(Map::empty(), blocks)->Ok_0,
            a,
        ).nonce == chain_sent(blocks, a) by {}
    }
}

/// The value of `k` in `m`, or zero.
pub fn amount_of(m: &AddressMap<u64>, k: &String) -> (r: u64)
    ensures
        r == value_or_zero(m@, k@),
{
    match m.get(k) {
        Some(v) => *v,
        None => 0,
    }
}

fn underflow_message(who: &String, block: u32, sig: &String) -> (r: String)
    ensures
        r@ == underflow_msg(who@, block, sig@),
{
    let mut s = who.clone();
    s.append("'s balance underflowed at Block #");
    s.append(decimal_string(block as u64).as_str());
    s.append(", tx: ");
    s.append(sig.as_str());
    s
}

fn overflow_message(who: &String, block: u32, sig: &String) -> (r: String)
    ensures
        r@ == overflow_msg(who@, block, sig@),
{
    let mut s = who.clone();
    s.append("'s balance overflowed at Block #");
    s.append(decimal_string(block as u64).as_str());
    s.append(", tx: ");
    s.append(sig.as_str());
    s
}

fn nonce_message(who: &String, nonce: u64, block: u32, sig: &String) -> (r: String)
    ensures
        r@ == nonce_msg(who@, nonce, block, sig@),
{
    let mut s = String::new();
    s.append("Sender ");
    s.append(who.as_str());
    s.append(" has Multiple nonce ");
    s.append(decimal_string(nonce).as_str());
    s.append(" at Block #");
    s.append(decimal_string(block as u64).as_str());
    s.append(" tx: ");
    s.append(sig.as_str());
    s
}

/// Applies `balance_step` to `m`.
pub fn apply_balance(m: &mut AddressMap<u64>, tx: &Transaction, block: u32) -> (r: Result<
    (),
    String,
>)
    ensures
        match r {
            Ok(_) => balance_step(old(m)@, *tx, block) == Ok::<Map<Seq<char>, u64>, Seq<char>>(
                final(m)@,
            ),
            Err(e) => balance_step(old(m)@, *tx, block) == Err::<Map<Seq<char>, u64>, Seq<char>>(
                e@,
            ),
        },
{
    let from_coinbase = is_coinbase_address(&tx.sender);
    if !from_coinbase {
        let have = amount_of(m, &tx.sender);
        match tx.amount.checked_add(tx.fee) {
            Some(cost) if cost <= have => {
                m.replace(&tx.sender, have - cost);
            },
            _ => {
                return Err(underflow_message(&tx.sender, block, &tx.signature));
            },
        }
    }
    let got = amount_of(m, &tx.receiver);
    match got.checked_add(tx.amount) {
        Some(v) => {
            m.replace(&tx.receiver, v);
            Ok(())
        },
        None => Err(overflow_message(&tx.receiver, block, &tx.signature)),
    }
}

/// Applies `count_step` to `m`.
pub fn apply_count(m: &mut AddressMap<u64>, tx: &Transaction, block: u32) -> (r: Result<
    (),
    String,
>)
    ensures
        match r {
            Ok(_) => count_step(old(m)@, *tx, block) == Ok::<Map<Seq<char>, u64>, Seq<char>>(
                final(m)@,
            ),
            Err(e) => count_step(old(m)@, *tx, block) == Err::<Map<Seq<char>, u64>, Seq<char>>(
                e@,
            ),
        },
{
    let c = amount_of(m, &tx.sender);
    if c == tx.nonce && c < u64::MAX {
        m.replace(&tx.sender, c + 1);
        Ok(())
    } else if c == tx.nonce || !is_coinbase_address(&tx.sender) {
        Err(nonce_message(&tx.sender, tx.nonce, block, &tx.signature))
    } else {
        Ok(())
    }
}

/// The detail of `k` in `d`, or the empty detail, taken out of `d`
/// (an empty detail is left in its place).
fn take_detail(d: &mut AddressMap<AddressDetail>, k: &String) -> (r: AddressDetail)
    ensures
        r@ == detail_or_default(old(d)@, k@),
        final(d)@ == old(d)@.insert(k@, AddressDetail::empty_view()),
{
    match d.replace(k, AddressDetail::new()) {
        Some(v) => v,
        None => AddressDetail::new(),
    }
}

/// Applies `detail_step` to `d`.
pub fn apply_detail(d: &mut AddressMap<AddressDetail>, tx: &Transaction, block: u32) -> (r: Result<
    (),
    String,
>)
    ensures
        match r {
            Ok(_) => detail_step(old(d)@, *tx, block) == Ok::<
                Map<Seq<char>, DetailView>,
                Seq<char>,
            >(final(d)@),
            Err(e) => detail_step(old(d)@, *tx, block) is Err && detail_step(
                old(d)@,
                *tx,
                block,
            )->Err_0 == e@,
        },
{
    let ghost d0 = d@;
    let from_coinbase = is_coinbase_address(&tx.sender);
    if !from_coinbase {
        let mut s = take_detail(d, &tx.sender);
        let ok = match tx.amount.checked_add(tx.fee) {
            Some(cost) => cost <= s.balance,
            None => false,
        };
        if !ok {
            return Err(underflow_message(&tx.sender, block, &tx.signature));
        }
        if s.nonce == u64::MAX {
            return Err(nonce_message(&tx.sender, tx.nonce, block, &tx.signature));
        }
        s.balance = s.balance - tx.amount - tx.fee;
        s.nonce = s.nonce + 1;
        s.txs.push(tx.duplicate());
        d.replace(&tx.sender, s);
        proof {
            assert(d@ =~= d0.insert(tx.sender@, s@));
        }
    }
    let ghost d1 = d@;
    let mut r = take_detail(d, &tx.receiver);
    match r.balance.checked_add(tx.amount) {
        Some(v) => {
            r.balance = v;
        },
        None => {
            return Err(overflow_message(&tx.receiver, block, &tx.signature));
        },
    }
    r.txs.push(tx.duplicate());
    d.replace(&tx.receiver, r);
    proof {
        assert(d@ =~= d1.insert(tx.receiver@, r@));
    }
    Ok(())
}

/// Applies the transactions of `block` to `d` (see `detail_step`).
pub fn update_metadata_delta(d: &mut AddressMap<AddressDetail>, block: &Block) -> (r: Result<
    (),
    String,
>)
    ensures
        match r {
            Ok(_) => fold_txs(old(d)@, block.transactions@, block.index, detail_rule()) == Ok::<
                Map<Seq<char>, DetailView>,
                Seq<char>,
            >(final(d)@),
            Err(e) => fold_txs(old(d)@, block.transactions@, block.index, detail_rule()) == Err::<
                Map<Seq<char>, DetailView>,
                Seq<char>,
            >(e@),
        },
{
    let ghost start = d@;
    let ghost txs = block.transactions@;
    let nt = block.transactions.len();
    let mut j: usize = 0;
    while j < nt
        invariant
            nt == txs.len(),
            txs == block.transactions@,
            start == old(d)@,
            j <= nt,
            fold_txs(start, txs.subrange(0, j as int), block.index, detail_rule()) == Ok::<
                Map<Seq<char>, DetailView>,
                Seq<char>,
            >(d@),
        decreases nt - j,
    {
        proof {
            lemma_fold_txs_prefix(start, txs, block.index, detail_rule(), j as int);
        }
        let ghost before = d@;
        match apply_detail(d, &block.transactions[j], block.index) {
            Ok(_) => {},
            Err(e) => {
                proof {
                    assert(detail_rule()(before, txs[j as int], block.index) == detail_step(
                        before,
                        txs[j as int],
                        block.index,
                    ));
                    assert(detail_step(before, txs[j as int], block.index) == Err::<
                        Map<Seq<char>, DetailView>,
                        Seq<char>,
                    >(e@));
                    lemma_fold_txs_err(start, txs, block.index, detail_rule(), j + 1);
                }
                return Err(e);
            },
        }
        proof {
            assert(detail_rule()(before, txs[j as int], block.index) == detail_step(
                before,
                txs[j as int],
                block.index,
            ));
        }
        j = j + 1;
    }
    proof {
        assert(txs.subrange(0, nt as int) =~= txs);
    }
    Ok(())
}

} // verus!
