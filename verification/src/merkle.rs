//! The Merkle root of a block's transactions.
use vstd::prelude::*;
use crate::crypto::{hash_str, hash_text};
use crate::transaction::{tx_json, Transaction};

verus! {

/// The texts of a sequence of strings.
pub open spec fn texts(v: Seq<String>) -> Seq<Seq<char>> {
    v.map_values(|s: String| s@)
}

/// The leaves of the tree: the hash of each transaction's JSON text.
pub open spec fn merkle_leaves(txs: Seq<Transaction>) -> Seq<Seq<char>> {
    Seq::new(txs.len(), |i: int| hash_text(tx_json(txs[i]@)))
}

/// A layer of odd length with its last hash repeated.
pub open spec fn padded(layer: Seq<Seq<char>>) -> Seq<Seq<char>> {
    if layer.len() % 2 == 1 {
        layer.push(layer.last())
    } else {
        layer
    }
}

/// The layer above: the hash of each adjacent pair, concatenated.
pub open spec fn parent_layer(layer: Seq<Seq<char>>) -> Seq<Seq<char>> {
    let p = padded(layer);
    Seq::new(p.len() / 2, |i: int| hash_text(p[2 * i] + p[2 * i + 1]))
}

/// Hashes a layer upwards until one hash is left; the empty text for no hashes.
pub open spec fn merkle_reduce(layer: Seq<Seq<char>>) -> Seq<char>
    decreases layer.len(),
{
    if layer.len() == 0 {
        Seq::empty()
    } else if layer.len() == 1 {
        layer[0]
    } else {
        merkle_reduce(parent_layer(layer))
    }
}

/// The Merkle root of a list of transactions.
pub open spec fn merkle_root(txs: Seq<Transaction>) -> Seq<char> {
    merkle_reduce(merkle_leaves(txs))
}

/// Every hash of a layer is 64 characters long.
pub open spec fn all_hashes(layer: Seq<Seq<char>>) -> bool {
    forall|i: int| 0 <= i < layer.len() ==> (#[trigger] layer[i]).len() == 64
}

proof fn lemma_parent_len(layer: Seq<Seq<char>>)
    requires
        layer.len() >= 2,
    ensures
        parent_layer(layer).len() < layer.len(),
        parent_layer(layer).len() >= 1,
{
}

/// Whether `h` is the hex SHA-256 digest of some text.
pub open spec fn is_hash(h: Seq<char>) -> bool {
    exists|s: Seq<char>| h == hash_text(s)
}

proof fn lemma_reduce_is_hash(layer: Seq<Seq<char>>)
    requires
        layer.len() > 0,
        forall|i: int| 0 <= i < layer.len() ==> is_hash(#[trigger] layer[i]),
    ensures
        is_hash(merkle_reduce(layer)),
    decreases layer.len(),
{
    if layer.len() > 1 {
        lemma_parent_len(layer);
        let p = padded(layer);
        let up = parent_layer(layer);
        assert forall|i: int| 0 <= i < up.len() implies is_hash(#[trigger] up[i]) by {
            assert(up[i] == hash_text(p[2 * i] + p[2 * i + 1]));
        }
        lemma_reduce_is_hash(up);
    }
}

/// The Merkle root of a non-empty list is a hex SHA-256 digest: of the one
/// transaction's JSON text, or of the concatenated hashes of its two halves.
pub proof fn lemma_merkle_root_is_hash(txs: Seq<Transaction>)
    requires
        txs.len() > 0,
    ensures
        is_hash(merkle_root(txs)),
{
    let l = merkle_leaves(txs);
    assert forall|i: int| 0 <= i < l.len() implies is_hash(#[trigger] l[i]) by {
        assert(l[i] == hash_text(tx_json(txs[i]@)));
    }
    lemma_reduce_is_hash(l);
}

/// An odd number of transactions, three or more, has the Merkle root of
/// the same list with its last transaction repeated.
pub proof fn lemma_merkle_odd_repeats_last(txs: Seq<Transaction>)
    requires
        txs.len() >= 3,
        txs.len() % 2 == 1,
    ensures
        merkle_root(txs.push(txs.last())) == merkle_root(txs),
{
    let l = merkle_leaves(txs);
    let l2 = merkle_leaves(txs.push(txs.last()));
    assert(l2 =~= padded(l));
    assert(padded(l2) =~= l2);
    assert(parent_layer(l2) =~= parent_layer(l));
}

/// The Merkle root of `txs` (see `merkle_root`); for a non-empty list it is
/// a 64-character hex digest.
pub fn compute_merkle_root(txs: &[Transaction]) -> (r: String)
    ensures
        r@ == merkle_root(txs@),
        txs@.len() == 0 ==> r@ == Seq::<char>::empty(),
        txs@.len() == 1 ==> r@ == hash_text(tx_json(txs@[0]@)),
        txs@.len() > 0 ==> r@.len() == 64,
{
    if txs.len() == 0 {
        return String::new();
    }
    let mut layer: Vec<String> = Vec::new();
    let n = txs.len();
    let mut i: usize = 0;
    while i < n
        invariant
            n == txs@.len(),
            i <= n,
            texts(layer@) =~= merkle_leaves(txs@).subrange(0, i as int),
            all_hashes(texts(layer@)),
        decreases n - i,
    {
        let leaf = hash_str(txs[i].to_json().as_str());
        let ghost prev = layer@;
        layer.push(leaf);
        assert(texts(layer@) =~= texts(prev).push(leaf@));
        i = i + 1;
    }
    assert(merkle_leaves(txs@).subrange(0, n as int) =~= merkle_leaves(txs@));
    while layer.len() > 1
        invariant
            layer@.len() >= 1,
            merkle_reduce(texts(layer@)) == merkle_root(txs@),
            all_hashes(texts(layer@)),
        decreases layer@.len(),
    {
        let ghost before = texts(layer@);
        if layer.len() % 2 == 1 {
            let last = layer[layer.len() - 1].clone();
            let ghost prev = layer@;
            layer.push(last);
            assert(texts(layer@) =~= texts(prev).push(last@));
        }
        assert(texts(layer@) =~= padded(before));
        let half = layer.len() / 2;
        let mut next: Vec<String> = Vec::new();
        let mut j: usize = 0;
        while j < half
            invariant
                half == layer@.len() / 2,
                layer.len() == 2 * half,
                texts(layer@) == padded(before),
                j <= half,
                texts(next@) =~= parent_layer(before).subrange(0, j as int),
                all_hashes(texts(next@)),
            decreases half - j,
        {
            let mut pair = layer[2 * j].clone();
            pair.append(layer[2 * j + 1].as_str());
            let h = hash_str(pair.as_str());
            let ghost prev = next@;
            next.push(h);
            assert(texts(next@) =~= texts(prev).push(h@));
            j = j + 1;
        }
        proof {
            lemma_parent_len(before);
            assert(parent_layer(before).subrange(0, half as int) =~= parent_layer(before));
        }
        layer = next;
    }
    let root = layer[0].clone();
    root
}

} // verus!
