use rustchain::merkle::compute_merkle_root;
use rustchain::transaction::{generate_wallet, Wallet, Transaction};

fn make_tx(amount: u64) -> Transaction {
    let sender = generate_wallet();
    let receiver = generate_wallet().address();
    Transaction::new(&sender, &receiver, amount, 0, 0)
}

#[test]
fn test_empty_list() {
    assert_eq!(compute_merkle_root(&[]), "");
}

#[test]
fn test_root_length() {
    const HASH_LEN: usize = 64;
    assert_eq!(compute_merkle_root(&[make_tx(10)]).len(), HASH_LEN);
    assert_eq!(compute_merkle_root(&[make_tx(10), make_tx(20)]).len(), HASH_LEN);
    assert_eq!(
        compute_merkle_root(&[make_tx(10), make_tx(20), make_tx(30)]).len(),
        HASH_LEN
    );
}

#[test]
fn test_deterministic() {
    let txs = vec![make_tx(10), make_tx(20)];
    let root1 = compute_merkle_root(&txs);
    let root2 = compute_merkle_root(&txs);
    assert_eq!(root1, root2);
}

#[test]
fn test_single_and_double_differ() {
    let tx = make_tx(10);
    let root1 = compute_merkle_root(&[tx.clone()]);
    let root2 = compute_merkle_root(&[tx, make_tx(20)]);
    assert_ne!(root1, root2);
}
