use rustchain::block::{Block, Blockchain};
use rustchain::mempool::MemeryPool;
use rustchain::transaction::{generate_wallet, Wallet, Transaction};

fn wallet() -> (Wallet, String) {
    let w = generate_wallet();
    let addr = w.address();
    (w, addr)
}

fn make_block(chain: &Blockchain, txs: Vec<Transaction>, miner_addr: &str) -> Block {
    let prev = chain.latest_block();
    let fees: u64 = txs.iter().map(|t| t.fee).sum();
    let coinbase = Transaction::new_coinbase(miner_addr, fees);
    let mut all_txs = vec![coinbase];
    all_txs.extend(txs);
    let mut block = Block::new(prev.index + 1, all_txs, prev.hash.clone());
    block.mine_block(chain.difficulty);
    block
}

fn chain_with_three_blocks() -> (
    Blockchain,
    Wallet,
    String,
    Wallet,
    String,
    Wallet,
    String,
) {
    let mut c = Blockchain::new(2);
    let (alice, alice_addr) = wallet();
    let (bob, bob_addr) = wallet();
    let (charlie, charlie_addr) = wallet();
    let b = make_block(&c, vec![Transaction::new(&alice, &bob_addr, 15, 1, 0)], &alice_addr);
    let _ = c.add_block(b);
    let b = make_block(&c, vec![Transaction::new(&bob, &charlie_addr, 10, 1, 0)], &bob_addr);
    let _ = c.add_block(b);
    let b = make_block(&c, vec![Transaction::new(&charlie, &alice_addr, 2, 1, 0)], &charlie_addr);
    let _ = c.add_block(b);
    (c, alice, alice_addr, bob, bob_addr, charlie, charlie_addr)
}

#[test]
fn test_genesis() {
    let c = Blockchain::new(2);
    assert_eq!(c.chain.len(), 1);
    assert_eq!(c.chain[0].index, 0);
    assert_eq!(c.chain[0].prev_hash, "0".repeat(64));
    assert!(c.chain[0].transactions.is_empty());
}

#[test]
fn test_add_block_updates_balance() {
    let mut c = Blockchain::new(2);
    let (alice, alice_addr) = wallet();
    let (_, bob_addr) = wallet();
    let b = make_block(&c, vec![Transaction::new(&alice, &bob_addr, 15, 1, 3)], &alice_addr);
    let _ = c.add_block(b);
    let b = c.compute_balances().unwrap();
    assert_eq!(*b.get(&alice_addr).unwrap(), 35);
    assert_eq!(*b.get(&bob_addr).unwrap(), 15);
}

#[test]
fn test_valid_chain_passes() {
    let (c, _, _, _, _, _, _) = chain_with_three_blocks();
    assert!(c.is_valid().is_ok());
}

#[test]
fn test_detect_tampered_transactions() {
    let (mut c, alice, _, _, bob_addr, _, _) = chain_with_three_blocks();
    c.chain[1].transactions = vec![Transaction::new(&alice, &bob_addr, 999, 1, 1)];
    c.chain[1].hash = c.chain[1].calculate_hash();
    assert!(!c.is_valid().is_ok());
}

#[test]
fn test_detect_broken_link() {
    let (mut c, _, _, _, _, _, _) = chain_with_three_blocks();
    c.chain[2].prev_hash = "a".repeat(64);
    assert!(!c.is_valid().is_ok());
}

#[test]
fn test_detect_invalid_pow() {
    let (mut c, _, _, _, _, _, _) = chain_with_three_blocks();
    c.chain[1].nonce = 0;
    c.chain[1].hash = c.chain[1].calculate_hash();
    assert!(!c.is_valid().is_ok());
}

#[test]
fn test_mempool_full_flow() {
    let mut c = Blockchain::new(2);
    let (alice, alice_addr) = wallet();
    let (_bob, bob_addr) = wallet();
    let (_miner, miner_addr) = wallet();

    let b = make_block(&c, vec![], &alice_addr);
    let _ = c.add_block(b);

    let mut pool = MemeryPool::new();
    pool.push(Transaction::new(&alice, &bob_addr, 20, 1, 2));

    let selected = pool.select(10);
    let b = make_block(&c, selected, &miner_addr);
    let _ = c.add_block(b);
    pool.remove(&c.latest_block().transactions[1..]);

    let balances = c.compute_balances().unwrap();
    assert_eq!(*balances.get(&alice_addr).unwrap(), 29);
    assert_eq!(*balances.get(&bob_addr).unwrap(), 20);
    assert_eq!(*balances.get(&miner_addr).unwrap(), 51);
    assert!(pool.candidate().is_empty());
}
