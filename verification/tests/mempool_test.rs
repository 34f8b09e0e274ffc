use rustchain::block::{Block, Blockchain};
use rustchain::mempool::{MemeryPool, Miner};
use rustchain::transaction::{generate_wallet, Wallet, Transaction};
use rustchain::{COINBASE_ADDR, REWARD};

fn make_valid_tx() -> Transaction {
    let sender = generate_wallet();
    let receiver = generate_wallet().address();
    Transaction::new(&sender, &receiver, 100, 1, 0)
}

fn wallet() -> (Wallet, String) {
    let w = generate_wallet();
    let addr = w.address();
    (w, addr)
}

fn make_block(chain: &Blockchain, txs: Vec<Transaction>, miner_addr: &str) -> Block {
    let prev = chain.latest_block();
    let fees: u64 = txs.iter().map(|t| t.fee).sum();
    let coinbase = Transaction {
        sender: COINBASE_ADDR.to_string(),
        receiver: miner_addr.to_string(),
        amount: REWARD + fees,
        signature: String::new(),
        fee: 0,
        nonce: 0,
    };
    let mut all_txs = vec![coinbase];
    all_txs.extend(txs);
    let (valid, _) = chain.filter_valid_txs(all_txs);
    let mut block = Block::new(prev.index + 1, valid, prev.hash.clone());
    block.mine_block(chain.difficulty);
    block
}

#[test]
fn test_submit_accepts_valid() {
    let mut pool = MemeryPool::new();
    assert!(pool.submit(make_valid_tx()).is_ok());
    assert_eq!(pool.candidate().len(), 1);
}

#[test]
fn test_select_limits_count() {
    let mut pool = MemeryPool::new();
    for _ in 0..5 {
        pool.submit(make_valid_tx()).unwrap();
    }
    assert_eq!(pool.select(3).len(), 3);
}

#[test]
fn test_select_less_than_available() {
    let mut pool = MemeryPool::new();
    pool.submit(make_valid_tx()).unwrap();
    assert_eq!(pool.select(10).len(), 1);
}

#[test]
fn test_remove_clears_selected() {
    let mut pool = MemeryPool::new();
    pool.submit(make_valid_tx()).unwrap();
    pool.submit(make_valid_tx()).unwrap();
    let txs = pool.select(2);
    pool.remove(&txs);
    assert!(pool.candidate().is_empty());
}

#[test]
fn test_select_empty_pool() {
    let pool = MemeryPool::new();
    assert!(pool.select(5).is_empty());
}

#[test]
fn test_miner_assemble_block_has_coinbase() {
    let mut chain = Blockchain::new(2);
    let (_alice, alice_addr) = wallet();
    let b = make_block(&chain, vec![], &alice_addr);
    let _ = chain.add_block(b);

    let miner = Miner {
        address: "test_miner".to_string(),
        pool: MemeryPool::new(),
    };
    let block = miner.assemble_block(&chain);

    assert_eq!(block.index, 2);
    assert!(!block.transactions.is_empty());
    assert_eq!(block.transactions[0].sender, COINBASE_ADDR);
    assert_eq!(block.transactions[0].receiver, "test_miner");
    assert_eq!(block.transactions[0].amount, REWARD);
    assert!(block.hash.starts_with("00"));
}

#[test]
fn test_miner_assemble_block_includes_paid_txs() {
    let mut chain = Blockchain::new(2);
    let (alice, alice_addr) = wallet();
    let (_, bob_addr) = wallet();
    let b = make_block(&chain, vec![], &alice_addr);
    let _ = chain.add_block(b);

    let mut pool = MemeryPool::new();
    let tx = Transaction::new(&alice, &bob_addr, 10, 1, 0);
    pool.submit(tx.clone()).unwrap();

    let miner = Miner {
        address: "miner".to_string(),
        pool,
    };
    let block = miner.assemble_block(&chain);

    assert_eq!(block.transactions.len(), 2);
    assert_eq!(block.transactions[1], tx);
    assert_eq!(block.transactions[0].amount, REWARD + 1);
}

#[test]
fn test_miner_assemble_block_can_be_added_to_chain() {
    let mut chain = Blockchain::new(2);
    let (_alice, alice_addr) = wallet();
    let b = make_block(&chain, vec![], &alice_addr);
    let _ = chain.add_block(b);

    let miner = Miner {
        address: "miner".to_string(),
        pool: MemeryPool::new(),
    };
    let block = miner.assemble_block(&chain);
    assert!(chain.add_block(block).is_ok());
    assert_eq!(chain.chain.len(), 3);
    assert!(chain.is_valid().is_ok());
}
