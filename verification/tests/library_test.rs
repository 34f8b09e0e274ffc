use rustchain::address_map::AddressMap;
use rustchain::block::{Block, Blockchain};
use rustchain::encoding::{decimal_string, push_json_string};
use rustchain::mempool::{MemeryPool, Miner};
use rustchain::p2p::P2PMessage;
use rustchain::transaction::{generate_wallet, Wallet, is_coinbase_address, Transaction};
use rustchain::{COINBASE_ADDR, REWARD};
use sha2::{Digest, Sha256};

fn wallet() -> (Wallet, String) {
    let w = generate_wallet();
    let addr = w.address();
    (w, addr)
}

fn sha_hex(s: &str) -> String {
    hex::encode(Sha256::digest(s.as_bytes()))
}

fn funded_chain() -> (Blockchain, Wallet, String) {
    let mut c = Blockchain::new(1);
    let (alice, alice_addr) = wallet();
    let prev = c.latest_block().clone();
    let mut b = Block::new(prev.index + 1, vec![Transaction::new_coinbase(&alice_addr, 0)], prev.hash.clone());
    b.mine_block(c.difficulty);
    c.add_block(b).unwrap();
    (c, alice, alice_addr)
}

fn next_block(c: &Blockchain, txs: Vec<Transaction>, miner: &str) -> Block {
    let prev = c.latest_block();
    let fees: u64 = txs.iter().map(|t| t.fee).sum();
    let mut all = vec![Transaction::new_coinbase(miner, fees)];
    all.extend(txs);
    let mut b = Block::new(prev.index + 1, all, prev.hash.clone());
    b.mine_block(c.difficulty);
    b
}

#[test]
fn decimal_formatting() {
    assert_eq!(decimal_string(0), "0");
    assert_eq!(decimal_string(1234), "1234");
    assert_eq!(decimal_string(u64::MAX), u64::MAX.to_string());
}

#[test]
fn json_escaping_matches_serde_json() {
    for s in ["plain", "a\"b", "back\\slash", "line\nbreak\ttab\r", "\u{1}\u{8}\u{c}\u{1f}", "é中✓", ""] {
        let mut out = String::new();
        push_json_string(&mut out, s);
        assert_eq!(out, serde_json::to_string(s).unwrap());
    }
}

#[test]
fn signing_payload_matches_sorted_json_object() {
    let tx = Transaction {
        sender: "s\"x".to_string(),
        receiver: "r".to_string(),
        amount: 1,
        signature: "g".to_string(),
        fee: 2,
        nonce: 3,
    };
    let mut map = serde_json::Map::new();
    map.insert("sender".to_string(), serde_json::Value::from("s\"x"));
    map.insert("receiver".to_string(), serde_json::Value::from("r"));
    map.insert("amount".to_string(), serde_json::Value::from(1u64));
    map.insert("fee".to_string(), serde_json::Value::from(2u64));
    map.insert("nonce".to_string(), serde_json::Value::from(3u64));
    let expected = serde_json::Value::Object(map).to_string();
    assert_eq!(tx.serialize_for_signing(), expected);
    assert_eq!(
        tx.serialize_for_signing(),
        "{\"amount\":1,\"fee\":2,\"nonce\":3,\"receiver\":\"r\",\"sender\":\"s\\\"x\"}"
    );
}

#[test]
fn transaction_json_text() {
    let tx = Transaction {
        sender: "s".to_string(),
        receiver: "r".to_string(),
        amount: 10,
        signature: "sig".to_string(),
        fee: 1,
        nonce: 0,
    };
    assert_eq!(
        tx.to_json(),
        "{\"sender\":\"s\",\"receiver\":\"r\",\"amount\":10,\"signature\":\"sig\",\"fee\":1,\"nonce\":0}"
    );
}

#[test]
fn signed_transaction_verifies() {
    let (alice, alice_addr) = wallet();
    let tx = Transaction::new(&alice, "bob", 5, 1, 7);
    assert_eq!(tx.sender, alice_addr);
    assert_eq!(tx.receiver, "bob");
    assert_eq!((tx.amount, tx.fee, tx.nonce), (5, 1, 7));
    assert_eq!(tx.signature.len(), 128);
    assert!(tx.verify());
}

#[test]
fn tampered_transaction_fails() {
    let (alice, _) = wallet();
    let tx = Transaction::new(&alice, "bob", 5, 1, 0);
    let mut more = tx.clone();
    more.amount = 500;
    assert!(!more.verify());
    let mut cheaper = tx.clone();
    cheaper.fee = 0;
    assert!(!cheaper.verify());
    let mut replayed = tx.clone();
    replayed.nonce = 1;
    assert!(!replayed.verify());
    let mut bad_hex = tx.clone();
    bad_hex.signature = "bad".to_string();
    assert!(!bad_hex.verify());
    let mut short = tx.clone();
    short.signature = "00".repeat(63);
    assert!(!short.verify());
    let mut bad_sender = tx;
    bad_sender.sender = "zz".repeat(32);
    assert!(!bad_sender.verify());
}

#[test]
fn upper_case_hex_signature_still_verifies() {
    let (alice, _) = wallet();
    let mut tx = Transaction::new(&alice, "bob", 5, 1, 0);
    tx.signature = tx.signature.to_uppercase();
    assert!(tx.verify());
}

#[test]
fn coinbase_needs_no_signature() {
    let tx = Transaction::new_coinbase("miner", 7);
    assert_eq!(tx.sender, COINBASE_ADDR);
    assert_eq!(tx.amount, REWARD + 7);
    assert!(tx.signature.is_empty());
    assert!(tx.verify());
    assert!(is_coinbase_address(&"COINBASE".to_string()));
    assert!(!is_coinbase_address(&"coinbase".to_string()));
}

#[test]
fn block_hash_formula() {
    let b = Block::genesis_at(5);
    let expected = sha_hex(&format!("{}{}{}{}{}", 0, 5, "", "0".repeat(64), 0));
    assert_eq!(b.hash, expected);
    assert_eq!(b.calculate_hash(), expected);
    let txs = vec![Transaction::new_coinbase("m", 0)];
    let b = Block::with_timestamp(3, 99, txs.clone(), "prev".to_string());
    let root = rustchain::merkle::compute_merkle_root(&txs);
    assert_eq!(root, sha_hex(&txs[0].to_json()));
    assert_eq!(b.merkle_root, root);
    assert_eq!(b.hash, sha_hex(&format!("{}{}{}{}{}", 3, 99, root, "prev", 0)));
}

#[test]
fn merkle_root_pairs_and_duplicates_last() {
    let txs: Vec<Transaction> = (0..3).map(|i| Transaction::new_coinbase("m", i)).collect();
    let l: Vec<String> = txs.iter().map(|t| sha_hex(&t.to_json())).collect();
    let h01 = sha_hex(&format!("{}{}", l[0], l[1]));
    let h22 = sha_hex(&format!("{}{}", l[2], l[2]));
    let root = sha_hex(&format!("{}{}", h01, h22));
    assert_eq!(rustchain::merkle::compute_merkle_root(&txs), root);
    let mut four = txs.clone();
    four.push(txs[2].clone());
    assert_eq!(rustchain::merkle::compute_merkle_root(&four), root);
}

#[test]
fn mining_finds_first_nonce() {
    let mut b = Block::genesis_at(1);
    b.mine_block(0);
    assert_eq!(b.nonce, 0);
    assert_eq!(b.mined_difficulty, 0);
    let mut b = Block::genesis_at(1);
    b.mine_block(2);
    assert!(b.hash.starts_with("00"));
    assert_eq!(b.hash, b.calculate_hash());
    for n in 0..b.nonce {
        let mut probe = b.clone();
        probe.nonce = n;
        assert!(!probe.calculate_hash().starts_with("00"));
    }
}

#[test]
fn add_block_refusals_leave_chain_unchanged() {
    let (mut c, alice, alice_addr) = funded_chain();
    let base = next_block(&c, vec![], &alice_addr);

    let mut wrong_hash = base.clone();
    wrong_hash.hash = "f".repeat(64);
    let e = c.add_block(wrong_hash).unwrap_err();
    assert_eq!(e, "\u{274c} 区块2的哈希不匹配，被篡改！");

    let mut zero_index = base.clone();
    zero_index.index = 0;
    zero_index.hash = zero_index.calculate_hash();
    assert_eq!(c.add_block(zero_index).unwrap_err(), "\u{274c} 区块0的前哈希不匹配，链断裂！");

    let mut far_index = base.clone();
    far_index.index = 9;
    far_index.hash = far_index.calculate_hash();
    assert_eq!(c.add_block(far_index).unwrap_err(), "\u{274c} 区块9的前哈希不匹配，链断裂！");

    let mut wrong_root = base.clone();
    wrong_root.transactions[0].amount = 1_000_000;
    assert_eq!(c.add_block(wrong_root).unwrap_err(), "\u{274c} 区块2的Merkle根与交易不匹配，交易被篡改！");

    let mut old_slot = base.clone();
    old_slot.index = 1;
    old_slot.prev_hash = c.chain[0].hash.clone();
    old_slot.hash = old_slot.calculate_hash();
    assert_eq!(c.add_block(old_slot).unwrap_err(), "\u{274c} 区块1的前哈希不匹配，链断裂！");

    let mut too_hard = base.clone();
    too_hard.mined_difficulty = 70;
    assert_eq!(c.add_block(too_hard).unwrap_err(), "\u{274c} 区块2的工作量证明无效！");

    let mut no_coinbase = Block::new(2, vec![Transaction::new(&alice, "bob", 1, 0, 0)], c.latest_block().hash.clone());
    no_coinbase.mine_block(1);
    assert_eq!(c.add_block(no_coinbase).unwrap_err(), "\u{274c} 区块2缺少或放错了coinbase");

    let mut two = Block::new(
        2,
        vec![Transaction::new_coinbase(&alice_addr, 0), Transaction::new_coinbase(&alice_addr, 0)],
        c.latest_block().hash.clone(),
    );
    two.mine_block(1);
    assert_eq!(c.add_block(two).unwrap_err(), "\u{274c} 区块2有不止一笔coinbase");

    let mut forged = Transaction::new(&alice, "bob", 1, 0, 0);
    forged.amount = 2;
    let bad_sig = next_block(&c, vec![forged], &alice_addr);
    assert_eq!(c.add_block(bad_sig).unwrap_err(), "\u{274c} 区块2存在签名无效的交易");

    let spend = Transaction::new(&alice, "bob", 1000, 0, 0);
    let sig = spend.signature.clone();
    let broke = next_block(&c, vec![spend], "someone");
    let e = c.add_block(broke).unwrap_err();
    assert_eq!(e, format!("{}'s balance underflowed at Block #2, tx: {}", alice_addr, sig));

    assert_eq!(c.chain.len(), 2);
    assert_eq!(*c.compute_balances().unwrap().get(&alice_addr).unwrap(), REWARD);
    assert!(c.add_block(base).is_ok());
    assert_eq!(c.chain.len(), 3);
}

#[test]
fn details_agree_with_recomputed_balances() {
    let (mut c, alice, alice_addr) = funded_chain();
    let (_, bob_addr) = wallet();
    let b = next_block(&c, vec![Transaction::new(&alice, &bob_addr, 20, 2, 0)], &bob_addr);
    c.add_block(b).unwrap();
    let balances = c.compute_balances().unwrap();
    for addr in [&alice_addr, &bob_addr] {
        assert_eq!(c.address_details.get(addr).unwrap().balance, *balances.get(addr).unwrap());
    }
    assert_eq!(*balances.get(&alice_addr).unwrap(), 28);
    assert_eq!(*balances.get(&bob_addr).unwrap(), 20 + REWARD + 2);
    let alice_detail = c.address_details.get(&alice_addr).unwrap();
    assert_eq!(alice_detail.nonce, 1);
    assert_eq!(alice_detail.txs.len(), 2);
    assert!(c.is_valid().is_ok());

    c.address_details = AddressMap::new();
    c.recover_state().unwrap();
    assert_eq!(c.address_details.get(&alice_addr).unwrap().balance, 28);
    assert_eq!(c.address_details.get(&bob_addr).unwrap().txs.len(), 2);
}

#[test]
fn balance_and_nonce_errors() {
    let (mut c, alice, alice_addr) = funded_chain();
    let b = next_block(&c, vec![Transaction::new(&alice, "bob", 1, 0, 5)], &alice_addr);
    c.add_block(b).unwrap();
    let e = c.get_tx_count().unwrap_err();
    assert!(e.starts_with(&format!("Sender {} has Multiple nonce 5 at Block #2 tx: ", alice_addr)));
    assert!(c.is_valid().is_err());

    let mut c2 = Blockchain::new(0);
    let g = c2.latest_block().clone();
    let mut spend = Transaction::new(&alice, "bob", 10, 0, 0);
    spend.signature = String::new();
    let b = Block::new(1, vec![Transaction::new_coinbase("x", 0)], g.hash.clone());
    c2.chain.push(b);
    let mut b2 = Block::new(2, vec![Transaction::new_coinbase("x", 0), spend], c2.chain[1].hash.clone());
    b2.mine_block(0);
    c2.chain.push(b2);
    let e = c2.compute_balances().unwrap_err();
    assert_eq!(e, format!("{}'s balance underflowed at Block #2, tx: ", alice_addr));
}

#[test]
fn filter_checks_funds_nonce_and_signature() {
    let (c, alice, _) = funded_chain();
    let good = Transaction::new(&alice, "bob", 10, 1, 0);
    let next = Transaction::new(&alice, "bob", 10, 1, 1);
    let stale = Transaction::new(&alice, "bob", 10, 1, 0);
    let too_much = Transaction::new(&alice, "bob", 40, 1, 2);
    let mut forged = Transaction::new(&alice, "bob", 1, 0, 2);
    forged.amount = 3;
    let cb = Transaction::new_coinbase("miner", 2);
    let (valid, invalid) = c.filter_valid_txs(vec![cb.clone(), good.clone(), next.clone(), stale.clone(), too_much.clone(), forged.clone()]);
    assert_eq!(valid, vec![cb, good, next]);
    assert_eq!(invalid, vec![stale, too_much, forged]);
}

#[test]
fn pool_orders_by_fee_and_dedupes() {
    let (alice, _) = wallet();
    let mut pool = MemeryPool::new();
    let t1 = Transaction::new(&alice, "a", 1, 1, 0);
    let t5 = Transaction::new(&alice, "b", 1, 5, 1);
    let t3 = Transaction::new(&alice, "c", 1, 3, 2);
    let t5b = Transaction::new(&alice, "d", 1, 5, 3);
    for t in [&t1, &t5, &t3, &t5b] {
        pool.submit(t.clone()).unwrap();
    }
    pool.submit(t3.clone()).unwrap();
    assert_eq!(pool.candidate().len(), 4);
    assert_eq!(pool.select(3), vec![t5.clone(), t5b.clone(), t3.clone()]);
    assert_eq!(pool.candidate().len(), 4);
    let mut forged = t1.clone();
    forged.amount = 100;
    assert_eq!(pool.submit(forged).unwrap_err(), "Invalid Transaction");
    assert_eq!(pool.candidate().len(), 4);
    pool.remove(&[t5.clone(), t1.clone()]);
    assert_eq!(*pool.candidate(), vec![t3, t5b]);
}

#[test]
fn difficulty_rises_when_blocks_come_fast() {
    let mut c = Blockchain::new(1);
    let (_, addr) = wallet();
    for _ in 0..4 {
        let b = next_block(&c, vec![], &addr);
        c.add_block(b).unwrap();
    }
    assert_eq!(c.latest_block().index, 4);
    assert_eq!(c.difficulty, 2);
}

#[test]
fn difficulty_falls_when_blocks_come_slowly() {
    let mut c = Blockchain::new(3);
    c.chain[0] = Block::genesis_at(0);
    let (_, addr) = wallet();
    for i in 1..5u32 {
        let prev = c.latest_block().clone();
        let mut b = Block::with_timestamp(i, 100 * i as u64, vec![Transaction::new_coinbase(&addr, 0)], prev.hash.clone());
        b.mine_block(c.difficulty);
        c.add_block(b).unwrap();
    }
    assert_eq!(c.difficulty, 2);
}

#[test]
fn messages_compare() {
    let (alice, _) = wallet();
    let tx = Transaction::new(&alice, "bob", 1, 0, 0);
    let m = P2PMessage::NewTransaction(tx.clone());
    assert_eq!(m.clone(), P2PMessage::NewTransaction(tx));
    assert_ne!(m, P2PMessage::NewBlock(Block::genesis_at(0)));
}

#[test]
fn balance_overflow_is_an_error() {
    let mut c = Blockchain::new(0);
    let g = c.latest_block().clone();
    let big = Transaction::new_coinbase("rich", u64::MAX - REWARD);
    let mut b1 = Block::new(1, vec![big], g.hash.clone());
    b1.mine_block(0);
    c.add_block(b1).unwrap();
    let prev = c.latest_block().hash.clone();
    let mut b2 = Block::new(2, vec![Transaction::new_coinbase("rich", 0)], prev);
    b2.mine_block(0);
    let e = c.add_block(b2.clone()).unwrap_err();
    assert_eq!(e, "rich's balance overflowed at Block #2, tx: ");
    assert_eq!(c.chain.len(), 2);
    c.chain.push(b2);
    assert_eq!(c.compute_balances().unwrap_err(), "rich's balance overflowed at Block #2, tx: ");
}

#[test]
fn inflated_coinbase_makes_chain_invalid() {
    let (mut c, _alice, alice_addr) = funded_chain();
    let b = next_block(&c, vec![], &alice_addr);
    c.add_block(b).unwrap();
    assert!(c.is_valid().is_ok());
    c.chain[1].transactions[0].amount = 1_000_000;
    assert_eq!(c.is_valid().unwrap_err(), "\u{274c} 区块1的Merkle根与交易不匹配，交易被篡改！");
}

#[test]
fn repeated_block_makes_chain_invalid() {
    let (mut c, _alice, _alice_addr) = funded_chain();
    let again = c.chain[1].clone();
    c.chain.push(again);
    assert_eq!(c.is_valid().unwrap_err(), "\u{274c} 区块1的前哈希不匹配，链断裂！");
}

#[test]
fn wallet_signs_as_its_address() {
    let (w, addr) = wallet();
    assert_eq!(addr.len(), 64);
    let tx = Transaction::new(&w, "bob", 5, 1, 0);
    assert_eq!(tx.sender, addr);
    assert!(tx.verify());
    let same = Wallet::from_secret(w.secret()).unwrap();
    assert_eq!(same.address(), addr);
    assert_eq!(Transaction::new(&same, "bob", 5, 1, 0), tx);
    assert!(Wallet::from_secret(vec![0u8; 31]).is_none());
    let (other, _) = wallet();
    assert_ne!(Transaction::new(&other, "bob", 5, 1, 0).sender, addr);
}

#[test]
fn reward_pays_only_fees_of_included_transfers() {
    let (c, alice, _alice_addr) = funded_chain();
    let (broke, _) = wallet();
    let mut pool = MemeryPool::new();
    let paid = Transaction::new(&alice, "bob", 10, 3, 0);
    pool.submit(paid.clone()).unwrap();
    pool.submit(Transaction::new(&broke, "bob", 10, 7, 0)).unwrap();
    let miner = Miner { address: "miner".to_string(), pool };
    let b = miner.assemble_block(&c);
    assert_eq!(b.transactions.len(), 2);
    assert_eq!(b.transactions[1], paid);
    assert_eq!(b.transactions[0].amount, REWARD + 3);
}

#[test]
fn mine_step_waits_for_transactions() {
    let (mut c, _alice, _alice_addr) = funded_chain();
    let mut miner = Miner { address: "miner".to_string(), pool: MemeryPool::new() };
    assert!(miner.mine_step(&mut c).is_none());
    assert_eq!(c.chain.len(), 2);
}

#[test]
fn mine_step_adds_a_block_and_clears_the_pool() {
    let (mut c, alice, alice_addr) = funded_chain();
    let (broke, _) = wallet();
    let mut miner = Miner { address: "miner".to_string(), pool: MemeryPool::new() };
    let paid = Transaction::new(&alice, "bob", 10, 2, 0);
    let unpaid = Transaction::new(&broke, "bob", 10, 1, 0);
    miner.pool.submit(paid.clone()).unwrap();
    miner.pool.submit(unpaid.clone()).unwrap();
    assert_eq!(miner.mine_step(&mut c), Some(Ok(())));
    assert_eq!(c.chain.len(), 3);
    assert_eq!(c.latest_block().transactions[1], paid);
    assert_eq!(*miner.pool.candidate(), vec![unpaid]);
    assert_eq!(*c.compute_balances().unwrap().get(&alice_addr).unwrap(), REWARD - 12);
    assert!(c.is_valid().is_ok());
}

#[test]
fn push_keeps_one_copy() {
    let (w, _) = wallet();
    let t = Transaction::new(&w, "bob", 1, 0, 0);
    let mut pool = MemeryPool::new();
    pool.push(t.clone());
    pool.push(t.clone());
    assert_eq!(*pool.candidate(), vec![t]);
}

#[test]
fn replayed_transfer_is_refused() {
    let (mut c, alice, alice_addr) = funded_chain();
    let t = Transaction::new(&alice, "bob", 1, 0, 0);
    let b = next_block(&c, vec![t.clone()], &alice_addr);
    c.add_block(b).unwrap();
    assert!(c.is_valid().is_ok());
    let again = next_block(&c, vec![t.clone()], &alice_addr);
    c.chain.push(again);
    let e = c.get_tx_count().unwrap_err();
    assert_eq!(e, format!("Sender {} has Multiple nonce 0 at Block #3 tx: {}", alice_addr, t.signature));
    assert!(c.is_valid().is_err());
}

#[test]
fn balances_add_up_to_rewards_less_fees() {
    let (mut c, alice, alice_addr) = funded_chain();
    let b = next_block(&c, vec![Transaction::new(&alice, "bob", 10, 3, 0)], "miner");
    c.add_block(b).unwrap();
    let m = c.compute_balances().unwrap();
    let total: u64 = [alice_addr.as_str(), "bob", "miner"]
        .iter()
        .map(|a| *m.get(&a.to_string()).unwrap())
        .sum();
    assert_eq!(total, REWARD + (REWARD + 3) - 3);
    let d = c.address_details.get(&alice_addr).unwrap();
    assert_eq!(d.nonce, 1);
    assert_eq!(d.balance, REWARD - 13);
}

#[test]
fn signing_text_ignores_signature_only() {
    let base = Transaction {
        sender: "s\"1".to_string(),
        receiver: "r\\2".to_string(),
        amount: 5,
        signature: "x".to_string(),
        fee: 1,
        nonce: 2,
    };
    let mut other_sig = base.clone();
    other_sig.signature = "y".to_string();
    assert_eq!(base.serialize_for_signing(), other_sig.serialize_for_signing());
    let mut other_fee = base.clone();
    other_fee.fee = 10;
    assert_ne!(base.serialize_for_signing(), other_fee.serialize_for_signing());
    let mut swapped = base.clone();
    swapped.sender = base.receiver.clone();
    swapped.receiver = base.sender.clone();
    assert_ne!(base.serialize_for_signing(), swapped.serialize_for_signing());
}

#[test]
fn no_adjustment_interval_keeps_difficulty() {
    let (mut c, _alice, alice_addr) = funded_chain();
    c.adjustment_interval = 0;
    let d = c.difficulty;
    let b = next_block(&c, vec![], &alice_addr);
    assert!(c.add_block(b).is_ok());
    assert_eq!(c.difficulty, d);
}
