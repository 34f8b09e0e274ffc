//! Signed transfers between hex-encoded Ed25519 public keys.
use ed25519_dalek::SigningKey;
use rand::rngs::OsRng;
use vstd::prelude::*;
use vstd::utf8::encode_utf8;
use crate::crypto::{
    ed25519_public_key, ed25519_signature, ed25519_verify, hex_decode, hex_decoded, hex_encode,
    hex_lower, lemma_hex_roundtrip, public_key_of, sign_bytes, verify_bytes,
};
use crate::encoding::{
    decimal, decimal_string, json_escape, json_string, lemma_decimal_split, lemma_escape_split,
    push_json_string,
};
use crate::{COINBASE_ADDR, REWARD};

verus! {

/// The mathematical content of a transaction.
pub struct TxView {
    pub sender: Seq<char>,
    pub receiver: Seq<char>,
    pub amount: u64,
    pub signature: Seq<char>,
    pub fee: u64,
    pub nonce: u64,
}

/// A transfer of `amount` from `sender` to `receiver`, paying `fee` to the
/// miner, numbered `nonce` among the sender's transfers and signed by the sender.
#[derive(Debug, Clone, PartialEq, Eq, Hash)]
pub struct Transaction {
    pub sender: String,
    pub receiver: String,
    pub amount: u64,
    pub signature: String,
    pub fee: u64,
    pub nonce: u64,
}

impl View for Transaction {
    type V = TxView;

    open spec fn view(&self) -> TxView {
        TxView {
            sender: self.sender@,
            receiver: self.receiver@,
            amount: self.amount,
            signature: self.signature@,
            fee: self.fee,
            nonce: self.nonce,
        }
    }
}

/// The text of the coinbase address.
pub open spec fn coinbase_addr() -> Seq<char> {
    seq!['C', 'O', 'I', 'N', 'B', 'A', 'S', 'E']
}

/// The text that the sender signs: every field but the signature, as a JSON
/// object with its keys in sorted order.
pub open spec fn signing_payload(t: TxView) -> Seq<char> {
    "{\"amount\":"@ + decimal(t.amount as nat) + ",\"fee\":"@ + decimal(t.fee as nat)
        + ",\"nonce\":"@ + decimal(t.nonce as nat) + ",\"receiver\":"@ + json_string(t.receiver)
        + ",\"sender\":"@ + json_string(t.sender) + "}"@
}

proof fn lemma_strip(p: Seq<char>, x: Seq<char>, y: Seq<char>)
    requires
        p + x == p + y,
    ensures
        x == y,
{
    assert(x =~= (p + x).subrange(p.len() as int, (p + x).len() as int));
    assert(y =~= (p + y).subrange(p.len() as int, (p + y).len() as int));
}

/// The signing text after the nonce: receiver and sender as JSON strings.
spec fn payload_after_nonce(t: TxView) -> Seq<char> {
    ",\"receiver\":"@ + (seq!['"'] + (json_escape(t.receiver) + (seq!['"'] + (",\"sender\":"@ + (
    seq!['"'] + (json_escape(t.sender) + (seq!['"'] + "}"@)))))))
}

proof fn lemma_payload_nested(t: TxView)
    ensures
        signing_payload(t) =~= "{\"amount\":"@ + (decimal(t.amount as nat) + (",\"fee\":"@ + (
        decimal(t.fee as nat) + (",\"nonce\":"@ + (decimal(t.nonce as nat)
            + payload_after_nonce(t)))))),
{
}

/// The text signed for a transaction determines its sender, receiver,
/// amount, fee and nonce, and depends on nothing else: two transactions
/// have the same signing text exactly when those five fields agree.
pub proof fn lemma_signing_payload_determines_fields(a: TxView, b: TxView)
    ensures
        signing_payload(a) == signing_payload(b) <==> (a.sender == b.sender && a.receiver
            == b.receiver && a.amount == b.amount && a.fee == b.fee && a.nonce == b.nonce),
{
    if signing_payload(a) == signing_payload(b) {
        reveal_strlit("{\"amount\":");
        reveal_strlit(",\"fee\":");
        reveal_strlit(",\"nonce\":");
        reveal_strlit(",\"receiver\":");
        reveal_strlit(",\"sender\":");
        reveal_strlit("}");
        lemma_payload_nested(a);
        lemma_payload_nested(b);
        let ra = payload_after_nonce(a);
        let rb = payload_after_nonce(b);
        let l2 = ",\"fee\":"@;
        let l3 = ",\"nonce\":"@;
        let l4 = ",\"receiver\":"@;
        let l5 = ",\"sender\":"@;
        let x3a = l3 + (decimal(a.nonce as nat) + ra);
        let x3b = l3 + (decimal(b.nonce as nat) + rb);
        let x2a = l2 + (decimal(a.fee as nat) + x3a);
        let x2b = l2 + (decimal(b.fee as nat) + x3b);
        lemma_strip("{\"amount\":"@, decimal(a.amount as nat) + x2a, decimal(b.amount as nat) + x2b);
        assert(x2a[0] == ',' && x2b[0] == ',');
        lemma_decimal_split(a.amount as nat, b.amount as nat, x2a, x2b);
        lemma_strip(l2, decimal(a.fee as nat) + x3a, decimal(b.fee as nat) + x3b);
        assert(x3a[0] == ',' && x3b[0] == ',');
        lemma_decimal_split(a.fee as nat, b.fee as nat, x3a, x3b);
        lemma_strip(l3, decimal(a.nonce as nat) + ra, decimal(b.nonce as nat) + rb);
        assert(ra[0] == ',' && rb[0] == ',');
        lemma_decimal_split(a.nonce as nat, b.nonce as nat, ra, rb);
        let ya = seq!['"'] + (l5 + (seq!['"'] + (json_escape(a.sender) + (seq!['"'] + "}"@))));
        let yb = seq!['"'] + (l5 + (seq!['"'] + (json_escape(b.sender) + (seq!['"'] + "}"@))));
        lemma_strip(l4, seq!['"'] + (json_escape(a.receiver) + ya), seq!['"'] + (json_escape(b.receiver) + yb));
        lemma_strip(seq!['"'], json_escape(a.receiver) + ya, json_escape(b.receiver) + yb);
        assert(ya[0] == '"' && yb[0] == '"');
        lemma_escape_split(a.receiver, b.receiver, ya, yb);
        lemma_strip(seq!['"'], l5 + (seq!['"'] + (json_escape(a.sender) + (seq!['"'] + "}"@))), l5 + (seq!['"'] + (json_escape(b.sender) + (seq!['"'] + "}"@))));
        lemma_strip(l5, seq!['"'] + (json_escape(a.sender) + (seq!['"'] + "}"@)), seq!['"'] + (json_escape(b.sender) + (seq!['"'] + "}"@)));
        lemma_strip(seq!['"'], json_escape(a.sender) + (seq!['"'] + "}"@), json_escape(b.sender) + (seq!['"'] + "}"@));
        lemma_escape_split(a.sender, b.sender, seq!['"'] + "}"@, seq!['"'] + "}"@);
    }
}

/// The JSON text of a transaction, fields in declaration order.
pub open spec fn tx_json(t: TxView) -> Seq<char> {
    "{\"sender\":"@ + json_string(t.sender) + ",\"receiver\":"@ + json_string(t.receiver)
        + ",\"amount\":"@ + decimal(t.amount as nat) + ",\"signature\":"@ + json_string(
        t.signature,
    ) + ",\"fee\":"@ + decimal(t.fee as nat) + ",\"nonce\":"@ + decimal(t.nonce as nat) + "}"@
}

/// Whether a transaction carries a valid signature: coinbase transactions
/// always do; any other needs a hex signature of 64 bytes and a hex sender
/// key of 32 bytes under which the signature of the payload verifies.
pub open spec fn signature_valid(t: TxView) -> bool {
    t.sender == coinbase_addr() || match hex_decoded(encode_utf8(t.signature)) {
        Some(sig) => sig.len() == 64 && match hex_decoded(encode_utf8(t.sender)) {
            Some(pk) => pk.len() == 32 && ed25519_verify(
                pk,
                encode_utf8(signing_payload(t)),
                sig,
            ),
            None => false,
        },
        None => false,
    }
}

/// Whether `t` is signed with the 32-byte secret `s`: its sender is the hex
/// public key of `s` and its signature the hex signature of its payload.
pub open spec fn signed_with(t: TxView, s: Seq<u8>) -> bool {
    &&& s.len() == 32
    &&& t.sender == hex_lower(ed25519_public_key(s))
    &&& t.signature == hex_lower(ed25519_signature(s, encode_utf8(signing_payload(t))))
}

/// Whether `s` is the coinbase address.
pub fn is_coinbase_address(s: &String) -> (r: bool)
    ensures
        r == (s@ == coinbase_addr()),
{
    proof {
        reveal_strlit("COINBASE");
    }
    let c = COINBASE_ADDR.to_owned();
    assert(c@ == coinbase_addr());
    s.eq(&c)
}

impl Transaction {
    /// Creates a transaction from `sender_keypair`'s address to `receiver`
    /// and signs it with that key.
    pub fn new(sender_keypair: &Wallet, receiver: &str, amount: u64, fee: u64, nonce: u64) -> (tx:
        Transaction)
        ensures
            tx.receiver@ == receiver@,
            tx.amount == amount,
            tx.fee == fee,
            tx.nonce == nonce,
            signed_with(tx@, sender_keypair@),
            signature_valid(tx@),
    {
        let secret = sender_keypair.secret();
        let public = public_key_of(secret.as_slice());
        let sender = hex_encode(public.as_slice());
        let mut tx = Transaction {
            sender,
            receiver: receiver.to_owned(),
            amount,
            signature: String::new(),
            fee,
            nonce,
        };
        let payload = tx.serialize_for_signing();
        let sig = sign_bytes(secret.as_slice(), payload.as_str().as_bytes());
        tx.signature = hex_encode(sig.as_slice());
        proof {
            assert(signing_payload(tx@) == payload@);
            lemma_hex_roundtrip(sig@);
            lemma_hex_roundtrip(public@);
        }
        tx
    }

    /// The reward transaction that pays the miner at `miner_addr` the block
    /// reward plus `fees`.
    pub fn new_coinbase(miner_addr: &str, fees: u64) -> (tx: Transaction)
        requires
            fees <= u64::MAX - REWARD,
        ensures
            tx.sender@ == coinbase_addr(),
            tx.receiver@ == miner_addr@,
            tx.amount == REWARD + fees,
            tx.signature@ == Seq::<char>::empty(),
            tx.fee == 0,
            tx.nonce == 0,
            signature_valid(tx@),
    {
        proof {
            reveal_strlit("COINBASE");
        }
        Transaction {
            sender: COINBASE_ADDR.to_owned(),
            receiver: miner_addr.to_owned(),
            amount: REWARD + fees,
            signature: String::new(),
            fee: 0,
            nonce: 0,
        }
    }

    /// The text that the sender signs (see `signing_payload`).
    pub fn serialize_for_signing(&self) -> (r: String)
        ensures
            r@ == signing_payload(self@),
    {
        let mut out = String::new();
        out.append("{\"amount\":");
        out.append(decimal_string(self.amount).as_str());
        out.append(",\"fee\":");
        out.append(decimal_string(self.fee).as_str());
        out.append(",\"nonce\":");
        out.append(decimal_string(self.nonce).as_str());
        out.append(",\"receiver\":");
        push_json_string(&mut out, self.receiver.as_str());
        out.append(",\"sender\":");
        push_json_string(&mut out, self.sender.as_str());
        out.append("}");
        out
    }

    /// The JSON text of the transaction (see `tx_json`).
    pub fn to_json(&self) -> (r: String)
        ensures
            r@ == tx_json(self@),
    {
        let mut out = String::new();
        out.append("{\"sender\":");
        push_json_string(&mut out, self.sender.as_str());
        out.append(",\"receiver\":");
        push_json_string(&mut out, self.receiver.as_str());
        out.append(",\"amount\":");
        out.append(decimal_string(self.amount).as_str());
        out.append(",\"signature\":");
        push_json_string(&mut out, self.signature.as_str());
        out.append(",\"fee\":");
        out.append(decimal_string(self.fee).as_str());
        out.append(",\"nonce\":");
        out.append(decimal_string(self.nonce).as_str());
        out.append("}");
        out
    }

    /// Whether the transaction's signature is valid (see `signature_valid`).
    pub fn verify(&self) -> (r: bool)
        ensures
            r == signature_valid(self@),
    {
        if is_coinbase_address(&self.sender) {
            return true;
        }
        let sig = match hex_decode(self.signature.as_str().as_bytes()) {
            Some(s) => s,
            None => return false,
        };
        if sig.len() != 64 {
            return false;
        }
        let public = match hex_decode(self.sender.as_str().as_bytes()) {
            Some(p) => p,
            None => return false,
        };
        if public.len() != 32 {
            return false;
        }
        let payload = self.serialize_for_signing();
        verify_bytes(public.as_slice(), payload.as_str().as_bytes(), sig.as_slice())
    }

    /// Whether two transactions agree in every field.
    pub fn same_as(&self, other: &Transaction) -> (r: bool)
        ensures
            r == (self@ == other@),
    {
        self.sender == other.sender && self.receiver == other.receiver && self.amount
            == other.amount && self.signature == other.signature && self.fee == other.fee
            && self.nonce == other.nonce
    }

    /// A field-by-field copy.
    pub fn duplicate(&self) -> (r: Transaction)
        ensures
            r == *self,
    {
        Transaction {
            sender: self.sender.clone(),
            receiver: self.receiver.clone(),
            amount: self.amount,
            signature: self.signature.clone(),
            fee: self.fee,
            nonce: self.nonce,
        }
    }
}

/// A wallet: the 32-byte Ed25519 secret that signs its owner's transfers.
#[derive(Debug)]
pub struct Wallet {
    secret: Vec<u8>,
}

impl Wallet {
    /// An Ed25519 secret is 32 bytes long.
    #[verifier::type_invariant]
    closed spec fn wf(&self) -> bool {
        self.secret@.len() == 32
    }

    /// The wallet's secret bytes.
    pub closed spec fn view(&self) -> Seq<u8> {
        self.secret@
    }

    /// The wallet with the secret `secret`, where it is 32 bytes long.
    pub fn from_secret(secret: Vec<u8>) -> (r: Option<Wallet>)
        ensures
            r is Some <==> secret@.len() == 32,
            r matches Some(w) ==> w@ == secret@,
    {
        if secret.len() == 32 {
            Some(Wallet { secret })
        } else {
            None
        }
    }

    /// A copy of the wallet's 32 secret bytes.
    pub fn secret(&self) -> (r: Vec<u8>)
        ensures
            r@ == self@,
            r@.len() == 32,
    {
        proof {
            use_type_invariant(self);
        }
        self.secret.clone()
    }

    /// The wallet's address: the hex text of its public key.
    pub fn address(&self) -> (r: String)
        ensures
            r@ == hex_lower(ed25519_public_key(self@)),
            r@.len() == 64,
    {
        let secret = self.secret();
        let public = public_key_of(secret.as_slice());
        proof {
            lemma_hex_roundtrip(public@);
        }
        hex_encode(public.as_slice())
    }
}

/// Calls `ed25519_dalek::SigningKey::generate` with the operating system's
/// random source and takes the new key's 32 secret bytes; nothing else is
/// promised of them.
#[verifier::external_body]
fn random_secret() -> (r: Vec<u8>)
    ensures
        r@.len() == 32,
{
    let mut csprng = OsRng {};
    SigningKey::generate(&mut csprng).to_bytes().to_vec()
}

/// A wallet with a fresh random secret of 32 bytes.
pub fn generate_wallet() -> (w: Wallet)
    ensures
        w@.len() == 32,
{
    let secret = random_secret();
    Wallet { secret }
}

} // verus!
