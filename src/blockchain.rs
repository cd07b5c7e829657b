//! A simplified append-only ledger anchoring Merkle roots: each entry's header
//! carries the hash of the previous entry's header.
use vstd::prelude::*;

use crate::digest::{hex_lower, lemma_hex_lower_len, to_hex};
use vstd::string::StringExecFns;
use vstd::utf8::encode_utf8;

verus! {

/// The MD5 digest of a byte sequence.
pub uninterp spec fn md5_of(data: Seq<u8>) -> Seq<u8>;

/// Relies on md5::compute: the digest depends on the bytes alone and is 16 bytes long.
#[verifier::external_body]
fn md5_digest(data: &[u8]) -> (r: Vec<u8>)
    ensures
        r@ == md5_of(data@),
        r@.len() == 16,
{
    md5::compute(data).0.to_vec()
}

/// Relies on std::time::SystemTime::now: the current time in whole seconds
/// since the Unix epoch, cut to 32 bits; a clock set before the epoch reads
/// as 0. Nothing is known of its value.
#[verifier::external_body]
fn unix_time_now() -> (r: u32) {
    match std::time::SystemTime::now().duration_since(std::time::UNIX_EPOCH) {
        Ok(d) => d.as_secs() as u32,
        Err(_) => 0,
    }
}

#[derive(Debug)]
pub struct Header {
    pub version: u32,
    pub prev_blockhash: String,
    pub merkle_root: String,
    pub time: u32,
    pub nonce: u32,
}

#[derive(Debug)]
pub struct Transaction {
    /// The leaf handles the entry's Merkle root was computed over, in order.
    pub tx: Vec<String>,
}

#[derive(Debug)]
pub struct Block {
    pub header: Header,
    pub transaction: Transaction,
}

/// The ledger: a non-empty sequence of entries, starting with the genesis entry.
#[derive(Debug)]
pub struct Blockchain {
    chain: Vec<Block>,
}

/// ASCII decimal digits of a number, without leading zeros.
pub open spec fn decimal(n: nat) -> Seq<u8>
    decreases n,
{
    if n < 10 {
        seq![(48 + n) as u8]
    } else {
        decimal(n / 10) + seq![(48 + n % 10) as u8]
    }
}

/// The bytes a header is hashed over: its fields in order, numbers in decimal.
pub open spec fn header_bytes(h: Header) -> Seq<u8> {
    decimal(h.version as nat) + encode_utf8(h.prev_blockhash@) + encode_utf8(h.merkle_root@)
        + decimal(h.time as nat) + decimal(h.nonce as nat)
}

/// The hash of a header: the MD5 digest of its bytes in lowercase hex.
pub open spec fn header_hash(h: Header) -> Seq<char> {
    hex_lower(md5_of(header_bytes(h)))
}

/// Whether `b` is the genesis entry made at `time`.
pub open spec fn is_genesis(b: Block, time: u32) -> bool {
    &&& b.header.version == 1
    &&& b.header.prev_blockhash@ == seq!['0']
    &&& b.header.merkle_root@ == seq!['0']
    &&& b.header.time == time
    &&& b.header.nonce == 0
    &&& b.transaction.tx@.len() == 0
}

/// Appends the decimal digits of `n`.
fn push_decimal(out: &mut Vec<u8>, n: u32)
    ensures
        final(out)@ == old(out)@ + decimal(n as nat),
    decreases n,
{
    if n >= 10 {
        push_decimal(out, n / 10);
    }
    out.push(48 + (n % 10) as u8);
}

/// Appends bytes.
fn push_bytes(out: &mut Vec<u8>, b: &[u8])
    ensures
        final(out)@ == old(out)@ + b@,
{
    let ghost start = out@;
    for i in 0..b.len()
        invariant
            out@ == start + b@.subrange(0, i as int),
    {
        out.push(b[i]);
        assert(out@ =~= start + b@.subrange(0, i + 1));
    }
    assert(b@.subrange(0, b@.len() as int) == b@);
}

/// The hash of a header: the MD5 digest of its fields, concatenated with
/// numbers in decimal, in lowercase hex.
pub fn calculate_hash(header: &Header) -> (r: String)
    ensures
        r@ == header_hash(*header),
        r@.len() == 32,
{
    let mut bytes: Vec<u8> = Vec::new();
    push_decimal(&mut bytes, header.version);
    push_bytes(&mut bytes, header.prev_blockhash.as_str().as_bytes());
    push_bytes(&mut bytes, header.merkle_root.as_str().as_bytes());
    push_decimal(&mut bytes, header.time);
    push_decimal(&mut bytes, header.nonce);
    let digest = md5_digest(bytes.as_slice());
    proof {
        lemma_hex_lower_len(digest@);
    }
    to_hex(digest.as_slice())
}

impl View for Blockchain {
    type V = Seq<Block>;

    closed spec fn view(&self) -> Seq<Block> {
        self.chain@
    }
}

impl Blockchain {
    /// The chain starts with a genesis entry, and every later entry carries
    /// the hash of the header before it.
    pub closed spec fn wf(&self) -> bool {
        &&& self.chain@.len() >= 1
        &&& self.chain@[0].header.prev_blockhash@ == seq!['0']
        &&& forall|i: int|
            0 < i < self.chain@.len() ==> (#[trigger] self.chain@[i]).header.prev_blockhash@
                == header_hash(self.chain@[i - 1].header)
    }

    /// A ledger holding only the genesis entry, made at the given time.
    pub fn new_at(time: u32) -> (r: Blockchain)
        ensures
            r.wf(),
            r@.len() == 1,
            is_genesis(r@[0], time),
    {
        proof {
            reveal_strlit("0");
        }
        let prev = String::from_str("0");
        let root = String::from_str("0");
        assert(prev@ =~= seq!['0']);
        assert(root@ =~= seq!['0']);
        let genesis_block = Block {
            header: Header { version: 1, prev_blockhash: prev, merkle_root: root, time, nonce: 0 },
            transaction: Transaction { tx: Vec::new() },
        };
        let mut chain: Vec<Block> = Vec::new();
        chain.push(genesis_block);
        Blockchain { chain }
    }

    /// A ledger holding only the genesis entry, made now.
    pub fn new() -> (r: Blockchain)
        ensures
            r.wf(),
            r@.len() == 1,
            is_genesis(r@[0], r@[0].header.time),
    {
        Blockchain::new_at(unix_time_now())
    }

    /// The entries, oldest first.
    pub fn blocks(&self) -> (r: &Vec<Block>)
        ensures
            r@ == self@,
    {
        &self.chain
    }

    /// Appends an entry made at the given time for a Merkle root and the
    /// leaf handles it was computed over.
    pub fn add_block_at(&mut self, merkle_root: String, transactions: Vec<String>, time: u32)
        requires
            old(self).wf(),
        ensures
            final(self).wf(),
            final(self)@.len() == old(self)@.len() + 1,
            final(self)@.subrange(0, old(self)@.len() as int) == old(self)@,
            final(self)@.last().header.version == 1,
            final(self)@.last().header.prev_blockhash@ == header_hash(old(self)@.last().header),
            final(self)@.last().header.merkle_root == merkle_root,
            final(self)@.last().header.time == time,
            final(self)@.last().header.nonce == 0,
            final(self)@.last().transaction.tx == transactions,
    {
        let last = self.chain.len() - 1;
        let prev_blockhash = calculate_hash(&self.chain[last].header);
        let new_block = Block {
            header: Header { version: 1, prev_blockhash, merkle_root, time, nonce: 0 },
            transaction: Transaction { tx: transactions },
        };
        let ghost prev_chain = self.chain@;
        self.chain.push(new_block);
        assert(self.chain@.subrange(0, old(self)@.len() as int) =~= old(self)@);
        assert forall|i: int| 0 < i < self.chain@.len() implies (#[trigger] self.chain@[i]).header.prev_blockhash@
            == header_hash(self.chain@[i - 1].header) by {
            if i < prev_chain.len() {
                assert(self.chain@[i] == prev_chain[i]);
                assert(self.chain@[i - 1] == prev_chain[i - 1]);
            }
        }
    }

    /// Appends an entry made now for a Merkle root and the leaf handles it
    /// was computed over.
    pub fn add_block(&mut self, merkle_root: String, transactions: Vec<String>)
        requires
            old(self).wf(),
        ensures
            final(self).wf(),
            final(self)@.len() == old(self)@.len() + 1,
            final(self)@.subrange(0, old(self)@.len() as int) == old(self)@,
            final(self)@.last().header.version == 1,
            final(self)@.last().header.prev_blockhash@ == header_hash(old(self)@.last().header),
            final(self)@.last().header.merkle_root == merkle_root,
            final(self)@.last().header.nonce == 0,
            final(self)@.last().transaction.tx == transactions,
    {
        let time = unix_time_now();
        self.add_block_at(merkle_root, transactions, time);
    }
}

/// A copy of a list of strings.
pub(crate) fn clone_strings(v: &Vec<String>) -> (r: Vec<String>)
    ensures
        r@ == v@,
{
    let mut r: Vec<String> = Vec::new();
    for k in 0..v.len()
        invariant
            r@ == v@.subrange(0, k as int),
    {
        r.push(v[k].clone());
        assert(r@ =~= v@.subrange(0, k + 1));
    }
    assert(v@.subrange(0, v@.len() as int) == v@);
    r
}

/// Whether entry `i` is the first whose header hash is `h`.
pub open spec fn first_with_hash(chain: Seq<Block>, h: Seq<char>, i: int) -> bool {
    &&& 0 <= i < chain.len()
    &&& header_hash(chain[i].header) == h
    &&& forall|j: int| 0 <= j < i ==> header_hash(#[trigger] chain[j].header) != h
}

/// The leaf handles of the first entry whose header hashes to `block_hash`;
/// empty when there is none.
pub fn return_transction(blockchain: &Blockchain, block_hash: &str) -> (r: Vec<String>)
    ensures
        (exists|i: int| 0 <= i < blockchain@.len() && header_hash(#[trigger] blockchain@[i].header) == block_hash@)
            ==> exists|i: int| first_with_hash(blockchain@, block_hash@, i) && r@ == (#[trigger] blockchain@[i]).transaction.tx@,
        !(exists|i: int| 0 <= i < blockchain@.len() && header_hash(#[trigger] blockchain@[i].header) == block_hash@)
            ==> r@.len() == 0,
{
    let target = block_hash.to_owned();
    let n = blockchain.chain.len();
    for i in 0..n
        invariant
            n == blockchain@.len(),
            target@ == block_hash@,
            forall|j: int| 0 <= j < i ==> header_hash(#[trigger] blockchain@[j].header) != block_hash@,
    {
        let h = calculate_hash(&blockchain.chain[i].header);
        if h == target {
            let r = clone_strings(&blockchain.chain[i].transaction.tx);
            assert(first_with_hash(blockchain@, block_hash@, i as int));
            return r;
        }
    }
    Vec::new()
}

} // verus!
