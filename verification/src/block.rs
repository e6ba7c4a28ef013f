//! Blocks: a batch of transactions with one or more parents, sealed by a
//! hash that must start with a required number of zeros.

use crate::digest::{le_bytes, le_bytes_signed, push_le, push_le_signed, sha256, sha256_digest};
use crate::hexcode::{decode, encode_hex, hex_decode, hex_encode, is_hex};
use crate::lexical::{ascending, lemma_ascending_unique, sort_strings};
use crate::transaction::{view_all, EncodingError, Transaction, TransactionView};
use crate::utxo::{decimal, decimal_text};
use chrono::Utc;
use vstd::prelude::*;
use vstd::seq_lib::to_multiset_contains;

verus! {

/// A block of the ledger. `parents` holds the hashes of the blocks it builds
/// on; the order in which they are listed does not enter the hash.
#[derive(Debug, PartialEq, Eq)]
pub struct Block {
    pub index: u64,
    pub timestamp: i64,
    pub transactions: Vec<Transaction>,
    pub parents: Vec<String>,
    pub hash: String,
    pub nonce: u64,
}

/// A block as a mathematical value: what the contracts speak of.
pub struct BlockView {
    pub index: u64,
    pub timestamp: i64,
    pub transactions: Seq<TransactionView>,
    pub parents: Seq<Seq<char>>,
    pub hash: Seq<char>,
    pub nonce: u64,
}

impl View for Block {
    type V = BlockView;

    open spec fn view(&self) -> BlockView {
        BlockView {
            index: self.index,
            timestamp: self.timestamp,
            transactions: view_all(self.transactions@),
            parents: view_all(self.parents@),
            hash: self.hash@,
            nonce: self.nonce,
        }
    }
}

/// A copy of a list of transactions.
pub fn clone_transactions(items: &Vec<Transaction>) -> (copy: Vec<Transaction>)
    ensures
        view_all(copy@) == view_all(items@),
{
    let mut copy: Vec<Transaction> = Vec::new();
    for i in 0..items.len()
        invariant
            copy@.len() == i,
            forall|j: int| 0 <= j < i ==> (#[trigger] copy@[j])@ == items@[j]@,
    {
        copy.push(items[i].clone());
    }
    assert(view_all(copy@) =~= view_all(items@));
    copy
}

/// A copy of a list of strings.
pub fn clone_strings(items: &Vec<String>) -> (copy: Vec<String>)
    ensures
        view_all(copy@) == view_all(items@),
{
    let mut copy: Vec<String> = Vec::new();
    for i in 0..items.len()
        invariant
            copy@.len() == i,
            forall|j: int| 0 <= j < i ==> (#[trigger] copy@[j])@ == items@[j]@,
    {
        copy.push(items[i].clone());
    }
    assert(view_all(copy@) =~= view_all(items@));
    copy
}

impl Clone for Block {
    fn clone(&self) -> (copy: Self)
        ensures
            copy@ == self@,
    {
        Block {
            index: self.index,
            timestamp: self.timestamp,
            transactions: clone_transactions(&self.transactions),
            parents: clone_strings(&self.parents),
            hash: self.hash.clone(),
            nonce: self.nonce,
        }
    }
}

/// Why mining stopped without a hash that meets the difficulty.
#[derive(Clone, Copy, Debug, PartialEq, Eq, Structural)]
pub enum MineError {
    /// A parent hash or a transaction hash is not hex text, so the block has
    /// no hash.
    Malformed,
    /// No nonce from the starting one up to the largest gives such a hash.
    Exhausted,
}

/// The text starts with `count` characters `0`.
pub open spec fn has_leading_zeros(text: Seq<char>, count: nat) -> bool {
    &&& text.len() >= count
    &&& forall|i: int| 0 <= i < count ==> text[i] == '0'
}

/// Every string is hex text.
pub open spec fn all_hex(texts: Seq<Seq<char>>) -> bool {
    forall|i: int| 0 <= i < texts.len() ==> is_hex(#[trigger] texts[i])
}

/// The decoded bytes of the strings, one after the other.
pub open spec fn concat_decoded(texts: Seq<Seq<char>>) -> Seq<u8>
    decreases texts.len(),
{
    if texts.len() == 0 {
        Seq::empty()
    } else {
        concat_decoded(texts.drop_last()) + hex_decode(texts.last())
    }
}

/// The hashes of the transactions, in order.
pub open spec fn tx_hashes(transactions: Seq<TransactionView>) -> Seq<Seq<char>> {
    Seq::new(transactions.len(), |i: int| transactions[i].hash)
}

/// Whether a block can be put into bytes: parent and transaction hashes are
/// hex text.
pub open spec fn block_hashable(b: BlockView) -> bool {
    all_hex(b.parents) && all_hex(tx_hashes(b.transactions))
}

/// The first 24 bytes: index, timestamp and nonce, each little-endian.
pub open spec fn block_header(index: u64, timestamp: i64, nonce: u64) -> Seq<u8> {
    le_bytes(index) + le_bytes_signed(timestamp) + le_bytes(nonce)
}

/// The bytes after the header: the parent hashes, decoded, in ascending
/// order of their text, then the transaction hashes, decoded, in the order of
/// the transactions.
pub open spec fn block_tail(b: BlockView) -> Seq<u8> {
    concat_decoded(ascending(b.parents)) + concat_decoded(tx_hashes(b.transactions))
}

/// The hash the block has with the given nonce in place of its own.
pub open spec fn block_hash_at(b: BlockView, nonce: u64) -> Seq<char> {
    hex_encode(sha256(block_header(b.index, b.timestamp, nonce) + block_tail(b)))
}

/// The hash of a block: the hex text of the SHA-256 of header and tail.
pub open spec fn block_hash(b: BlockView) -> Seq<char> {
    block_hash_at(b, b.nonce)
}

/// The stored hash is the hash of the content.
pub open spec fn block_sealed(b: BlockView) -> bool {
    block_hashable(b) && b.hash == block_hash(b)
}

/// The block that is made of the given parts before it is mined: nonce 0,
/// sealed with its hash.
pub open spec fn candidate(
    index: u64,
    timestamp: i64,
    transactions: Seq<TransactionView>,
    parents: Seq<Seq<char>>,
) -> BlockView {
    let body = BlockView { index, timestamp, transactions, parents, hash: Seq::empty(), nonce: 0 };
    BlockView { hash: block_hash(body), ..body }
}

/// What `mine` does to a block. A block whose stored hash already meets the
/// difficulty is left alone; one that cannot be hashed is left alone and
/// reported; otherwise the nonce moves up to the first one whose hash meets
/// the difficulty, or to the largest nonce if there is none.
pub open spec fn mined(
    before: BlockView,
    after: BlockView,
    difficulty: u32,
    outcome: Result<(), MineError>,
) -> bool {
    &&& after.index == before.index
    &&& after.timestamp == before.timestamp
    &&& after.transactions == before.transactions
    &&& after.parents == before.parents
    &&& if has_leading_zeros(before.hash, difficulty as nat) {
        outcome is Ok && after == before
    } else if !block_hashable(before) {
        outcome == Err::<(), MineError>(MineError::Malformed) && after == before
    } else {
        &&& before.nonce <= after.nonce
        &&& forall|n: u64|
            before.nonce < n < after.nonce ==> !has_leading_zeros(
                #[trigger] block_hash_at(before, n),
                difficulty as nat,
            )
        &&& if after.nonce == before.nonce {
            after.hash == before.hash
        } else {
            after.hash == block_hash_at(before, after.nonce)
        }
        &&& match outcome {
            Ok(()) => before.nonce < after.nonce && has_leading_zeros(
                after.hash,
                difficulty as nat,
            ),
            Err(e) => e == MineError::Exhausted && after.nonce == u64::MAX && !has_leading_zeros(
                after.hash,
                difficulty as nat,
            ),
        }
    }
}

/// The first eight characters of a hash that has more than eight, and
/// `n/a` for a shorter one.
pub open spec fn short_hash(hash: Seq<char>) -> Seq<char> {
    if hash.len() > 8 {
        hash.subrange(0, 8)
    } else {
        "n/a"@
    }
}

/// The one-line description of a block.
pub open spec fn block_summary(b: BlockView) -> Seq<char> {
    "Block #"@ + decimal(b.index as nat) + " [Hash: "@ + short_hash(b.hash) + "... Nonce: "@
        + decimal(b.nonce as nat) + " Parents: "@ + decimal(b.parents.len()) + " Txs: "@ + decimal(
        b.transactions.len(),
    ) + "]"@
}

/// Two arrangements of the same strings are hex text together or not at all.
pub proof fn lemma_all_hex_of_permutation(first: Seq<Seq<char>>, second: Seq<Seq<char>>)
    requires
        first.to_multiset() == second.to_multiset(),
    ensures
        all_hex(first) == all_hex(second),
{
    if all_hex(first) {
        assert forall|i: int| 0 <= i < second.len() implies is_hex(#[trigger] second[i]) by {
            to_multiset_contains(second, second[i]);
            to_multiset_contains(first, second[i]);
            assert(second.contains(second[i]));
            let j = choose|j: int| 0 <= j < first.len() && first[j] == second[i];
            assert(is_hex(first[j]));
        }
    }
    if all_hex(second) {
        assert forall|i: int| 0 <= i < first.len() implies is_hex(#[trigger] first[i]) by {
            to_multiset_contains(first, first[i]);
            to_multiset_contains(second, first[i]);
            assert(first.contains(first[i]));
            let j = choose|j: int| 0 <= j < second.len() && second[j] == first[i];
            assert(is_hex(second[j]));
        }
    }
}

/// Whether `hash` starts with `difficulty` characters `0`.
pub fn meets_difficulty(hash: &str, difficulty: u32) -> (ok: bool)
    ensures
        ok == has_leading_zeros(hash@, difficulty as nat),
{
    let wanted = difficulty as usize;
    if hash.unicode_len() < wanted {
        return false;
    }
    for i in 0..wanted
        invariant
            wanted == difficulty,
            wanted <= hash@.len(),
            forall|j: int| 0 <= j < i ==> hash@[j] == '0',
    {
        if hash.get_char(i) != '0' {
            return false;
        }
    }
    true
}

/// Appends the decoded bytes of each string, in order. Fails when one of
/// them is not hex text.
fn append_decoded(texts: &Vec<String>, out: &mut Vec<u8>) -> (outcome: Result<(), EncodingError>)
    ensures
        outcome is Ok <==> all_hex(view_all(texts@)),
        outcome is Ok ==> final(out)@ == old(out)@ + concat_decoded(view_all(texts@)),
{
    let ghost all = view_all(texts@);
    let ghost start = out@;
    for i in 0..texts.len()
        invariant
            all == view_all(texts@),
            all_hex(all.take(i as int)),
            out@ == start + concat_decoded(all.take(i as int)),
    {
        assert(all[i as int] == texts@[i as int]@);
        match decode(texts[i].as_str()) {
            Ok(mut bytes) => {
                out.append(&mut bytes);
            },
            Err(_) => {
                return Err(EncodingError::NotHex);
            },
        }
        proof {
            let next = all.take(i + 1);
            assert(next.drop_last() =~= all.take(i as int));
            assert(next.last() == all[i as int]);
            assert(out@ =~= start + concat_decoded(next));
            assert forall|j: int| 0 <= j < next.len() implies is_hex(#[trigger] next[j]) by {
                if j < i {
                    assert(all.take(i as int)[j] == next[j]);
                }
            }
        }
    }
    assert(all.take(texts@.len() as int) =~= all);
    Ok(())
}

/// Appends the decoded hash of each transaction, in order. Fails when one of
/// them is not hex text.
fn append_tx_hashes(transactions: &Vec<Transaction>, out: &mut Vec<u8>) -> (outcome: Result<
    (),
    EncodingError,
>)
    ensures
        outcome is Ok <==> all_hex(tx_hashes(view_all(transactions@))),
        outcome is Ok ==> final(out)@ == old(out)@ + concat_decoded(
            tx_hashes(view_all(transactions@)),
        ),
{
    let ghost all = tx_hashes(view_all(transactions@));
    let ghost start = out@;
    for i in 0..transactions.len()
        invariant
            all == tx_hashes(view_all(transactions@)),
            all_hex(all.take(i as int)),
            out@ == start + concat_decoded(all.take(i as int)),
    {
        assert(all[i as int] == transactions@[i as int].hash@);
        match decode(transactions[i].hash.as_str()) {
            Ok(mut bytes) => {
                out.append(&mut bytes);
            },
            Err(_) => {
                return Err(EncodingError::NotHex);
            },
        }
        proof {
            let next = all.take(i + 1);
            assert(next.drop_last() =~= all.take(i as int));
            assert(next.last() == all[i as int]);
            assert(out@ =~= start + concat_decoded(next));
            assert forall|j: int| 0 <= j < next.len() implies is_hex(#[trigger] next[j]) by {
                if j < i {
                    assert(all.take(i as int)[j] == next[j]);
                }
            }
        }
    }
    assert(all.take(transactions@.len() as int) =~= all);
    Ok(())
}

/// The hash of a header followed by a tail.
fn seal(index: u64, timestamp: i64, nonce: u64, tail: &Vec<u8>) -> (hash: String)
    ensures
        hash@ == hex_encode(sha256(block_header(index, timestamp, nonce) + tail@)),
        hash@.len() == 64,
{
    let mut bytes: Vec<u8> = Vec::new();
    push_le(&mut bytes, index);
    push_le_signed(&mut bytes, timestamp);
    push_le(&mut bytes, nonce);
    let mut rest = tail.clone();
    assert(rest@ =~= tail@);
    bytes.append(&mut rest);
    assert(bytes@ =~= block_header(index, timestamp, nonce) + tail@);
    let digest = sha256_digest(bytes.as_slice());
    encode_hex(digest.as_slice())
}

/// Calls `Utc::now().timestamp()` of chrono: the seconds since the Unix
/// epoch by the system clock. Nothing is stated of the value.
#[verifier::external_body]
pub(crate) fn unix_now() -> (seconds: i64) {
    Utc::now().timestamp()
}

impl Block {
    /// A block stamped with the current time, with nonce 0 and sealed with
    /// its hash. Fails when a parent hash or a transaction hash is not hex
    /// text.
    pub fn new(index: u64, transactions: Vec<Transaction>, parents: Vec<String>) -> (made: Result<
        Block,
        EncodingError,
    >)
        ensures
            made is Ok <==> all_hex(view_all(parents@)) && all_hex(
                tx_hashes(view_all(transactions@)),
            ),
            made matches Ok(b) ==> {
                &&& b@.index == index
                &&& b@.transactions == view_all(transactions@)
                &&& b@.parents == view_all(parents@)
                &&& b@.nonce == 0
                &&& block_sealed(b@)
            },
    {
        Block::with_timestamp(index, unix_now(), transactions, parents)
    }

    /// A block with the given timestamp, with nonce 0 and sealed with its
    /// hash. Fails when a parent hash or a transaction hash is not hex text.
    pub fn with_timestamp(
        index: u64,
        timestamp: i64,
        transactions: Vec<Transaction>,
        parents: Vec<String>,
    ) -> (made: Result<Block, EncodingError>)
        ensures
            made is Ok <==> all_hex(view_all(parents@)) && all_hex(
                tx_hashes(view_all(transactions@)),
            ),
            made matches Ok(b) ==> {
                &&& b@ == candidate(index, timestamp, view_all(transactions@), view_all(parents@))
                &&& block_sealed(b@)
            },
    {
        let mut block = Block {
            index,
            timestamp,
            transactions,
            parents,
            hash: String::new(),
            nonce: 0,
        };
        let ghost unsealed = block@;
        match block.calculate_hash() {
            Ok(hash) => {
                block.hash = hash;
                assert(block_tail(block@) == block_tail(unsealed));
                Ok(block)
            },
            Err(e) => Err(e),
        }
    }

    /// A one-line description: index, the start of the hash, nonce, and the
    /// numbers of parents and transactions.
    pub fn summary(&self) -> (text: String)
        ensures
            text@ == block_summary(self@),
    {
        let hash = self.hash.as_str();
        let short = if hash.unicode_len() > 8 {
            hash.substring_char(0, 8)
        } else {
            "n/a"
        };
        let mut text = "Block #".to_owned();
        text.append(decimal_text(self.index).as_str());
        text.append(" [Hash: ");
        text.append(short);
        text.append("... Nonce: ");
        text.append(decimal_text(self.nonce).as_str());
        text.append(" Parents: ");
        text.append(decimal_text(self.parents.len() as u64).as_str());
        text.append(" Txs: ");
        text.append(decimal_text(self.transactions.len() as u64).as_str());
        text.append("]");
        assert(text@ =~= block_summary(self@));
        text
    }

    /// The bytes that follow the header when the block is hashed.
    pub fn tail_encoding(&self) -> (outcome: Result<Vec<u8>, EncodingError>)
        ensures
            outcome is Ok <==> block_hashable(self@),
            outcome matches Ok(bytes) ==> bytes@ == block_tail(self@),
    {
        let mut sorted = clone_strings(&self.parents);
        sort_strings(&mut sorted);
        proof {
            lemma_ascending_unique(self@.parents, view_all(sorted@));
            lemma_all_hex_of_permutation(self@.parents, view_all(sorted@));
        }
        let mut out: Vec<u8> = Vec::new();
        match append_decoded(&sorted, &mut out) {
            Ok(()) => {},
            Err(e) => {
                return Err(e);
            },
        }
        match append_tx_hashes(&self.transactions, &mut out) {
            Ok(()) => {},
            Err(e) => {
                return Err(e);
            },
        }
        assert(out@ =~= block_tail(self@));
        Ok(out)
    }

    /// The hash of the content, whatever the stored hash says.
    pub fn calculate_hash(&self) -> (outcome: Result<String, EncodingError>)
        ensures
            outcome is Ok <==> block_hashable(self@),
            outcome matches Ok(hash) ==> hash@ == block_hash(self@) && hash@.len() == 64,
    {
        match self.tail_encoding() {
            Ok(tail) => Ok(seal(self.index, self.timestamp, self.nonce, &tail)),
            Err(e) => Err(e),
        }
    }

    /// Searches for a nonce whose hash starts with `difficulty` zeros, from
    /// the nonce after the current one upwards, and stops at the first.
    ///
    /// On success the hash has the leading zeros, and a block that was sealed
    /// before is sealed after.
    pub fn mine(&mut self, difficulty: u32) -> (outcome: Result<(), MineError>)
        ensures
            mined(old(self)@, final(self)@, difficulty, outcome),
            outcome is Ok ==> has_leading_zeros(final(self)@.hash, difficulty as nat),
            outcome is Ok && block_sealed(old(self)@) ==> block_sealed(final(self)@),
    {
        let ghost before = self@;
        if meets_difficulty(self.hash.as_str(), difficulty) {
            return Ok(());
        }
        let tail = match self.tail_encoding() {
            Ok(bytes) => bytes,
            Err(_) => {
                return Err(MineError::Malformed);
            },
        };
        let mut found = false;
        while !found && self.nonce < u64::MAX
            invariant
                self@.index == before.index,
                self@.timestamp == before.timestamp,
                self@.transactions == before.transactions,
                self@.parents == before.parents,
                block_hashable(before),
                tail@ == block_tail(before),
                before.nonce <= self@.nonce,
                !has_leading_zeros(before.hash, difficulty as nat),
                found == has_leading_zeros(self@.hash, difficulty as nat),
                forall|n: u64|
                    before.nonce < n < self@.nonce ==> !has_leading_zeros(
                        #[trigger] block_hash_at(before, n),
                        difficulty as nat,
                    ),
                if self@.nonce == before.nonce {
                    self@.hash == before.hash
                } else {
                    self@.hash == block_hash_at(before, self@.nonce)
                },
            decreases u64::MAX - self.nonce,
        {
            self.nonce = self.nonce + 1;
            self.hash = seal(self.index, self.timestamp, self.nonce, &tail);
            found = meets_difficulty(self.hash.as_str(), difficulty);
        }
        assert(block_tail(self@) == block_tail(before));
        if found {
            Ok(())
        } else {
            Err(MineError::Exhausted)
        }
    }
}

} // verus!
