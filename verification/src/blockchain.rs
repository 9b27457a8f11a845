//! Blocks, their proof-of-work hashes, and a chain that only ever holds
//! correctly linked blocks.

use crate::digest::{append_bytes, append_decimal, base64_standard, decimal_digits, hash_base64, sha3_256_digest};
use vstd::prelude::*;

verus! {

/// The byte length (and character length) of every block hash: the standard
/// base64 rendering of a 32-byte SHA3-256 digest.
pub const HASH_LEN: usize = 44;

/// The bytes that a block hash digests: the decimal index, the previous hash,
/// the decimal timestamp, the block data and the decimal nonce, concatenated.
pub open spec fn hash_preimage(
    index: u32,
    previous_hash: Seq<char>,
    timestamp: u64,
    block_data: Seq<char>,
    nonce: u64,
) -> Seq<u8> {
    decimal_digits(index as nat) + vstd::utf8::encode_utf8(previous_hash) + decimal_digits(
        timestamp as nat,
    ) + vstd::utf8::encode_utf8(block_data) + decimal_digits(nonce as nat)
}

/// The hash of a block with these contents: SHA3-256 of the preimage, in standard base64.
pub open spec fn block_hash(
    index: u32,
    previous_hash: Seq<char>,
    timestamp: u64,
    block_data: Seq<char>,
    nonce: u64,
) -> Seq<char> {
    base64_standard(sha3_256_digest(hash_preimage(index, previous_hash, timestamp, block_data, nonce)))
}

/// A hash proves `difficulty` units of work when it starts with `difficulty` zeros.
pub open spec fn work_proven(difficulty: usize, hash: Seq<char>) -> bool {
    forall|i: int| 0 <= i < difficulty ==> hash[i] == '0'
}

/// Whether `nonce` proves the work that `difficulty` asks of a block with these contents.
pub open spec fn nonce_works(
    difficulty: usize,
    index: u32,
    previous_hash: Seq<char>,
    timestamp: u64,
    block_data: Seq<char>,
    nonce: u64,
) -> bool {
    work_proven(difficulty, block_hash(index, previous_hash, timestamp, block_data, nonce))
}

/// `nonce` is the smallest nonce that proves the work.
pub open spec fn least_working_nonce(
    difficulty: usize,
    index: u32,
    previous_hash: Seq<char>,
    timestamp: u64,
    block_data: Seq<char>,
    nonce: u64,
) -> bool {
    &&& nonce_works(difficulty, index, previous_hash, timestamp, block_data, nonce)
    &&& forall|m: u64|
        m < nonce ==> !#[trigger] nonce_works(difficulty, index, previous_hash, timestamp, block_data, m)
}

/// The contents of a block.
pub struct BlockView {
    pub index: u32,
    pub previous_hash: Seq<char>,
    pub timestamp: u64,
    pub block_data: Seq<char>,
    pub nonce: u64,
    pub difficulty: usize,
    pub hash: Seq<char>,
}

impl BlockView {
    /// The hash that the block's contents give, whatever its stored hash says.
    pub open spec fn computed_hash(self) -> Seq<char> {
        block_hash(self.index, self.previous_hash, self.timestamp, self.block_data, self.nonce)
    }
}

/// The block that `Block::new` builds: its hash is computed from its contents.
pub open spec fn new_block_view(
    index: u32,
    previous_hash: Seq<char>,
    timestamp: u64,
    block_data: Seq<char>,
    difficulty: usize,
    nonce: u64,
) -> BlockView {
    BlockView {
        index,
        previous_hash,
        timestamp,
        block_data,
        nonce,
        difficulty,
        hash: block_hash(index, previous_hash, timestamp, block_data, nonce),
    }
}

/// The first block of every chain.
pub open spec fn genesis_view() -> BlockView {
    new_block_view(0, "0"@, 0, "<<Genesis block data>>"@, 0, 0)
}

/// The block minted on top of `previous` with this nonce.
pub open spec fn mined_block(
    previous: BlockView,
    difficulty: usize,
    timestamp: u64,
    block_data: Seq<char>,
    nonce: u64,
) -> BlockView {
    new_block_view(
        (previous.index + 1) as u32,
        previous.hash,
        timestamp,
        block_data,
        difficulty,
        nonce,
    )
}

/// Why a block or a chain was refused.
pub enum ChainFault {
    EmptyChain,
    InvalidIndex,
    InvalidPreviousHash(Seq<char>),
    InvalidHash(Seq<char>),
    WorkNotProven,
}

/// Whether `new` may follow `previous`, and if not, the first reason in the
/// order index, previous hash, own hash, work.
pub open spec fn link_outcome(previous: BlockView, new: BlockView) -> Result<(), ChainFault> {
    if previous.index + 1 != new.index {
        Err(ChainFault::InvalidIndex)
    } else if previous.hash != new.previous_hash {
        Err(ChainFault::InvalidPreviousHash(new.previous_hash))
    } else if new.computed_hash() != new.hash {
        Err(ChainFault::InvalidHash(new.hash))
    } else if !work_proven(new.difficulty, new.computed_hash()) {
        Err(ChainFault::WorkNotProven)
    } else {
        Ok(())
    }
}

/// The verdict on a sequence of blocks: empty sequences are refused, and
/// otherwise the first link, from the front, that fails decides.
pub open spec fn chain_outcome(blocks: Seq<BlockView>) -> Result<(), ChainFault>
    decreases blocks.len(),
{
    if blocks.len() == 0 {
        Err(ChainFault::EmptyChain)
    } else if blocks.len() == 1 {
        Ok(())
    } else {
        match link_outcome(blocks[0], blocks[1]) {
            Err(e) => Err(e),
            Ok(_) => chain_outcome(blocks.drop_first()),
        }
    }
}

/// A chain as the chain operations keep it: never empty, every difficulty
/// within the hash length, and every block correctly linked to the one before.
pub open spec fn linked_chain(blocks: Seq<BlockView>) -> bool {
    &&& blocks.len() >= 1
    &&& forall|i: int| 0 <= i < blocks.len() ==> #[trigger] blocks[i].difficulty <= HASH_LEN
    &&& forall|i: int|
        0 <= i < blocks.len() - 1 ==> #[trigger] link_outcome(blocks[i], blocks[i + 1]) is Ok
}

/// Why a block or a chain was refused.
#[derive(Debug)]
pub enum BlockChainError {
    EmptyChain,
    InvalidIndex,
    InvalidPreviousHash(String),
    InvalidHash(String),
    WorkNotProven,
}

impl View for BlockChainError {
    type V = ChainFault;

    open spec fn view(&self) -> ChainFault {
        match self {
            BlockChainError::EmptyChain => ChainFault::EmptyChain,
            BlockChainError::InvalidIndex => ChainFault::InvalidIndex,
            BlockChainError::InvalidPreviousHash(h) => ChainFault::InvalidPreviousHash(h@),
            BlockChainError::InvalidHash(h) => ChainFault::InvalidHash(h@),
            BlockChainError::WorkNotProven => ChainFault::WorkNotProven,
        }
    }
}

/// A verdict, with the refusal seen through its view.
pub open spec fn verdict(r: Result<(), BlockChainError>) -> Result<(), ChainFault> {
    match r {
        Ok(_) => Ok(()),
        Err(e) => Err(e@),
    }
}

/// One block of the chain.
#[derive(Debug, Clone)]
pub struct Block {
    index: u32,
    previous_hash: String,
    timestamp: u64,
    block_data: String,
    nonce: u64,
    difficulty: usize,
    hash: String,
}

impl View for Block {
    type V = BlockView;

    closed spec fn view(&self) -> BlockView {
        BlockView {
            index: self.index,
            previous_hash: self.previous_hash@,
            timestamp: self.timestamp,
            block_data: self.block_data@,
            nonce: self.nonce,
            difficulty: self.difficulty,
            hash: self.hash@,
        }
    }
}

/// The hash of a block with these contents.
fn calculate_hash_base64(
    index: u32,
    previous_hash: &str,
    timestamp: u64,
    blockdata: &str,
    nonce: u64,
) -> (hash: String)
    ensures
        hash@ == block_hash(index, previous_hash@, timestamp, blockdata@, nonce),
        hash@.len() == HASH_LEN,
{
    let mut concat_bytes: Vec<u8> = Vec::new();
    append_decimal(&mut concat_bytes, index as u64);
    append_bytes(&mut concat_bytes, previous_hash.as_bytes());
    append_decimal(&mut concat_bytes, timestamp);
    append_bytes(&mut concat_bytes, blockdata.as_bytes());
    append_decimal(&mut concat_bytes, nonce);
    proof {
        assert(concat_bytes@ =~= hash_preimage(index, previous_hash@, timestamp, blockdata@, nonce));
    }
    hash_base64(&concat_bytes)
}

impl Block {
    /// Builds a block and computes its hash from its contents.
    pub fn new(
        index: u32,
        previous_hash: String,
        timestamp: u64,
        block_data: String,
        difficulty: usize,
        nonce: u64,
    ) -> (block: Block)
        ensures
            block@ == new_block_view(index, previous_hash@, timestamp, block_data@, difficulty, nonce),
            block@.hash.len() == HASH_LEN,
    {
        let hash = calculate_hash_base64(
            index,
            previous_hash.as_str(),
            timestamp,
            block_data.as_str(),
            nonce,
        );
        Block { index, previous_hash, timestamp, block_data, nonce, difficulty, hash }
    }

    /// Recomputes the hash from the block's contents.
    pub fn get_hash(&self) -> (hash: String)
        ensures
            hash@ == self@.computed_hash(),
            hash@.len() == HASH_LEN,
    {
        calculate_hash_base64(
            self.index,
            self.previous_hash.as_str(),
            self.timestamp,
            self.block_data.as_str(),
            self.nonce,
        )
    }

    /// The block's position in its chain.
    pub fn index(&self) -> (index: u32)
        ensures
            index == self@.index,
    {
        self.index
    }
}

/// The first block of every chain.
pub fn genesis_block() -> (block: Block)
    ensures
        block@ == genesis_view(),
{
    let index: u32 = 0;
    let previous_hash = "0".to_owned();
    let timestamp: u64 = 0;
    let nonce: u64 = 0;
    let difficulty: usize = 0;
    let block_data = "<<Genesis block data>>".to_owned();
    let hash = calculate_hash_base64(index, previous_hash.as_str(), timestamp, block_data.as_str(), nonce);
    Block { index, previous_hash, timestamp, block_data, nonce, difficulty, hash }
}

/// Whether `nonce` proves the work that `difficulty` asks of a block with these contents.
fn is_work_proven(
    difficulty: usize,
    index: u32,
    previous_hash: &str,
    timestamp: u64,
    blockdata: &str,
    nonce: u64,
) -> (proven: bool)
    requires
        difficulty <= HASH_LEN,
    ensures
        proven == nonce_works(difficulty, index, previous_hash@, timestamp, blockdata@, nonce),
{
    let hash = calculate_hash_base64(index, previous_hash, timestamp, blockdata, nonce);
    let hash_str = hash.as_str();
    let mut i: usize = 0;
    while i < difficulty
        invariant
            i <= difficulty <= HASH_LEN,
            hash_str@ == block_hash(index, previous_hash@, timestamp, blockdata@, nonce),
            hash_str@.len() == HASH_LEN,
            forall|j: int| 0 <= j < i ==> hash_str@[j] == '0',
        decreases difficulty - i,
    {
        if hash_str.get_char(i) != '0' {
            return false;
        }
        i = i + 1;
    }
    true
}

/// The smallest nonce that proves the work, or `None` when no `u64` does.
fn proof_of_work(
    index: u32,
    difficulty: usize,
    previous_hash: &str,
    timestamp: u64,
    blockdata: &str,
) -> (nonce: Option<u64>)
    requires
        difficulty <= HASH_LEN,
    ensures
        match nonce {
            Some(n) => least_working_nonce(difficulty, index, previous_hash@, timestamp, blockdata@, n),
            None => forall|n: u64|
                !#[trigger] nonce_works(difficulty, index, previous_hash@, timestamp, blockdata@, n),
        },
{
    let mut nonce: u64 = 0;
    loop
        invariant
            difficulty <= HASH_LEN,
            forall|m: u64|
                m < nonce ==> !#[trigger] nonce_works(difficulty, index, previous_hash@, timestamp, blockdata@, m),
        decreases u64::MAX - nonce,
    {
        if is_work_proven(difficulty, index, previous_hash, timestamp, blockdata, nonce) {
            return Some(nonce);
        }
        if nonce == u64::MAX {
            return None;
        }
        nonce = nonce + 1;
    }
}

/// The block minted on top of `previous_block`: the next index, the previous
/// hash, the given timestamp and data, and the smallest nonce that proves the
/// work; `None` when no `u64` nonce does.
fn generate_next_block(
    previous_block: &Block,
    difficulty: usize,
    timestamp: u64,
    block_data: &str,
) -> (block: Option<Block>)
    requires
        difficulty <= HASH_LEN,
        previous_block@.index < u32::MAX,
    ensures
        match block {
            Some(b) => b@ == mined_block(previous_block@, difficulty, timestamp, block_data@, b@.nonce)
                && least_working_nonce(
                difficulty,
                (previous_block@.index + 1) as u32,
                previous_block@.hash,
                timestamp,
                block_data@,
                b@.nonce,
            ),
            None => forall|n: u64|
                !#[trigger] nonce_works(
                    difficulty,
                    (previous_block@.index + 1) as u32,
                    previous_block@.hash,
                    timestamp,
                    block_data@,
                    n,
                ),
        },
{
    let index: u32 = previous_block.index + 1;
    match proof_of_work(index, difficulty, previous_block.hash.as_str(), timestamp, block_data) {
        Some(nonce) => Some(
            Block::new(
                index,
                previous_block.hash.clone(),
                timestamp,
                block_data.to_owned(),
                difficulty,
                nonce,
            ),
        ),
        None => None,
    }
}

/// Whether `new_block` may follow `previous_block`; the first failing check
/// decides the error.
fn is_valid_block(previous_block: &Block, new_block: &Block) -> (r: Result<(), BlockChainError>)
    requires
        previous_block@.index < u32::MAX,
        new_block@.difficulty <= HASH_LEN,
    ensures
        verdict(r) == link_outcome(previous_block@, new_block@),
{
    let work_invalid = !is_work_proven(
        new_block.difficulty,
        new_block.index,
        new_block.previous_hash.as_str(),
        new_block.timestamp,
        new_block.block_data.as_str(),
        new_block.nonce,
    );
    if previous_block.index + 1 != new_block.index {
        Err(BlockChainError::InvalidIndex)
    } else if previous_block.hash != new_block.previous_hash {
        Err(BlockChainError::InvalidPreviousHash(new_block.previous_hash.clone()))
    } else if new_block.get_hash() != new_block.hash {
        Err(BlockChainError::InvalidHash(new_block.hash.clone()))
    } else if work_invalid {
        Err(BlockChainError::WorkNotProven)
    } else {
        Ok(())
    }
}


/// The verdict on a sequence of blocks, checking each link from the front.
fn is_valid_chain(blocks: &[Block]) -> (r: Result<(), BlockChainError>)
    requires
        forall|i: int| 0 <= i < blocks@.len() - 1 ==> (#[trigger] blocks@[i])@.index < u32::MAX,
        forall|i: int| 1 <= i < blocks@.len() ==> (#[trigger] blocks@[i])@.difficulty <= HASH_LEN,
    ensures
        verdict(r) == chain_outcome(blocks@.map_values(|b: Block| b@)),
{
    let ghost views = blocks@.map_values(|b: Block| b@);
    let chain_len: usize = blocks.len();
    if chain_len == 0 {
        return Err(BlockChainError::EmptyChain);
    }
    let mut i: usize = 0;
    assert(views.skip(0) =~= views);
    while i + 1 < chain_len
        invariant
            chain_len == blocks@.len(),
            views == blocks@.map_values(|b: Block| b@),
            i < chain_len,
            forall|k: int| 0 <= k < blocks@.len() - 1 ==> (#[trigger] blocks@[k])@.index < u32::MAX,
            forall|k: int| 1 <= k < blocks@.len() ==> (#[trigger] blocks@[k])@.difficulty <= HASH_LEN,
            chain_outcome(views) == chain_outcome(views.skip(i as int)),
        decreases chain_len - i,
    {
        let ghost rest = views.skip(i as int);
        assert(rest[0] == blocks@[i as int]@);
        assert(rest[1] == blocks@[i + 1]@);
        match is_valid_block(&blocks[i], &blocks[i + 1]) {
            Err(e) => {
                return Err(e);
            },
            Ok(_) => {
                assert(rest.drop_first() =~= views.skip(i + 1));
            },
        }
        i = i + 1;
    }
    Ok(())
}

/// A chain of blocks, from the genesis block on.
#[derive(Debug)]
pub struct BlockChain {
    blocks: Vec<Block>,
}

impl View for BlockChain {
    type V = Seq<BlockView>;

    closed spec fn view(&self) -> Seq<BlockView> {
        self.blocks@.map_values(|b: Block| b@)
    }
}

/// What minting `block_data` on top of `before` with this difficulty and
/// timestamp leaves: one more block, whose nonce is the smallest that proves
/// the work; or, when no `u64` nonce proves it, the chain unchanged.
pub open spec fn minted(
    before: Seq<BlockView>,
    after: Seq<BlockView>,
    block_data: Seq<char>,
    difficulty: usize,
    timestamp: u64,
) -> bool {
    let previous = before.last();
    ||| {
        &&& after == before.push(
            mined_block(previous, difficulty, timestamp, block_data, after.last().nonce),
        )
        &&& least_working_nonce(
            difficulty,
            (previous.index + 1) as u32,
            previous.hash,
            timestamp,
            block_data,
            after.last().nonce,
        )
    }
    ||| {
        &&& after == before
        &&& forall|n: u64|
            !#[trigger] nonce_works(
                difficulty,
                (previous.index + 1) as u32,
                previous.hash,
                timestamp,
                block_data,
                n,
            )
    }
}

impl BlockChain {
    /// The chain invariant: see `linked_chain`.
    pub open spec fn wf(&self) -> bool {
        linked_chain(self@)
    }

    /// A chain that holds the genesis block alone.
    pub fn new() -> (chain: BlockChain)
        ensures
            chain.wf(),
            chain@ == seq![genesis_view()],
    {
        let mut blocks: Vec<Block> = Vec::new();
        blocks.push(genesis_block());
        let chain = BlockChain { blocks };
        assert(chain@ =~= seq![genesis_view()]);
        chain
    }

    /// The most recent block.
    pub fn last_block(&self) -> (block: &Block)
        requires
            self.wf(),
        ensures
            block@ == self@.last(),
    {
        &self.blocks[self.blocks.len() - 1]
    }

    /// Mints a block holding `block_data` on top of the last block, stamped
    /// with `timestamp` (the caller reads the clock): see `minted`.
    pub fn mint_block(&mut self, block_data: &str, difficulty: usize, timestamp: u64)
        requires
            old(self).wf(),
            difficulty <= HASH_LEN,
            old(self)@.last().index < u32::MAX,
        ensures
            final(self).wf(),
            minted(old(self)@, final(self)@, block_data@, difficulty, timestamp),
    {
        let last: usize = self.blocks.len() - 1;
        match generate_next_block(&self.blocks[last], difficulty, timestamp, block_data) {
            Some(new_block) => {
                proof {
                    lemma_mined_block_links(self@.last(), difficulty, timestamp, block_data@, new_block@.nonce);
                }
                self.blocks.push(new_block);
                proof {
                    let before = old(self)@;
                    let after = self@;
                    assert(after =~= before.push(new_block@));
                    assert forall|i: int| 0 <= i < after.len() - 1 implies #[trigger] link_outcome(after[i], after[i + 1]) is Ok by {
                        if i < after.len() - 2 {
                            assert(after[i] == before[i] && after[i + 1] == before[i + 1]);
                        }
                    }
                    assert forall|i: int| 0 <= i < after.len() implies #[trigger] after[i].difficulty <= HASH_LEN by {
                        if i < after.len() - 1 {
                            assert(after[i] == before[i]);
                        }
                    }
                }
            },
            None => {},
        }
    }

    /// Appends `new_block` when it may follow the last block; otherwise leaves
    /// the chain unchanged and says why.
    pub fn add_block(&mut self, new_block: Block) -> (r: Result<(), BlockChainError>)
        requires
            old(self).wf(),
            old(self)@.last().index < u32::MAX,
            new_block@.difficulty <= HASH_LEN,
        ensures
            final(self).wf(),
            verdict(r) == link_outcome(old(self)@.last(), new_block@),
            r is Ok ==> final(self)@ == old(self)@.push(new_block@),
            r is Err ==> final(self)@ == old(self)@,
    {
        let last: usize = self.blocks.len() - 1;
        proof {
            lemma_linked_indices_bounded(self@);
        }
        match is_valid_block(&self.blocks[last], &new_block) {
            Err(err) => Err(err),
            Ok(_) => {
                let ghost new_view = new_block@;
                self.blocks.push(new_block);
                proof {
                    let before = old(self)@;
                    let after = self@;
                    assert(after =~= before.push(new_view));
                    assert forall|i: int| 0 <= i < after.len() - 1 implies #[trigger] link_outcome(after[i], after[i + 1]) is Ok by {
                        if i < after.len() - 2 {
                            assert(after[i] == before[i] && after[i + 1] == before[i + 1]);
                        }
                    }
                    assert forall|i: int| 0 <= i < after.len() implies #[trigger] after[i].difficulty <= HASH_LEN by {
                        if i < after.len() - 1 {
                            assert(after[i] == before[i]);
                        }
                    }
                }
                Ok(())
            },
        }
    }

    /// The verdict on the whole chain; a chain kept by these operations is always valid.
    pub fn is_valid_chain(&self) -> (r: Result<(), BlockChainError>)
        requires
            self.wf(),
        ensures
            verdict(r) == chain_outcome(self@),
            r is Ok,
    {
        proof {
            lemma_linked_indices_bounded(self@);
            lemma_linked_chain_is_valid(self@);
            assert(self.blocks@.map_values(|b: Block| b@) == self@);
            assert forall|i: int| 0 <= i < self.blocks@.len() implies (#[trigger] self.blocks@[i])@ == self@[i] by {}
        }
        is_valid_chain(self.blocks.as_slice())
    }
}

/// In a linked chain every block but the last has an index below `u32::MAX`,
/// since its successor's index is one more.
pub proof fn lemma_linked_indices_bounded(blocks: Seq<BlockView>)
    requires
        linked_chain(blocks),
    ensures
        forall|i: int| 0 <= i < blocks.len() - 1 ==> (#[trigger] blocks[i]).index < u32::MAX,
{
    assert forall|i: int| 0 <= i < blocks.len() - 1 implies (#[trigger] blocks[i]).index < u32::MAX by {
        assert(link_outcome(blocks[i], blocks[i + 1]) is Ok);
    }
}

/// Every chain that the chain operations keep passes the chain check.
pub proof fn lemma_linked_chain_is_valid(blocks: Seq<BlockView>)
    requires
        linked_chain(blocks),
    ensures
        chain_outcome(blocks) is Ok,
    decreases blocks.len(),
{
    if blocks.len() > 1 {
        assert(link_outcome(blocks[0], blocks[1]) is Ok);
        let rest = blocks.drop_first();
        assert forall|i: int| 0 <= i < rest.len() - 1 implies #[trigger] link_outcome(rest[i], rest[i + 1]) is Ok by {
            assert(link_outcome(blocks[i + 1], blocks[i + 2]) is Ok);
        }
        assert forall|i: int| 0 <= i < rest.len() implies #[trigger] rest[i].difficulty <= HASH_LEN by {
            assert(blocks[i + 1].difficulty <= HASH_LEN);
        }
        lemma_linked_chain_is_valid(rest);
    }
}

/// A block built from its contents carries the hash that recomputing it gives:
/// `get_hash` on a block from `Block::new` returns the block's own hash.
pub proof fn lemma_new_block_hash_matches(
    index: u32,
    previous_hash: Seq<char>,
    timestamp: u64,
    block_data: Seq<char>,
    difficulty: usize,
    nonce: u64,
)
    ensures
        new_block_view(index, previous_hash, timestamp, block_data, difficulty, nonce).computed_hash()
            == new_block_view(index, previous_hash, timestamp, block_data, difficulty, nonce).hash,
{
}

/// A block minted on `previous` with a nonce that proves the work is
/// accepted after `previous`.
pub proof fn lemma_mined_block_links(
    previous: BlockView,
    difficulty: usize,
    timestamp: u64,
    block_data: Seq<char>,
    nonce: u64,
)
    requires
        previous.index < u32::MAX,
        nonce_works(difficulty, (previous.index + 1) as u32, previous.hash, timestamp, block_data, nonce),
    ensures
        link_outcome(previous, mined_block(previous, difficulty, timestamp, block_data, nonce)) is Ok,
{
}


/// A block follows `previous` exactly when its index is one more, it names
/// `previous`'s hash, its stored hash is the hash of its contents, and that
/// hash starts with `difficulty` zeros.
pub proof fn lemma_link_accepts_exactly_proven_successors(previous: BlockView, new: BlockView)
    ensures
        link_outcome(previous, new) is Ok <==> {
            &&& new.index == previous.index + 1
            &&& new.previous_hash == previous.hash
            &&& new.hash == block_hash(new.index, new.previous_hash, new.timestamp, new.block_data, new.nonce)
            &&& forall|i: int| 0 <= i < new.difficulty ==> #[trigger] new.hash[i] == '0'
        },
        link_outcome(previous, new) == Err::<(), ChainFault>(ChainFault::WorkNotProven) <==> {
            &&& new.index == previous.index + 1
            &&& new.previous_hash == previous.hash
            &&& new.hash == block_hash(new.index, new.previous_hash, new.timestamp, new.block_data, new.nonce)
            &&& exists|i: int| 0 <= i < new.difficulty && #[trigger] new.hash[i] != '0'
        },
{
}

/// A minted block's hash starts with `difficulty` zeros, and with every
/// smaller nonce the block's hash would not.
pub proof fn lemma_minted_block_proves_work(
    before: Seq<BlockView>,
    after: Seq<BlockView>,
    block_data: Seq<char>,
    difficulty: usize,
    timestamp: u64,
)
    requires
        minted(before, after, block_data, difficulty, timestamp),
        after.len() == before.len() + 1,
        before.last().index < u32::MAX,
    ensures
        forall|i: int| 0 <= i < difficulty ==> #[trigger] after.last().hash[i] == '0',
        forall|m: u64|
            m < after.last().nonce ==> !work_proven(
                difficulty,
                #[trigger] block_hash(after.last().index, after.last().previous_hash, timestamp, block_data, m),
            ),
        after.last().index == before.last().index + 1,
        after.last().previous_hash == before.last().hash,
        after.last().timestamp == timestamp,
        after.last().block_data == block_data,
        after.last().difficulty == difficulty,
{
    let previous = before.last();
    assert(after != before);
    assert(after.last() == mined_block(previous, difficulty, timestamp, block_data, after.last().nonce));
    assert forall|m: u64| m < after.last().nonce implies !work_proven(
        difficulty,
        #[trigger] block_hash(after.last().index, after.last().previous_hash, timestamp, block_data, m),
    ) by {
        assert(!nonce_works(difficulty, (previous.index + 1) as u32, previous.hash, timestamp, block_data, m));
    }
}

/// The number that ASCII decimal digits spell, most significant first.
pub open spec fn decimal_value(digits: Seq<u8>) -> int
    decreases digits.len(),
{
    if digits.len() == 0 {
        0
    } else {
        decimal_value(digits.drop_last()) * 10 + (digits.last() - 48)
    }
}

/// The decimal rendering of `n` is made of ASCII digits, does not start with
/// a zero unless it is `"0"`, and spells `n`.
pub proof fn lemma_decimal_digits_spell(n: nat)
    ensures
        decimal_value(decimal_digits(n)) == n,
        decimal_digits(n).len() >= 1,
        forall|i: int| 0 <= i < decimal_digits(n).len() ==> 48 <= #[trigger] decimal_digits(n)[i] <= 57,
        n > 0 ==> decimal_digits(n)[0] != 48,
    decreases n,
{
    if n < 10 {
        assert(decimal_digits(n).drop_last() =~= Seq::<u8>::empty());
        assert(decimal_value(Seq::<u8>::empty()) == 0);
    } else {
        assert(n == (n / 10) * 10 + n % 10);
        lemma_decimal_digits_spell(n / 10);
        let d = decimal_digits(n);
        assert(d.drop_last() =~= decimal_digits(n / 10));
        assert forall|i: int| 0 <= i < d.len() implies 48 <= #[trigger] d[i] <= 57 by {
            if i < d.len() - 1 {
                assert(d[i] == decimal_digits(n / 10)[i]);
            }
        }
        assert(d[0] == decimal_digits(n / 10)[0]);
        assert(d.last() == 48 + n % 10);
        assert(decimal_value(d) == decimal_value(d.drop_last()) * 10 + (d.last() - 48));
    }
}

proof fn lemma_concat_middle(a: Seq<u8>, x1: Seq<u8>, x2: Seq<u8>, b: Seq<u8>)
    requires
        a + x1 + b == a + x2 + b,
    ensures
        x1 == x2,
{
    let w1 = a + x1 + b;
    let w2 = a + x2 + b;
    assert(w1.len() == a.len() + x1.len() + b.len());
    assert(w2.len() == a.len() + x2.len() + b.len());
    assert(x1.len() == x2.len());
    assert forall|i: int| 0 <= i < x1.len() implies x1[i] == x2[i] by {
        assert(w1[a.len() + i] == x1[i]);
        assert(w2[a.len() + i] == x2[i]);
    }
    assert(x1 =~= x2);
}

proof fn lemma_decimal_injective(m: nat, n: nat)
    requires
        decimal_digits(m) == decimal_digits(n),
    ensures
        m == n,
{
    lemma_decimal_digits_spell(m);
    lemma_decimal_digits_spell(n);
}

proof fn lemma_utf8_injective(s1: Seq<char>, s2: Seq<char>)
    requires
        vstd::utf8::encode_utf8(s1) == vstd::utf8::encode_utf8(s2),
    ensures
        s1 == s2,
{
    vstd::utf8::encode_utf8_decode_utf8(s1);
    vstd::utf8::encode_utf8_decode_utf8(s2);
}

/// The bytes a block hash digests determine every field they are made of:
/// changing any one of index, previous hash, timestamp, data or nonce
/// changes them.
#[verifier::rlimit(40)]
pub proof fn lemma_hash_preimage_commits_to_each_field(
    index: u32,
    index2: u32,
    previous_hash: Seq<char>,
    previous_hash2: Seq<char>,
    timestamp: u64,
    timestamp2: u64,
    block_data: Seq<char>,
    block_data2: Seq<char>,
    nonce: u64,
    nonce2: u64,
)
    ensures
        index != index2 ==> hash_preimage(index, previous_hash, timestamp, block_data, nonce)
            != hash_preimage(index2, previous_hash, timestamp, block_data, nonce),
        previous_hash != previous_hash2 ==> hash_preimage(index, previous_hash, timestamp, block_data, nonce)
            != hash_preimage(index, previous_hash2, timestamp, block_data, nonce),
        timestamp != timestamp2 ==> hash_preimage(index, previous_hash, timestamp, block_data, nonce)
            != hash_preimage(index, previous_hash, timestamp2, block_data, nonce),
        block_data != block_data2 ==> hash_preimage(index, previous_hash, timestamp, block_data, nonce)
            != hash_preimage(index, previous_hash, timestamp, block_data2, nonce),
        nonce != nonce2 ==> hash_preimage(index, previous_hash, timestamp, block_data, nonce)
            != hash_preimage(index, previous_hash, timestamp, block_data, nonce2),
{
    let di = decimal_digits(index as nat);
    let di2 = decimal_digits(index2 as nat);
    let p = vstd::utf8::encode_utf8(previous_hash);
    let p2 = vstd::utf8::encode_utf8(previous_hash2);
    let t = decimal_digits(timestamp as nat);
    let t2 = decimal_digits(timestamp2 as nat);
    let d = vstd::utf8::encode_utf8(block_data);
    let d2 = vstd::utf8::encode_utf8(block_data2);
    let n = decimal_digits(nonce as nat);
    let n2 = decimal_digits(nonce2 as nat);
    let e = Seq::<u8>::empty();
    assert(index != index2 ==> hash_preimage(index, previous_hash, timestamp, block_data, nonce) != hash_preimage(index2, previous_hash, timestamp, block_data, nonce)) by {
        if index != index2 && hash_preimage(index, previous_hash, timestamp, block_data, nonce) == hash_preimage(index2, previous_hash, timestamp, block_data, nonce) {
            assert(hash_preimage(index, previous_hash, timestamp, block_data, nonce) =~= e + di + (p + t + d + n));
            assert(hash_preimage(index2, previous_hash, timestamp, block_data, nonce) =~= e + di2 + (p + t + d + n));
            lemma_concat_middle(e, di, di2, p + t + d + n);
            lemma_decimal_injective(index as nat, index2 as nat);
        }
    }
    assert(previous_hash != previous_hash2 ==> hash_preimage(index, previous_hash, timestamp, block_data, nonce) != hash_preimage(index, previous_hash2, timestamp, block_data, nonce)) by {
        if previous_hash != previous_hash2 && hash_preimage(index, previous_hash, timestamp, block_data, nonce) == hash_preimage(index, previous_hash2, timestamp, block_data, nonce) {
            assert(hash_preimage(index, previous_hash, timestamp, block_data, nonce) =~= di + p + (t + d + n));
            assert(hash_preimage(index, previous_hash2, timestamp, block_data, nonce) =~= di + p2 + (t + d + n));
            lemma_concat_middle(di, p, p2, t + d + n);
            lemma_utf8_injective(previous_hash, previous_hash2);
        }
    }
    assert(timestamp != timestamp2 ==> hash_preimage(index, previous_hash, timestamp, block_data, nonce) != hash_preimage(index, previous_hash, timestamp2, block_data, nonce)) by {
        if timestamp != timestamp2 && hash_preimage(index, previous_hash, timestamp, block_data, nonce) == hash_preimage(index, previous_hash, timestamp2, block_data, nonce) {
            assert(hash_preimage(index, previous_hash, timestamp, block_data, nonce) =~= (di + p) + t + (d + n));
            assert(hash_preimage(index, previous_hash, timestamp2, block_data, nonce) =~= (di + p) + t2 + (d + n));
            lemma_concat_middle(di + p, t, t2, d + n);
            lemma_decimal_injective(timestamp as nat, timestamp2 as nat);
        }
    }
    assert(block_data != block_data2 ==> hash_preimage(index, previous_hash, timestamp, block_data, nonce) != hash_preimage(index, previous_hash, timestamp, block_data2, nonce)) by {
        if block_data != block_data2 && hash_preimage(index, previous_hash, timestamp, block_data, nonce) == hash_preimage(index, previous_hash, timestamp, block_data2, nonce) {
            assert(hash_preimage(index, previous_hash, timestamp, block_data, nonce) =~= (di + p + t) + d + n);
            assert(hash_preimage(index, previous_hash, timestamp, block_data2, nonce) =~= (di + p + t) + d2 + n);
            lemma_concat_middle(di + p + t, d, d2, n);
            lemma_utf8_injective(block_data, block_data2);
        }
    }
    assert(nonce != nonce2 ==> hash_preimage(index, previous_hash, timestamp, block_data, nonce) != hash_preimage(index, previous_hash, timestamp, block_data, nonce2)) by {
        if nonce != nonce2 && hash_preimage(index, previous_hash, timestamp, block_data, nonce) == hash_preimage(index, previous_hash, timestamp, block_data, nonce2) {
            assert(hash_preimage(index, previous_hash, timestamp, block_data, nonce) =~= (di + p + t + d) + n + e);
            assert(hash_preimage(index, previous_hash, timestamp, block_data, nonce2) =~= (di + p + t + d) + n2 + e);
            lemma_concat_middle(di + p + t + d, n, n2, e);
            lemma_decimal_injective(nonce as nat, nonce2 as nat);
        }
    }
}

} // verus!
