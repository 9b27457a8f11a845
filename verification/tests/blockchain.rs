use nano_chain::blockchain::{genesis_block, Block, BlockChain, BlockChainError};

const GENESIS_HASH: &str = "ihV9wpq1u385eHTQB6fyCjckKOHp0Ia0FaOmi6UZtUg=";

#[test]
fn genesis_hash_is_sha3_in_base64() {
    let genesis = genesis_block();
    assert_eq!(genesis.get_hash(), GENESIS_HASH);
    assert_eq!(genesis.get_hash().len(), 44);
    assert_eq!(genesis.index(), 0);
}

#[test]
fn hash_covers_non_ascii_data() {
    let block = Block::new(7, "abc".to_string(), 123, "héllo".to_string(), 0, 42);
    assert_eq!(block.get_hash(), "t0MOqxxs7QL2D4i7wsNPinbd+e/74zXoYuNn0KFCNJc=");
}

#[test]
fn new_chain_is_valid() {
    let chain = BlockChain::new();
    assert!(chain.is_valid_chain().is_ok());
    assert_eq!(chain.last_block().get_hash(), GENESIS_HASH);
}

#[test]
fn mint_finds_smallest_nonce() {
    let mut chain = BlockChain::new();
    chain.mint_block("hello", 2, 1000);
    let last = chain.last_block();
    assert_eq!(last.index(), 1);
    // 859 is the smallest nonce whose hash starts with "00".
    assert_eq!(last.get_hash(), "00zVlAogXWo6mxZulELve6m65fn7Dict5sGFWdixKUA=");
    let expected = Block::new(1, GENESIS_HASH.to_string(), 1000, "hello".to_string(), 2, 859);
    assert_eq!(last.get_hash(), expected.get_hash());
    assert!(chain.is_valid_chain().is_ok());
}

#[test]
fn minted_chain_stays_valid() {
    let mut chain = BlockChain::new();
    chain.mint_block("hello_world", 1, 10);
    chain.mint_block("I'm from canada", 1, 20);
    chain.mint_block("New block chain", 2, 30);
    assert_eq!(chain.last_block().index(), 3);
    assert!(chain.last_block().get_hash().starts_with("00"));
    assert!(chain.is_valid_chain().is_ok());
}

#[test]
fn add_block_accepts_valid_block() {
    let mut chain = BlockChain::new();
    let block = Block::new(1, GENESIS_HASH.to_string(), 1000, "hello".to_string(), 1, 37);
    assert!(chain.add_block(block).is_ok());
    assert_eq!(chain.last_block().get_hash(), "0qfdzkRePWGugK9WriEbUFWakUJM0U7U+lZDmp4Ge5I=");
    assert!(chain.is_valid_chain().is_ok());
}

#[test]
fn add_block_refuses_wrong_index() {
    let mut chain = BlockChain::new();
    let block = Block::new(2, GENESIS_HASH.to_string(), 1000, "hello".to_string(), 0, 0);
    assert!(matches!(chain.add_block(block), Err(BlockChainError::InvalidIndex)));
    assert_eq!(chain.last_block().index(), 0);
}

#[test]
fn add_block_refuses_wrong_previous_hash() {
    let mut chain = BlockChain::new();
    let block = Block::new(1, "nope".to_string(), 1000, "hello".to_string(), 0, 0);
    match chain.add_block(block) {
        Err(BlockChainError::InvalidPreviousHash(h)) => assert_eq!(h, "nope"),
        other => panic!("unexpected {:?}", other),
    }
    assert_eq!(chain.last_block().index(), 0);
}

#[test]
fn add_block_refuses_unproven_work() {
    let mut chain = BlockChain::new();
    // Nonce 0 gives "3FplV0Ch...", which does not start with "00".
    let block = Block::new(1, GENESIS_HASH.to_string(), 1000, "hello".to_string(), 2, 0);
    assert!(matches!(chain.add_block(block), Err(BlockChainError::WorkNotProven)));
    assert!(chain.is_valid_chain().is_ok());
}

#[test]
fn zero_difficulty_needs_no_work() {
    let mut chain = BlockChain::new();
    chain.mint_block("free", 0, 5);
    assert_eq!(chain.last_block().index(), 1);
    let expected = Block::new(1, GENESIS_HASH.to_string(), 5, "free".to_string(), 0, 0);
    assert_eq!(chain.last_block().get_hash(), expected.get_hash());
}

#[test]
fn minted_block_is_accepted_by_another_chain() {
    let mut miner = BlockChain::new();
    miner.mint_block("shared", 1, 77);
    let block = miner.last_block().clone();
    let mut other = BlockChain::new();
    assert!(other.add_block(block).is_ok());
    assert_eq!(other.last_block().get_hash(), miner.last_block().get_hash());
    assert!(other.is_valid_chain().is_ok());
}
