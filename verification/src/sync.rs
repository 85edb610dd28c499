//! What the indexer works out between the node and the database: which
//! blocks are due, and the row that a block becomes.

use vstd::prelude::*;
use crate::hex::{hex_to_i64, hex_value, HexError};

verus! {

/// A block as the node reports it, its quantities still in hexadecimal.
#[derive(Debug, Clone)]
pub struct Block {
    pub number: String,
    pub hash: String,
    pub parent_hash: String,
    pub timestamp: String,
    pub miner: String,
    pub gas_used: String,
    pub gas_limit: String,
    /// How many transactions the block lists.
    pub transactions: usize,
    pub size: String,
}

/// A block as the database keeps it.
#[derive(Debug, Clone)]
pub struct BlockRow {
    pub number: i64,
    pub hash: String,
    pub parent_hash: String,
    pub timestamp: i64,
    pub miner: String,
    pub gas_used: i64,
    pub gas_limit: i64,
    pub transactions_count: i32,
    pub size: i64,
}

/// The number that `text` spells in hexadecimal.
pub open spec fn quantity(text: Seq<char>) -> Result<int, HexError> {
    hex_value(vstd::utf8::encode_utf8(text))
}

/// The first error among `results`, from the left.
pub open spec fn first_error(results: Seq<Result<int, HexError>>) -> Option<HexError>
    decreases results.len(),
{
    if results.len() == 0 {
        None
    } else {
        match results[0] {
            Err(error) => Some(error),
            Ok(_) => first_error(results.skip(1)),
        }
    }
}

/// The five quantities of a block, in the order in which they are read.
pub open spec fn quantities(block: Block) -> Seq<Result<int, HexError>> {
    seq![
        quantity(block.number@),
        quantity(block.timestamp@),
        quantity(block.gas_used@),
        quantity(block.gas_limit@),
        quantity(block.size@),
    ]
}

/// A count as a column of 32 signed bits holds it: the low 32 bits, read
/// as a signed number.
pub open spec fn wrapped_count(count: int) -> int {
    let low = count % 0x1_0000_0000;
    if low >= 0x8000_0000 {
        low - 0x1_0000_0000
    } else {
        low
    }
}

/// The low 32 bits of `count`, read as a signed number.
pub fn count_column(count: usize) -> (column: i32)
    ensures
        column == wrapped_count(count as int),
{
    let low: u64 = (count as u64) % 0x1_0000_0000;
    if low >= 0x8000_0000 {
        (low as i64 - 0x1_0000_0000) as i32
    } else {
        low as i32
    }
}

/// The row that `block` becomes, or the error of the first of its
/// quantities that is no hexadecimal number.
pub fn block_row(block: &Block) -> (row: Result<BlockRow, HexError>)
    ensures
        match row {
            Ok(r) => {
                &&& quantity(block.number@) == Ok::<int, HexError>(r.number as int)
                &&& quantity(block.timestamp@) == Ok::<int, HexError>(r.timestamp as int)
                &&& quantity(block.gas_used@) == Ok::<int, HexError>(r.gas_used as int)
                &&& quantity(block.gas_limit@) == Ok::<int, HexError>(r.gas_limit as int)
                &&& quantity(block.size@) == Ok::<int, HexError>(r.size as int)
                &&& r.hash@ == block.hash@
                &&& r.parent_hash@ == block.parent_hash@
                &&& r.miner@ == block.miner@
                &&& r.transactions_count == wrapped_count(block.transactions as int)
            },
            Err(error) => first_error(quantities(*block)) == Some(error),
        },
{
    proof {
        reveal_with_fuel(first_error, 6);
    }
    let number = match hex_to_i64(block.number.as_str()) {
        Ok(n) => n,
        Err(error) => {
            return Err(error);
        },
    };
    let timestamp = match hex_to_i64(block.timestamp.as_str()) {
        Ok(n) => n,
        Err(error) => {
            return Err(error);
        },
    };
    let gas_used = match hex_to_i64(block.gas_used.as_str()) {
        Ok(n) => n,
        Err(error) => {
            return Err(error);
        },
    };
    let gas_limit = match hex_to_i64(block.gas_limit.as_str()) {
        Ok(n) => n,
        Err(error) => {
            return Err(error);
        },
    };
    let size = match hex_to_i64(block.size.as_str()) {
        Ok(n) => n,
        Err(error) => {
            return Err(error);
        },
    };
    Ok(
        BlockRow {
            number,
            hash: block.hash.clone(),
            parent_hash: block.parent_hash.clone(),
            timestamp,
            miner: block.miner.clone(),
            gas_used,
            gas_limit,
            transactions_count: count_column(block.transactions),
            size,
        },
    )
}

/// The blocks that are due once `last_indexed` is stored and the chain has
/// reached `latest`: the first and the last of them, if any is due.
pub fn blocks_due(last_indexed: i64, latest: i64) -> (due: Option<(i64, i64)>)
    ensures
        due == if latest > last_indexed {
            Some(((last_indexed + 1) as i64, latest))
        } else {
            None
        },
{
    if latest > last_indexed {
        Some((last_indexed + 1, latest))
    } else {
        None
    }
}

} // verus!
