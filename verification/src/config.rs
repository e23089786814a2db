//! Static description of the watched chains.
//!
//! Loaded once at process start; the library only reads it. A contract's
//! `kind` is its token standard tag as the configuration spells it,
//! `ERC721` or `ERC1155`.

use vstd::prelude::*;

verus! {

pub struct Contract {
    pub name: Vec<u8>,
    pub address: Vec<u8>,
    pub startblock: u64,
    pub kind: Vec<u8>,
}

pub struct Chain {
    pub id: u32,
    pub name: Vec<u8>,
    pub rpc_url: Vec<u8>,
    pub chunk_size: u32,
    pub contracts: Vec<Contract>,
}

pub struct IndexerConfig {
    pub chains: Vec<Chain>,
}

/// The smallest start block among contracts; the maximum where there are
/// none, so that it never lowers a scan start.
pub open spec fn min_start(s: Seq<Contract>) -> u64
    decreases s.len(),
{
    if s.len() == 0 {
        u64::MAX
    } else {
        let m = min_start(s.drop_last());
        if s.last().startblock < m {
            s.last().startblock
        } else {
            m
        }
    }
}

impl IndexerConfig {
    /// The earliest start block among a chain's watched contracts.
    pub fn get_earliest_start_block_for_chain(&self, chain: &Chain) -> (r: u64)
        ensures
            r == min_start(chain.contracts@),
    {
        let mut earliest: u64 = u64::MAX;
        let mut i: usize = 0;
        while i < chain.contracts.len()
            invariant
                i <= chain.contracts@.len(),
                earliest == min_start(chain.contracts@.take(i as int)),
            decreases chain.contracts@.len() - i,
        {
            proof {
                assert(chain.contracts@.take(i as int + 1).drop_last() =~= chain.contracts@.take(
                    i as int,
                ));
                assert(chain.contracts@.take(i as int + 1).last() == chain.contracts@[i as int]);
            }
            if chain.contracts[i].startblock < earliest {
                earliest = chain.contracts[i].startblock;
            }
            i += 1;
        }
        proof {
            assert(chain.contracts@.take(chain.contracts@.len() as int) =~= chain.contracts@);
        }
        earliest
    }
}

} // verus!
