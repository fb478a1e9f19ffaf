//! The request for the last block that no fork can replace any more.

use crate::bc::BcV2Db;
use crate::bytes::be32;
use crate::errors::{DecodeFault, Failure, KvError};
use crate::keys::block_number::{BlockNumber, U32BE};
use crate::values::block_meta::Blockstamp;
use vstd::prelude::*;

verus! {

/// How many blocks behind the current one the last block out of the fork window lies.
pub const FORK_WINDOW: u32 = 101;

/// The answer to a request.
#[derive(Clone, Copy, Debug, PartialEq, Eq)]
pub enum BcaRespTypeV0 {
    LastBlockstampOutOfForkWindow(Blockstamp),
}

/// Why a request has no answer.
#[derive(Clone, Debug, PartialEq, Eq)]
pub enum ExecReqTypeError {
    /// No block was applied yet.
    NoBlockchain,
    /// The block that the answer names is not stored.
    BlockNotFound(BlockNumber),
    /// The store failed.
    Store(KvError),
}

/// The number of the last block out of the fork window when `current` is the
/// current block: `FORK_WINDOW` blocks behind, but never before the first block.
pub open spec fn block_ref_number(current: u32) -> u32 {
    if current < FORK_WINDOW {
        0
    } else {
        (current - FORK_WINDOW) as u32
    }
}

/// What the request is answered with, given the number of the current block, if
/// there is one, and the stored blocks.
pub open spec fn last_blockstamp_answer(
    current: Option<u32>,
    blocks_meta: Map<Seq<u8>, Seq<u8>>,
    r: Result<BcaRespTypeV0, ExecReqTypeError>,
) -> bool {
    match current {
        None => r == Err::<BcaRespTypeV0, ExecReqTypeError>(ExecReqTypeError::NoBlockchain),
        Some(number) => {
            let at = block_ref_number(number);
            if !blocks_meta.contains_key(be32(at)) {
                r == Err::<BcaRespTypeV0, ExecReqTypeError>(
                    ExecReqTypeError::BlockNotFound(BlockNumber(at)),
                )
            } else if blocks_meta[be32(at)].len() != 36 {
                r is Err && r->Err_0 is Store && r->Err_0->Store_0@ == (Failure::Corrupted {
                    bytes: blocks_meta[be32(at)],
                    fault: DecodeFault::InvalidLength {
                        expected: 36,
                        found: blocks_meta[be32(at)].len() as usize,
                    },
                })
            } else {
                r is Ok && (r->Ok_0 matches BcaRespTypeV0::LastBlockstampOutOfForkWindow(stamp)
                    && stamp.number == BlockNumber(at) && stamp.hash.0@ == blocks_meta[be32(
                    at,
                )].subrange(4, 36))
            }
        },
    }
}

/// Answers with the number and the hash of the last block out of the fork window.
pub fn exec_req_last_blockstamp_out_of_fork_window(
    current_block_number: Option<u32>,
    dbs: &BcV2Db,
) -> (r: Result<BcaRespTypeV0, ExecReqTypeError>)
    requires
        dbs.wf(),
    ensures
        last_blockstamp_answer(current_block_number, dbs.blocks_meta@, r),
{
    if let Some(current_block_number) = current_block_number {
        let block_ref_number: u32 = if current_block_number < FORK_WINDOW {
            0
        } else {
            current_block_number - FORK_WINDOW
        };
        match dbs.block(U32BE(block_ref_number)) {
            Err(e) => Err(ExecReqTypeError::Store(e)),
            Ok(None) => Err(ExecReqTypeError::BlockNotFound(BlockNumber(block_ref_number))),
            Ok(Some(meta)) => {
                proof {
                    let stored = dbs.blocks_meta@[be32(block_ref_number)];
                    crate::bytes::lemma_be32_inverse(meta.number, seq![]);
                    assert(stored.subrange(4, 36) =~= meta.hash.0@);
                }
                Ok(
                    BcaRespTypeV0::LastBlockstampOutOfForkWindow(
                        Blockstamp { number: BlockNumber(block_ref_number), hash: meta.hash },
                    ),
                )
            },
        }
    } else {
        Err(ExecReqTypeError::NoBlockchain)
    }
}

} // verus!
