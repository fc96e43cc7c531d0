//! Block headers.
use vstd::prelude::*;
use crate::bytes::{be16, lemma_be_value16};
use crate::ebml::vint::{read_track_number, size_at, vint_stop};
use crate::error::{ErrorView, IoError, PgsError};
use crate::io::reader::{counted, SeekBufReader, Source};

verus! {

/// The header of a block.
#[derive(Debug, Clone, Copy, PartialEq, Eq, Structural)]
pub struct BlockHeader {
    /// The track that the block belongs to.
    pub track_number: u64,
    /// The block's timestamp, relative to its cluster's.
    pub relative_timestamp: i16,
}

/// The block header at `pos` and the position behind it: the track number, the
/// relative timestamp and a byte of flags.
pub open spec fn block_header_at(s: Seq<u8>, pos: int) -> Result<(BlockHeader, int), ErrorView> {
    match size_at(s, pos) {
        None => Err(ErrorView::InvalidVint),
        Some(track) => {
            let at = pos + track.width;
            if at + 3 > s.len() {
                Err(ErrorView::Io(IoError::UnexpectedEof))
            } else {
                Ok(
                    (
                        BlockHeader {
                            track_number: track.value,
                            relative_timestamp: be16(s, at) as i16,
                        },
                        at + 3,
                    ),
                )
            }
        },
    }
}

/// The number of bytes that reading a block's header at `pos` reads.
pub open spec fn block_header_reads(s: Seq<u8>, pos: int) -> int {
    match size_at(s, pos) {
        None => vint_stop(s, pos, 8) - pos,
        Some(track) => {
            let at = pos + track.width;
            if at + 2 > s.len() {
                track.width as int
            } else if at + 3 > s.len() {
                track.width + 2
            } else {
                track.width + 3
            }
        },
    }
}

/// Reads a block's header.
pub fn read_block_header<R: Source>(reader: &mut SeekBufReader<R>) -> (r: Result<
    BlockHeader,
    PgsError,
>)
    ensures
        final(reader).bytes() == old(reader).bytes(),
        final(reader).at() == old(reader).at() + block_header_reads(
            old(reader).bytes(),
            old(reader).at() as int,
        ),
        final(reader).consumed() == counted(
            old(reader).consumed(),
            final(reader).at() - old(reader).at(),
        ),
        match (r, block_header_at(old(reader).bytes(), old(reader).at() as int)) {
            (Ok(h), Ok((v, next))) => h == v && final(reader).at() == next && next > old(
                reader,
            ).at(),
            (Err(e), Err(v)) => e@ == v,
            _ => false,
        },
{
    let track = match read_track_number(reader) {
        Ok(t) => t,
        Err(e) => {
            return Err(e);
        },
    };
    let ghost at = reader.at() as int;
    let relative = match reader.read_u16_be() {
        Ok(v) => v,
        Err(e) => {
            return Err(e);
        },
    };
    proof {
        lemma_be_value16(reader.bytes(), at);
    }
    match reader.read_bytes(1) {
        Ok(_) => Ok(
            BlockHeader { track_number: track.value, relative_timestamp: relative as i16 },
        ),
        Err(e) => Err(e),
    }
}

} // verus!
