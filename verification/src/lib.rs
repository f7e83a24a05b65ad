//! Lossless compression of fixed-length housekeeping telemetry packets.
//!
//! The library compresses a time-ordered sequence of equally sized packets
//! by predicting each packet from its predecessor and transmitting only the
//! bits that an adaptively maintained mask marks as unpredictable.  The wire
//! format — the counter, run-length and bit-extraction codings and the
//! per-packet frame — is pinned down bit for bit by specification functions,
//! and the round-trip theorems in `roundtrip` prove that decompressing a
//! compressed stream returns the original buffer.

pub mod bitbuffer;
pub mod bitreader;
pub mod bits;
pub mod bitvector;
pub mod compress;
pub mod decode;
pub mod decompress;
pub mod encode;
pub mod error;
pub mod mask;
pub mod roundtrip;
pub mod wire;

pub use bitbuffer::BitBuffer;
pub use bitreader::BitReader;
pub use bits::lemma_popcount_xor;
pub use bitvector::lemma_to_bytes_from_bytes;
pub use bitvector::BitVector;
pub use bitvector::MAX_PACKET_LENGTH;
pub use compress::{compress, CompressionParams, Compressor};
pub use decode::{bit_insert, count_decode, rle_decode};
pub use decompress::{decompress, Decompressor};
pub use encode::{bit_extract, bit_extract_forward, count_encode, rle_encode};
pub use error::PocketError;
pub use mask::{compute_change, update_build, update_mask};
pub use roundtrip::{lemma_frame_inverts, lemma_stream_roundtrip};
pub use wire::{
    lemma_be_emits_popcount, lemma_count_roundtrip, lemma_extract_insert, lemma_rle_roundtrip,
};
