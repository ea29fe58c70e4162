//! A binary delta engine: it produces and consumes compact patches between
//! two byte sequences, in the classic bsdiff raw stream form and in the
//! BSDF2 container form with per-stream compression.

mod bsdf2;
mod bsdf2_writer;
mod codec;
mod compress;
mod diff;
mod error;
mod patch;
mod suffix;

pub use bsdf2::{
    parse_bsdf2_header, patch_bsdf2, apply_streams, apply_streams_s, apply_streams_rec,
    header_err_s, header_algs_s, new_size_s, len_control_s, len_diff_s, ctrl_slice_s,
    diff_slice_s, extra_slice_s, old_at, legacy_magic, bsdf2_magic,
    lemma_apply_streams_len, lemma_apply_streams_consumes_all, lemma_seek_step,
};
pub use compress::{compressed_of, bz2_of, brotli_of, tag_spec};
pub use bsdf2_writer::{ControlEntry, Bsdf2Writer, magic_bytes_s, lemma_container_round_trip};
pub use codec::{offtin, encode_int64, decode_spec, encode_spec, lemma_codec_round_trip};
pub use compress::CompressionAlgorithm;
pub use error::PatchError;
pub use patch::{patch, apply_raw_s, apply_raw_err_s, wrap_add, wrap_sub, lemma_wrap_round_trip};
pub use diff::{diff, search, matchlen, is_lcp};
pub use suffix::{qsufsort, inv_ok_at};

pub use patch::patch as apply_patch;
pub use bsdf2::patch_bsdf2 as apply_bsdf2_patch;
