//! Builds a patch container: control tuples and the two data streams are
//! accumulated raw; closing compresses the three streams and frames them
//! behind a 32-byte header.

use vstd::prelude::*;
use crate::bsdf2::bsdf2_magic;
use crate::bsdf2::ctrl_slice_s;
use crate::bsdf2::diff_slice_s;
use crate::bsdf2::extra_slice_s;
use crate::bsdf2::header_alg_ctrl_s;
use crate::bsdf2::header_alg_diff_s;
use crate::bsdf2::header_alg_extra_s;
use crate::bsdf2::header_algs_s;
use crate::bsdf2::header_err_s;
use crate::bsdf2::legacy_magic;
use crate::bsdf2::new_size_s;
use crate::codec::lemma_codec_round_trip;
use crate::codec::lemma_encode_len;
use crate::codec::encode_int64;
use crate::codec::encode_spec;
use crate::compress::compress;
use crate::compress::compressed_of;
use crate::compress::tag_spec;
use crate::compress::CompressionAlgorithm;
use crate::error::PatchError;

verus! {

/// One control tuple of a patch being built: how many diff bytes to mix,
/// how many extra bytes to copy, and how to move the old cursor afterward.
#[derive(Debug, Clone, Copy)]
pub struct ControlEntry {
    pub diff_size: i64,
    pub extra_size: i64,
    pub offset_increment: i64,
}

/// The magic the writer emits: the legacy form when every stream is bzip2,
/// else the tagged form naming each stream's algorithm.
pub open spec fn magic_bytes_s(
    ca: CompressionAlgorithm,
    da: CompressionAlgorithm,
    ea: CompressionAlgorithm,
) -> Seq<u8> {
    if ca == CompressionAlgorithm::Bz2 && da == CompressionAlgorithm::Bz2 && ea
        == CompressionAlgorithm::Bz2 {
        legacy_magic()
    } else {
        bsdf2_magic() + seq![tag_spec(ca) as u8, tag_spec(da) as u8, tag_spec(ea) as u8]
    }
}

/// Closing and parsing invert: a byte sequence in the exact layout that
/// `close` emits is accepted by the header rules, declares the same
/// algorithms and output size, and slices back into the same three
/// compressed payloads. Together with the parser's and the applier's
/// contracts this pins the whole container round trip.
#[verifier::rlimit(100)]
pub proof fn lemma_container_round_trip(
    ca: CompressionAlgorithm,
    da: CompressionAlgorithm,
    ea: CompressionAlgorithm,
    ctrl: Seq<u8>,
    diffd: Seq<u8>,
    extrad: Seq<u8>,
    new_size: int,
    p: Seq<u8>,
)
    requires
        p == magic_bytes_s(ca, da, ea) + encode_spec(
            compressed_of(ca, ctrl).len() as int,
        ) + encode_spec(compressed_of(da, diffd).len() as int) + encode_spec(new_size)
            + compressed_of(ca, ctrl) + compressed_of(da, diffd) + compressed_of(ea, extrad),
        compressed_of(ca, ctrl).len() <= 0x7fff_ffff_ffff_ffff,
        compressed_of(da, diffd).len() <= 0x7fff_ffff_ffff_ffff,
        0 <= new_size <= 0x8000_0000,
    ensures
        header_err_s(p) is None,
        header_alg_ctrl_s(p) == ca,
        header_alg_diff_s(p) == da,
        header_alg_extra_s(p) == ea,
        new_size_s(p) == new_size,
        ctrl_slice_s(p) == compressed_of(ca, ctrl),
        diff_slice_s(p) == compressed_of(da, diffd),
        extra_slice_s(p) == compressed_of(ea, extrad),
{
    let cc = compressed_of(ca, ctrl);
    let dc = compressed_of(da, diffd);
    let ec = compressed_of(ea, extrad);
    let lc = cc.len() as int;
    let ld = dc.len() as int;
    lemma_encode_len(lc);
    lemma_encode_len(ld);
    lemma_encode_len(new_size);
    lemma_codec_round_trip(lc);
    lemma_codec_round_trip(ld);
    lemma_codec_round_trip(new_size);
    let m = magic_bytes_s(ca, da, ea);
    assert(m.len() == 8);
    assert(p.len() == 32 + lc + ld + ec.len());
    assert(p.subrange(8, 16) =~= encode_spec(lc));
    assert(p.subrange(16, 24) =~= encode_spec(ld));
    assert(p.subrange(24, 32) =~= encode_spec(new_size));
    if ca == CompressionAlgorithm::Bz2 && da == CompressionAlgorithm::Bz2 && ea
        == CompressionAlgorithm::Bz2 {
        assert(p.subrange(0, 8) =~= legacy_magic());
        assert(header_algs_s(p) == Some((ca, da, ea)));
    } else {
        assert(p.subrange(0, 5) =~= bsdf2_magic());
        assert(p.subrange(0, 8) != legacy_magic()) by {
            assert(m[3] == 70);
            assert(p[3] == 70);
            if p.subrange(0, 8) == legacy_magic() {
                assert(p.subrange(0, 8)[3] == p[3]);
                assert(legacy_magic()[3] == 73);
            }
        }
        assert(p[5] == tag_spec(ca) as u8);
        assert(p[6] == tag_spec(da) as u8);
        assert(p[7] == tag_spec(ea) as u8);
        assert(crate::bsdf2::alg_of_tag(tag_spec(ca) as u8) == ca);
        assert(crate::bsdf2::alg_of_tag(tag_spec(da) as u8) == da);
        assert(crate::bsdf2::alg_of_tag(tag_spec(ea) as u8) == ea);
        assert(header_algs_s(p) == Some((ca, da, ea)));
    }
    assert(ctrl_slice_s(p) =~= cc);
    assert(diff_slice_s(p) =~= dc);
    assert(extra_slice_s(p) =~= ec);
}

/// A patch container writer.
pub struct Bsdf2Writer {
    ctrl_data: Vec<u8>,
    diff_data: Vec<u8>,
    extra_data: Vec<u8>,
    ctrl_alg: CompressionAlgorithm,
    diff_alg: CompressionAlgorithm,
    extra_alg: CompressionAlgorithm,
    written_output: u64,
}

impl Bsdf2Writer {
    /// The raw control bytes accumulated so far.
    pub closed spec fn ctrl_data_s(&self) -> Seq<u8> {
        self.ctrl_data@
    }

    /// The raw diff bytes accumulated so far.
    pub closed spec fn diff_data_s(&self) -> Seq<u8> {
        self.diff_data@
    }

    /// The raw extra bytes accumulated so far.
    pub closed spec fn extra_data_s(&self) -> Seq<u8> {
        self.extra_data@
    }

    pub closed spec fn ctrl_alg_s(&self) -> CompressionAlgorithm {
        self.ctrl_alg
    }

    pub closed spec fn diff_alg_s(&self) -> CompressionAlgorithm {
        self.diff_alg
    }

    pub closed spec fn extra_alg_s(&self) -> CompressionAlgorithm {
        self.extra_alg
    }

    /// The declared output size: the sum of the tuple lengths added so far.
    pub closed spec fn written_output_s(&self) -> int {
        self.written_output as int
    }

    /// A fresh writer with one compression choice per stream.
    pub fn new(
        ctrl_alg: CompressionAlgorithm,
        diff_alg: CompressionAlgorithm,
        extra_alg: CompressionAlgorithm,
    ) -> (w: Self)
        ensures
            w.ctrl_data_s() == Seq::<u8>::empty(),
            w.diff_data_s() == Seq::<u8>::empty(),
            w.extra_data_s() == Seq::<u8>::empty(),
            w.ctrl_alg_s() == ctrl_alg,
            w.diff_alg_s() == diff_alg,
            w.extra_alg_s() == extra_alg,
            w.written_output_s() == 0,
    {
        let w = Self {
            ctrl_data: Vec::new(),
            diff_data: Vec::new(),
            extra_data: Vec::new(),
            ctrl_alg,
            diff_alg,
            extra_alg,
            written_output: 0,
        };
        proof {
            assert(w.ctrl_data@ =~= Seq::<u8>::empty());
            assert(w.diff_data@ =~= Seq::<u8>::empty());
            assert(w.extra_data@ =~= Seq::<u8>::empty());
        }
        w
    }

    /// A fresh writer in the legacy form: bzip2 on all three streams.
    pub fn new_legacy() -> (w: Self)
        ensures
            w.ctrl_data_s() == Seq::<u8>::empty(),
            w.diff_data_s() == Seq::<u8>::empty(),
            w.extra_data_s() == Seq::<u8>::empty(),
            w.ctrl_alg_s() == CompressionAlgorithm::Bz2,
            w.diff_alg_s() == CompressionAlgorithm::Bz2,
            w.extra_alg_s() == CompressionAlgorithm::Bz2,
            w.written_output_s() == 0,
    {
        Self::new(
            CompressionAlgorithm::Bz2,
            CompressionAlgorithm::Bz2,
            CompressionAlgorithm::Bz2,
        )
    }

    /// Appends one encoded control tuple and accounts its output length.
    pub fn add_control_entry(&mut self, entry: ControlEntry) -> (r: Result<(), PatchError>)
        requires
            entry.diff_size >= 0,
            entry.extra_size >= 0,
            entry.offset_increment != i64::MIN,
            old(self).written_output_s() + entry.diff_size + entry.extra_size <= u64::MAX,
        ensures
            r is Ok,
            final(self).ctrl_data_s() == old(self).ctrl_data_s() + encode_spec(
                entry.diff_size as int,
            ) + encode_spec(entry.extra_size as int) + encode_spec(entry.offset_increment as int),
            final(self).diff_data_s() == old(self).diff_data_s(),
            final(self).extra_data_s() == old(self).extra_data_s(),
            final(self).ctrl_alg_s() == old(self).ctrl_alg_s(),
            final(self).diff_alg_s() == old(self).diff_alg_s(),
            final(self).extra_alg_s() == old(self).extra_alg_s(),
            final(self).written_output_s() == old(self).written_output_s() + entry.diff_size
                + entry.extra_size,
    {
        encode_int64(entry.diff_size, &mut self.ctrl_data);
        encode_int64(entry.extra_size, &mut self.ctrl_data);
        encode_int64(entry.offset_increment, &mut self.ctrl_data);
        self.written_output = self.written_output + entry.diff_size as u64 + entry.extra_size
            as u64;
        Ok(())
    }

    /// Appends raw bytes to the diff stream.
    pub fn write_diff_stream(&mut self, data: &[u8]) -> (r: Result<(), PatchError>)
        ensures
            r is Ok,
            final(self).diff_data_s() == old(self).diff_data_s() + data@,
            final(self).ctrl_data_s() == old(self).ctrl_data_s(),
            final(self).extra_data_s() == old(self).extra_data_s(),
            final(self).ctrl_alg_s() == old(self).ctrl_alg_s(),
            final(self).diff_alg_s() == old(self).diff_alg_s(),
            final(self).extra_alg_s() == old(self).extra_alg_s(),
            final(self).written_output_s() == old(self).written_output_s(),
    {
        self.diff_data.extend_from_slice(data);
        Ok(())
    }

    /// Appends raw bytes to the extra stream.
    pub fn write_extra_stream(&mut self, data: &[u8]) -> (r: Result<(), PatchError>)
        ensures
            r is Ok,
            final(self).extra_data_s() == old(self).extra_data_s() + data@,
            final(self).ctrl_data_s() == old(self).ctrl_data_s(),
            final(self).diff_data_s() == old(self).diff_data_s(),
            final(self).ctrl_alg_s() == old(self).ctrl_alg_s(),
            final(self).diff_alg_s() == old(self).diff_alg_s(),
            final(self).extra_alg_s() == old(self).extra_alg_s(),
            final(self).written_output_s() == old(self).written_output_s(),
    {
        self.extra_data.extend_from_slice(data);
        Ok(())
    }

    /// The compression chosen for the control stream.
    pub fn ctrl_alg(&self) -> (r: CompressionAlgorithm)
        ensures
            r == self.ctrl_alg_s(),
    {
        self.ctrl_alg
    }

    /// The compression chosen for the diff stream.
    pub fn diff_alg(&self) -> (r: CompressionAlgorithm)
        ensures
            r == self.diff_alg_s(),
    {
        self.diff_alg
    }

    /// The compression chosen for the extra stream.
    pub fn extra_alg(&self) -> (r: CompressionAlgorithm)
        ensures
            r == self.extra_alg_s(),
    {
        self.extra_alg
    }

    /// The output size declared so far: the sum of the tuple lengths added.
    pub fn written_output(&self) -> (r: u64)
        ensures
            r as int == self.written_output_s(),
    {
        self.written_output
    }

    /// Compresses the three streams and appends the whole container — the
    /// 32-byte header, then the compressed control, diff and extra
    /// payloads — to `out`. It fails only where a compressed length or
    /// the declared output size does not fit the signed length fields,
    /// and then leaves `out` untouched.
    #[verifier::rlimit(100)]
    pub fn close(&mut self, out: &mut Vec<u8>) -> (r: Result<(), PatchError>)
        ensures
            *final(self) == *old(self),
            r is Ok <==> {
                &&& compressed_of(old(self).ctrl_alg_s(), old(self).ctrl_data_s()).len()
                    <= 0x7fff_ffff_ffff_ffff
                &&& compressed_of(old(self).diff_alg_s(), old(self).diff_data_s()).len()
                    <= 0x7fff_ffff_ffff_ffff
                &&& old(self).written_output_s() <= 0x7fff_ffff_ffff_ffff
            },
            r is Err ==> final(out)@ == old(out)@,
            r is Ok ==> final(out)@ == old(out)@ + magic_bytes_s(
                old(self).ctrl_alg_s(),
                old(self).diff_alg_s(),
                old(self).extra_alg_s(),
            ) + encode_spec(
                compressed_of(old(self).ctrl_alg_s(), old(self).ctrl_data_s()).len() as int,
            ) + encode_spec(
                compressed_of(old(self).diff_alg_s(), old(self).diff_data_s()).len() as int,
            ) + encode_spec(old(self).written_output_s()) + compressed_of(
                old(self).ctrl_alg_s(),
                old(self).ctrl_data_s(),
            ) + compressed_of(old(self).diff_alg_s(), old(self).diff_data_s()) + compressed_of(
                old(self).extra_alg_s(),
                old(self).extra_data_s(),
            ),
    {
        let ctrl_compressed = match compress(self.ctrl_alg, self.ctrl_data.as_slice()) {
            Ok(v) => v,
            Err(e) => {
                return Err(e);
            },
        };
        let diff_compressed = match compress(self.diff_alg, self.diff_data.as_slice()) {
            Ok(v) => v,
            Err(e) => {
                return Err(e);
            },
        };
        let extra_compressed = match compress(self.extra_alg, self.extra_data.as_slice()) {
            Ok(v) => v,
            Err(e) => {
                return Err(e);
            },
        };
        if ctrl_compressed.len() as u64 > 0x7fff_ffff_ffff_ffffu64 {
            return Err(PatchError::InvalidData);
        }
        if diff_compressed.len() as u64 > 0x7fff_ffff_ffff_ffffu64 {
            return Err(PatchError::InvalidData);
        }
        if self.written_output > 0x7fff_ffff_ffff_ffffu64 {
            return Err(PatchError::InvalidData);
        }
        let ghost base = out@;
        let is_legacy = self.ctrl_alg.to_u8() == 1 && self.diff_alg.to_u8() == 1
            && self.extra_alg.to_u8() == 1;
        if is_legacy {
            out.push(66);
            out.push(83);
            out.push(68);
            out.push(73);
            out.push(70);
            out.push(70);
            out.push(52);
            out.push(48);
            proof {
                assert(out@ =~= base + legacy_magic());
            }
        } else {
            out.push(66);
            out.push(83);
            out.push(68);
            out.push(70);
            out.push(50);
            out.push(self.ctrl_alg.to_u8());
            out.push(self.diff_alg.to_u8());
            out.push(self.extra_alg.to_u8());
            proof {
                assert(out@ =~= base + magic_bytes_s(self.ctrl_alg, self.diff_alg, self.extra_alg));
            }
        }
        let ghost with_magic = out@;
        encode_int64(ctrl_compressed.len() as i64, out);
        encode_int64(diff_compressed.len() as i64, out);
        encode_int64(self.written_output as i64, out);
        let ghost with_header = out@;
        out.extend_from_slice(ctrl_compressed.as_slice());
        out.extend_from_slice(diff_compressed.as_slice());
        out.extend_from_slice(extra_compressed.as_slice());
        proof {
            assert(out@ =~= base + magic_bytes_s(self.ctrl_alg, self.diff_alg, self.extra_alg)
                + encode_spec(ctrl_compressed@.len() as int) + encode_spec(
                diff_compressed@.len() as int,
            ) + encode_spec(self.written_output as int) + ctrl_compressed@ + diff_compressed@
                + extra_compressed@);
        }
        Ok(())
    }
}

} // verus!
