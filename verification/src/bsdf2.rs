//! The patch container: a 32-byte header followed by three independently
//! compressed streams (control, diff, extra), and the applier that replays
//! the decompressed streams against `old`.

use vstd::prelude::*;
use vstd::slice::slice_index_get;
use vstd::slice::slice_subrange;
use crate::codec::decode_spec;
use crate::codec::lemma_decode_bounds;
use crate::codec::offtin;
use crate::compress::compressed_of;
use crate::compress::decompress;
use crate::compress::CompressionAlgorithm;
use crate::error::PatchError;
use crate::patch::wrap_add;

verus! {

/// The magic of the legacy container: all three streams are bzip2.
pub open spec fn legacy_magic() -> Seq<u8> {
    seq![66u8, 83u8, 68u8, 73u8, 70u8, 70u8, 52u8, 48u8]
}

/// The five leading magic bytes of the tagged container.
pub open spec fn bsdf2_magic() -> Seq<u8> {
    seq![66u8, 83u8, 68u8, 70u8, 50u8]
}

/// The algorithm a header tag byte stands for.
pub open spec fn alg_of_tag(t: u8) -> CompressionAlgorithm {
    if t == 0 {
        CompressionAlgorithm::Plain
    } else if t == 1 {
        CompressionAlgorithm::Bz2
    } else {
        CompressionAlgorithm::Brotli
    }
}

/// The three per-stream algorithms a header declares, or nothing where the
/// magic or a tag byte is unknown.
pub open spec fn header_algs_s(p: Seq<u8>) -> Option<
    (CompressionAlgorithm, CompressionAlgorithm, CompressionAlgorithm),
>
    recommends
        p.len() >= 32,
{
    if p.subrange(0, 8) == legacy_magic() {
        Some(
            (CompressionAlgorithm::Bz2, CompressionAlgorithm::Bz2, CompressionAlgorithm::Bz2),
        )
    } else if p.subrange(0, 5) == bsdf2_magic() {
        if p[5] <= 2 && p[6] <= 2 && p[7] <= 2 {
            Some((alg_of_tag(p[5]), alg_of_tag(p[6]), alg_of_tag(p[7])))
        } else {
            None
        }
    } else {
        None
    }
}

pub open spec fn header_alg_ctrl_s(p: Seq<u8>) -> CompressionAlgorithm {
    header_algs_s(p)->Some_0.0
}

pub open spec fn header_alg_diff_s(p: Seq<u8>) -> CompressionAlgorithm {
    header_algs_s(p)->Some_0.1
}

pub open spec fn header_alg_extra_s(p: Seq<u8>) -> CompressionAlgorithm {
    header_algs_s(p)->Some_0.2
}

/// The declared compressed control length.
pub open spec fn len_control_s(p: Seq<u8>) -> int {
    decode_spec(p.subrange(8, 16))
}

/// The declared compressed diff length.
pub open spec fn len_diff_s(p: Seq<u8>) -> int {
    decode_spec(p.subrange(16, 24))
}

/// The declared size of the reconstructed output.
pub open spec fn new_size_s(p: Seq<u8>) -> int {
    decode_spec(p.subrange(24, 32))
}

/// The compressed control stream: right after the header.
pub open spec fn ctrl_slice_s(p: Seq<u8>) -> Seq<u8> {
    p.subrange(32, 32 + len_control_s(p))
}

/// The compressed diff stream: after the control stream.
pub open spec fn diff_slice_s(p: Seq<u8>) -> Seq<u8> {
    p.subrange(32 + len_control_s(p), 32 + len_control_s(p) + len_diff_s(p))
}

/// The compressed extra stream: the remainder of the patch.
pub open spec fn extra_slice_s(p: Seq<u8>) -> Seq<u8> {
    p.skip(32 + len_control_s(p) + len_diff_s(p))
}

/// Which error, if any, the header itself forces, in check order: truncated
/// header, unknown magic or tag, a negative length, an output size over the
/// 2 GiB limit, then streams that overrun the patch.
pub open spec fn header_err_s(p: Seq<u8>) -> Option<PatchError> {
    if p.len() < 32 {
        Some(PatchError::InvalidData)
    } else if header_algs_s(p) is None {
        Some(PatchError::InvalidData)
    } else if len_control_s(p) < 0 || len_diff_s(p) < 0 || new_size_s(p) < 0 {
        Some(PatchError::InvalidData)
    } else if new_size_s(p) > 0x8000_0000 {
        Some(PatchError::ResourceExhausted)
    } else if 32 + len_control_s(p) + len_diff_s(p) > p.len() {
        Some(PatchError::InvalidData)
    } else {
        None
    }
}

/// The byte of `old` at `i`, or zero where `i` is out of range: the add
/// step tolerates reads past the end of `old`.
pub open spec fn old_at(old: Seq<u8>, i: int) -> u8 {
    if 0 <= i < old.len() {
        old[i]
    } else {
        0
    }
}

/// What replaying the remaining control stream against `old` yields, with
/// `acc` already produced and the two data streams already partly consumed
/// (consumed prefixes are gone from `diff` and `extra`).
pub open spec fn apply_streams_rec(
    old: Seq<u8>,
    ctrl: Seq<u8>,
    diff: Seq<u8>,
    extra: Seq<u8>,
    new_size: int,
    oldpos: int,
    acc: Seq<u8>,
) -> Option<Seq<u8>>
    decreases ctrl.len(),
{
    if ctrl.len() == 0 {
        if acc.len() == new_size && diff.len() == 0 && extra.len() == 0 {
            Some(acc)
        } else {
            None
        }
    } else if ctrl.len() < 24 {
        None
    } else {
        let add = decode_spec(ctrl.subrange(0, 8));
        let copy = decode_spec(ctrl.subrange(8, 16));
        let seek = decode_spec(ctrl.subrange(16, 24));
        if add < 0 || copy < 0 {
            None
        } else if acc.len() + add + copy > new_size {
            None
        } else if add > diff.len() {
            None
        } else if copy > extra.len() {
            None
        } else {
            let np = oldpos + add + seek;
            if np < 0 || np > 0x7fff_ffff_ffff_ffff {
                None
            } else {
                let mixed = Seq::new(add as nat, |j: int| wrap_add(old_at(old, oldpos + j), diff[j]));
                apply_streams_rec(
                    old,
                    ctrl.skip(24),
                    diff.skip(add),
                    extra.skip(copy),
                    new_size,
                    np,
                    acc + mixed + extra.take(copy),
                )
            }
        }
    }
}

/// What replaying decompressed streams against `old` yields from a fresh
/// state: the reconstructed output, or nothing where they are rejected.
pub open spec fn apply_streams_s(
    old: Seq<u8>,
    ctrl: Seq<u8>,
    diff: Seq<u8>,
    extra: Seq<u8>,
    new_size: int,
) -> Option<Seq<u8>> {
    apply_streams_rec(old, ctrl, diff, extra, new_size, 0, Seq::<u8>::empty())
}

/// An apply that succeeds consumed the diff and extra streams entirely and
/// produced exactly `new_size` bytes beyond what was already there.
pub proof fn lemma_apply_streams_consumes_all(
    old: Seq<u8>,
    ctrl: Seq<u8>,
    diff: Seq<u8>,
    extra: Seq<u8>,
    new_size: int,
    oldpos: int,
    acc: Seq<u8>,
)
    requires
        apply_streams_rec(old, ctrl, diff, extra, new_size, oldpos, acc) is Some,
    ensures
        apply_streams_rec(old, ctrl, diff, extra, new_size, oldpos, acc)->Some_0.len()
            == new_size,
        apply_streams_rec(old, ctrl, diff, extra, new_size, oldpos, acc)->Some_0.take(
            acc.len() as int,
        ) == acc,
    decreases ctrl.len(),
{
    if ctrl.len() == 0 {
        assert(acc.take(acc.len() as int) =~= acc);
    } else {
        let add = decode_spec(ctrl.subrange(0, 8));
        let copy = decode_spec(ctrl.subrange(8, 16));
        let seek = decode_spec(ctrl.subrange(16, 24));
        let np = oldpos + add + seek;
        let mixed = Seq::new(add as nat, |j: int| wrap_add(old_at(old, oldpos + j), diff[j]));
        let acc2 = acc + mixed + extra.take(copy);
        lemma_apply_streams_consumes_all(
            old,
            ctrl.skip(24),
            diff.skip(add),
            extra.skip(copy),
            new_size,
            np,
            acc2,
        );
        let t = apply_streams_rec(old, ctrl, diff, extra, new_size, oldpos, acc)->Some_0;
        assert(t.take(acc2.len() as int) == acc2);
        assert(t.take(acc.len() as int) =~= acc);
    }
}

/// Any apply that succeeds produced exactly `new_size` bytes: the model
/// admits success only when the output is full and the diff and extra
/// streams were consumed to their ends.
pub proof fn lemma_apply_streams_len(
    old: Seq<u8>,
    ctrl: Seq<u8>,
    diff: Seq<u8>,
    extra: Seq<u8>,
    new_size: int,
)
    requires
        apply_streams_s(old, ctrl, diff, extra, new_size) is Some,
    ensures
        apply_streams_s(old, ctrl, diff, extra, new_size)->Some_0.len() == new_size,
{
    lemma_apply_streams_consumes_all(old, ctrl, diff, extra, new_size, 0, Seq::<u8>::empty());
}

/// The seek step in isolation: a tuple moving only the cursor is
/// accepted exactly when the cursor stays in the signed range — nothing
/// ties it to the end of `old`, so seeking exactly to `old.len()`, past
/// it, or back down to zero is legal, and only a cursor driven below
/// zero or past the signed maximum rejects the stream.
pub proof fn lemma_seek_step(
    old: Seq<u8>,
    diff: Seq<u8>,
    extra: Seq<u8>,
    new_size: int,
    oldpos: int,
    s: int,
    rest: Seq<u8>,
    acc: Seq<u8>,
)
    requires
        -0x7fff_ffff_ffff_ffff <= s <= 0x7fff_ffff_ffff_ffff,
        acc.len() <= new_size,
    ensures
        0 <= oldpos + s <= 0x7fff_ffff_ffff_ffff ==> apply_streams_rec(
            old,
            crate::codec::encode_spec(0) + crate::codec::encode_spec(0)
                + crate::codec::encode_spec(s) + rest,
            diff,
            extra,
            new_size,
            oldpos,
            acc,
        ) == apply_streams_rec(old, rest, diff, extra, new_size, oldpos + s, acc),
        !(0 <= oldpos + s <= 0x7fff_ffff_ffff_ffff) ==> apply_streams_rec(
            old,
            crate::codec::encode_spec(0) + crate::codec::encode_spec(0)
                + crate::codec::encode_spec(s) + rest,
            diff,
            extra,
            new_size,
            oldpos,
            acc,
        ) is None,
{
    let e0 = crate::codec::encode_spec(0);
    let es = crate::codec::encode_spec(s);
    crate::codec::lemma_encode_len(0);
    crate::codec::lemma_encode_len(s);
    crate::codec::lemma_codec_round_trip(0);
    crate::codec::lemma_codec_round_trip(s);
    let ctrl = e0 + e0 + es + rest;
    assert(ctrl.len() == 24 + rest.len());
    assert(ctrl.subrange(0, 8) =~= e0);
    assert(ctrl.subrange(8, 16) =~= e0);
    assert(ctrl.subrange(16, 24) =~= es);
    assert(ctrl.skip(24) =~= rest);
    assert(diff.skip(0) =~= diff);
    assert(extra.skip(0) =~= extra);
    if 0 <= oldpos + s <= 0x7fff_ffff_ffff_ffff {
        let mixed = Seq::new(0nat, |j: int| wrap_add(old_at(old, oldpos + j), diff[j]));
        assert(acc + mixed + extra.take(0) =~= acc);
    }
}

/// A control stream whose length is not a multiple of 24 is always rejected.
pub proof fn lemma_streams_misaligned(
    old: Seq<u8>,
    ctrl: Seq<u8>,
    diff: Seq<u8>,
    extra: Seq<u8>,
    new_size: int,
    oldpos: int,
    acc: Seq<u8>,
)
    requires
        ctrl.len() % 24 != 0,
    ensures
        apply_streams_rec(old, ctrl, diff, extra, new_size, oldpos, acc) is None,
    decreases ctrl.len(),
{
    if ctrl.len() >= 24 {
        let add = decode_spec(ctrl.subrange(0, 8));
        let copy = decode_spec(ctrl.subrange(8, 16));
        let seek = decode_spec(ctrl.subrange(16, 24));
        let np = oldpos + add + seek;
        let mixed = Seq::new(add as nat, |j: int| wrap_add(old_at(old, oldpos + j), diff[j]));
        assert(ctrl.skip(24).len() % 24 != 0);
        lemma_streams_misaligned(
            old,
            ctrl.skip(24),
            diff.skip(add),
            extra.skip(copy),
            new_size,
            np,
            acc + mixed + extra.take(copy),
        );
    }
}

/// Replays already decompressed streams against `old`, writing the
/// reconstructed output into `new` (cleared first). Every rejection is a
/// structural fault.
#[verifier::rlimit(100)]
pub fn apply_streams(
    source: &[u8],
    ctrl: &[u8],
    diff: &[u8],
    extra: &[u8],
    new_size: usize,
    new: &mut Vec<u8>,
) -> (r: Result<(), PatchError>)
    requires
        new_size <= 0x8000_0000,
    ensures
        r is Ok <==> apply_streams_s(source@, ctrl@, diff@, extra@, new_size as int) is Some,
        r is Ok ==> final(new)@ == apply_streams_s(
            source@,
            ctrl@,
            diff@,
            extra@,
            new_size as int,
        )->Some_0,
        r is Err ==> r->Err_0 == PatchError::InvalidData,
{
    new.clear();
    let src_len: usize = source.len();
    let ctrl_len: usize = ctrl.len();
    let diff_len: usize = diff.len();
    let extra_len: usize = extra.len();
    let mut idx: usize = 0;
    let mut dpos: usize = 0;
    let mut epos: usize = 0;
    let mut oldpos: u64 = 0;
    proof {
        assert(ctrl@.skip(0) =~= ctrl@);
        assert(diff@.skip(0) =~= diff@);
        assert(extra@.skip(0) =~= extra@);
        assert(new@ =~= Seq::<u8>::empty());
    }
    loop
        invariant
            new_size <= 0x8000_0000,
            idx <= ctrl@.len(),
            dpos <= diff@.len(),
            epos <= extra@.len(),
            oldpos <= 0x7fff_ffff_ffff_ffff,
            new@.len() <= new_size,
            src_len == source@.len(),
            ctrl_len == ctrl@.len(),
            diff_len == diff@.len(),
            extra_len == extra@.len(),
            source@.len() <= usize::MAX,
            ctrl@.len() <= usize::MAX,
            diff@.len() <= usize::MAX,
            extra@.len() <= usize::MAX,
            apply_streams_s(source@, ctrl@, diff@, extra@, new_size as int)
                == apply_streams_rec(
                source@,
                ctrl@.skip(idx as int),
                diff@.skip(dpos as int),
                extra@.skip(epos as int),
                new_size as int,
                oldpos as int,
                new@,
            ),
        decreases ctrl@.len() - idx,
    {
        let rem = ctrl.len() - idx;
        if rem == 0 {
            proof {
                assert(ctrl@.skip(idx as int) =~= Seq::<u8>::empty());
            }
            if new.len() == new_size && dpos == diff.len() && epos == extra.len() {
                proof {
                    assert(diff@.skip(dpos as int) =~= Seq::<u8>::empty());
                    assert(extra@.skip(epos as int) =~= Seq::<u8>::empty());
                }
                return Ok(());
            }
            proof {
                if dpos == diff.len() {
                    assert(diff@.skip(dpos as int) =~= Seq::<u8>::empty());
                }
                if epos == extra.len() {
                    assert(extra@.skip(epos as int) =~= Seq::<u8>::empty());
                }
                if dpos < diff.len() {
                    assert(diff@.skip(dpos as int).len() > 0);
                }
                if epos < extra.len() {
                    assert(extra@.skip(epos as int).len() > 0);
                }
            }
            return Err(PatchError::InvalidData);
        }
        if rem < 24 {
            return Err(PatchError::InvalidData);
        }
        let ghost crem = ctrl@.skip(idx as int);
        let ghost drem = diff@.skip(dpos as int);
        let ghost erem = extra@.skip(epos as int);
        let add_i = offtin(slice_subrange(ctrl, idx, idx + 8));
        let copy_i = offtin(slice_subrange(ctrl, idx + 8, idx + 16));
        let seek_i = offtin(slice_subrange(ctrl, idx + 16, idx + 24));
        proof {
            assert(ctrl@.subrange(idx as int, idx + 8) =~= crem.subrange(0, 8));
            assert(ctrl@.subrange(idx + 8, idx + 16) =~= crem.subrange(8, 16));
            assert(ctrl@.subrange(idx + 16, idx + 24) =~= crem.subrange(16, 24));
            lemma_decode_bounds(crem.subrange(0, 8));
            lemma_decode_bounds(crem.subrange(8, 16));
            lemma_decode_bounds(crem.subrange(16, 24));
        }
        if add_i < 0 || copy_i < 0 {
            return Err(PatchError::InvalidData);
        }
        let add: u64 = add_i as u64;
        let copy: u64 = copy_i as u64;
        let room: u64 = (new_size - new.len()) as u64;
        if add > room || copy > room - add {
            return Err(PatchError::InvalidData);
        }
        let addu: usize = add as usize;
        let copyu: usize = copy as usize;
        if addu > diff_len - dpos {
            return Err(PatchError::InvalidData);
        }
        if copyu > extra_len - epos {
            return Err(PatchError::InvalidData);
        }
        let ghost mixed = Seq::new(
            add as nat,
            |j: int| wrap_add(old_at(source@, oldpos + j), diff@[dpos + j]),
        );
        let ghost pre_mix = new@;
        let mut j: usize = 0;
        while j < addu
            invariant
                j <= addu,
                addu <= 0x8000_0000,
                oldpos <= 0x7fff_ffff_ffff_ffff,
                dpos + addu <= diff@.len(),
                diff@.len() <= usize::MAX,
                source@.len() <= usize::MAX,
                src_len == source@.len(),
                mixed == Seq::new(
                    addu as nat,
                    |t: int| wrap_add(old_at(source@, oldpos + t), diff@[dpos + t]),
                ),
                new@ == pre_mix + mixed.take(j as int),
            decreases addu - j,
        {
            let oi: u64 = oldpos + j as u64;
            let ob: u8 = if oi < src_len as u64 {
                *slice_index_get(source, oi as usize)
            } else {
                0u8
            };
            let db = *slice_index_get(diff, dpos + j);
            new.push(db.wrapping_add(ob));
            proof {
                assert(ob == old_at(source@, oldpos + j));
                assert(db.wrapping_add(ob) == wrap_add(ob, db));
                assert(mixed[j as int] == wrap_add(ob, db));
                assert(new@ =~= pre_mix + mixed.take(j + 1));
            }
            j = j + 1;
        }
        proof {
            assert(mixed.take(addu as int) =~= mixed);
        }
        let ghost pre_copy = new@;
        let mut k: usize = 0;
        while k < copyu
            invariant
                k <= copyu,
                epos + copyu <= extra@.len(),
                extra@.len() <= usize::MAX,
                new@ == pre_copy + extra@.subrange(epos as int, epos + k),
            decreases copyu - k,
        {
            let eb = *slice_index_get(extra, epos + k);
            new.push(eb);
            proof {
                assert(new@ =~= pre_copy + extra@.subrange(epos as int, epos + k + 1));
            }
            k = k + 1;
        }
        let t: u64 = oldpos + add;
        let np: u64;
        if seek_i >= 0 {
            let s: u64 = seek_i as u64;
            if t > 0xffff_ffff_ffff_fffeu64 - s {
                return Err(PatchError::InvalidData);
            }
            np = t + s;
        } else {
            let m: u64 = (-seek_i) as u64;
            if t < m {
                return Err(PatchError::InvalidData);
            }
            np = t - m;
        }
        if np > 0x7fff_ffff_ffff_ffffu64 {
            return Err(PatchError::InvalidData);
        }
        let ghost old_idx = idx as int;
        let ghost old_dpos = dpos as int;
        let ghost old_epos = epos as int;
        let ghost old_pos = oldpos as int;
        oldpos = np;
        idx = idx + 24;
        dpos = dpos + addu;
        epos = epos + copyu;
        proof {
            assert(Seq::new(add as nat, |jj: int| wrap_add(old_at(source@, old_pos + jj), drem[jj]))
                =~= mixed);
            assert(erem.take(copy as int) =~= extra@.subrange(old_epos, old_epos + copyu));
            assert(crem.skip(24) =~= ctrl@.skip(idx as int));
            assert(drem.skip(add as int) =~= diff@.skip(dpos as int));
            assert(erem.skip(copy as int) =~= extra@.skip(epos as int));
            assert(new@ =~= pre_mix + mixed + erem.take(copy as int));
        }
    }
}

/// Parses a patch container: checks the magic and the declared lengths,
/// splits off the three compressed payloads, decompresses each with its
/// declared algorithm, and checks that the control stream is whole tuples.
/// Returns the declared output size and the three decompressed streams.
#[verifier::rlimit(100)]
pub fn parse_bsdf2_header(patch_data: &[u8]) -> (r: Result<
    (i64, Vec<u8>, Vec<u8>, Vec<u8>),
    PatchError,
>)
    ensures
        header_err_s(patch_data@) is Some ==> r == Err::<(i64, Vec<u8>, Vec<u8>, Vec<u8>),
            PatchError,
        >(header_err_s(patch_data@)->Some_0),
        r is Ok ==> {
            &&& header_err_s(patch_data@) is None
            &&& r->Ok_0.0 as int == new_size_s(patch_data@)
            &&& 0 <= r->Ok_0.0 as int <= 0x8000_0000
            &&& r->Ok_0.1@.len() % 24 == 0
            &&& forall|s: Seq<u8>|
                ctrl_slice_s(patch_data@) == compressed_of(
                    header_alg_ctrl_s(patch_data@),
                    s,
                ) ==> r->Ok_0.1@ == s
            &&& forall|s: Seq<u8>|
                diff_slice_s(patch_data@) == compressed_of(
                    header_alg_diff_s(patch_data@),
                    s,
                ) ==> r->Ok_0.2@ == s
            &&& forall|s: Seq<u8>|
                extra_slice_s(patch_data@) == compressed_of(
                    header_alg_extra_s(patch_data@),
                    s,
                ) ==> r->Ok_0.3@ == s
        },
        r is Err && header_err_s(patch_data@) is None ==> (r->Err_0 == PatchError::Compression
            || r->Err_0 == PatchError::InvalidData),
        forall|c: Seq<u8>|
            {
                &&& header_err_s(patch_data@) is None
                &&& ctrl_slice_s(patch_data@) == #[trigger] compressed_of(
                    header_alg_ctrl_s(patch_data@),
                    c,
                )
                &&& c.len() % 24 != 0
            } ==> r == Err::<(i64, Vec<u8>, Vec<u8>, Vec<u8>), PatchError>(
            PatchError::InvalidData,
        ),
        forall|c: Seq<u8>, d: Seq<u8>, e: Seq<u8>|
            {
                &&& header_err_s(patch_data@) is None
                &&& ctrl_slice_s(patch_data@) == #[trigger] compressed_of(
                    header_alg_ctrl_s(patch_data@),
                    c,
                )
                &&& diff_slice_s(patch_data@) == #[trigger] compressed_of(
                    header_alg_diff_s(patch_data@),
                    d,
                )
                &&& extra_slice_s(patch_data@) == #[trigger] compressed_of(
                    header_alg_extra_s(patch_data@),
                    e,
                )
                &&& c.len() % 24 == 0
            } ==> r is Ok,
{
    let plen = patch_data.len();
    if plen < 32 {
        return Err(PatchError::InvalidData);
    }
    let m0 = *slice_index_get(patch_data, 0);
    let m1 = *slice_index_get(patch_data, 1);
    let m2 = *slice_index_get(patch_data, 2);
    let m3 = *slice_index_get(patch_data, 3);
    let m4 = *slice_index_get(patch_data, 4);
    let m5 = *slice_index_get(patch_data, 5);
    let m6 = *slice_index_get(patch_data, 6);
    let m7 = *slice_index_get(patch_data, 7);
    let is_legacy = m0 == 66 && m1 == 83 && m2 == 68 && m3 == 73 && m4 == 70 && m5 == 70 && m6
        == 52 && m7 == 48;
    let is_tagged = m0 == 66 && m1 == 83 && m2 == 68 && m3 == 70 && m4 == 50;
    let alg_control: CompressionAlgorithm;
    let alg_diff: CompressionAlgorithm;
    let alg_extra: CompressionAlgorithm;
    if is_legacy {
        proof {
            assert(patch_data@.subrange(0, 8) =~= legacy_magic());
        }
        alg_control = CompressionAlgorithm::Bz2;
        alg_diff = CompressionAlgorithm::Bz2;
        alg_extra = CompressionAlgorithm::Bz2;
    } else if is_tagged {
        proof {
            assert(patch_data@.subrange(0, 5) =~= bsdf2_magic());
            assert(patch_data@.subrange(0, 8) != legacy_magic()) by {
                assert(patch_data@.subrange(0, 8)[3] == m3);
                assert(legacy_magic()[3] == 73);
            }
        }
        if m5 > 2 || m6 > 2 || m7 > 2 {
            return Err(PatchError::InvalidData);
        }
        alg_control = match CompressionAlgorithm::from_u8(m5) {
            Ok(a) => a,
            Err(e) => {
                return Err(e);
            },
        };
        alg_diff = match CompressionAlgorithm::from_u8(m6) {
            Ok(a) => a,
            Err(e) => {
                return Err(e);
            },
        };
        alg_extra = match CompressionAlgorithm::from_u8(m7) {
            Ok(a) => a,
            Err(e) => {
                return Err(e);
            },
        };
        proof {
            assert(alg_of_tag(m5) == alg_control);
            assert(alg_of_tag(m6) == alg_diff);
            assert(alg_of_tag(m7) == alg_extra);
        }
    } else {
        proof {
            assert(patch_data@.subrange(0, 8) != legacy_magic()) by {
                if patch_data@.subrange(0, 8) == legacy_magic() {
                    assert(patch_data@.subrange(0, 8)[0] == m0);
                    assert(patch_data@.subrange(0, 8)[1] == m1);
                    assert(patch_data@.subrange(0, 8)[2] == m2);
                    assert(patch_data@.subrange(0, 8)[3] == m3);
                    assert(patch_data@.subrange(0, 8)[4] == m4);
                    assert(patch_data@.subrange(0, 8)[5] == m5);
                    assert(patch_data@.subrange(0, 8)[6] == m6);
                    assert(patch_data@.subrange(0, 8)[7] == m7);
                }
            }
            assert(patch_data@.subrange(0, 5) != bsdf2_magic()) by {
                if patch_data@.subrange(0, 5) == bsdf2_magic() {
                    assert(patch_data@.subrange(0, 5)[0] == m0);
                    assert(patch_data@.subrange(0, 5)[1] == m1);
                    assert(patch_data@.subrange(0, 5)[2] == m2);
                    assert(patch_data@.subrange(0, 5)[3] == m3);
                    assert(patch_data@.subrange(0, 5)[4] == m4);
                }
            }
        }
        return Err(PatchError::InvalidData);
    }
    proof {
        assert(header_algs_s(patch_data@) == Some((alg_control, alg_diff, alg_extra)));
    }
    let lc_i = offtin(slice_subrange(patch_data, 8, 16));
    let ld_i = offtin(slice_subrange(patch_data, 16, 24));
    let ns_i = offtin(slice_subrange(patch_data, 24, 32));
    if lc_i < 0 || ld_i < 0 || ns_i < 0 {
        return Err(PatchError::InvalidData);
    }
    if ns_i > 0x8000_0000i64 {
        return Err(PatchError::ResourceExhausted);
    }
    let lc: u64 = lc_i as u64;
    let ld: u64 = ld_i as u64;
    let body: u64 = (plen - 32) as u64;
    if lc > body || ld > body - lc {
        return Err(PatchError::InvalidData);
    }
    let lcu: usize = lc as usize;
    let ldu: usize = ld as usize;
    let cs = slice_subrange(patch_data, 32, 32 + lcu);
    let ds = slice_subrange(patch_data, 32 + lcu, 32 + lcu + ldu);
    let es = slice_subrange(patch_data, 32 + lcu + ldu, plen);
    proof {
        assert(cs@ =~= ctrl_slice_s(patch_data@));
        assert(ds@ =~= diff_slice_s(patch_data@));
        assert(es@ =~= extra_slice_s(patch_data@));
    }
    let control_data = match decompress(alg_control, cs) {
        Ok(v) => v,
        Err(e) => {
            return Err(e);
        },
    };
    if control_data.len() % 24 != 0 {
        return Err(PatchError::InvalidData);
    }
    let diff_data = match decompress(alg_diff, ds) {
        Ok(v) => v,
        Err(e) => {
            return Err(e);
        },
    };
    let extra_data = match decompress(alg_extra, es) {
        Ok(v) => v,
        Err(e) => {
            return Err(e);
        },
    };
    Ok((ns_i, control_data, diff_data, extra_data))
}

/// Applies a container-form patch to `old`, writing the reconstructed
/// output into `new` (cleared first). For streams that came out of the
/// matching compressors, success and output agree exactly with replaying
/// the uncompressed streams.
pub fn patch_bsdf2(source: &[u8], patch_data: &[u8], new: &mut Vec<u8>) -> (r: Result<
    (),
    PatchError,
>)
    ensures
        header_err_s(patch_data@) is Some ==> r == Err::<(), PatchError>(
            header_err_s(patch_data@)->Some_0,
        ),
        r is Ok ==> final(new)@.len() == new_size_s(patch_data@),
        forall|c: Seq<u8>, d: Seq<u8>, e: Seq<u8>|
            {
                &&& header_err_s(patch_data@) is None
                &&& ctrl_slice_s(patch_data@) == #[trigger] compressed_of(
                    header_alg_ctrl_s(patch_data@),
                    c,
                )
                &&& diff_slice_s(patch_data@) == #[trigger] compressed_of(
                    header_alg_diff_s(patch_data@),
                    d,
                )
                &&& extra_slice_s(patch_data@) == #[trigger] compressed_of(
                    header_alg_extra_s(patch_data@),
                    e,
                )
            } ==> {
                &&& (r is Ok <==> apply_streams_s(
                    source@,
                    c,
                    d,
                    e,
                    new_size_s(patch_data@),
                ) is Some)
                &&& (r is Ok ==> final(new)@ == apply_streams_s(
                    source@,
                    c,
                    d,
                    e,
                    new_size_s(patch_data@),
                )->Some_0)
            },
{
    let parsed = parse_bsdf2_header(patch_data);
    match parsed {
        Err(e) => {
            proof {
                assert forall|c: Seq<u8>, d: Seq<u8>, e2: Seq<u8>|
                    {
                        &&& header_err_s(patch_data@) is None
                        &&& ctrl_slice_s(patch_data@) == #[trigger] compressed_of(
                            header_alg_ctrl_s(patch_data@),
                            c,
                        )
                        &&& diff_slice_s(patch_data@) == #[trigger] compressed_of(
                            header_alg_diff_s(patch_data@),
                            d,
                        )
                        &&& extra_slice_s(patch_data@) == #[trigger] compressed_of(
                            header_alg_extra_s(patch_data@),
                            e2,
                        )
                    } implies apply_streams_s(
                    source@,
                    c,
                    d,
                    e2,
                    new_size_s(patch_data@),
                ) is None by {
                    assert(c.len() % 24 != 0);
                    lemma_streams_misaligned(
                        source@,
                        c,
                        d,
                        e2,
                        new_size_s(patch_data@),
                        0,
                        Seq::<u8>::empty(),
                    );
                }
            }
            Err(e)
        },
        Ok((ns, control_data, diff_data, extra_data)) => {
            let ns_us: usize = ns as usize;
            let r = apply_streams(
                source,
                control_data.as_slice(),
                diff_data.as_slice(),
                extra_data.as_slice(),
                ns_us,
                new,
            );
            proof {
                if r is Ok {
                    lemma_apply_streams_consumes_all(
                        source@,
                        control_data@,
                        diff_data@,
                        extra_data@,
                        ns_us as int,
                        0,
                        Seq::<u8>::empty(),
                    );
                }
                assert forall|c: Seq<u8>, d: Seq<u8>, e: Seq<u8>|
                    {
                        &&& header_err_s(patch_data@) is None
                        &&& ctrl_slice_s(patch_data@) == #[trigger] compressed_of(
                            header_alg_ctrl_s(patch_data@),
                            c,
                        )
                        &&& diff_slice_s(patch_data@) == #[trigger] compressed_of(
                            header_alg_diff_s(patch_data@),
                            d,
                        )
                        &&& extra_slice_s(patch_data@) == #[trigger] compressed_of(
                            header_alg_extra_s(patch_data@),
                            e,
                        )
                    } implies {
                    &&& (r is Ok <==> apply_streams_s(
                        source@,
                        c,
                        d,
                        e,
                        new_size_s(patch_data@),
                    ) is Some)
                    &&& (r is Ok ==> new@ == apply_streams_s(
                        source@,
                        c,
                        d,
                        e,
                        new_size_s(patch_data@),
                    )->Some_0)
                } by {
                    assert(control_data@ == c);
                    assert(diff_data@ == d);
                    assert(extra_data@ == e);
                }
            }
            r
        },
    }
}

} // verus!
