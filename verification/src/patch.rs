//! The raw streaming patch form: a flat sequence of 24-byte control tuples,
//! each followed inline by its diff bytes and its extra bytes, applied
//! against `old` to reconstruct `new`.

use vstd::prelude::*;
use vstd::slice::slice_index_get;
use vstd::slice::slice_subrange;
use crate::codec::decode_spec;
use crate::codec::encode_spec;
use crate::codec::lemma_codec_round_trip;
use crate::codec::lemma_decode_bounds;
use crate::codec::lemma_encode_len;
use crate::codec::offtin;
use crate::error::PatchError;

verus! {

/// Byte-wise addition modulo 256.
pub open spec fn wrap_add(a: u8, b: u8) -> u8 {
    ((a + b) % 256) as u8
}

/// Byte-wise subtraction modulo 256.
pub open spec fn wrap_sub(a: u8, b: u8) -> u8 {
    ((a + 256 - b) % 256) as u8
}

/// Adding back what was subtracted restores the byte.
pub proof fn lemma_wrap_round_trip(a: u8, b: u8)
    ensures
        wrap_add(b, wrap_sub(a, b)) == a,
{
    if a >= b {
        assert((a + 256 - b) % 256 == a - b);
    } else {
        assert((a + 256 - b) % 256 == a + 256 - b);
    }
}

/// What applying the raw tuple stream `p` to `old` yields, with the cursor
/// into `old` at `oldpos`: the reconstructed bytes, or nothing where the
/// stream is rejected.
pub open spec fn apply_raw_s(old: Seq<u8>, p: Seq<u8>, oldpos: int) -> Option<Seq<u8>>
    decreases p.len(),
{
    if p.len() == 0 {
        Some(Seq::<u8>::empty())
    } else if p.len() < 24 {
        None
    } else {
        let add = decode_spec(p.subrange(0, 8));
        let copy = decode_spec(p.subrange(8, 16));
        let seek = decode_spec(p.subrange(16, 24));
        if add < 0 || copy < 0 {
            None
        } else if p.len() < 24 + add + copy {
            None
        } else if oldpos < 0 || oldpos + add > old.len() {
            None
        } else {
            let np = oldpos + add + seek;
            if np < 0 || np > 0x7fff_ffff_ffff_ffff {
                None
            } else {
                let mixed = Seq::new(add as nat, |j: int| wrap_add(old[oldpos + j], p[24 + j]));
                let extra = p.subrange(24 + add, 24 + add + copy);
                match apply_raw_s(old, p.skip(24 + add + copy), np) {
                    Some(t) => Some(mixed + extra + t),
                    None => None,
                }
            }
        }
    }
}

/// Which error a rejected raw stream earns, mirroring the checks of
/// `apply_raw_s` in order: ending inside a tuple or running out of
/// payload or `old` is an unexpected end of data; a negative length or a
/// bad seek is a structural fault.
pub open spec fn apply_raw_err_s(old: Seq<u8>, p: Seq<u8>, oldpos: int) -> PatchError
    recommends
        apply_raw_s(old, p, oldpos) is None,
    decreases p.len(),
{
    if p.len() == 0 {
        PatchError::InvalidData
    } else if p.len() < 24 {
        PatchError::UnexpectedEof
    } else {
        let add = decode_spec(p.subrange(0, 8));
        let copy = decode_spec(p.subrange(8, 16));
        let seek = decode_spec(p.subrange(16, 24));
        if add < 0 || copy < 0 {
            PatchError::InvalidData
        } else if p.len() < 24 + add + copy {
            PatchError::UnexpectedEof
        } else if oldpos < 0 || oldpos + add > old.len() {
            PatchError::UnexpectedEof
        } else {
            let np = oldpos + add + seek;
            if np < 0 || np > 0x7fff_ffff_ffff_ffff {
                PatchError::InvalidData
            } else {
                apply_raw_err_s(old, p.skip(24 + add + copy), np)
            }
        }
    }
}

/// Prefixes the produced bytes onto the outcome of the remaining stream.
pub open spec fn chain(pre: Seq<u8>, r: Option<Seq<u8>>) -> Option<Seq<u8>> {
    match r {
        Some(t) => Some(pre + t),
        None => None,
    }
}

/// Applies a raw tuple stream to `old`, appending the reconstructed bytes
/// to `new`. The stream may end only on a tuple boundary; diff bytes are
/// added to `old` modulo 256 and extra bytes are copied literally.
#[verifier::rlimit(100)]
pub fn patch(source: &[u8], patch_data: &[u8], new: &mut Vec<u8>) -> (r: Result<(), PatchError>)
    requires
        source@.len() <= 0x7fff_ffff_ffff_ffff,
    ensures
        r is Ok <==> apply_raw_s(source@, patch_data@, 0) is Some,
        r is Ok ==> final(new)@ == old(new)@ + apply_raw_s(source@, patch_data@, 0)->Some_0,
        r is Err ==> r->Err_0 == apply_raw_err_s(source@, patch_data@, 0),
{
    let ghost base = new@;
    let src_len: usize = source.len();
    let pat_len: usize = patch_data.len();
    proof {
        assert(source@.len() <= usize::MAX);
        assert(patch_data@.len() <= usize::MAX);
    }
    let mut idx: usize = 0;
    let mut oldpos: u64 = 0;
    proof {
        assert(patch_data@.skip(0) =~= patch_data@);
        let r0 = apply_raw_s(source@, patch_data@, 0);
        if r0 is Some {
            assert(Seq::<u8>::empty() + r0->Some_0 =~= r0->Some_0);
        }
        assert(new@.skip(base.len() as int) =~= Seq::<u8>::empty());
    }
    loop
        invariant
            source@.len() <= 0x7fff_ffff_ffff_ffff,
            idx <= patch_data@.len(),
            oldpos <= 0x7fff_ffff_ffff_ffff,
            new@.len() >= base.len(),
            base == old(new)@,
            new@.take(base.len() as int) == base,
            source@.len() <= usize::MAX,
            patch_data@.len() <= usize::MAX,
            apply_raw_s(source@, patch_data@, 0) == chain(
                new@.skip(base.len() as int),
                apply_raw_s(source@, patch_data@.skip(idx as int), oldpos as int),
            ),
            apply_raw_s(source@, patch_data@.skip(idx as int), oldpos as int) is None
                ==> apply_raw_err_s(source@, patch_data@, 0) == apply_raw_err_s(
                source@,
                patch_data@.skip(idx as int),
                oldpos as int,
            ),
        decreases patch_data@.len() - idx,
    {
        let rem = patch_data.len() - idx;
        if rem == 0 {
            proof {
                assert(patch_data@.skip(idx as int) =~= Seq::<u8>::empty());
                assert(new@.skip(base.len() as int) + Seq::<u8>::empty() =~= new@.skip(
                    base.len() as int,
                ));
                assert(new@ =~= new@.take(base.len() as int) + new@.skip(base.len() as int));
            }
            return Ok(());
        }
        if rem < 24 {
            return Err(PatchError::UnexpectedEof);
        }
        let ghost prem = patch_data@.skip(idx as int);
        let add_i = offtin(slice_subrange(patch_data, idx, idx + 8));
        let copy_i = offtin(slice_subrange(patch_data, idx + 8, idx + 16));
        let seek_i = offtin(slice_subrange(patch_data, idx + 16, idx + 24));
        proof {
            assert(patch_data@.subrange(idx as int, idx + 8) =~= prem.subrange(0, 8));
            assert(patch_data@.subrange(idx + 8, idx + 16) =~= prem.subrange(8, 16));
            assert(patch_data@.subrange(idx + 16, idx + 24) =~= prem.subrange(16, 24));
            lemma_decode_bounds(prem.subrange(0, 8));
            lemma_decode_bounds(prem.subrange(8, 16));
            lemma_decode_bounds(prem.subrange(16, 24));
        }
        if add_i < 0 || copy_i < 0 {
            return Err(PatchError::InvalidData);
        }
        let add: u64 = add_i as u64;
        let copy: u64 = copy_i as u64;
        let avail: u64 = (rem - 24) as u64;
        if add > avail || copy > avail - add {
            return Err(PatchError::UnexpectedEof);
        }
        let addu: usize = add as usize;
        let copyu: usize = copy as usize;
        if oldpos > source.len() as u64 || add > source.len() as u64 - oldpos {
            return Err(PatchError::UnexpectedEof);
        }
        let opu: usize = oldpos as usize;
        let ghost mixed = Seq::new(add as nat, |j: int| wrap_add(source@[opu + j], prem[24 + j]));
        let ghost extra = prem.subrange(24 + add as int, 24 + add as int + copy as int);
        let ghost pre_mix = new@;
        let mut j: usize = 0;
        while j < addu
            invariant
                j <= addu,
                opu + addu <= source@.len(),
                source@.len() <= usize::MAX,
                idx + 24 + addu + copyu <= patch_data@.len(),
                patch_data@.len() <= usize::MAX,
                mixed == Seq::new(addu as nat, |t: int| wrap_add(source@[opu + t], patch_data@[idx + 24 + t])),
                new@ == pre_mix + mixed.take(j as int),
            decreases addu - j,
        {
            let ob = *slice_index_get(source, opu + j);
            let db = *slice_index_get(patch_data, idx + 24 + j);
            new.push(db.wrapping_add(ob));
            proof {
                assert(db.wrapping_add(ob) == wrap_add(ob, db));
                assert(mixed[j as int] == wrap_add(ob, db));
                assert(new@ =~= pre_mix + mixed.take(j + 1));
            }
            j = j + 1;
        }
        proof {
            assert(mixed.take(addu as int) =~= mixed);
        }
        let ghost pre_copy = new@;
        let mut k: usize = 0;
        while k < copyu
            invariant
                k <= copyu,
                idx + 24 + addu + copyu <= patch_data@.len(),
                patch_data@.len() <= usize::MAX,
                extra == patch_data@.subrange(idx + 24 + addu, idx + 24 + addu + copyu),
                new@ == pre_copy + extra.take(k as int),
            decreases copyu - k,
        {
            let eb = *slice_index_get(patch_data, idx + 24 + addu + k);
            new.push(eb);
            proof {
                assert(extra[k as int] == eb);
                assert(new@ =~= pre_copy + extra.take(k + 1));
            }
            k = k + 1;
        }
        proof {
            assert(extra.take(copyu as int) =~= extra);
        }
        let t: u64 = oldpos + add;
        let np: u64;
        if seek_i >= 0 {
            let s: u64 = seek_i as u64;
            if t > 0x7fff_ffff_ffff_ffffu64 - s {
                return Err(PatchError::InvalidData);
            }
            np = t + s;
        } else {
            let m: u64 = (-seek_i) as u64;
            if t < m {
                return Err(PatchError::InvalidData);
            }
            np = t - m;
        }
        let ghost old_idx = idx as int;
        let ghost old_pos = oldpos as int;
        oldpos = np;
        idx = idx + 24 + addu + copyu;
        proof {
            assert(prem.subrange(24 + add as int, 24 + add as int + copy as int) =~= patch_data@
                .subrange(old_idx + 24 + addu, old_idx + 24 + addu + copyu));
            assert(Seq::new(add as nat, |jj: int| wrap_add(source@[old_pos + jj], prem[24 + jj]))
                =~= mixed);
            assert(prem.skip(24 + add as int + copy as int) =~= patch_data@.skip(idx as int));
            assert(apply_raw_s(source@, prem, old_pos) == chain(
                mixed + extra,
                apply_raw_s(source@, patch_data@.skip(idx as int), oldpos as int),
            ));
            assert(apply_raw_err_s(source@, prem, old_pos) == apply_raw_err_s(
                source@,
                patch_data@.skip(idx as int),
                oldpos as int,
            ));
            let pre_seg = pre_mix.skip(base.len() as int);
            assert(new@.take(base.len() as int) =~= pre_mix.take(base.len() as int));
            assert(new@.skip(base.len() as int) =~= pre_seg + (mixed + extra));
            let rr = apply_raw_s(source@, patch_data@.skip(idx as int), oldpos as int);
            if rr is Some {
                assert(pre_seg + ((mixed + extra) + rr->Some_0) =~= (pre_seg + (mixed + extra))
                    + rr->Some_0);
            }
        }
    }
}

/// A well-formed leading segment, prepended to a stream that applies from
/// the segment's seek target, applies to the segment's own output followed
/// by the rest's output.
pub proof fn lemma_apply_raw_prepend(
    old_s: Seq<u8>,
    add: int,
    copy: int,
    seek: int,
    diffb: Seq<u8>,
    extrab: Seq<u8>,
    rest: Seq<u8>,
    pos: int,
    t: Seq<u8>,
)
    requires
        0 <= add <= 0x7fff_ffff_ffff_ffff,
        0 <= copy <= 0x7fff_ffff_ffff_ffff,
        -0x7fff_ffff_ffff_ffff <= seek <= 0x7fff_ffff_ffff_ffff,
        diffb.len() == add,
        extrab.len() == copy,
        0 <= pos,
        pos + add <= old_s.len(),
        0 <= pos + add + seek <= 0x7fff_ffff_ffff_ffff,
        apply_raw_s(old_s, rest, pos + add + seek) == Some(t),
    ensures
        apply_raw_s(
            old_s,
            encode_spec(add) + encode_spec(copy) + encode_spec(seek) + diffb + extrab + rest,
            pos,
        ) == Some(Seq::new(add as nat, |j: int| wrap_add(old_s[pos + j], diffb[j])) + extrab + t),
{
    let ea = encode_spec(add);
    let ec = encode_spec(copy);
    let es = encode_spec(seek);
    lemma_encode_len(add);
    lemma_encode_len(copy);
    lemma_encode_len(seek);
    let p = ea + ec + es + diffb + extrab + rest;
    assert(p.len() == 24 + add + copy + rest.len());
    assert(p.subrange(0, 8) =~= ea);
    assert(p.subrange(8, 16) =~= ec);
    assert(p.subrange(16, 24) =~= es);
    lemma_codec_round_trip(add);
    lemma_codec_round_trip(copy);
    lemma_codec_round_trip(seek);
    assert(p.subrange(24 + add, 24 + add + copy) =~= extrab);
    assert(p.skip(24 + add + copy) =~= rest);
    let mixed = Seq::new(add as nat, |j: int| wrap_add(old_s[pos + j], p[24 + j]));
    assert(mixed =~= Seq::new(add as nat, |j: int| wrap_add(old_s[pos + j], diffb[j])));
    assert(apply_raw_s(old_s, p, pos) == Some(
        Seq::new(add as nat, |j: int| wrap_add(old_s[pos + j], diffb[j])) + extrab + t,
    ));
}

} // verus!
