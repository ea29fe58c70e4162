//! The differ: walks `new` finding matches against `old` by binary search
//! over the suffix array, and emits the raw tuple stream that reconstructs
//! `new` from `old`.

use vstd::prelude::*;
use vstd::slice::slice_index_get;
use vstd::slice::slice_subrange;
use crate::codec::encode_int64;
use crate::codec::encode_spec;
use crate::error::PatchError;
use crate::patch::apply_raw_s;
use crate::patch::lemma_apply_raw_prepend;
use crate::patch::lemma_wrap_round_trip;
use crate::patch::wrap_add;
use crate::patch::wrap_sub;
use crate::suffix::inv_ok_at;
use crate::suffix::qsufsort;

verus! {

/// `r` is exactly the length of the longest common prefix of `a` and `b`.
pub open spec fn is_lcp(a: Seq<u8>, b: Seq<u8>, r: int) -> bool {
    &&& 0 <= r <= a.len()
    &&& r <= b.len()
    &&& (forall|j: int| 0 <= j < r ==> a[j] == b[j])
    &&& (r < a.len() && r < b.len() ==> a[r] != b[r])
}

/// Counts the matching leading bytes of two slices.
pub fn matchlen(a: &[u8], b: &[u8]) -> (r: usize)
    ensures
        is_lcp(a@, b@, r as int),
{
    let na = a.len();
    let nb = b.len();
    let bound: usize = if na < nb {
        na
    } else {
        nb
    };
    let mut i: usize = 0;
    while i < bound && *slice_index_get(a, i) == *slice_index_get(b, i)
        invariant
            i <= bound,
            bound <= a@.len(),
            bound <= b@.len(),
            bound == if a@.len() < b@.len() {
                a@.len()
            } else {
                b@.len()
            },
            forall|j: int| 0 <= j < i ==> a@[j] == b@[j],
        decreases bound - i,
    {
        i = i + 1;
    }
    i
}

/// Compares `a`'s leading bytes with `b`'s over their common length;
/// true where `a` is strictly smaller on that prefix.
fn prefix_less(a: &[u8], b: &[u8]) -> (r: bool) {
    let na = a.len();
    let nb = b.len();
    let bound: usize = if na < nb {
        na
    } else {
        nb
    };
    let mut i: usize = 0;
    while i < bound
        invariant
            i <= bound,
            bound <= a@.len(),
            bound <= b@.len(),
        decreases bound - i,
    {
        let x = *slice_index_get(a, i);
        let y = *slice_index_get(b, i);
        if x < y {
            return true;
        }
        if x > y {
            return false;
        }
        i = i + 1;
    }
    false
}

/// Binary bisection over a slice of the suffix array: returns an entry of
/// the slice and the length of the common prefix of the suffix starting
/// there and `query`. The returned match is the one the bisection lands
/// on; the contract does not claim it is the longest over the slice (the
/// truncated comparison can pass over an indexed suffix that is a strict
/// prefix of the query).
pub fn search(ia: &[i64], source: &[u8], query: &[u8]) -> (r: (i64, usize))
    requires
        ia@.len() >= 1,
        forall|k: int| 0 <= k < ia@.len() ==> 0 <= #[trigger] ia@[k] <= source@.len(),
    ensures
        0 <= r.0 <= source@.len(),
        exists|k: int| 0 <= k < ia@.len() && ia@[k] == r.0,
        is_lcp(source@.skip(r.0 as int), query@, r.1 as int),
    decreases ia@.len(),
{
    let n_ia = ia.len();
    if n_ia < 3 {
        let p0 = *slice_index_get(ia, 0);
        let p1 = *slice_index_get(ia, n_ia - 1);
        let sub0 = slice_subrange(source, p0 as usize, source.len());
        let sub1 = slice_subrange(source, p1 as usize, source.len());
        let x = matchlen(sub0, query);
        let y = matchlen(sub1, query);
        if x > y {
            proof {
                assert(0 <= 0 < ia@.len() && ia@[0] == p0);
            }
            (p0, x)
        } else {
            proof {
                assert(0 <= n_ia - 1 < ia@.len() && ia@[n_ia - 1] == p1);
            }
            (p1, y)
        }
    } else {
        let mid = (n_ia - 1) / 2;
        let pm = *slice_index_get(ia, mid);
        let subm = slice_subrange(source, pm as usize, source.len());
        if prefix_less(subm, query) {
            let upper = slice_subrange(ia, mid, n_ia);
            let res = search(upper, source, query);
            proof {
                let k = choose|k: int| 0 <= k < upper@.len() && upper@[k] == res.0;
                assert(0 <= mid + k < ia@.len() && ia@[mid + k] == res.0);
            }
            res
        } else {
            let lower = slice_subrange(ia, 0, mid + 1);
            let res = search(lower, source, query);
            proof {
                let k = choose|k: int| 0 <= k < lower@.len() && lower@[k] == res.0;
                assert(0 <= k < ia@.len() && ia@[k] == res.0);
            }
            res
        }
    }
}


/// The forward boundary sweep: scores prefix positions after the last
/// emitted region and returns the split length maximizing matches minus
/// mismatches.
fn forward_len(source: &[u8], target: &[u8], lastscan: usize, lastpos: usize, scan: usize) -> (r:
    usize)
    requires
        source@.len() <= 0x8000_0000,
        target@.len() <= 0x8000_0000,
        lastscan <= scan <= target@.len(),
        lastpos <= source@.len(),
    ensures
        lastscan + r <= scan,
        lastpos + r <= source@.len(),
{
    let n_old = source.len();
    let mut s: i64 = 0;
    let mut sf: i64 = 0;
    let mut lenf: usize = 0;
    let mut fi: usize = 0;
    while lastscan + fi < scan && lastpos + fi < n_old
        invariant
            n_old == source@.len(),
            n_old <= 0x8000_0000,
            target@.len() <= 0x8000_0000,
            lastscan <= scan <= target@.len(),
            lastpos <= n_old,
            lenf <= fi,
            lastscan + fi <= scan,
            lastpos + fi <= n_old,
            lastscan + lenf <= scan,
            lastpos + lenf <= n_old,
            0 <= s <= fi,
            0 <= sf <= lenf,
        decreases scan - lastscan - fi,
    {
        let a = *slice_index_get(source, lastpos + fi);
        let b = *slice_index_get(target, lastscan + fi);
        if a == b {
            s = s + 1;
        }
        fi = fi + 1;
        if 2 * s - fi as i64 > 2 * sf - lenf as i64 {
            sf = s;
            lenf = fi;
        }
    }
    lenf
}

/// The backward boundary sweep: scores positions running back from the
/// new match and returns the length maximizing matches minus mismatches.
fn backward_len(source: &[u8], target: &[u8], lastscan: usize, scan: usize, pos: usize) -> (r:
    usize)
    requires
        source@.len() <= 0x8000_0000,
        target@.len() <= 0x8000_0000,
        lastscan <= scan <= target@.len(),
        pos <= source@.len(),
    ensures
        r <= scan - lastscan,
        r <= pos,
{
    let mut lenb: usize = 0;
    let mut s2: i64 = 0;
    let mut sb: i64 = 0;
    let mut bi: usize = 1;
    while scan >= lastscan + bi && pos >= bi
        invariant
            source@.len() <= 0x8000_0000,
            target@.len() <= 0x8000_0000,
            lastscan <= scan <= target@.len(),
            pos <= source@.len(),
            1 <= bi,
            bi <= scan - lastscan + 1,
            bi <= pos + 1,
            lenb < bi,
            lenb <= scan - lastscan,
            lenb <= pos,
            0 <= s2 <= bi,
            0 <= sb <= bi,
        decreases scan - lastscan - bi + 1,
    {
        let a = *slice_index_get(source, pos - bi);
        let b = *slice_index_get(target, scan - bi);
        if a == b {
            s2 = s2 + 1;
        }
        if 2 * s2 - bi as i64 > 2 * sb - lenb as i64 {
            sb = s2;
            lenb = bi;
        }
        bi = bi + 1;
    }
    lenb
}

/// One emission step preserves the differ's main invariant: if what was
/// already emitted reconstructs `target` up to `ls_old` from cursor
/// `lp_old`, and the new segment covers `target[ls_old..ls_new]` moving
/// the cursor to `lp_new`, the whole output reconstructs up to `ls_new`.
#[verifier::rlimit(100)]
proof fn lemma_inv_step(
    source: Seq<u8>,
    target: Seq<u8>,
    base_len: int,
    out_pre: Seq<u8>,
    out_new: Seq<u8>,
    ls_old: int,
    lp_old: int,
    ls_new: int,
    lp_new: int,
)
    requires
        0 <= base_len <= out_pre.len(),
        out_new.len() >= out_pre.len(),
        out_new.take(out_pre.len() as int) == out_pre,
        0 <= ls_old <= ls_new <= target.len(),
        forall|rest: Seq<u8>|
            (#[trigger] apply_raw_s(source, rest, lp_old)) is Some ==> apply_raw_s(
                source,
                out_pre.skip(base_len) + rest,
                0,
            ) == Some(target.take(ls_old) + apply_raw_s(source, rest, lp_old)->Some_0),
        forall|rest: Seq<u8>|
            (#[trigger] apply_raw_s(source, rest, lp_new)) is Some ==> apply_raw_s(
                source,
                out_new.skip(out_pre.len() as int) + rest,
                lp_old,
            ) == Some(
                target.subrange(ls_old, ls_new) + apply_raw_s(source, rest, lp_new)->Some_0,
            ),
    ensures
        forall|rest: Seq<u8>|
            (#[trigger] apply_raw_s(source, rest, lp_new)) is Some ==> apply_raw_s(
                source,
                out_new.skip(base_len) + rest,
                0,
            ) == Some(target.take(ls_new) + apply_raw_s(source, rest, lp_new)->Some_0),
{
    let seg = out_new.skip(out_pre.len() as int);
    assert forall|rest: Seq<u8>| (#[trigger] apply_raw_s(source, rest, lp_new)) is
        Some implies apply_raw_s(source, out_new.skip(base_len) + rest, 0) == Some(
        target.take(ls_new) + apply_raw_s(source, rest, lp_new)->Some_0,
    ) by {
        let t = apply_raw_s(source, rest, lp_new)->Some_0;
        assert(apply_raw_s(source, seg + rest, lp_old) == Some(
            target.subrange(ls_old, ls_new) + t,
        ));
        assert(apply_raw_s(source, seg + rest, lp_old) is Some);
        assert(apply_raw_s(source, out_pre.skip(base_len) + (seg + rest), 0) == Some(
            target.take(ls_old) + (target.subrange(ls_old, ls_new) + t),
        ));
        assert(out_new.skip(base_len) + rest =~= out_pre.skip(base_len) + (seg + rest));
        assert(target.take(ls_old) + (target.subrange(ls_old, ls_new) + t) =~= target.take(
            ls_new,
        ) + t);
    }
}

/// The segment built from one control tuple applies from `lp` to exactly
/// `target[ls..ls2]`, leaving the cursor at `lp2`, whatever valid stream
/// follows it.
proof fn lemma_emit_segment(
    source: Seq<u8>,
    target: Seq<u8>,
    ls: int,
    lp: int,
    add: int,
    cpy: int,
    sk: int,
    diffb: Seq<u8>,
    extrab: Seq<u8>,
    ls2: int,
    lp2: int,
)
    requires
        0 <= add <= 0x8000_0000,
        0 <= cpy <= 0x8000_0000,
        -0x8000_0000_0000 <= sk <= 0x8000_0000_0000,
        0 <= ls,
        ls + add + cpy == ls2,
        ls2 <= target.len(),
        0 <= lp,
        lp + add <= source.len(),
        lp2 == lp + add + sk,
        0 <= lp2 <= source.len(),
        source.len() <= 0x8000_0000,
        target.len() <= 0x8000_0000,
        diffb == Seq::new(add as nat, |j: int| wrap_sub(target[ls + j], source[lp + j])),
        extrab == target.subrange(ls + add, ls2),
    ensures
        forall|rest: Seq<u8>|
            (#[trigger] apply_raw_s(source, rest, lp2)) is Some ==> apply_raw_s(
                source,
                (encode_spec(add) + encode_spec(cpy) + encode_spec(sk) + diffb + extrab) + rest,
                lp,
            ) == Some(target.subrange(ls, ls2) + apply_raw_s(source, rest, lp2)->Some_0),
{
    let seg = encode_spec(add) + encode_spec(cpy) + encode_spec(sk) + diffb + extrab;
    assert forall|j: int| 0 <= j < add implies wrap_add(source[lp + j], diffb[j]) == target[ls
        + j] by {
        lemma_wrap_round_trip(target[ls + j], source[lp + j]);
    }
    assert forall|rest: Seq<u8>| (#[trigger] apply_raw_s(source, rest, lp2)) is Some implies
        apply_raw_s(source, seg + rest, lp) == Some(
        target.subrange(ls, ls2) + apply_raw_s(source, rest, lp2)->Some_0,
    ) by {
        let t = apply_raw_s(source, rest, lp2)->Some_0;
        lemma_apply_raw_prepend(source, add, cpy, sk, diffb, extrab, rest, lp, t);
        let mixed = Seq::new(add as nat, |j: int| wrap_add(source[lp + j], diffb[j]));
        assert(mixed =~= target.subrange(ls, ls + add));
        assert(apply_raw_s(source, seg + rest, lp) == Some(mixed + extrab + t));
        assert(mixed + extrab + t =~= target.subrange(ls, ls2) + t);
    }
}

/// Emits one control tuple with its diff and extra bytes: the forward and
/// backward boundary sweeps pick the split, then the tuple covering
/// `target[lastscan .. scan - lenb]` is appended to `out`. Returns the new
/// `(lastscan, lastpos)` pair. The emitted segment, applied from `lastpos`,
/// produces exactly that stretch of `target` and leaves the cursor at the
/// new `lastpos`.
#[verifier::rlimit(100)]
#[verifier::spinoff_prover]
fn emit_chunk(
    source: &[u8],
    target: &[u8],
    out: &mut Vec<u8>,
    lastscan: usize,
    lastpos: usize,
    scan: usize,
    pos: usize,
) -> (r: (usize, usize))
    requires
        source@.len() <= 0x8000_0000,
        target@.len() <= 0x8000_0000,
        lastscan <= scan <= target@.len(),
        lastpos <= source@.len(),
        pos <= source@.len(),
    ensures
        lastscan <= r.0 <= scan,
        r.1 <= source@.len(),
        scan == target@.len() ==> r.0 == target@.len(),
        final(out)@.len() >= old(out)@.len(),
        final(out)@.take(old(out)@.len() as int) == old(out)@,
        source@.len() == 0 && lastscan == 0 && lastpos == 0 && pos == 0 && scan
            == target@.len() ==> final(out)@.skip(old(out)@.len() as int) == encode_spec(0)
            + encode_spec(target@.len() as int) + encode_spec(0) + target@ && r.0
            == target@.len(),
        forall|rest: Seq<u8>|
            (#[trigger] apply_raw_s(source@, rest, r.1 as int)) is Some
                ==> apply_raw_s(
                source@,
                final(out)@.skip(old(out)@.len() as int) + rest,
                lastpos as int,
            ) == Some(
                target@.subrange(lastscan as int, r.0 as int) + apply_raw_s(
                    source@,
                    rest,
                    r.1 as int,
                )->Some_0,
            ),
{
    let n_old = source.len();
    let n_new = target.len();
    let lenf: usize = forward_len(source, target, lastscan, lastpos, scan);
    let lenb: usize = if scan < n_new {
        backward_len(source, target, lastscan, scan, pos)
    } else {
        0
    };
    let mut lenf2 = lenf;
    let mut lenb2 = lenb;
    if lastscan + lenf > scan - lenb {
        let overlap = (lastscan + lenf) - (scan - lenb);
        let mut s3: i64 = 0;
        let mut ss: i64 = 0;
        let mut lens: usize = 0;
        let mut oi: usize = 0;
        while oi < overlap
            invariant
                n_old == source@.len(),
                n_new == target@.len(),
                n_old <= 0x8000_0000,
                n_new <= 0x8000_0000,
                oi <= overlap,
                lens <= oi,
                overlap <= lenf,
                overlap <= lenb,
                lastscan + lenf <= scan <= n_new,
                lastpos + lenf <= n_old,
                lenb <= scan - lastscan,
                lenb <= pos,
                pos <= n_old,
                lastscan + lenf - overlap == scan - lenb,
                -(oi as i64) <= s3 <= oi as i64,
                0 <= ss <= oi as i64,
            decreases overlap - oi,
        {
            let t1 = *slice_index_get(target, lastscan + lenf - overlap + oi);
            let s1 = *slice_index_get(source, lastpos + lenf - overlap + oi);
            if t1 == s1 {
                s3 = s3 + 1;
            }
            let t2 = *slice_index_get(target, scan - lenb + oi);
            let s2b = *slice_index_get(source, pos - lenb + oi);
            if t2 == s2b {
                s3 = s3 - 1;
            }
            if s3 > ss {
                ss = s3;
                lens = oi + 1;
            }
            oi = oi + 1;
        }
        lenf2 = lenf - overlap + lens;
        lenb2 = lenb - lens;
    }
    let lenf = lenf2;
    let lenb = lenb2;
    let copy_len: usize = (scan - lenb) - (lastscan + lenf);
    let seek_v: i64 = pos as i64 - lenb as i64 - (lastpos as i64 + lenf as i64);
    let ghost out_pre = out@;
    encode_int64(lenf as i64, out);
    encode_int64(copy_len as i64, out);
    encode_int64(seek_v, out);
    let ghost diffb = Seq::new(
        lenf as nat,
        |j: int| wrap_sub(target@[lastscan + j], source@[lastpos + j]),
    );
    let ghost after_ctrl = out@;
    let mut dj: usize = 0;
    while dj < lenf
        invariant
            dj <= lenf,
            n_old == source@.len(),
            n_new == target@.len(),
            lastpos + lenf <= n_old,
            lastscan + lenf <= n_new,
            diffb == Seq::new(
                lenf as nat,
                |j: int| wrap_sub(target@[lastscan + j], source@[lastpos + j]),
            ),
            out@ == after_ctrl + diffb.take(dj as int),
        decreases lenf - dj,
    {
        let tb = *slice_index_get(target, lastscan + dj);
        let sb2 = *slice_index_get(source, lastpos + dj);
        out.push(tb.wrapping_sub(sb2));
        proof {
            assert(tb.wrapping_sub(sb2) == wrap_sub(tb, sb2));
            assert(diffb[dj as int] == wrap_sub(tb, sb2));
            assert(out@ =~= after_ctrl + diffb.take(dj + 1));
        }
        dj = dj + 1;
    }
    proof {
        assert(diffb.take(lenf as int) =~= diffb);
    }
    let ghost extrab = target@.subrange(lastscan + lenf, lastscan + lenf + copy_len);
    let ghost after_diff = out@;
    let mut ej: usize = 0;
    while ej < copy_len
        invariant
            ej <= copy_len,
            n_new == target@.len(),
            lastscan + lenf + copy_len <= n_new,
            extrab == target@.subrange(lastscan + lenf, lastscan + lenf + copy_len),
            out@ == after_diff + extrab.take(ej as int),
        decreases copy_len - ej,
    {
        let tb = *slice_index_get(target, lastscan + lenf + ej);
        out.push(tb);
        proof {
            assert(extrab[ej as int] == tb);
            assert(out@ =~= after_diff + extrab.take(ej + 1));
        }
        ej = ej + 1;
    }
    proof {
        assert(extrab.take(copy_len as int) =~= extrab);
        let ls = lastscan as int;
        let lp = lastpos as int;
        let add = lenf as int;
        let cpy = copy_len as int;
        let sk = seek_v as int;
        let ls2 = scan - lenb;
        let lp2 = pos - lenb;
        let seg = encode_spec(add) + encode_spec(cpy) + encode_spec(sk) + diffb + extrab;
        assert(out@ =~= out_pre + seg);
        assert(out@.take(out_pre.len() as int) =~= out_pre);
        assert(out@.skip(out_pre.len() as int) =~= seg);
        assert(lp + add + sk == lp2);
        if source@.len() == 0 && lastscan == 0 && lastpos == 0 && pos == 0 && scan
            == target@.len() {
            assert(lenf == 0);
            assert(lenb == 0);
            assert(copy_len == target@.len());
            assert(seek_v == 0);
            assert(diffb =~= Seq::<u8>::empty());
            assert(extrab =~= target@);
            assert(out@.skip(out_pre.len() as int) =~= encode_spec(0) + encode_spec(
                target@.len() as int,
            ) + encode_spec(0) + target@);
        }
        lemma_emit_segment(
            source@,
            target@,
            ls,
            lp,
            add,
            cpy,
            sk,
            diffb,
            extrab,
            ls2,
            lp2,
        );
    }
    (scan - lenb, pos - lenb)
}

/// At the differ's start nothing is emitted yet: any valid continuation
/// from cursor zero stands for the whole result.
proof fn lemma_inv_init(source: Seq<u8>, target: Seq<u8>, base_len: int, out0: Seq<u8>)
    requires
        base_len == out0.len(),
    ensures
        forall|rest: Seq<u8>|
            (#[trigger] apply_raw_s(source, rest, 0int)) is Some ==> apply_raw_s(
                source,
                out0.skip(base_len) + rest,
                0,
            ) == Some(target.take(0) + apply_raw_s(source, rest, 0int)->Some_0),
{
    assert forall|rest: Seq<u8>| (#[trigger] apply_raw_s(source, rest, 0int)) is Some implies
        apply_raw_s(source, out0.skip(base_len) + rest, 0) == Some(
        target.take(0) + apply_raw_s(source, rest, 0int)->Some_0,
    ) by {
        assert(out0.skip(base_len) + rest =~= rest);
        assert(target.take(0) + apply_raw_s(source, rest, 0int)->Some_0 =~= apply_raw_s(
            source,
            rest,
            0int,
        )->Some_0);
    }
}

/// When the differ has covered the whole of `target`, the emitted stream
/// alone applies to exactly `target`.
proof fn lemma_inv_finish(
    source: Seq<u8>,
    target: Seq<u8>,
    base_len: int,
    outf: Seq<u8>,
    lastpos: int,
)
    requires
        0 <= base_len <= outf.len(),
        forall|rest: Seq<u8>|
            (#[trigger] apply_raw_s(source, rest, lastpos)) is Some ==> apply_raw_s(
                source,
                outf.skip(base_len) + rest,
                0,
            ) == Some(
                target.take(target.len() as int) + apply_raw_s(source, rest, lastpos)->Some_0,
            ),
    ensures
        apply_raw_s(source, outf.skip(base_len), 0) == Some(target),
{
    let produced = outf.skip(base_len);
    assert(apply_raw_s(source, Seq::<u8>::empty(), lastpos) == Some(Seq::<u8>::empty()));
    assert(produced + Seq::<u8>::empty() =~= produced);
    assert(target.take(target.len() as int) + Seq::<u8>::empty() =~= target);
}

/// Produces a patch in the raw tuple-stream form, appending it to `out`.
/// The contract is the round trip itself: applying what was emitted to
/// `source` reconstructs `target` exactly. An empty `target` emits
/// nothing, and an empty `source` emits one tuple copying the whole of
/// `target` through the extra stream. Inputs over 2 GiB are outside the
/// supported range; callers reject them first.
#[verifier::rlimit(100)]
pub fn diff(source: &[u8], target: &[u8], out: &mut Vec<u8>) -> (r: Result<(), PatchError>)
    requires
        source@.len() <= 0x8000_0000,
        target@.len() <= 0x8000_0000,
    ensures
        r is Ok,
        apply_raw_s(source@, final(out)@.skip(old(out)@.len() as int), 0) == Some(target@),
        final(out)@.len() >= old(out)@.len(),
        final(out)@.take(old(out)@.len() as int) == old(out)@,
        target@.len() == 0 ==> final(out)@ == old(out)@,
        source@.len() == 0 && target@.len() > 0 ==> final(out)@.skip(old(out)@.len() as int)
            == encode_spec(0) + encode_spec(target@.len() as int) + encode_spec(0) + target@,
{
    let n_old = source.len();
    let n_new = target.len();
    let ghost base = out@;
    if n_new == 0 {
        proof {
            assert(target@ =~= Seq::<u8>::empty());
            assert(out@.skip(base.len() as int) =~= Seq::<u8>::empty());
            assert(out@.take(base.len() as int) =~= out@);
        }
        return Ok(());
    }
    let mut ia: Vec<i64> = vec![0i64; n_old + 1];
    let mut va: Vec<i64> = vec![0i64; n_old + 1];
    qsufsort(&mut ia, &mut va, source);
    proof {
        assert forall|k: int| 0 <= k < ia@.len() implies 0 <= #[trigger] ia@[k]
            <= source@.len() by {
            assert(inv_ok_at(ia@, va@, n_old as int, k));
        }
        assert(out@.skip(base.len() as int) =~= Seq::<u8>::empty());
    }
    let mut scan: usize = 0;
    let mut len: usize = 0;
    let mut pos: usize = 0;
    let mut lastscan: usize = 0;
    let mut lastpos: usize = 0;
    let mut lastoffset: i64 = 0;
    proof {
        lemma_inv_init(source@, target@, base.len() as int, out@);
    }
    while scan < n_new || lastscan < n_new
        invariant
            n_old == source@.len(),
            n_new == target@.len(),
            n_old <= 0x8000_0000,
            n_new <= 0x8000_0000,
            ia@.len() == n_old + 1,
            forall|k: int| 0 <= k < ia@.len() ==> 0 <= #[trigger] ia@[k] <= source@.len(),
            scan <= n_new,
            lastscan <= scan,
            lastpos <= n_old,
            pos <= n_old,
            len <= n_new,
            -0x8000_0000_0000i64 <= lastoffset <= 0x8000_0000_0000i64,
            base == old(out)@,
            out@.len() >= base.len(),
            out@.take(base.len() as int) == base,
            n_new > 0,
            source@.len() == 0 ==> pos == 0,
            source@.len() == 0 ==> ((out@ == base && lastscan == 0 && lastpos == 0) || (
            lastscan == n_new && out@.skip(base.len() as int) == encode_spec(0) + encode_spec(
                n_new as int,
            ) + encode_spec(0) + target@)),
            forall|rest: Seq<u8>|
                (#[trigger] apply_raw_s(source@, rest, lastpos as int)) is Some
                    ==> apply_raw_s(source@, out@.skip(base.len() as int) + rest, 0) == Some(
                    target@.take(lastscan as int) + apply_raw_s(
                        source@,
                        rest,
                        lastpos as int,
                    )->Some_0,
                ),
        ensures
            lastscan == n_new,
        decreases n_new - scan + (n_new - lastscan),
    {
        let ghost iter_start = scan;
        let mut oldscore: i64 = 0;
        len = 0;
        let mut scsc: usize = scan;
        let mut found: bool = false;
        while scan < n_new && !found
            invariant
                n_old == source@.len(),
                n_new == target@.len(),
                n_old <= 0x8000_0000,
                n_new <= 0x8000_0000,
                ia@.len() == n_old + 1,
                forall|k: int| 0 <= k < ia@.len() ==> 0 <= #[trigger] ia@[k] <= source@.len(),
                iter_start <= scan <= n_new,
                scsc <= n_new,
                pos <= n_old,
                len <= n_new,
                oldscore >= iter_start as i64 - scan as i64,
                oldscore <= scsc as i64,
                -0x8000_0000_0000i64 <= lastoffset <= 0x8000_0000_0000i64,
                source@.len() == 0 ==> pos == 0 && len == 0 && !found && oldscore == 0,
                found ==> scan + len <= n_new && scan + len > iter_start,
            decreases n_new - scan + (if found {
                0int
            } else {
                1int
            }),
        {
            let sub = slice_subrange(target, scan, n_new);
            let sr = search(ia.as_slice(), source, sub);
            pos = sr.0 as usize;
            len = sr.1;
            proof {
                if source@.len() == 0 {
                    assert(source@.skip(sr.0 as int).len() == 0);
                }
            }
            while scsc < scan + len
                invariant
                    scan + len <= n_new,
                    n_old == source@.len(),
                    n_new == target@.len(),
                    n_old <= 0x8000_0000,
                    n_new <= 0x8000_0000,
                    iter_start <= scan,
                    scsc <= n_new,
                    oldscore <= scsc as i64,
                    oldscore >= iter_start as i64 - scan as i64,
                    -0x8000_0000_0000i64 <= lastoffset <= 0x8000_0000_0000i64,
                    source@.len() == 0 ==> oldscore == 0,
                decreases scan + len - scsc,
            {
                let q: i64 = scsc as i64 + lastoffset;
                if q >= 0 && q < n_old as i64 {
                    let sb = *slice_index_get(source, q as usize);
                    let tb = *slice_index_get(target, scsc);
                    if sb == tb {
                        oldscore = oldscore + 1;
                    }
                }
                scsc = scsc + 1;
            }
            if (len as i64 == oldscore && len != 0) || (len as i64 > oldscore + 8) {
                found = true;
            } else {
                let q: i64 = scan as i64 + lastoffset;
                if q >= 0 && q < n_old as i64 {
                    let sb = *slice_index_get(source, q as usize);
                    let tb = *slice_index_get(target, scan);
                    if sb == tb {
                        oldscore = oldscore - 1;
                    }
                }
                scan = scan + 1;
            }
        }
        if found && (len as i64 == oldscore) && scan < n_new {
            scan = scan + len;
            continue;
        }
        let ghost out_pre = out@;
        let ghost ls_old = lastscan;
        let ghost lp_old = lastpos;
        let rr = emit_chunk(source, target, out, lastscan, lastpos, scan, pos);
        proof {
            assert(out@.take(base.len() as int) =~= out_pre.take(base.len() as int));
            lemma_inv_step(
                source@,
                target@,
                base.len() as int,
                out_pre,
                out@,
                ls_old as int,
                lp_old as int,
                rr.0 as int,
                rr.1 as int,
            );
        }
        lastscan = rr.0;
        lastpos = rr.1;
        lastoffset = pos as i64 - scan as i64;
        if scan >= n_new {
            break;
        }
        scan = scan + len;
    }
    proof {
        let produced = out@.skip(base.len() as int);
        assert(apply_raw_s(source@, Seq::<u8>::empty(), lastpos as int) == Some(
            Seq::<u8>::empty(),
        ));
        assert(produced + Seq::<u8>::empty() =~= produced);
        assert(target@.take(lastscan as int) + Seq::<u8>::empty() =~= target@);
    }
    Ok(())
}

} // verus!
