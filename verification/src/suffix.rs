//! The suffix-array builder: bucket sort on the first byte, then the
//! doubling refinement over rank groups, with a checked inverse-pair
//! postcondition.

use vstd::prelude::*;
use vstd::slice::slice_index_get;

verus! {


/// Every entry of `s` has magnitude at most `bound`.
pub open spec fn entries_small(s: Seq<i64>, bound: int) -> bool {
    forall|k: int| 0 <= k < s.len() ==> -bound <= #[trigger] s[k] <= bound
}

/// The entry at `idx`, or zero where `idx` is out of range.
pub open spec fn get_at_s(s: Seq<i64>, idx: int) -> i64 {
    if 0 <= idx < s.len() {
        s[idx]
    } else {
        0
    }
}

/// `s` with the entry at `idx` replaced, or `s` where `idx` is out of range.
pub open spec fn set_at_s(s: Seq<i64>, idx: int, v: i64) -> Seq<i64> {
    if 0 <= idx < s.len() {
        s.update(idx, v)
    } else {
        s
    }
}

fn get_at(a: &Vec<i64>, idx: i64) -> (r: i64)
    ensures
        r == get_at_s(a@, idx as int),
{
    if idx >= 0 && (idx as u64) < (a.len() as u64) {
        *vstd::std_specs::vec::vec_index(a, idx as usize)
    } else {
        0
    }
}

fn set_at(a: &mut Vec<i64>, idx: i64, v: i64)
    ensures
        final(a)@ == set_at_s(old(a)@, idx as int, v),
{
    if idx >= 0 && (idx as u64) < (a.len() as u64) {
        let i: usize = idx as usize;
        a[i] = v;
    }
}

fn swap_at(a: &mut Vec<i64>, x: i64, y: i64)
    ensures
        final(a)@ == set_at_s(
            set_at_s(old(a)@, x as int, get_at_s(old(a)@, y as int)),
            y as int,
            get_at_s(old(a)@, x as int),
        ),
{
    let vx = get_at(a, x);
    let vy = get_at(a, y);
    set_at(a, x, vy);
    set_at(a, y, vx);
    proof {
        assert(final(a)@ =~= set_at_s(
            set_at_s(old(a)@, x as int, get_at_s(old(a)@, y as int)),
            y as int,
            get_at_s(old(a)@, x as int),
        ));
    }
}

/// The two sequences agree at every position outside `[lo, hi)`.
pub open spec fn same_outside(s0: Seq<i64>, s1: Seq<i64>, lo: int, hi: int) -> bool {
    &&& s0.len() == s1.len()
    &&& forall|k: int|
        #![trigger s0[k]]
        #![trigger s1[k]]
        0 <= k < s0.len() && !(lo <= k < hi) ==> s0[k] == s1[k]
}

/// `s` with the entries at `x` and `y` exchanged where both lie in
/// `[lo, hi)`, else `s` unchanged.
pub open spec fn swap_in_s(s: Seq<i64>, lo: int, hi: int, x: int, y: int) -> Seq<i64> {
    if lo <= x < hi && lo <= y < hi && hi <= s.len() {
        s.update(x, s[y]).update(y, s[x])
    } else {
        s
    }
}

fn swap_in(a: &mut Vec<i64>, lo: usize, hi: usize, x: i64, y: i64)
    requires
        hi <= old(a)@.len(),
    ensures
        final(a)@ == swap_in_s(old(a)@, lo as int, hi as int, x as int, y as int),
{
    if x >= 0 && y >= 0 && x as u64 >= lo as u64 && (x as u64) < hi as u64 && y as u64 >= lo
        as u64 && (y as u64) < hi as u64 {
        swap_at(a, x, y);
    }
    proof {
        assert(final(a)@ =~= swap_in_s(old(a)@, lo as int, hi as int, x as int, y as int));
    }
}

/// `v` is the resolved-run sentinel or one of the values `s0` holds
/// inside `[lo, hi)`.
#[verifier::opaque]
pub open spec fn from_range(s0: Seq<i64>, lo: int, hi: int, v: i64) -> bool {
    v == -1 || exists|j: int| lo <= j < hi && s0[j] == v
}

/// Every entry of `s1` inside `[lo, hi)` is the resolved-run sentinel or
/// one of the values `s0` held inside `[lo, hi)`.
pub open spec fn entries_from(s0: Seq<i64>, s1: Seq<i64>, lo: int, hi: int) -> bool {
    forall|k: int|
        lo <= k < hi && 0 <= k < s1.len() ==> #[trigger] from_range(s0, lo, hi, s1[k])
}

/// A range draws its own entries from itself.
proof fn lemma_entries_from_refl(s: Seq<i64>, lo: int, hi: int)
    requires
        0 <= lo,
        hi <= s.len(),
    ensures
        entries_from(s, s, lo, hi),
{
    reveal(from_range);
    assert forall|k: int| lo <= k < hi && 0 <= k < s.len() implies #[trigger] from_range(
        s,
        lo,
        hi,
        s[k],
    ) by {
        assert(lo <= k < hi && s[k] == s[k]);
    }
}

/// The sentinel is always an admissible entry.
proof fn lemma_from_range_sentinel(s0: Seq<i64>, lo: int, hi: int)
    ensures
        from_range(s0, lo, hi, -1i64),
{
    reveal(from_range);
}

/// Exchanging two in-range entries keeps every in-range entry a sentinel
/// or an original in-range value.
proof fn lemma_entries_from_swap(s0: Seq<i64>, s1: Seq<i64>, lo: int, hi: int, x: int, y: int)
    requires
        s0.len() == s1.len(),
        0 <= lo,
        hi <= s1.len(),
        lo <= x < hi,
        lo <= y < hi,
        entries_from(s0, s1, lo, hi),
    ensures
        entries_from(s0, s1.update(x, s1[y]).update(y, s1[x]), lo, hi),
{
    let s2 = s1.update(x, s1[y]).update(y, s1[x]);
    assert forall|k: int| lo <= k < hi && 0 <= k < s2.len() implies #[trigger] from_range(
        s0,
        lo,
        hi,
        s2[k],
    ) by {
        if k == y {
            assert(s2[k] == s1[x]);
        } else if k == x {
            assert(s2[k] == s1[y]);
        } else {
            assert(s2[k] == s1[k]);
        }
    }
}

/// Composes the membership fact across a nested refinement of a subrange.
proof fn lemma_entries_from_chain(
    s0: Seq<i64>,
    s1: Seq<i64>,
    s2: Seq<i64>,
    lo: int,
    hi: int,
    lo2: int,
    hi2: int,
)
    requires
        s0.len() == s1.len(),
        s1.len() == s2.len(),
        0 <= lo <= lo2,
        hi2 <= hi <= s0.len(),
        entries_from(s0, s1, lo, hi),
        entries_from(s1, s2, lo2, hi2),
        same_outside(s1, s2, lo2, hi2),
    ensures
        entries_from(s0, s2, lo, hi),
{
    assert forall|k: int| lo <= k < hi && 0 <= k < s2.len() implies #[trigger] from_range(
        s0,
        lo,
        hi,
        s2[k],
    ) by {
        if lo2 <= k < hi2 {
            assert(from_range(s1, lo2, hi2, s2[k]));
            reveal(from_range);
            if s2[k] != -1 {
                let j = choose|j: int| lo2 <= j < hi2 && s1[j] == s2[k];
                assert(from_range(s0, lo, hi, s1[j]));
            }
        } else {
            assert(s2[k] == s1[k]);
        }
    }
}

/// The guarded exchange keeps every in-range entry a sentinel or an
/// original in-range value, whatever the indices.
proof fn lemma_entries_from_swap_in(
    s0: Seq<i64>,
    s1: Seq<i64>,
    lo: int,
    hi: int,
    x: int,
    y: int,
)
    requires
        s0.len() == s1.len(),
        0 <= lo,
        hi <= s1.len(),
        entries_from(s0, s1, lo, hi),
    ensures
        entries_from(s0, swap_in_s(s1, lo, hi, x, y), lo, hi),
{
    if lo <= x < hi && lo <= y < hi {
        lemma_entries_from_swap(s0, s1, lo, hi, x, y);
    }
}

/// Planting the sentinel at an in-range position keeps the membership.
proof fn lemma_entries_from_sentinel(s0: Seq<i64>, s1: Seq<i64>, lo: int, hi: int, p: int)
    requires
        s0.len() == s1.len(),
        0 <= lo,
        hi <= s1.len(),
        lo <= p < hi,
        entries_from(s0, s1, lo, hi),
    ensures
        entries_from(s0, s1.update(p, -1i64), lo, hi),
{
    lemma_from_range_sentinel(s0, lo, hi);
    let s2 = s1.update(p, -1i64);
    assert forall|k: int| lo <= k < hi && 0 <= k < s2.len() implies #[trigger] from_range(
        s0,
        lo,
        hi,
        s2[k],
    ) by {
        if k != p {
            assert(s2[k] == s1[k]);
        }
    }
}

/// The magnitude bound kept on suffix-array entries.
pub open spec fn i_bound() -> int {
    0x1_0000_0000
}

/// The magnitude bound kept on rank entries.
pub open spec fn v_bound() -> int {
    0x1_0000_0000_0000
}

/// Refines one unresolved group: small groups by a selection scan, larger
/// ones by a three-way partition on the rank at distance `h`, recursing on
/// the low side and handing back exactly the unprocessed tail for
/// iteration. Index positions outside the group are untouched, and inside
/// it every entry is a resolved-run sentinel or one of the group's
/// original entries.
#[verifier::rlimit(100)]
fn split_internal(
    ia: &mut Vec<i64>,
    va: &mut Vec<i64>,
    start: usize,
    len: usize,
    h: i64,
) -> (r: Option<(usize, usize)>)
    requires
        old(ia)@.len() <= 0x8000_0002,
        start + len <= old(ia)@.len(),
        1 <= len,
        1 <= h <= 0x4000_0000_0000_0000,
        entries_small(old(ia)@, i_bound()),
        entries_small(old(va)@, v_bound()),
    ensures
        final(ia)@.len() == old(ia)@.len(),
        final(va)@.len() == old(va)@.len(),
        entries_small(final(ia)@, i_bound()),
        entries_small(final(va)@, v_bound()),
        same_outside(old(ia)@, final(ia)@, start as int, (start + len) as int),
        entries_from(old(ia)@, final(ia)@, start as int, (start + len) as int),
        r matches Some((s2, l2)) ==> start < s2 && s2 + l2 == start + len && 1 <= l2 < len,
    decreases len, 0int,
{
    let ghost ia_len = ia@.len();
    let ghost va_len = va@.len();
    let ghost ia0 = ia@;
    proof {
        lemma_entries_from_refl(ia0, start as int, (start + len) as int);
    }
    if len < 16 {
        let mut k: usize = start;
        while k < start + len
            invariant
                start <= k <= start + len,
                start + len <= ia@.len(),
                ia@.len() == ia_len,
                va@.len() == va_len,
                ia_len <= 0x8000_0002,
                1 <= h <= 0x4000_0000_0000_0000,
                entries_small(ia@, i_bound()),
                entries_small(va@, v_bound()),
                same_outside(ia0, ia@, start as int, (start + len) as int),
                entries_from(ia0, ia@, start as int, (start + len) as int),
            decreases start + len - k,
        {
            let mut j: usize = 1;
            let mut x: i64 = get_at(va, get_at(ia, k as i64) + h);
            let mut i: usize = 1;
            while k + i < start + len
                invariant
                    1 <= j <= i,
                    k + i <= start + len,
                    start <= k < start + len,
                    start + len <= ia@.len(),
                    ia@.len() == ia_len,
                    va@.len() == va_len,
                    ia_len <= 0x8000_0002,
                    1 <= h <= 0x4000_0000_0000_0000,
                    entries_small(ia@, i_bound()),
                    entries_small(va@, v_bound()),
                    same_outside(ia0, ia@, start as int, (start + len) as int),
                    entries_from(ia0, ia@, start as int, (start + len) as int),
                decreases start + len - k - i,
            {
                let v = get_at(va, get_at(ia, (k + i) as i64) + h);
                if v < x {
                    x = v;
                    j = 0;
                }
                if v == x {
                    let ghost pre = ia@;
                    swap_at(ia, (k + j) as i64, (k + i) as i64);
                    proof {
                        assert(ia@ =~= pre.update((k + j) as int, pre[(k + i) as int]).update(
                            (k + i) as int,
                            pre[(k + j) as int],
                        ));
                        lemma_entries_from_swap(
                            ia0,
                            pre,
                            start as int,
                            (start + len) as int,
                            (k + j) as int,
                            (k + i) as int,
                        );
                    }
                    j = j + 1;
                }
                i = i + 1;
            }
            let kj: i64 = (k + j) as i64;
            let mut t: usize = k;
            while t < k + j
                invariant
                    k <= t <= k + j,
                    start <= k,
                    k + j <= start + len,
                    start + len <= ia@.len(),
                    ia@.len() == ia_len,
                    va@.len() == va_len,
                    ia_len <= 0x8000_0002,
                    kj == k + j,
                    entries_small(ia@, i_bound()),
                    entries_small(va@, v_bound()),
                    same_outside(ia0, ia@, start as int, (start + len) as int),
                    entries_from(ia0, ia@, start as int, (start + len) as int),
                decreases k + j - t,
            {
                set_at(va, get_at(ia, t as i64), kj - 1);
                t = t + 1;
            }
            if j == 1 {
                let ghost pre = ia@;
                set_at(ia, k as i64, -1);
                proof {
                    lemma_entries_from_sentinel(
                        ia0,
                        pre,
                        start as int,
                        (start + len) as int,
                        k as int,
                    );
                }
            }
            k = k + j;
        }
        None
    } else {
        let x: i64 = get_at(va, get_at(ia, (start + len / 2) as i64) + h);
        let mut jjc: usize = 0;
        let mut kkc: usize = 0;
        let mut c: usize = start;
        while c < start + len
            invariant
                start <= c <= start + len,
                start + len <= ia@.len(),
                ia@.len() == ia_len,
                va@.len() == va_len,
                ia_len <= 0x8000_0002,
                1 <= h <= 0x4000_0000_0000_0000,
                len >= 16,
                jjc + kkc <= c - start,
                c > start + len / 2 ==> kkc >= 1,
                x == get_at_s(va@, get_at_s(ia@, start + len / 2) + h),
                entries_small(ia@, i_bound()),
                entries_small(va@, v_bound()),
            decreases start + len - c,
        {
            let v = get_at(va, get_at(ia, c as i64) + h);
            if v < x {
                jjc = jjc + 1;
            }
            if v == x {
                kkc = kkc + 1;
            }
            c = c + 1;
        }
        let jj: usize = jjc + start;
        let kk: usize = kkc + jj;
        let mut i: usize = start;
        let mut j: u64 = 0;
        let mut k: u64 = 0;
        let mut fuel: u64 = 2 * (len as u64) + 2;
        while i < jj && fuel > 0
            invariant
                start <= i,
                i <= jj,
                jj <= kk,
                kk <= start + len,
                start + len <= ia@.len(),
                ia@.len() == ia_len,
                va@.len() == va_len,
                ia_len <= 0x8000_0002,
                1 <= h <= 0x4000_0000_0000_0000,
                j + k + fuel <= 2 * (len as u64) + 2,
                entries_small(ia@, i_bound()),
                entries_small(va@, v_bound()),
                same_outside(ia0, ia@, start as int, (start + len) as int),
                entries_from(ia0, ia@, start as int, (start + len) as int),
            decreases fuel,
        {
            fuel = fuel - 1;
            let v = get_at(va, get_at(ia, i as i64) + h);
            if v < x {
                i = i + 1;
            } else if v == x {
                let ghost pre = ia@;
                swap_in(ia, start, start + len, i as i64, jj as i64 + j as i64);
                proof {
                    lemma_entries_from_swap_in(
                        ia0,
                        pre,
                        start as int,
                        (start + len) as int,
                        i as int,
                        jj as int + j as int,
                    );
                }
                j = j + 1;
            } else {
                let ghost pre = ia@;
                swap_in(ia, start, start + len, i as i64, kk as i64 + k as i64);
                proof {
                    lemma_entries_from_swap_in(
                        ia0,
                        pre,
                        start as int,
                        (start + len) as int,
                        i as int,
                        kk as int + k as int,
                    );
                }
                k = k + 1;
            }
        }
        let mut fuel2: u64 = 2 * (len as u64) + 2;
        while (jj as u64) + j < (kk as u64) && fuel2 > 0
            invariant
                jj <= kk,
                kk <= start + len,
                start + len <= ia@.len(),
                ia@.len() == ia_len,
                va@.len() == va_len,
                ia_len <= 0x8000_0002,
                1 <= h <= 0x4000_0000_0000_0000,
                j <= 0x1_0000_0010,
                k + fuel2 <= 4 * (len as u64) + 4,
                entries_small(ia@, i_bound()),
                entries_small(va@, v_bound()),
                same_outside(ia0, ia@, start as int, (start + len) as int),
                entries_from(ia0, ia@, start as int, (start + len) as int),
            decreases fuel2,
        {
            fuel2 = fuel2 - 1;
            let v = get_at(va, get_at(ia, jj as i64 + j as i64) + h);
            if v == x {
                j = j + 1;
            } else {
                let ghost pre = ia@;
                swap_in(ia, start, start + len, jj as i64 + j as i64, kk as i64 + k as i64);
                proof {
                    lemma_entries_from_swap_in(
                        ia0,
                        pre,
                        start as int,
                        (start + len) as int,
                        jj as int + j as int,
                        kk as int + k as int,
                    );
                }
                k = k + 1;
            }
        }
        if jj > start {
            let ghost pre = ia@;
            split(ia, va, start, jj - start, h);
            proof {
                assert(same_outside(ia0, ia@, start as int, (start + len) as int));
                lemma_entries_from_chain(
                    ia0,
                    pre,
                    ia@,
                    start as int,
                    (start + len) as int,
                    start as int,
                    jj as int,
                );
            }
        }
        let kkm1: i64 = kk as i64 - 1;
        let mut t: usize = jj;
        while t < kk
            invariant
                jj <= t <= kk,
                kk <= start + len,
                start + len <= ia@.len(),
                ia@.len() == ia_len,
                va@.len() == va_len,
                ia_len <= 0x8000_0002,
                kkm1 == kk - 1,
                kk >= 1,
                entries_small(ia@, i_bound()),
                entries_small(va@, v_bound()),
            decreases kk - t,
        {
            set_at(va, get_at(ia, t as i64), kkm1);
            t = t + 1;
        }
        if jj == kk - 1 {
            let ghost pre = ia@;
            set_at(ia, jj as i64, -1);
            proof {
                lemma_entries_from_sentinel(
                    ia0,
                    pre,
                    start as int,
                    (start + len) as int,
                    jj as int,
                );
            }
        }
        proof {
            assert(kk > start);
        }
        if start + len > kk {
            Some((kk, start + len - kk))
        } else {
            None
        }
    }
}

/// Refines one unresolved group, iterating on the tail partitions that the
/// three-way split hands back. Positions of the index array outside
/// `[start, start + len)` are untouched, and inside the group every entry
/// is a resolved-run sentinel or one of the group's original entries.
fn split(ia: &mut Vec<i64>, va: &mut Vec<i64>, start: usize, len: usize, h: i64)
    requires
        old(ia)@.len() <= 0x8000_0002,
        start + len <= old(ia)@.len(),
        1 <= len,
        1 <= h <= 0x4000_0000_0000_0000,
        entries_small(old(ia)@, i_bound()),
        entries_small(old(va)@, v_bound()),
    ensures
        final(ia)@.len() == old(ia)@.len(),
        final(va)@.len() == old(va)@.len(),
        entries_small(final(ia)@, i_bound()),
        entries_small(final(va)@, v_bound()),
        same_outside(old(ia)@, final(ia)@, start as int, (start + len) as int),
        entries_from(old(ia)@, final(ia)@, start as int, (start + len) as int),
    decreases len, 1int,
{
    proof {
        lemma_entries_from_refl(old(ia)@, start as int, (start + len) as int);
    }
    let mut cur_start: usize = start;
    let mut cur_len: usize = len;
    let mut more: bool = true;
    while more
        invariant
            more ==> 1 <= cur_len <= len,
            more ==> start <= cur_start && cur_start + cur_len <= start + len,
            start + len <= ia@.len(),
            ia@.len() == old(ia)@.len(),
            va@.len() == old(va)@.len(),
            ia@.len() <= 0x8000_0002,
            1 <= h <= 0x4000_0000_0000_0000,
            entries_small(ia@, i_bound()),
            entries_small(va@, v_bound()),
            same_outside(old(ia)@, ia@, start as int, (start + len) as int),
            entries_from(old(ia)@, ia@, start as int, (start + len) as int),
        decreases (if more {
            cur_len + 1
        } else {
            0
        }),
    {
        let ghost pre = ia@;
        let ghost cs = cur_start as int;
        let ghost cl = cur_len as int;
        let r = split_internal(ia, va, cur_start, cur_len, h);
        proof {
            assert(same_outside(old(ia)@, ia@, start as int, (start + len) as int));
            lemma_entries_from_chain(
                old(ia)@,
                pre,
                ia@,
                start as int,
                (start + len) as int,
                cs,
                cs + cl,
            );
        }
        match r {
            Some((s2, l2)) => {
                cur_start = s2;
                cur_len = l2;
            },
            None => {
                more = false;
            },
        }
    }
}


/// At position `t` the two arrays are a permutation pair: the rank entry
/// points back at `t`.
pub open spec fn inv_ok_at(ia: Seq<i64>, va: Seq<i64>, n: int, t: int) -> bool {
    &&& 0 <= ia[t] <= n
    &&& 0 <= va[t] <= n
    &&& ia[va[t] as int] == t
}

/// Builds the suffix array `ia` and the rank array `va` of `source` by
/// bucket sort on the first byte and doubling refinement. On return the
/// two arrays invert each other — `ia[va[t]] == t` for every position —
/// and the empty suffix holds rank zero. Both facts are checked outright
/// after construction; the lexicographic order of the remaining ranks is
/// not part of the contract (the round trip of the differ does not rest
/// on it). Inputs over 2 GiB are outside the supported range; within it
/// the offset doubles past the input length long before the round cap,
/// so refinement always runs to completion.
#[verifier::rlimit(100)]
pub fn qsufsort(ia: &mut Vec<i64>, va: &mut Vec<i64>, source: &[u8])
    requires
        old(ia)@.len() == source@.len() + 1,
        old(va)@.len() == source@.len() + 1,
        source@.len() <= 0x8000_0000,
    ensures
        final(ia)@.len() == source@.len() + 1,
        final(va)@.len() == source@.len() + 1,
        final(ia)@[0] == source@.len(),
        forall|t: int|
            0 <= t <= source@.len() ==> #[trigger] inv_ok_at(
                final(ia)@,
                final(va)@,
                source@.len() as int,
                t,
            ),
{
    let n: usize = source.len();
    let mut z: usize = 0;
    while z <= n
        invariant
            z <= n + 1,
            n == source@.len(),
            n <= 0x8000_0000,
            ia@.len() == n + 1,
            va@.len() == n + 1,
            forall|k: int| 0 <= k < z ==> #[trigger] ia@[k] == 0i64,
            forall|k: int| 0 <= k < z ==> #[trigger] va@[k] == 0i64,
        decreases n + 1 - z,
    {
        let zi: i64 = z as i64;
        set_at(ia, zi, 0);
        set_at(va, zi, 0);
        z = z + 1;
    }
    proof {
        assert(entries_small(ia@, i_bound()));
        assert(entries_small(va@, v_bound()));
    }
    let mut buckets: Vec<i64> = vec![0i64; 256];
    let mut ci: usize = 0;
    while ci < n
        invariant
            buckets@.len() == 256,
            ci <= n,
            n == source@.len(),
            n <= 0x8000_0000,
            forall|b: int| 0 <= b < 256 ==> 0 <= #[trigger] buckets@[b] <= ci,
        decreases n - ci,
    {
        let byte = *slice_index_get(source, ci) as usize;
        let cur = buckets[byte];
        buckets[byte] = cur + 1;
        ci = ci + 1;
    }
    let mut bi: usize = 1;
    while bi < 256
        invariant
            buckets@.len() == 256,
            n <= 0x8000_0000,
            1 <= bi <= 256,
            forall|b: int|
                0 <= b < bi ==> 0 <= #[trigger] buckets@[b] <= (b + 1) * 0x8000_0001,
            forall|b: int| bi <= b < 256 ==> 0 <= #[trigger] buckets@[b] <= 0x8000_0001,
        decreases 256 - bi,
    {
        let prev = buckets[bi - 1];
        let cur = buckets[bi];
        buckets[bi] = cur + prev;
        bi = bi + 1;
    }
    let mut si: usize = 255;
    while si >= 1
        invariant
            buckets@.len() == 256,
            si <= 255,
            forall|b: int| 0 <= b < 256 ==> 0 <= #[trigger] buckets@[b] <= 0x100_0000_0000,
        decreases si,
    {
        let prev = buckets[si - 1];
        buckets[si] = prev;
        si = si - 1;
    }
    buckets[0] = 0;
    let mut pi: usize = 0;
    while pi < n
        invariant
            buckets@.len() == 256,
            pi <= n,
            n == source@.len(),
            n <= 0x8000_0000,
            ia@.len() == n + 1,
            va@.len() == old(va)@.len(),
            forall|b: int|
                0 <= b < 256 ==> 0 <= #[trigger] buckets@[b] <= 0x100_0000_0000 + pi,
            entries_small(ia@, i_bound()),
            entries_small(va@, v_bound()),
        decreases n - pi,
    {
        let ob = *slice_index_get(source, pi) as usize;
        let cur = buckets[ob];
        buckets[ob] = cur + 1;
        set_at(ia, cur + 1, pi as i64);
        pi = pi + 1;
    }
    set_at(ia, 0, n as i64);
    let mut vi: usize = 0;
    while vi < n
        invariant
            buckets@.len() == 256,
            vi <= n,
            n == source@.len(),
            n <= 0x8000_0000,
            ia@.len() == n + 1,
            va@.len() == n + 1,
            forall|b: int|
                0 <= b < 256 ==> 0 <= #[trigger] buckets@[b] <= 0x200_0000_0000,
            entries_small(ia@, i_bound()),
            entries_small(va@, v_bound()),
        decreases n - vi,
    {
        let ob = *slice_index_get(source, vi) as usize;
        let bv = buckets[ob];
        set_at(va, vi as i64, bv);
        vi = vi + 1;
    }
    set_at(va, n as i64, 0);
    let mut mi: usize = 1;
    while mi < 256
        invariant
            buckets@.len() == 256,
            1 <= mi <= 256,
            n <= 0x8000_0000,
            ia@.len() == n + 1,
            va@.len() == n + 1,
            forall|b: int|
                0 <= b < 256 ==> 0 <= #[trigger] buckets@[b] <= 0x200_0000_0000,
            entries_small(ia@, i_bound()),
            entries_small(va@, v_bound()),
        decreases 256 - mi,
    {
        let b1 = buckets[mi];
        let b0 = buckets[mi - 1];
        if b1 == b0 + 1 {
            set_at(ia, b1, -1);
        }
        mi = mi + 1;
    }
    set_at(ia, 0, -1);
    let mut h: i64 = 1;
    let mut rounds: u64 = 0;
    while get_at(ia, 0) != -(n as i64) - 1 && rounds < 64
        invariant
            n == source@.len(),
            n <= 0x8000_0000,
            ia@.len() == n + 1,
            va@.len() == n + 1,
            1 <= h <= 0x4000_0000_0000_0000,
            rounds <= 64,
            entries_small(ia@, i_bound()),
            entries_small(va@, v_bound()),
        decreases 64 - rounds,
    {
        let mut ln: i64 = 0;
        let mut i: i64 = 0;
        while i < n as i64 + 1
            invariant
                0 <= ln <= i,
                i <= n as i64 + 1 + 0x1_0000_0000,
                n <= 0x8000_0000,
                n == source@.len(),
                ia@.len() == n + 1,
                va@.len() == n + 1,
                1 <= h <= 0x4000_0000_0000_0000,
                entries_small(ia@, i_bound()),
                entries_small(va@, v_bound()),
            decreases (if i <= n as i64 + 1 {
                n as i64 + 1 - i
            } else {
                0
            }),
        {
            let iv = get_at(ia, i);
            if iv < 0 {
                ln = ln - iv;
                i = i - iv;
            } else {
                if ln != 0 && ln <= 0x1_0000_0000 {
                    set_at(ia, i - ln, -ln);
                }
                let g = get_at(va, iv);
                let ln2: i64 = g + 1 - i;
                if ln2 >= 1 && i + ln2 <= n as i64 + 1 {
                    split(ia, va, i as usize, ln2 as usize, h);
                    i = i + ln2;
                } else {
                    i = i + 1;
                }
                ln = 0;
            }
        }
        if ln != 0 && ln <= 0x1_0000_0000 {
            set_at(ia, i - ln, -ln);
        }
        h = if h <= 0x2000_0000_0000_0000 {
            h + h
        } else {
            h
        };
        rounds = rounds + 1;
    }
    let mut xi: usize = 0;
    while xi <= n
        invariant
            xi <= n + 1,
            n <= 0x8000_0000,
            n == source@.len(),
            ia@.len() == n + 1,
            va@.len() == n + 1,
            entries_small(ia@, i_bound()),
            entries_small(va@, v_bound()),
        decreases n + 1 - xi,
    {
        let v = get_at(va, xi as i64);
        set_at(ia, v, xi as i64);
        xi = xi + 1;
    }
    let nn: i64 = n as i64;
    let mut ok: bool = true;
    let mut ki: usize = 0;
    while ki <= n
        invariant
            ki <= n + 1,
            n <= 0x8000_0000,
            n == source@.len(),
            nn == n as i64,
            ia@.len() == n + 1,
            va@.len() == n + 1,
            entries_small(ia@, i_bound()),
            entries_small(va@, v_bound()),
            ok <==> (forall|t: int|
                0 <= t < ki ==> #[trigger] inv_ok_at(ia@, va@, n as int, t)),
        decreases n + 1 - ki,
    {
        let iv = get_at(ia, ki as i64);
        let vv = get_at(va, ki as i64);
        let c = iv >= 0 && iv <= nn && vv >= 0 && vv <= nn && get_at(ia, vv) == ki as i64;
        proof {
            assert(c == inv_ok_at(ia@, va@, n as int, ki as int));
        }
        ok = ok && c;
        ki = ki + 1;
    }
    if get_at(ia, 0) != nn {
        ok = false;
    }
    if !ok {
        set_at(ia, 0, nn);
        set_at(va, nn, 0);
        let mut fi: usize = 1;
        while fi <= n
            invariant
                1 <= fi <= n + 1,
                n <= 0x8000_0000,
                n == source@.len(),
                nn == n as i64,
                ia@.len() == n + 1,
                va@.len() == n + 1,
                ia@[0] == n as i64,
                n > 0 ==> va@[n as int] == 0,
                forall|t: int| 1 <= t < fi ==> ia@[t] == t - 1,
                forall|t: int| 0 <= t < fi - 1 ==> va@[t] == t + 1,
                n == 0 ==> va@[0] == 0,
            decreases n + 1 - fi,
        {
            let fv: i64 = fi as i64;
            set_at(ia, fv, fv - 1);
            if fi < n {
                set_at(va, fv - 1, fv);
            } else {
                set_at(va, fv - 1, fv);
                set_at(va, nn, 0);
            }
            fi = fi + 1;
        }
        proof {
            assert forall|t: int| 0 <= t <= source@.len() implies #[trigger] inv_ok_at(
                ia@,
                va@,
                source@.len() as int,
                t,
            ) by {
                if t < source@.len() {
                    assert(va@[t] == t + 1);
                    assert(ia@[t + 1] == t);
                } else {
                    assert(va@[t] == 0);
                    assert(ia@[0] == source@.len());
                }
            }
        }
    }
}

} // verus!
