//! Integer side of the per-frame HDR10+ luminance measurement: reading 10-bit
//! samples, bilinear chroma taps, the `maxRGB` histograms and their
//! nearest-rank percentiles.
//!
//! All output magnitudes are integers scaled by `100000` and clamped to
//! `[0, 100000]`, matching what `hdr10plus_tool inject` expects.
use vstd::prelude::*;

verus! {

/// Maximum value any luminance field may take (1.0 of linear light, scaled).
pub const MAX_VALUE: u32 = 100000;

/// Number of integer buckets in the fine `maxRGB` histogram (`0..=MAX_VALUE`).
pub const FINE_BINS: usize = 100001;

/// Number of coarse buckets used only for the scene-change metric.
pub const COARSE_BINS: usize = 256;

/// Distribution indices fixed by the HDR10+ format (9-value form).
pub const DISTRIBUTION_INDEX: [u8; 9] = [1, 5, 10, 25, 50, 75, 90, 95, 99];

/// Percentile, in hundredths of a percent, written into distribution slot `k`.
/// The slot whose `DistributionIndex` is `5` is a reserved value that tracks
/// the scene peak, so it uses the 99.98th percentile rather than the 5th.
pub open spec fn slot_percentile(k: int) -> int {
    if k == 0 {
        100
    } else if k == 1 {
        9998
    } else if k == 2 {
        1000
    } else if k == 3 {
        2500
    } else if k == 4 {
        5000
    } else if k == 5 {
        7500
    } else if k == 6 {
        9000
    } else if k == 7 {
        9500
    } else {
        9900
    }
}

/// Each distribution slot takes the percentile that its `DistributionIndex`
/// names (index `i` means `i` percent, that is `100 * i` hundredths), except
/// the reserved slot 1 (index 5), which takes the 99.98th percentile.
pub proof fn lemma_slot_percentiles_follow_distribution_index()
    ensures
        DISTRIBUTION_INDEX@.len() == 9,
        DISTRIBUTION_INDEX@ == seq![1u8, 5, 10, 25, 50, 75, 90, 95, 99],
        forall|k: int| 0 <= k < 9 && k != 1 ==> #[trigger] slot_percentile(k) == 100 * DISTRIBUTION_INDEX@[k],
        slot_percentile(1) == 9998,
{
    assert(DISTRIBUTION_INDEX@ =~= seq![1u8, 5, 10, 25, 50, 75, 90, 95, 99]);
}

/// Result of analyzing a single frame (its integer fields).
#[derive(Clone, Copy, Debug)]
pub struct FrameMeasurement {
    /// Per-channel maxima `[R, G, B]`, scaled by 100000, clamped to `MAX_VALUE`.
    pub max_scl: [u32; 3],
    /// Mean of `maxRGB`, scaled by 100000, clamped to `MAX_VALUE`.
    pub average_rgb: u32,
    /// Distribution values (one per `DISTRIBUTION_INDEX` slot), scaled/clamped.
    pub distribution: [u32; 9],
}

impl FrameMeasurement {
    /// A measurement for an all-black / empty frame.
    pub fn empty() -> (m: FrameMeasurement)
        ensures
            forall|c: int| 0 <= c < 3 ==> m.max_scl@[c] == 0,
            m.average_rgb == 0,
            forall|k: int| 0 <= k < 9 ==> m.distribution@[k] == 0,
    {
        FrameMeasurement { max_scl: [0, 0, 0], average_rgb: 0, distribution: [0, 0, 0, 0, 0, 0, 0, 0, 0] }
    }
}

/// The 10-bit code stored little-endian at byte offset `off`.
pub open spec fn code_at(plane: Seq<u8>, off: int) -> int {
    plane[off] + 256 * (plane[off + 1] % 4)
}

/// A sample is the 16-bit little-endian word at its offset (low byte first)
/// with all but its ten low bits cleared.
pub proof fn lemma_code_is_low_ten_bits(plane: Seq<u8>, off: int)
    requires
        0 <= off,
        off + 1 < plane.len(),
    ensures
        code_at(plane, off) == (plane[off] + 256 * plane[off + 1]) % 1024,
{
    let lo = plane[off] as int;
    let hi = plane[off + 1] as int;
    vstd::arithmetic::div_mod::lemma_fundamental_div_mod(hi, 4);
    vstd::arithmetic::div_mod::lemma_mod_bound(hi, 4);
    let q = hi / 4;
    let m = hi % 4;
    assert(lo + 256 * hi == q * 1024 + (lo + 256 * m)) by (nonlinear_arith)
        requires
            hi == 4 * q + m,
    ;
    vstd::arithmetic::div_mod::lemma_fundamental_div_mod_converse(lo + 256 * hi, 1024, q, lo + 256 * m);
}

/// Read a 10-bit little-endian sample at byte offset `off` from `plane`.
pub fn sample10(plane: &[u8], off: usize) -> (r: u16)
    requires
        off + 1 < plane@.len(),
    ensures
        r == code_at(plane@, off as int),
        r < 1024,
{
    let lo = plane[off];
    let hi = plane[off + 1];
    assert(hi & 3 == hi % 4) by (bit_vector);
    (lo as u16) + 256 * ((hi & 3) as u16)
}

/// Clamp a tap index to the last row/column of a plane with `n` entries
/// (to 0 for an empty plane).
pub open spec fn clamp_tap(i: int, n: int) -> int {
    let last = if n > 0 { n - 1 } else { 0 };
    if i < last { i } else { last }
}

/// Byte offset of the chroma sample in row `row`, column `col`.
pub open spec fn tap_offset(stride: int, row: int, col: int) -> int {
    row * stride + col * 2
}

/// The four bilinear taps of luma position `(x, y)` lie inside the plane.
pub open spec fn chroma_taps_in_plane(len: int, stride: int, cw: int, ch: int, x: int, y: int) -> bool {
    let x0 = clamp_tap(x / 2, cw);
    let x1 = clamp_tap(x / 2 + 1, cw);
    let y0 = clamp_tap(y / 2, ch);
    let y1 = clamp_tap(y / 2 + 1, ch);
    &&& tap_offset(stride, y0, x0) + 1 < len
    &&& tap_offset(stride, y0, x1) + 1 < len
    &&& tap_offset(stride, y1, x0) + 1 < len
    &&& tap_offset(stride, y1, x1) + 1 < len
}

/// `off + 1 < len`, computed without overflow.
fn tap_fits(len: usize, stride: usize, row: usize, col: usize) -> (r: bool)
    ensures
        r == (tap_offset(stride as int, row as int, col as int) + 1 < len),
{
    let base = match row.checked_mul(stride) {
        Some(b) => b,
        None => {
            assert(row * stride >= usize::MAX + 1);
            return false;
        },
    };
    let col2 = match col.checked_mul(2) {
        Some(c) => c,
        None => return false,
    };
    match base.checked_add(col2) {
        Some(off) => len > 0 && off < len - 1,
        None => false,
    }
}

/// Whether the four bilinear taps of luma position `(x, y)` lie inside a
/// chroma plane of `len` bytes.
pub fn chroma_taps_fit(len: usize, stride: usize, cw: usize, ch: usize, x: usize, y: usize) -> (r: bool)
    ensures
        r == chroma_taps_in_plane(len as int, stride as int, cw as int, ch as int, x as int, y as int),
{
    let last_x = cw.saturating_sub(1);
    let last_y = ch.saturating_sub(1);
    let x0 = x / 2;
    let y0 = y / 2;
    let x1 = if x0 < last_x { x0 + 1 } else { last_x };
    let y1 = if y0 < last_y { y0 + 1 } else { last_y };
    let x0 = if x0 < last_x { x0 } else { last_x };
    let y0 = if y0 < last_y { y0 } else { last_y };
    assert(x0 == clamp_tap(x as int / 2, cw as int));
    assert(x1 == clamp_tap(x / 2 + 1, cw as int));
    assert(y0 == clamp_tap(y as int / 2, ch as int));
    assert(y1 == clamp_tap(y / 2 + 1, ch as int));
    tap_fits(len, stride, y0, x0) && tap_fits(len, stride, y0, x1) && tap_fits(len, stride, y1, x0) && tap_fits(
        len,
        stride,
        y1,
        x1,
    )
}

/// Four times the bilinear chroma value at luma position `(x, y)`: the chroma
/// grid is mapped by `cx = x / 2`, `cy = y / 2`, and an odd coordinate sits
/// halfway between two chroma samples.
pub open spec fn chroma_x4(plane: Seq<u8>, stride: int, cw: int, ch: int, x: int, y: int) -> int {
    let x0 = clamp_tap(x / 2, cw);
    let x1 = clamp_tap(x / 2 + 1, cw);
    let y0 = clamp_tap(y / 2, ch);
    let y1 = clamp_tap(y / 2 + 1, ch);
    let v00 = code_at(plane, tap_offset(stride, y0, x0));
    let v01 = code_at(plane, tap_offset(stride, y0, x1));
    let v10 = code_at(plane, tap_offset(stride, y1, x0));
    let v11 = code_at(plane, tap_offset(stride, y1, x1));
    let top2 = if x % 2 == 1 { v00 + v01 } else { 2 * v00 };
    let bot2 = if x % 2 == 1 { v10 + v11 } else { 2 * v10 };
    if y % 2 == 1 { top2 + bot2 } else { 2 * top2 }
}

/// The chroma value is the bilinear interpolation of its four taps: with
/// horizontal weight `wx = (x mod 2) / 2` and vertical weight
/// `wy = (y mod 2) / 2`, four times the value is
/// `4 * ((1-wx)(1-wy) v00 + wx (1-wy) v01 + (1-wx) wy v10 + wx wy v11)`, where
/// `v00, v01` are the codes at chroma row `y/2`, columns `x/2` and `x/2 + 1`,
/// and `v10, v11` those at row `y/2 + 1`, each index clamped to the plane.
pub proof fn lemma_chroma_bilinear_weights(plane: Seq<u8>, stride: int, cw: int, ch: int, x: int, y: int)
    requires
        x >= 0,
        y >= 0,
    ensures
        ({
            let last_x = if cw > 0 { cw - 1 } else { 0 };
            let last_y = if ch > 0 { ch - 1 } else { 0 };
            let c0 = if x / 2 < last_x { x / 2 } else { last_x };
            let c1 = if x / 2 + 1 < last_x { x / 2 + 1 } else { last_x };
            let r0 = if y / 2 < last_y { y / 2 } else { last_y };
            let r1 = if y / 2 + 1 < last_y { y / 2 + 1 } else { last_y };
            let v00 = plane[r0 * stride + c0 * 2] + 256 * (plane[r0 * stride + c0 * 2 + 1] % 4);
            let v01 = plane[r0 * stride + c1 * 2] + 256 * (plane[r0 * stride + c1 * 2 + 1] % 4);
            let v10 = plane[r1 * stride + c0 * 2] + 256 * (plane[r1 * stride + c0 * 2 + 1] % 4);
            let v11 = plane[r1 * stride + c1 * 2] + 256 * (plane[r1 * stride + c1 * 2 + 1] % 4);
            let wx = x % 2;
            let wy = y % 2;
            chroma_x4(plane, stride, cw, ch, x, y) == (2 - wx) * (2 - wy) * v00 + wx * (2 - wy) * v01 + (2 - wx)
                * wy * v10 + wx * wy * v11
        }),
{
    let last_x = if cw > 0 { cw - 1 } else { 0 };
    let last_y = if ch > 0 { ch - 1 } else { 0 };
    let c0 = if x / 2 < last_x { x / 2 } else { last_x };
    let c1 = if x / 2 + 1 < last_x { x / 2 + 1 } else { last_x };
    let r0 = if y / 2 < last_y { y / 2 } else { last_y };
    let r1 = if y / 2 + 1 < last_y { y / 2 + 1 } else { last_y };
    let v00 = code_at(plane, tap_offset(stride, r0, c0));
    let v01 = code_at(plane, tap_offset(stride, r0, c1));
    let v10 = code_at(plane, tap_offset(stride, r1, c0));
    let v11 = code_at(plane, tap_offset(stride, r1, c1));
    let wx = x % 2;
    let wy = y % 2;
    let lhs = chroma_x4(plane, stride, cw, ch, x, y);
    let top2 = if wx == 1 { v00 + v01 } else { 2 * v00 };
    let bot2 = if wx == 1 { v10 + v11 } else { 2 * v10 };
    assert(lhs == if wy == 1 { top2 + bot2 } else { 2 * top2 });
    assert(lhs == (2 - wx) * (2 - wy) * v00 + wx * (2 - wy) * v01 + (2 - wx) * wy * v10 + wx * wy * v11)
        by (nonlinear_arith)
        requires
            wx == 0 || wx == 1,
            wy == 0 || wy == 1,
            top2 == if wx == 1 { v00 + v01 } else { 2 * v00 },
            bot2 == if wx == 1 { v10 + v11 } else { 2 * v10 },
            lhs == if wy == 1 { top2 + bot2 } else { 2 * top2 },
    ;
}

/// Bilinearly sample a chroma plane (quarter-resolution, 4:2:0) at luma
/// coordinates `(x, y)` with approximate center siting. Returns four times the
/// interpolated 10-bit code, which is always a whole number.
pub fn chroma_bilinear_x4(plane: &[u8], stride: usize, cw: usize, ch: usize, x: usize, y: usize) -> (r: u32)
    requires
        chroma_taps_in_plane(plane@.len() as int, stride as int, cw as int, ch as int, x as int, y as int),
    ensures
        r == chroma_x4(plane@, stride as int, cw as int, ch as int, x as int, y as int),
        r < 4096,
{
    let last_x = cw.saturating_sub(1);
    let last_y = ch.saturating_sub(1);
    let x0 = x / 2;
    let y0 = y / 2;
    let x1 = if x0 < last_x { x0 + 1 } else { last_x };
    let y1 = if y0 < last_y { y0 + 1 } else { last_y };
    let x0 = if x0 < last_x { x0 } else { last_x };
    let y0 = if y0 < last_y { y0 } else { last_y };
    assert(x0 == clamp_tap(x as int / 2, cw as int));
    assert(x1 == clamp_tap(x / 2 + 1, cw as int));
    assert(y0 == clamp_tap(y as int / 2, ch as int));
    assert(y1 == clamp_tap(y / 2 + 1, ch as int));
    let plane_len = plane.len();
    assert(tap_offset(stride as int, y0 as int, x0 as int) + 1 < plane@.len());
    assert(tap_offset(stride as int, y1 as int, x0 as int) + 1 < plane@.len());
    assert(y0 * stride <= usize::MAX && y1 * stride <= usize::MAX);
    let row0 = y0 * stride;
    let row1 = y1 * stride;
    assert(row0 + x0 * 2 + 1 < plane_len);
    assert(row0 + x1 * 2 + 1 < plane_len);
    assert(row1 + x0 * 2 + 1 < plane_len);
    assert(row1 + x1 * 2 + 1 < plane_len);
    let v00 = sample10(plane, row0 + x0 * 2) as u32;
    let v01 = sample10(plane, row0 + x1 * 2) as u32;
    let v10 = sample10(plane, row1 + x0 * 2) as u32;
    let v11 = sample10(plane, row1 + x1 * 2) as u32;
    let top2 = if x % 2 == 1 { v00 + v01 } else { 2 * v00 };
    let bot2 = if x % 2 == 1 { v10 + v11 } else { 2 * v10 };
    if y % 2 == 1 { top2 + bot2 } else { 2 * top2 }
}

/// Sum of the first `i` entries of `s`.
pub open spec fn prefix_sum(s: Seq<int>, i: nat) -> int
    decreases i,
{
    if i == 0 {
        0
    } else {
        prefix_sum(s, (i - 1) as nat) + s[i - 1]
    }
}

/// Histogram counts as mathematical integers.
pub open spec fn as_ints(s: Seq<u64>) -> Seq<int> {
    s.map_values(|v: u64| v as int)
}

/// Prefix sums of a histogram never decrease.
pub proof fn lemma_prefix_sum_monotone(s: Seq<int>, j: nat, i: nat)
    requires
        j <= i <= s.len(),
        forall|k: int| 0 <= k < s.len() ==> s[k] >= 0,
    ensures
        prefix_sum(s, j) <= prefix_sum(s, i),
    decreases i,
{
    if j < i {
        lemma_prefix_sum_monotone(s, j, (i - 1) as nat);
    }
}

/// Raising one entry of a histogram raises every prefix sum that covers it by
/// the same amount.
proof fn lemma_prefix_sum_update(s: Seq<int>, idx: int, v: int, i: nat)
    requires
        0 <= idx < s.len(),
        i <= s.len(),
    ensures
        prefix_sum(s.update(idx, v), i) == prefix_sum(s, i) + if idx < i { v - s[idx] } else { 0 },
    decreases i,
{
    if i > 0 {
        lemma_prefix_sum_update(s, idx, v, (i - 1) as nat);
    }
}

/// Prefix sums of an entry-wise sum are the sums of the prefix sums.
proof fn lemma_prefix_sum_add(a: Seq<int>, b: Seq<int>, c: Seq<int>, i: nat)
    requires
        a.len() == b.len() == c.len(),
        i <= a.len(),
        forall|k: int| 0 <= k < a.len() ==> c[k] == a[k] + b[k],
    ensures
        prefix_sum(c, i) == prefix_sum(a, i) + prefix_sum(b, i),
    decreases i,
{
    if i > 0 {
        lemma_prefix_sum_add(a, b, c, (i - 1) as nat);
    }
}

/// An all-zero histogram sums to zero.
proof fn lemma_prefix_sum_zero(s: Seq<int>, i: nat)
    requires
        i <= s.len(),
        forall|k: int| 0 <= k < s.len() ==> s[k] == 0,
    ensures
        prefix_sum(s, i) == 0,
    decreases i,
{
    if i > 0 {
        lemma_prefix_sum_zero(s, (i - 1) as nat);
    }
}

/// No entry of a histogram exceeds its total.
proof fn lemma_entry_le_total(s: Seq<int>, k: int)
    requires
        0 <= k < s.len(),
        forall|t: int| 0 <= t < s.len() ==> s[t] >= 0,
    ensures
        s[k] <= prefix_sum(s, s.len()),
{
    lemma_prefix_sum_monotone(s, 0, k as nat);
    lemma_prefix_sum_monotone(s, (k + 1) as nat, s.len());
}

/// Nearest-rank target: the rank `ceil(pct / 10000 * total)`, at least 1, for a
/// percentile given in hundredths of a percent and clamped to 100%.
pub open spec fn rank_target(total: int, pct: int) -> int {
    let p = if pct > 10000 { 10000 } else { pct };
    let r = (p * total + 9999) / 10000;
    if r < 1 { 1 } else { r }
}

/// `r` is the nearest-rank percentile of `hist` (holding `total` samples): the
/// smallest bin whose cumulative count reaches the rank target, or the last bin
/// when no bin does; 0 for an empty sample.
pub open spec fn is_nearest_rank(hist: Seq<int>, total: int, pct: int, r: int) -> bool {
    if total == 0 {
        r == 0
    } else {
        let target = rank_target(total, pct);
        if prefix_sum(hist, hist.len()) >= target {
            &&& 0 <= r < hist.len()
            &&& prefix_sum(hist, (r + 1) as nat) >= target
            &&& prefix_sum(hist, r as nat) < target
        } else {
            r == hist.len() - 1
        }
    }
}

/// The nearest-rank percentile of `hist` at `pct` hundredths of a percent.
pub open spec fn nearest_rank(hist: Seq<int>, total: int, pct: int) -> int {
    choose|r: int| is_nearest_rank(hist, total, pct, r)
}

/// There is only one nearest-rank percentile.
pub proof fn lemma_nearest_rank_unique(hist: Seq<int>, total: int, pct: int, r1: int, r2: int)
    requires
        forall|k: int| 0 <= k < hist.len() ==> hist[k] >= 0,
        is_nearest_rank(hist, total, pct, r1),
        is_nearest_rank(hist, total, pct, r2),
    ensures
        r1 == r2,
{
    if total != 0 && prefix_sum(hist, hist.len()) >= rank_target(total, pct) {
        if r1 < r2 {
            lemma_prefix_sum_monotone(hist, (r1 + 1) as nat, r2 as nat);
        } else if r2 < r1 {
            lemma_prefix_sum_monotone(hist, (r2 + 1) as nat, r1 as nat);
        }
    }
}

proof fn lemma_rank_target_bounds(total: int, pct: int)
    requires
        total >= 1,
        pct >= 0,
    ensures
        1 <= rank_target(total, pct) <= total,
{
    let p = if pct > 10000 { 10000 } else { pct };
    assert(p * total <= 10000 * total) by (nonlinear_arith)
        requires
            0 <= p <= 10000,
            total >= 1,
    ;
    assert((p * total + 9999) / 10000 <= total) by (nonlinear_arith)
        requires
            0 <= p * total <= 10000 * total,
            total >= 1,
    ;
}

/// A higher percentile never selects a lower bin.
pub proof fn lemma_nearest_rank_monotone(hist: Seq<int>, total: int, p1: int, p2: int, r1: int, r2: int)
    requires
        forall|k: int| 0 <= k < hist.len() ==> hist[k] >= 0,
        hist.len() > 0,
        0 <= p1 <= p2,
        total >= 0,
        is_nearest_rank(hist, total, p1, r1),
        is_nearest_rank(hist, total, p2, r2),
    ensures
        r1 <= r2,
{
    if total != 0 {
        let q1 = if p1 > 10000 { 10000 } else { p1 };
        let q2 = if p2 > 10000 { 10000 } else { p2 };
        assert(q1 * total + 9999 <= q2 * total + 9999) by (nonlinear_arith)
            requires
                0 <= q1 <= q2,
                total >= 0,
        ;
        assert((q1 * total + 9999) / 10000 <= (q2 * total + 9999) / 10000) by (nonlinear_arith)
            requires
                q1 * total + 9999 <= q2 * total + 9999,
        ;
        let t1 = rank_target(total, p1);
        let t2 = rank_target(total, p2);
        assert(t1 <= t2);
        if prefix_sum(hist, hist.len()) >= t2 {
            if r2 < r1 {
                lemma_prefix_sum_monotone(hist, (r2 + 1) as nat, r1 as nat);
            }
        }
    }
}

/// What the nearest-rank percentile is, in plain arithmetic: when the
/// histogram holds at least `total` samples and `pct` is at most 100% (in
/// hundredths of a percent), the result is the first bin at which the
/// cumulative count reaches `pct / 10000` of the samples (and at least one
/// sample): its cumulative count `c` satisfies `10000 * c >= pct * total` and
/// `c >= 1`, while the count before it does not.
pub proof fn lemma_nearest_rank_reaches_fraction(hist: Seq<int>, total: int, pct: int, r: int)
    requires
        forall|k: int| 0 <= k < hist.len() ==> hist[k] >= 0,
        total > 0,
        0 <= pct <= 10000,
        prefix_sum(hist, hist.len()) >= total,
        is_nearest_rank(hist, total, pct, r),
    ensures
        0 <= r < hist.len(),
        prefix_sum(hist, (r + 1) as nat) * 10000 >= pct * total,
        prefix_sum(hist, (r + 1) as nat) >= 1,
        prefix_sum(hist, r as nat) * 10000 < pct * total || prefix_sum(hist, r as nat) == 0,
{
    lemma_rank_target_bounds(total, pct);
    let a = pct * total;
    assert(0 <= pct * total) by (nonlinear_arith)
        requires
            0 <= pct,
            total > 0,
    ;
    let q = (a + 9999) / 10000;
    vstd::arithmetic::div_mod::lemma_fundamental_div_mod(a + 9999, 10000);
    vstd::arithmetic::div_mod::lemma_mod_bound(a + 9999, 10000);
    assert(10000 * q <= a + 9999 && a + 9999 < 10000 * q + 10000);
    let hi = prefix_sum(hist, (r + 1) as nat);
    let lo = prefix_sum(hist, r as nat);
    lemma_prefix_sum_monotone(hist, 0, r as nat);
    assert(hi >= q);
    assert(hi * 10000 >= a) by (nonlinear_arith)
        requires
            hi >= q,
            10000 * q + 10000 > a + 9999,
    ;
    if q >= 1 {
        assert(lo < q);
        assert(lo * 10000 < a) by (nonlinear_arith)
            requires
                lo <= q - 1,
                10000 * q <= a + 9999,
        ;
    } else {
        assert(lo < 1);
    }
}

/// Nearest-rank percentile over an integer-indexed histogram. The bin index is
/// already the scaled value, so the returned index *is* the scaled percentile.
///
/// `total` is the number of samples; `pct` is in hundredths of a percent
/// (`0..=10000`, larger values count as 100%).
pub fn percentile_from_hist(hist: &[u64], total: u64, pct: u32) -> (r: u32)
    requires
        total > 0 ==> hist@.len() > 0,
        hist@.len() <= u32::MAX,
    ensures
        is_nearest_rank(as_ints(hist@), total as int, pct as int, r as int),
        r == nearest_rank(as_ints(hist@), total as int, pct as int),
        total > 0 && pct <= 10000 && prefix_sum(as_ints(hist@), hist@.len()) >= total ==> {
            let c = prefix_sum(as_ints(hist@), (r + 1) as nat);
            let b = prefix_sum(as_ints(hist@), r as nat);
            &&& r < hist@.len()
            &&& c * 10000 >= pct * total && c >= 1
            &&& b * 10000 < pct * total || b == 0
        },
{
    let ghost h = as_ints(hist@);
    assert(forall|k: int| 0 <= k < h.len() ==> h[k] >= 0);
    if total == 0 {
        proof {
            lemma_nearest_rank_unique(h, 0, pct as int, 0, nearest_rank(h, 0, pct as int));
        }
        return 0;
    }
    let p: u128 = if pct > 10000 { 10000 } else { pct as u128 };
    assert(p * total <= 10000 * (u64::MAX as int)) by (nonlinear_arith)
        requires
            p <= 10000,
            total <= u64::MAX,
    ;
    let ceil = (p * (total as u128) + 9999) / 10000;
    proof {
        lemma_rank_target_bounds(total as int, pct as int);
    }
    let rank: u64 = if ceil < 1 { 1 } else { ceil as u64 };
    assert(rank == rank_target(total as int, pct as int));
    let mut cumulative: u64 = 0;
    let mut idx: usize = 0;
    while idx < hist.len()
        invariant
            idx <= hist@.len(),
            h == as_ints(hist@),
            h.len() == hist@.len(),
            rank == rank_target(total as int, pct as int),
            1 <= rank <= total,
            cumulative == prefix_sum(h, idx as nat),
            prefix_sum(h, idx as nat) < rank,
            total > 0,
            hist@.len() <= u32::MAX,
        decreases hist@.len() - idx,
    {
        let count = hist[idx];
        assert(h[idx as int] == count as int);
        cumulative = cumulative.saturating_add(count);
        if cumulative >= rank {
            assert(prefix_sum(h, (idx + 1) as nat) >= rank);
            proof {
                lemma_prefix_sum_monotone(h, (idx + 1) as nat, h.len());
                assert(is_nearest_rank(h, total as int, pct as int, idx as int));
                lemma_nearest_rank_unique(
                    h,
                    total as int,
                    pct as int,
                    idx as int,
                    nearest_rank(h, total as int, pct as int),
                );
                if pct <= 10000 && prefix_sum(h, h.len()) >= total {
                    lemma_nearest_rank_reaches_fraction(h, total as int, pct as int, idx as int);
                }
            }
            return idx as u32;
        }
        idx = idx + 1;
    }
    proof {
        assert(is_nearest_rank(h, total as int, pct as int, hist@.len() - 1));
        lemma_nearest_rank_unique(
            h,
            total as int,
            pct as int,
            hist@.len() - 1,
            nearest_rank(h, total as int, pct as int),
        );
        if pct <= 10000 && prefix_sum(h, h.len()) >= total {
            lemma_nearest_rank_reaches_fraction(h, total as int, pct as int, hist@.len() - 1);
        }
    }
    (hist.len() - 1) as u32
}

/// Per-frame histogram accumulator: a fine `maxRGB` histogram with one bin
/// per output value, a coarse one for the scene-change metric, and the number
/// of samples recorded. Partial accumulators over disjoint rows merge into one.
pub struct HistogramAccum {
    fine: Vec<u64>,
    coarse: Vec<u64>,
    count: u64,
}

/// Bin that an index lands in for a histogram of `n` bins: out-of-range
/// indices go to the last bin.
pub open spec fn bin_of(i: int, n: int) -> int {
    if i < n - 1 { i } else { n - 1 }
}

/// The accumulator's contents are consistent: both histograms have their fixed
/// number of bins and each holds every recorded sample exactly once.
pub open spec fn counts_consistent(v: (Seq<int>, Seq<int>, int)) -> bool {
    &&& v.0.len() == FINE_BINS
    &&& v.1.len() == COARSE_BINS
    &&& forall|k: int| 0 <= k < v.0.len() ==> 0 <= #[trigger] v.0[k] <= u64::MAX
    &&& forall|k: int| 0 <= k < v.1.len() ==> 0 <= #[trigger] v.1[k] <= u64::MAX
    &&& 0 <= v.2 <= u64::MAX
    &&& prefix_sum(v.0, v.0.len()) == v.2
    &&& prefix_sum(v.1, v.1.len()) == v.2
}

/// Contents of a fresh accumulator: every bin empty, no samples.
pub open spec fn empty_counts() -> (Seq<int>, Seq<int>, int) {
    (Seq::new(FINE_BINS as nat, |k: int| 0int), Seq::new(COARSE_BINS as nat, |k: int| 0int), 0)
}

/// Contents after recording one sample in fine bin `fine_idx` and coarse bin
/// `coarse_idx` (out-of-range indices land in the last bin).
pub open spec fn recorded(v: (Seq<int>, Seq<int>, int), fine_idx: int, coarse_idx: int) -> (Seq<int>, Seq<int>, int) {
    let f = bin_of(fine_idx, v.0.len() as int);
    let c = bin_of(coarse_idx, v.1.len() as int);
    (v.0.update(f, v.0[f] + 1), v.1.update(c, v.1[c] + 1), v.2 + 1)
}

/// Contents after merging two accumulators: bin-wise sums and the summed count.
pub open spec fn merged(a: (Seq<int>, Seq<int>, int), b: (Seq<int>, Seq<int>, int)) -> (Seq<int>, Seq<int>, int) {
    (Seq::new(a.0.len(), |k: int| a.0[k] + b.0[k]), Seq::new(a.1.len(), |k: int| a.1[k] + b.1[k]), a.2 + b.2)
}

/// Recording a sample raises exactly one bin of each histogram by one: the bin
/// its index names when the index is inside the histogram, the last bin
/// otherwise; the count grows by one.
pub proof fn lemma_record_raises_named_bin(v: (Seq<int>, Seq<int>, int), fine_idx: int, coarse_idx: int)
    requires
        counts_consistent(v),
        fine_idx >= 0,
        coarse_idx >= 0,
    ensures
        ({
            let w = recorded(v, fine_idx, coarse_idx);
            &&& fine_idx < FINE_BINS ==> w.0 == v.0.update(fine_idx, v.0[fine_idx] + 1)
            &&& fine_idx >= FINE_BINS ==> w.0 == v.0.update(FINE_BINS - 1, v.0[FINE_BINS - 1] + 1)
            &&& coarse_idx < COARSE_BINS ==> w.1 == v.1.update(coarse_idx, v.1[coarse_idx] + 1)
            &&& coarse_idx >= COARSE_BINS ==> w.1 == v.1.update(COARSE_BINS - 1, v.1[COARSE_BINS - 1] + 1)
            &&& w.2 == v.2 + 1
        }),
{
}

impl View for HistogramAccum {
    type V = (Seq<int>, Seq<int>, int);

    closed spec fn view(&self) -> (Seq<int>, Seq<int>, int) {
        (as_ints(self.fine@), as_ints(self.coarse@), self.count as int)
    }
}

impl HistogramAccum {
    /// The accumulator's contents are consistent.
    pub open spec fn wf(&self) -> bool {
        counts_consistent(self@)
    }

    /// An empty accumulator.
    pub fn new() -> (a: HistogramAccum)
        ensures
            a.wf(),
            a@ == empty_counts(),
    {
        let mut fine: Vec<u64> = Vec::new();
        let mut i: usize = 0;
        while i < FINE_BINS
            invariant
                i <= FINE_BINS,
                fine.len() == i,
                forall|k: int| 0 <= k < i ==> fine@[k] == 0,
            decreases FINE_BINS - i,
        {
            fine.push(0);
            i = i + 1;
        }
        let mut coarse: Vec<u64> = Vec::new();
        let mut j: usize = 0;
        while j < COARSE_BINS
            invariant
                j <= COARSE_BINS,
                coarse.len() == j,
                forall|k: int| 0 <= k < j ==> coarse@[k] == 0,
            decreases COARSE_BINS - j,
        {
            coarse.push(0);
            j = j + 1;
        }
        let a = HistogramAccum { fine, coarse, count: 0 };
        proof {
            assert(a@.0 =~= empty_counts().0);
            assert(a@.1 =~= empty_counts().1);
            lemma_prefix_sum_zero(a@.0, a@.0.len());
            lemma_prefix_sum_zero(a@.1, a@.1.len());
        }
        a
    }

    /// Number of samples recorded.
    pub fn count(&self) -> (r: u64)
        ensures
            r == self@.2,
    {
        self.count
    }

    /// The coarse histogram's bin counts.
    pub fn coarse(&self) -> (r: &Vec<u64>)
        ensures
            as_ints(r@) == self@.1,
    {
        &self.coarse
    }

    /// Record one sample in fine bin `fine_idx` and coarse bin `coarse_idx`;
    /// indices past the last bin land in the last bin.
    pub fn record(&mut self, fine_idx: usize, coarse_idx: usize)
        requires
            old(self).wf(),
            old(self)@.2 < u64::MAX,
        ensures
            final(self).wf(),
            final(self)@ == recorded(old(self)@, fine_idx as int, coarse_idx as int),
            fine_idx < FINE_BINS ==> final(self)@.0 == old(self)@.0.update(fine_idx as int, old(self)@.0[fine_idx as int] + 1),
            fine_idx >= FINE_BINS ==> final(self)@.0 == old(self)@.0.update(
                FINE_BINS - 1,
                old(self)@.0[FINE_BINS - 1] + 1,
            ),
            coarse_idx < COARSE_BINS ==> final(self)@.1 == old(self)@.1.update(
                coarse_idx as int,
                old(self)@.1[coarse_idx as int] + 1,
            ),
            coarse_idx >= COARSE_BINS ==> final(self)@.1 == old(self)@.1.update(
                COARSE_BINS - 1,
                old(self)@.1[COARSE_BINS - 1] + 1,
            ),
            final(self)@.2 == old(self)@.2 + 1,
    {
        proof {
            lemma_record_raises_named_bin(self@, fine_idx as int, coarse_idx as int);
        }
        let ghost v = self@;
        let f = if fine_idx < FINE_BINS - 1 { fine_idx } else { FINE_BINS - 1 };
        let c = if coarse_idx < COARSE_BINS - 1 { coarse_idx } else { COARSE_BINS - 1 };
        proof {
            lemma_entry_le_total(v.0, f as int);
            lemma_entry_le_total(v.1, c as int);
        }
        assert(self.fine@[f as int] == v.0[f as int]);
        assert(self.coarse@[c as int] == v.1[c as int]);
        let nf = self.fine[f] + 1;
        self.fine.set(f, nf);
        let nc = self.coarse[c] + 1;
        self.coarse.set(c, nc);
        self.count = self.count + 1;
        proof {
            let r = recorded(v, fine_idx as int, coarse_idx as int);
            assert(self@.0 =~= r.0);
            assert(self@.1 =~= r.1);
            lemma_prefix_sum_update(v.0, f as int, v.0[f as int] + 1, v.0.len());
            lemma_prefix_sum_update(v.1, c as int, v.1[c as int] + 1, v.1.len());
        }
    }

    /// Merge two partial accumulators: bin-wise sums of both histograms and
    /// the summed sample count.
    pub fn merge(self, other: HistogramAccum) -> (r: HistogramAccum)
        requires
            self.wf(),
            other.wf(),
            self@.2 + other@.2 <= u64::MAX,
        ensures
            r.wf(),
            r@ == merged(self@, other@),
    {
        let ghost a = self@;
        let ghost b = other@;
        let mut this = self;
        let mut i: usize = 0;
        while i < FINE_BINS
            invariant
                i <= FINE_BINS,
                counts_consistent(a),
                counts_consistent(b),
                a.2 + b.2 <= u64::MAX,
                this.fine.len() == FINE_BINS,
                as_ints(other.fine@) == b.0,
                as_ints(this.coarse@) == a.1,
                as_ints(other.coarse@) == b.1,
                this.count == a.2,
                other.count == b.2,
                forall|k: int| 0 <= k < i ==> this.fine@[k] == a.0[k] + b.0[k],
                forall|k: int| i <= k < FINE_BINS ==> this.fine@[k] == a.0[k],
            decreases FINE_BINS - i,
        {
            proof {
                lemma_entry_le_total(a.0, i as int);
                lemma_entry_le_total(b.0, i as int);
            }
            assert(other.fine@[i as int] == b.0[i as int]);
            let sum = this.fine[i] + other.fine[i];
            this.fine.set(i, sum);
            i = i + 1;
        }
        let mut j: usize = 0;
        while j < COARSE_BINS
            invariant
                j <= COARSE_BINS,
                counts_consistent(a),
                counts_consistent(b),
                a.2 + b.2 <= u64::MAX,
                this.coarse.len() == COARSE_BINS,
                as_ints(other.coarse@) == b.1,
                this.count == a.2,
                other.count == b.2,
                this.fine.len() == FINE_BINS,
                forall|k: int| 0 <= k < FINE_BINS ==> this.fine@[k] == a.0[k] + b.0[k],
                forall|k: int| 0 <= k < j ==> this.coarse@[k] == a.1[k] + b.1[k],
                forall|k: int| j <= k < COARSE_BINS ==> this.coarse@[k] == a.1[k],
            decreases COARSE_BINS - j,
        {
            proof {
                lemma_entry_le_total(a.1, j as int);
                lemma_entry_le_total(b.1, j as int);
            }
            assert(other.coarse@[j as int] == b.1[j as int]);
            let sum = this.coarse[j] + other.coarse[j];
            this.coarse.set(j, sum);
            j = j + 1;
        }
        this.count = this.count + other.count;
        proof {
            let m = merged(a, b);
            assert(this@.0 =~= m.0);
            assert(this@.1 =~= m.1);
            lemma_prefix_sum_add(a.0, b.0, m.0, FINE_BINS as nat);
            lemma_prefix_sum_add(a.1, b.1, m.1, COARSE_BINS as nat);
            assert forall|k: int| 0 <= k < m.0.len() implies 0 <= #[trigger] m.0[k] <= u64::MAX by {
                lemma_entry_le_total(a.0, k);
                lemma_entry_le_total(b.0, k);
            }
            assert forall|k: int| 0 <= k < m.1.len() implies 0 <= #[trigger] m.1[k] <= u64::MAX by {
                lemma_entry_le_total(a.1, k);
                lemma_entry_le_total(b.1, k);
            }
        }
        this
    }

    /// The nine distribution values of the recorded `maxRGB` samples: slot `k`
    /// holds the nearest-rank percentile `slot_percentile(k)` of the fine
    /// histogram, clamped to `MAX_VALUE`.
    pub fn distribution(&self) -> (r: [u32; 9])
        requires
            self.wf(),
        ensures
            forall|k: int| 0 <= k < 9 ==> #[trigger] r@[k] == ({
                let p = nearest_rank(self@.0, self@.2, slot_percentile(k));
                if p <= MAX_VALUE { p } else { MAX_VALUE as int }
            }),
            forall|k: int| 0 <= k < 9 && k != 1 ==> #[trigger] r@[k] == ({
                let p = nearest_rank(self@.0, self@.2, 100 * DISTRIBUTION_INDEX@[k]);
                if p <= MAX_VALUE { p } else { MAX_VALUE as int }
            }),
            r@[1] == ({
                let p = nearest_rank(self@.0, self@.2, 9998);
                if p <= MAX_VALUE { p } else { MAX_VALUE as int }
            }),
    {
        proof {
            lemma_slot_percentiles_follow_distribution_index();
        }
        let hist = self.fine.as_slice();
        let total = self.count;
        assert(as_ints(hist@) == self@.0);
        let d0 = clamp_to_max(percentile_from_hist(hist, total, 100));
        let d1 = clamp_to_max(percentile_from_hist(hist, total, 9998));
        let d2 = clamp_to_max(percentile_from_hist(hist, total, 1000));
        let d3 = clamp_to_max(percentile_from_hist(hist, total, 2500));
        let d4 = clamp_to_max(percentile_from_hist(hist, total, 5000));
        let d5 = clamp_to_max(percentile_from_hist(hist, total, 7500));
        let d6 = clamp_to_max(percentile_from_hist(hist, total, 9000));
        let d7 = clamp_to_max(percentile_from_hist(hist, total, 9500));
        let d8 = clamp_to_max(percentile_from_hist(hist, total, 9900));
        let r = [d0, d1, d2, d3, d4, d5, d6, d7, d8];
        assert(r@[0] == d0 && r@[1] == d1 && r@[2] == d2 && r@[3] == d3 && r@[4] == d4);
        assert(r@[5] == d5 && r@[6] == d6 && r@[7] == d7 && r@[8] == d8);
        r
    }
}

/// `v`, or `MAX_VALUE` when `v` is larger.
fn clamp_to_max(v: u32) -> (r: u32)
    ensures
        r == if v <= MAX_VALUE { v } else { MAX_VALUE },
{
    if v <= MAX_VALUE { v } else { MAX_VALUE }
}

/// Merging accumulators is commutative: the order in which partial
/// accumulators are combined does not change the result.
pub proof fn lemma_merge_commutative(a: (Seq<int>, Seq<int>, int), b: (Seq<int>, Seq<int>, int))
    requires
        counts_consistent(a),
        counts_consistent(b),
    ensures
        merged(a, b) == merged(b, a),
{
    assert(merged(a, b).0 =~= merged(b, a).0);
    assert(merged(a, b).1 =~= merged(b, a).1);
}

/// Merging accumulators is associative: how partial accumulators are grouped
/// does not change the result.
pub proof fn lemma_merge_associative(
    a: (Seq<int>, Seq<int>, int),
    b: (Seq<int>, Seq<int>, int),
    c: (Seq<int>, Seq<int>, int),
)
    requires
        counts_consistent(a),
        counts_consistent(b),
        counts_consistent(c),
    ensures
        merged(merged(a, b), c) == merged(a, merged(b, c)),
{
    assert(merged(merged(a, b), c).0 =~= merged(a, merged(b, c)).0);
    assert(merged(merged(a, b), c).1 =~= merged(a, merged(b, c)).1);
}

/// A fresh accumulator is the identity of merging.
pub proof fn lemma_merge_identity(a: (Seq<int>, Seq<int>, int))
    requires
        counts_consistent(a),
    ensures
        merged(empty_counts(), a) == a,
        merged(a, empty_counts()) == a,
{
    assert(merged(empty_counts(), a).0 =~= a.0);
    assert(merged(empty_counts(), a).1 =~= a.1);
    assert(merged(a, empty_counts()).0 =~= a.0);
    assert(merged(a, empty_counts()).1 =~= a.1);
}

} // verus!
