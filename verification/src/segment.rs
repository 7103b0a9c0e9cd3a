//! Finding the touches in a heatmap, as the AVX-512 engine does it: the
//! pixels below the touch threshold are labelled, labels spread to their
//! neighbours for eleven rounds, each settled blob is a touch, and each touch
//! gets its weight and its weighted column and row sums. Pixel `p` is at row
//! `p / 64` and column `p % 64`.
use vstd::prelude::*;

verus! {

/// The number of pixels of a heatmap.
pub const PIXELS: usize = 2816;

/// How far a pixel is below the touch threshold (0 when it is not below).
pub open spec fn inverted(v: u8) -> int {
    if v < 0xB0 {
        0xB0 - v
    } else {
        0
    }
}

/// The weight the engine gives a pixel: its depth below the threshold, read
/// as a signed byte.
pub open spec fn weight(v: u8) -> int {
    if inverted(v) >= 128 {
        inverted(v) - 256
    } else {
        inverted(v)
    }
}

/// Every pixel below the threshold starts with its own label, its number
/// plus one; the other pixels have none (0).
pub open spec fn initial_labels(h: Seq<u8>) -> Seq<u16> {
    Seq::new(PIXELS as nat, |p: int| if h[p] < 0xB0 { (p + 1) as u16 } else { 0u16 })
}

/// The larger of two labels.
pub open spec fn mx(a: u16, b: u16) -> u16 {
    if a < b {
        b
    } else {
        a
    }
}

/// The label at row `r`, column `c`.
pub open spec fn lab(l: Seq<u16>, r: int, c: int) -> u16 {
    l[64 * r + c]
}

/// The largest label of a pixel and its left and right neighbours in its row.
pub open spec fn row_max(l: Seq<u16>, r: int, c: int) -> u16 {
    mx(
        mx(lab(l, r, c), lab(l, r, if c > 0 { c - 1 } else { c })),
        lab(l, r, if c < 63 { c + 1 } else { c }),
    )
}

/// The largest label of the pixels of row `r` next to column `c` of the row
/// above or below, as the engine reads them: in the left half the left of
/// column 0 is column 63, and the right of column 31 is column 31.
pub open spec fn side_max(l: Seq<u16>, r: int, c: int) -> u16 {
    mx(
        mx(lab(l, r, c), lab(l, r, if c == 0 { 63 } else { c - 1 })),
        lab(l, r, if c == 31 || c == 63 { c } else { c + 1 }),
    )
}

/// A pixel's label after one round of spreading.
pub open spec fn spread_at(l: Seq<u16>, p: int) -> u16 {
    let r = p / 64;
    let c = p % 64;
    if l[p] == 0 {
        0
    } else {
        let m = row_max(l, r, c);
        let m = if r < 43 { mx(m, side_max(l, r + 1, c)) } else { m };
        if r > 0 { mx(m, side_max(l, r - 1, c)) } else { m }
    }
}

/// The labels after `n` rounds of spreading.
pub open spec fn labels(h: Seq<u8>, n: nat) -> Seq<u16>
    decreases n,
{
    if n == 0 {
        initial_labels(h)
    } else {
        Seq::new(PIXELS as nat, |p: int| spread_at(labels(h, (n - 1) as nat), p))
    }
}

/// The labels the engine settles on: after eleven rounds.
pub open spec fn final_labels(h: Seq<u8>) -> Seq<u16> {
    labels(h, 11)
}

/// The pixel at row `r2`, column `c2` is labelled, and differently from pixel `p`.
pub open spec fn differs(l: Seq<u16>, p: int, r2: int, c2: int) -> bool {
    &&& 0 <= r2 < 44
    &&& 0 <= c2 < 64
    &&& lab(l, r2, c2) != 0
    &&& lab(l, r2, c2) != l[p]
}

/// A labelled pixel whose label is not yet that of all its labelled neighbours.
pub open spec fn unsettled(l: Seq<u16>, p: int) -> bool {
    let r = p / 64;
    let c = p % 64;
    &&& l[p] != 0
    &&& {
        ||| differs(l, p, r - 1, c - 1)
        ||| differs(l, p, r - 1, c)
        ||| differs(l, p, r - 1, c + 1)
        ||| differs(l, p, r, c - 1)
        ||| differs(l, p, r, c + 1)
        ||| differs(l, p, r + 1, c - 1)
        ||| differs(l, p, r + 1, c)
        ||| differs(l, p, r + 1, c + 1)
    }
}

/// A pixel is a touch's root when its own label won its blob and no pixel of
/// the blob is unsettled.
pub open spec fn is_root(l: Seq<u16>, p: int) -> bool {
    &&& l[p] == p + 1
    &&& !exists|q: int| 0 <= q < PIXELS && #[trigger] unsettled(l, q) && l[q] == p + 1
}

/// The pixel that comes `k`-th in the engine's order: groups of sixteen
/// pixels from the last group to the first, each group in ascending order.
pub open spec fn engine_pixel(k: int) -> int {
    16 * (175 - k / 16) + k % 16
}

/// The roots among the first `k` pixels in the engine's order.
pub open spec fn roots_upto(l: Seq<u16>, k: int) -> Seq<int>
    decreases k,
{
    if k <= 0 {
        seq![]
    } else if is_root(l, engine_pixel(k - 1)) {
        roots_upto(l, k - 1).push(engine_pixel(k - 1))
    } else {
        roots_upto(l, k - 1)
    }
}

/// The touches' roots, in the engine's order.
pub open spec fn touch_roots(h: Seq<u8>) -> Seq<int> {
    roots_upto(final_labels(h), PIXELS as int)
}

/// The number of touches in a heatmap.
pub open spec fn touch_count(h: Seq<u8>) -> nat {
    touch_roots(h).len()
}

/// The weight, weighted column sum and weighted row sum of the pixels below
/// `n` whose label is `label`.
pub open spec fn sums_upto(h: Seq<u8>, l: Seq<u16>, label: int, n: int) -> (int, int, int)
    decreases n,
{
    if n <= 0 {
        (0, 0, 0)
    } else {
        let s = sums_upto(h, l, label, n - 1);
        let p = n - 1;
        if l[p] == label {
            (
                s.0 + weight(h[p]),
                s.1 + weight(h[p]) * (p % 64),
                s.2 + weight(h[p]) * (p / 64),
            )
        } else {
            s
        }
    }
}

/// The weight, weighted column sum and weighted row sum of touch `j`.
pub open spec fn touch_sums(h: Seq<u8>, j: int) -> (int, int, int) {
    sums_upto(h, final_labels(h), touch_roots(h)[j] + 1, PIXELS as int)
}

/// The larger of two labels.
fn mx_exec(a: u16, b: u16) -> (r: u16)
    ensures
        r == mx(a, b),
{
    if a < b {
        b
    } else {
        a
    }
}

fn initial_labels_exec(h: &[u8; 2816]) -> (r: Vec<u16>)
    ensures
        r@ == initial_labels(h@),
{
    let mut r: Vec<u16> = Vec::new();
    let mut p: usize = 0;
    while p < PIXELS
        invariant
            0 <= p <= PIXELS,
            r@.len() == p,
            forall|q: int| 0 <= q < p ==> #[trigger] r@[q] == initial_labels(h@)[q],
        decreases PIXELS - p,
    {
        let v: u16 = if h[p] < 0xB0 {
            (p + 1) as u16
        } else {
            0
        };
        r.push(v);
        p += 1;
    }
    assert(r@ =~= initial_labels(h@));
    r
}

fn lab_exec(l: &Vec<u16>, r: usize, c: usize) -> (v: u16)
    requires
        l@.len() == PIXELS,
        r < 44,
        c < 64,
    ensures
        v == lab(l@, r as int, c as int),
{
    l[64 * r + c]
}

fn side_max_exec(l: &Vec<u16>, r: usize, c: usize) -> (v: u16)
    requires
        l@.len() == PIXELS,
        r < 44,
        c < 64,
    ensures
        v == side_max(l@, r as int, c as int),
{
    let left = if c == 0 {
        63
    } else {
        c - 1
    };
    let right = if c == 31 || c == 63 {
        c
    } else {
        c + 1
    };
    mx_exec(mx_exec(lab_exec(l, r, c), lab_exec(l, r, left)), lab_exec(l, r, right))
}

fn spread_at_exec(l: &Vec<u16>, p: usize) -> (v: u16)
    requires
        l@.len() == PIXELS,
        p < PIXELS,
    ensures
        v == spread_at(l@, p as int),
{
    if l[p] == 0 {
        return 0;
    }
    let r = p / 64;
    let c = p % 64;
    let left = if c > 0 {
        c - 1
    } else {
        c
    };
    let right = if c < 63 {
        c + 1
    } else {
        c
    };
    let mut m = mx_exec(mx_exec(lab_exec(l, r, c), lab_exec(l, r, left)), lab_exec(l, r, right));
    if r < 43 {
        m = mx_exec(m, side_max_exec(l, r + 1, c));
    }
    if r > 0 {
        m = mx_exec(m, side_max_exec(l, r - 1, c));
    }
    m
}

/// One round of spreading.
fn spread(l: &Vec<u16>) -> (r: Vec<u16>)
    requires
        l@.len() == PIXELS,
    ensures
        r@ == Seq::new(PIXELS as nat, |p: int| spread_at(l@, p)),
{
    let mut r: Vec<u16> = Vec::new();
    let mut p: usize = 0;
    while p < PIXELS
        invariant
            0 <= p <= PIXELS,
            l@.len() == PIXELS,
            r@.len() == p,
            forall|q: int| 0 <= q < p ==> #[trigger] r@[q] == spread_at(l@, q),
        decreases PIXELS - p,
    {
        let v = spread_at_exec(l, p);
        r.push(v);
        p += 1;
    }
    assert(r@ =~= Seq::new(PIXELS as nat, |p: int| spread_at(l@, p)));
    r
}

fn differs_exec(l: &Vec<u16>, p: usize, r2: i32, c2: i32) -> (b: bool)
    requires
        l@.len() == PIXELS,
        p < PIXELS,
    ensures
        b == differs(l@, p as int, r2 as int, c2 as int),
{
    if r2 < 0 || r2 >= 44 || c2 < 0 || c2 >= 64 {
        return false;
    }
    let v = lab_exec(l, r2 as usize, c2 as usize);
    v != 0 && v != l[p]
}

fn unsettled_exec(l: &Vec<u16>, p: usize) -> (b: bool)
    requires
        l@.len() == PIXELS,
        p < PIXELS,
    ensures
        b == unsettled(l@, p as int),
{
    if l[p] == 0 {
        return false;
    }
    let r = (p / 64) as i32;
    let c = (p % 64) as i32;
    differs_exec(l, p, r - 1, c - 1) || differs_exec(l, p, r - 1, c) || differs_exec(
        l,
        p,
        r - 1,
        c + 1,
    ) || differs_exec(l, p, r, c - 1) || differs_exec(l, p, r, c + 1) || differs_exec(
        l,
        p,
        r + 1,
        c - 1,
    ) || differs_exec(l, p, r + 1, c) || differs_exec(l, p, r + 1, c + 1)
}

/// For each label value, whether some pixel with that label is unsettled.
fn unsettled_labels(l: &Vec<u16>) -> (r: Vec<bool>)
    requires
        l@.len() == PIXELS,
    ensures
        r@.len() == 65536,
        forall|v: int|
            0 <= v < 65536 ==> #[trigger] r@[v] == exists|q: int|
                0 <= q < PIXELS && #[trigger] unsettled(l@, q) && l@[q] == v,
{
    let mut r: Vec<bool> = Vec::new();
    let mut i: usize = 0;
    while i < 65536
        invariant
            0 <= i <= 65536,
            r@.len() == i,
            forall|v: int| 0 <= v < i ==> !#[trigger] r@[v],
        decreases 65536 - i,
    {
        r.push(false);
        i += 1;
    }
    let mut p: usize = 0;
    while p < PIXELS
        invariant
            0 <= p <= PIXELS,
            l@.len() == PIXELS,
            r@.len() == 65536,
            forall|v: int|
                0 <= v < 65536 ==> #[trigger] r@[v] == exists|q: int|
                    0 <= q < p && #[trigger] unsettled(l@, q) && l@[q] == v,
        decreases PIXELS - p,
    {
        let ghost before = r@;
        if unsettled_exec(l, p) {
            let v = l[p] as usize;
            r.set(v, true);
        }
        assert forall|v: int| 0 <= v < 65536 implies #[trigger] r@[v] == exists|q: int|
            0 <= q < p + 1 && #[trigger] unsettled(l@, q) && l@[q] == v by {
            if unsettled(l@, p as int) && l@[p as int] == v {
                assert(0 <= p < p + 1 && unsettled(l@, p as int) && l@[p as int] == v);
            } else {
                assert(r@[v] == before[v]);
                if exists|q: int| 0 <= q < p + 1 && #[trigger] unsettled(l@, q) && l@[q] == v {
                    let q = choose|q: int| 0 <= q < p + 1 && #[trigger] unsettled(l@, q) && l@[q] == v;
                    assert(q != p);
                }
            }
        }
        p += 1;
    }
    r
}

/// The weight of a pixel.
fn weight_exec(v: u8) -> (w: i32)
    ensures
        w == weight(v),
        -128 <= w <= 127,
{
    let inv: i32 = if v < 0xB0 {
        (0xB0 - v) as i32
    } else {
        0
    };
    if inv >= 128 {
        inv - 256
    } else {
        inv
    }
}

/// The sums of the pixels labelled `label`.
fn label_sums(h: &[u8; 2816], l: &Vec<u16>, label: u16) -> (r: (i32, i32, i32))
    requires
        l@.len() == PIXELS,
    ensures
        r.0 == sums_upto(h@, l@, label as int, PIXELS as int).0,
        r.1 == sums_upto(h@, l@, label as int, PIXELS as int).1,
        r.2 == sums_upto(h@, l@, label as int, PIXELS as int).2,
{
    let mut w: i32 = 0;
    let mut x: i32 = 0;
    let mut y: i32 = 0;
    let mut p: usize = 0;
    while p < PIXELS
        invariant
            0 <= p <= PIXELS,
            l@.len() == PIXELS,
            (w as int, x as int, y as int) == sums_upto(h@, l@, label as int, p as int),
            -128 * p <= w <= 128 * p,
            -8192 * p <= x <= 8192 * p,
            -8192 * p <= y <= 8192 * p,
        decreases PIXELS - p,
    {
        if l[p] == label {
            let wp = weight_exec(h[p]);
            let c = (p % 64) as i32;
            let r = (p / 64) as i32;
            assert(-8192 <= wp * c <= 8192) by (nonlinear_arith)
                requires
                    -128 <= wp <= 127,
                    0 <= c < 64,
            ;
            assert(-8192 <= wp * r <= 8192) by (nonlinear_arith)
                requires
                    -128 <= wp <= 127,
                    0 <= r < 44,
            ;
            let dx = wp * c;
            let dy = wp * r;
            assert(p < 2816);
            assert(8192 * p + 8192 <= 0x7fff_ffff);
            w = w + wp;
            x = x + dx;
            y = y + dy;
        }
        p += 1;
    }
    (w, x, y)
}

/// The touches of a heatmap: for each, in the engine's order, its weight and
/// its weighted column and row sums; `None` when there are more than ten
/// ("too many fingers").
pub fn heatmap_touch_sums(heatmap: &[u8; 2816]) -> (r: Option<Vec<(i32, i32, i32)>>)
    ensures
        r is None <==> touch_count(heatmap@) > 10,
        r matches Some(v) ==> {
            &&& v@.len() == touch_count(heatmap@)
            &&& forall|j: int|
                0 <= j < v@.len() ==> (#[trigger] v@[j]).0 == touch_sums(heatmap@, j).0
                    && v@[j].1 == touch_sums(heatmap@, j).1 && v@[j].2 == touch_sums(
                    heatmap@,
                    j,
                ).2
        },
{
    let mut l = initial_labels_exec(heatmap);
    let mut n: usize = 0;
    while n < 11
        invariant
            0 <= n <= 11,
            l@ == labels(heatmap@, n as nat),
        decreases 11 - n,
    {
        l = spread(&l);
        n += 1;
    }
    let ghost fl = l@;
    assert(fl == final_labels(heatmap@));
    let cleared = unsettled_labels(&l);
    let mut roots: Vec<usize> = Vec::new();
    let mut k: usize = 0;
    while k < PIXELS
        invariant
            0 <= k <= PIXELS,
            l@ == fl,
            fl.len() == PIXELS,
            cleared@.len() == 65536,
            forall|v: int|
                0 <= v < 65536 ==> #[trigger] cleared@[v] == exists|q: int|
                    0 <= q < PIXELS && #[trigger] unsettled(fl, q) && fl[q] == v,
            roots@.len() == roots_upto(fl, k as int).len(),
            forall|j: int| 0 <= j < roots@.len() ==> #[trigger] roots@[j] == roots_upto(fl, k as int)[j],
            forall|j: int| 0 <= j < roots@.len() ==> #[trigger] roots@[j] < PIXELS,
        decreases PIXELS - k,
    {
        let p = 16 * (175 - k / 16) + k % 16;
        assert(p == engine_pixel(k as int));
        if l[p] as usize == p + 1 && !cleared[p + 1] {
            roots.push(p);
        }
        proof {
            let pi = p as int;
            assert(is_root(fl, pi) == (fl[pi] == pi + 1 && !cleared@[pi + 1]));
        }
        k += 1;
    }
    if roots.len() > 10 {
        return None;
    }
    let mut out: Vec<(i32, i32, i32)> = Vec::new();
    let mut j: usize = 0;
    while j < roots.len()
        invariant
            0 <= j <= roots@.len() <= 10,
            l@ == fl,
            fl == final_labels(heatmap@),
            fl.len() == PIXELS,
            roots@.len() == touch_roots(heatmap@).len(),
            forall|i: int| 0 <= i < roots@.len() ==> #[trigger] roots@[i] == touch_roots(heatmap@)[i],
            forall|i: int| 0 <= i < roots@.len() ==> #[trigger] roots@[i] < PIXELS,
            out@.len() == j,
            forall|i: int|
                0 <= i < j ==> (#[trigger] out@[i]).0 == touch_sums(heatmap@, i).0 && out@[i].1
                    == touch_sums(heatmap@, i).1 && out@[i].2 == touch_sums(heatmap@, i).2,
        decreases roots@.len() - j,
    {
        let label = (roots[j] + 1) as u16;
        let s = label_sums(heatmap, &l, label);
        out.push(s);
        j += 1;
    }
    Some(out)
}

proof fn lemma_labels_active(h: Seq<u8>, n: nat)
    requires
        h.len() == PIXELS,
    ensures
        labels(h, n).len() == PIXELS,
        forall|p: int| 0 <= p < PIXELS ==> (#[trigger] labels(h, n)[p] != 0) == (h[p] < 0xB0),
    decreases n,
{
    if n > 0 {
        lemma_labels_active(h, (n - 1) as nat);
        let prev = labels(h, (n - 1) as nat);
        assert forall|p: int| 0 <= p < PIXELS implies (#[trigger] labels(h, n)[p] != 0) == (h[p]
            < 0xB0) by {
            assert(64 * (p / 64) + p % 64 == p);
            assert(lab(prev, p / 64, p % 64) == prev[p]);
        }
    }
}

proof fn lemma_roots_are_roots(l: Seq<u16>, k: int)
    requires
        0 <= k <= PIXELS,
    ensures
        forall|j: int|
            0 <= j < roots_upto(l, k).len() ==> 0 <= #[trigger] roots_upto(l, k)[j] < PIXELS
                && is_root(l, roots_upto(l, k)[j]),
    decreases k,
{
    if k > 0 {
        lemma_roots_are_roots(l, k - 1);
        let q = k - 1;
        assert(0 <= q / 16 <= 175 && 0 <= q % 16 < 16);
        assert(0 <= engine_pixel(q) < PIXELS);
        let prev = roots_upto(l, q);
        let cur = roots_upto(l, k);
        assert forall|j: int| 0 <= j < cur.len() implies 0 <= #[trigger] cur[j] < PIXELS && is_root(
            l,
            cur[j],
        ) by {
            if j < prev.len() {
                assert(cur[j] == prev[j]);
            }
        }
    }
}

/// Every touch is rooted at a pixel below the touch threshold, and that
/// pixel carries the touch's own label.
pub proof fn lemma_touch_roots_below_threshold(h: Seq<u8>)
    requires
        h.len() == PIXELS,
    ensures
        forall|j: int|
            0 <= j < touch_count(h) ==> h[#[trigger] touch_roots(h)[j]] < 0xB0 && final_labels(
                h,
            )[touch_roots(h)[j]] == touch_roots(h)[j] + 1,
{
    lemma_labels_active(h, 11);
    lemma_roots_are_roots(final_labels(h), PIXELS as int);
}

/// One round of spreading keeps a labelled pixel's label or raises it, and
/// raises it to at least the label of each pixel beside it (left, right,
/// above, below), for every pixel of the heatmap, its edges included.
pub proof fn lemma_spread_reaches_neighbours(l: Seq<u16>, r: int, c: int)
    requires
        l.len() == PIXELS,
        0 <= r < 44,
        0 <= c < 64,
        l[64 * r + c] != 0,
    ensures
        spread_at(l, 64 * r + c) >= l[64 * r + c],
        c < 63 ==> spread_at(l, 64 * r + c) >= l[64 * r + c + 1],
        c > 0 ==> spread_at(l, 64 * r + c) >= l[64 * r + c - 1],
        r < 43 ==> spread_at(l, 64 * r + c) >= l[64 * (r + 1) + c],
        r > 0 ==> spread_at(l, 64 * r + c) >= l[64 * (r - 1) + c],
{
    let p = 64 * r + c;
    assert(p / 64 == r && p % 64 == c);
}

/// A pixel without a label never gets one.
pub proof fn lemma_spread_keeps_unlabelled(l: Seq<u16>, p: int)
    requires
        l.len() == PIXELS,
        0 <= p < PIXELS,
        l[p] == 0,
    ensures
        spread_at(l, p) == 0,
{
}

} // verus!
