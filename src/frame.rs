//! Layout of a rendered frame.
//!
//! A frame of `width` by `rows` pixels is stored as RGBA bytes in raster
//! order, pixel `(x, y)` at byte `4 * (x + y * width)`. Rendering splits the
//! rows into contiguous bands, one per worker; each band is traced in raster
//! order in batches of `LANES` pixels. The frame is the encoding of the
//! pixel colors alone: how the rows were split makes no difference to it.
use crate::march::LANES;
use vstd::arithmetic::div_mod::{
    lemma_div_is_ordered, lemma_div_multiples_vanish, lemma_fundamental_div_mod,
};
use vstd::arithmetic::mul::lemma_mul_inequality;
use vstd::prelude::*;

verus! {

/// A pixel color, one byte per channel: red, green, blue.
pub type Rgb = (u8, u8, u8);

/// Byte `k` of the RGBA encoding of one pixel; alpha is opaque.
pub open spec fn channel(c: Rgb, k: int) -> u8 {
    if k == 0 {
        c.0
    } else if k == 1 {
        c.1
    } else if k == 2 {
        c.2
    } else {
        255u8
    }
}

/// The RGBA encoding of pixels in order, four bytes each.
pub open spec fn rgba(colors: Seq<Rgb>) -> Seq<u8> {
    Seq::new(4 * colors.len(), |j: int| channel(colors[j / 4], j % 4))
}

/// The parts laid end to end.
pub open spec fn joined(parts: Seq<Seq<Rgb>>) -> Seq<Rgb>
    decreases parts.len(),
{
    if parts.len() == 0 {
        seq![]
    } else {
        joined(parts.drop_last()) + parts.last()
    }
}

/// The first row of band `n` when `rows` rows are split into `workers`
/// bands; band `n` ends where band `n + 1` starts.
pub open spec fn band_start(rows: nat, workers: nat, n: nat) -> nat {
    (n * rows / workers) as nat
}

/// Whether row `y` lies in band `n`.
pub open spec fn in_band(rows: nat, workers: nat, n: nat, y: nat) -> bool {
    band_start(rows, workers, n) <= y < band_start(rows, workers, n + 1)
}

/// Whether row `y` lies in one of the `workers` bands.
pub open spec fn in_some_band(rows: nat, workers: nat, y: nat) -> bool {
    exists|n: nat| n < workers && #[trigger] in_band(rows, workers, n, y)
}

/// The pixel colors of band `n`, cut from the colors of the whole frame.
pub open spec fn band_colors(colors: Seq<Rgb>, width: nat, rows: nat, workers: nat, n: nat) -> Seq<Rgb> {
    colors.subrange(
        (band_start(rows, workers, n) * width) as int,
        (band_start(rows, workers, n + 1) * width) as int,
    )
}

/// The number of batches of `LANES` that cover `pixels` pixels.
pub open spec fn batches_for(pixels: nat) -> nat {
    ((pixels + LANES - 1) / (LANES as int)) as nat
}

proof fn lemma_band_start_ordered(rows: nat, workers: nat, n: nat, m: nat)
    requires
        0 < workers,
        n <= m,
    ensures
        band_start(rows, workers, n) <= band_start(rows, workers, m),
{
    lemma_mul_inequality(n as int, m as int, rows as int);
    lemma_div_is_ordered((n * rows) as int, (m * rows) as int, workers as int);
}

proof fn lemma_band_start_ends(rows: nat, workers: nat)
    requires
        0 < workers,
    ensures
        band_start(rows, workers, 0) == 0,
        band_start(rows, workers, workers) == rows,
{
    assert(0 * rows == 0) by (nonlinear_arith);
    assert(workers * rows == rows * workers) by (nonlinear_arith);
    lemma_div_multiples_vanish(rows as int, workers as int);
}

/// The bands split the rows: they start at row 0, end at the last row, do
/// not overlap, and each row lies in exactly one of them.
pub proof fn lemma_bands_partition(rows: nat, workers: nat)
    requires
        0 < workers,
    ensures
        band_start(rows, workers, 0) == 0,
        band_start(rows, workers, workers) == rows,
        forall|n: nat, m: nat|
            n <= m ==> #[trigger] band_start(rows, workers, n) <= #[trigger] band_start(rows, workers, m),
        forall|y: nat| y < rows ==> #[trigger] in_some_band(rows, workers, y),
        forall|y: nat, n1: nat, n2: nat|
            n1 < workers && n2 < workers && #[trigger] in_band(rows, workers, n1, y) && #[trigger] in_band(
                rows,
                workers,
                n2,
                y,
            ) ==> n1 == n2,
{
    lemma_band_start_ends(rows, workers);
    assert forall|n: nat, m: nat| n <= m implies #[trigger] band_start(rows, workers, n)
        <= #[trigger] band_start(rows, workers, m) by {
        lemma_band_start_ordered(rows, workers, n, m);
    }
    assert forall|y: nat| y < rows implies #[trigger] in_some_band(rows, workers, y) by {
        lemma_row_in_some_band(rows, workers, workers, y);
    }
    assert forall|y: nat, n1: nat, n2: nat|
        n1 < workers && n2 < workers && #[trigger] in_band(rows, workers, n1, y) && #[trigger] in_band(
            rows,
            workers,
            n2,
            y,
        ) implies n1 == n2 by {
        if n1 < n2 {
            lemma_band_start_ordered(rows, workers, n1 + 1, n2);
        } else if n2 < n1 {
            lemma_band_start_ordered(rows, workers, n2 + 1, n1);
        }
    }
}

proof fn lemma_row_in_some_band(rows: nat, workers: nat, k: nat, y: nat)
    requires
        0 < workers,
        y < band_start(rows, workers, k),
    ensures
        exists|n: nat| n < k && #[trigger] in_band(rows, workers, n, y),
    decreases k,
{
    lemma_band_start_ends(rows, workers);
    if k > 0 {
        if band_start(rows, workers, (k - 1) as nat) <= y {
            assert(in_band(rows, workers, (k - 1) as nat, y));
        } else {
            lemma_row_in_some_band(rows, workers, (k - 1) as nat, y);
        }
    }
}

/// The RGBA encoding of two runs of pixels is the encoding of the first
/// followed by that of the second.
pub proof fn lemma_rgba_append(a: Seq<Rgb>, b: Seq<Rgb>)
    ensures
        rgba(a + b) == rgba(a) + rgba(b),
{
    let l = rgba(a + b);
    let r = rgba(a) + rgba(b);
    assert forall|j: int| 0 <= j < l.len() implies l[j] == r[j] by {
        if j >= 4 * a.len() {
            let i = j - 4 * a.len();
            assert((4 * a.len() + i) / 4 == a.len() + i / 4 && (4 * a.len() + i) % 4 == i % 4)
                by (nonlinear_arith)
                requires
                    i >= 0,
            ;
        } else {
            assert(j / 4 < a.len()) by (nonlinear_arith)
                requires
                    0 <= j < 4 * a.len(),
            ;
        }
    }
    assert(l =~= r);
}

/// Cutting the frame's colors into bands and laying the bands end to end
/// gives the colors back, so the frame does not depend on the number of
/// workers.
pub proof fn lemma_banding_keeps_frame(colors: Seq<Rgb>, width: nat, rows: nat, workers: nat)
    requires
        0 < workers,
        colors.len() == width * rows,
    ensures
        joined(
            Seq::new(workers, |n: int| band_colors(colors, width, rows, workers, n as nat)),
        ) == colors,
        rgba(
            joined(Seq::new(workers, |n: int| band_colors(colors, width, rows, workers, n as nat))),
        ) == rgba(colors),
{
    lemma_bands_joined_prefix(colors, width, rows, workers, workers);
    lemma_band_start_ends(rows, workers);
    assert(rows * width == width * rows) by (nonlinear_arith);
    assert(colors.subrange(0, colors.len() as int) =~= colors);
}

proof fn lemma_bands_joined_prefix(colors: Seq<Rgb>, width: nat, rows: nat, workers: nat, m: nat)
    requires
        0 < workers,
        m <= workers,
        colors.len() == width * rows,
    ensures
        joined(Seq::new(m, |n: int| band_colors(colors, width, rows, workers, n as nat)))
            == colors.subrange(0, (band_start(rows, workers, m) * width) as int),
    decreases m,
{
    lemma_band_start_ends(rows, workers);
    let parts = Seq::new(m, |n: int| band_colors(colors, width, rows, workers, n as nat));
    if m == 0 {
        assert(0 * width == 0) by (nonlinear_arith);
        assert(colors.subrange(0, 0) =~= seq![]);
    } else {
        let k = (m - 1) as nat;
        lemma_bands_joined_prefix(colors, width, rows, workers, k);
        let before = Seq::new(k, |n: int| band_colors(colors, width, rows, workers, n as nat));
        assert(parts.drop_last() =~= before);
        lemma_band_start_ordered(rows, workers, k, m);
        lemma_band_start_ordered(rows, workers, m, workers);
        let s = band_start(rows, workers, k);
        let e = band_start(rows, workers, m);
        lemma_mul_inequality(s as int, e as int, width as int);
        lemma_mul_inequality(e as int, rows as int, width as int);
        assert(rows * width == width * rows) by (nonlinear_arith);
        assert(colors.subrange(0, (s * width) as int) + colors.subrange(
            (s * width) as int,
            (e * width) as int,
        ) =~= colors.subrange(0, (e * width) as int));
    }
}

/// Rows `start .. end` of band `n` when `rows` rows are split into
/// `workers` bands.
pub fn band_rows(rows: usize, workers: usize, n: usize) -> (r: (usize, usize))
    requires
        0 < workers,
        n < workers,
        rows * workers <= usize::MAX,
    ensures
        r.0 == band_start(rows as nat, workers as nat, n as nat),
        r.1 == band_start(rows as nat, workers as nat, n as nat + 1),
        r.0 <= r.1 <= rows,
{
    proof {
        lemma_mul_inequality(n as int + 1, workers as int, rows as int);
        lemma_mul_inequality(n as int, n as int + 1, rows as int);
        assert(workers * rows == rows * workers) by (nonlinear_arith);
        lemma_band_start_ordered(rows as nat, workers as nat, n as nat, n as nat + 1);
        lemma_band_start_ordered(rows as nat, workers as nat, n as nat + 1, workers as nat);
        lemma_band_start_ends(rows as nat, workers as nat);
    }
    let start = n * rows / workers;
    let end = (n + 1) * rows / workers;
    (start, end)
}

/// The number of batches of `LANES` pixels that cover `pixels` pixels.
pub fn batch_count(pixels: usize) -> (r: usize)
    ensures
        r == batches_for(pixels as nat),
        r * LANES >= pixels,
        r == 0 || (r - 1) * LANES < pixels,
{
    let r = pixels / LANES + if pixels % LANES == 0 {
        0
    } else {
        1
    };
    proof {
        lemma_fundamental_div_mod(pixels as int, LANES as int);
        lemma_fundamental_div_mod(pixels + LANES - 1, LANES as int);
    }
    r
}

/// The raster index, within its band, of the pixel that lane `lane` of
/// batch `b` traces. Lanes past the last pixel repeat it, so that every
/// lane of a batch traces a real ray.
pub fn batch_pixel(pixels: usize, b: usize, lane: usize) -> (k: usize)
    requires
        0 < pixels,
        b < batches_for(pixels as nat),
        lane < LANES,
    ensures
        k == if b * LANES + lane < pixels {
            b * LANES + lane
        } else {
            pixels - 1
        },
{
    proof {
        lemma_fundamental_div_mod(pixels + LANES - 1, LANES as int);
        assert(b * LANES + lane < pixels + LANES) by (nonlinear_arith)
            requires
                b < (pixels + LANES - 1) / (LANES as int),
                LANES * ((pixels + LANES - 1) / (LANES as int)) <= pixels + LANES - 1,
                lane < LANES,
        ;
    }
    let k = b * LANES + lane;
    if k < pixels {
        k
    } else {
        pixels - 1
    }
}

/// How many lanes of batch `b` trace pixels of their own: `LANES`, but
/// fewer in a last batch that runs past the end.
pub fn lanes_in_batch(pixels: usize, b: usize) -> (r: usize)
    requires
        b < batches_for(pixels as nat),
    ensures
        r <= LANES,
        0 < r,
        b * LANES + r <= pixels,
        r < LANES ==> b * LANES + r == pixels,
{
    proof {
        lemma_fundamental_div_mod(pixels + LANES - 1, LANES as int);
        assert(b * LANES < pixels) by (nonlinear_arith)
            requires
                b < (pixels + LANES - 1) / (LANES as int),
                LANES * ((pixels + LANES - 1) / (LANES as int)) <= pixels + LANES - 1,
        ;
    }
    let left = pixels - b * LANES;
    if left < LANES {
        left
    } else {
        LANES
    }
}

/// The pixel `(x, y)` at raster index `k` of a band whose first row is
/// `first_row`.
pub fn band_pixel(width: usize, first_row: usize, k: usize) -> (r: (usize, usize))
    requires
        0 < width,
        first_row + k / width <= usize::MAX,
    ensures
        r.0 == k % width,
        r.1 == first_row + k / width,
        r.0 < width,
{
    (k % width, first_row + k / width)
}

/// The offset of pixel `(x, y)` in a frame `width` pixels wide.
pub fn pixel_offset(width: usize, x: usize, y: usize) -> (r: usize)
    requires
        4 * (x + y * width) <= usize::MAX,
    ensures
        r == 4 * (x + y * width),
{
    4 * (x + y * width)
}

/// Where pixel `(x, y)` stands in the encoding of a frame `width` pixels
/// wide: its four bytes start at `pixel_offset`.
pub proof fn lemma_pixel_bytes(colors: Seq<Rgb>, width: nat, x: nat, y: nat, k: int)
    requires
        x < width,
        x + y * width < colors.len(),
        0 <= k < 4,
    ensures
        rgba(colors)[4 * (x + y * width) + k] == channel(colors[(x + y * width) as int], k),
{
    let p = x + y * width;
    assert((4 * p + k) / 4 == p && (4 * p + k) % 4 == k) by (nonlinear_arith)
        requires
            0 <= k < 4,
            p >= 0,
    ;
}

/// Appends the lanes of `batch` that trace pixels of their own, the first
/// `count`, to the colors of a band.
pub fn collect_batch(colors: &mut Vec<Rgb>, batch: &Vec<Rgb>, count: usize)
    requires
        count <= batch@.len(),
    ensures
        final(colors)@ == old(colors)@ + batch@.subrange(0, count as int),
{
    let mut i: usize = 0;
    while i < count
        invariant
            i <= count,
            count <= batch@.len(),
            colors@ == old(colors)@ + batch@.subrange(0, i as int),
        decreases count - i,
    {
        colors.push(batch[i]);
        i = i + 1;
        assert(colors@ =~= old(colors)@ + batch@.subrange(0, i as int));
    }
}

/// The frame encoded from the colors of its bands, in order.
pub fn assemble_frame(bands: &Vec<Vec<Rgb>>) -> (r: Vec<u8>)
    ensures
        r@ == rgba(joined(bands@.map_values(|b: Vec<Rgb>| b@))),
{
    let ghost parts = bands@.map_values(|b: Vec<Rgb>| b@);
    let mut r: Vec<u8> = Vec::new();
    let mut n: usize = 0;
    while n < bands.len()
        invariant
            n <= bands.len(),
            parts == bands@.map_values(|b: Vec<Rgb>| b@),
            r@ == rgba(joined(parts.subrange(0, n as int))),
        decreases bands.len() - n,
    {
        let band = &bands[n];
        let ghost done = joined(parts.subrange(0, n as int));
        let mut i: usize = 0;
        while i < band.len()
            invariant
                i <= band.len(),
                r@ == rgba(done + band@.subrange(0, i as int)),
            decreases band.len() - i,
        {
            let c = band[i];
            proof {
                lemma_rgba_append(done + band@.subrange(0, i as int), seq![c]);
                assert(done + band@.subrange(0, i as int + 1) =~= done + band@.subrange(0, i as int)
                    + seq![c]);
                assert(rgba(seq![c]) =~= seq![c.0, c.1, c.2, 255u8]);
            }
            r.push(c.0);
            r.push(c.1);
            r.push(c.2);
            r.push(255u8);
            i = i + 1;
            proof {
                assert(r@ =~= rgba(done + band@.subrange(0, i as int - 1)) + seq![c.0, c.1, c.2, 255u8]);
            }
        }
        proof {
            assert(band@.subrange(0, band@.len() as int) =~= band@);
            let next = parts.subrange(0, n as int + 1);
            assert(next.drop_last() =~= parts.subrange(0, n as int));
            assert(next.last() == band@);
        }
        n = n + 1;
    }
    assert(parts.subrange(0, bands@.len() as int) =~= parts);
    r
}

} // verus!
