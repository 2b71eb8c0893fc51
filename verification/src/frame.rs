//! What drawing does to a pixel buffer, and why the order of drawing does
//! not matter.
//!
//! A frame is drawn cell by cell: each cell of a coarse grid carries one
//! color, which is replicated over a block of `s` by `s` pixels. Whether
//! the cells come one after the other or band by band, the blocks of
//! different cells never overlap, so the same frame comes out.

use vstd::prelude::*;

verus! {

/// Pixel `(px, py)` lies in the block of cell `(x, y)` at scale `s`.
pub open spec fn in_block(px: int, py: int, x: int, y: int, s: int) -> bool {
    x * s <= px < x * s + s && y * s <= py < y * s + s
}

/// The buffer `p`, `w` pixels wide, after the block of cell `(x, y)` at
/// scale `s` was filled with color `c`. Pixels outside the block keep their
/// color, and so does everything where the block lies outside the buffer.
pub open spec fn blit(p: Seq<u32>, w: int, x: int, y: int, s: int, c: u32) -> Seq<u32> {
    Seq::new(
        p.len(),
        |i: int|
            if w > 0 && in_block(i % w, i / w, x, y, s) {
                c
            } else {
                p[i]
            },
    )
}

/// A cell of the coarse grid with its color: column, row, color.
pub type Cell = (int, int, u32);

/// The buffer `p` after the cells of `cells` were drawn one after the
/// other.
pub open spec fn drawn(p: Seq<u32>, w: int, s: int, cells: Seq<Cell>) -> Seq<u32>
    decreases cells.len(),
{
    if cells.len() == 0 {
        p
    } else {
        let c = cells.last();
        blit(drawn(p, w, s, cells.drop_last()), w, c.0, c.1, s, c.2)
    }
}

/// The cells of one band: row `y` of the grid, with the colors of `band`
/// from left to right.
pub open spec fn band_cells(y: int, band: Seq<u32>) -> Seq<Cell> {
    Seq::new(band.len(), |x: int| (x, y, band[x]))
}

/// The cells of a whole frame: band after band from the top, band `y`
/// being row `y` of the grid.
pub open spec fn frame_cells(bands: Seq<Seq<u32>>) -> Seq<Cell>
    decreases bands.len(),
{
    if bands.len() == 0 {
        Seq::empty()
    } else {
        frame_cells(bands.drop_last()) + band_cells(bands.len() - 1, bands.last())
    }
}

/// The cells at the places `at`, each with the color that `f` gives its
/// place.
pub open spec fn colored(at: Seq<(int, int)>, f: spec_fn(int, int) -> u32) -> Seq<Cell> {
    Seq::new(at.len(), |k: int| (at[k].0, at[k].1, f(at[k].0, at[k].1)))
}

/// `(x, y)` is one of the places of `at`.
pub open spec fn has_place(at: Seq<(int, int)>, x: int, y: int) -> bool {
    exists|k: int| 0 <= k < at.len() && #[trigger] at[k] == (x, y)
}

/// Every place of `a` is a place of `b`.
pub open spec fn covered_by(a: Seq<(int, int)>, b: Seq<(int, int)>) -> bool {
    forall|k: int| 0 <= k < a.len() ==> has_place(b, (#[trigger] a[k]).0, a[k].1)
}

/// Every cell of a grid of `gw` by `gh` cells is one of the places of `at`.
pub open spec fn covers_grid(at: Seq<(int, int)>, gw: int, gh: int) -> bool {
    forall|x: int, y: int| 0 <= x < gw && 0 <= y < gh ==> #[trigger] has_place(at, x, y)
}

/// The blocks of two different cells share no pixel.
pub proof fn lemma_blocks_disjoint(px: int, py: int, x1: int, y1: int, x2: int, y2: int, s: int)
    requires
        in_block(px, py, x1, y1, s),
        in_block(px, py, x2, y2, s),
    ensures
        x1 == x2,
        y1 == y2,
{
    assert(x1 == x2) by (nonlinear_arith)
        requires
            x1 * s <= px < x1 * s + s,
            x2 * s <= px < x2 * s + s,
    ;
    assert(y1 == y2) by (nonlinear_arith)
        requires
            y1 * s <= py < y1 * s + s,
            y2 * s <= py < y2 * s + s,
    ;
}

/// Drawing keeps the size of the buffer.
pub proof fn lemma_drawn_len(p: Seq<u32>, w: int, s: int, cells: Seq<Cell>)
    ensures
        drawn(p, w, s, cells).len() == p.len(),
    decreases cells.len(),
{
    if cells.len() > 0 {
        lemma_drawn_len(p, w, s, cells.drop_last());
    }
}

/// Drawing one run of cells and then another is drawing the two runs as
/// one.
pub proof fn lemma_drawn_concat(p: Seq<u32>, w: int, s: int, a: Seq<Cell>, b: Seq<Cell>)
    ensures
        drawn(drawn(p, w, s, a), w, s, b) == drawn(p, w, s, a + b),
    decreases b.len(),
{
    if b.len() == 0 {
        assert(a + b == a);
    } else {
        lemma_drawn_concat(p, w, s, a, b.drop_last());
        assert((a + b).drop_last() == a + b.drop_last());
        assert((a + b).last() == b.last());
    }
}

/// What one pixel holds after drawing: the color of the cell whose block
/// it lies in, where `at` has such a cell, and its old color otherwise.
pub proof fn lemma_drawn_pixel(
    p: Seq<u32>,
    w: int,
    s: int,
    at: Seq<(int, int)>,
    f: spec_fn(int, int) -> u32,
    i: int,
)
    requires
        0 <= i < p.len(),
    ensures
        drawn(p, w, s, colored(at, f)).len() == p.len(),
        forall|k: int|
            0 <= k < at.len() && w > 0 && in_block(i % w, i / w, (#[trigger] at[k]).0, at[k].1, s)
                ==> drawn(p, w, s, colored(at, f))[i] == f(at[k].0, at[k].1),
        (forall|k: int|
            0 <= k < at.len() ==> !(w > 0 && in_block(
                i % w,
                i / w,
                (#[trigger] at[k]).0,
                at[k].1,
                s,
            ))) ==> drawn(p, w, s, colored(at, f))[i] == p[i],
    decreases at.len(),
{
    let cells = colored(at, f);
    lemma_drawn_len(p, w, s, cells);
    if at.len() > 0 {
        let rest = at.drop_last();
        let last = at.last();
        assert(cells.drop_last() == colored(rest, f));
        assert(cells.last() == (last.0, last.1, f(last.0, last.1)));
        lemma_drawn_pixel(p, w, s, rest, f, i);
        lemma_drawn_len(p, w, s, colored(rest, f));
        let before = drawn(p, w, s, colored(rest, f));
        assert(drawn(p, w, s, cells) == blit(before, w, last.0, last.1, s, f(last.0, last.1)));
        assert forall|k: int|
            0 <= k < at.len() && w > 0 && in_block(
                i % w,
                i / w,
                (#[trigger] at[k]).0,
                at[k].1,
                s,
            ) implies drawn(p, w, s, cells)[i] == f(at[k].0, at[k].1) by {
            if w > 0 && in_block(i % w, i / w, last.0, last.1, s) {
                lemma_blocks_disjoint(i % w, i / w, last.0, last.1, at[k].0, at[k].1, s);
            } else {
                assert(k < rest.len());
                assert(rest[k] == at[k]);
            }
        }
        if forall|k: int|
            0 <= k < at.len() ==> !(w > 0 && in_block(
                i % w,
                i / w,
                (#[trigger] at[k]).0,
                at[k].1,
                s,
            )) {
            assert(at[at.len() - 1] == last);
            assert forall|k: int| 0 <= k < rest.len() implies !(w > 0 && in_block(
                i % w,
                i / w,
                (#[trigger] rest[k]).0,
                rest[k].1,
                s,
            )) by {
                assert(rest[k] == at[k]);
            }
        }
    }
}

/// The order in which the cells of a frame are drawn does not matter, nor
/// does it matter how often a cell is drawn: two runs over the same places,
/// with the color of each place given by the same `f`, leave the same
/// buffer. So a frame drawn band by band, in whatever order the bands come,
/// is pixel for pixel the frame drawn cell after cell.
pub proof fn lemma_draw_order(
    p: Seq<u32>,
    w: int,
    s: int,
    f: spec_fn(int, int) -> u32,
    a: Seq<(int, int)>,
    b: Seq<(int, int)>,
)
    requires
        covered_by(a, b),
        covered_by(b, a),
    ensures
        drawn(p, w, s, colored(a, f)) == drawn(p, w, s, colored(b, f)),
{
    let da = drawn(p, w, s, colored(a, f));
    let db = drawn(p, w, s, colored(b, f));
    lemma_drawn_len(p, w, s, colored(a, f));
    lemma_drawn_len(p, w, s, colored(b, f));
    assert forall|i: int| 0 <= i < p.len() implies da[i] == db[i] by {
        lemma_drawn_pixel(p, w, s, a, f, i);
        lemma_drawn_pixel(p, w, s, b, f, i);
        if exists|k: int|
            0 <= k < a.len() && w > 0 && in_block(i % w, i / w, (#[trigger] a[k]).0, a[k].1, s) {
            let k = choose|k: int|
                0 <= k < a.len() && w > 0 && in_block(
                    i % w,
                    i / w,
                    (#[trigger] a[k]).0,
                    a[k].1,
                    s,
                );
            assert(has_place(b, a[k].0, a[k].1));
            let j = choose|j: int| 0 <= j < b.len() && #[trigger] b[j] == (a[k].0, a[k].1);
            assert(in_block(i % w, i / w, b[j].0, b[j].1, s));
        } else if exists|j: int|
            0 <= j < b.len() && w > 0 && in_block(i % w, i / w, (#[trigger] b[j]).0, b[j].1, s) {
            let j = choose|j: int|
                0 <= j < b.len() && w > 0 && in_block(
                    i % w,
                    i / w,
                    (#[trigger] b[j]).0,
                    b[j].1,
                    s,
                );
            assert(has_place(a, b[j].0, b[j].1));
            let k = choose|k: int| 0 <= k < a.len() && #[trigger] a[k] == (b[j].0, b[j].1);
            assert(in_block(i % w, i / w, a[k].0, a[k].1, s));
        }
    }
    assert(da =~= db);
}

/// Every pixel lies in the block of a cell: of the cell whose column and row
/// are the pixel's, divided by the scale. With `lemma_blocks_disjoint`, the
/// blocks part the image: each pixel belongs to exactly one of them.
pub proof fn lemma_block_of(px: int, py: int, s: int)
    requires
        0 < s,
        0 <= px,
        0 <= py,
    ensures
        in_block(px, py, px / s, py / s, s),
        0 <= px / s,
        0 <= py / s,
{
    vstd::arithmetic::div_mod::lemma_fundamental_div_mod(px, s);
    vstd::arithmetic::div_mod::lemma_fundamental_div_mod(py, s);
    assert((px / s) * s == s * (px / s) && (py / s) * s == s * (py / s)) by (nonlinear_arith);
    assert(0 <= px / s) by (nonlinear_arith)
        requires
            0 < s,
            0 <= px,
            px == s * (px / s) + px % s,
            0 <= px % s < s,
    ;
    assert(0 <= py / s) by (nonlinear_arith)
        requires
            0 < s,
            0 <= py,
            py == s * (py / s) + py % s,
            0 <= py % s < s,
    ;
}

/// What a frame is: once every cell of a grid of `gw` by `gh` cells was
/// drawn, in any order, each pixel under the grid has the color of its
/// cell.
pub proof fn lemma_drawn_frame(
    p: Seq<u32>,
    w: int,
    s: int,
    gw: int,
    gh: int,
    at: Seq<(int, int)>,
    f: spec_fn(int, int) -> u32,
    i: int,
)
    requires
        0 < w,
        0 < s,
        0 <= i < p.len(),
        i % w < gw * s,
        i / w < gh * s,
        covers_grid(at, gw, gh),
    ensures
        drawn(p, w, s, colored(at, f))[i] == f((i % w) / s, (i / w) / s),
{
    let px = i % w;
    let py = i / w;
    vstd::arithmetic::div_mod::lemma_fundamental_div_mod(i, w);
    assert(0 <= py) by (nonlinear_arith)
        requires
            0 < w,
            0 <= i,
            i == w * py + px,
            0 <= px < w,
    ;
    lemma_block_of(px, py, s);
    let x = px / s;
    let y = py / s;
    assert(x < gw) by (nonlinear_arith)
        requires
            0 < s,
            x * s <= px,
            px < gw * s,
    ;
    assert(y < gh) by (nonlinear_arith)
        requires
            0 < s,
            y * s <= py,
            py < gh * s,
    ;
    assert(has_place(at, x, y));
    let k = choose|k: int| 0 <= k < at.len() && #[trigger] at[k] == (x, y);
    lemma_drawn_pixel(p, w, s, at, f, i);
    assert(in_block(i % w, i / w, at[k].0, at[k].1, s));
}

/// The places of the cells of a whole frame, in the order of `frame_cells`.
pub open spec fn frame_places(bands: Seq<Seq<u32>>) -> Seq<(int, int)>
    decreases bands.len(),
{
    if bands.len() == 0 {
        Seq::empty()
    } else {
        frame_places(bands.drop_last()) + Seq::new(
            bands.last().len(),
            |x: int| (x, bands.len() - 1),
        )
    }
}

/// The color that the bands give each cell.
pub open spec fn band_color(bands: Seq<Seq<u32>>) -> spec_fn(int, int) -> u32 {
    |x: int, y: int| bands[y][x]
}

/// `(x, y)` is a cell of the first `n` bands.
pub open spec fn in_bands(bands: Seq<Seq<u32>>, n: int, x: int, y: int) -> bool {
    0 <= y < n && 0 <= x < bands[y].len()
}

/// The cells of the first `n` bands are the cells at their places, each
/// with the color that the bands give it; and the places are just the
/// cells of those bands.
proof fn lemma_frame_places(bands: Seq<Seq<u32>>, n: int)
    requires
        0 <= n <= bands.len(),
    ensures
        frame_cells(bands.take(n)) == colored(frame_places(bands.take(n)), band_color(bands)),
        forall|k: int|
            0 <= k < frame_places(bands.take(n)).len() ==> in_bands(
                bands,
                n,
                (#[trigger] frame_places(bands.take(n))[k]).0,
                frame_places(bands.take(n))[k].1,
            ),
        forall|x: int, y: int|
            in_bands(bands, n, x, y) ==> #[trigger] has_place(frame_places(bands.take(n)), x, y),
    decreases n,
{
    let t = bands.take(n);
    let f = band_color(bands);
    if n > 0 {
        let rest = bands.take(n - 1);
        let last = bands[n - 1];
        assert(t.drop_last() == rest);
        assert(t.last() == last);
        lemma_frame_places(bands, n - 1);
        let row = Seq::new(last.len(), |x: int| (x, n - 1));
        assert(frame_places(t) == frame_places(rest) + row);
        assert(frame_cells(t) == frame_cells(rest) + band_cells(n - 1, last));
        assert(colored(row, f) =~= band_cells(n - 1, last));
        assert(colored(frame_places(rest) + row, f) =~= colored(frame_places(rest), f) + colored(
            row,
            f,
        ));
        let places = frame_places(t);
        let before = frame_places(rest);
        assert forall|k: int| 0 <= k < places.len() implies in_bands(
            bands,
            n,
            (#[trigger] places[k]).0,
            places[k].1,
        ) by {
            if k < before.len() {
                assert(places[k] == before[k]);
            } else {
                assert(places[k] == row[k - before.len()]);
            }
        }
        assert forall|x: int, y: int| in_bands(bands, n, x, y) implies #[trigger] has_place(
            places,
            x,
            y,
        ) by {
            if y < n - 1 {
                assert(in_bands(bands, n - 1, x, y));
                assert(has_place(before, x, y));
                let k = choose|k: int| 0 <= k < before.len() && #[trigger] before[k] == (x, y);
                assert(places[k] == (x, y));
            } else {
                assert(row[x] == (x, y));
                assert(places[before.len() + x] == (x, y));
            }
        }
    } else {
        assert(colored(frame_places(t), f) =~= frame_cells(t));
    }
}

/// What a whole frame leaves in one pixel: the color of the cell whose
/// block the pixel lies in, where the bands hold such a cell, and the
/// pixel's old color otherwise.
pub proof fn lemma_frame_pixel(p: Seq<u32>, w: int, s: int, bands: Seq<Seq<u32>>, i: int)
    requires
        0 <= i < p.len(),
    ensures
        drawn(p, w, s, frame_cells(bands)).len() == p.len(),
        forall|x: int, y: int|
            in_bands(bands, bands.len() as int, x, y) && w > 0 && #[trigger] in_block(
                i % w,
                i / w,
                x,
                y,
                s,
            ) ==> drawn(p, w, s, frame_cells(bands))[i] == bands[y][x],
        (forall|x: int, y: int|
            in_bands(bands, bands.len() as int, x, y) ==> !(w > 0 && #[trigger] in_block(
                i % w,
                i / w,
                x,
                y,
                s,
            ))) ==> drawn(p, w, s, frame_cells(bands))[i] == p[i],
{
    let n = bands.len() as int;
    assert(bands.take(n) == bands);
    lemma_frame_places(bands, n);
    let places = frame_places(bands);
    let f = band_color(bands);
    lemma_drawn_pixel(p, w, s, places, f, i);
    assert forall|x: int, y: int|
        in_bands(bands, n, x, y) && w > 0 && #[trigger] in_block(
            i % w,
            i / w,
            x,
            y,
            s,
        ) implies drawn(p, w, s, frame_cells(bands))[i] == bands[y][x] by {
        assert(has_place(places, x, y));
        let k = choose|k: int| 0 <= k < places.len() && #[trigger] places[k] == (x, y);
        assert(in_block(i % w, i / w, places[k].0, places[k].1, s));
    }
    if forall|x: int, y: int|
        in_bands(bands, n, x, y) ==> !(w > 0 && #[trigger] in_block(i % w, i / w, x, y, s)) {
        assert forall|k: int| 0 <= k < places.len() implies !(w > 0 && in_block(
            i % w,
            i / w,
            (#[trigger] places[k]).0,
            places[k].1,
            s,
        )) by {
            assert(in_bands(bands, n, places[k].0, places[k].1));
        }
    }
}

/// A frame drawn cell after cell, in any order and with any cell drawn as
/// often as one likes, is pixel for pixel the frame drawn band after band,
/// as long as the cells drawn are the cells of the bands, each in the color
/// its band gives it.
pub proof fn lemma_frame_order(
    p: Seq<u32>,
    w: int,
    s: int,
    bands: Seq<Seq<u32>>,
    at: Seq<(int, int)>,
)
    requires
        forall|k: int|
            0 <= k < at.len() ==> in_bands(bands, bands.len() as int, (#[trigger] at[k]).0, at[k].1),
        forall|x: int, y: int|
            in_bands(bands, bands.len() as int, x, y) ==> #[trigger] has_place(at, x, y),
    ensures
        drawn(p, w, s, colored(at, band_color(bands))) == drawn(p, w, s, frame_cells(bands)),
{
    let n = bands.len() as int;
    assert(bands.take(n) == bands);
    lemma_frame_places(bands, n);
    let places = frame_places(bands);
    assert forall|k: int| 0 <= k < at.len() implies has_place(
        places,
        (#[trigger] at[k]).0,
        at[k].1,
    ) by {}
    assert forall|k: int| 0 <= k < places.len() implies has_place(
        at,
        (#[trigger] places[k]).0,
        places[k].1,
    ) by {
        assert(in_bands(bands, n, places[k].0, places[k].1));
    }
    lemma_draw_order(p, w, s, band_color(bands), at, places);
}

} // verus!
