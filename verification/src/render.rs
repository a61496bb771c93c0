//! The picture of a model, as a plain-text pixel map.
//!
//! The text starts with the lines `P3`, the width and the height, and `255`.
//! One line follows for each pixel, row by row, with its red, green and blue
//! values.

use crate::adjacency::side_of;
use crate::color::Color;
use crate::error::RenderError;
use crate::grid::{cell_at, lemma_cell_at, lemma_in_grid};
use crate::model::{payloads_of, Model, ModelView};
use crate::roots::root;
use crate::wave::{weights_of, Wave};
use crate::weight::total;
use vstd::prelude::*;

verus! {

/// The decimal digits of `n`, as ASCII bytes.
pub open spec fn decimal(n: nat) -> Seq<u8>
    decreases n,
{
    if n < 10 {
        seq![(48 + n) as u8]
    } else {
        decimal(n / 10).push((48 + n % 10) as u8)
    }
}

/// The three lines that start the text: `P3`, the width and the height, `255`.
pub open spec fn header(width: nat, height: nat) -> Seq<u8> {
    seq![80u8, 51u8, 10u8] + decimal(width) + seq![32u8] + decimal(height) + seq![
        10u8,
        50u8,
        53u8,
        53u8,
        10u8,
    ]
}

/// The line of one pixel.
pub open spec fn pixel_line(c: Color) -> Seq<u8> {
    decimal(c.r as nat) + seq![32u8] + decimal(c.g as nat) + seq![32u8] + decimal(c.b as nat)
        + seq![10u8]
}

/// The lines of the pixels, one after the other.
pub open spec fn pixel_lines(pixels: Seq<Color>) -> Seq<u8>
    decreases pixels.len(),
{
    if pixels.len() == 0 {
        Seq::empty()
    } else {
        pixel_lines(pixels.drop_last()) + pixel_line(pixels.last())
    }
}

/// The text of a picture of the given width and height.
pub open spec fn pixel_map(width: nat, height: nat, pixels: Seq<Color>) -> Seq<u8> {
    header(width, height) + pixel_lines(pixels)
}

/// The colour of a wave at place `p` of the payloads: the colours that the
/// first `upto` states hold there, each seen through its weight, added up.
pub open spec fn blended(catalog: Seq<Seq<Color>>, w: Seq<u32>, p: int, upto: nat) -> Color
    decreases upto,
{
    if upto == 0 {
        Color { r: 0, g: 0, b: 0 }
    } else {
        blended(catalog, w, p, (upto - 1) as nat).plus(catalog[upto - 1][p].times(w[upto - 1]))
    }
}

/// The catalog serves a tile of side `tile`: the side is not 0, and every
/// payload holds a colour for each pixel of the tile.
pub open spec fn is_tiled(catalog: Seq<Seq<Color>>, tile: nat) -> bool {
    &&& tile > 0
    &&& forall|s: int| 0 <= s < catalog.len() ==> (#[trigger] catalog[s]).len() >= tile * tile
}

impl ModelView {
    /// The colour of the pixel at column `px` and row `py` of the picture.
    /// The pixel belongs to the cell at `px / tile` and `py / tile`, and
    /// shows place `px % tile`, `py % tile` of the payloads.
    pub open spec fn pixel(self, px: int, py: int) -> Color {
        let t = self.tile as int;
        let cell = cell_at(self.width, px / t, py / t);
        blended(self.catalog, self.waves[cell], px % t + (py % t) * t, self.states())
    }

    /// The pixels of the picture, row by row: as many as the grid has cells.
    pub open spec fn picture(self) -> Seq<Color> {
        Seq::new(
            self.cells(),
            |k: int| self.pixel(k % self.width as int, k / self.width as int),
        )
    }
}

/// Appends the decimal digits of `n`.
pub fn push_decimal(out: &mut Vec<u8>, n: usize)
    ensures
        final(out)@ == old(out)@ + decimal(n as nat),
    decreases n,
{
    if n >= 10 {
        push_decimal(out, n / 10);
    }
    let digit: u8 = (48 + n % 10) as u8;
    out.push(digit);
    proof {
        if n < 10 {
            assert(final(out)@ =~= old(out)@ + decimal(n as nat));
        } else {
            assert(final(out)@ =~= old(out)@ + decimal(n as nat));
        }
    }
}

/// Appends the three lines that start the text.
pub fn push_header(out: &mut Vec<u8>, width: usize, height: usize)
    ensures
        final(out)@ == old(out)@ + header(width as nat, height as nat),
{
    out.push(80);
    out.push(51);
    out.push(10);
    push_decimal(out, width);
    out.push(32);
    push_decimal(out, height);
    out.push(10);
    out.push(50);
    out.push(53);
    out.push(53);
    out.push(10);
    assert(out@ =~= old(out)@ + header(width as nat, height as nat));
}

/// Appends the line of one pixel.
pub fn push_pixel(out: &mut Vec<u8>, c: Color)
    ensures
        final(out)@ == old(out)@ + pixel_line(c),
{
    push_decimal(out, c.r as usize);
    out.push(32);
    push_decimal(out, c.g as usize);
    out.push(32);
    push_decimal(out, c.b as usize);
    out.push(10);
    assert(out@ =~= old(out)@ + pixel_line(c));
}

/// The colour of a wave at place `p` of the payloads of the catalog.
pub fn blend(catalog: &Vec<Vec<Color>>, wave: &Wave, p: usize) -> (c: Color)
    requires
        wave@.len() == catalog.len(),
        forall|s: int| 0 <= s < catalog.len() ==> p < (#[trigger] catalog[s]).len(),
    ensures
        c == blended(payloads_of(catalog@), wave@, p as int, catalog.len() as nat),
{
    let ghost payloads = payloads_of(catalog@);
    let weights = wave.weights();
    let mut c = Color::black();
    let mut s: usize = 0;
    while s < catalog.len()
        invariant
            s <= catalog.len(),
            weights@ == wave@,
            wave@.len() == catalog.len(),
            payloads == payloads_of(catalog@),
            forall|t: int| 0 <= t < catalog.len() ==> p < (#[trigger] catalog[t]).len(),
            c == blended(payloads, wave@, p as int, s as nat),
        decreases catalog.len() - s,
    {
        assert(payloads[s as int] == catalog[s as int]@);
        c.add_assign(catalog[s][p].mul(weights[s]));
        s += 1;
    }
    c
}

/// Whether the catalog serves a tile of side `tile`.
pub fn serves(catalog: &Vec<Vec<Color>>, tile: usize) -> (ok: bool)
    ensures
        ok == is_tiled(payloads_of(catalog@), tile as nat),
{
    let ghost payloads = payloads_of(catalog@);
    if tile == 0 {
        return false;
    }
    let area: Option<usize> = tile.checked_mul(tile);
    let mut s: usize = 0;
    while s < catalog.len()
        invariant
            s <= catalog.len(),
            tile > 0,
            payloads == payloads_of(catalog@),
            area == (if tile * tile > usize::MAX {
                None
            } else {
                Some((tile * tile) as usize)
            }),
            forall|t: int| 0 <= t < s ==> (#[trigger] payloads[t]).len() >= tile * tile,
        decreases catalog.len() - s,
    {
        assert(payloads[s as int] == catalog[s as int]@);
        let len: usize = catalog[s].len();
        match area {
            None => {
                assert(payloads[s as int].len() < tile * tile);
                return false;
            },
            Some(a) => {
                if len < a {
                    assert(payloads[s as int].len() < tile * tile);
                    return false;
                }
            },
        }
        s += 1;
    }
    true
}

impl Model {
    /// The picture of the model as text, `width` by `height` pixels.
    ///
    /// There is none after a contradiction, which is returned, and none
    /// where the catalog does not serve the tile.
    pub fn dump(&self) -> (res: Result<Vec<u8>, RenderError>)
        requires
            self.wf(),
        ensures
            match res {
                Ok(text) => {
                    &&& self@.failed is None
                    &&& is_tiled(self@.catalog, self@.tile)
                    &&& text@ == pixel_map(self@.width, self@.height, self@.picture())
                },
                Err(RenderError::Contradiction { cell }) => self@.failed == Some(cell),
                Err(RenderError::Catalog) => self@.failed is None && !is_tiled(
                    self@.catalog,
                    self@.tile,
                ),
            },
    {
        if let Some(cell) = self.failed() {
            return Err(RenderError::Contradiction { cell });
        }
        let catalog = self.base_states();
        let waves = self.waves();
        let tile: usize = self.tile();
        let x: usize = self.width();
        let y: usize = self.height();
        if !serves(catalog, tile) {
            return Err(RenderError::Catalog);
        }
        let ghost picture = self@.picture();
        let ghost view = self@;
        let mut out: Vec<u8> = Vec::new();
        push_header(&mut out, x, y);
        let mut py: usize = 0;
        assert(picture.take(0) =~= Seq::<Color>::empty());
        while py < y
            invariant
                py <= y,
                view == self@,
                view.is_valid(),
                picture == view.picture(),
                view.width == x,
                view.height == y,
                view.tile == tile,
                tile > 0,
                is_tiled(view.catalog, tile as nat),
                payloads_of(catalog@) == view.catalog,
                weights_of(waves@) == view.waves,
                out@ == header(x as nat, y as nat) + pixel_lines(picture.take(py * x)),
            decreases y - py,
        {
            let mut px: usize = 0;
            while px < x
                invariant
                    px <= x,
                    py < y,
                    view == self@,
                    view.is_valid(),
                    picture == view.picture(),
                    view.width == x,
                    view.height == y,
                    view.tile == tile,
                    tile > 0,
                    is_tiled(view.catalog, tile as nat),
                    payloads_of(catalog@) == view.catalog,
                    weights_of(waves@) == view.waves,
                    out@ == header(x as nat, y as nat) + pixel_lines(picture.take(py * x + px)),
                decreases x - px,
            {
                let ghost k: int = py * x + px;
                proof {
                    lemma_cell_at(x as nat, px as int, py as int);
                    lemma_in_grid(x as nat, y as nat, k);
                    lemma_place(x as nat, y as nat, tile as nat, px as int, py as int);
                    let at = cell_at(x as nat, px as int / tile as int, py as int / tile as int);
                    assert(view.waves.len() == waves.len());
                    assert(x * y == waves.len());
                    assert(view.waves[at].len() == view.states() && total(
                        view.waves[at],
                    ) > 0);
                    assert(view.catalog[0] == catalog[0]@);
                    assert(tile * tile <= catalog[0].len());
                    assert((py as int / tile as int) * x >= 0 && (py as int % tile as int) * tile
                        >= 0) by (nonlinear_arith)
                        requires
                            py as int / tile as int >= 0,
                            py as int % tile as int >= 0,
                            x >= 0,
                            tile >= 0,
                    ;
                }
                let cell: usize = px / tile + (py / tile) * x;
                let p: usize = px % tile + (py % tile) * tile;
                assert(view.waves[cell as int] == waves[cell as int]@);
                assert forall|s: int| 0 <= s < catalog.len() implies p < (#[trigger] catalog[s]).len() by {
                    assert(view.catalog[s] == catalog[s]@);
                }
                let c = blend(catalog, &waves[cell], p);
                push_pixel(&mut out, c);
                proof {
                    assert(picture[k] == c);
                    let next = picture.take(k + 1);
                    assert(next.drop_last() =~= picture.take(k));
                    assert(next.last() == c);
                    assert(out@ =~= header(x as nat, y as nat) + pixel_lines(next));
                }
                px += 1;
            }
            proof {
                assert(py * x + x == (py + 1) * x) by (nonlinear_arith);
            }
            py += 1;
        }
        proof {
            assert(y * x == view.cells()) by (nonlinear_arith)
                requires
                    view.cells() == x * y,
            ;
            assert(picture.take(y * x) =~= picture);
        }
        Ok(out)
    }

    /// The payload of one state as text: its colours, one line each, under
    /// the header of a square picture whose side is the square root of their
    /// number, rounded down.
    pub fn dump_state(state: &Vec<Color>) -> (text: Vec<u8>)
        ensures
            text@ == pixel_map(
                root(state.len() as nat),
                root(state.len() as nat),
                state@,
            ),
    {
        let n: usize = side_of(state.len());
        let mut out: Vec<u8> = Vec::new();
        push_header(&mut out, n, n);
        let mut k: usize = 0;
        assert(state@.take(0) =~= Seq::<Color>::empty());
        while k < state.len()
            invariant
                k <= state.len(),
                out@ == header(n as nat, n as nat) + pixel_lines(state@.take(k as int)),
            decreases state.len() - k,
        {
            push_pixel(&mut out, state[k]);
            proof {
                let next = state@.take(k + 1);
                assert(next.drop_last() =~= state@.take(k as int));
                assert(next.last() == state[k as int]);
                assert(out@ =~= header(n as nat, n as nat) + pixel_lines(next));
            }
            k += 1;
        }
        assert(state@.take(k as int) =~= state@);
        out
    }
}

/// The pixel at column `px` and row `py` of the picture of a grid: its cell
/// lies in the grid, and its place lies in the tile.
pub proof fn lemma_place(width: nat, height: nat, tile: nat, px: int, py: int)
    requires
        tile > 0,
        0 <= px < width,
        0 <= py < height,
    ensures
        0 <= px / (tile as int) <= px,
        0 <= py / (tile as int) <= py,
        0 <= cell_at(width, px / (tile as int), py / (tile as int)) < width * height,
        0 <= px % (tile as int) < tile,
        0 <= py % (tile as int) < tile,
        0 <= px % (tile as int) + (py % (tile as int)) * tile < tile * tile,
        py * width + px < width * height,
{
    let t = tile as int;
    let w = width as int;
    let h = height as int;
    vstd::arithmetic::div_mod::lemma_div_pos_is_pos(px, t);
    vstd::arithmetic::div_mod::lemma_div_pos_is_pos(py, t);
    vstd::arithmetic::div_mod::lemma_div_is_ordered_by_denominator(px, 1, t);
    vstd::arithmetic::div_mod::lemma_div_is_ordered_by_denominator(py, 1, t);
    vstd::arithmetic::div_mod::lemma_mod_bound(px, t);
    vstd::arithmetic::div_mod::lemma_mod_bound(py, t);
    let cx = px / t;
    let cy = py / t;
    let qx = px % t;
    let qy = py % t;
    assert(cy * w + cx < w * h && cy * w >= 0) by (nonlinear_arith)
        requires
            0 <= cx < w,
            0 <= cy < h,
    ;
    assert(qy * t + qx < t * t && qy * t >= 0) by (nonlinear_arith)
        requires
            0 <= qx < t,
            0 <= qy < t,
    ;
    assert(py * w + px < w * h) by (nonlinear_arith)
        requires
            0 <= px < w,
            0 <= py < h,
    ;
}

} // verus!
