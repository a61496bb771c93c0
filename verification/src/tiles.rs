//! Catalogs cut out of a source picture.
//!
//! The source is cut into squares of `n` by `n` pixels that do not overlap,
//! from left to right and from top to bottom. Each square becomes the
//! payload of one base state, its pixels row by row.

use crate::adjacency::Adjacency;
use crate::color::Color;
use crate::grid::{cell_at, lemma_cell_at};
use crate::model::{payloads_of, Model};
use crate::roots::root;
use vstd::arithmetic::div_mod::lemma_fundamental_div_mod;
use vstd::prelude::*;

verus! {

/// What a raster holds.
pub struct RasterView {
    /// The number of pixels in a row.
    pub width: nat,
    /// The number of rows.
    pub height: nat,
    /// The pixels, row by row.
    pub pixels: Seq<Color>,
}

/// A picture held in memory.
pub struct Raster {
    width: usize,
    height: usize,
    pixels: Vec<Color>,
}

impl View for Raster {
    type V = RasterView;

    closed spec fn view(&self) -> RasterView {
        RasterView {
            width: self.width as nat,
            height: self.height as nat,
            pixels: self.pixels@,
        }
    }
}

/// The source can be cut into squares of side `n` with nothing left over.
pub open spec fn can_cut(r: RasterView, n: nat) -> bool {
    n > 0 && r.width % n == 0 && r.height % n == 0
}

/// The pixel at column `px` and row `py` of the square at column `bx` and
/// row `by` of the squares.
pub open spec fn block_pixel(r: RasterView, n: nat, bx: int, by: int, px: int, py: int) -> Color {
    r.pixels[(by * n + py) * r.width + bx * n + px]
}

/// Pixel `p` of square `k`, both counted row by row.
pub open spec fn tile_pixel(r: RasterView, n: nat, k: int, p: int) -> Color {
    let across = (r.width / n) as int;
    block_pixel(r, n, k % across, k / across, p % n as int, p / n as int)
}

/// Square `k` of the source.
pub open spec fn tile_of(r: RasterView, n: nat, k: int) -> Seq<Color> {
    Seq::new(n * n, |p: int| tile_pixel(r, n, k, p))
}

/// The squares of side `n` of the source.
pub open spec fn tiles_of(r: RasterView, n: nat) -> Seq<Seq<Color>> {
    Seq::new((r.width / n) * (r.height / n), |k: int| tile_of(r, n, k))
}

impl Raster {
    /// The raster holds one pixel for each place.
    pub open spec fn wf(&self) -> bool {
        self@.pixels.len() == self@.width * self@.height
    }

    /// The raster of the given width and height with the given pixels, row by
    /// row, if there is one pixel for each place.
    pub fn new(width: usize, height: usize, pixels: Vec<Color>) -> (res: Option<Raster>)
        ensures
            res is Some <==> pixels.len() == width * height,
            res matches Some(r) ==> r.wf() && r@ == (RasterView {
                width: width as nat,
                height: height as nat,
                pixels: pixels@,
            }),
    {
        match width.checked_mul(height) {
            Some(area) => {
                if pixels.len() == area {
                    Some(Raster { width, height, pixels })
                } else {
                    None
                }
            },
            None => None,
        }
    }

    /// The number of pixels in a row.
    pub fn width(&self) -> (w: usize)
        ensures
            w == self@.width,
    {
        self.width
    }

    /// The number of rows.
    pub fn height(&self) -> (h: usize)
        ensures
            h == self@.height,
    {
        self.height
    }

    /// The pixels, row by row.
    pub fn pixels(&self) -> (pixels: &Vec<Color>)
        ensures
            pixels@ == self@.pixels,
    {
        &self.pixels
    }

    /// The square at column `bx` and row `by` of the squares of side `n`.
    fn cut_tile(&self, n: usize, bx: usize, by: usize) -> (tile: Vec<Color>)
        requires
            self.wf(),
            can_cut(self@, n as nat),
            bx < self@.width / n as nat,
            by < self@.height / n as nat,
        ensures
            tile@ == tile_of(self@, n as nat, cell_at(self@.width / n as nat, bx as int, by as int)),
    {
        let ghost r = self@;
        let ghost across = r.width / n as nat;
        let ghost k = cell_at(across, bx as int, by as int);
        let w: usize = self.width;
        proof {
            lemma_cell_at(across, bx as int, by as int);
            lemma_block(r, n as nat, bx as int, by as int, 0, 0);
        }
        let mut tile: Vec<Color> = Vec::new();
        let mut py: usize = 0;
        while py < n
            invariant
                py <= n,
                n > 0,
                self.wf(),
                r == self@,
                w == r.width,
                can_cut(r, n as nat),
                across == r.width / n as nat,
                bx < across,
                by < r.height / n as nat,
                k == cell_at(across, bx as int, by as int),
                k % across as int == bx,
                k / across as int == by,
                tile.len() == py * n,
                forall|p: int| 0 <= p < tile.len() ==> tile[p] == tile_pixel(r, n as nat, k, p),
            decreases n - py,
        {
            let mut px: usize = 0;
            while px < n
                invariant
                    px <= n,
                    py < n,
                    n > 0,
                    self.wf(),
                    r == self@,
                    w == r.width,
                    can_cut(r, n as nat),
                    across == r.width / n as nat,
                    bx < across,
                    by < r.height / n as nat,
                    k == cell_at(across, bx as int, by as int),
                    k % across as int == bx,
                    k / across as int == by,
                    tile.len() == py * n + px,
                    forall|p: int| 0 <= p < tile.len() ==> tile[p] == tile_pixel(r, n as nat, k, p),
                decreases n - px,
            {
                proof {
                    lemma_block(r, n as nat, bx as int, by as int, px as int, py as int);
                    lemma_cell_at(n as nat, px as int, py as int);
                    assert(r.width * r.height == self.pixels.len());
                }
                let at: usize = (by * n + py) * w + bx * n + px;
                tile.push(self.pixels[at]);
                px += 1;
            }
            proof {
                assert(py * n + n == (py + 1) * n) by (nonlinear_arith);
            }
            py += 1;
        }
        assert(tile@ =~= tile_of(r, n as nat, k));
        tile
    }

    /// The squares of side `n` of this picture, from left to right and from
    /// top to bottom; none where `n` is 0 or does not divide the width and
    /// the height.
    pub fn cut(&self, n: usize) -> (res: Option<Vec<Vec<Color>>>)
        requires
            self.wf(),
        ensures
            res is Some <==> can_cut(self@, n as nat),
            res matches Some(tiles) ==> payloads_of(tiles@) == tiles_of(self@, n as nat),
    {
        if n == 0 || self.width % n != 0 || self.height % n != 0 {
            return None;
        }
        let ghost r = self@;
        let across: usize = self.width / n;
        let down: usize = self.height / n;
        let mut tiles: Vec<Vec<Color>> = Vec::new();
        let mut by: usize = 0;
        while by < down
            invariant
                by <= down,
                self.wf(),
                r == self@,
                can_cut(r, n as nat),
                across == r.width / n as nat,
                down == r.height / n as nat,
                tiles.len() == by * across,
                forall|k: int| 0 <= k < tiles.len() ==> (#[trigger] tiles[k])@ == tile_of(r, n as nat, k),
            decreases down - by,
        {
            let mut bx: usize = 0;
            while bx < across
                invariant
                    bx <= across,
                    by < down,
                    self.wf(),
                    r == self@,
                    can_cut(r, n as nat),
                    across == r.width / n as nat,
                    down == r.height / n as nat,
                    tiles.len() == by * across + bx,
                    forall|k: int|
                        0 <= k < tiles.len() ==> (#[trigger] tiles[k])@ == tile_of(r, n as nat, k),
                decreases across - bx,
            {
                let tile = self.cut_tile(n, bx, by);
                tiles.push(tile);
                bx += 1;
            }
            proof {
                assert(by * across + across == (by + 1) * across) by (nonlinear_arith);
            }
            by += 1;
        }
        proof {
            assert(down * across == across * down) by (nonlinear_arith);
            assert(payloads_of(tiles@) =~= tiles_of(r, n as nat));
        }
        Some(tiles)
    }
}

/// A pixel of a square lies in the picture.
pub proof fn lemma_block(r: RasterView, n: nat, bx: int, by: int, px: int, py: int)
    requires
        can_cut(r, n),
        0 <= bx < r.width / n,
        0 <= by < r.height / n,
        0 <= px < n,
        0 <= py < n,
    ensures
        0 <= by * n + py < r.height,
        0 <= bx * n + px < r.width,
        0 <= (by * n + py) * r.width,
        0 <= (by * n + py) * r.width + bx * n + px < r.width * r.height,
        0 <= by * n,
        0 <= bx * n,
{
    let w = r.width as int;
    let h = r.height as int;
    let m = n as int;
    lemma_fundamental_div_mod(w, m);
    lemma_fundamental_div_mod(h, m);
    let across = w / m;
    let down = h / m;
    assert(bx * m + px < w && bx * m >= 0) by (nonlinear_arith)
        requires
            0 <= bx < across,
            0 <= px < m,
            w == m * across,
    ;
    assert(by * m + py < h && by * m >= 0) by (nonlinear_arith)
        requires
            0 <= by < down,
            0 <= py < m,
            h == m * down,
    ;
    let row = by * m + py;
    let col = bx * m + px;
    assert(row * w + col < w * h && row * w >= 0) by (nonlinear_arith)
        requires
            0 <= row < h,
            0 <= col < w,
    ;
}

impl Model {
    /// A model whose catalog is cut out of a source picture in squares of
    /// side `n`, with the positional rule and a grid without cells. There is
    /// none where `n` is 0 or does not divide the width and the height of the
    /// source.
    pub fn from_image(image: &Raster, n: usize) -> (res: Option<Model>)
        requires
            image.wf(),
        ensures
            res is Some <==> can_cut(image@, n as nat),
            res matches Some(model) ==> {
                &&& model.wf()
                &&& model@.catalog == tiles_of(image@, n as nat)
                &&& model@.rule == (Adjacency::Positional {
                    side: root(tiles_of(image@, n as nat).len()) as usize,
                })
                &&& model@.tile == n
                &&& model@.width == 0
                &&& model@.height == 0
                &&& model@.failed is None
            },
    {
        match image.cut(n) {
            None => None,
            Some(base_states) => {
                assert(payloads_of(base_states@).len() == base_states.len());
                Some(Model::new(base_states, n))
            },
        }
    }
}

} // verus!
