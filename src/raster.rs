use vstd::prelude::*;
use vstd::arithmetic::div_mod::lemma_fundamental_div_mod_converse;
use crate::codec::Pixel;

verus! {

/// A W×H grid of pixel records, stored row by row.
pub struct Raster {
    pub width: u32,
    pub height: u32,
    pub pixels: Vec<Pixel>,
}

/// Position of pixel `(x, y)` in the row-major storage of a grid `w` wide.
pub open spec fn index_of(w: int, x: int, y: int) -> int {
    y * w + x
}

/// The pixel at `(x, y)` of row-major storage `px` of a grid `w` wide.
pub open spec fn cell(px: Seq<Pixel>, w: int, x: int, y: int) -> Pixel {
    px[index_of(w, x, y)]
}

/// `v` brought into `0..=hi`.
pub open spec fn clamp_spec(v: int, hi: int) -> int {
    if v < 0 {
        0
    } else if v > hi {
        hi
    } else {
        v
    }
}

/// Nearest-neighbour sample with border clamping: a coordinate outside the grid
/// reads the nearest edge pixel.
pub open spec fn sample_spec(px: Seq<Pixel>, w: int, h: int, x: int, y: int) -> Pixel {
    cell(px, w, clamp_spec(x, w - 1), clamp_spec(y, h - 1))
}

/// Pixel `(x, y)` of the grid lies inside the storage, and its position
/// gives back its coordinate.
pub proof fn lemma_index_in_bounds(w: int, h: int, x: int, y: int)
    requires
        0 <= x < w,
        0 <= y < h,
    ensures
        0 <= index_of(w, x, y) < w * h,
        index_of(w, x, y) % w == x,
        index_of(w, x, y) / w == y,
{
    assert(0 <= y * w) by (nonlinear_arith)
        requires 0 <= y, 0 <= w;
    assert(y * w + x < w * h) by (nonlinear_arith)
        requires 0 <= x < w, 0 <= y < h;
    lemma_fundamental_div_mod_converse(y * w + x, w, y, x);
}

/// The coordinate of storage position `i`, and back.
pub proof fn lemma_coord_of_index(w: int, h: int, i: int)
    requires
        0 < w,
        0 <= i < w * h,
    ensures
        0 <= i % w < w,
        0 <= i / w < h,
        index_of(w, i % w, i / w) == i,
{
    assert(0 <= i % w < w && i == w * (i / w) + i % w) by {
        vstd::arithmetic::div_mod::lemma_fundamental_div_mod(i, w);
        vstd::arithmetic::div_mod::lemma_mod_bound(i, w);
    }
    assert(0 <= i / w) by {
        vstd::arithmetic::div_mod::lemma_div_pos_is_pos(i, w);
    }
    let q = i / w;
    assert(q < h) by (nonlinear_arith)
        requires i == w * q + i % w, 0 <= i % w, i < w * h, 0 < w;
    assert(q * w == w * q) by (nonlinear_arith);
}

impl Raster {
    /// Dimensions are positive and the storage holds exactly W×H pixels.
    pub open spec fn wf(&self) -> bool {
        &&& 0 < self.width
        &&& 0 < self.height
        &&& self.pixels@.len() == self.width as int * self.height as int
    }

    /// A grid of the given size with every pixel set to `fill`.
    pub fn new(width: u32, height: u32, fill: Pixel) -> (r: Raster)
        requires
            0 < width,
            0 < height,
            width as int * height as int <= usize::MAX,
        ensures
            r.wf(),
            r.width == width,
            r.height == height,
            forall|i: int| 0 <= i < r.pixels@.len() ==> r.pixels@[i] == fill,
    {
        let n: usize = (width as usize) * (height as usize);
        let mut pixels: Vec<Pixel> = Vec::with_capacity(n);
        let mut i: usize = 0;
        while i < n
            invariant
                i <= n,
                pixels@.len() == i,
                forall|j: int| 0 <= j < i ==> pixels@[j] == fill,
            decreases n - i,
        {
            pixels.push(fill);
            i = i + 1;
        }
        Raster { width, height, pixels }
    }

    /// The pixel at `(x, y)`.
    pub fn get(&self, x: u32, y: u32) -> (p: Pixel)
        requires
            self.wf(),
            x < self.width,
            y < self.height,
        ensures
            p == cell(self.pixels@, self.width as int, x as int, y as int),
    {
        proof {
            lemma_index_in_bounds(self.width as int, self.height as int, x as int, y as int);
            assert(y as int * self.width as int <= self.width as int * self.height as int) by (nonlinear_arith)
                requires y < self.height, 0 < self.width;
        }
        let n: usize = self.pixels.len();
        let row: usize = (y as usize) * (self.width as usize);
        self.pixels[row + (x as usize)]
    }

    /// Nearest-neighbour sample at a possibly out-of-grid coordinate: each axis
    /// is clamped to the grid, never wrapped.
    pub fn sample_clamped(&self, x: i64, y: i64) -> (p: Pixel)
        requires
            self.wf(),
        ensures
            p == sample_spec(self.pixels@, self.width as int, self.height as int, x as int, y as int),
    {
        let cx: u32 = clamp(x, self.width - 1);
        let cy: u32 = clamp(y, self.height - 1);
        self.get(cx, cy)
    }
}

/// The pixel records of interleaved RGBA bytes, four bytes per pixel.
pub open spec fn pixels_of_bytes(b: Seq<u8>) -> Seq<Pixel> {
    Seq::new(b.len() / 4, |i: int| Pixel { r: b[4 * i], g: b[4 * i + 1], b: b[4 * i + 2], a: b[4 * i + 3] })
}

/// The interleaved RGBA bytes of pixel records.
pub open spec fn bytes_of_pixels(px: Seq<Pixel>) -> Seq<u8> {
    Seq::new(4 * px.len(), |j: int| {
        let p = px[j / 4];
        if j % 4 == 0 {
            p.r
        } else if j % 4 == 1 {
            p.g
        } else if j % 4 == 2 {
            p.b
        } else {
            p.a
        }
    })
}

impl Raster {
    /// A grid read from interleaved RGBA bytes, row by row; `None` unless the
    /// dimensions are positive and the bytes hold exactly four per pixel.
    pub fn from_rgba(width: u32, height: u32, bytes: &Vec<u8>) -> (r: Option<Raster>)
        ensures
            match r {
                Some(g) => g.wf() && g.width == width && g.height == height
                    && g.pixels@ == pixels_of_bytes(bytes@),
                None => !(0 < width && 0 < height
                    && bytes@.len() == 4 * (width as int * height as int)),
            },
    {
        if width == 0 || height == 0 {
            return None;
        }
        assert(width as int * height as int <= u64::MAX) by (nonlinear_arith)
            requires width <= u32::MAX, height <= u32::MAX;
        let len: usize = bytes.len();
        let n: usize = len / 4;
        proof {
            vstd::arithmetic::div_mod::lemma_fundamental_div_mod(bytes@.len() as int, 4);
        }
        if bytes.len() % 4 != 0 || (width as u64) * (height as u64) != n as u64 {
            return None;
        }
        let mut pixels: Vec<Pixel> = Vec::with_capacity(n);
        let mut i: usize = 0;
        while i < n
            invariant
                n == bytes@.len() / 4,
                4 * n == bytes@.len(),
                bytes@.len() <= usize::MAX,
                i <= n,
                pixels@.len() == i,
                forall|j: int| 0 <= j < i ==> pixels@[j] == pixels_of_bytes(bytes@)[j],
            decreases n - i,
        {
            let p: Pixel = Pixel { r: bytes[4 * i], g: bytes[4 * i + 1], b: bytes[4 * i + 2], a: bytes[4 * i + 3] };
            pixels.push(p);
            i = i + 1;
        }
        proof {
            assert(pixels@ =~= pixels_of_bytes(bytes@));
        }
        Some(Raster { width, height, pixels })
    }

    /// The grid as interleaved RGBA bytes, row by row.
    pub fn to_rgba(&self) -> (b: Vec<u8>)
        requires
            4 * self.pixels@.len() <= usize::MAX,
        ensures
            b@ == bytes_of_pixels(self.pixels@),
    {
        let n: usize = self.pixels.len();
        let mut out: Vec<u8> = Vec::with_capacity(4 * n);
        let mut i: usize = 0;
        while i < n
            invariant
                n == self.pixels@.len(),
                4 * n <= usize::MAX,
                i <= n,
                out@.len() == 4 * i,
                forall|j: int| 0 <= j < 4 * i ==> out@[j] == bytes_of_pixels(self.pixels@)[j],
            decreases n - i,
        {
            let p: Pixel = self.pixels[i];
            out.push(p.r);
            out.push(p.g);
            out.push(p.b);
            out.push(p.a);
            proof {
                assert forall|j: int| 4 * i <= j < 4 * i + 4 implies out@[j] == bytes_of_pixels(self.pixels@)[j] by {
                    vstd::arithmetic::div_mod::lemma_fundamental_div_mod_converse(j, 4, i as int, j - 4 * i);
                }
            }
            i = i + 1;
        }
        proof {
            assert(out@ =~= bytes_of_pixels(self.pixels@));
        }
        out
    }
}

/// `v` brought into `0..=hi`.
pub fn clamp(v: i64, hi: u32) -> (r: u32)
    ensures
        r as int == clamp_spec(v as int, hi as int),
{
    if v < 0 {
        0
    } else if v > hi as i64 {
        hi
    } else {
        v as u32
    }
}

/// Sampling outside the grid reads the nearest edge pixel of the same row or
/// column, never a pixel of the opposite edge.
pub proof fn lemma_clamping_at_edges(px: Seq<Pixel>, w: int, h: int, x: int, y: int)
    requires
        0 < w,
        0 < h,
    ensures
        x < 0 ==> sample_spec(px, w, h, x, y) == sample_spec(px, w, h, 0, y),
        x >= w ==> sample_spec(px, w, h, x, y) == sample_spec(px, w, h, w - 1, y),
        y < 0 ==> sample_spec(px, w, h, x, y) == sample_spec(px, w, h, x, 0),
        y >= h ==> sample_spec(px, w, h, x, y) == sample_spec(px, w, h, x, h - 1),
        0 <= x < w && 0 <= y < h ==> sample_spec(px, w, h, x, y) == cell(px, w, x, y),
{
}

} // verus!
