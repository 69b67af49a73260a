use vstd::prelude::*;
use vstd::arithmetic::div_mod::lemma_fundamental_div_mod_converse;

verus! {

/// An 8-bit RGB color.
#[derive(Clone, Copy, Debug, Default, PartialEq, Eq, Structural)]
pub struct Pixel {
    pub r: u8,
    pub g: u8,
    pub b: u8,
}

impl Pixel {
    pub fn new(r: u8, g: u8, b: u8) -> (p: Pixel)
        ensures
            p == (Pixel { r, g, b }),
    {
        Pixel { r, g, b }
    }
}

/// `v` moved into `0..n`: the nearest of `0` and `n - 1` when outside.
pub open spec fn clamp(v: int, n: int) -> int {
    if v < 0 {
        0
    } else if v >= n {
        n - 1
    } else {
        v
    }
}

/// An RGB raster: `width * height` pixels, row-major, three bytes each.
#[derive(Clone, Debug)]
pub struct Picture {
    pub width: u32,
    pub height: u32,
    pub data: Vec<u8>,
}

impl View for Picture {
    type V = Seq<u8>;

    open spec fn view(&self) -> Seq<u8> {
        self.data@
    }
}

impl Picture {
    /// The stored bytes cover every pixel.
    pub open spec fn wf(&self) -> bool {
        3 * self.width * self.height <= self@.len()
    }

    pub open spec fn in_bounds(&self, x: int, y: int) -> bool {
        0 <= x < self.width && 0 <= y < self.height
    }

    /// Position of the red byte of pixel `(x, y)`.
    pub open spec fn index_of(&self, x: int, y: int) -> int {
        3 * (y * self.width + x)
    }

    pub open spec fn pixel_at(&self, x: int, y: int) -> Pixel {
        let i = self.index_of(x, y);
        Pixel { r: self@[i], g: self@[i + 1], b: self@[i + 2] }
    }

    /// The pixels around `(x, y)` that a filter of half-width `step`
    /// reads, row by row: the square from `step` before to `step - 1`
    /// after the position on each axis, with positions past an edge
    /// taken from the edge.
    pub open spec fn kernel(&self, x: int, y: int, step: int) -> Seq<Pixel> {
        Seq::new(
            (4 * step * step) as nat,
            |k: int|
                self.pixel_at(
                    clamp(x + k % (2 * step) - step, self.width as int),
                    clamp(y + k / (2 * step) - step, self.height as int),
                ),
        )
    }

    proof fn lemma_index_in_range(&self, x: int, y: int)
        requires
            self.in_bounds(x, y),
        ensures
            0 <= y * self.width,
            0 <= self.index_of(x, y),
            self.index_of(x, y) + 3 <= 3 * self.width * self.height,
    {
        let w = self.width as int;
        let h = self.height as int;
        assert(0 <= y * w) by (nonlinear_arith)
            requires
                0 <= y,
                0 <= w,
        ;
        assert(y * w + x + 1 <= h * w) by (nonlinear_arith)
            requires
                0 <= x < w,
                0 <= y < h,
        ;
        assert(3 * (y * w + x) + 3 <= 3 * w * h) by (nonlinear_arith)
            requires
                0 <= x < w,
                0 <= y < h,
        ;
    }

    proof fn lemma_index_distinct(&self, x: int, y: int, x2: int, y2: int)
        requires
            self.in_bounds(x, y),
            self.in_bounds(x2, y2),
            x != x2 || y != y2,
        ensures
            self.index_of(x, y) + 3 <= self.index_of(x2, y2) || self.index_of(x2, y2) + 3
                <= self.index_of(x, y),
    {
        let w = self.width as int;
        if y == y2 {
        } else if y < y2 {
            assert(y * w + x < y2 * w + x2) by (nonlinear_arith)
                requires
                    y < y2,
                    0 <= x < w,
                    0 <= x2,
            ;
        } else {
            assert(y2 * w + x2 < y * w + x) by (nonlinear_arith)
                requires
                    y2 < y,
                    0 <= x2 < w,
                    0 <= x,
            ;
        }
    }

    /// Takes a raster of `width * height` pixels from `data`, row-major,
    /// three bytes per pixel; bytes past the last pixel are kept but never
    /// read.
    pub fn new(width: u32, height: u32, data: Vec<u8>) -> (p: Picture)
        requires
            3 * width * height <= data@.len(),
        ensures
            p.wf(),
            p.width == width,
            p.height == height,
            p@ == data@,
    {
        Picture { width, height, data }
    }

    /// A black raster of the given size.
    pub fn empty(width: u32, height: u32) -> (p: Picture)
        requires
            3 * width * height <= usize::MAX,
        ensures
            p.wf(),
            p.width == width,
            p.height == height,
            p@ == Seq::new((3 * width * height) as nat, |i: int| 0u8),
            forall|x: int, y: int|
                p.in_bounds(x, y) ==> #[trigger] p.pixel_at(x, y) == (Pixel { r: 0, g: 0, b: 0 }),
    {
        assert((width as int) * (height as int) <= 3 * width * height) by (nonlinear_arith);
        assert(3 * ((width as int) * (height as int)) == 3 * width * height) by (nonlinear_arith);
        let n = 3 * ((width as usize) * (height as usize));
        assert(n == 3 * width * height) by (nonlinear_arith)
            requires
                n == 3 * ((width as int) * (height as int)),
        ;
        let data = vec![0u8; n];
        let p = Picture { width, height, data };
        assert(p@ =~= Seq::new((3 * width * height) as nat, |i: int| 0u8));
        assert forall|x: int, y: int| p.in_bounds(x, y) implies #[trigger] p.pixel_at(x, y)
            == (Pixel { r: 0, g: 0, b: 0 }) by {
            p.lemma_index_in_range(x, y);
        }
        p
    }

    /// The stored bytes.
    pub fn to_bytes(&self) -> (r: Vec<u8>)
        ensures
            r@ == self@,
    {
        let r = self.data.clone();
        assert(r@ =~= self@);
        r
    }

    /// Position in the stored bytes of the red channel of pixel `(x, y)`.
    pub fn get_first_index(&self, x: u32, y: u32) -> (i: usize)
        requires
            self.wf(),
            self.in_bounds(x as int, y as int),
        ensures
            i == self.index_of(x as int, y as int),
            i + 3 <= self@.len(),
            self@.len() <= usize::MAX,
    {
        let len = self.data.len();
        proof {
            self.lemma_index_in_range(x as int, y as int);
            assert(len == self@.len());
        }
        3 * ((y as usize) * (self.width as usize) + (x as usize))
    }

    pub fn get_pixel(&self, pos: (u32, u32)) -> (p: Pixel)
        requires
            self.wf(),
            self.in_bounds(pos.0 as int, pos.1 as int),
        ensures
            p == self.pixel_at(pos.0 as int, pos.1 as int),
    {
        let index = self.get_first_index(pos.0, pos.1);
        Pixel::new(self.data[index], self.data[index + 1], self.data[index + 2])
    }

    /// The pixel nearest to `(x, y)` inside the raster: coordinates past
    /// the last column or row read that column or row.
    pub fn get_pixel_clamped(&self, x: u64, y: u64) -> (p: Pixel)
        requires
            self.wf(),
            self.width > 0,
            self.height > 0,
        ensures
            p == self.pixel_at(clamp(x as int, self.width as int), clamp(y as int, self.height as int)),
    {
        let cx: u32 = if x >= self.width as u64 {
            self.width - 1
        } else {
            x as u32
        };
        let cy: u32 = if y >= self.height as u64 {
            self.height - 1
        } else {
            y as u32
        };
        self.get_pixel((cx, cy))
    }

    pub fn set_pixel(&mut self, x: u32, y: u32, color: Pixel)
        requires
            old(self).wf(),
            old(self).in_bounds(x as int, y as int),
        ensures
            final(self).wf(),
            final(self).width == old(self).width,
            final(self).height == old(self).height,
            final(self)@.len() == old(self)@.len(),
            final(self).pixel_at(x as int, y as int) == color,
            forall|x2: int, y2: int|
                final(self).in_bounds(x2, y2) && (x2 != x || y2 != y) ==> #[trigger] final(self).pixel_at(x2, y2)
                    == old(self).pixel_at(x2, y2),
    {
        let index = self.get_first_index(x, y);
        let ghost before = *self;
        self.data.set(index, color.r);
        self.data.set(index + 1, color.g);
        self.data.set(index + 2, color.b);
        proof {
            assert forall|x2: int, y2: int|
                self.in_bounds(x2, y2) && (x2 != x || y2 != y) implies #[trigger] self.pixel_at(
                x2,
                y2,
            ) == before.pixel_at(x2, y2) by {
                self.lemma_index_distinct(x as int, y as int, x2, y2);
                self.lemma_index_in_range(x2, y2);
            }
        }
    }

    /// The pixels around `pos` that a filter of half-width `step` reads,
    /// as `kernel` gives them.
    pub fn get_kernel(&self, pos: (u32, u32), step: u32) -> (k: Vec<Pixel>)
        requires
            self.wf(),
            self.in_bounds(pos.0 as int, pos.1 as int),
        ensures
            k@ == self.kernel(pos.0 as int, pos.1 as int, step as int),
    {
        let ghost spec_kernel = self.kernel(pos.0 as int, pos.1 as int, step as int);
        let ghost s = step as int;
        let mut pixies: Vec<Pixel> = Vec::new();
        let last_x: i64 = self.width as i64 - 1;
        let last_y: i64 = self.height as i64 - 1;
        let mut dy: i64 = -(step as i64);
        assert((dy + s) * (2 * s) == 0) by (nonlinear_arith)
            requires
                dy + s == 0,
        ;
        while dy < step as i64
            invariant
                self.wf(),
                self.in_bounds(pos.0 as int, pos.1 as int),
                spec_kernel == self.kernel(pos.0 as int, pos.1 as int, s),
                s == step,
                last_x == self.width - 1,
                last_y == self.height - 1,
                -s <= dy <= s,
                pixies@.len() == (dy + s) * (2 * s),
                forall|k: int| 0 <= k < pixies@.len() ==> pixies@[k] == spec_kernel[k],
            decreases step as i64 - dy,
        {
            let mut dx: i64 = -(step as i64);
            while dx < step as i64
                invariant
                    self.wf(),
                    self.in_bounds(pos.0 as int, pos.1 as int),
                    spec_kernel == self.kernel(pos.0 as int, pos.1 as int, s),
                    s == step,
                    last_x == self.width - 1,
                    last_y == self.height - 1,
                    -s <= dy < s,
                    -s <= dx <= s,
                    pixies@.len() == (dy + s) * (2 * s) + (dx + s),
                    forall|k: int| 0 <= k < pixies@.len() ==> pixies@[k] == spec_kernel[k],
                decreases step as i64 - dx,
            {
                let px: i64 = pos.0 as i64 + dx;
                let py: i64 = pos.1 as i64 + dy;
                let cx: i64 = if px < 0 {
                    0
                } else if px > last_x {
                    last_x
                } else {
                    px
                };
                let cy: i64 = if py < 0 {
                    0
                } else if py > last_y {
                    last_y
                } else {
                    py
                };
                let pix = self.get_pixel((cx as u32, cy as u32));
                proof {
                    let k = (dy + s) * (2 * s) + (dx + s);
                    lemma_fundamental_div_mod_converse(k, 2 * s, dy + s, dx + s);
                    assert(4 * s * s == (2 * s) * (2 * s)) by (nonlinear_arith);
                    assert(k < (2 * s) * (2 * s)) by (nonlinear_arith)
                        requires
                            k == (dy + s) * (2 * s) + (dx + s),
                            0 <= dy + s < 2 * s,
                            0 <= dx + s < 2 * s,
                    ;
                    assert(pix == spec_kernel[k]);
                }
                pixies.push(pix);
                dx += 1;
            }
            proof {
                assert((dy + s) * (2 * s) + 2 * s == (dy + 1 + s) * (2 * s)) by (nonlinear_arith);
            }
            dy += 1;
        }
        proof {
            assert(4 * s * s == (2 * s) * (2 * s)) by (nonlinear_arith);
            assert(pixies@ =~= spec_kernel);
        }
        pixies
    }

    /// A raster of the given size whose pixel `(x, y)` is what `f` gives
    /// for it.
    fn from_fn<F: Fn(u32, u32) -> Pixel>(width: u32, height: u32, f: &F) -> (p: Picture)
        requires
            3 * width * height <= usize::MAX,
            forall|x: u32, y: u32| x < width && y < height ==> #[trigger] f.requires((x, y)),
        ensures
            p.wf(),
            p.width == width,
            p.height == height,
            forall|x: u32, y: u32|
                x < width && y < height ==> f.ensures((x, y), #[trigger] p.pixel_at(x as int, y as int)),
    {
        let mut p = Picture::empty(width, height);
        let mut y: u32 = 0;
        while y < height
            invariant
                forall|x: u32, y: u32| x < width && y < height ==> #[trigger] f.requires((x, y)),
                p.wf(),
                p.width == width,
                p.height == height,
                y <= height,
                forall|x2: u32, y2: u32|
                    x2 < width && y2 < y ==> f.ensures((x2, y2), #[trigger] p.pixel_at(x2 as int, y2 as int)),
            decreases height - y,
        {
            let mut x: u32 = 0;
            while x < width
                invariant
                    forall|x: u32, y: u32| x < width && y < height ==> #[trigger] f.requires((x, y)),
                    p.wf(),
                    p.width == width,
                    p.height == height,
                    y < height,
                    x <= width,
                    forall|x2: u32, y2: u32|
                        x2 < width && (y2 < y || (y2 == y && x2 < x)) ==> f.ensures(
                            (x2, y2),
                            #[trigger] p.pixel_at(x2 as int, y2 as int),
                        ),
                decreases width - x,
            {
                let c = f(x, y);
                let ghost before = p;
                p.set_pixel(x, y, c);
                proof {
                    assert forall|x2: u32, y2: u32|
                        x2 < width && (y2 < y || (y2 == y && x2 < x + 1)) implies f.ensures(
                        (x2, y2),
                        #[trigger] p.pixel_at(x2 as int, y2 as int),
                    ) by {
                        if x2 != x || y2 != y {
                            assert(p.pixel_at(x2 as int, y2 as int) == before.pixel_at(x2 as int, y2 as int));
                        }
                    }
                }
                x += 1;
            }
            y += 1;
        }
        p
    }

    /// Box blur: each pixel becomes `avg` of its `kernel` of half-width
    /// `step`.
    pub fn blur<F: Fn(&Vec<Pixel>) -> Pixel>(&self, step: u32, avg: &F) -> (r: Picture)
        requires
            self.wf(),
            forall|v: &Vec<Pixel>| #[trigger] avg.requires((v,)),
        ensures
            r.wf(),
            r.width == self.width,
            r.height == self.height,
            forall|x: int, y: int|
                #![trigger r.pixel_at(x, y)]
                self.in_bounds(x, y) ==> exists|v: Vec<Pixel>|
                    v@ == self.kernel(x, y, step as int) && #[trigger] avg.ensures((&v,), r.pixel_at(x, y)),
    {
        let len = self.data.len();
        assert(len == self@.len());
        let f = |x: u32, y: u32| -> (p: Pixel)
            requires
                self.in_bounds(x as int, y as int),
            ensures
                exists|v: Vec<Pixel>|
                    v@ == self.kernel(x as int, y as int, step as int) && #[trigger] avg.ensures((&v,), p),
            {
                let k = self.get_kernel((x, y), step);
                let p = avg(&k);
                assert(k@ == self.kernel(x as int, y as int, step as int) && avg.ensures((&k,), p));
                p
            };
        let r = Picture::from_fn(self.width, self.height, &f);
        assert forall|x: int, y: int| self.in_bounds(x, y) implies exists|v: Vec<Pixel>|
            v@ == self.kernel(x, y, step as int) && #[trigger] avg.ensures((&v,), r.pixel_at(x, y)) by {
            assert(f.ensures((x as u32, y as u32), r.pixel_at(x, y)));
        }
        r
    }

    /// Noise removal: a pixel that `is_noise` flags against its `kernel` of
    /// half-width `radius` is replaced by `avg` of its kernel of half-width
    /// `NOISE_FILL_STEP`; every other pixel is kept.
    pub fn denoise<FN, FA>(&self, radius: u32, is_noise: &FN, avg: &FA) -> (r: Picture) where
        FN: Fn(&Pixel, &Vec<Pixel>) -> bool,
        FA: Fn(&Vec<Pixel>) -> Pixel,

        requires
            self.wf(),
            forall|p: &Pixel, v: &Vec<Pixel>| #[trigger] is_noise.requires((p, v)),
            forall|v: &Vec<Pixel>| #[trigger] avg.requires((v,)),
        ensures
            r.wf(),
            r.width == self.width,
            r.height == self.height,
            forall|x: int, y: int|
                #![trigger r.pixel_at(x, y)]
                self.in_bounds(x, y) ==> self.denoised(is_noise, avg, x, y, radius as int, r.pixel_at(x, y)),
    {
        let len = self.data.len();
        assert(len == self@.len());
        let f = |x: u32, y: u32| -> (p: Pixel)
            requires
                self.in_bounds(x as int, y as int),
            ensures
                self.denoised(is_noise, avg, x as int, y as int, radius as int, p),
            {
                let here = self.get_pixel((x, y));
                let around = self.get_kernel((x, y), radius);
                let noisy = is_noise(&here, &around);
                if noisy {
                    let fill = self.get_kernel((x, y), NOISE_FILL_STEP);
                    let p = avg(&fill);
                    assert(avg.ensures((&fill,), p));
                    assert(is_noise.ensures((&self.pixel_at(x as int, y as int), &around), noisy));
                    p
                } else {
                    assert(is_noise.ensures((&self.pixel_at(x as int, y as int), &around), noisy));
                    here
                }
            };
        let r = Picture::from_fn(self.width, self.height, &f);
        assert forall|x: int, y: int| self.in_bounds(x, y) implies #[trigger] self.denoised(
            is_noise,
            avg,
            x,
            y,
            radius as int,
            r.pixel_at(x, y),
        ) by {
            assert(f.ensures((x as u32, y as u32), r.pixel_at(x, y)));
        }
        r
    }

    /// `out` is a value that `denoise` may give to pixel `(x, y)`.
    pub open spec fn denoised<FN, FA>(
        &self,
        is_noise: &FN,
        avg: &FA,
        x: int,
        y: int,
        radius: int,
        out: Pixel,
    ) -> bool where
        FN: Fn(&Pixel, &Vec<Pixel>) -> bool,
        FA: Fn(&Vec<Pixel>) -> Pixel,
     {
        exists|around: Vec<Pixel>, noisy: bool|
            #![trigger is_noise.ensures((&self.pixel_at(x, y), &around), noisy)]
            around@ == self.kernel(x, y, radius) && is_noise.ensures(
                (&self.pixel_at(x, y), &around),
                noisy,
            ) && if noisy {
                exists|fill: Vec<Pixel>|
                    fill@ == self.kernel(x, y, NOISE_FILL_STEP as int) && #[trigger] avg.ensures(
                        (&fill,),
                        out,
                    )
            } else {
                out == self.pixel_at(x, y)
            }
    }
}

/// Half-width of the kernel whose average replaces a noisy pixel.
pub const NOISE_FILL_STEP: u32 = 4;

} // verus!
