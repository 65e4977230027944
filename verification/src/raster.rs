//! Owned rectangular grids of samples, stored row by row.

use vstd::prelude::*;

verus! {

/// The mathematical content of a raster: its dimensions and its samples in
/// row-major order.
pub ghost struct Grid<T> {
    pub width: nat,
    pub height: nat,
    pub samples: Seq<T>,
}

impl<T> Grid<T> {
    /// The sample count matches the dimensions.
    pub open spec fn wf(self) -> bool {
        self.samples.len() == self.width * self.height
    }

    /// Whether `(x, y)` names a sample of the grid.
    pub open spec fn in_bounds(self, x: int, y: int) -> bool {
        0 <= x < self.width && 0 <= y < self.height
    }

    /// The sample in column `x` of row `y`.
    pub open spec fn at(self, x: int, y: int) -> T
        recommends
            self.in_bounds(x, y),
    {
        self.samples[y * self.width + x]
    }

    /// Whether `(x, y)` lies off the outer one-sample ring of the grid.
    pub open spec fn is_interior(self, x: int, y: int) -> bool {
        1 <= x < self.width - 1 && 1 <= y < self.height - 1
    }

    /// The grid with the sample at `(x, y)` replaced by `value`.
    pub open spec fn put(self, x: int, y: int, value: T) -> Grid<T> {
        Grid { width: self.width, height: self.height, samples: self.samples.update(y * self.width + x, value) }
    }

    /// The grid of the given dimensions whose samples are all `value`.
    pub open spec fn filled(width: nat, height: nat, value: T) -> Grid<T> {
        Grid { width, height, samples: Seq::new(width * height, |i: int| value) }
    }

    /// The grid of the given dimensions whose sample at `(x, y)` is `f(x, y)`.
    pub open spec fn tabulate(width: nat, height: nat, f: spec_fn(int, int) -> T) -> Grid<T> {
        Grid {
            width,
            height,
            samples: Seq::new(width * height, |i: int| f(i % (width as int), i / (width as int))),
        }
    }
}

/// The flat position of an in-bounds coordinate is a valid index.
pub proof fn lemma_index_in_range(width: nat, height: nat, x: int, y: int)
    requires
        0 <= x < width,
        0 <= y < height,
    ensures
        0 <= y * width + x < width * height,
        (y * width + x) % (width as int) == x,
        (y * width + x) / (width as int) == y,
{
    assert(y * width + x < width * height) by (nonlinear_arith)
        requires
            0 <= x < width,
            0 <= y < height,
    ;
    assert(0 <= y * width) by (nonlinear_arith)
        requires
            0 <= y,
            0 <= width,
    ;
    vstd::arithmetic::div_mod::lemma_fundamental_div_mod_converse(y * width + x, width as int, y, x);
}

/// Every valid index is the flat position of exactly one in-bounds coordinate.
pub proof fn lemma_index_to_coordinate(width: nat, height: nat, i: int)
    requires
        0 <= i < width * height,
    ensures
        width > 0,
        0 <= i % (width as int) < width,
        0 <= i / (width as int) < height,
        (i / (width as int)) * width + i % (width as int) == i,
{
    assert(width > 0) by (nonlinear_arith)
        requires
            0 <= i < width * height,
    ;
    let w = width as int;
    vstd::arithmetic::div_mod::lemma_fundamental_div_mod(i, w);
    vstd::arithmetic::div_mod::lemma_mod_bound(i, w);
    let q = i / w;
    let r = i % w;
    assert(w * q == q * w) by (nonlinear_arith);
    assert(0 <= q < height) by (nonlinear_arith)
        requires
            0 <= r < w,
            q * w + r == i,
            0 <= i < w * height,
            w > 0,
    ;
}

/// Distinct in-bounds coordinates have distinct flat positions.
pub proof fn lemma_index_injective(width: nat, height: nat, x1: int, y1: int, x2: int, y2: int)
    requires
        0 <= x1 < width,
        0 <= y1 < height,
        0 <= x2 < width,
        0 <= y2 < height,
        y1 * width + x1 == y2 * width + x2,
    ensures
        x1 == x2,
        y1 == y2,
{
    lemma_index_in_range(width, height, x1, y1);
    lemma_index_in_range(width, height, x2, y2);
}

/// Two well-formed grids of equal dimensions that agree at every coordinate
/// are the same grid.
pub proof fn lemma_grid_ext<T>(a: Grid<T>, b: Grid<T>)
    requires
        a.wf(),
        b.wf(),
        a.width == b.width,
        a.height == b.height,
        forall|x: int, y: int| a.in_bounds(x, y) ==> #[trigger] a.at(x, y) == b.at(x, y),
    ensures
        a == b,
{
    assert forall|i: int| 0 <= i < a.samples.len() implies a.samples[i] == b.samples[i] by {
        lemma_index_to_coordinate(a.width, a.height, i);
        let x = i % (a.width as int);
        let y = i / (a.width as int);
        assert(a.at(x, y) == b.at(x, y));
    }
    assert(a.samples =~= b.samples);
}

/// Reading a tabulated grid gives the tabulated function.
pub proof fn lemma_tabulate_at<T>(width: nat, height: nat, f: spec_fn(int, int) -> T, x: int, y: int)
    requires
        0 <= x < width,
        0 <= y < height,
    ensures
        Grid::tabulate(width, height, f).at(x, y) == f(x, y),
        Grid::tabulate(width, height, f).wf(),
{
    lemma_index_in_range(width, height, x, y);
}

/// Every sample of a filled grid is the fill value.
pub proof fn lemma_filled_at<T>(width: nat, height: nat, value: T, x: int, y: int)
    requires
        0 <= x < width,
        0 <= y < height,
    ensures
        Grid::filled(width, height, value).at(x, y) == value,
        Grid::filled(width, height, value).wf(),
{
    lemma_index_in_range(width, height, x, y);
}

/// An owned raster: a flat row-major buffer together with its dimensions.
pub struct Image<T> {
    width: u32,
    height: u32,
    data: Vec<T>,
}

impl<T: Copy> View for Image<T> {
    type V = Grid<T>;

    closed spec fn view(&self) -> Grid<T> {
        Grid { width: self.width as nat, height: self.height as nat, samples: self.data@ }
    }
}

impl<T: Copy> Image<T> {
    /// The buffer length matches the dimensions.
    pub open spec fn wf(&self) -> bool {
        self@.wf()
    }

    /// The dimensions are 32-bit.
    pub proof fn lemma_dimensions(&self)
        ensures
            self@.width <= u32::MAX,
            self@.height <= u32::MAX,
    {
    }

    /// Construct a raster in which every sample is `value`.
    pub fn from_pixel(width: u32, height: u32, value: T) -> (img: Image<T>)
        requires
            width * height <= usize::MAX,
        ensures
            img.wf(),
            img@ == Grid::filled(width as nat, height as nat, value),
    {
        proof {
            assert(0 <= width * height) by (nonlinear_arith)
                requires
                    0 <= width,
                    0 <= height,
            ;
        }
        let n: usize = (width as usize) * (height as usize);
        let mut data: Vec<T> = Vec::with_capacity(n);
        let mut i: usize = 0;
        while i < n
            invariant
                i <= n,
                data@.len() == i,
                forall|k: int| 0 <= k < i ==> data@[k] == value,
            decreases n - i,
        {
            data.push(value);
            i = i + 1;
        }
        let img = Image { width, height, data };
        proof {
            assert(img@.samples =~= Grid::filled(width as nat, height as nat, value).samples);
        }
        img
    }

    /// Construct a raster of the dimensions of `self` in which every sample
    /// is `value`.
    pub fn filled_like<U: Copy>(&self, value: U) -> (img: Image<U>)
        requires
            self.wf(),
        ensures
            img.wf(),
            img@ == Grid::filled(self@.width, self@.height, value),
    {
        let len: usize = self.data.len();
        proof {
            assert(len == self.width * self.height);
        }
        Image::from_pixel(self.width, self.height, value)
    }

    /// Construct a raster from a row-major buffer; `None` when the buffer
    /// length does not match the dimensions.
    pub fn from_raw(width: u32, height: u32, data: Vec<T>) -> (img: Option<Image<T>>)
        ensures
            img.is_some() <==> data@.len() == width * height,
            img.is_some() ==> img.unwrap().wf() && img.unwrap()@ == (Grid {
                width: width as nat,
                height: height as nat,
                samples: data@,
            }),
    {
        proof {
            assert(0 <= width * height <= 0xffff_ffff * 0xffff_ffff) by (nonlinear_arith)
                requires
                    0 <= width <= 0xffff_ffff,
                    0 <= height <= 0xffff_ffff,
            ;
        }
        let expected: u64 = (width as u64) * (height as u64);
        if data.len() as u64 == expected {
            Some(Image { width, height, data })
        } else {
            None
        }
    }

    /// The samples in row-major order.
    pub fn into_raw(self) -> (data: Vec<T>)
        ensures
            data@ == self@.samples,
    {
        self.data
    }

    /// Number of columns.
    pub fn width(&self) -> (w: u32)
        ensures
            w == self@.width,
    {
        self.width
    }

    /// Number of rows.
    pub fn height(&self) -> (h: u32)
        ensures
            h == self@.height,
    {
        self.height
    }

    /// Read the sample at `(x, y)`.
    pub fn get_pixel(&self, x: u32, y: u32) -> (value: T)
        requires
            self.wf(),
            self@.in_bounds(x as int, y as int),
        ensures
            value == self@.at(x as int, y as int),
    {
        let len: usize = self.data.len();
        proof {
            lemma_index_in_range(self.width as nat, self.height as nat, x as int, y as int);
            assert(0 <= y * self.width) by (nonlinear_arith)
                requires
                    0 <= y,
                    0 <= self.width,
            ;
            assert(len == self.width * self.height);
        }
        let i: usize = (y as usize) * (self.width as usize) + (x as usize);
        self.data[i]
    }

    /// Read the sample at `(x, y)`, or `None` outside the raster.
    pub fn get_pixel_checked(&self, x: u32, y: u32) -> (value: Option<T>)
        requires
            self.wf(),
        ensures
            value == if self@.in_bounds(x as int, y as int) {
                Some(self@.at(x as int, y as int))
            } else {
                None
            },
    {
        if x < self.width && y < self.height {
            Some(self.get_pixel(x, y))
        } else {
            None
        }
    }

    /// A copy of the raster.
    pub fn duplicate(&self) -> (img: Image<T>)
        requires
            self.wf(),
        ensures
            img.wf(),
            img@ == self@,
    {
        let n: usize = self.data.len();
        let mut data: Vec<T> = Vec::with_capacity(n);
        let mut i: usize = 0;
        while i < n
            invariant
                n == self.data@.len(),
                i <= n,
                data@.len() == i,
                forall|k: int| 0 <= k < i ==> data@[k] == self.data@[k],
            decreases n - i,
        {
            data.push(self.data[i]);
            i = i + 1;
        }
        proof {
            assert(data@ =~= self.data@);
        }
        Image { width: self.width, height: self.height, data }
    }

    /// Number of samples.
    pub fn len(&self) -> (n: usize)
        requires
            self.wf(),
        ensures
            n == self@.samples.len(),
            n == self@.width * self@.height,
    {
        self.data.len()
    }

    /// Read the sample at position `i` of the row-major order.
    pub fn get(&self, i: usize) -> (value: T)
        requires
            i < self@.samples.len(),
        ensures
            value == self@.samples[i as int],
    {
        self.data[i]
    }

    /// Overwrite the sample at position `i` of the row-major order.
    pub fn set(&mut self, i: usize, value: T)
        requires
            i < old(self)@.samples.len(),
        ensures
            final(self)@ == (Grid {
                width: old(self)@.width,
                height: old(self)@.height,
                samples: old(self)@.samples.update(i as int, value),
            }),
    {
        self.data.set(i, value);
    }

    /// Overwrite the sample at `(x, y)`.
    pub fn put_pixel(&mut self, x: u32, y: u32, value: T)
        requires
            old(self).wf(),
            old(self)@.in_bounds(x as int, y as int),
        ensures
            final(self).wf(),
            final(self)@ == old(self)@.put(x as int, y as int, value),
    {
        let len: usize = self.data.len();
        proof {
            lemma_index_in_range(self.width as nat, self.height as nat, x as int, y as int);
            assert(0 <= y * self.width) by (nonlinear_arith)
                requires
                    0 <= y,
                    0 <= self.width,
            ;
            assert(len == self.width * self.height);
        }
        let i: usize = (y as usize) * (self.width as usize) + (x as usize);
        self.data.set(i, value);
    }
}

/// Writing one sample changes that sample and no other.
pub proof fn lemma_put_at<T>(g: Grid<T>, x: int, y: int, value: T, u: int, v: int)
    requires
        g.wf(),
        g.in_bounds(x, y),
        g.in_bounds(u, v),
    ensures
        g.put(x, y, value).wf(),
        g.put(x, y, value).at(u, v) == if u == x && v == y {
            value
        } else {
            g.at(u, v)
        },
{
    lemma_index_in_range(g.width, g.height, x, y);
    lemma_index_in_range(g.width, g.height, u, v);
    if !(u == x && v == y) {
        if y * g.width + x == v * g.width + u {
            lemma_index_injective(g.width, g.height, x, y, u, v);
        }
    }
}

/// Number of samples of `s` equal to `value`.
pub open spec fn count(s: Seq<u8>, value: u8) -> nat
    decreases s.len(),
{
    if s.len() == 0 {
        0
    } else {
        count(s.drop_last(), value) + if s.last() == value {
            1nat
        } else {
            0nat
        }
    }
}

/// Replacing one sample changes the count by what leaves and what arrives.
pub proof fn lemma_count_update(s: Seq<u8>, i: int, a: u8, value: u8)
    requires
        0 <= i < s.len(),
    ensures
        count(s.update(i, a), value) + (if s[i] == value { 1nat } else { 0nat }) == count(s, value) + (if a == value { 1nat } else { 0nat }),
    decreases s.len(),
{
    let s2 = s.update(i, a);
    if i == s.len() - 1 {
        assert(s2.drop_last() =~= s.drop_last());
    } else {
        assert(s2.drop_last() =~= s.drop_last().update(i, a));
        lemma_count_update(s.drop_last(), i, a, value);
    }
}

/// Where one sequence holds `value`, the other does too: then the other
/// holds it at least as often.
pub proof fn lemma_count_monotone(a: Seq<u8>, b: Seq<u8>, value: u8)
    requires
        a.len() == b.len(),
        forall|i: int| 0 <= i < a.len() && a[i] == value ==> b[i] == value,
    ensures
        count(a, value) <= count(b, value),
    decreases a.len(),
{
    if a.len() > 0 {
        lemma_count_monotone(a.drop_last(), b.drop_last(), value);
    }
}

} // verus!
