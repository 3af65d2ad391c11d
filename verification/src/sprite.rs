use vstd::prelude::*;

use crate::idx;

verus! {

// Pixels are stored row by row, four bytes (red, green, blue, alpha) each.
/// The column of the pixel that byte `i` belongs to, in an image `w` pixels wide.
pub open spec fn px_x(i: int, w: int) -> int {
    (i / 4) % w
}

/// The row of the pixel that byte `i` belongs to, in an image `w` pixels wide.
pub open spec fn px_y(i: int, w: int) -> int {
    (i / 4) / w
}

/// Byte `c` of pixel `(x, y)` of an image `w` pixels wide.
pub open spec fn byte_at(s: Seq<u8>, w: int, x: int, y: int, c: int) -> u8 {
    s[(y * w + x) * 4 + c]
}

/// Where byte `c` of pixel `(x, y)` lies, read back.
pub proof fn lemma_coords(x: int, y: int, c: int, w: int)
    requires
        0 <= x < w,
        0 <= y,
        0 <= c < 4,
    ensures
        ((y * w + x) * 4 + c) / 4 == y * w + x,
        ((y * w + x) * 4 + c) % 4 == c,
        px_x((y * w + x) * 4 + c, w) == x,
        px_y((y * w + x) * 4 + c, w) == y,
{
    let j = (y * w + x) * 4 + c;
    vstd::arithmetic::div_mod::lemma_fundamental_div_mod_converse(j, 4, y * w + x, c);
    vstd::arithmetic::div_mod::lemma_fundamental_div_mod_converse(y * w + x, w, y, x);
}

/// Every byte of a `w` by `h` image belongs to a pixel of the image.
pub proof fn lemma_pixel_coords(i: int, w: int, h: int)
    requires
        0 <= i < w * h * 4,
        0 <= w,
        0 <= h,
    ensures
        0 < w,
        0 <= px_x(i, w) < w,
        0 <= px_y(i, w) < h,
        0 <= i % 4 < 4,
        i == (px_y(i, w) * w + px_x(i, w)) * 4 + i % 4,
{
    assert(w > 0) by (nonlinear_arith)
        requires
            0 <= i < w * h * 4,
            0 <= w,
            0 <= h,
    ;
    vstd::arithmetic::div_mod::lemma_fundamental_div_mod(i, 4);
    vstd::arithmetic::div_mod::lemma_fundamental_div_mod(i / 4, w);
    let p = i / 4;
    let x = p % w;
    let y = p / w;
    assert(0 <= p);
    assert(0 <= y < h) by (nonlinear_arith)
        requires
            i == 4 * p + i % 4,
            0 <= i % 4 < 4,
            p == w * y + x,
            0 <= x < w,
            0 <= p,
            i < w * h * 4,
    ;
    assert(i == (y * w + x) * 4 + i % 4) by (nonlinear_arith)
        requires
            i == 4 * p + i % 4,
            p == w * y + x,
    ;
}

/// Byte `c` of a pixel inside a `w` by `h` image lies inside the image.
pub proof fn lemma_index_in_bounds(x: int, y: int, c: int, w: int, h: int)
    requires
        0 <= x < w,
        0 <= y < h,
        0 <= c < 4,
    ensures
        0 <= (y * w + x) * 4 + c < w * h * 4,
        y * w + x < w * h,
{
    assert(0 <= (y * w + x) * 4 + c < w * h * 4 && y * w + x < w * h) by (nonlinear_arith)
        requires
            0 <= x < w,
            0 <= y < h,
            0 <= c < 4,
    ;
}

/// A width and a height, in pixels.
#[derive(Clone, Copy, Debug, PartialEq, Eq, Structural)]
pub struct Size {
    pub x: u32,
    pub y: u32,
}

/// An RGBA image: `size.x` pixels wide, `size.y` pixels high.
#[derive(Clone)]
pub struct Sprite {
    pub pixels: Vec<u8>,
    pub size: Size,
}

impl Sprite {
    /// The pixel buffer holds exactly four bytes per pixel.
    pub open spec fn wf(&self) -> bool {
        self.pixels@.len() == self.size.x * self.size.y * 4
    }

    pub fn new(pixels: Vec<u8>, size: Size) -> (s: Sprite)
        ensures
            s.pixels@ == pixels@,
            s.size == size,
    {
        Sprite { pixels, size }
    }
}

/// The image `w` pixels wide made of the pixels `(columns[x], rows[y])` of
/// `s`, which is `w` pixels wide.
pub open spec fn scaled_pixels(
    s: Seq<u8>,
    w: int,
    size: Size,
    columns: Seq<u32>,
    rows: Seq<u32>,
) -> Seq<u8> {
    Seq::new(
        (size.x * size.y * 4) as nat,
        |i: int|
            byte_at(
                s,
                w,
                columns[px_x(i, size.x as int)] as int,
                rows[px_y(i, size.x as int)] as int,
                i % 4,
            ),
    )
}

/// The `m` by `m` image with the `w` by `h` image `s` in its centre (the
/// margins rounded down) and transparent black around it.
pub open spec fn padded(s: Seq<u8>, w: int, h: int, m: int) -> Seq<u8> {
    Seq::new(
        (m * m * 4) as nat,
        |i: int|
            {
                let x = px_x(i, m);
                let y = px_y(i, m);
                let mx = (m - w) / 2;
                let my = (m - h) / 2;
                if mx <= x < mx + w && my <= y < my + h {
                    byte_at(s, w, x - mx, y - my, i % 4)
                } else {
                    0
                }
            },
    )
}

/// The `m` by `m` image `s` turned a quarter turn clockwise: the pixel at
/// `(x, y)` moves to `(m - 1 - y, x)`.
pub open spec fn quarter_turned(s: Seq<u8>, m: int) -> Seq<u8> {
    Seq::new(s.len(), |i: int| byte_at(s, m, px_y(i, m), m - 1 - px_x(i, m), i % 4))
}

/// The `m` by `m` image `s` turned `n` quarter turns clockwise.
pub open spec fn turned_pixels(s: Seq<u8>, m: int, n: nat) -> Seq<u8>
    decreases n,
{
    if n == 0 {
        s
    } else {
        quarter_turned(turned_pixels(s, m, (n - 1) as nat), m)
    }
}

/// Where position `p` of a line of `m` pixels, shifted by `o`, takes its
/// pixel from: `p - o` when that lies on the line; otherwise nothing
/// (`-1`, a cleared pixel) when the pixel at `p` itself moved away, and `p`
/// when it stayed.
pub open spec fn shear_source(p: int, o: int, m: int) -> int {
    if 0 <= p - o < m {
        p - o
    } else if 0 <= p + o < m {
        -1
    } else {
        p
    }
}

/// Every row `y` of the `m` by `m` image shifted by `shifts[y]` pixels.
pub open spec fn sheared_rows(s: Seq<u8>, m: int, shifts: Seq<i32>) -> Seq<u8> {
    Seq::new(
        s.len(),
        |i: int|
            {
                let x = px_x(i, m);
                let y = px_y(i, m);
                let src = shear_source(x, shifts[y] as int, m);
                if src < 0 {
                    0
                } else {
                    byte_at(s, m, src, y, i % 4)
                }
            },
    )
}

/// Every column `x` of the `m` by `m` image shifted by `shifts[x]` pixels.
pub open spec fn sheared_columns(s: Seq<u8>, m: int, shifts: Seq<i32>) -> Seq<u8> {
    Seq::new(
        s.len(),
        |i: int|
            {
                let x = px_x(i, m);
                let y = px_y(i, m);
                let src = shear_source(y, shifts[x] as int, m);
                if src < 0 {
                    0
                } else {
                    byte_at(s, m, x, src, i % 4)
                }
            },
    )
}

/// The `nw` by `nh` image cut from the centre of the `m` by `m` image `s`.
pub open spec fn cropped(s: Seq<u8>, m: int, nw: int, nh: int) -> Seq<u8> {
    Seq::new(
        (nw * nh * 4) as nat,
        |i: int| byte_at(s, m, px_x(i, nw) + (m - nw) / 2, px_y(i, nw) + (m - nh) / 2, i % 4),
    )
}

/// The `m` by `m` image with the `w` by `h` image `s` padded in, turned
/// `right_angles` quarter turns, sheared by rows, columns and rows again,
/// and cut down to `nw` by `nh`.
pub open spec fn rotated_pixels(
    s: Seq<u8>,
    w: int,
    h: int,
    right_angles: int,
    m: int,
    nw: int,
    nh: int,
    row_shifts: Seq<i32>,
    column_shifts: Seq<i32>,
) -> Seq<u8> {
    let n: nat = if right_angles > 0 {
        right_angles as nat
    } else {
        0
    };
    cropped(
        sheared_rows(
            sheared_columns(
                sheared_rows(turned_pixels(padded(s, w, h, m), m, n), m, row_shifts),
                m,
                column_shifts,
            ),
            m,
            row_shifts,
        ),
        m,
        nw,
        nh,
    )
}

/// How a sprite is turned by an angle, worked out beforehand: whole
/// quarter turns, then three shears (rows, columns, rows) on a square
/// canvas `max_width` pixels wide, then a cut to `new_size`.
pub struct RotationPlan {
    pub right_angles: i32,
    pub new_size: Size,
    pub max_width: u32,
    /// The shift of each row of the canvas, for both row shears.
    pub row_shifts: Vec<i32>,
    /// The shift of each column of the canvas.
    pub column_shifts: Vec<i32>,
}

impl RotationPlan {
    /// The canvas holds the sprite and the result, fits `u32` indexing, and
    /// every row and column has a shift that keeps positions in `i32`.
    pub open spec fn fits(&self, size: Size) -> bool {
        &&& self.max_width >= size.x
        &&& self.max_width >= size.y
        &&& self.max_width >= self.new_size.x
        &&& self.max_width >= self.new_size.y
        &&& self.max_width * self.max_width <= u32::MAX
        &&& self.max_width * self.max_width * 4 <= usize::MAX
        &&& self.row_shifts@.len() == self.max_width
        &&& self.column_shifts@.len() == self.max_width
        &&& forall|k: int|
            0 <= k < self.max_width ==> #[trigger] self.row_shifts@[k] + (self.max_width - 1)
                <= i32::MAX
        &&& forall|k: int|
            0 <= k < self.max_width ==> #[trigger] self.column_shifts@[k] + (self.max_width - 1)
                <= i32::MAX
    }
}

fn pad(s: &Vec<u8>, w: usize, h: usize, m: usize) -> (r: Vec<u8>)
    requires
        s@.len() == w * h * 4,
        w <= m,
        h <= m,
        m * m * 4 <= usize::MAX,
    ensures
        r@ == padded(s@, w as int, h as int, m as int),
{
    let s_len = s.len();
    let total = m * m * 4;
    let margin_x = (m - w) / 2;
    let margin_y = (m - h) / 2;
    let mut r: Vec<u8> = Vec::with_capacity(total);
    let mut i: usize = 0;
    while i < total
        invariant
            total == m * m * 4,
            s_len == s@.len(),
            margin_x == (m - w) / 2,
            margin_y == (m - h) / 2,
            s@.len() == w * h * 4,
            w <= m,
            h <= m,
            i <= total,
            r@.len() == i,
            forall|j: int| 0 <= j < i ==> r@[j] == #[trigger] padded(s@, w as int, h as int, m as int)[j],
        decreases total - i,
    {
        proof {
            lemma_pixel_coords(i as int, m as int, m as int);
        }
        let p = i / 4;
        let c = i % 4;
        let x = p % m;
        let y = p / m;
        let v = if margin_x <= x && x < margin_x + w && margin_y <= y && y < margin_y + h {
            proof {
                lemma_index_in_bounds(
                    (x - margin_x) as int,
                    (y - margin_y) as int,
                    c as int,
                    w as int,
                    h as int,
                );
            }
            s[idx(x - margin_x, y - margin_y, w) * 4 + c]
        } else {
            0
        };
        r.push(v);
        i += 1;
    }
    assert(r@ =~= padded(s@, w as int, h as int, m as int));
    r
}

fn quarter_turn(s: &Vec<u8>, m: usize) -> (r: Vec<u8>)
    requires
        s@.len() == m * m * 4,
    ensures
        r@ == quarter_turned(s@, m as int),
{
    let total = s.len();
    let mut r: Vec<u8> = Vec::with_capacity(total);
    let mut i: usize = 0;
    while i < total
        invariant
            total == s@.len() == m * m * 4,
            i <= total,
            r@.len() == i,
            forall|j: int| 0 <= j < i ==> r@[j] == #[trigger] quarter_turned(s@, m as int)[j],
        decreases total - i,
    {
        proof {
            lemma_pixel_coords(i as int, m as int, m as int);
        }
        let p = i / 4;
        let c = i % 4;
        let x = p % m;
        let y = p / m;
        proof {
            lemma_index_in_bounds(y as int, (m - 1 - x) as int, c as int, m as int, m as int);
        }
        r.push(s[idx(y, m - 1 - x, m) * 4 + c]);
        i += 1;
    }
    assert(r@ =~= quarter_turned(s@, m as int));
    r
}

/// Where position `p` of a line of `m` pixels shifted by `o` takes its pixel from.
fn shear_source_of(p: usize, o: i32, m: usize) -> (r: i64)
    requires
        p < m,
        m <= u32::MAX,
    ensures
        r == shear_source(p as int, o as int, m as int),
{
    let back = p as i64 - o as i64;
    let forth = p as i64 + o as i64;
    if 0 <= back && back < m as i64 {
        back
    } else if 0 <= forth && forth < m as i64 {
        -1
    } else {
        p as i64
    }
}

fn shear_rows(s: &Vec<u8>, m: usize, shifts: &Vec<i32>) -> (r: Vec<u8>)
    requires
        s@.len() == m * m * 4,
        m <= u32::MAX,
        shifts@.len() == m,
    ensures
        r@ == sheared_rows(s@, m as int, shifts@),
{
    let total = s.len();
    let mut r: Vec<u8> = Vec::with_capacity(total);
    let mut i: usize = 0;
    while i < total
        invariant
            total == s@.len() == m * m * 4,
            m <= u32::MAX,
            shifts@.len() == m,
            i <= total,
            r@.len() == i,
            forall|j: int| 0 <= j < i ==> r@[j] == #[trigger] sheared_rows(s@, m as int, shifts@)[j],
        decreases total - i,
    {
        proof {
            lemma_pixel_coords(i as int, m as int, m as int);
        }
        let p = i / 4;
        let c = i % 4;
        let x = p % m;
        let y = p / m;
        let src = shear_source_of(x, shifts[y], m);
        let v = if src < 0 {
            0
        } else {
            let sx = src as usize;
            proof {
                lemma_index_in_bounds(sx as int, y as int, c as int, m as int, m as int);
            }
            s[idx(sx, y, m) * 4 + c]
        };
        r.push(v);
        i += 1;
    }
    assert(r@ =~= sheared_rows(s@, m as int, shifts@));
    r
}

fn shear_columns(s: &Vec<u8>, m: usize, shifts: &Vec<i32>) -> (r: Vec<u8>)
    requires
        s@.len() == m * m * 4,
        m <= u32::MAX,
        shifts@.len() == m,
    ensures
        r@ == sheared_columns(s@, m as int, shifts@),
{
    let total = s.len();
    let mut r: Vec<u8> = Vec::with_capacity(total);
    let mut i: usize = 0;
    while i < total
        invariant
            total == s@.len() == m * m * 4,
            m <= u32::MAX,
            shifts@.len() == m,
            i <= total,
            r@.len() == i,
            forall|j: int|
                0 <= j < i ==> r@[j] == #[trigger] sheared_columns(s@, m as int, shifts@)[j],
        decreases total - i,
    {
        proof {
            lemma_pixel_coords(i as int, m as int, m as int);
        }
        let p = i / 4;
        let c = i % 4;
        let x = p % m;
        let y = p / m;
        let src = shear_source_of(y, shifts[x], m);
        let v = if src < 0 {
            0
        } else {
            let sy = src as usize;
            proof {
                lemma_index_in_bounds(x as int, sy as int, c as int, m as int, m as int);
            }
            s[idx(x, sy, m) * 4 + c]
        };
        r.push(v);
        i += 1;
    }
    assert(r@ =~= sheared_columns(s@, m as int, shifts@));
    r
}

fn crop(s: &Vec<u8>, m: usize, nw: usize, nh: usize) -> (r: Vec<u8>)
    requires
        s@.len() == m * m * 4,
        nw <= m,
        nh <= m,
    ensures
        r@ == cropped(s@, m as int, nw as int, nh as int),
{
    let s_len = s.len();
    proof {
        assert(nw * nh * 4 <= m * m * 4) by (nonlinear_arith)
            requires
                nw <= m,
                nh <= m,
        ;
    }
    let total = nw * nh * 4;
    let margin_x = (m - nw) / 2;
    let margin_y = (m - nh) / 2;
    let mut r: Vec<u8> = Vec::with_capacity(total);
    let mut i: usize = 0;
    while i < total
        invariant
            total == nw * nh * 4,
            s_len == s@.len(),
            margin_x == (m - nw) / 2,
            margin_y == (m - nh) / 2,
            s@.len() == m * m * 4,
            nw <= m,
            nh <= m,
            i <= total,
            r@.len() == i,
            forall|j: int|
                0 <= j < i ==> r@[j] == #[trigger] cropped(s@, m as int, nw as int, nh as int)[j],
        decreases total - i,
    {
        proof {
            lemma_pixel_coords(i as int, nw as int, nh as int);
        }
        let p = i / 4;
        let c = i % 4;
        let x = p % nw;
        let y = p / nw;
        proof {
            lemma_index_in_bounds(
                (x + margin_x) as int,
                (y + margin_y) as int,
                c as int,
                m as int,
                m as int,
            );
        }
        r.push(s[idx(x + margin_x, y + margin_y, m) * 4 + c]);
        i += 1;
    }
    assert(r@ =~= cropped(s@, m as int, nw as int, nh as int));
    r
}

impl Sprite {
    /// The sprite resampled to `size`: pixel `(x, y)` of the result is pixel
    /// `(columns[x], rows[y])` of this sprite.
    pub fn scale(&self, size: Size, columns: &Vec<u32>, rows: &Vec<u32>) -> (r: Sprite)
        requires
            self.wf(),
            columns@.len() == size.x,
            rows@.len() == size.y,
            forall|k: int| 0 <= k < size.x ==> #[trigger] columns@[k] < self.size.x,
            forall|k: int| 0 <= k < size.y ==> #[trigger] rows@[k] < self.size.y,
            self.size.x * self.size.y <= u32::MAX,
            size.x * size.y <= u32::MAX,
            size.x * size.y * 4 <= usize::MAX,
        ensures
            r.size == size,
            r.wf(),
            r.pixels@ == scaled_pixels(self.pixels@, self.size.x as int, size, columns@, rows@),
    {
        let w = self.size.x as usize;
        let h = self.size.y as usize;
        let tw = size.x as usize;
        let th = size.y as usize;
        let s_len = self.pixels.len();
        let total = tw * th * 4;
        let mut pixels: Vec<u8> = Vec::with_capacity(tw * th);
        let mut i: usize = 0;
        while i < total
            invariant
                total == tw * th * 4,
                tw == size.x,
                th == size.y,
                w == self.size.x,
                h == self.size.y,
                s_len == self.pixels@.len() == w * h * 4,
                columns@.len() == size.x,
                rows@.len() == size.y,
                forall|k: int| 0 <= k < size.x ==> #[trigger] columns@[k] < self.size.x,
                forall|k: int| 0 <= k < size.y ==> #[trigger] rows@[k] < self.size.y,
                i <= total,
                pixels@.len() == i,
                forall|j: int|
                    0 <= j < i ==> pixels@[j] == #[trigger] scaled_pixels(
                        self.pixels@,
                        self.size.x as int,
                        size,
                        columns@,
                        rows@,
                    )[j],
            decreases total - i,
        {
            proof {
                lemma_pixel_coords(i as int, tw as int, th as int);
            }
            let p = i / 4;
            let c = i % 4;
            let x = p % tw;
            let y = p / tw;
            let scaled_x = columns[x] as usize;
            let scaled_y = rows[y] as usize;
            proof {
                lemma_index_in_bounds(scaled_x as int, scaled_y as int, c as int, w as int, h as int);
            }
            pixels.push(self.pixels[idx(scaled_x, scaled_y, w) * 4 + c]);
            i += 1;
        }
        assert(pixels@ =~= scaled_pixels(self.pixels@, self.size.x as int, size, columns@, rows@));
        Sprite::new(pixels, size)
    }

    /// The sprite turned as `plan` says: padded into the centre of a square
    /// canvas, turned by whole quarter turns, sheared along rows, columns
    /// and rows again, and cut from the centre of the canvas.
    pub fn rotate(&self, plan: &RotationPlan) -> (r: Sprite)
        requires
            self.wf(),
            plan.fits(self.size),
        ensures
            r.size == plan.new_size,
            r.wf(),
            r.pixels@ == rotated_pixels(
                self.pixels@,
                self.size.x as int,
                self.size.y as int,
                plan.right_angles as int,
                plan.max_width as int,
                plan.new_size.x as int,
                plan.new_size.y as int,
                plan.row_shifts@,
                plan.column_shifts@,
            ),
    {
        let w = self.size.x as usize;
        let h = self.size.y as usize;
        let m = plan.max_width as usize;
        let padded_pixels = pad(&self.pixels, w, h, m);
        let ghost start = padded_pixels@;
        let mut pixels = padded_pixels;
        let mut turns: i32 = 0;
        while turns < plan.right_angles
            invariant
                0 <= turns,
                turns <= plan.right_angles || turns == 0,
                pixels@.len() == m * m * 4,
                pixels@ == turned_pixels(start, m as int, turns as nat),
                start.len() == m * m * 4,
            decreases plan.right_angles - turns,
        {
            pixels = quarter_turn(&pixels, m);
            turns += 1;
            assert(turned_pixels(start, m as int, turns as nat) == quarter_turned(
                turned_pixels(start, m as int, (turns - 1) as nat),
                m as int,
            ));
        }
        assert(turns as nat == (if plan.right_angles > 0 {
            plan.right_angles as nat
        } else {
            0
        }));
        let pixels = shear_rows(&pixels, m, &plan.row_shifts);
        let pixels = shear_columns(&pixels, m, &plan.column_shifts);
        let pixels = shear_rows(&pixels, m, &plan.row_shifts);
        let new_pixels = crop(&pixels, m, plan.new_size.x as usize, plan.new_size.y as usize);
        Sprite::new(new_pixels, plan.new_size)
    }
}

/// Half a turn: two quarter turns send the pixel at `(x, y)` to
/// `(m - 1 - x, m - 1 - y)`.
pub proof fn lemma_half_turn(s: Seq<u8>, m: int)
    requires
        0 <= m,
        s.len() == m * m * 4,
    ensures
        quarter_turned(quarter_turned(s, m), m) == Seq::new(
            s.len(),
            |i: int| byte_at(s, m, m - 1 - px_x(i, m), m - 1 - px_y(i, m), i % 4),
        ),
{
    let q1 = quarter_turned(s, m);
    let q2 = quarter_turned(q1, m);
    assert forall|i: int| 0 <= i < s.len() implies #[trigger] q2[i] == byte_at(
        s,
        m,
        m - 1 - px_x(i, m),
        m - 1 - px_y(i, m),
        i % 4,
    ) by {
        lemma_pixel_coords(i, m, m);
        let x = px_x(i, m);
        let y = px_y(i, m);
        let c = i % 4;
        lemma_coords(y, m - 1 - x, c, m);
        lemma_index_in_bounds(y, m - 1 - x, c, m, m);
    }
    assert(q2 =~= Seq::new(
        s.len(),
        |i: int| byte_at(s, m, m - 1 - px_x(i, m), m - 1 - px_y(i, m), i % 4),
    ));
}

/// Four quarter turns give back the image one started from.
pub proof fn lemma_four_quarter_turns(s: Seq<u8>, m: int)
    requires
        0 <= m,
        s.len() == m * m * 4,
    ensures
        turned_pixels(s, m, 4) == s,
{
    reveal_with_fuel(turned_pixels, 5);
    let q1 = quarter_turned(s, m);
    let half = quarter_turned(q1, m);
    lemma_half_turn(s, m);
    assert(half.len() == s.len());
    lemma_half_turn(half, m);
    let full = quarter_turned(quarter_turned(half, m), m);
    assert forall|i: int| 0 <= i < s.len() implies #[trigger] full[i] == s[i] by {
        lemma_pixel_coords(i, m, m);
        let x = px_x(i, m);
        let y = px_y(i, m);
        let c = i % 4;
        lemma_coords(m - 1 - x, m - 1 - y, c, m);
        lemma_index_in_bounds(m - 1 - x, m - 1 - y, c, m, m);
    }
    assert(full =~= s);
}

/// Shifting no line at all leaves the image as it was.
pub proof fn lemma_no_shear(s: Seq<u8>, m: int, shifts: Seq<i32>)
    requires
        0 <= m,
        s.len() == m * m * 4,
        shifts.len() == m,
        forall|k: int| 0 <= k < m ==> #[trigger] shifts[k] == 0,
    ensures
        sheared_rows(s, m, shifts) == s,
        sheared_columns(s, m, shifts) == s,
{
    assert forall|i: int| 0 <= i < s.len() implies #[trigger] sheared_rows(s, m, shifts)[i] == s[i]
        && sheared_columns(s, m, shifts)[i] == s[i] by {
        lemma_pixel_coords(i, m, m);
    }
    assert(sheared_rows(s, m, shifts) =~= s);
    assert(sheared_columns(s, m, shifts) =~= s);
}

/// Turning by nothing: no quarter turn, no shift, and a result as large as
/// the sprite give back the sprite's pixels, whatever the canvas.
pub proof fn lemma_rotation_by_nothing(
    s: Seq<u8>,
    w: int,
    h: int,
    right_angles: int,
    m: int,
    row_shifts: Seq<i32>,
    column_shifts: Seq<i32>,
)
    requires
        0 <= w <= m,
        0 <= h <= m,
        s.len() == w * h * 4,
        right_angles <= 0,
        row_shifts.len() == m,
        column_shifts.len() == m,
        forall|k: int| 0 <= k < m ==> #[trigger] row_shifts[k] == 0,
        forall|k: int| 0 <= k < m ==> #[trigger] column_shifts[k] == 0,
    ensures
        rotated_pixels(s, w, h, right_angles, m, w, h, row_shifts, column_shifts) == s,
{
    let p = padded(s, w, h, m);
    assert(m * m * 4 >= 0) by (nonlinear_arith)
        requires
            0 <= m,
    ;
    assert(p.len() == m * m * 4);
    assert(turned_pixels(p, m, 0) == p);
    lemma_no_shear(p, m, row_shifts);
    lemma_no_shear(p, m, column_shifts);
    let r = cropped(p, m, w, h);
    assert forall|i: int| 0 <= i < s.len() implies #[trigger] r[i] == s[i] by {
        lemma_pixel_coords(i, w, h);
        let x = px_x(i, w);
        let y = px_y(i, w);
        let c = i % 4;
        let mx = (m - w) / 2;
        let my = (m - h) / 2;
        lemma_coords(x + mx, y + my, c, m);
        lemma_index_in_bounds(x + mx, y + my, c, m, m);
    }
    assert(r =~= s);
}

/// Resampling a sprite at its own size, every pixel from where it stands,
/// gives back its pixels.
pub proof fn lemma_scale_by_nothing(s: Seq<u8>, size: Size, columns: Seq<u32>, rows: Seq<u32>)
    requires
        s.len() == size.x * size.y * 4,
        columns.len() == size.x,
        rows.len() == size.y,
        forall|k: int| 0 <= k < size.x ==> #[trigger] columns[k] == k,
        forall|k: int| 0 <= k < size.y ==> #[trigger] rows[k] == k,
    ensures
        scaled_pixels(s, size.x as int, size, columns, rows) == s,
{
    let r = scaled_pixels(s, size.x as int, size, columns, rows);
    assert forall|i: int| 0 <= i < s.len() implies #[trigger] r[i] == s[i] by {
        lemma_pixel_coords(i, size.x as int, size.y as int);
    }
    assert(r =~= s);
}

#[verifier::external_type_specification]
#[verifier::external_body]
pub struct ExImageError(image::ImageError);

/// What the image crate decodes, as RGBA, from a file at `path` holding
/// `bytes`, taking the format from the path's extension as
/// `image::ImageReader::open` does: width, height and the pixel buffer of
/// the `RgbaImage`; `None` when the extension names no format or the bytes
/// do not decode in it.
pub uninterp spec fn decoded_rgba(path: Seq<char>, bytes: Seq<u8>) -> Option<(u32, u32, Seq<u8>)>;

/// Picks the format from the extension of `path` with
/// `image::ImageFormat::from_path`, decodes `bytes` in it with
/// `image::load_from_memory_with_format` (default limits, as the reader
/// has), converts with `to_rgba8` and hands out the dimensions and raw
/// buffer. The claim: the result is `decoded_rgba` of the path and bytes,
/// an error exactly when that is `None`, and the buffer holds at least four
/// bytes per pixel (the invariant of `ImageBuffer`). The decoded pixels
/// themselves are named, not stated.
#[verifier::external_body]
fn decode_rgba(path: &str, bytes: &[u8]) -> (r: Result<(u32, u32, Vec<u8>), image::ImageError>)
    ensures
        match r {
            Ok((w, h, raw)) => {
                &&& decoded_rgba(path@, bytes@) == Some((w, h, raw@))
                &&& raw@.len() >= w * h * 4
            },
            Err(_) => decoded_rgba(path@, bytes@) is None,
        },
{
    let format = image::ImageFormat::from_path(path)?;
    let img = image::load_from_memory_with_format(bytes, format)?.to_rgba8();
    let (width, height) = img.dimensions();
    Ok((width, height, img.into_raw()))
}

/// Why a sprite could not be made.
#[derive(Debug)]
pub enum SpriteError {
    /// The image could not be read; the error the image decoder gave.
    Image(image::ImageError),
}

impl Sprite {
    /// The sprite of the image file at `path`, whose contents are `bytes`:
    /// its decoded RGBA pixels, row by row, in the format that the path's
    /// extension names.
    pub fn from(path: &str, bytes: &[u8]) -> (r: Result<Sprite, SpriteError>)
        ensures
            match r {
                Ok(sprite) => match decoded_rgba(path@, bytes@) {
                    Some((w, h, raw)) => {
                        &&& raw.len() >= w * h * 4
                        &&& sprite.size == Size { x: w, y: h }
                        &&& sprite.wf()
                        &&& sprite.pixels@ == raw.subrange(0, w * h * 4)
                    },
                    None => false,
                },
                Err(e) => decoded_rgba(path@, bytes@) is None && e is Image,
            },
    {
        match decode_rgba(path, bytes) {
            Ok((width, height, raw)) => {
                let raw_len = raw.len();
                proof {
                    assert(width * height <= width * height * 4) by (nonlinear_arith)
                        requires
                            0 <= width,
                            0 <= height,
                    ;
                }
                let count = width as usize * height as usize * 4;
                let mut pixels: Vec<u8> = Vec::with_capacity(count);
                let mut i: usize = 0;
                while i < count
                    invariant
                        count == width * height * 4,
                        count <= raw@.len(),
                        i <= count,
                        pixels@ == raw@.subrange(0, i as int),
                    decreases count - i,
                {
                    pixels.push(raw[i]);
                    i += 1;
                }
                Ok(Sprite::new(pixels, Size { x: width, y: height }))
            },
            Err(error) => Err(SpriteError::Image(error)),
        }
    }
}

} // verus!
