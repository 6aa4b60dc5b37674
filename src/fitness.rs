//! The error of a generated image against the goal: per-pixel terms of the
//! perceptual model, their accumulation, and the baseline squared error.

use vstd::prelude::*;

use crate::myimage::GrayScaleImage;

verus! {

/// The largest ring distance that `get_surrounding_error` takes.
pub const MAX_RING: i32 = 1000000;

/// The distance between two samples.
pub open spec fn abs_diff(a: u8, b: u8) -> u8 {
    if a > b {
        (a - b) as u8
    } else {
        (b - a) as u8
    }
}

/// Two images of the same dimensions, each well formed.
pub open spec fn same_dims(a: GrayScaleImage, b: GrayScaleImage) -> bool {
    a.wf() && b.wf() && a.width == b.width && a.height == b.height
}

/// The error at pixel (x, y), or `None` where it lies outside either image.
pub open spec fn pixel_error_spec(goal: GrayScaleImage, gen: GrayScaleImage, x: int, y: int) -> Option<u8> {
    if goal.in_bounds(x, y) && gen.in_bounds(x, y) {
        Some(abs_diff(goal.pixel(x, y), gen.pixel(x, y)))
    } else {
        None
    }
}

/// The sum of the errors over the pixels of a ring that lie inside the images,
/// and how many they are.
#[derive(Debug, Clone, Copy, PartialEq, Eq, Structural)]
pub struct RingError {
    pub sum: u32,
    pub count: u32,
}

/// The `k`-th pixel of the ring at Chebyshev distance `n` around (x, y): the
/// top row, the bottom row, then the left and right columns without corners.
pub open spec fn ring_point(x: int, y: int, n: int, k: int) -> (int, int) {
    let m = 2 * n + 1;
    let l = 2 * n - 1;
    if k < m {
        (x - n + k, y - n)
    } else if k < 2 * m {
        (x - n + (k - m), y + n)
    } else if k < 2 * m + l {
        (x - n, y - n + 1 + (k - 2 * m))
    } else {
        (x + n, y - n + 1 + (k - 2 * m - l))
    }
}

/// The sum and count of the in-image errors over the first `k` ring pixels.
pub open spec fn ring_acc(
    goal: GrayScaleImage,
    gen: GrayScaleImage,
    x: int,
    y: int,
    n: int,
    k: int,
) -> (nat, nat)
    decreases k,
{
    if k <= 0 {
        (0, 0)
    } else {
        let (s, c) = ring_acc(goal, gen, x, y, n, k - 1);
        let p = ring_point(x, y, n, k - 1);
        match pixel_error_spec(goal, gen, p.0, p.1) {
            Some(e) => ((s + e) as nat, c + 1),
            None => (s, c),
        }
    }
}

/// The error over the whole ring at distance `n` around (x, y): its `8 n` pixels.
pub open spec fn ring_error_spec(goal: GrayScaleImage, gen: GrayScaleImage, x: int, y: int, n: int) -> RingError {
    let (s, c) = ring_acc(goal, gen, x, y, n, 8 * n);
    RingError { sum: s as u32, count: c as u32 }
}

/// The accumulated sum and count stay within what `k` pixels can give.
proof fn lemma_ring_acc_bound(goal: GrayScaleImage, gen: GrayScaleImage, x: int, y: int, n: int, k: int)
    requires
        k >= 0,
    ensures
        ring_acc(goal, gen, x, y, n, k).0 <= 255 * k,
        ring_acc(goal, gen, x, y, n, k).1 <= k,
        ring_acc(goal, gen, x, y, n, k).0 <= 255 * ring_acc(goal, gen, x, y, n, k).1,
    decreases k,
{
    if k > 0 {
        lemma_ring_acc_bound(goal, gen, x, y, n, k - 1);
    }
}

/// The error at pixel (x, y) of two images, `None` outside either of them.
pub fn get_pixel_error(goal_image: &GrayScaleImage, generated_image: &GrayScaleImage, x: i32, y: i32) -> (r:
    Option<u8>)
    requires
        goal_image.wf(),
        generated_image.wf(),
    ensures
        r == pixel_error_spec(*goal_image, *generated_image, x as int, y as int),
{
    let goal_pixel = match goal_image.read_pixel2(x, y) {
        Some(p) => p,
        None => {
            return None;
        },
    };
    let generated_pixel = match generated_image.read_pixel2(x, y) {
        Some(p) => p,
        None => {
            return None;
        },
    };
    if goal_pixel > generated_pixel {
        Some(goal_pixel - generated_pixel)
    } else {
        Some(generated_pixel - goal_pixel)
    }
}

/// The error over the ring at Chebyshev distance `n` around (x, y), counting
/// only the pixels inside the images; its mean is `sum / count`.
pub fn get_surrounding_error(
    goal_image: &GrayScaleImage,
    generated_image: &GrayScaleImage,
    x: i32,
    y: i32,
    n: i32,
) -> (r: RingError)
    requires
        goal_image.wf(),
        generated_image.wf(),
        1 <= n <= MAX_RING,
        i32::MIN <= x - n,
        x + n <= i32::MAX,
        i32::MIN <= y - n,
        y + n <= i32::MAX,
    ensures
        r == ring_error_spec(*goal_image, *generated_image, x as int, y as int, n as int),
{
    let m: i32 = 2 * n + 1;
    let l: i32 = 2 * n - 1;
    let total: i32 = 8 * n;
    let mut sum: u32 = 0;
    let mut count: u32 = 0;
    let mut k: i32 = 0;
    while k < total
        invariant
            goal_image.wf(),
            generated_image.wf(),
            1 <= n <= MAX_RING,
            i32::MIN <= x - n,
            x + n <= i32::MAX,
            i32::MIN <= y - n,
            y + n <= i32::MAX,
            m == 2 * n + 1,
            l == 2 * n - 1,
            total == 8 * n,
            0 <= k <= total,
            (sum as nat, count as nat) == ring_acc(
                *goal_image,
                *generated_image,
                x as int,
                y as int,
                n as int,
                k as int,
            ),
        decreases total - k,
    {
        let (px, py): (i32, i32) = if k < m {
            (x - n + k, y - n)
        } else if k < 2 * m {
            (x - n + (k - m), y + n)
        } else if k < 2 * m + l {
            (x - n, y - n + 1 + (k - 2 * m))
        } else {
            (x + n, y - n + 1 + (k - 2 * m - l))
        };
        assert((px as int, py as int) == ring_point(x as int, y as int, n as int, k as int));
        proof {
            lemma_ring_acc_bound(*goal_image, *generated_image, x as int, y as int, n as int, k as int);
        }
        match get_pixel_error(goal_image, generated_image, px, py) {
            Some(e) => {
                sum = sum + e as u32;
                count = count + 1;
            },
            None => {},
        }
        k = k + 1;
    }
    RingError { sum, count }
}

/// What the perceptual model reads at one pixel: its own error and the errors
/// over the rings at distances 1, 2 and 3.
#[derive(Debug, Clone, Copy, PartialEq, Eq, Structural)]
pub struct PixelError {
    pub own: u8,
    pub ring1: RingError,
    pub ring2: RingError,
    pub ring3: RingError,
}

impl PixelError {
    /// No error at the pixel nor around it.
    pub open spec fn is_zero(&self) -> bool {
        self.own == 0 && self.ring1.sum == 0 && self.ring2.sum == 0 && self.ring3.sum == 0
    }
}

/// The terms of pixel (x, y).
pub open spec fn pixel_terms_spec(goal: GrayScaleImage, gen: GrayScaleImage, x: int, y: int) -> PixelError {
    PixelError {
        own: match pixel_error_spec(goal, gen, x, y) {
            Some(e) => e,
            None => 0,
        },
        ring1: ring_error_spec(goal, gen, x, y, 1),
        ring2: ring_error_spec(goal, gen, x, y, 2),
        ring3: ring_error_spec(goal, gen, x, y, 3),
    }
}

/// The bounds that the terms of any pixel meet: a ring at distance `n` has at
/// most `8 n` pixels, each of an error of at most 255.
pub open spec fn terms_bounded(t: PixelError) -> bool {
    &&& t.ring1.count <= 8 && t.ring1.sum <= 255 * t.ring1.count
    &&& t.ring2.count <= 16 && t.ring2.sum <= 255 * t.ring2.count
    &&& t.ring3.count <= 24 && t.ring3.sum <= 255 * t.ring3.count
}

/// Images whose coordinates, three pixels beyond the border, fit an `i32`.
pub open spec fn ring_room(img: GrayScaleImage) -> bool {
    img.width <= i32::MAX - 3 && img.height <= i32::MAX - 3
}

/// The terms of the perceptual model at pixel (x, y), which lies inside both images.
pub fn pixel_terms(goal_image: &GrayScaleImage, generated_image: &GrayScaleImage, x: i32, y: i32) -> (r:
    PixelError)
    requires
        same_dims(*goal_image, *generated_image),
        ring_room(*goal_image),
        goal_image.in_bounds(x as int, y as int),
    ensures
        r == pixel_terms_spec(*goal_image, *generated_image, x as int, y as int),
        terms_bounded(r),
{
    proof {
        lemma_terms_bounded(*goal_image, *generated_image, x as int, y as int);
    }
    let own = match get_pixel_error(goal_image, generated_image, x, y) {
        Some(e) => e,
        None => 0,
    };
    PixelError {
        own,
        ring1: get_surrounding_error(goal_image, generated_image, x, y, 1),
        ring2: get_surrounding_error(goal_image, generated_image, x, y, 2),
        ring3: get_surrounding_error(goal_image, generated_image, x, y, 3),
    }
}

/// The terms of every pixel meet `terms_bounded`.
proof fn lemma_terms_bounded(goal: GrayScaleImage, gen: GrayScaleImage, x: int, y: int)
    ensures
        terms_bounded(pixel_terms_spec(goal, gen, x, y)),
{
    lemma_ring_acc_bound(goal, gen, x, y, 1, 8);
    lemma_ring_acc_bound(goal, gen, x, y, 2, 16);
    lemma_ring_acc_bound(goal, gen, x, y, 3, 24);
}

/// A non-negative fraction `num / den`.
#[derive(Debug, Clone, Copy, PartialEq, Eq, Structural)]
pub struct Fraction {
    pub num: u64,
    pub den: u64,
}

/// The cube of `x`.
pub open spec fn cube(x: int) -> int {
    x * x * x
}

/// The term of a pixel's own error `e`: (7/16 e)^3 = 343 e^3 / 4096.
pub open spec fn own_term(e: u8) -> Fraction {
    Fraction { num: (343 * cube(e as int)) as u64, den: 4096 }
}

/// The term of a ring weighted `w`/16: (w/16 mean)^3 with mean = sum / count,
/// that is w^3 sum^3 / (4096 count^3); nothing for a ring with no pixel inside.
pub open spec fn ring_term(w: int, r: RingError) -> Fraction {
    if r.count == 0 {
        Fraction { num: 0, den: 1 }
    } else {
        Fraction {
            num: (cube(w) * cube(r.sum as int)) as u64,
            den: (4096 * cube(r.count as int)) as u64,
        }
    }
}

/// The term of a pixel's own error.
pub fn own_fraction(e: u8) -> (r: Fraction)
    ensures
        r == own_term(e),
{
    let x = e as u64;
    assert(x * x <= 255 * 255 && x * x * x <= 255 * 255 * 255) by (nonlinear_arith)
        requires
            x <= 255,
    ;
    let x2 = x * x;
    let x3 = x2 * x;
    Fraction { num: 343 * x3, den: 4096 }
}

/// The term of a ring weighted `w`/16.
pub fn ring_fraction(w: u64, r: RingError) -> (f: Fraction)
    requires
        w <= 7,
        r.count <= 24,
        r.sum <= 255 * r.count,
    ensures
        f == ring_term(w as int, r),
{
    if r.count == 0 {
        return Fraction { num: 0, den: 1 };
    }
    let s = r.sum as u64;
    let c = r.count as u64;
    assert(s * s <= 6120 * 6120 && s * s * s <= 6120 * 6120 * 6120) by (nonlinear_arith)
        requires
            s <= 6120,
    ;
    assert(w * w <= 49 && w * w * w <= 343) by (nonlinear_arith)
        requires
            w <= 7,
    ;
    assert((w * w * w) * (s * s * s) <= 343 * (6120 * 6120 * 6120)) by (nonlinear_arith)
        requires
            w * w * w <= 343,
            s * s * s <= 6120 * 6120 * 6120,
    ;
    assert(c * c <= 576 && c * c * c <= 24 * 24 * 24) by (nonlinear_arith)
        requires
            c <= 24,
    ;
    let s2 = s * s;
    let s3 = s2 * s;
    let w2 = w * w;
    let w3 = w2 * w;
    let c2 = c * c;
    let c3 = c2 * c;
    Fraction { num: w3 * s3, den: 4096 * c3 }
}

/// The accumulated value after adding the four terms of a pixel to `acc`:
/// its own error, then the rings at distances 1, 2 and 3 weighted 5, 3 and 1.
pub open spec fn pixel_step<E>(acc: E, t: PixelError, g: spec_fn(E, Fraction) -> E) -> E {
    g(g(g(g(acc, own_term(t.own)), ring_term(5, t.ring1)), ring_term(3, t.ring2)), ring_term(1, t.ring3))
}

/// `f` adds a fraction to an accumulated value as the spec function `g` does.
pub open spec fn accumulator<E, A: Fn(E, Fraction) -> E>(f: A, g: spec_fn(E, Fraction) -> E) -> bool {
    forall|acc: E, t: Fraction, r: E| #[trigger] f.ensures((acc, t), r) ==> r == g(acc, t)
}

/// The accumulated value after the rows above `y` and the first `x` pixels of
/// row `y`, in row-major order from `zero`.
pub open spec fn error_fold<E>(
    goal: GrayScaleImage,
    gen: GrayScaleImage,
    zero: E,
    g: spec_fn(E, Fraction) -> E,
    y: int,
    x: int,
) -> E
    decreases y, x,
{
    if y <= 0 && x <= 0 {
        zero
    } else if x <= 0 {
        error_fold(goal, gen, zero, g, y - 1, goal.width as int)
    } else {
        pixel_step(error_fold(goal, gen, zero, g, y, x - 1), pixel_terms_spec(goal, gen, x - 1, y), g)
    }
}

/// The perceptual error of `generated_image` against `goal_image`: for every
/// pixel in row-major order, its four weighted and cubed terms, each added
/// by `accumulate` to the value accumulated from `zero`.
pub fn calc_image_error<E: Copy, A: Fn(E, Fraction) -> E>(
    goal_image: &GrayScaleImage,
    generated_image: &GrayScaleImage,
    zero: E,
    accumulate: &A,
) -> (r: E)
    requires
        same_dims(*goal_image, *generated_image),
        ring_room(*goal_image),
        forall|acc: E, t: Fraction| accumulate.requires((acc, t)),
    ensures
        forall|g: spec_fn(E, Fraction) -> E| #[trigger] accumulator(*accumulate, g) ==> r
            == error_fold(*goal_image, *generated_image, zero, g, goal_image.height as int, 0),
{
    let mut acc = zero;
    let mut y: i32 = 0;
    while y < goal_image.height
        invariant
            same_dims(*goal_image, *generated_image),
            ring_room(*goal_image),
            forall|acc: E, t: Fraction| accumulate.requires((acc, t)),
            0 <= y <= goal_image.height,
            forall|g: spec_fn(E, Fraction) -> E| #[trigger] accumulator(*accumulate, g) ==> acc
                == error_fold(*goal_image, *generated_image, zero, g, y as int, 0),
        decreases goal_image.height - y,
    {
        let mut x: i32 = 0;
        while x < goal_image.width
            invariant
                same_dims(*goal_image, *generated_image),
                ring_room(*goal_image),
                forall|acc: E, t: Fraction| accumulate.requires((acc, t)),
                0 <= y < goal_image.height,
                0 <= x <= goal_image.width,
                forall|g: spec_fn(E, Fraction) -> E| #[trigger] accumulator(*accumulate, g) ==> acc
                    == error_fold(*goal_image, *generated_image, zero, g, y as int, x as int),
            decreases goal_image.width - x,
        {
            let t = pixel_terms(goal_image, generated_image, x, y);
            let f0 = own_fraction(t.own);
            let f1 = ring_fraction(5, t.ring1);
            let f2 = ring_fraction(3, t.ring2);
            let f3 = ring_fraction(1, t.ring3);
            let a0 = accumulate(acc, f0);
            let a1 = accumulate(a0, f1);
            let a2 = accumulate(a1, f2);
            let a3 = accumulate(a2, f3);
            assert forall|g: spec_fn(E, Fraction) -> E| #[trigger] accumulator(*accumulate, g)
                implies a3 == error_fold(*goal_image, *generated_image, zero, g, y as int, x + 1) by {
                assert(accumulate.ensures((acc, f0), a0));
                assert(accumulate.ensures((a0, f1), a1));
                assert(accumulate.ensures((a1, f2), a2));
                assert(accumulate.ensures((a2, f3), a3));
            }
            acc = a3;
            x = x + 1;
        }
        y = y + 1;
    }
    acc
}

/// The baseline error over the first `k` samples: the sum of squared differences.
pub open spec fn squared_acc(goal: GrayScaleImage, gen: GrayScaleImage, k: int) -> nat
    decreases k,
{
    if k <= 0 {
        0
    } else {
        let d = abs_diff(goal.data@[k - 1], gen.data@[k - 1]) as nat;
        squared_acc(goal, gen, k - 1) + d * d
    }
}

/// The sum stays within what `k` samples can give.
proof fn lemma_squared_acc_bound(goal: GrayScaleImage, gen: GrayScaleImage, k: int)
    requires
        k >= 0,
    ensures
        squared_acc(goal, gen, k) <= 65025 * k,
    decreases k,
{
    if k > 0 {
        lemma_squared_acc_bound(goal, gen, k - 1);
        let d = abs_diff(goal.data@[k - 1], gen.data@[k - 1]) as nat;
        assert(d * d <= 65025) by (nonlinear_arith)
            requires
                d <= 255,
        ;
    }
}

/// The baseline error: the sum over all pixels of the squared difference
/// between the two images.
pub fn calc_squared_error(goal_image: &GrayScaleImage, generated_image: &GrayScaleImage) -> (r: u64)
    requires
        same_dims(*goal_image, *generated_image),
    ensures
        r == squared_acc(*goal_image, *generated_image, goal_image.data@.len() as int),
{
    let n = goal_image.data.len();
    assert(n <= i32::MAX) by (nonlinear_arith)
        requires
            goal_image.wf(),
            n == goal_image.data@.len(),
    ;
    let mut sum: u64 = 0;
    let mut i: usize = 0;
    while i < n
        invariant
            same_dims(*goal_image, *generated_image),
            n == goal_image.data@.len(),
            n == generated_image.data@.len(),
            n <= i32::MAX,
            i <= n,
            sum == squared_acc(*goal_image, *generated_image, i as int),
        decreases n - i,
    {
        proof {
            lemma_squared_acc_bound(*goal_image, *generated_image, i + 1);
        }
        let a = goal_image.data[i];
        let b = generated_image.data[i];
        let d: u64 = if a > b {
            (a - b) as u64
        } else {
            (b - a) as u64
        };
        assert(d * d <= 65025) by (nonlinear_arith)
            requires
                d <= 255,
        ;
        sum = sum + d * d;
        i = i + 1;
    }
    sum
}

/// Every ring of an image against itself holds no error.
proof fn lemma_ring_acc_same(img: GrayScaleImage, x: int, y: int, n: int, k: int)
    requires
        img.wf(),
    ensures
        ring_acc(img, img, x, y, n, k).0 == 0,
    decreases k,
{
    if k > 0 {
        lemma_ring_acc_same(img, x, y, n, k - 1);
    }
}

/// Comparing an image with itself gives a baseline error of exactly 0.
proof fn lemma_squared_acc_same(img: GrayScaleImage, k: int)
    ensures
        squared_acc(img, img, k) == 0,
    decreases k,
{
    if k > 0 {
        lemma_squared_acc_same(img, k - 1);
        let d = abs_diff(img.data@[k - 1], img.data@[k - 1]) as nat;
        assert(d == 0);
        assert(d * d == 0);
    }
}

/// Comparing an image with itself: the baseline error is exactly 0, every pixel's
/// perceptual terms hold no error, and so the perceptual error is `zero` for
/// every accumulation that adds nothing for a fraction of numerator 0.
pub proof fn error_model_symmetry<E>(img: GrayScaleImage, zero: E, g: spec_fn(E, Fraction) -> E)
    requires
        img.wf(),
        forall|acc: E, f: Fraction| f.num == 0 ==> #[trigger] g(acc, f) == acc,
    ensures
        squared_acc(img, img, img.data@.len() as int) == 0,
        forall|x: int, y: int| #[trigger] pixel_terms_spec(img, img, x, y).is_zero(),
        error_fold(img, img, zero, g, img.height as int, 0) == zero,
{
    lemma_squared_acc_same(img, img.data@.len() as int);
    assert forall|x: int, y: int| #[trigger] pixel_terms_spec(img, img, x, y).is_zero() by {
        lemma_ring_acc_same(img, x, y, 1, 8);
        lemma_ring_acc_same(img, x, y, 2, 16);
        lemma_ring_acc_same(img, x, y, 3, 24);
    }
    lemma_error_fold_same(img, zero, g, img.height as int, 0);
}

/// An image against itself accumulates to `zero`, row by row.
proof fn lemma_error_fold_same<E>(img: GrayScaleImage, zero: E, g: spec_fn(E, Fraction) -> E, y: int, x: int)
    requires
        img.wf(),
        forall|acc: E, f: Fraction| f.num == 0 ==> #[trigger] g(acc, f) == acc,
    ensures
        error_fold(img, img, zero, g, y, x) == zero,
    decreases y, x,
{
    if y <= 0 && x <= 0 {
    } else if x <= 0 {
        lemma_error_fold_same(img, zero, g, y - 1, img.width as int);
    } else {
        lemma_error_fold_same(img, zero, g, y, x - 1);
        lemma_ring_acc_same(img, x - 1, y, 1, 8);
        lemma_ring_acc_same(img, x - 1, y, 2, 16);
        lemma_ring_acc_same(img, x - 1, y, 3, 24);
        let t = pixel_terms_spec(img, img, x - 1, y);
        assert(t.is_zero());
        assert(own_term(t.own).num == 0);
        assert(ring_term(5, t.ring1).num == 0);
        assert(ring_term(3, t.ring2).num == 0);
        assert(ring_term(1, t.ring3).num == 0);
    }
}

} // verus!
