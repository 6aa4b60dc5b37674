use std::f32::consts::TAU;

use pixapprox::expr::{BinaryOp, Expr, Program, UnaryOp};
use pixapprox::myimage::{GrayScaleImage, MyRgbImage};
use pixapprox::fitness::{
    calc_image_error, calc_squared_error, get_pixel_error, get_surrounding_error, own_fraction,
    pixel_terms, ring_fraction, Fraction, RingError,
};
use pixapprox::pixapprox::{comparison_image, eval_into_image};

const WIDTH: i32 = 100;
const HEIGHT: i32 = 100;

fn f32_binary(op: BinaryOp, a: f32, b: f32) -> f32 {
    match op {
        BinaryOp::Add => a + b,
        BinaryOp::Sub => a - b,
        BinaryOp::Mul => a * b,
        BinaryOp::Max => a.max(b),
        BinaryOp::Min => a.min(b),
    }
}

fn f32_unary(op: UnaryOp, a: f32) -> f32 {
    match op {
        UnaryOp::Cos => (a * TAU).cos(),
        UnaryOp::Sin => (a * TAU).sin(),
        UnaryOp::Atan => a.atan(),
    }
}

fn coord(i: i32, n: i32) -> f32 {
    (i as f32) / (n as f32) * 2.0 - 1.0
}

fn to_pixel(v: f32) -> u8 {
    (v.min(1.0).max(-1.0) * 127.0 + 128.0).trunc() as u8
}

fn perceptual(acc: f32, f: Fraction) -> f32 {
    acc + f.num as f32 / f.den as f32
}

fn mean(ring: RingError) -> f32 {
    ring.sum as f32 / ring.count as f32
}

#[test]
pub fn image_test_1() {
    let mut goal_image = GrayScaleImage::new(WIDTH, HEIGHT);
    goal_image.write_pixel(1, 1, 255);
    let generated_image = goal_image.clone();

    let error = get_pixel_error(&goal_image, &generated_image, 1, 1).unwrap();

    assert_eq!(0, error);
}

#[test]
pub fn image_test_2() {
    let mut goal_image = GrayScaleImage::new(WIDTH, HEIGHT);
    goal_image.write_pixel(1, 1, 255);
    let mut generated_image = goal_image.clone();
    generated_image.write_pixel(1, 1, 0);

    let error = get_pixel_error(&goal_image, &generated_image, 1, 1).unwrap();

    assert_eq!(255, error);
}

#[test]
pub fn image_test_3() {
    let mut goal_image = GrayScaleImage::new(WIDTH, HEIGHT);
    goal_image.write_pixel(1, 1, 255);
    let mut generated_image = goal_image.clone();
    generated_image.write_pixel(1, 1, 0);

    let error = get_surrounding_error(&goal_image, &generated_image, 1, 1, 1);

    assert_eq!(0.0, mean(error));
}

#[test]
pub fn image_test_4() {
    let mut goal_image = GrayScaleImage::new(WIDTH, HEIGHT);
    goal_image.write_pixel(2, 2, 255);
    let mut generated_image = goal_image.clone();
    generated_image.write_pixel(2, 2, 0);

    let error = get_surrounding_error(&goal_image, &generated_image, 2, 2, 2);

    assert_eq!(0.0, mean(error));
}

#[test]
fn pixel_access() {
    let mut image = GrayScaleImage::new(3, 2);
    assert_eq!(vec![0u8; 6], image.data);
    image.write_pixel(2, 1, 7);
    assert_eq!(7, image.data[5]);
    assert_eq!(Some(7), image.read_pixel2(2, 1));
    assert_eq!(None, image.read_pixel2(3, 1));
    assert_eq!(None, image.read_pixel2(0, 2));
    assert_eq!(None, image.read_pixel2(-1, 0));
    assert_eq!(Some(0), image.read_pixel2(0, 0));
}

#[test]
fn with_dimensions_is_empty() {
    let image = GrayScaleImage::with_dimensions(4, 5);
    assert_eq!(0, image.data.len());
    assert_eq!((4, 5), (image.width, image.height));
}

#[test]
fn pixel_error_outside_is_none() {
    let a = GrayScaleImage::new(2, 2);
    let b = GrayScaleImage::new(2, 2);
    assert_eq!(None, get_pixel_error(&a, &b, 2, 0));
    assert_eq!(None, get_pixel_error(&a, &b, 0, -1));
}

#[test]
fn rings_count_only_pixels_inside() {
    let goal = GrayScaleImage::new(3, 3);
    let mut generated = goal.clone();
    generated.write_pixel(1, 1, 255);
    let t = pixel_terms(&goal, &generated, 0, 0);
    assert_eq!(0, t.own);
    assert_eq!(RingError { sum: 255, count: 3 }, t.ring1);
    assert_eq!(RingError { sum: 0, count: 5 }, t.ring2);
    assert_eq!(RingError { sum: 0, count: 0 }, t.ring3);
    let centre = pixel_terms(&goal, &generated, 1, 1);
    assert_eq!(255, centre.own);
    assert_eq!(RingError { sum: 0, count: 8 }, centre.ring1);
}

#[test]
fn identical_images_have_zero_error() {
    let mut goal = GrayScaleImage::new(5, 4);
    goal.write_pixel(3, 2, 200);
    goal.write_pixel(0, 0, 17);
    let generated = goal.clone();
    assert_eq!(0, calc_squared_error(&goal, &generated));
    assert_eq!(0.0, calc_image_error(&goal, &generated, 0.0f32, &perceptual));
}

#[test]
fn baseline_error_sums_squares() {
    let goal = GrayScaleImage::new(2, 2);
    let mut generated = goal.clone();
    generated.write_pixel(0, 0, 3);
    generated.write_pixel(1, 1, 10);
    assert_eq!(109, calc_squared_error(&goal, &generated));
}

#[test]
fn perceptual_error_of_one_pixel() {
    let goal = GrayScaleImage::new(1, 1);
    let mut generated = goal.clone();
    generated.write_pixel(0, 0, 16);
    // own error 16, no neighbours: (7/16 * 16)^3
    assert_eq!(343.0, calc_image_error(&goal, &generated, 0.0f32, &perceptual));
}

#[test]
fn perceptual_error_weighs_rings() {
    let goal = GrayScaleImage::new(2, 1);
    let mut generated = goal.clone();
    generated.write_pixel(1, 0, 16);
    // pixel (0,0): ring1 mean 16 -> (5)^3; pixel (1,0): own 16 -> 7^3
    assert_eq!(125.0 + 343.0, calc_image_error(&goal, &generated, 0.0f32, &perceptual));
}

#[test]
fn comparison_puts_images_side_by_side() {
    let mut goal = GrayScaleImage::new(2, 2);
    goal.write_pixel(0, 0, 1);
    goal.write_pixel(1, 1, 2);
    let mut generated = GrayScaleImage::new(2, 2);
    generated.write_pixel(1, 0, 3);
    generated.write_pixel(0, 1, 4);
    let both = comparison_image(&goal, &generated);
    assert_eq!((4, 2), (both.width, both.height));
    assert_eq!(vec![1, 0, 0, 3, 0, 2, 4, 0], both.data);
}

#[test]
fn program_draws_an_image() {
    let goal = GrayScaleImage::new(2, 2);
    let prg = Program {
        code: vec![Expr::Var(0)],
    };
    let image = eval_into_image(&goal, &prg, &f32_binary, &f32_unary, &coord, &to_pixel);
    assert_eq!((2, 2), (image.width, image.height));
    assert_eq!(vec![1, 128, 1, 128], image.data);
    let prg = Program {
        code: vec![Expr::Var(1), Expr::Const(2.0), Expr::Mul],
    };
    let image = eval_into_image(&goal, &prg, &f32_binary, &f32_unary, &coord, &to_pixel);
    assert_eq!(vec![1, 1, 128, 128], image.data);
}

#[test]
fn gray_scale_conversion() {
    let rgb = MyRgbImage {
        data: vec![100, 100, 100, 255, 0, 0, 0, 255, 0, 0, 0, 255],
        width: 2,
        height: 2,
    };
    let gray = rgb.to_gray_scale_image();
    assert_eq!((2, 2), (gray.width, gray.height));
    assert_eq!(vec![100, 76, 150, 28], gray.data);
}

#[test]
fn terms_are_weighted_cubes() {
    assert_eq!(Fraction { num: 343 * 4096, den: 4096 }, own_fraction(16));
    assert_eq!(Fraction { num: 0, den: 4096 }, own_fraction(0));
    assert_eq!(
        Fraction { num: 125 * 216, den: 4096 * 27 },
        ring_fraction(5, RingError { sum: 6, count: 3 })
    );
    assert_eq!(Fraction { num: 0, den: 1 }, ring_fraction(3, RingError { sum: 0, count: 0 }));
}

#[test]
fn write_pixel_takes_any_index_inside_the_data() {
    let mut image = GrayScaleImage::new(3, 2);
    image.write_pixel(4, 0, 9);
    assert_eq!(Some(9), image.read_pixel2(1, 1));
    image.write_pixel(-1, 1, 5);
    assert_eq!(Some(5), image.read_pixel2(2, 0));
}
