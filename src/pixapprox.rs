//! One generation of the search: drawing a program's image, ranking the
//! evaluated individuals, and breeding the next generation.

use rand::rngs::StdRng;
use vstd::prelude::*;

use crate::eval::{eval, eval_spec, well_formed};
use crate::expr::{binary_kernel, binary_total, unary_kernel, unary_total, BinaryOp, Program, UnaryOp};
use crate::fitness::same_dims;
use crate::mutate::{
    drawn_by, has_value, lemma_mutated_times_step, lemma_mutated_times_zero, lemma_mutation_keeps_value, mutate,
    mutated_times, mutation_at,
};
use crate::myimage::{valid_dims, GrayScaleImage};
use crate::population::{Individual, Population};
use crate::state::State;

verus! {

/// The number of registers of a program that draws an image: x and y.
pub const NVARS: usize = 2;

/// `f` maps a pixel index and the extent of its axis to a register value as
/// the spec function `g` does.
pub open spec fn coord_kernel<C, P: Fn(i32, i32) -> C>(f: P, g: spec_fn(i32, i32) -> C) -> bool {
    forall|i: i32, n: i32, r: C| #[trigger] f.ensures((i, n), r) ==> r == g(i, n)
}

/// `f` turns a program's value into a sample as the spec function `g` does.
pub open spec fn sample_kernel<C, Q: Fn(C) -> u8>(f: Q, g: spec_fn(C) -> u8) -> bool {
    forall|v: C, r: u8| #[trigger] f.ensures((v,), r) ==> r == g(v)
}

/// The sample that `code` draws at pixel (x, y) of an image of `width` by `height`.
pub open spec fn drawn_pixel<C>(
    code: Seq<crate::expr::Expr<C>>,
    g: spec_fn(BinaryOp, C, C) -> C,
    h: spec_fn(UnaryOp, C) -> C,
    cf: spec_fn(i32, i32) -> C,
    pf: spec_fn(C) -> u8,
    width: i32,
    height: i32,
    x: i32,
    y: i32,
) -> u8 {
    pf(eval_spec(code, seq![cf(x, width), cf(y, height)], g, h))
}

/// Draws `prg` on an image of the dimensions of `goal_image`: at each pixel,
/// row after row, the program runs on x = `coord(x, width)` and
/// y = `coord(y, height)`, and `to_pixel` turns its value into the sample.
pub fn eval_into_image<
    C: Copy,
    B: Fn(BinaryOp, C, C) -> C,
    U: Fn(UnaryOp, C) -> C,
    P: Fn(i32, i32) -> C,
    Q: Fn(C) -> u8,
>(
    goal_image: &GrayScaleImage,
    prg: &Program<C>,
    binary: &B,
    unary: &U,
    coord: &P,
    to_pixel: &Q,
) -> (r: GrayScaleImage)
    requires
        goal_image.wf(),
        well_formed(prg.code@, NVARS as nat),
        binary_total(*binary),
        unary_total(*unary),
        forall|i: i32, n: i32| coord.requires((i, n)),
        forall|v: C| to_pixel.requires((v,)),
    ensures
        r.wf(),
        r.width == goal_image.width,
        r.height == goal_image.height,
        forall|
            g: spec_fn(BinaryOp, C, C) -> C,
            h: spec_fn(UnaryOp, C) -> C,
            cf: spec_fn(i32, i32) -> C,
            pf: spec_fn(C) -> u8,
        |
            #![trigger binary_kernel(*binary, g), unary_kernel(*unary, h), coord_kernel(*coord, cf), sample_kernel(*to_pixel, pf)]
            binary_kernel(*binary, g) && unary_kernel(*unary, h) && coord_kernel(*coord, cf)
                && sample_kernel(*to_pixel, pf) ==> forall|i: int|
                0 <= i < r.data@.len() ==> #[trigger] r.data@[i] == drawn_pixel(
                    prg.code@,
                    g,
                    h,
                    cf,
                    pf,
                    r.width,
                    r.height,
                    (i % r.width as int) as i32,
                    (i / r.width as int) as i32,
                ),
{
    let width = goal_image.width;
    let height = goal_image.height;
    let mut image = GrayScaleImage::with_dimensions(width, height);
    assert(0 <= width * height <= i32::MAX) by (nonlinear_arith)
        requires
            valid_dims(width as int, height as int),
    ;
    let n: i32 = width * height;
    let mut i: i32 = 0;
    while i < n
        invariant
            goal_image.wf(),
            width == goal_image.width,
            height == goal_image.height,
            n == width * height,
            0 <= i <= n,
            image.width == width,
            image.height == height,
            image.data@.len() == i,
            well_formed(prg.code@, NVARS as nat),
            binary_total(*binary),
            unary_total(*unary),
            forall|i: i32, n: i32| coord.requires((i, n)),
            forall|v: C| to_pixel.requires((v,)),
            forall|
                g: spec_fn(BinaryOp, C, C) -> C,
                h: spec_fn(UnaryOp, C) -> C,
                cf: spec_fn(i32, i32) -> C,
                pf: spec_fn(C) -> u8,
            |
                #![trigger binary_kernel(*binary, g), unary_kernel(*unary, h), coord_kernel(*coord, cf), sample_kernel(*to_pixel, pf)]
                binary_kernel(*binary, g) && unary_kernel(*unary, h) && coord_kernel(*coord, cf)
                    && sample_kernel(*to_pixel, pf) ==> forall|j: int|
                    0 <= j < image.data@.len() ==> #[trigger] image.data@[j] == drawn_pixel(
                        prg.code@,
                        g,
                        h,
                        cf,
                        pf,
                        width,
                        height,
                        (j % width as int) as i32,
                        (j / width as int) as i32,
                    ),
        decreases n - i,
    {
        assert(width > 0) by (nonlinear_arith)
            requires
                0 <= i < n,
                n == width * height,
                0 <= width,
                0 <= height,
        ;
        let x = i % width;
        let y = i / width;
        let cx = coord(x, width);
        let cy = coord(y, height);
        let state = State { vars: vec![cx, cy] };
        assert(state.vars@ =~= seq![cx, cy]);
        let v = eval(prg, &state, binary, unary);
        let pix = to_pixel(v);
        let ghost before = image.data@;
        image.data.push(pix);
        assert forall|
            g: spec_fn(BinaryOp, C, C) -> C,
            h: spec_fn(UnaryOp, C) -> C,
            cf: spec_fn(i32, i32) -> C,
            pf: spec_fn(C) -> u8,
        |
            #![trigger binary_kernel(*binary, g), unary_kernel(*unary, h), coord_kernel(*coord, cf), sample_kernel(*to_pixel, pf)]
            binary_kernel(*binary, g) && unary_kernel(*unary, h) && coord_kernel(*coord, cf)
                && sample_kernel(*to_pixel, pf) implies forall|j: int|
                0 <= j < image.data@.len() ==> #[trigger] image.data@[j] == drawn_pixel(
                    prg.code@,
                    g,
                    h,
                    cf,
                    pf,
                    width,
                    height,
                    (j % width as int) as i32,
                    (j / width as int) as i32,
                ) by {
            assert(coord.ensures((x, width), cx));
            assert(coord.ensures((y, height), cy));
            assert(to_pixel.ensures((v,), pix));
            assert forall|j: int| 0 <= j < image.data@.len() implies #[trigger] image.data@[j]
                == drawn_pixel(
                prg.code@,
                g,
                h,
                cf,
                pf,
                width,
                height,
                (j % width as int) as i32,
                (j / width as int) as i32,
            ) by {
                if j < i {
                    assert(image.data@[j] == before[j]);
                }
            }
        }
        i = i + 1;
    }
    image
}

/// Row `y` of an image.
pub open spec fn image_row(img: GrayScaleImage, y: int) -> Seq<u8> {
    img.data@.subrange(y * img.width, y * img.width + img.width)
}

/// The first `y` rows of the comparison image: each row of the goal followed
/// by the same row of the generated image.
pub open spec fn comparison_rows(goal: GrayScaleImage, gen: GrayScaleImage, y: int) -> Seq<u8>
    decreases y,
{
    if y <= 0 {
        Seq::empty()
    } else {
        comparison_rows(goal, gen, y - 1) + image_row(goal, y - 1) + image_row(gen, y - 1)
    }
}

/// Row `y` lies inside the image.
proof fn lemma_row_in_range(img: GrayScaleImage, y: int)
    requires
        img.wf(),
        0 <= y < img.height,
    ensures
        0 <= y * img.width,
        y * img.width + img.width <= img.data@.len(),
{
    let w = img.width as int;
    let h = img.height as int;
    assert(0 <= y * w) by (nonlinear_arith)
        requires
            0 <= y,
            0 <= w,
    ;
    assert(y * w + w <= w * h) by (nonlinear_arith)
        requires
            0 <= y < h,
            0 <= w,
    ;
}

/// The first `y` comparison rows hold `2 * width` samples each.
proof fn lemma_comparison_rows_len(goal: GrayScaleImage, gen: GrayScaleImage, y: int)
    requires
        same_dims(goal, gen),
        0 <= y <= goal.height,
    ensures
        comparison_rows(goal, gen, y).len() == 2 * goal.width * y,
    decreases y,
{
    if y > 0 {
        lemma_comparison_rows_len(goal, gen, y - 1);
        lemma_row_in_range(goal, y - 1);
        lemma_row_in_range(gen, y - 1);
        assert(image_row(goal, y - 1).len() == goal.width);
        assert(image_row(gen, y - 1).len() == goal.width);
        assert(2 * goal.width * (y - 1) + 2 * goal.width == 2 * goal.width * y) by (nonlinear_arith);
    } else {
        assert(2 * goal.width * y == 0) by (nonlinear_arith)
            requires
                y == 0,
        ;
    }
}

/// The goal and the generated image side by side: an image twice as wide whose
/// rows are each goal row followed by the same generated row.
pub fn comparison_image(goal: &GrayScaleImage, generated: &GrayScaleImage) -> (r: GrayScaleImage)
    requires
        same_dims(*goal, *generated),
        2 * goal.width <= i32::MAX,
        valid_dims(2 * goal.width, goal.height as int),
    ensures
        r.wf(),
        r.width == 2 * goal.width,
        r.height == goal.height,
        r.data@ == comparison_rows(*goal, *generated, goal.height as int),
{
    let mut image = GrayScaleImage::with_dimensions(goal.width * 2, goal.height);
    let mut y: i32 = 0;
    while y < goal.height
        invariant
            same_dims(*goal, *generated),
            valid_dims(2 * goal.width, goal.height as int),
            0 <= y <= goal.height,
            image.width == 2 * goal.width,
            image.height == goal.height,
            image.data@ == comparison_rows(*goal, *generated, y as int),
        decreases goal.height - y,
    {
        proof {
            lemma_row_in_range(*goal, y as int);
            lemma_row_in_range(*generated, y as int);
        }
        let ghost start = image.data@;
        let mut x: i32 = 0;
        while x < goal.width
            invariant
                same_dims(*goal, *generated),
                0 <= y < goal.height,
                0 <= x <= goal.width,
                0 <= y * goal.width,
                y * goal.width + goal.width <= goal.data@.len(),
                image.width == 2 * goal.width,
                image.height == goal.height,
                image.data@ == start + image_row(*goal, y as int).take(x as int),
            decreases goal.width - x,
        {
            let b = goal.read_pixel(x, y);
            image.data.push(b);
            assert(image.data@ =~= start + image_row(*goal, y as int).take(x + 1));
            x = x + 1;
        }
        assert(image_row(*goal, y as int).take(x as int) =~= image_row(*goal, y as int));
        let ghost mid = image.data@;
        let mut x: i32 = 0;
        while x < goal.width
            invariant
                same_dims(*goal, *generated),
                0 <= y < goal.height,
                0 <= x <= goal.width,
                0 <= y * generated.width,
                y * generated.width + generated.width <= generated.data@.len(),
                image.width == 2 * goal.width,
                image.height == goal.height,
                image.data@ == mid + image_row(*generated, y as int).take(x as int),
            decreases goal.width - x,
        {
            let b = generated.read_pixel(x, y);
            image.data.push(b);
            assert(image.data@ =~= mid + image_row(*generated, y as int).take(x + 1));
            x = x + 1;
        }
        assert(image_row(*generated, y as int).take(x as int) =~= image_row(*generated, y as int));
        y = y + 1;
    }
    proof {
        lemma_comparison_rows_len(*goal, *generated, goal.height as int);
        assert(2 * goal.width * goal.height == (2 * goal.width) * goal.height) by (nonlinear_arith);
    }
    image
}

/// How one generation is bred from the ranked previous one.
#[derive(Debug, Clone, Copy, PartialEq, Eq, Structural)]
pub struct EvolutionConfig {
    /// The number of individuals of the new generation.
    pub population_size: usize,
    /// The number of best individuals that are parents.
    pub n_best: usize,
    /// The number of mutations applied to each child.
    pub n_mutations: usize,
    /// The number of best individuals carried over unchanged.
    pub n_elite: usize,
}

/// `next` is a generation bred from the ranked generation `prev`: the first
/// `n_elite` slots copy the best individuals unchanged; every other slot `i`
/// holds, not yet evaluated, `n_mutations` mutations of parent `i mod n_best`,
/// each new literal satisfying `ok`.
pub open spec fn evolved<C, E>(
    prev: Seq<Individual<C, E>>,
    next: Seq<Individual<C, E>>,
    config: EvolutionConfig,
    nvars: nat,
    ok: spec_fn(C) -> bool,
) -> bool {
    &&& next.len() == config.population_size
    &&& forall|i: int|
        0 <= i < config.n_elite ==> (#[trigger] next[i]).prg.code@ == prev[i].prg.code@ && next[i].error
            == prev[i].error
    &&& forall|i: int|
        config.n_elite <= i < config.population_size ==> (#[trigger] next[i]).error is None
            && mutated_times(
            prev[i % config.n_best as int].prg.code@,
            next[i].prg.code@,
            config.n_mutations as int,
            nvars,
            ok,
        )
    &&& forall|i: int| 0 <= i < next.len() ==> has_value(#[trigger] next[i].prg.code@)
}

/// A child of `parent`: `n` random mutations of its program, not evaluated.
fn bred_child<C: Copy, E: Copy, K: Fn() -> C>(
    parent: &Individual<C, E>,
    rng: &mut StdRng,
    nvars: usize,
    n: usize,
    fresh: &K,
) -> (r: Individual<C, E>)
    requires
        nvars > 0,
        fresh.requires(()),
        has_value(parent.prg.code@),
    ensures
        r.error is None,
        has_value(r.prg.code@),
        mutated_times(parent.prg.code@, r.prg.code@, n as int, nvars as nat, drawn_by(*fresh)),
{
    let mut prg = parent.prg.duplicate();
    proof {
        lemma_mutated_times_zero(parent.prg.code@, nvars as nat, drawn_by(*fresh));
    }
    let mut m: usize = 0;
    while m < n
        invariant
            m <= n,
            nvars > 0,
            fresh.requires(()),
            has_value(prg.code@),
            mutated_times(parent.prg.code@, prg.code@, m as int, nvars as nat, drawn_by(*fresh)),
        decreases n - m,
    {
        let ghost before = prg.code@;
        mutate(rng, &mut prg, nvars, fresh);
        proof {
            let nth = choose|nth: int| mutation_at(before, prg.code@, nth, nvars as nat, drawn_by(*fresh));
            lemma_mutation_keeps_value(before, prg.code@, nth, nvars as nat, drawn_by(*fresh));
            lemma_mutated_times_step(parent.prg.code@, before, prg.code@, m as int, nth, nvars as nat, drawn_by(*fresh));
        }
        m = m + 1;
    }
    Individual { prg, error: None }
}

/// Breeds the next generation from the ranked `population` (best first).
///
/// Every slot `i` receives parent `i mod n_best` mutated `n_mutations` times,
/// except the first `n_elite` slots, which keep the best individuals as they are.
pub fn evolve<C: Copy, E: Copy, K: Fn() -> C>(
    gen: u32,
    population: Population<C, E>,
    rng: &mut StdRng,
    nvars: usize,
    config: &EvolutionConfig,
    fresh: &K,
) -> (r: Population<C, E>)
    requires
        nvars > 0,
        fresh.requires(()),
        1 <= config.n_best <= population.individuals@.len(),
        config.n_elite <= config.population_size,
        config.n_elite <= population.individuals@.len(),
        forall|i: int|
            0 <= i < population.individuals@.len() ==> has_value(
                #[trigger] population.individuals@[i].prg.code@,
            ),
    ensures
        evolved(population.individuals@, r.individuals@, *config, nvars as nat, drawn_by(*fresh)),
{
    let prev = &population.individuals;
    let mut new_population: Population<C, E> = Population::with_capacity(config.population_size);
    let mut i: usize = 0;
    while i < config.population_size
        invariant
            nvars > 0,
            fresh.requires(()),
            1 <= config.n_best <= prev@.len(),
            config.n_elite <= config.population_size,
            config.n_elite <= prev@.len(),
            forall|j: int| 0 <= j < prev@.len() ==> has_value(#[trigger] prev@[j].prg.code@),
            i <= config.population_size,
            new_population.individuals@.len() == i,
            forall|j: int|
                0 <= j < i && j < config.n_elite ==> (#[trigger] new_population.individuals@[j]).prg.code@
                    == prev@[j].prg.code@ && new_population.individuals@[j].error == prev@[j].error,
            forall|j: int|
                config.n_elite <= j < i ==> (#[trigger] new_population.individuals@[j]).error is None
                    && mutated_times(
                    prev@[j % config.n_best as int].prg.code@,
                    new_population.individuals@[j].prg.code@,
                    config.n_mutations as int,
                    nvars as nat,
                    drawn_by(*fresh),
                ),
            forall|j: int|
                0 <= j < i ==> has_value(#[trigger] new_population.individuals@[j].prg.code@),
        decreases config.population_size - i,
    {
        let individual = if i < config.n_elite {
            prev[i].duplicate()
        } else {
            let parent = &prev[i % config.n_best];
            bred_child(parent, rng, nvars, config.n_mutations, fresh)
        };
        new_population.individuals.push(individual);
        i = i + 1;
    }
    new_population
}

/// With elitism, the best individual of a generation is carried into the next
/// one unchanged, program and error: evaluated again it scores the same, so the
/// best error of the run never increases from one generation to the next.
pub proof fn elitism_keeps_best<C, E>(
    prev: Seq<Individual<C, E>>,
    next: Seq<Individual<C, E>>,
    config: EvolutionConfig,
    nvars: nat,
    ok: spec_fn(C) -> bool,
)
    requires
        evolved(prev, next, config, nvars, ok),
        config.n_elite >= 1,
        config.population_size >= 1,
    ensures
        next.len() >= 1,
        next[0].prg.code@ == prev[0].prg.code@,
        next[0].error == prev[0].error,
{
    assert(0 < config.n_elite);
    assert(next[0].prg.code@ == prev[0].prg.code@);
}

/// `f` compares errors as the spec function `lt` does.
pub open spec fn order_kernel<E, L: Fn(E, E) -> bool>(f: L, lt: spec_fn(E, E) -> bool) -> bool {
    forall|a: E, b: E, r: bool| #[trigger] f.ensures((a, b), r) ==> r == lt(a, b)
}

/// `lt` is a strict weak order: irreflexive, transitive, and whatever lies
/// between two ordered values is ordered against one of them.
pub open spec fn strict_weak_order<E>(lt: spec_fn(E, E) -> bool) -> bool {
    &&& forall|a: E| !#[trigger] lt(a, a)
    &&& forall|a: E, b: E, c: E| #[trigger] lt(a, b) && #[trigger] lt(b, c) ==> lt(a, c)
    &&& forall|a: E, b: E, c: E| #[trigger] lt(a, b) ==> lt(a, c) || #[trigger] lt(c, b)
}

/// `order` lists each index below `n` once.
pub open spec fn is_permutation(order: Seq<usize>, n: nat) -> bool {
    &&& order.len() == n
    &&& forall|i: int| 0 <= i < order.len() ==> #[trigger] order[i] < n
    &&& forall|i: int, j: int| 0 <= i < j < order.len() ==> #[trigger] order[i] != #[trigger] order[j]
    &&& forall|v: usize| v < n ==> #[trigger] order.contains(v)
}

/// Ranked by `lt`: no key comes after a smaller one, and two keys keep their
/// order of input unless the later one is smaller.
pub open spec fn stably_sorted<E>(keys: Seq<E>, order: Seq<usize>, lt: spec_fn(E, E) -> bool) -> bool {
    forall|i: int, j: int|
        0 <= i < j < order.len() ==> !lt(keys[#[trigger] order[j] as int], keys[#[trigger] order[i] as int])
            && (order[i] > order[j] ==> lt(keys[order[i] as int], keys[order[j] as int]))
}

/// The order that ranks `keys` ascending by `less`, equal keys keeping their
/// order of input: position `i` of the result is the index of the key ranked `i`.
pub fn ranking<E: Copy, L: Fn(E, E) -> bool>(keys: &Vec<E>, less: &L) -> (order: Vec<usize>)
    requires
        forall|a: E, b: E| less.requires((a, b)),
    ensures
        is_permutation(order@, keys@.len()),
        forall|lt: spec_fn(E, E) -> bool| #[trigger] order_kernel(*less, lt) && strict_weak_order(lt)
            ==> stably_sorted(keys@, order@, lt),
{
    let n = keys.len();
    let mut order: Vec<usize> = Vec::with_capacity(n);
    let mut k: usize = 0;
    while k < n
        invariant
            n == keys@.len(),
            k <= n,
            forall|a: E, b: E| less.requires((a, b)),
            is_permutation(order@, k as nat),
            forall|lt: spec_fn(E, E) -> bool| #[trigger] order_kernel(*less, lt) && strict_weak_order(lt)
                ==> stably_sorted(keys@, order@, lt),
        decreases n - k,
    {
        let x = keys[k];
        let mut p: usize = 0;
        let mut found = false;
        while p < k && !found
            invariant
                n == keys@.len(),
                k < n,
                x == keys@[k as int],
                p <= k,
                order@.len() == k,
                is_permutation(order@, k as nat),
                forall|a: E, b: E| less.requires((a, b)),
                found ==> p < k,
                forall|lt: spec_fn(E, E) -> bool| #[trigger] order_kernel(*less, lt) ==> (forall|q: int|
                    0 <= q < p ==> !lt(x, #[trigger] keys@[order@[q] as int])) && (found ==> lt(
                    x,
                    keys@[order@[p as int] as int],
                )),
            decreases k - p + (if found { 0int } else { 1int }),
        {
            let y = keys[order[p]];
            let c = less(x, y);
            if c {
                found = true;
            } else {
                p = p + 1;
            }
            assert forall|lt: spec_fn(E, E) -> bool| #[trigger] order_kernel(*less, lt) implies (forall|
                q: int,
            | 0 <= q < p ==> !lt(x, #[trigger] keys@[order@[q] as int])) && (found ==> lt(
                x,
                keys@[order@[p as int] as int],
            )) by {
                assert(less.ensures((x, y), c));
            }
        }
        let ghost prev = order@;
        order.insert(p, k);
        assert(order@[p as int] == k);
        assert forall|v: usize| v < k + 1 implies #[trigger] order@.contains(v) by {
            if v < k {
                assert(prev.contains(v));
                let i = choose|i: int| 0 <= i < prev.len() && prev[i] == v;
                if i < p {
                    assert(order@[i] == v);
                } else {
                    assert(order@[i + 1] == v);
                }
            } else {
                assert(order@[p as int] == v);
            }
        }
        assert forall|i: int| 0 <= i < order@.len() implies #[trigger] order@[i] < k + 1 by {
            if i < p {
                assert(order@[i] == prev[i]);
            } else if i > p {
                assert(order@[i] == prev[i - 1]);
            }
        }
        assert forall|i: int, j: int| 0 <= i < j < order@.len() implies #[trigger] order@[i]
            != #[trigger] order@[j] by {
            let pi = if i < p { i } else { i - 1 };
            let pj = if j < p { j } else { j - 1 };
            if i != p && j != p {
                assert(order@[i] == prev[pi] && order@[j] == prev[pj]);
            } else if i == p {
                assert(order@[j] == prev[pj]);
            } else {
                assert(order@[i] == prev[pi]);
            }
        }
        assert forall|lt: spec_fn(E, E) -> bool| #[trigger] order_kernel(*less, lt) && strict_weak_order(lt)
            implies stably_sorted(keys@, order@, lt) by {
            assert(stably_sorted(keys@, prev, lt));
            assert forall|i: int, j: int| 0 <= i < j < order@.len() implies !lt(
                keys@[#[trigger] order@[j] as int],
                keys@[#[trigger] order@[i] as int],
            ) && (order@[i] > order@[j] ==> lt(keys@[order@[i] as int], keys@[order@[j] as int])) by {
                let pi = if i < p { i } else { i - 1 };
                let pj = if j < p { j } else { j - 1 };
                if i != p && j != p {
                    assert(order@[i] == prev[pi] && order@[j] == prev[pj]);
                    assert(pi < pj);
                    assert(!lt(keys@[prev[pj] as int], keys@[prev[pi] as int]));
                } else if j == p {
                    assert(order@[i] == prev[pi]);
                    assert(pi < p);
                    assert(!lt(x, keys@[prev[pi] as int]));
                } else {
                    // i == p: the new key goes before a later entry
                    assert(order@[j] == prev[pj]);
                    assert(found);
                    let kp = keys@[prev[p as int] as int];
                    let kj = keys@[prev[pj] as int];
                    assert(lt(x, kp));
                    assert(prev[pj] < k);
                    if pj == p {
                        if lt(kj, x) {
                            assert(lt(kj, kp));
                            assert(!lt(kp, kp));
                        }
                        assert(lt(x, kj));
                    } else {
                        assert(p < pj);
                        assert(!lt(kj, kp));
                        if lt(kj, x) {
                            assert(lt(kj, kp));
                        }
                        assert(lt(x, kj) || lt(kj, kp));
                        assert(lt(x, kj));
                    }
                }
            }
        }
        k = k + 1;
    }
    order
}

/// The errors of evaluated individuals, in order.
pub open spec fn errors_of<C, E>(individuals: Seq<Individual<C, E>>) -> Seq<E> {
    individuals.map_values(|ind: Individual<C, E>| ind.error->Some_0)
}

/// Every individual has been evaluated.
pub open spec fn all_evaluated<C, E>(individuals: Seq<Individual<C, E>>) -> bool {
    forall|i: int| 0 <= i < individuals.len() ==> (#[trigger] individuals[i]).error is Some
}

/// Ranks an evaluated population: the individuals ascending by error as
/// `less` compares them, individuals of equal error keeping their order.
pub fn rank<C: Copy, E: Copy, L: Fn(E, E) -> bool>(population: &Population<C, E>, less: &L) -> (r:
    Population<C, E>)
    requires
        all_evaluated(population.individuals@),
        forall|a: E, b: E| less.requires((a, b)),
    ensures
        exists|order: Seq<usize>|
            #[trigger] is_permutation(order, population.individuals@.len()) && (forall|i: int|
                0 <= i < order.len() ==> (#[trigger] r.individuals@[i]).prg.code@
                    == population.individuals@[order[i] as int].prg.code@ && r.individuals@[i].error
                    == population.individuals@[order[i] as int].error) && r.individuals@.len()
                == order.len() && (forall|lt: spec_fn(E, E) -> bool|
                #[trigger] order_kernel(*less, lt) && strict_weak_order(lt) ==> stably_sorted(
                    errors_of(population.individuals@),
                    order,
                    lt,
                )),
{
    let old_inds = &population.individuals;
    let n = old_inds.len();
    let mut keys: Vec<E> = Vec::with_capacity(n);
    let mut i: usize = 0;
    while i < n
        invariant
            n == old_inds@.len(),
            i <= n,
            all_evaluated(old_inds@),
            keys@ == errors_of(old_inds@).take(i as int),
        decreases n - i,
    {
        assert(old_inds@[i as int].error is Some);
        let e = old_inds[i].error.unwrap();
        keys.push(e);
        i = i + 1;
        assert(keys@ =~= errors_of(old_inds@).take(i as int));
    }
    assert(keys@ =~= errors_of(old_inds@));
    let order = ranking(&keys, less);
    let mut ranked: Vec<Individual<C, E>> = Vec::with_capacity(n);
    let mut j: usize = 0;
    while j < n
        invariant
            n == old_inds@.len(),
            j <= n,
            is_permutation(order@, n as nat),
            ranked@.len() == j,
            forall|q: int|
                0 <= q < j ==> (#[trigger] ranked@[q]).prg.code@ == old_inds@[order@[q] as int].prg.code@
                    && ranked@[q].error == old_inds@[order@[q] as int].error,
        decreases n - j,
    {
        let ind = old_inds[order[j]].duplicate();
        ranked.push(ind);
        j = j + 1;
    }
    let r = Population { individuals: ranked };
    assert(is_permutation(order@, population.individuals@.len()));
    r
}

/// With elitism, the best error of a run never increases: breed a generation
/// whose best individual is `prev[0]`, score every program with a fitness
/// `fit` and rank by a strict weak order `lt`; the new best is not worse than
/// the score of `prev[0]`.
pub proof fn best_error_never_increases<C, E>(
    prev: Seq<Individual<C, E>>,
    bred: Seq<Individual<C, E>>,
    config: EvolutionConfig,
    nvars: nat,
    fit: spec_fn(Seq<crate::expr::Expr<C>>) -> E,
    lt: spec_fn(E, E) -> bool,
    order: Seq<usize>,
    ok: spec_fn(C) -> bool,
)
    requires
        evolved(prev, bred, config, nvars, ok),
        config.n_elite >= 1,
        config.population_size >= 1,
        strict_weak_order(lt),
        is_permutation(order, bred.len()),
        stably_sorted(bred.map_values(|ind: Individual<C, E>| fit(ind.prg.code@)), order, lt),
    ensures
        !lt(fit(prev[0].prg.code@), fit(bred[order[0] as int].prg.code@)),
{
    let keys = bred.map_values(|ind: Individual<C, E>| fit(ind.prg.code@));
    elitism_keeps_best(prev, bred, config, nvars, ok);
    assert(keys[0] == fit(prev[0].prg.code@));
    assert(order.contains(0usize));
    let q = choose|q: int| 0 <= q < order.len() && order[q] == 0usize;
    if q > 0 {
        assert(!lt(keys[order[q] as int], keys[order[0] as int]));
    } else {
        assert(!lt(keys[0], keys[0]));
    }
}

} // verus!
