use pixapprox::expr::{Expr, Program};
use pixapprox::mutate::{
    binary_rule, make_const, mutate, mutated_binary_op, mutated_constant, mutated_unary_op,
    mutated_var, unary_rule, value_rule, MAX_MUTATION_SIZE,
};
use pixapprox::pixapprox::{evolve, rank, ranking, EvolutionConfig};
use pixapprox::population::{Individual, Population};
use rand::rngs::StdRng;
use rand::SeedableRng;

fn half() -> f32 {
    0.5
}

#[test]
fn value_rules_keep_one_value() {
    let x = Expr::Const(0.25f32);
    assert_eq!(vec![Expr::Const(0.5)], value_rule(x, 0, 0.5, 1));
    assert_eq!(vec![Expr::Var(1)], value_rule(x, 1, 0.5, 1));
    assert_eq!(vec![x, Expr::Const(0.5), Expr::Add], value_rule(x, 2, 0.5, 1));
    assert_eq!(vec![Expr::Const(0.5), x, Expr::Add], value_rule(x, 3, 0.5, 1));
    assert_eq!(vec![x, Expr::Const(0.5), Expr::Sub], value_rule(x, 4, 0.5, 1));
    assert_eq!(vec![Expr::Const(0.5), x, Expr::Sub], value_rule(x, 5, 0.5, 1));
    assert_eq!(vec![x, Expr::Const(0.5), Expr::Mul], value_rule(x, 6, 0.5, 1));
    assert_eq!(vec![Expr::Const(0.5), x, Expr::Mul], value_rule(x, 7, 0.5, 1));
    assert_eq!(vec![x, Expr::Cos], value_rule(x, 8, 0.5, 1));
    assert_eq!(vec![x, Expr::Sin], value_rule(x, 9, 0.5, 1));
    assert_eq!(vec![x, Expr::Atan], value_rule(x, 10, 0.5, 1));
}

#[test]
fn operator_rules() {
    assert_eq!(vec![Expr::<f32>::Sub], binary_rule(1));
    assert_eq!(vec![Expr::<f32>::Mul], binary_rule(2));
    assert_eq!(vec![Expr::Const(0.5f32), Expr::Mul], unary_rule(3, 0.5));
    assert_eq!(Vec::<Expr<f32>>::new(), unary_rule(5, 0.5));
}

#[test]
fn random_rewrites_are_rules() {
    let mut rng = StdRng::seed_from_u64(7);
    for _ in 0..200 {
        let r: Vec<Expr<f32>> = mutated_binary_op(&mut rng);
        assert!(r == vec![Expr::Add] || r == vec![Expr::Sub] || r == vec![Expr::Mul]);
        let r = mutated_unary_op(&mut rng, &half);
        assert!(r.len() <= 2);
        let r = mutated_constant(&mut rng, 0.25f32, 2, &half);
        assert!(!r.is_empty() && r.len() <= MAX_MUTATION_SIZE);
        let r = mutated_var(&mut rng, 1, 2, &half);
        assert!(!r.is_empty() && r.len() <= MAX_MUTATION_SIZE);
        for e in &r {
            if let Expr::Var(i) = e {
                assert!(*i < 2);
            }
        }
    }
    assert_eq!(Expr::Const(0.5f32), make_const(&half));
}

#[test]
fn mutation_changes_length_within_bounds() {
    for seed in 0..50u64 {
        let mut rng = StdRng::seed_from_u64(seed);
        let mut prg = Program {
            code: vec![Expr::Const(1.0f32)],
        };
        for _ in 0..40 {
            let before = prg.code.len();
            let chosen_value = prg.code.iter().all(|e| matches!(e, Expr::Const(_) | Expr::Var(_)));
            mutate(&mut rng, &mut prg, 2, &half);
            let after = prg.code.len();
            assert!(after <= before + MAX_MUTATION_SIZE - 1);
            assert!(after + 1 >= before);
            assert!(after > 0);
            if chosen_value {
                assert!(after >= before);
            }
        }
    }
}

#[test]
fn single_literal_changes_on_mutation() {
    let mut rng = StdRng::seed_from_u64(3);
    let mut changed = false;
    for _ in 0..20 {
        let mut prg = Program {
            code: vec![Expr::Const(1.0f32)],
        };
        mutate(&mut rng, &mut prg, 2, &half);
        if prg.code != vec![Expr::Const(1.0)] {
            changed = true;
        }
    }
    assert!(changed);
}

#[test]
fn population_starts_with_literals() {
    let rng = StdRng::seed_from_u64(1);
    let pop: Population<f32, f32> = Population::random(&rng, 4, 1.0);
    assert_eq!(4, pop.size());
    for ind in &pop.individuals {
        assert_eq!(vec![Expr::Const(1.0)], ind.prg.code);
        assert_eq!(None, ind.error);
    }
    let one: Individual<f32, f32> = Individual::random(&rng, 1.0);
    assert_eq!(vec![Expr::Const(1.0)], one.prg.code);
    let empty: Population<f32, f32> = Population::with_capacity(8);
    assert_eq!(0, empty.size());
}

#[test]
fn elitism_keeps_the_best() {
    let mut rng = StdRng::seed_from_u64(11);
    let best = Individual {
        prg: Program {
            code: vec![Expr::Var(0), Expr::Cos],
        },
        error: Some(1.5f32),
    };
    let other = Individual {
        prg: Program {
            code: vec![Expr::Const(0.5f32)],
        },
        error: Some(9.0f32),
    };
    let pop = Population {
        individuals: vec![best.clone(), other],
    };
    let config = EvolutionConfig {
        population_size: 6,
        n_best: 1,
        n_mutations: 3,
        n_elite: 1,
    };
    let next = evolve(0, pop, &mut rng, 2, &config, &half);
    assert_eq!(6, next.individuals.len());
    assert_eq!(best.prg.code, next.individuals[0].prg.code);
    assert_eq!(Some(1.5), next.individuals[0].error);
    for ind in &next.individuals[1..] {
        assert_eq!(None, ind.error);
        assert!(!ind.prg.code.is_empty());
    }
}

#[test]
fn without_elitism_every_child_is_mutated() {
    let mut rng = StdRng::seed_from_u64(5);
    let pop = Population {
        individuals: vec![Individual {
            prg: Program {
                code: vec![Expr::Const(1.0f32)],
            },
            error: Some(2.0f32),
        }],
    };
    let config = EvolutionConfig {
        population_size: 3,
        n_best: 1,
        n_mutations: 0,
        n_elite: 0,
    };
    let next = evolve(0, pop, &mut rng, 2, &config, &half);
    assert_eq!(3, next.individuals.len());
    for ind in &next.individuals {
        assert_eq!(vec![Expr::Const(1.0)], ind.prg.code);
        assert_eq!(None, ind.error);
    }
}

fn less(a: f32, b: f32) -> bool {
    a < b
}

#[test]
fn ranking_is_stable() {
    let keys = vec![3.0f32, 1.0, 2.0, 1.0, 3.0, 0.5];
    assert_eq!(vec![5, 1, 3, 2, 0, 4], ranking(&keys, &less));
    assert_eq!(Vec::<usize>::new(), ranking(&Vec::<f32>::new(), &less));
}

#[test]
fn rank_orders_population_by_error() {
    let make = |c: f32, e: f32| Individual {
        prg: Program {
            code: vec![Expr::Const(c)],
        },
        error: Some(e),
    };
    let pop = Population {
        individuals: vec![make(1.0, 4.0), make(2.0, 2.0), make(3.0, 4.0), make(4.0, 1.0)],
    };
    let ranked = rank(&pop, &less);
    let consts: Vec<Vec<Expr<f32>>> = ranked.individuals.iter().map(|i| i.prg.code.clone()).collect();
    assert_eq!(
        vec![
            vec![Expr::Const(4.0)],
            vec![Expr::Const(2.0)],
            vec![Expr::Const(1.0)],
            vec![Expr::Const(3.0)],
        ],
        consts
    );
    let errors: Vec<Option<f32>> = ranked.individuals.iter().map(|i| i.error).collect();
    assert_eq!(vec![Some(1.0), Some(2.0), Some(4.0), Some(4.0)], errors);
}
