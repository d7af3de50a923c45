use optimizer::engine::{evolve, fill_fitnesses, fit_to_horizon, generate_pop, next_generation, Config};
use optimizer::fitness::{fitness, TreeState};
use optimizer::genome::{ActivityType, Genome, Optimization};
use optimizer::tree::{testtree, NodeRef};

fn context() -> Optimization {
    let (tree, root) = testtree();
    Optimization::new(1_000_000, 1_000_000 + 14 * 24 * 3600, tree, root)
}

fn small() -> Config {
    Config { pop_size: 30, elite_count: 5, generation_count: 6 }
}

fn fitnesses(pop: &[Genome]) -> Vec<u128> {
    pop.iter().map(|g| g.cached_fitness.unwrap()).collect()
}

#[test]
fn standard_configuration() {
    let c = Config::standard();
    assert_eq!((c.pop_size, c.elite_count, c.generation_count), (300, 50, 90));
}

#[test]
fn evolve_is_deterministic() {
    let opt = context();
    let run = || {
        let mut rng = rand::XorShiftRng::new_unseeded();
        let pop = generate_pop(&opt, small(), &mut rng);
        evolve(TreeState::new(&opt), pop, &opt, small(), &mut rng)
    };
    let a = run();
    let b = run();
    assert_eq!(a, b);
    assert_eq!(fitnesses(&a), fitnesses(&b));
}

#[test]
fn evolve_keeps_size_and_never_loses_the_best() {
    let opt = context();
    let state = TreeState::new(&opt);
    let mut rng = rand::XorShiftRng::new_unseeded();
    let pop = generate_pop(&opt, small(), &mut rng);
    let initial_best = pop.iter().map(|g| fitness(&state, &opt, g)).max().unwrap();
    let result = evolve(state.clone(), pop, &opt, small(), &mut rng);
    assert_eq!(result.len(), 30);
    let f = fitnesses(&result);
    assert!(f.windows(2).all(|w| w[0] >= w[1]));
    assert!(f[0] >= initial_best);
    for g in &result {
        assert_eq!(g.cached_fitness, Some(fitness(&state, &opt, g)));
    }
}

#[test]
fn generations_are_monotone_at_the_top() {
    let opt = context();
    let state = TreeState::new(&opt);
    let cfg = small();
    let mut rng = rand::XorShiftRng::new_unseeded();
    let mut pop = fill_fitnesses(&state, generate_pop(&opt, cfg, &mut rng), &opt);
    for _ in 0..8 {
        let best = pop[0].cached_fitness.unwrap();
        let next = next_generation(pop, &opt, cfg, &mut rng);
        assert_eq!(next.len(), cfg.pop_size);
        pop = fill_fitnesses(&state, next, &opt);
        assert_eq!(pop.len(), cfg.pop_size);
        assert!(pop[0].cached_fitness.unwrap() >= best);
    }
}

#[test]
fn fill_scores_only_missing_and_orders() {
    let opt = context();
    let state = TreeState::new(&opt);
    let mut rng = rand::XorShiftRng::new_unseeded();
    let mut pop = generate_pop(&opt, Config { pop_size: 5, elite_count: 1, generation_count: 1 }, &mut rng);
    pop[2].cached_fitness = Some(u64::MAX as u128);
    let filled = fill_fitnesses(&state, pop, &opt);
    assert_eq!(filled[0].cached_fitness, Some(u64::MAX as u128));
    assert!(fitnesses(&filled).windows(2).all(|w| w[0] >= w[1]));
}

#[test]
fn fresh_genomes_hold_sentinels_and_genes() {
    let opt = context();
    let mut rng = rand::XorShiftRng::new_unseeded();
    let pop = generate_pop(&opt, small(), &mut rng);
    assert_eq!(pop.len(), 30);
    for g in &pop {
        assert_eq!(g.pool.len(), 27);
        assert_eq!(g.pool[0].start, opt.start);
        assert_eq!(g.pool[26].start, opt.end);
    }
}

#[test]
fn loaded_genomes_are_fitted_to_the_horizon() {
    let opt = context();
    let g = Genome::preinit(vec![
        (opt.end + 10, ActivityType::Nothing),
        (opt.start + 5, ActivityType::WorkOn(NodeRef(1))),
        (opt.start + 1, ActivityType::WorkOn(NodeRef(99))),
        (opt.start - 1, ActivityType::Nothing),
        (opt.start, ActivityType::Finish(NodeRef(2))),
    ])
    .with_fitness(9);
    let r = fit_to_horizon(&opt, &g);
    assert_eq!(
        r,
        Genome::preinit(vec![
            (opt.start, ActivityType::Finish(NodeRef(2))),
            (opt.start + 5, ActivityType::WorkOn(NodeRef(1))),
        ])
    );
    assert!(r.cached_fitness.is_none());
}
