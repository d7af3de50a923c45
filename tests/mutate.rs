use chrono::{Duration, TimeZone, Utc};
use optimizer::genome::{ActivityType, Genome, Optimization};
use optimizer::engine::maybe_mutate;
use optimizer::genome::Activity;
use optimizer::mutate::{add_gene, mutate, mutate_with};
use optimizer::tree::testtree;

fn ts(y: i32, mo: u32, d: u32, h: u32, mi: u32, s: u32) -> i64 {
    Utc.with_ymd_and_hms(y, mo, d, h, mi, s).unwrap().timestamp()
}

#[test]
fn test_add_gene() {
    let (tree, root) = testtree();
    let c = tree.node(root).children.clone();
    let mut genome = Genome::preinit(vec![
        (ts(2015, 1, 1, 11, 0, 0), ActivityType::WorkOn(c[0])),
        (ts(2015, 1, 7, 12, 15, 0), ActivityType::WorkOn(c[1])),
        (ts(2015, 1, 15, 12, 50, 0), ActivityType::WorkOn(c[2])),
        (ts(2015, 1, 25, 14, 15, 0), ActivityType::WorkOn(c[0])),
        (ts(2015, 1, 29, 16, 0, 0), ActivityType::Nothing),
    ]);
    let start = Utc.with_ymd_and_hms(2015, 1, 1, 11, 0, 0).unwrap();
    let end = start + Duration::days(30);
    let opt = Optimization::new(start.timestamp(), end.timestamp(), tree, root);

    let mut rng = rand::XorShiftRng::new_unseeded();
    add_gene(&opt, &mut genome, &mut rng);
    genome.sort();

    assert_eq!(
        genome,
        Genome::preinit(vec![
            (ts(2015, 1, 1, 11, 0, 0), ActivityType::WorkOn(c[0])),
            (ts(2015, 1, 7, 12, 15, 0), ActivityType::WorkOn(c[1])),
            (ts(2015, 1, 15, 12, 50, 0), ActivityType::WorkOn(c[2])),
            (ts(2015, 1, 19, 5, 46, 36), ActivityType::WorkOn(c[0])),
            (ts(2015, 1, 25, 14, 15, 0), ActivityType::WorkOn(c[0])),
            (ts(2015, 1, 29, 16, 0, 0), ActivityType::Nothing),
        ])
    );
}

#[test]
fn mutation_clears_fitness_keeps_end_and_sorts() {
    let (tree, root) = testtree();
    let opt = Optimization::new(0, 10_000, tree, root);
    let mut rng = rand::XorShiftRng::new_unseeded();
    for _ in 0..200 {
        let mut genome = Genome::new(&opt).with_fitness(42);
        mutate(&opt, &mut genome, &mut rng);
        assert!(genome.cached_fitness.is_none());
        assert!(genome.pool.windows(2).all(|w| w[0].start <= w[1].start));
        let last = genome.pool.last().unwrap();
        assert_eq!(last.start, 10_000);
        assert_eq!(last.activitytype, ActivityType::Nothing);
        assert!(genome.pool.len() <= 2 + 10);
        for a in &genome.pool {
            assert!(0 <= a.start && a.start <= 10_000);
        }
    }
}

#[test]
fn added_genes_are_work_in_the_horizon() {
    let (tree, root) = testtree();
    let opt = Optimization::new(50, 60, tree, root);
    let mut rng = rand::XorShiftRng::new_unseeded();
    let mut genome = Genome::new_empty(0).with_fitness(1);
    for _ in 0..30 {
        add_gene(&opt, &mut genome, &mut rng);
    }
    assert_eq!(genome.pool.len(), 30);
    assert!(genome.cached_fitness.is_none());
    for a in &genome.pool {
        assert!(50 <= a.start && a.start < 60);
        match a.activitytype {
            ActivityType::WorkOn(n) => assert!(n.0 < 4),
            _ => panic!("not work"),
        }
    }
}

#[test]
fn mutation_with_given_draws() {
    let a = Activity { start: 30, activitytype: ActivityType::Nothing };
    let b = Activity { start: 10, activitytype: ActivityType::Nothing };
    let c = Activity { start: 50, activitytype: ActivityType::Nothing };
    let genes: Vec<Activity> = (0..10).map(|k| Activity { start: 20 + k, activitytype: ActivityType::Nothing }).collect();

    // nothing added, nothing dropped: only sorted
    let mut g = Genome::preinit(vec![(30, ActivityType::Nothing), (10, ActivityType::Nothing), (50, ActivityType::Nothing)]).with_fitness(3);
    mutate_with(&mut g, 0, 0, &vec![0, 0], &genes);
    assert_eq!(g.pool, vec![b, a, c]);
    assert!(g.cached_fitness.is_none());

    // the largest draws: nine genes added; a small w drops its activity
    let mut g = Genome::preinit(vec![(30, ActivityType::Nothing), (10, ActivityType::Nothing), (50, ActivityType::Nothing)]);
    mutate_with(&mut g, 4_294_967_295, 4_294_967_295, &vec![0, 4_294_967_295], &genes);
    let mut expected: Vec<Activity> = vec![b, c];
    expected.extend(genes[..9].iter().cloned());
    expected.sort_by_key(|x| x.start);
    assert_eq!(g.pool, expected);
    assert_eq!(g.pool.last(), Some(&c));
}

#[test]
fn coin_zero_leaves_the_genome() {
    let (tree, root) = testtree();
    let opt = Optimization::new(0, 100, tree, root);
    let mut rng = rand::XorShiftRng::new_unseeded();
    let g0 = Genome::new(&opt).with_fitness(5);
    let mut g = g0.clone();
    maybe_mutate(&opt, &mut g, 0, &mut rng);
    assert_eq!(g, g0);
    assert_eq!(g.cached_fitness, Some(5));
    maybe_mutate(&opt, &mut g, 1, &mut rng);
    assert!(g.cached_fitness.is_none());
}
