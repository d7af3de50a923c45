use optimizer::genome::{Activity, ActivityType, Genome, Optimization};
use optimizer::tree::{testtree, NodeRef};

#[test]
fn new_genome_has_two_sentinels() {
    let (tree, root) = testtree();
    let opt = Optimization::new(10, 20, tree, root);
    let g = Genome::new(&opt);
    assert_eq!(
        g.pool,
        vec![
            Activity { start: 10, activitytype: ActivityType::Nothing },
            Activity { start: 20, activitytype: ActivityType::Nothing },
        ]
    );
    assert!(g.cached_fitness.is_none());
    assert_eq!(opt.duration(), 10);
}

#[test]
fn projects_are_listed_in_preorder() {
    let (tree, root) = testtree();
    let opt = Optimization::new(0, 1, tree, root);
    assert_eq!(opt.projects, vec![NodeRef(1), NodeRef(2), NodeRef(3)]);
}

#[test]
fn sort_is_stable_by_start() {
    let mut g = Genome::preinit(vec![
        (5, ActivityType::WorkOn(NodeRef(1))),
        (1, ActivityType::Nothing),
        (5, ActivityType::Finish(NodeRef(2))),
        (3, ActivityType::WorkOn(NodeRef(3))),
    ])
    .with_fitness(7);
    g.sort();
    let starts: Vec<i64> = g.pool.iter().map(|a| a.start).collect();
    assert_eq!(starts, vec![1, 3, 5, 5]);
    assert_eq!(g.pool[2].activitytype, ActivityType::WorkOn(NodeRef(1)));
    assert_eq!(g.pool[3].activitytype, ActivityType::Finish(NodeRef(2)));
    assert_eq!(g.cached_fitness, Some(7));
}

#[test]
fn genomes_compare_by_activities() {
    let a = Genome::preinit(vec![(1, ActivityType::Nothing)]).with_fitness(3);
    let b = Genome::preinit(vec![(1, ActivityType::Nothing)]);
    let c = Genome::preinit(vec![(2, ActivityType::Nothing)]);
    assert!(a == b);
    assert!(a != c);
}

#[test]
fn random_times_stay_in_horizon() {
    let (tree, root) = testtree();
    let opt = Optimization::new(100, 200, tree, root);
    let mut rng = rand::XorShiftRng::new_unseeded();
    for _ in 0..100 {
        let t = opt.random_time(&mut rng);
        assert!(100 <= t && t < 200);
    }
}
