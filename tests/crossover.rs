use chrono::{TimeZone, Utc};
use optimizer::crossover::{crossover, crossover_rand, random_times, sort_times};
use optimizer::genome::{ActivityType, Genome, Optimization};
use optimizer::tree::{testtree, NodeRef};

fn ts(y: i32, mo: u32, d: u32, h: u32, mi: u32, s: u32) -> i64 {
    Utc.with_ymd_and_hms(y, mo, d, h, mi, s).unwrap().timestamp()
}

fn child(k: usize) -> NodeRef {
    let (tree, root) = testtree();
    tree.node(root).children[k]
}

fn at(h: u32) -> i64 {
    ts(2015, 2, 1, h, 0, 0)
}

fn testgenomes() -> (Optimization, Genome, Genome, Genome) {
    let (tree, root) = testtree();
    let opt = Optimization::new(ts(2015, 2, 1, 0, 0, 0), ts(2015, 2, 2, 0, 0, 0), tree, root);
    let g1 = Genome::preinit(vec![
        (at(0), ActivityType::WorkOn(child(0))),
        (at(3), ActivityType::WorkOn(child(0))),
        (at(8), ActivityType::WorkOn(child(0))),
        (at(11), ActivityType::Finish(child(0))),
        (at(19), ActivityType::Finish(child(0))),
    ]);
    let g2 = Genome::preinit(vec![
        (at(0), ActivityType::WorkOn(child(1))),
        (at(6), ActivityType::WorkOn(child(1))),
        (at(10), ActivityType::WorkOn(child(1))),
        (at(12), ActivityType::Finish(child(1))),
        (at(23), ActivityType::Finish(child(1))),
    ]);
    let g3 = Genome::preinit(vec![
        (at(0), ActivityType::WorkOn(child(2))),
        (at(4), ActivityType::WorkOn(child(2))),
        (at(9), ActivityType::WorkOn(child(2))),
        (at(12), ActivityType::Finish(child(2))),
        (at(22), ActivityType::Finish(child(2))),
    ]);
    (opt, g1, g2, g3)
}

#[test]
fn test_random_times() {
    let mut ran_doom = rand::XorShiftRng::new_unseeded();
    let (tree, root) = testtree();
    let op1 = Optimization::new(ts(2015, 1, 1, 15, 20, 0), ts(2015, 1, 1, 15, 50, 0), tree, root);
    let vec1 = vec![
        ts(2015, 1, 1, 15, 24, 58),
        ts(2015, 1, 1, 15, 29, 56),
        ts(2015, 1, 1, 15, 36, 36),
    ];
    let vec = random_times(&op1, 3, &mut ran_doom);
    assert_eq!(vec1, vec);
}

#[test]
fn test_crossing() {
    let (_opt, g1, g2, g3) = testgenomes();

    let vec = vec![at(6), at(9), at(12)];
    let (g1, g2) = crossover(&g1, &g2, &vec);

    let expected_g1 = Genome::preinit(vec![
        (at(0), ActivityType::WorkOn(child(0))),
        (at(3), ActivityType::WorkOn(child(0))),
        (at(11), ActivityType::Finish(child(0))),
        (at(23), ActivityType::Finish(child(1))),
    ]);
    let expected_g2 = Genome::preinit(vec![
        (at(0), ActivityType::WorkOn(child(1))),
        (at(6), ActivityType::WorkOn(child(1))),
        (at(8), ActivityType::WorkOn(child(0))),
        (at(10), ActivityType::WorkOn(child(1))),
        (at(12), ActivityType::Finish(child(1))),
        (at(19), ActivityType::Finish(child(0))),
    ]);

    assert_eq!(g1, expected_g1);
    assert_eq!(g2, expected_g2);

    let vec = vec![at(5), at(10), at(15)];
    let (g1, g2) = crossover(&g1, &g3, &vec);

    let expected_g1 = Genome::preinit(vec![
        (at(0), ActivityType::WorkOn(child(0))),
        (at(3), ActivityType::WorkOn(child(0))),
        (at(9), ActivityType::WorkOn(child(2))),
        (at(11), ActivityType::Finish(child(0))),
        (at(22), ActivityType::Finish(child(2))),
    ]);
    let expected_g2 = Genome::preinit(vec![
        (at(0), ActivityType::WorkOn(child(2))),
        (at(4), ActivityType::WorkOn(child(2))),
        (at(12), ActivityType::Finish(child(2))),
        (at(23), ActivityType::Finish(child(1))),
    ]);
    assert_eq!(g1, expected_g1);
    assert_eq!(g2, expected_g2);
}

#[test]
fn crossover_conserves_activities() {
    let (opt, g1, g2, _) = testgenomes();
    let mut rng = rand::XorShiftRng::new_unseeded();
    for _ in 0..50 {
        let (a, b) = crossover_rand(&opt, &g1, &g2, &mut rng);
        let mut children: Vec<(i64, ActivityType)> =
            a.pool.iter().chain(b.pool.iter()).map(|x| (x.start, x.activitytype)).collect();
        let mut parents: Vec<(i64, ActivityType)> =
            g1.pool.iter().chain(g2.pool.iter()).map(|x| (x.start, x.activitytype)).collect();
        children.sort_by_key(|x| (x.0, format!("{:?}", x.1)));
        parents.sort_by_key(|x| (x.0, format!("{:?}", x.1)));
        assert_eq!(children, parents);
        assert!(a.pool.windows(2).all(|w| w[0].start <= w[1].start));
        assert!(b.pool.windows(2).all(|w| w[0].start <= w[1].start));
        assert!(a.cached_fitness.is_none() && b.cached_fitness.is_none());
    }
}

#[test]
fn crossover_without_cuts_copies_parents() {
    let (_opt, g1, g2, _) = testgenomes();
    let (a, b) = crossover(&g1, &g2, &vec![]);
    assert_eq!(a, g1);
    assert_eq!(b, g2);
}

#[test]
fn random_times_are_sorted() {
    let (tree, root) = testtree();
    let opt = Optimization::new(0, 1000, tree, root);
    let mut rng = rand::XorShiftRng::new_unseeded();
    let v = random_times(&opt, 20, &mut rng);
    assert_eq!(v.len(), 20);
    assert!(v.windows(2).all(|w| w[0] <= w[1]));
    assert!(v.iter().all(|t| 0 <= *t && *t < 1000));
}

#[test]
fn draws_are_sorted() {
    assert_eq!(sort_times(&vec![5, -2, 5, 0, 9]), vec![-2, 0, 5, 5, 9]);
    assert_eq!(sort_times(&vec![]), Vec::<i64>::new());
}
