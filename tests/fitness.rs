use chrono::{TimeZone, Utc};
use optimizer::fitness::{balance_quality_of, fitness, integer_sqrt, PairIter, TreeState};
use optimizer::genome::{ActivityType, Genome, Optimization, FITNESS_ONE};
use optimizer::tree::{testtree, NodeRef};

fn ts(y: i32, mo: u32, d: u32, h: u32, mi: u32, s: u32) -> i64 {
    Utc.with_ymd_and_hms(y, mo, d, h, mi, s).unwrap().timestamp()
}

fn opt_between(start: i64, end: i64) -> Optimization {
    let (tree, root) = testtree();
    Optimization::new(start, end, tree, root)
}

fn project(k: usize) -> NodeRef {
    let (tree, root) = testtree();
    tree.node(root).children[k]
}

#[test]
fn balanced_gets_good_rating() {
    let genome1 = Genome::preinit(vec![
        (ts(2015, 1, 1, 15, 20, 0), ActivityType::WorkOn(project(0))),
        (ts(2015, 1, 1, 15, 30, 0), ActivityType::WorkOn(project(1))),
        (ts(2015, 1, 1, 15, 40, 0), ActivityType::WorkOn(project(2))),
        (ts(2015, 1, 1, 15, 50, 0), ActivityType::Nothing),
    ]);
    let opt1 = opt_between(ts(2015, 1, 1, 15, 20, 0), ts(2015, 1, 1, 15, 50, 0));
    let treestate1 = TreeState::new(&opt1);
    let f1 = fitness(&treestate1, &opt1, &genome1);

    let genome2 = Genome::preinit(vec![
        (ts(2015, 1, 1, 15, 0, 0), ActivityType::WorkOn(project(0))),
        (ts(2015, 1, 1, 15, 30, 0), ActivityType::WorkOn(project(1))),
        (ts(2015, 1, 1, 15, 40, 0), ActivityType::WorkOn(project(2))),
        (ts(2015, 1, 1, 15, 50, 0), ActivityType::Nothing),
    ]);
    let opt2 = opt_between(ts(2015, 1, 1, 15, 0, 0), ts(2015, 1, 1, 15, 50, 0));
    let f2 = fitness(&treestate1, &opt2, &genome2);
    assert!(f1 > f2);
}

#[test]
fn test_perfect_genome() {
    let opt = opt_between(ts(2015, 1, 1, 0, 0, 0), ts(2015, 1, 4, 0, 0, 0));
    let genome = Genome::preinit(vec![
        (ts(2015, 1, 1, 0, 0, 0), ActivityType::WorkOn(project(0))),
        (ts(2015, 1, 2, 0, 0, 0), ActivityType::WorkOn(project(1))),
        (ts(2015, 1, 3, 0, 0, 0), ActivityType::WorkOn(project(2))),
        (ts(2015, 1, 4, 0, 0, 0), ActivityType::Nothing),
    ]);
    let treestate = TreeState::new(&opt);
    let f = fitness(&treestate, &opt, &genome);
    let low = 99_990 * FITNESS_ONE / 1000;
    let high = 100_001 * FITNESS_ONE / 1000;
    assert!((low < f) && (f < high));
    assert_eq!(f, 100 * FITNESS_ONE);
}

#[test]
fn more_time_rating() {
    let opt = opt_between(ts(2015, 1, 1, 15, 0, 0), ts(2015, 1, 1, 16, 0, 0));
    let genome1 = Genome::preinit(vec![
        (ts(2015, 1, 1, 15, 20, 0), ActivityType::WorkOn(project(0))),
        (ts(2015, 1, 1, 15, 50, 0), ActivityType::Nothing),
    ]);
    let treestate = TreeState::new(&opt);
    let f1 = fitness(&treestate, &opt, &genome1);

    let genome2 = Genome::preinit(vec![
        (ts(2015, 1, 1, 15, 0, 0), ActivityType::WorkOn(project(0))),
        (ts(2015, 1, 1, 15, 50, 0), ActivityType::Nothing),
    ]);
    let f2 = fitness(&treestate, &opt, &genome2);
    assert!(f1 < f2);
}

#[test]
fn all_nothing_scores_zero() {
    let opt = opt_between(1000, 2000);
    let genome = Genome::new(&opt);
    let treestate = TreeState::new(&opt);
    assert_eq!(fitness(&treestate, &opt, &genome), 0);
}

#[test]
fn equal_focus_keeps_full_balance() {
    // equal time on the three projects: only utilization (3/4) counts
    let opt = opt_between(0, 400);
    let genome = Genome::preinit(vec![
        (0, ActivityType::WorkOn(project(0))),
        (100, ActivityType::WorkOn(project(1))),
        (200, ActivityType::WorkOn(project(2))),
        (300, ActivityType::Nothing),
        (400, ActivityType::Nothing),
    ]);
    let treestate = TreeState::new(&opt);
    assert_eq!(fitness(&treestate, &opt, &genome), 75 * FITNESS_ONE);
}

#[test]
fn no_project_focus_scores_zero_balance() {
    // work on the task only: the projects get no time, so balance is zero
    let opt = opt_between(0, 100);
    let genome = Genome::preinit(vec![
        (0, ActivityType::WorkOn(NodeRef(0))),
        (100, ActivityType::Nothing),
    ]);
    let treestate = TreeState::new(&opt);
    assert_eq!(fitness(&treestate, &opt, &genome), 0);
}

#[test]
fn uneven_focus_balance_value() {
    // times 200, 0, 0: S = 200, n = 3, deviation = 400^2 + 200^2 + 200^2
    // = 240000, / 3 = 80000, isqrt = 282; quality 200 / 482
    let opt = opt_between(0, 200);
    let genome = Genome::preinit(vec![
        (0, ActivityType::WorkOn(project(0))),
        (200, ActivityType::Nothing),
    ]);
    let treestate = TreeState::new(&opt);
    let expected = 100 * FITNESS_ONE * 200 / 482;
    assert_eq!(fitness(&treestate, &opt, &genome), expected);
}

#[test]
fn penalties_cost_five_percent_each() {
    // finish penalty, then repeated work on the same project
    let opt = opt_between(0, 300);
    let genome = Genome::preinit(vec![
        (0, ActivityType::Finish(project(0))),
        (0, ActivityType::WorkOn(project(0))),
        (100, ActivityType::WorkOn(project(0))),
        (100, ActivityType::WorkOn(project(1))),
        (200, ActivityType::WorkOn(project(2))),
        (300, ActivityType::Nothing),
    ]);
    let treestate = TreeState::new(&opt);
    let f = 100 * FITNESS_ONE * 95 / 100 * 95 / 100;
    assert_eq!(fitness(&treestate, &opt, &genome), f);
}

#[test]
fn task_work_outside_project_is_penalized() {
    let opt = opt_between(0, 100);
    let genome = Genome::preinit(vec![
        (0, ActivityType::WorkOn(NodeRef(0))),
        (100, ActivityType::Nothing),
    ]);
    let mut treestate = TreeState::new(&opt);
    // give the projects equal history so that balance is perfect
    treestate.nodestates[1] = 50;
    treestate.nodestates[2] = 50;
    treestate.nodestates[3] = 50;
    treestate.total_time_working = 150;
    let f = 100 * FITNESS_ONE * 95 / 100 * 250 / 100;
    assert_eq!(fitness(&treestate, &opt, &genome), f);
}

#[test]
fn integer_square_roots() {
    assert_eq!(integer_sqrt(0), 0);
    assert_eq!(integer_sqrt(1), 1);
    assert_eq!(integer_sqrt(80_000), 282);
    assert_eq!(integer_sqrt(u128::MAX), u64::MAX as u128);
    assert_eq!(integer_sqrt(1 << 100), 1 << 50);
}

#[test]
fn pairs_of_consecutive_items() {
    let mut it = PairIter::new(vec![1, 2, 3]);
    assert_eq!(it.next(), Some((1, 2)));
    assert_eq!(it.next(), Some((2, 3)));
    assert_eq!(it.next(), None);
}

#[test]
fn balance_quality_fractions() {
    let cases: Vec<(Vec<u64>, (u128, u128))> = vec![
        (vec![200, 0, 0], (200, 482)),
        (vec![7, 7, 7], (21, 21)),
        (vec![0, 0], (0, 1)),
        (vec![], (1, 1)),
    ];
    for (times, expected) in cases {
        assert_eq!(balance_quality_of(&times), expected);
    }
}
