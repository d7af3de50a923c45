use chrono::{TimeZone, Utc};
use optimizer::cache::{format_fitness, pop_from_str, pop_to_str, CacheError};
use optimizer::genome::{Activity, ActivityType, Genome, Optimization, FITNESS_ONE};
use optimizer::tree::testtree;

fn ts(y: i32, mo: u32, d: u32, h: u32, mi: u32, s: u32) -> i64 {
    Utc.with_ymd_and_hms(y, mo, d, h, mi, s).unwrap().timestamp()
}

fn testgenome() -> (Optimization, Genome) {
    let (tree, root) = testtree();
    let c = tree.node(root).children.clone();
    let opt = Optimization::new(ts(2015, 2, 12, 0, 0, 0), ts(2015, 2, 12, 0, 0, 0), tree, root);
    let genome = Genome::preinit(vec![
        (ts(2015, 2, 12, 0, 0, 0), ActivityType::WorkOn(c[0])),
        (ts(2015, 2, 14, 0, 0, 0), ActivityType::Finish(c[1])),
        (ts(2015, 2, 15, 0, 0, 0), ActivityType::Finish(c[2])),
    ]);
    (opt, genome)
}

#[test]
fn genome_to_string() {
    let (opt, genome) = testgenome();
    assert_eq!(
        genome.to_string(&opt.tree).unwrap(),
        [
            "fitness none\n",
            "2015-02-12T00:00:00 workon 11111\n",
            "2015-02-14T00:00:00 finish 22222\n",
            "2015-02-15T00:00:00 finish 33333\n",
        ]
        .concat()
    );
}

#[test]
fn genome_with_fitness_to_string() {
    let (opt, genome) = testgenome();
    let genome = genome.with_fitness(55 * FITNESS_ONE / 10);
    assert_eq!(
        genome.to_string(&opt.tree).unwrap(),
        [
            "fitness 5.5\n",
            "2015-02-12T00:00:00 workon 11111\n",
            "2015-02-14T00:00:00 finish 22222\n",
            "2015-02-15T00:00:00 finish 33333\n",
        ]
        .concat()
    );
}

#[test]
fn genome_from_string() {
    let string = [
        "fitness 5.5\n",
        "2015-02-12T00:00:00 workon 11111\n",
        "2015-02-14T00:00:00 finish 22222\n",
        "2015-02-15T00:00:00 finish 33333\n",
    ]
    .concat();
    let (opt, genome) = testgenome();
    let loaded_genome = Genome::from_string(&opt.tree, &string).unwrap();
    assert_eq!(loaded_genome, genome);
    assert_eq!(loaded_genome.cached_fitness, Some(55 * FITNESS_ONE / 10));
    assert_eq!(loaded_genome.to_string(&opt.tree).unwrap(), string);
}

#[test]
fn fitness_is_written_without_trailing_zeros() {
    assert_eq!(format_fitness(100 * FITNESS_ONE), "100");
    assert_eq!(format_fitness(0), "0");
    assert_eq!(format_fitness(1), "0.000000001");
    assert_eq!(format_fitness(FITNESS_ONE + FITNESS_ONE / 4), "1.25");
}

#[test]
fn unknown_ids_read_as_nothing() {
    let (opt, _) = testgenome();
    let a = Activity::from_string(&opt.tree, "  2015-02-12T00:00:00 workon zzzzz  ").unwrap();
    assert_eq!(a.activitytype, ActivityType::Nothing);
    assert_eq!(a.start, ts(2015, 2, 12, 0, 0, 0));
}

#[test]
fn bad_activity_lines_are_refused() {
    let (opt, _) = testgenome();
    let t = &opt.tree;
    assert_eq!(Activity::from_string(t, "2015-02-12T00:00:00"), Err(CacheError::WrongSpaces));
    assert_eq!(Activity::from_string(t, "yesterday nothing"), Err(CacheError::BadTime));
    assert_eq!(Activity::from_string(t, "2015-02-12T00:00:00 nothing 11111"), Err(CacheError::NothingWithId));
    assert_eq!(Activity::from_string(t, "2015-02-12T00:00:00 start 11111"), Err(CacheError::InvalidType));
    assert_eq!(Activity::from_string(t, "2015-02-12T00:00:00 workon 11111 x"), Err(CacheError::WrongSpaces));
    assert_eq!(Activity::from_string(t, "2015-02-12T00:00:00 something"), Err(CacheError::WrongSpaces));
    match Genome::from_string(t, "fitness 3\n2015-02-12T00:00:00 nothing\nbroken\n") {
        Ok(_) => panic!("expected an error"),
        Err(e) => assert!(e.starts_with("Line 3: ")),
    }
}

#[test]
fn population_round_trip() {
    let (opt, genome) = testgenome();
    let pop = vec![genome.clone().with_fitness(2 * FITNESS_ONE), genome.clone()];
    let text = pop_to_str(&opt.tree, &pop).unwrap();
    assert!(text.contains("genome_separator\n"));
    let back = pop_from_str(&opt.tree, &text).unwrap();
    assert_eq!(back.len(), 2);
    assert_eq!(back[0], genome);
    assert_eq!(back[1], genome);
    assert_eq!(back[0].cached_fitness, Some(2 * FITNESS_ONE));
    assert_eq!(back[1].cached_fitness, None);
    assert_eq!(pop_to_str(&opt.tree, &back).unwrap(), text);
}

#[test]
fn write_to_string_appends() {
    let (opt, genome) = testgenome();
    let mut s = "head\n".to_string();
    assert!(genome.write_to_string(&opt.tree, &mut s));
    assert_eq!(s, ["head\n".to_string(), genome.to_string(&opt.tree).unwrap()].concat());
    let far = Genome::preinit(vec![(i64::MAX, ActivityType::Nothing)]);
    let mut t = "x".to_string();
    assert!(!far.write_to_string(&opt.tree, &mut t));
    assert_eq!(t, "x");
}

#[test]
fn fitness_headers_are_read_back() {
    let (opt, _) = testgenome();
    let t = &opt.tree;
    assert_eq!(Genome::from_string(t, "fitness none\n").unwrap().cached_fitness, None);
    assert_eq!(Genome::from_string(t, "fitness 100\n").unwrap().cached_fitness, Some(100 * FITNESS_ONE));
    assert_eq!(Genome::from_string(t, "fitness 0.000000001\n").unwrap().cached_fitness, Some(1));
    assert_eq!(Genome::from_string(t, "fitness 1.25\n").unwrap().cached_fitness, Some(FITNESS_ONE + FITNESS_ONE / 4));
    for f in [0u128, 1, 7 * FITNESS_ONE + 3, 123_456_789_012, 55 * FITNESS_ONE / 10] {
        let text = ["fitness ", &format_fitness(f), "\n"].concat();
        assert_eq!(Genome::from_string(t, &text).unwrap().cached_fitness, Some(f));
    }
    match Genome::from_string(t, "fitness abc\n") {
        Ok(_) => panic!("expected an error"),
        Err(e) => assert_eq!(e, "Line 1: Invalid fitness"),
    }
    assert!(Genome::from_string(t, "fitness 1.0000000001\n").is_err());
}

#[test]
fn record_errors_name_genome_and_line() {
    let (opt, _) = testgenome();
    let text = "fitness none\n2015-02-12T00:00:00 nothing\ngenome_separator\nfitness none\nyesterday nothing\n";
    match pop_from_str(&opt.tree, text) {
        Ok(_) => panic!("expected an error"),
        Err(e) => assert_eq!(e, "Parsing genome 2: Line 2: Invalid time"),
    }
}
