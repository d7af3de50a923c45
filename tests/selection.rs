use optimizer::genome::{Genome, FITNESS_ONE};
use optimizer::selection::{demo_select, rank_sus_select, sus_from_offset, sus_select, OFFSET_SCALE};

fn population() -> Vec<Genome> {
    vec![
        Genome::new_empty(0).with_fitness(10 * FITNESS_ONE),
        Genome::new_empty(0).with_fitness(45 * FITNESS_ONE / 10),
        Genome::new_empty(0).with_fitness(FITNESS_ONE),
        Genome::new_empty(0).with_fitness(FITNESS_ONE / 2),
    ]
}

fn count(selection: &[usize], i: usize) -> usize {
    selection.iter().filter(|s| **s == i).count()
}

#[test]
fn test_sus() {
    let mut rng = rand::XorShiftRng::new_unseeded();
    for _ in 0..60 {
        let pop = population();
        let selection = sus_select(&pop, 4, &mut rng);

        assert_eq!(selection.len(), 4);
        assert!(count(&selection, 0) >= 2);
        assert!(count(&selection, 0) <= 3);

        assert!(count(&selection, 1) >= 1);
        assert!(count(&selection, 1) <= 2);

        assert!(count(&selection, 2) <= 1);
        assert!(count(&selection, 3) <= 1);
    }
}

#[test]
fn test_rank_sus() {
    let mut rng = rand::XorShiftRng::new_unseeded();
    for _ in 0..60 {
        let pop = population();
        let selection = rank_sus_select(&pop, 4, &mut rng);

        assert_eq!(selection.len(), 4);
        assert!(count(&selection, 0) >= 1);
        assert!(count(&selection, 0) <= 2);

        assert!(count(&selection, 1) >= 1);
        assert!(count(&selection, 1) <= 2);

        assert!(count(&selection, 2) <= 1);
        assert!(count(&selection, 3) <= 1);
    }
}

#[test]
fn sus_with_fixed_offsets() {
    // weights 4, 3, 2, 1 and four pointers at 0, 1, 2, 3 (+ offset)
    let w: Vec<u128> = vec![4, 3, 2, 1];
    assert_eq!(sus_from_offset(&w, 4, 0), vec![0, 0, 1, 2]);
    assert_eq!(sus_from_offset(&w, 4, OFFSET_SCALE / 2), vec![0, 0, 1, 2]);
    assert_eq!(sus_from_offset(&w, 4, OFFSET_SCALE - 1), vec![0, 1, 2, 3]);
    assert_eq!(sus_from_offset(&w, 0, 5), Vec::<usize>::new());
    assert_eq!(sus_from_offset(&w, 10, 0), vec![0, 0, 0, 0, 1, 1, 1, 2, 2, 3]);
}

#[test]
fn selection_length_matches_count() {
    let mut rng = rand::XorShiftRng::new_unseeded();
    let pop = population();
    for count in 0..30 {
        assert_eq!(rank_sus_select(&pop, count, &mut rng).len(), count);
        assert_eq!(sus_select(&pop, count, &mut rng).len(), count);
    }
}

#[test]
fn demo_select_takes_the_first() {
    let pop = population();
    assert_eq!(demo_select(&pop, 2), vec![0, 1]);
    assert_eq!(demo_select(&pop, 9), vec![0, 1, 2, 3]);
}
