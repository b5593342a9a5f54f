use primeclue::data::Class;
use primeclue::exec::score::{
    accuracy_counts, accuracy_threshold, auc_counts, auc_threshold, Objective, ThresholdCut,
};
use primeclue::serialization::{Deserializable, Serializator};
use rand::Rng;

fn flags_for(outcomes: &[(f32, Class)], class: Class) -> Vec<bool> {
    outcomes.iter().map(|(_, c)| *c == class).collect()
}

#[test]
fn test_auc_correctness() {
    let p = Class::new(1);
    let n = Class::new(0);
    let predictions = vec![
        (0.01, p),
        (0.04, p),
        (0.11, n),
        (0.12, p),
        (0.15, p),
        (0.19, p),
        (0.22, n),
        (0.23, n),
        (0.31, p),
        (0.33, n),
        (0.39, p),
        (0.42, n),
        (0.43, p),
        (0.49, n),
        (0.51, n),
        (0.55, n),
        (0.60, p),
        (0.70, n),
        (0.80, p),
        (0.90, n),
    ];
    let flags = flags_for(&predictions, n);
    let (num, den) = auc_counts(&flags);
    assert_eq!(num, 68);
    assert_eq!(den, 100);
    let auc = num as f32 / den as f32;
    assert_eq!(auc, 0.68)
}

#[test]
fn test_auc_threshold() {
    // Classification uses >= comparison, so a threshold at the m-th sorted
    // output separates the m entries below it.  Outcomes are sorted in
    // ascending order of the guess.
    let outcomes =
        vec![(-10.0f32, Class::from(false)), (-3.0, Class::from(true)), (-1.0, Class::from(true))];
    let flags = flags_for(&outcomes, Class::from(true));
    let t = auc_threshold(&flags);
    assert_eq!(t, ThresholdCut::At(1));
    assert_eq!(outcomes[1].0, -3.0);

    let outcomes =
        vec![(-10.0f32, Class::from(true)), (-3.0, Class::from(true)), (-1.0, Class::from(true))];
    let flags = flags_for(&outcomes, Class::from(false));
    let t = auc_threshold(&flags);
    assert_eq!(t, ThresholdCut::AboveAll);
    assert_eq!(2.0 * outcomes[2].0.abs(), 2.0);

    let outcomes =
        vec![(1.0f32, Class::from(true)), (3.0, Class::from(true)), (10.0, Class::from(true))];
    let flags = flags_for(&outcomes, Class::from(false));
    let t = auc_threshold(&flags);
    assert_eq!(t, ThresholdCut::AboveAll);
    assert_eq!(2.0 * outcomes[2].0.abs(), 20.0);

    let outcomes =
        vec![(-10.0f32, Class::from(true)), (-3.0, Class::from(true)), (-1.0, Class::from(true))];
    let flags = flags_for(&outcomes, Class::from(true));
    let t = auc_threshold(&flags);
    assert_eq!(t, ThresholdCut::At(0));
    assert_eq!(outcomes[0].0, -10.0);
}

fn accuracy_at(threshold: f32, guesses: &[f32], flags: &[bool]) -> usize {
    guesses.iter().zip(flags).filter(|(g, f)| (**g >= threshold) == **f).count()
}

fn fast_accuracy_threshold(guesses: &[f32], flags: &Vec<bool>) -> f32 {
    let mut run_start = Vec::with_capacity(guesses.len());
    for i in 0..guesses.len() {
        run_start.push(i == 0 || guesses[i] != guesses[i - 1]);
    }
    guesses[accuracy_threshold(flags, &run_start)]
}

#[test]
fn test_accuracy_threshold() {
    let mut rng = rand::thread_rng();
    for _ in 0..1_000 {
        let n = rng.gen_range(1, 60);
        // a coarse value grid forces runs of equal guesses
        let mut guesses: Vec<f32> = (0..n).map(|_| rng.gen_range(0, 8) as f32).collect();
        guesses.sort_by(|a, b| a.partial_cmp(b).unwrap());
        let flags: Vec<bool> = (0..n).map(|_| rng.gen_bool(0.5)).collect();
        let fast = fast_accuracy_threshold(&guesses, &flags);
        let fast_accuracy = accuracy_at(fast, &guesses, &flags);
        // the fast threshold is at least as accurate as every candidate,
        // the naive scan's optimum included
        for candidate in &guesses {
            assert!(fast_accuracy >= accuracy_at(*candidate, &guesses, &flags));
        }
    }
}

#[test]
fn test_accuracy_threshold_with_repeated_guesses() {
    // the best unrestricted cut (index 2) falls inside the run of equal
    // guesses, so the threshold must move to the next run instead
    let guesses = vec![1.0f32, 1.0, 1.0, 5.0];
    let flags = vec![false, false, true, false];
    let fast = fast_accuracy_threshold(&guesses, &flags);
    assert_eq!(fast, 5.0);
    assert_eq!(accuracy_at(fast, &guesses, &flags), 2);
}

#[test]
fn test_accuracy_counts() {
    let votes = vec![Some(true), Some(false), None, Some(true), Some(false)];
    let flags = vec![true, true, true, false, false];
    let (correct, total) = accuracy_counts(&votes, &flags);
    assert_eq!(total, 4);
    assert_eq!(correct, 2);
    let accuracy = correct as f32 / total as f32;
    assert_eq!(accuracy, 0.5);
}

#[test]
fn serialize_objective() {
    for objective in [Objective::Cost, Objective::Auc, Objective::Accuracy] {
        let mut s = Serializator::new();
        s.add(&objective);
        let bytes = s.to_bytes();
        let mut d = Serializator::from_bytes(bytes).unwrap();
        let n = Objective::deserialize(&mut d).unwrap();
        assert_eq!(n, objective);
    }
}

#[test]
fn invalid_objective_token() {
    let mut s = Serializator::new();
    s.add_str("Precision");
    let r = Objective::deserialize(&mut s);
    assert!(r.is_err());
    assert_eq!(r.err().unwrap(), "Invalid token for ScoreType: Precision");
}

#[test]
fn serialize_class() {
    for v in [0u16, 1, 3, u16::MAX] {
        let mut s = Serializator::new();
        s.add(&Class::new(v));
        let bytes = s.to_bytes();
        let mut d = Serializator::from_bytes(bytes).unwrap();
        let n = Class::deserialize(&mut d).unwrap();
        assert_eq!(n, Class::new(v));
    }
}
