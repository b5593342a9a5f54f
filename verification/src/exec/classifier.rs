//! The decision side of inference: how per-tree votes combine into one
//! label per sample, and the checks a classifier's parts must pass.
//!
//! Trees are listed in ascending rank; a later tree's positive vote
//! overwrites an earlier one's, so each sample ends with the label of the
//! strongest tree that voted for it, or no label at all.

use vstd::prelude::*;

use crate::error::PrimeclueErr;

verus! {

/// The label of sample `i`: the label of the last listed tree whose vote
/// on `i` is a positive guess, or the empty string when no tree voted.
pub open spec fn spec_label_of(
    labels: Seq<Seq<char>>,
    votes: Seq<Seq<Option<bool>>>,
    i: int,
) -> Seq<char>
    decreases votes.len(),
{
    if votes.len() == 0 {
        Seq::empty()
    } else if votes.last()[i] == Some(true) {
        labels[votes.len() - 1]
    } else {
        spec_label_of(labels.drop_last(), votes.drop_last(), i)
    }
}

/// The final label of each sample: trees ascend in rank, so the last
/// positive vote wins; a sample nobody voted for keeps the empty string.
/// Every returned label is one of the given labels or empty.
pub fn compose_labels(labels: &Vec<String>, votes: &Vec<Vec<Option<bool>>>, n: usize) -> (r: Vec<
    String,
>)
    requires
        labels@.len() == votes@.len(),
        forall|t: int| 0 <= t < votes@.len() ==> (#[trigger] votes@[t])@.len() == n,
    ensures
        r@.len() == n,
        forall|i: int|
            0 <= i < n ==> (#[trigger] r@[i])@ == spec_label_of(
                labels.deep_view(),
                votes.deep_view(),
                i,
            ),
        forall|i: int|
            0 <= i < n ==> (#[trigger] r@[i])@ == Seq::<char>::empty() || exists|t: int|
                0 <= t < labels@.len() && (#[trigger] labels@[t])@ == r@[i]@,
{
    let ghost ls = labels.deep_view();
    let ghost vs = votes.deep_view();
    let trees = votes.len();
    let mut r: Vec<String> = Vec::new();
    let mut i: usize = 0;
    while i < n
        invariant
            ls == labels.deep_view(),
            vs == votes.deep_view(),
            trees == votes@.len() == labels@.len(),
            forall|t: int| 0 <= t < votes@.len() ==> (#[trigger] votes@[t])@.len() == n,
            i <= n,
            r@.len() == i,
            forall|i2: int|
                0 <= i2 < i ==> (#[trigger] r@[i2])@ == spec_label_of(ls, vs, i2),
            forall|i2: int|
                0 <= i2 < i ==> (#[trigger] r@[i2])@ == Seq::<char>::empty() || exists|t: int|
                    0 <= t < labels@.len() && (#[trigger] labels@[t])@ == r@[i2]@,
        decreases n - i,
    {
        let mut t: usize = trees;
        let mut label = String::new();
        let mut found = false;
        proof {
            assert(vs.subrange(0, trees as int) =~= vs);
            assert(ls.subrange(0, trees as int) =~= ls);
        }
        while t > 0 && !found
            invariant
                ls == labels.deep_view(),
                vs == votes.deep_view(),
                trees == votes@.len() == labels@.len(),
                forall|t2: int| 0 <= t2 < votes@.len() ==> (#[trigger] votes@[t2])@.len() == n,
                i < n,
                t <= trees,
                !found ==> label@ == Seq::<char>::empty() && spec_label_of(ls, vs, i as int)
                    == spec_label_of(
                    ls.subrange(0, t as int),
                    vs.subrange(0, t as int),
                    i as int,
                ),
                found ==> label@ == spec_label_of(ls, vs, i as int),
                found ==> exists|t2: int|
                    0 <= t2 < labels@.len() && (#[trigger] labels@[t2])@ == label@,
            decreases t,
        {
            let tree = t - 1;
            proof {
                assert(vs.subrange(0, t as int).last() == vs[tree as int]);
                assert(vs[tree as int] == votes@[tree as int].deep_view());
                assert(votes@[tree as int].deep_view()[i as int] == votes@[tree as int]@[i as int]);
                assert(vs.subrange(0, t as int).drop_last() =~= vs.subrange(0, tree as int));
                assert(ls.subrange(0, t as int).drop_last() =~= ls.subrange(0, tree as int));
                assert(ls.subrange(0, t as int)[t - 1] == ls[tree as int]);
                assert(ls[tree as int] == labels@[tree as int]@);
            }
            match votes[tree][i] {
                Some(g) => {
                    if g {
                        label = labels[tree].clone();
                        found = true;
                        proof {
                            assert(label@ == labels@[tree as int]@);
                        }
                    }
                },
                None => {},
            }
            t = tree;
        }
        proof {
            if !found {
                assert(t == 0);
                assert(vs.subrange(0, 0) =~= Seq::<Seq<Option<bool>>>::empty());
                assert(spec_label_of(ls.subrange(0, 0), vs.subrange(0, 0), i as int)
                    == Seq::<char>::empty());
            }
        }
        r.push(label);
        i = i + 1;
    }
    r
}

/// How many samples received a non-empty label.
pub open spec fn spec_prediction_total(preds: Seq<Seq<char>>) -> int
    decreases preds.len(),
{
    if preds.len() == 0 {
        0
    } else {
        (if preds[0].len() != 0 {
            1int
        } else {
            0int
        }) + spec_prediction_total(preds.drop_first())
    }
}

/// How many labelled samples received the expected label.
pub open spec fn spec_prediction_correct(preds: Seq<Seq<char>>, expected: Seq<Seq<char>>) -> int
    decreases preds.len(),
{
    if preds.len() == 0 {
        0
    } else {
        (if preds[0].len() != 0 && preds[0] == expected[0] {
            1int
        } else {
            0int
        }) + spec_prediction_correct(preds.drop_first(), expected.drop_first())
    }
}

/// Counting one more prediction adds its contribution.
proof fn lemma_prediction_push(
    preds: Seq<Seq<char>>,
    expected: Seq<Seq<char>>,
    p: Seq<char>,
    e: Seq<char>,
)
    requires
        preds.len() == expected.len(),
    ensures
        spec_prediction_total(preds.push(p)) == spec_prediction_total(preds) + (if p.len() != 0 {
            1int
        } else {
            0int
        }),
        spec_prediction_correct(preds.push(p), expected.push(e)) == spec_prediction_correct(
            preds,
            expected,
        ) + (if p.len() != 0 && p == e {
            1int
        } else {
            0int
        }),
    decreases preds.len(),
{
    reveal_with_fuel(spec_prediction_total, 3);
    reveal_with_fuel(spec_prediction_correct, 3);
    if preds.len() == 0 {
        assert(preds.push(p)[0] == p);
        assert(expected.push(e)[0] == e);
        assert(preds.push(p).drop_first() =~= Seq::<Seq<char>>::empty());
        assert(expected.push(e).drop_first() =~= Seq::<Seq<char>>::empty());
    } else {
        assert(preds.push(p)[0] == preds[0]);
        assert(expected.push(e)[0] == expected[0]);
        assert(preds.push(p).drop_first() =~= preds.drop_first().push(p));
        assert(expected.push(e).drop_first() =~= expected.drop_first().push(e));
        lemma_prediction_push(preds.drop_first(), expected.drop_first(), p, e);
    }
}

/// How many predictions were made (non-empty labels) and how many of them
/// match the expected label; the accuracy over predictions is their
/// quotient.
pub fn score_predictions(predictions: &Vec<String>, expected: &Vec<String>) -> (r: (usize, usize))
    requires
        predictions@.len() == expected@.len(),
    ensures
        r.0 == spec_prediction_correct(predictions.deep_view(), expected.deep_view()),
        r.1 == spec_prediction_total(predictions.deep_view()),
        r.0 <= r.1 <= predictions@.len(),
{
    let ghost ps = predictions.deep_view();
    let ghost es = expected.deep_view();
    let n = predictions.len();
    let mut correct: usize = 0;
    let mut total: usize = 0;
    let mut i: usize = 0;
    proof {
        assert(ps.take(0) =~= Seq::<Seq<char>>::empty());
        assert(es.take(0) =~= Seq::<Seq<char>>::empty());
    }
    while i < n
        invariant
            ps == predictions.deep_view(),
            es == expected.deep_view(),
            n == ps.len() == es.len(),
            i <= n,
            correct == spec_prediction_correct(ps.take(i as int), es.take(i as int)),
            total == spec_prediction_total(ps.take(i as int)),
            correct <= total <= i,
        decreases n - i,
    {
        proof {
            assert(ps.take(i as int + 1) =~= ps.take(i as int).push(ps[i as int]));
            assert(es.take(i as int + 1) =~= es.take(i as int).push(es[i as int]));
            lemma_prediction_push(ps.take(i as int), es.take(i as int), ps[i as int], es[i as int]);
            assert(ps[i as int] == predictions@[i as int]@);
            assert(es[i as int] == expected@[i as int]@);
        }
        if !predictions[i].as_str().is_empty() {
            total = total + 1;
            if predictions[i] == expected[i] {
                correct = correct + 1;
            }
        }
        i = i + 1;
    }
    proof {
        assert(ps.take(n as int) =~= ps);
        assert(es.take(n as int) =~= es);
    }
    (correct, total)
}

/// The checks a classifier's parts must pass: a non-empty class map, a
/// non-empty tree list, and one tree per class.
pub fn validate_classifier_parts(class_count: usize, tree_count: usize) -> (r: Result<
    (),
    PrimeclueErr,
>)
    ensures
        r is Ok <==> (class_count > 0 && tree_count > 0 && class_count == tree_count),
        class_count == 0 ==> (r matches Err(e) && e.message() == "Class map is empty"@),
        class_count > 0 && tree_count == 0 ==> (r matches Err(e) && e.message()
            == "Tree vectors is empty"@),
        class_count > 0 && tree_count > 0 && class_count != tree_count ==> (r matches Err(e)
            && e.message() == "Class / Tree vectors lengths don't match"@),
{
    if class_count == 0 {
        PrimeclueErr::result("Class map is empty".to_owned())
    } else if tree_count == 0 {
        PrimeclueErr::result("Tree vectors is empty".to_owned())
    } else if class_count != tree_count {
        PrimeclueErr::result("Class / Tree vectors lengths don't match".to_owned())
    } else {
        Ok(())
    }
}

} // verus!
