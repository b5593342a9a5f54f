//! Scoring of classifier outputs against labelled outcomes, over the sorted
//! order of the outputs: the rank statistic behind AUC and the optimal
//! threshold cuts for AUC and accuracy.
//!
//! Every function here sees the samples as they stand after sorting by the
//! classifier's output, reduced to whether each sample belongs to the class
//! being scored.

use vstd::prelude::*;

use crate::serialization::deserializable::{tokens_at, Deserializable};
use crate::serialization::serializable::Serializable;
use crate::serialization::serializator::Serializator;

verus! {

/// The measure that training maximizes.
#[derive(Debug, PartialEq, Eq, Structural, Copy, Clone)]
pub enum Objective {
    Cost,
    Auc,
    Accuracy,
}

/// The token of the `Objective` encoding.
pub open spec fn objective_token(v: Objective) -> Seq<char> {
    match v {
        Objective::Cost => "Cost"@,
        Objective::Auc => "AUC"@,
        Objective::Accuracy => "Accuracy"@,
    }
}

/// The three objective tokens are well formed and pairwise distinct.
pub proof fn lemma_objective_token_wf()
    ensures
        forall|v: Objective| crate::serialization::serializator::token_wf(#[trigger] objective_token(v)),
        forall|v: Objective, i: int|
            0 <= i < objective_token(v).len() ==> (#[trigger] objective_token(v)[i]) != ' ',
        "Cost"@ != "AUC"@,
        "Cost"@ != "Accuracy"@,
        "AUC"@ != "Accuracy"@,
{
    reveal_strlit("Cost");
    reveal_strlit("AUC");
    reveal_strlit("Accuracy");
    assert forall|v: Objective| crate::serialization::serializator::token_wf(
        #[trigger] objective_token(v),
    ) by {
        let t = objective_token(v);
        assert forall|i: int| 0 <= i < t.len() implies ((#[trigger] t[i]) as u32) < 128
            && !crate::serialization::serializator::is_ws_char(t[i]) by {
            match v {
                Objective::Cost => {},
                Objective::Auc => {},
                Objective::Accuracy => {},
            }
        }
        crate::text::lemma_ascii_chars_from_bounds(t);
    }
    assert forall|v: Objective, i: int|
        0 <= i < objective_token(v).len() implies (#[trigger] objective_token(v)[i]) != ' ' by {
        match v {
            Objective::Cost => {},
            Objective::Auc => {},
            Objective::Accuracy => {},
        }
    }
    assert("Cost"@.len() == 4 && "AUC"@.len() == 3 && "Accuracy"@.len() == 8);
}

impl View for Objective {
    type V = Objective;

    open spec fn view(&self) -> Objective {
        *self
    }
}

impl DeepView for Objective {
    type V = Objective;

    open spec fn deep_view(&self) -> Objective {
        *self
    }
}

impl Serializable for Objective {
    open spec fn ser_tokens(&self) -> Seq<Seq<char>> {
        seq![objective_token(*self)]
    }

    open spec fn ser_ok(&self) -> bool {
        true
    }

    proof fn lemma_ser_tokens_wf(&self) {
        lemma_objective_token_wf();
    }

    fn serialize(&self, s: &mut Serializator) {
        proof {
            lemma_objective_token_wf();
        }
        match self {
            Objective::Cost => s.add_str("Cost"),
            Objective::Auc => s.add_str("AUC"),
            Objective::Accuracy => s.add_str("Accuracy"),
        }
        proof {
            crate::serialization::serializator::lemma_subst_token_id(objective_token(*self));
            assert(final(s).tokens() =~= old(s).tokens() + self.ser_tokens());
        }
    }
}

impl Deserializable for Objective {
    fn deserialize(s: &mut Serializator) -> (r: Result<Objective, String>)
        ensures
            r matches Ok(o) ==> old(s).pos() < old(s).tokens().len() && old(s).tokens()[old(
                s,
            ).pos()] == objective_token(o) && final(s).pos() == old(s).pos() + 1,
    {
        let ghost t0 = s.tokens();
        let ghost p0 = s.pos();
        let tok = match s.next_token() {
            Ok(t) => t,
            Err(e) => {
                return Err(e);
            },
        };
        proof {
            lemma_objective_token_wf();
            assert forall|v: Objective|
                v.ser_ok() && tokens_at(t0, p0, v.ser_tokens()) implies tok@ == objective_token(
                v,
            ) by {
                crate::serialization::deserializable::lemma_tokens_at_first(
                    t0,
                    p0,
                    v.ser_tokens(),
                );
            }
        }
        if tok == "Cost".to_owned() {
            Ok(Objective::Cost)
        } else if tok == "AUC".to_owned() {
            Ok(Objective::Auc)
        } else if tok == "Accuracy".to_owned() {
            Ok(Objective::Accuracy)
        } else {
            let mut m = "Invalid token for ScoreType: ".to_owned();
            m.append(tok.as_str());
            Err(m)
        }
    }
}

/// How many entries of the sorted sample list belong to the scored class.
pub open spec fn count_true(s: Seq<bool>) -> int
    decreases s.len(),
{
    if s.len() == 0 {
        0
    } else {
        (if s[0] {
            1int
        } else {
            0int
        }) + count_true(s.drop_first())
    }
}

/// How many entries do not belong to the scored class.
pub open spec fn count_false(s: Seq<bool>) -> int {
    s.len() - count_true(s)
}

/// The class count lies between zero and the length.
pub proof fn lemma_count_true_bounds(s: Seq<bool>)
    ensures
        0 <= count_true(s) <= s.len(),
    decreases s.len(),
{
    if s.len() > 0 {
        lemma_count_true_bounds(s.drop_first());
    }
}

/// Counting one more entry adds its vote.
pub proof fn lemma_count_true_push(s: Seq<bool>, b: bool)
    ensures
        count_true(s.push(b)) == count_true(s) + (if b {
            1int
        } else {
            0int
        }),
    decreases s.len(),
{
    reveal_with_fuel(count_true, 3);
    if s.len() == 0 {
        assert(s.push(b)[0] == b);
        assert(s.push(b).drop_first() =~= Seq::<bool>::empty());
    } else {
        assert(s.push(b)[0] == s[0]);
        assert(s.push(b).drop_first() =~= s.drop_first().push(b));
        lemma_count_true_push(s.drop_first(), b);
    }
}

/// Counting splits over concatenation.
pub proof fn lemma_count_true_concat(a: Seq<bool>, b: Seq<bool>)
    ensures
        count_true(a + b) == count_true(a) + count_true(b),
    decreases a.len(),
{
    if a.len() == 0 {
        assert(a + b =~= b);
    } else {
        assert((a + b)[0] == a[0]);
        assert((a + b).drop_first() =~= a.drop_first() + b);
        lemma_count_true_concat(a.drop_first(), b);
    }
}

/// The count over a prefix and the matching suffix add up to the whole.
pub proof fn lemma_count_true_take_skip(s: Seq<bool>, i: int)
    requires
        0 <= i <= s.len(),
    ensures
        count_true(s.take(i)) + count_true(s.skip(i)) == count_true(s),
        count_false(s.take(i)) + count_false(s.skip(i)) == count_false(s),
{
    assert(s.take(i) + s.skip(i) =~= s);
    lemma_count_true_concat(s.take(i), s.skip(i));
}

/// Walking the suffix one entry to the left counts that entry.
pub proof fn lemma_count_true_skip_step(s: Seq<bool>, i: int)
    requires
        0 <= i < s.len(),
    ensures
        count_true(s.skip(i)) == (if s[i] {
            1int
        } else {
            0int
        }) + count_true(s.skip(i + 1)),
{
    assert(s.skip(i)[0] == s[i]);
    assert(s.skip(i).drop_first() =~= s.skip(i + 1));
}

/// The rank statistic behind AUC: the number of ordered sample pairs where
/// an entry outside the class precedes an entry inside it.
pub open spec fn discordant_pairs(s: Seq<bool>) -> int
    decreases s.len(),
{
    if s.len() == 0 {
        0
    } else {
        discordant_pairs(s.drop_last()) + (if s.last() {
            count_false(s.drop_last())
        } else {
            0int
        })
    }
}

/// The pair count never exceeds the product of the class populations.
pub proof fn lemma_discordant_pairs_bounds(s: Seq<bool>)
    ensures
        0 <= discordant_pairs(s) <= count_true(s) * count_false(s),
    decreases s.len(),
{
    if s.len() == 0 {
    } else {
        let d = s.drop_last();
        lemma_discordant_pairs_bounds(d);
        lemma_count_true_bounds(d);
        assert(s =~= d.push(s.last()));
        lemma_count_true_push(d, s.last());
        if s.last() {
            assert(count_true(s) == count_true(d) + 1);
            assert(count_false(s) == count_false(d));
            assert(count_true(d) * count_false(d) + count_false(d) == (count_true(d) + 1)
                * count_false(d)) by (nonlinear_arith);
        } else {
            assert(count_true(s) == count_true(d));
            assert(count_false(s) == count_false(d) + 1);
            assert(count_true(d) * count_false(d) <= count_true(d) * (count_false(d) + 1))
                by (nonlinear_arith)
                requires
                    count_true(d) >= 0,
                    count_false(d) >= 0,
            ;
        }
    }
}

/// Four times a product is at most the square of the sum.
proof fn lemma_prod_bound(a: int, b: int, m: int)
    requires
        0 <= a,
        0 <= b,
        a + b <= m,
    ensures
        4 * (a * b) <= m * m,
{
    assert(4 * (a * b) <= (a + b) * (a + b)) by (nonlinear_arith);
    assert((a + b) * (a + b) <= m * m) by (nonlinear_arith)
        requires
            0 <= a + b <= m,
    ;
}

/// The AUC rank statistic over the sorted samples: the number of ordered
/// (outside, inside) pairs, and the product of the two class populations.
/// The AUC value is the quotient of the two.
pub fn auc_counts(is_class: &Vec<bool>) -> (r: (u64, u64))
    requires
        is_class@.len() <= 0xFFFF_FFFF,
    ensures
        r.0 == discordant_pairs(is_class@),
        r.1 == count_true(is_class@) * count_false(is_class@),
        r.0 <= r.1,
{
    proof {
        lemma_discordant_pairs_bounds(is_class@);
    }
    let ghost s = is_class@;
    let n = is_class.len();
    let mut correct_count: u64 = 0;
    let mut incorrect_count: u64 = 0;
    let mut total_incorrect: u64 = 0;
    let mut i: usize = 0;
    proof {
        assert(s.take(0) =~= Seq::<bool>::empty());
    }
    while i < n
        invariant
            n == s.len() <= 0xFFFF_FFFF,
            s == is_class@,
            i <= n,
            correct_count == count_true(s.take(i as int)),
            incorrect_count == count_false(s.take(i as int)),
            total_incorrect == discordant_pairs(s.take(i as int)),
            total_incorrect <= correct_count * incorrect_count,
        decreases n - i,
    {
        proof {
            assert(s.take(i as int + 1).drop_last() =~= s.take(i as int));
            assert(s.take(i as int + 1).last() == s[i as int]);
            assert(s.take(i as int + 1) =~= s.take(i as int).push(s[i as int]));
            lemma_count_true_push(s.take(i as int), s[i as int]);
            lemma_count_true_bounds(s.take(i as int));
            lemma_prod_bound(
                correct_count as int + 1,
                incorrect_count as int,
                0x1_0000_0000,
            );
            lemma_prod_bound(correct_count as int, incorrect_count as int + 1, 0x1_0000_0000);
        }
        if is_class[i] {
            proof {
                assert((correct_count + 1) * incorrect_count == correct_count * incorrect_count
                    + incorrect_count) by (nonlinear_arith);
            }
            total_incorrect = total_incorrect + incorrect_count;
            correct_count = correct_count + 1;
        } else {
            proof {
                assert(correct_count * incorrect_count <= correct_count * (incorrect_count + 1))
                    by (nonlinear_arith)
                    requires
                        correct_count >= 0,
                        incorrect_count >= 0,
                ;
            }
            incorrect_count = incorrect_count + 1;
        }
        i = i + 1;
    }
    proof {
        assert(s.take(n as int) =~= s);
        lemma_count_true_bounds(s);
        lemma_prod_bound(correct_count as int, incorrect_count as int, 0x1_0000_0000);
    }
    (total_incorrect, correct_count * incorrect_count)
}

/// How many samples received a vote at all: entries where the thresholded
/// guess was defined.
pub open spec fn vote_total(votes: Seq<Option<bool>>) -> int
    decreases votes.len(),
{
    if votes.len() == 0 {
        0
    } else {
        (if votes[0] is Some {
            1int
        } else {
            0int
        }) + vote_total(votes.drop_first())
    }
}

/// How many votes agree with class membership.
pub open spec fn vote_correct(votes: Seq<Option<bool>>, is_class: Seq<bool>) -> int
    decreases votes.len(),
{
    if votes.len() == 0 {
        0
    } else {
        (match votes[0] {
            Some(g) => if g == is_class[0] {
                1int
            } else {
                0int
            },
            None => 0int,
        }) + vote_correct(votes.drop_first(), is_class.drop_first())
    }
}

/// Counting one more vote adds its contribution.
proof fn lemma_vote_push(votes: Seq<Option<bool>>, is_class: Seq<bool>, v: Option<bool>, b: bool)
    requires
        votes.len() == is_class.len(),
    ensures
        vote_total(votes.push(v)) == vote_total(votes) + (if v is Some {
            1int
        } else {
            0int
        }),
        vote_correct(votes.push(v), is_class.push(b)) == vote_correct(votes, is_class) + (match v {
            Some(g) => if g == b {
                1int
            } else {
                0int
            },
            None => 0int,
        }),
    decreases votes.len(),
{
    reveal_with_fuel(vote_total, 3);
    reveal_with_fuel(vote_correct, 3);
    if votes.len() == 0 {
        assert(votes.push(v)[0] == v);
        assert(votes.push(v).drop_first() =~= Seq::<Option<bool>>::empty());
        assert(is_class.push(b).drop_first() =~= Seq::<bool>::empty());
    } else {
        assert(votes.push(v)[0] == votes[0]);
        assert(is_class.push(b)[0] == is_class[0]);
        assert(votes.push(v).drop_first() =~= votes.drop_first().push(v));
        assert(is_class.push(b).drop_first() =~= is_class.drop_first().push(b));
        lemma_vote_push(votes.drop_first(), is_class.drop_first(), v, b);
    }
}

/// The number of correct predictions and the number of predictions made,
/// for a list of thresholded guesses against class membership.  The
/// accuracy value is the quotient of the two.
pub fn accuracy_counts(votes: &Vec<Option<bool>>, is_class: &Vec<bool>) -> (r: (usize, usize))
    requires
        votes@.len() == is_class@.len(),
    ensures
        r.0 == vote_correct(votes@, is_class@),
        r.1 == vote_total(votes@),
        r.0 <= r.1 <= votes@.len(),
{
    let ghost vs = votes@;
    let ghost cs = is_class@;
    let n = votes.len();
    let mut correct: usize = 0;
    let mut total: usize = 0;
    let mut i: usize = 0;
    proof {
        assert(vs.take(0) =~= Seq::<Option<bool>>::empty());
        assert(cs.take(0) =~= Seq::<bool>::empty());
    }
    while i < n
        invariant
            vs == votes@,
            cs == is_class@,
            n == vs.len() == cs.len(),
            i <= n,
            correct == vote_correct(vs.take(i as int), cs.take(i as int)),
            total == vote_total(vs.take(i as int)),
            correct <= total <= i,
        decreases n - i,
    {
        proof {
            assert(vs.take(i as int + 1) =~= vs.take(i as int).push(vs[i as int]));
            assert(cs.take(i as int + 1) =~= cs.take(i as int).push(cs[i as int]));
            lemma_vote_push(vs.take(i as int), cs.take(i as int), vs[i as int], cs[i as int]);
        }
        match votes[i] {
            Some(g) => {
                total = total + 1;
                if g == is_class[i] {
                    correct = correct + 1;
                }
            },
            None => {},
        }
        i = i + 1;
    }
    proof {
        assert(vs.take(n as int) =~= vs);
        assert(cs.take(n as int) =~= cs);
    }
    (correct, total)
}

/// Where the AUC threshold cuts the sorted outputs: at the output with a
/// given index, or above every output.
#[derive(Debug, PartialEq, Eq, Structural, Copy, Clone)]
pub enum ThresholdCut {
    /// Cut at the sorted output with this index.
    At(usize),
    /// Cut at twice the magnitude of the largest output, above all of them.
    AboveAll,
}

/// The AUC threshold over the sorted samples: with `m` entries outside the
/// class, cut at the smallest output when `m` is zero, above every output
/// when all entries are outside the class, and at the `m`-th sorted output
/// otherwise.
pub fn auc_threshold(is_class: &Vec<bool>) -> (r: ThresholdCut)
    requires
        is_class@.len() > 0,
    ensures
        count_false(is_class@) == 0 ==> r == ThresholdCut::At(0),
        count_false(is_class@) == is_class@.len() ==> r == ThresholdCut::AboveAll,
        0 < count_false(is_class@) < is_class@.len() ==> r == ThresholdCut::At(
            count_false(is_class@) as usize,
        ),
{
    let ghost s = is_class@;
    let n = is_class.len();
    let mut none_class_count: usize = 0;
    let mut i: usize = 0;
    proof {
        assert(s.take(0) =~= Seq::<bool>::empty());
    }
    while i < n
        invariant
            n == s.len(),
            s == is_class@,
            i <= n,
            none_class_count == count_false(s.take(i as int)),
        decreases n - i,
    {
        proof {
            assert(s.take(i as int + 1) =~= s.take(i as int).push(s[i as int]));
            lemma_count_true_push(s.take(i as int), s[i as int]);
            lemma_count_true_bounds(s.take(i as int));
        }
        if !is_class[i] {
            none_class_count = none_class_count + 1;
        }
        i = i + 1;
    }
    proof {
        assert(s.take(n as int) =~= s);
    }
    if none_class_count == 0 {
        ThresholdCut::At(0)
    } else if none_class_count == n {
        ThresholdCut::AboveAll
    } else {
        ThresholdCut::At(none_class_count)
    }
}

/// How many predictions the cut gets right: entries before the cut are
/// predicted outside the class, entries from the cut onward inside it.
pub open spec fn cut_correct(s: Seq<bool>, i: int) -> int {
    count_false(s.take(i)) + count_true(s.skip(i))
}

/// The accuracy-optimal threshold over the sorted samples.  A cut is
/// realizable as a threshold only where a new run of equal outputs starts
/// (a threshold inside a run of equal outputs cannot separate them), so
/// the caller marks the run starts and the result is the smallest
/// realizable cut whose correct-prediction count is maximal among all
/// realizable cuts -- the same optimum a scan over every candidate
/// threshold finds.
pub fn accuracy_threshold(is_class: &Vec<bool>, run_start: &Vec<bool>) -> (r: usize)
    requires
        is_class@.len() == run_start@.len(),
        is_class@.len() > 0,
        run_start@[0],
    ensures
        r < is_class@.len(),
        run_start@[r as int],
        forall|j: int|
            0 <= j < is_class@.len() && run_start@[j] ==> cut_correct(is_class@, r as int)
                >= cut_correct(is_class@, j),
        forall|j: int|
            0 <= j < is_class@.len() && run_start@[j] && cut_correct(is_class@, j) == cut_correct(
                is_class@,
                r as int,
            ) ==> r <= j,
{
    let ghost s = is_class@;
    let ghost rs = run_start@;
    let n = is_class.len();
    let mut total_false: usize = 0;
    let mut i: usize = 0;
    proof {
        assert(s.take(0) =~= Seq::<bool>::empty());
        lemma_count_true_bounds(s);
    }
    while i < n
        invariant
            n == s.len(),
            s == is_class@,
            i <= n,
            total_false == count_false(s.take(i as int)),
        decreases n - i,
    {
        proof {
            assert(s.take(i as int + 1) =~= s.take(i as int).push(s[i as int]));
            lemma_count_true_push(s.take(i as int), s[i as int]);
            lemma_count_true_bounds(s.take(i as int));
        }
        if !is_class[i] {
            total_false = total_false + 1;
        }
        i = i + 1;
    }
    proof {
        assert(s.take(n as int) =~= s);
        assert(s.skip(n as int) =~= Seq::<bool>::empty());
    }
    let mut true_count: usize = 0;
    let mut false_count: usize = 0;
    let mut best: usize = 0;
    let mut best_score: usize = 0;
    let mut have = false;
    let mut i: usize = n;
    while i > 0
        invariant
            n == s.len() == rs.len(),
            s == is_class@,
            rs == run_start@,
            0 < n,
            rs[0],
            i <= n,
            total_false == count_false(s),
            true_count == count_true(s.skip(i as int)),
            false_count == count_false(s.skip(i as int)),
            !have ==> forall|j: int| i <= j < n ==> !rs[j],
            have ==> {
                &&& i as int <= best < n
                &&& rs[best as int]
                &&& best_score == cut_correct(s, best as int)
                &&& forall|j: int| i <= j < n && rs[j] ==> best_score >= cut_correct(s, j)
                &&& forall|j: int|
                    i <= j < n && rs[j] && cut_correct(s, j) == best_score ==> best <= j
            },
        decreases i,
    {
        let cut = i - 1;
        proof {
            lemma_count_true_skip_step(s, cut as int);
            lemma_count_true_take_skip(s, cut as int);
            lemma_count_true_bounds(s.take(cut as int));
            lemma_count_true_bounds(s.skip(cut as int));
        }
        if is_class[cut] {
            true_count = true_count + 1;
        } else {
            false_count = false_count + 1;
        }
        let score = total_false - false_count + true_count;
        proof {
            assert(score == cut_correct(s, cut as int));
        }
        if run_start[cut] {
            if !have {
                best = cut;
                best_score = score;
                have = true;
            } else if score >= best_score {
                best = cut;
                best_score = score;
            }
        }
        i = cut;
    }
    proof {
        assert(rs[0]);
    }
    best
}

} // verus!
