//! From the raw scores of the model to the list that is returned: classes
//! below the noise floor are dropped, the others get their share in percent
//! and come best first.

use vstd::prelude::*;
use crate::binary32::Binary32;

verus! {

/// The factor of the noise floor: a class counts where ten thousand times
/// its score rounds to a whole number above zero.
pub const NOISE_FACTOR: u32 = 10_000;

/// The factor from a share of one to percent.
pub const PERCENT_FACTOR: u32 = 100;

/// One class of the answer: its label and its share in percent, a binary32
/// number.
#[derive(Clone, Debug, PartialEq, Eq)]
pub struct Prediction {
    pub class_label: String,
    pub probability: Binary32,
}

/// The mathematical content of a `Prediction`.
pub struct PredictionView {
    pub class_label: Seq<char>,
    pub probability: Binary32,
}

impl DeepView for Prediction {
    type V = PredictionView;

    open spec fn deep_view(&self) -> PredictionView {
        PredictionView { class_label: self.class_label@, probability: self.probability }
    }
}

/// The score is above the noise floor: ten thousand times the score, as
/// binary32 arithmetic gives it, rounds to a whole number above zero.
pub open spec fn significant(score: Binary32) -> bool {
    score.product(NOISE_FACTOR as nat).rounds_above_zero()
}

/// The score in percent: a hundred times the score, as binary32 arithmetic
/// gives it.
pub open spec fn percentage(score: Binary32) -> Binary32 {
    score.product(PERCENT_FACTOR as nat)
}

/// The label of the class at `index`: the entry of the label list, or
/// `"Unknown"` where the list has none.
pub open spec fn label_of(labels: Seq<Seq<char>>, index: int) -> Seq<char> {
    if 0 <= index < labels.len() {
        labels[index]
    } else {
        "Unknown"@
    }
}

/// The class at `i` comes before the class at `j`: its percentage is the
/// higher one, or the two are equal and it is the one met first.
pub open spec fn outranks(scores: Seq<Binary32>, i: int, j: int) -> bool {
    let a = percentage(scores[i]).value();
    let b = percentage(scores[j]).value();
    a > b || (a == b && i < j)
}

/// `order` lists the classes among the first `n` that are above the noise
/// floor, each once, every one before those that it outranks.
pub open spec fn is_ranking_of_first(order: Seq<int>, scores: Seq<Binary32>, n: int) -> bool {
    &&& forall|k: int|
        0 <= k < order.len() ==> 0 <= #[trigger] order[k] < n && significant(scores[order[k]])
    &&& forall|i: int|
        0 <= i < n && significant(#[trigger] scores[i]) ==> exists|k: int|
            0 <= k < order.len() && order[k] == i
    &&& forall|k: int, l: int|
        0 <= k < l < order.len() ==> outranks(scores, #[trigger] order[k], #[trigger] order[l])
}

/// `order` lists the classes above the noise floor, each once, best first.
pub open spec fn is_ranking(order: Seq<int>, scores: Seq<Binary32>) -> bool {
    is_ranking_of_first(order, scores, scores.len() as int)
}

/// The classes above the noise floor, best first. There is one such order.
pub open spec fn ranking(scores: Seq<Binary32>) -> Seq<int> {
    choose|order: Seq<int>| is_ranking(order, scores)
}

/// The answer for the given scores and labels: for each class of the
/// ranking, in its order, the label and the percentage.
pub open spec fn ranked(scores: Seq<Binary32>, labels: Seq<Seq<char>>) -> Seq<PredictionView> {
    let order = ranking(scores);
    Seq::new(
        order.len(),
        |k: int|
            PredictionView {
                class_label: label_of(labels, order[k]),
                probability: percentage(scores[order[k]]),
            },
    )
}

/// Two rankings of the same scores agree on their first `k` places.
proof fn lemma_rankings_agree(o1: Seq<int>, o2: Seq<int>, scores: Seq<Binary32>, k: int)
    requires
        is_ranking(o1, scores),
        is_ranking(o2, scores),
        0 <= k <= o1.len(),
        k <= o2.len(),
    ensures
        forall|j: int| 0 <= j < k ==> o1[j] == o2[j],
    decreases k,
{
    if k > 0 {
        lemma_rankings_agree(o1, o2, scores, k - 1);
        let a = o1[k - 1];
        let b = o2[k - 1];
        if a != b {
            // Each of the two stands somewhere in the other ranking, and
            // not before place k - 1, where the rankings agree.
            assert(significant(scores[a]));
            let m = choose|m: int| 0 <= m < o2.len() && o2[m] == a;
            assert(significant(scores[b]));
            let n = choose|n: int| 0 <= n < o1.len() && o1[n] == b;
            if m < k - 1 {
                assert(o1[m] == a);
                assert(outranks(scores, o1[m], o1[k - 1]));
            }
            if n < k - 1 {
                assert(o2[n] == b);
                assert(outranks(scores, o2[n], o2[k - 1]));
            }
            assert(outranks(scores, o2[k - 1], o2[m]));
            assert(outranks(scores, o1[k - 1], o1[n]));
        }
    }
}

/// The scores have one ranking at most.
pub proof fn lemma_ranking_unique(o1: Seq<int>, o2: Seq<int>, scores: Seq<Binary32>)
    requires
        is_ranking(o1, scores),
        is_ranking(o2, scores),
    ensures
        o1 == o2,
{
    if o1.len() <= o2.len() {
        lemma_rankings_agree(o1, o2, scores, o1.len() as int);
        if o1.len() < o2.len() {
            let extra = o2[o1.len() as int];
            assert(significant(scores[extra]));
            let m = choose|m: int| 0 <= m < o1.len() && o1[m] == extra;
            assert(o2[m] == extra);
            assert(outranks(scores, o2[m], o2[o1.len() as int]));
        }
    } else {
        lemma_rankings_agree(o1, o2, scores, o2.len() as int);
        let extra = o1[o2.len() as int];
        assert(significant(scores[extra]));
        let m = choose|m: int| 0 <= m < o2.len() && o2[m] == extra;
        assert(o1[m] == extra);
        assert(outranks(scores, o1[m], o1[o2.len() as int]));
    }
    assert(o1 =~= o2);
}

/// A score above the noise floor is a positive number, and so is its
/// percentage.
pub proof fn lemma_significant_percentage(score: Binary32)
    requires
        significant(score),
    ensures
        !score.is_nan(),
        !score.negative(),
        !percentage(score).is_nan(),
        !percentage(score).negative(),
        percentage(score).value() == percentage(score).magnitude(),
{
    crate::binary32::lemma_product_exists(score, NOISE_FACTOR as nat);
    crate::binary32::lemma_product_exists(score, PERCENT_FACTOR as nat);
}

/// Of two scores above the noise floor, the percentage with the higher bit
/// pattern is the higher percentage.
proof fn lemma_percentage_order(a: Binary32, b: Binary32)
    requires
        significant(a),
        significant(b),
    ensures
        percentage(a).bits <= percentage(b).bits <==> percentage(a).value() <= percentage(b).value(),
        percentage(a).bits == percentage(b).bits <==> percentage(a).value() == percentage(b).value(),
{
    lemma_significant_percentage(a);
    lemma_significant_percentage(b);
    crate::binary32::lemma_bits_order(percentage(a), percentage(b));
}

/// A ranking of the first `n` classes is one of the first `n + 1` where
/// class `n` is below the noise floor.
proof fn lemma_skip_keeps_ranking(order: Seq<int>, scores: Seq<Binary32>, n: int)
    requires
        is_ranking_of_first(order, scores, n),
        0 <= n < scores.len(),
        !significant(scores[n]),
    ensures
        is_ranking_of_first(order, scores, n + 1),
{
    assert forall|i: int| 0 <= i < n + 1 && significant(#[trigger] scores[i]) implies exists|
        k: int,
    |
        0 <= k < order.len() && order[k] == i by {
        assert(i < n);
    }
}

/// Putting class `n` into a ranking of the first `n` classes, behind every
/// class of a percentage at least as high and before all others, gives a
/// ranking of the first `n + 1`.
proof fn lemma_insert_keeps_ranking(order: Seq<int>, scores: Seq<Binary32>, n: int, at: int)
    requires
        is_ranking_of_first(order, scores, n),
        0 <= n < scores.len(),
        significant(scores[n]),
        0 <= at <= order.len(),
        forall|k: int|
            0 <= k < at ==> percentage(scores[#[trigger] order[k]]).bits >= percentage(
                scores[n],
            ).bits,
        at < order.len() ==> percentage(scores[order[at]]).bits < percentage(scores[n]).bits,
    ensures
        is_ranking_of_first(order.insert(at, n), scores, n + 1),
{
    let grown = order.insert(at, n);
    assert forall|k: int| 0 <= k < grown.len() implies 0 <= #[trigger] grown[k] < n + 1
        && significant(scores[grown[k]]) by {
        if k < at {
            assert(grown[k] == order[k]);
        } else if k > at {
            assert(grown[k] == order[k - 1]);
        }
    }
    assert forall|i: int| 0 <= i < n + 1 && significant(#[trigger] scores[i]) implies exists|
        k: int,
    |
        0 <= k < grown.len() && grown[k] == i by {
        if i == n {
            assert(grown[at] == i);
        } else {
            let k = choose|k: int| 0 <= k < order.len() && order[k] == i;
            if k < at {
                assert(grown[k] == i);
            } else {
                assert(grown[k + 1] == i);
            }
        }
    }
    assert forall|k: int, l: int| 0 <= k < l < grown.len() implies outranks(
        scores,
        #[trigger] grown[k],
        #[trigger] grown[l],
    ) by {
        if l < at {
            assert(grown[k] == order[k] && grown[l] == order[l]);
        } else if k > at {
            assert(grown[k] == order[k - 1] && grown[l] == order[l - 1]);
        } else if k < at && l > at {
            assert(grown[k] == order[k] && grown[l] == order[l - 1]);
        } else if l == at {
            assert(grown[k] == order[k]);
            assert(significant(scores[order[k]]));
            lemma_percentage_order(scores[n], scores[order[k]]);
        } else {
            assert(k == at && l > at);
            assert(grown[l] == order[l - 1]);
            assert(significant(scores[order[l - 1]]));
            assert(significant(scores[order[at]]));
            lemma_percentage_order(scores[order[at]], scores[n]);
            if l - 1 > at {
                assert(outranks(scores, order[at], order[l - 1]));
            }
        }
    }
}

/// The classes above the noise floor, best first, as positions in `scores`.
/// Among classes of one percentage the one met first comes first.
pub fn rank_order(scores: &Vec<Binary32>) -> (order: Vec<usize>)
    ensures
        order@.map_values(|i: usize| i as int) == ranking(scores@),
        is_ranking(ranking(scores@), scores@),
{
    let mut order: Vec<usize> = Vec::new();
    let mut keys: Vec<Binary32> = Vec::new();
    let ghost mut listed: Seq<int> = Seq::empty();
    let mut i: usize = 0;
    while i < scores.len()
        invariant
            0 <= i <= scores.len(),
            listed.len() == order.len(),
            keys.len() == order.len(),
            forall|k: int| 0 <= k < order.len() ==> listed[k] == #[trigger] order@[k] as int,
            forall|k: int|
                0 <= k < order.len() ==> #[trigger] keys@[k] == percentage(scores@[listed[k]]),
            is_ranking_of_first(listed, scores@, i as int),
        decreases scores.len() - i,
    {
        let score: Binary32 = scores[i];
        if score.times(NOISE_FACTOR).has_positive_rounding() {
            let key: Binary32 = score.times(PERCENT_FACTOR);
            let mut at: usize = 0;
            while at < keys.len() && keys[at].bits >= key.bits
                invariant
                    0 <= at <= keys.len(),
                    forall|k: int| 0 <= k < at ==> (#[trigger] keys@[k]).bits >= key.bits,
                decreases keys.len() - at,
            {
                at = at + 1;
            }
            proof {
                assert forall|k: int| 0 <= k < at implies percentage(
                    scores@[#[trigger] listed[k]],
                ).bits >= percentage(scores@[i as int]).bits by {
                    assert(keys@[k] == percentage(scores@[listed[k]]));
                }
                if at < keys.len() {
                    assert(keys@[at as int] == percentage(scores@[listed[at as int]]));
                }
                lemma_insert_keeps_ranking(listed, scores@, i as int, at as int);
                listed = listed.insert(at as int, i as int);
            }
            let ghost before_order = order@;
            let ghost before_keys = keys@;
            order.insert(at, i);
            keys.insert(at, key);
            proof {
                assert forall|k: int| 0 <= k < order.len() implies listed[k] == #[trigger] order@[k] as int
                    && keys@[k] == percentage(scores@[listed[k]]) by {
                    if k < at {
                        assert(order@[k] == before_order[k] && keys@[k] == before_keys[k]);
                    } else if k > at {
                        assert(order@[k] == before_order[k - 1] && keys@[k] == before_keys[k - 1]);
                    }
                }
            }
        } else {
            proof {
                lemma_skip_keeps_ranking(listed, scores@, i as int);
            }
        }
        i = i + 1;
    }
    proof {
        assert(is_ranking(listed, scores@));
        lemma_ranking_unique(listed, ranking(scores@), scores@);
        assert(order@.map_values(|i: usize| i as int) =~= listed);
    }
    order
}

/// The label of the class at `index`.
pub fn label_for(labels: &Vec<String>, index: usize) -> (label: String)
    ensures
        label@ == label_of(labels.deep_view(), index as int),
{
    if index < labels.len() {
        labels[index].clone()
    } else {
        "Unknown".to_owned()
    }
}

/// Ranks the raw scores of the model: a class whose score is not above the
/// noise floor is left out; each other class appears with its label, or
/// `"Unknown"` where the labels run out, and its score in percent; the
/// highest percentage comes first, and among equal ones the class met first.
pub fn rank(scores: &Vec<Binary32>, labels: &Vec<String>) -> (r: Vec<Prediction>)
    ensures
        r.deep_view() == ranked(scores@, labels.deep_view()),
{
    let order = rank_order(scores);
    let ghost listed = ranking(scores@);
    let mut out: Vec<Prediction> = Vec::new();
    let mut k: usize = 0;
    while k < order.len()
        invariant
            0 <= k <= order.len(),
            listed == ranking(scores@),
            is_ranking(listed, scores@),
            order@.map_values(|i: usize| i as int) == listed,
            out.len() == k,
            forall|j: int|
                0 <= j < k ==> (#[trigger] out@[j]).deep_view() == ranked(
                    scores@,
                    labels.deep_view(),
                )[j],
        decreases order.len() - k,
    {
        let index: usize = order[k];
        proof {
            assert(listed[k as int] == order@[k as int] as int);
            assert(0 <= listed[k as int] < scores@.len());
        }
        let class_label = label_for(labels, index);
        let probability = scores[index].times(PERCENT_FACTOR);
        out.push(Prediction { class_label, probability });
        k = k + 1;
    }
    proof {
        assert(order@.len() == listed.len());
        assert(out.deep_view() =~= ranked(scores@, labels.deep_view()));
    }
    out
}

/// Where class `n` belongs in a ranking of the classes before it: behind
/// every class of a percentage at least as high.
proof fn lemma_place(order: Seq<int>, scores: Seq<Binary32>, n: int, from: int) -> (at: int)
    requires
        0 <= from <= order.len(),
        forall|k: int|
            0 <= k < from ==> percentage(scores[#[trigger] order[k]]).bits >= percentage(
                scores[n],
            ).bits,
    ensures
        from <= at <= order.len(),
        forall|k: int|
            0 <= k < at ==> percentage(scores[#[trigger] order[k]]).bits >= percentage(
                scores[n],
            ).bits,
        at < order.len() ==> percentage(scores[order[at]]).bits < percentage(scores[n]).bits,
    decreases order.len() - from,
{
    if from == order.len() || percentage(scores[order[from]]).bits < percentage(scores[n]).bits {
        from
    } else {
        lemma_place(order, scores, n, from + 1)
    }
}

/// The first `n` classes have a ranking.
proof fn lemma_ranking_of_first_exists(scores: Seq<Binary32>, n: int) -> (order: Seq<int>)
    requires
        0 <= n <= scores.len(),
    ensures
        is_ranking_of_first(order, scores, n),
    decreases n,
{
    if n == 0 {
        Seq::empty()
    } else {
        let before = lemma_ranking_of_first_exists(scores, n - 1);
        if significant(scores[n - 1]) {
            let at = lemma_place(before, scores, n - 1, 0);
            lemma_insert_keeps_ranking(before, scores, n - 1, at);
            before.insert(at, n - 1)
        } else {
            lemma_skip_keeps_ranking(before, scores, n - 1);
            before
        }
    }
}

/// Every list of scores has a ranking, and `ranking` is it.
pub proof fn lemma_ranking_exists(scores: Seq<Binary32>)
    ensures
        is_ranking(ranking(scores), scores),
{
    let order = lemma_ranking_of_first_exists(scores, scores.len() as int);
    assert(is_ranking(order, scores));
}

/// The percentage of a score that is above the noise floor and not above
/// one lies above zero and not above a hundred.
pub proof fn lemma_percentage_range(score: Binary32)
    requires
        significant(score),
        score.value() <= crate::binary32::whole(1),
    ensures
        0 < percentage(score).value() <= crate::binary32::whole(100),
{
    lemma_significant_percentage(score);
    crate::binary32::lemma_one_and_hundred();
    let hundred = Binary32 { bits: crate::binary32::HUNDRED_BITS };
    if score.is_infinite() {
        vstd::arithmetic::power2::lemma_pow2_strictly_increases(149, 254);
        vstd::arithmetic::power2::lemma_pow2_pos(254);
        assert(score.magnitude() >= vstd::arithmetic::power2::pow2(254)) by (nonlinear_arith)
            requires
                score.magnitude() == score.significand() * vstd::arithmetic::power2::pow2(254),
                score.significand() >= 1,
        ;
    }
    assert(score.is_finite());
    if score.magnitude() == 0 {
        crate::binary32::lemma_product_of_zero(score, NOISE_FACTOR as nat);
        vstd::arithmetic::power2::lemma_pow2_pos(149);
    }
    assert(100 * score.magnitude() <= hundred.magnitude());
    crate::binary32::lemma_product_stays_below(score, PERCENT_FACTOR as nat, hundred);
    crate::binary32::lemma_product_stays_above_zero(score, PERCENT_FACTOR as nat);
}

/// The ranked list descends: no entry has a higher percentage than one
/// before it.
pub proof fn lemma_ranked_descends(
    scores: Seq<Binary32>,
    labels: Seq<Seq<char>>,
    j: int,
    k: int,
)
    requires
        0 <= j <= k < ranked(scores, labels).len(),
    ensures
        ranked(scores, labels)[j].probability.value() >= ranked(
            scores,
            labels,
        )[k].probability.value(),
{
    lemma_ranking_exists(scores);
    let order = ranking(scores);
    if j < k {
        assert(outranks(scores, order[j], order[k]));
    }
}

/// Every entry of the ranked list is a class above the noise floor, with its
/// percentage and its label, and `"Unknown"` for a label where the labels do
/// not reach. Each such class has one entry.
pub proof fn lemma_ranked_entries(scores: Seq<Binary32>, labels: Seq<Seq<char>>, k: int)
    requires
        0 <= k < ranked(scores, labels).len(),
    ensures
        ({
            let class = ranking(scores)[k];
            let entry = ranked(scores, labels)[k];
            &&& 0 <= class < scores.len()
            &&& significant(scores[class])
            &&& entry.probability == percentage(scores[class])
            &&& class < labels.len() ==> entry.class_label == labels[class]
            &&& class >= labels.len() ==> entry.class_label == "Unknown"@
            &&& forall|l: int|
                0 <= l < ranked(scores, labels).len() && l != k ==> ranking(scores)[l] != class
        }),
{
    lemma_ranking_exists(scores);
    let order = ranking(scores);
    assert forall|l: int| 0 <= l < order.len() && l != k implies order[l] != order[k] by {
        if l < k {
            assert(outranks(scores, order[l], order[k]));
        } else {
            assert(outranks(scores, order[k], order[l]));
        }
    }
}

/// Every class above the noise floor has an entry in the ranked list.
pub proof fn lemma_ranked_covers(scores: Seq<Binary32>, labels: Seq<Seq<char>>, class: int)
    requires
        0 <= class < scores.len(),
        significant(scores[class]),
    ensures
        exists|k: int| 0 <= k < ranked(scores, labels).len() && ranking(scores)[k] == class,
{
    lemma_ranking_exists(scores);
    let order = ranking(scores);
    let k = choose|k: int| 0 <= k < order.len() && order[k] == class;
    assert(0 <= k < ranked(scores, labels).len() && ranking(scores)[k] == class);
}

/// Where no score above the noise floor is above one, every percentage of
/// the ranked list lies above zero and not above a hundred.
pub proof fn lemma_ranked_in_range(scores: Seq<Binary32>, labels: Seq<Seq<char>>, k: int)
    requires
        forall|i: int|
            0 <= i < scores.len() && significant(#[trigger] scores[i]) ==> scores[i].value()
                <= crate::binary32::whole(1),
        0 <= k < ranked(scores, labels).len(),
    ensures
        0 < ranked(scores, labels)[k].probability.value() <= crate::binary32::whole(100),
{
    lemma_ranked_entries(scores, labels, k);
    lemma_percentage_range(scores[ranking(scores)[k]]);
}

} // verus!
