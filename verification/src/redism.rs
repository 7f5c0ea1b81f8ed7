//! The router store: per-domain membership as a sorted set with cumulative
//! scores, the subdomain map, and the leases of the maintenance jobs.
use vstd::prelude::*;
use crate::assoc::Assoc;
use crate::models::weights_view;
use crate::table::{
    ascending, lemma_insert_ordered_at, lemma_order_by, lemma_order_by_ascending,
    lemma_order_by_keeps_distinct, order_by,
};
use crate::text::str_eq;

verus! {

/// Why the router store refused an operation.
#[derive(Clone, Copy, PartialEq, Eq, Structural, Debug)]
pub enum RouterError {
    /// A weight below zero.
    NegativeWeight,
    /// A cumulative score would fall below zero or leave the range of a signed
    /// 64-bit integer.
    ScoreOutOfRange,
}

/// Whether `node_id` is a member of the set with entries `z`.
pub open spec fn has_member(z: Seq<(Seq<char>, int)>, node_id: Seq<char>) -> bool {
    exists|i: int| 0 <= i < z.len() && (#[trigger] z[i]).0 == node_id
}

/// The position of `node_id` in the set, for a member.
pub open spec fn rank_of(z: Seq<(Seq<char>, int)>, node_id: Seq<char>) -> int {
    choose|i: int| 0 <= i < z.len() && (#[trigger] z[i]).0 == node_id
}

/// The score of the last member, 0 for an empty set.
pub open spec fn last_score(z: Seq<(Seq<char>, int)>) -> int {
    if z.len() == 0 {
        0
    } else {
        z.last().1
    }
}

/// The weight of the member at position `i`: its score minus the score
/// before it.
pub open spec fn weight_at(z: Seq<(Seq<char>, int)>, i: int) -> int {
    if i == 0 {
        z[i].1
    } else {
        z[i].1 - z[i - 1].1
    }
}

/// The members with their weights, in position order.
pub open spec fn logical_weights(z: Seq<(Seq<char>, int)>) -> Seq<(Seq<char>, int)> {
    Seq::new(z.len(), |i: int| (z[i].0, weight_at(z, i)))
}

/// No member occurs twice and no weight is below zero, so that the scores
/// ascend with the positions.
pub open spec fn scores_wf(z: Seq<(Seq<char>, int)>) -> bool {
    &&& forall|i: int, j: int| 0 <= i < j < z.len() ==> (#[trigger] z[i]).0 != (#[trigger] z[j]).0
    &&& forall|i: int| 0 <= i < z.len() ==> #[trigger] weight_at(z, i) >= 0
}

/// The set after `join`: the member is written with the last score plus
/// `weight` and so stands last. A node that was a member before leaves its
/// old position, and the scores after that position stay as they were.
pub open spec fn joined(z: Seq<(Seq<char>, int)>, node_id: Seq<char>, weight: int) -> Seq<
    (Seq<char>, int),
> {
    if has_member(z, node_id) {
        z.remove(rank_of(z, node_id)).push((node_id, last_score(z) + weight))
    } else {
        z.push((node_id, last_score(z) + weight))
    }
}

/// The set after `upjoin`: a member keeps its position and takes the new
/// weight, so that its score and every score after it move by the
/// difference; a node that is no member joins.
pub open spec fn upjoined(z: Seq<(Seq<char>, int)>, node_id: Seq<char>, weight: int) -> Seq<
    (Seq<char>, int),
> {
    if has_member(z, node_id) {
        let r = rank_of(z, node_id);
        let delta = weight - weight_at(z, r);
        Seq::new(
            z.len(),
            |i: int|
                if i >= r {
                    (z[i].0, z[i].1 + delta)
                } else {
                    z[i]
                },
        )
    } else {
        joined(z, node_id, weight)
    }
}

/// The score of an entry, by which the set is ordered.
pub open spec fn score_of() -> spec_fn((Seq<char>, int)) -> int {
    |e: (Seq<char>, int)| e.1
}

/// The member of an entry.
pub open spec fn member_of() -> spec_fn((Seq<char>, int)) -> Seq<char> {
    |e: (Seq<char>, int)| e.0
}

/// Lowers the score of an entry by `weight`.
pub open spec fn lowered(weight: int) -> spec_fn((Seq<char>, int)) -> (Seq<char>, int) {
    |e: (Seq<char>, int)| (e.0, e.1 - weight)
}

/// The entries of the set without the member at position `r`, every score
/// after it lowered by `weight`, each entry at the position that it had.
pub open spec fn left_in_place(z: Seq<(Seq<char>, int)>, r: int, weight: int) -> Seq<
    (Seq<char>, int),
> {
    z.take(r) + z.skip(r + 1).map_values(lowered(weight))
}

/// The set after `leave`, whatever the weight: every score after the member
/// drops by `weight` and the member is removed. The set stays in ascending
/// order of score, so a member whose lowered score is below that of a member
/// before it comes to stand in front of that member; under the member's own
/// weight every entry keeps its position. Nothing changes for a node that is
/// no member.
pub open spec fn left(z: Seq<(Seq<char>, int)>, node_id: Seq<char>, weight: int) -> Seq<
    (Seq<char>, int),
> {
    if has_member(z, node_id) {
        order_by(left_in_place(z, rank_of(z, node_id), weight), score_of())
    } else {
        z
    }
}

/// The sum of the weights of the pairs.
pub open spec fn total_weight(l: Seq<(Seq<char>, int)>) -> int
    decreases l.len(),
{
    if l.len() == 0 {
        0
    } else {
        total_weight(l.drop_last()) + l.last().1
    }
}

/// The score of a member is the sum of its weight and the weights of the
/// members before it.
pub proof fn lemma_score_is_sum(z: Seq<(Seq<char>, int)>, i: int)
    requires
        0 <= i < z.len(),
    ensures
        z[i].1 == total_weight(logical_weights(z).take(i + 1)),
    decreases i,
{
    let l = logical_weights(z).take(i + 1);
    if i > 0 {
        lemma_score_is_sum(z, i - 1);
        assert(l.drop_last() =~= logical_weights(z).take(i));
    } else {
        assert(total_weight(l.drop_last()) == 0);
    }
}

/// The last score of a set is the sum of all its weights.
pub proof fn lemma_last_score_is_total(z: Seq<(Seq<char>, int)>)
    ensures
        last_score(z) == total_weight(logical_weights(z)),
{
    if z.len() > 0 {
        lemma_score_is_sum(z, z.len() - 1);
        assert(logical_weights(z).take(z.len() as int) =~= logical_weights(z));
    }
}

/// In a well-formed set the scores ascend and none is below zero.
pub proof fn lemma_scores_ascend(z: Seq<(Seq<char>, int)>, i: int, j: int)
    requires
        scores_wf(z),
        0 <= i <= j < z.len(),
    ensures
        0 <= z[i].1 <= z[j].1,
    decreases j,
{
    assert(weight_at(z, j) >= 0);
    if j > i {
        lemma_scores_ascend(z, i, j - 1);
    } else if i > 0 {
        lemma_scores_ascend(z, 0, i - 1);
    }
}

/// A member has one position only.
pub proof fn lemma_rank_unique(z: Seq<(Seq<char>, int)>, node_id: Seq<char>, i: int)
    requires
        scores_wf(z),
        0 <= i < z.len(),
        z[i].0 == node_id,
    ensures
        has_member(z, node_id),
        rank_of(z, node_id) == i,
{
}

/// Joining a node that is no member appends it with the given weight and
/// leaves every other member's weight as it was.
pub proof fn lemma_join_appends(z: Seq<(Seq<char>, int)>, node_id: Seq<char>, weight: int)
    requires
        scores_wf(z),
        !has_member(z, node_id),
        weight >= 0,
    ensures
        scores_wf(joined(z, node_id, weight)),
        logical_weights(joined(z, node_id, weight)) == logical_weights(z).push((node_id, weight)),
{
    let z1 = joined(z, node_id, weight);
    assert forall|i: int| 0 <= i < z1.len() implies #[trigger] weight_at(z1, i) >= 0 by {
        if i < z.len() {
            assert(weight_at(z1, i) == weight_at(z, i));
        }
    }
}

/// Joining a member again keeps the set well formed and puts the member
/// last.
pub proof fn lemma_join_keeps_wf(z: Seq<(Seq<char>, int)>, node_id: Seq<char>, weight: int)
    requires
        scores_wf(z),
        weight >= 0,
    ensures
        scores_wf(joined(z, node_id, weight)),
        joined(z, node_id, weight).len() > 0,
        joined(z, node_id, weight).last() == (node_id, last_score(z) + weight),
{
    if !has_member(z, node_id) {
        lemma_join_appends(z, node_id, weight);
    } else {
        let r = rank_of(z, node_id);
        let z0 = z.remove(r);
        let z1 = joined(z, node_id, weight);
        assert(z1 == z0.push((node_id, last_score(z) + weight)));
        assert forall|i: int| 0 <= i < z1.len() implies #[trigger] weight_at(z1, i) >= 0 by {
            if i < z0.len() {
                if i < r {
                    assert(weight_at(z1, i) == weight_at(z, i));
                } else if i != r {
                    assert(weight_at(z, i + 1) >= 0);
                }
            } else if i > 0 {
                lemma_scores_ascend(z, 0, z.len() - 1);
                if i - 1 < r {
                    lemma_scores_ascend(z, i - 1, z.len() - 1);
                } else {
                    lemma_scores_ascend(z, i, z.len() - 1);
                }
            } else {
                lemma_scores_ascend(z, 0, z.len() - 1);
            }
        }
        assert forall|i: int, j: int| 0 <= i < j < z1.len() implies (#[trigger] z1[i]).0 != (
        #[trigger] z1[j]).0 by {}
    }
}

/// Updating a member's weight keeps its position and every other member's
/// weight.
pub proof fn lemma_upjoin_updates(z: Seq<(Seq<char>, int)>, node_id: Seq<char>, weight: int)
    requires
        scores_wf(z),
        has_member(z, node_id),
        weight >= 0,
    ensures
        scores_wf(upjoined(z, node_id, weight)),
        logical_weights(upjoined(z, node_id, weight)) == logical_weights(z).update(
            rank_of(z, node_id),
            (node_id, weight),
        ),
{
    let z1 = upjoined(z, node_id, weight);
    assert forall|i: int| 0 <= i < z1.len() implies #[trigger] weight_at(z1, i) >= 0 by {
        assert(weight_at(z, i) >= 0);
    }
    assert forall|i: int, j: int| 0 <= i < j < z1.len() implies (#[trigger] z1[i]).0 != (
    #[trigger] z1[j]).0 by {}
}

/// The entries that stay after a leave are kept apart by their members, and
/// ordering them by score yields these entries and no others.
proof fn lemma_order_by_keeps_distinct_members(z: Seq<(Seq<char>, int)>, r: int, weight: int)
    requires
        scores_wf(z),
        0 <= r < z.len(),
    ensures
        order_by(left_in_place(z, r, weight), score_of()).len() == z.len() - 1,
        forall|i: int|
            0 <= i < z.len() - 1 ==> left_in_place(z, r, weight).contains(
                #[trigger] order_by(left_in_place(z, r, weight), score_of())[i],
            ),
        forall|i: int, j: int|
            0 <= i < j < z.len() - 1 ==> (#[trigger] order_by(
                left_in_place(z, r, weight),
                score_of(),
            )[i]).0 != (#[trigger] order_by(left_in_place(z, r, weight), score_of())[j]).0,
{
    let x = left_in_place(z, r, weight);
    assert forall|i: int, j: int| 0 <= i < j < x.len() implies (member_of())(#[trigger] x[i])
        != (member_of())(#[trigger] x[j]) by {
        let i0 = if i < r {
            i
        } else {
            i + 1
        };
        let j0 = if j < r {
            j
        } else {
            j + 1
        };
        assert(z[i0].0 != z[j0].0);
    }
    lemma_order_by_keeps_distinct(x, score_of(), member_of());
    let o = order_by(x, score_of());
    assert forall|i: int, j: int| 0 <= i < j < z.len() - 1 implies (#[trigger] o[i]).0 != (
    #[trigger] o[j]).0 by {
        assert((member_of())(o[i]) != (member_of())(o[j]));
    }
}

/// A leave that is not refused takes the member out and no other, whatever
/// the weight, and keeps the set well formed.
pub proof fn lemma_leave_keeps_wf(z: Seq<(Seq<char>, int)>, node_id: Seq<char>, weight: int)
    requires
        scores_wf(z),
        leave_error(z, node_id, weight) is None,
    ensures
        scores_wf(left(z, node_id, weight)),
        !has_member(left(z, node_id, weight), node_id),
        has_member(z, node_id) ==> left(z, node_id, weight).len() == z.len() - 1,
        forall|m: Seq<char>|
            m != node_id ==> (has_member(z, m) <==> #[trigger] has_member(
                left(z, node_id, weight),
                m,
            )),
{
    if has_member(z, node_id) {
        let r = rank_of(z, node_id);
        let x = left_in_place(z, r, weight);
        let z1 = left(z, node_id, weight);
        lemma_order_by_keeps_distinct_members(z, r, weight);
        lemma_order_by(x, score_of());
        assert forall|i: int| 0 <= i < x.len() implies (#[trigger] x[i]).1 >= 0 by {
            if i < r {
                lemma_scores_ascend(z, 0, i);
            } else {
                lemma_scores_ascend(z, r + 1, i + 1);
            }
        }
        assert forall|i: int| 0 <= i < z1.len() implies (#[trigger] z1[i]).1 >= 0 && z1[i].0
            != node_id by {
            let k = choose|k: int| 0 <= k < x.len() && x[k] == z1[i];
            let k0 = if k < r {
                k
            } else {
                k + 1
            };
            assert(x[k].0 == z[k0].0);
            if z[k0].0 == node_id {
                lemma_rank_unique(z, node_id, k0);
            }
        }
        assert forall|i: int| 0 <= i < z1.len() implies #[trigger] weight_at(z1, i) >= 0 by {
            if i > 0 {
                assert((score_of())(z1[i - 1]) <= (score_of())(z1[i]));
            } else {
                assert(z1[0].1 >= 0);
            }
        }
        if has_member(z1, node_id) {
            let k = rank_of(z1, node_id);
            assert(z1[k].0 != node_id);
        }
        assert forall|m: Seq<char>| m != node_id implies (has_member(z, m) <==> #[trigger] has_member(
            z1,
            m,
        )) by {
            if has_member(z, m) {
                let i = rank_of(z, m);
                let k = if i < r {
                    i
                } else {
                    i - 1
                };
                assert(x[k].0 == m);
                assert(x.contains(x[k]));
                vstd::seq_lib::to_multiset_contains(x, x[k]);
                vstd::seq_lib::to_multiset_contains(z1, x[k]);
                let j = choose|j: int| 0 <= j < z1.len() && z1[j] == x[k];
                assert(z1[j].0 == m);
            }
            if has_member(z1, m) {
                let j = rank_of(z1, m);
                let k = choose|k: int| 0 <= k < x.len() && x[k] == z1[j];
                let k0 = if k < r {
                    k
                } else {
                    k + 1
                };
                assert(z[k0].0 == m);
            }
        }
    }
}

/// Removing a member under its own weight is not refused and keeps every
/// other member's position and weight.
pub proof fn lemma_leave_removes(z: Seq<(Seq<char>, int)>, node_id: Seq<char>, weight: int)
    requires
        scores_wf(z),
        has_member(z, node_id),
        weight == weight_at(z, rank_of(z, node_id)),
    ensures
        leave_error(z, node_id, weight) is None,
        left(z, node_id, weight) == left_in_place(z, rank_of(z, node_id), weight),
        scores_wf(left(z, node_id, weight)),
        !has_member(left(z, node_id, weight), node_id),
        logical_weights(left(z, node_id, weight)) == logical_weights(z).remove(rank_of(z, node_id)),
{
    let r = rank_of(z, node_id);
    let x = left_in_place(z, r, weight);
    assert(weight_at(z, r) >= 0);
    if r + 1 < z.len() {
        lemma_scores_ascend(z, r, r + 1);
        lemma_scores_ascend(z, 0, r);
        if r > 0 {
            lemma_scores_ascend(z, 0, r - 1);
        }
    }
    assert(ascending(x, score_of())) by {
        assert forall|i: int, j: int| 0 <= i <= j < x.len() implies (score_of())(#[trigger] x[i])
            <= (score_of())(#[trigger] x[j]) by {
            if j < r {
                lemma_scores_ascend(z, i, j);
            } else if i >= r {
                lemma_scores_ascend(z, i + 1, j + 1);
            } else {
                lemma_scores_ascend(z, i, r - 1);
                lemma_scores_ascend(z, r, j + 1);
            }
        }
    }
    lemma_order_by_ascending(x, score_of());
    lemma_leave_keeps_wf(z, node_id, weight);
    let z1 = left(z, node_id, weight);
    assert(z1 == x);
    assert forall|i: int| 0 <= i < z1.len() implies #[trigger] logical_weights(z1)[i]
        == logical_weights(z).remove(r)[i] by {
        if i < r {
            assert(z1[i] == z[i]);
            if i > 0 {
                assert(z1[i - 1] == z[i - 1]);
            }
        } else {
            assert(z1[i] == (z[i + 1].0, z[i + 1].1 - weight));
            if i > r {
                assert(z1[i - 1] == (z[i].0, z[i].1 - weight));
            } else if i > 0 {
                assert(z1[i - 1] == z[i - 1]);
            }
        }
    }
    assert(logical_weights(z1) =~= logical_weights(z).remove(r));
}

/// A node that is no member of a well-formed set has no entry among its
/// weights, and a member has one.
pub proof fn lemma_logical_members(z: Seq<(Seq<char>, int)>, node_id: Seq<char>)
    ensures
        has_member(logical_weights(z), node_id) == has_member(z, node_id),
        logical_weights(z).len() == z.len(),
        forall|i: int| 0 <= i < z.len() ==> (#[trigger] logical_weights(z)[i]).0 == z[i].0,
{
    let l = logical_weights(z);
    if has_member(z, node_id) {
        let i = rank_of(z, node_id);
        assert(l[i].0 == node_id);
    }
}

/// One write to a sorted set.
#[derive(Debug, PartialEq, Eq)]
pub enum ZsetWrite {
    /// Set the member's score.
    Add(String, i64),
    /// Remove the member.
    Remove(String),
}

/// The view of a `ZsetWrite`.
pub enum ZsetWriteView {
    Add(Seq<char>, int),
    Remove(Seq<char>),
}

impl View for ZsetWrite {
    type V = ZsetWriteView;

    open spec fn view(&self) -> ZsetWriteView {
        match self {
            ZsetWrite::Add(m, s) => ZsetWriteView::Add(m@, *s as int),
            ZsetWrite::Remove(m) => ZsetWriteView::Remove(m@),
        }
    }
}

/// The views of a list of writes, in order.
pub open spec fn writes_view(w: Seq<ZsetWrite>) -> Seq<ZsetWriteView> {
    w.map_values(|x: ZsetWrite| x@)
}

/// Why `join` is refused, if it is.
pub open spec fn join_error(z: Seq<(Seq<char>, int)>, weight: int) -> Option<RouterError> {
    if weight < 0 {
        Some(RouterError::NegativeWeight)
    } else if last_score(z) + weight > i64::MAX {
        Some(RouterError::ScoreOutOfRange)
    } else {
        None
    }
}

/// Why `upjoin` is refused, if it is.
pub open spec fn upjoin_error(z: Seq<(Seq<char>, int)>, node_id: Seq<char>, weight: int) -> Option<
    RouterError,
> {
    if weight < 0 {
        Some(RouterError::NegativeWeight)
    } else if has_member(z, node_id) {
        if last_score(z) + (weight - weight_at(z, rank_of(z, node_id))) > i64::MAX {
            Some(RouterError::ScoreOutOfRange)
        } else {
            None
        }
    } else {
        join_error(z, weight)
    }
}

/// Whether lowering every score after position `r` by `weight` would take a
/// score below zero, or, for a weight below zero, out of the range of a
/// signed 64-bit integer.
pub open spec fn leaves_range(z: Seq<(Seq<char>, int)>, r: int, weight: int) -> bool {
    r + 1 < z.len() && (z[r + 1].1 - weight < 0 || (weight < 0 && z.last().1 - weight > i64::MAX))
}

/// Why `leave` is refused, if it is: only a score out of range refuses it,
/// whatever the weight.
pub open spec fn leave_error(z: Seq<(Seq<char>, int)>, node_id: Seq<char>, weight: int) -> Option<
    RouterError,
> {
    if has_member(z, node_id) && leaves_range(z, rank_of(z, node_id), weight) {
        Some(RouterError::ScoreOutOfRange)
    } else {
        None
    }
}

/// The write that `join` makes.
pub open spec fn join_writes(z: Seq<(Seq<char>, int)>, node_id: Seq<char>, weight: int) -> Seq<
    ZsetWriteView,
> {
    seq![ZsetWriteView::Add(node_id, last_score(z) + weight)]
}

/// The writes that `upjoin` makes: none where the weight stays, else the new
/// score of the member and of each member after it, in position order.
pub open spec fn upjoin_writes(z: Seq<(Seq<char>, int)>, node_id: Seq<char>, weight: int) -> Seq<
    ZsetWriteView,
> {
    if has_member(z, node_id) {
        let r = rank_of(z, node_id);
        let delta = weight - weight_at(z, r);
        if delta == 0 {
            Seq::empty()
        } else {
            Seq::new((z.len() - r) as nat, |k: int| ZsetWriteView::Add(z[r + k].0, z[r + k].1 + delta))
        }
    } else {
        join_writes(z, node_id, weight)
    }
}

/// The writes that `leave` makes: the new score of each member after the
/// one that leaves, in position order, then its removal.
pub open spec fn leave_writes(z: Seq<(Seq<char>, int)>, node_id: Seq<char>, weight: int) -> Seq<
    ZsetWriteView,
> {
    if has_member(z, node_id) {
        let r = rank_of(z, node_id);
        Seq::new(
            (z.len() - r - 1) as nat,
            |k: int| ZsetWriteView::Add(z[r + 1 + k].0, z[r + 1 + k].1 - weight),
        ).push(ZsetWriteView::Remove(node_id))
    } else {
        Seq::empty()
    }
}

/// The members of one domain with their cumulative scores, in position
/// order. The scores ascend with the positions; members with the same score
/// stand in the order in which they were written.
pub struct WeightedSet {
    members: Vec<(String, i64)>,
}

impl View for WeightedSet {
    type V = Seq<(Seq<char>, int)>;

    closed spec fn view(&self) -> Seq<(Seq<char>, int)> {
        weights_view(self.members@)
    }
}

impl WeightedSet {
    /// No member occurs twice and no weight is below zero.
    pub open spec fn wf(&self) -> bool {
        scores_wf(self@)
    }

    /// A set without members.
    pub fn new() -> (r: WeightedSet)
        ensures
            r@ == Seq::<(Seq<char>, int)>::empty(),
            r.wf(),
    {
        let r = WeightedSet { members: Vec::new() };
        r
    }

    /// The set that holds the given members with the given scores, where
    /// these are well formed.
    pub fn from_scores(entries: Vec<(String, i64)>) -> (r: Option<WeightedSet>)
        ensures
            r is Some <==> scores_wf(weights_view(entries@)),
            r matches Some(s) ==> s@ == weights_view(entries@),
    {
        let ghost z = weights_view(entries@);
        let mut i: usize = 0;
        while i < entries.len()
            invariant
                i <= entries.len(),
                z == weights_view(entries@),
                forall|a: int, b: int| 0 <= a < b < i ==> (#[trigger] z[a]).0 != (#[trigger] z[b]).0,
                forall|a: int| 0 <= a < i ==> #[trigger] weight_at(z, a) >= 0,
            decreases entries.len() - i,
        {
            let prev: i64 = if i == 0 {
                0
            } else {
                entries[i - 1].1
            };
            if entries[i].1 < prev {
                assert(weight_at(z, i as int) < 0);
                return None;
            }
            let mut k: usize = 0;
            while k < i
                invariant
                    k <= i < entries.len(),
                    z == weights_view(entries@),
                    forall|a: int| 0 <= a < k ==> (#[trigger] z[a]).0 != z[i as int].0,
                decreases i - k,
            {
                if str_eq(entries[k].0.as_str(), entries[i].0.as_str()) {
                    assert(z[k as int].0 == z[i as int].0);
                    return None;
                }
                k += 1;
            }
            i += 1;
        }
        Some(WeightedSet { members: entries })
    }

    /// The number of members.
    pub fn len(&self) -> (r: usize)
        ensures
            r == self@.len(),
    {
        self.members.len()
    }

    /// The position of `node_id`, if it is a member.
    pub fn rank(&self, node_id: &str) -> (r: Option<usize>)
        requires
            self.wf(),
        ensures
            r is Some <==> has_member(self@, node_id@),
            r matches Some(i) ==> i == rank_of(self@, node_id@) && i < self@.len(),
    {
        let mut i: usize = 0;
        while i < self.members.len()
            invariant
                i <= self.members.len(),
                self.wf(),
                forall|j: int| 0 <= j < i ==> (#[trigger] self@[j]).0 != node_id@,
            decreases self.members.len() - i,
        {
            if str_eq(self.members[i].0.as_str(), node_id) {
                proof {
                    lemma_rank_unique(self@, node_id@, i as int);
                }
                return Some(i);
            }
            i += 1;
        }
        None
    }

    /// The members with their cumulative scores, in position order.
    pub fn scores(&self) -> (r: Vec<(String, i64)>)
        ensures
            weights_view(r@) == self@,
    {
        let mut out: Vec<(String, i64)> = Vec::new();
        let mut i: usize = 0;
        while i < self.members.len()
            invariant
                i <= self.members.len(),
                weights_view(out@) == self@.take(i as int),
            decreases self.members.len() - i,
        {
            let ghost prev = out@;
            let entry = (self.members[i].0.clone(), self.members[i].1);
            out.push(entry);
            proof {
                assert(weights_view(out@) =~= weights_view(prev).push((entry.0@, entry.1 as int)));
            }
            i += 1;
        }
        out
    }

    /// The members with their weights, in position order.
    pub fn list(&self) -> (r: Vec<(String, i64)>)
        requires
            self.wf(),
        ensures
            weights_view(r@) == logical_weights(self@),
    {
        let mut out: Vec<(String, i64)> = Vec::new();
        let mut i: usize = 0;
        while i < self.members.len()
            invariant
                i <= self.members.len(),
                self.wf(),
                weights_view(out@) == logical_weights(self@).take(i as int),
            decreases self.members.len() - i,
        {
            proof {
                lemma_scores_ascend(self@, 0, i as int);
            }
            let weight: i64 = if i == 0 {
                self.members[i].1
            } else {
                proof {
                    lemma_scores_ascend(self@, 0, i as int - 1);
                }
                self.members[i].1 - self.members[i - 1].1
            };
            let ghost prev = out@;
            let entry = (self.members[i].0.clone(), weight);
            out.push(entry);
            proof {
                assert(weights_view(out@) =~= weights_view(prev).push((entry.0@, entry.1 as int)));
            }
            i += 1;
        }
        out
    }

    /// The score of the last member, 0 for an empty set.
    fn tail_score(&self) -> (r: i64)
        ensures
            r == last_score(self@),
    {
        let n = self.members.len();
        if n == 0 {
            0
        } else {
            self.members[n - 1].1
        }
    }

    /// The weight of the member at position `i`.
    fn weight_of(&self, i: usize) -> (r: i64)
        requires
            self.wf(),
            i < self@.len(),
        ensures
            r == weight_at(self@, i as int),
            r >= 0,
    {
        proof {
            lemma_scores_ascend(self@, 0, i as int);
        }
        if i == 0 {
            self.members[i].1
        } else {
            proof {
                lemma_scores_ascend(self@, 0, i as int - 1);
            }
            self.members[i].1 - self.members[i - 1].1
        }
    }

    /// Writes `node_id` with the last score plus `weight`, which puts it
    /// last. Refused for a weight below zero and for a score out of range.
    pub fn join(&mut self, node_id: &str, weight: i64) -> (r: Result<Vec<ZsetWrite>, RouterError>)
        requires
            old(self).wf(),
        ensures
            final(self).wf(),
            match join_error(old(self)@, weight as int) {
                Some(e) => r == Err::<Vec<ZsetWrite>, RouterError>(e) && final(self)@ == old(self)@,
                None => r is Ok && writes_view(r->Ok_0@) == join_writes(
                    old(self)@,
                    node_id@,
                    weight as int,
                ) && final(self)@ == joined(old(self)@, node_id@, weight as int),
            },
    {
        if weight < 0 {
            return Err(RouterError::NegativeWeight);
        }
        let ghost z = self@;
        let last = self.tail_score();
        proof {
            if z.len() > 0 {
                lemma_scores_ascend(z, 0, z.len() - 1);
            }
        }
        if last > i64::MAX - weight {
            return Err(RouterError::ScoreOutOfRange);
        }
        let score = last + weight;
        match self.rank(node_id) {
            Some(i) => {
                self.members.remove(i);
            },
            None => {},
        }
        self.members.push((node_id.to_owned(), score));
        let mut writes: Vec<ZsetWrite> = Vec::new();
        writes.push(ZsetWrite::Add(node_id.to_owned(), score));
        proof {
            lemma_join_keeps_wf(z, node_id@, weight as int);
            assert(self@ =~= joined(z, node_id@, weight as int));
        }
        Ok(writes)
    }

    /// Gives `node_id` the weight `weight`: a member keeps its position, a
    /// node that is no member joins. Refused for a weight below zero and for
    /// a score out of range.
    pub fn upjoin(&mut self, node_id: &str, weight: i64) -> (r: Result<Vec<ZsetWrite>, RouterError>)
        requires
            old(self).wf(),
        ensures
            final(self).wf(),
            match upjoin_error(old(self)@, node_id@, weight as int) {
                Some(e) => r == Err::<Vec<ZsetWrite>, RouterError>(e) && final(self)@ == old(self)@,
                None => r is Ok && writes_view(r->Ok_0@) == upjoin_writes(
                    old(self)@,
                    node_id@,
                    weight as int,
                ) && final(self)@ == upjoined(old(self)@, node_id@, weight as int),
            },
    {
        if weight < 0 {
            return Err(RouterError::NegativeWeight);
        }
        let ghost z = self@;
        let rank = match self.rank(node_id) {
            Some(rank) => rank,
            None => {
                return self.join(node_id, weight);
            },
        };
        let old_weight = self.weight_of(rank);
        let delta = weight - old_weight;
        let last = self.tail_score();
        proof {
            lemma_scores_ascend(z, 0, z.len() - 1);
        }
        if delta > 0 && last > i64::MAX - delta {
            return Err(RouterError::ScoreOutOfRange);
        }
        let mut writes: Vec<ZsetWrite> = Vec::new();
        if delta == 0 {
            return Ok(writes);
        }
        let n = self.members.len();
        let mut i: usize = rank;
        while i < n
            invariant
                rank <= i <= n,
                n == z.len(),
                self.members.len() == n,
                scores_wf(z),
                delta == weight - weight_at(z, rank as int),
                weight >= 0,
                last_score(z) + delta <= i64::MAX,
                writes.len() == i - rank,
                forall|j: int|
                    0 <= j < n ==> (#[trigger] self@[j]) == if rank <= j < i {
                        (z[j].0, z[j].1 + delta)
                    } else {
                        z[j]
                    },
                forall|k: int|
                    0 <= k < i - rank ==> (#[trigger] writes_view(writes@)[k]) == ZsetWriteView::Add(
                        z[rank + k].0,
                        z[rank + k].1 + delta,
                    ),
            decreases n - i,
        {
            proof {
                lemma_scores_ascend(z, i as int, n - 1);
                lemma_scores_ascend(z, rank as int, i as int);
                assert(self@[i as int] == z[i as int]);
                if rank > 0 {
                    lemma_scores_ascend(z, 0, rank as int - 1);
                }
            }
            let ghost cur = self@;
            let ghost prev = writes@;
            let score = self.members[i].1 + delta;
            self.members[i].1 = score;
            let write = ZsetWrite::Add(self.members[i].0.clone(), score);
            writes.push(write);
            proof {
                assert(self@ =~= cur.update(i as int, (cur[i as int].0, score as int)));
                assert(writes_view(writes@) =~= writes_view(prev).push(write@));
            }
            i += 1;
        }
        proof {
            assert(self@ =~= upjoined(z, node_id@, weight as int));
            lemma_upjoin_updates(z, node_id@, weight as int);
        }
        Ok(writes)
    }

    /// Removes `node_id` and lowers every score after it by `weight`,
    /// whatever the weight is; the set stays in ascending order of score.
    /// Nothing happens for a node that is no member. Refused only where a
    /// score would go out of range.
    pub fn leave(&mut self, node_id: &str, weight: i64) -> (r: Result<Vec<ZsetWrite>, RouterError>)
        requires
            old(self).wf(),
        ensures
            final(self).wf(),
            match leave_error(old(self)@, node_id@, weight as int) {
                Some(e) => r == Err::<Vec<ZsetWrite>, RouterError>(e) && final(self)@ == old(self)@,
                None => r is Ok && writes_view(r->Ok_0@) == leave_writes(
                    old(self)@,
                    node_id@,
                    weight as int,
                ) && final(self)@ == left(old(self)@, node_id@, weight as int),
            },
    {
        let ghost z = self@;
        let mut writes: Vec<ZsetWrite> = Vec::new();
        let rank = match self.rank(node_id) {
            Some(rank) => rank,
            None => {
                return Ok(writes);
            },
        };
        let len = self.members.len();
        if rank + 1 < len {
            let first = self.members[rank + 1].1 as i128 - weight as i128;
            let last = self.members[len - 1].1 as i128 - weight as i128;
            if first < 0 || last > i64::MAX as i128 {
                return Err(RouterError::ScoreOutOfRange);
            }
        }
        let ghost r = rank as int;
        let ghost kept = z.take(r);
        let ghost moved = z.skip(r + 1).map_values(lowered(weight as int));
        let tail = self.members.split_off(rank);
        proof {
            assert(self@ =~= kept);
            assert(ascending(kept, score_of())) by {
                assert forall|i: int, j: int| 0 <= i <= j < kept.len() implies (score_of())(
                    #[trigger] kept[i],
                ) <= (score_of())(#[trigger] kept[j]) by {
                    lemma_scores_ascend(z, i, j);
                }
            }
            lemma_order_by_ascending(kept, score_of());
            assert(kept + moved.take(0) =~= kept);
        }
        let n = tail.len();
        let mut i: usize = 1;
        while i < n
            invariant
                1 <= i <= n,
                n == tail.len(),
                n == z.len() - rank,
                rank + 1 < z.len() ==> 0 <= z[rank + 1].1 - weight && z.last().1 - weight
                    <= i64::MAX,
                scores_wf(z),
                weights_view(tail@) == z.skip(rank as int),
                kept == z.take(rank as int),
                moved == z.skip(rank + 1).map_values(lowered(weight as int)),
                self@ == order_by(kept + moved.take(i - 1), score_of()),
                writes_view(writes@) == Seq::new(
                    (i - 1) as nat,
                    |k: int| ZsetWriteView::Add(z[rank + 1 + k].0, z[rank + 1 + k].1 - weight),
                ),
            decreases n - i,
        {
            proof {
                lemma_scores_ascend(z, rank + 1, rank + i);
                lemma_scores_ascend(z, rank + i, z.len() - 1);
                assert(weights_view(tail@)[i as int] == z[rank + i]);
            }
            let score = (tail[i].1 as i128 - weight as i128) as i64;
            let ghost before = self@;
            let ghost entry = (z[rank + i].0, score as int);
            let mut j: usize = self.members.len();
            while j > 0 && self.members[j - 1].1 > score
                invariant
                    j <= self.members.len(),
                    before == self@,
                    forall|k: int| j <= k < before.len() ==> (score_of())(#[trigger] before[k]) > score,
                decreases j,
            {
                j -= 1;
            }
            self.members.insert(j, (tail[i].0.clone(), score));
            let ghost prev = writes@;
            let write = ZsetWrite::Add(tail[i].0.clone(), score);
            writes.push(write);
            proof {
                assert(self@ =~= before.insert(j as int, entry));
                if j > 0 {
                    assert((score_of())(before[j - 1]) <= (score_of())(entry));
                }
                lemma_insert_ordered_at(before, entry, score_of(), j as int);
                let rows = kept + moved.take(i as int);
                assert(moved[i - 1] == entry);
                assert(rows.drop_last() =~= kept + moved.take(i - 1));
                assert(rows.last() == entry);
                assert(writes_view(writes@) =~= writes_view(prev).push(write@));
            }
            i += 1;
        }
        let ghost before_last = writes@;
        let removal = ZsetWrite::Remove(node_id.to_owned());
        writes.push(removal);
        proof {
            assert(moved.take(n - 1) =~= moved);
            assert(writes_view(writes@) =~= writes_view(before_last).push(removal@));
            assert(writes_view(writes@) =~= leave_writes(z, node_id@, weight as int));
            lemma_leave_keeps_wf(z, node_id@, weight as int);
        }
        Ok(writes)
    }
}

/// One operation on the membership of a domain.
pub enum SetOp {
    Join(Seq<char>, int),
    Upjoin(Seq<char>, int),
    Leave(Seq<char>, int),
}

/// The entries of a set after one operation.
pub open spec fn apply_op(z: Seq<(Seq<char>, int)>, op: SetOp) -> Seq<(Seq<char>, int)> {
    match op {
        SetOp::Join(n, w) => joined(z, n, w),
        SetOp::Upjoin(n, w) => upjoined(z, n, w),
        SetOp::Leave(n, w) => left(z, n, w),
    }
}

/// The entries of a set after a sequence of operations.
pub open spec fn replay(z: Seq<(Seq<char>, int)>, ops: Seq<SetOp>) -> Seq<(Seq<char>, int)>
    decreases ops.len(),
{
    if ops.len() == 0 {
        z
    } else {
        apply_op(replay(z, ops.drop_last()), ops.last())
    }
}

/// What one operation does to the list of members and weights: a member
/// takes the weight that is supplied and stays where it is, a new member
/// stands last, and a member that leaves is taken out.
pub open spec fn listed_after(l: Seq<(Seq<char>, int)>, op: SetOp) -> Seq<(Seq<char>, int)> {
    match op {
        SetOp::Join(n, w) => if has_member(l, n) {
            l.update(rank_of(l, n), (n, w))
        } else {
            l.push((n, w))
        },
        SetOp::Upjoin(n, w) => if has_member(l, n) {
            l.update(rank_of(l, n), (n, w))
        } else {
            l.push((n, w))
        },
        SetOp::Leave(n, w) => if has_member(l, n) {
            l.remove(rank_of(l, n))
        } else {
            l
        },
    }
}

/// The list of members, in the order in which they joined, each with the
/// weight that was supplied last.
pub open spec fn listed(l: Seq<(Seq<char>, int)>, ops: Seq<SetOp>) -> Seq<(Seq<char>, int)>
    decreases ops.len(),
{
    if ops.len() == 0 {
        l
    } else {
        listed_after(listed(l, ops.drop_last()), ops.last())
    }
}

/// The operations that keep the encoding sound: no weight below zero, `join`
/// for a node that is no member, and `leave` under the member's own weight.
pub open spec fn op_allowed(z: Seq<(Seq<char>, int)>, op: SetOp) -> bool {
    match op {
        SetOp::Join(n, w) => w >= 0 && !has_member(z, n),
        SetOp::Upjoin(n, w) => w >= 0,
        SetOp::Leave(n, w) => has_member(z, n) ==> w == weight_at(z, rank_of(z, n)),
    }
}

/// Every operation of the sequence is allowed on the set that it meets.
pub open spec fn ops_allowed(z: Seq<(Seq<char>, int)>, ops: Seq<SetOp>) -> bool
    decreases ops.len(),
{
    ops.len() == 0 || (ops_allowed(z, ops.drop_last()) && op_allowed(
        replay(z, ops.drop_last()),
        ops.last(),
    ))
}

/// The position of a member among the weights is its position in the set.
pub proof fn lemma_logical_rank(z: Seq<(Seq<char>, int)>, node_id: Seq<char>)
    requires
        scores_wf(z),
        has_member(z, node_id),
    ensures
        has_member(logical_weights(z), node_id),
        rank_of(logical_weights(z), node_id) == rank_of(z, node_id),
{
    lemma_logical_members(z, node_id);
    let k = rank_of(logical_weights(z), node_id);
    lemma_rank_unique(z, node_id, k);
}

/// One allowed operation does to the weights what `listed_after` says.
pub proof fn lemma_op_round_trip(z: Seq<(Seq<char>, int)>, op: SetOp)
    requires
        scores_wf(z),
        op_allowed(z, op),
    ensures
        scores_wf(apply_op(z, op)),
        logical_weights(apply_op(z, op)) == listed_after(logical_weights(z), op),
{
    match op {
        SetOp::Join(n, w) => {
            lemma_logical_members(z, n);
            lemma_join_appends(z, n, w);
        },
        SetOp::Upjoin(n, w) => {
            lemma_logical_members(z, n);
            if has_member(z, n) {
                lemma_logical_rank(z, n);
                lemma_upjoin_updates(z, n, w);
            } else {
                lemma_join_appends(z, n, w);
            }
        },
        SetOp::Leave(n, w) => {
            lemma_logical_members(z, n);
            if has_member(z, n) {
                lemma_logical_rank(z, n);
                lemma_leave_removes(z, n, w);
            }
        },
    }
}

/// After any sequence of allowed operations the set lists its members in
/// the order in which they joined, each with the weight supplied last.
pub proof fn lemma_list_round_trip(z: Seq<(Seq<char>, int)>, ops: Seq<SetOp>)
    requires
        scores_wf(z),
        ops_allowed(z, ops),
    ensures
        scores_wf(replay(z, ops)),
        logical_weights(replay(z, ops)) == listed(logical_weights(z), ops),
    decreases ops.len(),
{
    if ops.len() > 0 {
        lemma_list_round_trip(z, ops.drop_last());
        lemma_op_round_trip(replay(z, ops.drop_last()), ops.last());
    }
}

/// The right to run one maintenance job until a point in time.
#[derive(Debug, PartialEq, Eq)]
pub struct Lease {
    pub holder: String,
    /// Seconds since the epoch, UTC.
    pub expires_at: i64,
}

/// One operation on the router store.
#[derive(Debug, PartialEq, Eq)]
pub enum RouterOp {
    /// Record on which tunnel server a subdomain lives.
    SetSubdomain(String, String),
    /// Forget a subdomain.
    DelSubdomain(String),
    /// `Join(domain, node_id, weight)`.
    Join(String, String, i64),
    /// `Upjoin(domain, node_id, weight)`.
    Upjoin(String, String, i64),
    /// `Leave(domain, node_id, weight)`.
    Leave(String, String, i64),
}

/// The view of a `RouterOp`.
pub enum RouterOpView {
    SetSubdomain(Seq<char>, Seq<char>),
    DelSubdomain(Seq<char>),
    Join(Seq<char>, Seq<char>, int),
    Upjoin(Seq<char>, Seq<char>, int),
    Leave(Seq<char>, Seq<char>, int),
}

impl View for RouterOp {
    type V = RouterOpView;

    open spec fn view(&self) -> RouterOpView {
        match self {
            RouterOp::SetSubdomain(s, f) => RouterOpView::SetSubdomain(s@, f@),
            RouterOp::DelSubdomain(s) => RouterOpView::DelSubdomain(s@),
            RouterOp::Join(d, n, w) => RouterOpView::Join(d@, n@, *w as int),
            RouterOp::Upjoin(d, n, w) => RouterOpView::Upjoin(d@, n@, *w as int),
            RouterOp::Leave(d, n, w) => RouterOpView::Leave(d@, n@, *w as int),
        }
    }
}

/// The views of a list of operations, in order.
pub open spec fn ops_view(ops: Seq<RouterOp>) -> Seq<RouterOpView> {
    ops.map_values(|op: RouterOp| op@)
}

/// The subdomain map, the membership set of each domain, and the leases.
pub struct RouterStore {
    subdomains: Assoc<String>,
    sets: Assoc<WeightedSet>,
    leases: Assoc<Lease>,
}

/// The router store as a mathematical value.
pub struct RouterView {
    /// Subdomain to tunnel server.
    pub subdomains: Map<Seq<char>, Seq<char>>,
    /// Domain to members with cumulative scores, in position order.
    pub sets: Map<Seq<char>, Seq<(Seq<char>, int)>>,
    /// Lease name to holder and expiry.
    pub leases: Map<Seq<char>, (Seq<char>, int)>,
}

impl RouterView {
    /// The store that holds nothing.
    pub open spec fn empty() -> RouterView {
        RouterView { subdomains: Map::empty(), sets: Map::empty(), leases: Map::empty() }
    }

    /// The set of a domain; a domain that was never written has the empty
    /// set.
    pub open spec fn zset(self, domain: Seq<char>) -> Seq<(Seq<char>, int)> {
        if self.sets.contains_key(domain) {
            self.sets[domain]
        } else {
            Seq::empty()
        }
    }

    /// The members of a domain with their weights, in position order.
    pub open spec fn list(self, domain: Seq<char>) -> Seq<(Seq<char>, int)> {
        logical_weights(self.zset(domain))
    }

    /// The store with the set of `domain` replaced by `z`.
    pub open spec fn with_zset(self, domain: Seq<char>, z: Seq<(Seq<char>, int)>) -> RouterView {
        RouterView { sets: self.sets.insert(domain, z), ..self }
    }

    /// Every set is well formed.
    pub open spec fn wf(self) -> bool {
        forall|d: Seq<char>| #[trigger] self.sets.contains_key(d) ==> scores_wf(self.sets[d])
    }

    /// Why the store refuses `op`, if it does.
    pub open spec fn op_error(self, op: RouterOpView) -> Option<RouterError> {
        match op {
            RouterOpView::SetSubdomain(_, _) => None,
            RouterOpView::DelSubdomain(_) => None,
            RouterOpView::Join(d, n, w) => join_error(self.zset(d), w),
            RouterOpView::Upjoin(d, n, w) => upjoin_error(self.zset(d), n, w),
            RouterOpView::Leave(d, n, w) => leave_error(self.zset(d), n, w),
        }
    }

    /// The store after `op`; an operation that is refused changes nothing.
    pub open spec fn apply(self, op: RouterOpView) -> RouterView {
        if self.op_error(op) is Some {
            self
        } else {
            match op {
                RouterOpView::SetSubdomain(s, f) => RouterView {
                    subdomains: self.subdomains.insert(s, f),
                    ..self
                },
                RouterOpView::DelSubdomain(s) => RouterView {
                    subdomains: self.subdomains.remove(s),
                    ..self
                },
                RouterOpView::Join(d, n, w) => self.with_zset(d, joined(self.zset(d), n, w)),
                RouterOpView::Upjoin(d, n, w) => self.with_zset(d, upjoined(self.zset(d), n, w)),
                RouterOpView::Leave(d, n, w) => if has_member(self.zset(d), n) {
                    self.with_zset(d, left(self.zset(d), n, w))
                } else {
                    self
                },
            }
        }
    }

    /// The store after the operations in order.
    pub open spec fn apply_all(self, ops: Seq<RouterOpView>) -> RouterView
        decreases ops.len(),
    {
        if ops.len() == 0 {
            self
        } else {
            self.apply_all(ops.drop_last()).apply(ops.last())
        }
    }

    /// The number of operations among `ops` that the store refuses.
    pub open spec fn refused(self, ops: Seq<RouterOpView>) -> nat
        decreases ops.len(),
    {
        if ops.len() == 0 {
            0
        } else {
            self.refused(ops.drop_last()) + if self.apply_all(ops.drop_last()).op_error(
                ops.last(),
            ) is Some {
                1nat
            } else {
                0nat
            }
        }
    }

    /// The store after an attempt to take a lease at time `now`: the lease is
    /// granted when nobody holds it or when it has run out.
    pub open spec fn lease_free(self, name: Seq<char>, now: int) -> bool {
        !self.leases.contains_key(name) || self.leases[name].1 <= now
    }
}

/// The time at which a lease taken at `now` for `ttl` seconds runs out.
pub open spec fn lease_end(now: int, ttl: int) -> int {
    if now + ttl > i64::MAX {
        i64::MAX as int
    } else {
        now + ttl
    }
}

impl View for RouterStore {
    type V = RouterView;

    closed spec fn view(&self) -> RouterView {
        RouterView {
            subdomains: self.subdomains.map().map_values(|s: String| s@),
            sets: self.sets.map().map_values(|w: WeightedSet| w@),
            leases: self.leases.map().map_values(|l: Lease| (l.holder@, l.expires_at as int)),
        }
    }
}

impl RouterStore {
    /// The store holds each key once and every set is well formed.
    pub closed spec fn wf(&self) -> bool {
        &&& self.subdomains.wf()
        &&& self.sets.wf()
        &&& self.leases.wf()
        &&& forall|d: Seq<char>| #[trigger]
            self.sets.map().contains_key(d) ==> self.sets.map()[d].wf()
    }

    /// In a well-formed store every set is well formed.
    pub proof fn lemma_wf(&self)
        requires
            self.wf(),
        ensures
            self@.wf(),
    {
    }

    /// A store that holds nothing.
    pub fn new() -> (r: RouterStore)
        ensures
            r.wf(),
            r@ == RouterView::empty(),
    {
        let r = RouterStore { subdomains: Assoc::new(), sets: Assoc::new(), leases: Assoc::new() };
        assert(r@.subdomains =~= Map::empty());
        assert(r@.sets =~= Map::empty());
        assert(r@.leases =~= Map::empty());
        r
    }

    /// The set of `domain`, taken out of the store; an empty set where the
    /// store holds none.
    fn take_set(&mut self, domain: &str) -> (r: WeightedSet)
        requires
            old(self).wf(),
        ensures
            final(self).subdomains == old(self).subdomains,
            final(self).leases == old(self).leases,
            final(self).sets.wf(),
            final(self).sets.map() == old(self).sets.map().remove(domain@),
            r.wf(),
            r@ == old(self)@.zset(domain@),
    {
        match self.sets.take(domain) {
            Some(set) => set,
            None => WeightedSet::new(),
        }
    }

    /// Puts the set of `domain` back into the store.
    fn put_set(&mut self, domain: &str, set: WeightedSet, Ghost(before): Ghost<RouterStore>)
        requires
            before.wf(),
            old(self).subdomains == before.subdomains,
            old(self).leases == before.leases,
            old(self).sets.wf(),
            old(self).sets.map() == before.sets.map().remove(domain@),
            set.wf(),
        ensures
            final(self).wf(),
            final(self)@ == before@.with_zset(domain@, set@),
    {
        self.sets.put(domain, set);
        proof {
            assert(self@.sets =~= before@.sets.insert(domain@, set@));
        }
    }
}

/// The name of the key under which the members of `domain` are kept.
pub open spec fn key_name(domain: Seq<char>) -> Seq<char> {
    domain + "_nodes_weights"@
}

/// The name of the key under which the members of `domain` are kept.
pub fn compose_key_name(domain: &str) -> (r: String)
    ensures
        r@ == key_name(domain@),
{
    let mut key = domain.to_owned();
    key.append("_nodes_weights");
    key
}

/// Records that `subdomain` lives on the tunnel server `frps_id`.
pub fn set_subdomain_frps_id(router: &mut RouterStore, subdomain: &str, frps_id: &str)
    requires
        old(router).wf(),
    ensures
        final(router).wf(),
        final(router)@ == old(router)@.apply(RouterOpView::SetSubdomain(subdomain@, frps_id@)),
{
    let value = frps_id.to_owned();
    router.subdomains.put(subdomain, value);
    proof {
        assert(router@.subdomains =~= old(router)@.subdomains.insert(subdomain@, frps_id@));
    }
}

/// Forgets `subdomain`.
pub fn del_subdomain(router: &mut RouterStore, subdomain: &str)
    requires
        old(router).wf(),
    ensures
        final(router).wf(),
        final(router)@ == old(router)@.apply(RouterOpView::DelSubdomain(subdomain@)),
{
    let _ = router.subdomains.take(subdomain);
    proof {
        assert(router@.subdomains =~= old(router)@.subdomains.remove(subdomain@));
    }
}

/// The tunnel server on which `subdomain` lives.
pub fn get_subdomain_frps_id(router: &RouterStore, subdomain: &str) -> (r: Option<String>)
    requires
        router.wf(),
    ensures
        r is Some <==> router@.subdomains.contains_key(subdomain@),
        r matches Some(f) ==> f@ == router@.subdomains[subdomain@],
{
    match router.subdomains.get(subdomain) {
        Some(f) => Some(f.clone()),
        None => None,
    }
}

/// Appends `node_id` to the members of `domain` with the given weight.
pub fn nodes_join(router: &mut RouterStore, domain: &str, node_id: &str, weight: i64) -> (r: Result<
    (),
    RouterError,
>)
    requires
        old(router).wf(),
    ensures
        final(router).wf(),
        final(router)@ == old(router)@.apply(RouterOpView::Join(domain@, node_id@, weight as int)),
        r == match old(router)@.op_error(RouterOpView::Join(domain@, node_id@, weight as int)) {
            Some(e) => Err::<(), RouterError>(e),
            None => Ok::<(), RouterError>(()),
        },
{
    let ghost before = *router;
    if !router.sets.contains(domain) {
        let mut set = WeightedSet::new();
        return match set.join(node_id, weight) {
            Ok(_) => {
                router.sets.put(domain, set);
                proof {
                    assert(router@.sets =~= before@.sets.insert(domain@, set@));
                }
                Ok(())
            },
            Err(e) => Err(e),
        };
    }
    let mut set = router.take_set(domain);
    let r = set.join(node_id, weight);
    router.put_set(domain, set, Ghost(before));
    proof {
        assert(before@.sets.insert(domain@, before@.zset(domain@)) =~= before@.sets);
    }
    match r {
        Ok(_) => Ok(()),
        Err(e) => Err(e),
    }
}

/// Gives `node_id` the given weight among the members of `domain`, at the
/// position that it has, or last if it is no member.
pub fn nodes_upjoin(router: &mut RouterStore, domain: &str, node_id: &str, weight: i64) -> (r:
    Result<(), RouterError>)
    requires
        old(router).wf(),
    ensures
        final(router).wf(),
        final(router)@ == old(router)@.apply(RouterOpView::Upjoin(domain@, node_id@, weight as int)),
        r == match old(router)@.op_error(RouterOpView::Upjoin(domain@, node_id@, weight as int)) {
            Some(e) => Err::<(), RouterError>(e),
            None => Ok::<(), RouterError>(()),
        },
{
    let ghost before = *router;
    if !router.sets.contains(domain) {
        let mut set = WeightedSet::new();
        return match set.upjoin(node_id, weight) {
            Ok(_) => {
                router.sets.put(domain, set);
                proof {
                    assert(router@.sets =~= before@.sets.insert(domain@, set@));
                }
                Ok(())
            },
            Err(e) => Err(e),
        };
    }
    let mut set = router.take_set(domain);
    let r = set.upjoin(node_id, weight);
    router.put_set(domain, set, Ghost(before));
    proof {
        assert(before@.sets.insert(domain@, before@.zset(domain@)) =~= before@.sets);
    }
    match r {
        Ok(_) => Ok(()),
        Err(e) => Err(e),
    }
}

/// Takes `node_id` out of the members of `domain` and lowers every score
/// after it by `weight`. The weights of the other members stay as they were
/// where `weight` is the weight that the node had.
pub fn node_lefts(router: &mut RouterStore, domain: &str, node_id: &str, weight: i64) -> (r: Result<
    (),
    RouterError,
>)
    requires
        old(router).wf(),
    ensures
        final(router).wf(),
        final(router)@ == old(router)@.apply(RouterOpView::Leave(domain@, node_id@, weight as int)),
        r == match old(router)@.op_error(RouterOpView::Leave(domain@, node_id@, weight as int)) {
            Some(e) => Err::<(), RouterError>(e),
            None => Ok::<(), RouterError>(()),
        },
{
    let ghost before = *router;
    if !router.sets.contains(domain) {
        return Ok(());
    }
    let mut set = router.take_set(domain);
    let r = set.leave(node_id, weight);
    router.put_set(domain, set, Ghost(before));
    proof {
        assert(before@.sets.insert(domain@, before@.zset(domain@)) =~= before@.sets);
    }
    match r {
        Ok(_) => Ok(()),
        Err(e) => Err(e),
    }
}

/// The members of `domain` with their weights, in position order.
pub fn get_domain_nodes(router: &RouterStore, domain: &str) -> (r: Vec<(String, i64)>)
    requires
        router.wf(),
    ensures
        weights_view(r@) == router@.list(domain@),
{
    match router.sets.get(domain) {
        Some(set) => set.list(),
        None => {
            let r: Vec<(String, i64)> = Vec::new();
            r
        },
    }
}

/// Takes the lease `name` for `holder` at time `now`, for `ttl` seconds,
/// unless somebody holds it and it has not run out. Whether the lease was
/// taken.
pub fn try_acquire_lease(router: &mut RouterStore, name: &str, holder: &str, ttl: u64, now: i64) -> (r:
    bool)
    requires
        old(router).wf(),
    ensures
        final(router).wf(),
        r == old(router)@.lease_free(name@, now as int),
        r ==> final(router)@ == (RouterView {
            leases: old(router)@.leases.insert(
                name@,
                (holder@, lease_end(now as int, ttl as int)),
            ),
            ..old(router)@
        }),
        !r ==> final(router)@ == old(router)@,
{
    let free = match router.leases.get(name) {
        Some(lease) => lease.expires_at <= now,
        None => true,
    };
    if !free {
        return false;
    }
    let sum: i128 = now as i128 + ttl as i128;
    let end: i64 = if sum > i64::MAX as i128 {
        i64::MAX
    } else {
        sum as i64
    };
    let lease = Lease { holder: holder.to_owned(), expires_at: end };
    router.leases.put(name, lease);
    proof {
        assert(router@.leases =~= old(router)@.leases.insert(
            name@,
            (holder@, lease_end(now as int, ttl as int)),
        ));
    }
    true
}

/// Runs `op` on the store.
pub fn apply(router: &mut RouterStore, op: &RouterOp) -> (r: Result<(), RouterError>)
    requires
        old(router).wf(),
    ensures
        final(router).wf(),
        final(router)@ == old(router)@.apply(op@),
        r == match old(router)@.op_error(op@) {
            Some(e) => Err::<(), RouterError>(e),
            None => Ok::<(), RouterError>(()),
        },
{
    match op {
        RouterOp::SetSubdomain(s, f) => {
            set_subdomain_frps_id(router, s.as_str(), f.as_str());
            Ok(())
        },
        RouterOp::DelSubdomain(s) => {
            del_subdomain(router, s.as_str());
            Ok(())
        },
        RouterOp::Join(d, n, w) => nodes_join(router, d.as_str(), n.as_str(), *w),
        RouterOp::Upjoin(d, n, w) => nodes_upjoin(router, d.as_str(), n.as_str(), *w),
        RouterOp::Leave(d, n, w) => node_lefts(router, d.as_str(), n.as_str(), *w),
    }
}

/// Runs the operations in order and goes on after one that the store
/// refuses. The number of operations refused.
pub fn apply_all(router: &mut RouterStore, ops: &Vec<RouterOp>) -> (r: usize)
    requires
        old(router).wf(),
    ensures
        final(router).wf(),
        final(router)@ == old(router)@.apply_all(ops_view(ops@)),
        r == old(router)@.refused(ops_view(ops@)),
{
    let ghost all = ops_view(ops@);
    let mut refused: usize = 0;
    let mut i: usize = 0;
    while i < ops.len()
        invariant
            i <= ops.len(),
            all == ops_view(ops@),
            router.wf(),
            router@ == old(router)@.apply_all(all.take(i as int)),
            refused == old(router)@.refused(all.take(i as int)),
            refused <= i,
        decreases ops.len() - i,
    {
        proof {
            assert(all.take(i as int + 1).drop_last() =~= all.take(i as int));
        }
        match apply(router, &ops[i]) {
            Ok(_) => {},
            Err(_) => {
                refused += 1;
            },
        }
        i += 1;
    }
    assert(all.take(all.len() as int) =~= all);
    refused
}

/// Giving a node the weight that it was just given changes nothing and is
/// not refused.
pub proof fn lemma_upjoin_twice(z: Seq<(Seq<char>, int)>, node_id: Seq<char>, weight: int)
    requires
        scores_wf(z),
        upjoin_error(z, node_id, weight) is None,
    ensures
        scores_wf(upjoined(z, node_id, weight)),
        has_member(upjoined(z, node_id, weight), node_id),
        upjoin_error(upjoined(z, node_id, weight), node_id, weight) is None,
        upjoined(upjoined(z, node_id, weight), node_id, weight) == upjoined(z, node_id, weight),
{
    let z1 = upjoined(z, node_id, weight);
    if has_member(z, node_id) {
        let r = rank_of(z, node_id);
        lemma_upjoin_updates(z, node_id, weight);
        lemma_rank_unique(z1, node_id, r);
    } else {
        let r = z.len() as int;
        lemma_join_appends(z, node_id, weight);
        lemma_rank_unique(z1, node_id, r);
    }
}

impl RouterView {
    /// Running two lists of operations one after the other is running the
    /// list of them all.
    pub proof fn lemma_apply_all_concat(self, a: Seq<RouterOpView>, b: Seq<RouterOpView>)
        ensures
            self.apply_all(a + b) == self.apply_all(a).apply_all(b),
        decreases b.len(),
    {
        if b.len() > 0 {
            self.lemma_apply_all_concat(a, b.drop_last());
            assert((a + b).drop_last() =~= a + b.drop_last());
        }
    }

    /// Running a list of one operation is running the operation.
    pub proof fn lemma_apply_all_one(self, op: RouterOpView)
        ensures
            self.apply_all(seq![op]) == self.apply(op),
            self.apply_all(Seq::empty()) == self,
    {
        assert(self.apply_all(Seq::empty()) == self);
        assert(seq![op].drop_last() =~= Seq::empty());
    }

    /// An operation keeps every set well formed.
    pub proof fn lemma_apply_keeps_wf(self, op: RouterOpView)
        requires
            self.wf(),
        ensures
            self.apply(op).wf(),
    {
        match op {
            RouterOpView::SetSubdomain(_, _) => {},
            RouterOpView::DelSubdomain(_) => {},
            RouterOpView::Join(d, n, w) => {
                if self.op_error(op) is None {
                    lemma_join_keeps_wf(self.zset(d), n, w);
                }
            },
            RouterOpView::Upjoin(d, n, w) => {
                if self.op_error(op) is None {
                    lemma_upjoin_twice(self.zset(d), n, w);
                }
            },
            RouterOpView::Leave(d, n, w) => {
                if self.op_error(op) is None && has_member(self.zset(d), n) {
                    lemma_leave_keeps_wf(self.zset(d), n, w);
                }
            },
        }
    }

    /// Recording a subdomain twice is recording it once.
    pub proof fn lemma_set_subdomain_twice(self, subdomain: Seq<char>, frps_id: Seq<char>)
        ensures
            self.apply(RouterOpView::SetSubdomain(subdomain, frps_id)).apply(
                RouterOpView::SetSubdomain(subdomain, frps_id),
            ) == self.apply(RouterOpView::SetSubdomain(subdomain, frps_id)),
    {
        let once = self.apply(RouterOpView::SetSubdomain(subdomain, frps_id));
        let twice = once.apply(RouterOpView::SetSubdomain(subdomain, frps_id));
        assert(twice.subdomains =~= once.subdomains);
    }

    /// Giving a node the same weight twice is giving it once.
    pub proof fn lemma_upjoin_idempotent(self, domain: Seq<char>, node_id: Seq<char>, weight: int)
        requires
            self.wf(),
        ensures
            self.apply(RouterOpView::Upjoin(domain, node_id, weight)).apply(
                RouterOpView::Upjoin(domain, node_id, weight),
            ) == self.apply(RouterOpView::Upjoin(domain, node_id, weight)),
    {
        let op = RouterOpView::Upjoin(domain, node_id, weight);
        if self.op_error(op) is None {
            let z = self.zset(domain);
            lemma_upjoin_twice(z, node_id, weight);
            let once = self.apply(op);
            let twice = once.apply(op);
            assert(twice.sets =~= once.sets);
        }
    }

    /// An operation on the members of a domain leaves the subdomain map as it
    /// is, and recording a subdomain leaves the members as they are.
    pub proof fn lemma_upjoin_then_set(
        self,
        domain: Seq<char>,
        node_id: Seq<char>,
        weight: int,
        subdomain: Seq<char>,
        frps_id: Seq<char>,
    )
        ensures
            self.apply(RouterOpView::SetSubdomain(subdomain, frps_id)).apply(
                RouterOpView::Upjoin(domain, node_id, weight),
            ).apply(RouterOpView::SetSubdomain(subdomain, frps_id)) == self.apply(
                RouterOpView::SetSubdomain(subdomain, frps_id),
            ).apply(RouterOpView::Upjoin(domain, node_id, weight)),
            self.apply(RouterOpView::SetSubdomain(subdomain, frps_id)).zset(domain) == self.zset(
                domain,
            ),
            self.apply(RouterOpView::SetSubdomain(subdomain, frps_id)).wf() == self.wf(),
    {
        let a = self.apply(RouterOpView::SetSubdomain(subdomain, frps_id));
        let b = a.apply(RouterOpView::Upjoin(domain, node_id, weight));
        let c = b.apply(RouterOpView::SetSubdomain(subdomain, frps_id));
        assert(c.subdomains =~= b.subdomains);
    }
}

} // verus!
