//! The escape-time evaluator: how the orbit of a point is classified.
//!
//! The orbit of a point `c` is the sequence of iterates of `z := z * z + c`
//! from `z = 0`. The caller computes the iterates and tells of each what
//! the classification needs: a key that tells equal iterates from different
//! ones, and whether the iterate lies beyond the escape threshold.

use vstd::prelude::*;
use crate::color::RgbColor;
use crate::color::ramp_color;
use crate::color::map_num_to_color;

verus! {

/// What identifies an iterate: two iterates are the same value exactly if
/// their keys are equal.
#[derive(Clone, Copy, Debug, PartialEq, Eq, Structural)]
pub struct StateKey {
    pub re: u64,
    pub im: u64,
}

/// What the caller tells of one iterate.
#[derive(Clone, Copy, Debug, PartialEq, Eq, Structural)]
pub enum Observation {
    /// The iterate is not a finite number.
    Undefined,
    /// The iterate is the value under `key`, and `escaped` says whether it
    /// lies beyond the escape threshold.
    Point { key: StateKey, escaped: bool },
}

/// How an orbit is classified.
#[derive(Clone, Copy, Debug, PartialEq, Eq, Structural)]
pub enum IterationResult {
    /// The iterate of the given iteration was the first beyond the threshold.
    Diverged(u32),
    /// No iterate below the ceiling was beyond the threshold.
    Bounded,
    /// An iterate came back to an earlier one before any was beyond the
    /// threshold.
    Cyclic,
}

/// How far the classification of an orbit has come.
#[derive(Clone, Copy, Debug, PartialEq, Eq, Structural)]
pub enum Status {
    /// More iterates are needed.
    Pending,
    /// The orbit is classified.
    Finished(IterationResult),
    /// The iterate of the given iteration was not a finite number.
    Failed(u32),
}

impl Observation {
    /// The key of a defined iterate.
    pub open spec fn state_key(self) -> Option<StateKey> {
        match self {
            Observation::Undefined => None,
            Observation::Point { key, .. } => Some(key),
        }
    }

    /// Whether the iterate is defined and beyond the threshold.
    pub open spec fn is_escaped(self) -> bool {
        match self {
            Observation::Undefined => false,
            Observation::Point { escaped, .. } => escaped,
        }
    }
}

/// Whether the iterates `j` and `i` of the orbit are the same defined value.
pub open spec fn same_state(orbit: Seq<Observation>, j: int, i: int) -> bool {
    orbit[i].state_key() is Some && orbit[j].state_key() == orbit[i].state_key()
}

/// Whether iterate `i` comes back to an earlier iterate.
pub open spec fn repeats(orbit: Seq<Observation>, i: int) -> bool {
    exists|j: int| 0 <= j < i && #[trigger] same_state(orbit, j, i)
}

/// Whether the classification ends with iterate `i`: it is not a finite
/// number, it comes back to an earlier iterate, or it lies beyond the threshold.
pub open spec fn halts_at(orbit: Seq<Observation>, i: int) -> bool {
    orbit[i] is Undefined || repeats(orbit, i) || orbit[i].is_escaped()
}

/// Whether the classification ends with none of the first `n` iterates.
pub open spec fn runs_to(orbit: Seq<Observation>, n: int) -> bool {
    forall|j: int| 0 <= j < n ==> !#[trigger] halts_at(orbit, j)
}

/// Whether iterate `i` is the first with which the classification ends, and
/// lies below the ceiling.
pub open spec fn stops_at(orbit: Seq<Observation>, ceiling: nat, i: int) -> bool {
    0 <= i < orbit.len() && i < ceiling && runs_to(orbit, i) && halts_at(orbit, i)
}

/// What iterate `i` decides, if the classification ends with it. An iterate
/// that both comes back and lies beyond the threshold counts as coming back.
pub open spec fn verdict_at(orbit: Seq<Observation>, i: int) -> Status {
    if orbit[i] is Undefined {
        Status::Failed(i as u32)
    } else if repeats(orbit, i) {
        Status::Finished(IterationResult::Cyclic)
    } else {
        Status::Finished(IterationResult::Diverged(i as u32))
    }
}

/// The classification of an orbit of which the first iterates are known.
///
/// The first iterate below the ceiling with which the classification ends
/// decides. If there is none, the orbit is bounded once `ceiling` iterates
/// are known, and pending before.
pub open spec fn status_of(orbit: Seq<Observation>, ceiling: nat) -> Status {
    if exists|i: int| stops_at(orbit, ceiling, i) {
        verdict_at(orbit, choose|i: int| stops_at(orbit, ceiling, i))
    } else if ceiling <= orbit.len() {
        Status::Finished(IterationResult::Bounded)
    } else {
        Status::Pending
    }
}

/// The colour of a classified orbit: the ramp's colour of the iteration at
/// which it diverged, and that of the ceiling, which is black, if it did not.
pub open spec fn result_color(result: IterationResult, ceiling: nat) -> RgbColor {
    match result {
        IterationResult::Diverged(i) => ramp_color(i as nat, ceiling),
        IterationResult::Bounded => ramp_color(ceiling, ceiling),
        IterationResult::Cyclic => ramp_color(ceiling, ceiling),
    }
}

/// The colour that a status gives, if it gives one.
pub open spec fn status_color(status: Status, ceiling: nat) -> Option<RgbColor> {
    match status {
        Status::Finished(result) => Some(result_color(result, ceiling)),
        _ => None,
    }
}

/// The classification ends with at most one iterate.
pub proof fn lemma_stop_is_unique(orbit: Seq<Observation>, ceiling: nat, i: int, k: int)
    requires
        stops_at(orbit, ceiling, i),
        stops_at(orbit, ceiling, k),
    ensures
        i == k,
{
    if i < k {
        assert(!halts_at(orbit, i));
    }
    if k < i {
        assert(!halts_at(orbit, k));
    }
}

/// If the classification ends with iterate `i`, that iterate decides.
pub proof fn lemma_status_at_stop(orbit: Seq<Observation>, ceiling: nat, i: int)
    requires
        stops_at(orbit, ceiling, i),
    ensures
        status_of(orbit, ceiling) == verdict_at(orbit, i),
{
    let k = choose|k: int| stops_at(orbit, ceiling, k);
    lemma_stop_is_unique(orbit, ceiling, i, k);
}

/// Whether the classification ends with an iterate depends on the orbit up
/// to that iterate only.
pub proof fn lemma_halt_in_prefix(orbit: Seq<Observation>, longer: Seq<Observation>, i: int)
    requires
        orbit.is_prefix_of(longer),
        0 <= i < orbit.len(),
    ensures
        halts_at(longer, i) == halts_at(orbit, i),
        repeats(longer, i) == repeats(orbit, i),
        verdict_at(longer, i) == verdict_at(orbit, i),
{
    assert(forall|j: int| 0 <= j <= i ==> longer[j] == orbit[j]);
    if repeats(orbit, i) {
        let j = choose|j: int| 0 <= j < i && #[trigger] same_state(orbit, j, i);
        assert(same_state(longer, j, i));
    }
    if repeats(longer, i) {
        let j = choose|j: int| 0 <= j < i && #[trigger] same_state(longer, j, i);
        assert(same_state(orbit, j, i));
    }
}

/// A classification that is no longer pending stays as it is, whatever
/// iterates follow.
pub proof fn lemma_status_settled(orbit: Seq<Observation>, longer: Seq<Observation>, ceiling: nat)
    requires
        orbit.is_prefix_of(longer),
        status_of(orbit, ceiling) !is Pending,
    ensures
        status_of(longer, ceiling) == status_of(orbit, ceiling),
{
    if exists|i: int| stops_at(orbit, ceiling, i) {
        let i = choose|i: int| stops_at(orbit, ceiling, i);
        assert forall|j: int| 0 <= j < i implies !#[trigger] halts_at(longer, j) by {
            lemma_halt_in_prefix(orbit, longer, j);
        }
        lemma_halt_in_prefix(orbit, longer, i);
        lemma_status_at_stop(longer, ceiling, i);
    } else {
        assert forall|k: int| !stops_at(longer, ceiling, k) by {
            if stops_at(longer, ceiling, k) {
                assert(k < orbit.len());
                lemma_halt_in_prefix(orbit, longer, k);
                assert forall|j: int| 0 <= j < k implies !#[trigger] halts_at(orbit, j) by {
                    lemma_halt_in_prefix(orbit, longer, j);
                }
                assert(stops_at(orbit, ceiling, k));
            }
        }
    }
}

/// A point whose first iterate lies beyond the threshold diverges at
/// iteration 0, under every ceiling above zero.
pub proof fn lemma_escape_at_start(orbit: Seq<Observation>, ceiling: nat)
    requires
        ceiling >= 1,
        orbit.len() >= 1,
        orbit[0].is_escaped(),
    ensures
        status_of(orbit, ceiling) == Status::Finished(IterationResult::Diverged(0)),
{
    assert(stops_at(orbit, ceiling, 0));
    lemma_status_at_stop(orbit, ceiling, 0);
}

/// Whether every iterate of the orbit is the value under `key` and within
/// the threshold: the orbit of a fixed point.
pub open spec fn rests_at(orbit: Seq<Observation>, key: StateKey) -> bool {
    forall|i: int|
        0 <= i < orbit.len() ==> #[trigger] orbit[i] == (Observation::Point { key, escaped: false })
}

/// The orbit of a fixed point is cyclic under every ceiling above one, as
/// soon as two of its iterates are known. Under the ceiling one it is
/// bounded: a single iterate has none to come back to.
pub proof fn lemma_fixed_point_is_cyclic(orbit: Seq<Observation>, ceiling: nat, key: StateKey)
    requires
        rests_at(orbit, key),
        ceiling >= 1,
        orbit.len() >= 1,
        ceiling >= 2 ==> orbit.len() >= 2,
    ensures
        ceiling >= 2 ==> status_of(orbit, ceiling) == Status::Finished(IterationResult::Cyclic),
        ceiling == 1 ==> status_of(orbit, ceiling) == Status::Finished(IterationResult::Bounded),
{
    assert(!repeats(orbit, 0));
    assert(!halts_at(orbit, 0));
    if ceiling >= 2 {
        assert(same_state(orbit, 0, 1));
        assert(stops_at(orbit, ceiling, 1));
        lemma_status_at_stop(orbit, ceiling, 1);
    } else {
        assert forall|k: int| !stops_at(orbit, ceiling, k) by {}
    }
}

/// An orbit of which no iterate lies beyond the threshold never diverges.
pub proof fn lemma_no_escape_no_divergence(orbit: Seq<Observation>, ceiling: nat)
    requires
        forall|i: int| 0 <= i < orbit.len() ==> !(#[trigger] orbit[i]).is_escaped(),
    ensures
        !(status_of(orbit, ceiling) matches Status::Finished(IterationResult::Diverged(_))),
{
}

/// An orbit diverges only at an iteration below the ceiling, and there its
/// iterate lies beyond the threshold and none before it did.
pub proof fn lemma_divergence_is_first_escape(orbit: Seq<Observation>, ceiling: nat, at: u32)
    requires
        ceiling <= u32::MAX,
        status_of(orbit, ceiling) == Status::Finished(IterationResult::Diverged(at)),
    ensures
        at < ceiling,
        at < orbit.len(),
        orbit[at as int].is_escaped(),
        forall|j: int| 0 <= j < at ==> !(#[trigger] orbit[j]).is_escaped(),
{
    let i = choose|i: int| stops_at(orbit, ceiling, i);
    assert forall|j: int| 0 <= j < at implies !(#[trigger] orbit[j]).is_escaped() by {
        assert(!halts_at(orbit, j));
    }
}

/// Under the ceiling one the first iterate decides alone: the orbit
/// diverges at iteration 0 or is bounded, and never cyclic.
pub proof fn lemma_ceiling_one(orbit: Seq<Observation>)
    requires
        orbit.len() >= 1,
    ensures
        status_of(orbit, 1) == if orbit[0] is Undefined {
            Status::Failed(0)
        } else if orbit[0].is_escaped() {
            Status::Finished(IterationResult::Diverged(0))
        } else {
            Status::Finished(IterationResult::Bounded)
        },
{
    assert(!repeats(orbit, 0));
    if halts_at(orbit, 0) {
        assert(stops_at(orbit, 1, 0));
        lemma_status_at_stop(orbit, 1, 0);
    } else {
        assert forall|k: int| !stops_at(orbit, 1, k) by {}
    }
}

/// Whether `key` is among the keys of `history`.
fn history_contains(history: &Vec<StateKey>, key: StateKey) -> (found: bool)
    ensures
        found <==> exists|j: int| 0 <= j < history@.len() && #[trigger] history@[j] == key,
{
    let mut k: usize = 0;
    while k < history.len()
        invariant
            k <= history@.len(),
            forall|j: int| 0 <= j < k ==> #[trigger] history@[j] != key,
        decreases history@.len() - k,
    {
        if history[k] == key {
            return true;
        }
        k += 1;
    }
    false
}

/// What an evaluator is: the ceiling it was made with and the iterates it
/// has taken.
pub struct EvaluatorView {
    pub ceiling: nat,
    pub orbit: Seq<Observation>,
}

/// Classifies one orbit, iterate by iterate.
///
/// The caller asks for the status, and while it is pending computes the next
/// iterate and hands over what it observed of it.
pub struct Evaluator {
    ceiling: u32,
    history: Vec<StateKey>,
    status: Status,
    orbit: Ghost<Seq<Observation>>,
}

impl View for Evaluator {
    type V = EvaluatorView;

    closed spec fn view(&self) -> EvaluatorView {
        EvaluatorView { ceiling: self.ceiling as nat, orbit: self.orbit@ }
    }
}

impl Evaluator {
    /// The evaluator keeps the status of the iterates it has taken, and,
    /// while that is pending, the key of each of them.
    pub closed spec fn wf(&self) -> bool {
        &&& self.status == status_of(self.orbit@, self.ceiling as nat)
        &&& self.status is Pending ==> {
            &&& self.history@.len() == self.orbit@.len()
            &&& self.orbit@.len() < self.ceiling
            &&& runs_to(self.orbit@, self.orbit@.len() as int)
            &&& forall|j: int|
                0 <= j < self.history@.len() ==> self.orbit@[j].state_key() == Some(
                    #[trigger] self.history@[j],
                )
        }
    }

    /// An evaluator that has taken no iterate yet.
    pub fn new(ceiling: u32) -> (evaluator: Evaluator)
        ensures
            evaluator.wf(),
            evaluator@ == (EvaluatorView { ceiling: ceiling as nat, orbit: Seq::empty() }),
    {
        let status = if ceiling == 0 {
            Status::Finished(IterationResult::Bounded)
        } else {
            Status::Pending
        };
        Evaluator { ceiling, history: Vec::new(), status, orbit: Ghost(Seq::empty()) }
    }

    /// The status of the iterates taken so far.
    pub fn status(&self) -> (status: Status)
        requires
            self.wf(),
        ensures
            status == status_of(self@.orbit, self@.ceiling),
    {
        self.status
    }

    /// Takes the next iterate and returns the status that it leaves.
    ///
    /// Once the status is no longer pending, further iterates are not taken.
    pub fn observe(&mut self, observation: Observation) -> (status: Status)
        requires
            old(self).wf(),
        ensures
            final(self).wf(),
            final(self)@.ceiling == old(self)@.ceiling,
            final(self)@.orbit == if status_of(old(self)@.orbit, old(self)@.ceiling) is Pending {
                old(self)@.orbit.push(observation)
            } else {
                old(self)@.orbit
            },
            status == status_of(final(self)@.orbit, final(self)@.ceiling),
    {
        match self.status {
            Status::Pending => {},
            settled => {
                return settled;
            },
        }
        let ghost before = self.orbit@;
        let ghost after = before.push(observation);
        let ghost ceiling = self.ceiling as nat;
        let ghost i = before.len() as int;
        let iteration: u32 = self.history.len() as u32;
        proof {
            assert(before.is_prefix_of(after));
            assert forall|j: int| 0 <= j < i implies !#[trigger] halts_at(after, j) by {
                lemma_halt_in_prefix(before, after, j);
            }
        }
        let status = match observation {
            Observation::Undefined => Status::Failed(iteration),
            Observation::Point { key, escaped } => {
                let found = history_contains(&self.history, key);
                proof {
                    if found {
                        let j = choose|j: int|
                            0 <= j < self.history@.len() && #[trigger] self.history@[j] == key;
                        assert(same_state(after, j, i));
                    }
                    if repeats(after, i) {
                        let j = choose|j: int| 0 <= j < i && #[trigger] same_state(after, j, i);
                        assert(self.history@[j] == key);
                    }
                }
                if found {
                    Status::Finished(IterationResult::Cyclic)
                } else if escaped {
                    Status::Finished(IterationResult::Diverged(iteration))
                } else {
                    self.history.push(key);
                    if iteration + 1 == self.ceiling {
                        Status::Finished(IterationResult::Bounded)
                    } else {
                        Status::Pending
                    }
                }
            },
        };
        proof {
            if halts_at(after, i) {
                lemma_status_at_stop(after, ceiling, i);
            } else {
                assert forall|k: int| !stops_at(after, ceiling, k) by {
                    if stops_at(after, ceiling, k) {
                        assert(!halts_at(after, k));
                    }
                }
            }
        }
        self.status = status;
        self.orbit = Ghost(after);
        status
    }
}

/// Classifies an orbit of which the first iterates are given.
pub fn evaluate(orbit: &Vec<Observation>, ceiling: u32) -> (status: Status)
    ensures
        status == status_of(orbit@, ceiling as nat),
{
    let mut evaluator = Evaluator::new(ceiling);
    let mut status = evaluator.status();
    let mut k: usize = 0;
    while k < orbit.len() && status == Status::Pending
        invariant
            k <= orbit@.len(),
            evaluator.wf(),
            evaluator@.ceiling == ceiling,
            evaluator@.orbit.is_prefix_of(orbit@),
            status is Pending ==> evaluator@.orbit == orbit@.take(k as int),
            status == status_of(evaluator@.orbit, ceiling as nat),
        decreases orbit@.len() - k,
    {
        status = evaluator.observe(orbit[k]);
        assert(orbit@.take(k as int).push(orbit@[k as int]) == orbit@.take(k + 1));
        k += 1;
    }
    proof {
        if status is Pending {
            assert(orbit@.take(k as int) == orbit@);
        } else {
            lemma_status_settled(evaluator@.orbit, orbit@, ceiling as nat);
        }
    }
    status
}

impl IterationResult {
    /// The colour of an orbit classified as `self` under the ceiling
    /// `iterations`.
    pub fn color(self, iterations: u32) -> (color: RgbColor)
        ensures
            color == result_color(self, iterations as nat),
    {
        match self {
            IterationResult::Diverged(i) => map_num_to_color(i, iterations),
            IterationResult::Bounded => map_num_to_color(iterations, iterations),
            IterationResult::Cyclic => map_num_to_color(iterations, iterations),
        }
    }
}

/// The colour of the point whose orbit is given, or `None` where the orbit
/// is not classified: an iterate was not a finite number, or more iterates
/// are needed.
pub fn calculate_color(orbit: &Vec<Observation>, iterations: u32) -> (color: Option<RgbColor>)
    ensures
        color == status_color(status_of(orbit@, iterations as nat), iterations as nat),
{
    match evaluate(orbit, iterations) {
        Status::Finished(result) => Some(result.color(iterations)),
        _ => None,
    }
}

} // verus!
