//! Scenarios of the simplified Alpenglow grammar: a committee of validators
//! with roles and, for every slot, four block identifiers, the first-round
//! votes of every validator and the second-round votes of the observer `v1`,
//! which follow from the first round by the protocol's rules.

use vstd::prelude::*;
use crate::format::{
    block_error, block_line, block_number, block_number_error, block_ok, block_prefix, block_prefix_chars, enclosed,
    expect_error, expect_line, first_block_error, first_trailing_error, lemma_first_block_error,
    lemma_first_trailing_error, slot_suffix,
    generate_block_ids, lemma_block_number, lemma_block_round_trip, lemma_enclosed,
    lemma_fields_lone_word, lemma_take_push, lemma_v_name, parse_block_line, parse_block_number,
    push_block_line, push_message, push_quoted, push_v_name, strip_enclosed, v_name,
    v_name_chars, BLOCKS_PER_SLOT, BLOCK_ID_BYTES,
};
pub use crate::coverage::{grammar_fingerprint, KPathCoverage};
use crate::rng;
use crate::text;
use rand::rngs::StdRng;
use std::collections::VecDeque;

verus! {

/// The grammar target of the simplified Alpenglow grammar: a marker type that
/// names it.
pub struct Alpenglow;

pub const NUM_SLOTS: usize = 32;

pub const VALIDATOR_COUNT: usize = 100;

pub const MAX_VOTES_PER_VALIDATOR: usize = 5;

pub const MAX_ROUND2_VOTES: usize = 5;

pub const QUORUM_VALIDATORS: usize = 60;

pub const SAFE_VALIDATORS: usize = 40;

pub const MIN_NOTARIZE_VALIDATORS: usize = 20;

pub const LEADER_WINDOW_SLOTS: usize = 4;

/// The part a validator plays.
#[derive(Clone, Copy, Debug, PartialEq, Eq, Structural)]
pub enum Role {
    Honest,
    Absent,
    Byzantine,
}

impl Role {
    pub open spec fn name(self) -> Seq<char> {
        match self {
            Role::Honest => "honest"@,
            Role::Absent => "absent"@,
            Role::Byzantine => "byzantine"@,
        }
    }

    /// The name of the role in the committee lines.
    pub fn as_str(self) -> (r: &'static str)
        ensures
            r@ == self.name(),
    {
        match self {
            Role::Honest => "honest",
            Role::Absent => "absent",
            Role::Byzantine => "byzantine",
        }
    }
}

/// One first-round vote target of a validator.
#[derive(Clone, Copy, Debug, PartialEq, Eq, Structural)]
pub enum Vote {
    Absent,
    Block(usize),
    Skip,
    NotarFallback(usize),
    SkipFallback,
}

/// One second-round vote of the observer.
#[derive(Clone, Copy, Debug, PartialEq, Eq, Structural)]
pub enum Round2Vote {
    Notarize(usize),
    Finalize,
    NotarFallback(usize),
    SkipFallback,
    NoVote,
}

/// The block that a first-round vote names, if any.
pub open spec fn vote_block(v: Vote) -> Option<usize> {
    match v {
        Vote::Block(b) => Some(b),
        Vote::NotarFallback(b) => Some(b),
        _ => None,
    }
}

/// The block that a second-round vote names, if any.
pub open spec fn round2_block(v: Round2Vote) -> Option<usize> {
    match v {
        Round2Vote::Notarize(b) => Some(b),
        Round2Vote::NotarFallback(b) => Some(b),
        _ => None,
    }
}

// ---------------------------------------------------------------------------
// The second round, simulated from the first
// ---------------------------------------------------------------------------
/// What one validator has voted for so far in a slot.
pub struct History {
    pub notarize: Option<usize>,
    pub notarize_fallback: Seq<usize>,
    pub skip: bool,
    pub skip_fallback: bool,
}

pub open spec fn empty_history() -> History {
    History { notarize: None, notarize_fallback: seq![], skip: false, skip_fallback: false }
}

/// A validator's next vote against its history: the new history, and the
/// vote when it is a primary vote (a notarization or a skip) that counts.
pub open spec fn accept(h: History, vote: Vote) -> (History, Option<Vote>) {
    match vote {
        Vote::Absent => (h, None),
        Vote::Block(block) => if h.skip || h.notarize is Some || h.notarize_fallback.contains(block) {
            (h, None)
        } else {
            (History { notarize: Some(block), ..h }, Some(vote))
        },
        Vote::Skip => if h.skip || h.skip_fallback || h.notarize is Some {
            (h, None)
        } else {
            (History { skip: true, ..h }, Some(vote))
        },
        Vote::NotarFallback(block) => if h.notarize == Some(block) || h.notarize_fallback.contains(
            block,
        ) || h.notarize_fallback.len() >= 3 {
            (h, None)
        } else {
            (History { notarize_fallback: h.notarize_fallback.push(block), ..h }, None)
        },
        Vote::SkipFallback => if h.skip || h.skip_fallback {
            (h, None)
        } else {
            (History { skip_fallback: true, ..h }, None)
        },
    }
}

/// A validator's history after votes `votes` from `h`, and the primary
/// votes among them that counted, in order.
pub open spec fn accept_all(h: History, votes: Seq<Vote>) -> (History, Seq<Vote>)
    decreases votes.len(),
{
    if votes.len() == 0 {
        (h, seq![])
    } else {
        let (h1, counted) = accept_all(h, votes.drop_last());
        let (h2, r) = accept(h1, votes.last());
        (h2, match r {
            Some(v) => counted.push(v),
            None => counted,
        })
    }
}

proof fn lemma_accept_all_primary(h: History, votes: Seq<Vote>)
    ensures
        (h.skip || h.notarize is Some) ==> accept_all(h, votes).1.len() == 0,
        accept_all(h, votes).1.len() <= 1,
        accept_all(h, votes).1.len() == 1 || h.skip || h.notarize is Some ==> accept_all(h, votes).0.skip
            || accept_all(h, votes).0.notarize is Some,
    decreases votes.len(),
{
    if votes.len() > 0 {
        lemma_accept_all_primary(h, votes.drop_last());
    }
}

/// A validator casts at most one primary vote: over any votes from an
/// empty history, at most one notarization or skip counts, and once one has
/// counted every later one is refused.
pub proof fn lemma_one_primary_vote(votes: Seq<Vote>)
    ensures
        accept_all(empty_history(), votes).1.len() <= 1,
        accept_all(empty_history(), votes).1.len() == 1 ==> (forall|v: Vote|
            #[trigger] accept(accept_all(empty_history(), votes).0, v).1 is None || !(v is Block
                || v is Skip)),
{
    lemma_accept_all_primary(empty_history(), votes);
}

/// The state of the simulation of a slot's second round.
pub struct SimState {
    pub block_counts: Seq<int>,
    pub skip_count: int,
    pub observer_vote: Option<Vote>,
    pub bad_window: bool,
    pub its_over: bool,
    pub skips_rest_of_window: bool,
    pub safe_to_notar_sent: Seq<bool>,
    pub safe_to_skip_sent: bool,
    pub pending_safe_to_notar: Seq<usize>,
    pub emitted: Seq<Round2Vote>,
}

pub open spec fn initial_state(observer_already_skipped: bool) -> SimState {
    SimState {
        block_counts: seq![0, 0, 0, 0],
        skip_count: if observer_already_skipped {
            1
        } else {
            0
        },
        observer_vote: if observer_already_skipped {
            Some(Vote::Skip)
        } else {
            None
        },
        bad_window: observer_already_skipped,
        its_over: false,
        skips_rest_of_window: observer_already_skipped,
        safe_to_notar_sent: seq![false, false, false, false],
        safe_to_skip_sent: false,
        pending_safe_to_notar: seq![],
        emitted: seq![],
    }
}

/// Whether the observer may now announce that `block` is safe to notarize.
pub open spec fn safe_to_notar(st: SimState, observer: Vote, block: int) -> bool {
    &&& !st.safe_to_notar_sent[block]
    &&& observer != Vote::Block(block as usize)
    &&& (st.block_counts[block] >= SAFE_VALIDATORS || (st.block_counts[block]
        >= MIN_NOTARIZE_VALIDATORS && st.skip_count + st.block_counts[block]
        >= QUORUM_VALIDATORS))
}

/// The check of one block for safety to notarize.
pub open spec fn notar_check(st: SimState, observer: Vote, first_in_window: bool, block: int) -> SimState {
    if !safe_to_notar(st, observer, block) {
        st
    } else {
        let st1 = SimState {
            safe_to_notar_sent: st.safe_to_notar_sent.update(block, true),
            skips_rest_of_window: true,
            ..st
        };
        if first_in_window {
            if !st1.its_over {
                SimState {
                    emitted: st1.emitted.push(Round2Vote::NotarFallback(block as usize)),
                    bad_window: true,
                    ..st1
                }
            } else {
                st1
            }
        } else {
            SimState { pending_safe_to_notar: st1.pending_safe_to_notar.push(block as usize), ..st1 }
        }
    }
}

/// The checks of blocks `0..n` for safety to notarize, in order.
pub open spec fn notar_checks(st: SimState, observer: Vote, first_in_window: bool, n: nat) -> SimState
    decreases n,
{
    if n == 0 {
        st
    } else {
        notar_check(
            notar_checks(st, observer, first_in_window, (n - 1) as nat),
            observer,
            first_in_window,
            n - 1,
        )
    }
}

pub open spec fn total_notarized(counts: Seq<int>) -> int {
    counts[0] + counts[1] + counts[2] + counts[3]
}

pub open spec fn max2(a: int, b: int) -> int {
    if a >= b {
        a
    } else {
        b
    }
}

pub open spec fn top_notarized(counts: Seq<int>) -> int {
    max2(max2(max2(counts[0], counts[1]), counts[2]), counts[3])
}

/// The observer's reaction to the counts once it has voted: safe-to-notar
/// announcements, a safe-to-skip announcement and finalization.
pub open spec fn react(st: SimState, observer: Vote, accepted: Vote, first_in_window: bool) -> SimState {
    let st3 = notar_checks(st, observer, first_in_window, 4);
    let safe_to_skip = !st3.safe_to_skip_sent && observer is Block && st3.skip_count
        + total_notarized(st3.block_counts) - top_notarized(st3.block_counts) >= SAFE_VALIDATORS;
    let st4 = if safe_to_skip {
        let s = SimState { safe_to_skip_sent: true, skips_rest_of_window: true, ..st3 };
        if !s.its_over {
            SimState { emitted: s.emitted.push(Round2Vote::SkipFallback), bad_window: true, ..s }
        } else {
            s
        }
    } else {
        st3
    };
    match accepted {
        Vote::Block(block) => if st4.block_counts[block as int] == QUORUM_VALIDATORS && observer
            == Vote::Block(block) && !st4.bad_window && !st4.its_over {
            SimState { emitted: st4.emitted.push(Round2Vote::Finalize), its_over: true, ..st4 }
        } else {
            st4
        },
        _ => st4,
    }
}

/// The simulation's answer to a primary vote that validator `validator` cast.
pub open spec fn after_accept(st: SimState, validator: int, accepted: Vote, first_in_window: bool) -> SimState {
    let st1 = if validator == 0 {
        match accepted {
            Vote::Block(block) => SimState {
                observer_vote: Some(accepted),
                emitted: st.emitted.push(Round2Vote::Notarize(block)),
                ..st
            },
            Vote::Skip => SimState {
                observer_vote: Some(accepted),
                bad_window: true,
                skips_rest_of_window: true,
                ..st
            },
            _ => SimState { observer_vote: Some(accepted), ..st },
        }
    } else {
        st
    };
    let st2 = match accepted {
        Vote::Block(block) => SimState {
            block_counts: st1.block_counts.update(block as int, st1.block_counts[block as int] + 1),
            ..st1
        },
        Vote::Skip => SimState { skip_count: st1.skip_count + 1, ..st1 },
        _ => st1,
    };
    match st2.observer_vote {
        Some(observer) => react(st2, observer, accepted, first_in_window),
        None => st2,
    }
}

/// The simulation after one vote of validator `validator`.
pub open spec fn vote_step(st: SimState, h: History, validator: int, vote: Vote, first_in_window: bool) -> (SimState, History) {
    let (h2, accepted) = accept(h, vote);
    match accepted {
        Some(a) => (after_accept(st, validator, a, first_in_window), h2),
        None => (st, h2),
    }
}

/// The simulation after the votes of one validator.
pub open spec fn run_votes(st: SimState, h: History, validator: int, votes: Seq<Vote>, first_in_window: bool) -> (SimState, History)
    decreases votes.len(),
{
    if votes.len() == 0 {
        (st, h)
    } else {
        let (s1, h1) = run_votes(st, h, validator, votes.drop_last(), first_in_window);
        vote_step(s1, h1, validator, votes.last(), first_in_window)
    }
}

/// The simulation after the votes of the first `round1.len()` validators.
pub open spec fn run_validators(st: SimState, round1: Seq<Seq<Vote>>, observer_already_skipped: bool, first_in_window: bool) -> SimState
    decreases round1.len(),
{
    if round1.len() == 0 {
        st
    } else {
        let s1 = run_validators(st, round1.drop_last(), observer_already_skipped, first_in_window);
        let validator = round1.len() - 1;
        if observer_already_skipped && validator == 0 {
            s1
        } else {
            run_votes(s1, empty_history(), validator, round1.last(), first_in_window).0
        }
    }
}

/// The second round once every first-round vote is in: pending safe-to-notar
/// announcements, or `none` when there is nothing to say.
pub open spec fn finish(st: SimState) -> (Seq<Round2Vote>, bool) {
    let flushed = if st.its_over {
        st.emitted
    } else {
        st.emitted + st.pending_safe_to_notar.map_values(|b: usize| Round2Vote::NotarFallback(b))
    };
    let skips = st.skips_rest_of_window || st.pending_safe_to_notar.len() > 0;
    (if flushed.len() == 0 {
        seq![Round2Vote::NoVote]
    } else {
        flushed
    }, skips)
}

/// The observer's second-round votes in slot `logical_slot`, and whether it
/// skips the rest of the leader window.
pub open spec fn round2_of(round1: Seq<Seq<Vote>>, logical_slot: int, observer_already_skipped: bool) -> (Seq<Round2Vote>, bool) {
    finish(
        run_validators(
            initial_state(observer_already_skipped),
            round1,
            observer_already_skipped,
            logical_slot % LEADER_WINDOW_SLOTS as int == 0,
        ),
    )
}


/// Whether every notarization vote names one of the slot's blocks.
pub open spec fn notarizations_in_range(votes: Seq<Vote>) -> bool {
    forall|j: int| 0 <= j < votes.len() ==> (#[trigger] votes[j] matches Vote::Block(b) ==> b < BLOCKS_PER_SLOT)
}

pub open spec fn round1_view(round1: Seq<Vec<Vote>>) -> Seq<Seq<Vote>> {
    round1.map_values(|v: Vec<Vote>| v@)
}

/// The number of primary votes counted so far.
pub open spec fn weight(st: SimState) -> int {
    total_notarized(st.block_counts) + st.skip_count
}

/// Whether a history has no primary vote yet.
pub open spec fn fresh(h: History) -> bool {
    !h.skip && h.notarize is None
}

pub open spec fn fresh_count(h: History) -> int {
    if fresh(h) {
        1
    } else {
        0
    }
}

pub open spec fn well_shaped(st: SimState) -> bool {
    &&& st.block_counts.len() == BLOCKS_PER_SLOT
    &&& st.safe_to_notar_sent.len() == BLOCKS_PER_SLOT
    &&& forall|b: int| 0 <= b < BLOCKS_PER_SLOT ==> #[trigger] st.block_counts[b] >= 0
    &&& st.skip_count >= 0
}

proof fn lemma_notar_checks_frame(st: SimState, observer: Vote, first: bool, n: nat)
    requires
        well_shaped(st),
        n <= BLOCKS_PER_SLOT,
    ensures
        notar_checks(st, observer, first, n).block_counts == st.block_counts,
        notar_checks(st, observer, first, n).skip_count == st.skip_count,
        notar_checks(st, observer, first, n).observer_vote == st.observer_vote,
        notar_checks(st, observer, first, n).safe_to_skip_sent == st.safe_to_skip_sent,
        well_shaped(notar_checks(st, observer, first, n)),
    decreases n,
{
    if n > 0 {
        lemma_notar_checks_frame(st, observer, first, (n - 1) as nat);
    }
}

proof fn lemma_after_accept_weight(st: SimState, validator: int, a: Vote, first: bool)
    requires
        well_shaped(st),
        a is Skip || (a matches Vote::Block(b) && b < BLOCKS_PER_SLOT),
    ensures
        weight(after_accept(st, validator, a, first)) == weight(st) + 1,
        well_shaped(after_accept(st, validator, a, first)),
{
    let st1 = if validator == 0 {
        match a {
            Vote::Block(block) => SimState {
                observer_vote: Some(a),
                emitted: st.emitted.push(Round2Vote::Notarize(block)),
                ..st
            },
            Vote::Skip => SimState {
                observer_vote: Some(a),
                bad_window: true,
                skips_rest_of_window: true,
                ..st
            },
            _ => SimState { observer_vote: Some(a), ..st },
        }
    } else {
        st
    };
    let st2 = match a {
        Vote::Block(block) => SimState {
            block_counts: st1.block_counts.update(block as int, st1.block_counts[block as int] + 1),
            ..st1
        },
        Vote::Skip => SimState { skip_count: st1.skip_count + 1, ..st1 },
        _ => st1,
    };
    assert(weight(st2) == weight(st) + 1);
    assert(well_shaped(st2));
    if let Some(observer) = st2.observer_vote {
        lemma_notar_checks_frame(st2, observer, first, 4);
    }
}

proof fn lemma_run_votes_weight(st: SimState, h: History, validator: int, votes: Seq<Vote>, first: bool)
    requires
        well_shaped(st),
        notarizations_in_range(votes),
    ensures
        weight(run_votes(st, h, validator, votes, first).0) + fresh_count(
            run_votes(st, h, validator, votes, first).1,
        ) <= weight(st) + fresh_count(h),
        weight(run_votes(st, h, validator, votes, first).0) >= weight(st),
        well_shaped(run_votes(st, h, validator, votes, first).0),
    decreases votes.len(),
{
    if votes.len() > 0 {
        assert(notarizations_in_range(votes.drop_last())) by {
            assert forall|j: int| 0 <= j < votes.drop_last().len() implies (#[trigger] votes.drop_last()[j] matches Vote::Block(b) ==> b < BLOCKS_PER_SLOT) by {
                assert(votes.drop_last()[j] == votes[j]);
            }
        }
        lemma_run_votes_weight(st, h, validator, votes.drop_last(), first);
        let (s1, h1) = run_votes(st, h, validator, votes.drop_last(), first);
        let v = votes.last();
        assert(votes[votes.len() - 1] matches Vote::Block(b) ==> b < BLOCKS_PER_SLOT);
        let (h2, acc) = accept(h1, v);
        if let Some(a) = acc {
            lemma_after_accept_weight(s1, validator, a, first);
        }
    }
}

proof fn lemma_run_validators_weight(st: SimState, round1: Seq<Seq<Vote>>, skipped: bool, first: bool)
    requires
        well_shaped(st),
        forall|i: int| 0 <= i < round1.len() ==> notarizations_in_range(#[trigger] round1[i]),
    ensures
        weight(run_validators(st, round1, skipped, first)) <= weight(st) + round1.len(),
        well_shaped(run_validators(st, round1, skipped, first)),
        skipped && round1.len() > 0 ==> weight(run_validators(st, round1, skipped, first)) <= weight(st) + round1.len() - 1,
    decreases round1.len(),
{
    if round1.len() > 0 {
        assert forall|i: int| 0 <= i < round1.drop_last().len() implies notarizations_in_range(#[trigger] round1.drop_last()[i]) by {
            assert(round1.drop_last()[i] == round1[i]);
        }
        lemma_run_validators_weight(st, round1.drop_last(), skipped, first);
        let s1 = run_validators(st, round1.drop_last(), skipped, first);
        let validator = round1.len() - 1;
        if !(skipped && validator == 0) {
            assert(notarizations_in_range(round1[round1.len() - 1]));
            lemma_run_votes_weight(s1, empty_history(), validator, round1.last(), first);
        }
    }
}

/// What a validator has voted for so far in a slot.
struct SimulatedVoteHistory {
    notarize: Option<usize>,
    notarize_fallback: Vec<usize>,
    skip: bool,
    skip_fallback: bool,
}

impl View for SimulatedVoteHistory {
    type V = History;

    closed spec fn view(&self) -> History {
        History {
            notarize: self.notarize,
            notarize_fallback: self.notarize_fallback@,
            skip: self.skip,
            skip_fallback: self.skip_fallback,
        }
    }
}

fn contains_block(v: &Vec<usize>, block: usize) -> (r: bool)
    ensures
        r == v@.contains(block),
{
    let mut i: usize = 0;
    while i < v.len()
        invariant
            i <= v.len(),
            forall|j: int| 0 <= j < i ==> v@[j] != block,
        decreases v.len() - i,
    {
        if v[i] == block {
            assert(v@[i as int] == block);
            return true;
        }
        i += 1;
    }
    false
}

impl SimulatedVoteHistory {
    fn new() -> (h: Self)
        ensures
            h@ == empty_history(),
    {
        let h = SimulatedVoteHistory {
            notarize: None,
            notarize_fallback: Vec::new(),
            skip: false,
            skip_fallback: false,
        };
        assert(h@.notarize_fallback =~= Seq::<usize>::empty());
        h
    }

    /// Records `vote` and returns it when it is a primary vote that counts.
    fn accept_primary(&mut self, vote: Vote) -> (r: Option<Vote>)
        ensures
            (final(self)@, r) == accept(old(self)@, vote),
    {
        match vote {
            Vote::Absent => None,
            Vote::Block(block) => {
                if self.skip || self.notarize.is_some() || contains_block(&self.notarize_fallback, block) {
                    return None;
                }
                self.notarize = Some(block);
                Some(vote)
            },
            Vote::Skip => {
                if self.skip || self.skip_fallback || self.notarize.is_some() {
                    return None;
                }
                self.skip = true;
                Some(vote)
            },
            Vote::NotarFallback(block) => {
                let same = match self.notarize {
                    Some(b) => b == block,
                    None => false,
                };
                if same || contains_block(&self.notarize_fallback, block)
                    || self.notarize_fallback.len() >= 3 {
                    return None;
                }
                self.notarize_fallback.push(block);
                None
            },
            Vote::SkipFallback => {
                if self.skip || self.skip_fallback {
                    return None;
                }
                self.skip_fallback = true;
                None
            },
        }
    }
}

/// The state of the second-round simulation of one slot.
struct Simulation {
    block_counts: [usize; BLOCKS_PER_SLOT],
    skip_count: usize,
    observer_vote: Option<Vote>,
    bad_window: bool,
    its_over: bool,
    skips_rest_of_window: bool,
    safe_to_notar_sent: [bool; BLOCKS_PER_SLOT],
    safe_to_skip_sent: bool,
    pending_safe_to_notar: Vec<usize>,
    emitted: Vec<Round2Vote>,
}

impl View for Simulation {
    type V = SimState;

    closed spec fn view(&self) -> SimState {
        SimState {
            block_counts: self.block_counts@.map_values(|c: usize| c as int),
            skip_count: self.skip_count as int,
            observer_vote: self.observer_vote,
            bad_window: self.bad_window,
            its_over: self.its_over,
            skips_rest_of_window: self.skips_rest_of_window,
            safe_to_notar_sent: self.safe_to_notar_sent@,
            safe_to_skip_sent: self.safe_to_skip_sent,
            pending_safe_to_notar: self.pending_safe_to_notar@,
            emitted: self.emitted@,
        }
    }
}

impl Simulation {
    fn new(observer_already_skipped: bool) -> (s: Self)
        ensures
            s@ == initial_state(observer_already_skipped),
    {
        let s = Simulation {
            block_counts: [0usize; BLOCKS_PER_SLOT],
            skip_count: if observer_already_skipped {
                1
            } else {
                0
            },
            observer_vote: if observer_already_skipped {
                Some(Vote::Skip)
            } else {
                None
            },
            bad_window: observer_already_skipped,
            its_over: false,
            skips_rest_of_window: observer_already_skipped,
            safe_to_notar_sent: [false; BLOCKS_PER_SLOT],
            safe_to_skip_sent: false,
            pending_safe_to_notar: Vec::new(),
            emitted: Vec::new(),
        };
        assert(s@.block_counts =~= seq![0int, 0, 0, 0]);
        assert(s@.safe_to_notar_sent =~= seq![false, false, false, false]);
        assert(s@.pending_safe_to_notar =~= Seq::<usize>::empty());
        assert(s@.emitted =~= Seq::<Round2Vote>::empty());
        s
    }

    fn notar_check(&mut self, observer: Vote, first_in_window: bool, block: usize)
        requires
            block < BLOCKS_PER_SLOT,
            weight(old(self)@) <= usize::MAX,
        ensures
            final(self)@ == notar_check(old(self)@, observer, first_in_window, block as int),
    {
        proof {
            assert(self@.block_counts[block as int] == self.block_counts[block as int] as int);
        }
        let safe = !self.safe_to_notar_sent[block] && observer != Vote::Block(block) && (
        self.block_counts[block] >= SAFE_VALIDATORS || (self.block_counts[block]
            >= MIN_NOTARIZE_VALIDATORS && self.skip_count + self.block_counts[block]
            >= QUORUM_VALIDATORS));
        if !safe {
            return;
        }
        self.safe_to_notar_sent[block] = true;
        self.skips_rest_of_window = true;
        if first_in_window {
            if !self.its_over {
                self.emitted.push(Round2Vote::NotarFallback(block));
                self.bad_window = true;
            }
        } else {
            self.pending_safe_to_notar.push(block);
        }
        assert(self@.safe_to_notar_sent =~= old(self)@.safe_to_notar_sent.update(block as int, true));
        assert(self@.block_counts =~= old(self)@.block_counts);
    }

    fn react(&mut self, observer: Vote, accepted: Vote, first_in_window: bool)
        requires
            well_shaped(old(self)@),
            weight(old(self)@) <= usize::MAX,
            accepted matches Vote::Block(b) ==> b < BLOCKS_PER_SLOT,
        ensures
            final(self)@ == react(old(self)@, observer, accepted, first_in_window),
    {
        let ghost start = self@;
        let mut block: usize = 0;
        while block < BLOCKS_PER_SLOT
            invariant
                block <= BLOCKS_PER_SLOT,
                well_shaped(start),
                weight(start) <= usize::MAX,
                self@ == notar_checks(start, observer, first_in_window, block as nat),
            decreases BLOCKS_PER_SLOT - block,
        {
            proof {
                lemma_notar_checks_frame(start, observer, first_in_window, block as nat);
            }
            self.notar_check(observer, first_in_window, block);
            block += 1;
        }
        proof {
            lemma_notar_checks_frame(start, observer, first_in_window, 4);
            assert(self@.block_counts[0] == self.block_counts[0] as int);
            assert(self@.block_counts[1] == self.block_counts[1] as int);
            assert(self@.block_counts[2] == self.block_counts[2] as int);
            assert(self@.block_counts[3] == self.block_counts[3] as int);
        }
        let total_notarized = self.block_counts[0] + self.block_counts[1] + self.block_counts[2]
            + self.block_counts[3];
        let mut top_notarized = self.block_counts[0];
        if self.block_counts[1] > top_notarized {
            top_notarized = self.block_counts[1];
        }
        if self.block_counts[2] > top_notarized {
            top_notarized = self.block_counts[2];
        }
        if self.block_counts[3] > top_notarized {
            top_notarized = self.block_counts[3];
        }
        let observer_notarized = match observer {
            Vote::Block(_) => true,
            _ => false,
        };
        let safe_to_skip = !self.safe_to_skip_sent && observer_notarized && self.skip_count
            + total_notarized - top_notarized >= SAFE_VALIDATORS;
        let ghost st3 = self@;
        if safe_to_skip {
            self.safe_to_skip_sent = true;
            self.skips_rest_of_window = true;
            if !self.its_over {
                self.emitted.push(Round2Vote::SkipFallback);
                self.bad_window = true;
            }
        }
        let ghost st4 = self@;
        match accepted {
            Vote::Block(block) => {
                proof {
                    assert(self@.block_counts[block as int] == self.block_counts[block as int] as int);
                }
                if self.block_counts[block] == QUORUM_VALIDATORS && observer == Vote::Block(block)
                    && !self.bad_window && !self.its_over {
                    self.emitted.push(Round2Vote::Finalize);
                    self.its_over = true;
                }
            },
            _ => {},
        }
    }

    fn after_accept(&mut self, validator: usize, accepted: Vote, first_in_window: bool)
        requires
            well_shaped(old(self)@),
            weight(old(self)@) < usize::MAX,
            accepted is Skip || (accepted matches Vote::Block(b) && b < BLOCKS_PER_SLOT),
        ensures
            final(self)@ == after_accept(old(self)@, validator as int, accepted, first_in_window),
    {
        if validator == 0 {
            self.observer_vote = Some(accepted);
            match accepted {
                Vote::Block(block) => self.emitted.push(Round2Vote::Notarize(block)),
                Vote::Skip => {
                    self.bad_window = true;
                    self.skips_rest_of_window = true;
                },
                _ => {},
            }
        }
        let ghost st1 = self@;
        match accepted {
            Vote::Block(block) => {
                proof {
                    assert(self@.block_counts[block as int] == self.block_counts[block as int] as int);
                }
                self.block_counts[block] = self.block_counts[block] + 1;
                assert(self@.block_counts =~= st1.block_counts.update(
                    block as int,
                    st1.block_counts[block as int] + 1,
                ));
            },
            Vote::Skip => {
                self.skip_count = self.skip_count + 1;
            },
            _ => {},
        }
        proof {
            lemma_after_accept_weight(old(self)@, validator as int, accepted, first_in_window);
        }
        match self.observer_vote {
            Some(observer) => {
                let ghost st2 = self@;
                assert(well_shaped(st2));
                assert(weight(st2) == weight(old(self)@) + 1);
                self.react(observer, accepted, first_in_window);
            },
            None => {},
        }
    }
}

/// The observer's second-round votes in slot `logical_slot`, simulated from
/// the first-round votes of every validator, and whether the observer skips
/// the rest of the leader window.
pub fn simulate_round2(round1: &Vec<Vec<Vote>>, logical_slot: usize, observer_already_skipped: bool) -> (r: (Vec<Round2Vote>, bool))
    requires
        forall|i: int| 0 <= i < round1@.len() ==> notarizations_in_range(#[trigger] round1@[i]@),
    ensures
        (r.0@, r.1) == round2_of(round1_view(round1@), logical_slot as int, observer_already_skipped),
{
    let ghost r1 = round1_view(round1@);
    let first_in_window = logical_slot % LEADER_WINDOW_SLOTS == 0;
    let mut sim = Simulation::new(observer_already_skipped);
    let ghost init = sim@;
    assert(r1.take(0) =~= Seq::<Seq<Vote>>::empty());
    let mut validator: usize = 0;
    while validator < round1.len()
        invariant
            r1 == round1_view(round1@),
            init == initial_state(observer_already_skipped),
            forall|i: int| 0 <= i < round1@.len() ==> notarizations_in_range(#[trigger] round1@[i]@),
            validator <= round1.len(),
            sim@ == run_validators(init, r1.take(validator as int), observer_already_skipped, first_in_window),
            well_shaped(sim@),
            weight(sim@) <= validator + (if observer_already_skipped && validator == 0 { 1int } else { 0 }),
            observer_already_skipped && validator > 0 ==> weight(sim@) <= validator,
        decreases round1.len() - validator,
    {
        let ghost prefix = r1.take(validator + 1);
        assert(prefix.drop_last() =~= r1.take(validator as int));
        assert(prefix.last() == round1@[validator as int]@);
        if observer_already_skipped && validator == 0 {
            validator += 1;
            continue;
        }
        let votes = &round1[validator];
        assert(notarizations_in_range(votes@));
        let mut history = SimulatedVoteHistory::new();
        let ghost before = sim@;
        let mut k: usize = 0;
        assert(votes@.take(0) =~= Seq::<Vote>::empty());
        while k < votes.len()
            invariant
                notarizations_in_range(votes@),
                k <= votes.len(),
                well_shaped(before),
                (sim@, history@) == run_votes(before, empty_history(), validator as int, votes@.take(k as int), first_in_window),
                well_shaped(sim@),
                weight(sim@) + fresh_count(history@) <= weight(before) + 1,
                weight(before) <= validator,
                validator < round1.len(),
            decreases votes.len() - k,
        {
            let ghost t = votes@.take(k + 1);
            assert(t.drop_last() =~= votes@.take(k as int));
            assert(t.last() == votes@[k as int]);
            assert(votes@[k as int] matches Vote::Block(b) ==> b < BLOCKS_PER_SLOT);
            let ghost h0 = history@;
            match history.accept_primary(votes[k]) {
                Some(accepted) => {
                    assert(fresh(h0));
                    sim.after_accept(validator, accepted, first_in_window);
                    proof {
                        lemma_after_accept_weight(run_votes(before, empty_history(), validator as int, votes@.take(k as int), first_in_window).0, validator as int, accepted, first_in_window);
                    }
                },
                None => {},
            }
            k += 1;
        }
        assert(votes@.take(k as int) =~= votes@);
        validator += 1;
    }
    assert(r1.take(validator as int) =~= r1);
    let mut emitted = sim.emitted;
    let mut skips_rest_of_window = sim.skips_rest_of_window;
    let ghost st = run_validators(init, r1, observer_already_skipped, first_in_window);
    let mut i: usize = 0;
    while i < sim.pending_safe_to_notar.len()
        invariant
            i <= st.pending_safe_to_notar.len(),
            sim.pending_safe_to_notar@ == st.pending_safe_to_notar,
            sim.its_over == st.its_over,
            emitted@ == if st.its_over {
                st.emitted
            } else {
                st.emitted + st.pending_safe_to_notar.take(i as int).map_values(
                    |b: usize| Round2Vote::NotarFallback(b),
                )
            },
            skips_rest_of_window == (st.skips_rest_of_window || i > 0),
        decreases st.pending_safe_to_notar.len() - i,
    {
        skips_rest_of_window = true;
        if !sim.its_over {
            emitted.push(Round2Vote::NotarFallback(sim.pending_safe_to_notar[i]));
            assert(st.pending_safe_to_notar.take(i + 1).map_values(|b: usize| Round2Vote::NotarFallback(b))
                =~= st.pending_safe_to_notar.take(i as int).map_values(|b: usize| Round2Vote::NotarFallback(b)).push(
                Round2Vote::NotarFallback(st.pending_safe_to_notar[i as int])));
        }
        i += 1;
    }
    assert(st.pending_safe_to_notar.take(i as int) =~= st.pending_safe_to_notar);
    if emitted.len() == 0 {
        emitted.push(Round2Vote::NoVote);
        assert(emitted@ =~= seq![Round2Vote::NoVote]);
    }
    (emitted, skips_rest_of_window)
}


// ---------------------------------------------------------------------------
// Scenarios
// ---------------------------------------------------------------------------
/// One slot: its candidate blocks, every validator's first-round votes and
/// the observer's second-round votes.
#[derive(Debug, PartialEq, Eq)]
pub struct Slot {
    pub block_ids: [[u8; BLOCK_ID_BYTES]; BLOCKS_PER_SLOT],
    pub round1: Vec<Vec<Vote>>,
    pub round2: Vec<Round2Vote>,
}

/// A whole scenario: the role of every validator and every slot.
#[derive(Debug, PartialEq, Eq)]
pub struct Scenario {
    pub roles: Vec<Role>,
    pub slots: Vec<Slot>,
}

/// The mathematical content of a [`Slot`].
#[verifier::ext_equal]
pub struct SlotView {
    pub block_ids: Seq<Seq<u8>>,
    pub round1: Seq<Seq<Vote>>,
    pub round2: Seq<Round2Vote>,
}

/// The mathematical content of a [`Scenario`].
#[verifier::ext_equal]
pub struct ScenarioView {
    pub roles: Seq<Role>,
    pub slots: Seq<SlotView>,
}

impl View for Slot {
    type V = SlotView;

    open spec fn view(&self) -> SlotView {
        SlotView {
            block_ids: self.block_ids@.map_values(|b: [u8; BLOCK_ID_BYTES]| b@),
            round1: round1_view(self.round1@),
            round2: self.round2@,
        }
    }
}

impl View for Scenario {
    type V = ScenarioView;

    open spec fn view(&self) -> ScenarioView {
        ScenarioView { roles: self.roles@, slots: self.slots@.map_values(|s: Slot| s@) }
    }
}

// ---------------------------------------------------------------------------
// The text format
// ---------------------------------------------------------------------------
pub open spec fn vote_text(v: Vote) -> Seq<char> {
    match v {
        Vote::Absent => "absent"@,
        Vote::Block(b) => seq!['b'] + text::decimal((b + 1) as nat),
        Vote::Skip => "skip"@,
        Vote::NotarFallback(b) => "notar-fallback(b"@ + text::decimal((b + 1) as nat) + ")"@,
        Vote::SkipFallback => "skip-fallback"@,
    }
}

/// A validator's votes, separated by commas.
pub open spec fn vote_set_text(votes: Seq<Vote>) -> Seq<char>
    decreases votes.len(),
{
    if votes.len() == 0 {
        seq![]
    } else if votes.len() == 1 {
        vote_text(votes[0])
    } else {
        vote_set_text(votes.drop_last()) + seq![','] + vote_text(votes.last())
    }
}

pub open spec fn round2_vote_text(v: Round2Vote) -> Seq<char> {
    match v {
        Round2Vote::Notarize(b) => "notarize(b"@ + text::decimal((b + 1) as nat) + ")"@,
        Round2Vote::Finalize => "finalize"@,
        Round2Vote::NotarFallback(b) => "notar-fallback(b"@ + text::decimal((b + 1) as nat) + ")"@,
        Round2Vote::SkipFallback => "skip-fallback"@,
        Round2Vote::NoVote => "none"@,
    }
}

/// The observer's second-round votes, separated by commas.
pub open spec fn round2_text(votes: Seq<Round2Vote>) -> Seq<char>
    decreases votes.len(),
{
    if votes.len() == 0 {
        seq![]
    } else if votes.len() == 1 {
        round2_vote_text(votes[0])
    } else {
        round2_text(votes.drop_last()) + seq![','] + round2_vote_text(votes.last())
    }
}

/// ` v1=<votes> v2=<votes> ...`
pub open spec fn round1_text(round1: Seq<Seq<Vote>>) -> Seq<char>
    decreases round1.len(),
{
    if round1.len() == 0 {
        seq![]
    } else {
        round1_text(round1.drop_last()) + seq![' '] + v_name(round1.len()) + seq!['=']
            + vote_set_text(round1.last())
    }
}

pub open spec fn committee_line(i: int, role: Role) -> Seq<char> {
    "  "@ + v_name((i + 1) as nat) + " stake=1% role="@ + role.name()
}

/// The `k`-th of the nine lines of a slot.
pub open spec fn slot_line(s: SlotView, k: int) -> Seq<char> {
    if k == 0 {
        "blocks:"@
    } else if k <= 4 {
        block_line(k - 1, s.block_ids[k - 1])
    } else if k == 5 {
        "slot"@
    } else if k == 6 {
        "  round1:"@ + round1_text(s.round1)
    } else if k == 7 {
        "  round2: v1="@ + round2_text(s.round2)
    } else {
        "end-slot"@
    }
}

/// The lines of a rendered scenario.
pub open spec fn render_lines(m: ScenarioView) -> Seq<Seq<char>> {
    seq!["committee:"@] + Seq::new(m.roles.len(), |i: int| committee_line(i, m.roles[i]))
        + Seq::new(9 * m.slots.len(), |k: int| slot_line(m.slots[k / 9], k % 9))
}

/// The rendered text of a scenario.
pub open spec fn render_text(m: ScenarioView) -> Seq<char> {
    text::terminated(render_lines(m))
}

/// Whether every block that the votes name has a number (`block + 1`) that
/// fits in `usize`.
pub open spec fn votes_numbered(votes: Seq<Vote>) -> bool {
    forall|i: int|
        0 <= i < votes.len() ==> (#[trigger] vote_block(votes[i]) matches Some(b) ==> b
            < usize::MAX)
}

pub open spec fn round2_numbered(votes: Seq<Round2Vote>) -> bool {
    forall|i: int|
        0 <= i < votes.len() ==> (#[trigger] round2_block(votes[i]) matches Some(b) ==> b
            < usize::MAX)
}

pub open spec fn slot_renderable(s: SlotView) -> bool {
    &&& forall|v: int| 0 <= v < s.round1.len() ==> votes_numbered(#[trigger] s.round1[v])
    &&& round2_numbered(s.round2)
}

/// Whether the scenario can be rendered without an overflowing block number.
pub open spec fn renderable(m: ScenarioView) -> bool {
    forall|s: int| 0 <= s < m.slots.len() ==> slot_renderable(#[trigger] m.slots[s])
}

// ---------------------------------------------------------------------------
// Rendering
// ---------------------------------------------------------------------------
fn push_vote(output: &mut String, vote: Vote)
    requires
        vote_block(vote) matches Some(b) ==> b < usize::MAX,
    ensures
        final(output)@ == old(output)@ + vote_text(vote),
{
    match vote {
        Vote::Absent => text::push_str(output, "absent"),
        Vote::Block(block) => {
            text::push_char(output, 'b');
            text::push_decimal(output, block as u64 + 1);
        },
        Vote::Skip => text::push_str(output, "skip"),
        Vote::NotarFallback(block) => {
            text::push_str(output, "notar-fallback(b");
            text::push_decimal(output, block as u64 + 1);
            text::push_str(output, ")");
        },
        Vote::SkipFallback => text::push_str(output, "skip-fallback"),
    }
    assert(final(output)@ =~= old(output)@ + vote_text(vote));
}

/// Appends a validator's votes, separated by commas.
pub fn render_votes(output: &mut String, votes: &Vec<Vote>)
    requires
        votes_numbered(votes@),
    ensures
        final(output)@ == old(output)@ + vote_set_text(votes@),
{
    let mut index: usize = 0;
    while index < votes.len()
        invariant
            index <= votes.len(),
            votes_numbered(votes@),
            output@ == old(output)@ + vote_set_text(votes@.take(index as int)),
        decreases votes.len() - index,
    {
        let ghost t = votes@.take(index + 1);
        assert(t.drop_last() =~= votes@.take(index as int));
        if index != 0 {
            text::push_char(output, ',');
        }
        assert(vote_block(votes@[index as int]) matches Some(b) ==> b < usize::MAX);
        push_vote(output, votes[index]);
        proof {
            if index == 0 {
                assert(t.len() == 1);
                assert(t[0] == votes@[0]);
                assert(vote_set_text(votes@.take(0)) =~= Seq::<char>::empty());
            }
            assert(output@ =~= old(output)@ + vote_set_text(t));
        }
        index += 1;
    }
    assert(votes@.take(index as int) =~= votes@);
}

fn push_round2_vote(output: &mut String, vote: Round2Vote)
    requires
        round2_block(vote) matches Some(b) ==> b < usize::MAX,
    ensures
        final(output)@ == old(output)@ + round2_vote_text(vote),
{
    match vote {
        Round2Vote::Notarize(block) => {
            text::push_str(output, "notarize(b");
            text::push_decimal(output, block as u64 + 1);
            text::push_str(output, ")");
        },
        Round2Vote::Finalize => text::push_str(output, "finalize"),
        Round2Vote::NotarFallback(block) => {
            text::push_str(output, "notar-fallback(b");
            text::push_decimal(output, block as u64 + 1);
            text::push_str(output, ")");
        },
        Round2Vote::SkipFallback => text::push_str(output, "skip-fallback"),
        Round2Vote::NoVote => text::push_str(output, "none"),
    }
    assert(final(output)@ =~= old(output)@ + round2_vote_text(vote));
}

/// Appends the observer's second-round votes, separated by commas.
pub fn render_round2_votes(output: &mut String, votes: &Vec<Round2Vote>)
    requires
        round2_numbered(votes@),
    ensures
        final(output)@ == old(output)@ + round2_text(votes@),
{
    let mut index: usize = 0;
    while index < votes.len()
        invariant
            index <= votes.len(),
            round2_numbered(votes@),
            output@ == old(output)@ + round2_text(votes@.take(index as int)),
        decreases votes.len() - index,
    {
        let ghost t = votes@.take(index + 1);
        assert(t.drop_last() =~= votes@.take(index as int));
        if index != 0 {
            text::push_char(output, ',');
        }
        assert(round2_block(votes@[index as int]) matches Some(b) ==> b < usize::MAX);
        push_round2_vote(output, votes[index]);
        proof {
            if index == 0 {
                assert(t.len() == 1);
                assert(t[0] == votes@[0]);
                assert(round2_text(votes@.take(0)) =~= Seq::<char>::empty());
            }
            assert(output@ =~= old(output)@ + round2_text(t));
        }
        index += 1;
    }
    assert(votes@.take(index as int) =~= votes@);
}

fn render_round1(output: &mut String, round1: &Vec<Vec<Vote>>)
    requires
        forall|v: int| 0 <= v < round1@.len() ==> votes_numbered(#[trigger] round1@[v]@),
    ensures
        final(output)@ == old(output)@ + round1_text(round1_view(round1@)),
{
    let ghost r1 = round1_view(round1@);
    let mut index: usize = 0;
    while index < round1.len()
        invariant
            r1 == round1_view(round1@),
            index <= round1.len(),
            forall|v: int| 0 <= v < round1@.len() ==> votes_numbered(#[trigger] round1@[v]@),
            output@ == old(output)@ + round1_text(r1.take(index as int)),
        decreases round1.len() - index,
    {
        let ghost t = r1.take(index + 1);
        assert(t.drop_last() =~= r1.take(index as int));
        assert(t.last() == round1@[index as int]@);
        let ghost before = output@;
        text::push_char(output, ' ');
        push_v_name(output, index as u64 + 1);
        text::push_char(output, '=');
        assert(votes_numbered(round1@[index as int]@));
        render_votes(output, &round1[index]);
        assert(output@ =~= old(output)@ + round1_text(t));
        index += 1;
    }
    assert(r1.take(index as int) =~= r1);
}

fn render_slot(output: &mut String, slot: &Slot)
    requires
        slot_renderable(slot@),
    ensures
        final(output)@ == old(output)@ + text::terminated(
            Seq::new(9, |k: int| slot_line(slot@, k)),
        ),
{
    let ghost piece = Seq::new(9, |k: int| slot_line(slot@, k));
    let ghost start = old(output)@;
    assert(piece.take(0) =~= Seq::<Seq<char>>::empty());
    assert(text::terminated(piece.take(0)) =~= Seq::<char>::empty());
    text::push_str(output, "blocks:");
    text::push_char(output, '\n');
    proof {
        lemma_take_push(piece, 0);
        assert(output@ =~= start + text::terminated(piece.take(1)));
    }
    let mut index: usize = 0;
    while index < BLOCKS_PER_SLOT
        invariant
            piece == Seq::new(9, |k: int| slot_line(slot@, k)),
            index <= BLOCKS_PER_SLOT,
            output@ == start + text::terminated(piece.take(1 + index)),
        decreases BLOCKS_PER_SLOT - index,
    {
        push_block_line(output, index, &slot.block_ids[index]);
        text::push_char(output, '\n');
        proof {
            assert(slot@.block_ids[index as int] == slot.block_ids[index as int]@);
            lemma_take_push(piece, 1 + index);
            assert(output@ =~= start + text::terminated(piece.take(1 + index + 1)));
        }
        index += 1;
    }
    text::push_str(output, "slot");
    text::push_char(output, '\n');
    proof {
        lemma_take_push(piece, 5);
        assert(output@ =~= start + text::terminated(piece.take(6)));
    }
    text::push_str(output, "  round1:");
    assert forall|v: int| 0 <= v < slot.round1@.len() implies votes_numbered(#[trigger] slot.round1@[v]@) by {
        assert(slot@.round1[v] == slot.round1@[v]@);
    }
    render_round1(output, &slot.round1);
    text::push_char(output, '\n');
    proof {
        lemma_take_push(piece, 6);
        assert(output@ =~= start + text::terminated(piece.take(7)));
    }
    text::push_str(output, "  round2: v1=");
    render_round2_votes(output, &slot.round2);
    text::push_char(output, '\n');
    proof {
        lemma_take_push(piece, 7);
        assert(output@ =~= start + text::terminated(piece.take(8)));
    }
    text::push_str(output, "end-slot");
    text::push_char(output, '\n');
    proof {
        lemma_take_push(piece, 8);
        assert(output@ =~= start + text::terminated(piece.take(9)));
        assert(piece.take(9) =~= piece);
    }
}

impl Scenario {
    /// Renders the scenario in the grammar's text format.
    pub fn render(&self) -> (output: String)
        requires
            renderable(self@),
        ensures
            output@ == render_text(self@),
    {
        let ghost m = self@;
        let ghost ls = render_lines(m);
        let ghost n = m.roles.len();
        let mut output = String::new();
        text::push_str(&mut output, "committee:");
        text::push_char(&mut output, '\n');
        proof {
            assert(ls[0] == "committee:"@);
            lemma_take_push(ls, 0);
            assert(ls.take(0) =~= Seq::<Seq<char>>::empty());
            assert(text::terminated(ls.take(0)) =~= Seq::<char>::empty());
            assert(output@ =~= text::terminated(ls.take(1)));
        }
        let mut index: usize = 0;
        while index < self.roles.len()
            invariant
                m == self@,
                ls == render_lines(m),
                n == self.roles.len(),
                index <= n,
                output@ == text::terminated(ls.take(1 + index)),
            decreases n - index,
        {
            let ghost before = output@;
            text::push_str(&mut output, "  ");
            push_v_name(&mut output, index as u64 + 1);
            text::push_str(&mut output, " stake=1% role=");
            text::push_str(&mut output, self.roles[index].as_str());
            proof {
                assert(ls[1 + index] == committee_line(index as int, m.roles[index as int]));
                assert(output@ =~= before + ls[1 + index]);
            }
            text::push_char(&mut output, '\n');
            proof {
                lemma_take_push(ls, 1 + index);
            }
            index += 1;
        }
        let mut s: usize = 0;
        while s < self.slots.len()
            invariant
                m == self@,
                ls == render_lines(m),
                n == self.roles.len(),
                renderable(m),
                s <= self.slots.len(),
                output@ == text::terminated(ls.take(1 + n + 9 * s)),
            decreases self.slots.len() - s,
        {
            let ghost sv = m.slots[s as int];
            let ghost base = 1 + n + 9 * s;
            assert(sv == self.slots[s as int]@);
            assert(slot_renderable(m.slots[s as int]));
            render_slot(&mut output, &self.slots[s]);
            proof {
                let piece = Seq::new(9, |k: int| slot_line(sv, k));
                assert forall|k: int| 0 <= k < 9 implies ls[base + k] == piece[k] by {
                    assert((9 * s + k) / 9 == s as int);
                    assert((9 * s + k) % 9 == k);
                }
                assert(ls.take(base + 9) =~= ls.take(base) + piece);
                text::lemma_terminated_concat(ls.take(base), piece);
            }
            s += 1;
        }
        assert(ls.take(1 + n + 9 * s) =~= ls);
        output
    }
}


// ---------------------------------------------------------------------------
// Parsing
// ---------------------------------------------------------------------------
/// The role that a `role=<name>` field names.
pub open spec fn parse_role_field(f: Seq<char>) -> Option<Role> {
    if f == "role=honest"@ {
        Some(Role::Honest)
    } else if f == "role=absent"@ {
        Some(Role::Absent)
    } else if f == "role=byzantine"@ {
        Some(Role::Byzantine)
    } else {
        None
    }
}

/// The role of validator `i + 1` on its committee line.
pub open spec fn parse_committee_line(line: Seq<char>, i: int) -> Option<Role> {
    let f = text::fields(line);
    if f.len() == 3 && f[0] == v_name((i + 1) as nat) && f[1] == "stake=1%"@ {
        parse_role_field(f[2])
    } else {
        None
    }
}

/// The first-round vote that a text denotes.
pub open spec fn parse_vote_text(s: Seq<char>) -> Option<Vote> {
    if s == "absent"@ {
        Some(Vote::Absent)
    } else if s == "skip"@ {
        Some(Vote::Skip)
    } else if s == "skip-fallback"@ {
        Some(Vote::SkipFallback)
    } else if enclosed(s, "notar-fallback(b"@) is Some {
        match block_number(enclosed(s, "notar-fallback(b"@)->0) {
            Some(b) => Some(Vote::NotarFallback(b)),
            None => None,
        }
    } else if text::has_prefix(s, seq!['b']) {
        match block_number(s.skip(1)) {
            Some(b) => Some(Vote::Block(b)),
            None => None,
        }
    } else {
        None
    }
}

/// The votes of a comma-separated vote set: one to five of them, `absent`
/// only alone.
pub open spec fn parse_vote_set_text(s: Seq<char>) -> Option<Seq<Vote>> {
    let pieces = text::split_on(s, ',');
    if forall|k: int| 0 <= k < pieces.len() ==> (#[trigger] parse_vote_text(pieces[k])) is Some {
        let votes = Seq::new(pieces.len(), |k: int| parse_vote_text(pieces[k])->0);
        if votes.len() == 0 || votes.len() > MAX_VOTES_PER_VALIDATOR || (votes.contains(
            Vote::Absent,
        ) && votes.len() != 1) {
            None
        } else {
            Some(votes)
        }
    } else {
        None
    }
}

/// The votes of an assignment `v<i+1>=<votes>`.
pub open spec fn parse_assignment(a: Seq<char>, i: int) -> Option<Seq<Vote>> {
    match text::split_once(a, '=') {
        Some((name, enc)) => if name == v_name((i + 1) as nat) {
            parse_vote_set_text(enc)
        } else {
            None
        },
        None => None,
    }
}

/// The first round of a `  round1:` line.
pub open spec fn parse_round1_line(line: Seq<char>) -> Option<Seq<Seq<Vote>>> {
    if !text::has_prefix(line, "  round1:"@) {
        None
    } else {
        let f = text::fields(line.skip("  round1:"@.len() as int));
        if f.len() == VALIDATOR_COUNT && forall|i: int|
            0 <= i < VALIDATOR_COUNT ==> (#[trigger] parse_assignment(f[i], i)) is Some {
            Some(Seq::new(VALIDATOR_COUNT as nat, |i: int| parse_assignment(f[i], i)->0))
        } else {
            None
        }
    }
}

/// The second-round vote that a text denotes.
pub open spec fn parse_round2_vote_text(s: Seq<char>) -> Option<Round2Vote> {
    if s == "finalize"@ {
        Some(Round2Vote::Finalize)
    } else if s == "skip-fallback"@ {
        Some(Round2Vote::SkipFallback)
    } else if s == "none"@ {
        Some(Round2Vote::NoVote)
    } else if enclosed(s, "notarize(b"@) is Some {
        match block_number(enclosed(s, "notarize(b"@)->0) {
            Some(b) => Some(Round2Vote::Notarize(b)),
            None => None,
        }
    } else if enclosed(s, "notar-fallback(b"@) is Some {
        match block_number(enclosed(s, "notar-fallback(b"@)->0) {
            Some(b) => Some(Round2Vote::NotarFallback(b)),
            None => None,
        }
    } else {
        None
    }
}

/// Whether a second-round vote list is one to five votes, `none` only alone.
pub open spec fn round2_shape_ok(votes: Seq<Round2Vote>) -> bool {
    !(votes.len() == 0 || votes.len() > MAX_ROUND2_VOTES || (votes.len() > 1 && votes.contains(
        Round2Vote::NoVote,
    )))
}

/// The second round of a `  round2: v1=` line.
pub open spec fn parse_round2_line(line: Seq<char>) -> Option<Seq<Round2Vote>> {
    if !text::has_prefix(line, "  round2: v1="@) {
        None
    } else {
        let pieces = text::split_on(line.skip("  round2: v1="@.len() as int), ',');
        if forall|k: int| 0 <= k < pieces.len() ==> (#[trigger] parse_round2_vote_text(pieces[k])) is Some {
            let votes = Seq::new(pieces.len(), |k: int| parse_round2_vote_text(pieces[k])->0);
            if round2_shape_ok(votes) {
                Some(votes)
            } else {
                None
            }
        } else {
            None
        }
    }
}

/// Whether the nine lines from `b` on form a slot.
pub open spec fn slot_ok(ls: Seq<Seq<char>>, b: int) -> bool {
    &&& ls[b] == "blocks:"@
    &&& forall|j: int|
        0 <= j < BLOCKS_PER_SLOT ==> (#[trigger] parse_block_line(ls[b + 1 + j], j)) is Some
    &&& ls[b + 5] == "slot"@
    &&& parse_round1_line(ls[b + 6]) is Some
    &&& parse_round2_line(ls[b + 7]) is Some
    &&& ls[b + 8] == "end-slot"@
}

/// The slot that the nine lines from `b` on describe.
pub open spec fn parsed_slot(ls: Seq<Seq<char>>, b: int) -> SlotView {
    SlotView {
        block_ids: Seq::new(BLOCKS_PER_SLOT as nat, |j: int| parse_block_line(ls[b + 1 + j], j)->0),
        round1: parse_round1_line(ls[b + 6])->0,
        round2: parse_round2_line(ls[b + 7])->0,
    }
}

/// Number of lines that a scenario takes.
pub open spec fn scenario_lines() -> int {
    1 + VALIDATOR_COUNT + 9 * NUM_SLOTS
}

/// The scenario that a sequence of lines describes, if it describes one.
pub open spec fn parse_lines(ls: Seq<Seq<char>>) -> Option<ScenarioView> {
    if ls.len() >= scenario_lines() && ls[0] == "committee:"@ && (forall|i: int|
        0 <= i < VALIDATOR_COUNT ==> (#[trigger] parse_committee_line(ls[1 + i], i)) is Some) && (
    forall|s: int| 0 <= s < NUM_SLOTS ==> #[trigger] slot_ok(ls, 1 + VALIDATOR_COUNT + 9 * s)) && (
    forall|k: int| scenario_lines() <= k < ls.len() ==> text::is_blank(#[trigger] ls[k])) {
        Some(
            ScenarioView {
                roles: Seq::new(
                    VALIDATOR_COUNT as nat,
                    |i: int| parse_committee_line(ls[1 + i], i)->0,
                ),
                slots: Seq::new(
                    NUM_SLOTS as nat,
                    |s: int| parsed_slot(ls, 1 + VALIDATOR_COUNT + 9 * s),
                ),
            },
        )
    } else {
        None
    }
}

/// The scenario that a text describes, if it describes one.
pub open spec fn parse_text(t: Seq<char>) -> Option<ScenarioView> {
    parse_lines(text::lines(t))
}

/// The complaint about a committee line that does not parse.
pub open spec fn committee_error(line: Seq<char>, i: int) -> Seq<char> {
    let f = text::fields(line);
    if f.len() == 3 && f[0] == v_name((i + 1) as nat) && f[1] == "stake=1%"@ {
        "invalid role in committee line: "@ + text::debug_text(line)
    } else {
        "invalid committee line: "@ + text::debug_text(line)
    }
}

/// The complaint about the assignment of validator `i + 1` that does not
/// parse.
pub open spec fn assignment_error(a: Seq<char>, i: int) -> Seq<char> {
    match text::split_once(a, '=') {
        None => "invalid round1 assignment: "@ + text::debug_text(a),
        Some((name, enc)) => if name != v_name((i + 1) as nat) {
            "round1 validators are out of order at "@ + text::debug_text(name)
        } else {
            vote_set_error(enc)
        },
    }
}

/// The complaint about the first assignment from `i` on that does not
/// parse, if one does not.
pub open spec fn first_assignment_error(f: Seq<Seq<char>>, i: nat) -> Option<Seq<char>>
    decreases f.len() - i,
{
    if i >= f.len() {
        None
    } else if parse_assignment(f[i as int], i as int) is None {
        Some(assignment_error(f[i as int], i as int))
    } else {
        first_assignment_error(f, i + 1)
    }
}

/// The complaint about a first-round line of slot `slot` that does not parse.
pub open spec fn round1_error(line: Seq<char>, slot: nat) -> Seq<char> {
    if !text::has_prefix(line, "  round1:"@) {
        "invalid round1 line: "@ + text::debug_text(line)
    } else {
        let f = text::fields(line.skip("  round1:"@.len() as int));
        if f.len() != VALIDATOR_COUNT {
            "slot "@ + text::decimal(slot) + " has "@ + text::decimal(f.len()) + " round1 assignments"@
        } else {
            match first_assignment_error(f, 0) {
                Some(e) => e,
                None => seq![],
            }
        }
    }
}

/// The complaint about the first piece that is no second-round vote, if one
/// is none.
pub open spec fn first_round2_vote_error(pieces: Seq<Seq<char>>) -> Option<Seq<char>>
    decreases pieces.len(),
{
    if pieces.len() == 0 {
        None
    } else if parse_round2_vote_text(pieces[0]) is None {
        Some(round2_vote_error(pieces[0]))
    } else {
        first_round2_vote_error(pieces.drop_first())
    }
}

/// The complaint about a second-round line of slot `slot` that does not
/// parse.
pub open spec fn round2_error(line: Seq<char>, slot: nat) -> Seq<char> {
    if !text::has_prefix(line, "  round2: v1="@) {
        "invalid round2 line: "@ + text::debug_text(line)
    } else {
        match first_round2_vote_error(text::split_on(line.skip("  round2: v1="@.len() as int), ',')) {
            Some(e) => e,
            None => "invalid round2 vote set in slot "@ + text::decimal(slot),
        }
    }
}

proof fn lemma_first_assignment_error(f: Seq<Seq<char>>, i0: nat, i: int)
    requires
        i0 <= i <= f.len(),
        forall|j: int| i0 <= j < i ==> (#[trigger] parse_assignment(f[j], j)) is Some,
    ensures
        i < f.len() && parse_assignment(f[i], i) is None ==> first_assignment_error(f, i0) == Some(
            assignment_error(f[i], i),
        ),
        i == f.len() ==> first_assignment_error(f, i0) is None,
    decreases i - i0,
{
    if i0 < i {
        assert(parse_assignment(f[i0 as int], i0 as int) is Some);
        lemma_first_assignment_error(f, i0 + 1, i);
    }
}

proof fn lemma_first_round2_vote_error(pieces: Seq<Seq<char>>, i: int)
    requires
        0 <= i <= pieces.len(),
        forall|j: int| 0 <= j < i ==> (#[trigger] parse_round2_vote_text(pieces[j])) is Some,
    ensures
        i < pieces.len() && parse_round2_vote_text(pieces[i]) is None ==> first_round2_vote_error(
            pieces,
        ) == Some(round2_vote_error(pieces[i])),
        i == pieces.len() ==> first_round2_vote_error(pieces) is None,
    decreases i,
{
    if i > 0 {
        let t = pieces.drop_first();
        assert forall|j: int| 0 <= j < i - 1 implies (#[trigger] parse_round2_vote_text(t[j])) is Some by {
            assert(t[j] == pieces[j + 1]);
        }
        assert(parse_round2_vote_text(pieces[0]) is Some);
        lemma_first_round2_vote_error(t, i - 1);
        if i < pieces.len() {
            assert(t[i - 1] == pieces[i]);
        }
    }
}

/// The complaint about slot `s`, whose lines start at `b`, when they do
/// not form a slot: the first line out of place.
pub open spec fn slot_error(ls: Seq<Seq<char>>, b: int, s: nat) -> Seq<char> {
    if !(b < ls.len() && ls[b] == "blocks:"@) {
        expect_error(ls, b, "blocks:"@)
    } else {
        match first_block_error(ls, b, s, 0) {
            Some(e) => e,
            None => if !(b + 5 < ls.len() && ls[b + 5] == "slot"@) {
                expect_error(ls, b + 5, "slot"@)
            } else if b + 6 >= ls.len() {
                "missing round1"@ + slot_suffix(s)
            } else if parse_round1_line(ls[b + 6]) is None {
                round1_error(ls[b + 6], s)
            } else if b + 7 >= ls.len() {
                "missing round2"@ + slot_suffix(s)
            } else if parse_round2_line(ls[b + 7]) is None {
                round2_error(ls[b + 7], s)
            } else {
                expect_error(ls, b + 8, "end-slot"@)
            },
        }
    }
}

/// The complaint about the first committee line from validator `i + 1` on
/// that is missing or does not parse, if one is.
pub open spec fn first_committee_error(ls: Seq<Seq<char>>, i: nat) -> Option<Seq<char>>
    decreases VALIDATOR_COUNT - i,
{
    if i >= VALIDATOR_COUNT {
        None
    } else if 1 + i >= ls.len() {
        Some("missing committee line for "@ + v_name(i + 1))
    } else if parse_committee_line(ls[1 + i as int], i as int) is None {
        Some(committee_error(ls[1 + i as int], i as int))
    } else {
        first_committee_error(ls, i + 1)
    }
}

/// Whether slot `s` has all its lines and they parse.
pub open spec fn slot_fits(ls: Seq<Seq<char>>, s: int) -> bool {
    1 + VALIDATOR_COUNT + 9 * s + 9 <= ls.len() && slot_ok(ls, 1 + VALIDATOR_COUNT + 9 * s)
}

/// The complaint about the first slot from `s` on that does not parse, if
/// one does not.
pub open spec fn first_slot_error(ls: Seq<Seq<char>>, s: nat) -> Option<Seq<char>>
    decreases NUM_SLOTS - s,
{
    if s >= NUM_SLOTS {
        None
    } else if !slot_fits(ls, s as int) {
        Some(slot_error(ls, 1 + VALIDATOR_COUNT + 9 * s, s))
    } else {
        first_slot_error(ls, s + 1)
    }
}

/// The complaint about lines that do not form a scenario: the first line
/// out of place, in reading order.
pub open spec fn parse_error(ls: Seq<Seq<char>>) -> Seq<char> {
    if !(ls.len() > 0 && ls[0] == "committee:"@) {
        expect_error(ls, 0, "committee:"@)
    } else {
        match first_committee_error(ls, 0) {
            Some(e) => e,
            None => match first_slot_error(ls, 0) {
                Some(e) => e,
                None => match first_trailing_error(ls, scenario_lines() as nat) {
                    Some(e) => e,
                    None => seq![],
                },
            },
        }
    }
}

proof fn lemma_first_committee_error(ls: Seq<Seq<char>>, i0: nat, i: int)
    requires
        i0 <= i <= VALIDATOR_COUNT,
        forall|q: int|
            i0 <= q < i ==> 1 + q < ls.len() && (#[trigger] parse_committee_line(ls[1 + q], q)) is Some,
    ensures
        i < VALIDATOR_COUNT && 1 + i >= ls.len() ==> first_committee_error(ls, i0) == Some(
            "missing committee line for "@ + v_name((i + 1) as nat),
        ),
        i < VALIDATOR_COUNT && 1 + i < ls.len() && parse_committee_line(ls[1 + i], i) is None
            ==> first_committee_error(ls, i0) == Some(committee_error(ls[1 + i], i)),
        i == VALIDATOR_COUNT ==> first_committee_error(ls, i0) is None,
    decreases i - i0,
{
    if i0 < i {
        assert(1 + i0 < ls.len() && parse_committee_line(ls[1 + i0 as int], i0 as int) is Some);
        lemma_first_committee_error(ls, i0 + 1, i);
    }
}

proof fn lemma_first_slot_error(ls: Seq<Seq<char>>, s0: nat, s: int)
    requires
        s0 <= s <= NUM_SLOTS,
        forall|q: int| s0 <= q < s ==> #[trigger] slot_fits(ls, q),
    ensures
        s < NUM_SLOTS && !slot_fits(ls, s) ==> first_slot_error(ls, s0) == Some(
            slot_error(ls, 1 + VALIDATOR_COUNT + 9 * s, s as nat),
        ),
        s == NUM_SLOTS ==> first_slot_error(ls, s0) is None,
    decreases s - s0,
{
    if s0 < s {
        assert(slot_fits(ls, s0 as int));
        lemma_first_slot_error(ls, s0 + 1, s);
    }
}

/// The complaint about a text that is no first-round vote.
pub open spec fn vote_error(s: Seq<char>) -> Seq<char> {
    if enclosed(s, "notar-fallback(b"@) is Some {
        block_number_error(enclosed(s, "notar-fallback(b"@)->0)
    } else if text::has_prefix(s, seq!['b']) {
        block_number_error(s.skip(1))
    } else {
        "invalid vote: "@ + text::debug_text(s)
    }
}

/// The complaint about the first piece that is no vote, if any is none.
pub open spec fn first_vote_error(pieces: Seq<Seq<char>>) -> Option<Seq<char>>
    decreases pieces.len(),
{
    if pieces.len() == 0 {
        None
    } else if parse_vote_text(pieces[0]) is None {
        Some(vote_error(pieces[0]))
    } else {
        first_vote_error(pieces.drop_first())
    }
}

/// The complaint about a text that is no vote set.
pub open spec fn vote_set_error(s: Seq<char>) -> Seq<char> {
    match first_vote_error(text::split_on(s, ',')) {
        Some(e) => e,
        None => "invalid vote set: "@ + text::debug_text(s),
    }
}

/// The complaint about a text that is no second-round vote.
pub open spec fn round2_vote_error(s: Seq<char>) -> Seq<char> {
    if enclosed(s, "notarize(b"@) is Some {
        block_number_error(enclosed(s, "notarize(b"@)->0)
    } else if enclosed(s, "notar-fallback(b"@) is Some {
        block_number_error(enclosed(s, "notar-fallback(b"@)->0)
    } else {
        "invalid round2 vote: "@ + text::debug_text(s)
    }
}

proof fn lemma_first_vote_error(pieces: Seq<Seq<char>>, i: int)
    requires
        0 <= i <= pieces.len(),
        forall|j: int| 0 <= j < i ==> (#[trigger] parse_vote_text(pieces[j])) is Some,
    ensures
        i < pieces.len() && parse_vote_text(pieces[i]) is None ==> first_vote_error(pieces) == Some(
            vote_error(pieces[i]),
        ),
        i == pieces.len() ==> first_vote_error(pieces) is None,
    decreases i,
{
    if i > 0 {
        let t = pieces.drop_first();
        assert forall|j: int| 0 <= j < i - 1 implies (#[trigger] parse_vote_text(t[j])) is Some by {
            assert(t[j] == pieces[j + 1]);
        }
        assert(parse_vote_text(pieces[0]) is Some);
        lemma_first_vote_error(t, i - 1);
        if i < pieces.len() {
            assert(t[i - 1] == pieces[i]);
        }
    }
}

/// Parses one first-round vote.
pub fn parse_vote(encoded: &Vec<char>) -> (r: Result<Vote, String>)
    ensures
        match r {
            Ok(v) => parse_vote_text(encoded@) == Some(v),
            Err(e) => parse_vote_text(encoded@) is None && e@ == vote_error(encoded@),
        },
{
    if text::equals_str(encoded, "absent") {
        return Ok(Vote::Absent);
    }
    if text::equals_str(encoded, "skip") {
        return Ok(Vote::Skip);
    }
    if text::equals_str(encoded, "skip-fallback") {
        return Ok(Vote::SkipFallback);
    }
    if let Some(block) = strip_enclosed(encoded, "notar-fallback(b") {
        let b = parse_block_number(&block)?;
        return Ok(Vote::NotarFallback(b));
    }
    let mut b_prefix: Vec<char> = Vec::new();
    b_prefix.push('b');
    assert(b_prefix@ =~= seq!['b']);
    let block = match text::strip_prefix(encoded, &b_prefix) {
        Some(block) => block,
        None => {
            let mut msg = text::string_from("invalid vote: ");
            text::push_debug_chars(&mut msg, encoded);
            return Err(msg);
        },
    };
    let b = parse_block_number(&block)?;
    Ok(Vote::Block(b))
}

/// Parses a comma-separated vote set: one to five votes, `absent` only alone.
pub fn parse_vote_set(encoded: &Vec<char>) -> (r: Result<Vec<Vote>, String>)
    ensures
        match r {
            Ok(v) => parse_vote_set_text(encoded@) == Some(v@),
            Err(e) => parse_vote_set_text(encoded@) is None && e@ == vote_set_error(encoded@),
        },
{
    let pieces = text::split_char(encoded, ',');
    let ghost ps = pieces.deep_view();
    let mut votes: Vec<Vote> = Vec::new();
    let mut k: usize = 0;
    while k < pieces.len()
        invariant
            ps == pieces.deep_view(),
            ps == text::split_on(encoded@, ','),
            k <= pieces.len(),
            votes@.len() == k,
            forall|j: int| 0 <= j < k ==> parse_vote_text(ps[j]) == Some(#[trigger] votes@[j]),
        decreases pieces.len() - k,
    {
        proof {
            text::lemma_line_view(&pieces, k as int);
        }
        let v = match parse_vote(&pieces[k]) {
            Ok(v) => v,
            Err(e) => {
                assert(parse_vote_text(ps[k as int]) is None);
                proof {
                    assert forall|j: int| 0 <= j < k implies (#[trigger] parse_vote_text(ps[j])) is Some by {
                        assert(parse_vote_text(ps[j]) == Some(votes@[j]));
                    }
                    lemma_first_vote_error(ps, k as int);
                }
                return Err(e);
            },
        };
        votes.push(v);
        k += 1;
    }
    assert forall|j: int| 0 <= j < ps.len() implies (#[trigger] parse_vote_text(ps[j])) is Some by {
        assert(parse_vote_text(ps[j]) == Some(votes@[j]));
    }
    proof {
        lemma_first_vote_error(ps, ps.len() as int);
    }
    assert(votes@ =~= Seq::new(ps.len(), |j: int| parse_vote_text(ps[j])->0));
    let mut has_absent = false;
    let mut j: usize = 0;
    while j < votes.len()
        invariant
            j <= votes.len(),
            has_absent == votes@.take(j as int).contains(Vote::Absent),
        decreases votes.len() - j,
    {
        proof {
            let t = votes@.take(j + 1);
            assert(t.drop_last() =~= votes@.take(j as int));
            if votes@.take(j as int).contains(Vote::Absent) {
                let q = choose|q: int| 0 <= q < j && votes@.take(j as int)[q] == Vote::Absent;
                assert(t[q] == Vote::Absent);
            }
            if votes@[j as int] == Vote::Absent {
                assert(t[j as int] == Vote::Absent);
            }
            if t.contains(Vote::Absent) {
                let q = choose|q: int| 0 <= q < j + 1 && t[q] == Vote::Absent;
                if q < j {
                    assert(votes@.take(j as int)[q] == Vote::Absent);
                }
            }
        }
        if votes[j] == Vote::Absent {
            has_absent = true;
        }
        j += 1;
    }
    assert(votes@.take(j as int) =~= votes@);
    if votes.len() == 0 || votes.len() > MAX_VOTES_PER_VALIDATOR || (has_absent && votes.len() != 1) {
        let mut msg = text::string_from("invalid vote set: ");
        text::push_debug_chars(&mut msg, encoded);
        return Err(msg);
    }
    Ok(votes)
}

/// Parses one second-round vote.
pub fn parse_round2_vote(encoded: &Vec<char>) -> (r: Result<Round2Vote, String>)
    ensures
        match r {
            Ok(v) => parse_round2_vote_text(encoded@) == Some(v),
            Err(e) => parse_round2_vote_text(encoded@) is None && e@ == round2_vote_error(encoded@),
        },
{
    if text::equals_str(encoded, "finalize") {
        return Ok(Round2Vote::Finalize);
    }
    if text::equals_str(encoded, "skip-fallback") {
        return Ok(Round2Vote::SkipFallback);
    }
    if text::equals_str(encoded, "none") {
        return Ok(Round2Vote::NoVote);
    }
    if let Some(block) = strip_enclosed(encoded, "notarize(b") {
        let b = parse_block_number(&block)?;
        return Ok(Round2Vote::Notarize(b));
    }
    if let Some(block) = strip_enclosed(encoded, "notar-fallback(b") {
        let b = parse_block_number(&block)?;
        return Ok(Round2Vote::NotarFallback(b));
    }
    let mut msg = text::string_from("invalid round2 vote: ");
    text::push_debug_chars(&mut msg, encoded);
    Err(msg)
}

/// Parses the `  round1:` line: one assignment per validator, in order.
fn parse_round1(line: &Vec<char>, logical_slot: usize) -> (r: Result<Vec<Vec<Vote>>, String>)
    ensures
        match r {
            Ok(v) => parse_round1_line(line@) == Some(round1_view(v@)),
            Err(e) => parse_round1_line(line@) is None && e@ == round1_error(line@, logical_slot as nat),
        },
{
    let rest = match text::strip_prefix_str(line, "  round1:") {
        Some(rest) => rest,
        None => {
            let mut msg = text::string_from("invalid round1 line: ");
            text::push_debug_chars(&mut msg, line);
            return Err(msg);
        },
    };
    let assignments = text::split_fields(&rest);
    let ghost f = assignments.deep_view();
    if assignments.len() != VALIDATOR_COUNT {
        let mut msg = text::string_from("slot ");
        text::push_decimal(&mut msg, logical_slot as u64);
        text::push_str(&mut msg, " has ");
        text::push_decimal(&mut msg, assignments.len() as u64);
        text::push_str(&mut msg, " round1 assignments");
        return Err(msg);
    }
    let mut round1: Vec<Vec<Vote>> = Vec::new();
    let mut validator: usize = 0;
    while validator < assignments.len()
        invariant
            f == assignments.deep_view(),
            f == text::fields(rest@),
            rest@ == line@.skip("  round1:"@.len() as int),
            text::has_prefix(line@, "  round1:"@),
            assignments.len() == VALIDATOR_COUNT,
            validator <= VALIDATOR_COUNT,
            round1@.len() == validator,
            forall|i: int| 0 <= i < validator ==> parse_assignment(f[i], i) == Some(#[trigger] round1@[i]@),
        decreases VALIDATOR_COUNT - validator,
    {
        proof {
            text::lemma_line_view(&assignments, validator as int);
        }
        let assignment = &assignments[validator];
        proof {
            assert forall|j: int| 0 <= j < validator implies (#[trigger] parse_assignment(f[j], j)) is Some by {
                assert(parse_assignment(f[j], j) == Some(round1@[j]@));
            }
            lemma_first_assignment_error(f, 0, validator as int);
        }
        let (name, votes) = match text::split_once_char(assignment, '=') {
            Some(pair) => pair,
            None => {
                assert(parse_assignment(f[validator as int], validator as int) is None);
                let mut msg = text::string_from("invalid round1 assignment: ");
                text::push_debug_chars(&mut msg, assignment);
                return Err(msg);
            },
        };
        let expected = v_name_chars(validator as u64 + 1);
        if !text::chars_equal(&name, &expected) {
            assert(parse_assignment(f[validator as int], validator as int) is None);
            let mut msg = text::string_from("round1 validators are out of order at ");
            text::push_debug_chars(&mut msg, &name);
            return Err(msg);
        }
        let set = match parse_vote_set(&votes) {
            Ok(set) => set,
            Err(e) => {
                assert(parse_assignment(f[validator as int], validator as int) is None);
                return Err(e);
            },
        };
        let ghost old_r = round1@;
        round1.push(set);
        assert forall|i: int| 0 <= i < validator + 1 implies parse_assignment(f[i], i) == Some(#[trigger] round1@[i]@) by {
            if i < validator {
                assert(round1@[i] == old_r[i]);
            }
        }
        validator += 1;
    }
    assert forall|i: int| 0 <= i < VALIDATOR_COUNT implies (#[trigger] parse_assignment(f[i], i)) is Some by {
        assert(parse_assignment(f[i], i) == Some(round1@[i]@));
    }
    assert forall|i: int| 0 <= i < VALIDATOR_COUNT implies #[trigger] round1_view(round1@)[i] == parse_assignment(f[i], i)->0 by {
        assert(parse_assignment(f[i], i) == Some(round1@[i]@));
    }
    assert(round1_view(round1@) =~= Seq::new(VALIDATOR_COUNT as nat, |i: int| parse_assignment(f[i], i)->0));
    Ok(round1)
}

/// Parses the `  round2: v1=` line.
fn parse_round2(line: &Vec<char>, logical_slot: usize) -> (r: Result<Vec<Round2Vote>, String>)
    ensures
        match r {
            Ok(v) => parse_round2_line(line@) == Some(v@),
            Err(e) => parse_round2_line(line@) is None && e@ == round2_error(line@, logical_slot as nat),
        },
{
    let rest = match text::strip_prefix_str(line, "  round2: v1=") {
        Some(rest) => rest,
        None => {
            let mut msg = text::string_from("invalid round2 line: ");
            text::push_debug_chars(&mut msg, line);
            return Err(msg);
        },
    };
    let pieces = text::split_char(&rest, ',');
    let ghost ps = pieces.deep_view();
    let mut votes: Vec<Round2Vote> = Vec::new();
    let mut k: usize = 0;
    while k < pieces.len()
        invariant
            ps == pieces.deep_view(),
            ps == text::split_on(rest@, ','),
            rest@ == line@.skip("  round2: v1="@.len() as int),
            text::has_prefix(line@, "  round2: v1="@),
            k <= pieces.len(),
            votes@.len() == k,
            forall|j: int| 0 <= j < k ==> parse_round2_vote_text(ps[j]) == Some(#[trigger] votes@[j]),
        decreases pieces.len() - k,
    {
        proof {
            text::lemma_line_view(&pieces, k as int);
        }
        let v = match parse_round2_vote(&pieces[k]) {
            Ok(v) => v,
            Err(e) => {
                assert(parse_round2_vote_text(ps[k as int]) is None);
                proof {
                    assert forall|j: int| 0 <= j < k implies (#[trigger] parse_round2_vote_text(ps[j])) is Some by {
                        assert(parse_round2_vote_text(ps[j]) == Some(votes@[j]));
                    }
                    lemma_first_round2_vote_error(ps, k as int);
                }
                return Err(e);
            },
        };
        votes.push(v);
        k += 1;
    }
    assert forall|j: int| 0 <= j < ps.len() implies (#[trigger] parse_round2_vote_text(ps[j])) is Some by {
        assert(parse_round2_vote_text(ps[j]) == Some(votes@[j]));
    }
    proof {
        lemma_first_round2_vote_error(ps, ps.len() as int);
    }
    assert(votes@ =~= Seq::new(ps.len(), |j: int| parse_round2_vote_text(ps[j])->0));
    let mut has_none = false;
    let mut j: usize = 0;
    while j < votes.len()
        invariant
            j <= votes.len(),
            has_none == votes@.take(j as int).contains(Round2Vote::NoVote),
        decreases votes.len() - j,
    {
        proof {
            let t = votes@.take(j + 1);
            assert(t.drop_last() =~= votes@.take(j as int));
            if votes@.take(j as int).contains(Round2Vote::NoVote) {
                let q = choose|q: int| 0 <= q < j && votes@.take(j as int)[q] == Round2Vote::NoVote;
                assert(t[q] == Round2Vote::NoVote);
            }
            if votes@[j as int] == Round2Vote::NoVote {
                assert(t[j as int] == Round2Vote::NoVote);
            }
            if t.contains(Round2Vote::NoVote) {
                let q = choose|q: int| 0 <= q < j + 1 && t[q] == Round2Vote::NoVote;
                if q < j {
                    assert(votes@.take(j as int)[q] == Round2Vote::NoVote);
                }
            }
        }
        if votes[j] == Round2Vote::NoVote {
            has_none = true;
        }
        j += 1;
    }
    assert(votes@.take(j as int) =~= votes@);
    if votes.len() == 0 || votes.len() > MAX_ROUND2_VOTES || (votes.len() > 1 && has_none) {
        let mut msg = text::string_from("invalid round2 vote set in slot ");
        text::push_decimal(&mut msg, logical_slot as u64);
        return Err(msg);
    }
    Ok(votes)
}

/// Parses the committee line of validator `validator + 1`.
fn parse_committee(line: &Vec<char>, validator: usize) -> (r: Result<Role, String>)
    requires
        validator < VALIDATOR_COUNT,
    ensures
        match r {
            Ok(v) => parse_committee_line(line@, validator as int) == Some(v),
            Err(e) => parse_committee_line(line@, validator as int) is None && e@ == committee_error(
                line@,
                validator as int,
            ),
        },
{
    let fields = text::split_fields(line);
    let expected = v_name_chars(validator as u64 + 1);
    if fields.len() != 3 {
        let mut msg = text::string_from("invalid committee line: ");
        text::push_debug_chars(&mut msg, line);
        return Err(msg);
    }
    proof {
        text::lemma_line_view(&fields, 0);
        text::lemma_line_view(&fields, 1);
        text::lemma_line_view(&fields, 2);
    }
    if !text::chars_equal(&fields[0], &expected) || !text::equals_str(&fields[1], "stake=1%") {
        let mut msg = text::string_from("invalid committee line: ");
        text::push_debug_chars(&mut msg, line);
        return Err(msg);
    }
    if text::equals_str(&fields[2], "role=honest") {
        Ok(Role::Honest)
    } else if text::equals_str(&fields[2], "role=absent") {
        Ok(Role::Absent)
    } else if text::equals_str(&fields[2], "role=byzantine") {
        Ok(Role::Byzantine)
    } else {
        let mut msg = text::string_from("invalid role in committee line: ");
        text::push_debug_chars(&mut msg, line);
        Err(msg)
    }
}

/// Parses the nine lines of a slot that start at `pos`.
fn parse_slot(ls: &Vec<Vec<char>>, pos: usize, logical_slot: usize) -> (r: Result<Slot, String>)
    requires
        pos + 9 <= usize::MAX,
    ensures
        match r {
            Ok(slot) => pos + 9 <= ls.len() && slot_ok(ls.deep_view(), pos as int) && slot@
                == parsed_slot(ls.deep_view(), pos as int),
            Err(e) => (pos + 9 > ls.len() || !slot_ok(ls.deep_view(), pos as int)) && e@ == slot_error(
                ls.deep_view(),
                pos as int,
                logical_slot as nat,
            ),
        },
{
    let ghost lv = ls.deep_view();
    expect_line(ls, pos, "blocks:")?;
    let mut block_ids: [[u8; BLOCK_ID_BYTES]; BLOCKS_PER_SLOT] = [[0u8; BLOCK_ID_BYTES]; BLOCKS_PER_SLOT];
    let mut block: usize = 0;
    while block < BLOCKS_PER_SLOT
        invariant
            lv == ls.deep_view(),
            pos + 9 <= usize::MAX,
            pos < ls.len(),
            block <= BLOCKS_PER_SLOT,
            forall|j: int|
                0 <= j < block ==> parse_block_line(lv[pos + 1 + j], j) == Some(
                    #[trigger] block_ids@[j]@,
                ),
            forall|j: int| 0 <= j < block ==> #[trigger] block_ok(lv, pos as int, j),
            lv[pos as int] == "blocks:"@,
        decreases BLOCKS_PER_SLOT - block,
    {
        proof {
            lemma_first_block_error(lv, pos as int, logical_slot as nat, 0, block as int);
        }
        let at = pos + 1 + block;
        if at >= ls.len() {
            let mut msg = text::string_from("missing b");
            text::push_decimal(&mut msg, block as u64 + 1);
            text::push_str(&mut msg, " in slot ");
            text::push_decimal(&mut msg, logical_slot as u64);
            proof {
                assert(msg@ =~= block_error(lv, pos as int, block as int, logical_slot as nat));
            }
            return Err(msg);
        }
        proof {
            text::lemma_line_view(ls, at as int);
        }
        let line = &ls[at];
        let prefix = block_prefix_chars(block);
        let encoded = match text::strip_prefix(line, &prefix) {
            Some(e) => e,
            None => {
                assert(parse_block_line(lv[pos + 1 + block], block as int) is None);
                let mut msg = text::string_from("invalid block line");
                text::push_str(&mut msg, " in slot ");
                text::push_decimal(&mut msg, logical_slot as u64);
                text::push_str(&mut msg, ": ");
                text::push_debug_chars(&mut msg, line);
                proof {
                    assert(msg@ =~= block_error(lv, pos as int, block as int, logical_slot as nat));
                }
                return Err(msg);
            },
        };
        let id = match text::decode_block_id(&encoded) {
            Ok(id) => id,
            Err(e) => {
                assert(parse_block_line(lv[pos + 1 + block], block as int) is None);
                return Err(e);
            },
        };
        let ghost old_ids = block_ids@;
        block_ids[block] = id;
        assert forall|j: int| 0 <= j < block + 1 implies parse_block_line(lv[pos + 1 + j], j)
            == Some(#[trigger] block_ids@[j]@) by {
            if j < block {
                assert(block_ids@[j] == old_ids[j]);
            }
        }
        assert(block_ok(lv, pos as int, block as int));
        block += 1;
    }
    proof {
        lemma_first_block_error(lv, pos as int, logical_slot as nat, 0, BLOCKS_PER_SLOT as int);
    }
    expect_line(ls, pos + 5, "slot")?;
    if pos + 6 >= ls.len() {
        let mut msg = text::string_from("missing round1");
        text::push_str(&mut msg, " in slot ");
        text::push_decimal(&mut msg, logical_slot as u64);
        proof {
            assert(msg@ =~= slot_error(lv, pos as int, logical_slot as nat));
        }
        return Err(msg);
    }
    proof {
        text::lemma_line_view(ls, pos + 6);
    }
    let round1 = parse_round1(&ls[pos + 6], logical_slot)?;
    if pos + 7 >= ls.len() {
        let mut msg = text::string_from("missing round2");
        text::push_str(&mut msg, " in slot ");
        text::push_decimal(&mut msg, logical_slot as u64);
        proof {
            assert(msg@ =~= slot_error(lv, pos as int, logical_slot as nat));
        }
        return Err(msg);
    }
    proof {
        text::lemma_line_view(ls, pos + 7);
    }
    let round2 = parse_round2(&ls[pos + 7], logical_slot)?;
    expect_line(ls, pos + 8, "end-slot")?;
    let slot = Slot { block_ids, round1, round2 };
    proof {
        assert forall|j: int| 0 <= j < BLOCKS_PER_SLOT implies (#[trigger] parse_block_line(
            lv[pos + 1 + j],
            j,
        )) is Some by {
            assert(parse_block_line(lv[pos + 1 + j], j) == Some(block_ids@[j]@));
        }
        assert(slot_ok(lv, pos as int));
        let p = parsed_slot(lv, pos as int);
        assert(slot@.block_ids =~= p.block_ids) by {
            assert forall|j: int| 0 <= j < BLOCKS_PER_SLOT implies slot@.block_ids[j]
                == p.block_ids[j] by {
                assert(parse_block_line(lv[pos + 1 + j], j) == Some(block_ids@[j]@));
            }
        }
        assert(slot@ =~= p);
    }
    Ok(slot)
}

impl Scenario {
    /// Parses a scenario from its text format.
    pub fn parse(input: &str) -> (r: Result<Scenario, String>)
        ensures
            match r {
                Ok(sc) => parse_text(input@) == Some(sc@),
                Err(e) => parse_text(input@) is None && e@ == parse_error(text::lines(input@)),
            },
    {
        let chars = text::chars_of(input);
        let ls = text::split_lines(&chars);
        Self::from_lines(&ls)
    }

    /// Parses a scenario from the lines of its text.
    pub fn from_lines(ls: &Vec<Vec<char>>) -> (r: Result<Scenario, String>)
        ensures
            match r {
                Ok(sc) => parse_lines(ls.deep_view()) == Some(sc@),
                Err(e) => parse_lines(ls.deep_view()) is None && e@ == parse_error(ls.deep_view()),
            },
    {
        let ghost lv = ls.deep_view();
        expect_line(ls, 0, "committee:")?;
        let mut roles: Vec<Role> = Vec::new();
        let mut validator: usize = 0;
        while validator < VALIDATOR_COUNT
            invariant
                lv == ls.deep_view(),
                lv.len() > 0,
                lv[0] == "committee:"@,
                validator <= VALIDATOR_COUNT,
                1 + validator <= lv.len(),
                roles@.len() == validator,
                forall|i: int|
                    0 <= i < validator ==> parse_committee_line(lv[1 + i], i) == Some(
                        #[trigger] roles@[i],
                    ),
            decreases VALIDATOR_COUNT - validator,
        {
            proof {
                assert forall|q: int| 0 <= q < validator implies 1 + q < lv.len() && (#[trigger] parse_committee_line(lv[1 + q], q)) is Some by {
                    assert(parse_committee_line(lv[1 + q], q) == Some(roles@[q]));
                }
                lemma_first_committee_error(lv, 0, validator as int);
            }
            if 1 + validator >= ls.len() {
                let mut msg = text::string_from("missing committee line for ");
                push_v_name(&mut msg, validator as u64 + 1);
                return Err(msg);
            }
            proof {
                text::lemma_line_view(ls, 1 + validator as int);
            }
            let line = &ls[1 + validator];
            let role = match parse_committee(line, validator) {
                Ok(v) => v,
                Err(e) => {
                    assert(parse_committee_line(lv[1 + validator as int], validator as int) is None);
                    return Err(e);
                },
            };
            roles.push(role);
            validator += 1;
        }
        proof {
            assert forall|q: int| 0 <= q < VALIDATOR_COUNT implies 1 + q < lv.len() && (#[trigger] parse_committee_line(lv[1 + q], q)) is Some by {
                assert(parse_committee_line(lv[1 + q], q) == Some(roles@[q]));
            }
            lemma_first_committee_error(lv, 0, VALIDATOR_COUNT as int);
        }
        let mut slots: Vec<Slot> = Vec::new();
        let mut s: usize = 0;
        while s < NUM_SLOTS
            invariant
                lv == ls.deep_view(),
                lv.len() > 0,
                lv[0] == "committee:"@,
                first_committee_error(lv, 0) is None,
                roles@.len() == VALIDATOR_COUNT,
                forall|i: int|
                    0 <= i < VALIDATOR_COUNT ==> parse_committee_line(lv[1 + i], i) == Some(
                        #[trigger] roles@[i],
                    ),
                s <= NUM_SLOTS,
                1 + VALIDATOR_COUNT + 9 * s <= lv.len(),
                slots@.len() == s,
                forall|t: int| 0 <= t < s ==> #[trigger] slot_ok(lv, 1 + VALIDATOR_COUNT + 9 * t),
                forall|t: int|
                    0 <= t < s ==> (#[trigger] slots@[t])@ == parsed_slot(
                        lv,
                        1 + VALIDATOR_COUNT + 9 * t,
                    ),
            decreases NUM_SLOTS - s,
        {
            proof {
                assert forall|q: int| 0 <= q < s implies #[trigger] slot_fits(lv, q) by {
                    assert(slot_ok(lv, 1 + VALIDATOR_COUNT + 9 * q));
                }
                lemma_first_slot_error(lv, 0, s as int);
            }
            let slot = match parse_slot(ls, 1 + VALIDATOR_COUNT + 9 * s, s) {
                Ok(slot) => slot,
                Err(e) => {
                    assert(!slot_ok(lv, 1 + VALIDATOR_COUNT + 9 * s) || lv.len()
                        < scenario_lines());
                    assert(!slot_fits(lv, s as int));
                    return Err(e);
                },
            };
            assert(lv.len() == ls.len());
            let ghost old_slots = slots@;
            let ghost g = slot@;
            slots.push(slot);
            assert(slots@[s as int]@ == g);
            assert forall|t: int| 0 <= t < s + 1 implies (#[trigger] slots@[t])@ == parsed_slot(
                lv,
                1 + VALIDATOR_COUNT + 9 * t,
            ) by {
                if t < s {
                    assert(slots@[t] == old_slots[t]);
                }
            }
            s += 1;
        }
        proof {
            assert forall|q: int| 0 <= q < NUM_SLOTS implies #[trigger] slot_fits(lv, q) by {
                assert(slot_ok(lv, 1 + VALIDATOR_COUNT + 9 * q));
            }
            lemma_first_slot_error(lv, 0, NUM_SLOTS as int);
        }
        let mut k: usize = 1 + VALIDATOR_COUNT + 9 * NUM_SLOTS;
        while k < ls.len()
            invariant
                lv == ls.deep_view(),
                lv.len() > 0,
                lv[0] == "committee:"@,
                first_committee_error(lv, 0) is None,
                first_slot_error(lv, 0) is None,
                scenario_lines() <= k <= ls.len(),
                forall|j: int| scenario_lines() <= j < k ==> text::is_blank(#[trigger] lv[j]),
            decreases ls.len() - k,
        {
            proof {
                text::lemma_line_view(ls, k as int);
                lemma_first_trailing_error(lv, scenario_lines() as nat, k as int);
            }
            if !text::line_is_blank(&ls[k]) {
                let mut msg = text::string_from("unexpected trailing line: ");
                text::push_debug_chars(&mut msg, &ls[k]);
                return Err(msg);
            }
            k += 1;
        }
        let sc = Scenario { roles, slots };
        proof {
            assert(lv.len() == ls.len());
            assert(forall|i: int|
                0 <= i < VALIDATOR_COUNT ==> (#[trigger] parse_committee_line(lv[1 + i], i)) is Some) by {
                assert forall|i: int| 0 <= i < VALIDATOR_COUNT implies (#[trigger] parse_committee_line(lv[1 + i], i)) is Some by {
                    assert(parse_committee_line(lv[1 + i], i) == Some(roles@[i]));
                }
            }
            let m = parse_lines(lv)->0;
            assert(parse_lines(lv) is Some);
            assert(sc@.roles =~= m.roles);
            assert(sc@.slots =~= m.slots) by {
                assert forall|t: int| 0 <= t < NUM_SLOTS implies sc@.slots[t] == m.slots[t] by {
                    assert(slots@[t]@ == parsed_slot(lv, 1 + VALIDATOR_COUNT + 9 * t));
                }
            }
            assert(sc@ =~= m);
        }
        Ok(sc)
    }
}


// ---------------------------------------------------------------------------
// Validation
// ---------------------------------------------------------------------------
/// Whether the observer's first-round entry is exactly one notarization or
/// one skip.
pub open spec fn observer_vote_ok(votes: Seq<Vote>) -> bool {
    votes.len() == 1 && (votes[0] is Block || votes[0] is Skip)
}

/// A second-round vote as `{:?}` shows it.
pub open spec fn round2_debug_item(v: Round2Vote) -> Seq<char> {
    match v {
        Round2Vote::Notarize(b) => "Notarize("@ + text::decimal(b as nat) + ")"@,
        Round2Vote::Finalize => "Finalize"@,
        Round2Vote::NotarFallback(b) => "NotarFallback("@ + text::decimal(b as nat) + ")"@,
        Round2Vote::SkipFallback => "SkipFallback"@,
        Round2Vote::NoVote => "None"@,
    }
}

pub open spec fn round2_debug_items(votes: Seq<Round2Vote>) -> Seq<char>
    decreases votes.len(),
{
    if votes.len() == 0 {
        seq![]
    } else if votes.len() == 1 {
        round2_debug_item(votes[0])
    } else {
        round2_debug_items(votes.drop_last()) + ", "@ + round2_debug_item(votes.last())
    }
}

/// A list of second-round votes as `{:?}` shows it.
pub open spec fn round2_debug(votes: Seq<Round2Vote>) -> Seq<char> {
    "["@ + round2_debug_items(votes) + "]"@
}

pub open spec fn validator_count_message(n: nat) -> Seq<char> {
    "expected 100 validators, got "@ + text::decimal(n)
}

pub open spec fn slot_count_message(n: nat) -> Seq<char> {
    "expected 32 slots, got "@ + text::decimal(n)
}

pub open spec fn round1_count_message(slot: nat, n: nat) -> Seq<char> {
    "slot "@ + text::decimal(slot) + " has "@ + text::decimal(n) + " round1 assignments"@
}

pub open spec fn observer_message(slot: nat) -> Seq<char> {
    "v1 must have exactly one vote in slot "@ + text::decimal(slot)
}

pub open spec fn wrong_round2_message(slot: nat, expected: Seq<Round2Vote>, got: Seq<Round2Vote>) -> Seq<char> {
    "wrong round2 votes in slot "@ + text::decimal(slot) + ": expected "@ + round2_debug(expected)
        + ", got "@ + round2_debug(got)
}

/// The complaints about the slots, and whether the observer has skipped the
/// rest of the current leader window, slot by slot.
pub open spec fn slot_checks(slots: Seq<SlotView>) -> (Seq<Seq<char>>, bool)
    decreases slots.len(),
{
    if slots.len() == 0 {
        (seq![], false)
    } else {
        let (msgs, skipped) = slot_checks(slots.drop_last());
        let s = slots.len() - 1;
        let slot = slots.last();
        let skipped1 = if s % LEADER_WINDOW_SLOTS as int == 0 {
            false
        } else {
            skipped
        };
        if slot.round1.len() != VALIDATOR_COUNT {
            (msgs.push(round1_count_message(s as nat, slot.round1.len())), skipped1)
        } else if !observer_vote_ok(slot.round1[0]) {
            (msgs.push(observer_message(s as nat)), skipped1)
        } else {
            let (expected, skips) = round2_of(slot.round1, s, skipped1);
            (msgs + (if slot.round2 != expected {
                seq![wrong_round2_message(s as nat, expected, slot.round2)]
            } else {
                seq![]
            }), skipped1 || skips)
        }
    }
}

/// Every complaint that validation makes about a scenario, in order.
pub open spec fn violations_of(m: ScenarioView) -> Seq<Seq<char>> {
    if m.roles.len() != VALIDATOR_COUNT {
        seq![validator_count_message(m.roles.len())]
    } else {
        (if m.slots.len() != NUM_SLOTS {
            seq![slot_count_message(m.slots.len())]
        } else {
            seq![]
        }) + slot_checks(m.slots).0
    }
}

/// Whether the observer has skipped the rest of the leader window by slot
/// `s`: some earlier slot of the same window (of four slots) had it skip,
/// each slot simulated from its first round as the ones before it left the
/// observer.
pub open spec fn window_skipped(slots: Seq<SlotView>, s: int) -> bool
    decreases s,
{
    if s <= 0 || s % LEADER_WINDOW_SLOTS as int == 0 {
        false
    } else {
        window_skipped(slots, s - 1) || round2_of(
            slots[s - 1].round1,
            s - 1,
            window_skipped(slots, s - 1),
        ).1
    }
}

/// Whether every slot has a first-round vote set for each of the 100
/// validators and the observer's is a single block or skip.
pub open spec fn slots_simulated(slots: Seq<SlotView>) -> bool {
    forall|s: int|
        0 <= s < slots.len() ==> (#[trigger] slots[s]).round1.len() == VALIDATOR_COUNT
            && observer_vote_ok(slots[s].round1[0])
}

proof fn lemma_slot_checks_skipped(slots: Seq<SlotView>, n: int)
    requires
        0 <= n <= slots.len(),
        slots_simulated(slots),
    ensures
        n > 0 ==> slot_checks(slots.take(n)).1 == (window_skipped(slots, n - 1) || round2_of(
            slots[n - 1].round1,
            n - 1,
            window_skipped(slots, n - 1),
        ).1),
        n > 0 ==> (slot_checks(slots.take(n)).0.len() == 0 ==> slots[n - 1].round2 == round2_of(
            slots[n - 1].round1,
            n - 1,
            window_skipped(slots, n - 1),
        ).0),
        slot_checks(slots.take(n)).0.len() == 0 ==> forall|s: int|
            0 <= s < n ==> (#[trigger] slots[s]).round2 == round2_of(
                slots[s].round1,
                s,
                window_skipped(slots, s),
            ).0,
    decreases n,
{
    if n > 0 {
        lemma_slot_checks_skipped(slots, n - 1);
        let t = slots.take(n);
        assert(t.drop_last() =~= slots.take(n - 1));
        assert(t.last() == slots[n - 1]);
        assert(slots[n - 1].round1.len() == VALIDATOR_COUNT && observer_vote_ok(slots[n - 1].round1[0]));
        let prev = slot_checks(slots.take(n - 1));
        let skipped1 = if (n - 1) % LEADER_WINDOW_SLOTS as int == 0 {
            false
        } else {
            prev.1
        };
        assert(skipped1 == window_skipped(slots, n - 1));
        let (expected, skips) = round2_of(slots[n - 1].round1, n - 1, skipped1);
        assert(slot_checks(t).0 == prev.0 + (if slots[n - 1].round2 != expected {
            seq![wrong_round2_message((n - 1) as nat, expected, slots[n - 1].round2)]
        } else {
            seq![]
        }));
    }
}

/// Validation compares every slot's whole second round: a scenario of 100
/// validators whose slots each have a vote set for every validator and a
/// single block or skip from the observer is free of violations only if
/// each slot's second round is, vote for vote, what the observer's
/// simulation gives for it.
pub proof fn lemma_clean_scenario_round2(m: ScenarioView)
    requires
        m.roles.len() == VALIDATOR_COUNT,
        slots_simulated(m.slots),
        violations_of(m).len() == 0,
    ensures
        forall|s: int|
            0 <= s < m.slots.len() ==> (#[trigger] m.slots[s]).round2 == round2_of(
                m.slots[s].round1,
                s,
                window_skipped(m.slots, s),
            ).0,
{
    assert(m.slots.take(m.slots.len() as int) =~= m.slots);
    lemma_slot_checks_skipped(m.slots, m.slots.len() as int);
}

/// Whether every first-round notarization of every slot that validation
/// simulates names one of the slot's blocks (the simulation indexes its
/// counts by them). Validation simulates a slot only when there are 100
/// validators, the slot has a vote set for each and the observer's is a
/// single block or skip.
pub open spec fn simulatable(m: ScenarioView) -> bool {
    m.roles.len() == VALIDATOR_COUNT ==> forall|s: int, v: int|
        0 <= s < m.slots.len() && m.slots[s].round1.len() == VALIDATOR_COUNT && observer_vote_ok(
            m.slots[s].round1[0],
        ) && 0 <= v < m.slots[s].round1.len() ==> notarizations_in_range(
            #[trigger] m.slots[s].round1[v],
        )
}

fn push_round2_debug_item(out: &mut String, v: Round2Vote)
    ensures
        final(out)@ == old(out)@ + round2_debug_item(v),
{
    match v {
        Round2Vote::Notarize(b) => {
            text::push_str(out, "Notarize(");
            text::push_decimal(out, b as u64);
            text::push_str(out, ")");
        },
        Round2Vote::Finalize => text::push_str(out, "Finalize"),
        Round2Vote::NotarFallback(b) => {
            text::push_str(out, "NotarFallback(");
            text::push_decimal(out, b as u64);
            text::push_str(out, ")");
        },
        Round2Vote::SkipFallback => text::push_str(out, "SkipFallback"),
        Round2Vote::NoVote => text::push_str(out, "None"),
    }
    assert(final(out)@ =~= old(out)@ + round2_debug_item(v));
}

/// Appends a list of second-round votes as `{:?}` shows it.
pub fn push_round2_debug(out: &mut String, votes: &Vec<Round2Vote>)
    ensures
        final(out)@ == old(out)@ + round2_debug(votes@),
{
    text::push_str(out, "[");
    let ghost start = out@;
    let mut i: usize = 0;
    while i < votes.len()
        invariant
            i <= votes.len(),
            out@ == start + round2_debug_items(votes@.take(i as int)),
        decreases votes.len() - i,
    {
        let ghost t = votes@.take(i + 1);
        assert(t.drop_last() =~= votes@.take(i as int));
        if i != 0 {
            text::push_str(out, ", ");
        }
        push_round2_debug_item(out, votes[i]);
        proof {
            if i == 0 {
                assert(t[0] == votes@[0]);
                assert(round2_debug_items(votes@.take(0)) =~= Seq::<char>::empty());
            }
            assert(out@ =~= start + round2_debug_items(t));
        }
        i += 1;
    }
    assert(votes@.take(i as int) =~= votes@);
    text::push_str(out, "]");
    assert(final(out)@ =~= old(out)@ + round2_debug(votes@));
}

fn round2_equal(a: &Vec<Round2Vote>, b: &Vec<Round2Vote>) -> (r: bool)
    ensures
        r == (a@ == b@),
{
    if a.len() != b.len() {
        return false;
    }
    let mut i: usize = 0;
    while i < a.len()
        invariant
            a.len() == b.len(),
            i <= a.len(),
            forall|j: int| 0 <= j < i ==> a@[j] == b@[j],
        decreases a.len() - i,
    {
        if a[i] != b[i] {
            return false;
        }
        i += 1;
    }
    assert(a@ =~= b@);
    true
}

fn observer_vote_is_ok(votes: &Vec<Vote>) -> (r: bool)
    ensures
        r == observer_vote_ok(votes@),
{
    if votes.len() != 1 {
        return false;
    }
    match votes[0] {
        Vote::Block(_) | Vote::Skip => true,
        _ => false,
    }
}

impl Scenario {
    /// Checks the committee size, the slot count, every slot's first round
    /// and the observer's second round, and returns one message per
    /// violation.
    pub fn validate(&self) -> (violations: Vec<String>)
        requires
            simulatable(self@),
        ensures
            violations.deep_view() == violations_of(self@),
    {
        let ghost m = self@;
        let mut violations: Vec<String> = Vec::new();
        if self.roles.len() != VALIDATOR_COUNT {
            let mut msg = text::string_from("expected 100 validators, got ");
            text::push_decimal(&mut msg, self.roles.len() as u64);
            push_message(&mut violations, msg);
            assert(violations.deep_view() =~= violations_of(m));
            return violations;
        }
        if self.slots.len() != NUM_SLOTS {
            let mut msg = text::string_from("expected 32 slots, got ");
            text::push_decimal(&mut msg, self.slots.len() as u64);
            push_message(&mut violations, msg);
        }
        let ghost base = violations.deep_view();
        assert(base =~= (if m.slots.len() != NUM_SLOTS {
            seq![slot_count_message(m.slots.len())]
        } else {
            Seq::<Seq<char>>::empty()
        }));
        let mut observer_already_skipped = false;
        let mut logical_slot: usize = 0;
        assert(m.slots.take(0) =~= Seq::<SlotView>::empty());
        while logical_slot < self.slots.len()
            invariant
                m == self@,
                simulatable(m),
                m.roles.len() == VALIDATOR_COUNT,
                logical_slot <= self.slots.len(),
                violations.deep_view() == base + slot_checks(m.slots.take(logical_slot as int)).0,
                observer_already_skipped == slot_checks(m.slots.take(logical_slot as int)).1,
            decreases self.slots.len() - logical_slot,
        {
            let ghost t = m.slots.take(logical_slot + 1);
            assert(t.drop_last() =~= m.slots.take(logical_slot as int));
            assert(t.last() == m.slots[logical_slot as int]);
            let slot = &self.slots[logical_slot];
            assert(slot@ == m.slots[logical_slot as int]);
            if logical_slot % LEADER_WINDOW_SLOTS == 0 {
                observer_already_skipped = false;
            }
            if slot.round1.len() != VALIDATOR_COUNT {
                let mut msg = text::string_from("slot ");
                text::push_decimal(&mut msg, logical_slot as u64);
                text::push_str(&mut msg, " has ");
                text::push_decimal(&mut msg, slot.round1.len() as u64);
                text::push_str(&mut msg, " round1 assignments");
                push_message(&mut violations, msg);
                logical_slot += 1;
                continue;
            }
            assert(slot@.round1[0] == slot.round1@[0]@);
            if !observer_vote_is_ok(&slot.round1[0]) {
                let mut msg = text::string_from("v1 must have exactly one vote in slot ");
                text::push_decimal(&mut msg, logical_slot as u64);
                push_message(&mut violations, msg);
                logical_slot += 1;
                continue;
            }
            assert forall|i: int| 0 <= i < slot.round1@.len() implies notarizations_in_range(#[trigger] slot.round1@[i]@) by {
                assert(slot.round1@[i]@ == m.slots[logical_slot as int].round1[i]);
            }
            let (expected_round2, skips_rest_of_window) = simulate_round2(
                &slot.round1,
                logical_slot,
                observer_already_skipped,
            );
            if !round2_equal(&slot.round2, &expected_round2) {
                let mut msg = text::string_from("wrong round2 votes in slot ");
                text::push_decimal(&mut msg, logical_slot as u64);
                text::push_str(&mut msg, ": expected ");
                push_round2_debug(&mut msg, &expected_round2);
                text::push_str(&mut msg, ", got ");
                push_round2_debug(&mut msg, &slot.round2);
                push_message(&mut violations, msg);
            }
            observer_already_skipped = observer_already_skipped || skips_rest_of_window;
            assert(violations.deep_view() =~= base + slot_checks(t).0);
            logical_slot += 1;
        }
        assert(m.slots.take(logical_slot as int) =~= m.slots);
        assert(violations.deep_view() =~= violations_of(m));
        violations
    }
}


// ---------------------------------------------------------------------------
// The shape of the simulated second round
// ---------------------------------------------------------------------------
pub open spec fn ind(b: bool) -> int {
    if b {
        1
    } else {
        0
    }
}

/// Number of blocks announced safe to notarize.
pub open spec fn count4(s: Seq<bool>) -> int {
    ind(s[0]) + ind(s[1]) + ind(s[2]) + ind(s[3])
}

/// Whether the observer has notarized a block.
pub open spec fn observer_notarized(st: SimState) -> bool {
    st.observer_vote matches Some(Vote::Block(_))
}

/// Whether a second-round vote names one of the slot's blocks and is not
/// `none`.
pub open spec fn emitted_ok(v: Round2Vote) -> bool {
    v != Round2Vote::NoVote && (round2_block(v) matches Some(b) ==> b < BLOCKS_PER_SLOT)
}

/// What holds of the simulation at every step: which announcements have
/// been made, and how many votes they have emitted.
pub open spec fn sim_inv(st: SimState, first: bool) -> bool {
    &&& well_shaped(st)
    &&& (st.observer_vote is None || st.observer_vote->0 is Block || st.observer_vote->0 is Skip)
    &&& (st.observer_vote matches Some(Vote::Block(b)) ==> b < BLOCKS_PER_SLOT)
    &&& forall|b: int|
        0 <= b < BLOCKS_PER_SLOT ==> (#[trigger] st.safe_to_notar_sent[b] ==> st.observer_vote is Some
            && st.observer_vote != Some(Vote::Block(b as usize)))
    &&& (st.safe_to_skip_sent ==> observer_notarized(st))
    &&& st.pending_safe_to_notar.len() == (if first {
        0
    } else {
        count4(st.safe_to_notar_sent)
    })
    &&& forall|k: int|
        0 <= k < st.pending_safe_to_notar.len() ==> #[trigger] st.pending_safe_to_notar[k]
            < BLOCKS_PER_SLOT
    &&& forall|k: int| 0 <= k < st.emitted.len() ==> emitted_ok(#[trigger] st.emitted[k])
    &&& st.emitted.len() <= ind(observer_notarized(st)) + (if first {
        count4(st.safe_to_notar_sent)
    } else {
        0
    }) + ind(st.safe_to_skip_sent) + ind(st.its_over)
    &&& (!st.bad_window && !st.its_over ==> st.emitted.len() <= ind(observer_notarized(st)))
    &&& (st.its_over ==> st.emitted.len() <= 2 && observer_notarized(st))
    &&& (st.observer_vote is None ==> st.emitted.len() == 0 && count4(st.safe_to_notar_sent) == 0
        && !st.safe_to_skip_sent && !st.its_over && st.pending_safe_to_notar.len() == 0)
}

proof fn lemma_notar_check_inv(st: SimState, observer: Vote, first: bool, block: int)
    requires
        sim_inv(st, first),
        st.observer_vote == Some(observer),
        0 <= block < BLOCKS_PER_SLOT,
    ensures
        sim_inv(notar_check(st, observer, first, block), first),
        notar_check(st, observer, first, block).observer_vote == st.observer_vote,
        notar_check(st, observer, first, block).its_over == st.its_over,
        notar_check(st, observer, first, block).safe_to_skip_sent == st.safe_to_skip_sent,
        notar_check(st, observer, first, block).block_counts == st.block_counts,
        notar_check(st, observer, first, block).skip_count == st.skip_count,
{
    let r = notar_check(st, observer, first, block);
    if safe_to_notar(st, observer, block) {
        assert(r.safe_to_notar_sent =~= st.safe_to_notar_sent.update(block, true));
        assert(count4(r.safe_to_notar_sent) == count4(st.safe_to_notar_sent) + 1);
        assert forall|b: int| 0 <= b < BLOCKS_PER_SLOT && #[trigger] r.safe_to_notar_sent[b] implies
            r.observer_vote is Some && r.observer_vote != Some(Vote::Block(b as usize)) by {
            if b != block {
                assert(r.safe_to_notar_sent[b] == st.safe_to_notar_sent[b]);
            }
        }
        assert forall|k: int| 0 <= k < r.emitted.len() implies emitted_ok(#[trigger] r.emitted[k]) by {
            if k < st.emitted.len() {
                assert(r.emitted[k] == st.emitted[k]);
            }
        }
        assert forall|k: int| 0 <= k < r.pending_safe_to_notar.len() implies #[trigger] r.pending_safe_to_notar[k]
            < BLOCKS_PER_SLOT by {
            if k < st.pending_safe_to_notar.len() {
                assert(r.pending_safe_to_notar[k] == st.pending_safe_to_notar[k]);
            }
        }
    }
}

proof fn lemma_notar_checks_inv(st: SimState, observer: Vote, first: bool, n: nat)
    requires
        sim_inv(st, first),
        st.observer_vote == Some(observer),
        n <= BLOCKS_PER_SLOT,
    ensures
        sim_inv(notar_checks(st, observer, first, n), first),
        notar_checks(st, observer, first, n).observer_vote == st.observer_vote,
        notar_checks(st, observer, first, n).its_over == st.its_over,
        notar_checks(st, observer, first, n).safe_to_skip_sent == st.safe_to_skip_sent,
        notar_checks(st, observer, first, n).block_counts == st.block_counts,
        notar_checks(st, observer, first, n).skip_count == st.skip_count,
    decreases n,
{
    if n > 0 {
        lemma_notar_checks_inv(st, observer, first, (n - 1) as nat);
        lemma_notar_check_inv(notar_checks(st, observer, first, (n - 1) as nat), observer, first, n - 1);
    }
}

proof fn lemma_react_inv(st: SimState, observer: Vote, accepted: Vote, first: bool)
    requires
        sim_inv(st, first),
        st.observer_vote == Some(observer),
        accepted is Skip || (accepted matches Vote::Block(b) && b < BLOCKS_PER_SLOT),
    ensures
        sim_inv(react(st, observer, accepted, first), first),
        react(st, observer, accepted, first).observer_vote == st.observer_vote,
{
    lemma_notar_checks_inv(st, observer, first, 4);
    let st3 = notar_checks(st, observer, first, 4);
    let safe_to_skip = !st3.safe_to_skip_sent && observer is Block && st3.skip_count
        + total_notarized(st3.block_counts) - top_notarized(st3.block_counts) >= SAFE_VALIDATORS;
    let st4 = if safe_to_skip {
        let s = SimState { safe_to_skip_sent: true, skips_rest_of_window: true, ..st3 };
        if !s.its_over {
            SimState { emitted: s.emitted.push(Round2Vote::SkipFallback), bad_window: true, ..s }
        } else {
            s
        }
    } else {
        st3
    };
    assert(sim_inv(st4, first)) by {
        if safe_to_skip {
            assert(observer_notarized(st3));
            assert forall|k: int| 0 <= k < st4.emitted.len() implies emitted_ok(#[trigger] st4.emitted[k]) by {
                if k < st3.emitted.len() {
                    assert(st4.emitted[k] == st3.emitted[k]);
                }
            }
        }
    }
    match accepted {
        Vote::Block(block) => {
            if st4.block_counts[block as int] == QUORUM_VALIDATORS && observer == Vote::Block(block)
                && !st4.bad_window && !st4.its_over {
                let r = SimState { emitted: st4.emitted.push(Round2Vote::Finalize), its_over: true, ..st4 };
                assert(observer_notarized(st4));
                assert forall|k: int| 0 <= k < r.emitted.len() implies emitted_ok(#[trigger] r.emitted[k]) by {
                    if k < st4.emitted.len() {
                        assert(r.emitted[k] == st4.emitted[k]);
                    }
                }
                assert(sim_inv(r, first));
            }
        },
        _ => {},
    }
}

proof fn lemma_after_accept_inv(st: SimState, validator: int, a: Vote, first: bool)
    requires
        sim_inv(st, first),
        a is Skip || (a matches Vote::Block(b) && b < BLOCKS_PER_SLOT),
        validator == 0 ==> st.observer_vote is None,
    ensures
        sim_inv(after_accept(st, validator, a, first), first),
        validator != 0 ==> after_accept(st, validator, a, first).observer_vote == st.observer_vote,
{
    let st1 = if validator == 0 {
        match a {
            Vote::Block(block) => SimState {
                observer_vote: Some(a),
                emitted: st.emitted.push(Round2Vote::Notarize(block)),
                ..st
            },
            Vote::Skip => SimState {
                observer_vote: Some(a),
                bad_window: true,
                skips_rest_of_window: true,
                ..st
            },
            _ => SimState { observer_vote: Some(a), ..st },
        }
    } else {
        st
    };
    assert(sim_inv(st1, first)) by {
        if validator == 0 {
            assert(st.emitted.len() == 0);
            assert(count4(st.safe_to_notar_sent) == 0);
            assert forall|b: int| 0 <= b < BLOCKS_PER_SLOT implies !st.safe_to_notar_sent[b] by {}
            assert forall|k: int| 0 <= k < st1.emitted.len() implies emitted_ok(#[trigger] st1.emitted[k]) by {}
        }
    }
    let st2 = match a {
        Vote::Block(block) => SimState {
            block_counts: st1.block_counts.update(block as int, st1.block_counts[block as int] + 1),
            ..st1
        },
        Vote::Skip => SimState { skip_count: st1.skip_count + 1, ..st1 },
        _ => st1,
    };
    assert(sim_inv(st2, first));
    if let Some(observer) = st2.observer_vote {
        lemma_react_inv(st2, observer, a, first);
    }
}

proof fn lemma_run_votes_inv(st: SimState, h: History, validator: int, votes: Seq<Vote>, first: bool)
    requires
        sim_inv(st, first),
        notarizations_in_range(votes),
        validator == 0 && fresh(h) ==> st.observer_vote is None,
    ensures
        sim_inv(run_votes(st, h, validator, votes, first).0, first),
        validator == 0 && fresh(run_votes(st, h, validator, votes, first).1) ==> run_votes(
            st,
            h,
            validator,
            votes,
            first,
        ).0.observer_vote is None,
    decreases votes.len(),
{
    if votes.len() > 0 {
        assert(notarizations_in_range(votes.drop_last())) by {
            assert forall|j: int| 0 <= j < votes.drop_last().len() implies (#[trigger] votes.drop_last()[j] matches Vote::Block(b) ==> b < BLOCKS_PER_SLOT) by {
                assert(votes.drop_last()[j] == votes[j]);
            }
        }
        lemma_run_votes_inv(st, h, validator, votes.drop_last(), first);
        let (s1, h1) = run_votes(st, h, validator, votes.drop_last(), first);
        assert(votes[votes.len() - 1] matches Vote::Block(b) ==> b < BLOCKS_PER_SLOT);
        let (h2, acc) = accept(h1, votes.last());
        if let Some(a) = acc {
            assert(fresh(h1));
            lemma_after_accept_inv(s1, validator, a, first);
        }
    }
}

proof fn lemma_run_validators_inv(st: SimState, round1: Seq<Seq<Vote>>, skipped: bool, first: bool)
    requires
        sim_inv(st, first),
        forall|i: int| 0 <= i < round1.len() ==> notarizations_in_range(#[trigger] round1[i]),
        !skipped ==> st.observer_vote is None,
    ensures
        sim_inv(run_validators(st, round1, skipped, first), first),
    decreases round1.len(),
{
    if round1.len() > 0 {
        assert forall|i: int| 0 <= i < round1.drop_last().len() implies notarizations_in_range(#[trigger] round1.drop_last()[i]) by {
            assert(round1.drop_last()[i] == round1[i]);
        }
        lemma_run_validators_inv(st, round1.drop_last(), skipped, first);
        let s1 = run_validators(st, round1.drop_last(), skipped, first);
        let validator = round1.len() - 1;
        if !(skipped && validator == 0) {
            assert(notarizations_in_range(round1[round1.len() - 1]));
            if validator == 0 {
                assert(round1.drop_last().len() == 0);
                assert(s1 == st);
            }
            lemma_run_votes_inv(s1, empty_history(), validator, round1.last(), first);
        }
    }
}

// ---------------------------------------------------------------------------
// Safety to skip, over the counted first-round votes
// ---------------------------------------------------------------------------
/// How many times `v` occurs in `votes`.
pub open spec fn occurrences(votes: Seq<Vote>, v: Vote) -> nat
    decreases votes.len(),
{
    if votes.len() == 0 {
        0
    } else {
        occurrences(votes.drop_last(), v) + if votes.last() == v {
            1nat
        } else {
            0nat
        }
    }
}

/// The primary votes that count, validator after validator: for each, the
/// notarization or skip among its votes that its history lets count.
pub open spec fn counted_primaries(round1: Seq<Seq<Vote>>) -> Seq<Vote>
    decreases round1.len(),
{
    if round1.len() == 0 {
        seq![]
    } else {
        counted_primaries(round1.drop_last()) + accept_all(empty_history(), round1.last()).1
    }
}

proof fn lemma_occurrences_concat(a: Seq<Vote>, b: Seq<Vote>, v: Vote)
    ensures
        occurrences(a + b, v) == occurrences(a, v) + occurrences(b, v),
    decreases b.len(),
{
    if b.len() == 0 {
        assert(a + b =~= a);
    } else {
        assert((a + b).drop_last() =~= a + b.drop_last());
        lemma_occurrences_concat(a, b.drop_last(), v);
    }
}

/// Whether skip votes and the notarizations of all blocks but the most
/// notarized one reach the safe-to-skip threshold.
spec fn skip_safe(st: SimState) -> bool {
    st.skip_count + total_notarized(st.block_counts) - top_notarized(st.block_counts) >= SAFE_VALIDATORS
}

/// Whether the observer has announced a skip-fallback, or finalized.
spec fn announced(st: SimState) -> bool {
    st.emitted.contains(Round2Vote::SkipFallback) || st.emitted.contains(Round2Vote::Finalize)
}

/// Whether block `b` has enough counted notarizations, alone or with the
/// skip votes, to be safe to notarize.
spec fn notar_ready(st: SimState, b: int) -> bool {
    st.block_counts[b] >= SAFE_VALIDATORS || (st.block_counts[b] >= MIN_NOTARIZE_VALIDATORS
        && st.skip_count + st.block_counts[b] >= QUORUM_VALIDATORS)
}

/// Whether block `b` has been announced safe to notarize, now or at the
/// end of the slot, or the slot finalized.
spec fn notar_announced(st: SimState, b: int) -> bool {
    st.emitted.contains(Round2Vote::NotarFallback(b as usize)) || st.pending_safe_to_notar.contains(
        b as usize,
    ) || st.emitted.contains(Round2Vote::Finalize)
}

/// What every step of the simulation keeps about the announcements.
spec fn skip_kept(st: SimState) -> bool {
    &&& (st.safe_to_skip_sent ==> st.skips_rest_of_window && announced(st))
    &&& (st.its_over ==> st.emitted.contains(Round2Vote::Finalize))
    &&& st.safe_to_notar_sent.len() == BLOCKS_PER_SLOT
    &&& forall|b: int|
        0 <= b < BLOCKS_PER_SLOT && #[trigger] st.safe_to_notar_sent[b] ==> st.skips_rest_of_window
            && notar_announced(st, b)
}

spec fn skip_inv(st: SimState) -> bool {
    &&& skip_kept(st)
    &&& (st.observer_vote matches Some(Vote::Block(_)) && skip_safe(st) ==> st.safe_to_skip_sent)
    &&& forall|b: int|
        0 <= b < BLOCKS_PER_SLOT && st.observer_vote is Some && st.observer_vote->0 != Vote::Block(
            b as usize,
        ) && notar_ready(st, b) ==> #[trigger] st.safe_to_notar_sent[b]
}

proof fn lemma_push_contains<A>(s: Seq<A>, y: A, x: A)
    ensures
        s.contains(x) ==> s.push(y).contains(x),
        s.push(y).contains(y),
{
    if s.contains(x) {
        let i = choose|i: int| 0 <= i < s.len() && s[i] == x;
        assert(s.push(y)[i] == x);
    }
    assert(s.push(y)[s.len() as int] == y);
}

/// Pushing onto the announcements keeps every announcement made.
proof fn lemma_announced_push(st: SimState, e: Seq<Round2Vote>, p: Seq<usize>)
    requires
        forall|x: Round2Vote| st.emitted.contains(x) ==> e.contains(x),
        forall|x: usize| st.pending_safe_to_notar.contains(x) ==> p.contains(x),
    ensures
        announced(st) ==> announced(SimState { emitted: e, pending_safe_to_notar: p, ..st }),
        forall|b: int| notar_announced(st, b) ==> #[trigger] notar_announced(SimState { emitted: e, pending_safe_to_notar: p, ..st }, b),
{
}

proof fn lemma_notar_check_kept(st: SimState, observer: Vote, first: bool, block: int)
    requires
        skip_kept(st),
        0 <= block < BLOCKS_PER_SLOT,
    ensures
        skip_kept(notar_check(st, observer, first, block)),
        notar_check(st, observer, first, block).block_counts == st.block_counts,
        notar_check(st, observer, first, block).skip_count == st.skip_count,
        notar_check(st, observer, first, block).observer_vote == st.observer_vote,
        notar_check(st, observer, first, block).safe_to_skip_sent == st.safe_to_skip_sent,
        notar_check(st, observer, first, block).its_over == st.its_over,
        forall|b: int|
            0 <= b < BLOCKS_PER_SLOT && #[trigger] st.safe_to_notar_sent[b] ==> notar_check(
                st,
                observer,
                first,
                block,
            ).safe_to_notar_sent[b],
        observer != Vote::Block(block as usize) && notar_ready(st, block) ==> notar_check(
            st,
            observer,
            first,
            block,
        ).safe_to_notar_sent[block],
{
    let r = notar_check(st, observer, first, block);
    if safe_to_notar(st, observer, block) {
        let nf = Round2Vote::NotarFallback(block as usize);
        assert forall|x: Round2Vote| st.emitted.contains(x) implies r.emitted.contains(x) by {
            lemma_push_contains(st.emitted, nf, x);
        }
        assert forall|x: usize| st.pending_safe_to_notar.contains(x) implies r.pending_safe_to_notar.contains(x) by {
            lemma_push_contains(st.pending_safe_to_notar, block as usize, x);
        }
        lemma_announced_push(st, r.emitted, r.pending_safe_to_notar);
        lemma_push_contains(st.emitted, nf, nf);
        lemma_push_contains(st.pending_safe_to_notar, block as usize, block as usize);
        assert(notar_announced(r, block));
        assert forall|b: int| 0 <= b < BLOCKS_PER_SLOT && #[trigger] r.safe_to_notar_sent[b] implies r.skips_rest_of_window
            && notar_announced(r, b) by {
            if b != block {
                assert(st.safe_to_notar_sent[b]);
                assert(notar_announced(st, b));
                assert(r.emitted == st.emitted || r.emitted == st.emitted.push(nf));
            }
        }
        assert forall|b: int| 0 <= b < BLOCKS_PER_SLOT && #[trigger] st.safe_to_notar_sent[b] implies r.safe_to_notar_sent[b] by {
            if b != block {
                assert(r.safe_to_notar_sent[b] == st.safe_to_notar_sent[b]);
            }
        }
    }
}

proof fn lemma_notar_checks_kept(st: SimState, observer: Vote, first: bool, n: nat)
    requires
        skip_kept(st),
        n <= BLOCKS_PER_SLOT,
    ensures
        skip_kept(notar_checks(st, observer, first, n)),
        notar_checks(st, observer, first, n).block_counts == st.block_counts,
        notar_checks(st, observer, first, n).skip_count == st.skip_count,
        notar_checks(st, observer, first, n).observer_vote == st.observer_vote,
        notar_checks(st, observer, first, n).safe_to_skip_sent == st.safe_to_skip_sent,
        notar_checks(st, observer, first, n).its_over == st.its_over,
        forall|b: int|
            0 <= b < BLOCKS_PER_SLOT && #[trigger] st.safe_to_notar_sent[b] ==> notar_checks(
                st,
                observer,
                first,
                n,
            ).safe_to_notar_sent[b],
        forall|b: int|
            0 <= b < n && observer != Vote::Block(b as usize) && notar_ready(st, b) ==> #[trigger] notar_checks(
                st,
                observer,
                first,
                n,
            ).safe_to_notar_sent[b],
    decreases n,
{
    if n > 0 {
        lemma_notar_checks_kept(st, observer, first, (n - 1) as nat);
        let prev = notar_checks(st, observer, first, (n - 1) as nat);
        lemma_notar_check_kept(prev, observer, first, n - 1);
        assert forall|b: int| 0 <= b < n && observer != Vote::Block(b as usize) && notar_ready(st, b) implies #[trigger] notar_checks(
            st,
            observer,
            first,
            n,
        ).safe_to_notar_sent[b] by {
            if b < n - 1 {
                assert(prev.safe_to_notar_sent[b]);
            } else {
                assert(notar_ready(prev, b));
            }
        }
    }
}

proof fn lemma_react_skip(st: SimState, observer: Vote, accepted: Vote, first: bool)
    requires
        skip_kept(st),
        st.observer_vote == Some(observer),
    ensures
        skip_inv(react(st, observer, accepted, first)),
        react(st, observer, accepted, first).block_counts == st.block_counts,
        react(st, observer, accepted, first).skip_count == st.skip_count,
        react(st, observer, accepted, first).observer_vote == st.observer_vote,
{
    lemma_notar_checks_kept(st, observer, first, 4);
    let st3 = notar_checks(st, observer, first, 4);
    let safe_to_skip = !st3.safe_to_skip_sent && observer is Block && skip_safe(st3);
    let st4 = if safe_to_skip {
        let s = SimState { safe_to_skip_sent: true, skips_rest_of_window: true, ..st3 };
        if !s.its_over {
            SimState { emitted: s.emitted.push(Round2Vote::SkipFallback), bad_window: true, ..s }
        } else {
            s
        }
    } else {
        st3
    };
    assert forall|x: Round2Vote| st3.emitted.contains(x) implies st4.emitted.contains(x) by {
        lemma_push_contains(st3.emitted, Round2Vote::SkipFallback, x);
    }
    lemma_announced_push(st3, st4.emitted, st4.pending_safe_to_notar);
    lemma_push_contains(st3.emitted, Round2Vote::SkipFallback, Round2Vote::SkipFallback);
    assert(skip_kept(st4));
    assert(skip_inv(st4));
    let r = react(st, observer, accepted, first);
    assert forall|x: Round2Vote| st4.emitted.contains(x) implies r.emitted.contains(x) by {
        lemma_push_contains(st4.emitted, Round2Vote::Finalize, x);
    }
    lemma_announced_push(st4, r.emitted, r.pending_safe_to_notar);
    lemma_push_contains(st4.emitted, Round2Vote::Finalize, Round2Vote::Finalize);
}

proof fn lemma_accept_primary_vote(h: History, vote: Vote)
    ensures
        accept(h, vote).1 matches Some(a) ==> a == vote && (vote is Block || vote is Skip),
{
}

proof fn lemma_after_accept_skip(st: SimState, validator: int, a: Vote, first: bool)
    requires
        skip_kept(st),
        st.block_counts.len() == BLOCKS_PER_SLOT,
        a is Skip || (a matches Vote::Block(b) && b < BLOCKS_PER_SLOT),
    ensures
        ({
            let r = after_accept(st, validator, a, first);
            &&& skip_inv(r)
            &&& r.block_counts.len() == BLOCKS_PER_SLOT
            &&& forall|b: int| 0 <= b < BLOCKS_PER_SLOT ==> #[trigger] r.block_counts[b] == st.block_counts[b]
                + if a == Vote::Block(b as usize) {
                1int
            } else {
                0int
            }
            &&& r.skip_count == st.skip_count + if a == Vote::Skip {
                1int
            } else {
                0int
            }
            &&& validator != 0 ==> r.observer_vote == st.observer_vote
            &&& validator == 0 ==> r.observer_vote == Some(a)
        }),
{
    let st1 = if validator == 0 {
        match a {
            Vote::Block(block) => SimState {
                observer_vote: Some(a),
                emitted: st.emitted.push(Round2Vote::Notarize(block)),
                ..st
            },
            Vote::Skip => SimState {
                observer_vote: Some(a),
                bad_window: true,
                skips_rest_of_window: true,
                ..st
            },
            _ => SimState { observer_vote: Some(a), ..st },
        }
    } else {
        st
    };
    assert forall|x: Round2Vote| st.emitted.contains(x) implies st1.emitted.contains(x) by {
        if let Vote::Block(block) = a {
            lemma_push_contains(st.emitted, Round2Vote::Notarize(block), x);
        }
    }
    lemma_announced_push(st, st1.emitted, st1.pending_safe_to_notar);
    assert(skip_kept(st1));
    let st2 = match a {
        Vote::Block(block) => SimState {
            block_counts: st1.block_counts.update(block as int, st1.block_counts[block as int] + 1),
            ..st1
        },
        Vote::Skip => SimState { skip_count: st1.skip_count + 1, ..st1 },
        _ => st1,
    };
    assert(skip_kept(st2));
    match st2.observer_vote {
        Some(observer) => {
            lemma_react_skip(st2, observer, a, first);
        },
        None => {},
    }
}

proof fn lemma_run_votes_skip(st: SimState, h: History, validator: int, votes: Seq<Vote>, first: bool)
    requires
        skip_inv(st),
        st.block_counts.len() == BLOCKS_PER_SLOT,
        notarizations_in_range(votes),
        validator != 0,
    ensures
        ({
            let (r, h2) = run_votes(st, h, validator, votes, first);
            let counted = accept_all(h, votes).1;
            &&& h2 == accept_all(h, votes).0
            &&& skip_inv(r)
            &&& r.block_counts.len() == BLOCKS_PER_SLOT
            &&& forall|b: int| 0 <= b < BLOCKS_PER_SLOT ==> #[trigger] r.block_counts[b] == st.block_counts[b]
                + occurrences(counted, Vote::Block(b as usize))
            &&& r.skip_count == st.skip_count + occurrences(counted, Vote::Skip)
            &&& r.observer_vote == st.observer_vote
        }),
    decreases votes.len(),
{
    if votes.len() > 0 {
        let d = votes.drop_last();
        assert forall|j: int| 0 <= j < d.len() implies (#[trigger] d[j] matches Vote::Block(b) ==> b < BLOCKS_PER_SLOT) by {
            assert(d[j] == votes[j]);
        }
        lemma_run_votes_skip(st, h, validator, d, first);
        let (s1, h1) = run_votes(st, h, validator, d, first);
        let (ha, counted0) = accept_all(h, d);
        let last = votes.last();
        assert(last == votes[votes.len() - 1]);
        lemma_accept_primary_vote(h1, last);
        let (h2, acc) = accept(h1, last);
        match acc {
            Some(a) => {
                lemma_after_accept_skip(s1, validator, a, first);
                assert((counted0.push(a)).drop_last() =~= counted0);
            },
            None => {},
        }
    }
}

proof fn lemma_run_validators_skip(round1: Seq<Seq<Vote>>, first: bool, o: Vote)
    requires
        round1.len() >= 1,
        round1[0] == seq![o],
        o is Skip || (o matches Vote::Block(b) && b < BLOCKS_PER_SLOT),
        forall|v: int| 0 <= v < round1.len() ==> notarizations_in_range(#[trigger] round1[v]),
    ensures
        ({
            let st = run_validators(initial_state(false), round1, false, first);
            let p = counted_primaries(round1);
            &&& skip_inv(st)
            &&& st.block_counts.len() == BLOCKS_PER_SLOT
            &&& forall|b: int| 0 <= b < BLOCKS_PER_SLOT ==> #[trigger] st.block_counts[b] == occurrences(
                p,
                Vote::Block(b as usize),
            )
            &&& st.skip_count == occurrences(p, Vote::Skip)
            &&& st.observer_vote == Some(o)
        }),
    decreases round1.len(),
{
    let init = initial_state(false);
    let d = round1.drop_last();
    if round1.len() == 1 {
        let votes = round1.last();
        assert(votes == seq![o]);
        assert(run_validators(init, d, false, first) == init);
        assert(votes.drop_last() =~= Seq::<Vote>::empty());
        assert(votes.last() == o);
        assert(skip_kept(init));
        let h0 = empty_history();
        assert(h0.notarize_fallback =~= Seq::<usize>::empty());
        assert(forall|x: usize| !h0.notarize_fallback.contains(x));
        assert(accept(h0, o).1 == Some(o));
        assert(accept_all(h0, votes.drop_last()) == (h0, Seq::<Vote>::empty()));
        assert(run_votes(init, h0, 0, votes.drop_last(), first) == (init, h0));
        assert(run_votes(init, h0, 0, votes, first).0 == after_accept(init, 0, o, first));
        assert(run_validators(init, round1, false, first) == run_votes(init, h0, 0, votes, first).0);
        lemma_after_accept_skip(init, 0, o, first);
        let p = counted_primaries(round1);
        assert(counted_primaries(d) =~= Seq::<Vote>::empty());
        assert(accept_all(empty_history(), votes).1 == seq![o]);
        assert(p =~= seq![o]);
        assert(seq![o].drop_last() =~= Seq::<Vote>::empty());
        assert(p.drop_last() =~= Seq::<Vote>::empty());
        assert(p.last() == o);
        assert(occurrences(p.drop_last(), Vote::Skip) == 0);
        let st = run_validators(init, round1, false, first);
        assert(skip_inv(st));
        assert(st.observer_vote == Some(o));
        assert(st.skip_count == occurrences(p, Vote::Skip));
        assert forall|b: int| 0 <= b < BLOCKS_PER_SLOT implies #[trigger] st.block_counts[b] == occurrences(
            p,
            Vote::Block(b as usize),
        ) by {
            assert(init.block_counts[b] == 0);
            assert(occurrences(p.drop_last(), Vote::Block(b as usize)) == 0);
            assert(occurrences(p, Vote::Block(b as usize)) == if o == Vote::Block(b as usize) {
                1nat
            } else {
                0nat
            });
        }
    } else {
        assert forall|v: int| 0 <= v < d.len() implies notarizations_in_range(#[trigger] d[v]) by {
            assert(d[v] == round1[v]);
        }
        assert(d[0] == round1[0]);
        lemma_run_validators_skip(d, first, o);
        let s1 = run_validators(init, d, false, first);
        let votes = round1.last();
        assert(votes == round1[round1.len() - 1]);
        lemma_run_votes_skip(s1, empty_history(), round1.len() - 1, votes, first);
        let p = counted_primaries(round1);
        let counted = accept_all(empty_history(), votes).1;
        assert forall|b: int| 0 <= b < BLOCKS_PER_SLOT implies #[trigger] occurrences(p, Vote::Block(b as usize))
            == occurrences(counted_primaries(d), Vote::Block(b as usize)) + occurrences(counted, Vote::Block(b as usize)) by {
            lemma_occurrences_concat(counted_primaries(d), counted, Vote::Block(b as usize));
        }
        lemma_occurrences_concat(counted_primaries(d), counted, Vote::Skip);
    }
}

proof fn lemma_top_is_a_count(c: Seq<int>)
    requires
        c.len() == BLOCKS_PER_SLOT,
    ensures
        exists|b: int| 0 <= b < BLOCKS_PER_SLOT && top_notarized(c) == #[trigger] c[b],
{
    if top_notarized(c) == c[0] {
        assert(top_notarized(c) == c[0]);
    } else if top_notarized(c) == c[1] {
        assert(top_notarized(c) == c[1]);
    } else if top_notarized(c) == c[2] {
        assert(top_notarized(c) == c[2]);
    } else {
        assert(top_notarized(c) == c[3]);
    }
}

/// Safety to skip: when the observer (`v1`) notarizes a block of a slot
/// whose window it has not skipped, and the counted skip votes together with
/// the counted notarizations of all blocks but any single one reach 40
/// (skips plus the notarizations of all but the most notarized block), the
/// observer skips the rest of the window, and its second round announces a
/// skip-fallback, unless the slot was already finalized.
pub proof fn lemma_safe_to_skip(round1: Seq<Seq<Vote>>, logical_slot: int, b0: usize)
    requires
        round1.len() >= 1,
        round1[0] == seq![Vote::Block(b0)],
        b0 < BLOCKS_PER_SLOT,
        forall|v: int| 0 <= v < round1.len() ==> notarizations_in_range(#[trigger] round1[v]),
        forall|b: int|
            0 <= b < 4 ==> occurrences(counted_primaries(round1), Vote::Skip) + occurrences(
                counted_primaries(round1),
                Vote::Block(0),
            ) + occurrences(counted_primaries(round1), Vote::Block(1)) + occurrences(
                counted_primaries(round1),
                Vote::Block(2),
            ) + occurrences(counted_primaries(round1), Vote::Block(3)) - #[trigger] occurrences(
                counted_primaries(round1),
                Vote::Block(b as usize),
            ) >= 40,
    ensures
        round2_of(round1, logical_slot, false).1,
        round2_of(round1, logical_slot, false).0.contains(Round2Vote::SkipFallback)
            || round2_of(round1, logical_slot, false).0.contains(Round2Vote::Finalize),
{
    let first = logical_slot % LEADER_WINDOW_SLOTS as int == 0;
    lemma_run_validators_skip(round1, first, Vote::Block(b0));
    let st = run_validators(initial_state(false), round1, false, first);
    lemma_top_is_a_count(st.block_counts);
    let bt = choose|b: int| 0 <= b < BLOCKS_PER_SLOT && top_notarized(st.block_counts) == #[trigger] st.block_counts[b];
    assert(st.block_counts[0] == occurrences(counted_primaries(round1), Vote::Block(0)));
    assert(st.block_counts[1] == occurrences(counted_primaries(round1), Vote::Block(1)));
    assert(st.block_counts[2] == occurrences(counted_primaries(round1), Vote::Block(2)));
    assert(st.block_counts[3] == occurrences(counted_primaries(round1), Vote::Block(3)));
    assert(st.block_counts[bt] == occurrences(counted_primaries(round1), Vote::Block(bt as usize)));
    assert(skip_safe(st));
    assert(st.safe_to_skip_sent);
    let flushed = if st.its_over {
        st.emitted
    } else {
        st.emitted + st.pending_safe_to_notar.map_values(|b: usize| Round2Vote::NotarFallback(b))
    };
    let x = if st.emitted.contains(Round2Vote::SkipFallback) {
        Round2Vote::SkipFallback
    } else {
        Round2Vote::Finalize
    };
    let i = choose|i: int| 0 <= i < st.emitted.len() && st.emitted[i] == x;
    assert(flushed[i] == x);
    assert(flushed.len() > 0);
    assert(round2_of(round1, logical_slot, false).0 == flushed);
    assert(flushed.contains(x));
}

/// Safety to notarize: when the observer (`v1`) votes a single block or
/// skip in a slot whose window it has not skipped, and another block `b`
/// has at least 40 counted notarizations, or at least 20 that together with
/// the counted skip votes reach 60, the observer skips the rest of the
/// window, and its second round announces `b` safe to notarize with a
/// notar-fallback, unless the slot was finalized.
pub proof fn lemma_safe_to_notarize(round1: Seq<Seq<Vote>>, logical_slot: int, o: Vote, b: usize)
    requires
        round1.len() >= 1,
        round1[0] == seq![o],
        o is Skip || (o matches Vote::Block(x) && x < BLOCKS_PER_SLOT),
        b < 4,
        o != Vote::Block(b),
        forall|v: int| 0 <= v < round1.len() ==> notarizations_in_range(#[trigger] round1[v]),
        occurrences(counted_primaries(round1), Vote::Block(b)) >= 40 || (occurrences(
            counted_primaries(round1),
            Vote::Block(b),
        ) >= 20 && occurrences(counted_primaries(round1), Vote::Skip) + occurrences(
            counted_primaries(round1),
            Vote::Block(b),
        ) >= 60),
    ensures
        round2_of(round1, logical_slot, false).1,
        round2_of(round1, logical_slot, false).0.contains(Round2Vote::NotarFallback(b))
            || round2_of(round1, logical_slot, false).0.contains(Round2Vote::Finalize),
{
    let first = logical_slot % LEADER_WINDOW_SLOTS as int == 0;
    lemma_run_validators_skip(round1, first, o);
    let st = run_validators(initial_state(false), round1, false, first);
    assert(st.block_counts[b as int] == occurrences(counted_primaries(round1), Vote::Block(b)));
    assert(notar_ready(st, b as int));
    assert(st.safe_to_notar_sent[b as int]);
    assert(notar_announced(st, b as int));
    let nf = Round2Vote::NotarFallback(b);
    let tail = st.pending_safe_to_notar.map_values(|x: usize| Round2Vote::NotarFallback(x));
    let flushed = if st.its_over {
        st.emitted
    } else {
        st.emitted + tail
    };
    let x = if st.its_over || !(st.emitted.contains(nf) || st.pending_safe_to_notar.contains(b)) {
        Round2Vote::Finalize
    } else {
        nf
    };
    assert(flushed.contains(x)) by {
        if st.emitted.contains(x) {
            let i = choose|i: int| 0 <= i < st.emitted.len() && st.emitted[i] == x;
            assert(flushed[i] == x);
        } else {
            assert(!st.its_over);
            let i = choose|i: int| 0 <= i < st.pending_safe_to_notar.len() && st.pending_safe_to_notar[i] == b;
            assert(tail[i] == nf);
            assert(flushed[st.emitted.len() + i] == nf);
        }
    }
    assert(flushed.len() > 0);
    assert(round2_of(round1, logical_slot, false).0 == flushed);
}

/// What holds of the simulation while the observer has skipped the
/// window: its vote stays a skip, the window stays bad and skipped, and it
/// has announced nothing but notar-fallbacks.
pub open spec fn skipped_inv(st: SimState) -> bool {
    &&& st.observer_vote == Some(Vote::Skip)
    &&& st.bad_window
    &&& st.skips_rest_of_window
    &&& forall|i: int| 0 <= i < st.emitted.len() ==> #[trigger] st.emitted[i] is NotarFallback
}

proof fn lemma_notar_check_skipped(st: SimState, observer: Vote, first: bool, block: int)
    requires
        skipped_inv(st),
    ensures
        skipped_inv(notar_check(st, observer, first, block)),
{
    let r = notar_check(st, observer, first, block);
    assert forall|i: int| 0 <= i < r.emitted.len() implies #[trigger] r.emitted[i] is NotarFallback by {
        if i < st.emitted.len() {
            assert(r.emitted[i] == st.emitted[i]);
        }
    }
}

proof fn lemma_notar_checks_skipped(st: SimState, observer: Vote, first: bool, n: nat)
    requires
        skipped_inv(st),
    ensures
        skipped_inv(notar_checks(st, observer, first, n)),
    decreases n,
{
    if n > 0 {
        lemma_notar_checks_skipped(st, observer, first, (n - 1) as nat);
        lemma_notar_check_skipped(notar_checks(st, observer, first, (n - 1) as nat), observer, first, n - 1);
    }
}

proof fn lemma_vote_step_skipped(st: SimState, h: History, validator: int, vote: Vote, first: bool)
    requires
        skipped_inv(st),
        validator != 0,
    ensures
        skipped_inv(vote_step(st, h, validator, vote, first).0),
{
    let (h2, accepted) = accept(h, vote);
    if let Some(a) = accepted {
        let st2 = match a {
            Vote::Block(block) => SimState {
                block_counts: st.block_counts.update(block as int, st.block_counts[block as int] + 1),
                ..st
            },
            Vote::Skip => SimState { skip_count: st.skip_count + 1, ..st },
            _ => st,
        };
        assert(skipped_inv(st2));
        lemma_notar_checks_skipped(st2, Vote::Skip, first, 4);
        assert(after_accept(st, validator, a, first) == react(st2, Vote::Skip, a, first));
    }
}

proof fn lemma_run_votes_skipped(st: SimState, h: History, validator: int, votes: Seq<Vote>, first: bool)
    requires
        skipped_inv(st),
        validator != 0,
    ensures
        skipped_inv(run_votes(st, h, validator, votes, first).0),
    decreases votes.len(),
{
    if votes.len() > 0 {
        lemma_run_votes_skipped(st, h, validator, votes.drop_last(), first);
        let (s1, h1) = run_votes(st, h, validator, votes.drop_last(), first);
        lemma_vote_step_skipped(s1, h1, validator, votes.last(), first);
    }
}

proof fn lemma_run_validators_skipped(st: SimState, round1: Seq<Seq<Vote>>, first: bool)
    requires
        skipped_inv(st),
    ensures
        skipped_inv(run_validators(st, round1, true, first)),
    decreases round1.len(),
{
    if round1.len() > 0 {
        lemma_run_validators_skipped(st, round1.drop_last(), first);
        if round1.len() > 1 {
            lemma_run_votes_skipped(
                run_validators(st, round1.drop_last(), true, first),
                empty_history(),
                round1.len() - 1,
                round1.last(),
                first,
            );
        }
    }
}

proof fn lemma_run_validators_ignore_first(
    st: SimState,
    round1: Seq<Seq<Vote>>,
    other: Seq<Seq<Vote>>,
    first: bool,
)
    requires
        other.len() == round1.len(),
        forall|i: int| 1 <= i < round1.len() ==> #[trigger] other[i] == round1[i],
    ensures
        run_validators(st, round1, true, first) == run_validators(st, other, true, first),
    decreases round1.len(),
{
    if round1.len() > 0 {
        lemma_run_validators_ignore_first(st, round1.drop_last(), other.drop_last(), first);
        if round1.len() > 1 {
            assert(other.last() == round1.last());
        }
    }
}

/// An observer that has already skipped its leader window ignores its own
/// first-round votes: its second round is the same whatever it voted first,
/// it keeps skipping the rest of the window, and it casts no notarization,
/// finalization or skip-fallback, only notar-fallbacks or none.
pub proof fn lemma_skipped_observer_ignored(round1: Seq<Seq<Vote>>, other: Seq<Seq<Vote>>, logical_slot: int)
    requires
        other.len() == round1.len(),
        forall|i: int| 1 <= i < round1.len() ==> #[trigger] other[i] == round1[i],
    ensures
        round2_of(round1, logical_slot, true) == round2_of(other, logical_slot, true),
        round2_of(round1, logical_slot, true).1,
        forall|i: int|
            0 <= i < round2_of(round1, logical_slot, true).0.len() ==> (#[trigger] round2_of(
                round1,
                logical_slot,
                true,
            ).0[i] is NotarFallback || round2_of(round1, logical_slot, true).0[i] is NoVote),
{
    let first = logical_slot % LEADER_WINDOW_SLOTS as int == 0;
    let init = initial_state(true);
    lemma_run_validators_ignore_first(init, round1, other, first);
    assert(skipped_inv(init));
    lemma_run_validators_skipped(init, round1, first);
    let st = run_validators(init, round1, true, first);
    let out = round2_of(round1, logical_slot, true).0;
    let flushed = if st.its_over {
        st.emitted
    } else {
        st.emitted + st.pending_safe_to_notar.map_values(|b: usize| Round2Vote::NotarFallback(b))
    };
    assert forall|i: int| 0 <= i < out.len() implies (#[trigger] out[i] is NotarFallback || out[i] is NoVote) by {
        if flushed.len() != 0 {
            assert(out == flushed);
            if i < st.emitted.len() {
                assert(flushed[i] == st.emitted[i]);
            }
        }
    }
}

proof fn lemma_count4_bound(s: Seq<bool>, b: int)
    requires
        s.len() == BLOCKS_PER_SLOT,
        0 <= b < BLOCKS_PER_SLOT,
        !s[b],
    ensures
        count4(s) <= 3,
{
}

/// The observer's simulated second round has the shape that the text format
/// accepts: one to five votes, `none` only alone, and only the slot's blocks.
pub proof fn lemma_round2_shape(round1: Seq<Seq<Vote>>, logical_slot: int, observer_already_skipped: bool)
    requires
        forall|i: int| 0 <= i < round1.len() ==> notarizations_in_range(#[trigger] round1[i]),
    ensures
        round2_shape_ok(round2_of(round1, logical_slot, observer_already_skipped).0),
        forall|k: int|
            0 <= k < round2_of(round1, logical_slot, observer_already_skipped).0.len() ==> (
            #[trigger] round2_block(round2_of(round1, logical_slot, observer_already_skipped).0[k])
                matches Some(b) ==> b < BLOCKS_PER_SLOT),
{
    let first = logical_slot % LEADER_WINDOW_SLOTS as int == 0;
    let init = initial_state(observer_already_skipped);
    assert(init.safe_to_notar_sent =~= seq![false, false, false, false]);
    assert(sim_inv(init, first));
    lemma_run_validators_inv(init, round1, observer_already_skipped, first);
    let st = run_validators(init, round1, observer_already_skipped, first);
    let flushed = if st.its_over {
        st.emitted
    } else {
        st.emitted + st.pending_safe_to_notar.map_values(|b: usize| Round2Vote::NotarFallback(b))
    };
    assert forall|k: int| 0 <= k < flushed.len() implies emitted_ok(#[trigger] flushed[k]) by {
        if k < st.emitted.len() {
            assert(flushed[k] == st.emitted[k]);
        } else {
            assert(flushed[k] == Round2Vote::NotarFallback(st.pending_safe_to_notar[k - st.emitted.len()]));
        }
    }
    if !st.its_over {
        if let Some(Vote::Block(b)) = st.observer_vote {
            assert(!st.safe_to_notar_sent[b as int]);
            lemma_count4_bound(st.safe_to_notar_sent, b as int);
        }
        assert(flushed.len() <= MAX_ROUND2_VOTES);
    }
    let out = finish(st).0;
    if flushed.len() == 0 {
        assert(out =~= seq![Round2Vote::NoVote]);
    } else {
        assert(out == flushed);
        assert(!out.contains(Round2Vote::NoVote)) by {
            if out.contains(Round2Vote::NoVote) {
                let k = choose|k: int| 0 <= k < out.len() && out[k] == Round2Vote::NoVote;
                assert(emitted_ok(flushed[k]));
            }
        }
    }
    assert forall|k: int| 0 <= k < out.len() implies (#[trigger] round2_block(out[k]) matches Some(b) ==> b < BLOCKS_PER_SLOT) by {
        if flushed.len() > 0 {
            assert(emitted_ok(flushed[k]));
        }
    }
}


// ---------------------------------------------------------------------------
// Rendering and parsing are inverse
// ---------------------------------------------------------------------------
/// A validator's first-round votes as the format allows them: one to five,
/// `absent` only alone, and only the slot's blocks.
pub open spec fn vote_set_ok(votes: Seq<Vote>) -> bool {
    &&& 1 <= votes.len() <= MAX_VOTES_PER_VALIDATOR
    &&& (votes.contains(Vote::Absent) ==> votes.len() == 1)
    &&& forall|i: int|
        0 <= i < votes.len() ==> (#[trigger] vote_block(votes[i]) matches Some(b) ==> b
            < BLOCKS_PER_SLOT)
}

/// The observer's second-round votes as the format allows them.
pub open spec fn round2_ok(votes: Seq<Round2Vote>) -> bool {
    &&& round2_shape_ok(votes)
    &&& forall|i: int|
        0 <= i < votes.len() ==> (#[trigger] round2_block(votes[i]) matches Some(b) ==> b
            < BLOCKS_PER_SLOT)
}

/// A slot of the grammar's shape.
pub open spec fn slot_well_formed(s: SlotView) -> bool {
    &&& s.block_ids.len() == BLOCKS_PER_SLOT
    &&& forall|j: int| 0 <= j < BLOCKS_PER_SLOT ==> (#[trigger] s.block_ids[j]).len() == BLOCK_ID_BYTES
    &&& s.round1.len() == VALIDATOR_COUNT
    &&& forall|v: int| 0 <= v < VALIDATOR_COUNT ==> vote_set_ok(#[trigger] s.round1[v])
    &&& round2_ok(s.round2)
}

/// A scenario of the grammar's shape.
pub open spec fn well_formed(m: ScenarioView) -> bool {
    &&& m.roles.len() == VALIDATOR_COUNT
    &&& m.slots.len() == NUM_SLOTS
    &&& forall|s: int| 0 <= s < NUM_SLOTS ==> #[trigger] slot_well_formed(m.slots[s])
}

proof fn lemma_decimal_small(b: usize)
    requires
        b < BLOCKS_PER_SLOT,
    ensures
        block_number(text::decimal((b + 1) as nat)) == Some(b),
        text::decimal((b + 1) as nat).len() == 1,
        text::is_token(text::decimal((b + 1) as nat)),
        text::no_ws(text::decimal((b + 1) as nat)),
{
    lemma_block_number(b);
}

proof fn lemma_vote_round_trip(v: Vote)
    requires
        vote_block(v) matches Some(b) ==> b < BLOCKS_PER_SLOT,
    ensures
        parse_vote_text(vote_text(v)) == Some(v),
        vote_text(v).len() > 0,
        text::is_token(vote_text(v)),
{
    reveal_strlit("absent");
    reveal_strlit("skip");
    reveal_strlit("skip-fallback");
    reveal_strlit("notar-fallback(b");
    reveal_strlit(")");
    let t = vote_text(v);
    match v {
        Vote::Block(b) => {
            let d = text::decimal((b + 1) as nat);
            lemma_decimal_small(b);
            assert(t[0] == 'b');
            assert(t != "absent"@ && t != "skip"@ && t != "skip-fallback"@) by {
                assert("absent"@[0] != 'b');
                assert("skip"@[0] != 'b');
                assert("skip-fallback"@[0] != 'b');
            }
            assert(!text::has_prefix(t, "notar-fallback(b"@)) by {
                if t.len() >= 16 {
                    assert(t.take(16)[0] != "notar-fallback(b"@[0]);
                }
            }
            assert(text::has_prefix(t, seq!['b'])) by {
                assert(t.take(1) =~= seq!['b']);
            }
            assert(t.skip(1) =~= d);
            assert(enclosed(t, "notar-fallback(b"@) is None);
            assert(block_number(t.skip(1)) == Some(b));
            assert(parse_vote_text(t) == Some(Vote::Block(b)));
            assert(text::is_token(t)) by {
                assert forall|i: int| 0 <= i < t.len() implies !text::is_ascii_ws(#[trigger] t[i])
                    && t[i] != '=' && t[i] != ',' by {
                    if i == 1 {
                        assert(t[i] == d[0]);
                    }
                }
            }
        },
        Vote::NotarFallback(b) => {
            let d = text::decimal((b + 1) as nat);
            lemma_decimal_small(b);
            lemma_enclosed("notar-fallback(b"@, d);
            assert(t.len() == 18);
            assert(t != "absent"@ && t != "skip"@ && t != "skip-fallback"@);
            assert(t =~= "notar-fallback(b"@ + d + seq![')']);
            assert(parse_vote_text(t) == Some(Vote::NotarFallback(b)));
            assert(text::is_token(t)) by {
                assert forall|i: int| 0 <= i < t.len() implies !text::is_ascii_ws(#[trigger] t[i])
                    && t[i] != '=' && t[i] != ',' by {
                    if i == 16 {
                        assert(t[i] == d[0]);
                    }
                }
            }
        },
        Vote::Absent => {
            assert(parse_vote_text(t) == Some(Vote::Absent));
        },
        Vote::Skip => {
            assert(t != "absent"@);
            assert(parse_vote_text(t) == Some(Vote::Skip));
        },
        Vote::SkipFallback => {
            assert(t != "absent"@);
            assert(t != "skip"@);
            assert(parse_vote_text(t) == Some(Vote::SkipFallback));
        },
    }
}

proof fn lemma_vote_set_split(votes: Seq<Vote>)
    requires
        votes.len() >= 1,
        forall|i: int|
            0 <= i < votes.len() ==> (#[trigger] vote_block(votes[i]) matches Some(b) ==> b
                < BLOCKS_PER_SLOT),
    ensures
        text::split_on(vote_set_text(votes), ',') == votes.map_values(|v: Vote| vote_text(v)),
        text::no_ws(vote_set_text(votes)),
        forall|k: int| 0 <= k < vote_set_text(votes).len() ==> vote_set_text(votes)[k] != '=',
        vote_set_text(votes).len() > 0,
    decreases votes.len(),
{
    let last = votes.last();
    assert(vote_block(votes[votes.len() - 1]) matches Some(b) ==> b < BLOCKS_PER_SLOT);
    lemma_vote_round_trip(last);
    let lt = vote_text(last);
    assert(text::no_ws(lt)) by {
        assert forall|k: int| 0 <= k < lt.len() implies !text::is_ascii_ws(#[trigger] lt[k]) by {
            assert(!text::is_ascii_ws(lt[k]) && lt[k] != '=' && lt[k] != ',');
        }
    }
    assert forall|k: int| 0 <= k < lt.len() implies lt[k] != ',' && lt[k] != '=' by {
        assert(!text::is_ascii_ws(lt[k]) && lt[k] != '=' && lt[k] != ',');
    }
    text::lemma_split_on_none(lt, ',');
    if votes.len() == 1 {
        assert(votes.map_values(|v: Vote| vote_text(v)) =~= seq![lt]);
    } else {
        let prev = votes.drop_last();
        assert forall|i: int| 0 <= i < prev.len() implies (#[trigger] vote_block(prev[i]) matches Some(b) ==> b
            < BLOCKS_PER_SLOT) by {
            assert(prev[i] == votes[i]);
        }
        lemma_vote_set_split(prev);
        text::lemma_split_on_concat(vote_set_text(prev), ',', lt);
        assert(votes.map_values(|v: Vote| vote_text(v)) =~= prev.map_values(|v: Vote| vote_text(v)).push(lt));
        let full = vote_set_text(votes);
        assert(full == vote_set_text(prev) + seq![','] + lt);
        text::lemma_no_ws_concat(vote_set_text(prev), seq![',']);
        text::lemma_no_ws_concat(vote_set_text(prev) + seq![','], lt);
        assert forall|k: int| 0 <= k < full.len() implies full[k] != '=' by {
            if k < vote_set_text(prev).len() {
                assert(full[k] == vote_set_text(prev)[k]);
            } else if k > vote_set_text(prev).len() {
                assert(full[k] == lt[k - vote_set_text(prev).len() - 1]);
            }
        }
    }
}

proof fn lemma_vote_set_round_trip(votes: Seq<Vote>)
    requires
        vote_set_ok(votes),
    ensures
        parse_vote_set_text(vote_set_text(votes)) == Some(votes),
        text::no_ws(vote_set_text(votes)),
        forall|k: int| 0 <= k < vote_set_text(votes).len() ==> vote_set_text(votes)[k] != '=',
        vote_set_text(votes).len() > 0,
{
    lemma_vote_set_split(votes);
    let pieces = text::split_on(vote_set_text(votes), ',');
    assert forall|k: int| 0 <= k < pieces.len() implies #[trigger] parse_vote_text(pieces[k]) == Some(votes[k]) by {
        assert(pieces[k] == vote_text(votes[k]));
        assert(vote_block(votes[k]) matches Some(b) ==> b < BLOCKS_PER_SLOT);
        lemma_vote_round_trip(votes[k]);
    }
    assert(Seq::new(pieces.len(), |k: int| parse_vote_text(pieces[k])->0) =~= votes);
}

/// Every role has the grammar's name, and its committee field reads back as
/// the role: `honest`, `absent` and `byzantine`, each after `role=`.
pub proof fn lemma_role_names()
    ensures
        Role::Honest.name() == seq!['h', 'o', 'n', 'e', 's', 't'],
        Role::Absent.name() == seq!['a', 'b', 's', 'e', 'n', 't'],
        Role::Byzantine.name() == seq!['b', 'y', 'z', 'a', 'n', 't', 'i', 'n', 'e'],
        parse_role_field(seq!['r', 'o', 'l', 'e', '=', 'h', 'o', 'n', 'e', 's', 't']) == Some(Role::Honest),
        parse_role_field(seq!['r', 'o', 'l', 'e', '=', 'a', 'b', 's', 'e', 'n', 't']) == Some(Role::Absent),
        parse_role_field(seq!['r', 'o', 'l', 'e', '=', 'b', 'y', 'z', 'a', 'n', 't', 'i', 'n', 'e'])
            == Some(Role::Byzantine),
{
    reveal_strlit("honest");
    reveal_strlit("absent");
    reveal_strlit("byzantine");
    reveal_strlit("role=honest");
    reveal_strlit("role=absent");
    reveal_strlit("role=byzantine");
    let h = seq!['r', 'o', 'l', 'e', '=', 'h', 'o', 'n', 'e', 's', 't'];
    let a = seq!['r', 'o', 'l', 'e', '=', 'a', 'b', 's', 'e', 'n', 't'];
    let z = seq!['r', 'o', 'l', 'e', '=', 'b', 'y', 'z', 'a', 'n', 't', 'i', 'n', 'e'];
    assert("role=honest"@ =~= h);
    assert("role=absent"@ =~= a);
    assert("role=byzantine"@ =~= z);
    assert(a != h);
    assert(z != h && z != a);
}

/// Every vote is written with the grammar's keyword, and each keyword reads
/// back as its vote: first-round votes are `absent`, `skip`,
/// `skip-fallback`, `b<n>` and `notar-fallback(b<n>)`; second-round votes
/// are `finalize`, `skip-fallback`, `none`, `notarize(b<n>)` and
/// `notar-fallback(b<n>)`, block `n - 1` being named.
pub proof fn lemma_vote_keywords(b: usize)
    requires
        b < BLOCKS_PER_SLOT,
    ensures
        vote_text(Vote::Absent) == seq!['a', 'b', 's', 'e', 'n', 't'],
        vote_text(Vote::Skip) == seq!['s', 'k', 'i', 'p'],
        vote_text(Vote::SkipFallback) == seq!['s', 'k', 'i', 'p', '-', 'f', 'a', 'l', 'l', 'b', 'a', 'c', 'k'],
        vote_text(Vote::Block(b)) == seq!['b'] + text::decimal((b + 1) as nat),
        vote_text(Vote::NotarFallback(b)) == seq!['n', 'o', 't', 'a', 'r', '-', 'f', 'a', 'l', 'l', 'b', 'a', 'c', 'k', '(', 'b'] + text::decimal((b + 1) as nat) + seq![')'],
        round2_vote_text(Round2Vote::Finalize) == seq!['f', 'i', 'n', 'a', 'l', 'i', 'z', 'e'],
        round2_vote_text(Round2Vote::SkipFallback) == seq!['s', 'k', 'i', 'p', '-', 'f', 'a', 'l', 'l', 'b', 'a', 'c', 'k'],
        round2_vote_text(Round2Vote::NoVote) == seq!['n', 'o', 'n', 'e'],
        round2_vote_text(Round2Vote::Notarize(b)) == seq!['n', 'o', 't', 'a', 'r', 'i', 'z', 'e', '(', 'b'] + text::decimal((b + 1) as nat) + seq![')'],
        round2_vote_text(Round2Vote::NotarFallback(b)) == seq!['n', 'o', 't', 'a', 'r', '-', 'f', 'a', 'l', 'l', 'b', 'a', 'c', 'k', '(', 'b'] + text::decimal((b + 1) as nat) + seq![')'],
        parse_vote_text(seq!['a', 'b', 's', 'e', 'n', 't']) == Some(Vote::Absent),
        parse_vote_text(seq!['s', 'k', 'i', 'p']) == Some(Vote::Skip),
        parse_vote_text(seq!['s', 'k', 'i', 'p', '-', 'f', 'a', 'l', 'l', 'b', 'a', 'c', 'k']) == Some(Vote::SkipFallback),
        parse_vote_text(vote_text(Vote::Block(b))) == Some(Vote::Block(b)),
        parse_vote_text(vote_text(Vote::NotarFallback(b))) == Some(Vote::NotarFallback(b)),
        parse_round2_vote_text(seq!['f', 'i', 'n', 'a', 'l', 'i', 'z', 'e']) == Some(Round2Vote::Finalize),
        parse_round2_vote_text(seq!['s', 'k', 'i', 'p', '-', 'f', 'a', 'l', 'l', 'b', 'a', 'c', 'k']) == Some(Round2Vote::SkipFallback),
        parse_round2_vote_text(seq!['n', 'o', 'n', 'e']) == Some(Round2Vote::NoVote),
        parse_round2_vote_text(round2_vote_text(Round2Vote::Notarize(b))) == Some(Round2Vote::Notarize(b)),
        parse_round2_vote_text(round2_vote_text(Round2Vote::NotarFallback(b))) == Some(
            Round2Vote::NotarFallback(b),
        ),
{
    reveal_strlit("absent");
    reveal_strlit("skip");
    reveal_strlit("skip-fallback");
    reveal_strlit("notar-fallback(b");
    reveal_strlit(")");
    reveal_strlit("finalize");
    reveal_strlit("none");
    reveal_strlit("notarize(b");
    lemma_vote_round_trip(Vote::Absent);
    lemma_vote_round_trip(Vote::Skip);
    lemma_vote_round_trip(Vote::SkipFallback);
    lemma_vote_round_trip(Vote::Block(b));
    lemma_vote_round_trip(Vote::NotarFallback(b));
    lemma_round2_vote_round_trip(Round2Vote::Finalize);
    lemma_round2_vote_round_trip(Round2Vote::SkipFallback);
    lemma_round2_vote_round_trip(Round2Vote::NoVote);
    lemma_round2_vote_round_trip(Round2Vote::Notarize(b));
    lemma_round2_vote_round_trip(Round2Vote::NotarFallback(b));
    let absent = seq!['a', 'b', 's', 'e', 'n', 't'];
    let skip = seq!['s', 'k', 'i', 'p'];
    assert(vote_text(Vote::Absent) =~= absent);
    assert(vote_text(Vote::Skip) =~= skip);
    assert(parse_vote_text(absent) == parse_vote_text(vote_text(Vote::Absent)));
    assert(parse_vote_text(skip) == parse_vote_text(vote_text(Vote::Skip)));
    let skip_fallback = seq!['s', 'k', 'i', 'p', '-', 'f', 'a', 'l', 'l', 'b', 'a', 'c', 'k'];
    let finalize = seq!['f', 'i', 'n', 'a', 'l', 'i', 'z', 'e'];
    let none = seq!['n', 'o', 'n', 'e'];
    assert(vote_text(Vote::SkipFallback) =~= skip_fallback);
    assert(round2_vote_text(Round2Vote::SkipFallback) =~= skip_fallback);
    assert(round2_vote_text(Round2Vote::Finalize) =~= finalize);
    assert(round2_vote_text(Round2Vote::NoVote) =~= none);
    assert(parse_vote_text(skip_fallback) == parse_vote_text(vote_text(Vote::SkipFallback)));
    assert(parse_round2_vote_text(skip_fallback) == parse_round2_vote_text(round2_vote_text(Round2Vote::SkipFallback)));
    assert(parse_round2_vote_text(finalize) == parse_round2_vote_text(round2_vote_text(Round2Vote::Finalize)));
    assert(parse_round2_vote_text(none) == parse_round2_vote_text(round2_vote_text(Round2Vote::NoVote)));
}

proof fn lemma_round2_vote_round_trip(v: Round2Vote)
    requires
        round2_block(v) matches Some(b) ==> b < BLOCKS_PER_SLOT,
    ensures
        parse_round2_vote_text(round2_vote_text(v)) == Some(v),
        text::is_token(round2_vote_text(v)),
{
    reveal_strlit("finalize");
    reveal_strlit("skip-fallback");
    reveal_strlit("none");
    reveal_strlit("notarize(b");
    reveal_strlit("notar-fallback(b");
    reveal_strlit(")");
    let t = round2_vote_text(v);
    match v {
        Round2Vote::Notarize(b) => {
            let d = text::decimal((b + 1) as nat);
            lemma_decimal_small(b);
            lemma_enclosed("notarize(b"@, d);
            assert(t =~= "notarize(b"@ + d + seq![')']);
            assert(t.len() == 12);
            assert(t != "finalize"@ && t != "skip-fallback"@ && t != "none"@);
            assert(parse_round2_vote_text(t) == Some(Round2Vote::Notarize(b)));
            assert(text::is_token(t)) by {
                assert forall|i: int| 0 <= i < t.len() implies !text::is_ascii_ws(#[trigger] t[i])
                    && t[i] != '=' && t[i] != ',' by {
                    if i == 10 {
                        assert(t[i] == d[0]);
                    }
                }
            }
        },
        Round2Vote::NotarFallback(b) => {
            let d = text::decimal((b + 1) as nat);
            lemma_decimal_small(b);
            lemma_enclosed("notar-fallback(b"@, d);
            assert(t.len() == 18);
            assert(t != "finalize"@ && t != "skip-fallback"@ && t != "none"@);
            assert(!text::has_prefix(t, "notarize(b"@)) by {
                assert(t.take(10)[5] != "notarize(b"@[5]);
            }
            assert(t =~= "notar-fallback(b"@ + d + seq![')']);
            assert(parse_round2_vote_text(t) == Some(Round2Vote::NotarFallback(b)));
            assert(text::is_token(t)) by {
                assert forall|i: int| 0 <= i < t.len() implies !text::is_ascii_ws(#[trigger] t[i])
                    && t[i] != '=' && t[i] != ',' by {
                    if i == 16 {
                        assert(t[i] == d[0]);
                    }
                }
            }
        },
        Round2Vote::Finalize => {
            assert(parse_round2_vote_text(t) == Some(Round2Vote::Finalize));
        },
        Round2Vote::SkipFallback => {
            assert(t != "finalize"@);
            assert(parse_round2_vote_text(t) == Some(Round2Vote::SkipFallback));
        },
        Round2Vote::NoVote => {
            assert(t != "finalize"@);
            assert(t != "skip-fallback"@);
            assert(parse_round2_vote_text(t) == Some(Round2Vote::NoVote));
        },
    }
}

proof fn lemma_round2_split(votes: Seq<Round2Vote>)
    requires
        votes.len() >= 1,
        forall|i: int|
            0 <= i < votes.len() ==> (#[trigger] round2_block(votes[i]) matches Some(b) ==> b
                < BLOCKS_PER_SLOT),
    ensures
        text::split_on(round2_text(votes), ',') == votes.map_values(|v: Round2Vote| round2_vote_text(v)),
        text::no_breaks(round2_text(votes)),
    decreases votes.len(),
{
    let last = votes.last();
    assert(round2_block(votes[votes.len() - 1]) matches Some(b) ==> b < BLOCKS_PER_SLOT);
    lemma_round2_vote_round_trip(last);
    let lt = round2_vote_text(last);
    assert forall|k: int| 0 <= k < lt.len() implies lt[k] != ',' by {
        assert(!text::is_ascii_ws(lt[k]) && lt[k] != '=' && lt[k] != ',');
    }
    text::lemma_token_no_breaks(lt);
    text::lemma_split_on_none(lt, ',');
    if votes.len() == 1 {
        assert(votes.map_values(|v: Round2Vote| round2_vote_text(v)) =~= seq![lt]);
    } else {
        let prev = votes.drop_last();
        assert forall|i: int| 0 <= i < prev.len() implies (#[trigger] round2_block(prev[i]) matches Some(b) ==> b
            < BLOCKS_PER_SLOT) by {
            assert(prev[i] == votes[i]);
        }
        lemma_round2_split(prev);
        text::lemma_split_on_concat(round2_text(prev), ',', lt);
        assert(votes.map_values(|v: Round2Vote| round2_vote_text(v)) =~= prev.map_values(|v: Round2Vote| round2_vote_text(v)).push(lt));
        assert(text::no_breaks(seq![','])) by {
            assert(seq![','][0] != '\n');
        }
        text::lemma_no_breaks_concat(round2_text(prev), seq![',']);
        text::lemma_no_breaks_concat(round2_text(prev) + seq![','], lt);
    }
}

proof fn lemma_round2_line_round_trip(votes: Seq<Round2Vote>)
    requires
        round2_ok(votes),
    ensures
        parse_round2_line("  round2: v1="@ + round2_text(votes)) == Some(votes),
        text::no_breaks("  round2: v1="@ + round2_text(votes)),
{
    reveal_strlit("  round2: v1=");
    lemma_round2_split(votes);
    let p = "  round2: v1="@;
    text::lemma_has_prefix_concat(p, round2_text(votes));
    let pieces = text::split_on(round2_text(votes), ',');
    assert forall|k: int| 0 <= k < pieces.len() implies #[trigger] parse_round2_vote_text(pieces[k]) == Some(votes[k]) by {
        assert(pieces[k] == round2_vote_text(votes[k]));
        assert(round2_block(votes[k]) matches Some(b) ==> b < BLOCKS_PER_SLOT);
        lemma_round2_vote_round_trip(votes[k]);
    }
    assert(Seq::new(pieces.len(), |k: int| parse_round2_vote_text(pieces[k])->0) =~= votes);
    assert(text::no_breaks(p)) by {
        assert forall|i: int| 0 <= i < p.len() implies #[trigger] p[i] != '\n' && p[i] != '\r' by {}
    }
    text::lemma_no_breaks_concat(p, round2_text(votes));
}

/// The assignments of a first-round text.
pub open spec fn round1_assignments(r1: Seq<Seq<Vote>>) -> Seq<Seq<char>> {
    Seq::new(r1.len(), |i: int| v_name((i + 1) as nat) + seq!['='] + vote_set_text(r1[i]))
}

proof fn lemma_round1_fields(r1: Seq<Seq<Vote>>)
    requires
        forall|v: int| 0 <= v < r1.len() ==> vote_set_ok(#[trigger] r1[v]),
    ensures
        text::fields(round1_text(r1)) == round1_assignments(r1),
        text::no_breaks(round1_text(r1)),
        round1_text(r1).len() == 0 || text::is_ascii_ws(round1_text(r1)[0]),
        forall|i: int| 0 <= i < r1.len() ==> parse_assignment(#[trigger] round1_assignments(r1)[i], i) == Some(r1[i]),
    decreases r1.len(),
{
    if r1.len() > 0 {
        let prev = r1.drop_last();
        assert forall|v: int| 0 <= v < prev.len() implies vote_set_ok(#[trigger] prev[v]) by {
            assert(prev[v] == r1[v]);
        }
        lemma_round1_fields(prev);
        let i = r1.len() - 1;
        assert(vote_set_ok(r1[i]));
        lemma_vote_set_round_trip(r1[i]);
        let n = v_name((i + 1) as nat);
        lemma_v_name((i + 1) as nat);
        let a = n + seq!['='] + vote_set_text(r1[i]);
        assert(text::no_ws(n)) by {
            assert forall|k: int| 0 <= k < n.len() implies !text::is_ascii_ws(#[trigger] n[k]) by {
                assert(!text::is_ascii_ws(n[k]) && n[k] != '=' && n[k] != ',');
            }
        }
        text::lemma_no_ws_concat(n, seq!['=']);
        text::lemma_no_ws_concat(n + seq!['='], vote_set_text(r1[i]));
        let tail = seq![' '] + a;
        assert(round1_text(r1) =~= round1_text(prev) + tail);
        text::lemma_fields_concat(round1_text(prev), tail);
        text::lemma_fields_word_then(a, Seq::<char>::empty());
        assert(tail + Seq::<char>::empty() =~= tail);
        assert(text::fields(Seq::<char>::empty()) =~= Seq::<Seq<char>>::empty());
        assert(text::fields(round1_text(r1)) =~= round1_assignments(r1)) by {
            assert(round1_assignments(prev) + seq![a] =~= round1_assignments(r1));
        }
        text::lemma_split_once_at(n, '=', vote_set_text(r1[i]));
        assert forall|j: int| 0 <= j < r1.len() implies parse_assignment(#[trigger] round1_assignments(r1)[j], j) == Some(r1[j]) by {
            if j < i {
                assert(round1_assignments(r1)[j] == round1_assignments(prev)[j]);
            }
        }
        text::lemma_no_ws_no_breaks(a);
        assert(text::no_breaks(tail)) by {
            assert forall|k: int| 0 <= k < tail.len() implies #[trigger] tail[k] != '\n' && tail[k] != '\r' by {
                if k > 0 {
                    assert(tail[k] == a[k - 1]);
                }
            }
        }
        text::lemma_no_breaks_concat(round1_text(prev), tail);
        if round1_text(prev).len() == 0 {
            assert(round1_text(r1)[0] == tail[0]);
        } else {
            assert(round1_text(r1)[0] == round1_text(prev)[0]);
        }
    } else {
        assert(text::fields(round1_text(r1)) =~= round1_assignments(r1));
    }
}

proof fn lemma_round1_line_round_trip(r1: Seq<Seq<Vote>>)
    requires
        r1.len() == VALIDATOR_COUNT,
        forall|v: int| 0 <= v < r1.len() ==> vote_set_ok(#[trigger] r1[v]),
    ensures
        parse_round1_line("  round1:"@ + round1_text(r1)) == Some(r1),
        text::no_breaks("  round1:"@ + round1_text(r1)),
{
    reveal_strlit("  round1:");
    lemma_round1_fields(r1);
    let p = "  round1:"@;
    text::lemma_has_prefix_concat(p, round1_text(r1));
    let f = text::fields(round1_text(r1));
    assert forall|i: int| 0 <= i < VALIDATOR_COUNT implies #[trigger] parse_assignment(f[i], i) == Some(r1[i]) by {
        assert(f[i] == round1_assignments(r1)[i]);
    }
    assert(Seq::new(VALIDATOR_COUNT as nat, |i: int| parse_assignment(f[i], i)->0) =~= r1);
    assert(text::no_breaks(p)) by {
        assert forall|i: int| 0 <= i < p.len() implies #[trigger] p[i] != '\n' && p[i] != '\r' by {}
    }
    text::lemma_no_breaks_concat(p, round1_text(r1));
}

proof fn lemma_committee_round_trip(i: int, role: Role)
    requires
        0 <= i,
    ensures
        parse_committee_line(committee_line(i, role), i) == Some(role),
        text::no_breaks(committee_line(i, role)),
{
    reveal_strlit("  ");
    reveal_strlit(" stake=1% role=");
    reveal_strlit("stake=1%");
    reveal_strlit("role=honest");
    reveal_strlit("role=absent");
    reveal_strlit("role=byzantine");
    reveal_strlit("honest");
    reveal_strlit("absent");
    reveal_strlit("byzantine");
    let n = v_name((i + 1) as nat);
    lemma_v_name((i + 1) as nat);
    let w2 = "stake=1%"@;
    let w3 = seq!['r', 'o', 'l', 'e', '='] + role.name();
    let l = committee_line(i, role);
    assert(l =~= seq![' ', ' '] + (n + (seq![' '] + w2 + (seq![' '] + w3))));
    assert(text::no_ws(n)) by {
        assert forall|k: int| 0 <= k < n.len() implies !text::is_ascii_ws(#[trigger] n[k]) by {
            assert(!text::is_ascii_ws(n[k]) && n[k] != '=' && n[k] != ',');
        }
    }
    assert(text::no_ws(w2));
    assert(text::no_ws(w3));
    text::lemma_fields_word_then(w3, Seq::<char>::empty());
    assert(seq![' '] + w3 + Seq::<char>::empty() =~= seq![' '] + w3);
    assert(text::fields(Seq::<char>::empty()) =~= Seq::<Seq<char>>::empty());
    text::lemma_fields_word_then(w2, seq![' '] + w3);
    assert(seq![' '] + w2 + (seq![' '] + w3) =~= seq![' '] + w2 + (seq![' '] + w3));
    text::lemma_fields_concat(n, seq![' '] + w2 + (seq![' '] + w3));
    text::lemma_fields_word(n);
    text::lemma_fields_leading_ws(seq![' ', ' '], n + (seq![' '] + w2 + (seq![' '] + w3)));
    assert(text::fields(l) =~= seq![n, w2, w3]);
    match role {
        Role::Honest => {
            assert(w3 =~= "role=honest"@);
            assert(parse_role_field(w3) == Some(Role::Honest));
        },
        Role::Absent => {
            assert(w3 =~= "role=absent"@);
            assert(w3[5] != "role=honest"@[5]);
            assert(w3 != "role=honest"@);
            assert(parse_role_field(w3) == Some(Role::Absent));
        },
        Role::Byzantine => {
            assert(w3 =~= "role=byzantine"@);
            assert(w3.len() != "role=honest"@.len());
            assert(w3 != "role=honest"@);
            assert(w3.len() != "role=absent"@.len());
            assert(w3 != "role=absent"@);
            assert(parse_role_field(w3) == Some(Role::Byzantine));
        },
    }
    assert(text::fields(l)[2] == w3);
    assert(text::fields(l)[0] == n);
    assert(text::fields(l)[1] == w2);
    assert(text::no_breaks(l)) by {
        assert forall|k: int| 0 <= k < l.len() implies #[trigger] l[k] != '\n' && l[k] != '\r' by {
            if 2 <= k < 2 + n.len() {
                assert(l[k] == n[k - 2]);
            }
        }
    }
}

proof fn lemma_slot_round_trip(ls: Seq<Seq<char>>, b: int, sv: SlotView)
    requires
        slot_well_formed(sv),
        0 <= b,
        b + 9 <= ls.len(),
        forall|k: int| 0 <= k < 9 ==> ls[b + k] == slot_line(sv, k),
    ensures
        slot_ok(ls, b),
        parsed_slot(ls, b) == sv,
        forall|k: int| 0 <= k < 9 ==> text::no_breaks(#[trigger] slot_line(sv, k)),
{
    reveal_strlit("blocks:");
    reveal_strlit("slot");
    reveal_strlit("end-slot");
    assert(ls[b] == slot_line(sv, 0));
    assert forall|j: int| 0 <= j < BLOCKS_PER_SLOT implies #[trigger] parse_block_line(ls[b + 1 + j], j) == Some(sv.block_ids[j]) by {
        assert(ls[b + 1 + j] == slot_line(sv, 1 + j));
        assert(sv.block_ids[j].len() == BLOCK_ID_BYTES);
        lemma_block_round_trip(j, sv.block_ids[j]);
    }
    assert(ls[b + 5] == slot_line(sv, 5));
    assert(ls[b + 6] == slot_line(sv, 6));
    assert(ls[b + 7] == slot_line(sv, 7));
    assert(ls[b + 8] == slot_line(sv, 8));
    lemma_round1_line_round_trip(sv.round1);
    lemma_round2_line_round_trip(sv.round2);
    assert(slot_ok(ls, b));
    let p = parsed_slot(ls, b);
    assert(p.block_ids =~= sv.block_ids);
    assert(p =~= sv);
    assert forall|k: int| 0 <= k < 9 implies text::no_breaks(#[trigger] slot_line(sv, k)) by {
        if 1 <= k <= 4 {
            lemma_block_round_trip(k - 1, sv.block_ids[k - 1]);
        } else if k == 0 || k == 5 || k == 8 {
            let l = slot_line(sv, k);
            assert forall|i: int| 0 <= i < l.len() implies #[trigger] l[i] != '\n' && l[i] != '\r' by {}
        }
    }
}

/// Parsing the rendering of a scenario of the grammar's shape gives the
/// scenario back.
pub proof fn lemma_parse_render(m: ScenarioView)
    requires
        well_formed(m),
    ensures
        parse_text(render_text(m)) == Some(m),
{
    reveal_strlit("committee:");
    let ls = render_lines(m);
    assert(ls.len() == scenario_lines());
    assert forall|i: int| 0 <= i < VALIDATOR_COUNT implies #[trigger] parse_committee_line(ls[1 + i], i) == Some(m.roles[i]) by {
        assert(ls[1 + i] == committee_line(i, m.roles[i]));
        lemma_committee_round_trip(i, m.roles[i]);
    }
    assert forall|s: int| 0 <= s < NUM_SLOTS implies #[trigger] slot_ok(ls, 1 + VALIDATOR_COUNT + 9 * s) && parsed_slot(ls, 1 + VALIDATOR_COUNT + 9 * s) == m.slots[s] by {
        assert(slot_well_formed(m.slots[s]));
        assert forall|k: int| 0 <= k < 9 implies ls[1 + VALIDATOR_COUNT + 9 * s + k] == slot_line(m.slots[s], k) by {
            assert((9 * s + k) / 9 == s);
            assert((9 * s + k) % 9 == k);
        }
        lemma_slot_round_trip(ls, 1 + VALIDATOR_COUNT + 9 * s, m.slots[s]);
    }
    assert forall|i: int| 0 <= i < ls.len() implies text::is_plain_line(#[trigger] ls[i]) by {
        if i == 0 {
            let l = ls[0];
            assert forall|q: int| 0 <= q < l.len() implies #[trigger] l[q] != '\n' && l[q] != '\r' by {}
            text::lemma_no_breaks_plain(ls[0]);
        } else if i < 1 + VALIDATOR_COUNT {
            lemma_committee_round_trip(i - 1, m.roles[i - 1]);
            text::lemma_no_breaks_plain(ls[i]);
        } else {
            let k = i - 1 - VALIDATOR_COUNT;
            let s = k / 9;
            assert(slot_well_formed(m.slots[s]));
            assert forall|q: int| 0 <= q < 9 implies ls[1 + VALIDATOR_COUNT + 9 * s + q] == slot_line(m.slots[s], q) by {
                assert((9 * s + q) / 9 == s);
                assert((9 * s + q) % 9 == q);
            }
            lemma_slot_round_trip(ls, 1 + VALIDATOR_COUNT + 9 * s, m.slots[s]);
            assert(ls[i] == slot_line(m.slots[s], k % 9));
            text::lemma_no_breaks_plain(ls[i]);
        }
    }
    text::lemma_lines_terminated(ls);
    let r = parse_lines(ls)->0;
    assert(parse_lines(ls) is Some);
    assert(r.roles =~= m.roles);
    assert forall|s: int| 0 <= s < NUM_SLOTS implies r.slots[s] == m.slots[s] by {
        assert(slot_ok(ls, 1 + VALIDATOR_COUNT + 9 * s));
    }
    assert(r.slots =~= m.slots);
    assert(r =~= m);
}

proof fn lemma_parsed_vote(s: Seq<char>)
    requires
        parse_vote_text(s) is Some,
    ensures
        vote_block(parse_vote_text(s)->0) matches Some(b) ==> b < BLOCKS_PER_SLOT,
{
}

proof fn lemma_parsed_vote_set(s: Seq<char>)
    requires
        parse_vote_set_text(s) is Some,
    ensures
        vote_set_ok(parse_vote_set_text(s)->0),
{
    let pieces = text::split_on(s, ',');
    let votes = parse_vote_set_text(s)->0;
    assert forall|i: int| 0 <= i < votes.len() implies (#[trigger] vote_block(votes[i]) matches Some(b) ==> b
        < BLOCKS_PER_SLOT) by {
        assert(parse_vote_text(pieces[i]) is Some);
        lemma_parsed_vote(pieces[i]);
    }
}

proof fn lemma_parsed_round1(line: Seq<char>)
    requires
        parse_round1_line(line) is Some,
    ensures
        (parse_round1_line(line)->0).len() == VALIDATOR_COUNT,
        forall|v: int| 0 <= v < VALIDATOR_COUNT ==> vote_set_ok(#[trigger] (parse_round1_line(line)->0)[v]),
{
    let r1 = parse_round1_line(line)->0;
    let f = text::fields(line.skip("  round1:"@.len() as int));
    assert forall|v: int| 0 <= v < VALIDATOR_COUNT implies vote_set_ok(#[trigger] r1[v]) by {
        assert(parse_assignment(f[v], v) is Some);
        let pair = text::split_once(f[v], '=')->0;
        lemma_parsed_vote_set(pair.1);
    }
}

proof fn lemma_parsed_round2(line: Seq<char>)
    requires
        parse_round2_line(line) is Some,
    ensures
        round2_ok(parse_round2_line(line)->0),
{
    let votes = parse_round2_line(line)->0;
    let pieces = text::split_on(line.skip("  round2: v1="@.len() as int), ',');
    assert forall|i: int| 0 <= i < votes.len() implies (#[trigger] round2_block(votes[i]) matches Some(b) ==> b
        < BLOCKS_PER_SLOT) by {
        assert(parse_round2_vote_text(pieces[i]) is Some);
    }
}

/// A parsed scenario has the grammar's shape.
pub proof fn lemma_parsed_well_formed(ls: Seq<Seq<char>>)
    requires
        parse_lines(ls) is Some,
    ensures
        well_formed(parse_lines(ls)->0),
{
    let m = parse_lines(ls)->0;
    assert forall|s: int| 0 <= s < NUM_SLOTS implies #[trigger] slot_well_formed(m.slots[s]) by {
        let b = 1 + VALIDATOR_COUNT + 9 * s;
        assert(slot_ok(ls, b));
        let sv = m.slots[s];
        assert(sv == parsed_slot(ls, b));
        assert forall|j: int| 0 <= j < BLOCKS_PER_SLOT implies (#[trigger] sv.block_ids[j]).len()
            == BLOCK_ID_BYTES by {
            assert(parse_block_line(ls[b + 1 + j], j) is Some);
        }
        lemma_parsed_round1(ls[b + 6]);
        lemma_parsed_round2(ls[b + 7]);
    }
}

/// A scenario of the grammar's shape can be rendered and simulated.
pub proof fn lemma_well_formed_usable(m: ScenarioView)
    requires
        well_formed(m),
    ensures
        renderable(m),
        simulatable(m),
{
    assert forall|s: int| 0 <= s < m.slots.len() implies slot_renderable(#[trigger] m.slots[s]) by {
        assert(slot_well_formed(m.slots[s]));
        assert forall|v: int| 0 <= v < m.slots[s].round1.len() implies votes_numbered(#[trigger] m.slots[s].round1[v]) by {
            assert(vote_set_ok(m.slots[s].round1[v]));
        }
    }
    assert forall|s: int, v: int|
        0 <= s < m.slots.len() && 0 <= v < m.slots[s].round1.len() implies notarizations_in_range(
            #[trigger] m.slots[s].round1[v],
        ) by {
        assert(slot_well_formed(m.slots[s]));
        let votes = m.slots[s].round1[v];
        assert(vote_set_ok(votes));
        assert forall|j: int| 0 <= j < votes.len() implies (#[trigger] votes[j] matches Vote::Block(b) ==> b < BLOCKS_PER_SLOT) by {
            assert(vote_block(votes[j]) matches Some(b) ==> b < BLOCKS_PER_SLOT);
        }
    }
}

// ---------------------------------------------------------------------------
// Generation
// ---------------------------------------------------------------------------
/// The role that a draw of `0..3` stands for.
pub open spec fn role_of_draw(draw: i32) -> Role {
    if draw == 0 {
        Role::Honest
    } else if draw == 1 {
        Role::Absent
    } else {
        Role::Byzantine
    }
}

/// The role that a draw of `0..3` stands for: honest, absent, byzantine.
pub fn role_for_draw(draw: i32) -> (role: Role)
    requires
        0 <= draw < 3,
    ensures
        role == role_of_draw(draw),
{
    match draw {
        0 => Role::Honest,
        1 => Role::Absent,
        _ => Role::Byzantine,
    }
}

/// A random role for every validator.
pub fn generate_roles(rng: &mut StdRng) -> (roles: Vec<Role>)
    ensures
        roles@.len() == VALIDATOR_COUNT,
{
    let mut roles: Vec<Role> = Vec::new();
    let mut i: usize = 0;
    while i < VALIDATOR_COUNT
        invariant
            i <= VALIDATOR_COUNT,
            roles@.len() == i,
        decreases VALIDATOR_COUNT - i,
    {
        let draw = rng::random_i32(rng, 0, 3);
        roles.push(role_for_draw(draw));
        i += 1;
    }
    roles
}

/// The observer's first-round vote that a draw of `0..=4` stands for: a
/// skip for 0, otherwise the block one below the draw.
pub open spec fn observer_vote_of_draw(draw: usize) -> Vote {
    if draw == 0 {
        Vote::Skip
    } else {
        Vote::Block((draw - 1) as usize)
    }
}

/// The observer's first-round vote that a draw of `0..=4` stands for.
pub fn observer_vote_for_draw(draw: usize) -> (vote: Vote)
    requires
        draw <= BLOCKS_PER_SLOT,
    ensures
        vote == observer_vote_of_draw(draw),
        observer_vote_ok(seq![vote]),
        vote_set_ok(seq![vote]),
        notarizations_in_range(seq![vote]),
{
    let vote = if draw == 0 {
        Vote::Skip
    } else {
        Vote::Block(draw - 1)
    };
    proof {
        assert(!seq![vote].contains(Vote::Absent)) by {
            if seq![vote].contains(Vote::Absent) {
                let k = choose|k: int| 0 <= k < 1 && seq![vote][k] == Vote::Absent;
                assert(seq![vote][k] == vote);
            }
        }
    }
    vote
}

/// The observer's random first-round vote: a skip or one of the slot's
/// blocks.
pub fn generate_observer_vote(rng: &mut StdRng) -> (vote: Vote)
    ensures
        observer_vote_ok(seq![vote]),
        vote_set_ok(seq![vote]),
        notarizations_in_range(seq![vote]),
{
    let draw = rng::random_usize(rng, 0, BLOCKS_PER_SLOT + 1);
    observer_vote_for_draw(draw)
}

/// The vote that a draw of `0..10` stands for in a vote set: blocks 0 to 3,
/// then notar-fallbacks on blocks 0 to 3, then skip and skip-fallback.
pub open spec fn vote_of_choice(choice: usize) -> Vote {
    if choice < BLOCKS_PER_SLOT {
        Vote::Block(choice)
    } else if choice < BLOCKS_PER_SLOT * 2 {
        Vote::NotarFallback((choice - BLOCKS_PER_SLOT) as usize)
    } else if choice == BLOCKS_PER_SLOT * 2 {
        Vote::Skip
    } else {
        Vote::SkipFallback
    }
}

/// The vote set that the draws stand for: `absent` alone when
/// `absent_draw` is 0, otherwise the vote of each choice in turn.
pub open spec fn vote_set_of_draws(absent_draw: i32, choices: Seq<usize>) -> Seq<Vote> {
    if absent_draw == 0 {
        seq![Vote::Absent]
    } else {
        choices.map_values(|c: usize| vote_of_choice(c))
    }
}

/// A validator's first-round votes from its draws: `absent` alone when
/// `absent_draw` is 0, otherwise one vote for each choice of `0..10`.
pub fn vote_set_for_draws(absent_draw: i32, choices: &Vec<usize>) -> (votes: Vec<Vote>)
    requires
        absent_draw != 0 ==> 1 <= choices@.len() <= MAX_VOTES_PER_VALIDATOR,
        absent_draw != 0 ==> forall|j: int| 0 <= j < choices@.len() ==> #[trigger] choices@[j] < BLOCKS_PER_SLOT * 2 + 2,
    ensures
        votes@ == vote_set_of_draws(absent_draw, choices@),
        vote_set_ok(votes@),
        notarizations_in_range(votes@),
{
    if absent_draw == 0 {
        let votes = vec![Vote::Absent];
        assert(votes@ =~= seq![Vote::Absent]);
        return votes;
    }
    let ghost want = vote_set_of_draws(absent_draw, choices@);
    let mut votes: Vec<Vote> = Vec::new();
    let mut i: usize = 0;
    while i < choices.len()
        invariant
            absent_draw != 0,
            want == vote_set_of_draws(absent_draw, choices@),
            want.len() == choices@.len(),
            1 <= choices@.len() <= MAX_VOTES_PER_VALIDATOR,
            forall|j: int| 0 <= j < choices@.len() ==> #[trigger] choices@[j] < BLOCKS_PER_SLOT * 2 + 2,
            i <= choices@.len(),
            votes@ == want.take(i as int),
        decreases choices.len() - i,
    {
        let choice = choices[i];
        let vote = if choice < BLOCKS_PER_SLOT {
            Vote::Block(choice)
        } else if choice < BLOCKS_PER_SLOT * 2 {
            Vote::NotarFallback(choice - BLOCKS_PER_SLOT)
        } else if choice == BLOCKS_PER_SLOT * 2 {
            Vote::Skip
        } else {
            Vote::SkipFallback
        };
        assert(vote == want[i as int]);
        votes.push(vote);
        i += 1;
        assert(votes@ =~= want.take(i as int));
    }
    proof {
        assert(votes@ =~= want);
        assert(!votes@.contains(Vote::Absent)) by {
            if votes@.contains(Vote::Absent) {
                let k = choose|k: int| 0 <= k < votes@.len() && votes@[k] == Vote::Absent;
                assert(votes@[k] == vote_of_choice(choices@[k]));
            }
        }
        assert forall|j: int| 0 <= j < votes@.len() implies (#[trigger] vote_block(votes@[j]) matches Some(b) ==> b < BLOCKS_PER_SLOT) by {
            assert(votes@[j] == vote_of_choice(choices@[j]));
        }
        assert forall|j: int| 0 <= j < votes@.len() implies (#[trigger] votes@[j] matches Vote::Block(b) ==> b < BLOCKS_PER_SLOT) by {
            assert(vote_block(votes@[j]) matches Some(b) ==> b < BLOCKS_PER_SLOT);
        }
    }
    votes
}

/// A validator's random first-round votes: `absent` alone one time in
/// eleven, otherwise one to five votes of any kind, repeats and conflicts
/// included, on the slot's blocks.
pub fn generate_vote_set(rng: &mut StdRng) -> (votes: Vec<Vote>)
    ensures
        vote_set_ok(votes@),
        notarizations_in_range(votes@),
{
    let absent_draw = rng::random_i32(rng, 0, 11);
    let mut choices: Vec<usize> = Vec::new();
    if absent_draw != 0 {
        let count = rng::random_usize(rng, 1, MAX_VOTES_PER_VALIDATOR + 1);
        let mut i: usize = 0;
        while i < count
            invariant
                i <= count <= MAX_VOTES_PER_VALIDATOR,
                choices@.len() == i,
                forall|j: int| 0 <= j < i ==> #[trigger] choices@[j] < BLOCKS_PER_SLOT * 2 + 2,
            decreases count - i,
        {
            choices.push(rng::random_usize(rng, 0, BLOCKS_PER_SLOT * 2 + 2));
            i += 1;
        }
    }
    vote_set_for_draws(absent_draw, &choices)
}

/// The first round of a slot: the observer's single vote, then a random
/// vote set for every other validator.
fn generate_round1(rng: &mut StdRng) -> (round1: Vec<Vec<Vote>>)
    ensures
        round1@.len() == VALIDATOR_COUNT,
        observer_vote_ok(round1@[0]@),
        forall|v: int| 0 <= v < VALIDATOR_COUNT ==> vote_set_ok(#[trigger] round1@[v]@),
        forall|v: int| 0 <= v < VALIDATOR_COUNT ==> notarizations_in_range(#[trigger] round1@[v]@),
{
    let mut round1: Vec<Vec<Vote>> = Vec::new();
    let observer = generate_observer_vote(rng);
    let first = vec![observer];
    assert(first@ =~= seq![observer]);
    round1.push(first);
    let mut v: usize = 1;
    while v < VALIDATOR_COUNT
        invariant
            1 <= v <= VALIDATOR_COUNT,
            round1@.len() == v,
            observer_vote_ok(round1@[0]@),
            forall|i: int| 0 <= i < v ==> vote_set_ok(#[trigger] round1@[i]@),
            forall|i: int| 0 <= i < v ==> notarizations_in_range(#[trigger] round1@[i]@),
        decreases VALIDATOR_COUNT - v,
    {
        let votes = generate_vote_set(rng);
        round1.push(votes);
        v += 1;
    }
    round1
}

/// The views of a sequence of slots.
pub open spec fn slots_view(slots: Seq<Slot>) -> Seq<SlotView> {
    slots.map_values(|s: Slot| s@)
}

impl Scenario {
    /// A random scenario of the grammar's shape whose second rounds are the
    /// ones the protocol's rules give, slot after slot.
    pub fn generate(rng: &mut StdRng) -> (scenario: Scenario)
        ensures
            well_formed(scenario@),
            violations_of(scenario@) == Seq::<Seq<char>>::empty(),
            parse_text(render_text(scenario@)) == Some(scenario@),
    {
        let roles = generate_roles(rng);
        let mut slots: Vec<Slot> = Vec::new();
        let mut observer_already_skipped = false;
        let mut logical_slot: usize = 0;
        assert(slots_view(slots@) =~= Seq::<SlotView>::empty());
        while logical_slot < NUM_SLOTS
            invariant
                logical_slot <= NUM_SLOTS,
                slots@.len() == logical_slot,
                forall|s: int| 0 <= s < logical_slot ==> #[trigger] slot_well_formed(slots@[s]@),
                slot_checks(slots_view(slots@)) == (Seq::<Seq<char>>::empty(), observer_already_skipped),
            decreases NUM_SLOTS - logical_slot,
        {
            if logical_slot % LEADER_WINDOW_SLOTS == 0 {
                observer_already_skipped = false;
            }
            let block_ids = generate_block_ids(rng);
            let round1 = generate_round1(rng);
            let (round2, skips_rest_of_window) = simulate_round2(
                &round1,
                logical_slot,
                observer_already_skipped,
            );
            let ghost r1 = round1_view(round1@);
            proof {
                assert forall|i: int| 0 <= i < r1.len() implies notarizations_in_range(#[trigger] r1[i]) by {
                    assert(r1[i] == round1@[i]@);
                }
                lemma_round2_shape(r1, logical_slot as int, observer_already_skipped);
            }
            let slot = Slot { block_ids, round1, round2 };
            proof {
                assert forall|v: int| 0 <= v < VALIDATOR_COUNT implies vote_set_ok(#[trigger] slot@.round1[v]) by {
                    assert(slot@.round1[v] == round1@[v]@);
                }
                assert(slot_well_formed(slot@));
            }
            let ghost before = slots@;
            let ghost skipped_before = observer_already_skipped;
            slots.push(slot);
            observer_already_skipped = observer_already_skipped || skips_rest_of_window;
            proof {
                assert forall|s: int| 0 <= s < logical_slot + 1 implies #[trigger] slot_well_formed(slots@[s]@) by {
                    if s < logical_slot {
                        assert(slots@[s] == before[s]);
                    }
                }
                assert(slots_view(slots@).drop_last() =~= slots_view(before));
                assert(slots_view(slots@).last() == slot@);
                assert(slot@.round1 == r1);
                assert(slot@.round1[0] == round1@[0]@);
                assert(observer_vote_ok(slot@.round1[0]));
                let sc = slot_checks(slots_view(slots@));
                assert(sc.0 =~= Seq::<Seq<char>>::empty());
            }
            logical_slot += 1;
        }
        let scenario = Scenario { roles, slots };
        proof {
            let m = scenario@;
            assert(m.slots == slots_view(slots@));
            assert forall|s: int| 0 <= s < NUM_SLOTS implies #[trigger] slot_well_formed(m.slots[s]) by {
                assert(m.slots[s] == slots@[s]@);
            }
            assert(violations_of(m) =~= Seq::<Seq<char>>::empty());
            lemma_parse_render(m);
        }
        scenario
    }
}

// ---------------------------------------------------------------------------
// Checking generated trees
// ---------------------------------------------------------------------------
/// The complaints about a generated tree, given the text it writes out:
/// every violation of the scenario it describes, or the reason it describes
/// none.
pub open spec fn text_violations(t: Seq<char>) -> Seq<Seq<char>> {
    match parse_text(t) {
        Some(m) => violations_of(m),
        None => seq![parse_error(text::lines(t))],
    }
}

/// Generated scenarios pass the checks: the text that [`generate_tree`]
/// returns (it parses, is well formed and breaks no rule) gives no
/// violation, so a visitor that checks a tree whose output is that text,
/// as UTF-8, records none.
pub proof fn lemma_generated_text_passes(t: Seq<char>, output: Seq<u8>)
    requires
        parse_text(t) matches Some(m) && well_formed(m) && violations_of(m) == Seq::<Seq<char>>::empty(),
        vstd::utf8::valid_utf8(output),
        vstd::utf8::decode_utf8(output) == t,
    ensures
        text_violations(vstd::utf8::decode_utf8(output)) == Seq::<Seq<char>>::empty(),
{
}

/// Checks generated trees against the committee, slot and first-round
/// rules and the observer's simulated second round, and collects what it
/// finds.
pub struct ConstraintVisitor {
    checked: bool,
    violations: Vec<String>,
    paths: Vec<VecDeque<usize>>,
}

impl Default for ConstraintVisitor {
    /// A visitor that has checked nothing.
    fn default() -> (v: Self)
        ensures
            !v.spec_checked(),
            v.violation_texts() == Seq::<Seq<char>>::empty(),
            v.path_seqs() == Seq::<Seq<usize>>::empty(),
    {
        Self::new()
    }
}

impl ConstraintVisitor {
    pub closed spec fn spec_checked(&self) -> bool {
        self.checked
    }

    /// The violations found so far.
    pub closed spec fn violation_texts(&self) -> Seq<Seq<char>> {
        self.violations.deep_view()
    }

    /// The derivation-tree path of each violation.
    pub closed spec fn path_seqs(&self) -> Seq<Seq<usize>> {
        self.paths@.map_values(|p: VecDeque<usize>| p@)
    }

    /// A visitor that has checked nothing.
    pub fn new() -> (v: Self)
        ensures
            !v.spec_checked(),
            v.violation_texts() == Seq::<Seq<char>>::empty(),
            v.path_seqs() == Seq::<Seq<usize>>::empty(),
    {
        let v = ConstraintVisitor { checked: false, violations: Vec::new(), paths: Vec::new() };
        assert(v.violation_texts() =~= Seq::<Seq<char>>::empty());
        assert(v.path_seqs() =~= Seq::<Seq<usize>>::empty());
        v
    }

    /// Whether a start node has been visited.
    pub fn checked(&self) -> (r: bool)
        ensures
            r == self.spec_checked(),
    {
        self.checked
    }

    /// Constraint violations discovered while visiting the root.
    pub fn violations(&self) -> (r: &[String])
        ensures
            r@.len() == self.violation_texts().len(),
            forall|i: int| 0 <= i < r@.len() ==> #[trigger] r@[i]@ == self.violation_texts()[i],
    {
        self.violations.as_slice()
    }

    /// Derivation-tree paths associated with the violations.
    pub fn paths(&self) -> (r: &[VecDeque<usize>])
        ensures
            r@.len() == self.path_seqs().len(),
            forall|i: int| 0 <= i < r@.len() ==> #[trigger] r@[i]@ == self.path_seqs()[i],
    {
        self.paths.as_slice()
    }

    fn record(&mut self, index: usize, violation: String)
        ensures
            final(self).spec_checked() == old(self).spec_checked(),
            final(self).violation_texts() == old(self).violation_texts().push(violation@),
            final(self).path_seqs() == old(self).path_seqs().push(seq![index]),
    {
        self.violations.push(violation);
        let mut path: VecDeque<usize> = VecDeque::new();
        path.push_back(index);
        self.paths.push(path);
        assert(self.violation_texts() =~= old(self).violation_texts().push(violation@));
        assert(self.path_seqs() =~= old(self).path_seqs().push(seq![index]));
    }

    /// Visits the start node at `index`, given the bytes that the tree writes
    /// out: undecodable bytes, an unparsable text and every violation of a
    /// parsed scenario are each recorded with the path `[index]`.
    pub fn visit_output(&mut self, output: Vec<u8>, index: usize)
        ensures
            final(self).spec_checked(),
            final(self).violation_texts().len() >= old(self).violation_texts().len(),
            final(self).violation_texts().take(old(self).violation_texts().len() as int)
                == old(self).violation_texts(),
            final(self).path_seqs() == old(self).path_seqs() + Seq::new(
                (final(self).violation_texts().len() - old(self).violation_texts().len()) as nat,
                |i: int| seq![index],
            ),
            ({
                let added = final(self).violation_texts().skip(
                    old(self).violation_texts().len() as int,
                );
                if !vstd::utf8::valid_utf8(output@) {
                    added.len() == 1 && text::has_prefix(
                        added[0],
                        "generated tree is not UTF-8: "@,
                    )
                } else {
                    added == text_violations(vstd::utf8::decode_utf8(output@))
                }
            }),
    {
        let ghost n = self.violation_texts().len();
        let ghost old_paths = self.path_seqs();
        let ghost old_texts = self.violation_texts();
        self.checked = true;
        let input = match text::string_from_utf8(output) {
            Ok(input) => input,
            Err(error) => {
                let mut msg = text::string_from("generated tree is not UTF-8: ");
                let detail = error.to_string();
                let ghost head = msg@;
                let d = text::as_chars(&detail);
                text::push_chars(&mut msg, &d);
                self.record(index, msg);
                proof {
                    text::lemma_has_prefix_concat(head, d@);
                    assert(self.violation_texts().skip(n as int) =~= seq![msg@]);
                    assert(self.violation_texts().take(n as int) =~= old_texts);
                    assert(self.path_seqs() =~= old_paths + Seq::new(1, |i: int| seq![index]));
                }
                return;
            },
        };
        match Scenario::parse(input.as_str()) {
            Ok(scenario) => {
                proof {
                    lemma_parsed_well_formed(text::lines(input@));
                    lemma_well_formed_usable(scenario@);
                }
                let found = scenario.validate();
                let mut i: usize = 0;
                while i < found.len()
                    invariant
                        i <= found.len(),
                        self.spec_checked(),
                        self.violation_texts() == old_texts + found.deep_view().take(i as int),
                        self.path_seqs() == old_paths + Seq::new(i as nat, |k: int| seq![index]),
                    decreases found.len() - i,
                {
                    let v = found[i].clone();
                    proof {
                        assert(found.deep_view()[i as int] == found@[i as int]@);
                    }
                    self.record(index, v);
                    assert(self.violation_texts() =~= old_texts + found.deep_view().take(i + 1));
                    assert(self.path_seqs() =~= old_paths + Seq::new((i + 1) as nat, |k: int| seq![index]));
                    i += 1;
                }
                assert(found.deep_view().take(i as int) =~= found.deep_view());
                assert(self.violation_texts().skip(n as int) =~= found.deep_view());
                assert(self.violation_texts().take(n as int) =~= old_texts);
            },
            Err(error) => {
                self.record(index, error);
                assert(self.violation_texts().skip(n as int) =~= seq![error@]);
                assert(self.violation_texts().take(n as int) =~= old_texts);
                assert(self.path_seqs() =~= old_paths + Seq::new(1, |i: int| seq![index]));
            },
        }
    }
}

/// Generates scenarios whose text satisfies every constraint.
pub struct AlpenglowGenerator;

impl AlpenglowGenerator {
    /// Generates one scenario and returns its text, which parses back to a
    /// scenario without violations.
    pub fn generate(&mut self, rng: &mut StdRng) -> (r: Option<String>)
        ensures
            r matches Some(t) && parse_text(t@) matches Some(m) && well_formed(m)
                && violations_of(m) == Seq::<Seq<char>>::empty(),
    {
        let scenario = Scenario::generate(rng);
        proof {
            lemma_well_formed_usable(scenario@);
        }
        Some(scenario.render())
    }
}

/// Whether a grammar file, by its name (the last component of its path),
/// is the Alpenglow grammar, `alpenglow-simpler.fan`.
pub fn is_alpenglow_target(file_name: &str) -> (b: bool)
    ensures
        b == (file_name@ == "alpenglow-simpler.fan"@),
{
    let name = text::chars_of(file_name);
    text::equals_str(&name, "alpenglow-simpler.fan")
}

/// Generates the text of one scenario that satisfies every constraint.
pub fn generate_tree(rng: &mut StdRng) -> (t: String)
    ensures
        parse_text(t@) matches Some(m) && well_formed(m) && violations_of(m) == Seq::<
            Seq<char>,
        >::empty(),
{
    let mut generator = AlpenglowGenerator;
    match generator.generate(rng) {
        Some(t) => t,
        None => String::new(),
    }
}

/// Checks the bytes that a tree writes out: `Ok` when nothing is found,
/// otherwise every violation.
pub fn validate_tree(output: Vec<u8>) -> (r: Result<(), Vec<String>>)
    ensures
        r is Ok <==> (vstd::utf8::valid_utf8(output@) && text_violations(
            vstd::utf8::decode_utf8(output@),
        ) == Seq::<Seq<char>>::empty()),
        match r {
            Err(v) => if vstd::utf8::valid_utf8(output@) {
                v.deep_view() == text_violations(vstd::utf8::decode_utf8(output@))
            } else {
                v.deep_view().len() == 1 && text::has_prefix(
                    v.deep_view()[0],
                    "generated tree is not UTF-8: "@,
                )
            },
            Ok(_) => true,
        },
{
    let mut visitor = ConstraintVisitor::new();
    visitor.visit_output(output, 0);
    if visitor.violations.len() == 0 {
        Ok(())
    } else {
        proof {
            assert(visitor.violation_texts().skip(0) =~= visitor.violation_texts());
        }
        Err(visitor.violations)
    }
}

} // verus!
