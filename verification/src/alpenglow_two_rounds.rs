//! Scenarios of the two-round Alpenglow grammar: a committee of staked
//! validators and, for every slot, four block identifiers and two rounds of
//! one vote per validator.

use vstd::prelude::*;
use crate::format::{
    block_error, block_line, block_number, block_number_error, block_ok, block_prefix, block_prefix_chars, enclosed,
    expect_error, expect_line, first_block_error, first_trailing_error, lemma_first_block_error,
    lemma_first_trailing_error, slot_suffix,
    generate_block_ids, lemma_block_number, lemma_block_round_trip, lemma_enclosed,
    lemma_fields_lone_word, lemma_take_push, lemma_v_name, parse_block_line, parse_block_number,
    push_block_line, push_message, push_quoted, push_v_name, strip_enclosed, v_name,
    v_name_chars, BLOCKS_PER_SLOT, BLOCK_ID_BYTES,
};
pub use crate::coverage::{grammar_fingerprint, KPathCoverage};
use crate::rng;
use crate::text;
use rand::rngs::StdRng;
use std::collections::VecDeque;

verus! {

/// The grammar target of the two-round Alpenglow grammar: a marker type that
/// names it.
pub struct AlpenglowTwoRounds;

pub const NUM_SLOTS: usize = 32;

pub const VALIDATOR_COUNT: usize = 100;

pub const TOTAL_STAKE: u64 = 10_000_000_000;

/// One validator's vote in one round.
#[derive(Clone, Copy, Debug, PartialEq, Eq, Structural)]
pub enum Vote {
    Skip,
    Finalize,
    Notarize(usize),
    NotarizeFallback(usize),
    SkipFallback,
    Absent,
}

/// One slot: its candidate blocks and both voting rounds.
#[derive(Debug, PartialEq, Eq)]
pub struct Slot {
    pub block_ids: [[u8; BLOCK_ID_BYTES]; BLOCKS_PER_SLOT],
    pub round1: Vec<Vote>,
    pub round2: Vec<Vote>,
}

/// A whole scenario: the stake of every validator and every slot.
#[derive(Debug, PartialEq, Eq)]
pub struct Scenario {
    pub stakes: Vec<u64>,
    pub slots: Vec<Slot>,
}

/// The mathematical content of a [`Slot`].
#[verifier::ext_equal]
pub struct SlotView {
    pub block_ids: Seq<Seq<u8>>,
    pub round1: Seq<Vote>,
    pub round2: Seq<Vote>,
}

/// The mathematical content of a [`Scenario`].
#[verifier::ext_equal]
pub struct ScenarioView {
    pub stakes: Seq<u64>,
    pub slots: Seq<SlotView>,
}

impl View for Slot {
    type V = SlotView;

    open spec fn view(&self) -> SlotView {
        SlotView {
            block_ids: self.block_ids@.map_values(|b: [u8; BLOCK_ID_BYTES]| b@),
            round1: self.round1@,
            round2: self.round2@,
        }
    }
}

impl View for Scenario {
    type V = ScenarioView;

    open spec fn view(&self) -> ScenarioView {
        ScenarioView { stakes: self.stakes@, slots: self.slots@.map_values(|s: Slot| s@) }
    }
}

// ---------------------------------------------------------------------------
// The text format
// ---------------------------------------------------------------------------
/// The block that a vote names, if any.
pub open spec fn vote_block(v: Vote) -> Option<usize> {
    match v {
        Vote::Notarize(b) => Some(b),
        Vote::NotarizeFallback(b) => Some(b),
        _ => None,
    }
}

pub open spec fn vote_text(v: Vote) -> Seq<char> {
    match v {
        Vote::Skip => "skip"@,
        Vote::Finalize => "finalize"@,
        Vote::Notarize(b) => "notarize(b"@ + text::decimal((b + 1) as nat) + ")"@,
        Vote::NotarizeFallback(b) => "notarizefallback(b"@ + text::decimal((b + 1) as nat) + ")"@,
        Vote::SkipFallback => "skip-fallback"@,
        Vote::Absent => "absent"@,
    }
}

/// ` v1=<vote> v2=<vote> ...`
pub open spec fn round_text(votes: Seq<Vote>) -> Seq<char>
    decreases votes.len(),
{
    if votes.len() == 0 {
        seq![]
    } else {
        round_text(votes.drop_last()) + seq![' '] + v_name(votes.len()) + seq!['=']
            + vote_text(votes.last())
    }
}

pub open spec fn committee_line(i: int, stake: u64) -> Seq<char> {
    "  "@ + v_name((i + 1) as nat) + " stake="@ + text::decimal(stake as nat)
}

/// The `k`-th of the nine lines of a slot.
pub open spec fn slot_line(s: SlotView, k: int) -> Seq<char> {
    if k == 0 {
        "blocks:"@
    } else if k <= 4 {
        block_line(k - 1, s.block_ids[k - 1])
    } else if k == 5 {
        "slot"@
    } else if k == 6 {
        "  round1:"@ + round_text(s.round1)
    } else if k == 7 {
        "  round2:"@ + round_text(s.round2)
    } else {
        "end-slot"@
    }
}

/// The lines of a rendered scenario.
pub open spec fn render_lines(m: ScenarioView) -> Seq<Seq<char>> {
    seq!["committee:"@] + Seq::new(m.stakes.len(), |i: int| committee_line(i, m.stakes[i]))
        + Seq::new(9 * m.slots.len(), |k: int| slot_line(m.slots[k / 9], k % 9))
}

/// The rendered text of a scenario.
pub open spec fn render_text(m: ScenarioView) -> Seq<char> {
    text::terminated(render_lines(m))
}

/// Whether every vote names a block whose number (`block + 1`) fits in `usize`.
pub open spec fn votes_numbered(votes: Seq<Vote>) -> bool {
    forall|i: int|
        0 <= i < votes.len() ==> (#[trigger] vote_block(votes[i]) matches Some(b) ==> b
            < usize::MAX)
}

/// Whether the scenario can be rendered without an overflowing block number.
pub open spec fn renderable(m: ScenarioView) -> bool {
    forall|s: int|
        0 <= s < m.slots.len() ==> votes_numbered(#[trigger] m.slots[s].round1)
            && votes_numbered(m.slots[s].round2)
}

// ---------------------------------------------------------------------------
// Rendering
// ---------------------------------------------------------------------------
/// Appends the text of one vote.
pub fn render_vote(output: &mut String, vote: Vote)
    requires
        vote_block(vote) matches Some(b) ==> b < usize::MAX,
    ensures
        final(output)@ == old(output)@ + vote_text(vote),
{
    match vote {
        Vote::Skip => text::push_str(output, "skip"),
        Vote::Finalize => text::push_str(output, "finalize"),
        Vote::Notarize(block) => {
            text::push_str(output, "notarize(b");
            text::push_decimal(output, block as u64 + 1);
            text::push_str(output, ")");
        },
        Vote::NotarizeFallback(block) => {
            text::push_str(output, "notarizefallback(b");
            text::push_decimal(output, block as u64 + 1);
            text::push_str(output, ")");
        },
        Vote::SkipFallback => text::push_str(output, "skip-fallback"),
        Vote::Absent => text::push_str(output, "absent"),
    }
    assert(final(output)@ =~= old(output)@ + vote_text(vote));
}

/// Appends ` v1=<vote> v2=<vote> ...` for a round.
pub fn render_round(output: &mut String, votes: &Vec<Vote>)
    requires
        votes_numbered(votes@),
    ensures
        final(output)@ == old(output)@ + round_text(votes@),
{
    let mut validator: usize = 0;
    while validator < votes.len()
        invariant
            validator <= votes.len(),
            votes_numbered(votes@),
            output@ == old(output)@ + round_text(votes@.take(validator as int)),
        decreases votes.len() - validator,
    {
        let ghost before = output@;
        text::push_char(output, ' ');
        push_v_name(output, validator as u64 + 1);
        text::push_char(output, '=');
        assert(vote_block(votes@[validator as int]) matches Some(b) ==> b < usize::MAX);
        render_vote(output, votes[validator]);
        proof {
            let t = votes@.take(validator + 1);
            assert(t.drop_last() =~= votes@.take(validator as int));
            assert(output@ =~= old(output)@ + round_text(t));
        }
        validator += 1;
    }
    assert(votes@.take(validator as int) =~= votes@);
}

fn render_slot(output: &mut String, slot: &Slot)
    requires
        votes_numbered(slot@.round1),
        votes_numbered(slot@.round2),
    ensures
        final(output)@ == old(output)@ + text::terminated(
            Seq::new(9, |k: int| slot_line(slot@, k)),
        ),
{
    let ghost piece = Seq::new(9, |k: int| slot_line(slot@, k));
    let ghost start = old(output)@;
    assert(piece.take(0) =~= Seq::<Seq<char>>::empty());
    assert(text::terminated(piece.take(0)) =~= Seq::<char>::empty());
    text::push_str(output, "blocks:");
    text::push_char(output, '\n');
    proof {
        lemma_take_push(piece, 0);
        assert(output@ =~= start + text::terminated(piece.take(1)));
    }
    let mut index: usize = 0;
    while index < BLOCKS_PER_SLOT
        invariant
            piece == Seq::new(9, |k: int| slot_line(slot@, k)),
            index <= BLOCKS_PER_SLOT,
            output@ == start + text::terminated(piece.take(1 + index)),
        decreases BLOCKS_PER_SLOT - index,
    {
        let ghost before = output@;
        push_block_line(output, index, &slot.block_ids[index]);
        text::push_char(output, '\n');
        proof {
            assert(slot@.block_ids[index as int] == slot.block_ids[index as int]@);
            lemma_take_push(piece, 1 + index);
            assert(output@ =~= start + text::terminated(piece.take(1 + index + 1)));
        }
        index += 1;
    }
    text::push_str(output, "slot");
    text::push_char(output, '\n');
    proof {
        lemma_take_push(piece, 5);
        assert(output@ =~= start + text::terminated(piece.take(6)));
    }
    text::push_str(output, "  round1:");
    render_round(output, &slot.round1);
    text::push_char(output, '\n');
    proof {
        lemma_take_push(piece, 6);
        assert(output@ =~= start + text::terminated(piece.take(7)));
    }
    text::push_str(output, "  round2:");
    render_round(output, &slot.round2);
    text::push_char(output, '\n');
    proof {
        lemma_take_push(piece, 7);
        assert(output@ =~= start + text::terminated(piece.take(8)));
    }
    text::push_str(output, "end-slot");
    text::push_char(output, '\n');
    proof {
        lemma_take_push(piece, 8);
        assert(output@ =~= start + text::terminated(piece.take(9)));
        assert(piece.take(9) =~= piece);
    }
}

impl Scenario {
    /// Renders the scenario in the grammar's text format.
    pub fn render(&self) -> (output: String)
        requires
            renderable(self@),
        ensures
            output@ == render_text(self@),
    {
        let ghost m = self@;
        let ghost ls = render_lines(m);
        let ghost n = m.stakes.len();
        let mut output = String::new();
        text::push_str(&mut output, "committee:");
        text::push_char(&mut output, '\n');
        proof {
            assert(ls[0] == "committee:"@);
            lemma_take_push(ls, 0);
            assert(ls.take(0) =~= Seq::<Seq<char>>::empty());
            assert(text::terminated(ls.take(0)) =~= Seq::<char>::empty());
            assert(output@ =~= text::terminated(ls.take(1)));
        }
        let mut index: usize = 0;
        while index < self.stakes.len()
            invariant
                m == self@,
                ls == render_lines(m),
                n == self.stakes.len(),
                index <= n,
                output@ == text::terminated(ls.take(1 + index)),
            decreases n - index,
        {
            let ghost before = output@;
            text::push_str(&mut output, "  ");
            push_v_name(&mut output, index as u64 + 1);
            text::push_str(&mut output, " stake=");
            text::push_decimal(&mut output, self.stakes[index]);
            proof {
                assert(ls[1 + index] == committee_line(index as int, m.stakes[index as int]));
                assert(output@ =~= before + ls[1 + index]);
            }
            text::push_char(&mut output, '\n');
            proof {
                lemma_take_push(ls, 1 + index);
            }
            index += 1;
        }
        let mut s: usize = 0;
        while s < self.slots.len()
            invariant
                m == self@,
                ls == render_lines(m),
                n == self.stakes.len(),
                renderable(m),
                s <= self.slots.len(),
                output@ == text::terminated(ls.take(1 + n + 9 * s)),
            decreases self.slots.len() - s,
        {
            let ghost sv = m.slots[s as int];
            let ghost base = 1 + n + 9 * s;
            assert(sv == self.slots[s as int]@);
            assert(votes_numbered(m.slots[s as int].round1));
            render_slot(&mut output, &self.slots[s]);
            proof {
                let piece = Seq::new(9, |k: int| slot_line(sv, k));
                assert forall|k: int| 0 <= k < 9 implies ls[base + k] == piece[k] by {
                    assert((9 * s + k) / 9 == s as int);
                    assert((9 * s + k) % 9 == k);
                }
                assert(ls.take(base + 9) =~= ls.take(base) + piece);
                text::lemma_terminated_concat(ls.take(base), piece);
            }
            s += 1;
        }
        assert(ls.take(1 + n + 9 * s) =~= ls);
        output
    }
}


// ---------------------------------------------------------------------------
// Parsing
// ---------------------------------------------------------------------------
/// The vote that a text denotes.
pub open spec fn parse_vote_text(s: Seq<char>) -> Option<Vote> {
    if s == "skip"@ {
        Some(Vote::Skip)
    } else if s == "finalize"@ {
        Some(Vote::Finalize)
    } else if s == "skip-fallback"@ {
        Some(Vote::SkipFallback)
    } else if s == "absent"@ {
        Some(Vote::Absent)
    } else if enclosed(s, "notarize(b"@) is Some {
        match block_number(enclosed(s, "notarize(b"@)->0) {
            Some(b) => Some(Vote::Notarize(b)),
            None => None,
        }
    } else if enclosed(s, "notarizefallback(b"@) is Some {
        match block_number(enclosed(s, "notarizefallback(b"@)->0) {
            Some(b) => Some(Vote::NotarizeFallback(b)),
            None => None,
        }
    } else {
        None
    }
}

/// The vote of an assignment `v<i+1>=<vote>`.
pub open spec fn parse_assignment(a: Seq<char>, i: int) -> Option<Vote> {
    match text::split_once(a, '=') {
        Some((name, enc)) => if name == v_name((i + 1) as nat) {
            parse_vote_text(enc)
        } else {
            None
        },
        None => None,
    }
}

/// The votes of a round line that begins with `prefix`.
pub open spec fn parse_round_line(line: Seq<char>, prefix: Seq<char>) -> Option<Seq<Vote>> {
    if !text::has_prefix(line, prefix) {
        None
    } else {
        let f = text::fields(line.skip(prefix.len() as int));
        if f.len() == VALIDATOR_COUNT && forall|i: int|
            0 <= i < VALIDATOR_COUNT ==> (#[trigger] parse_assignment(f[i], i)) is Some {
            Some(Seq::new(VALIDATOR_COUNT as nat, |i: int| parse_assignment(f[i], i)->0))
        } else {
            None
        }
    }
}

/// The stake of validator `i + 1` on its committee line.
pub open spec fn parse_committee_line(line: Seq<char>, i: int) -> Option<u64> {
    let f = text::fields(line);
    if f.len() == 2 && f[0] == v_name((i + 1) as nat) && text::has_prefix(f[1], "stake="@) {
        match text::parse_unsigned(f[1].skip("stake="@.len() as int), u64::MAX as int) {
            Some(v) => if v != 0 {
                Some(v as u64)
            } else {
                None
            },
            None => None,
        }
    } else {
        None
    }
}

/// Whether the nine lines from `b` on form a slot.
pub open spec fn slot_ok(ls: Seq<Seq<char>>, b: int) -> bool {
    &&& ls[b] == "blocks:"@
    &&& forall|j: int|
        0 <= j < BLOCKS_PER_SLOT ==> (#[trigger] parse_block_line(ls[b + 1 + j], j)) is Some
    &&& ls[b + 5] == "slot"@
    &&& parse_round_line(ls[b + 6], "  round1:"@) is Some
    &&& parse_round_line(ls[b + 7], "  round2:"@) is Some
    &&& ls[b + 8] == "end-slot"@
}

/// The slot that the nine lines from `b` on describe.
pub open spec fn parsed_slot(ls: Seq<Seq<char>>, b: int) -> SlotView {
    SlotView {
        block_ids: Seq::new(BLOCKS_PER_SLOT as nat, |j: int| parse_block_line(ls[b + 1 + j], j)->0),
        round1: parse_round_line(ls[b + 6], "  round1:"@)->0,
        round2: parse_round_line(ls[b + 7], "  round2:"@)->0,
    }
}

/// Number of lines that a scenario takes.
pub open spec fn scenario_lines() -> int {
    1 + VALIDATOR_COUNT + 9 * NUM_SLOTS
}

/// The scenario that a sequence of lines describes, if it describes one.
pub open spec fn parse_lines(ls: Seq<Seq<char>>) -> Option<ScenarioView> {
    if ls.len() >= scenario_lines() && ls[0] == "committee:"@ && (forall|i: int|
        0 <= i < VALIDATOR_COUNT ==> (#[trigger] parse_committee_line(ls[1 + i], i)) is Some) && (
    forall|s: int| 0 <= s < NUM_SLOTS ==> #[trigger] slot_ok(ls, 1 + VALIDATOR_COUNT + 9 * s)) && (
    forall|k: int| scenario_lines() <= k < ls.len() ==> text::is_blank(#[trigger] ls[k])) {
        Some(
            ScenarioView {
                stakes: Seq::new(
                    VALIDATOR_COUNT as nat,
                    |i: int| parse_committee_line(ls[1 + i], i)->0,
                ),
                slots: Seq::new(
                    NUM_SLOTS as nat,
                    |s: int| parsed_slot(ls, 1 + VALIDATOR_COUNT + 9 * s),
                ),
            },
        )
    } else {
        None
    }
}

/// The scenario that a text describes, if it describes one.
pub open spec fn parse_text(t: Seq<char>) -> Option<ScenarioView> {
    parse_lines(text::lines(t))
}

/// The complaint about a committee line that does not parse.
pub open spec fn committee_error(line: Seq<char>, i: int) -> Seq<char> {
    let f = text::fields(line);
    if !(f.len() == 2 && f[0] == v_name((i + 1) as nat)) {
        "invalid committee line: "@ + text::debug_text(line)
    } else if !text::has_prefix(f[1], "stake="@) {
        "invalid stake in committee line: "@ + text::debug_text(line)
    } else {
        let d = f[1].skip("stake="@.len() as int);
        match text::parse_unsigned(d, u64::MAX as int) {
            None => "invalid stake in committee line "@ + text::debug_text(line) + ": "@
                + text::number_error_text(text::number_error(d, u64::MAX as int)),
            Some(_) => v_name((i + 1) as nat) + " has zero stake"@,
        }
    }
}

/// The complaint about the assignment of validator `i + 1` that does not
/// parse.
pub open spec fn assignment_error(a: Seq<char>, i: int) -> Seq<char> {
    match text::split_once(a, '=') {
        None => "invalid round assignment: "@ + text::debug_text(a),
        Some((name, enc)) => if name != v_name((i + 1) as nat) {
            "round validators are out of order at "@ + text::debug_text(name)
        } else {
            vote_error(enc)
        },
    }
}

/// The complaint about the first assignment from `i` on that does not
/// parse, if one does not.
pub open spec fn first_assignment_error(f: Seq<Seq<char>>, i: nat) -> Option<Seq<char>>
    decreases f.len() - i,
{
    if i >= f.len() {
        None
    } else if parse_assignment(f[i as int], i as int) is None {
        Some(assignment_error(f[i as int], i as int))
    } else {
        first_assignment_error(f, i + 1)
    }
}

/// The complaint about a round line that begins with `prefix` and does not
/// parse.
pub open spec fn round_error(line: Seq<char>, prefix: Seq<char>) -> Seq<char> {
    if !text::has_prefix(line, prefix) {
        "invalid round line: "@ + text::debug_text(line)
    } else {
        let f = text::fields(line.skip(prefix.len() as int));
        if f.len() != VALIDATOR_COUNT {
            "round has "@ + text::decimal(f.len()) + " assignments, expected 100"@
        } else {
            match first_assignment_error(f, 0) {
                Some(e) => e,
                None => seq![],
            }
        }
    }
}

/// The complaint about slot `s`, whose lines start at `b`, when they do
/// not form a slot: the first line out of place.
pub open spec fn slot_error(ls: Seq<Seq<char>>, b: int, s: nat) -> Seq<char> {
    if !(b < ls.len() && ls[b] == "blocks:"@) {
        expect_error(ls, b, "blocks:"@)
    } else {
        match first_block_error(ls, b, s, 0) {
            Some(e) => e,
            None => if !(b + 5 < ls.len() && ls[b + 5] == "slot"@) {
                expect_error(ls, b + 5, "slot"@)
            } else if b + 6 >= ls.len() {
                "missing round1"@ + slot_suffix(s)
            } else if parse_round_line(ls[b + 6], "  round1:"@) is None {
                round_error(ls[b + 6], "  round1:"@)
            } else if b + 7 >= ls.len() {
                "missing round2"@ + slot_suffix(s)
            } else if parse_round_line(ls[b + 7], "  round2:"@) is None {
                round_error(ls[b + 7], "  round2:"@)
            } else {
                expect_error(ls, b + 8, "end-slot"@)
            },
        }
    }
}

/// The complaint about the first committee line from validator `i + 1` on
/// that is missing or does not parse, if one is.
pub open spec fn first_committee_error(ls: Seq<Seq<char>>, i: nat) -> Option<Seq<char>>
    decreases VALIDATOR_COUNT - i,
{
    if i >= VALIDATOR_COUNT {
        None
    } else if 1 + i >= ls.len() {
        Some("missing committee line for "@ + v_name(i + 1))
    } else if parse_committee_line(ls[1 + i as int], i as int) is None {
        Some(committee_error(ls[1 + i as int], i as int))
    } else {
        first_committee_error(ls, i + 1)
    }
}

/// Whether slot `s` has all its lines and they parse.
pub open spec fn slot_fits(ls: Seq<Seq<char>>, s: int) -> bool {
    1 + VALIDATOR_COUNT + 9 * s + 9 <= ls.len() && slot_ok(ls, 1 + VALIDATOR_COUNT + 9 * s)
}

/// The complaint about the first slot from `s` on that does not parse, if
/// one does not.
pub open spec fn first_slot_error(ls: Seq<Seq<char>>, s: nat) -> Option<Seq<char>>
    decreases NUM_SLOTS - s,
{
    if s >= NUM_SLOTS {
        None
    } else if !slot_fits(ls, s as int) {
        Some(slot_error(ls, 1 + VALIDATOR_COUNT + 9 * s, s))
    } else {
        first_slot_error(ls, s + 1)
    }
}

/// The complaint about lines that do not form a scenario: the first line
/// out of place, in reading order.
pub open spec fn parse_error(ls: Seq<Seq<char>>) -> Seq<char> {
    if !(ls.len() > 0 && ls[0] == "committee:"@) {
        expect_error(ls, 0, "committee:"@)
    } else {
        match first_committee_error(ls, 0) {
            Some(e) => e,
            None => match first_slot_error(ls, 0) {
                Some(e) => e,
                None => match first_trailing_error(ls, scenario_lines() as nat) {
                    Some(e) => e,
                    None => seq![],
                },
            },
        }
    }
}

proof fn lemma_first_assignment_error(f: Seq<Seq<char>>, i0: nat, i: int)
    requires
        i0 <= i <= f.len(),
        forall|j: int| i0 <= j < i ==> (#[trigger] parse_assignment(f[j], j)) is Some,
    ensures
        i < f.len() && parse_assignment(f[i], i) is None ==> first_assignment_error(f, i0) == Some(
            assignment_error(f[i], i),
        ),
        i == f.len() ==> first_assignment_error(f, i0) is None,
    decreases i - i0,
{
    if i0 < i {
        assert(parse_assignment(f[i0 as int], i0 as int) is Some);
        lemma_first_assignment_error(f, i0 + 1, i);
    }
}

proof fn lemma_first_committee_error(ls: Seq<Seq<char>>, i0: nat, i: int)
    requires
        i0 <= i <= VALIDATOR_COUNT,
        forall|q: int|
            i0 <= q < i ==> 1 + q < ls.len() && (#[trigger] parse_committee_line(ls[1 + q], q)) is Some,
    ensures
        i < VALIDATOR_COUNT && 1 + i >= ls.len() ==> first_committee_error(ls, i0) == Some(
            "missing committee line for "@ + v_name((i + 1) as nat),
        ),
        i < VALIDATOR_COUNT && 1 + i < ls.len() && parse_committee_line(ls[1 + i], i) is None
            ==> first_committee_error(ls, i0) == Some(committee_error(ls[1 + i], i)),
        i == VALIDATOR_COUNT ==> first_committee_error(ls, i0) is None,
    decreases i - i0,
{
    if i0 < i {
        assert(1 + i0 < ls.len() && parse_committee_line(ls[1 + i0 as int], i0 as int) is Some);
        lemma_first_committee_error(ls, i0 + 1, i);
    }
}

proof fn lemma_first_slot_error(ls: Seq<Seq<char>>, s0: nat, s: int)
    requires
        s0 <= s <= NUM_SLOTS,
        forall|q: int| s0 <= q < s ==> #[trigger] slot_fits(ls, q),
    ensures
        s < NUM_SLOTS && !slot_fits(ls, s) ==> first_slot_error(ls, s0) == Some(
            slot_error(ls, 1 + VALIDATOR_COUNT + 9 * s, s as nat),
        ),
        s == NUM_SLOTS ==> first_slot_error(ls, s0) is None,
    decreases s - s0,
{
    if s0 < s {
        assert(slot_fits(ls, s0 as int));
        lemma_first_slot_error(ls, s0 + 1, s);
    }
}

/// The complaint about a text that is no vote.
pub open spec fn vote_error(s: Seq<char>) -> Seq<char> {
    if enclosed(s, "notarize(b"@) is Some {
        block_number_error(enclosed(s, "notarize(b"@)->0)
    } else if enclosed(s, "notarizefallback(b"@) is Some {
        block_number_error(enclosed(s, "notarizefallback(b"@)->0)
    } else {
        "invalid vote: "@ + text::debug_text(s)
    }
}

/// Parses one vote.
pub fn parse_vote(encoded: &Vec<char>) -> (r: Result<Vote, String>)
    ensures
        match r {
            Ok(v) => parse_vote_text(encoded@) == Some(v),
            Err(e) => parse_vote_text(encoded@) is None && e@ == vote_error(encoded@),
        },
{
    if text::equals_str(encoded, "skip") {
        return Ok(Vote::Skip);
    }
    if text::equals_str(encoded, "finalize") {
        return Ok(Vote::Finalize);
    }
    if text::equals_str(encoded, "skip-fallback") {
        return Ok(Vote::SkipFallback);
    }
    if text::equals_str(encoded, "absent") {
        return Ok(Vote::Absent);
    }
    if let Some(block) = strip_enclosed(encoded, "notarize(b") {
        let b = parse_block_number(&block)?;
        return Ok(Vote::Notarize(b));
    }
    if let Some(block) = strip_enclosed(encoded, "notarizefallback(b") {
        let b = parse_block_number(&block)?;
        return Ok(Vote::NotarizeFallback(b));
    }
    let mut msg = text::string_from("invalid vote: ");
    text::push_debug_chars(&mut msg, encoded);
    Err(msg)
}

/// Parses a round line that begins with `prefix`: one assignment per validator.
pub fn parse_round(line: &Vec<char>, prefix: &str) -> (r: Result<Vec<Vote>, String>)
    ensures
        match r {
            Ok(v) => parse_round_line(line@, prefix@) == Some(v@),
            Err(e) => parse_round_line(line@, prefix@) is None && e@ == round_error(line@, prefix@),
        },
{
    let rest = match text::strip_prefix_str(line, prefix) {
        Some(rest) => rest,
        None => {
            let mut msg = text::string_from("invalid round line: ");
            text::push_debug_chars(&mut msg, line);
            return Err(msg);
        },
    };
    let assignments = text::split_fields(&rest);
    let ghost f = assignments.deep_view();
    if assignments.len() != VALIDATOR_COUNT {
        let mut msg = text::string_from("round has ");
        text::push_decimal(&mut msg, assignments.len() as u64);
        text::push_str(&mut msg, " assignments, expected 100");
        return Err(msg);
    }
    let mut votes: Vec<Vote> = Vec::new();
    let mut validator: usize = 0;
    while validator < assignments.len()
        invariant
            f == assignments.deep_view(),
            f == text::fields(rest@),
            rest@ == line@.skip(prefix@.len() as int),
            text::has_prefix(line@, prefix@),
            assignments.len() == VALIDATOR_COUNT,
            validator <= VALIDATOR_COUNT,
            votes@.len() == validator,
            forall|i: int| 0 <= i < validator ==> parse_assignment(f[i], i) == Some(votes@[i]),
        decreases VALIDATOR_COUNT - validator,
    {
        proof {
            text::lemma_line_view(&assignments, validator as int);
        }
        proof {
            assert forall|j: int| 0 <= j < validator implies (#[trigger] parse_assignment(f[j], j)) is Some by {
                assert(parse_assignment(f[j], j) == Some(votes@[j]));
            }
            lemma_first_assignment_error(f, 0, validator as int);
        }
        let assignment = &assignments[validator];
        let (name, encoded_vote) = match text::split_once_char(assignment, '=') {
            Some(pair) => pair,
            None => {
                let mut msg = text::string_from("invalid round assignment: ");
                text::push_debug_chars(&mut msg, assignment);
                return Err(msg);
            },
        };
        let expected = v_name_chars(validator as u64 + 1);
        if !text::chars_equal(&name, &expected) {
            let mut msg = text::string_from("round validators are out of order at ");
            text::push_debug_chars(&mut msg, &name);
            return Err(msg);
        }
        let vote = parse_vote(&encoded_vote)?;
        votes.push(vote);
        validator += 1;
    }
    assert(votes@ =~= Seq::new(VALIDATOR_COUNT as nat, |i: int| parse_assignment(f[i], i)->0));
    Ok(votes)
}


/// Parses the committee line of validator `validator + 1`.
fn parse_committee(line: &Vec<char>, validator: usize) -> (r: Result<u64, String>)
    requires
        validator < VALIDATOR_COUNT,
    ensures
        match r {
            Ok(v) => parse_committee_line(line@, validator as int) == Some(v),
            Err(e) => parse_committee_line(line@, validator as int) is None && e@ == committee_error(
                line@,
                validator as int,
            ),
        },
{
    let fields = text::split_fields(line);
    let expected = v_name_chars(validator as u64 + 1);
    if fields.len() != 2 {
        let mut msg = text::string_from("invalid committee line: ");
        text::push_debug_chars(&mut msg, line);
        return Err(msg);
    }
    proof {
        text::lemma_line_view(&fields, 0);
        text::lemma_line_view(&fields, 1);
    }
    if !text::chars_equal(&fields[0], &expected) {
        let mut msg = text::string_from("invalid committee line: ");
        text::push_debug_chars(&mut msg, line);
        return Err(msg);
    }
    let stake_text = match text::strip_prefix_str(&fields[1], "stake=") {
        Some(t) => t,
        None => {
            let mut msg = text::string_from("invalid stake in committee line: ");
            text::push_debug_chars(&mut msg, line);
            return Err(msg);
        },
    };
    let stake = match text::parse_unsigned_max(&stake_text, u64::MAX) {
        Ok(v) => v,
        Err(error) => {
            let mut msg = text::string_from("invalid stake in committee line ");
            text::push_debug_chars(&mut msg, line);
            text::push_str(&mut msg, ": ");
            text::push_str(&mut msg, error.message());
            return Err(msg);
        },
    };
    if stake == 0 {
        let mut msg = String::new();
        push_v_name(&mut msg, validator as u64 + 1);
        text::push_str(&mut msg, " has zero stake");
        return Err(msg);
    }
    Ok(stake)
}

/// Parses the nine lines of a slot that start at `pos`.
fn parse_slot(ls: &Vec<Vec<char>>, pos: usize, logical_slot: usize) -> (r: Result<Slot, String>)
    requires
        pos + 9 <= usize::MAX,
    ensures
        match r {
            Ok(slot) => pos + 9 <= ls.len() && slot_ok(ls.deep_view(), pos as int) && slot@
                == parsed_slot(ls.deep_view(), pos as int),
            Err(e) => (pos + 9 > ls.len() || !slot_ok(ls.deep_view(), pos as int)) && e@ == slot_error(
                ls.deep_view(),
                pos as int,
                logical_slot as nat,
            ),
        },
{
    let ghost lv = ls.deep_view();
    expect_line(ls, pos, "blocks:")?;
    let mut block_ids: [[u8; BLOCK_ID_BYTES]; BLOCKS_PER_SLOT] = [[0u8; BLOCK_ID_BYTES]; BLOCKS_PER_SLOT];
    let mut block: usize = 0;
    while block < BLOCKS_PER_SLOT
        invariant
            lv == ls.deep_view(),
            pos + 9 <= usize::MAX,
            pos < ls.len(),
            block <= BLOCKS_PER_SLOT,
            forall|j: int|
                0 <= j < block ==> parse_block_line(lv[pos + 1 + j], j) == Some(
                    #[trigger] block_ids@[j]@,
                ),
            forall|j: int| 0 <= j < block ==> #[trigger] block_ok(lv, pos as int, j),
            lv[pos as int] == "blocks:"@,
        decreases BLOCKS_PER_SLOT - block,
    {
        proof {
            lemma_first_block_error(lv, pos as int, logical_slot as nat, 0, block as int);
        }
        let at = pos + 1 + block;
        if at >= ls.len() {
            let mut msg = text::string_from("missing b");
            text::push_decimal(&mut msg, block as u64 + 1);
            text::push_str(&mut msg, " in slot ");
            text::push_decimal(&mut msg, logical_slot as u64);
            proof {
                assert(msg@ =~= block_error(lv, pos as int, block as int, logical_slot as nat));
            }
            return Err(msg);
        }
        proof {
            text::lemma_line_view(ls, at as int);
        }
        let line = &ls[at];
        let prefix = block_prefix_chars(block);
        let encoded = match text::strip_prefix(line, &prefix) {
            Some(e) => e,
            None => {
                assert(parse_block_line(lv[pos + 1 + block], block as int) is None);
                let mut msg = text::string_from("invalid block line");
                text::push_str(&mut msg, " in slot ");
                text::push_decimal(&mut msg, logical_slot as u64);
                text::push_str(&mut msg, ": ");
                text::push_debug_chars(&mut msg, line);
                proof {
                    assert(msg@ =~= block_error(lv, pos as int, block as int, logical_slot as nat));
                }
                return Err(msg);
            },
        };
        let id = match text::decode_block_id(&encoded) {
            Ok(id) => id,
            Err(e) => {
                assert(parse_block_line(lv[pos + 1 + block], block as int) is None);
                return Err(e);
            },
        };
        let ghost old_ids = block_ids@;
        block_ids[block] = id;
        assert forall|j: int| 0 <= j < block + 1 implies parse_block_line(lv[pos + 1 + j], j)
            == Some(#[trigger] block_ids@[j]@) by {
            if j < block {
                assert(block_ids@[j] == old_ids[j]);
            }
        }
        assert(block_ok(lv, pos as int, block as int));
        block += 1;
    }
    proof {
        lemma_first_block_error(lv, pos as int, logical_slot as nat, 0, BLOCKS_PER_SLOT as int);
    }
    expect_line(ls, pos + 5, "slot")?;
    if pos + 6 >= ls.len() {
        let mut msg = text::string_from("missing round1");
        text::push_str(&mut msg, " in slot ");
        text::push_decimal(&mut msg, logical_slot as u64);
        proof {
            assert(msg@ =~= slot_error(lv, pos as int, logical_slot as nat));
        }
        return Err(msg);
    }
    proof {
        text::lemma_line_view(ls, pos + 6);
    }
    let round1 = parse_round(&ls[pos + 6], "  round1:")?;
    if pos + 7 >= ls.len() {
        let mut msg = text::string_from("missing round2");
        text::push_str(&mut msg, " in slot ");
        text::push_decimal(&mut msg, logical_slot as u64);
        proof {
            assert(msg@ =~= slot_error(lv, pos as int, logical_slot as nat));
        }
        return Err(msg);
    }
    proof {
        text::lemma_line_view(ls, pos + 7);
    }
    let round2 = parse_round(&ls[pos + 7], "  round2:")?;
    expect_line(ls, pos + 8, "end-slot")?;
    let slot = Slot { block_ids, round1, round2 };
    proof {
        assert forall|j: int| 0 <= j < BLOCKS_PER_SLOT implies (#[trigger] parse_block_line(
            lv[pos + 1 + j],
            j,
        )) is Some by {
            assert(parse_block_line(lv[pos + 1 + j], j) == Some(block_ids@[j]@));
        }
        assert(slot_ok(lv, pos as int));
        let p = parsed_slot(lv, pos as int);
        assert(slot@.block_ids =~= p.block_ids) by {
            assert forall|j: int| 0 <= j < BLOCKS_PER_SLOT implies slot@.block_ids[j]
                == p.block_ids[j] by {
                assert(parse_block_line(lv[pos + 1 + j], j) == Some(block_ids@[j]@));
            }
        }
        assert(slot@ =~= p);
    }
    Ok(slot)
}

impl Scenario {
    /// Parses a scenario from its text format.
    pub fn parse(input: &str) -> (r: Result<Scenario, String>)
        ensures
            match r {
                Ok(sc) => parse_text(input@) == Some(sc@),
                Err(e) => parse_text(input@) is None && e@ == parse_error(text::lines(input@)),
            },
    {
        let chars = text::chars_of(input);
        let ls = text::split_lines(&chars);
        Self::from_lines(&ls)
    }

    /// Parses a scenario from the lines of its text.
    pub fn from_lines(ls: &Vec<Vec<char>>) -> (r: Result<Scenario, String>)
        ensures
            match r {
                Ok(sc) => parse_lines(ls.deep_view()) == Some(sc@),
                Err(e) => parse_lines(ls.deep_view()) is None && e@ == parse_error(ls.deep_view()),
            },
    {
        let ghost lv = ls.deep_view();
        expect_line(ls, 0, "committee:")?;
        let mut stakes: Vec<u64> = Vec::new();
        let mut validator: usize = 0;
        while validator < VALIDATOR_COUNT
            invariant
                lv == ls.deep_view(),
                lv.len() > 0,
                lv[0] == "committee:"@,
                validator <= VALIDATOR_COUNT,
                1 + validator <= lv.len(),
                stakes@.len() == validator,
                forall|i: int|
                    0 <= i < validator ==> parse_committee_line(lv[1 + i], i) == Some(
                        #[trigger] stakes@[i],
                    ),
            decreases VALIDATOR_COUNT - validator,
        {
            proof {
                assert forall|q: int| 0 <= q < validator implies 1 + q < lv.len() && (#[trigger] parse_committee_line(lv[1 + q], q)) is Some by {
                    assert(parse_committee_line(lv[1 + q], q) == Some(stakes@[q]));
                }
                lemma_first_committee_error(lv, 0, validator as int);
            }
            if 1 + validator >= ls.len() {
                let mut msg = text::string_from("missing committee line for ");
                push_v_name(&mut msg, validator as u64 + 1);
                return Err(msg);
            }
            proof {
                text::lemma_line_view(ls, 1 + validator as int);
            }
            let line = &ls[1 + validator];
            let stake = match parse_committee(line, validator) {
                Ok(v) => v,
                Err(e) => {
                    assert(parse_committee_line(lv[1 + validator as int], validator as int) is None);
                    return Err(e);
                },
            };
            stakes.push(stake);
            validator += 1;
        }
        proof {
            assert forall|q: int| 0 <= q < VALIDATOR_COUNT implies 1 + q < lv.len() && (#[trigger] parse_committee_line(lv[1 + q], q)) is Some by {
                assert(parse_committee_line(lv[1 + q], q) == Some(stakes@[q]));
            }
            lemma_first_committee_error(lv, 0, VALIDATOR_COUNT as int);
        }
        let mut slots: Vec<Slot> = Vec::new();
        let mut s: usize = 0;
        while s < NUM_SLOTS
            invariant
                lv == ls.deep_view(),
                lv.len() > 0,
                lv[0] == "committee:"@,
                first_committee_error(lv, 0) is None,
                stakes@.len() == VALIDATOR_COUNT,
                forall|i: int|
                    0 <= i < VALIDATOR_COUNT ==> parse_committee_line(lv[1 + i], i) == Some(
                        #[trigger] stakes@[i],
                    ),
                s <= NUM_SLOTS,
                1 + VALIDATOR_COUNT + 9 * s <= lv.len(),
                slots@.len() == s,
                forall|t: int| 0 <= t < s ==> #[trigger] slot_ok(lv, 1 + VALIDATOR_COUNT + 9 * t),
                forall|t: int|
                    0 <= t < s ==> (#[trigger] slots@[t])@ == parsed_slot(
                        lv,
                        1 + VALIDATOR_COUNT + 9 * t,
                    ),
            decreases NUM_SLOTS - s,
        {
            proof {
                assert forall|q: int| 0 <= q < s implies #[trigger] slot_fits(lv, q) by {
                    assert(slot_ok(lv, 1 + VALIDATOR_COUNT + 9 * q));
                }
                lemma_first_slot_error(lv, 0, s as int);
            }
            let slot = match parse_slot(ls, 1 + VALIDATOR_COUNT + 9 * s, s) {
                Ok(slot) => slot,
                Err(e) => {
                    assert(!slot_ok(lv, 1 + VALIDATOR_COUNT + 9 * s) || lv.len()
                        < scenario_lines());
                    assert(!slot_fits(lv, s as int));
                    return Err(e);
                },
            };
            assert(lv.len() == ls.len());
            let ghost old_slots = slots@;
            let ghost g = slot@;
            assert(slot_ok(lv, 1 + VALIDATOR_COUNT + 9 * s));
            assert(g == parsed_slot(lv, 1 + VALIDATOR_COUNT + 9 * s));
            slots.push(slot);
            assert(slots@[s as int]@ == g);
            assert forall|t: int| 0 <= t < s + 1 implies (#[trigger] slots@[t])@ == parsed_slot(
                lv,
                1 + VALIDATOR_COUNT + 9 * t,
            ) by {
                if t < s {
                    assert(slots@[t] == old_slots[t]);
                }
            }
            s += 1;
        }
        proof {
            assert forall|q: int| 0 <= q < NUM_SLOTS implies #[trigger] slot_fits(lv, q) by {
                assert(slot_ok(lv, 1 + VALIDATOR_COUNT + 9 * q));
            }
            lemma_first_slot_error(lv, 0, NUM_SLOTS as int);
        }
        let mut k: usize = 1 + VALIDATOR_COUNT + 9 * NUM_SLOTS;
        while k < ls.len()
            invariant
                lv == ls.deep_view(),
                lv.len() > 0,
                lv[0] == "committee:"@,
                first_committee_error(lv, 0) is None,
                first_slot_error(lv, 0) is None,
                scenario_lines() <= k <= ls.len(),
                forall|j: int| scenario_lines() <= j < k ==> text::is_blank(#[trigger] lv[j]),
            decreases ls.len() - k,
        {
            proof {
                text::lemma_line_view(ls, k as int);
                lemma_first_trailing_error(lv, scenario_lines() as nat, k as int);
            }
            if !text::line_is_blank(&ls[k]) {
                let mut msg = text::string_from("unexpected trailing line: ");
                text::push_debug_chars(&mut msg, &ls[k]);
                return Err(msg);
            }
            k += 1;
        }
        let sc = Scenario { stakes, slots };
        proof {
            assert(lv.len() == ls.len());
            assert(lv.len() >= scenario_lines());
            assert(forall|i: int|
                0 <= i < VALIDATOR_COUNT ==> (#[trigger] parse_committee_line(lv[1 + i], i)) is Some) by {
                assert forall|i: int| 0 <= i < VALIDATOR_COUNT implies (#[trigger] parse_committee_line(lv[1 + i], i)) is Some by {
                    assert(parse_committee_line(lv[1 + i], i) == Some(stakes@[i]));
                }
            }
            assert(forall|t: int| 0 <= t < NUM_SLOTS ==> #[trigger] slot_ok(lv, 1 + VALIDATOR_COUNT + 9 * t));
            assert(forall|j: int| scenario_lines() <= j < lv.len() ==> text::is_blank(#[trigger] lv[j]));
            let m = parse_lines(lv)->0;
            assert(parse_lines(lv) is Some);
            assert(sc@.stakes =~= m.stakes);
            assert(sc@.slots =~= m.slots) by {
                assert forall|t: int| 0 <= t < NUM_SLOTS implies sc@.slots[t] == m.slots[t] by {
                    assert(slots@[t]@ == parsed_slot(lv, 1 + VALIDATOR_COUNT + 9 * t));
                }
            }
            assert(sc@ =~= m);
        }
        Ok(sc)
    }
}


// ---------------------------------------------------------------------------
// Rendering and parsing are inverse
// ---------------------------------------------------------------------------
/// Whether every vote that names a block names one of the slot's blocks.
pub open spec fn votes_in_range(votes: Seq<Vote>) -> bool {
    forall|i: int|
        0 <= i < votes.len() ==> (#[trigger] vote_block(votes[i]) matches Some(b) ==> b
            < BLOCKS_PER_SLOT)
}

/// A slot of the grammar's shape: four 32-byte identifiers and one vote per
/// validator in each round, every named block among the four.
pub open spec fn slot_well_formed(s: SlotView) -> bool {
    &&& s.block_ids.len() == BLOCKS_PER_SLOT
    &&& forall|j: int| 0 <= j < BLOCKS_PER_SLOT ==> (#[trigger] s.block_ids[j]).len() == BLOCK_ID_BYTES
    &&& s.round1.len() == VALIDATOR_COUNT
    &&& s.round2.len() == VALIDATOR_COUNT
    &&& votes_in_range(s.round1)
    &&& votes_in_range(s.round2)
}

/// A scenario of the grammar's shape: one positive stake per validator and
/// well-formed slots.
pub open spec fn well_formed(m: ScenarioView) -> bool {
    &&& m.stakes.len() == VALIDATOR_COUNT
    &&& forall|i: int| 0 <= i < VALIDATOR_COUNT ==> #[trigger] m.stakes[i] > 0
    &&& m.slots.len() == NUM_SLOTS
    &&& forall|s: int| 0 <= s < NUM_SLOTS ==> #[trigger] slot_well_formed(m.slots[s])
}

proof fn lemma_literals()
    ensures
        "skip"@ == seq!['s', 'k', 'i', 'p'],
        "finalize"@ == seq!['f', 'i', 'n', 'a', 'l', 'i', 'z', 'e'],
        "skip-fallback"@ == seq![
            's',
            'k',
            'i',
            'p',
            '-',
            'f',
            'a',
            'l',
            'l',
            'b',
            'a',
            'c',
            'k',
        ],
        "absent"@ == seq!['a', 'b', 's', 'e', 'n', 't'],
        "notarize(b"@ == seq!['n', 'o', 't', 'a', 'r', 'i', 'z', 'e', '(', 'b'],
        "notarizefallback(b"@ == seq![
            'n',
            'o',
            't',
            'a',
            'r',
            'i',
            'z',
            'e',
            'f',
            'a',
            'l',
            'l',
            'b',
            'a',
            'c',
            'k',
            '(',
            'b',
        ],
        ")"@ == seq![')'],
        "  "@ == seq![' ', ' '],
        " stake="@ == seq![' ', 's', 't', 'a', 'k', 'e', '='],
        "stake="@ == seq!['s', 't', 'a', 'k', 'e', '='],
        "  b"@ == seq![' ', ' ', 'b'],
        "="@ == seq!['='],
        "committee:"@ == seq!['c', 'o', 'm', 'm', 'i', 't', 't', 'e', 'e', ':'],
        "blocks:"@ == seq!['b', 'l', 'o', 'c', 'k', 's', ':'],
        "slot"@ == seq!['s', 'l', 'o', 't'],
        "end-slot"@ == seq!['e', 'n', 'd', '-', 's', 'l', 'o', 't'],
        "  round1:"@ == seq![' ', ' ', 'r', 'o', 'u', 'n', 'd', '1', ':'],
        "  round2:"@ == seq![' ', ' ', 'r', 'o', 'u', 'n', 'd', '2', ':'],
{
    reveal_strlit("skip");
    reveal_strlit("finalize");
    reveal_strlit("skip-fallback");
    reveal_strlit("absent");
    reveal_strlit("notarize(b");
    reveal_strlit("notarizefallback(b");
    reveal_strlit(")");
    reveal_strlit("  ");
    reveal_strlit(" stake=");
    reveal_strlit("stake=");
    reveal_strlit("  b");
    reveal_strlit("=");
    reveal_strlit("committee:");
    reveal_strlit("blocks:");
    reveal_strlit("slot");
    reveal_strlit("end-slot");
    reveal_strlit("  round1:");
    reveal_strlit("  round2:");
}

/// The text of a vote in range parses back to the vote.
pub proof fn lemma_vote_round_trip(v: Vote)
    requires
        vote_block(v) matches Some(b) ==> b < BLOCKS_PER_SLOT,
    ensures
        parse_vote_text(vote_text(v)) == Some(v),
        vote_text(v).len() > 0,
        text::is_token(vote_text(v)),
{
    lemma_literals();
    let t = vote_text(v);
    match v {
        Vote::Notarize(b) => {
            let d = text::decimal((b + 1) as nat);
            lemma_block_number(b);
            lemma_enclosed("notarize(b"@, d);
            assert(t.len() == 12);
            assert(t[8] == '(');
            assert(!text::has_prefix(t, "notarizefallback(b"@) || t.take(18) != "notarizefallback(b"@);
            assert(text::is_token(t)) by {
                assert forall|i: int| 0 <= i < t.len() implies !text::is_ascii_ws(#[trigger] t[i])
                    && t[i] != '=' && t[i] != ',' by {
                    if i == 10 {
                        assert(t[i] == d[0]);
                    }
                }
            }
        },
        Vote::NotarizeFallback(b) => {
            let d = text::decimal((b + 1) as nat);
            lemma_block_number(b);
            lemma_enclosed("notarizefallback(b"@, d);
            assert(t.len() == 20);
            assert(t[8] == 'f');
            assert(t.take(10)[8] != "notarize(b"@[8]);
            assert(!text::has_prefix(t, "notarize(b"@));
            assert(text::is_token(t)) by {
                assert forall|i: int| 0 <= i < t.len() implies !text::is_ascii_ws(#[trigger] t[i])
                    && t[i] != '=' && t[i] != ',' by {
                    if i == 18 {
                        assert(t[i] == d[0]);
                    }
                }
            }
        },
        _ => {},
    }
}

/// Every vote is written with the grammar's keyword, and each keyword reads
/// back as its vote: `skip`, `finalize`, `skip-fallback` and `absent`, and
/// `notarize(b<n>)` and `notarizefallback(b<n>)` naming block `n - 1`.
pub proof fn lemma_vote_keywords(b: usize)
    requires
        b < BLOCKS_PER_SLOT,
    ensures
        vote_text(Vote::Skip) == seq!['s', 'k', 'i', 'p'],
        vote_text(Vote::Finalize) == seq!['f', 'i', 'n', 'a', 'l', 'i', 'z', 'e'],
        vote_text(Vote::SkipFallback) == seq![
            's', 'k', 'i', 'p', '-', 'f', 'a', 'l', 'l', 'b', 'a', 'c', 'k',
        ],
        vote_text(Vote::Absent) == seq!['a', 'b', 's', 'e', 'n', 't'],
        vote_text(Vote::Notarize(b)) == seq!['n', 'o', 't', 'a', 'r', 'i', 'z', 'e', '(', 'b']
            + text::decimal((b + 1) as nat) + seq![')'],
        vote_text(Vote::NotarizeFallback(b)) == seq![
            'n', 'o', 't', 'a', 'r', 'i', 'z', 'e', 'f', 'a', 'l', 'l', 'b', 'a', 'c', 'k', '(', 'b',
        ] + text::decimal((b + 1) as nat) + seq![')'],
        parse_vote_text(seq!['s', 'k', 'i', 'p']) == Some(Vote::Skip),
        parse_vote_text(seq!['f', 'i', 'n', 'a', 'l', 'i', 'z', 'e']) == Some(Vote::Finalize),
        parse_vote_text(seq!['s', 'k', 'i', 'p', '-', 'f', 'a', 'l', 'l', 'b', 'a', 'c', 'k'])
            == Some(Vote::SkipFallback),
        parse_vote_text(seq!['a', 'b', 's', 'e', 'n', 't']) == Some(Vote::Absent),
        parse_vote_text(vote_text(Vote::Notarize(b))) == Some(Vote::Notarize(b)),
        parse_vote_text(vote_text(Vote::NotarizeFallback(b))) == Some(Vote::NotarizeFallback(b)),
{
    lemma_literals();
    lemma_vote_round_trip(Vote::Skip);
    lemma_vote_round_trip(Vote::Finalize);
    lemma_vote_round_trip(Vote::SkipFallback);
    lemma_vote_round_trip(Vote::Absent);
    lemma_vote_round_trip(Vote::Notarize(b));
    lemma_vote_round_trip(Vote::NotarizeFallback(b));
}

proof fn lemma_assignment_round_trip(i: int, v: Vote)
    requires
        i >= 0,
        vote_block(v) matches Some(b) ==> b < BLOCKS_PER_SLOT,
    ensures
        parse_assignment(v_name((i + 1) as nat) + seq!['='] + vote_text(v), i) == Some(v),
        text::is_token(v_name((i + 1) as nat) + seq!['='] + vote_text(v)) == false,
        (v_name((i + 1) as nat) + seq!['='] + vote_text(v)).len() > 0,
        forall|k: int|
            0 <= k < (v_name((i + 1) as nat) + seq!['='] + vote_text(v)).len() ==> !text::is_ascii_ws(
                #[trigger] (v_name((i + 1) as nat) + seq!['='] + vote_text(v))[k],
            ),
{
    let n = v_name((i + 1) as nat);
    let a = n + seq!['='] + vote_text(v);
    lemma_v_name((i + 1) as nat);
    lemma_vote_round_trip(v);
    text::lemma_split_once_at(n, '=', vote_text(v));
    assert(a[n.len() as int] == '=');
    assert forall|k: int| 0 <= k < a.len() implies !text::is_ascii_ws(#[trigger] a[k]) by {
        if k < n.len() {
            assert(a[k] == n[k]);
        } else if k > n.len() {
            assert(a[k] == vote_text(v)[k - n.len() - 1]);
        }
    }
}

/// The assignments of a round text.
pub open spec fn round_assignments(votes: Seq<Vote>) -> Seq<Seq<char>> {
    Seq::new(
        votes.len(),
        |i: int| v_name((i + 1) as nat) + seq!['='] + vote_text(votes[i]),
    )
}

#[verifier::spinoff_prover]
#[verifier::rlimit(40)]
proof fn lemma_round_fields(votes: Seq<Vote>)
    requires
        votes_in_range(votes),
    ensures
        text::fields(round_text(votes)) == round_assignments(votes),
        text::no_breaks(round_text(votes)),
        round_text(votes).len() == 0 || text::is_ascii_ws(round_text(votes)[0]),
    decreases votes.len(),
{
    if votes.len() > 0 {
        let prev = votes.drop_last();
        assert(votes_in_range(prev)) by {
            assert forall|i: int| 0 <= i < prev.len() implies (#[trigger] vote_block(prev[i]) matches Some(b) ==> b
                < BLOCKS_PER_SLOT) by {
                assert(prev[i] == votes[i]);
            }
        }
        lemma_round_fields(prev);
        let i = votes.len() - 1;
        assert(vote_block(votes[i]) matches Some(b) ==> b < BLOCKS_PER_SLOT);
        let a = v_name((i + 1) as nat) + seq!['='] + vote_text(votes[i]);
        lemma_assignment_round_trip(i, votes[i]);
        let tail = seq![' '] + a;
        assert(round_text(votes) =~= round_text(prev) + tail);
        assert(text::is_ascii_ws(tail[0]));
        text::lemma_fields_concat(round_text(prev), tail);
        assert(a.len() > 0);
        assert(text::fields(tail) == seq![a]) by {
            assert(tail.drop_first() =~= a);
            assert(text::is_ascii_ws(tail[0]));
            text::lemma_word_len_at(a, a.len() as int);
            assert(a.take(a.len() as int) =~= a);
            assert(a.skip(a.len() as int) =~= Seq::<char>::empty());
            assert(!text::is_ascii_ws(a[0]));
            assert(text::fields(a.skip(a.len() as int)) =~= Seq::<Seq<char>>::empty());
            assert(text::fields(a) =~= seq![a]);
        }
        assert(text::fields(round_text(votes)) =~= round_assignments(votes)) by {
            assert(round_assignments(prev) + seq![a] =~= round_assignments(votes));
        }
        lemma_v_name((i + 1) as nat);
        lemma_vote_round_trip(votes[i]);
        text::lemma_token_no_breaks(vote_text(votes[i]));
        assert(text::no_breaks(a)) by {
            assert forall|k: int| 0 <= k < a.len() implies #[trigger] a[k] != '\n' && a[k] != '\r' by {
                assert(!text::is_ascii_ws(a[k]));
            }
        }
        assert(text::no_breaks(tail)) by {
            assert forall|k: int| 0 <= k < tail.len() implies #[trigger] tail[k] != '\n' && tail[k] != '\r' by {
                if k > 0 {
                    assert(tail[k] == a[k - 1]);
                }
            }
        }
        text::lemma_no_breaks_concat(round_text(prev), tail);
        if round_text(prev).len() == 0 {
            assert(round_text(votes)[0] == tail[0]);
        } else {
            assert(round_text(votes)[0] == round_text(prev)[0]);
        }
    } else {
        assert(text::fields(round_text(votes)) =~= round_assignments(votes));
    }
}

/// A round line parses back to its votes.
pub proof fn lemma_round_round_trip(votes: Seq<Vote>, prefix: Seq<char>)
    requires
        votes.len() == VALIDATOR_COUNT,
        votes_in_range(votes),
    ensures
        parse_round_line(prefix + round_text(votes), prefix) == Some(votes),
        text::no_breaks(round_text(votes)),
{
    lemma_round_fields(votes);
    text::lemma_has_prefix_concat(prefix, round_text(votes));
    let f = text::fields(round_text(votes));
    assert forall|i: int| 0 <= i < VALIDATOR_COUNT implies #[trigger] parse_assignment(f[i], i) == Some(votes[i]) by {
        assert(vote_block(votes[i]) matches Some(b) ==> b < BLOCKS_PER_SLOT);
        lemma_assignment_round_trip(i, votes[i]);
    }
    assert(Seq::new(VALIDATOR_COUNT as nat, |i: int| parse_assignment(f[i], i)->0) =~= votes);
}

proof fn lemma_stake_word(stake: u64)
    ensures
        forall|k: int|
            0 <= k < ("stake="@ + text::decimal(stake as nat)).len() ==> !text::is_ascii_ws(
                #[trigger] ("stake="@ + text::decimal(stake as nat))[k],
            ),
        ("stake="@ + text::decimal(stake as nat)).len() > 0,
        text::no_breaks("stake="@ + text::decimal(stake as nat)),
{
    reveal_strlit("stake=");
    let d = text::decimal(stake as nat);
    let w2 = "stake="@ + d;
    text::lemma_decimal_token(stake as nat);
    assert forall|k: int| 0 <= k < w2.len() implies !text::is_ascii_ws(#[trigger] w2[k]) by {
        if k >= 6 {
            assert(w2[k] == d[k - 6]);
        }
    }
    assert forall|k: int| 0 <= k < w2.len() implies #[trigger] w2[k] != '\n' && w2[k] != '\r' by {
        if k >= 6 {
            assert(w2[k] == d[k - 6]);
        }
    }
}

proof fn lemma_committee_round_trip(i: int, stake: u64)
    requires
        0 <= i,
        stake > 0,
    ensures
        parse_committee_line(committee_line(i, stake), i) == Some(stake),
        text::no_breaks(committee_line(i, stake)),
{
    reveal_strlit("  ");
    reveal_strlit(" stake=");
    reveal_strlit("stake=");
    let n = v_name((i + 1) as nat);
    let d = text::decimal(stake as nat);
    lemma_v_name((i + 1) as nat);
    text::lemma_parse_decimal(stake as nat, u64::MAX as int);
    lemma_stake_word(stake);
    let w2 = "stake="@ + d;
    let l = committee_line(i, stake);
    assert(l =~= seq![' ', ' '] + (n + (seq![' '] + w2)));
    text::lemma_fields_leading_ws(seq![' ', ' '], n + (seq![' '] + w2));
    text::lemma_fields_concat(n, seq![' '] + w2);
    text::lemma_fields_word(n);
    lemma_fields_lone_word(w2);
    assert(text::fields(l) =~= seq![n, w2]);
    text::lemma_has_prefix_concat("stake="@, d);
    text::lemma_no_breaks_concat(seq![' '], w2);
    text::lemma_no_breaks_concat(n, seq![' '] + w2);
    text::lemma_no_breaks_concat(seq![' ', ' '], n + (seq![' '] + w2));
}

proof fn lemma_slot_round_trip(ls: Seq<Seq<char>>, b: int, sv: SlotView)
    requires
        slot_well_formed(sv),
        0 <= b,
        b + 9 <= ls.len(),
        forall|k: int| 0 <= k < 9 ==> ls[b + k] == slot_line(sv, k),
    ensures
        slot_ok(ls, b),
        parsed_slot(ls, b) == sv,
        forall|k: int| 0 <= k < 9 ==> text::no_breaks(#[trigger] slot_line(sv, k)),
{
    lemma_literals();
    assert(ls[b] == slot_line(sv, 0));
    assert forall|j: int| 0 <= j < BLOCKS_PER_SLOT implies #[trigger] parse_block_line(ls[b + 1 + j], j) == Some(sv.block_ids[j]) by {
        assert(ls[b + 1 + j] == slot_line(sv, 1 + j));
        assert(sv.block_ids[j].len() == BLOCK_ID_BYTES);
        lemma_block_round_trip(j, sv.block_ids[j]);
    }
    assert(ls[b + 5] == slot_line(sv, 5));
    assert(ls[b + 6] == slot_line(sv, 6));
    assert(ls[b + 7] == slot_line(sv, 7));
    assert(ls[b + 8] == slot_line(sv, 8));
    lemma_round_round_trip(sv.round1, "  round1:"@);
    lemma_round_round_trip(sv.round2, "  round2:"@);
    assert(slot_ok(ls, b));
    let p = parsed_slot(ls, b);
    assert(p.block_ids =~= sv.block_ids);
    assert(p =~= sv);
    assert forall|k: int| 0 <= k < 9 implies text::no_breaks(#[trigger] slot_line(sv, k)) by {
        if 1 <= k <= 4 {
            lemma_block_round_trip(k - 1, sv.block_ids[k - 1]);
        } else if k == 6 {
            text::lemma_no_breaks_concat("  round1:"@, round_text(sv.round1));
        } else if k == 7 {
            text::lemma_no_breaks_concat("  round2:"@, round_text(sv.round2));
        }
    }
}

/// Parsing a rendered well-formed scenario gives the scenario back.
pub proof fn lemma_parse_render(m: ScenarioView)
    requires
        well_formed(m),
    ensures
        parse_text(render_text(m)) == Some(m),
{
    lemma_literals();
    let ls = render_lines(m);
    assert(ls.len() == scenario_lines());
    assert forall|i: int| 0 <= i < VALIDATOR_COUNT implies #[trigger] parse_committee_line(ls[1 + i], i) == Some(m.stakes[i]) by {
        assert(ls[1 + i] == committee_line(i, m.stakes[i]));
        lemma_committee_round_trip(i, m.stakes[i]);
    }
    assert forall|s: int| 0 <= s < NUM_SLOTS implies #[trigger] slot_ok(ls, 1 + VALIDATOR_COUNT + 9 * s) && parsed_slot(ls, 1 + VALIDATOR_COUNT + 9 * s) == m.slots[s] by {
        assert(slot_well_formed(m.slots[s]));
        assert forall|k: int| 0 <= k < 9 implies ls[1 + VALIDATOR_COUNT + 9 * s + k] == slot_line(m.slots[s], k) by {
            assert((9 * s + k) / 9 == s);
            assert((9 * s + k) % 9 == k);
        }
        lemma_slot_round_trip(ls, 1 + VALIDATOR_COUNT + 9 * s, m.slots[s]);
    }
    assert forall|i: int| 0 <= i < ls.len() implies text::is_plain_line(#[trigger] ls[i]) by {
        if i == 0 {
            text::lemma_no_breaks_plain(ls[0]);
        } else if i < 1 + VALIDATOR_COUNT {
            lemma_committee_round_trip(i - 1, m.stakes[i - 1]);
            text::lemma_no_breaks_plain(ls[i]);
        } else {
            let k = i - 1 - VALIDATOR_COUNT;
            let s = k / 9;
            assert(slot_well_formed(m.slots[s]));
            assert forall|q: int| 0 <= q < 9 implies ls[1 + VALIDATOR_COUNT + 9 * s + q] == slot_line(m.slots[s], q) by {
                assert((9 * s + q) / 9 == s);
                assert((9 * s + q) % 9 == q);
            }
            lemma_slot_round_trip(ls, 1 + VALIDATOR_COUNT + 9 * s, m.slots[s]);
            assert(ls[i] == slot_line(m.slots[s], k % 9));
            text::lemma_no_breaks_plain(ls[i]);
        }
    }
    text::lemma_lines_terminated(ls);
    let r = parse_lines(ls)->0;
    assert(parse_lines(ls) is Some);
    assert(r.stakes =~= m.stakes);
    assert forall|s: int| 0 <= s < NUM_SLOTS implies r.slots[s] == m.slots[s] by {
        assert(slot_ok(ls, 1 + VALIDATOR_COUNT + 9 * s));
    }
    assert(r.slots =~= m.slots);
    assert(r =~= m);
}


// ---------------------------------------------------------------------------
// Validation
// ---------------------------------------------------------------------------
/// The sum of the stakes.
pub open spec fn stake_total(stakes: Seq<u64>) -> int
    decreases stakes.len(),
{
    if stakes.len() == 0 {
        0
    } else {
        stake_total(stakes.drop_last()) + stakes.last()
    }
}

pub open spec fn validator_count_message(n: nat) -> Seq<char> {
    "expected 100 validators, got "@ + text::decimal(n)
}

pub open spec fn slot_count_message(n: nat) -> Seq<char> {
    "expected 32 slots, got "@ + text::decimal(n)
}

pub open spec fn round_length_message(slot: nat, round: nat, n: nat) -> Seq<char> {
    "slot "@ + text::decimal(slot) + " round "@ + text::decimal(round) + " has "@ + text::decimal(n)
        + " assignments, expected 100"@
}

pub open spec fn block_reference_message(slot: nat, round: nat, block: nat) -> Seq<char> {
    "slot "@ + text::decimal(slot) + " round "@ + text::decimal(round) + " references block "@
        + text::decimal(block)
}

/// The complaints about the stakes of a full committee.
pub open spec fn stake_violations(stakes: Seq<u64>) -> Seq<Seq<char>> {
    (if stakes.contains(0) {
        seq!["validator stakes must be positive"@]
    } else {
        seq![]
    }) + (if stake_total(stakes) > u64::MAX {
        seq!["validator stake total overflows u64"@]
    } else if stake_total(stakes) == TOTAL_STAKE {
        seq![]
    } else {
        seq![
            "validator stakes sum to "@ + text::decimal(stake_total(stakes) as nat)
                + ", expected 10000000000"@,
        ]
    })
}

/// The complaints about blocks out of range among a round's votes.
pub open spec fn vote_violations(slot: nat, round: nat, votes: Seq<Vote>) -> Seq<Seq<char>>
    decreases votes.len(),
{
    if votes.len() == 0 {
        seq![]
    } else {
        vote_violations(slot, round, votes.drop_last()) + match vote_block(votes.last()) {
            Some(b) => if b >= BLOCKS_PER_SLOT {
                seq![block_reference_message(slot, round, (b + 1) as nat)]
            } else {
                seq![]
            },
            None => seq![],
        }
    }
}

/// The complaints about one round of one slot.
pub open spec fn round_violations(slot: nat, round: nat, votes: Seq<Vote>) -> Seq<Seq<char>> {
    (if votes.len() != VALIDATOR_COUNT {
        seq![round_length_message(slot, round, votes.len())]
    } else {
        seq![]
    }) + vote_violations(slot, round, votes)
}

/// The complaints about the rounds of the slots, slot by slot.
pub open spec fn slots_violations(slots: Seq<SlotView>) -> Seq<Seq<char>>
    decreases slots.len(),
{
    if slots.len() == 0 {
        seq![]
    } else {
        let i = (slots.len() - 1) as nat;
        slots_violations(slots.drop_last()) + round_violations(i, 1, slots.last().round1)
            + round_violations(i, 2, slots.last().round2)
    }
}

/// Every complaint that validation makes about a scenario, in order.
pub open spec fn violations_of(m: ScenarioView) -> Seq<Seq<char>> {
    if m.stakes.len() != VALIDATOR_COUNT {
        seq![validator_count_message(m.stakes.len())]
    } else {
        stake_violations(m.stakes) + (if m.slots.len() != NUM_SLOTS {
            seq![slot_count_message(m.slots.len())]
        } else {
            seq![]
        }) + slots_violations(m.slots)
    }
}

/// Validation holds the stakes to their total: with 100 validators, a
/// scenario without violations has positive stakes summing to exactly
/// 10 000 000 000, and stakes whose sum fits in a `u64` but is any other
/// number are reported with their sum.
pub proof fn lemma_stake_total_checked(m: ScenarioView)
    requires
        m.stakes.len() == VALIDATOR_COUNT,
    ensures
        violations_of(m).len() == 0 ==> stake_total(m.stakes) == 10_000_000_000 && forall|i: int|
            0 <= i < m.stakes.len() ==> #[trigger] m.stakes[i] > 0,
        stake_total(m.stakes) <= u64::MAX && stake_total(m.stakes) != 10_000_000_000 ==> violations_of(
            m,
        ).contains(
            "validator stakes sum to "@ + text::decimal(stake_total(m.stakes) as nat)
                + ", expected 10000000000"@,
        ),
{
    let sv = stake_violations(m.stakes);
    let rest = (if m.slots.len() != NUM_SLOTS {
        seq![slot_count_message(m.slots.len())]
    } else {
        Seq::<Seq<char>>::empty()
    }) + slots_violations(m.slots);
    assert(violations_of(m) == sv + rest);
    assert(violations_of(m).len() == sv.len() + rest.len());
    if violations_of(m).len() == 0 {
        assert forall|i: int| 0 <= i < m.stakes.len() implies #[trigger] m.stakes[i] > 0 by {
            if m.stakes[i] == 0 {
                assert(m.stakes.contains(0));
            }
        }
    }
    if stake_total(m.stakes) <= u64::MAX && stake_total(m.stakes) != 10_000_000_000 {
        let msg = "validator stakes sum to "@ + text::decimal(stake_total(m.stakes) as nat)
            + ", expected 10000000000"@;
        let zero_part: Seq<Seq<char>> = if m.stakes.contains(0) {
            seq!["validator stakes must be positive"@]
        } else {
            seq![]
        };
        assert(sv == zero_part + seq![msg]);
        assert(violations_of(m)[zero_part.len() as int] == msg);
    }
}

/// Checks the length of a round and the blocks that its votes name.
pub fn validate_round(logical_slot: usize, round: usize, votes: &Vec<Vote>, violations: &mut Vec<String>)
    requires
        votes_numbered(votes@),
    ensures
        final(violations).deep_view() == old(violations).deep_view() + round_violations(
            logical_slot as nat,
            round as nat,
            votes@,
        ),
{
    if votes.len() != VALIDATOR_COUNT {
        let mut msg = text::string_from("slot ");
        text::push_decimal(&mut msg, logical_slot as u64);
        text::push_str(&mut msg, " round ");
        text::push_decimal(&mut msg, round as u64);
        text::push_str(&mut msg, " has ");
        text::push_decimal(&mut msg, votes.len() as u64);
        text::push_str(&mut msg, " assignments, expected 100");
        assert(msg@ =~= round_length_message(logical_slot as nat, round as nat, votes@.len()));
        push_message(violations, msg);
    }
    let ghost base = violations.deep_view();
    assert(base == old(violations).deep_view() + (if votes@.len() != VALIDATOR_COUNT {
        seq![round_length_message(logical_slot as nat, round as nat, votes@.len())]
    } else {
        Seq::<Seq<char>>::empty()
    }));
    let mut i: usize = 0;
    while i < votes.len()
        invariant
            i <= votes.len(),
            votes_numbered(votes@),
            violations.deep_view() == base + vote_violations(
                logical_slot as nat,
                round as nat,
                votes@.take(i as int),
            ),
        decreases votes.len() - i,
    {
        let ghost t = votes@.take(i + 1);
        assert(t.drop_last() =~= votes@.take(i as int));
        assert(t.last() == votes@[i as int]);
        let ghost before = violations.deep_view();
        match votes[i] {
            Vote::Notarize(block) | Vote::NotarizeFallback(block) => {
                if block >= BLOCKS_PER_SLOT {
                    assert(vote_block(votes@[i as int]) matches Some(b) ==> b < usize::MAX);
                    let mut msg = text::string_from("slot ");
                    text::push_decimal(&mut msg, logical_slot as u64);
                    text::push_str(&mut msg, " round ");
                    text::push_decimal(&mut msg, round as u64);
                    text::push_str(&mut msg, " references block ");
                    text::push_decimal(&mut msg, block as u64 + 1);
                    assert(msg@ =~= block_reference_message(
                        logical_slot as nat,
                        round as nat,
                        (block + 1) as nat,
                    ));
                    push_message(violations, msg);
                }
            },
            _ => {},
        }
        assert(violations.deep_view() =~= base + vote_violations(
            logical_slot as nat,
            round as nat,
            t,
        ));
        i += 1;
    }
    assert(votes@.take(i as int) =~= votes@);
    assert(violations.deep_view() =~= old(violations).deep_view() + round_violations(
        logical_slot as nat,
        round as nat,
        votes@,
    ));
}

impl Scenario {
    /// Checks the committee, the stakes and every round, and returns one
    /// message per violation.
    pub fn validate(&self) -> (violations: Vec<String>)
        requires
            self@.stakes.len() == VALIDATOR_COUNT ==> renderable(self@),
        ensures
            violations.deep_view() == violations_of(self@),
    {
        let ghost m = self@;
        let mut violations: Vec<String> = Vec::new();
        if self.stakes.len() != VALIDATOR_COUNT {
            let mut msg = text::string_from("expected 100 validators, got ");
            text::push_decimal(&mut msg, self.stakes.len() as u64);
            push_message(&mut violations, msg);
            assert(violations.deep_view() =~= violations_of(m));
            return violations;
        }
        let mut has_zero = false;
        let mut total: Option<u64> = Some(0);
        let mut i: usize = 0;
        while i < self.stakes.len()
            invariant
                m == self@,
                i <= self.stakes.len(),
                has_zero == m.stakes.take(i as int).contains(0),
                match total {
                    Some(t) => t as int == stake_total(m.stakes.take(i as int)),
                    None => stake_total(m.stakes.take(i as int)) > u64::MAX,
                },
                stake_total(m.stakes.take(i as int)) >= 0,
            decreases self.stakes.len() - i,
        {
            let ghost t = m.stakes.take(i + 1);
            assert(t.drop_last() =~= m.stakes.take(i as int));
            assert(t.last() == m.stakes[i as int]);
            let stake = self.stakes[i];
            if stake == 0 {
                assert(t[i as int] == 0);
                has_zero = true;
            } else if has_zero {
                proof {
                    let j = choose|j: int| 0 <= j < i && m.stakes.take(i as int)[j] == 0;
                    assert(t[j] == 0);
                }
            } else {
                assert forall|j: int| 0 <= j < i + 1 implies t[j] != 0 by {
                    if j < i {
                        assert(t[j] == m.stakes.take(i as int)[j]);
                    }
                }
            }
            total = match total {
                Some(sum) => sum.checked_add(stake),
                None => None,
            };
            i += 1;
        }
        assert(m.stakes.take(i as int) =~= m.stakes);
        if has_zero {
            let msg = text::string_from("validator stakes must be positive");
            push_message(&mut violations, msg);
        }
        match total {
            Some(sum) => {
                if sum != TOTAL_STAKE {
                    let mut msg = text::string_from("validator stakes sum to ");
                    text::push_decimal(&mut msg, sum);
                    text::push_str(&mut msg, ", expected 10000000000");
                    push_message(&mut violations, msg);
                }
            },
            None => {
                let msg = text::string_from("validator stake total overflows u64");
                push_message(&mut violations, msg);
            },
        }
        assert(violations.deep_view() =~= stake_violations(m.stakes));
        if self.slots.len() != NUM_SLOTS {
            let mut msg = text::string_from("expected 32 slots, got ");
            text::push_decimal(&mut msg, self.slots.len() as u64);
            push_message(&mut violations, msg);
        }
        let ghost base = violations.deep_view();
        assert(base == stake_violations(m.stakes) + (if m.slots.len() != NUM_SLOTS {
            seq![slot_count_message(m.slots.len())]
        } else {
            Seq::<Seq<char>>::empty()
        }));
        let mut s: usize = 0;
        while s < self.slots.len()
            invariant
                m == self@,
                renderable(m),
                s <= self.slots.len(),
                violations.deep_view() == base + slots_violations(m.slots.take(s as int)),
            decreases self.slots.len() - s,
        {
            let ghost t = m.slots.take(s + 1);
            assert(t.drop_last() =~= m.slots.take(s as int));
            assert(t.last() == m.slots[s as int]);
            assert(votes_numbered(m.slots[s as int].round1));
            validate_round(s, 1, &self.slots[s].round1, &mut violations);
            validate_round(s, 2, &self.slots[s].round2, &mut violations);
            assert(violations.deep_view() =~= base + slots_violations(t));
            s += 1;
        }
        assert(m.slots.take(s as int) =~= m.slots);
        assert(violations.deep_view() =~= violations_of(m));
        violations
    }
}


// ---------------------------------------------------------------------------
// Generation
// ---------------------------------------------------------------------------
pub open spec fn strictly_increasing(v: Seq<u64>) -> bool {
    forall|i: int, j: int| 0 <= i < j < v.len() ==> v[i] < v[j]
}

/// Inserts `cut` into a strictly increasing vector unless it is there already.
fn insert_cut(cuts: &mut Vec<u64>, cut: u64)
    requires
        strictly_increasing(old(cuts)@),
    ensures
        strictly_increasing(final(cuts)@),
        final(cuts)@.len() == old(cuts)@.len() || final(cuts)@.len() == old(cuts)@.len() + 1,
        forall|x: u64| #[trigger] final(cuts)@.contains(x) <==> (old(cuts)@.contains(x) || x == cut),
{
    let mut pos: usize = 0;
    while pos < cuts.len() && cuts[pos] < cut
        invariant
            pos <= cuts.len(),
            forall|j: int| 0 <= j < pos ==> cuts@[j] < cut,
        decreases cuts.len() - pos,
    {
        pos += 1;
    }
    if pos < cuts.len() && cuts[pos] == cut {
        return;
    }
    let ghost before = cuts@;
    cuts.insert(pos, cut);
    assert forall|i: int, j: int| 0 <= i < j < cuts@.len() implies cuts@[i] < cuts@[j] by {
        if j < pos {
        } else if j == pos {
        } else if i < pos {
            assert(cuts@[j] == before[j - 1]);
        } else if i == pos {
            assert(cuts@[j] == before[j - 1]);
            assert(before[pos as int] > cut);
            if j - 1 > pos {
                assert(before[pos as int] < before[j - 1]);
            }
        } else {
            assert(cuts@[j] == before[j - 1]);
            assert(cuts@[i] == before[i - 1]);
        }
    }
    assert forall|x: u64| #[trigger] cuts@.contains(x) <==> (before.contains(x) || x == cut) by {
        if cuts@.contains(x) {
            let k = choose|k: int| 0 <= k < cuts@.len() && cuts@[k] == x;
            if k < pos {
                assert(before[k] == x);
            } else if k > pos {
                assert(before[k - 1] == x);
            }
        }
        if before.contains(x) {
            let k = choose|k: int| 0 <= k < before.len() && before[k] == x;
            if k < pos {
                assert(cuts@[k] == x);
            } else {
                assert(cuts@[k + 1] == x);
            }
        }
        if x == cut {
            assert(cuts@[pos as int] == cut);
        }
    }
}

/// Random stakes: the gaps between 99 distinct random cuts of the total.
pub fn generate_stakes(rng: &mut StdRng) -> (stakes: Vec<u64>)
    ensures
        stakes@.len() == VALIDATOR_COUNT,
        forall|i: int| 0 <= i < VALIDATOR_COUNT ==> #[trigger] stakes@[i] > 0,
        stake_total(stakes@) == TOTAL_STAKE,
{
    let mut cuts: Vec<u64> = Vec::new();
    let mut attempts: u64 = 0;
    while cuts.len() < VALIDATOR_COUNT - 1 && attempts < u64::MAX
        invariant
            strictly_increasing(cuts@),
            cuts@.len() <= VALIDATOR_COUNT - 1,
            forall|j: int| 0 <= j < cuts@.len() ==> 1 <= #[trigger] cuts@[j] < TOTAL_STAKE,
        decreases u64::MAX - attempts,
    {
        let cut = rng::random_u64(rng, 1, TOTAL_STAKE);
        let ghost before = cuts@;
        insert_cut(&mut cuts, cut);
        assert forall|j: int| 0 <= j < cuts@.len() implies 1 <= #[trigger] cuts@[j] < TOTAL_STAKE by {
            assert(cuts@.contains(cuts@[j]));
            if cuts@[j] != cut {
                let k = choose|k: int| 0 <= k < before.len() && before[k] == cuts@[j];
            }
        }
        attempts += 1;
    }
    // Fewer distinct cuts than needed only after `u64::MAX` draws: complete
    // them with the smallest values not drawn.
    let mut candidate: u64 = 1;
    while cuts.len() < VALIDATOR_COUNT - 1
        invariant
            strictly_increasing(cuts@),
            cuts@.len() <= VALIDATOR_COUNT - 1,
            forall|j: int| 0 <= j < cuts@.len() ==> 1 <= #[trigger] cuts@[j] < TOTAL_STAKE,
            1 <= candidate <= VALIDATOR_COUNT,
            forall|x: u64| 1 <= x < candidate ==> #[trigger] cuts@.contains(x),
        decreases VALIDATOR_COUNT - candidate,
    {
        proof {
            lemma_distinct_bound(cuts@, (candidate - 1) as u64);
        }
        let ghost before = cuts@;
        insert_cut(&mut cuts, candidate);
        assert forall|j: int| 0 <= j < cuts@.len() implies 1 <= #[trigger] cuts@[j] < TOTAL_STAKE by {
            assert(cuts@.contains(cuts@[j]));
            if cuts@[j] != candidate {
                let k = choose|k: int| 0 <= k < before.len() && before[k] == cuts@[j];
            }
        }
        assert forall|x: u64| 1 <= x < candidate + 1 implies #[trigger] cuts@.contains(x) by {
            if x < candidate {
                assert(before.contains(x));
            }
        }
        candidate += 1;
    }
    stakes_from_cuts(&cuts)
}

/// The stake that sits before cut `i` (or, for `i` equal to the number of
/// cuts, after the last cut): the gap from the cut before it.
pub open spec fn stake_at(cuts: Seq<u64>, i: int) -> int {
    let hi: int = if i < cuts.len() {
        cuts[i] as int
    } else {
        TOTAL_STAKE as int
    };
    let lo: int = if i == 0 {
        0
    } else {
        cuts[i - 1] as int
    };
    hi - lo
}

/// The stakes that increasing cuts of the total make: the gap before each
/// cut, then the rest of the total after the last cut.
pub fn stakes_from_cuts(cuts: &Vec<u64>) -> (stakes: Vec<u64>)
    requires
        strictly_increasing(cuts@),
        forall|j: int| 0 <= j < cuts@.len() ==> 1 <= #[trigger] cuts@[j] < TOTAL_STAKE,
    ensures
        stakes@.len() == cuts@.len() + 1,
        forall|i: int| 0 <= i <= cuts@.len() ==> #[trigger] stakes@[i] == stake_at(cuts@, i),
        forall|i: int| 0 <= i <= cuts@.len() ==> #[trigger] stakes@[i] > 0,
        stake_total(stakes@) == TOTAL_STAKE,
{
    let mut stakes: Vec<u64> = Vec::new();
    let mut previous: u64 = 0;
    let mut i: usize = 0;
    while i < cuts.len()
        invariant
            strictly_increasing(cuts@),
            forall|j: int| 0 <= j < cuts@.len() ==> 1 <= #[trigger] cuts@[j] < TOTAL_STAKE,
            i <= cuts.len(),
            stakes@.len() == i,
            previous == if i == 0 {
                0
            } else {
                cuts@[i - 1]
            },
            stake_total(stakes@) == previous,
            forall|j: int| 0 <= j < i ==> #[trigger] stakes@[j] > 0,
            forall|j: int| 0 <= j < i ==> #[trigger] stakes@[j] == stake_at(cuts@, j),
        decreases cuts.len() - i,
    {
        let cut = cuts[i];
        if i > 0 {
            assert(cuts@[i - 1] < cuts@[i as int]);
        }
        let ghost before = stakes@;
        stakes.push(cut - previous);
        assert(stakes@.drop_last() =~= before);
        assert(stakes@[i as int] == stake_at(cuts@, i as int));
        previous = cut;
        i += 1;
    }
    let ghost before = stakes@;
    stakes.push(TOTAL_STAKE - previous);
    assert(stakes@.drop_last() =~= before);
    assert(stakes@[i as int] == stake_at(cuts@, i as int));
    stakes
}

/// A strictly increasing vector of positive numbers that holds every value
/// from 1 to `c` is at least `c` long.
proof fn lemma_distinct_bound(v: Seq<u64>, c: u64)
    requires
        strictly_increasing(v),
        forall|j: int| 0 <= j < v.len() ==> 1 <= #[trigger] v[j],
        forall|x: u64| 1 <= x <= c ==> #[trigger] v.contains(x),
    ensures
        v.len() >= c,
    decreases c,
{
    if c > 0 {
        let k = choose|k: int| 0 <= k < v.len() && v[k] == c;
        assert(v.contains(c));
        // every value below `c` sits before position `k`
        assert forall|x: u64| 1 <= x <= c - 1 implies #[trigger] v.take(k).contains(x) by {
            assert(v.contains(x));
            let q = choose|q: int| 0 <= q < v.len() && v[q] == x;
            if q >= k {
                if q > k {
                    assert(v[k] < v[q]);
                }
            }
            assert(v.take(k)[q] == x);
        }
        assert forall|j: int| 0 <= j < v.take(k).len() implies 1 <= #[trigger] v.take(k)[j] by {
            assert(v.take(k)[j] == v[j]);
        }
        assert(strictly_increasing(v.take(k))) by {
            assert forall|i: int, j: int| 0 <= i < j < v.take(k).len() implies v.take(k)[i] < v.take(k)[j] by {
                assert(v.take(k)[i] == v[i]);
                assert(v.take(k)[j] == v[j]);
            }
        }
        lemma_distinct_bound(v.take(k), (c - 1) as u64);
    }
}

/// The vote that a draw of its kind (`0..6`) and of a block stand for:
/// skip, finalize, notarize the block, notarize-fallback the block,
/// skip-fallback, absent.
pub open spec fn vote_of_draw(kind: i32, block: usize) -> Vote {
    if kind == 0 {
        Vote::Skip
    } else if kind == 1 {
        Vote::Finalize
    } else if kind == 2 {
        Vote::Notarize(block)
    } else if kind == 3 {
        Vote::NotarizeFallback(block)
    } else if kind == 4 {
        Vote::SkipFallback
    } else {
        Vote::Absent
    }
}

/// The vote that a draw of its kind (`0..6`) and of a block stand for.
pub fn vote_for_draw(kind: i32, block: usize) -> (vote: Vote)
    requires
        0 <= kind < 6,
        block < BLOCKS_PER_SLOT,
    ensures
        vote == vote_of_draw(kind, block),
        vote_block(vote) matches Some(b) ==> b < BLOCKS_PER_SLOT,
{
    match kind {
        0 => Vote::Skip,
        1 => Vote::Finalize,
        2 => Vote::Notarize(block),
        3 => Vote::NotarizeFallback(block),
        4 => Vote::SkipFallback,
        _ => Vote::Absent,
    }
}

/// A random vote; notarizations name one of the slot's blocks.
pub fn generate_vote(rng: &mut StdRng) -> (vote: Vote)
    ensures
        vote_block(vote) matches Some(b) ==> b < BLOCKS_PER_SLOT,
{
    let kind = rng::random_i32(rng, 0, 6);
    let block = if kind == 2 || kind == 3 {
        rng::random_usize(rng, 0, BLOCKS_PER_SLOT)
    } else {
        0
    };
    vote_for_draw(kind, block)
}

/// One random vote per validator.
pub fn generate_round(rng: &mut StdRng) -> (votes: Vec<Vote>)
    ensures
        votes@.len() == VALIDATOR_COUNT,
        votes_in_range(votes@),
{
    let mut votes: Vec<Vote> = Vec::new();
    let mut i: usize = 0;
    while i < VALIDATOR_COUNT
        invariant
            i <= VALIDATOR_COUNT,
            votes@.len() == i,
            votes_in_range(votes@),
        decreases VALIDATOR_COUNT - i,
    {
        let v = generate_vote(rng);
        votes.push(v);
        i += 1;
    }
    votes
}

/// Validation of a well-formed scenario whose stakes sum to the total finds
/// nothing.
pub proof fn lemma_well_formed_valid(m: ScenarioView)
    requires
        well_formed(m),
        stake_total(m.stakes) == TOTAL_STAKE,
    ensures
        violations_of(m) == Seq::<Seq<char>>::empty(),
{
    assert(!m.stakes.contains(0)) by {
        if m.stakes.contains(0) {
            let k = choose|k: int| 0 <= k < m.stakes.len() && m.stakes[k] == 0;
            assert(m.stakes[k] > 0);
        }
    }
    assert(stake_violations(m.stakes) =~= Seq::<Seq<char>>::empty());
    lemma_slots_clean(m.slots);
    assert(violations_of(m) =~= Seq::<Seq<char>>::empty());
}

proof fn lemma_votes_clean(slot: nat, round: nat, votes: Seq<Vote>)
    requires
        votes_in_range(votes),
    ensures
        vote_violations(slot, round, votes) == Seq::<Seq<char>>::empty(),
    decreases votes.len(),
{
    if votes.len() > 0 {
        assert(votes_in_range(votes.drop_last())) by {
            assert forall|i: int| 0 <= i < votes.drop_last().len() implies (#[trigger] vote_block(votes.drop_last()[i]) matches Some(b) ==> b
                < BLOCKS_PER_SLOT) by {
                assert(votes.drop_last()[i] == votes[i]);
            }
        }
        lemma_votes_clean(slot, round, votes.drop_last());
        assert(vote_block(votes[votes.len() - 1]) matches Some(b) ==> b < BLOCKS_PER_SLOT);
        assert(vote_violations(slot, round, votes) =~= Seq::<Seq<char>>::empty());
    }
}

proof fn lemma_slots_clean(slots: Seq<SlotView>)
    requires
        forall|s: int| 0 <= s < slots.len() ==> #[trigger] slot_well_formed(slots[s]),
    ensures
        slots_violations(slots) == Seq::<Seq<char>>::empty(),
    decreases slots.len(),
{
    if slots.len() > 0 {
        assert forall|s: int| 0 <= s < slots.drop_last().len() implies #[trigger] slot_well_formed(slots.drop_last()[s]) by {
            assert(slots.drop_last()[s] == slots[s]);
        }
        lemma_slots_clean(slots.drop_last());
        let i = (slots.len() - 1) as nat;
        assert(slot_well_formed(slots[slots.len() - 1]));
        lemma_votes_clean(i, 1, slots.last().round1);
        lemma_votes_clean(i, 2, slots.last().round2);
        assert(slots_violations(slots) =~= Seq::<Seq<char>>::empty());
    }
}

/// Well-formed scenarios render without overflow.
pub proof fn lemma_well_formed_renderable(m: ScenarioView)
    requires
        well_formed(m),
    ensures
        renderable(m),
{
    assert forall|s: int| 0 <= s < m.slots.len() implies votes_numbered(#[trigger] m.slots[s].round1)
        && votes_numbered(m.slots[s].round2) by {
        assert(slot_well_formed(m.slots[s]));
        assert forall|i: int| 0 <= i < m.slots[s].round1.len() implies (#[trigger] vote_block(m.slots[s].round1[i]) matches Some(b) ==> b < usize::MAX) by {
            assert(vote_block(m.slots[s].round1[i]) matches Some(b) ==> b < BLOCKS_PER_SLOT);
        }
        assert forall|i: int| 0 <= i < m.slots[s].round2.len() implies (#[trigger] vote_block(m.slots[s].round2[i]) matches Some(b) ==> b < usize::MAX) by {
            assert(vote_block(m.slots[s].round2[i]) matches Some(b) ==> b < BLOCKS_PER_SLOT);
        }
    }
}

impl Scenario {
    /// A random scenario of the grammar's shape whose stakes sum to the total.
    pub fn generate(rng: &mut StdRng) -> (scenario: Scenario)
        ensures
            well_formed(scenario@),
            stake_total(scenario@.stakes) == TOTAL_STAKE,
            violations_of(scenario@) == Seq::<Seq<char>>::empty(),
            parse_text(render_text(scenario@)) == Some(scenario@),
    {
        let stakes = generate_stakes(rng);
        let mut slots: Vec<Slot> = Vec::new();
        let mut i: usize = 0;
        while i < NUM_SLOTS
            invariant
                i <= NUM_SLOTS,
                slots@.len() == i,
                forall|s: int| 0 <= s < i ==> #[trigger] slot_well_formed(slots@[s]@),
            decreases NUM_SLOTS - i,
        {
            let block_ids = generate_block_ids(rng);
            let round1 = generate_round(rng);
            let round2 = generate_round(rng);
            let slot = Slot { block_ids, round1, round2 };
            assert(slot_well_formed(slot@));
            let ghost before = slots@;
            slots.push(slot);
            assert forall|s: int| 0 <= s < i + 1 implies #[trigger] slot_well_formed(slots@[s]@) by {
                if s < i {
                    assert(slots@[s] == before[s]);
                }
            }
            i += 1;
        }
        let scenario = Scenario { stakes, slots };
        proof {
            let m = scenario@;
            assert forall|s: int| 0 <= s < NUM_SLOTS implies #[trigger] slot_well_formed(m.slots[s]) by {
                assert(m.slots[s] == slots@[s]@);
            }
            lemma_well_formed_valid(m);
            lemma_parse_render(m);
        }
        scenario
    }
}


// ---------------------------------------------------------------------------
// Checking generated trees
// ---------------------------------------------------------------------------
/// A parsed scenario has the grammar's shape.
pub proof fn lemma_parsed_well_formed(ls: Seq<Seq<char>>)
    requires
        parse_lines(ls) is Some,
    ensures
        well_formed(parse_lines(ls)->0),
{
    let m = parse_lines(ls)->0;
    assert forall|i: int| 0 <= i < VALIDATOR_COUNT implies #[trigger] m.stakes[i] > 0 by {
        assert(parse_committee_line(ls[1 + i], i) is Some);
        assert(m.stakes[i] == parse_committee_line(ls[1 + i], i)->0);
        let f = text::fields(ls[1 + i]);
        let v = text::parse_unsigned(f[1].skip("stake="@.len() as int), u64::MAX as int);
        assert(v is Some);
        text::lemma_digits_value_nonneg(text::unsigned_digits(f[1].skip("stake="@.len() as int)));
        assert(v->0 != 0 && v->0 <= u64::MAX);
    }
    assert forall|s: int| 0 <= s < NUM_SLOTS implies #[trigger] slot_well_formed(m.slots[s]) by {
        let b = 1 + VALIDATOR_COUNT + 9 * s;
        assert(slot_ok(ls, b));
        let sv = m.slots[s];
        assert(sv == parsed_slot(ls, b));
        assert forall|j: int| 0 <= j < BLOCKS_PER_SLOT implies (#[trigger] sv.block_ids[j]).len()
            == BLOCK_ID_BYTES by {
            assert(parse_block_line(ls[b + 1 + j], j) is Some);
        }
        lemma_parsed_round(ls[b + 6], "  round1:"@);
        lemma_parsed_round(ls[b + 7], "  round2:"@);
    }
}

proof fn lemma_parsed_round(line: Seq<char>, prefix: Seq<char>)
    requires
        parse_round_line(line, prefix) is Some,
    ensures
        (parse_round_line(line, prefix)->0).len() == VALIDATOR_COUNT,
        votes_in_range(parse_round_line(line, prefix)->0),
{
    let votes = parse_round_line(line, prefix)->0;
    let f = text::fields(line.skip(prefix.len() as int));
    assert forall|i: int| 0 <= i < votes.len() implies (#[trigger] vote_block(votes[i]) matches Some(b) ==> b
        < BLOCKS_PER_SLOT) by {
        assert(parse_assignment(f[i], i) is Some);
        let pair = text::split_once(f[i], '=')->0;
        assert(parse_vote_text(pair.1) == Some(votes[i]));
    }
}

/// The complaints about a generated tree, given the text it writes out:
/// every violation of the scenario it describes, or the reason it describes
/// none.
pub open spec fn text_violations(t: Seq<char>) -> Seq<Seq<char>> {
    match parse_text(t) {
        Some(m) => violations_of(m),
        None => seq![parse_error(text::lines(t))],
    }
}

/// Generated scenarios pass the checks: the text that [`generate_tree`]
/// returns (it parses, is well formed and breaks no rule) gives no
/// violation, so a visitor that checks a tree whose output is that text,
/// as UTF-8, records none.
pub proof fn lemma_generated_text_passes(t: Seq<char>, output: Seq<u8>)
    requires
        parse_text(t) matches Some(m) && well_formed(m) && violations_of(m) == Seq::<Seq<char>>::empty(),
        vstd::utf8::valid_utf8(output),
        vstd::utf8::decode_utf8(output) == t,
    ensures
        text_violations(vstd::utf8::decode_utf8(output)) == Seq::<Seq<char>>::empty(),
{
}

/// Checks generated trees against the committee, stake, slot, block and
/// round rules, and collects what it finds.
pub struct ConstraintVisitor {
    checked: bool,
    violations: Vec<String>,
    paths: Vec<VecDeque<usize>>,
}

impl Default for ConstraintVisitor {
    /// A visitor that has checked nothing.
    fn default() -> (v: Self)
        ensures
            !v.spec_checked(),
            v.violation_texts() == Seq::<Seq<char>>::empty(),
            v.path_seqs() == Seq::<Seq<usize>>::empty(),
    {
        Self::new()
    }
}

impl ConstraintVisitor {
    pub closed spec fn spec_checked(&self) -> bool {
        self.checked
    }

    /// The violations found so far.
    pub closed spec fn violation_texts(&self) -> Seq<Seq<char>> {
        self.violations.deep_view()
    }

    /// The derivation-tree path of each violation.
    pub closed spec fn path_seqs(&self) -> Seq<Seq<usize>> {
        self.paths@.map_values(|p: VecDeque<usize>| p@)
    }

    /// A visitor that has checked nothing.
    pub fn new() -> (v: Self)
        ensures
            !v.spec_checked(),
            v.violation_texts() == Seq::<Seq<char>>::empty(),
            v.path_seqs() == Seq::<Seq<usize>>::empty(),
    {
        let v = ConstraintVisitor { checked: false, violations: Vec::new(), paths: Vec::new() };
        assert(v.violation_texts() =~= Seq::<Seq<char>>::empty());
        assert(v.path_seqs() =~= Seq::<Seq<usize>>::empty());
        v
    }

    /// Whether a start node has been visited.
    pub fn checked(&self) -> (r: bool)
        ensures
            r == self.spec_checked(),
    {
        self.checked
    }

    /// Constraint violations discovered while visiting the root.
    pub fn violations(&self) -> (r: &[String])
        ensures
            r@.len() == self.violation_texts().len(),
            forall|i: int| 0 <= i < r@.len() ==> #[trigger] r@[i]@ == self.violation_texts()[i],
    {
        self.violations.as_slice()
    }

    /// Derivation-tree paths associated with the violations.
    pub fn paths(&self) -> (r: &[VecDeque<usize>])
        ensures
            r@.len() == self.path_seqs().len(),
            forall|i: int| 0 <= i < r@.len() ==> #[trigger] r@[i]@ == self.path_seqs()[i],
    {
        self.paths.as_slice()
    }

    fn record(&mut self, index: usize, violation: String)
        ensures
            final(self).spec_checked() == old(self).spec_checked(),
            final(self).violation_texts() == old(self).violation_texts().push(violation@),
            final(self).path_seqs() == old(self).path_seqs().push(seq![index]),
    {
        self.violations.push(violation);
        let mut path: VecDeque<usize> = VecDeque::new();
        path.push_back(index);
        self.paths.push(path);
        assert(self.violation_texts() =~= old(self).violation_texts().push(violation@));
        assert(self.path_seqs() =~= old(self).path_seqs().push(seq![index]));
    }

    /// Visits the start node at `index`, given the bytes that the tree writes
    /// out: undecodable bytes, an unparsable text and every violation of a
    /// parsed scenario are each recorded with the path `[index]`.
    pub fn visit_output(&mut self, output: Vec<u8>, index: usize)
        ensures
            final(self).spec_checked(),
            final(self).violation_texts().len() >= old(self).violation_texts().len(),
            final(self).violation_texts().take(old(self).violation_texts().len() as int)
                == old(self).violation_texts(),
            final(self).path_seqs() == old(self).path_seqs() + Seq::new(
                (final(self).violation_texts().len() - old(self).violation_texts().len()) as nat,
                |i: int| seq![index],
            ),
            ({
                let added = final(self).violation_texts().skip(
                    old(self).violation_texts().len() as int,
                );
                if !vstd::utf8::valid_utf8(output@) {
                    added.len() == 1 && text::has_prefix(
                        added[0],
                        "generated tree is not UTF-8: "@,
                    )
                } else {
                    added == text_violations(vstd::utf8::decode_utf8(output@))
                }
            }),
    {
        let ghost n = self.violation_texts().len();
        let ghost old_paths = self.path_seqs();
        let ghost old_texts = self.violation_texts();
        self.checked = true;
        let input = match text::string_from_utf8(output) {
            Ok(input) => input,
            Err(error) => {
                let mut msg = text::string_from("generated tree is not UTF-8: ");
                let detail = error.to_string();
                let ghost head = msg@;
                let d = text::as_chars(&detail);
                text::push_chars(&mut msg, &d);
                self.record(index, msg);
                proof {
                    text::lemma_has_prefix_concat(head, d@);
                    assert(self.violation_texts().skip(n as int) =~= seq![msg@]);
                    assert(self.violation_texts().take(n as int) =~= old_texts);
                    assert(self.path_seqs() =~= old_paths + Seq::new(1, |i: int| seq![index]));
                }
                return;
            },
        };
        match Scenario::parse(input.as_str()) {
            Ok(scenario) => {
                proof {
                    lemma_parsed_well_formed(text::lines(input@));
                    lemma_well_formed_renderable(scenario@);
                }
                let found = scenario.validate();
                let mut i: usize = 0;
                while i < found.len()
                    invariant
                        i <= found.len(),
                        self.spec_checked(),
                        self.violation_texts() == old_texts + found.deep_view().take(i as int),
                        self.path_seqs() == old_paths + Seq::new(i as nat, |k: int| seq![index]),
                    decreases found.len() - i,
                {
                    let v = found[i].clone();
                    proof {
                        assert(found.deep_view()[i as int] == found@[i as int]@);
                    }
                    self.record(index, v);
                    assert(self.violation_texts() =~= old_texts + found.deep_view().take(i + 1));
                    assert(self.path_seqs() =~= old_paths + Seq::new((i + 1) as nat, |k: int| seq![index]));
                    i += 1;
                }
                assert(found.deep_view().take(i as int) =~= found.deep_view());
                assert(self.violation_texts().skip(n as int) =~= found.deep_view());
                assert(self.violation_texts().take(n as int) =~= old_texts);
            },
            Err(error) => {
                self.record(index, error);
                assert(self.violation_texts().skip(n as int) =~= seq![error@]);
                assert(self.violation_texts().take(n as int) =~= old_texts);
                assert(self.path_seqs() =~= old_paths + Seq::new(1, |i: int| seq![index]));
            },
        }
    }
}

/// Generates scenarios whose text satisfies every constraint.
pub struct AlpenglowTwoRoundsGenerator;

impl AlpenglowTwoRoundsGenerator {
    /// Generates one scenario and returns its text, which parses back to a
    /// scenario without violations.
    pub fn generate(&mut self, rng: &mut StdRng) -> (r: Option<String>)
        ensures
            r matches Some(t) && parse_text(t@) matches Some(m) && well_formed(m)
                && violations_of(m) == Seq::<Seq<char>>::empty(),
    {
        let scenario = Scenario::generate(rng);
        proof {
            lemma_well_formed_renderable(scenario@);
        }
        Some(scenario.render())
    }
}

/// Generates the text of one scenario that satisfies every constraint.
pub fn generate_tree(rng: &mut StdRng) -> (t: String)
    ensures
        parse_text(t@) matches Some(m) && well_formed(m) && violations_of(m) == Seq::<
            Seq<char>,
        >::empty(),
{
    let mut generator = AlpenglowTwoRoundsGenerator;
    match generator.generate(rng) {
        Some(t) => t,
        None => String::new(),
    }
}

/// Checks the bytes that a tree writes out: `Ok` when nothing is found,
/// otherwise every violation.
pub fn validate_tree(output: Vec<u8>) -> (r: Result<(), Vec<String>>)
    ensures
        r is Ok <==> (vstd::utf8::valid_utf8(output@) && text_violations(
            vstd::utf8::decode_utf8(output@),
        ) == Seq::<Seq<char>>::empty()),
        match r {
            Err(v) => if vstd::utf8::valid_utf8(output@) {
                v.deep_view() == text_violations(vstd::utf8::decode_utf8(output@))
            } else {
                v.deep_view().len() == 1 && text::has_prefix(
                    v.deep_view()[0],
                    "generated tree is not UTF-8: "@,
                )
            },
            Ok(_) => true,
        },
{
    let mut visitor = ConstraintVisitor::new();
    visitor.visit_output(output, 0);
    if visitor.violations.len() == 0 {
        Ok(())
    } else {
        proof {
            assert(visitor.violation_texts().skip(0) =~= visitor.violation_texts());
        }
        Err(visitor.violations)
    }
}

} // verus!
