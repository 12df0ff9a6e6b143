//! Automatic detection of the baud rate: listen at each candidate rate, score what comes in,
//! take the best match.

use vstd::arithmetic::mul::*;
use vstd::arithmetic::power2::*;
use vstd::prelude::*;

use crate::link::{lemma_stream_of_chunks, stream, ReadOutcome};
use crate::score::{
    is_match, law_match_by_the_bytes, lemma_match_is_positive, matching, score_ascii, score_of,
};
use crate::single::{binary_above, binary_zero, Binary, Single};

verus! {

/// Baud rates scanned during auto-detection, from slowest to fastest.
pub const BAUD_CANDIDATES: [u32; 8] = [
    9600,
    19200,
    38400,
    57600,
    115200,
    230400,
    460800,
    921600,
];

/// How many candidates there are.
pub const CANDIDATE_COUNT: usize = 8;

/// How long to listen at each candidate rate, in milliseconds.
pub const DETECT_WINDOW_MS: u64 = 350;

/// Hard cap on bytes per window: keeps a fast or flooding link from bloating memory.
pub const DETECT_MAX_BYTES: usize = 4096;

/// The most bytes asked for in one read.
pub const WINDOW_READ_BUF: usize = 256;

/// What has been heard at one candidate rate.
pub struct Window {
    bytes: Vec<u8>,
}

impl View for Window {
    type V = Seq<u8>;

    closed spec fn view(&self) -> Seq<u8> {
        self.bytes@
    }
}

/// The first `DETECT_MAX_BYTES` of `bytes`, or all of them.
pub open spec fn capped(bytes: Seq<u8>) -> Seq<u8> {
    if bytes.len() > DETECT_MAX_BYTES {
        bytes.take(DETECT_MAX_BYTES as int)
    } else {
        bytes
    }
}

/// What a window holds after a read.
pub open spec fn heard_after(heard: Seq<u8>, outcome: ReadOutcome) -> Seq<u8> {
    match outcome {
        ReadOutcome::Bytes(chunk) => capped(heard + chunk@),
        _ => heard,
    }
}

/// Whether listening can go on after a read: it ends at an error, and when the device closes.
pub open spec fn still_open(outcome: ReadOutcome) -> bool {
    match outcome {
        ReadOutcome::Bytes(chunk) => chunk@.len() > 0,
        ReadOutcome::TimedOut => true,
        ReadOutcome::Failed => false,
    }
}

/// What a window that held `heard` holds after all of these reads, as long as it stays open.
pub open spec fn heard_after_all(heard: Seq<u8>, outcomes: Seq<ReadOutcome>) -> Seq<u8>
    decreases outcomes.len(),
{
    if outcomes.len() == 0 {
        heard
    } else if still_open(outcomes.first()) {
        heard_after_all(heard_after(heard, outcomes.first()), outcomes.drop_first())
    } else {
        heard_after(heard, outcomes.first())
    }
}

impl Window {
    #[verifier::type_invariant]
    closed spec fn within_cap(self) -> bool {
        self.bytes@.len() <= DETECT_MAX_BYTES
    }

    /// A window in which nothing has been heard.
    pub fn new() -> (out: Self)
        ensures
            out@ == Seq::<u8>::empty(),
    {
        Window { bytes: Vec::new() }
    }

    /// Whether to read on, given whether there is time left.
    pub fn wants_more(&self, time_left: bool) -> (out: bool)
        ensures
            out == (time_left && self@.len() < DETECT_MAX_BYTES),
    {
        time_left && self.bytes.len() < DETECT_MAX_BYTES
    }

    /// How many bytes to ask for in the next read.
    pub fn next_read(&self) -> (out: usize)
        ensures
            self@.len() <= DETECT_MAX_BYTES,
            out == if DETECT_MAX_BYTES - self@.len() < WINDOW_READ_BUF {
                DETECT_MAX_BYTES - self@.len()
            } else {
                WINDOW_READ_BUF as int
            },
    {
        proof {
            use_type_invariant(self);
        }
        let room: usize = DETECT_MAX_BYTES - self.bytes.len();
        if room < WINDOW_READ_BUF {
            room
        } else {
            WINDOW_READ_BUF
        }
    }

    /// Takes in what came of a read, and says whether listening can go on.
    pub fn on_read(self, outcome: &ReadOutcome) -> (out: (Self, bool))
        ensures
            out.0@ == heard_after(self@, *outcome),
            out.1 == still_open(*outcome),
    {
        proof {
            use_type_invariant(&self);
        }
        let mut bytes = self.bytes;
        match outcome {
            ReadOutcome::Bytes(chunk) => {
                let ghost start = bytes@;
                let mut i: usize = 0;
                while i < chunk.len() && bytes.len() < DETECT_MAX_BYTES
                    invariant
                        i <= chunk@.len(),
                        bytes@ == start + chunk@.take(i as int),
                        bytes@.len() <= DETECT_MAX_BYTES,
                    decreases chunk@.len() - i,
                {
                    bytes.push(chunk[i]);
                    i = i + 1;
                    assert(bytes@ =~= start + chunk@.take(i as int));
                }
                assert(bytes@ =~= capped(start + chunk@));
                (Window { bytes }, chunk.len() > 0)
            },
            ReadOutcome::TimedOut => (Window { bytes }, true),
            ReadOutcome::Failed => (Window { bytes }, false),
        }
    }

    /// What has been heard.
    pub fn into_bytes(self) -> (out: Vec<u8>)
        ensures
            out@ == self@,
            out@.len() <= DETECT_MAX_BYTES,
    {
        proof {
            use_type_invariant(&self);
        }
        self.bytes
    }
}

/// A candidate rate that was tried, with the score of what was heard.
pub struct ScanUpdate {
    pub rate: u32,
    pub score: Single,
}

/// What happened to the scan.
pub enum ScanEvent {
    /// The port could not be opened.
    OpenFailed,
    /// The port is open.
    Opened,
    /// The port did not take the rate.
    RateRejected,
    /// The port took the rate, and this was heard.
    Heard(Vec<u8>),
}

/// What the scan does next.
pub enum ScanAction {
    /// Set this rate and listen.
    TryRate(u32),
    /// End, with the rate that was found.
    Finish(Option<u32>),
}

/// What the scan wants done: report a rate that was scored, if any, then act.
pub struct ScanStep {
    pub report: Option<ScanUpdate>,
    pub action: ScanAction,
}

/// The state of a scan.
#[verifier::ext_equal]
pub struct ScanState {
    /// How many candidates are done with.
    pub tried: nat,
    /// The best match so far, and its score.
    pub best: Option<u32>,
    pub best_score: Binary,
}

/// A scan that has tried nothing.
pub open spec fn scan_start() -> ScanState {
    ScanState { tried: 0, best: None, best_score: binary_zero() }
}

/// The scan once the current candidate is done with: `outcome` is its score, or nothing if the
/// port did not take the rate.
pub open spec fn scan_after(state: ScanState, outcome: Option<Binary>) -> ScanState {
    let rate = BAUD_CANDIDATES[state.tried as int];
    match outcome {
        Some(score) => if matching(score) && binary_above(score, state.best_score) {
            ScanState { tried: state.tried + 1, best: Some(rate), best_score: score }
        } else {
            ScanState { tried: state.tried + 1, ..state }
        },
        None => ScanState { tried: state.tried + 1, ..state },
    }
}

/// The scan once all `outcomes` have come in, in the order of the candidates.
pub open spec fn scan_after_all(outcomes: Seq<Option<Binary>>) -> ScanState
    decreases outcomes.len(),
{
    if outcomes.len() == 0 {
        scan_start()
    } else {
        scan_after(scan_after_all(outcomes.drop_last()), outcomes.last())
    }
}

/// The scan after an event.
pub open spec fn scan_next(state: ScanState, event: ScanEvent) -> ScanState {
    match event {
        ScanEvent::RateRejected if state.tried < CANDIDATE_COUNT => scan_after(state, None),
        ScanEvent::Heard(bytes) if state.tried < CANDIDATE_COUNT => scan_after(
            state,
            Some(score_of(bytes@)),
        ),
        _ => state,
    }
}

/// What the scan does in a state: it tries the next candidate, or ends with the best match.
pub open spec fn scan_action(state: ScanState) -> ScanAction {
    if state.tried < CANDIDATE_COUNT {
        ScanAction::TryRate(BAUD_CANDIDATES[state.tried as int])
    } else {
        ScanAction::Finish(state.best)
    }
}

/// The rate and the score that are reported about an event, if any are.
pub open spec fn scan_report(state: ScanState, event: ScanEvent) -> Option<(u32, Binary)> {
    match event {
        ScanEvent::Heard(bytes) if state.tried < CANDIDATE_COUNT => Some(
            (BAUD_CANDIDATES[state.tried as int], score_of(bytes@)),
        ),
        _ => None,
    }
}

/// A scan of the candidate rates.
pub struct BaudScan {
    tried: usize,
    best: Option<u32>,
    best_score: Single,
}

impl View for BaudScan {
    type V = ScanState;

    closed spec fn view(&self) -> ScanState {
        ScanState { tried: self.tried as nat, best: self.best, best_score: self.best_score@ }
    }
}

/// The rate at which the port is opened for a scan: the first candidate.
pub fn opening_rate() -> (out: u32)
    ensures
        out == BAUD_CANDIDATES[0],
{
    BAUD_CANDIDATES[0]
}

impl BaudScan {
    /// A scan that has tried nothing.
    pub fn new() -> (out: Self)
        ensures
            out@ == scan_start(),
    {
        BaudScan { tried: 0, best: None, best_score: Single::zero() }
    }

    /// Takes in what happened, and says what to do next: after each candidate that was listened
    /// to its score is reported; a rate that the port does not take is passed over.
    pub fn step(&mut self, event: &ScanEvent) -> (out: ScanStep)
        ensures
            final(self)@ == scan_next(old(self)@, *event),
            match *event {
                ScanEvent::OpenFailed => out.action == ScanAction::Finish(None),
                _ => out.action == scan_action(final(self)@),
            },
            match *event {
                ScanEvent::Heard(bytes) if old(self)@.tried < CANDIDATE_COUNT => {
                    &&& out.report is Some
                    &&& out.report->0.rate == BAUD_CANDIDATES[old(self)@.tried as int]
                    &&& out.report->0.score@ == score_of(bytes@)
                },
                _ => out.report is None,
            },
            scan_report(old(self)@, *event) == (match out.report {
                Some(update) => Some((update.rate, update.score@)),
                None => None,
            }),
    {
        let mut report: Option<ScanUpdate> = None;
        match event {
            ScanEvent::OpenFailed => {
                return ScanStep { report: None, action: ScanAction::Finish(None) };
            },
            ScanEvent::Opened => {},
            ScanEvent::RateRejected => {
                if self.tried < CANDIDATE_COUNT {
                    self.tried = self.tried + 1;
                }
            },
            ScanEvent::Heard(bytes) => {
                if self.tried < CANDIDATE_COUNT {
                    let rate: u32 = BAUD_CANDIDATES[self.tried];
                    let score = score_ascii(bytes.as_slice());
                    if is_match(&score) && score.above(&self.best_score) {
                        self.best = Some(rate);
                        self.best_score = score;
                    }
                    self.tried = self.tried + 1;
                    report = Some(ScanUpdate { rate, score });
                }
            },
        }
        let action = if self.tried < CANDIDATE_COUNT {
            ScanAction::TryRate(BAUD_CANDIDATES[self.tried])
        } else {
            ScanAction::Finish(self.best)
        };
        ScanStep { report, action }
    }
}

/// Whether candidate `index` was listened to and is a match.
pub open spec fn candidate_matches(outcomes: Seq<Option<Binary>>, index: int) -> bool {
    outcomes[index] is Some && matching(outcomes[index]->0)
}

/// Whether candidate `index` is the best: it matches, none scores higher, and those that score
/// the same come later.
pub open spec fn best_candidate(outcomes: Seq<Option<Binary>>, index: int) -> bool {
    &&& 0 <= index < outcomes.len()
    &&& candidate_matches(outcomes, index)
    &&& forall|j: int|
        0 <= j < outcomes.len() && #[trigger] candidate_matches(outcomes, j) ==> !binary_above(
            outcomes[j]->0,
            outcomes[index]->0,
        )
    &&& forall|j: int|
        0 <= j < index && #[trigger] candidate_matches(outcomes, j) ==> binary_above(
            outcomes[index]->0,
            outcomes[j]->0,
        )
}

/// Where `a` is not above `b` and `c` is above `b`, `c` is above `a`.
proof fn lemma_above_transitive(a: Binary, b: Binary, c: Binary)
    requires
        !binary_above(a, b),
        binary_above(c, b),
    ensures
        binary_above(c, a),
        !binary_above(a, c),
{
    let pa = pow2(a.shift);
    let pb = pow2(b.shift);
    let pc = pow2(c.shift);
    lemma_pow2_pos(a.shift);
    lemma_pow2_pos(b.shift);
    lemma_pow2_pos(c.shift);
    assert(a.mantissa * pc < c.mantissa * pa) by (nonlinear_arith)
        requires
            a.mantissa * pb <= b.mantissa * pa,
            b.mantissa * pc < c.mantissa * pb,
            pa > 0,
            pb > 0,
            pc > 0,
    ;
}

/// The state of a scan says which candidate is the best of those that were tried, if any
/// matches.
proof fn lemma_scan_keeps_best(outcomes: Seq<Option<Binary>>)
    requires
        outcomes.len() <= CANDIDATE_COUNT,
    ensures
        scan_after_all(outcomes).tried == outcomes.len(),
        match scan_after_all(outcomes).best {
            Some(rate) => exists|i: int| #[trigger]
                best_candidate(outcomes, i) && rate == BAUD_CANDIDATES[i]
                    && scan_after_all(outcomes).best_score == outcomes[i]->0,
            None => {
                &&& scan_after_all(outcomes).best_score == binary_zero()
                &&& forall|j: int|
                    0 <= j < outcomes.len() ==> !#[trigger] candidate_matches(outcomes, j)
            },
        },
    decreases outcomes.len(),
{
    if outcomes.len() > 0 {
        let n = outcomes.len() - 1;
        let before = outcomes.drop_last();
        let state = scan_after_all(before);
        lemma_scan_keeps_best(before);
        assert forall|j: int| 0 <= j < n implies candidate_matches(outcomes, j)
            == #[trigger] candidate_matches(before, j) by {}
        assert forall|j: int| 0 <= j < n implies #[trigger] candidate_matches(outcomes, j)
            == candidate_matches(before, j) by {}
        if state.best is None {
            if candidate_matches(outcomes, n) {
                lemma_match_is_positive(outcomes[n]->0);
                lemma_not_above_itself(outcomes[n]->0);
                assert(best_candidate(outcomes, n));
            }
        } else {
            let i = choose|i: int| #[trigger]
                best_candidate(before, i) && state.best->0 == BAUD_CANDIDATES[i]
                    && state.best_score == before[i]->0;
            assert(candidate_matches(before, i));
            if candidate_matches(outcomes, n) && binary_above(outcomes[n]->0, state.best_score) {
                assert forall|j: int|
                    0 <= j < outcomes.len() && #[trigger] candidate_matches(
                        outcomes,
                        j,
                    ) implies !binary_above(outcomes[j]->0, outcomes[n]->0) && (j < n
                    ==> binary_above(outcomes[n]->0, outcomes[j]->0)) by {
                    if j < n {
                        assert(candidate_matches(before, j));
                        lemma_above_transitive(
                            outcomes[j]->0,
                            state.best_score,
                            outcomes[n]->0,
                        );
                    } else {
                        lemma_not_above_itself(outcomes[n]->0);
                    }
                }
                assert(best_candidate(outcomes, n));
            } else {
                assert forall|j: int|
                    0 <= j < i && #[trigger] candidate_matches(outcomes, j) implies binary_above(
                    outcomes[i]->0,
                    outcomes[j]->0,
                ) by {
                    assert(candidate_matches(before, j));
                }
                assert forall|j: int|
                    0 <= j < outcomes.len() && #[trigger] candidate_matches(
                        outcomes,
                        j,
                    ) implies !binary_above(outcomes[j]->0, outcomes[i]->0) by {
                    if j < n {
                        assert(candidate_matches(before, j));
                    }
                }
                assert(best_candidate(outcomes, i));
            }
        }
    }
}

proof fn lemma_not_above_itself(x: Binary)
    ensures
        !binary_above(x, x),
{
}

/// A scan of all candidates finds the one with the best score among those that match, the
/// slowest of several equally good ones, and finds none exactly when none matches.
pub proof fn law_scan_finds_the_best_match(outcomes: Seq<Option<Binary>>)
    requires
        outcomes.len() == CANDIDATE_COUNT,
    ensures
        match scan_action(scan_after_all(outcomes)) {
            ScanAction::Finish(Some(rate)) => exists|i: int| #[trigger]
                best_candidate(outcomes, i) && rate == BAUD_CANDIDATES[i],
            ScanAction::Finish(None) => forall|j: int|
                0 <= j < outcomes.len() ==> !#[trigger] candidate_matches(outcomes, j),
            ScanAction::TryRate(_) => false,
        },
{
    lemma_scan_keeps_best(outcomes);
}

/// The candidates are tried one after the other, each once, in their order.
pub proof fn law_candidates_in_order(outcomes: Seq<Option<Binary>>)
    requires
        outcomes.len() < CANDIDATE_COUNT,
    ensures
        scan_action(scan_after_all(outcomes)) == ScanAction::TryRate(
            BAUD_CANDIDATES[outcomes.len() as int],
        ),
{
    lemma_scan_keeps_best(outcomes);
}

/// The candidates go from slowest to fastest.
pub proof fn law_candidates_ascend(i: int, j: int)
    requires
        0 <= i < j < CANDIDATE_COUNT,
    ensures
        BAUD_CANDIDATES[i] < BAUD_CANDIDATES[j],
{
}

/// However many bytes come in, a window stays within its cap.
pub proof fn law_window_is_capped(heard: Seq<u8>, outcome: ReadOutcome)
    requires
        heard.len() <= DETECT_MAX_BYTES,
    ensures
        heard_after(heard, outcome).len() <= DETECT_MAX_BYTES,
{
}

/// A window holds the first bytes of the stream that came in while it was open: all of them up
/// to the cap.
pub proof fn law_window_hears_the_first_bytes(heard: Seq<u8>, outcomes: Seq<ReadOutcome>)
    requires
        heard.len() <= DETECT_MAX_BYTES,
    ensures
        heard_after_all(heard, outcomes) == capped(heard + stream(outcomes)),
    decreases outcomes.len(),
{
    if outcomes.len() == 0 {
        assert(heard + stream(outcomes) =~= heard);
    } else {
        let rest = outcomes.drop_first();
        match outcomes.first() {
            ReadOutcome::Bytes(chunk) => {
                if chunk@.len() == 0 {
                    assert(heard + chunk@ =~= heard);
                    assert(heard + stream(outcomes) =~= heard);
                } else {
                    let next = capped(heard + chunk@);
                    law_window_hears_the_first_bytes(next, rest);
                    assert(capped(next + stream(rest)) =~= capped(heard + stream(outcomes)));
                }
            },
            ReadOutcome::TimedOut => {
                law_window_hears_the_first_bytes(heard, rest);
            },
            ReadOutcome::Failed => {
                assert(heard + stream(outcomes) =~= heard);
            },
        }
    }
}

/// The scan once the port is open and all `events` have happened, one after the other.
pub open spec fn scan_after_events(events: Seq<ScanEvent>) -> ScanState
    decreases events.len(),
{
    if events.len() == 0 {
        scan_next(scan_start(), ScanEvent::Opened)
    } else {
        scan_next(scan_after_events(events.drop_last()), events.last())
    }
}

/// Every candidate counts by what was heard at its rate: a scan comes to the same as one that is
/// told, for each candidate from the first on, the score of those bytes, or that the rate was
/// rejected.
pub proof fn law_candidates_count_by_what_was_heard(
    events: Seq<ScanEvent>,
    outcomes: Seq<Option<Binary>>,
)
    requires
        events.len() == outcomes.len() <= 8,
        forall|i: int|
            0 <= i < events.len() ==> match #[trigger] events[i] {
                ScanEvent::Heard(bytes) => outcomes[i] == Some(score_of(bytes@)),
                ScanEvent::RateRejected => outcomes[i] is None,
                _ => false,
            },
    ensures
        scan_after_events(events) == scan_after_all(outcomes),
        scan_after_events(events).tried == events.len(),
    decreases events.len(),
{
    lemma_scan_keeps_best(outcomes);
    if events.len() > 0 {
        let fewer = events.drop_last();
        let before = outcomes.drop_last();
        assert forall|i: int| 0 <= i < fewer.len() implies match #[trigger] fewer[i] {
            ScanEvent::Heard(bytes) => before[i] == Some(score_of(bytes@)),
            ScanEvent::RateRejected => before[i] is None,
            _ => false,
        } by {
            assert(fewer[i] == events[i]);
        }
        law_candidates_count_by_what_was_heard(fewer, before);
        assert(events[events.len() - 1] == events.last());
    }
}

/// The rates that a scan tries, in its order.
pub open spec fn scan_rates() -> Seq<u32> {
    seq![9600, 19200, 38400, 57600, 115200, 230400, 460800, 921600]
}

/// Whether the bytes heard at the rate of place `index` are a match.
pub open spec fn heard_match(events: Seq<ScanEvent>, index: int) -> bool {
    events[index] is Heard && matching(score_of(events[index]->Heard_0@))
}

/// The scores that stand for what was heard.
proof fn lemma_outcomes(events: Seq<ScanEvent>) -> (outcomes: Seq<Option<Binary>>)
    requires
        events.len() <= 8,
        forall|i: int|
            0 <= i < events.len() ==> (#[trigger] events[i] is Heard || events[i] is RateRejected),
    ensures
        outcomes.len() == events.len(),
        forall|i: int|
            0 <= i < events.len() ==> match #[trigger] events[i] {
                ScanEvent::Heard(bytes) => outcomes[i] == Some(score_of(bytes@)),
                ScanEvent::RateRejected => outcomes[i] is None,
                _ => false,
            },
        scan_after_events(events) == scan_after_all(outcomes),
        scan_after_events(events).tried == events.len(),
{
    let outcomes = Seq::new(
        events.len(),
        |i: int|
            match events[i] {
                ScanEvent::Heard(bytes) => Some(score_of(bytes@)),
                _ => None,
            },
    );
    law_candidates_count_by_what_was_heard(events, outcomes);
    outcomes
}

/// A scan that has listened at all eight rates, or had them rejected, ends with the rate at which
/// the bytes heard scored highest among those that match, the slowest of several equally good
/// ones; and it ends without a rate exactly when the bytes heard are a match at none.
pub proof fn law_scan_takes_the_best_of_what_was_heard(events: Seq<ScanEvent>)
    requires
        events.len() == 8,
        forall|i: int|
            0 <= i < 8 ==> (#[trigger] events[i] is Heard || events[i] is RateRejected),
    ensures
        match scan_action(scan_after_events(events)) {
            ScanAction::Finish(Some(rate)) => exists|i: int|
                {
                    &&& 0 <= i < 8
                    &&& #[trigger] heard_match(events, i)
                    &&& rate == scan_rates()[i]
                    &&& forall|j: int|
                        0 <= j < 8 && #[trigger] heard_match(events, j) ==> !binary_above(
                            score_of(events[j]->Heard_0@),
                            score_of(events[i]->Heard_0@),
                        ) && (j < i ==> binary_above(
                            score_of(events[i]->Heard_0@),
                            score_of(events[j]->Heard_0@),
                        ))
                },
            ScanAction::Finish(None) => forall|j: int|
                0 <= j < 8 ==> !#[trigger] heard_match(events, j),
            ScanAction::TryRate(_) => false,
        },
{
    let outcomes = lemma_outcomes(events);
    law_scan_finds_the_best_match(outcomes);
    assert forall|j: int| 0 <= j < 8 implies #[trigger] heard_match(events, j)
        == candidate_matches(outcomes, j) by {
        assert(events[j] is Heard || events[j] is RateRejected);
    }
    if let ScanAction::Finish(Some(rate)) = scan_action(scan_after_events(events)) {
        let i = choose|i: int| #[trigger]
            best_candidate(outcomes, i) && rate == BAUD_CANDIDATES[i];
        assert(heard_match(events, i));
        assert(rate == scan_rates()[i]);
        assert forall|j: int| 0 <= j < 8 && #[trigger] heard_match(events, j) implies !binary_above(
            score_of(events[j]->Heard_0@),
            score_of(events[i]->Heard_0@),
        ) && (j < i ==> binary_above(
            score_of(events[i]->Heard_0@),
            score_of(events[j]->Heard_0@),
        )) by {
            assert(candidate_matches(outcomes, j));
        }
    } else {
        assert forall|j: int| 0 <= j < 8 implies !#[trigger] heard_match(events, j) by {
            assert(!candidate_matches(outcomes, j));
        }
    }
}

/// Where text is heard at one rate only, the scan ends with that rate, whichever of the eight it
/// is: at least 8 bytes, a line feed or a carriage return among them, and at least 85 of 100 of
/// them text. Where it is heard at none, the scan ends without a rate.
pub proof fn law_the_rate_with_text_is_found(events: Seq<ScanEvent>, at: int)
    requires
        events.len() == 8,
        forall|i: int|
            0 <= i < 8 ==> (#[trigger] events[i] is Heard || events[i] is RateRejected),
        forall|i: int|
            0 <= i < 8 && #[trigger] events[i] is Heard ==> events[i]->Heard_0@.len() <= 4096,
        -1 <= at < 8,
        forall|i: int|
            0 <= i < 8 ==> (i == at <==> #[trigger] events[i] is Heard && {
                let bytes = events[i]->Heard_0@;
                &&& bytes.len() >= 8
                &&& exists|k: int|
                    0 <= k < bytes.len() && (#[trigger] bytes[k] == 0x0A || bytes[k] == 0x0D)
                &&& 100 * bytes.filter(
                    |b: u8| 0x20 <= b <= 0x7E || b == 0x09 || b == 0x0A || b == 0x0D,
                ).len() >= 85 * bytes.len()
            }),
    ensures
        scan_action(scan_after_events(events)) == ScanAction::Finish(
            if at >= 0 {
                Some(scan_rates()[at])
            } else {
                None
            },
        ),
{
    law_scan_takes_the_best_of_what_was_heard(events);
    assert forall|i: int| 0 <= i < 8 implies (i == at) == #[trigger] heard_match(events, i) by {
        if events[i] is Heard {
            law_match_by_the_bytes(events[i]->Heard_0@);
        }
    }
    if at >= 0 {
        assert(heard_match(events, at));
    }
}

/// As long as candidates are left the scan tries the next one, at these rates in this order,
/// whatever was heard so far; a port that is opened is tried at the first one.
pub proof fn law_scan_tries_all_rates(events: Seq<ScanEvent>)
    requires
        events.len() < 8,
        forall|i: int|
            0 <= i < events.len() ==> (#[trigger] events[i] is Heard || events[i] is RateRejected),
    ensures
        scan_action(scan_after_events(events)) == ScanAction::TryRate(
            scan_rates()[events.len() as int],
        ),
        scan_after_events(Seq::empty()) == scan_start(),
        BAUD_CANDIDATES@ == scan_rates(),
{
    let outcomes = lemma_outcomes(events);
    law_candidates_in_order(outcomes);
    assert(BAUD_CANDIDATES@ =~= scan_rates());
    assert(BAUD_CANDIDATES[events.len() as int] == BAUD_CANDIDATES@[events.len() as int]);
}

/// A scan that has ended stays as it is, whatever happens.
pub proof fn law_scan_ends_once(state: ScanState, event: ScanEvent)
    requires
        scan_action(state) is Finish,
    ensures
        scan_next(state, event) == state,
{
}

/// A window takes in what is read, unchanged and behind what it holds, as far as there is room for
/// 4096 bytes; a timeout and a failure change nothing. Listening goes on unless the read failed or
/// brought no bytes.
pub proof fn law_window_takes_in_what_is_read(heard: Seq<u8>, chunk: Vec<u8>)
    requires
        heard.len() <= 4096,
    ensures
        heard_after(heard, ReadOutcome::Bytes(chunk)).is_prefix_of(heard + chunk@),
        heard_after(heard, ReadOutcome::Bytes(chunk)).len() == (if heard.len() + chunk@.len()
            <= 4096 {
            heard.len() + chunk@.len()
        } else {
            4096
        }),
        heard_after(heard, ReadOutcome::TimedOut) == heard,
        heard_after(heard, ReadOutcome::Failed) == heard,
        still_open(ReadOutcome::Bytes(chunk)) <==> chunk@ != Seq::<u8>::empty(),
        still_open(ReadOutcome::TimedOut),
        !still_open(ReadOutcome::Failed),
{
    if chunk@.len() == 0 {
        assert(chunk@ =~= Seq::empty());
    }
}

/// Reads that all bring bytes leave a window with those bytes, one chunk behind the other, where
/// they are at most 4096 in all; a timeout between them makes no difference.
pub proof fn law_window_joins_the_chunks(outcomes: Seq<ReadOutcome>, chunks: Seq<Seq<u8>>)
    requires
        outcomes.len() == chunks.len(),
        forall|i: int|
            0 <= i < outcomes.len() ==> match #[trigger] outcomes[i] {
                ReadOutcome::Bytes(chunk) => chunks[i] == chunk@ && chunk@.len() > 0,
                ReadOutcome::TimedOut => chunks[i].len() == 0,
                ReadOutcome::Failed => false,
            },
        chunks.flatten().len() <= 4096,
    ensures
        heard_after_all(Seq::empty(), outcomes) == chunks.flatten(),
{
    lemma_stream_of_chunks(outcomes, chunks);
    law_window_hears_the_first_bytes(Seq::empty(), outcomes);
    assert(Seq::<u8>::empty() + stream(outcomes) =~= stream(outcomes));
}

/// Whether the port could be opened is no candidate's outcome: it leaves the scan where it is.
pub proof fn law_opening_tries_no_candidate(state: ScanState)
    ensures
        scan_next(state, ScanEvent::Opened) == state,
        scan_next(state, ScanEvent::OpenFailed) == state,
{
}

/// A report is made of every candidate that was listened to, from the first to the last, with its
/// own rate and the score of what was heard at it; of a rate that was rejected there is none.
pub proof fn law_every_candidate_heard_is_reported(events: Seq<ScanEvent>, index: int)
    requires
        events.len() == 8,
        forall|i: int|
            0 <= i < 8 ==> (#[trigger] events[i] is Heard || events[i] is RateRejected),
        0 <= index < 8,
    ensures
        scan_report(scan_after_events(events.take(index)), events[index]) == (match events[index] {
            ScanEvent::Heard(bytes) => Some((scan_rates()[index], score_of(bytes@))),
            _ => None,
        }),
{
    let earlier = events.take(index);
    assert forall|i: int| 0 <= i < earlier.len() implies (#[trigger] earlier[i] is Heard
        || earlier[i] is RateRejected) by {
        assert(earlier[i] == events[i]);
    }
    lemma_outcomes(earlier);
    assert(BAUD_CANDIDATES[index] == scan_rates()[index]);
}

} // verus!
