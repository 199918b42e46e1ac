use vstd::prelude::*;

use crate::bitfield::BitField;

verus! {

#[derive(Debug, Clone, PartialEq, Eq, Structural)]
pub enum PieceState {
    Missing,
    InProgress,
    Completed,
}

/// What happened to a piece.
#[derive(Debug, Clone)]
pub enum PieceEvent {
    Completed { piece_index: usize },
    HashMismatch { piece_index: usize },
    DownloadFailed { piece_index: usize },
}

/// Which pieces are missing, being downloaded, or done; hands out missing
/// pieces to the peers that have them.
#[derive(Debug)]
pub struct PiecePicker {
    states: Vec<PieceState>,
}

/// Piece `i` can be given to a peer with `bitfield`: the peer has it and nobody
/// is downloading it or has done so.
pub open spec fn claimable(states: Seq<PieceState>, bitfield: BitField, i: int) -> bool {
    0 <= i < states.len() && bitfield.spec_has_piece(i) && states[i] == PieceState::Missing
}

/// Whether piece `i` can be looked up in `bitfield` without reading past its bytes.
pub open spec fn bit_readable(bitfield: BitField, i: int) -> bool {
    i >= bitfield.num_pieces || i / 8 < bitfield.bytes@.len()
}

/// Whether a claim can run to its end: every piece that it looks up before
/// it finds one can be read from the bitfield.
#[verifier::opaque]
pub open spec fn claim_reads_within(states: Seq<PieceState>, bitfield: BitField) -> bool {
    forall|i: int|
        0 <= i < states.len() && !bit_readable(bitfield, i) ==> exists|j: int|
            0 <= j < i && #[trigger] claimable(states, bitfield, j)
}

/// What a claim gives: the first claimable piece, now in progress; or none,
/// and nothing changes.
#[verifier::opaque]
pub open spec fn claim(states: Seq<PieceState>, bitfield: BitField) -> (Option<int>, Seq<PieceState>) {
    if exists|i: int| claimable(states, bitfield, i) {
        let i = choose|i: int|
            claimable(states, bitfield, i) && forall|j: int| 0 <= j < i ==> !claimable(states, bitfield, j);
        (Some(i), states.update(i, PieceState::InProgress))
    } else {
        (None, states)
    }
}

/// What an event does to the states.
pub open spec fn after_event(states: Seq<PieceState>, event: PieceEvent) -> Seq<PieceState> {
    match event {
        PieceEvent::Completed { piece_index } => states.update(piece_index as int, PieceState::Completed),
        PieceEvent::HashMismatch { piece_index } => states.update(piece_index as int, PieceState::Missing),
        PieceEvent::DownloadFailed { piece_index } => states.update(piece_index as int, PieceState::Missing),
    }
}

pub open spec fn event_index(event: PieceEvent) -> usize {
    match event {
        PieceEvent::Completed { piece_index } => piece_index,
        PieceEvent::HashMismatch { piece_index } => piece_index,
        PieceEvent::DownloadFailed { piece_index } => piece_index,
    }
}

/// Whether every piece is done.
pub open spec fn all_completed(states: Seq<PieceState>) -> bool {
    forall|i: int| 0 <= i < states.len() ==> states[i] == PieceState::Completed
}

/// The first claimable piece is the one that a claim gives.
proof fn lemma_claim_first(states: Seq<PieceState>, bitfield: BitField, i: int)
    requires
        claimable(states, bitfield, i),
        forall|j: int| 0 <= j < i ==> !claimable(states, bitfield, j),
    ensures
        claim(states, bitfield) == (Some(i), states.update(i, PieceState::InProgress)),
{
    reveal(claim);
    let k = choose|k: int|
        claimable(states, bitfield, k) && forall|j: int| 0 <= j < k ==> !claimable(states, bitfield, j);
    lemma_first_claimable(states, bitfield, i);
    if k < i {
        assert(!claimable(states, bitfield, k));
    } else if k > i {
        assert(!claimable(states, bitfield, i));
    }
}

/// Where nothing is claimable, a claim gives nothing.
proof fn lemma_claim_none(states: Seq<PieceState>, bitfield: BitField)
    requires
        forall|j: int| 0 <= j < states.len() ==> !claimable(states, bitfield, j),
    ensures
        claim(states, bitfield) == (None::<int>, states),
{
    reveal(claim);
    assert(!exists|i: int| claimable(states, bitfield, i));
}

/// Before the first claimable piece, every piece can be read from the bitfield.
proof fn lemma_readable(states: Seq<PieceState>, bitfield: BitField, i: int)
    requires
        claim_reads_within(states, bitfield),
        0 <= i < states.len(),
        forall|j: int| 0 <= j < i ==> !claimable(states, bitfield, j),
    ensures
        bit_readable(bitfield, i),
{
    reveal(claim_reads_within);
    if !bit_readable(bitfield, i) {
        let j = choose|j: int| 0 <= j < i && #[trigger] claimable(states, bitfield, j);
        assert(!claimable(states, bitfield, j));
    }
}

/// If some piece is claimable, there is a first one.
proof fn lemma_first_claimable(states: Seq<PieceState>, bitfield: BitField, i: int)
    requires
        claimable(states, bitfield, i),
    ensures
        exists|k: int|
            claimable(states, bitfield, k) && forall|j: int| 0 <= j < k ==> !claimable(states, bitfield, j),
    decreases i,
{
    if exists|j: int| 0 <= j < i && claimable(states, bitfield, j) {
        let j = choose|j: int| 0 <= j < i && claimable(states, bitfield, j);
        lemma_first_claimable(states, bitfield, j);
    }
}

/// What a claim gives is claimable, and the claim marks it in progress.
proof fn lemma_claim_result(states: Seq<PieceState>, bitfield: BitField)
    ensures
        claim(states, bitfield).0 matches Some(i) ==> claimable(states, bitfield, i) && claim(
            states,
            bitfield,
        ).1 == states.update(i, PieceState::InProgress),
        claim(states, bitfield).0 is None ==> claim(states, bitfield).1 == states && forall|i: int|
            !claimable(states, bitfield, i),
{
    reveal(claim);
    if exists|i: int| claimable(states, bitfield, i) {
        let i = choose|i: int| claimable(states, bitfield, i);
        lemma_first_claimable(states, bitfield, i);
    }
}

/// A download that fails after a claim leaves the pieces as they were
/// before the claim.
pub proof fn lemma_claim_then_fail_restores(states: Seq<PieceState>, bitfield: BitField)
    ensures
        claim(states, bitfield).0 matches Some(i) ==> claim(states, bitfield).1.update(
            i,
            PieceState::Missing,
        ) == states,
{
    lemma_claim_result(states, bitfield);
    if let Some(i) = claim(states, bitfield).0 {
        assert(claim(states, bitfield).1.update(i, PieceState::Missing) =~= states);
    }
}

/// A piece handed out is not handed out again, to any peer, until an event
/// makes it missing again.
pub proof fn lemma_claim_exclusive(states: Seq<PieceState>, first: BitField, second: BitField)
    ensures
        claim(states, first).0 matches Some(i) ==> claim(claim(states, first).1, second).0 != Some(i),
{
    lemma_claim_result(states, first);
    lemma_claim_result(claim(states, first).1, second);
}

/// A claim changes no piece but the one it hands out, and that one was missing.
pub proof fn lemma_claim_touches_one_missing_piece(states: Seq<PieceState>, bitfield: BitField, j: int)
    requires
        0 <= j < states.len(),
    ensures
        claim(states, bitfield).1.len() == states.len(),
        claim(states, bitfield).0 != Some(j) ==> claim(states, bitfield).1[j] == states[j],
        claim(states, bitfield).0 == Some(j) ==> states[j] == PieceState::Missing,
{
    lemma_claim_result(states, bitfield);
}

/// When every piece is done, there is nothing left to hand out.
pub proof fn lemma_finished_nothing_to_claim(states: Seq<PieceState>, bitfield: BitField)
    requires
        all_completed(states),
    ensures
        claim(states, bitfield) == (None::<int>, states),
{
    lemma_claim_result(states, bitfield);
    if let Some(i) = claim(states, bitfield).0 {
        assert(states[i] == PieceState::Completed);
    }
}

/// What the piece picker is told: an event about a piece, or a request for
/// a piece from a peer whose bitfield is given.
#[derive(Debug)]
pub enum PickerInput {
    Event(PieceEvent),
    Request(BitField),
}

/// Whether the picker can take `input` in `states`: an event names one of
/// the pieces, and a claim for the bitfield can run to its end.
pub open spec fn input_applies(states: Seq<PieceState>, input: PickerInput) -> bool {
    match input {
        PickerInput::Event(e) => event_index(e) < states.len(),
        PickerInput::Request(bitfield) => claim_reads_within(states, bitfield),
    }
}

/// What one input does: the new states, and the reply to a request (the
/// piece handed out, if any); an event gets no reply.
pub open spec fn picker_step(states: Seq<PieceState>, input: PickerInput) -> (Seq<PieceState>, Option<Option<int>>) {
    match input {
        PickerInput::Event(e) => (after_event(states, e), None),
        PickerInput::Request(bitfield) => (claim(states, bitfield).1, Some(claim(states, bitfield).0)),
    }
}

/// The states after the inputs, taken in turn.
pub open spec fn picker_run(states: Seq<PieceState>, inputs: Seq<PickerInput>) -> Seq<PieceState>
    decreases inputs.len(),
{
    if inputs.len() == 0 {
        states
    } else {
        picker_step(picker_run(states, inputs.drop_last()), inputs.last()).0
    }
}

/// Whether some input of the run is about piece `j`: an event that names it,
/// or a request that is handed it.
pub open spec fn run_touches(states: Seq<PieceState>, inputs: Seq<PickerInput>, j: int) -> bool {
    exists|k: int|
        0 <= k < inputs.len() && match #[trigger] inputs[k] {
            PickerInput::Event(e) => event_index(e) == j,
            PickerInput::Request(bitfield) => claim(picker_run(states, inputs.take(k)), bitfield).0 == Some(j),
        }
}

/// Over any run of inputs whose events name pieces that exist, the number of
/// pieces stays, and a piece that no event names and no request is handed
/// keeps its state: an event changes
/// only the piece it names, and a request only the piece it hands out.
pub proof fn lemma_picker_run_frame(states: Seq<PieceState>, inputs: Seq<PickerInput>, j: int)
    requires
        0 <= j < states.len(),
        forall|k: int|
            0 <= k < inputs.len() ==> (#[trigger] inputs[k] matches PickerInput::Event(e) ==> event_index(e)
                < states.len()),
        !run_touches(states, inputs, j),
    ensures
        picker_run(states, inputs).len() == states.len(),
        picker_run(states, inputs)[j] == states[j],
    decreases inputs.len(),
{
    if inputs.len() > 0 {
        let n = inputs.len() - 1;
        let earlier = inputs.drop_last();
        assert forall|k: int| 0 <= k < earlier.len() implies earlier.take(k) =~= inputs.take(k) && earlier[k]
            == inputs[k] by {}
        assert(!run_touches(states, earlier, j)) by {
            if run_touches(states, earlier, j) {
                let k = choose|k: int|
                    0 <= k < earlier.len() && match #[trigger] earlier[k] {
                        PickerInput::Event(e) => event_index(e) == j,
                        PickerInput::Request(bitfield) => claim(picker_run(states, earlier.take(k)), bitfield).0
                            == Some(j),
                    };
                assert(earlier.take(k) =~= inputs.take(k));
                assert(inputs[k] == earlier[k]);
            }
        }
        lemma_picker_run_frame(states, earlier, j);
        let before = picker_run(states, earlier);
        assert(inputs.take(n) =~= earlier);
        assert(picker_run(states, inputs) == picker_step(before, inputs.last()).0);
        assert(inputs[n] == inputs.last());
        match inputs.last() {
            PickerInput::Event(e) => {
                assert(inputs[n] == inputs.last());
                assert(event_index(e) != j);
            },
            PickerInput::Request(bitfield) => {
                assert(inputs[n] == inputs.last());
                assert(claim(before, bitfield).0 != Some(j));
                lemma_claim_touches_one_missing_piece(before, bitfield, j);
            },
        }
    }
}

impl View for PiecePicker {
    type V = Seq<PieceState>;

    closed spec fn view(&self) -> Seq<PieceState> {
        self.states@
    }
}

impl PiecePicker {
    pub fn new(num_pieces: usize) -> (res: Self)
        ensures
            res@ == Seq::new(num_pieces as nat, |i: int| PieceState::Missing),
    {
        let mut states: Vec<PieceState> = Vec::new();
        let mut k: usize = 0;
        while k < num_pieces
            invariant
                k <= num_pieces,
                states@ == Seq::new(k as nat, |i: int| PieceState::Missing),
            decreases num_pieces - k,
        {
            states.push(PieceState::Missing);
            k = k + 1;
            assert(states@ =~= Seq::new(k as nat, |i: int| PieceState::Missing));
        }
        PiecePicker { states }
    }

    /// Hands out the first missing piece that the peer has, and marks it in progress.
    pub fn claim_piece(&mut self, bitfield: &BitField) -> (res: Option<usize>)
        requires
            claim_reads_within(old(self)@, *bitfield),
        ensures
            (match res {
                Some(i) => Some(i as int),
                None => None,
            }) == claim(old(self)@, *bitfield).0,
            final(self)@ == claim(old(self)@, *bitfield).1,
    {
        let ghost s = self.states@;
        let mut i: usize = 0;
        while i < self.states.len()
            invariant
                self.states@ == s,
                s == old(self)@,
                i <= s.len(),
                claim_reads_within(s, *bitfield),
                forall|j: int| 0 <= j < i ==> !claimable(s, *bitfield, j),
            decreases s.len() - i,
        {
            proof {
                lemma_readable(s, *bitfield, i as int);
            }
            if bitfield.has_piece(i) && self.states[i] == PieceState::Missing {
                proof {
                    lemma_claim_first(s, *bitfield, i as int);
                }
                self.states.set(i, PieceState::InProgress);
                return Some(i);
            }
            i = i + 1;
        }
        proof {
            lemma_claim_none(s, *bitfield);
        }
        None
    }

    /// Whether `claim_piece` can run to its end on `bitfield`: it meets no piece
    /// whose bit lies past the bitfield's bytes before it finds one to hand out.
    pub fn claim_can_run(&self, bitfield: &BitField) -> (res: bool)
        ensures
            res == claim_reads_within(self@, *bitfield),
    {
        let ghost s = self.states@;
        let mut i: usize = 0;
        while i < self.states.len()
            invariant
                self.states@ == s,
                s == self@,
                i <= s.len(),
                forall|k: int| 0 <= k < i ==> #[trigger] bit_readable(*bitfield, k),
                forall|k: int| 0 <= k < i ==> !#[trigger] claimable(s, *bitfield, k),
            decreases s.len() - i,
        {
            if !(i >= bitfield.num_pieces || i / 8 < bitfield.bytes.len()) {
                proof {
                    reveal(claim_reads_within);
                    assert(!claim_reads_within(s, *bitfield)) by {
                        if claim_reads_within(s, *bitfield) {
                            assert(!bit_readable(*bitfield, i as int));
                            let j = choose|j: int| 0 <= j < i && #[trigger] claimable(s, *bitfield, j);
                            assert(!claimable(s, *bitfield, j));
                        }
                    }
                }
                return false;
            }
            if bitfield.has_piece(i) && self.states[i] == PieceState::Missing {
                proof {
                    reveal(claim_reads_within);
                    assert(claimable(s, *bitfield, i as int));
                    assert forall|k: int| 0 <= k < s.len() && !bit_readable(*bitfield, k) implies exists|j: int|
                        0 <= j < k && #[trigger] claimable(s, *bitfield, j) by {
                        assert(claimable(s, *bitfield, i as int));
                    }
                }
                return true;
            }
            assert(bit_readable(*bitfield, i as int));
            assert(!claimable(s, *bitfield, i as int));
            i = i + 1;
        }
        proof {
            reveal(claim_reads_within);
        }
        true
    }

    pub fn mark_as_completed(&mut self, index: usize)
        requires
            index < old(self)@.len(),
        ensures
            final(self)@ == old(self)@.update(index as int, PieceState::Completed),
    {
        self.states.set(index, PieceState::Completed);
    }

    pub fn mark_as_failed(&mut self, index: usize)
        requires
            index < old(self)@.len(),
        ensures
            final(self)@ == old(self)@.update(index as int, PieceState::Missing),
    {
        self.states.set(index, PieceState::Missing);
    }

    /// Whether every piece is completed.
    pub fn is_finished(&self) -> (res: bool)
        ensures
            res == all_completed(self@),
    {
        let mut i: usize = 0;
        while i < self.states.len()
            invariant
                i <= self.states@.len(),
                forall|j: int| 0 <= j < i ==> self.states@[j] == PieceState::Completed,
            decreases self.states@.len() - i,
        {
            if self.states[i] != PieceState::Completed {
                return false;
            }
            i = i + 1;
        }
        true
    }

    /// Takes in one input: an event changes the state of the piece it names;
    /// a request is answered with the piece that a claim hands out.
    pub fn handle_input(&mut self, input: &PickerInput) -> (reply: Option<Option<usize>>)
        requires
            input_applies(old(self)@, *input),
        ensures
            final(self)@ == picker_step(old(self)@, *input).0,
            (match reply {
                Some(Some(i)) => Some(Some(i as int)),
                Some(None) => Some(None),
                None => None,
            }) == picker_step(old(self)@, *input).1,
    {
        match input {
            PickerInput::Event(event) => {
                self.handle_event(event);
                None
            },
            PickerInput::Request(bitfield) => Some(self.claim_piece(bitfield)),
        }
    }

    /// Takes in an event about a piece: a completed piece is done; a piece
    /// whose hash did not match, or whose download failed, is missing again.
    pub fn handle_event(&mut self, event: &PieceEvent)
        requires
            event_index(*event) < old(self)@.len(),
        ensures
            final(self)@ == after_event(old(self)@, *event),
    {
        match event {
            PieceEvent::HashMismatch { piece_index } | PieceEvent::DownloadFailed { piece_index } => {
                self.mark_as_failed(*piece_index);
            },
            PieceEvent::Completed { piece_index } => {
                self.mark_as_completed(*piece_index);
            },
        }
    }
}

} // verus!
