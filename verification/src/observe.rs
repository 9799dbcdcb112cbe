//! Watching the pipeline go by.

use vstd::prelude::*;

use crate::Stage;
use crate::ir::func::ProgramView;

verus! {

/// A [`Stage`] as what it says.
#[verifier::ext_equal]
pub enum StageView {
    Ssa(ProgramView),
    Ir(ProgramView),
}

impl View for Stage<'_> {
    type V = StageView;

    open spec fn view(&self) -> StageView {
        match *self {
            Stage::Ssa(program) => StageView::Ssa(program@),
            Stage::Ir(program) => StageView::Ir(program@),
        }
    }
}

/// One call of an observer: what it was shown, and whether it answered to carry on.
#[verifier::ext_equal]
pub struct Call {
    pub stage: StageView,
    pub carry_on: bool,
}

/// The calls from `before` to `after`.
pub open spec fn calls_since(before: Seq<Call>, after: Seq<Call>) -> Seq<Call> {
    after.skip(before.len() as int)
}

/// Whether some call answered to stop.
pub open spec fn stopped(calls: Seq<Call>) -> bool {
    exists|i: int| 0 <= i < calls.len() && !(#[trigger] calls[i]).carry_on
}

/// Whether an observer was shown the first of some stages, each once and in order, and
/// nothing more once it answered to stop.
pub open spec fn shown_in_turn(calls: Seq<Call>, stages: Seq<StageView>) -> bool {
    &&& calls.len() <= stages.len()
    &&& forall|i: int| 0 <= i < calls.len() ==> (#[trigger] calls[i]).stage == stages[i]
    &&& forall|i: int| 0 <= i < calls.len() - 1 ==> (#[trigger] calls[i]).carry_on
}

/// Whether a function may answer this when it is shown something.
pub open spec fn answers<F: FnMut(Stage<'_>) -> bool>(
    function: F,
    stage: Stage<'_>,
    carry_on: bool,
) -> bool {
    call_ensures(function, (stage,), carry_on)
}

/// Whether a function may answer as a call says it did.
pub open spec fn may_answer<F: FnMut(Stage<'_>) -> bool>(function: F, call: Call) -> bool {
    exists|stage: Stage<'_>|
        stage@ == call.stage && #[trigger] answers(function, stage, call.carry_on)
}

/// What is shown the intermediate results, with every call of it on record.
///
/// The function is reached through [`Observer::show`] and in no other way, so the
/// record holds all the calls there were, in order.
pub struct Observer<F: FnMut(Stage<'_>) -> bool> {
    answer: F,
    calls: Ghost<Seq<Call>>,
}

impl<F: FnMut(Stage<'_>) -> bool> View for Observer<F> {
    type V = Seq<Call>;

    closed spec fn view(&self) -> Seq<Call> {
        self.calls@
    }
}

impl<F: FnMut(Stage<'_>) -> bool> Observer<F> {
    /// The function that is shown things.
    pub closed spec fn function(self) -> F {
        self.answer
    }

    /// Whether the function can be shown anything.
    pub open spec fn ready(self) -> bool {
        forall|stage: Stage<'_>| #[trigger] call_requires(self.function(), (stage,))
    }

    /// An observer that was shown nothing yet.
    pub fn new(answer: F) -> (observer: Observer<F>)
        ensures
            observer@ == Seq::<Call>::empty(),
            observer.function() == answer,
    {
        Observer { answer, calls: Ghost(Seq::empty()) }
    }

    /// Show something, and hear whether to carry on.
    pub fn show(&mut self, stage: Stage<'_>) -> (carry_on: bool)
        requires
            old(self).ready(),
        ensures
            final(self)@ == old(self)@.push(Call { stage: stage@, carry_on }),
            answers(old(self).function(), stage, carry_on),
            may_answer(old(self).function(), Call { stage: stage@, carry_on }),
            final(self).function() == old(self).function(),
    {
        assert(call_requires(self.function(), (stage,)));
        let carry_on: bool = (self.answer)(stage);
        let ghost call = Call { stage: stage@, carry_on };
        assert(answers(old(self).function(), stage, call.carry_on));
        assert(may_answer(old(self).function(), call));
        self.calls = Ghost(self.calls@.push(call));
        carry_on
    }
}

} // verus!
