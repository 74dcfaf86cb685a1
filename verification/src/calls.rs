//! What is done on an engine, in order, for one evaluation call.
use vstd::prelude::*;

verus! {

/// An evaluation that an engine can be asked for.
#[derive(Clone, Copy, Debug, PartialEq, Eq, Structural)]
pub enum EngineCall {
    PreRoll,
    CubeAction,
    /// The moves of a roll, ranked.
    CheckerPlay(i32, i32),
}

/// One thing done on an engine.
#[derive(Clone, Copy, Debug, PartialEq, Eq, Structural)]
pub enum CallStep {
    /// Forget a cancel that was aimed at an earlier call.
    ResetCancel,
    /// Have the engine report its progress.
    SetProgress,
    /// Make the call.
    Evaluate(EngineCall),
    /// Have the engine report no more.
    ClearProgress,
}

/// The steps of a call, whichever it is: an earlier cancel is forgotten, the call is
/// made, and the engine reports while it runs where that is asked.
pub open spec fn steps_for(call: EngineCall, progress: bool) -> Seq<CallStep> {
    if progress {
        seq![
            CallStep::ResetCancel,
            CallStep::SetProgress,
            CallStep::Evaluate(call),
            CallStep::ClearProgress,
        ]
    } else {
        seq![CallStep::ResetCancel, CallStep::Evaluate(call)]
    }
}

fn arm(steps: &mut Vec<CallStep>, progress: bool)
    ensures
        final(steps)@ == old(steps)@ + (if progress {
            seq![CallStep::ResetCancel, CallStep::SetProgress]
        } else {
            seq![CallStep::ResetCancel]
        }),
{
    steps.push(CallStep::ResetCancel);
    if progress {
        steps.push(CallStep::SetProgress);
    }
}

fn disarm(steps: &mut Vec<CallStep>, progress: bool)
    ensures
        final(steps)@ == old(steps)@ + (if progress {
            seq![CallStep::ClearProgress]
        } else {
            Seq::empty()
        }),
{
    if progress {
        steps.push(CallStep::ClearProgress);
    }
}

/// The steps of a call.
pub fn call_steps(call: EngineCall, progress: bool) -> (r: Vec<CallStep>)
    ensures
        r@ == steps_for(call, progress),
{
    let mut steps: Vec<CallStep> = Vec::new();
    arm(&mut steps, progress);
    steps.push(CallStep::Evaluate(call));
    disarm(&mut steps, progress);
    steps
}

/// An engine between and during calls: whether a cancel is pending, whether it
/// reports, and, for the last call made, which it was and what it was made with.
pub struct EngineState {
    pub cancel_pending: bool,
    pub reporting: bool,
    pub called: Option<EngineCall>,
    pub call_saw_cancel: bool,
    pub call_reported: bool,
}

/// An engine after one step.
pub open spec fn state_after(s: EngineState, step: CallStep) -> EngineState {
    match step {
        CallStep::ResetCancel => EngineState { cancel_pending: false, ..s },
        CallStep::SetProgress => EngineState { reporting: true, ..s },
        CallStep::Evaluate(call) => EngineState {
            called: Some(call),
            call_saw_cancel: s.cancel_pending,
            call_reported: s.reporting,
            ..s
        },
        CallStep::ClearProgress => EngineState { reporting: false, ..s },
    }
}

/// An engine after some steps.
pub open spec fn state_after_all(s: EngineState, steps: Seq<CallStep>) -> EngineState
    decreases steps.len(),
{
    if steps.len() == 0 {
        s
    } else {
        state_after(state_after_all(s, steps.drop_last()), steps.last())
    }
}

/// The call that is asked for is made. It never sees a cancel that came before it,
/// reports exactly if it was asked to, and leaves the engine silent.
pub proof fn law_fresh_call(s: EngineState, call: EngineCall, progress: bool)
    requires
        !s.reporting,
    ensures
        state_after_all(s, steps_for(call, progress)).called == Some(call),
        !state_after_all(s, steps_for(call, progress)).call_saw_cancel,
        state_after_all(s, steps_for(call, progress)).call_reported == progress,
        !state_after_all(s, steps_for(call, progress)).reporting,
{
    reveal_with_fuel(state_after_all, 5);
    let steps = steps_for(call, progress);
    if progress {
        let s3 = steps.drop_last();
        let s2 = s3.drop_last();
        assert(s3 == seq![CallStep::ResetCancel, CallStep::SetProgress, CallStep::Evaluate(call)]);
        assert(s2 == seq![CallStep::ResetCancel, CallStep::SetProgress]);
        assert(s2.drop_last() == seq![CallStep::ResetCancel]);
        assert(s2.drop_last().drop_last() == Seq::<CallStep>::empty());
    } else {
        assert(steps.drop_last() == seq![CallStep::ResetCancel]);
        assert(steps.drop_last().drop_last() == Seq::<CallStep>::empty());
    }
}

/// A call is made exactly once, behind whatever forgets an earlier cancel and sets the
/// engine to report, and before it is set to report no more.
pub proof fn law_called_once(call: EngineCall, progress: bool)
    ensures
        ({
            let steps = steps_for(call, progress);
            &&& exists|k: int| 0 <= k < steps.len() && #[trigger] steps[k] == CallStep::Evaluate(call)
            &&& forall|i: int, j: int|
                0 <= i < steps.len() && 0 <= j < steps.len() && (#[trigger] steps[i]) is Evaluate && (
                #[trigger] steps[j]) is Evaluate ==> i == j
            &&& forall|i: int, j: int|
                0 <= i < steps.len() && 0 <= j < steps.len() && (#[trigger] steps[i]) is Evaluate && ((
                #[trigger] steps[j]) is ResetCancel || steps[j] is SetProgress) ==> j < i
            &&& forall|i: int, j: int|
                0 <= i < steps.len() && 0 <= j < steps.len() && (#[trigger] steps[i]) is Evaluate && (
                #[trigger] steps[j]) is ClearProgress ==> i < j
            &&& progress <==> exists|k: int| 0 <= k < steps.len() && (#[trigger] steps[k]) is SetProgress
        }),
{
    let steps = steps_for(call, progress);
    if progress {
        assert(steps[2] == CallStep::Evaluate(call));
        assert(steps[1] is SetProgress);
    } else {
        assert(steps[1] == CallStep::Evaluate(call));
    }
}

} // verus!
