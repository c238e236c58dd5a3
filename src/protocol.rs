use vstd::prelude::*;

verus! {

/// How a call of `advance` came out.
pub enum Advanced {
    Failed,
    Same,
    Next,
    Terminal,
}

/// One call that a machine made against its active state.
pub enum StateCall<M> {
    Initialize,
    /// A delivery, and whether the state took the message.
    Deliver(M, bool),
    Advance(Advanced),
}

/// Where an activation stands in the calling protocol.
pub enum Phase {
    /// The active state has not been initialized yet.
    Fresh,
    /// Initialized: deliveries and advances may follow.
    Active,
    /// Terminal was reached: no call may follow.
    Done,
    /// The protocol was broken.
    Invalid,
}

/// The calling protocol, one call at a time: `initialize` exactly once per
/// activation and before any delivery, and nothing after Terminal.
pub open spec fn next_phase<M>(p: Phase, c: StateCall<M>) -> Phase {
    match (p, c) {
        (Phase::Fresh, StateCall::Initialize) => Phase::Active,
        (Phase::Active, StateCall::Deliver(_, _)) => Phase::Active,
        (Phase::Active, StateCall::Advance(Advanced::Failed)) => Phase::Active,
        (Phase::Active, StateCall::Advance(Advanced::Same)) => Phase::Active,
        (Phase::Active, StateCall::Advance(Advanced::Next)) => Phase::Fresh,
        (Phase::Active, StateCall::Advance(Advanced::Terminal)) => Phase::Done,
        _ => Phase::Invalid,
    }
}

/// The phase reached by a sequence of calls from a fresh machine.
pub open spec fn phase_of<M>(calls: Seq<StateCall<M>>) -> Phase
    decreases calls.len(),
{
    if calls.len() == 0 {
        Phase::Fresh
    } else {
        next_phase(phase_of(calls.drop_last()), calls.last())
    }
}

/// The messages handed to `deliver`, in the order of the calls.
pub open spec fn delivered<M>(calls: Seq<StateCall<M>>) -> Seq<M>
    decreases calls.len(),
{
    if calls.len() == 0 {
        Seq::empty()
    } else {
        match calls.last() {
            StateCall::Deliver(m, _) => delivered(calls.drop_last()).push(m),
            _ => delivered(calls.drop_last()),
        }
    }
}

pub proof fn lemma_record_call<M>(calls: Seq<StateCall<M>>, c: StateCall<M>)
    ensures
        phase_of(calls.push(c)) == next_phase(phase_of(calls), c),
        delivered(calls.push(c)) == (match c {
            StateCall::Deliver(m, _) => delivered(calls).push(m),
            _ => delivered(calls),
        }),
{
    assert(calls.push(c).drop_last() =~= calls);
}

pub proof fn lemma_prefix_push<T>(a: Seq<T>, b: Seq<T>, x: T)
    requires
        a.is_prefix_of(b),
    ensures
        a.is_prefix_of(b.push(x)),
{
    assert(a =~= b.push(x).subrange(0, a.len() as int));
}

/// The phase that the driver's flags stand for.
pub open spec fn flag_phase(initialized: bool, terminated: bool) -> Phase {
    if terminated {
        Phase::Done
    } else if initialized {
        Phase::Active
    } else {
        Phase::Fresh
    }
}

/// The phase just before call `k`, then just after it.
pub proof fn lemma_phase_step<M>(calls: Seq<StateCall<M>>, k: int)
    requires
        0 <= k < calls.len(),
    ensures
        phase_of(calls.take(k + 1)) == next_phase(phase_of(calls.take(k)), calls[k]),
{
    assert(calls.take(k + 1).drop_last() =~= calls.take(k));
}

/// Once the protocol is broken it stays broken.
pub proof fn lemma_invalid_stays<M>(calls: Seq<StateCall<M>>, k: int, m: int)
    requires
        0 <= k <= m <= calls.len(),
        phase_of(calls.take(k)) == Phase::Invalid,
    ensures
        phase_of(calls.take(m)) == Phase::Invalid,
    decreases m - k,
{
    if k < m {
        lemma_phase_step(calls, k);
        lemma_invalid_stays(calls, k + 1, m);
    }
}

/// Along a log that follows the protocol, every call finds the phase it
/// needs: `initialize` only where the activation has not been initialized,
/// a delivery only where it has, and no call at all after Terminal.
pub proof fn lemma_call_in_phase<M>(calls: Seq<StateCall<M>>, k: int)
    requires
        phase_of(calls) != Phase::Invalid,
        0 <= k < calls.len(),
    ensures
        calls[k] is Initialize ==> phase_of(calls.take(k)) == Phase::Fresh,
        calls[k] is Deliver ==> phase_of(calls.take(k)) == Phase::Active,
        calls[k] is Advance ==> phase_of(calls.take(k)) == Phase::Active,
        phase_of(calls.take(k)) != Phase::Done,
{
    lemma_phase_step(calls, k);
    assert(calls.take(calls.len() as int) =~= calls);
    if phase_of(calls.take(k + 1)) == Phase::Invalid {
        lemma_invalid_stays(calls, k + 1, calls.len() as int);
    }
}

/// An initialized activation began with an `initialize` call, and no
/// transition to a new state came after it.
pub proof fn lemma_active_was_initialized<M>(calls: Seq<StateCall<M>>, k: int)
    requires
        0 <= k <= calls.len(),
        phase_of(calls.take(k)) == Phase::Active,
    ensures
        exists|j: int|
            0 <= j < k && #[trigger] calls[j] == StateCall::<M>::Initialize && forall|l: int|
                j < l < k ==> #[trigger] calls[l] != StateCall::<M>::Advance(Advanced::Next),
    decreases k,
{
    if k == 0 {
        assert(calls.take(0) =~= Seq::<StateCall<M>>::empty());
    } else {
        lemma_phase_step(calls, k - 1);
        if phase_of(calls.take(k - 1)) == Phase::Fresh {
            assert(calls[k - 1] == StateCall::<M>::Initialize);
        } else {
            lemma_active_was_initialized(calls, k - 1);
            let j = choose|j: int|
                0 <= j < k - 1 && #[trigger] calls[j] == StateCall::<M>::Initialize && forall|l: int|
                    j < l < k - 1 ==> #[trigger] calls[l] != StateCall::<M>::Advance(Advanced::Next);
            assert(forall|l: int| j < l < k ==> #[trigger] calls[l] != StateCall::<M>::Advance(Advanced::Next));
        }
    }
}

/// A fresh activation has seen a transition to a new state after every
/// earlier `initialize` call.
pub proof fn lemma_fresh_after_next<M>(calls: Seq<StateCall<M>>, k: int, j: int)
    requires
        0 <= j < k <= calls.len(),
        phase_of(calls.take(k)) == Phase::Fresh,
        calls[j] == StateCall::<M>::Initialize,
    ensures
        exists|l: int| j < l < k && #[trigger] calls[l] == StateCall::<M>::Advance(Advanced::Next),
    decreases k,
{
    lemma_phase_step(calls, k - 1);
    if calls[k - 1] != StateCall::<M>::Advance(Advanced::Next) {
        assert(phase_of(calls.take(k - 1)) == Phase::Fresh);
        lemma_fresh_after_next(calls, k - 1, j);
    } else {
        assert(calls[k - 1] == StateCall::<M>::Advance(Advanced::Next));
    }
}

/// Initialization happens once per activation and before any delivery: in a
/// log that follows the protocol, each delivery comes after an `initialize`
/// call of the same activation (no transition to a new state in between),
/// and two `initialize` calls always have such a transition between them.
pub proof fn lemma_initialize_once<M>(calls: Seq<StateCall<M>>)
    requires
        phase_of(calls) != Phase::Invalid,
    ensures
        forall|k: int|
            0 <= k < calls.len() && #[trigger] calls[k] is Deliver ==> exists|j: int|
                0 <= j < k && #[trigger] calls[j] == StateCall::<M>::Initialize && forall|l: int|
                    j < l < k ==> #[trigger] calls[l] != StateCall::<M>::Advance(Advanced::Next),
        forall|j: int, k: int|
            0 <= j < k < calls.len() && #[trigger] calls[j] == StateCall::<M>::Initialize && #[trigger] calls[k]
                == StateCall::<M>::Initialize ==> exists|l: int|
                j < l < k && #[trigger] calls[l] == StateCall::<M>::Advance(Advanced::Next),
{
    assert forall|k: int| 0 <= k < calls.len() && #[trigger] calls[k] is Deliver implies exists|j: int|
        0 <= j < k && #[trigger] calls[j] == StateCall::<M>::Initialize && forall|l: int|
            j < l < k ==> #[trigger] calls[l] != StateCall::<M>::Advance(Advanced::Next) by {
        lemma_call_in_phase(calls, k);
        lemma_active_was_initialized(calls, k);
    }
    assert forall|j: int, k: int|
        0 <= j < k < calls.len() && #[trigger] calls[j] == StateCall::<M>::Initialize && #[trigger] calls[k]
            == StateCall::<M>::Initialize implies exists|l: int|
            j < l < k && #[trigger] calls[l] == StateCall::<M>::Advance(Advanced::Next) by {
        lemma_call_in_phase(calls, k);
        lemma_fresh_after_next(calls, k, j);
    }
}

/// Terminal is final: in a log that follows the protocol, a Terminal
/// outcome of `advance` is the last call of all.
pub proof fn lemma_nothing_after_terminal<M>(calls: Seq<StateCall<M>>, k: int)
    requires
        phase_of(calls) != Phase::Invalid,
        0 <= k < calls.len(),
        calls[k] == StateCall::<M>::Advance(Advanced::Terminal),
    ensures
        k == calls.len() - 1,
{
    lemma_call_in_phase(calls, k);
    lemma_phase_step(calls, k);
    if k + 1 < calls.len() {
        lemma_call_in_phase(calls, k + 1);
    }
}

} // verus!
