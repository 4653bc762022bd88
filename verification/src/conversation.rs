//! What holds of a whole conversation with a client.
//!
//! A conversation is a trace of the steps in [`crate::server`]: what happened, one event after
//! the other, and what was done on it. Texts and their settlements are named by the numbers of
//! the steps at which they come.
use crate::server::{
    expects, is_step_at, is_trace, ClientMessage, Incoming, ServerMessage, SessionAction,
    SessionEvent, SessionState,
};
use crate::sort::SortEvent;
use vstd::prelude::*;

verus! {

/// Whether the steps are those of a conversation from its beginning.
pub open spec fn is_conversation(
    states: Seq<SessionState>,
    events: Seq<SessionEvent>,
    actions: Seq<SessionAction>,
) -> bool {
    &&& is_trace(states, events, actions)
    &&& states[0] == SessionState::Receiving
    &&& forall|k: int| 0 <= k < events.len() ==> expects(states[k], #[trigger] events[k])
}

/// Whether the client sent a text.
pub open spec fn is_text(event: SessionEvent) -> bool {
    event is Received && event->Received_0 is Text
}

/// Whether the client closed the connection, or it was lost.
pub open spec fn is_end(event: SessionEvent) -> bool {
    event is Received && (event->Received_0 is Close || event->Received_0 is Lost)
}

/// Whether a sort is given up: it ended without its last report, or a frame of it could not be
/// sent.
pub open spec fn gives_up(state: SessionState, event: SessionEvent) -> bool {
    match (state, event) {
        (SessionState::Sorting, SessionEvent::Reported(None)) => true,
        (SessionState::Reporting, SessionEvent::Sent(false)) => true,
        _ => false,
    }
}

/// Whether `action` sends the frame that settles a text: what is wrong with it, or the sorted
/// array.
pub open spec fn sends_answer(action: SessionAction) -> bool {
    match action {
        SessionAction::Send(ServerMessage::Error { message }) => true,
        SessionAction::Send(ServerMessage::Done { stats, sorted }) => true,
        _ => false,
    }
}

/// Whether the step with the number `k` settles a text.
pub open spec fn settles(
    states: Seq<SessionState>,
    events: Seq<SessionEvent>,
    actions: Seq<SessionAction>,
    k: int,
) -> bool {
    sends_answer(actions[k]) || gives_up(states[k], events[k])
}

/// The steps before the step `k` at which the client sent a text.
pub open spec fn texts(events: Seq<SessionEvent>, k: int) -> Seq<int>
    decreases k,
{
    if k <= 0 {
        seq![]
    } else if is_text(events[k - 1]) {
        texts(events, k - 1).push(k - 1)
    } else {
        texts(events, k - 1)
    }
}

/// The steps before the step `k` that settle a text.
pub open spec fn settlements(
    states: Seq<SessionState>,
    events: Seq<SessionEvent>,
    actions: Seq<SessionAction>,
    k: int,
) -> Seq<int>
    decreases k,
{
    if k <= 0 {
        seq![]
    } else if settles(states, events, actions, k - 1) {
        settlements(states, events, actions, k - 1).push(k - 1)
    } else {
        settlements(states, events, actions, k - 1)
    }
}

/// Whether a text waits for its settlement.
pub open spec fn is_pending(state: SessionState) -> bool {
    state is Sorting || state is Reporting || state is Collecting
}

/// Whether the step `y` settles the text of the step `x`. A text that is not understood is
/// answered at once with what is wrong with it. For any other one its array is sorted, and
/// the answer holds what the run reported at its end and the array that it left behind, unless
/// the sort is given up.
pub open spec fn settled_by(
    states: Seq<SessionState>,
    events: Seq<SessionEvent>,
    actions: Seq<SessionAction>,
    x: int,
    y: int,
) -> bool {
    match events[x]->Received_0->Text_0 {
        Err(reason) => {
            &&& y == x
            &&& actions[y] matches SessionAction::Send(ServerMessage::Error { message })
            &&& message@ == "invalid message: "@ + reason@
        },
        Ok(ClientMessage::Sort { array }) => {
            &&& x < y
            &&& actions[x] == SessionAction::StartSort(array)
            &&& gives_up(states[y], events[y]) || is_done(events, actions, y)
        },
    }
}

/// Whether the step `y` sends the frame with the sorted array: what the event before reported,
/// and the array that this event brings, or none if the sort failed.
pub open spec fn is_done(
    events: Seq<SessionEvent>,
    actions: Seq<SessionAction>,
    y: int,
) -> bool {
    &&& actions[y] matches SessionAction::Send(frame)
    &&& frame is Done
    &&& events[y - 1] == SessionEvent::Reported(Some(SortEvent::Done(frame->stats)))
    &&& events[y] matches SessionEvent::Sorted(result)
    &&& match result {
        Some(sorted) => frame->sorted == sorted,
        None => frame->sorted@ == Seq::<u32>::empty(),
    }
}

/// What holds after `k` events of a conversation, and is kept by every step.
spec fn holds_after(
    states: Seq<SessionState>,
    events: Seq<SessionEvent>,
    actions: Seq<SessionAction>,
    k: int,
) -> bool {
    let asked = texts(events, k);
    let settled = settlements(states, events, actions, k);
    &&& asked.len() == settled.len() + if is_pending(states[k]) {
        1int
    } else {
        0
    }
    &&& is_in_order(states, events, actions, asked, settled, k)
    &&& is_pending(states[k]) ==> {
        &&& events[asked.last()]->Received_0->Text_0 matches Ok(ClientMessage::Sort { array })
        &&& actions[asked.last()] == SessionAction::StartSort(array)
    }
    &&& states[k] matches SessionState::Collecting(stats) ==> k > 0 && events[k - 1]
        == SessionEvent::Reported(Some(SortEvent::Done(stats)))
    &&& states[k] is Ended <==> k > 0 && is_end(events[k - 1])
    &&& forall|y: int| 0 <= y < k - 1 ==> !is_end(#[trigger] events[y])
}

/// What one step does to the open text.
proof fn lemma_one_step(
    states: Seq<SessionState>,
    events: Seq<SessionEvent>,
    actions: Seq<SessionAction>,
    k: int,
)
    requires
        is_step_at(states, events, actions, k),
        expects(states[k], events[k]),
        states[k] matches SessionState::Collecting(stats) ==> events[k - 1]
            == SessionEvent::Reported(Some(SortEvent::Done(stats))),
    ensures
        is_text(events[k]) ==> !is_pending(states[k]),
        is_text(events[k]) && settles(states, events, actions, k) ==> {
            &&& !is_pending(states[k + 1])
            &&& settled_by(states, events, actions, k, k)
        },
        is_text(events[k]) && !settles(states, events, actions, k) ==> {
            &&& is_pending(states[k + 1])
            &&& events[k]->Received_0->Text_0 matches Ok(ClientMessage::Sort { array })
            &&& actions[k] == SessionAction::StartSort(array)
        },
        !is_text(events[k]) && settles(states, events, actions, k) ==> {
            &&& is_pending(states[k])
            &&& !is_pending(states[k + 1])
            &&& gives_up(states[k], events[k]) || is_done(events, actions, k)
        },
        !is_text(events[k]) && !settles(states, events, actions, k) ==> is_pending(states[k])
            == is_pending(states[k + 1]),
        states[k + 1] matches SessionState::Collecting(stats) ==> events[k]
            == SessionEvent::Reported(Some(SortEvent::Done(stats))),
        states[k + 1] is Ended <==> is_end(events[k]),
        !(states[k] is Ended),
{
    match (states[k], events[k]) {
        (SessionState::Receiving, SessionEvent::Received(incoming)) => {
            match incoming {
                Incoming::Text(Ok(ClientMessage::Sort { array })) => {},
                Incoming::Text(Err(reason)) => {},
                Incoming::Other => {},
                Incoming::Close => {},
                Incoming::Lost => {},
            }
        },
        (SessionState::Sorting, SessionEvent::Reported(report)) => {
            match report {
                Some(SortEvent::Progress { indices, values }) => {},
                Some(SortEvent::Done(stats)) => {},
                None => {},
            }
        },
        _ => {},
    }
}

proof fn lemma_conversation(
    states: Seq<SessionState>,
    events: Seq<SessionEvent>,
    actions: Seq<SessionAction>,
    k: int,
)
    requires
        is_conversation(states, events, actions),
        0 <= k <= events.len(),
    ensures
        holds_after(states, events, actions, k),
    decreases k,
{
    if k > 0 {
        lemma_conversation(states, events, actions, k - 1);
        assert(is_step_at(states, events, actions, k - 1));
        assert(expects(states[k - 1], events[k - 1]));
        lemma_one_step(states, events, actions, k - 1);
        lemma_next_in_order(states, events, actions, k - 1);
    }
}

/// Whether the bookkeeping of texts and settlements is right after `k` events.
spec fn is_in_order(
    states: Seq<SessionState>,
    events: Seq<SessionEvent>,
    actions: Seq<SessionAction>,
    asked: Seq<int>,
    settled: Seq<int>,
    k: int,
) -> bool {
    &&& settled.len() <= asked.len() <= settled.len() + 1
    &&& forall|m: int| 0 <= m < asked.len() ==> 0 <= #[trigger] asked[m] < k && is_text(
        events[asked[m]],
    )
    &&& forall|m: int| 0 <= m < settled.len() ==> 0 <= #[trigger] settled[m] < k
    &&& forall|m: int|
        #![trigger settled[m]]
        0 <= m < settled.len() ==> settled_by(states, events, actions, asked[m], settled[m])
    &&& forall|m: int|
        #![trigger settled[m]]
        0 <= m < settled.len() && m + 1 < asked.len() ==> settled[m] < asked[m + 1]
}

/// A text that comes when none is open keeps the order.
proof fn lemma_text_in_order(
    states: Seq<SessionState>,
    events: Seq<SessionEvent>,
    actions: Seq<SessionAction>,
    asked: Seq<int>,
    settled: Seq<int>,
    k: int,
)
    requires
        0 <= k,
        is_in_order(states, events, actions, asked, settled, k),
        asked.len() == settled.len(),
        is_text(events[k]),
    ensures
        is_in_order(states, events, actions, asked.push(k), settled, k + 1),
{
    let now = asked.push(k);
    assert forall|m: int| 0 <= m < now.len() implies 0 <= #[trigger] now[m] < k + 1 && is_text(
        events[now[m]],
    ) by {
        if m < asked.len() {
            assert(now[m] == asked[m]);
        }
    }
    assert forall|m: int| #![trigger settled[m]] 0 <= m < settled.len() implies settled_by(
        states,
        events,
        actions,
        now[m],
        settled[m],
    ) by {
        assert(now[m] == asked[m]);
    }
    assert forall|m: int|
        #![trigger settled[m]]
        0 <= m < settled.len() && m + 1 < now.len() implies settled[m] < now[m + 1] by {
        if m + 1 < asked.len() {
            assert(now[m + 1] == asked[m + 1]);
        }
    }
}

/// Settling the open text keeps the order.
proof fn lemma_settlement_in_order(
    states: Seq<SessionState>,
    events: Seq<SessionEvent>,
    actions: Seq<SessionAction>,
    asked: Seq<int>,
    settled: Seq<int>,
    k: int,
)
    requires
        0 <= k,
        is_in_order(states, events, actions, asked, settled, k + 1),
        asked.len() == settled.len() + 1,
        settled_by(states, events, actions, asked.last(), k),
    ensures
        is_in_order(states, events, actions, asked, settled.push(k), k + 1),
{
    let now = settled.push(k);
    assert forall|m: int| #![trigger now[m]] 0 <= m < now.len() implies 0 <= now[m] < k + 1
        && settled_by(states, events, actions, asked[m], now[m]) by {
        if m < settled.len() {
            assert(now[m] == settled[m]);
        }
    }
    assert forall|m: int|
        #![trigger now[m]]
        0 <= m < now.len() && m + 1 < asked.len() implies now[m] < asked[m + 1] by {
        assert(now[m] == settled[m]);
    }
}

proof fn lemma_next_in_order(
    states: Seq<SessionState>,
    events: Seq<SessionEvent>,
    actions: Seq<SessionAction>,
    k: int,
)
    requires
        0 <= k,
        holds_after(states, events, actions, k),
        is_step_at(states, events, actions, k),
        expects(states[k], events[k]),
    ensures
        ({
            let asked = texts(events, k + 1);
            let settled = settlements(states, events, actions, k + 1);
            &&& is_in_order(states, events, actions, asked, settled, k + 1)
            &&& asked.len() == settled.len() + if is_pending(states[k + 1]) {
                1int
            } else {
                0
            }
            &&& is_pending(states[k + 1]) ==> {
                &&& events[asked.last()]->Received_0->Text_0 matches Ok(
                    ClientMessage::Sort { array },
                )
                &&& actions[asked.last()] == SessionAction::StartSort(array)
            }
        }),
{
    lemma_one_step(states, events, actions, k);
    let asked = texts(events, k);
    let settled = settlements(states, events, actions, k);
    if is_text(events[k]) {
        lemma_text_in_order(states, events, actions, asked, settled, k);
        if settles(states, events, actions, k) {
            lemma_settlement_in_order(states, events, actions, asked.push(k), settled, k);
        }
    } else {
        assert(is_in_order(states, events, actions, asked, settled, k + 1));
        if settles(states, events, actions, k) {
            assert(asked[asked.len() - 1] < k);
            assert(settled_by(states, events, actions, asked.last(), k));
            lemma_settlement_in_order(states, events, actions, asked, settled, k);
        }
    }
}

/// Texts are settled one for one and in order, each before the next one is received: after
/// any number of events at most the last text is still open, and that only while its array is
/// being sorted. Each text is settled as it should be: with what is wrong with it, with the
/// sorted array, or, if the sort could not be reported, by giving it up.
pub proof fn law_texts_are_settled_in_order(
    states: Seq<SessionState>,
    events: Seq<SessionEvent>,
    actions: Seq<SessionAction>,
    k: int,
)
    requires
        is_conversation(states, events, actions),
        0 <= k <= events.len(),
    ensures
        ({
            let asked = texts(events, k);
            let settled = settlements(states, events, actions, k);
            &&& asked.len() == settled.len() + if is_pending(states[k]) {
                1int
            } else {
                0
            }
            &&& forall|m: int|
                #![trigger settled[m]]
                0 <= m < settled.len() ==> {
                    &&& 0 <= asked[m] <= settled[m] < k
                    &&& is_text(events[asked[m]])
                    &&& settled_by(states, events, actions, asked[m], settled[m])
                    &&& m + 1 < asked.len() ==> settled[m] < asked[m + 1]
                }
        }),
{
    lemma_conversation(states, events, actions, k);
    let asked = texts(events, k);
    let settled = settlements(states, events, actions, k);
    assert forall|m: int| #![trigger settled[m]] 0 <= m < settled.len() implies 0 <= asked[m]
        <= settled[m] < k && is_text(events[asked[m]]) by {
        assert(settled_by(states, events, actions, asked[m], settled[m]));
        assert(is_text(events[asked[m]]));
    }
}

/// If every frame can be sent and every sort makes its last report, every text that is settled
/// is answered with one frame.
pub proof fn law_texts_are_answered(
    states: Seq<SessionState>,
    events: Seq<SessionEvent>,
    actions: Seq<SessionAction>,
    k: int,
    m: int,
)
    requires
        is_conversation(states, events, actions),
        0 <= k <= events.len(),
        forall|y: int| 0 <= y < k ==> !gives_up(states[y], #[trigger] events[y]),
        0 <= m < settlements(states, events, actions, k).len(),
    ensures
        sends_answer(actions[settlements(states, events, actions, k)[m]]),
{
    lemma_conversation(states, events, actions, k);
    let y = settlements(states, events, actions, k)[m];
    let x = texts(events, k)[m];
    assert(settled_by(states, events, actions, x, y));
    assert(!gives_up(states[y], events[y]));
}

/// A conversation goes on up to the first event that ends the connection, and is over then:
/// it is over exactly if the last event was one, and no event before the last was.
pub proof fn law_conversation_ends_once(
    states: Seq<SessionState>,
    events: Seq<SessionEvent>,
    actions: Seq<SessionAction>,
)
    requires
        is_conversation(states, events, actions),
    ensures
        states.last() is Ended <==> events.len() > 0 && is_end(events.last()),
        forall|y: int| 0 <= y < events.len() - 1 ==> !is_end(#[trigger] events[y]),
        forall|y: int| 0 <= y < events.len() ==> !(#[trigger] states[y] is Ended),
{
    lemma_conversation(states, events, actions, events.len() as int);
    assert forall|y: int| 0 <= y < events.len() implies !(#[trigger] states[y] is Ended) by {
        assert(expects(states[y], events[y]));
    }
}

} // verus!
