//! The conversation with a client.
//!
//! A client sends an unsorted array, and is sent a frame for every progress report and one
//! with the sorted array. Everything between two messages is decided here: [`step`] takes
//! what happened last and says what to do next.
use crate::sort::{SortEvent, SortRunStats};
use crate::text::decimal;
use vstd::prelude::*;

verus! {

/// The port where none is set.
pub const DEFAULT_PORT: u16 = 7878;

/// The largest message that is taken from a client. An array of a few million numbers is
/// large as text.
pub const MAX_WS_MESSAGE_BYTES: usize = 512 * 1024 * 1024;

/// What a client asks for.
#[derive(Debug)]
pub enum ClientMessage {
    Sort { array: Vec<u32> },
}

/// What a client is sent.
#[derive(Debug)]
pub enum ServerMessage {
    /// The values that now stand at `indices`.
    Progress { indices: Vec<usize>, values: Vec<u32> },
    /// The run is finished.
    Done { stats: SortRunStats, sorted: Vec<u32> },
    /// The request was not understood.
    Error { message: String },
}

/// What came over the connection.
#[derive(Debug)]
pub enum Incoming {
    /// A text: a request, or what is wrong with it.
    Text(Result<ClientMessage, String>),
    /// The client closes the connection.
    Close,
    /// A message of another kind.
    Other,
    /// The connection is lost.
    Lost,
}

/// What happened last.
#[derive(Debug)]
pub enum SessionEvent {
    Received(Incoming),
    /// A report of the running sort, or that there are no more.
    Reported(Option<SortEvent>),
    /// A frame was sent, or could not be.
    Sent(bool),
    /// The array that the running sort left behind, unless it failed.
    Sorted(Option<Vec<u32>>),
}

/// What to do next.
#[derive(Debug)]
pub enum SessionAction {
    /// Wait for the next message.
    Receive,
    /// Start a sort of the array, and wait for its first report.
    StartSort(Vec<u32>),
    /// Wait for the next report.
    AwaitReport,
    /// Wait for the sorted array.
    AwaitSorted,
    Send(ServerMessage),
    Stop,
}

/// Where the conversation stands.
#[derive(Debug)]
pub enum SessionState {
    /// Waiting for a message.
    Receiving,
    /// Sending an answer after which the next message is received, sent or not.
    Replying,
    /// Waiting for a report.
    Sorting,
    /// Sending a progress frame.
    Reporting,
    /// Waiting for the sorted array.
    Collecting(SortRunStats),
    /// Over.
    Ended,
}

/// Whether `event` can happen in `state`.
pub open spec fn expects(state: SessionState, event: SessionEvent) -> bool {
    match (state, event) {
        (SessionState::Receiving, SessionEvent::Received(_)) => true,
        (SessionState::Replying, SessionEvent::Sent(_)) => true,
        (SessionState::Sorting, SessionEvent::Reported(_)) => true,
        (SessionState::Reporting, SessionEvent::Sent(_)) => true,
        (SessionState::Collecting(_), SessionEvent::Sorted(_)) => true,
        _ => false,
    }
}

/// Whether `next` and `action` are what follows on `event` in `state`.
pub open spec fn is_step(
    state: SessionState,
    event: SessionEvent,
    next: SessionState,
    action: SessionAction,
) -> bool {
    match (state, event) {
        (SessionState::Receiving, SessionEvent::Received(incoming)) => match incoming {
            Incoming::Text(Ok(ClientMessage::Sort { array })) => {
                &&& next == SessionState::Sorting
                &&& action == SessionAction::StartSort(array)
            },
            Incoming::Text(Err(reason)) => {
                &&& next == SessionState::Replying
                &&& action matches SessionAction::Send(ServerMessage::Error { message })
                &&& message@ == "invalid message: "@ + reason@
            },
            Incoming::Other => {
                &&& next == SessionState::Receiving
                &&& action == SessionAction::Receive
            },
            _ => {
                &&& next == SessionState::Ended
                &&& action == SessionAction::Stop
            },
        },
        (SessionState::Sorting, SessionEvent::Reported(report)) => match report {
            Some(SortEvent::Progress { indices, values }) => {
                &&& next == SessionState::Reporting
                &&& action == SessionAction::Send(ServerMessage::Progress { indices, values })
            },
            Some(SortEvent::Done(stats)) => {
                &&& next == SessionState::Collecting(stats)
                &&& action == SessionAction::AwaitSorted
            },
            None => {
                &&& next == SessionState::Receiving
                &&& action == SessionAction::Receive
            },
        },
        (SessionState::Reporting, SessionEvent::Sent(true)) => {
            &&& next == SessionState::Sorting
            &&& action == SessionAction::AwaitReport
        },
        (SessionState::Collecting(stats), SessionEvent::Sorted(result)) => {
            &&& next == SessionState::Replying
            &&& action matches SessionAction::Send(frame)
            &&& frame is Done
            &&& frame->stats == stats
            &&& match result {
                Some(sorted) => frame->sorted == sorted,
                None => frame->sorted@ == Seq::<u32>::empty(),
            }
        },
        _ => {
            &&& next == SessionState::Receiving
            &&& action == SessionAction::Receive
        },
    }
}

impl SessionState {
    /// Whether `event` can happen now.
    pub fn accepts(&self, event: &SessionEvent) -> (yes: bool)
        ensures
            yes == expects(*self, *event),
    {
        match (self, event) {
            (SessionState::Receiving, SessionEvent::Received(_)) => true,
            (SessionState::Replying, SessionEvent::Sent(_)) => true,
            (SessionState::Sorting, SessionEvent::Reported(_)) => true,
            (SessionState::Reporting, SessionEvent::Sent(_)) => true,
            (SessionState::Collecting(_), SessionEvent::Sorted(_)) => true,
            _ => false,
        }
    }
}

/// The text of the answer to a request that was not understood.
fn refusal(reason: &str) -> (message: String)
    ensures
        message@ == "invalid message: "@ + reason@,
{
    let mut message = "invalid message: ".to_owned();
    message.push_str(reason);
    message
}

/// What follows on a message from the client.
fn on_message(incoming: Incoming) -> (next: (SessionState, SessionAction))
    ensures
        is_step(SessionState::Receiving, SessionEvent::Received(incoming), next.0, next.1),
{
    match incoming {
        Incoming::Text(Ok(ClientMessage::Sort { array })) => (
            SessionState::Sorting,
            SessionAction::StartSort(array),
        ),
        Incoming::Text(Err(reason)) => (
            SessionState::Replying,
            SessionAction::Send(ServerMessage::Error { message: refusal(reason.as_str()) }),
        ),
        Incoming::Other => (SessionState::Receiving, SessionAction::Receive),
        Incoming::Close => (SessionState::Ended, SessionAction::Stop),
        Incoming::Lost => (SessionState::Ended, SessionAction::Stop),
    }
}

/// What follows on a report of the running sort.
fn on_report(report: Option<SortEvent>) -> (next: (SessionState, SessionAction))
    ensures
        is_step(SessionState::Sorting, SessionEvent::Reported(report), next.0, next.1),
{
    match report {
        Some(SortEvent::Progress { indices, values }) => (
            SessionState::Reporting,
            SessionAction::Send(ServerMessage::Progress { indices, values }),
        ),
        Some(SortEvent::Done(stats)) => (
            SessionState::Collecting(stats),
            SessionAction::AwaitSorted,
        ),
        None => (SessionState::Receiving, SessionAction::Receive),
    }
}

/// What follows on `event` in `state`. A request that is not understood is answered with what
/// is wrong with it. A sort that cannot be reported, or that ends without a last report, is
/// given up, and the next message is received.
pub fn step(state: SessionState, event: SessionEvent) -> (next: (SessionState, SessionAction))
    requires
        expects(state, event),
    ensures
        is_step(state, event, next.0, next.1),
{
    match (state, event) {
        (SessionState::Receiving, SessionEvent::Received(incoming)) => on_message(incoming),
        (SessionState::Sorting, SessionEvent::Reported(report)) => on_report(report),
        (SessionState::Reporting, SessionEvent::Sent(true)) => (
            SessionState::Sorting,
            SessionAction::AwaitReport,
        ),
        (SessionState::Collecting(stats), SessionEvent::Sorted(result)) => {
            let sorted = match result {
                Some(sorted) => sorted,
                None => Vec::new(),
            };
            (SessionState::Replying, SessionAction::Send(ServerMessage::Done { stats, sorted }))
        },
        _ => (SessionState::Receiving, SessionAction::Receive),
    }
}

/// Whether the step with the number `k` is what follows on its event.
pub open spec fn is_step_at(
    states: Seq<SessionState>,
    events: Seq<SessionEvent>,
    actions: Seq<SessionAction>,
    k: int,
) -> bool {
    is_step(states[k], events[k], states[k + 1], actions[k])
}

/// Whether `event` is of the kind that comes once `action` is carried out.
pub open spec fn brings(action: SessionAction, event: SessionEvent) -> bool {
    match action {
        SessionAction::Receive => event is Received,
        SessionAction::StartSort(array) => event is Reported,
        SessionAction::AwaitReport => event is Reported,
        SessionAction::AwaitSorted => event is Sorted,
        SessionAction::Send(message) => event is Sent,
        SessionAction::Stop => false,
    }
}

/// Actions and states fit together: whatever a step does next brings just the kind of event
/// that its next state can take, so that a conversation never gets stuck.
pub proof fn law_actions_bring_what_is_expected(
    state: SessionState,
    event: SessionEvent,
    next: SessionState,
    action: SessionAction,
    coming: SessionEvent,
)
    requires
        expects(state, event),
        is_step(state, event, next, action),
    ensures
        brings(action, coming) <==> expects(next, coming),
{
}

/// What a running sort reports is passed on as it is: a progress report is sent at once, and
/// then the next report is awaited; the last report is kept until the sorted array is there.
/// Only if a progress frame cannot be sent, or the reports end early, is the next message
/// received instead.
pub proof fn law_reports_are_passed_on(
    state: SessionState,
    event: SessionEvent,
    next: SessionState,
    action: SessionAction,
)
    requires
        expects(state, event),
        is_step(state, event, next, action),
    ensures
        event matches SessionEvent::Reported(Some(SortEvent::Progress { indices, values })) ==> {
            &&& next == SessionState::Reporting
            &&& action == SessionAction::Send(ServerMessage::Progress { indices, values })
        },
        event matches SessionEvent::Reported(Some(SortEvent::Done(stats))) ==> {
            &&& next == SessionState::Collecting(stats)
            &&& action == SessionAction::AwaitSorted
        },
        state is Reporting && event == SessionEvent::Sent(true) ==> next == SessionState::Sorting
            && action == SessionAction::AwaitReport,
        event is Sorted ==> action is Send && action->Send_0 is Done && next
            == SessionState::Replying,
        action is Receive <==> next == SessionState::Receiving,
        event matches SessionEvent::Received(Incoming::Other) ==> action is Receive,
        event matches SessionEvent::Received(
            Incoming::Text(Ok(ClientMessage::Sort { array })),
        ) ==> action == SessionAction::StartSort(array) && next == SessionState::Sorting,
{
}

/// Whether `states` and `actions` are what follows on `events`, one after the other.
pub open spec fn is_trace(
    states: Seq<SessionState>,
    events: Seq<SessionEvent>,
    actions: Seq<SessionAction>,
) -> bool {
    &&& states.len() == events.len() + 1
    &&& actions.len() == events.len()
    &&& forall|k: int|
        0 <= k < events.len() ==> #[trigger] is_step_at(states, events, actions, k)
}

/// A conversation ends exactly when the client closes the connection or it is lost.
pub proof fn law_ends_with_the_connection(
    state: SessionState,
    event: SessionEvent,
    next: SessionState,
    action: SessionAction,
)
    requires
        expects(state, event),
        is_step(state, event, next, action),
    ensures
        next is Ended <==> event is Received && (event->Received_0 is Close
            || event->Received_0 is Lost),
        next is Ended <==> action is Stop,
{
}

/// A request that is not understood is answered with one error frame that says what is wrong
/// with it, and the conversation goes on, whether that frame was sent or not.
pub proof fn law_refused_request_is_answered(
    reason: String,
    sent: bool,
    states: Seq<SessionState>,
    actions: Seq<SessionAction>,
)
    requires
        states[0] == SessionState::Receiving,
        is_trace(
            states,
            seq![
                SessionEvent::Received(Incoming::Text(Err(reason))),
                SessionEvent::Sent(sent),
            ],
            actions,
        ),
    ensures
        actions[0] matches SessionAction::Send(ServerMessage::Error { message }) && message@
            == "invalid message: "@ + reason@,
        states[2] == SessionState::Receiving,
        actions[1] == SessionAction::Receive,
{
    let events = seq![
        SessionEvent::Received(Incoming::Text(Err(reason))),
        SessionEvent::Sent(sent),
    ];
    assert(is_step_at(states, events, actions, 0));
    assert(is_step_at(states, events, actions, 1));
}

/// What happens in a conversation while an array is sorted that is reported by `reports` and
/// then finished, if every frame can be sent.
pub open spec fn sort_events(
    array: Vec<u32>,
    reports: Seq<SortEvent>,
    stats: SortRunStats,
    sorted: Vec<u32>,
    sent: bool,
) -> Seq<SessionEvent> {
    let n = reports.len() as int;
    Seq::new(
        (2 * n + 4) as nat,
        |k: int|
            if k == 0 {
                SessionEvent::Received(Incoming::Text(Ok(ClientMessage::Sort { array })))
            } else if k == 2 * n + 1 {
                SessionEvent::Reported(Some(SortEvent::Done(stats)))
            } else if k == 2 * n + 2 {
                SessionEvent::Sorted(Some(sorted))
            } else if k == 2 * n + 3 {
                SessionEvent::Sent(sent)
            } else if k % 2 == 1 {
                SessionEvent::Reported(Some(reports[(k - 1) / 2]))
            } else {
                SessionEvent::Sent(true)
            },
    )
}

proof fn lemma_sorting_between_reports(
    array: Vec<u32>,
    reports: Seq<SortEvent>,
    stats: SortRunStats,
    sorted: Vec<u32>,
    sent: bool,
    states: Seq<SessionState>,
    actions: Seq<SessionAction>,
    i: int,
)
    requires
        states[0] == SessionState::Receiving,
        forall|x: int| 0 <= x < reports.len() ==> #[trigger] reports[x] is Progress,
        is_trace(states, sort_events(array, reports, stats, sorted, sent), actions),
        0 <= i <= reports.len(),
    ensures
        states[2 * i + 1] == SessionState::Sorting,
    decreases i,
{
    let events = sort_events(array, reports, stats, sorted, sent);
    if i == 0 {
        assert(is_step_at(states, events, actions, 0));
    } else {
        let k = 2 * i - 1;
        lemma_sorting_between_reports(
            array,
            reports,
            stats,
            sorted,
            sent,
            states,
            actions,
            i - 1,
        );
        assert(events[k] == SessionEvent::Reported(Some(reports[i - 1])));
        assert(is_step_at(states, events, actions, k));
        assert(events[k + 1] == SessionEvent::Sent(true));
        assert(is_step_at(states, events, actions, k + 1));
    }
}

/// A client that asks for a sort is sent every progress report, in order, and then one frame
/// with what the run reported and the array that it left behind; then the conversation goes
/// on.
pub proof fn law_sort_is_served(
    array: Vec<u32>,
    reports: Seq<SortEvent>,
    stats: SortRunStats,
    sorted: Vec<u32>,
    sent: bool,
    states: Seq<SessionState>,
    actions: Seq<SessionAction>,
)
    requires
        states[0] == SessionState::Receiving,
        forall|x: int| 0 <= x < reports.len() ==> #[trigger] reports[x] is Progress,
        is_trace(states, sort_events(array, reports, stats, sorted, sent), actions),
    ensures
        actions[0] == SessionAction::StartSort(array),
        forall|i: int|
            0 <= i < reports.len() ==> actions[2 * i + 1] == SessionAction::Send(
                ServerMessage::Progress {
                    indices: (#[trigger] reports[i])->indices,
                    values: reports[i]->values,
                },
            ),
        actions[2 * reports.len() as int + 2] == SessionAction::Send(
            ServerMessage::Done { stats, sorted },
        ),
        states[2 * reports.len() as int + 4] == SessionState::Receiving,
{
    let events = sort_events(array, reports, stats, sorted, sent);
    let n = reports.len() as int;
    assert(is_step_at(states, events, actions, 0));
    assert forall|i: int| 0 <= i < n implies actions[2 * i + 1] == SessionAction::Send(
        ServerMessage::Progress {
            indices: (#[trigger] reports[i])->indices,
            values: reports[i]->values,
        },
    ) by {
        let k = 2 * i + 1;
        lemma_sorting_between_reports(array, reports, stats, sorted, sent, states, actions, i);
        assert(events[k] == SessionEvent::Reported(Some(reports[i])));
        assert(is_step_at(states, events, actions, k));
    }
    lemma_sorting_between_reports(array, reports, stats, sorted, sent, states, actions, n);
    let k = 2 * n + 1;
    assert(is_step_at(states, events, actions, k));
    assert(is_step_at(states, events, actions, k + 1));
    assert(is_step_at(states, events, actions, k + 2));
}

/// The address under which other devices reach this one, as far as it is known: the IPv4
/// address that was found, and otherwise the loopback address.
pub fn discover_lan_ip(found: Option<[u8; 4]>) -> (address: [u8; 4])
    ensures
        match found {
            Some(ip) => address == ip,
            None => address@ == seq![127u8, 0, 0, 1],
        },
{
    match found {
        Some(ip) => ip,
        None => [127, 0, 0, 1],
    }
}

/// Whether `byte` is a decimal digit.
pub open spec fn is_digit(byte: u8) -> bool {
    48 <= byte <= 57
}

/// The digits of a number that may have a plus sign before them.
pub open spec fn digits_of(text: Seq<u8>) -> Seq<u8> {
    if text.len() > 0 && text[0] == 43 {
        text.skip(1)
    } else {
        text
    }
}

/// The number that decimal digits stand for.
pub open spec fn number_of(digits: Seq<u8>) -> int
    decreases digits.len(),
{
    if digits.len() == 0 {
        0
    } else {
        10 * number_of(digits.drop_last()) + (digits.last() - 48)
    }
}

/// The port that `text` names: a decimal number up to the largest port.
pub open spec fn port_of(text: Seq<u8>) -> Option<int> {
    let digits = digits_of(text);
    if digits.len() > 0 && (forall|i: int| 0 <= i < digits.len() ==> is_digit(#[trigger] digits[i]))
        && number_of(digits) <= u16::MAX {
        Some(number_of(digits))
    } else {
        None
    }
}

proof fn lemma_number_grows(digits: Seq<u8>, k: int)
    requires
        0 <= k <= digits.len(),
        forall|i: int| 0 <= i < digits.len() ==> is_digit(#[trigger] digits[i]),
    ensures
        0 <= number_of(digits.take(k)) <= number_of(digits),
    decreases digits.len(),
{
    if k < digits.len() {
        lemma_number_grows(digits.drop_last(), k);
        assert(digits.drop_last().take(k) =~= digits.take(k));
        assert(is_digit(digits[digits.len() - 1]));
    } else {
        assert(digits.take(k) =~= digits);
        if k > 0 {
            lemma_number_grows(digits.drop_last(), k - 1);
            assert(digits.drop_last().take(k - 1) =~= digits.drop_last());
            assert(is_digit(digits[digits.len() - 1]));
        }
    }
}

/// Leading zeros do not change a number.
proof fn lemma_leading_zero(digits: Seq<u8>)
    ensures
        number_of(seq![48u8] + digits) == number_of(digits),
    decreases digits.len(),
{
    let all = seq![48u8] + digits;
    if digits.len() == 0 {
        assert(all.drop_last() =~= seq![]);
        assert(number_of(all.drop_last()) == 0);
    } else {
        assert(all.drop_last() =~= seq![48u8] + digits.drop_last());
        lemma_leading_zero(digits.drop_last());
    }
}

/// A number in decimal notation, as bytes.
pub open spec fn decimal_bytes(n: int) -> Seq<u8> {
    decimal(n).map_values(|c: char| c as u8)
}

proof fn lemma_decimal_bytes(n: int)
    requires
        0 <= n,
    ensures
        decimal_bytes(n).len() > 0,
        forall|i: int| 0 <= i < decimal_bytes(n).len() ==> is_digit(#[trigger] decimal_bytes(n)[i]),
        number_of(decimal_bytes(n)) == n,
    decreases n,
{
    let text = decimal_bytes(n);
    if n < 10 {
        assert(text =~= seq![(48 + n) as u8]);
        assert(text.drop_last() =~= seq![]);
        assert(number_of(text.drop_last()) == 0);
    } else {
        lemma_decimal_bytes(n / 10);
        let front = decimal_bytes(n / 10);
        assert(text =~= front.push((48 + n % 10) as u8));
        assert(text.drop_last() =~= front);
        assert forall|i: int| 0 <= i < text.len() implies is_digit(#[trigger] text[i]) by {
            if i < front.len() {
                assert(text[i] == front[i]);
            }
        }
    }
}

/// Every port is read from its decimal notation, with or without a plus sign, and with any
/// number of zeros before it; the decimal notation of a larger number is no port.
pub proof fn law_port_from_decimal(n: int, zeros: nat)
    requires
        0 <= n,
    ensures
        ({
            let text = Seq::new(zeros, |i: int| 48u8) + decimal_bytes(n);
            let port = if n <= 65535 {
                Some(n)
            } else {
                None::<int>
            };
            &&& port_of(text) == port
            &&& port_of(seq![43u8] + text) == port
        }),
    decreases zeros,
{
    let text = Seq::new(zeros, |i: int| 48u8) + decimal_bytes(n);
    lemma_decimal_bytes(n);
    lemma_zeros_before(n, zeros);
    assert((seq![43u8] + text).skip(1) =~= text);
    assert(digits_of(seq![43u8] + text) == text);
    assert forall|i: int| 0 <= i < text.len() implies is_digit(#[trigger] text[i]) by {
        if i >= zeros {
            assert(text[i] == decimal_bytes(n)[i - zeros]);
        }
    }
    assert(is_digit(text[0]));
    assert(digits_of(text) == text);
}

proof fn lemma_zeros_before(n: int, zeros: nat)
    requires
        0 <= n,
    ensures
        number_of(Seq::new(zeros, |i: int| 48u8) + decimal_bytes(n)) == n,
    decreases zeros,
{
    lemma_decimal_bytes(n);
    let all = Seq::new(zeros, |i: int| 48u8) + decimal_bytes(n);
    if zeros == 0 {
        assert(all =~= decimal_bytes(n));
    } else {
        let fewer = (zeros - 1) as nat;
        let rest = Seq::new(fewer, |i: int| 48u8) + decimal_bytes(n);
        lemma_zeros_before(n, fewer);
        assert(all =~= seq![48u8] + rest);
        lemma_leading_zero(rest);
    }
}

/// Nothing else is a port: not an empty text, not a sign alone, and no text with a byte that is
/// not a digit, except for a plus sign at its start.
pub proof fn law_no_port_without_digits(text: Seq<u8>, i: int)
    requires
        text.len() == 0 || text == seq![43u8] || (0 <= i < text.len() && !(48 <= text[i] <= 57)
            && (i > 0 || text[i] != 43)),
    ensures
        port_of(text) is None,
{
    if text.len() > 0 && text != seq![43u8] {
        let digits = digits_of(text);
        if text[0] == 43 {
            assert(digits[i - 1] == text[i]);
            assert(!is_digit(digits[i - 1]));
        } else {
            assert(!is_digit(digits[i]));
        }
    }
}

/// Reads a port.
fn parse_port(text: &[u8]) -> (port: Option<u16>)
    ensures
        match port {
            Some(p) => port_of(text@) == Some(p as int),
            None => port_of(text@) is None,
        },
{
    let ghost digits = digits_of(text@);
    let start: usize = if text.len() > 0 && text[0] == 43 {
        1
    } else {
        0
    };
    let mut value: u16 = 0;
    let mut i = start;
    assert(digits.take(0) =~= seq![]);
    while i < text.len()
        invariant
            start <= i <= text@.len(),
            start <= 1,
            digits == text@.skip(start as int),
            digits == digits_of(text@),
            forall|x: int| 0 <= x < i - start ==> is_digit(#[trigger] digits[x]),
            value == number_of(digits.take(i - start)),
        decreases text@.len() - i,
    {
        let byte = text[i];
        assert(byte == digits[i - start]);
        if byte < 48 || byte > 57 {
            return None;
        }
        assert(digits.take(i - start + 1).drop_last() =~= digits.take(i - start));
        let next: u32 = value as u32 * 10 + (byte - 48) as u32;
        assert(next == number_of(digits.take(i - start + 1)));
        if next > 65535 {
            proof {
                if forall|x: int| 0 <= x < digits.len() ==> is_digit(#[trigger] digits[x]) {
                    lemma_number_grows(digits, i - start + 1);
                }
            }
            return None;
        }
        value = next as u16;
        i = i + 1;
    }
    assert(digits.take(digits.len() as int) =~= digits);
    if i == start {
        None
    } else {
        Some(value)
    }
}

/// The port to listen on: the one that the setting names, if it names one.
pub fn choose_port(setting: Option<&[u8]>) -> (port: u16)
    ensures
        port == match setting {
            Some(text) => match port_of(text@) {
                Some(p) => p,
                None => DEFAULT_PORT as int,
            },
            None => DEFAULT_PORT as int,
        },
{
    match setting {
        Some(text) => match parse_port(text) {
            Some(p) => p,
            None => DEFAULT_PORT,
        },
        None => DEFAULT_PORT,
    }
}

} // verus!
