//! What the relay answers clients, and the decisions of its request handlers.

use vstd::prelude::*;
use crate::event::{
    NostrEvent, NostrEventView, copy_bytes, event_signature_valid, events_view, nostr_event_verifies,
    string_views,
};
use nostr::event::{Event, EventId, Kind, Signature, Tag};
use nostr::key::PublicKey;
use nostr::message::ClientMessage;
use nostr::types::Timestamp;
use crate::nwc::{
    is_nwc_kind, is_nwc_kind_spec, nwc_store_reply, store_reply_spec, outcomes_view,
    first_error_is_first_failure,
};

verus! {

/// An `OK` answer to a client about one event: whether the relay took the
/// event, and why not.
pub struct OkReply {
    /// The 32-byte id of the event the answer is about.
    pub event_id: Vec<u8>,
    /// Whether the event was taken.
    pub accepted: bool,
    /// The reason given (empty when taken).
    pub message: String,
}

/// The mathematical value of an `OK` answer.
pub struct OkReplyView {
    pub event_id: Seq<u8>,
    pub accepted: bool,
    pub message: Seq<char>,
}

impl View for OkReply {
    type V = OkReplyView;

    open spec fn view(&self) -> OkReplyView {
        OkReplyView { event_id: self.event_id@, accepted: self.accepted, message: self.message@ }
    }
}


/// The record kept of a published event: when it was published.
pub struct PublishedNote {
    date: String,
}

impl PublishedNote {
    /// The date the note holds.
    pub closed spec fn date_spec(&self) -> Seq<char> {
        self.date@
    }

    /// A note of publication at `date`.
    pub fn new(date: String) -> (note: PublishedNote)
        ensures
            note.date_spec() == date@,
    {
        PublishedNote { date }
    }

    /// The date of publication.
    pub fn date(&self) -> (date: &String)
        ensures
            date@ == self.date_spec(),
    {
        &self.date
    }
}

/// The kind of NIP-95 file storage events, which the relay refuses.
pub const DISALLOWED_EVENT_KIND: u16 = 1064;

pub const INVALID_EVENT: &'static str = "invalid event";
pub const DISALLOWED_KIND: &'static str = "disallowed event kind";
pub const ALREADY_PUBLISHED: &'static str = "event already published";
pub const NOT_SAVED: &'static str = "error: could not save published note";

/// Whether events of this kind are refused.
pub fn is_disallowed_kind(kind: u16) -> (res: bool)
    ensures
        res == (kind == DISALLOWED_EVENT_KIND),
{
    kind == DISALLOWED_EVENT_KIND
}

/// How a client handed the relay an event.
#[derive(Clone, Copy, PartialEq, Eq, Structural)]
pub enum Channel {
    /// A POST of a client message to `/event`.
    Http,
    /// A client message on a websocket connection.
    WebSocket,
}

/// What the relay learnt at the last step of taking in a client's event.
pub enum Observation {
    /// The event has just arrived.
    Arrived,
    /// Whether the event is recorded as published already.
    Published(bool),
    /// The error (if any) of each statement that wrote the event to the
    /// wallet connect store.
    NwcStored(Vec<Option<String>>),
    /// Whether the event could be recorded as published after it was queued.
    Recorded(bool),
}

/// What the relay does next with a client's event.
pub enum Admission {
    /// Look up whether the event was published before.
    CheckPublished,
    /// Write the event to the wallet connect store.
    StoreNwc,
    /// Put the event on every queue, then record it as published.
    Broadcast,
    /// Answer the client; the event is done with.
    Reply(OkReply),
}

/// The mathematical value of an observation.
pub enum ObservationView {
    Arrived,
    Published(bool),
    NwcStored(Seq<Option<Seq<char>>>),
    Recorded(bool),
}

/// The mathematical value of a next step.
pub enum AdmissionView {
    CheckPublished,
    StoreNwc,
    Broadcast,
    Reply(OkReplyView),
}

impl View for Observation {
    type V = ObservationView;

    open spec fn view(&self) -> ObservationView {
        match self {
            Observation::Arrived => ObservationView::Arrived,
            Observation::Published(b) => ObservationView::Published(*b),
            Observation::NwcStored(o) => ObservationView::NwcStored(outcomes_view(o@)),
            Observation::Recorded(b) => ObservationView::Recorded(*b),
        }
    }
}

impl View for Admission {
    type V = AdmissionView;

    open spec fn view(&self) -> AdmissionView {
        match self {
            Admission::CheckPublished => AdmissionView::CheckPublished,
            Admission::StoreNwc => AdmissionView::StoreNwc,
            Admission::Broadcast => AdmissionView::Broadcast,
            Admission::Reply(r) => AdmissionView::Reply(r@),
        }
    }
}

/// A refusal of the event with the given reason.
pub open spec fn refusal(event_id: Seq<u8>, message: Seq<char>) -> AdmissionView {
    AdmissionView::Reply(OkReplyView { event_id, accepted: false, message })
}

/// The reason a client is given for an event whose id or signature does not
/// check out (the websocket handler gives the kind refusal's reason).
pub open spec fn invalid_event_message(channel: Channel) -> Seq<char> {
    match channel {
        Channel::Http => INVALID_EVENT@,
        Channel::WebSocket => DISALLOWED_KIND@,
    }
}

/// The next step with a client's event after an observation:
/// - on arrival, an event whose id or signature does not check out is
///   refused, an event of the refused kind is refused, any other is looked up;
/// - an event published already is refused, a wallet connect event goes to
///   the store, any other is broadcast;
/// - after the store write the client is answered as the write went;
/// - after the broadcast the client is told the event was taken, except on
///   HTTP when it could not be recorded as published.
pub open spec fn admission_spec(channel: Channel, event: NostrEventView, obs: ObservationView) -> AdmissionView {
    match obs {
        ObservationView::Arrived => if !nostr_event_verifies(event) {
            refusal(event.id, invalid_event_message(channel))
        } else if event.kind == DISALLOWED_EVENT_KIND {
            refusal(event.id, DISALLOWED_KIND@)
        } else {
            AdmissionView::CheckPublished
        },
        ObservationView::Published(already) => if already {
            refusal(event.id, ALREADY_PUBLISHED@)
        } else if is_nwc_kind_spec(event.kind) {
            AdmissionView::StoreNwc
        } else {
            AdmissionView::Broadcast
        },
        ObservationView::NwcStored(outcomes) => AdmissionView::Reply(
            store_reply_spec(event.id, outcomes),
        ),
        ObservationView::Recorded(saved) => if channel == Channel::Http && !saved {
            refusal(event.id, NOT_SAVED@)
        } else {
            AdmissionView::Reply(OkReplyView { event_id: event.id, accepted: true, message: Seq::empty() })
        },
    }
}

fn reply(event: &NostrEvent, accepted: bool, message: &str) -> (res: Admission)
    ensures
        res@ == AdmissionView::Reply(OkReplyView { event_id: event@.id, accepted, message: message@ }),
{
    Admission::Reply(OkReply { event_id: copy_bytes(&event.id), accepted, message: message.to_owned() })
}

/// The next step with a client's event after an observation.
pub fn admission_step(channel: Channel, event: &NostrEvent, obs: &Observation) -> (res: Admission)
    ensures
        res@ == admission_spec(channel, event@, obs@),
{
    match obs {
        Observation::Arrived => {
            if !event_signature_valid(event) {
                match channel {
                    Channel::Http => reply(event, false, INVALID_EVENT),
                    Channel::WebSocket => reply(event, false, DISALLOWED_KIND),
                }
            } else if is_disallowed_kind(event.kind) {
                reply(event, false, DISALLOWED_KIND)
            } else {
                Admission::CheckPublished
            }
        },
        Observation::Published(already) => {
            if *already {
                reply(event, false, ALREADY_PUBLISHED)
            } else if is_nwc_kind(event.kind) {
                Admission::StoreNwc
            } else {
                Admission::Broadcast
            }
        },
        Observation::NwcStored(outcomes) => Admission::Reply(nwc_store_reply(&event.id, outcomes)),
        Observation::Recorded(saved) => {
            if channel == Channel::Http && !*saved {
                reply(event, false, NOT_SAVED)
            } else {
                Admission::Reply(
                    OkReply { event_id: copy_bytes(&event.id), accepted: true, message: String::new() },
                )
            }
        },
    }
}

/// An event found already published is refused, never broadcast again.
pub proof fn published_events_are_not_rebroadcast(channel: Channel, event: NostrEventView)
    ensures
        admission_spec(channel, event, ObservationView::Published(true)) == refusal(
            event.id,
            ALREADY_PUBLISHED@,
        ),
{
}

/// Wallet connect events are never broadcast, whatever the relay observed:
/// they are kept in the store for the subscribers that ask for them.
pub proof fn nwc_events_are_never_broadcast(channel: Channel, event: NostrEventView, obs: ObservationView)
    requires
        is_nwc_kind_spec(event.kind),
    ensures
        admission_spec(channel, event, obs) != AdmissionView::Broadcast,
{
}

/// An event is broadcast only when it was found not yet published and is not
/// wallet connect traffic; the lookup is only asked for an event that checks
/// out and is of an allowed kind.
pub proof fn broadcast_needs_fresh_allowed_event(channel: Channel, event: NostrEventView, obs: ObservationView)
    ensures
        admission_spec(channel, event, obs) == AdmissionView::Broadcast <==> (obs
            == ObservationView::Published(false) && !is_nwc_kind_spec(event.kind)),
        admission_spec(channel, event, obs) == AdmissionView::CheckPublished <==> (obs
            == ObservationView::Arrived && nostr_event_verifies(event) && event.kind
            != DISALLOWED_EVENT_KIND),
{
}

/// After the broadcast of an event whose published note was saved, the client
/// is told, on either channel, that its event was taken, with no reason.
pub proof fn saved_broadcast_is_accepted(channel: Channel, event: NostrEventView)
    ensures
        admission_spec(channel, event, ObservationView::Recorded(true)) == AdmissionView::Reply(
            OkReplyView { event_id: event.id, accepted: true, message: Seq::empty() },
        ),
{
}

/// After a broadcast whose published note could not be saved, a websocket
/// client is still told its event was taken, while an HTTP client is told it
/// could not be saved.
pub proof fn unsaved_broadcast_answers(event: NostrEventView)
    ensures
        admission_spec(Channel::WebSocket, event, ObservationView::Recorded(false))
            == AdmissionView::Reply(
            OkReplyView { event_id: event.id, accepted: true, message: Seq::empty() },
        ),
        admission_spec(Channel::Http, event, ObservationView::Recorded(false))
            == AdmissionView::Reply(
            OkReplyView { event_id: event.id, accepted: false, message: NOT_SAVED@ },
        ),
{
}

/// On arrival, an event whose id or signature does not check out is refused,
/// and so is a checked event of the refused kind; every refusal names the
/// event, and an arrival is never answered with acceptance.
pub proof fn arrivals_are_refused_or_looked_up(channel: Channel, event: NostrEventView)
    ensures
        !nostr_event_verifies(event) ==> admission_spec(channel, event, ObservationView::Arrived)
            == AdmissionView::Reply(
            OkReplyView {
                event_id: event.id,
                accepted: false,
                message: if channel == Channel::Http { INVALID_EVENT@ } else { DISALLOWED_KIND@ },
            },
        ),
        nostr_event_verifies(event) && event.kind == DISALLOWED_EVENT_KIND ==> admission_spec(
            channel,
            event,
            ObservationView::Arrived,
        ) == AdmissionView::Reply(
            OkReplyView { event_id: event.id, accepted: false, message: DISALLOWED_KIND@ },
        ),
        nostr_event_verifies(event) && event.kind != DISALLOWED_EVENT_KIND ==> admission_spec(
            channel,
            event,
            ObservationView::Arrived,
        ) == AdmissionView::CheckPublished,
{
}

/// An event found not yet published goes to the store when it is a wallet
/// connect request or response, and is broadcast otherwise, on either channel.
pub proof fn fresh_events_are_stored_or_broadcast(channel: Channel, event: NostrEventView)
    ensures
        event.kind == 23194 || event.kind == 23195 ==> admission_spec(
            channel,
            event,
            ObservationView::Published(false),
        ) == AdmissionView::StoreNwc,
        event.kind != 23194 && event.kind != 23195 ==> admission_spec(
            channel,
            event,
            ObservationView::Published(false),
        ) == AdmissionView::Broadcast,
{
}

/// After a store write, the client is told its event was taken exactly when
/// no statement failed; otherwise it is refused with the error of the first
/// statement that failed.
pub proof fn store_write_answers(channel: Channel, event: NostrEventView, outcomes: Seq<Option<Seq<char>>>)
    ensures
        (forall|i: int| 0 <= i < outcomes.len() ==> #[trigger] outcomes[i] is None) ==> admission_spec(
            channel,
            event,
            ObservationView::NwcStored(outcomes),
        ) == AdmissionView::Reply(
            OkReplyView { event_id: event.id, accepted: true, message: Seq::empty() },
        ),
        forall|i: int|
            0 <= i < outcomes.len() && #[trigger] outcomes[i] is Some && (forall|j: int|
                0 <= j < i ==> outcomes[j] is None) ==> admission_spec(
                channel,
                event,
                ObservationView::NwcStored(outcomes),
            ) == AdmissionView::Reply(
                OkReplyView { event_id: event.id, accepted: false, message: outcomes[i]->0 },
            ),
{
    first_error_is_first_failure(outcomes);
}

/// What a connection does after a subscription request.
#[derive(Clone, Copy, PartialEq, Eq, Structural)]
pub enum SubscriptionAction {
    /// Start the connection's poll of the wallet connect store.
    StartPolling,
    /// Answer at once that there are no stored events (`EOSE`).
    SendEose,
    /// Nothing: the running poll picks up the merged filter.
    Nothing,
}

/// What a connection does after a subscription request, given whether its
/// poll is running already and whether the request had a wallet connect filter.
pub fn subscription_action(polling: bool, any_nwc: bool) -> (res: SubscriptionAction)
    ensures
        res == (if !polling && any_nwc {
            SubscriptionAction::StartPolling
        } else if !any_nwc {
            SubscriptionAction::SendEose
        } else {
            SubscriptionAction::Nothing
        }),
{
    if !polling && any_nwc {
        SubscriptionAction::StartPolling
    } else if !any_nwc {
        SubscriptionAction::SendEose
    } else {
        SubscriptionAction::Nothing
    }
}

/// Whether a poll ends with an `EOSE`: after a new subscription request, or
/// when the number of events sent changed since the last `EOSE`.
pub fn should_send_eose(new_request: bool, count_at_last_eose: usize, sent_count: usize) -> (res: bool)
    ensures
        res == (new_request || count_at_last_eose != sent_count),
{
    new_request || count_at_last_eose != sent_count
}

/// The JSON text of the client message `["EVENT", <event>]` that publishes an
/// event upstream, when the event's bytes form a nostr event.
pub uninterp spec fn nostr_client_event_json(event: NostrEventView) -> Option<Seq<char>>;

/// The text of a string that may be missing.
pub open spec fn opt_string_view(o: Option<String>) -> Option<Seq<char>> {
    match o {
        Some(s) => Some(s@),
        None => None,
    }
}

/// The client message that publishes `event`. Builds the nostr library's
/// `Event` from the event's fields (`EventId::from_slice`,
/// `PublicKey::from_slice`, `Signature::from_slice`, `Tag::parse`,
/// `Event::new`) and serialises `ClientMessage::event` of it with
/// `try_as_json`. The text is named, not stated; bytes that do not form an
/// id, key, signature or tag, or a failed serialisation, give `None`.
#[verifier::external_body]
fn client_event_message(event: &NostrEvent) -> (res: Option<String>)
    ensures
        opt_string_view(res) == nostr_client_event_json(event@),
{
    let tags: Vec<Tag> = event.tags.iter().map(|t| Tag::parse(t.iter())).collect::<Result<_, _>>().ok()?;
    let id = EventId::from_slice(&event.id).ok()?;
    let author = PublicKey::from_slice(&event.pubkey).ok()?;
    let sig = Signature::from_slice(&event.sig).ok()?;
    let time = Timestamp::from(event.created_at);
    let e = Event::new(id, author, time, Kind::from(event.kind), tags, event.content.clone(), sig);
    ClientMessage::event(e).try_as_json().ok()
}

/// The messages that publish a batch upstream: one per event, in order, for
/// the events that form nostr events.
pub open spec fn client_event_messages(events: Seq<NostrEventView>) -> Seq<Seq<char>>
    decreases events.len(),
{
    if events.len() == 0 {
        Seq::empty()
    } else {
        let rest = client_event_messages(events.drop_last());
        match nostr_client_event_json(events.last()) {
            Some(m) => rest.push(m),
            None => rest,
        }
    }
}

/// The messages of a batch are the batch's events' messages in the batch's
/// order: one per event when every event has one, and events without one
/// are left out.
pub proof fn event_messages_follow_the_batch(events: Seq<NostrEventView>)
    ensures
        client_event_messages(events).len() <= events.len(),
        (forall|k: int| 0 <= k < events.len() ==> #[trigger] nostr_client_event_json(events[k]) is Some)
            ==> client_event_messages(events).len() == events.len() && forall|k: int|
            0 <= k < events.len() ==> Some(#[trigger] client_event_messages(events)[k])
                == nostr_client_event_json(events[k]),
        (forall|k: int| 0 <= k < events.len() ==> #[trigger] nostr_client_event_json(events[k]) is None)
            ==> client_event_messages(events).len() == 0,
    decreases events.len(),
{
    if events.len() > 0 {
        let d = events.drop_last();
        event_messages_follow_the_batch(d);
        assert forall|k: int| 0 <= k < d.len() implies d[k] == events[k] by {}
        if forall|k: int| 0 <= k < events.len() ==> #[trigger] nostr_client_event_json(events[k]) is Some {
            assert forall|k: int| 0 <= k < d.len() implies #[trigger] nostr_client_event_json(d[k]) is Some by {
                assert(nostr_client_event_json(events[k]) is Some);
            }
            assert(nostr_client_event_json(events[events.len() - 1]) is Some);
            let m = client_event_messages(events);
            assert forall|k: int| 0 <= k < events.len() implies Some(#[trigger] m[k]) == nostr_client_event_json(events[k]) by {
                if k < d.len() {
                    assert(m[k] == client_event_messages(d)[k]);
                    assert(Some(client_event_messages(d)[k]) == nostr_client_event_json(d[k]));
                }
            }
        }
        if forall|k: int| 0 <= k < events.len() ==> #[trigger] nostr_client_event_json(events[k]) is None {
            assert forall|k: int| 0 <= k < d.len() implies #[trigger] nostr_client_event_json(d[k]) is None by {
                assert(nostr_client_event_json(events[k]) is None);
            }
            assert(nostr_client_event_json(events[events.len() - 1]) is None);
        }
    }
}

/// The messages that publish a batch of events upstream, in the batch's order.
pub fn event_messages(events: &Vec<NostrEvent>) -> (res: Vec<String>)
    ensures
        string_views(res@) == client_event_messages(events_view(events@)),
{
    let mut res: Vec<String> = Vec::new();
    let mut i: usize = 0;
    proof {
        assert(events_view(events@).take(0) =~= Seq::<NostrEventView>::empty());
        assert(string_views(res@) =~= Seq::<Seq<char>>::empty());
    }
    while i < events.len()
        invariant
            i <= events.len(),
            string_views(res@) == client_event_messages(events_view(events@).take(i as int)),
        decreases events.len() - i,
    {
        let ghost s = events_view(events@).take(i + 1);
        assert(s.drop_last() =~= events_view(events@).take(i as int));
        assert(s.last() == events@[i as int]@);
        let m = client_event_message(&events[i]);
        if let Some(text) = m {
            let ghost prev = res@;
            let ghost t = text@;
            res.push(text);
            assert(string_views(res@) =~= string_views(prev).push(t));
        }
        i = i + 1;
    }
    assert(events_view(events@).take(events.len() as int) =~= events_view(events@));
    res
}

} // verus!
