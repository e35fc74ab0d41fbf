use blastr::event::NostrEvent;
use blastr::message::{
    admission_step, is_disallowed_kind, should_send_eose, subscription_action, Admission,
    Channel, Observation, PublishedNote, SubscriptionAction,
};
use nostr::event::Event;

const SAMPLE: &str = r#"{"id":"2be17aa3031bdcb006f0fce80c146dea9c1c0268b0af2398bb673365c6444d45","pubkey":"f86c44a2de95d9149b51c6a29afeabba264c18e2fa7c49de93424a0c56947785","created_at":1640839235,"kind":4,"tags":[["p","13adc511de7e1cfcf1c6b7f6365fb5a03442d7bcacf565ea57fa7770912c023d"]],"content":"uRuvYr585B80L6rSJiHocw==?iv=oh6LVqdsYYol3JfFnXTbPA==","sig":"a5d9290ef9659083c490b303eb7ee41356d8778ff19f2f91776c8dc4443388a64ffcf336e61af4c25c05ac3ae952d1ced889ed655b67790891222aaa15b99fdd"}"#;

fn model(e: &Event) -> NostrEvent {
    NostrEvent {
        id: e.id.as_bytes().to_vec(),
        pubkey: e.pubkey.as_bytes().to_vec(),
        created_at: e.created_at.as_secs(),
        kind: e.kind.as_u16(),
        tags: e.tags.iter().map(|t| t.as_slice().to_vec()).collect(),
        content: e.content.clone(),
        sig: e.sig.as_bytes().to_vec(),
    }
}

fn sample() -> NostrEvent {
    model(&Event::from_json(SAMPLE).unwrap())
}

fn reply_of(a: Admission) -> (bool, String) {
    match a {
        Admission::Reply(r) => (r.accepted, r.message),
        _ => panic!("expected a reply"),
    }
}

#[test]
fn valid_event_is_looked_up() {
    let e = sample();
    assert!(matches!(admission_step(Channel::Http, &e, &Observation::Arrived), Admission::CheckPublished));
    assert!(matches!(admission_step(Channel::WebSocket, &e, &Observation::Arrived), Admission::CheckPublished));
}

#[test]
fn forged_event_is_refused_with_the_channel_reason() {
    let mut e = sample();
    e.content = "forged".to_string();
    let http = reply_of(admission_step(Channel::Http, &e, &Observation::Arrived));
    assert_eq!(http, (false, "invalid event".to_string()));
    let ws = reply_of(admission_step(Channel::WebSocket, &e, &Observation::Arrived));
    assert_eq!(ws, (false, "disallowed event kind".to_string()));
}

#[test]
fn published_event_is_refused_not_broadcast() {
    let e = sample();
    for ch in [Channel::Http, Channel::WebSocket] {
        let r = reply_of(admission_step(ch, &e, &Observation::Published(true)));
        assert_eq!(r, (false, "event already published".to_string()));
        assert!(matches!(admission_step(ch, &e, &Observation::Published(false)), Admission::Broadcast));
    }
}

#[test]
fn nwc_event_goes_to_the_store() {
    let mut e = sample();
    e.kind = 23194;
    assert!(matches!(admission_step(Channel::Http, &e, &Observation::Published(false)), Admission::StoreNwc));
    e.kind = 23195;
    assert!(matches!(admission_step(Channel::WebSocket, &e, &Observation::Published(false)), Admission::StoreNwc));
    let ok = reply_of(admission_step(Channel::Http, &e, &Observation::NwcStored(vec![None])));
    assert_eq!(ok, (true, String::new()));
    let bad = reply_of(admission_step(
        Channel::Http,
        &e,
        &Observation::NwcStored(vec![None, Some("no table".to_string())]),
    ));
    assert_eq!(bad, (false, "no table".to_string()));
}

#[test]
fn recording_outcome_reaches_http_clients_only() {
    let e = sample();
    assert_eq!(reply_of(admission_step(Channel::Http, &e, &Observation::Recorded(true))), (true, String::new()));
    assert_eq!(
        reply_of(admission_step(Channel::Http, &e, &Observation::Recorded(false))),
        (false, "error: could not save published note".to_string())
    );
    assert_eq!(reply_of(admission_step(Channel::WebSocket, &e, &Observation::Recorded(false))), (true, String::new()));
}

#[test]
fn replies_name_the_event() {
    let e = sample();
    match admission_step(Channel::Http, &e, &Observation::Published(true)) {
        Admission::Reply(r) => assert_eq!(r.event_id, e.id),
        _ => panic!("expected a reply"),
    }
}

#[test]
fn nip95_kind_is_disallowed() {
    assert!(is_disallowed_kind(1064));
    assert!(!is_disallowed_kind(1));
}

#[test]
fn subscription_actions() {
    assert!(subscription_action(false, true) == SubscriptionAction::StartPolling);
    assert!(subscription_action(true, true) == SubscriptionAction::Nothing);
    assert!(subscription_action(false, false) == SubscriptionAction::SendEose);
    assert!(subscription_action(true, false) == SubscriptionAction::SendEose);
}

#[test]
fn eose_after_new_request_or_new_events() {
    assert!(should_send_eose(true, 3, 3));
    assert!(should_send_eose(false, 2, 3));
    assert!(!should_send_eose(false, 3, 3));
}

#[test]
fn published_note_keeps_its_date() {
    let n = PublishedNote::new("1700000000".to_string());
    assert_eq!(n.date(), "1700000000");
}
