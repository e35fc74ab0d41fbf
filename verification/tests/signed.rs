use blastr::client::{
    filter_from_raw, http_request_action, read_client_message, socket_message_action, ClientRequest,
    HttpAction, RawFilter, SocketAction,
};
use blastr::event::{event_signature_valid, events_equal, NostrEvent, TagRow};
use blastr::message::{admission_step, event_messages, Admission, Channel, Observation};
use blastr::nwc::{
    assemble_nwc_events, delete_nwc_request_target, select_filter_events, tag_insert_values,
};
use blastr::filter::{Filter, WALLET_CONNECT_REQUEST, WALLET_CONNECT_RESPONSE};
use nostr::event::{Event, EventBuilder, FinalizeUnsignedEvent, Kind, Tag};
use nostr::message::ClientMessage;
use nostr::key::Keys;
use nostr::types::Timestamp;

const SECRET: &str = "6b911fd37cdf5c81d4c0adb1ab7fa822ed253ab0ad9aa18d77257c88b29b718e";
const OTHER_SECRET: &str = "7f7ff03d123792d6ac594bfa67bf6d0c0ab55b6b1fdb6249303fe861f1ccba9a";

fn sign(secret: &str, kind: u16, content: &str, tags: Vec<Vec<String>>, at: u64) -> Event {
    let keys = Keys::parse(secret).unwrap();
    let tags: Vec<Tag> = tags.into_iter().map(|t| Tag::parse(t).unwrap()).collect();
    let mut unsigned = EventBuilder::new(Kind::from(kind), content)
        .tags(tags)
        .custom_created_at(Timestamp::from(at))
        .finalize_unsigned(keys.public_key());
    let id = unsigned.id();
    let secp = secp256k1::Secp256k1::new();
    let sig = keys.sign_schnorr_with_aux_rand(&secp, id.as_bytes(), &[7u8; 32]);
    unsigned.add_signature(sig).unwrap()
}

fn model(e: &Event) -> NostrEvent {
    NostrEvent {
        id: e.id.as_bytes().to_vec(),
        pubkey: e.pubkey.as_bytes().to_vec(),
        created_at: e.created_at.as_secs(),
        kind: e.kind.as_u16(),
        tags: e.tags.iter().map(|t| t.as_slice().to_vec()).collect(),
        content: e.content.clone(),
        sig: e.sig.as_bytes().to_vec(),
    }
}

fn reply_of(a: Admission) -> (bool, String) {
    match a {
        Admission::Reply(r) => (r.accepted, r.message),
        _ => panic!("expected a reply"),
    }
}

fn empty_filter() -> Filter {
    Filter {
        ids: None,
        authors: None,
        kinds: None,
        events: None,
        pubkeys: None,
        hashtags: None,
        references: None,
        identifiers: None,
    }
}

#[test]
fn signed_events_check_out() {
    let e = model(&sign(SECRET, 1, "hello", vec![], 1_700_000_000));
    assert!(event_signature_valid(&e));
    let mut forged = model(&sign(SECRET, 1, "hello", vec![], 1_700_000_000));
    forged.pubkey = model(&sign(OTHER_SECRET, 1, "x", vec![], 1)).pubkey;
    assert!(!event_signature_valid(&forged));
}

#[test]
fn file_storage_events_are_refused() {
    let e = model(&sign(SECRET, 1064, "file", vec![], 1_700_000_000));
    for ch in [Channel::Http, Channel::WebSocket] {
        assert_eq!(
            reply_of(admission_step(ch, &e, &Observation::Arrived)),
            (false, "disallowed event kind".to_string())
        );
    }
}

#[test]
fn signed_nwc_request_goes_to_the_store() {
    let wallet = Keys::parse(OTHER_SECRET).unwrap().public_key().to_hex();
    let e = model(&sign(SECRET, 23194, "pay", vec![vec!["p".into(), wallet]], 1_700_000_000));
    assert!(matches!(admission_step(Channel::Http, &e, &Observation::Arrived), Admission::CheckPublished));
    assert!(matches!(admission_step(Channel::Http, &e, &Observation::Published(false)), Admission::StoreNwc));
}

#[test]
fn stored_request_comes_back_from_the_store() {
    let wallet = Keys::parse(OTHER_SECRET).unwrap().public_key().to_hex();
    let full = model(&sign(SECRET, 23194, "pay", vec![vec!["p".into(), wallet.clone()]], 1_700_000_000));
    let mut stored = model(&sign(SECRET, 23194, "pay", vec![vec!["p".into(), wallet.clone()]], 1_700_000_000));
    stored.tags.clear();
    let rows = vec![TagRow { event_id: full.id.clone(), name: "p".into(), value: wallet }];
    let out = assemble_nwc_events(&vec![stored], &rows);
    assert_eq!(out.len(), 1);
    assert_eq!(out[0].tags, full.tags);

    let mut f = empty_filter();
    f.kinds = Some(vec![WALLET_CONNECT_REQUEST]);
    let sent = select_filter_events(&vec![], &out, &vec![], &f);
    assert_eq!(sent.len(), 1);
    let again = select_filter_events(&vec![full.id.clone()], &out, &vec![], &f);
    assert!(again.is_empty());
}

#[test]
fn signed_response_names_its_request() {
    let client = Keys::parse(SECRET).unwrap().public_key();
    let request = sign(SECRET, 23194, "pay", vec![], 1_700_000_000);
    let response = sign(
        OTHER_SECRET,
        WALLET_CONNECT_RESPONSE,
        "paid",
        vec![vec!["p".into(), client.to_hex()], vec!["e".into(), request.id.to_hex()]],
        1_700_000_001,
    );
    let target = delete_nwc_request_target(&model(&response));
    assert_eq!(target, Some((client.as_bytes().to_vec(), request.id.as_bytes().to_vec())));
}

#[test]
fn batch_messages_carry_each_event_in_order() {
    let a = sign(SECRET, 1, "first", vec![vec!["t".into(), "x".into()]], 1_700_000_000);
    let b = sign(OTHER_SECRET, 1, "second", vec![], 1_700_000_005);
    let mut broken = model(&a);
    broken.sig = vec![1, 2, 3];
    let msgs = event_messages(&vec![model(&a), broken, model(&b)]);
    assert_eq!(msgs.len(), 2);
    for (text, expected) in msgs.iter().zip([&a, &b]) {
        match ClientMessage::from_json(text).unwrap() {
            ClientMessage::Event(e) => assert_eq!(e.as_ref(), expected),
            _ => panic!("not an EVENT message"),
        }
    }
    assert!(msgs[0].starts_with("[\"EVENT\","));
    assert!(event_messages(&vec![]).is_empty());
}

fn event_text(e: &Event) -> String {
    ClientMessage::event(e.clone()).as_json()
}

fn raw_filter() -> RawFilter {
    RawFilter { ids: None, authors: None, kinds: None, tags: vec![] }
}

#[test]
fn http_takes_events_and_refuses_the_rest() {
    let e = sign(SECRET, 1, "hello", vec![vec!["t".into(), "x".into()]], 1_700_000_000);
    match http_request_action(&event_text(&e)) {
        HttpAction::Admit(m) => assert!(events_equal(&m, &model(&e))),
        _ => panic!("expected the event"),
    }
    assert!(matches!(
        http_request_action(r#"["REQ","sub",{"kinds":[23194]}]"#),
        HttpAction::OnlyEvents
    ));
    assert!(matches!(http_request_action(r#"["CLOSE","sub"]"#), HttpAction::OnlyEvents));
    assert!(matches!(http_request_action("not json"), HttpAction::Unparsable));
    assert!(matches!(http_request_action(r#"["EVENT",{"id":"00"}]"#), HttpAction::Unparsable));
    // a request whose #e value is no event id is not read
    assert!(matches!(http_request_action(r##"["REQ","s",{"#e":["zz"]}]"##), HttpAction::Unparsable));
}

#[test]
fn websocket_subscribes_with_decoded_filters() {
    let id = "ab".repeat(32);
    let key = Keys::parse(SECRET).unwrap().public_key().to_hex();
    let text = format!(
        r##"["REQ","sub-1",{{"kinds":[23194,23195],"#e":["{id}"],"#p":["{key}"],"#t":["x"]}},{{"authors":["{key}"]}}]"##
    );
    match socket_message_action(&text) {
        SocketAction::Subscribe { subscription_id, filters } => {
            assert_eq!(subscription_id, "sub-1");
            assert_eq!(filters.len(), 2);
            let f = &filters[0];
            assert_eq!(f.kinds, Some(vec![23194, 23195]));
            assert_eq!(f.events, Some(vec![vec![0xabu8; 32]]));
            assert_eq!(f.pubkeys.as_ref().map(|v| v.len()), Some(1));
            assert_eq!(f.hashtags, Some(vec!["x".to_string()]));
            assert_eq!(f.ids, None);
            assert_eq!(filters[1].authors.as_ref().map(|v| v.len()), Some(1));
            assert_eq!(filters[1].events, None);
        }
        _ => panic!("expected a subscription"),
    }
    let e = sign(SECRET, 1, "hi", vec![], 1_700_000_000);
    assert!(matches!(socket_message_action(&event_text(&e)), SocketAction::Admit(m) if events_equal(&m, &model(&e))));
    assert!(matches!(socket_message_action(r#"["CLOSE","sub"]"#), SocketAction::Ignore));
    assert!(matches!(socket_message_action("{"), SocketAction::Ignore));
    assert!(matches!(socket_message_action(r##"["REQ","s",{"#p":["nope"]}]"##), SocketAction::Ignore));
    assert!(matches!(read_client_message(r#"["CLOSE","sub"]"#), Some(ClientRequest::Other)));
}

#[test]
fn raw_filters_decode_their_hex_queries() {
    let mut r = raw_filter();
    r.tags = vec![
        ('E', vec!["not a hex id".into()]),
        ('e', vec!["01".repeat(32), "02".repeat(32)]),
        ('t', vec!["nwc".into()]),
    ];
    let f = filter_from_raw(r).expect("valid ids");
    assert_eq!(f.events, Some(vec![vec![1u8; 32], vec![2u8; 32]]));
    assert_eq!(f.hashtags, Some(vec!["nwc".to_string()]));
    assert_eq!(f.pubkeys, None);

    let mut bad = raw_filter();
    bad.tags = vec![('e', vec!["01".repeat(32), "xyz".into()])];
    assert!(filter_from_raw(bad).is_none());
    let mut bad_key = raw_filter();
    bad_key.tags = vec![('p', vec!["01".repeat(31)])];
    assert!(filter_from_raw(bad_key).is_none());
    assert!(filter_from_raw(raw_filter()).is_some());
}

#[test]
fn stored_nwc_event_reads_back_unchanged() {
    let wallet = Keys::parse(OTHER_SECRET).unwrap().public_key().to_hex();
    let e = sign(
        SECRET,
        WALLET_CONNECT_REQUEST,
        "pay",
        vec![vec!["p".into(), wallet], vec!["t".into(), "x".into()]],
        1_700_000_000,
    );
    let m = model(&e);
    let rows: Vec<TagRow> = tag_insert_values(&m)
        .into_iter()
        .map(|(name, value)| TagRow { event_id: m.id.clone(), name, value: value.unwrap() })
        .collect();
    let mut stored = model(&e);
    stored.tags.clear();
    let other = model(&sign(OTHER_SECRET, WALLET_CONNECT_REQUEST, "x", vec![], 1));
    let out = assemble_nwc_events(&vec![other, stored], &rows);
    assert!(out.iter().any(|x| events_equal(x, &m)));
}
