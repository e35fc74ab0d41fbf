use blastr::event::{
    bytes_equal, bytes_lex_less, copy_event, event_signature_valid, events_equal, parse_tag,
    tag_event_reference, tag_public_key_reference, NostrEvent,
};
use nostr::event::Event;

const SAMPLE: &str = r#"{"id":"2be17aa3031bdcb006f0fce80c146dea9c1c0268b0af2398bb673365c6444d45","pubkey":"f86c44a2de95d9149b51c6a29afeabba264c18e2fa7c49de93424a0c56947785","created_at":1640839235,"kind":4,"tags":[["p","13adc511de7e1cfcf1c6b7f6365fb5a03442d7bcacf565ea57fa7770912c023d"]],"content":"uRuvYr585B80L6rSJiHocw==?iv=oh6LVqdsYYol3JfFnXTbPA==","sig":"a5d9290ef9659083c490b303eb7ee41356d8778ff19f2f91776c8dc4443388a64ffcf336e61af4c25c05ac3ae952d1ced889ed655b67790891222aaa15b99fdd"}"#;

fn model(e: &Event) -> NostrEvent {
    NostrEvent {
        id: e.id.as_bytes().to_vec(),
        pubkey: e.pubkey.as_bytes().to_vec(),
        created_at: e.created_at.as_secs(),
        kind: e.kind.as_u16(),
        tags: e.tags.iter().map(|t| t.as_slice().to_vec()).collect(),
        content: e.content.clone(),
        sig: e.sig.as_bytes().to_vec(),
    }
}

fn hex(b: &[u8]) -> String {
    b.iter().map(|x| format!("{x:02x}")).collect()
}

fn s(x: &str) -> String {
    x.to_string()
}

#[test]
fn bytes_equal_and_lex_order() {
    assert!(bytes_equal(&vec![1, 2, 3], &vec![1, 2, 3]));
    assert!(!bytes_equal(&vec![1, 2, 3], &vec![1, 2]));
    assert!(!bytes_equal(&vec![1, 2, 3], &vec![1, 2, 4]));
    assert!(bytes_lex_less(&vec![1, 2, 3], &vec![1, 2, 4]));
    assert!(!bytes_lex_less(&vec![1, 2, 4], &vec![1, 2, 3]));
    assert!(bytes_lex_less(&vec![1, 2], &vec![1, 2, 0]));
    assert!(!bytes_lex_less(&vec![1, 2], &vec![1, 2]));
    assert!(bytes_lex_less(&vec![0, 255], &vec![1, 0]));
}

#[test]
fn sample_event_checks_out() {
    let e = Event::from_json(SAMPLE).unwrap();
    let m = model(&e);
    assert!(event_signature_valid(&m));
}

#[test]
fn tampered_event_does_not_check_out() {
    let e = Event::from_json(SAMPLE).unwrap();
    let mut m = model(&e);
    m.content.push('!');
    assert!(!event_signature_valid(&m));
    let mut m = model(&e);
    m.created_at += 1;
    assert!(!event_signature_valid(&m));
    let mut m = model(&e);
    m.tags.clear();
    assert!(!event_signature_valid(&m));
    let mut m = model(&e);
    m.sig[0] ^= 1;
    assert!(!event_signature_valid(&m));
    let mut m = model(&e);
    m.id.truncate(10);
    assert!(!event_signature_valid(&m));
}

#[test]
fn events_equal_compares_every_field() {
    let e = Event::from_json(SAMPLE).unwrap();
    let a = model(&e);
    let b = copy_event(&a);
    assert!(events_equal(&a, &b));
    let mut c = copy_event(&a);
    c.kind = 5;
    assert!(!events_equal(&a, &c));
    let mut d = copy_event(&a);
    d.tags[0][1].push('0');
    assert!(!events_equal(&a, &d));
}

#[test]
fn tag_references_read_e_and_p_tags() {
    let id = vec![0xabu8; 32];
    let e_tag = vec![s("e"), hex(&id)];
    assert_eq!(tag_event_reference(&e_tag), Some(id.clone()));
    assert_eq!(tag_public_key_reference(&e_tag), None);

    let e_with_relay = vec![s("e"), hex(&id), s("wss://relay.example"), s("")];
    assert_eq!(tag_event_reference(&e_with_relay), Some(id.clone()));

    // NIP-10 marked references are read too
    let reply = vec![s("e"), hex(&id), s(""), s("reply")];
    assert_eq!(tag_event_reference(&reply), Some(id.clone()));
    let root = vec![s("e"), hex(&id), s("wss://relay.example"), s("root")];
    assert_eq!(tag_event_reference(&root), Some(id.clone()));
    let mention = vec![s("e"), hex(&id), s(""), s("mention")];
    assert_eq!(tag_event_reference(&mention), Some(id.clone()));

    assert_eq!(tag_event_reference(&vec![s("e"), s("zz")]), None);
    assert_eq!(tag_event_reference(&vec![s("e")]), None);
    assert_eq!(tag_event_reference(&vec![s("t"), hex(&id)]), None);

    let sample = Event::from_json(SAMPLE).unwrap();
    let p = sample.tags[0].as_slice().to_vec();
    let key = tag_public_key_reference(&p).expect("a p tag");
    assert_eq!(hex(&key), "13adc511de7e1cfcf1c6b7f6365fb5a03442d7bcacf565ea57fa7770912c023d");
    assert_eq!(tag_event_reference(&p), None);
}

#[test]
fn parse_tag_keeps_name_and_value() {
    assert_eq!(parse_tag(&s("p"), &s("abc")), Some(vec![s("p"), s("abc")]));
    assert_eq!(parse_tag(&s(""), &s("")), Some(vec![s(""), s("")]));
}
