use blastr::event::{NostrEvent, TagRow};
use blastr::filter::{Filter, WALLET_CONNECT_REQUEST, WALLET_CONNECT_RESPONSE};
use blastr::nwc::{
    assemble_nwc_events, attach_tags, batch_events, delete_nwc_request_target,
    delete_nwc_response_target, event_ids, is_nwc_kind, nwc_event_query, nwc_store_reply,
    nwc_tag_query, retain_verified, select_filter_events, sql_placeholders, tag_insert_values,
};
use nostr::event::Event;

const SAMPLE: &str = r#"{"id":"2be17aa3031bdcb006f0fce80c146dea9c1c0268b0af2398bb673365c6444d45","pubkey":"f86c44a2de95d9149b51c6a29afeabba264c18e2fa7c49de93424a0c56947785","created_at":1640839235,"kind":4,"tags":[["p","13adc511de7e1cfcf1c6b7f6365fb5a03442d7bcacf565ea57fa7770912c023d"]],"content":"uRuvYr585B80L6rSJiHocw==?iv=oh6LVqdsYYol3JfFnXTbPA==","sig":"a5d9290ef9659083c490b303eb7ee41356d8778ff19f2f91776c8dc4443388a64ffcf336e61af4c25c05ac3ae952d1ced889ed655b67790891222aaa15b99fdd"}"#;

fn model(e: &Event) -> NostrEvent {
    NostrEvent {
        id: e.id.as_bytes().to_vec(),
        pubkey: e.pubkey.as_bytes().to_vec(),
        created_at: e.created_at.as_secs(),
        kind: e.kind.as_u16(),
        tags: e.tags.iter().map(|t| t.as_slice().to_vec()).collect(),
        content: e.content.clone(),
        sig: e.sig.as_bytes().to_vec(),
    }
}

fn s(x: &str) -> String {
    x.to_string()
}

fn hex(b: &[u8]) -> String {
    b.iter().map(|x| format!("{x:02x}")).collect()
}

fn ev(id: u8, created_at: u64, kind: u16, tags: Vec<Vec<String>>) -> NostrEvent {
    NostrEvent {
        id: vec![id; 32],
        pubkey: vec![7; 32],
        created_at,
        kind,
        tags,
        content: format!("content {id}"),
        sig: vec![0; 64],
    }
}

fn ids(v: &[NostrEvent]) -> Vec<u8> {
    v.iter().map(|e| e.id[0]).collect()
}

fn empty_filter() -> Filter {
    Filter {
        ids: None,
        authors: None,
        kinds: None,
        events: None,
        pubkeys: None,
        hashtags: None,
        references: None,
        identifiers: None,
    }
}

#[test]
fn nwc_kinds_are_request_and_response() {
    assert!(is_nwc_kind(23194));
    assert!(is_nwc_kind(23195));
    assert!(!is_nwc_kind(23196));
    assert!(!is_nwc_kind(1));
    assert_eq!(WALLET_CONNECT_REQUEST, nostr::event::Kind::WalletConnectRequest.as_u16());
    assert_eq!(WALLET_CONNECT_RESPONSE, nostr::event::Kind::WalletConnectResponse.as_u16());
}

#[test]
fn sql_texts() {
    assert_eq!(sql_placeholders(0), "");
    assert_eq!(sql_placeholders(1), "?");
    assert_eq!(sql_placeholders(3), "?, ?, ?");
    assert_eq!(
        nwc_event_query(2),
        "SELECT * FROM event WHERE pubkey IN (?, ?) AND kind = ? AND deleted = 0"
    );
    assert_eq!(
        nwc_tag_query(1),
        "SELECT event_id, name, value FROM tag WHERE event_id IN (?) ORDER BY id ASC"
    );
}

#[test]
fn attach_tags_gives_each_event_its_rows_in_order() {
    let a = ev(1, 10, 23194, vec![vec![s("x"), s("own")]]);
    let b = ev(2, 11, 23195, vec![]);
    let a_again = ev(1, 12, 23194, vec![]);
    let rows = vec![
        TagRow { event_id: vec![2; 32], name: s("p"), value: s("b1") },
        TagRow { event_id: vec![1; 32], name: s("e"), value: s("a1") },
        TagRow { event_id: vec![9; 32], name: s("p"), value: s("none") },
        TagRow { event_id: vec![1; 32], name: s("p"), value: s("a2") },
    ];
    let out = attach_tags(&vec![a, b, a_again], &rows);
    assert_eq!(out.len(), 3);
    assert_eq!(
        out[0].tags,
        vec![vec![s("x"), s("own")], vec![s("e"), s("a1")], vec![s("p"), s("a2")]]
    );
    assert_eq!(out[1].tags, vec![vec![s("p"), s("b1")]]);
    // the second event with an already seen id gets no rows
    assert!(out[2].tags.is_empty());
    assert_eq!(out[2].created_at, 12);
}

#[test]
fn assemble_restores_tags_and_keeps_events_that_check_out() {
    let e = Event::from_json(SAMPLE).unwrap();
    let full = model(&e);
    let mut stored = model(&e);
    stored.tags.clear();
    let rows = vec![TagRow {
        event_id: full.id.clone(),
        name: full.tags[0][0].clone(),
        value: full.tags[0][1].clone(),
    }];
    let out = assemble_nwc_events(&vec![stored.clone_like()], &rows);
    assert_eq!(out.len(), 1);
    assert_eq!(out[0].tags, full.tags);
    // without its tag the stored event no longer checks out
    assert!(assemble_nwc_events(&vec![stored], &vec![]).is_empty());
}

#[test]
fn retain_verified_drops_forged_events() {
    let e = Event::from_json(SAMPLE).unwrap();
    let good = model(&e);
    let mut bad = model(&e);
    bad.content = s("forged");
    let out = retain_verified(&vec![bad, good.clone_like(), ev(3, 1, 1, vec![])]);
    assert_eq!(out.len(), 1);
    assert_eq!(out[0].content, good.content);
}

#[test]
fn store_reply_reports_the_first_error() {
    let id = vec![4u8; 32];
    let ok = nwc_store_reply(&id, &vec![None, None]);
    assert!(ok.accepted);
    assert_eq!(ok.message, "");
    assert_eq!(ok.event_id, id);
    let bad = nwc_store_reply(&id, &vec![None, Some(s("tag failed")), Some(s("later"))]);
    assert!(!bad.accepted);
    assert_eq!(bad.message, "tag failed");
    let first = nwc_store_reply(&id, &vec![Some(s("event failed")), Some(s("tag failed"))]);
    assert_eq!(first.message, "event failed");
}

#[test]
fn tag_insert_values_are_name_and_first_value() {
    let e = ev(1, 1, 23194, vec![vec![s("p"), s("k")], vec![s("x")], vec![s("e"), s("a"), s("b")]]);
    assert_eq!(
        tag_insert_values(&e),
        vec![(s("p"), Some(s("k"))), (s("x"), None), (s("e"), Some(s("a")))]
    );
}

#[test]
fn response_deletes_the_request_it_names() {
    let author = vec![0x11u8; 32];
    let request = vec![0x22u8; 32];
    let e = ev(
        1,
        1,
        WALLET_CONNECT_RESPONSE,
        vec![
            vec![s("t"), s("x")],
            vec![s("p"), hex(&author)],
            vec![s("e"), hex(&request)],
            vec![s("p"), hex(&[0x33u8; 32])],
        ],
    );
    assert_eq!(delete_nwc_request_target(&e), Some((author.clone(), request.clone())));

    let mut req = ev(1, 1, WALLET_CONNECT_REQUEST, e.tags.clone());
    assert_eq!(delete_nwc_request_target(&req), None);
    req.kind = WALLET_CONNECT_RESPONSE;
    req.tags = vec![vec![s("p"), hex(&author)]];
    assert_eq!(delete_nwc_request_target(&req), None);
    // only the first p tag counts, even when it is not a valid key
    req.tags = vec![vec![s("p"), s("nope")], vec![s("p"), hex(&author)], vec![s("e"), hex(&request)]];
    assert_eq!(delete_nwc_request_target(&req), None);
}

#[test]
fn response_is_deleted_by_its_own_author_and_id() {
    let e = ev(5, 1, WALLET_CONNECT_RESPONSE, vec![]);
    assert_eq!(delete_nwc_response_target(&e), Some((vec![7; 32], vec![5; 32])));
    let r = ev(5, 1, WALLET_CONNECT_REQUEST, vec![]);
    assert_eq!(delete_nwc_response_target(&r), None);
}

#[test]
fn poll_sends_unsent_events_oldest_first() {
    let mut f = empty_filter();
    f.kinds = Some(vec![WALLET_CONNECT_REQUEST, WALLET_CONNECT_RESPONSE]);
    let requests = vec![ev(1, 30, 23194, vec![]), ev(2, 10, 23194, vec![]), ev(3, 20, 23194, vec![])];
    let responses = vec![ev(4, 10, 23195, vec![]), ev(5, 5, 23195, vec![])];
    let sent = vec![vec![3u8; 32]];
    let out = select_filter_events(&sent, &requests, &responses, &f);
    // stable: events 2 and 4 share a time and keep their order
    assert_eq!(ids(&out), vec![5, 2, 4, 1]);
}

#[test]
fn poll_reads_only_the_kinds_the_filter_names() {
    let mut f = empty_filter();
    f.kinds = Some(vec![WALLET_CONNECT_RESPONSE]);
    let requests = vec![ev(1, 1, 23194, vec![])];
    let responses = vec![ev(2, 2, 23195, vec![])];
    assert_eq!(ids(&select_filter_events(&vec![], &requests, &responses, &f)), vec![2]);
    f.kinds = None;
    assert!(select_filter_events(&vec![], &requests, &responses, &f).is_empty());
}

#[test]
fn poll_with_events_keeps_replies_to_them() {
    let target = vec![0x44u8; 32];
    let mut f = empty_filter();
    f.kinds = Some(vec![WALLET_CONNECT_RESPONSE]);
    f.events = Some(vec![target.clone()]);
    let responses = vec![
        ev(1, 1, 23195, vec![vec![s("e"), hex(&target)]]),
        ev(2, 2, 23195, vec![vec![s("e"), hex(&[0x55u8; 32])]]),
        ev(3, 3, 23195, vec![vec![s("p"), hex(&target)]]),
        ev(4, 4, 23195, vec![vec![s("t"), s("a")], vec![s("e"), hex(&target), s("")]]),
        ev(5, 5, 23195, vec![vec![s("e"), hex(&target), s(""), s("reply")]]),
    ];
    assert_eq!(ids(&select_filter_events(&vec![], &vec![], &responses, &f)), vec![1, 4, 5]);
}

#[test]
fn poll_after_more_sends_drops_just_those_events() {
    let mut f = empty_filter();
    f.kinds = Some(vec![WALLET_CONNECT_REQUEST, WALLET_CONNECT_RESPONSE]);
    let requests = vec![ev(1, 30, 23194, vec![]), ev(2, 10, 23194, vec![]), ev(3, 20, 23194, vec![])];
    let responses = vec![ev(4, 10, 23195, vec![]), ev(5, 5, 23195, vec![])];
    let earlier = vec![vec![3u8; 32]];
    let before = ids(&select_filter_events(&earlier, &requests, &responses, &f));
    assert_eq!(before, vec![5, 2, 4, 1]);
    let mut later = earlier.clone();
    later.extend(vec![vec![2u8; 32], vec![1u8; 32]]);
    let after = ids(&select_filter_events(&later, &requests, &responses, &f));
    assert_eq!(after, vec![5, 4]);
    let expected: Vec<u8> = before.into_iter().filter(|i| *i != 2 && *i != 1).collect();
    assert_eq!(after, expected);
}

#[test]
fn poll_drops_repeated_neighbours() {
    let mut f = empty_filter();
    f.kinds = Some(vec![WALLET_CONNECT_REQUEST, WALLET_CONNECT_RESPONSE]);
    let a = ev(1, 5, 23194, vec![]);
    let requests = vec![a.clone_like(), ev(2, 5, 23194, vec![])];
    let responses = vec![a.clone_like()];
    assert_eq!(ids(&select_filter_events(&vec![], &requests, &responses, &f)), vec![1, 2, 1]);
    let requests = vec![a.clone_like(), a.clone_like(), ev(2, 6, 23194, vec![])];
    assert_eq!(ids(&select_filter_events(&vec![], &requests, &vec![], &f)), vec![1, 2]);
}

trait CloneLike {
    fn clone_like(&self) -> Self;
}

impl CloneLike for NostrEvent {
    fn clone_like(&self) -> Self {
        blastr::event::copy_event(self)
    }
}

#[test]
fn batch_is_newest_first_then_by_id_without_repeats() {
    let events = vec![
        ev(3, 10, 1, vec![]),
        ev(1, 20, 1, vec![]),
        ev(2, 10, 1, vec![]),
        ev(1, 20, 1, vec![]),
        ev(9, 5, 1, vec![]),
    ];
    let out = batch_events(&events);
    assert_eq!(ids(&out), vec![1, 2, 3, 9]);
    assert_eq!(out.iter().map(|e| e.created_at).collect::<Vec<_>>(), vec![20, 10, 10, 5]);
}

#[test]
fn event_ids_in_order() {
    let events = vec![ev(3, 1, 1, vec![]), ev(1, 1, 1, vec![])];
    assert_eq!(event_ids(&events), vec![vec![3u8; 32], vec![1u8; 32]]);
}
