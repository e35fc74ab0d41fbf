use blastr::filter::{
    combine_filters, extend_ids_without_duplicates, extend_kinds_without_duplicates,
    extend_strings_without_duplicates, filter_keys, filter_requests_kind, is_nwc_subscription,
    merge_subscription, Filter, WALLET_CONNECT_REQUEST, WALLET_CONNECT_RESPONSE,
};

fn empty() -> Filter {
    Filter {
        ids: None,
        authors: None,
        kinds: None,
        events: None,
        pubkeys: None,
        hashtags: None,
        references: None,
        identifiers: None,
    }
}

fn key(b: u8) -> Vec<u8> {
    vec![b; 32]
}

fn s(x: &str) -> String {
    x.to_string()
}

#[test]
fn extend_without_duplicates_appends_new_items_once() {
    let mut m = vec![key(1), key(2)];
    extend_ids_without_duplicates(&mut m, &vec![key(2), key(3), key(3), key(1), key(4)]);
    assert_eq!(m, vec![key(1), key(2), key(3), key(4)]);

    let mut k = vec![1u16];
    extend_kinds_without_duplicates(&mut k, &vec![23194, 1, 23195, 23194]);
    assert_eq!(k, vec![1, 23194, 23195]);

    let mut t = vec![s("a")];
    extend_strings_without_duplicates(&mut t, &vec![s("b"), s("a"), s("b"), s("c")]);
    assert_eq!(t, vec![s("a"), s("b"), s("c")]);
}

#[test]
fn extend_without_duplicates_keeps_existing_repeats() {
    let mut m = vec![key(1), key(1)];
    extend_ids_without_duplicates(&mut m, &vec![key(1), key(2)]);
    assert_eq!(m, vec![key(1), key(1), key(2)]);
}

#[test]
fn combine_filters_merges_present_lists() {
    let mut master = empty();
    master.kinds = Some(vec![WALLET_CONNECT_REQUEST]);
    master.authors = Some(vec![key(1)]);
    let mut new = empty();
    new.kinds = Some(vec![WALLET_CONNECT_RESPONSE, WALLET_CONNECT_REQUEST]);
    new.pubkeys = Some(vec![key(7)]);
    new.hashtags = Some(vec![s("x")]);
    combine_filters(&mut master, &new);
    assert_eq!(master.kinds, Some(vec![WALLET_CONNECT_REQUEST, WALLET_CONNECT_RESPONSE]));
    assert_eq!(master.authors, Some(vec![key(1)]));
    assert_eq!(master.pubkeys, Some(vec![key(7)]));
    assert_eq!(master.hashtags, Some(vec![s("x")]));
    assert_eq!(master.ids, None);
    assert_eq!(master.events, None);
    assert_eq!(master.references, None);
    assert_eq!(master.identifiers, None);
}

#[test]
fn combine_filters_twice_is_combining_once() {
    let mut master = empty();
    master.events = Some(vec![key(3)]);
    let mut new = empty();
    new.events = Some(vec![key(4), key(3)]);
    new.identifiers = Some(vec![s("d1")]);
    new.references = Some(vec![s("r1"), s("r1")]);
    combine_filters(&mut master, &new);
    let once = (master.events.clone(), master.identifiers.clone(), master.references.clone());
    combine_filters(&mut master, &new);
    assert_eq!((master.events, master.identifiers, master.references), once);
}

#[test]
fn combine_with_empty_filter_changes_nothing() {
    let mut master = empty();
    master.ids = Some(vec![key(9)]);
    combine_filters(&mut master, &empty());
    assert_eq!(master.ids, Some(vec![key(9)]));
    assert_eq!(master.kinds, None);
}

#[test]
fn nwc_subscription_needs_kind_and_author_or_a_pubkey() {
    let mut f = empty();
    assert!(!is_nwc_subscription(&f));
    f.kinds = Some(vec![WALLET_CONNECT_RESPONSE]);
    assert!(!is_nwc_subscription(&f));
    f.authors = Some(vec![key(1)]);
    assert!(is_nwc_subscription(&f));
    f.kinds = Some(vec![1]);
    assert!(!is_nwc_subscription(&f));
    // a referenced public key is enough, whatever the kinds
    f.pubkeys = Some(vec![key(2)]);
    assert!(is_nwc_subscription(&f));
    f.pubkeys = Some(vec![]);
    assert!(!is_nwc_subscription(&f));
}

#[test]
fn filter_requests_kind_reads_the_kinds() {
    let mut f = empty();
    assert!(!filter_requests_kind(&f, WALLET_CONNECT_REQUEST));
    f.kinds = Some(vec![1, WALLET_CONNECT_REQUEST]);
    assert!(filter_requests_kind(&f, WALLET_CONNECT_REQUEST));
    assert!(!filter_requests_kind(&f, WALLET_CONNECT_RESPONSE));
}

#[test]
fn filter_keys_are_authors_then_pubkeys() {
    let mut f = empty();
    assert!(filter_keys(&f).is_empty());
    f.authors = Some(vec![key(1), key(2)]);
    f.pubkeys = Some(vec![key(3), key(1)]);
    assert_eq!(filter_keys(&f), vec![key(1), key(2), key(3), key(1)]);
}

#[test]
fn merge_subscription_takes_only_nwc_filters() {
    let mut master = empty();
    let mut nwc = empty();
    nwc.kinds = Some(vec![WALLET_CONNECT_RESPONSE]);
    nwc.authors = Some(vec![key(5)]);
    let mut other = empty();
    other.kinds = Some(vec![1]);
    other.hashtags = Some(vec![s("t")]);
    assert!(!merge_subscription(&mut master, &vec![other]));
    assert_eq!(master.kinds, None);
    assert_eq!(master.hashtags, None);

    let mut other = empty();
    other.kinds = Some(vec![1]);
    assert!(merge_subscription(&mut master, &vec![other, nwc]));
    assert_eq!(master.kinds, Some(vec![WALLET_CONNECT_RESPONSE]));
    assert_eq!(master.authors, Some(vec![key(5)]));
}
