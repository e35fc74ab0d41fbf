use blastr::error::Error;
use blastr::queues::{
    default_relays, find_range_from_part, get_sub_vec_range, queue_name, queue_number,
    relay_list_or_default, relays_for_part, should_send_to_relay, str_equal,
};

fn names(n: usize) -> Vec<String> {
    (0..n).map(|i| format!("wss://relay-{i}.example")).collect()
}

#[test]
fn queue_number_maps_each_queue_name_to_its_index() {
    let expected = [
        "nostr-events-pub",
        "nostr-events-pub-2",
        "nostr-events-pub-3",
        "nostr-events-pub-4",
        "nostr-events-pub-5",
        "nostr-events-pub-6",
        "nostr-events-pub-7",
        "nostr-events-pub-8",
        "nostr-events-pub-9",
        "nostr-events-pub-10",
    ];
    for (i, name) in expected.iter().enumerate() {
        assert_eq!(queue_name(i as u32), *name);
        match queue_number(name) {
            Ok(n) => assert_eq!(n, i as u32),
            Err(_) => panic!("queue {name} not recognised"),
        }
    }
}

#[test]
fn queue_number_round_trips_queue_name() {
    for i in 0..10u32 {
        assert!(matches!(queue_number(queue_name(i)), Ok(n) if n == i));
    }
}

#[test]
fn queue_number_rejects_other_names() {
    for name in ["", "nostr-events-pub-11", "nostr-events-pub-1-b", "NOSTR-EVENTS-PUB"] {
        match queue_number(name) {
            Ok(n) => panic!("{name} mapped to {n}"),
            Err(Error::WorkerError(m)) => assert_eq!(m, "unexpected queue"),
        }
    }
}

#[test]
fn str_equal_compares_contents() {
    assert!(str_equal("abc", "abc"));
    assert!(!str_equal("abc", "abd"));
    assert!(!str_equal("abc", "ab"));
    assert!(str_equal("", ""));
}

#[test]
fn find_range_from_part_gives_48_wide_windows() {
    assert_eq!(find_range_from_part(0), (0, 47));
    assert_eq!(find_range_from_part(1), (48, 95));
    assert_eq!(find_range_from_part(9), (432, 479));
}

#[test]
fn get_sub_vec_range_within_the_list() {
    let v = names(10);
    assert_eq!(get_sub_vec_range(v.clone(), (2, 5)), v[2..=5].to_vec());
    assert_eq!(get_sub_vec_range(v.clone(), (0, 0)), vec![v[0].clone()]);
    assert_eq!(get_sub_vec_range(v.clone(), (4, 3)), Vec::<String>::new());
}

#[test]
fn get_sub_vec_range_past_the_end_keeps_the_last_element() {
    let v = names(10);
    assert_eq!(get_sub_vec_range(v.clone(), (0, 47)), v.clone());
    assert_eq!(get_sub_vec_range(v.clone(), (3, 10)), v[3..10].to_vec());
    assert_eq!(get_sub_vec_range(v.clone(), (3, 9)), v[3..10].to_vec());
    assert_eq!(get_sub_vec_range(v.clone(), (9, 56)), vec![v[9].clone()]);
}

#[test]
fn get_sub_vec_range_starting_past_the_end_is_empty() {
    let v = names(10);
    assert_eq!(get_sub_vec_range(v.clone(), (10, 57)), Vec::<String>::new());
    assert_eq!(get_sub_vec_range(v, (48, 95)), Vec::<String>::new());
    assert_eq!(get_sub_vec_range(Vec::new(), (0, 47)), Vec::<String>::new());
}

#[test]
fn relays_for_part_splits_the_list_without_overlap() {
    let v = names(100);
    let p0 = relays_for_part(v.clone(), 0);
    let p1 = relays_for_part(v.clone(), 1);
    let p2 = relays_for_part(v.clone(), 2);
    let p3 = relays_for_part(v.clone(), 3);
    assert_eq!(p0, v[0..48].to_vec());
    assert_eq!(p1, v[48..96].to_vec());
    assert_eq!(p2, v[96..100].to_vec());
    assert!(p3.is_empty());
    for r in &p0 {
        assert!(!p1.contains(r) && !p2.contains(r));
    }
    // the window edges and the last relay are each in exactly one part
    for edge in [47usize, 48, 95, 96, 99] {
        let holders = [&p0, &p1, &p2, &p3].iter().filter(|p| p.contains(&v[edge])).count();
        assert_eq!(holders, 1);
    }
}

#[test]
fn a_short_relay_list_goes_whole_to_the_first_part() {
    let three = names(3);
    assert_eq!(relays_for_part(three.clone(), 0), three);
    assert!(relays_for_part(three, 1).is_empty());
    assert_eq!(relays_for_part(default_relays(), 0), default_relays());
    assert_eq!(relays_for_part(default_relays(), 0).len(), 8);
}

#[test]
fn the_ten_parts_together_are_the_whole_list() {
    for n in [0usize, 1, 47, 48, 49, 100, 479, 480] {
        let v = names(n);
        let mut all: Vec<String> = Vec::new();
        for part in 0..10u32 {
            all.extend(relays_for_part(v.clone(), part));
        }
        assert_eq!(all, v);
    }
}

#[test]
fn default_relays_are_the_built_in_list() {
    assert_eq!(
        default_relays(),
        vec![
            "wss://nostr.zebedee.cloud",
            "wss://relay.snort.social",
            "wss://eden.nostr.land",
            "wss://nos.lol",
            "wss://brb.io",
            "wss://nostr.fmt.wiz.biz",
            "wss://relay.damus.io",
            "wss://nostr.wine",
        ]
    );
}

#[test]
fn relay_list_or_default_prefers_the_online_list() {
    let online = names(3);
    assert_eq!(relay_list_or_default(Some(online.clone())), online);
    assert_eq!(relay_list_or_default(None), default_relays());
    assert_eq!(relay_list_or_default(Some(Vec::new())), Vec::<String>::new());
}

#[test]
fn should_send_to_relay_skips_only_this_relay() {
    assert!(!should_send_to_relay("wss://nostr.mutinywallet.com"));
    assert!(should_send_to_relay("wss://nos.lol"));
    assert!(should_send_to_relay("wss://nostr.mutinywallet.com/"));
}
