//! The work queues that published events are fanned out to, and the share of
//! upstream relays that each queue's consumer is responsible for.

use vstd::prelude::*;
use crate::error::Error;
use crate::event::string_views;

verus! {

pub const NOSTR_QUEUE: &'static str = "nostr-events-pub";
pub const NOSTR_QUEUE_2: &'static str = "nostr-events-pub-2";
pub const NOSTR_QUEUE_3: &'static str = "nostr-events-pub-3";
pub const NOSTR_QUEUE_4: &'static str = "nostr-events-pub-4";
pub const NOSTR_QUEUE_5: &'static str = "nostr-events-pub-5";
pub const NOSTR_QUEUE_6: &'static str = "nostr-events-pub-6";
pub const NOSTR_QUEUE_7: &'static str = "nostr-events-pub-7";
pub const NOSTR_QUEUE_8: &'static str = "nostr-events-pub-8";
pub const NOSTR_QUEUE_9: &'static str = "nostr-events-pub-9";
pub const NOSTR_QUEUE_10: &'static str = "nostr-events-pub-10";

/// Number of queues that every published event is sent to.
pub const QUEUE_COUNT: u32 = 10;

/// Number of upstream relays that one queue consumer covers.
pub const RELAYS_PER_PART: u32 = 48;

/// The message of the error for a queue name that is not one of ours.
pub const UNEXPECTED_QUEUE: &'static str = "unexpected queue";

/// The name of the queue with the given index.
pub open spec fn queue_name_spec(index: int) -> Seq<char> {
    if index == 0 {
        NOSTR_QUEUE@
    } else if index == 1 {
        NOSTR_QUEUE_2@
    } else if index == 2 {
        NOSTR_QUEUE_3@
    } else if index == 3 {
        NOSTR_QUEUE_4@
    } else if index == 4 {
        NOSTR_QUEUE_5@
    } else if index == 5 {
        NOSTR_QUEUE_6@
    } else if index == 6 {
        NOSTR_QUEUE_7@
    } else if index == 7 {
        NOSTR_QUEUE_8@
    } else if index == 8 {
        NOSTR_QUEUE_9@
    } else {
        NOSTR_QUEUE_10@
    }
}

/// Whether two string slices hold the same characters.
pub fn str_equal(a: &str, b: &str) -> (res: bool)
    ensures
        res == (a@ == b@),
{
    let a_owned: String = a.to_owned();
    let b_owned: String = b.to_owned();
    a_owned == b_owned
}

/// The name of the queue with the given index.
pub fn queue_name(index: u32) -> (name: &'static str)
    requires
        index < QUEUE_COUNT,
    ensures
        name@ == queue_name_spec(index as int),
{
    if index == 0 {
        NOSTR_QUEUE
    } else if index == 1 {
        NOSTR_QUEUE_2
    } else if index == 2 {
        NOSTR_QUEUE_3
    } else if index == 3 {
        NOSTR_QUEUE_4
    } else if index == 4 {
        NOSTR_QUEUE_5
    } else if index == 5 {
        NOSTR_QUEUE_6
    } else if index == 6 {
        NOSTR_QUEUE_7
    } else if index == 7 {
        NOSTR_QUEUE_8
    } else if index == 8 {
        NOSTR_QUEUE_9
    } else {
        NOSTR_QUEUE_10
    }
}

/// The index of the queue that a batch came from, by the queue's name.
pub fn queue_number(batch_name: &str) -> (res: Result<u32, Error>)
    ensures
        match res {
            Ok(n) => {
                &&& n < QUEUE_COUNT
                &&& batch_name@ == queue_name_spec(n as int)
                &&& forall|i: int| 0 <= i < n ==> batch_name@ != queue_name_spec(i)
            },
            Err(e) => {
                &&& e.message() == UNEXPECTED_QUEUE@
                &&& forall|i: int| 0 <= i < QUEUE_COUNT ==> batch_name@ != #[trigger] queue_name_spec(i)
            },
        },
{
    let mut index: u32 = 0;
    while index < QUEUE_COUNT
        invariant
            index <= QUEUE_COUNT,
            forall|i: int| 0 <= i < index ==> batch_name@ != #[trigger] queue_name_spec(i),
        decreases QUEUE_COUNT - index,
    {
        if str_equal(batch_name, queue_name(index)) {
            return Ok(index);
        }
        index = index + 1;
    }
    Err(Error::WorkerError(UNEXPECTED_QUEUE.to_owned()))
}


/// Every queue name differs from every other, so a batch's queue name
/// identifies the queue index it was sent to.
pub proof fn queue_names_distinct(i: int, j: int)
    requires
        0 <= i < QUEUE_COUNT,
        0 <= j < QUEUE_COUNT,
        i != j,
    ensures
        queue_name_spec(i) != queue_name_spec(j),
{
    reveal_strlit("nostr-events-pub");
    reveal_strlit("nostr-events-pub-2");
    reveal_strlit("nostr-events-pub-3");
    reveal_strlit("nostr-events-pub-4");
    reveal_strlit("nostr-events-pub-5");
    reveal_strlit("nostr-events-pub-6");
    reveal_strlit("nostr-events-pub-7");
    reveal_strlit("nostr-events-pub-8");
    reveal_strlit("nostr-events-pub-9");
    reveal_strlit("nostr-events-pub-10");
    if queue_name_spec(i).len() == queue_name_spec(j).len() {
        let k: int = queue_name_spec(i).len() - 1;
        if i != 0 && j != 0 && i != 9 && j != 9 {
            assert(queue_name_spec(i)[k] != queue_name_spec(j)[k]);
        }
    }
}

/// The queues are named after their number, counting from one: the first
/// is `nostr-events-pub`, and queue `i` (from zero) after it is
/// `nostr-events-pub-` followed by the decimal digits of `i + 1`.
pub proof fn queues_are_named_by_their_number(i: int)
    requires
        0 <= i < QUEUE_COUNT,
    ensures
        i == 0 ==> queue_name_spec(i) == "nostr-events-pub"@,
        1 <= i <= 8 ==> queue_name_spec(i) == "nostr-events-pub-"@.push(((48 + i + 1) as u8) as char),
        i == 9 ==> queue_name_spec(i) == "nostr-events-pub-"@ + seq!['1', '0'],
{
    reveal_strlit("nostr-events-pub-");
    reveal_strlit("nostr-events-pub");
    reveal_strlit("nostr-events-pub-2");
    reveal_strlit("nostr-events-pub-3");
    reveal_strlit("nostr-events-pub-4");
    reveal_strlit("nostr-events-pub-5");
    reveal_strlit("nostr-events-pub-6");
    reveal_strlit("nostr-events-pub-7");
    reveal_strlit("nostr-events-pub-8");
    reveal_strlit("nostr-events-pub-9");
    reveal_strlit("nostr-events-pub-10");
    if 1 <= i <= 8 {
        assert(queue_name_spec(i) =~= "nostr-events-pub-"@.push(((48 + i + 1) as u8) as char));
    }
    if i == 9 {
        assert(queue_name_spec(i) =~= "nostr-events-pub-"@ + seq!['1', '0']);
    }
}

/// Looking up the queue index of the queue named for index `i` gives `i` back:
/// the index that `queue_number` reports is the one whose name the batch has.
pub proof fn queue_number_inverts_queue_name(i: int, n: int)
    requires
        0 <= i < QUEUE_COUNT,
        0 <= n < QUEUE_COUNT,
        queue_name_spec(n) == queue_name_spec(i),
    ensures
        n == i,
{
    if n != i {
        queue_names_distinct(n, i);
    }
}

/// The index window `(first, last)` of the relay list assigned to a part; both
/// ends are inclusive.
pub open spec fn part_window(part: int) -> (int, int) {
    (RELAYS_PER_PART * part, RELAYS_PER_PART * part + (RELAYS_PER_PART - 1))
}

/// The index window of the relay list that queue consumer `part` covers.
pub fn find_range_from_part(part: u32) -> (range: (usize, usize))
    requires
        RELAYS_PER_PART * part + (RELAYS_PER_PART - 1) <= u32::MAX,
    ensures
        range.0 == part_window(part as int).0,
        range.1 == part_window(part as int).1,
{
    let start: u32 = RELAYS_PER_PART * part;
    let end: u32 = start + (RELAYS_PER_PART - 1);
    (start as usize, end as usize)
}

/// One past the last index that `get_sub_vec_range` keeps: one past the
/// window's last index, or the list's length where the window reaches past it.
pub open spec fn sub_range_end(len: int, last: int) -> int {
    if last >= len {
        len
    } else {
        last + 1
    }
}

/// The elements of `list` that `get_sub_vec_range` keeps for the inclusive
/// window from `first` to `last`.
pub open spec fn sub_range_spec<T>(list: Seq<T>, first: int, last: int) -> Seq<T> {
    if first >= list.len() {
        Seq::empty()
    } else {
        list.subrange(first, sub_range_end(list.len() as int, last))
    }
}

/// The part of `list` from index `range.0` up to and including index
/// `range.1`, cut at the end of the list.
pub fn get_sub_vec_range(list: Vec<String>, range: (usize, usize)) -> (res: Vec<String>)
    requires
        range.0 <= range.1 + 1 || range.0 >= list.len(),
    ensures
        res@ == sub_range_spec(list@, range.0 as int, range.1 as int),
{
    let len = list.len();
    if range.0 >= len {
        return Vec::new();
    }
    let end: usize = if range.1 >= len { len } else { range.1 + 1 };
    let mut res: Vec<String> = Vec::new();
    let mut i: usize = range.0;
    while i < end
        invariant
            range.0 <= i <= end,
            end <= len,
            len == list@.len(),
            res@ == list@.subrange(range.0 as int, i as int),
        decreases end - i,
    {
        res.push(list[i].clone());
        i = i + 1;
    }
    res
}

/// The relays that queue consumer `part` sends to, out of the full relay list.
pub open spec fn relays_of_part(relays: Seq<String>, part: int) -> Seq<String> {
    sub_range_spec(relays, part_window(part).0, part_window(part).1)
}

/// The relays that the consumer of queue `part` sends its batch to.
pub fn relays_for_part(relays: Vec<String>, part: u32) -> (res: Vec<String>)
    requires
        RELAYS_PER_PART * part + (RELAYS_PER_PART - 1) <= u32::MAX,
    ensures
        res@ == relays_of_part(relays@, part as int),
{
    let range = find_range_from_part(part);
    get_sub_vec_range(relays, range)
}

/// Whether the relay at `index` of a list of `len` relays is one that the
/// consumer of queue `part` sends to.
pub open spec fn relay_index_in_part(len: int, part: int, index: int) -> bool {
    &&& part_window(part).0 <= index
    &&& index < sub_range_end(len, part_window(part).1)
}

/// The relays that the consumer of `part` sends to are exactly the relays at
/// the indices that `relay_index_in_part` selects, in list order.
pub proof fn relays_of_part_are_selected_indices(relays: Seq<String>, part: int, k: int)
    requires
        0 <= part,
        0 <= k < relays_of_part(relays, part).len(),
    ensures
        relay_index_in_part(relays.len() as int, part, part_window(part).0 + k),
        relays_of_part(relays, part)[k] == relays[part_window(part).0 + k],
{
}

/// No relay is sent a batch by two different queue consumers: the windows of
/// distinct parts do not overlap.
pub proof fn parts_are_disjoint(len: int, p: int, q: int, index: int)
    requires
        0 <= p,
        0 <= q,
        relay_index_in_part(len, p, index),
        relay_index_in_part(len, q, index),
    ensures
        p == q,
{
    if p < q {
        assert(RELAYS_PER_PART * p + RELAYS_PER_PART <= RELAYS_PER_PART * q) by (nonlinear_arith)
            requires p < q;
    } else if q < p {
        assert(RELAYS_PER_PART * q + RELAYS_PER_PART <= RELAYS_PER_PART * p) by (nonlinear_arith)
            requires q < p;
    }
}

/// Every relay of the list is sent to by the consumer of exactly one part, the
/// one its index divided by the part size names; when the list holds no more
/// relays than the queues together cover, that part is one of the queues.
pub proof fn relay_is_covered_by_its_part(len: int, index: int)
    requires
        0 <= index < len,
    ensures
        relay_index_in_part(len, index / (RELAYS_PER_PART as int), index),
        forall|q: int| 0 <= q && #[trigger] relay_index_in_part(len, q, index)
            ==> q == index / (RELAYS_PER_PART as int),
        len <= RELAYS_PER_PART * QUEUE_COUNT ==> index / (RELAYS_PER_PART as int) < QUEUE_COUNT,
{
    let p = index / (RELAYS_PER_PART as int);
    let r = index % (RELAYS_PER_PART as int);
    assert(index == RELAYS_PER_PART * p + r && 0 <= r < RELAYS_PER_PART && 0 <= p) by (nonlinear_arith)
        requires
            p == index / (RELAYS_PER_PART as int),
            r == index % (RELAYS_PER_PART as int),
            index >= 0,
    ;
    assert forall|q: int| 0 <= q && #[trigger] relay_index_in_part(len, q, index) implies q == p by {
        parts_are_disjoint(len, p, q, index);
    }
}

/// The relays of the parts `0` to `count - 1`, one part after another.
pub open spec fn relays_of_parts(relays: Seq<String>, count: nat) -> Seq<String>
    decreases count,
{
    if count == 0 {
        Seq::empty()
    } else {
        relays_of_parts(relays, (count - 1) as nat) + relays_of_part(relays, count - 1)
    }
}

/// The first `count` parts, taken in order, are the relay list's first
/// `RELAYS_PER_PART * count` relays (or all of them): each relay once, in list order.
pub proof fn parts_cover_relays_in_order(relays: Seq<String>, count: nat)
    ensures
        relays_of_parts(relays, count) == relays.subrange(
            0,
            if RELAYS_PER_PART * count <= relays.len() {
                RELAYS_PER_PART * count
            } else {
                relays.len() as int
            },
        ),
    decreases count,
{
    if count > 0 {
        parts_cover_relays_in_order(relays, (count - 1) as nat);
        let prev: int = RELAYS_PER_PART * (count - 1);
        assert(RELAYS_PER_PART * count == prev + RELAYS_PER_PART) by (nonlinear_arith)
            requires prev == RELAYS_PER_PART * (count - 1);
        assert(part_window(count - 1).0 == prev);
        assert(prev >= 0) by (nonlinear_arith)
            requires prev == RELAYS_PER_PART * (count - 1), count > 0;
        assert(relays_of_parts(relays, count) =~= relays.subrange(
            0,
            if RELAYS_PER_PART * count <= relays.len() {
                RELAYS_PER_PART * count
            } else {
                relays.len() as int
            },
        ));
    }
}

/// When the list holds no more relays than the queues together cover, the
/// queues' parts taken in order are the whole list: every relay is sent to by
/// exactly one consumer.
pub proof fn all_parts_cover_all_relays(relays: Seq<String>)
    requires
        relays.len() <= RELAYS_PER_PART * QUEUE_COUNT,
    ensures
        relays_of_parts(relays, QUEUE_COUNT as nat) == relays,
{
    parts_cover_relays_in_order(relays, QUEUE_COUNT as nat);
    assert(relays.subrange(0, relays.len() as int) =~= relays);
}


pub const RELAY_ZEBEDEE: &'static str = "wss://nostr.zebedee.cloud";
pub const RELAY_SNORT: &'static str = "wss://relay.snort.social";
pub const RELAY_EDEN: &'static str = "wss://eden.nostr.land";
pub const RELAY_NOS_LOL: &'static str = "wss://nos.lol";
pub const RELAY_BRB: &'static str = "wss://brb.io";
pub const RELAY_FMT_WIZ: &'static str = "wss://nostr.fmt.wiz.biz";
pub const RELAY_DAMUS: &'static str = "wss://relay.damus.io";
pub const RELAY_WINE: &'static str = "wss://nostr.wine";

/// This relay's own address: batches are never sent back to it.
pub const SELF_RELAY: &'static str = "wss://nostr.mutinywallet.com";

/// Where the list of online relays is fetched from.
pub const RELAY_LIST_URL: &'static str = "https://api.nostr.watch/v1/online";

/// The relays used when the online relay list cannot be had.
pub open spec fn default_relays_spec() -> Seq<Seq<char>> {
    seq![
        RELAY_ZEBEDEE@,
        RELAY_SNORT@,
        RELAY_EDEN@,
        RELAY_NOS_LOL@,
        RELAY_BRB@,
        RELAY_FMT_WIZ@,
        RELAY_DAMUS@,
        RELAY_WINE@,
    ]
}

/// The built-in list of relays.
pub fn default_relays() -> (res: Vec<String>)
    ensures
        string_views(res@) == default_relays_spec(),
{
    let mut res: Vec<String> = Vec::new();
    res.push(RELAY_ZEBEDEE.to_owned());
    res.push(RELAY_SNORT.to_owned());
    res.push(RELAY_EDEN.to_owned());
    res.push(RELAY_NOS_LOL.to_owned());
    res.push(RELAY_BRB.to_owned());
    res.push(RELAY_FMT_WIZ.to_owned());
    res.push(RELAY_DAMUS.to_owned());
    res.push(RELAY_WINE.to_owned());
    assert(string_views(res@) =~= default_relays_spec());
    res
}

/// The relay list to fan out to: the online list when it could be fetched
/// and read, the built-in list otherwise.
pub fn relay_list_or_default(online: Option<Vec<String>>) -> (res: Vec<String>)
    ensures
        match online {
            Some(list) => res@ == list@,
            None => string_views(res@) == default_relays_spec(),
        },
{
    match online {
        Some(list) => list,
        None => default_relays(),
    }
}

/// Whether a batch is sent to the relay at `relay`: to every relay but this one.
pub fn should_send_to_relay(relay: &str) -> (res: bool)
    ensures
        res == (relay@ != SELF_RELAY@),
{
    !str_equal(relay, SELF_RELAY)
}

} // verus!
