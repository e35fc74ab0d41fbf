//! Nostr wallet connect (NIP-47) traffic: requests and responses are kept in
//! the relay's store and handed to subscribers, never broadcast upstream.

use vstd::prelude::*;
use crate::event::{
    NostrEvent, NostrEventView, TagRow, TagRowView, events_view, tag_rows_view, tags_view,
    tag_view, byte_strings_view, ids_of, bytes_equal, contains_bytes, copy_bytes, copy_event,
    copy_tags, parse_tag, tags_nonempty, event_signature_valid, nostr_event_verifies, nip10_event_reference,
    nip01_public_key_reference, tag_event_reference, tag_public_key_reference, opt_bytes_view,
};
use crate::filter::{
    Filter, FilterView, WALLET_CONNECT_REQUEST, WALLET_CONNECT_RESPONSE, filter_requests_kind,
    list_or_empty,
};
use crate::message::{OkReply, OkReplyView};
use crate::order::{
    EventOrder, stable_sort_of, dedup_spec, sort_events, dedup_events, stable_sort_keeps_members,
    dedup_keeps_members_without_adjacent_repeats, and_pred, lemma_filter_member, lemma_filter_filter,
    lemma_filters_commute, lemma_filter_no_duplicates, stable_sort_commutes_with_filter,
    stable_sort_is_unique, stable_sort_keeps_no_duplicates, dedup_without_adjacent_repeats_is_identity,
};
use crate::queues::str_equal;

verus! {

/// Whether events of this kind are wallet connect traffic that the relay stores.
pub open spec fn is_nwc_kind_spec(kind: u16) -> bool {
    kind == WALLET_CONNECT_REQUEST || kind == WALLET_CONNECT_RESPONSE
}

/// Whether events of this kind are wallet connect traffic that the relay stores.
pub fn is_nwc_kind(kind: u16) -> (res: bool)
    ensures
        res == is_nwc_kind_spec(kind),
{
    kind == WALLET_CONNECT_REQUEST || kind == WALLET_CONNECT_RESPONSE
}

/// `n` query placeholders joined by commas: `?, ?, ?`.
pub open spec fn placeholders_spec(n: nat) -> Seq<char>
    decreases n,
{
    if n == 0 {
        Seq::empty()
    } else if n == 1 {
        seq!['?']
    } else {
        placeholders_spec((n - 1) as nat) + seq![',', ' ', '?']
    }
}

/// The placeholder text for `n` items is `?, ?, ..., ?` with exactly `n`
/// marks: empty for none, else `3n - 2` characters that repeat `?`, `,`, ` `.
pub proof fn placeholders_have_one_mark_per_item(n: nat)
    ensures
        n == 0 ==> placeholders_spec(n).len() == 0,
        n >= 1 ==> placeholders_spec(n).len() == 3 * n - 2,
        forall|i: int|
            0 <= i < placeholders_spec(n).len() ==> #[trigger] placeholders_spec(n)[i] == (if i % 3
                == 0 {
                '?'
            } else if i % 3 == 1 {
                ','
            } else {
                ' '
            }),
    decreases n,
{
    if n > 1 {
        placeholders_have_one_mark_per_item((n - 1) as nat);
        let p = placeholders_spec((n - 1) as nat);
        let q = placeholders_spec(n);
        assert forall|i: int| 0 <= i < q.len() implies #[trigger] q[i] == (if i % 3 == 0 {
            '?'
        } else if i % 3 == 1 {
            ','
        } else {
            ' '
        }) by {
            if i < p.len() {
                assert(q[i] == p[i]);
            } else {
                assert(p.len() == 3 * n - 5);
            }
        }
    }
}

/// `n` query placeholders joined by commas: `?, ?, ?`.
pub fn sql_placeholders(n: usize) -> (res: String)
    ensures
        res@ == placeholders_spec(n as nat),
{
    let mut res = String::new();
    let mut i: usize = 0;
    while i < n
        invariant
            i <= n,
            res@ == placeholders_spec(i as nat),
        decreases n - i,
    {
        if i == 0 {
            res.append("?");
            proof {
                reveal_strlit("?");
            }
            assert(res@ =~= placeholders_spec(1));
        } else {
            res.append(", ?");
            proof {
                reveal_strlit(", ?");
            }
            assert(res@ =~= placeholders_spec((i + 1) as nat));
        }
        i = i + 1;
    }
    res
}

pub const EVENT_QUERY_HEAD: &'static str = "SELECT * FROM event WHERE pubkey IN (";
pub const EVENT_QUERY_TAIL: &'static str = ") AND kind = ? AND deleted = 0";
pub const TAG_QUERY_HEAD: &'static str = "SELECT event_id, name, value FROM tag WHERE event_id IN (";
pub const TAG_QUERY_TAIL: &'static str = ") ORDER BY id ASC";

/// The query for the stored, not deleted events of one kind by any of
/// `key_count` authors; it takes the keys, then the kind.
pub fn nwc_event_query(key_count: usize) -> (res: String)
    ensures
        res@ == EVENT_QUERY_HEAD@ + placeholders_spec(key_count as nat) + EVENT_QUERY_TAIL@,
{
    let mut res = EVENT_QUERY_HEAD.to_owned();
    let p = sql_placeholders(key_count);
    res.append(p.as_str());
    res.append(EVENT_QUERY_TAIL);
    res
}

/// The query for the tags of `event_count` events, in the order they were stored.
pub fn nwc_tag_query(event_count: usize) -> (res: String)
    ensures
        res@ == TAG_QUERY_HEAD@ + placeholders_spec(event_count as nat) + TAG_QUERY_TAIL@,
{
    let mut res = TAG_QUERY_HEAD.to_owned();
    let p = sql_placeholders(event_count);
    res.append(p.as_str());
    res.append(TAG_QUERY_TAIL);
    res
}

/// The tags that the rows of the tag table give an event with id `id`:
/// one `[name, value]` tag per row of that event, in row order.
pub open spec fn row_tags(rows: Seq<TagRowView>, id: Seq<u8>) -> Seq<Seq<Seq<char>>>
    decreases rows.len(),
{
    if rows.len() == 0 {
        Seq::empty()
    } else {
        let prev = row_tags(rows.drop_last(), id);
        if rows.last().event_id == id {
            prev.push(seq![rows.last().name, rows.last().value])
        } else {
            prev
        }
    }
}

/// Whether no event before position `i` has the id of the event at `i`.
pub open spec fn first_of_id(events: Seq<NostrEventView>, i: int) -> bool {
    forall|j: int| 0 <= j < i ==> #[trigger] events[j].id != events[i].id
}

/// The event at position `i` after the tag rows were added: the first event
/// with a given id gets the tags of the rows of that id after its own.
pub open spec fn with_row_tags(events: Seq<NostrEventView>, rows: Seq<TagRowView>, i: int) -> NostrEventView {
    let e = events[i];
    NostrEventView {
        id: e.id,
        pubkey: e.pubkey,
        created_at: e.created_at,
        kind: e.kind,
        tags: if first_of_id(events, i) {
            e.tags + row_tags(rows, e.id)
        } else {
            e.tags
        },
        content: e.content,
        sig: e.sig,
    }
}

/// All events after the tag rows were added.
pub open spec fn attach_tags_spec(events: Seq<NostrEventView>, rows: Seq<TagRowView>) -> Seq<NostrEventView> {
    Seq::new(events.len(), |i: int| with_row_tags(events, rows, i))
}

/// The tags of the rows of event `id`, after `tags`.
fn append_row_tags(tags: &mut Vec<Vec<String>>, rows: &Vec<TagRow>, id: &Vec<u8>)
    ensures
        tags_view(final(tags)@) == tags_view(old(tags)@) + row_tags(tag_rows_view(rows@), id@),
{
    let ghost start = tags_view(tags@);
    let mut k: usize = 0;
    while k < rows.len()
        invariant
            k <= rows.len(),
            tags_view(tags@) == start + row_tags(tag_rows_view(rows@).take(k as int), id@),
        decreases rows.len() - k,
    {
        let ghost r = tag_rows_view(rows@);
        assert(r.take(k + 1).drop_last() =~= r.take(k as int));
        assert(r.take(k + 1).last() == rows@[k as int]@);
        if bytes_equal(&rows[k].event_id, id) {
            let parsed = parse_tag(&rows[k].name, &rows[k].value);
            if let Some(t) = parsed {
                let ghost prev = tags@;
                tags.push(t);
                assert(tags_view(tags@) =~= tags_view(prev).push(
                    seq![rows@[k as int].name@, rows@[k as int].value@],
                ));
            }
        }
        k = k + 1;
    }
    assert(tag_rows_view(rows@).take(rows.len() as int) =~= tag_rows_view(rows@));
}

/// The events with the tags of the tag table added: each event gets, after
/// its own tags, the tags of the rows of its id, unless an earlier event of
/// the list has the same id (that one took the rows).
pub fn attach_tags(events: &Vec<NostrEvent>, rows: &Vec<TagRow>) -> (res: Vec<NostrEvent>)
    ensures
        events_view(res@) == attach_tags_spec(events_view(events@), tag_rows_view(rows@)),
{
    let mut res: Vec<NostrEvent> = Vec::new();
    let mut i: usize = 0;
    while i < events.len()
        invariant
            i <= events.len(),
            res@.len() == i,
            forall|k: int| 0 <= k < i ==> #[trigger] res@[k]@ == with_row_tags(
                events_view(events@),
                tag_rows_view(rows@),
                k,
            ),
        decreases events.len() - i,
    {
        let ghost ev = events_view(events@);
        let mut first = true;
        let mut j: usize = 0;
        while j < i
            invariant
                j <= i < events.len(),
                ev == events_view(events@),
                first == forall|m: int| 0 <= m < j ==> #[trigger] ev[m].id != ev[i as int].id,
            decreases i - j,
        {
            if bytes_equal(&events[j].id, &events[i].id) {
                assert(ev[j as int].id == ev[i as int].id);
                first = false;
            }
            j = j + 1;
        }
        let mut tags = copy_tags(&events[i].tags);
        if first {
            append_row_tags(&mut tags, rows, &events[i].id);
        }
        let e = NostrEvent {
            id: copy_bytes(&events[i].id),
            pubkey: copy_bytes(&events[i].pubkey),
            created_at: events[i].created_at,
            kind: events[i].kind,
            tags,
            content: events[i].content.clone(),
            sig: copy_bytes(&events[i].sig),
        };
        assert(e@ == with_row_tags(ev, tag_rows_view(rows@), i as int));
        res.push(e);
        i = i + 1;
    }
    assert(events_view(res@) =~= attach_tags_spec(events_view(events@), tag_rows_view(rows@)));
    res
}

/// The test for events that check out.
pub open spec fn verifies_pred() -> spec_fn(NostrEventView) -> bool {
    |e: NostrEventView| nostr_event_verifies(e)
}

/// The events that check out, in their order.
pub fn retain_verified(events: &Vec<NostrEvent>) -> (res: Vec<NostrEvent>)
    ensures
        events_view(res@) == events_view(events@).filter(verifies_pred()),
{
    let mut res: Vec<NostrEvent> = Vec::new();
    let mut i: usize = 0;
    proof {
        assert(events_view(events@).take(0) =~= Seq::<NostrEventView>::empty());
        assert(events_view(res@) =~= Seq::<NostrEventView>::empty());
    }
    while i < events.len()
        invariant
            i <= events.len(),
            events_view(res@) == events_view(events@).take(i as int).filter(verifies_pred()),
        decreases events.len() - i,
    {
        let ghost s = events_view(events@).take(i + 1);
        assert(s.drop_last() =~= events_view(events@).take(i as int));
        assert(s.last() == events@[i as int]@);
        reveal_with_fuel(Seq::filter, 1);
        if event_signature_valid(&events[i]) {
            let ghost prev = res@;
            let e = copy_event(&events[i]);
            res.push(e);
            assert(events_view(res@) =~= events_view(prev).push(events@[i as int]@));
        }
        i = i + 1;
    }
    assert(events_view(events@).take(events.len() as int) =~= events_view(events@));
    res
}

/// The stored wallet connect events that a query returned, completed with
/// their tags from the tag table and cut down to those that check out.
pub open spec fn assembled_events(events: Seq<NostrEventView>, rows: Seq<TagRowView>) -> Seq<NostrEventView> {
    attach_tags_spec(events, rows).filter(verifies_pred())
}

/// Completes the stored events of a query with the rows of the tag table and
/// keeps those whose id and signature check out.
pub fn assemble_nwc_events(events: &Vec<NostrEvent>, rows: &Vec<TagRow>) -> (res: Vec<NostrEvent>)
    ensures
        events_view(res@) == assembled_events(events_view(events@), tag_rows_view(rows@)),
{
    let with_tags = attach_tags(events, rows);
    retain_verified(&with_tags)
}

/// The ids of a list of events, in order.
pub fn event_ids(events: &Vec<NostrEvent>) -> (res: Vec<Vec<u8>>)
    ensures
        byte_strings_view(res@) == ids_of(events_view(events@)),
{
    let mut res: Vec<Vec<u8>> = Vec::new();
    let mut i: usize = 0;
    while i < events.len()
        invariant
            i <= events.len(),
            byte_strings_view(res@) == ids_of(events_view(events@)).take(i as int),
        decreases events.len() - i,
    {
        let ghost prev = res@;
        res.push(copy_bytes(&events[i].id));
        assert(byte_strings_view(res@) =~= byte_strings_view(prev).push(events@[i as int].id@));
        assert(ids_of(events_view(events@)).take(i + 1) =~= ids_of(events_view(events@)).take(
            i as int,
        ).push(events@[i as int].id@));
        i = i + 1;
    }
    assert(ids_of(events_view(events@)).take(events.len() as int) =~= ids_of(
        events_view(events@),
    ));
    res
}


/// The first error among the outcomes of the store's statements, if any.
pub open spec fn first_error(outcomes: Seq<Option<Seq<char>>>) -> Option<Seq<char>>
    decreases outcomes.len(),
{
    if outcomes.len() == 0 {
        None
    } else if outcomes[0] is Some {
        outcomes[0]
    } else {
        first_error(outcomes.drop_first())
    }
}

/// The first error is `None` exactly when every statement succeeded, and is
/// otherwise the error of the first statement that failed.
pub proof fn first_error_is_first_failure(outcomes: Seq<Option<Seq<char>>>)
    ensures
        (forall|i: int| 0 <= i < outcomes.len() ==> #[trigger] outcomes[i] is None) ==> first_error(
            outcomes,
        ) is None,
        forall|i: int|
            0 <= i < outcomes.len() && #[trigger] outcomes[i] is Some && (forall|j: int|
                0 <= j < i ==> outcomes[j] is None) ==> first_error(outcomes) == outcomes[i],
    decreases outcomes.len(),
{
    if outcomes.len() > 0 {
        let rest = outcomes.drop_first();
        first_error_is_first_failure(rest);
        assert forall|i: int|
            0 <= i < outcomes.len() && #[trigger] outcomes[i] is Some && (forall|j: int|
                0 <= j < i ==> outcomes[j] is None) implies first_error(outcomes) == outcomes[i] by {
            if i > 0 {
                assert(outcomes[0] is None);
                assert(rest[i - 1] == outcomes[i]);
                assert forall|j: int| 0 <= j < i - 1 implies rest[j] is None by {
                    assert(rest[j] == outcomes[j + 1]);
                }
            }
        }
        if forall|i: int| 0 <= i < outcomes.len() ==> #[trigger] outcomes[i] is None {
            assert(outcomes[0] is None);
            assert forall|i: int| 0 <= i < rest.len() implies #[trigger] rest[i] is None by {
                assert(rest[i] == outcomes[i + 1]);
            }
        }
    }
}

/// The values of the outcomes of the store's statements.
pub open spec fn outcomes_view(v: Seq<Option<String>>) -> Seq<Option<Seq<char>>> {
    v.map_values(|o: Option<String>| match o {
        Some(s) => Some(s@),
        None => None,
    })
}

/// The answer to a client after its wallet connect event was written to the
/// store, given the error (if any) of each statement of the write: refused
/// with the first error, taken when there was none.
pub open spec fn store_reply_spec(event_id: Seq<u8>, outcomes: Seq<Option<Seq<char>>>) -> OkReplyView {
    match first_error(outcomes) {
        Some(e) => OkReplyView { event_id, accepted: false, message: e },
        None => OkReplyView { event_id, accepted: true, message: Seq::empty() },
    }
}

/// The answer to a client after its wallet connect event was written to the
/// store: refused with the first statement error, else taken.
pub fn nwc_store_reply(event_id: &Vec<u8>, outcomes: &Vec<Option<String>>) -> (res: OkReply)
    ensures
        res@ == store_reply_spec(event_id@, outcomes_view(outcomes@)),
{
    let mut i: usize = 0;
    assert(outcomes_view(outcomes@).skip(0) =~= outcomes_view(outcomes@));
    while i < outcomes.len()
        invariant
            i <= outcomes.len(),
            first_error(outcomes_view(outcomes@)) == first_error(outcomes_view(outcomes@).skip(
                i as int,
            )),
        decreases outcomes.len() - i,
    {
        let ghost rest = outcomes_view(outcomes@).skip(i as int);
        assert(rest[0] == outcomes_view(outcomes@)[i as int]);
        if let Some(e) = &outcomes[i] {
            return OkReply { event_id: copy_bytes(event_id), accepted: false, message: e.clone() };
        }
        assert(rest.drop_first() =~= outcomes_view(outcomes@).skip(i + 1));
        i = i + 1;
    }
    assert(outcomes_view(outcomes@).skip(outcomes.len() as int).len() == 0);
    OkReply { event_id: copy_bytes(event_id), accepted: true, message: String::new() }
}

/// What the tag table stores of a tag: its name and its first value.
pub open spec fn tag_row_values(t: Seq<Seq<char>>) -> (Seq<char>, Option<Seq<char>>) {
    (t[0], if t.len() > 1 { Some(t[1]) } else { None })
}

/// What the tag table stores of a list of tags, in order.
pub open spec fn tag_rows_values_of(tags: Seq<Seq<Seq<char>>>) -> Seq<(Seq<char>, Option<Seq<char>>)> {
    tags.map_values(|t: Seq<Seq<char>>| tag_row_values(t))
}

/// The values of a list of tag-row values.
pub open spec fn tag_row_values_view(v: Seq<(String, Option<String>)>) -> Seq<(Seq<char>, Option<Seq<char>>)> {
    v.map_values(|p: (String, Option<String>)| (p.0@, match p.1 {
        Some(s) => Some(s@),
        None => None,
    }))
}

/// The name and first value of each tag of an event, in order: what a
/// wallet connect event leaves in the tag table.
pub fn tag_insert_values(event: &NostrEvent) -> (res: Vec<(String, Option<String>)>)
    requires
        tags_nonempty(event@.tags),
    ensures
        tag_row_values_view(res@) == tag_rows_values_of(event@.tags),
{
    let mut res: Vec<(String, Option<String>)> = Vec::new();
    let mut i: usize = 0;
    while i < event.tags.len()
        invariant
            i <= event.tags.len(),
            tags_nonempty(event@.tags),
            tag_row_values_view(res@) == event@.tags.map_values(
                |t: Seq<Seq<char>>| tag_row_values(t),
            ).take(i as int),
        decreases event.tags.len() - i,
    {
        let tag = &event.tags[i];
        assert(event@.tags[i as int] == tag_view(*tag));
        assert(tag_view(*tag).len() > 0);
        let name = tag[0].clone();
        let value = if tag.len() > 1 {
            Some(tag[1].clone())
        } else {
            None
        };
        let ghost prev = res@;
        res.push((name, value));
        assert(tag_row_values_view(res@) =~= tag_row_values_view(prev).push(
            tag_row_values(tag_view(*tag)),
        ));
        assert(tag_rows_values_of(event@.tags).take(i + 1)
            =~= tag_rows_values_of(event@.tags).take(i as int).push(
            tag_row_values(tag_view(*tag)),
        ));
        i = i + 1;
    }
    assert(tag_rows_values_of(event@.tags).take(
        event.tags.len() as int,
    ) =~= tag_rows_values_of(event@.tags));
    res
}

/// Whether a tag has the given name.
pub open spec fn named(tag: Seq<Seq<char>>, name: Seq<char>) -> bool {
    tag.len() > 0 && tag[0] == name
}

/// The position of the first tag with the given name, if any.
pub open spec fn first_tag_named(tags: Seq<Seq<Seq<char>>>, name: Seq<char>) -> Option<int> {
    if exists|i: int| 0 <= i < tags.len() && named(tags[i], name) {
        Some(
            choose|i: int|
                0 <= i < tags.len() && named(tags[i], name) && forall|j: int|
                    0 <= j < i ==> !named(tags[j], name),
        )
    } else {
        None
    }
}

fn find_first_tag_named(event: &NostrEvent, name: &str) -> (res: Option<usize>)
    ensures
        match res {
            Some(i) => i < event@.tags.len() && named(event@.tags[i as int], name@) && forall|j: int|
                0 <= j < i ==> !named(event@.tags[j], name@),
            None => forall|j: int| 0 <= j < event@.tags.len() ==> !named(event@.tags[j], name@),
        },
{
    let mut i: usize = 0;
    while i < event.tags.len()
        invariant
            i <= event.tags.len(),
            forall|j: int| 0 <= j < i ==> !named(event@.tags[j], name@),
        decreases event.tags.len() - i,
    {
        assert(event@.tags[i as int] == tag_view(event.tags@[i as int]));
        if event.tags[i].len() > 0 && str_equal(event.tags[i][0].as_str(), name) {
            return Some(i);
        }
        i = i + 1;
    }
    None
}

proof fn lemma_first_tag_named(tags: Seq<Seq<Seq<char>>>, name: Seq<char>, i: int)
    requires
        0 <= i < tags.len(),
        named(tags[i], name),
        forall|j: int| 0 <= j < i ==> !named(tags[j], name),
    ensures
        first_tag_named(tags, name) == Some(i),
{
    let k = choose|k: int|
        0 <= k < tags.len() && named(tags[k], name) && forall|j: int| 0 <= j < k ==> !named(tags[j], name);
    if k < i {
        assert(!named(tags[k], name));
    } else if i < k {
        assert(!named(tags[i], name));
    }
}

/// The stored wallet connect request that a response fulfils: the author
/// named by the response's first `p` tag and the event named by its first
/// `e` tag, when both tags are well-formed references.
pub open spec fn fulfilled_request(event: NostrEventView) -> Option<(Seq<u8>, Seq<u8>)> {
    if event.kind != WALLET_CONNECT_RESPONSE {
        None
    } else {
        match (first_tag_named(event.tags, "p"@), first_tag_named(event.tags, "e"@)) {
            (Some(p), Some(e)) => match (
                nip01_public_key_reference(event.tags[p]),
                nip10_event_reference(event.tags[e]),
            ) {
                (Some(author), Some(id)) => Some((author, id)),
                _ => None,
            },
            _ => None,
        }
    }
}

/// The author and id of the stored request to soft-delete once a wallet
/// connect response comes in (`None`: nothing to delete).
pub fn delete_nwc_request_target(event: &NostrEvent) -> (res: Option<(Vec<u8>, Vec<u8>)>)
    ensures
        match res {
            Some((author, id)) => fulfilled_request(event@) == Some((author@, id@)),
            None => fulfilled_request(event@) is None,
        },
{
    if event.kind != WALLET_CONNECT_RESPONSE {
        return None;
    }
    let p = find_first_tag_named(event, "p");
    let e = find_first_tag_named(event, "e");
    proof {
        reveal_strlit("p");
        reveal_strlit("e");
    }
    match (p, e) {
        (Some(p), Some(e)) => {
            proof {
                lemma_first_tag_named(event@.tags, "p"@, p as int);
                lemma_first_tag_named(event@.tags, "e"@, e as int);
            }
            assert(event@.tags[p as int] == tag_view(event.tags@[p as int]));
            assert(event@.tags[e as int] == tag_view(event.tags@[e as int]));
            let author = tag_public_key_reference(&event.tags[p]);
            let id = tag_event_reference(&event.tags[e]);
            match (author, id) {
                (Some(author), Some(id)) => Some((author, id)),
                _ => None,
            }
        },
        _ => {
            assert(fulfilled_request(event@) is None) by {
                if p is None {
                    assert(!(exists|i: int| 0 <= i < event@.tags.len() && named(event@.tags[i], "p"@)));
                }
                if e is None {
                    assert(!(exists|i: int| 0 <= i < event@.tags.len() && named(event@.tags[i], "e"@)));
                }
            }
            None
        },
    }
}

/// The author and id of a wallet connect response to soft-delete once it was
/// delivered (`None` for any other kind).
pub fn delete_nwc_response_target(event: &NostrEvent) -> (res: Option<(Vec<u8>, Vec<u8>)>)
    ensures
        match res {
            Some((author, id)) => event.kind == WALLET_CONNECT_RESPONSE && author@ == event@.pubkey
                && id@ == event@.id,
            None => event.kind != WALLET_CONNECT_RESPONSE,
        },
{
    if event.kind == WALLET_CONNECT_RESPONSE {
        Some((copy_bytes(&event.pubkey), copy_bytes(&event.id)))
    } else {
        None
    }
}


/// The test for events whose id is not among `sent`.
pub open spec fn unsent_pred(sent: Seq<Seq<u8>>) -> spec_fn(NostrEventView) -> bool {
    |e: NostrEventView| !sent.contains(e.id)
}

/// Whether one of an event's tags is an `e` tag naming one of `ids`.
pub open spec fn refers_to_any(e: NostrEventView, ids: Seq<Seq<u8>>) -> bool {
    exists|k: int|
        0 <= k < e.tags.len() && (#[trigger] nip10_event_reference(e.tags[k]) matches Some(id)
            && ids.contains(id))
}

/// The test for events that refer to one of `ids`.
pub open spec fn refers_pred(ids: Seq<Seq<u8>>) -> spec_fn(NostrEventView) -> bool {
    |e: NostrEventView| refers_to_any(e, ids)
}

/// The stored events that a filter's poll hands a subscriber, before
/// ordering: the requests (if the filter names the request kind) and then
/// the responses (if it names the response kind) not yet sent, cut down, if
/// the filter names events, to those that refer to one of them.
pub open spec fn filter_candidates(
    sent: Seq<Seq<u8>>,
    requests: Seq<NostrEventView>,
    responses: Seq<NostrEventView>,
    f: FilterView,
) -> Seq<NostrEventView> {
    let reqs = if list_or_empty(f.kinds).contains(WALLET_CONNECT_REQUEST) {
        requests.filter(unsent_pred(sent))
    } else {
        Seq::empty()
    };
    let resps = if list_or_empty(f.kinds).contains(WALLET_CONNECT_RESPONSE) {
        responses.filter(unsent_pred(sent))
    } else {
        Seq::empty()
    };
    match f.events {
        Some(ids) => (reqs + resps).filter(refers_pred(ids)),
        None => reqs + resps,
    }
}

/// The events not yet sent, in their order.
pub fn retain_unsent(events: &Vec<NostrEvent>, sent: &Vec<Vec<u8>>) -> (res: Vec<NostrEvent>)
    ensures
        events_view(res@) == events_view(events@).filter(unsent_pred(byte_strings_view(sent@))),
{
    let ghost pred = unsent_pred(byte_strings_view(sent@));
    let mut res: Vec<NostrEvent> = Vec::new();
    let mut i: usize = 0;
    proof {
        assert(events_view(events@).take(0) =~= Seq::<NostrEventView>::empty());
        assert(events_view(res@) =~= Seq::<NostrEventView>::empty());
    }
    while i < events.len()
        invariant
            i <= events.len(),
            pred == unsent_pred(byte_strings_view(sent@)),
            events_view(res@) == events_view(events@).take(i as int).filter(pred),
        decreases events.len() - i,
    {
        let ghost s = events_view(events@).take(i + 1);
        assert(s.drop_last() =~= events_view(events@).take(i as int));
        assert(s.last() == events@[i as int]@);
        reveal_with_fuel(Seq::filter, 1);
        if !contains_bytes(sent, &events[i].id) {
            let ghost prev = res@;
            let e = copy_event(&events[i]);
            res.push(e);
            assert(events_view(res@) =~= events_view(prev).push(events@[i as int]@));
        }
        i = i + 1;
    }
    assert(events_view(events@).take(events.len() as int) =~= events_view(events@));
    res
}

/// Whether one of an event's tags is an `e` tag naming one of `ids`.
pub fn event_refers_to_any(event: &NostrEvent, ids: &Vec<Vec<u8>>) -> (res: bool)
    ensures
        res == refers_to_any(event@, byte_strings_view(ids@)),
{
    let mut k: usize = 0;
    while k < event.tags.len()
        invariant
            k <= event.tags.len(),
            forall|m: int|
                0 <= m < k ==> !(#[trigger] nip10_event_reference(event@.tags[m]) matches Some(id)
                    && byte_strings_view(ids@).contains(id)),
        decreases event.tags.len() - k,
    {
        assert(event@.tags[k as int] == tag_view(event.tags@[k as int]));
        let r = tag_event_reference(&event.tags[k]);
        if let Some(id) = r {
            if contains_bytes(ids, &id) {
                return true;
            }
        }
        k = k + 1;
    }
    false
}

/// The events that refer to one of `ids`, in their order.
pub fn retain_referring(events: &Vec<NostrEvent>, ids: &Vec<Vec<u8>>) -> (res: Vec<NostrEvent>)
    ensures
        events_view(res@) == events_view(events@).filter(refers_pred(byte_strings_view(ids@))),
{
    let ghost pred = refers_pred(byte_strings_view(ids@));
    let mut res: Vec<NostrEvent> = Vec::new();
    let mut i: usize = 0;
    proof {
        assert(events_view(events@).take(0) =~= Seq::<NostrEventView>::empty());
        assert(events_view(res@) =~= Seq::<NostrEventView>::empty());
    }
    while i < events.len()
        invariant
            i <= events.len(),
            pred == refers_pred(byte_strings_view(ids@)),
            events_view(res@) == events_view(events@).take(i as int).filter(pred),
        decreases events.len() - i,
    {
        let ghost s = events_view(events@).take(i + 1);
        assert(s.drop_last() =~= events_view(events@).take(i as int));
        assert(s.last() == events@[i as int]@);
        reveal_with_fuel(Seq::filter, 1);
        if event_refers_to_any(&events[i], ids) {
            let ghost prev = res@;
            let e = copy_event(&events[i]);
            res.push(e);
            assert(events_view(res@) =~= events_view(prev).push(events@[i as int]@));
        }
        i = i + 1;
    }
    assert(events_view(events@).take(events.len() as int) =~= events_view(events@));
    res
}

/// The stored wallet connect events that one poll of a subscription's
/// filter sends: the candidates of the filter, oldest first (a stable sort
/// by creation time), with runs of equal neighbours cut to one event.
pub fn select_filter_events(
    sent: &Vec<Vec<u8>>,
    requests: &Vec<NostrEvent>,
    responses: &Vec<NostrEvent>,
    filter: &Filter,
) -> (res: Vec<NostrEvent>)
    ensures
        exists|sorted: Seq<NostrEventView>|
            stable_sort_of(
                EventOrder::OldestFirst,
                filter_candidates(
                    byte_strings_view(sent@),
                    events_view(requests@),
                    events_view(responses@),
                    filter@,
                ),
                sorted,
            ) && events_view(res@) == dedup_spec(sorted),
{
    let mut events: Vec<NostrEvent> = if filter_requests_kind(filter, WALLET_CONNECT_REQUEST) {
        retain_unsent(requests, sent)
    } else {
        Vec::new()
    };
    let mut found: Vec<NostrEvent> = if filter_requests_kind(filter, WALLET_CONNECT_RESPONSE) {
        retain_unsent(responses, sent)
    } else {
        Vec::new()
    };
    let ghost before = events@;
    let ghost found_before = found@;
    events.append(&mut found);
    assert(events_view(events@) =~= events_view(before) + events_view(found_before));
    let candidates = match &filter.events {
        Some(ids) => retain_referring(&events, ids),
        None => events,
    };
    assert(events_view(candidates@) == filter_candidates(
        byte_strings_view(sent@),
        events_view(requests@),
        events_view(responses@),
        filter@,
    ));
    let sorted = sort_events(EventOrder::OldestFirst, &candidates);
    dedup_events(&sorted)
}

/// A batch of events as the queue consumer sends it upstream: in the nostr
/// library's event order (newest first, then by id), stably sorted, with runs
/// of equal neighbours cut to one event.
pub fn batch_events(events: &Vec<NostrEvent>) -> (res: Vec<NostrEvent>)
    ensures
        exists|sorted: Seq<NostrEventView>|
            stable_sort_of(EventOrder::NewestFirst, events_view(events@), sorted) && events_view(
                res@,
            ) == dedup_spec(sorted),
{
    let sorted = sort_events(EventOrder::NewestFirst, events);
    dedup_events(&sorted)
}


proof fn lemma_concat_member<A>(a: Seq<A>, b: Seq<A>, e: A)
    requires
        (a + b).contains(e),
    ensures
        a.contains(e) || b.contains(e),
{
    let k = choose|k: int| 0 <= k < (a + b).len() && (a + b)[k] == e;
    if k < a.len() {
        assert(a[k] == e);
    } else {
        assert(b[k - a.len()] == e);
    }
}

/// A poll never sends an event that was sent before, and what it sends are
/// stored events of a kind that the filter names, referring to one of the
/// filter's events when it names any.
pub proof fn polled_events_are_new_and_asked_for(
    sent: Seq<Seq<u8>>,
    requests: Seq<NostrEventView>,
    responses: Seq<NostrEventView>,
    f: FilterView,
    sorted: Seq<NostrEventView>,
    e: NostrEventView,
)
    requires
        stable_sort_of(EventOrder::OldestFirst, filter_candidates(sent, requests, responses, f), sorted),
        dedup_spec(sorted).contains(e),
    ensures
        !sent.contains(e.id),
        (requests.contains(e) && list_or_empty(f.kinds).contains(WALLET_CONNECT_REQUEST)) || (
        responses.contains(e) && list_or_empty(f.kinds).contains(WALLET_CONNECT_RESPONSE)),
        f.events matches Some(ids) ==> refers_to_any(e, ids),
{
    dedup_keeps_members_without_adjacent_repeats(sorted, e);
    let c = filter_candidates(sent, requests, responses, f);
    stable_sort_keeps_members(EventOrder::OldestFirst, c, sorted, e);
    let reqs = if list_or_empty(f.kinds).contains(WALLET_CONNECT_REQUEST) {
        requests.filter(unsent_pred(sent))
    } else {
        Seq::empty()
    };
    let resps = if list_or_empty(f.kinds).contains(WALLET_CONNECT_RESPONSE) {
        responses.filter(unsent_pred(sent))
    } else {
        Seq::empty()
    };
    if let Some(ids) = f.events {
        lemma_filter_member(reqs + resps, refers_pred(ids), e);
    }
    assert((reqs + resps).contains(e));
    lemma_concat_member(reqs, resps, e);
    if reqs.contains(e) {
        if !list_or_empty(f.kinds).contains(WALLET_CONNECT_REQUEST) {
            assert(reqs.len() == 0);
        }
        lemma_filter_member(requests, unsent_pred(sent), e);
    } else {
        if !list_or_empty(f.kinds).contains(WALLET_CONNECT_RESPONSE) {
            assert(resps.len() == 0);
        }
        lemma_filter_member(responses, unsent_pred(sent), e);
    }
}

/// Each event that a query of the store hands back checks out, and is a
/// stored event completed with the tag rows of its id.
pub proof fn assembled_events_check_out(events: Seq<NostrEventView>, rows: Seq<TagRowView>, e: NostrEventView)
    requires
        assembled_events(events, rows).contains(e),
    ensures
        nostr_event_verifies(e),
        exists|i: int| 0 <= i < events.len() && e == #[trigger] with_row_tags(events, rows, i),
{
    let a = attach_tags_spec(events, rows);
    lemma_filter_member(a, verifies_pred(), e);
    let k = choose|k: int| 0 <= k < a.len() && a[k] == e;
    assert(e == with_row_tags(events, rows, k));
}

/// An event is new to `sent + more` when it is new to both.
proof fn lemma_unsent_split(sent: Seq<Seq<u8>>, more: Seq<Seq<u8>>, s: Seq<NostrEventView>)
    ensures
        s.filter(unsent_pred(sent + more)) == s.filter(unsent_pred(sent)).filter(unsent_pred(more)),
{
    lemma_filter_filter(s, unsent_pred(sent), unsent_pred(more));
    assert forall|e: NostrEventView| #[trigger] unsent_pred(sent + more)(e) == and_pred(
        unsent_pred(sent),
        unsent_pred(more),
    )(e) by {
        vstd::seq_lib::lemma_seq_concat_contains_all_elements(sent, more, e.id);
    }
    assert(unsent_pred(sent + more) =~= and_pred(unsent_pred(sent), unsent_pred(more)));
}

/// The candidates of a poll after `more` ids were sent are the earlier
/// candidates without the events of those ids.
proof fn lemma_candidates_after_more_sent(
    sent: Seq<Seq<u8>>,
    more: Seq<Seq<u8>>,
    requests: Seq<NostrEventView>,
    responses: Seq<NostrEventView>,
    f: FilterView,
)
    ensures
        filter_candidates(sent + more, requests, responses, f) == filter_candidates(
            sent,
            requests,
            responses,
            f,
        ).filter(unsent_pred(more)),
{
    let v = unsent_pred(more);
    let empty = Seq::<NostrEventView>::empty();
    assert(empty.filter(v) =~= empty) by {
        reveal_with_fuel(Seq::filter, 1);
    }
    lemma_unsent_split(sent, more, requests);
    lemma_unsent_split(sent, more, responses);
    let reqs = if list_or_empty(f.kinds).contains(WALLET_CONNECT_REQUEST) {
        requests.filter(unsent_pred(sent))
    } else {
        empty
    };
    let resps = if list_or_empty(f.kinds).contains(WALLET_CONNECT_RESPONSE) {
        responses.filter(unsent_pred(sent))
    } else {
        empty
    };
    Seq::filter_distributes_over_add(reqs, resps, v);
    if let Some(ids) = f.events {
        lemma_filters_commute(reqs + resps, v, refers_pred(ids));
    }
}

/// The candidates of a poll have no repeats when the stored events have none.
proof fn lemma_candidates_no_duplicates(
    sent: Seq<Seq<u8>>,
    requests: Seq<NostrEventView>,
    responses: Seq<NostrEventView>,
    f: FilterView,
)
    requires
        (requests + responses).no_duplicates(),
    ensures
        filter_candidates(sent, requests, responses, f).no_duplicates(),
{
    let all = requests + responses;
    let u = unsent_pred(sent);
    let empty = Seq::<NostrEventView>::empty();
    assert(empty.filter(u) =~= empty) by {
        reveal_with_fuel(Seq::filter, 1);
    }
    assert forall|i: int, j: int| 0 <= i < requests.len() && 0 <= j < requests.len() && i != j
        implies requests[i] != requests[j] by {
        assert(all[i] == requests[i] && all[j] == requests[j]);
    }
    assert forall|i: int, j: int| 0 <= i < responses.len() && 0 <= j < responses.len() && i != j
        implies responses[i] != responses[j] by {
        assert(all[requests.len() + i] == responses[i] && all[requests.len() + j] == responses[j]);
    }
    let want_reqs = list_or_empty(f.kinds).contains(WALLET_CONNECT_REQUEST);
    let want_resps = list_or_empty(f.kinds).contains(WALLET_CONNECT_RESPONSE);
    let picked_reqs = if want_reqs { requests } else { empty };
    let picked_resps = if want_resps { responses } else { empty };
    let picked = picked_reqs + picked_resps;
    if want_reqs && want_resps {
        assert(picked == all);
    } else if want_reqs {
        assert(picked =~= requests);
    } else {
        assert(picked =~= picked_resps);
    }
    lemma_filter_no_duplicates(picked, u);
    Seq::filter_distributes_over_add(picked_reqs, picked_resps, u);
    let c = picked_reqs.filter(u) + picked_resps.filter(u);
    if let Some(ids) = f.events {
        lemma_filter_no_duplicates(c, refers_pred(ids));
    }
}

/// Polling a filter again after more events were sent gives the earlier
/// answer without those events, in the same order, provided no stored event
/// is stored twice.
pub proof fn later_poll_drops_newly_sent_events(
    sent: Seq<Seq<u8>>,
    more: Seq<Seq<u8>>,
    requests: Seq<NostrEventView>,
    responses: Seq<NostrEventView>,
    f: FilterView,
    before: Seq<NostrEventView>,
    after: Seq<NostrEventView>,
)
    requires
        (requests + responses).no_duplicates(),
        stable_sort_of(EventOrder::OldestFirst, filter_candidates(sent, requests, responses, f), before),
        stable_sort_of(
            EventOrder::OldestFirst,
            filter_candidates(sent + more, requests, responses, f),
            after,
        ),
    ensures
        dedup_spec(after) == dedup_spec(before).filter(unsent_pred(more)),
{
    let c = filter_candidates(sent, requests, responses, f);
    let v = unsent_pred(more);
    lemma_candidates_after_more_sent(sent, more, requests, responses, f);
    stable_sort_commutes_with_filter(EventOrder::OldestFirst, c, before, v);
    stable_sort_is_unique(EventOrder::OldestFirst, c.filter(v), after, before.filter(v));
    lemma_candidates_no_duplicates(sent, requests, responses, f);
    stable_sort_keeps_no_duplicates(EventOrder::OldestFirst, c, before);
    lemma_filter_no_duplicates(before, v);
    assert forall|i: int| 0 <= i < before.len() - 1 implies #[trigger] before[i] != before[i + 1] by {
        assert(before[i] != before[i + 1]);
    }
    assert forall|i: int| 0 <= i < after.len() - 1 implies #[trigger] after[i] != after[i + 1] by {
        assert(after[i] != after[i + 1]);
    }
    dedup_without_adjacent_repeats_is_identity(before);
    dedup_without_adjacent_repeats_is_identity(after);
}

/// The row of the event table that storing an event leaves: the event's
/// fields without its tags, which go to the tag table.
pub open spec fn stored_event_row(e: NostrEventView) -> NostrEventView {
    NostrEventView { tags: Seq::empty(), ..e }
}

/// The rows of the tag table that storing the tag values `values` of event
/// `id` leaves, in order (for values that have a value).
pub open spec fn stored_tag_rows(id: Seq<u8>, values: Seq<(Seq<char>, Option<Seq<char>>)>) -> Seq<TagRowView> {
    Seq::new(values.len(), |k: int| TagRowView { event_id: id, name: values[k].0, value: values[k].1->0 })
}

/// The test for tag rows of event `id`.
pub open spec fn row_of_pred(id: Seq<u8>) -> spec_fn(TagRowView) -> bool {
    |r: TagRowView| r.event_id == id
}

/// The `[name, value]` tag that a tag row gives back.
pub open spec fn row_tag(r: TagRowView) -> Seq<Seq<char>> {
    seq![r.name, r.value]
}

/// The tags that a list of tag rows gives back, in order.
pub open spec fn rows_as_tags(rows: Seq<TagRowView>) -> Seq<Seq<Seq<char>>> {
    rows.map_values(|r: TagRowView| row_tag(r))
}

/// The tags that the rows of `id` give back are those rows, in order, as tags.
proof fn lemma_row_tags_are_rows_of_id(rows: Seq<TagRowView>, id: Seq<u8>)
    ensures
        row_tags(rows, id) == rows_as_tags(rows.filter(row_of_pred(id))),
    decreases rows.len(),
{
    if rows.len() == 0 {
        reveal_with_fuel(Seq::filter, 1);
        assert(rows_as_tags(rows.filter(row_of_pred(id))) =~= Seq::<Seq<Seq<char>>>::empty());
    } else {
        let d = rows.drop_last();
        let l = rows.last();
        lemma_row_tags_are_rows_of_id(d, id);
        assert(rows =~= d.push(l));
        d.lemma_filter_push(l, row_of_pred(id));
        let f = d.filter(row_of_pred(id));
        if l.event_id == id {
            assert(rows_as_tags(f.push(l)) =~= rows_as_tags(f).push(seq![l.name, l.value]));
        }
    }
}

/// A stored wallet connect event reads back unchanged: when the event table
/// holds the event's row (and no other event of its id), and the rows of its
/// id in the tag table are, in order, the rows that storing its tags left,
/// then assembling the stored events gives the event back, provided it
/// checks out and each of its tags is a name and one value.
pub proof fn stored_nwc_event_reads_back(
    e: NostrEventView,
    events: Seq<NostrEventView>,
    i: int,
    rows: Seq<TagRowView>,
)
    requires
        nostr_event_verifies(e),
        forall|k: int| 0 <= k < e.tags.len() ==> (#[trigger] e.tags[k]).len() == 2,
        0 <= i < events.len(),
        events[i] == stored_event_row(e),
        forall|j: int| 0 <= j < events.len() && j != i ==> (#[trigger] events[j]).id != e.id,
        rows.filter(row_of_pred(e.id)) == stored_tag_rows(e.id, tag_rows_values_of(e.tags)),
    ensures
        assembled_events(events, rows).contains(e),
{
    lemma_row_tags_are_rows_of_id(rows, e.id);
    let stored = stored_tag_rows(e.id, tag_rows_values_of(e.tags));
    assert(rows_as_tags(stored) =~= e.tags) by {
        assert forall|k: int| 0 <= k < e.tags.len() implies #[trigger] rows_as_tags(stored)[k]
            == e.tags[k] by {
            assert(e.tags[k].len() == 2);
            assert(e.tags[k] =~= seq![e.tags[k][0], e.tags[k][1]]);
        }
    }
    assert(first_of_id(events, i));
    let a = attach_tags_spec(events, rows);
    assert(a[i].tags =~= e.tags);
    assert(a[i] == e);
    a.lemma_filter_contains(verifies_pred(), i);
}

/// An event refers to the filter's ids as soon as any one of its tags, at
/// any position, is an `e` reference to one of them.
pub proof fn any_reference_tag_counts(e: NostrEventView, ids: Seq<Seq<u8>>, k: int, id: Seq<u8>)
    requires
        0 <= k < e.tags.len(),
        nip10_event_reference(e.tags[k]) == Some(id),
        ids.contains(id),
    ensures
        refers_to_any(e, ids),
{
}

/// A stored response not yet sent, of a kind the filter names, that has a tag
/// (at any position) referring to one of the filter's event ids, is sent by
/// the poll.
pub proof fn referring_unsent_response_is_polled(
    sent: Seq<Seq<u8>>,
    requests: Seq<NostrEventView>,
    responses: Seq<NostrEventView>,
    f: FilterView,
    sorted: Seq<NostrEventView>,
    i: int,
    k: int,
    id: Seq<u8>,
)
    requires
        0 <= i < responses.len(),
        !sent.contains(responses[i].id),
        list_or_empty(f.kinds).contains(WALLET_CONNECT_RESPONSE),
        f.events matches Some(ids) && ids.contains(id),
        0 <= k < responses[i].tags.len(),
        nip10_event_reference(responses[i].tags[k]) == Some(id),
        stable_sort_of(EventOrder::OldestFirst, filter_candidates(sent, requests, responses, f), sorted),
    ensures
        dedup_spec(sorted).contains(responses[i]),
{
    let e = responses[i];
    let ids = f.events->0;
    any_reference_tag_counts(e, ids, k, id);
    let reqs = if list_or_empty(f.kinds).contains(WALLET_CONNECT_REQUEST) {
        requests.filter(unsent_pred(sent))
    } else {
        Seq::empty()
    };
    let resps = responses.filter(unsent_pred(sent));
    responses.lemma_filter_contains(unsent_pred(sent), i);
    let k2 = choose|k2: int| 0 <= k2 < resps.len() && resps[k2] == e;
    assert((reqs + resps)[reqs.len() + k2] == e);
    (reqs + resps).lemma_filter_contains(refers_pred(ids), reqs.len() + k2);
    let c = filter_candidates(sent, requests, responses, f);
    assert(c.contains(e));
    stable_sort_keeps_members(EventOrder::OldestFirst, c, sorted, e);
    dedup_keeps_members_without_adjacent_repeats(sorted, e);
}

/// What the tag table keeps of each tag, in the tags' order: its name, and
/// its first value when it has one (the rest of a longer tag is not kept).
pub proof fn tag_rows_keep_name_and_first_value(tags: Seq<Seq<Seq<char>>>, k: int)
    requires
        0 <= k < tags.len(),
        tags[k].len() > 0,
    ensures
        tag_rows_values_of(tags).len() == tags.len(),
        tag_rows_values_of(tags)[k].0 == tags[k][0],
        tags[k].len() >= 2 ==> tag_rows_values_of(tags)[k].1 == Some(tags[k][1]),
        tags[k].len() == 1 ==> tag_rows_values_of(tags)[k].1 is None,
{
}

/// The tags that the tag rows give an event are the rows of its id, in row
/// order, each as a `[name, value]` tag; rows of other events play no part.
pub proof fn row_tags_are_the_rows_of_the_id(rows: Seq<TagRowView>, id: Seq<u8>)
    ensures
        row_tags(rows, id) == rows_as_tags(rows.filter(row_of_pred(id))),
        forall|k: int| 0 <= k < row_tags(rows, id).len() ==> (#[trigger] row_tags(rows, id)[k]).len() == 2,
{
    lemma_row_tags_are_rows_of_id(rows, id);
}

/// When two stored events share an id, the tag rows of that id go to the
/// first one only; the later one is handed back as it was stored. Every
/// event keeps its id, author, time, kind, content and signature, and its
/// own tags come first.
pub proof fn tag_rows_go_to_the_first_event_of_an_id(
    events: Seq<NostrEventView>,
    rows: Seq<TagRowView>,
    i: int,
    j: int,
)
    requires
        0 <= i < j < events.len(),
        events[i].id == events[j].id,
    ensures
        attach_tags_spec(events, rows).len() == events.len(),
        attach_tags_spec(events, rows)[j] == events[j],
        attach_tags_spec(events, rows)[i].id == events[i].id,
        attach_tags_spec(events, rows)[i].pubkey == events[i].pubkey,
        attach_tags_spec(events, rows)[i].created_at == events[i].created_at,
        attach_tags_spec(events, rows)[i].kind == events[i].kind,
        attach_tags_spec(events, rows)[i].content == events[i].content,
        attach_tags_spec(events, rows)[i].sig == events[i].sig,
        attach_tags_spec(events, rows)[i].tags.subrange(0, events[i].tags.len() as int) == events[i].tags,
{
    let a = attach_tags_spec(events, rows);
    assert(!first_of_id(events, j));
    assert(a[j].tags == events[j].tags);
    assert(a[j] =~= events[j]);
    assert(a[i].tags.subrange(0, events[i].tags.len() as int) =~= events[i].tags);
}

/// The request that a wallet connect response fulfils is named by its first
/// `p` tag (the author) and its first `e` tag (the event), whatever other
/// tags come before or after them; any other kind fulfils nothing.
pub proof fn fulfilled_request_reads_first_p_and_e(event: NostrEventView, p: int, e: int)
    requires
        0 <= p < event.tags.len(),
        0 <= e < event.tags.len(),
        event.tags[p].len() > 0 && event.tags[p][0] == "p"@,
        event.tags[e].len() > 0 && event.tags[e][0] == "e"@,
        forall|j: int| 0 <= j < p ==> !(event.tags[j].len() > 0 && event.tags[j][0] == "p"@),
        forall|j: int| 0 <= j < e ==> !(event.tags[j].len() > 0 && event.tags[j][0] == "e"@),
    ensures
        event.kind != WALLET_CONNECT_RESPONSE ==> fulfilled_request(event) is None,
        event.kind == WALLET_CONNECT_RESPONSE ==> fulfilled_request(event) == match (
            nip01_public_key_reference(event.tags[p]),
            nip10_event_reference(event.tags[e]),
        ) {
            (Some(author), Some(id)) => Some((author, id)),
            _ => None,
        },
{
    lemma_first_tag_named(event.tags, "p"@, p);
    lemma_first_tag_named(event.tags, "e"@, e);
}

/// A response with no `p` tag or no `e` tag fulfils nothing.
pub proof fn fulfilled_request_needs_p_and_e(event: NostrEventView)
    requires
        (forall|j: int| 0 <= j < event.tags.len() ==> !(event.tags[j].len() > 0 && event.tags[j][0] == "p"@))
            || (forall|j: int| 0 <= j < event.tags.len() ==> !(event.tags[j].len() > 0 && event.tags[j][0] == "e"@)),
    ensures
        fulfilled_request(event) is None,
{
}

/// A stored event not yet sent, of a kind the filter names, is sent by the
/// poll when the filter names no events, or when one of its tags refers to
/// one of the events the filter names.
pub proof fn unsent_event_of_an_asked_kind_is_polled(
    sent: Seq<Seq<u8>>,
    requests: Seq<NostrEventView>,
    responses: Seq<NostrEventView>,
    f: FilterView,
    sorted: Seq<NostrEventView>,
    e: NostrEventView,
)
    requires
        (requests.contains(e) && list_or_empty(f.kinds).contains(23194u16)) || (responses.contains(e)
            && list_or_empty(f.kinds).contains(23195u16)),
        !sent.contains(e.id),
        f.events matches Some(ids) ==> refers_to_any(e, ids),
        stable_sort_of(EventOrder::OldestFirst, filter_candidates(sent, requests, responses, f), sorted),
    ensures
        dedup_spec(sorted).contains(e),
{
    let reqs = if list_or_empty(f.kinds).contains(WALLET_CONNECT_REQUEST) {
        requests.filter(unsent_pred(sent))
    } else {
        Seq::empty()
    };
    let resps = if list_or_empty(f.kinds).contains(WALLET_CONNECT_RESPONSE) {
        responses.filter(unsent_pred(sent))
    } else {
        Seq::empty()
    };
    let both = reqs + resps;
    if requests.contains(e) && list_or_empty(f.kinds).contains(23194u16) {
        let i = choose|i: int| 0 <= i < requests.len() && requests[i] == e;
        requests.lemma_filter_contains(unsent_pred(sent), i);
        let k = choose|k: int| 0 <= k < reqs.len() && reqs[k] == e;
        assert(both[k] == e);
    } else {
        let i = choose|i: int| 0 <= i < responses.len() && responses[i] == e;
        responses.lemma_filter_contains(unsent_pred(sent), i);
        let k = choose|k: int| 0 <= k < resps.len() && resps[k] == e;
        assert(both[reqs.len() + k] == e);
    }
    assert(both.contains(e));
    if let Some(ids) = f.events {
        let k = choose|k: int| 0 <= k < both.len() && both[k] == e;
        both.lemma_filter_contains(refers_pred(ids), k);
    }
    let c = filter_candidates(sent, requests, responses, f);
    assert(c.contains(e));
    stable_sort_keeps_members(EventOrder::OldestFirst, c, sorted, e);
    dedup_keeps_members_without_adjacent_repeats(sorted, e);
}

} // verus!
