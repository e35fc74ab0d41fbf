//! What a client sends: the parse of its text into an event, a subscription
//! request or anything else, and what the HTTP and websocket handlers do
//! with each.

use vstd::prelude::*;
use crate::event::{
    NostrEvent, NostrEventView, byte_strings_view, copy_tag, opt_bytes_view, string_views,
};
use crate::filter::{
    Filter, FilterView, filters_view, opt_byte_strings_view, opt_kinds_view, opt_strings_view,
};
use nostr::event::{Event, EventId};
use nostr::filter::Filter as NostrFilter;
use nostr::key::PublicKey;
use nostr::message::ClientMessage;

verus! {

/// The event id that a hex string stands for, when it stands for one.
pub uninterp spec fn nostr_event_id_hex(hex: Seq<char>) -> Option<Seq<u8>>;

/// The public key that a hex string stands for, when it stands for one.
pub uninterp spec fn nostr_public_key_hex(hex: Seq<char>) -> Option<Seq<u8>>;

/// The 32 bytes of the event id written in `hex`. Calls `EventId::from_hex`
/// of the nostr library (a 64-digit hex decode); which strings it accepts is
/// named, not stated.
#[verifier::external_body]
fn event_id_from_hex(hex: &String) -> (res: Option<Vec<u8>>)
    ensures
        opt_bytes_view(res) == nostr_event_id_hex(hex@),
        res is Some ==> res.unwrap()@.len() == 32,
{
    EventId::from_hex(hex).ok().map(|id| id.as_bytes().to_vec())
}

/// The 32 bytes of the public key written in `hex`. Calls
/// `PublicKey::from_hex` of the nostr library (a 64-digit hex decode); which
/// strings it accepts is named, not stated.
#[verifier::external_body]
fn public_key_from_hex(hex: &String) -> (res: Option<Vec<u8>>)
    ensures
        opt_bytes_view(res) == nostr_public_key_hex(hex@),
        res is Some ==> res.unwrap()@.len() == 32,
{
    PublicKey::from_hex(hex).ok().map(|k| k.as_bytes().to_vec())
}

/// The decoding of every string of `hexes` by `decode`, in order, or `None`
/// when one of them does not decode.
pub open spec fn decode_all(hexes: Seq<Seq<char>>, decode: spec_fn(Seq<char>) -> Option<Seq<u8>>) -> Option<
    Seq<Seq<u8>>,
>
    decreases hexes.len(),
{
    if hexes.len() == 0 {
        Some(Seq::empty())
    } else {
        match (decode_all(hexes.drop_last(), decode), decode(hexes.last())) {
            (Some(done), Some(b)) => Some(done.push(b)),
            _ => None,
        }
    }
}

/// Once a prefix of the list fails to decode, the whole list does.
proof fn lemma_decode_prefix_fails(
    hexes: Seq<Seq<char>>,
    decode: spec_fn(Seq<char>) -> Option<Seq<u8>>,
    k: int,
)
    requires
        0 <= k <= hexes.len(),
        decode_all(hexes.take(k), decode) is None,
    ensures
        decode_all(hexes, decode) is None,
    decreases hexes.len(),
{
    if k == hexes.len() {
        assert(hexes.take(k) =~= hexes);
    } else {
        assert(hexes.drop_last().take(k) =~= hexes.take(k));
        lemma_decode_prefix_fails(hexes.drop_last(), decode, k);
    }
}

/// The test of a hex event id.
pub open spec fn event_id_decoder() -> spec_fn(Seq<char>) -> Option<Seq<u8>> {
    |h: Seq<char>| nostr_event_id_hex(h)
}

/// The test of a hex public key.
pub open spec fn public_key_decoder() -> spec_fn(Seq<char>) -> Option<Seq<u8>> {
    |h: Seq<char>| nostr_public_key_hex(h)
}

/// The value of an optional list of byte strings that may be missing.
pub open spec fn opt_opt_byte_strings_view(o: Option<Option<Vec<Vec<u8>>>>) -> Option<Option<Seq<Seq<u8>>>> {
    match o {
        Some(x) => Some(opt_byte_strings_view(x)),
        None => None,
    }
}

/// The decoding of an optional list of hex strings: `Some(None)` when there
/// is no list, `None` when one of its strings does not decode.
pub open spec fn decode_list(
    hexes: Option<Seq<Seq<char>>>,
    decode: spec_fn(Seq<char>) -> Option<Seq<u8>>,
) -> Option<Option<Seq<Seq<u8>>>> {
    match hexes {
        None => Some(None),
        Some(hs) => match decode_all(hs, decode) {
            Some(bs) => Some(Some(bs)),
            None => None,
        },
    }
}

/// The event ids written in `hexes`, in order, or `None` when one of them is
/// not an event id.
fn event_ids_from_hex(hexes: &Option<Vec<String>>) -> (res: Option<Option<Vec<Vec<u8>>>>)
    ensures
        opt_opt_byte_strings_view(res) == decode_list(opt_strings_view(*hexes), event_id_decoder()),
{
    match hexes {
        None => Some(None),
        Some(hs) => {
            let mut out: Vec<Vec<u8>> = Vec::new();
            let mut i: usize = 0;
            while i < hs.len()
                invariant
                    i <= hs.len(),
                    opt_strings_view(*hexes) == Some(string_views(hs@)),
                    decode_all(string_views(hs@).take(i as int), event_id_decoder()) == Some(
                        byte_strings_view(out@),
                    ),
                decreases hs.len() - i,
            {
                let ghost t = string_views(hs@).take(i + 1);
                assert(t.drop_last() =~= string_views(hs@).take(i as int));
                assert(t.last() == hs@[i as int]@);
                match event_id_from_hex(&hs[i]) {
                    Some(b) => {
                        let ghost prev = out@;
                        out.push(b);
                        assert(byte_strings_view(out@) =~= byte_strings_view(prev).push(out@.last()@));
                    },
                    None => {
                        proof {
                            assert(event_id_decoder()(t.last()) is None);
                            assert(decode_all(t, event_id_decoder()) is None);
                            lemma_decode_prefix_fails(string_views(hs@), event_id_decoder(), i + 1);

                        }
                        return None;
                    },
                }
                i = i + 1;
            }
            assert(string_views(hs@).take(hs.len() as int) =~= string_views(hs@));
            Some(Some(out))
        },
    }
}

/// The public keys written in `hexes`, in order, or `None` when one of them
/// is not a public key.
fn public_keys_from_hex(hexes: &Option<Vec<String>>) -> (res: Option<Option<Vec<Vec<u8>>>>)
    ensures
        opt_opt_byte_strings_view(res) == decode_list(opt_strings_view(*hexes), public_key_decoder()),
{
    match hexes {
        None => Some(None),
        Some(hs) => {
            let mut out: Vec<Vec<u8>> = Vec::new();
            let mut i: usize = 0;
            while i < hs.len()
                invariant
                    i <= hs.len(),
                    opt_strings_view(*hexes) == Some(string_views(hs@)),
                    decode_all(string_views(hs@).take(i as int), public_key_decoder()) == Some(
                        byte_strings_view(out@),
                    ),
                decreases hs.len() - i,
            {
                let ghost t = string_views(hs@).take(i + 1);
                assert(t.drop_last() =~= string_views(hs@).take(i as int));
                assert(t.last() == hs@[i as int]@);
                match public_key_from_hex(&hs[i]) {
                    Some(b) => {
                        let ghost prev = out@;
                        out.push(b);
                        assert(byte_strings_view(out@) =~= byte_strings_view(prev).push(out@.last()@));
                    },
                    None => {
                        proof {
                            assert(public_key_decoder()(t.last()) is None);
                            assert(decode_all(t, public_key_decoder()) is None);
                            lemma_decode_prefix_fails(string_views(hs@), public_key_decoder(), i + 1);

                        }
                        return None;
                    },
                }
                i = i + 1;
            }
            assert(string_views(hs@).take(hs.len() as int) =~= string_views(hs@));
            Some(Some(out))
        },
    }
}

/// A subscription filter as the nostr library reads it off the wire: ids,
/// authors and kinds already decoded, and each single-letter tag query
/// (`#e`, `#p`, ...) as its letter and its strings.
pub struct RawFilter {
    pub ids: Option<Vec<Vec<u8>>>,
    pub authors: Option<Vec<Vec<u8>>>,
    pub kinds: Option<Vec<u16>>,
    pub tags: Vec<(char, Vec<String>)>,
}

/// The mathematical value of a raw filter.
pub struct RawFilterView {
    pub ids: Option<Seq<Seq<u8>>>,
    pub authors: Option<Seq<Seq<u8>>>,
    pub kinds: Option<Seq<u16>>,
    pub tags: Seq<(char, Seq<Seq<char>>)>,
}

/// The value of a list of tag queries.
pub open spec fn tag_queries_view(v: Seq<(char, Vec<String>)>) -> Seq<(char, Seq<Seq<char>>)> {
    v.map_values(|q: (char, Vec<String>)| (q.0, string_views(q.1@)))
}

impl View for RawFilter {
    type V = RawFilterView;

    open spec fn view(&self) -> RawFilterView {
        RawFilterView {
            ids: opt_byte_strings_view(self.ids),
            authors: opt_byte_strings_view(self.authors),
            kinds: opt_kinds_view(self.kinds),
            tags: tag_queries_view(self.tags@),
        }
    }
}

/// The strings of the first query of letter `c`, if there is one.
pub open spec fn tag_query(tags: Seq<(char, Seq<Seq<char>>)>, c: char) -> Option<Seq<Seq<char>>>
    decreases tags.len(),
{
    if tags.len() == 0 {
        None
    } else if tags[0].0 == c {
        Some(tags[0].1)
    } else {
        tag_query(tags.drop_first(), c)
    }
}

/// The strings of the first query of letter `c`, if there is one.
fn tag_values(tags: &Vec<(char, Vec<String>)>, c: char) -> (res: Option<Vec<String>>)
    ensures
        opt_strings_view(res) == tag_query(tag_queries_view(tags@), c),
{
    let ghost all = tag_queries_view(tags@);
    let mut i: usize = 0;
    assert(all.skip(0) =~= all);
    while i < tags.len()
        invariant
            i <= tags.len(),
            all == tag_queries_view(tags@),
            tag_query(all, c) == tag_query(all.skip(i as int), c),
        decreases tags.len() - i,
    {
        assert(all.skip(i as int)[0] == all[i as int]);
        if tags[i].0 == c {
            let v = copy_tag(&tags[i].1);
            assert(string_views(v@) =~= string_views(tags@[i as int].1@));
            return Some(v);
        }
        assert(all.skip(i as int).drop_first() =~= all.skip(i + 1));
        i = i + 1;
    }
    None
}

/// The filter that a raw filter stands for: its `#e` values decoded as
/// event ids and its `#p` values as public keys; `None` when one of them
/// does not decode.
pub open spec fn filter_of_raw(r: RawFilterView) -> Option<FilterView> {
    match (
        decode_list(tag_query(r.tags, 'e'), event_id_decoder()),
        decode_list(tag_query(r.tags, 'p'), public_key_decoder()),
    ) {
        (Some(events), Some(pubkeys)) => Some(
            FilterView {
                ids: r.ids,
                authors: r.authors,
                kinds: r.kinds,
                events,
                pubkeys,
                hashtags: tag_query(r.tags, 't'),
                references: tag_query(r.tags, 'r'),
                identifiers: tag_query(r.tags, 'd'),
            },
        ),
        _ => None,
    }
}

/// The query of letter `c` is the strings of the first entry of that letter.
proof fn lemma_tag_query_first(tags: Seq<(char, Seq<Seq<char>>)>, c: char, i: int)
    requires
        0 <= i < tags.len(),
        tags[i].0 == c,
        forall|j: int| 0 <= j < i ==> tags[j].0 != c,
    ensures
        tag_query(tags, c) == Some(tags[i].1),
    decreases i,
{
    if i > 0 {
        assert(tags[0].0 != c);
        let d = tags.drop_first();
        assert forall|j: int| 0 <= j < i - 1 implies d[j].0 != c by {
            assert(d[j] == tags[j + 1]);
        }
        lemma_tag_query_first(d, c, i - 1);
    }
}

/// With no entry of letter `c` there is no query of that letter.
proof fn lemma_tag_query_absent(tags: Seq<(char, Seq<Seq<char>>)>, c: char)
    requires
        forall|j: int| 0 <= j < tags.len() ==> tags[j].0 != c,
    ensures
        tag_query(tags, c) is None,
    decreases tags.len(),
{
    if tags.len() > 0 {
        assert(tags[0].0 != c);
        let d = tags.drop_first();
        assert forall|j: int| 0 <= j < d.len() implies d[j].0 != c by {
            assert(d[j] == tags[j + 1]);
        }
        lemma_tag_query_absent(d, c);
    }
}

/// A list decodes exactly when each of its strings does, and then to the
/// decoding of each string, in order.
pub proof fn decode_all_is_pointwise(hexes: Seq<Seq<char>>, decode: spec_fn(Seq<char>) -> Option<Seq<u8>>)
    ensures
        decode_all(hexes, decode) is Some <==> forall|k: int| 0 <= k < hexes.len() ==> #[trigger] decode(hexes[k]) is Some,
        decode_all(hexes, decode) matches Some(bs) ==> bs.len() == hexes.len() && forall|k: int|
            0 <= k < hexes.len() ==> Some(#[trigger] bs[k]) == decode(hexes[k]),
    decreases hexes.len(),
{
    if hexes.len() > 0 {
        let d = hexes.drop_last();
        decode_all_is_pointwise(d, decode);
        assert forall|k: int| 0 <= k < d.len() implies d[k] == hexes[k] by {}
        if forall|k: int| 0 <= k < hexes.len() ==> #[trigger] decode(hexes[k]) is Some {
            assert forall|k: int| 0 <= k < d.len() implies #[trigger] decode(d[k]) is Some by {
                assert(decode(hexes[k]) is Some);
            }
            assert(decode(hexes[hexes.len() - 1]) is Some);
        }
        if decode_all(hexes, decode) is Some {
            assert forall|k: int| 0 <= k < hexes.len() implies #[trigger] decode(hexes[k]) is Some by {
                if k < d.len() {
                    assert(decode(d[k]) is Some);
                }
            }
        }
        if let Some(bs) = decode_all(hexes, decode) {
            let done = decode_all(d, decode)->0;
            assert forall|k: int| 0 <= k < hexes.len() implies Some(#[trigger] bs[k]) == decode(hexes[k]) by {
                if k < d.len() {
                    assert(bs[k] == done[k]);
                    assert(Some(done[k]) == decode(d[k]));
                }
            }
        }
    }
}

/// A filter read from a raw filter keeps its ids, authors and kinds, and takes
/// each tag query from the first entry of its NIP-01 letter: hashtags from
/// `t`, references from `r`, identifiers from `d`, and the referenced events
/// and public keys from `e` and `p`, each value decoded as an event id or a
/// public key. A letter with no entry gives no query.
pub proof fn filter_reads_queries_by_letter(r: RawFilterView, c: char, i: int)
    requires
        0 <= i < r.tags.len(),
        r.tags[i].0 == c,
        forall|j: int| 0 <= j < i ==> r.tags[j].0 != c,
    ensures
        filter_of_raw(r) matches Some(f) ==> {
            &&& f.ids == r.ids
            &&& f.authors == r.authors
            &&& f.kinds == r.kinds
            &&& c == 't' ==> f.hashtags == Some(r.tags[i].1)
            &&& c == 'r' ==> f.references == Some(r.tags[i].1)
            &&& c == 'd' ==> f.identifiers == Some(r.tags[i].1)
            &&& c == 'e' ==> (f.events matches Some(ev) && ev.len() == r.tags[i].1.len()
                && forall|k: int| 0 <= k < ev.len() ==> Some(#[trigger] ev[k]) == nostr_event_id_hex(r.tags[i].1[k]))
            &&& c == 'p' ==> (f.pubkeys matches Some(pk) && pk.len() == r.tags[i].1.len()
                && forall|k: int| 0 <= k < pk.len() ==> Some(#[trigger] pk[k]) == nostr_public_key_hex(r.tags[i].1[k]))
        },
        c == 'e' ==> (filter_of_raw(r) is None <== exists|k: int|
            0 <= k < r.tags[i].1.len() && #[trigger] nostr_event_id_hex(r.tags[i].1[k]) is None),
        c == 'p' ==> (filter_of_raw(r) is None <== exists|k: int|
            0 <= k < r.tags[i].1.len() && #[trigger] nostr_public_key_hex(r.tags[i].1[k]) is None),
{
    lemma_tag_query_first(r.tags, c, i);
    decode_all_is_pointwise(r.tags[i].1, event_id_decoder());
    decode_all_is_pointwise(r.tags[i].1, public_key_decoder());
    if c == 'e' {
        if exists|k: int| 0 <= k < r.tags[i].1.len() && #[trigger] nostr_event_id_hex(r.tags[i].1[k]) is None {
            let k = choose|k: int| 0 <= k < r.tags[i].1.len() && #[trigger] nostr_event_id_hex(r.tags[i].1[k]) is None;
            assert(event_id_decoder()(r.tags[i].1[k]) is None);
        }
    }
    if c == 'p' {
        if exists|k: int| 0 <= k < r.tags[i].1.len() && #[trigger] nostr_public_key_hex(r.tags[i].1[k]) is None {
            let k = choose|k: int| 0 <= k < r.tags[i].1.len() && #[trigger] nostr_public_key_hex(r.tags[i].1[k]) is None;
            assert(public_key_decoder()(r.tags[i].1[k]) is None);
        }
    }
    if let Some(f) = filter_of_raw(r) {
        if c == 'e' {
            let ev = f.events->0;
            assert forall|k: int| 0 <= k < ev.len() implies Some(#[trigger] ev[k]) == nostr_event_id_hex(r.tags[i].1[k]) by {
                assert(Some(ev[k]) == event_id_decoder()(r.tags[i].1[k]));
            }
        }
        if c == 'p' {
            let pk = f.pubkeys->0;
            assert forall|k: int| 0 <= k < pk.len() implies Some(#[trigger] pk[k]) == nostr_public_key_hex(r.tags[i].1[k]) by {
                assert(Some(pk[k]) == public_key_decoder()(r.tags[i].1[k]));
            }
        }
    }
}

/// A raw filter is read whenever every value of its first `e` entry is an
/// event id and every value of its first `p` entry a public key; a letter
/// without an entry gives no query.
pub proof fn filter_is_read_when_references_decode(r: RawFilterView, c: char)
    requires
        forall|i: int, k: int|
            0 <= i < r.tags.len() && r.tags[i].0 == 'e' && 0 <= k < r.tags[i].1.len() ==> #[trigger] nostr_event_id_hex(r.tags[i].1[k]) is Some,
        forall|i: int, k: int|
            0 <= i < r.tags.len() && r.tags[i].0 == 'p' && 0 <= k < r.tags[i].1.len() ==> #[trigger] nostr_public_key_hex(r.tags[i].1[k]) is Some,
    ensures
        filter_of_raw(r) is Some,
        (forall|j: int| 0 <= j < r.tags.len() ==> r.tags[j].0 != c) ==> (filter_of_raw(r) matches Some(f) && (c
            == 't' ==> f.hashtags is None) && (c == 'r' ==> f.references is None) && (c == 'd'
            ==> f.identifiers is None) && (c == 'e' ==> f.events is None) && (c == 'p' ==> f.pubkeys is None)),
{
    if forall|j: int| 0 <= j < r.tags.len() ==> r.tags[j].0 != c {
        lemma_tag_query_absent(r.tags, c);
    }
    if exists|i: int| 0 <= i < r.tags.len() && r.tags[i].0 == 'e' {
        let i = first_entry(r.tags, 'e');
        lemma_tag_query_first(r.tags, 'e', i);
        decode_all_is_pointwise(r.tags[i].1, event_id_decoder());
        assert forall|k: int| 0 <= k < r.tags[i].1.len() implies #[trigger] event_id_decoder()(r.tags[i].1[k]) is Some by {
            assert(nostr_event_id_hex(r.tags[i].1[k]) is Some);
        }
    } else {
        lemma_tag_query_absent(r.tags, 'e');
    }
    if exists|i: int| 0 <= i < r.tags.len() && r.tags[i].0 == 'p' {
        let i = first_entry(r.tags, 'p');
        lemma_tag_query_first(r.tags, 'p', i);
        decode_all_is_pointwise(r.tags[i].1, public_key_decoder());
        assert forall|k: int| 0 <= k < r.tags[i].1.len() implies #[trigger] public_key_decoder()(r.tags[i].1[k]) is Some by {
            assert(nostr_public_key_hex(r.tags[i].1[k]) is Some);
        }
    } else {
        lemma_tag_query_absent(r.tags, 'p');
    }
}

/// The position of the first entry of letter `c`, where there is one.
proof fn first_entry(tags: Seq<(char, Seq<Seq<char>>)>, c: char) -> (i: int)
    requires
        exists|i: int| 0 <= i < tags.len() && tags[i].0 == c,
    ensures
        0 <= i < tags.len(),
        tags[i].0 == c,
        forall|j: int| 0 <= j < i ==> tags[j].0 != c,
    decreases tags.len(),
{
    if tags[0].0 == c {
        0
    } else {
        let d = tags.drop_first();
        let w = choose|i: int| 0 <= i < tags.len() && tags[i].0 == c;
        assert(d[w - 1] == tags[w]);
        let i = first_entry(d, c);
        assert forall|j: int| 0 <= j < i + 1 implies tags[j].0 != c by {
            if j > 0 {
                assert(tags[j] == d[j - 1]);
            }
        }
        i + 1
    }
}

/// The value of a filter that may be missing.
pub open spec fn opt_filter_view(o: Option<Filter>) -> Option<FilterView> {
    match o {
        Some(f) => Some(f@),
        None => None,
    }
}

/// The filter that a raw filter stands for, or `None` when one of its `#e`
/// values is not an event id or one of its `#p` values is not a public key.
pub fn filter_from_raw(raw: RawFilter) -> (res: Option<Filter>)
    ensures
        opt_filter_view(res) == filter_of_raw(raw@),
{
    let events = event_ids_from_hex(&tag_values(&raw.tags, 'e'));
    let pubkeys = public_keys_from_hex(&tag_values(&raw.tags, 'p'));
    match (events, pubkeys) {
        (Some(events), Some(pubkeys)) => Some(
            Filter {
                ids: raw.ids,
                authors: raw.authors,
                kinds: raw.kinds,
                events,
                pubkeys,
                hashtags: tag_values(&raw.tags, 't'),
                references: tag_values(&raw.tags, 'r'),
                identifiers: tag_values(&raw.tags, 'd'),
            },
        ),
        _ => None,
    }
}

/// A client message as the nostr library reads it: an event or the filters
/// of a subscription request in their JSON form, or some other message.
pub enum ClientMessageJson {
    Event(String),
    Req { subscription_id: String, filters: Vec<String> },
    Other,
}

/// The mathematical value of a client message in JSON form.
pub enum ClientMessageJsonView {
    Event(Seq<char>),
    Req { subscription_id: Seq<char>, filters: Seq<Seq<char>> },
    Other,
}

/// The value of a client message in JSON form that may be missing.
pub open spec fn opt_message_json_view(o: Option<ClientMessageJson>) -> Option<ClientMessageJsonView> {
    match o {
        Some(ClientMessageJson::Event(e)) => Some(ClientMessageJsonView::Event(e@)),
        Some(ClientMessageJson::Req { subscription_id, filters }) => Some(
            ClientMessageJsonView::Req {
                subscription_id: subscription_id@,
                filters: string_views(filters@),
            },
        ),
        Some(ClientMessageJson::Other) => Some(ClientMessageJsonView::Other),
        None => None,
    }
}

/// What the nostr library reads a client's text as, when it reads it.
pub uninterp spec fn nostr_client_message(text: Seq<char>) -> Option<ClientMessageJsonView>;

/// The event that the nostr library reads a JSON text as, when it reads one.
pub uninterp spec fn nostr_event_json(json: Seq<char>) -> Option<NostrEventView>;

/// The raw filter that the nostr library reads a JSON text as, when it reads one.
pub uninterp spec fn nostr_filter_json(json: Seq<char>) -> Option<RawFilterView>;

/// Reads a client's text. Calls `ClientMessage::from_json` of the nostr
/// library; an `EVENT` message gives its event, and a `REQ` message its
/// subscription id and filters, each written back with `try_as_json`; any
/// other message is `Other`. What the library reads is named, not stated;
/// text that it does not read, or a failed write, gives `None`.
#[verifier::external_body]
fn parse_client_message(text: &str) -> (res: Option<ClientMessageJson>)
    ensures
        opt_message_json_view(res) == nostr_client_message(text@),
{
    match ClientMessage::from_json(text) {
        Ok(ClientMessage::Event(e)) => Some(ClientMessageJson::Event(e.try_as_json().ok()?)),
        Ok(ClientMessage::Req { subscription_id, filters }) => Some(ClientMessageJson::Req {
            subscription_id: subscription_id.to_string(),
            filters: filters.iter().map(|f| f.try_as_json().ok()).collect::<Option<Vec<String>>>()?,
        }),
        Ok(_) => Some(ClientMessageJson::Other),
        Err(_) => None,
    }
}

/// The value of an event that may be missing.
pub open spec fn opt_event_view(o: Option<NostrEvent>) -> Option<NostrEventView> {
    match o {
        Some(e) => Some(e@),
        None => None,
    }
}

/// Reads an event's JSON. Calls `Event::from_json` of the nostr library and
/// takes the event's fields as plain values; what it reads is named, not
/// stated.
#[verifier::external_body]
fn parse_event_json(json: &String) -> (res: Option<NostrEvent>)
    ensures
        opt_event_view(res) == nostr_event_json(json@),
{
    let e = Event::from_json(json).ok()?;
    Some(NostrEvent {
        id: e.id.as_bytes().to_vec(),
        pubkey: e.pubkey.as_bytes().to_vec(),
        created_at: e.created_at.as_secs(),
        kind: e.kind.as_u16(),
        tags: e.tags.iter().map(|t| t.as_slice().to_vec()).collect(),
        content: e.content,
        sig: e.sig.as_bytes().to_vec(),
    })
}

/// The value of a raw filter that may be missing.
pub open spec fn opt_raw_filter_view(o: Option<RawFilter>) -> Option<RawFilterView> {
    match o {
        Some(f) => Some(f@),
        None => None,
    }
}

/// Reads a filter's JSON. Calls `Filter::from_json` of the nostr library and
/// takes its ids, authors, kinds and single-letter tag queries as plain
/// values; what it reads is named, not stated.
#[verifier::external_body]
fn parse_filter_json(json: &String) -> (res: Option<RawFilter>)
    ensures
        opt_raw_filter_view(res) == nostr_filter_json(json@),
{
    let f = NostrFilter::from_json(json).ok()?;
    Some(RawFilter {
        ids: f.ids.map(|s| s.iter().map(|x| x.as_bytes().to_vec()).collect()),
        authors: f.authors.map(|s| s.iter().map(|x| x.as_bytes().to_vec()).collect()),
        kinds: f.kinds.map(|s| s.iter().map(|k| k.as_u16()).collect()),
        tags: f.generic_tags.iter().map(|(l, v)| (l.as_char(), v.iter().cloned().collect())).collect(),
    })
}

/// The filters that a list of filter JSON texts stands for, in order, or
/// `None` when one of them is not read or does not stand for a filter.
pub open spec fn filters_of_json(jsons: Seq<Seq<char>>) -> Option<Seq<FilterView>>
    decreases jsons.len(),
{
    if jsons.len() == 0 {
        Some(Seq::empty())
    } else {
        match filters_of_json(jsons.drop_last()) {
            Some(done) => match nostr_filter_json(jsons.last()) {
                Some(raw) => match filter_of_raw(raw) {
                    Some(f) => Some(done.push(f)),
                    None => None,
                },
                None => None,
            },
            None => None,
        }
    }
}

/// Once a prefix of the list fails to give filters, the whole list does.
proof fn lemma_filters_prefix_fails(jsons: Seq<Seq<char>>, k: int)
    requires
        0 <= k <= jsons.len(),
        filters_of_json(jsons.take(k)) is None,
    ensures
        filters_of_json(jsons) is None,
    decreases jsons.len(),
{
    if k == jsons.len() {
        assert(jsons.take(k) =~= jsons);
    } else {
        assert(jsons.drop_last().take(k) =~= jsons.take(k));
        lemma_filters_prefix_fails(jsons.drop_last(), k);
    }
}

/// The value of a list of filters that may be missing.
pub open spec fn opt_filters_view(o: Option<Vec<Filter>>) -> Option<Seq<FilterView>> {
    match o {
        Some(v) => Some(filters_view(v@)),
        None => None,
    }
}

/// The filters that a list of filter JSON texts stands for, in order.
fn filters_from_json(jsons: &Vec<String>) -> (res: Option<Vec<Filter>>)
    ensures
        opt_filters_view(res) == filters_of_json(string_views(jsons@)),
{
    let mut out: Vec<Filter> = Vec::new();
    let mut i: usize = 0;
    while i < jsons.len()
        invariant
            i <= jsons.len(),
            filters_of_json(string_views(jsons@).take(i as int)) == Some(filters_view(out@)),
        decreases jsons.len() - i,
    {
        let ghost t = string_views(jsons@).take(i + 1);
        assert(t.drop_last() =~= string_views(jsons@).take(i as int));
        assert(t.last() == jsons@[i as int]@);
        let parsed = match parse_filter_json(&jsons[i]) {
            Some(raw) => filter_from_raw(raw),
            None => None,
        };
        match parsed {
            Some(f) => {
                let ghost prev = out@;
                out.push(f);
                assert(filters_view(out@) =~= filters_view(prev).push(out@.last()@));
            },
            None => {
                proof {
                    assert(filters_of_json(t) is None);
                    lemma_filters_prefix_fails(string_views(jsons@), i + 1);
                }
                return None;
            },
        }
        i = i + 1;
    }
    assert(string_views(jsons@).take(jsons.len() as int) =~= string_views(jsons@));
    Some(out)
}

/// What a client asked for: to take an event, to subscribe with filters, or
/// something this relay does not serve.
pub enum ClientRequest {
    Event(NostrEvent),
    Req { subscription_id: String, filters: Vec<Filter> },
    Other,
}

/// The mathematical value of a client request.
pub enum ClientRequestView {
    Event(NostrEventView),
    Req { subscription_id: Seq<char>, filters: Seq<FilterView> },
    Other,
}

/// The value of a client request that may be missing.
pub open spec fn opt_request_view(o: Option<ClientRequest>) -> Option<ClientRequestView> {
    match o {
        Some(ClientRequest::Event(e)) => Some(ClientRequestView::Event(e@)),
        Some(ClientRequest::Req { subscription_id, filters }) => Some(
            ClientRequestView::Req { subscription_id: subscription_id@, filters: filters_view(filters@) },
        ),
        Some(ClientRequest::Other) => Some(ClientRequestView::Other),
        None => None,
    }
}

/// What a client's text asks for, or `None` when the text, its event or one
/// of its filters cannot be read.
pub open spec fn client_request_of(text: Seq<char>) -> Option<ClientRequestView> {
    match nostr_client_message(text) {
        Some(ClientMessageJsonView::Event(json)) => match nostr_event_json(json) {
            Some(e) => Some(ClientRequestView::Event(e)),
            None => None,
        },
        Some(ClientMessageJsonView::Req { subscription_id, filters }) => match filters_of_json(filters) {
            Some(fs) => Some(ClientRequestView::Req { subscription_id, filters: fs }),
            None => None,
        },
        Some(ClientMessageJsonView::Other) => Some(ClientRequestView::Other),
        None => None,
    }
}

/// A list of filter texts is read exactly when each text reads to a raw
/// filter that is read, and then to those filters, in order.
pub proof fn filters_are_read_one_by_one(jsons: Seq<Seq<char>>)
    ensures
        filters_of_json(jsons) is Some <==> forall|k: int| 0 <= k < jsons.len() ==> (#[trigger] nostr_filter_json(
            jsons[k],
        ) matches Some(raw) && filter_of_raw(raw) is Some),
        filters_of_json(jsons) matches Some(fs) ==> fs.len() == jsons.len() && forall|k: int|
            0 <= k < jsons.len() ==> Some(#[trigger] fs[k]) == filter_of_raw(nostr_filter_json(jsons[k])->0),
    decreases jsons.len(),
{
    if jsons.len() > 0 {
        let d = jsons.drop_last();
        filters_are_read_one_by_one(d);
        assert forall|k: int| 0 <= k < d.len() implies d[k] == jsons[k] by {}
        if forall|k: int| 0 <= k < jsons.len() ==> (#[trigger] nostr_filter_json(jsons[k]) matches Some(raw)
            && filter_of_raw(raw) is Some) {
            assert forall|k: int| 0 <= k < d.len() implies (#[trigger] nostr_filter_json(d[k]) matches Some(raw)
                && filter_of_raw(raw) is Some) by {
                assert(nostr_filter_json(jsons[k]) matches Some(raw) && filter_of_raw(raw) is Some);
            }
            assert(nostr_filter_json(jsons[jsons.len() - 1]) matches Some(raw) && filter_of_raw(raw) is Some);
        }
        if filters_of_json(jsons) is Some {
            assert forall|k: int| 0 <= k < jsons.len() implies (#[trigger] nostr_filter_json(jsons[k]) matches Some(
                raw,
            ) && filter_of_raw(raw) is Some) by {
                if k < d.len() {
                    assert(nostr_filter_json(d[k]) matches Some(raw) && filter_of_raw(raw) is Some);
                }
            }
        }
        if let Some(fs) = filters_of_json(jsons) {
            let done = filters_of_json(d)->0;
            assert forall|k: int| 0 <= k < jsons.len() implies Some(#[trigger] fs[k]) == filter_of_raw(
                nostr_filter_json(jsons[k])->0,
            ) by {
                if k < d.len() {
                    assert(fs[k] == done[k]);
                    assert(Some(done[k]) == filter_of_raw(nostr_filter_json(d[k])->0));
                }
            }
        }
    }
}

/// What a client's text asks for: an `EVENT` whose event is read asks to take
/// that event, a `REQ` whose filters are all read asks to subscribe with them
/// under its id, any other message asks for nothing served here; text the
/// library does not read, an unreadable event and an unreadable filter give
/// nothing.
pub proof fn client_requests_follow_the_message(text: Seq<char>)
    ensures
        nostr_client_message(text) is None ==> client_request_of(text) is None,
        nostr_client_message(text) == Some(ClientMessageJsonView::Other) ==> client_request_of(text)
            == Some(ClientRequestView::Other),
        nostr_client_message(text) matches Some(ClientMessageJsonView::Event(json)) ==> (match nostr_event_json(json) {
            Some(e) => client_request_of(text) == Some(ClientRequestView::Event(e)),
            None => client_request_of(text) is None,
        }),
        nostr_client_message(text) matches Some(ClientMessageJsonView::Req { subscription_id, filters })
            ==> (client_request_of(text) matches Some(ClientRequestView::Req { subscription_id: s, filters: fs })
            ==> s == subscription_id && fs.len() == filters.len() && forall|k: int|
            0 <= k < filters.len() ==> Some(#[trigger] fs[k]) == filter_of_raw(nostr_filter_json(filters[k])->0)),
        nostr_client_message(text) matches Some(ClientMessageJsonView::Req { subscription_id, filters })
            ==> (client_request_of(text) is Some <==> forall|k: int| 0 <= k < filters.len() ==> (
            #[trigger] nostr_filter_json(filters[k]) matches Some(raw) && filter_of_raw(raw) is Some)),
{
    if let Some(ClientMessageJsonView::Req { subscription_id, filters }) = nostr_client_message(text) {
        filters_are_read_one_by_one(filters);
    }
}

/// Reads what a client's text asks for.
pub fn read_client_message(text: &str) -> (res: Option<ClientRequest>)
    ensures
        opt_request_view(res) == client_request_of(text@),
{
    match parse_client_message(text) {
        Some(ClientMessageJson::Event(json)) => match parse_event_json(&json) {
            Some(e) => Some(ClientRequest::Event(e)),
            None => None,
        },
        Some(ClientMessageJson::Req { subscription_id, filters }) => match filters_from_json(&filters) {
            Some(fs) => Some(ClientRequest::Req { subscription_id, filters: fs }),
            None => None,
        },
        Some(ClientMessageJson::Other) => Some(ClientRequest::Other),
        None => None,
    }
}

/// The answer of the HTTP error for a message other than an event.
pub const ONLY_EVENTS_ALLOWED: &'static str = "Only Event types allowed";

/// The answer of the HTTP error for text that is no client message.
pub const UNPARSABLE_MESSAGE: &'static str = "Could not parse Client Message";

/// What the HTTP endpoint for events does with a request's text.
pub enum HttpAction {
    /// Take in the event.
    Admit(NostrEvent),
    /// Refuse: only events are taken here.
    OnlyEvents,
    /// Refuse: the text is no client message.
    Unparsable,
}

/// What the HTTP endpoint for events does with a request's text: takes in an
/// event, refuses any other client message, and refuses text it cannot read.
pub fn http_request_action(text: &str) -> (res: HttpAction)
    ensures
        match client_request_of(text@) {
            None => res is Unparsable,
            Some(ClientRequestView::Event(e)) => res matches HttpAction::Admit(x) && x@ == e,
            Some(_) => res is OnlyEvents,
        },
{
    match read_client_message(text) {
        Some(ClientRequest::Event(e)) => HttpAction::Admit(e),
        Some(_) => HttpAction::OnlyEvents,
        None => HttpAction::Unparsable,
    }
}

/// What the websocket handler does with a message's text.
pub enum SocketAction {
    /// Take in the event.
    Admit(NostrEvent),
    /// Add the filters to the connection's subscription.
    Subscribe { subscription_id: String, filters: Vec<Filter> },
    /// Nothing.
    Ignore,
}

/// What the websocket handler does with a message's text: takes in an
/// event, subscribes with a request's filters, and ignores anything else,
/// text it cannot read included.
pub fn socket_message_action(text: &str) -> (res: SocketAction)
    ensures
        match client_request_of(text@) {
            Some(ClientRequestView::Event(e)) => res matches SocketAction::Admit(x) && x@ == e,
            Some(ClientRequestView::Req { subscription_id, filters }) => res matches SocketAction::Subscribe {
                subscription_id: s,
                filters: fs,
            } && s@ == subscription_id && filters_view(fs@) == filters,
            _ => res is Ignore,
        },
{
    match read_client_message(text) {
        Some(ClientRequest::Event(e)) => SocketAction::Admit(e),
        Some(ClientRequest::Req { subscription_id, filters }) => SocketAction::Subscribe {
            subscription_id,
            filters,
        },
        _ => SocketAction::Ignore,
    }
}

} // verus!
