//! Nostr events as the relay's logic reads them: identifiers, keys and
//! signatures as their raw bytes, tags as their lists of strings.

use vstd::prelude::*;
use nostr::event::{Event, EventId, Kind, Signature, Tag};
use nostr::key::PublicKey;
use nostr::nips::nip01::Nip01Tag;
use nostr::nips::nip10::Nip10Tag;
use nostr::types::Timestamp;

verus! {

/// A nostr event.
pub struct NostrEvent {
    /// The event id: the 32 bytes of its hash.
    pub id: Vec<u8>,
    /// The author's 32-byte x-only public key.
    pub pubkey: Vec<u8>,
    /// Creation time, in seconds since the UNIX epoch.
    pub created_at: u64,
    /// The kind number.
    pub kind: u16,
    /// The tags, each the list of its strings (the tag's name first).
    pub tags: Vec<Vec<String>>,
    /// The content.
    pub content: String,
    /// The 64-byte schnorr signature.
    pub sig: Vec<u8>,
}

/// The mathematical value of a nostr event.
pub struct NostrEventView {
    pub id: Seq<u8>,
    pub pubkey: Seq<u8>,
    pub created_at: u64,
    pub kind: u16,
    pub tags: Seq<Seq<Seq<char>>>,
    pub content: Seq<char>,
    pub sig: Seq<u8>,
}

/// The strings of a tag.
pub open spec fn tag_view(t: Vec<String>) -> Seq<Seq<char>> {
    t@.map_values(|s: String| s@)
}

/// The strings of each tag of a list.
pub open spec fn tags_view(ts: Seq<Vec<String>>) -> Seq<Seq<Seq<char>>> {
    ts.map_values(|t: Vec<String>| tag_view(t))
}

impl View for NostrEvent {
    type V = NostrEventView;

    open spec fn view(&self) -> NostrEventView {
        NostrEventView {
            id: self.id@,
            pubkey: self.pubkey@,
            created_at: self.created_at,
            kind: self.kind,
            tags: tags_view(self.tags@),
            content: self.content@,
            sig: self.sig@,
        }
    }
}

impl NostrEventView {
    /// The shape that every event of the nostr library has: a 32-byte id and
    /// key, a 64-byte signature and no empty tag.
    pub open spec fn wf(self) -> bool {
        &&& self.id.len() == 32
        &&& self.pubkey.len() == 32
        &&& self.sig.len() == 64
        &&& tags_nonempty(self.tags)
    }
}

/// Whether no tag of a list is empty, as with every tag of the nostr library.
pub open spec fn tags_nonempty(tags: Seq<Seq<Seq<char>>>) -> bool {
    forall|i: int| 0 <= i < tags.len() ==> #[trigger] tags[i].len() > 0
}

/// Whether no tag of an event is empty.
pub fn event_tags_nonempty(event: &NostrEvent) -> (res: bool)
    ensures
        res == tags_nonempty(event@.tags),
{
    let mut i: usize = 0;
    while i < event.tags.len()
        invariant
            i <= event.tags.len(),
            forall|j: int| 0 <= j < i ==> #[trigger] event@.tags[j].len() > 0,
        decreases event.tags.len() - i,
    {
        assert(event@.tags[i as int] == tag_view(event.tags@[i as int]));
        if event.tags[i].len() == 0 {
            return false;
        }
        i = i + 1;
    }
    true
}

/// The values of a list of events.
pub open spec fn events_view(v: Seq<NostrEvent>) -> Seq<NostrEventView> {
    v.map_values(|e: NostrEvent| e@)
}

/// The ids of a list of events.
pub open spec fn ids_of(v: Seq<NostrEventView>) -> Seq<Seq<u8>> {
    v.map_values(|e: NostrEventView| e.id)
}

/// The values of a list of byte strings.
pub open spec fn byte_strings_view(v: Seq<Vec<u8>>) -> Seq<Seq<u8>> {
    v.map_values(|b: Vec<u8>| b@)
}

/// The value of an optional byte string.
pub open spec fn opt_bytes_view(o: Option<Vec<u8>>) -> Option<Seq<u8>> {
    match o {
        Some(b) => Some(b@),
        None => None,
    }
}

/// One row of the tag table: a tag's name and first value, and the id of its event.
pub struct TagRow {
    pub event_id: Vec<u8>,
    pub name: String,
    pub value: String,
}

/// The mathematical value of a tag row.
pub struct TagRowView {
    pub event_id: Seq<u8>,
    pub name: Seq<char>,
    pub value: Seq<char>,
}

impl View for TagRow {
    type V = TagRowView;

    open spec fn view(&self) -> TagRowView {
        TagRowView { event_id: self.event_id@, name: self.name@, value: self.value@ }
    }
}

/// The values of a list of tag rows.
pub open spec fn tag_rows_view(v: Seq<TagRow>) -> Seq<TagRowView> {
    v.map_values(|r: TagRow| r@)
}

/// The views of a list of strings.
pub open spec fn string_views(v: Seq<String>) -> Seq<Seq<char>> {
    v.map_values(|s: String| s@)
}

/// A copy of a byte string.
pub fn copy_bytes(v: &Vec<u8>) -> (res: Vec<u8>)
    ensures
        res@ == v@,
{
    let mut res: Vec<u8> = Vec::new();
    let mut i: usize = 0;
    while i < v.len()
        invariant
            i <= v.len(),
            res@ == v@.subrange(0, i as int),
        decreases v.len() - i,
    {
        res.push(v[i]);
        i = i + 1;
    }
    assert(res@ =~= v@);
    res
}

/// Whether a list of byte strings holds the given one.
pub fn contains_bytes(list: &Vec<Vec<u8>>, item: &Vec<u8>) -> (res: bool)
    ensures
        res == byte_strings_view(list@).contains(item@),
{
    let mut i: usize = 0;
    while i < list.len()
        invariant
            i <= list.len(),
            forall|j: int| 0 <= j < i ==> list@[j]@ != item@,
        decreases list.len() - i,
    {
        if bytes_equal(&list[i], item) {
            assert(byte_strings_view(list@)[i as int] == item@);
            return true;
        }
        i = i + 1;
    }
    assert(!byte_strings_view(list@).contains(item@)) by {
        if byte_strings_view(list@).contains(item@) {
            let k = choose|k: int| 0 <= k < list@.len() && byte_strings_view(list@)[k] == item@;
            assert(list@[k]@ == item@);
        }
    }
    false
}

/// A copy of a tag.
pub fn copy_tag(t: &Vec<String>) -> (res: Vec<String>)
    ensures
        tag_view(res) == tag_view(*t),
{
    let mut res: Vec<String> = Vec::new();
    let mut i: usize = 0;
    while i < t.len()
        invariant
            i <= t.len(),
            tag_view(res) == tag_view(*t).take(i as int),
        decreases t.len() - i,
    {
        let ghost prev = res@;
        res.push(t[i].clone());
        assert(tag_view(res) =~= tag_view(*t).take(i as int).push(t@[i as int]@));
        assert(tag_view(*t).take(i + 1) =~= tag_view(*t).take(i as int).push(t@[i as int]@));
        i = i + 1;
    }
    assert(tag_view(*t).take(t.len() as int) =~= tag_view(*t));
    res
}

/// A copy of a list of tags.
pub fn copy_tags(ts: &Vec<Vec<String>>) -> (res: Vec<Vec<String>>)
    ensures
        tags_view(res@) == tags_view(ts@),
{
    let mut res: Vec<Vec<String>> = Vec::new();
    let mut i: usize = 0;
    while i < ts.len()
        invariant
            i <= ts.len(),
            tags_view(res@) == tags_view(ts@).take(i as int),
        decreases ts.len() - i,
    {
        let ghost prev = res@;
        let t = copy_tag(&ts[i]);
        res.push(t);
        assert(tags_view(res@) =~= tags_view(prev).push(tag_view(ts@[i as int])));
        assert(tags_view(ts@).take(i + 1) =~= tags_view(ts@).take(i as int).push(
            tag_view(ts@[i as int]),
        ));
        i = i + 1;
    }
    assert(tags_view(ts@).take(ts.len() as int) =~= tags_view(ts@));
    res
}

/// A copy of an event.
pub fn copy_event(e: &NostrEvent) -> (res: NostrEvent)
    ensures
        res@ == e@,
{
    NostrEvent {
        id: copy_bytes(&e.id),
        pubkey: copy_bytes(&e.pubkey),
        created_at: e.created_at,
        kind: e.kind,
        tags: copy_tags(&e.tags),
        content: e.content.clone(),
        sig: copy_bytes(&e.sig),
    }
}

/// Whether two byte strings are equal.
pub fn bytes_equal(a: &Vec<u8>, b: &Vec<u8>) -> (res: bool)
    ensures
        res == (a@ == b@),
{
    if a.len() != b.len() {
        return false;
    }
    let mut i: usize = 0;
    while i < a.len()
        invariant
            a.len() == b.len(),
            i <= a.len(),
            forall|j: int| 0 <= j < i ==> a@[j] == b@[j],
        decreases a.len() - i,
    {
        if a[i] != b[i] {
            return false;
        }
        i = i + 1;
    }
    assert(a@ =~= b@);
    true
}

/// Whether two tags hold the same strings.
pub fn tag_equal(a: &Vec<String>, b: &Vec<String>) -> (res: bool)
    ensures
        res == (tag_view(*a) == tag_view(*b)),
{
    if a.len() != b.len() {
        assert(tag_view(*a).len() != tag_view(*b).len());
        return false;
    }
    let mut i: usize = 0;
    while i < a.len()
        invariant
            a.len() == b.len(),
            i <= a.len(),
            forall|j: int| 0 <= j < i ==> a@[j]@ == b@[j]@,
        decreases a.len() - i,
    {
        if a[i] != b[i] {
            assert(tag_view(*a)[i as int] != tag_view(*b)[i as int]);
            return false;
        }
        i = i + 1;
    }
    assert(tag_view(*a) =~= tag_view(*b));
    true
}

/// Whether two tag lists hold the same tags in the same order.
pub fn tags_equal(a: &Vec<Vec<String>>, b: &Vec<Vec<String>>) -> (res: bool)
    ensures
        res == (tags_view(a@) == tags_view(b@)),
{
    if a.len() != b.len() {
        assert(tags_view(a@).len() != tags_view(b@).len());
        return false;
    }
    let mut i: usize = 0;
    while i < a.len()
        invariant
            a.len() == b.len(),
            i <= a.len(),
            forall|j: int| 0 <= j < i ==> tag_view(#[trigger] a@[j]) == tag_view(b@[j]),
        decreases a.len() - i,
    {
        if !tag_equal(&a[i], &b[i]) {
            assert(tags_view(a@)[i as int] != tags_view(b@)[i as int]);
            return false;
        }
        i = i + 1;
    }
    assert(tags_view(a@) =~= tags_view(b@));
    true
}

/// Whether two events are equal in every field.
pub fn events_equal(a: &NostrEvent, b: &NostrEvent) -> (res: bool)
    ensures
        res == (a@ == b@),
{
    bytes_equal(&a.id, &b.id) && bytes_equal(&a.pubkey, &b.pubkey) && a.created_at
        == b.created_at && a.kind == b.kind && tags_equal(&a.tags, &b.tags) && a.content
        == b.content && bytes_equal(&a.sig, &b.sig)
}

/// Lexicographic order of byte strings, the order of the nostr library's event ids.
pub open spec fn lex_less(a: Seq<u8>, b: Seq<u8>) -> bool
    decreases a.len(),
{
    if a.len() == 0 {
        b.len() > 0
    } else if b.len() == 0 {
        false
    } else if a[0] != b[0] {
        a[0] < b[0]
    } else {
        lex_less(a.drop_first(), b.drop_first())
    }
}

/// No byte string precedes itself.
pub proof fn lemma_lex_less_irreflexive(a: Seq<u8>)
    ensures
        !lex_less(a, a),
    decreases a.len(),
{
    if a.len() > 0 {
        lemma_lex_less_irreflexive(a.drop_first());
    }
}

/// Of two distinct byte strings exactly one precedes the other.
pub proof fn lemma_lex_less_total(a: Seq<u8>, b: Seq<u8>)
    ensures
        a != b ==> (lex_less(a, b) || lex_less(b, a)),
        !(lex_less(a, b) && lex_less(b, a)),
    decreases a.len(),
{
    if a.len() > 0 && b.len() > 0 {
        lemma_lex_less_total(a.drop_first(), b.drop_first());
        if a[0] == b[0] && a.drop_first() == b.drop_first() {
            assert(a =~= seq![a[0]] + a.drop_first());
            assert(b =~= seq![b[0]] + b.drop_first());
        }
    } else if a.len() == 0 && b.len() == 0 {
        assert(a =~= b);
    }
}

/// Lexicographic order is transitive.
pub proof fn lemma_lex_less_transitive(a: Seq<u8>, b: Seq<u8>, c: Seq<u8>)
    requires
        lex_less(a, b),
        lex_less(b, c),
    ensures
        lex_less(a, c),
    decreases a.len(),
{
    if a.len() > 0 && b.len() > 0 && c.len() > 0 && a[0] == b[0] && b[0] == c[0] {
        lemma_lex_less_transitive(a.drop_first(), b.drop_first(), c.drop_first());
    }
}

/// Byte strings are ordered by their first difference: when `a` and `b`
/// agree on their first `k` bytes, a byte that differs at `k` decides, and a
/// string that ends at `k` comes first exactly when the other goes on.
pub proof fn lex_less_is_decided_by_first_difference(a: Seq<u8>, b: Seq<u8>, k: int)
    requires
        0 <= k <= a.len(),
        k <= b.len(),
        a.take(k) == b.take(k),
    ensures
        k < a.len() && k < b.len() && a[k] != b[k] ==> (lex_less(a, b) <==> a[k] < b[k]),
        k == a.len() ==> (lex_less(a, b) <==> k < b.len()),
        k == b.len() && k < a.len() ==> !lex_less(a, b),
    decreases k,
{
    if k > 0 {
        assert(a[0] == a.take(k)[0] && b[0] == b.take(k)[0]);
        let a1 = a.drop_first();
        let b1 = b.drop_first();
        assert(a1.take(k - 1) =~= a.take(k).drop_first());
        assert(b1.take(k - 1) =~= b.take(k).drop_first());
        lex_less_is_decided_by_first_difference(a1, b1, k - 1);
        if k < a.len() && k < b.len() {
            assert(a1[k - 1] == a[k] && b1[k - 1] == b[k]);
        }
    }
}

/// Whether `a` comes before `b` in lexicographic order.
pub fn bytes_lex_less(a: &Vec<u8>, b: &Vec<u8>) -> (res: bool)
    ensures
        res == lex_less(a@, b@),
{
    let mut i: usize = 0;
    assert(a@.skip(0) =~= a@);
    assert(b@.skip(0) =~= b@);
    while i < a.len() && i < b.len()
        invariant
            i <= a.len(),
            i <= b.len(),
            lex_less(a@, b@) == lex_less(a@.skip(i as int), b@.skip(i as int)),
        decreases a.len() - i,
    {
        if a[i] != b[i] {
            return a[i] < b[i];
        }
        assert(a@.skip(i as int).drop_first() =~= a@.skip(i + 1));
        assert(b@.skip(i as int).drop_first() =~= b@.skip(i + 1));
        i = i + 1;
    }
    i < b.len()
}

/// The id of the event that a tag points at, when the tag is a NIP-10 `e` tag.
pub uninterp spec fn nip10_event_reference(tag: Seq<Seq<char>>) -> Option<Seq<u8>>;

/// The public key that a tag points at, when the tag is a NIP-01 `p` tag.
pub uninterp spec fn nip01_public_key_reference(tag: Seq<Seq<char>>) -> Option<Seq<u8>>;

/// Whether an event's id is the hash of its contents and its signature is the
/// author's valid schnorr signature of that id.
pub uninterp spec fn nostr_event_verifies(event: NostrEventView) -> bool;

/// The event id that a tag refers to. Calls `Nip10Tag::parse` of the nostr
/// library, which reads `["e", <hex id>, <relay url>?, <marker>?, <hex key>?]`,
/// where the marker may be empty, `mention`, `root` or `reply`; the id returned
/// is that event id's 32 bytes. What else makes the parse fail (an ill-formed
/// relay url, marker or key) is not stated: it is named.
#[verifier::external_body]
pub fn tag_event_reference(tag: &Vec<String>) -> (res: Option<Vec<u8>>)
    ensures
        opt_bytes_view(res) == nip10_event_reference(tag_view(*tag)),
        res is Some ==> res.unwrap()@.len() == 32,
{
    match Nip10Tag::parse(tag.iter()) {
        Ok(Nip10Tag::Event { id, .. }) => Some(id.as_bytes().to_vec()),
        Err(_) => None,
    }
}

/// The public key that a tag refers to. Calls `Nip01Tag::parse` of the nostr
/// library, which reads `["p", <hex key>, <relay url>?]`; the key returned is
/// that public key's 32 bytes. When else the parse fails is not stated: it is named.
#[verifier::external_body]
pub fn tag_public_key_reference(tag: &Vec<String>) -> (res: Option<Vec<u8>>)
    ensures
        opt_bytes_view(res) == nip01_public_key_reference(tag_view(*tag)),
        res is Some ==> res.unwrap()@.len() == 32,
{
    match Nip01Tag::parse(tag.iter()) {
        Ok(Nip01Tag::PublicKey { public_key, .. }) => Some(public_key.as_bytes().to_vec()),
        _ => None,
    }
}

/// A tag made of a name and one value. Calls `Tag::parse` of the nostr
/// library, which accepts any non-empty list of strings and keeps it as it is.
#[verifier::external_body]
pub fn parse_tag(name: &String, value: &String) -> (res: Option<Vec<String>>)
    ensures
        res is Some,
        tag_view(res.unwrap()) == seq![name@, value@],
{
    match Tag::parse([name.clone(), value.clone()]) {
        Ok(tag) => Some(tag.to_vec()),
        Err(_) => None,
    }
}

/// Whether an event checks out: builds the nostr library's `Event` from the
/// event's fields and calls its `verify`, which recomputes the id from the
/// contents and checks the schnorr signature against the author's key. The
/// result of that check is named, not stated; bytes that do not form an id,
/// key or signature make it false.
#[verifier::external_body]
pub fn event_signature_valid(event: &NostrEvent) -> (res: bool)
    ensures
        res == nostr_event_verifies(event@),
{
    let tags: Result<Vec<Tag>, _> = event.tags.iter().map(|t| Tag::parse(t.iter())).collect();
    let id = EventId::from_slice(&event.id);
    let author = PublicKey::from_slice(&event.pubkey);
    let sig = Signature::from_slice(&event.sig);
    match (id, author, sig, tags) {
        (Ok(id), Ok(author), Ok(sig), Ok(tags)) => Event::new(id, author, Timestamp::from(
            event.created_at,
        ), Kind::from(event.kind), tags, event.content.clone(), sig).verify().is_ok(),
        _ => false,
    }
}

} // verus!
