//! Subscription filters, and how the filters of one connection are merged
//! into the single filter that its NWC polling serves.

use vstd::prelude::*;
use crate::event::{byte_strings_view, contains_bytes, copy_bytes, string_views};

verus! {

/// Kind number of a NIP-47 wallet connect request.
pub const WALLET_CONNECT_REQUEST: u16 = 23194;

/// Kind number of a NIP-47 wallet connect response.
pub const WALLET_CONNECT_RESPONSE: u16 = 23195;

/// A subscription filter, each of its lists absent or present.
pub struct Filter {
    /// Event ids (32 bytes each).
    pub ids: Option<Vec<Vec<u8>>>,
    /// Author public keys (32 bytes each).
    pub authors: Option<Vec<Vec<u8>>>,
    /// Kind numbers.
    pub kinds: Option<Vec<u16>>,
    /// Ids of events that matching events refer to (`#e`).
    pub events: Option<Vec<Vec<u8>>>,
    /// Public keys that matching events refer to (`#p`).
    pub pubkeys: Option<Vec<Vec<u8>>>,
    /// Hashtags (`#t`).
    pub hashtags: Option<Vec<String>>,
    /// References (`#r`).
    pub references: Option<Vec<String>>,
    /// Identifiers (`#d`).
    pub identifiers: Option<Vec<String>>,
}

/// The mathematical value of a filter.
pub struct FilterView {
    pub ids: Option<Seq<Seq<u8>>>,
    pub authors: Option<Seq<Seq<u8>>>,
    pub kinds: Option<Seq<u16>>,
    pub events: Option<Seq<Seq<u8>>>,
    pub pubkeys: Option<Seq<Seq<u8>>>,
    pub hashtags: Option<Seq<Seq<char>>>,
    pub references: Option<Seq<Seq<char>>>,
    pub identifiers: Option<Seq<Seq<char>>>,
}

/// The value of an optional list of byte strings.
pub open spec fn opt_byte_strings_view(o: Option<Vec<Vec<u8>>>) -> Option<Seq<Seq<u8>>> {
    match o {
        Some(v) => Some(byte_strings_view(v@)),
        None => None,
    }
}

/// The value of an optional list of kinds.
pub open spec fn opt_kinds_view(o: Option<Vec<u16>>) -> Option<Seq<u16>> {
    match o {
        Some(v) => Some(v@),
        None => None,
    }
}

/// The value of an optional list of strings.
pub open spec fn opt_strings_view(o: Option<Vec<String>>) -> Option<Seq<Seq<char>>> {
    match o {
        Some(v) => Some(string_views(v@)),
        None => None,
    }
}

impl View for Filter {
    type V = FilterView;

    open spec fn view(&self) -> FilterView {
        FilterView {
            ids: opt_byte_strings_view(self.ids),
            authors: opt_byte_strings_view(self.authors),
            kinds: opt_kinds_view(self.kinds),
            events: opt_byte_strings_view(self.events),
            pubkeys: opt_byte_strings_view(self.pubkeys),
            hashtags: opt_strings_view(self.hashtags),
            references: opt_strings_view(self.references),
            identifiers: opt_strings_view(self.identifiers),
        }
    }
}

/// `master` followed by each item of `new` that is not already there, in
/// order, each added once.
pub open spec fn extend_unique<A>(master: Seq<A>, new: Seq<A>) -> Seq<A>
    decreases new.len(),
{
    if new.len() == 0 {
        master
    } else {
        let m = extend_unique(master, new.drop_last());
        if m.contains(new.last()) {
            m
        } else {
            m.push(new.last())
        }
    }
}

/// A list of the filter after another filter's list was merged into it:
/// unchanged where the other filter has no such list, otherwise this list
/// (empty if absent) extended by the other one's items it lacks.
pub open spec fn combine_field<A>(master: Option<Seq<A>>, new: Option<Seq<A>>) -> Option<Seq<A>> {
    match new {
        None => master,
        Some(n) => Some(
            extend_unique(
                match master {
                    Some(m) => m,
                    None => Seq::empty(),
                },
                n,
            ),
        ),
    }
}

/// A filter after another one was merged into it, list by list.
pub open spec fn combine_filters_spec(master: FilterView, new: FilterView) -> FilterView {
    FilterView {
        ids: combine_field(master.ids, new.ids),
        authors: combine_field(master.authors, new.authors),
        kinds: combine_field(master.kinds, new.kinds),
        events: combine_field(master.events, new.events),
        pubkeys: combine_field(master.pubkeys, new.pubkeys),
        hashtags: combine_field(master.hashtags, new.hashtags),
        references: combine_field(master.references, new.references),
        identifiers: combine_field(master.identifiers, new.identifiers),
    }
}

/// Appends to `master` each byte string of `new` that it does not hold yet.
pub fn extend_ids_without_duplicates(master: &mut Vec<Vec<u8>>, new: &Vec<Vec<u8>>)
    ensures
        byte_strings_view(final(master)@) == extend_unique(
            byte_strings_view(old(master)@),
            byte_strings_view(new@),
        ),
{
    let ghost start = byte_strings_view(master@);
    let mut i: usize = 0;
    while i < new.len()
        invariant
            i <= new.len(),
            byte_strings_view(master@) == extend_unique(
                start,
                byte_strings_view(new@).take(i as int),
            ),
        decreases new.len() - i,
    {
        let ghost n = byte_strings_view(new@);
        assert(n.take(i + 1).drop_last() =~= n.take(i as int));
        if !contains_bytes(master, &new[i]) {
            let item = copy_bytes(&new[i]);
            master.push(item);
            assert(byte_strings_view(master@) =~= extend_unique(start, n.take(i as int)).push(n[i as int]));
        }
        i = i + 1;
    }
    assert(byte_strings_view(new@).take(new.len() as int) =~= byte_strings_view(new@));
}

/// Appends to `master` each kind of `new` that it does not hold yet.
pub fn extend_kinds_without_duplicates(master: &mut Vec<u16>, new: &Vec<u16>)
    ensures
        final(master)@ == extend_unique(old(master)@, new@),
{
    let ghost start = master@;
    let mut i: usize = 0;
    while i < new.len()
        invariant
            i <= new.len(),
            master@ == extend_unique(start, new@.take(i as int)),
        decreases new.len() - i,
    {
        assert(new@.take(i + 1).drop_last() =~= new@.take(i as int));
        let item = new[i];
        let mut found = false;
        let mut j: usize = 0;
        while j < master.len()
            invariant
                j <= master.len(),
                found == exists|k: int| 0 <= k < j && master@[k] == item,
            decreases master.len() - j,
        {
            if master[j] == item {
                found = true;
            }
            j = j + 1;
        }
        if !found {
            master.push(item);
        }
        i = i + 1;
    }
    assert(new@.take(new.len() as int) =~= new@);
}

/// Appends to `master` each string of `new` that it does not hold yet.
pub fn extend_strings_without_duplicates(master: &mut Vec<String>, new: &Vec<String>)
    ensures
        string_views(final(master)@) == extend_unique(
            string_views(old(master)@),
            string_views(new@),
        ),
{
    let ghost start = string_views(master@);
    let mut i: usize = 0;
    while i < new.len()
        invariant
            i <= new.len(),
            string_views(master@) == extend_unique(start, string_views(new@).take(i as int)),
        decreases new.len() - i,
    {
        let ghost n = string_views(new@);
        assert(n.take(i + 1).drop_last() =~= n.take(i as int));
        let mut found = false;
        let mut j: usize = 0;
        while j < master.len()
            invariant
                j <= master.len(),
                i < new.len(),
                found == exists|k: int| 0 <= k < j && master@[k]@ == new@[i as int]@,
            decreases master.len() - j,
        {
            if master[j] == new[i] {
                found = true;
            }
            j = j + 1;
        }
        assert(found == string_views(master@).contains(n[i as int])) by {
            if found {
                let k = choose|k: int| 0 <= k < master@.len() && master@[k]@ == new@[i as int]@;
                assert(string_views(master@)[k] == n[i as int]);
            }
            if string_views(master@).contains(n[i as int]) {
                let k = choose|k: int|
                    0 <= k < master@.len() && string_views(master@)[k] == n[i as int];
                assert(master@[k]@ == new@[i as int]@);
            }
        }
        if !found {
            master.push(new[i].clone());
            assert(string_views(master@) =~= extend_unique(start, n.take(i as int)).push(n[i as int]));
        }
        i = i + 1;
    }
    assert(string_views(new@).take(new.len() as int) =~= string_views(new@));
}

fn combine_id_lists(master: Option<Vec<Vec<u8>>>, new: &Option<Vec<Vec<u8>>>) -> (res: Option<
    Vec<Vec<u8>>,
>)
    ensures
        opt_byte_strings_view(res) == combine_field(
            opt_byte_strings_view(master),
            opt_byte_strings_view(*new),
        ),
{
    match new {
        Some(n) => {
            let mut m = match master {
                Some(m) => m,
                None => Vec::new(),
            };
            assert(byte_strings_view(Seq::<Vec<u8>>::empty()) =~= Seq::<Seq<u8>>::empty());
            extend_ids_without_duplicates(&mut m, n);
            Some(m)
        },
        None => master,
    }
}

fn combine_kind_lists(master: Option<Vec<u16>>, new: &Option<Vec<u16>>) -> (res: Option<Vec<u16>>)
    ensures
        opt_kinds_view(res) == combine_field(opt_kinds_view(master), opt_kinds_view(*new)),
{
    match new {
        Some(n) => {
            let mut m = match master {
                Some(m) => m,
                None => Vec::new(),
            };
            extend_kinds_without_duplicates(&mut m, n);
            Some(m)
        },
        None => master,
    }
}

fn combine_string_lists(master: Option<Vec<String>>, new: &Option<Vec<String>>) -> (res: Option<
    Vec<String>,
>)
    ensures
        opt_strings_view(res) == combine_field(opt_strings_view(master), opt_strings_view(*new)),
{
    match new {
        Some(n) => {
            let mut m = match master {
                Some(m) => m,
                None => Vec::new(),
            };
            assert(string_views(Seq::<String>::empty()) =~= Seq::<Seq<char>>::empty());
            extend_strings_without_duplicates(&mut m, n);
            Some(m)
        },
        None => master,
    }
}

/// Merges `new_filter` into `master_filter`: each list of `new_filter` that is
/// present is appended, without repeats, to the same list of `master_filter`.
pub fn combine_filters(master_filter: &mut Filter, new_filter: &Filter)
    ensures
        final(master_filter)@ == combine_filters_spec(old(master_filter)@, new_filter@),
{
    let ids = combine_id_lists(master_filter.ids.take(), &new_filter.ids);
    master_filter.ids = ids;
    let authors = combine_id_lists(master_filter.authors.take(), &new_filter.authors);
    master_filter.authors = authors;
    let kinds = combine_kind_lists(master_filter.kinds.take(), &new_filter.kinds);
    master_filter.kinds = kinds;
    let events = combine_id_lists(master_filter.events.take(), &new_filter.events);
    master_filter.events = events;
    let pubkeys = combine_id_lists(master_filter.pubkeys.take(), &new_filter.pubkeys);
    master_filter.pubkeys = pubkeys;
    let hashtags = combine_string_lists(master_filter.hashtags.take(), &new_filter.hashtags);
    master_filter.hashtags = hashtags;
    let references = combine_string_lists(master_filter.references.take(), &new_filter.references);
    master_filter.references = references;
    let identifiers = combine_string_lists(
        master_filter.identifiers.take(),
        &new_filter.identifiers,
    );
    master_filter.identifiers = identifiers;
}


/// An item is in `master` extended by `new` exactly when it is in one of them.
pub proof fn lemma_extend_unique_contains<A>(master: Seq<A>, new: Seq<A>, x: A)
    ensures
        extend_unique(master, new).contains(x) <==> (master.contains(x) || new.contains(x)),
    decreases new.len(),
{
    if new.len() > 0 {
        let m = extend_unique(master, new.drop_last());
        lemma_extend_unique_contains(master, new.drop_last(), x);
        lemma_extend_unique_contains(master, new.drop_last(), new.last());
        if new.drop_last().contains(x) {
            let k = choose|k: int| 0 <= k < new.drop_last().len() && new.drop_last()[k] == x;
            assert(new[k] == x);
        }
        if new.contains(x) {
            let k = choose|k: int| 0 <= k < new.len() && new[k] == x;
            if k < new.len() - 1 {
                assert(new.drop_last()[k] == x);
            }
        }
        if !m.contains(new.last()) {
            let r = m.push(new.last());
            assert(r[m.len() as int] == new.last());
            if m.contains(x) {
                let k = choose|k: int| 0 <= k < m.len() && m[k] == x;
                assert(r[k] == x);
            }
            if r.contains(x) {
                let k = choose|k: int| 0 <= k < r.len() && r[k] == x;
                if k < m.len() {
                    assert(m[k] == x);
                }
            }
        }
    }
}

/// Extending never changes what `master` already held: it stays a prefix.
pub proof fn lemma_extend_unique_prefix<A>(master: Seq<A>, new: Seq<A>)
    ensures
        extend_unique(master, new).len() >= master.len(),
        extend_unique(master, new).subrange(0, master.len() as int) == master,
    decreases new.len(),
{
    if new.len() > 0 {
        lemma_extend_unique_prefix(master, new.drop_last());
        let m = extend_unique(master, new.drop_last());
        assert(m.push(new.last()).subrange(0, master.len() as int) =~= m.subrange(
            0,
            master.len() as int,
        ));
    }
}

/// Extending a list that has no repeated item gives a list with no repeated item.
pub proof fn lemma_extend_unique_no_duplicates<A>(master: Seq<A>, new: Seq<A>)
    requires
        master.no_duplicates(),
    ensures
        extend_unique(master, new).no_duplicates(),
    decreases new.len(),
{
    if new.len() > 0 {
        lemma_extend_unique_no_duplicates(master, new.drop_last());
        let m = extend_unique(master, new.drop_last());
        if !m.contains(new.last()) {
            let r = m.push(new.last());
            assert forall|i: int, j: int| 0 <= i < r.len() && 0 <= j < r.len() && i != j implies r[i]
                != r[j] by {
                if i == m.len() && j < m.len() {
                    assert(m[j] == r[j]);
                } else if j == m.len() && i < m.len() {
                    assert(m[i] == r[i]);
                }
            }
        }
    }
}

/// Extending by items that are all there already changes nothing.
pub proof fn lemma_extend_unique_absorbed<A>(master: Seq<A>, new: Seq<A>)
    requires
        forall|i: int| 0 <= i < new.len() ==> master.contains(#[trigger] new[i]),
    ensures
        extend_unique(master, new) == master,
    decreases new.len(),
{
    if new.len() > 0 {
        assert forall|i: int| 0 <= i < new.drop_last().len() implies master.contains(
            #[trigger] new.drop_last()[i],
        ) by {
            assert(new.drop_last()[i] == new[i]);
        }
        lemma_extend_unique_absorbed(master, new.drop_last());
        assert(master.contains(new[new.len() - 1]));
    }
}

/// Extending twice by the same items is the same as extending once.
pub proof fn lemma_extend_unique_idempotent<A>(master: Seq<A>, new: Seq<A>)
    ensures
        extend_unique(extend_unique(master, new), new) == extend_unique(master, new),
{
    let once = extend_unique(master, new);
    assert forall|i: int| 0 <= i < new.len() implies once.contains(#[trigger] new[i]) by {
        assert(new.contains(new[i]));
        lemma_extend_unique_contains(master, new, new[i]);
    }
    lemma_extend_unique_absorbed(once, new);
}

/// Merging the same list twice gives the same list as merging it once.
pub proof fn lemma_combine_field_idempotent<A>(master: Option<Seq<A>>, new: Option<Seq<A>>)
    ensures
        combine_field(combine_field(master, new), new) == combine_field(master, new),
{
    if let Some(n) = new {
        let m = match master {
            Some(m) => m,
            None => Seq::empty(),
        };
        lemma_extend_unique_idempotent(m, n);
    }
}

/// Merging a filter into the combined filter a second time changes nothing:
/// a client that repeats a subscription does not grow the polled filter.
pub proof fn combine_filters_idempotent(master: FilterView, new: FilterView)
    ensures
        combine_filters_spec(combine_filters_spec(master, new), new) == combine_filters_spec(
            master,
            new,
        ),
{
    lemma_combine_field_idempotent(master.ids, new.ids);
    lemma_combine_field_idempotent(master.authors, new.authors);
    lemma_combine_field_idempotent(master.kinds, new.kinds);
    lemma_combine_field_idempotent(master.events, new.events);
    lemma_combine_field_idempotent(master.pubkeys, new.pubkeys);
    lemma_combine_field_idempotent(master.hashtags, new.hashtags);
    lemma_combine_field_idempotent(master.references, new.references);
    lemma_combine_field_idempotent(master.identifiers, new.identifiers);
}

/// The filter with no list present.
pub open spec fn empty_filter() -> FilterView {
    FilterView {
        ids: None,
        authors: None,
        kinds: None,
        events: None,
        pubkeys: None,
        hashtags: None,
        references: None,
        identifiers: None,
    }
}

/// Merging a filter with no lists leaves the combined filter as it was.
pub proof fn combine_with_empty_filter(master: FilterView)
    ensures
        combine_filters_spec(master, empty_filter()) == master,
{
}

/// After a merge, a list of the combined filter holds an item exactly when
/// that list of the combined filter or of the merged filter held it before.
pub proof fn combined_list_is_union<A>(master: Option<Seq<A>>, new: Option<Seq<A>>, x: A)
    ensures
        (combine_field(master, new) matches Some(c) && c.contains(x)) <==> ((master matches Some(
            m,
        ) && m.contains(x)) || (new matches Some(n) && n.contains(x))),
{
    if let Some(n) = new {
        let m = match master {
            Some(m) => m,
            None => Seq::empty(),
        };
        lemma_extend_unique_contains(m, n, x);
    }
}

/// A combined list that held no repeated item still holds none after a merge,
/// and what it held before stays, in order, at its front.
pub proof fn combined_list_keeps_order_without_repeats<A>(master: Seq<A>, new: Option<Seq<A>>)
    requires
        master.no_duplicates(),
    ensures
        combine_field(Some(master), new) matches Some(c) && c.no_duplicates() && c.len()
            >= master.len() && c.subrange(0, master.len() as int) == master,
{
    if let Some(n) = new {
        lemma_extend_unique_no_duplicates(master, n);
        lemma_extend_unique_prefix(master, n);
    } else {
        assert(master.subrange(0, master.len() as int) =~= master);
    }
}


/// A list of a filter, or the empty list where the filter has none.
pub open spec fn list_or_empty<A>(o: Option<Seq<A>>) -> Seq<A> {
    match o {
        Some(l) => l,
        None => Seq::empty(),
    }
}

/// Whether a filter asks for wallet connect traffic: it names a wallet
/// connect kind together with at least one author, or it names at least one
/// referenced public key (whatever its kinds).
pub open spec fn nwc_subscription_spec(f: FilterView) -> bool {
    ||| ((list_or_empty(f.kinds).contains(WALLET_CONNECT_RESPONSE) || list_or_empty(
        f.kinds,
    ).contains(WALLET_CONNECT_REQUEST)) && list_or_empty(f.authors).len() > 0)
    ||| list_or_empty(f.pubkeys).len() > 0
}

/// Which filters are wallet connect subscriptions: one that names the
/// request kind (23194) or the response kind (23195) together with at least
/// one author is one, and so is one with at least one referenced public key,
/// whatever its kinds; no other filter is.
pub proof fn nwc_subscriptions_are_kind_and_author_or_pubkey(f: FilterView)
    ensures
        list_or_empty(f.kinds).contains(23194u16) && list_or_empty(f.authors).len() > 0
            ==> nwc_subscription_spec(f),
        list_or_empty(f.kinds).contains(23195u16) && list_or_empty(f.authors).len() > 0
            ==> nwc_subscription_spec(f),
        list_or_empty(f.pubkeys).len() > 0 ==> nwc_subscription_spec(f),
        nwc_subscription_spec(f) ==> list_or_empty(f.pubkeys).len() > 0 || (list_or_empty(
            f.authors,
        ).len() > 0 && (list_or_empty(f.kinds).contains(23194u16) || list_or_empty(
            f.kinds,
        ).contains(23195u16))),
{
}

/// Merging a subscription request never loses a list item of one of its
/// wallet connect filters: each ends up in the combined filter's list.
pub proof fn merge_keeps_nwc_filter_items(master: FilterView, filters: Seq<FilterView>, i: int, a: Seq<u8>)
    requires
        0 <= i < filters.len(),
        nwc_subscription_spec(filters[i]),
        list_or_empty(filters[i].authors).contains(a),
    ensures
        list_or_empty(merge_nwc_filters(master, filters).authors).contains(a),
    decreases filters.len(),
{
    let d = filters.drop_last();
    if i < filters.len() - 1 {
        assert(d[i] == filters[i]);
        merge_keeps_nwc_filter_items(master, d, i, a);
        let m = merge_nwc_filters(master, d);
        if nwc_subscription_spec(filters.last()) {
            combined_list_is_union(m.authors, filters.last().authors, a);
        }
    } else {
        let m = merge_nwc_filters(master, d);
        combined_list_is_union(m.authors, filters.last().authors, a);
    }
}

/// Whether a filter's kinds include `kind`.
pub fn filter_requests_kind(filter: &Filter, kind: u16) -> (res: bool)
    ensures
        res == list_or_empty(filter@.kinds).contains(kind),
{
    match &filter.kinds {
        Some(kinds) => {
            assert(filter@.kinds == Some(kinds@));
            let mut i: usize = 0;
            while i < kinds.len()
                invariant
                    i <= kinds.len(),
                    filter@.kinds == Some(kinds@),
                    forall|j: int| 0 <= j < i ==> kinds@[j] != kind,
                decreases kinds.len() - i,
            {
                if kinds[i] == kind {
                    assert(list_or_empty(filter@.kinds) == kinds@);
                    assert(kinds@[i as int] == kind);
                    return true;
                }
                i = i + 1;
            }
            assert(list_or_empty(filter@.kinds) == kinds@);
            false
        },
        None => false,
    }
}

/// Whether a filter is one that the relay serves from its wallet connect store.
pub fn is_nwc_subscription(filter: &Filter) -> (res: bool)
    ensures
        res == nwc_subscription_spec(filter@),
{
    let wants_nwc = filter_requests_kind(filter, WALLET_CONNECT_RESPONSE) || filter_requests_kind(
        filter,
        WALLET_CONNECT_REQUEST,
    );
    let has_authors = match &filter.authors {
        Some(a) => a.len() > 0,
        None => false,
    };
    let has_pubkeys = match &filter.pubkeys {
        Some(p) => p.len() > 0,
        None => false,
    };
    wants_nwc && has_authors || has_pubkeys
}

fn append_copies(dest: &mut Vec<Vec<u8>>, src: &Vec<Vec<u8>>)
    ensures
        byte_strings_view(final(dest)@) == byte_strings_view(old(dest)@) + byte_strings_view(src@),
{
    let ghost start = byte_strings_view(dest@);
    let mut i: usize = 0;
    while i < src.len()
        invariant
            i <= src.len(),
            byte_strings_view(dest@) == start + byte_strings_view(src@).take(i as int),
        decreases src.len() - i,
    {
        let ghost prev = dest@;
        let item = copy_bytes(&src[i]);
        dest.push(item);
        assert(byte_strings_view(dest@) =~= byte_strings_view(prev).push(src@[i as int]@));
        assert(byte_strings_view(src@).take(i + 1) =~= byte_strings_view(src@).take(i as int).push(
            src@[i as int]@,
        ));
        assert(byte_strings_view(dest@) =~= start + byte_strings_view(src@).take(i + 1));
        i = i + 1;
    }
    assert(byte_strings_view(src@).take(src.len() as int) =~= byte_strings_view(src@));
}

/// The keys whose stored wallet connect events a filter asks for: its authors,
/// then its referenced public keys.
pub fn filter_keys(filter: &Filter) -> (keys: Vec<Vec<u8>>)
    ensures
        byte_strings_view(keys@) == list_or_empty(filter@.authors) + list_or_empty(
            filter@.pubkeys,
        ),
{
    let mut keys: Vec<Vec<u8>> = Vec::new();
    assert(byte_strings_view(keys@) =~= Seq::<Seq<u8>>::empty());
    if let Some(authors) = &filter.authors {
        append_copies(&mut keys, authors);
    }
    if let Some(pubkeys) = &filter.pubkeys {
        append_copies(&mut keys, pubkeys);
    }
    assert(byte_strings_view(keys@) =~= list_or_empty(filter@.authors) + list_or_empty(
        filter@.pubkeys,
    ));
    keys
}

/// The values of a list of filters.
pub open spec fn filters_view(v: Seq<Filter>) -> Seq<FilterView> {
    v.map_values(|f: Filter| f@)
}

/// The combined filter after the wallet connect filters among `filters` were
/// merged into `master`, in order; the other filters are left out.
pub open spec fn merge_nwc_filters(master: FilterView, filters: Seq<FilterView>) -> FilterView
    decreases filters.len(),
{
    if filters.len() == 0 {
        master
    } else {
        let m = merge_nwc_filters(master, filters.drop_last());
        if nwc_subscription_spec(filters.last()) {
            combine_filters_spec(m, filters.last())
        } else {
            m
        }
    }
}

/// Takes in the filters of a new subscription request: merges each wallet
/// connect filter among them into the connection's combined filter, and
/// tells whether there was any.
pub fn merge_subscription(master: &mut Filter, filters: &Vec<Filter>) -> (any_nwc: bool)
    ensures
        final(master)@ == merge_nwc_filters(old(master)@, filters_view(filters@)),
        any_nwc == exists|i: int|
            0 <= i < filters@.len() && nwc_subscription_spec(#[trigger] filters@[i]@),
{
    let ghost start = master@;
    let mut valid = false;
    let mut i: usize = 0;
    while i < filters.len()
        invariant
            i <= filters.len(),
            master@ == merge_nwc_filters(start, filters_view(filters@).take(i as int)),
            valid == exists|j: int| 0 <= j < i && nwc_subscription_spec(#[trigger] filters@[j]@),
        decreases filters.len() - i,
    {
        assert(filters_view(filters@).take(i + 1).drop_last() =~= filters_view(filters@).take(
            i as int,
        ));
        assert(filters_view(filters@).take(i + 1).last() == filters@[i as int]@);
        if is_nwc_subscription(&filters[i]) {
            combine_filters(master, &filters[i]);
            valid = true;
        }
        i = i + 1;
    }
    assert(filters_view(filters@).take(filters.len() as int) =~= filters_view(filters@));
    valid
}

} // verus!
