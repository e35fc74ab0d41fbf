//! The two orders in which the relay lists events, a stable sort by either
//! of them, and the removal of repeated neighbours after sorting.

use vstd::prelude::*;
use crate::event::{
    NostrEvent, NostrEventView, events_view, lex_less, lemma_lex_less_irreflexive,
    lemma_lex_less_total, lemma_lex_less_transitive, bytes_lex_less, copy_event, events_equal,
};

verus! {

/// An order of events.
#[derive(Clone, Copy, PartialEq, Eq, Structural)]
pub enum EventOrder {
    /// Oldest first, by creation time only.
    OldestFirst,
    /// The nostr library's order of events: newest first, and by id among
    /// events of the same creation time.
    NewestFirst,
}

/// Whether `a` comes strictly before `b` in the order.
pub open spec fn precedes(order: EventOrder, a: NostrEventView, b: NostrEventView) -> bool {
    match order {
        EventOrder::OldestFirst => a.created_at < b.created_at,
        EventOrder::NewestFirst => a.created_at > b.created_at || (a.created_at == b.created_at
            && lex_less(a.id, b.id)),
    }
}

/// Whether neither of two events comes before the other.
pub open spec fn same_rank(order: EventOrder, a: NostrEventView, b: NostrEventView) -> bool {
    !precedes(order, a, b) && !precedes(order, b, a)
}

/// Whether no event of a list comes before an earlier one.
pub open spec fn sorted_by(order: EventOrder, s: Seq<NostrEventView>) -> bool {
    forall|i: int, j: int| 0 <= i < j < s.len() ==> !precedes(order, #[trigger] s[j], #[trigger] s[i])
}

/// The test for the events of the same rank as `x`.
pub open spec fn rank_pred(order: EventOrder, x: NostrEventView) -> spec_fn(NostrEventView) -> bool {
    |e: NostrEventView| same_rank(order, e, x)
}

/// The events of `s` that have the same rank as `x`, in their order in `s`.
pub open spec fn rank_class(order: EventOrder, s: Seq<NostrEventView>, x: NostrEventView) -> Seq<
    NostrEventView,
> {
    s.filter(rank_pred(order, x))
}

/// Whether `output` is `input` sorted by a stable sort: in order, and with
/// the events of each rank in the order they had in `input`.
pub open spec fn stable_sort_of(
    order: EventOrder,
    input: Seq<NostrEventView>,
    output: Seq<NostrEventView>,
) -> bool {
    &&& sorted_by(order, output)
    &&& forall|x: NostrEventView| #[trigger]
        rank_class(order, output, x) == rank_class(order, input, x)
}

/// No event comes before itself, and of two events at most one comes before the other.
pub proof fn lemma_precedes_strict(order: EventOrder, a: NostrEventView, b: NostrEventView)
    ensures
        !precedes(order, a, a),
        precedes(order, a, b) ==> !precedes(order, b, a),
{
    lemma_lex_less_irreflexive(a.id);
    lemma_lex_less_total(a.id, b.id);
}

/// If `a` comes before `c`, then `a` comes before `b` or `b` before `c`.
pub proof fn lemma_precedes_negatively_transitive(
    order: EventOrder,
    a: NostrEventView,
    b: NostrEventView,
    c: NostrEventView,
)
    requires
        precedes(order, a, c),
    ensures
        precedes(order, a, b) || precedes(order, b, c),
{
    if let EventOrder::NewestFirst = order {
        lemma_lex_less_total(a.id, b.id);
        lemma_lex_less_total(b.id, c.id);
        if a.created_at == b.created_at && b.created_at == c.created_at {
            if !lex_less(a.id, b.id) && !lex_less(b.id, c.id) {
                if lex_less(b.id, a.id) {
                    if lex_less(c.id, b.id) {
                        lemma_lex_less_transitive(c.id, b.id, a.id);
                        lemma_lex_less_total(a.id, c.id);
                    } else {
                        lemma_lex_less_total(a.id, c.id);
                        lemma_lex_less_irreflexive(a.id);
                    }
                } else {
                    lemma_lex_less_irreflexive(a.id);
                    lemma_lex_less_total(a.id, c.id);
                }
            }
        }
    }
}

/// The events of a list that satisfy none of a test filter to nothing.
pub proof fn lemma_filter_none<A>(s: Seq<A>, pred: spec_fn(A) -> bool)
    requires
        forall|k: int| 0 <= k < s.len() ==> !pred(#[trigger] s[k]),
    ensures
        s.filter(pred) == Seq::<A>::empty(),
    decreases s.len(),
{
    reveal(Seq::filter);
    if s.len() > 0 {
        assert forall|k: int| 0 <= k < s.drop_last().len() implies !pred(
            #[trigger] s.drop_last()[k],
        ) by {
            assert(s.drop_last()[k] == s[k]);
        }
        lemma_filter_none(s.drop_last(), pred);
        assert(!pred(s[s.len() - 1]));
    }
}

/// Inserting `x` into a sorted list right after the last event that `x`
/// does not come before keeps the list a stable sort of the input with `x` added.
proof fn lemma_insert_keeps_stable_sort(
    order: EventOrder,
    input: Seq<NostrEventView>,
    res: Seq<NostrEventView>,
    x: NostrEventView,
    j: int,
)
    requires
        stable_sort_of(order, input, res),
        0 <= j <= res.len(),
        forall|k: int| j <= k < res.len() ==> precedes(order, x, #[trigger] res[k]),
        j > 0 ==> !precedes(order, x, res[j - 1]),
    ensures
        stable_sort_of(order, input.push(x), res.insert(j, x)),
{
    let new = res.insert(j, x);
    assert forall|p: int, q: int| 0 <= p < q < new.len() implies !precedes(
        order,
        #[trigger] new[q],
        #[trigger] new[p],
    ) by {
        if q == j {
            assert(new[p] == res[p]);
            if precedes(order, x, res[p]) {
                lemma_precedes_negatively_transitive(order, x, res[j - 1], res[p]);
                if p < j - 1 {
                    assert(!precedes(order, res[j - 1], res[p]));
                }
                lemma_precedes_strict(order, x, res[p]);
            }
        } else if p == j {
            assert(new[q] == res[q - 1]);
            lemma_precedes_strict(order, x, res[q - 1]);
        } else {
            let pp = if p < j { p } else { p - 1 };
            let qq = if q < j { q } else { q - 1 };
            assert(new[p] == res[pp]);
            assert(new[q] == res[qq]);
        }
    }
    let left = res.subrange(0, j);
    let right = res.subrange(j, res.len() as int);
    assert(res =~= left + right);
    assert(new =~= left + seq![x] + right);
    assert forall|y: NostrEventView| #[trigger] rank_class(order, new, y) == rank_class(
        order,
        input.push(x),
        y,
    ) by {
        let pred = rank_pred(order, y);
        Seq::filter_distributes_over_add(left, right, pred);
        Seq::filter_distributes_over_add(left + seq![x], right, pred);
        Seq::filter_distributes_over_add(left, seq![x], pred);
        reveal(Seq::filter);
        assert(input.push(x).drop_last() =~= input);
        assert(seq![x].drop_last() =~= Seq::<NostrEventView>::empty());
        assert(rank_class(order, res, y) == rank_class(order, input, y));
        if same_rank(order, x, y) {
            assert forall|k: int| 0 <= k < right.len() implies !pred(#[trigger] right[k]) by {
                assert(right[k] == res[j + k]);
                assert(precedes(order, x, res[j + k]));
                if same_rank(order, res[j + k], y) {
                    lemma_precedes_negatively_transitive(order, x, y, res[j + k]);
                }
            }
            lemma_filter_none(right, pred);
            assert(right.filter(pred) =~= Seq::<NostrEventView>::empty());
            assert(rank_class(order, new, y) =~= left.filter(pred) + seq![x]);
            assert(rank_class(order, res, y) =~= left.filter(pred));
        } else {
            lemma_filter_none(seq![x], pred);
            assert(rank_class(order, new, y) =~= left.filter(pred) + right.filter(pred));
        }
    }
}

/// `events` sorted by `order`, stably: events of the same rank keep their order.
pub fn sort_events(order: EventOrder, events: &Vec<NostrEvent>) -> (res: Vec<NostrEvent>)
    ensures
        stable_sort_of(order, events_view(events@), events_view(res@)),
{
    let mut res: Vec<NostrEvent> = Vec::new();
    let mut i: usize = 0;
    proof {
        assert(events_view(events@).take(0) =~= Seq::<NostrEventView>::empty());
        assert(events_view(res@) =~= Seq::<NostrEventView>::empty());
    }
    while i < events.len()
        invariant
            i <= events.len(),
            stable_sort_of(order, events_view(events@).take(i as int), events_view(res@)),
        decreases events.len() - i,
    {
        let x = copy_event(&events[i]);
        let mut j: usize = res.len();
        while j > 0 && event_precedes(order, &x, &res[j - 1])
            invariant
                j <= res.len(),
                forall|k: int| j <= k < res.len() ==> precedes(order, x@, #[trigger] res@[k]@),
            decreases j,
        {
            j = j - 1;
        }
        proof {
            if j > 0 {
                assert(events_view(res@)[j - 1] == res@[j - 1]@);
            }
            assert forall|k: int| j <= k < events_view(res@).len() implies precedes(
                order,
                x@,
                #[trigger] events_view(res@)[k],
            ) by {
                assert(events_view(res@)[k] == res@[k]@);
            }
            lemma_insert_keeps_stable_sort(
                order,
                events_view(events@).take(i as int),
                events_view(res@),
                x@,
                j as int,
            );
            assert(events_view(events@).take(i + 1) =~= events_view(events@).take(i as int).push(
                x@,
            ));
        }
        let ghost prev = res@;
        res.insert(j, x);
        assert(events_view(res@) =~= events_view(prev).insert(j as int, x@));
        i = i + 1;
    }
    assert(events_view(events@).take(events.len() as int) =~= events_view(events@));
    res
}

/// Whether event `a` comes strictly before event `b` in the order.
pub fn event_precedes(order: EventOrder, a: &NostrEvent, b: &NostrEvent) -> (res: bool)
    ensures
        res == precedes(order, a@, b@),
{
    match order {
        EventOrder::OldestFirst => a.created_at < b.created_at,
        EventOrder::NewestFirst => a.created_at > b.created_at || (a.created_at == b.created_at
            && bytes_lex_less(&a.id, &b.id)),
    }
}

/// A list with each run of equal neighbours cut down to its first event.
pub open spec fn dedup_spec(s: Seq<NostrEventView>) -> Seq<NostrEventView>
    decreases s.len(),
{
    if s.len() <= 1 {
        s
    } else {
        let d = dedup_spec(s.drop_last());
        if s.last() == s[s.len() - 2] {
            d
        } else {
            d.push(s.last())
        }
    }
}

/// `events` with each run of equal neighbours cut down to its first event.
#[verifier::rlimit(40)]
pub fn dedup_events(events: &Vec<NostrEvent>) -> (res: Vec<NostrEvent>)
    ensures
        events_view(res@) == dedup_spec(events_view(events@)),
{
    let mut res: Vec<NostrEvent> = Vec::new();
    let mut i: usize = 0;
    proof {
        assert(events_view(events@).take(0) =~= Seq::<NostrEventView>::empty());
        assert(events_view(res@) =~= Seq::<NostrEventView>::empty());
    }
    while i < events.len()
        invariant
            i <= events.len(),
            events_view(res@) == dedup_spec(events_view(events@).take(i as int)),
        decreases events.len() - i,
    {
        let ghost s = events_view(events@).take(i + 1);
        assert(s.drop_last() =~= events_view(events@).take(i as int));
        assert(s.last() == events@[i as int]@);
        if i == 0 {
            let x = copy_event(&events[i]);
            res.push(x);
            assert(events_view(res@) =~= s);
        } else {
            assert(s[s.len() - 2] == events@[i - 1]@);
            if !events_equal(&events[i], &events[i - 1]) {
                let ghost prev = res@;
                let x = copy_event(&events[i]);
                res.push(x);
                assert(events_view(res@) =~= events_view(prev).push(events@[i as int]@));
            }
        }
        i = i + 1;
    }
    assert(events_view(events@).take(events.len() as int) =~= events_view(events@));
    res
}


proof fn lemma_class_member(s: Seq<NostrEventView>, order: EventOrder, x: NostrEventView, k: int)
    requires
        0 <= k < s.len(),
        same_rank(order, s[k], x),
    ensures
        rank_class(order, s, x).contains(s[k]),
{
    s.lemma_filter_contains(rank_pred(order, x), k);
}

proof fn lemma_class_member_rev(s: Seq<NostrEventView>, order: EventOrder, x: NostrEventView, e: NostrEventView)
    requires
        rank_class(order, s, x).contains(e),
    ensures
        s.contains(e),
        same_rank(order, e, x),
{
    let c = rank_class(order, s, x);
    let k = choose|k: int| 0 <= k < c.len() && c[k] == e;
    s.lemma_filter_pred(rank_pred(order, x), k);
    s.lemma_filter_contains_rev(rank_pred(order, x), e);
}

/// Two sorted lists with the same events in every rank, in the same order,
/// are the same list.
proof fn lemma_same_classes_same_list(order: EventOrder, b1: Seq<NostrEventView>, b2: Seq<NostrEventView>)
    requires
        sorted_by(order, b1),
        sorted_by(order, b2),
        forall|x: NostrEventView| #[trigger] rank_class(order, b1, x) == rank_class(order, b2, x),
    ensures
        b1 == b2,
    decreases b1.len() + b2.len(),
{
    reveal_with_fuel(Seq::filter, 1);
    if b1.len() == 0 && b2.len() == 0 {
        assert(b1 =~= b2);
    } else if b1.len() == 0 || b2.len() == 0 {
        let (full, empty) = if b1.len() == 0 { (b2, b1) } else { (b1, b2) };
        let x = full[0];
        lemma_precedes_strict(order, x, x);
        lemma_class_member(full, order, x, 0);
        assert(rank_class(order, empty, x) =~= Seq::<NostrEventView>::empty());
        assert(rank_class(order, b1, x) == rank_class(order, b2, x));
        assert(false);
    } else {
        let l1 = b1.last();
        let l2 = b2.last();
        lemma_precedes_strict(order, l1, l1);
        lemma_precedes_strict(order, l2, l2);
        if precedes(order, l1, l2) {
            lemma_class_member(b2, order, l2, b2.len() - 1);
            assert(rank_class(order, b1, l2) == rank_class(order, b2, l2));
            lemma_class_member_rev(b1, order, l2, l2);
            let k = choose|k: int| 0 <= k < b1.len() && b1[k] == l2;
            if k < b1.len() - 1 {
                assert(!precedes(order, b1[b1.len() - 1], b1[k]));
            }
            lemma_precedes_strict(order, l1, l2);
            assert(false);
        }
        if precedes(order, l2, l1) {
            lemma_class_member(b1, order, l1, b1.len() - 1);
            assert(rank_class(order, b1, l1) == rank_class(order, b2, l1));
            lemma_class_member_rev(b2, order, l1, l1);
            let k = choose|k: int| 0 <= k < b2.len() && b2[k] == l1;
            if k < b2.len() - 1 {
                assert(!precedes(order, b2[b2.len() - 1], b2[k]));
            }
            lemma_precedes_strict(order, l2, l1);
            assert(false);
        }
        assert(same_rank(order, l1, l2));
        assert(rank_class(order, b1, l1) == rank_class(order, b2, l1));
        assert(rank_class(order, b1, l1).last() == l1);
        assert(rank_class(order, b2, l1).last() == l2);
        let d1 = b1.drop_last();
        let d2 = b2.drop_last();
        assert forall|x: NostrEventView| #[trigger] rank_class(order, d1, x) == rank_class(order, d2, x) by {
            assert(rank_class(order, b1, x) == rank_class(order, b2, x));
            if same_rank(order, l1, x) {
                assert(rank_class(order, d1, x) == rank_class(order, b1, x).drop_last());
                assert(rank_class(order, d2, x) == rank_class(order, b2, x).drop_last());
            } else {
                assert(rank_class(order, d1, x) == rank_class(order, b1, x));
                assert(rank_class(order, d2, x) == rank_class(order, b2, x));
            }
        }
        assert forall|i: int, j: int| 0 <= i < j < d1.len() implies !precedes(order, #[trigger] d1[j], #[trigger] d1[i]) by {
            assert(d1[i] == b1[i] && d1[j] == b1[j]);
        }
        assert forall|i: int, j: int| 0 <= i < j < d2.len() implies !precedes(order, #[trigger] d2[j], #[trigger] d2[i]) by {
            assert(d2[i] == b2[i] && d2[j] == b2[j]);
        }
        lemma_same_classes_same_list(order, d1, d2);
        assert(b1 =~= d1.push(l1));
        assert(b2 =~= d2.push(l2));
    }
}

/// A stable sort has one result: two stable sorts of the same list agree.
/// So "some stable sort of" in a contract pins the result down.
pub proof fn stable_sort_is_unique(
    order: EventOrder,
    input: Seq<NostrEventView>,
    b1: Seq<NostrEventView>,
    b2: Seq<NostrEventView>,
)
    requires
        stable_sort_of(order, input, b1),
        stable_sort_of(order, input, b2),
    ensures
        b1 == b2,
{
    assert forall|x: NostrEventView| #[trigger] rank_class(order, b1, x) == rank_class(order, b2, x) by {
        assert(rank_class(order, b1, x) == rank_class(order, input, x));
        assert(rank_class(order, b2, x) == rank_class(order, input, x));
    }
    lemma_same_classes_same_list(order, b1, b2);
}

/// A stable sort neither adds nor drops events: an event is in the sorted
/// list exactly when it is in the input.
pub proof fn stable_sort_keeps_members(
    order: EventOrder,
    input: Seq<NostrEventView>,
    output: Seq<NostrEventView>,
    e: NostrEventView,
)
    requires
        stable_sort_of(order, input, output),
    ensures
        output.contains(e) <==> input.contains(e),
{
    lemma_precedes_strict(order, e, e);
    assert(rank_class(order, output, e) == rank_class(order, input, e));
    if output.contains(e) {
        let k = choose|k: int| 0 <= k < output.len() && output[k] == e;
        lemma_class_member(output, order, e, k);
        lemma_class_member_rev(input, order, e, e);
    }
    if input.contains(e) {
        let k = choose|k: int| 0 <= k < input.len() && input[k] == e;
        lemma_class_member(input, order, e, k);
        lemma_class_member_rev(output, order, e, e);
    }
}

/// Cutting runs of equal neighbours keeps exactly the events of the list and
/// leaves no two equal neighbours.
pub proof fn dedup_keeps_members_without_adjacent_repeats(s: Seq<NostrEventView>, e: NostrEventView)
    ensures
        dedup_spec(s).contains(e) <==> s.contains(e),
        forall|i: int| 0 <= i < dedup_spec(s).len() - 1 ==> #[trigger] dedup_spec(s)[i] != dedup_spec(s)[i + 1],
        s.len() > 0 ==> dedup_spec(s).len() > 0 && dedup_spec(s).last() == s.last(),
    decreases s.len(),
{
    if s.len() > 1 {
        let d = dedup_spec(s.drop_last());
        dedup_keeps_members_without_adjacent_repeats(s.drop_last(), e);
        dedup_keeps_members_without_adjacent_repeats(s.drop_last(), s.last());
        assert(s.drop_last().last() == s[s.len() - 2]);
        if s.drop_last().contains(e) {
            let k = choose|k: int| 0 <= k < s.drop_last().len() && s.drop_last()[k] == e;
            assert(s[k] == e);
        }
        if s.contains(e) {
            let k = choose|k: int| 0 <= k < s.len() && s[k] == e;
            if k < s.len() - 1 {
                assert(s.drop_last()[k] == e);
            } else if s.last() == s[s.len() - 2] {
                assert(s.drop_last()[s.len() - 2] == e);
            }
        }
        if s.last() != s[s.len() - 2] {
            let r = d.push(s.last());
            assert(r[d.len() as int] == s.last());
            if d.contains(e) {
                let k = choose|k: int| 0 <= k < d.len() && d[k] == e;
                assert(r[k] == e);
            }
            if r.contains(e) {
                let k = choose|k: int| 0 <= k < r.len() && r[k] == e;
                if k < d.len() {
                    assert(d[k] == e);
                }
            }
            assert forall|i: int| 0 <= i < r.len() - 1 implies #[trigger] r[i] != r[i + 1] by {
                if i == d.len() - 1 {
                    assert(r[i] == d.last());
                } else {
                    assert(r[i] == d[i] && r[i + 1] == d[i + 1]);
                }
            }
        }
    } else if s.len() == 1 {
        if s.contains(e) {
            let k = choose|k: int| 0 <= k < s.len() && s[k] == e;
            assert(k == 0);
        }
    }
}

/// The test that both `p` and `q` pass.
pub open spec fn and_pred<A>(p: spec_fn(A) -> bool, q: spec_fn(A) -> bool) -> spec_fn(A) -> bool {
    |e: A| p(e) && q(e)
}

/// The test for being equal to `x`.
spec fn eq_pred<A>(x: A) -> spec_fn(A) -> bool {
    |e: A| e == x
}

/// An element kept by a filter is an element of the list that passes the test.
pub(crate) proof fn lemma_filter_member<A>(s: Seq<A>, p: spec_fn(A) -> bool, e: A)
    requires
        s.filter(p).contains(e),
    ensures
        s.contains(e),
        p(e),
{
    let k = choose|k: int| 0 <= k < s.filter(p).len() && s.filter(p)[k] == e;
    s.lemma_filter_pred(p, k);
    s.lemma_filter_contains_rev(p, e);
}

/// Filtering by `p` and then by `q` is filtering by both at once.
pub(crate) proof fn lemma_filter_filter<A>(s: Seq<A>, p: spec_fn(A) -> bool, q: spec_fn(A) -> bool)
    ensures
        s.filter(p).filter(q) == s.filter(and_pred(p, q)),
    decreases s.len(),
{
    if s.len() == 0 {
        reveal_with_fuel(Seq::filter, 1);
        assert(s.filter(p).filter(q) =~= s.filter(and_pred(p, q)));
    } else {
        let d = s.drop_last();
        let l = s.last();
        lemma_filter_filter(d, p, q);
        assert(s =~= d.push(l));
        d.lemma_filter_push(l, p);
        d.lemma_filter_push(l, and_pred(p, q));
        if p(l) {
            d.filter(p).lemma_filter_push(l, q);
        }
    }
}

/// Filtering by `p` and by `q` can be done in either order.
pub(crate) proof fn lemma_filters_commute<A>(s: Seq<A>, p: spec_fn(A) -> bool, q: spec_fn(A) -> bool)
    ensures
        s.filter(p).filter(q) == s.filter(q).filter(p),
{
    lemma_filter_filter(s, p, q);
    lemma_filter_filter(s, q, p);
    assert(and_pred(p, q) =~= and_pred(q, p));
}

/// What a filter keeps of a list without repeats has no repeats.
pub(crate) proof fn lemma_filter_no_duplicates<A>(s: Seq<A>, p: spec_fn(A) -> bool)
    requires
        s.no_duplicates(),
    ensures
        s.filter(p).no_duplicates(),
    decreases s.len(),
{
    if s.len() == 0 {
        reveal_with_fuel(Seq::filter, 1);
    } else {
        let d = s.drop_last();
        let l = s.last();
        assert(s =~= d.push(l));
        assert(d.no_duplicates()) by {
            assert forall|i: int, j: int| 0 <= i < d.len() && 0 <= j < d.len() && i != j
                implies d[i] != d[j] by {
                assert(d[i] == s[i] && d[j] == s[j]);
            }
        }
        lemma_filter_no_duplicates(d, p);
        d.lemma_filter_push(l, p);
        if p(l) {
            let f = d.filter(p);
            let g = f.push(l);
            if f.contains(l) {
                lemma_filter_member(d, p, l);
                let k = choose|k: int| 0 <= k < d.len() && d[k] == l;
                assert(s[k] == s[s.len() - 1]);
            }
            assert forall|i: int, j: int| 0 <= i < g.len() && 0 <= j < g.len() && i != j
                implies g[i] != g[j] by {
                if i < f.len() && j < f.len() {
                    assert(g[i] == f[i] && g[j] == f[j]);
                } else if i < f.len() {
                    assert(g[i] == f[i] && g[j] == l);
                } else if j < f.len() {
                    assert(g[j] == f[j] && g[i] == l);
                }
            }
        }
    }
}

/// What a filter keeps of a sorted list is sorted.
pub(crate) proof fn lemma_sorted_filter(order: EventOrder, s: Seq<NostrEventView>, p: spec_fn(NostrEventView) -> bool)
    requires
        sorted_by(order, s),
    ensures
        sorted_by(order, s.filter(p)),
    decreases s.len(),
{
    if s.len() == 0 {
        reveal_with_fuel(Seq::filter, 1);
    } else {
        let d = s.drop_last();
        let l = s.last();
        assert(s =~= d.push(l));
        assert forall|i: int, j: int| 0 <= i < j < d.len() implies !precedes(order, #[trigger] d[j], #[trigger] d[i]) by {
            assert(d[i] == s[i] && d[j] == s[j]);
        }
        lemma_sorted_filter(order, d, p);
        d.lemma_filter_push(l, p);
        if p(l) {
            let f = d.filter(p);
            let g = f.push(l);
            assert forall|i: int, j: int| 0 <= i < j < g.len() implies !precedes(order, #[trigger] g[j], #[trigger] g[i]) by {
                if j < f.len() {
                    assert(g[i] == f[i] && g[j] == f[j]);
                } else {
                    assert(g[i] == f[i] && g[j] == l);
                    assert(f.contains(f[i]));
                    lemma_filter_member(d, p, f[i]);
                    let k = choose|k: int| 0 <= k < d.len() && d[k] == f[i];
                    assert(s[k] == d[k] && s[s.len() - 1] == l);
                }
            }
        }
    }
}

/// Filtering a stably sorted list gives the stable sort of the filtered input:
/// keeping only some events commutes with sorting them.
pub proof fn stable_sort_commutes_with_filter(
    order: EventOrder,
    input: Seq<NostrEventView>,
    output: Seq<NostrEventView>,
    p: spec_fn(NostrEventView) -> bool,
)
    requires
        stable_sort_of(order, input, output),
    ensures
        stable_sort_of(order, input.filter(p), output.filter(p)),
{
    lemma_sorted_filter(order, output, p);
    assert forall|x: NostrEventView| #[trigger] rank_class(order, output.filter(p), x)
        == rank_class(order, input.filter(p), x) by {
        assert(rank_class(order, output, x) == rank_class(order, input, x));
        lemma_filters_commute(output, p, rank_pred(order, x));
        lemma_filters_commute(input, p, rank_pred(order, x));
    }
}

/// A list that holds `x` at two places keeps at least two copies of it when
/// filtered by equality with `x`.
proof fn lemma_two_occurrences<A>(s: Seq<A>, i: int, j: int)
    requires
        0 <= i < j < s.len(),
        s[i] == s[j],
    ensures
        s.filter(eq_pred(s[i])).len() >= 2,
{
    let p = eq_pred(s[i]);
    let a = s.take(j);
    let b = s.skip(j);
    assert(s =~= a + b);
    Seq::filter_distributes_over_add(a, b, p);
    assert(a[i] == s[i]);
    a.lemma_filter_contains(p, i);
    assert(b[0] == s[j]);
    b.lemma_filter_contains(p, 0);
}

/// A list without repeats keeps at most one copy of `x` when filtered by equality with `x`.
proof fn lemma_no_duplicates_one_occurrence<A>(s: Seq<A>, x: A)
    requires
        s.no_duplicates(),
    ensures
        s.filter(eq_pred(x)).len() <= 1,
{
    let f = s.filter(eq_pred(x));
    lemma_filter_no_duplicates(s, eq_pred(x));
    if f.len() >= 2 {
        s.lemma_filter_pred(eq_pred(x), 0);
        s.lemma_filter_pred(eq_pred(x), 1);
    }
}

/// The copies of `x` in a list are the copies of `x` in its rank class of `x`.
proof fn lemma_copies_within_class(order: EventOrder, s: Seq<NostrEventView>, x: NostrEventView)
    ensures
        s.filter(eq_pred(x)) == rank_class(order, s, x).filter(eq_pred(x)),
{
    lemma_filter_filter(s, rank_pred(order, x), eq_pred(x));
    lemma_precedes_strict(order, x, x);
    assert(and_pred(rank_pred(order, x), eq_pred(x)) =~= eq_pred(x));
}

/// A stable sort of a list without repeats has no repeats.
pub proof fn stable_sort_keeps_no_duplicates(
    order: EventOrder,
    input: Seq<NostrEventView>,
    output: Seq<NostrEventView>,
)
    requires
        stable_sort_of(order, input, output),
        input.no_duplicates(),
    ensures
        output.no_duplicates(),
{
    assert forall|i: int, j: int| 0 <= i < output.len() && 0 <= j < output.len() && i != j
        implies output[i] != output[j] by {
        if output[i] == output[j] {
            let a = if i < j { i } else { j };
            let b = if i < j { j } else { i };
            let x = output[a];
            lemma_two_occurrences(output, a, b);
            lemma_copies_within_class(order, output, x);
            lemma_copies_within_class(order, input, x);
            assert(rank_class(order, output, x) == rank_class(order, input, x));
            lemma_no_duplicates_one_occurrence(input, x);
        }
    }
}

/// Cutting runs of equal neighbours leaves a list without equal neighbours as it is.
pub proof fn dedup_without_adjacent_repeats_is_identity(s: Seq<NostrEventView>)
    requires
        forall|i: int| 0 <= i < s.len() - 1 ==> #[trigger] s[i] != s[i + 1],
    ensures
        dedup_spec(s) == s,
    decreases s.len(),
{
    if s.len() > 1 {
        let d = s.drop_last();
        assert forall|i: int| 0 <= i < d.len() - 1 implies #[trigger] d[i] != d[i + 1] by {
            assert(d[i] == s[i] && d[i + 1] == s[i + 1]);
        }
        dedup_without_adjacent_repeats_is_identity(d);
        assert(s[s.len() - 2] != s[s.len() - 1]);
        assert(s =~= d.push(s.last()));
    }
}

/// A list is in oldest-first order exactly when creation times never go down.
pub proof fn oldest_first_is_nondecreasing_time(s: Seq<NostrEventView>)
    ensures
        sorted_by(EventOrder::OldestFirst, s) <==> forall|i: int, j: int|
            0 <= i < j < s.len() ==> #[trigger] s[i].created_at <= #[trigger] s[j].created_at,
{
    if sorted_by(EventOrder::OldestFirst, s) {
        assert forall|i: int, j: int| 0 <= i < j < s.len() implies #[trigger] s[i].created_at
            <= #[trigger] s[j].created_at by {
            assert(!precedes(EventOrder::OldestFirst, s[j], s[i]));
        }
    }
}

/// A list is in newest-first order exactly when creation times never go up,
/// and among events of one creation time the ids never go down in byte order.
pub proof fn newest_first_is_time_then_id(s: Seq<NostrEventView>)
    ensures
        sorted_by(EventOrder::NewestFirst, s) <==> forall|i: int, j: int|
            0 <= i < j < s.len() ==> #[trigger] s[i].created_at >= #[trigger] s[j].created_at
                && (s[i].created_at == s[j].created_at ==> !lex_less(s[j].id, s[i].id)),
{
    if sorted_by(EventOrder::NewestFirst, s) {
        assert forall|i: int, j: int| 0 <= i < j < s.len() implies #[trigger] s[i].created_at
            >= #[trigger] s[j].created_at && (s[i].created_at == s[j].created_at ==> !lex_less(
            s[j].id,
            s[i].id,
        )) by {
            assert(!precedes(EventOrder::NewestFirst, s[j], s[i]));
        }
    }
    if forall|i: int, j: int|
        0 <= i < j < s.len() ==> #[trigger] s[i].created_at >= #[trigger] s[j].created_at
            && (s[i].created_at == s[j].created_at ==> !lex_less(s[j].id, s[i].id)) {
        assert forall|i: int, j: int| 0 <= i < j < s.len() implies !precedes(
            EventOrder::NewestFirst,
            #[trigger] s[j],
            #[trigger] s[i],
        ) by {
            assert(s[i].created_at >= s[j].created_at);
        }
    }
}

} // verus!
