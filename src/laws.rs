use vstd::prelude::*;

use crate::codec::parse_collection;
use crate::record::{RecordView, created, deleted, has_title, is_first_with_title, other_title};

verus! {

/// The collection after create requests `reqs` (title, content) are served
/// one after another, and how many of them succeeded. Requests that race for
/// the store's lock are served in some such order.
pub open spec fn create_all(c: Seq<RecordView>, reqs: Seq<RecordView>) -> (Seq<RecordView>, nat)
    decreases reqs.len(),
{
    if reqs.len() == 0 {
        (c, 0)
    } else {
        let (d, n) = create_all(c, reqs.drop_last());
        match created(d, reqs.last().0, reqs.last().1) {
            Some(e) => (e, n + 1),
            None => (d, n),
        }
    }
}

/// Creating a record under a title that is not yet stored succeeds, and a
/// lookup of that title then finds exactly the new record.
pub proof fn lemma_create_then_find(c: Seq<RecordView>, t: Seq<char>, body: Seq<char>)
    requires
        !has_title(c, t),
    ensures
        created(c, t, body) is Some,
        has_title(created(c, t, body)->Some_0, t),
        forall|i: int|
            is_first_with_title(created(c, t, body)->Some_0, t, i) ==> created(
                c,
                t,
                body,
            )->Some_0[i] == (t, body),
{
    let d = c.push((t, body));
    assert(d[c.len() as int].0 == t);
    assert forall|i: int| is_first_with_title(d, t, i) implies d[i] == (t, body) by {
        if i < c.len() {
            assert(c[i].0 == d[i].0);
        }
    }
}

/// Creating a record under a title that is already stored fails and leaves
/// the collection as it was.
pub proof fn lemma_create_duplicate(c: Seq<RecordView>, t: Seq<char>, body: Seq<char>)
    requires
        has_title(c, t),
    ensures
        created(c, t, body) is None,
{
}

/// After deleting a title, no record carries it.
pub proof fn lemma_delete_then_find(c: Seq<RecordView>, t: Seq<char>)
    ensures
        !has_title(deleted(c, t), t),
{
    let d = deleted(c, t);
    assert forall|i: int| 0 <= i < d.len() implies #[trigger] d[i].0 != t by {
        c.lemma_filter_pred(other_title(t), i);
    }
}

/// Deleting a title that is not stored leaves the collection as it was.
pub proof fn lemma_delete_absent(c: Seq<RecordView>, t: Seq<char>)
    requires
        !has_title(c, t),
    ensures
        deleted(c, t) == c,
    decreases c.len(),
{
    reveal_with_fuel(Seq::filter, 1);
    if c.len() > 0 {
        let d = c.drop_last();
        assert(!has_title(d, t)) by {
            assert forall|i: int| 0 <= i < d.len() implies #[trigger] d[i].0 != t by {
                assert(d[i] == c[i]);
            }
        }
        lemma_delete_absent(d, t);
        assert(c.last().0 != t) by {
            assert(c[c.len() - 1].0 != t);
        }
        assert(d.push(c.last()) =~= c);
    }
}

/// Create requests with distinct titles, none of them stored, all succeed,
/// whatever order they are served in, and every record is then stored.
pub proof fn lemma_distinct_creates(c: Seq<RecordView>, reqs: Seq<RecordView>)
    requires
        forall|i: int, j: int| 0 <= i < j < reqs.len() ==> reqs[i].0 != reqs[j].0,
        forall|i: int| 0 <= i < reqs.len() ==> !has_title(c, #[trigger] reqs[i].0),
    ensures
        create_all(c, reqs) == (c + reqs, reqs.len()),
    decreases reqs.len(),
{
    if reqs.len() > 0 {
        let front = reqs.drop_last();
        let r = reqs.last();
        lemma_distinct_creates(c, front);
        let d = c + front;
        assert(!has_title(d, r.0)) by {
            assert(!has_title(c, reqs[reqs.len() - 1].0));
            assert forall|i: int| 0 <= i < d.len() implies #[trigger] d[i].0 != r.0 by {
                if i < c.len() {
                    assert(d[i] == c[i]);
                } else {
                    assert(d[i] == reqs[i - c.len()]);
                }
            }
        }
        assert(d.push(r) =~= c + reqs);
    }
}

/// Create requests that all carry one title not yet stored: exactly one of
/// them succeeds, whatever order they are served in.
pub proof fn lemma_same_title_creates(c: Seq<RecordView>, reqs: Seq<RecordView>, t: Seq<char>)
    requires
        reqs.len() >= 1,
        forall|i: int| 0 <= i < reqs.len() ==> #[trigger] reqs[i].0 == t,
        !has_title(c, t),
    ensures
        create_all(c, reqs) == (c.push(reqs[0]), 1nat),
        has_title(create_all(c, reqs).0, t),
    decreases reqs.len(),
{
    let r = reqs.last();
    assert(r.0 == t) by {
        assert(reqs[reqs.len() - 1].0 == t);
    }
    if reqs.len() == 1 {
        assert(reqs.drop_last().len() == 0);
        assert(create_all(c, reqs.drop_last()) == (c, 0nat));
        let e = c.push(r);
        assert(e[c.len() as int].0 == t);
        assert(r == reqs[0]);
    } else {
        let front = reqs.drop_last();
        assert forall|i: int| 0 <= i < front.len() implies #[trigger] front[i].0 == t by {
            assert(front[i] == reqs[i]);
        }
        lemma_same_title_creates(c, front, t);
        assert(front[0] == reqs[0]);
        assert(created(create_all(c, front).0, t, r.1) is None);
    }
}

/// The backing documents `docs[0]`, ..., `docs[n]` as create requests
/// `reqs` are served in turn under the store's lock: each request either
/// replaces the document by one holding the collection with its record, or,
/// where its title is taken, leaves the document as it was. This is what
/// `post_data` decides for each call.
pub open spec fn served_in_turn(docs: Seq<Seq<char>>, reqs: Seq<RecordView>) -> bool {
    &&& docs.len() == reqs.len() + 1
    &&& forall|k: int|
        0 <= k < reqs.len() ==> match parse_collection(#[trigger] docs[k]) {
            Some(c) => match created(c, reqs[k].0, reqs[k].1) {
                Some(d) => parse_collection(docs[k + 1]) == Some(d),
                None => docs[k + 1] == docs[k],
            },
            None => false,
        }
}

/// Every document along the way holds the collection after the requests
/// served so far.
pub proof fn lemma_served_prefix(
    docs: Seq<Seq<char>>,
    reqs: Seq<RecordView>,
    c: Seq<RecordView>,
    k: int,
)
    requires
        served_in_turn(docs, reqs),
        parse_collection(docs[0]) == Some(c),
        0 <= k <= reqs.len(),
    ensures
        parse_collection(docs[k]) == Some(create_all(c, reqs.subrange(0, k)).0),
    decreases k,
{
    if k == 0 {
        assert(reqs.subrange(0, 0).len() == 0);
    } else {
        lemma_served_prefix(docs, reqs, c, k - 1);
        let p = reqs.subrange(0, k);
        assert(p.drop_last() =~= reqs.subrange(0, k - 1));
        assert(p.last() == reqs[k - 1]);
        assert(parse_collection(docs[k - 1]) is Some);
    }
}

/// Concurrent create requests with distinct titles, none of them stored: in
/// whatever order the lock serves them, every one succeeds, and the final
/// document holds the old records followed by all the new ones.
pub proof fn lemma_distinct_posts(docs: Seq<Seq<char>>, reqs: Seq<RecordView>, c: Seq<RecordView>)
    requires
        served_in_turn(docs, reqs),
        parse_collection(docs[0]) == Some(c),
        forall|i: int, j: int| 0 <= i < j < reqs.len() ==> reqs[i].0 != reqs[j].0,
        forall|i: int| 0 <= i < reqs.len() ==> !has_title(c, #[trigger] reqs[i].0),
    ensures
        forall|k: int|
            0 <= k < reqs.len() ==> created(
                parse_collection(#[trigger] docs[k])->Some_0,
                reqs[k].0,
                reqs[k].1,
            ) is Some,
        parse_collection(docs[reqs.len() as int]) == Some(c + reqs),
{
    assert forall|k: int| 0 <= k < reqs.len() implies created(
        parse_collection(#[trigger] docs[k])->Some_0,
        reqs[k].0,
        reqs[k].1,
    ) is Some by {
        let p = reqs.subrange(0, k + 1);
        lemma_served_prefix(docs, reqs, c, k);
        lemma_distinct_creates(c, reqs.subrange(0, k));
        lemma_distinct_creates(c, p);
        assert(p.drop_last() =~= reqs.subrange(0, k));
        assert(p.last() == reqs[k]);
    }
    lemma_served_prefix(docs, reqs, c, reqs.len() as int);
    assert(reqs.subrange(0, reqs.len() as int) =~= reqs);
    lemma_distinct_creates(c, reqs);
}

/// Concurrent create requests that all carry one title not yet stored: in
/// whatever order the lock serves them, the first one served succeeds, every
/// later one is refused, and the final document holds exactly the old
/// records and that first one's record.
pub proof fn lemma_same_title_posts(
    docs: Seq<Seq<char>>,
    reqs: Seq<RecordView>,
    c: Seq<RecordView>,
    t: Seq<char>,
)
    requires
        served_in_turn(docs, reqs),
        parse_collection(docs[0]) == Some(c),
        reqs.len() >= 1,
        forall|i: int| 0 <= i < reqs.len() ==> #[trigger] reqs[i].0 == t,
        !has_title(c, t),
    ensures
        created(c, reqs[0].0, reqs[0].1) is Some,
        forall|k: int|
            1 <= k < reqs.len() ==> created(
                parse_collection(#[trigger] docs[k])->Some_0,
                reqs[k].0,
                reqs[k].1,
            ) is None,
        parse_collection(docs[reqs.len() as int]) == Some(c.push(reqs[0])),
{
    assert(reqs[0].0 == t);
    assert forall|k: int| 1 <= k < reqs.len() implies created(
        parse_collection(#[trigger] docs[k])->Some_0,
        reqs[k].0,
        reqs[k].1,
    ) is None by {
        let p = reqs.subrange(0, k);
        lemma_served_prefix(docs, reqs, c, k);
        assert forall|i: int| 0 <= i < p.len() implies #[trigger] p[i].0 == t by {
            assert(p[i] == reqs[i]);
        }
        lemma_same_title_creates(c, p, t);
        assert(reqs[k].0 == t);
    }
    lemma_served_prefix(docs, reqs, c, reqs.len() as int);
    assert(reqs.subrange(0, reqs.len() as int) =~= reqs);
    lemma_same_title_creates(c, reqs, t);
}

} // verus!
