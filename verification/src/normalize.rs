//! The canonical order a project's lists are put in before it is hashed: by
//! ID in text order, equal IDs keeping their authored order.

use vstd::prelude::*;
use crate::text::{compare_str, text_lt, lemma_text_lt_transitive, lemma_text_lt_asymmetric, TextOrder};

verus! {

/// Entry `a` of `ids` comes before entry `b`: a lower ID, or the same ID
/// authored earlier.
pub open spec fn id_before(ids: Seq<Seq<char>>, a: int, b: int) -> bool {
    text_lt(ids[a], ids[b]) || (ids[a] == ids[b] && a < b)
}

/// Some position of `order` holds entry `o`.
pub open spec fn orders_entry(order: Seq<usize>, o: int) -> bool {
    exists|k: int| 0 <= k < order.len() && (#[trigger] order[k]) as int == o
}

/// `order` lists each of the first `n` entries once, in canonical order.
pub open spec fn canonical_order(ids: Seq<Seq<char>>, order: Seq<usize>, n: int) -> bool {
    &&& order.len() == n
    &&& forall|k: int| 0 <= k < order.len() ==> (#[trigger] order[k]) < n
    &&& forall|i: int, j: int| 0 <= i < j < order.len() ==> id_before(ids, #[trigger] order[i] as int, #[trigger] order[j] as int)
    &&& forall|o: int| 0 <= o < n ==> #[trigger] orders_entry(order, o)
}

proof fn lemma_id_before_transitive(ids: Seq<Seq<char>>, a: int, b: int, c: int)
    requires
        id_before(ids, a, b),
        id_before(ids, b, c),
    ensures
        id_before(ids, a, c),
{
    if text_lt(ids[a], ids[b]) && text_lt(ids[b], ids[c]) {
        lemma_text_lt_transitive(ids[a], ids[b], ids[c]);
    }
}

/// The positions of `ids` in canonical order: by ID in text order, equal IDs
/// in the order given.
pub fn canonical_id_order(ids: &Vec<&str>) -> (r: Vec<usize>)
    ensures
        canonical_order(ids@.map_values(|s: &str| s@), r@, ids@.len() as int),
{
    let ghost v = ids@.map_values(|s: &str| s@);
    let n = ids.len();
    let mut out: Vec<usize> = Vec::new();
    let mut i: usize = 0;
    while i < n
        invariant
            n == ids@.len(),
            v == ids@.map_values(|s: &str| s@),
            i <= n,
            canonical_order(v, out@, i as int),
        decreases n - i,
    {
        let mut p: usize = 0;
        while p < out.len() && !(compare_str(ids[i], ids[out[p]]) == TextOrder::Less)
            invariant
                p <= out@.len(),
                n == ids@.len(),
                v == ids@.map_values(|s: &str| s@),
                i < n,
                canonical_order(v, out@, i as int),
                forall|k: int| 0 <= k < p ==> id_before(v, #[trigger] out@[k] as int, i as int),
            decreases out@.len() - p,
        {
            proof {
                let x = out@[p as int] as int;
                assert(v[x] == ids@[x]@ && v[i as int] == ids@[i as int]@);
                lemma_text_lt_asymmetric(v[x], v[i as int]);
                crate::text::lemma_text_lt_total(v[x], v[i as int]);
            }
            p = p + 1;
        }
        let ghost before = out@;
        proof {
            if p < before.len() {
                let x = before[p as int] as int;
                assert(v[x] == ids@[x]@ && v[i as int] == ids@[i as int]@);
                assert(id_before(v, i as int, x));
            }
        }
        out.insert(p, i);
        proof {
            let after = out@;
            assert forall|k: int| 0 <= k < after.len() implies (#[trigger] after[k]) < i + 1 by {
                if k < p {
                    assert(after[k] == before[k]);
                } else if k > p {
                    assert(after[k] == before[k - 1]);
                }
            }
            assert forall|x: int, y: int| 0 <= x < y < after.len() implies id_before(
                v,
                #[trigger] after[x] as int,
                #[trigger] after[y] as int,
            ) by {
                if y < p {
                    assert(after[x] == before[x] && after[y] == before[y]);
                } else if y == p {
                    assert(after[x] == before[x]);
                } else if x < p {
                    assert(after[x] == before[x] && after[y] == before[y - 1]);
                    if y - 1 > p {
                        assert(id_before(v, before[p as int] as int, before[y - 1] as int));
                        lemma_id_before_transitive(v, i as int, before[p as int] as int, before[y - 1] as int);
                    }
                    lemma_id_before_transitive(v, before[x] as int, i as int, before[y - 1] as int);
                } else if x == p {
                    assert(after[y] == before[y - 1]);
                    if y - 1 > p {
                        assert(id_before(v, before[p as int] as int, before[y - 1] as int));
                        lemma_id_before_transitive(v, i as int, before[p as int] as int, before[y - 1] as int);
                    }
                } else {
                    assert(after[x] == before[x - 1] && after[y] == before[y - 1]);
                }
            }
            assert forall|o: int| 0 <= o < i + 1 implies #[trigger] orders_entry(after, o) by {
                if o == i {
                    assert(after[p as int] as int == o);
                } else {
                    assert(orders_entry(before, o));
                    let k = choose|k: int| 0 <= k < before.len() && (#[trigger] before[k]) as int == o;
                    if k < p {
                        assert(after[k] == before[k]);
                    } else {
                        assert(after[k + 1] == before[k]);
                    }
                }
            }
        }
        i = i + 1;
    }
    out
}

/// Timed event `a` comes before event `b`.
pub open spec fn event_key_before(es: Seq<(u64, Seq<char>, bool)>, a: int, b: int) -> bool {
    let x = es[a];
    let y = es[b];
    x.0 < y.0 || (x.0 == y.0 && (text_lt(x.1, y.1) || (x.1 == y.1 && ((!x.2 && y.2) || (x.2 == y.2 && a < b)))))
}

/// `order` lists each of the first `n` events once, in canonical order.
pub open spec fn canonical_event_sequence(es: Seq<(u64, Seq<char>, bool)>, order: Seq<usize>, n: int) -> bool {
    &&& order.len() == n
    &&& forall|k: int| 0 <= k < order.len() ==> (#[trigger] order[k]) < n
    &&& forall|i: int, j: int|
        0 <= i < j < order.len() ==> event_key_before(es, #[trigger] order[i] as int, #[trigger] order[j] as int)
    &&& forall|o: int| 0 <= o < n ==> #[trigger] orders_entry(order, o)
}

proof fn lemma_event_before_transitive(es: Seq<(u64, Seq<char>, bool)>, a: int, b: int, c: int)
    requires
        event_key_before(es, a, b),
        event_key_before(es, b, c),
    ensures
        event_key_before(es, a, c),
{
    if text_lt(es[a].1, es[b].1) && text_lt(es[b].1, es[c].1) {
        lemma_text_lt_transitive(es[a].1, es[b].1, es[c].1);
    }
}

/// Event `a` strictly precedes event `b` by key, ignoring position.
fn event_less(a: (u64, &str, bool), b: (u64, &str, bool)) -> (r: bool)
    ensures
        r == (a.0 < b.0 || (a.0 == b.0 && (text_lt(a.1@, b.1@) || (a.1@ == b.1@ && !a.2 && b.2)))),
{
    if a.0 != b.0 {
        return a.0 < b.0;
    }
    match compare_str(a.1, b.1) {
        TextOrder::Less => true,
        TextOrder::Greater => false,
        TextOrder::Equal => !a.2 && b.2,
    }
}

/// The positions of timed portal events in canonical order: by tick, then
/// portal ID in text order, then closing before opening, equal events in
/// the order given.
pub fn canonical_event_order(ids: &Vec<(u64, &str, bool)>) -> (r: Vec<usize>)
    ensures
        canonical_event_sequence(ids@.map_values(|e: (u64, &str, bool)| (e.0, e.1@, e.2)), r@, ids@.len() as int),
{
    let ghost v = ids@.map_values(|e: (u64, &str, bool)| (e.0, e.1@, e.2));
    let n = ids.len();
    let mut out: Vec<usize> = Vec::new();
    let mut i: usize = 0;
    while i < n
        invariant
            n == ids@.len(),
            v == ids@.map_values(|e: (u64, &str, bool)| (e.0, e.1@, e.2)),
            i <= n,
            canonical_event_sequence(v, out@, i as int),
        decreases n - i,
    {
        let mut p: usize = 0;
        while p < out.len() && !event_less(ids[i], ids[out[p]])
            invariant
                p <= out@.len(),
                n == ids@.len(),
                v == ids@.map_values(|e: (u64, &str, bool)| (e.0, e.1@, e.2)),
                i < n,
                canonical_event_sequence(v, out@, i as int),
                forall|k: int| 0 <= k < p ==> event_key_before(v, #[trigger] out@[k] as int, i as int),
            decreases out@.len() - p,
        {
            proof {
                let x = out@[p as int] as int;
                lemma_text_lt_asymmetric(v[x].1, v[i as int].1);
                crate::text::lemma_text_lt_total(v[x].1, v[i as int].1);
            }
            p = p + 1;
        }
        let ghost before = out@;
        proof {
            if p < before.len() {
                let x = before[p as int] as int;
                assert(event_key_before(v, i as int, x));
            }
        }
        out.insert(p, i);
        proof {
            let after = out@;
            assert forall|k: int| 0 <= k < after.len() implies (#[trigger] after[k]) < i + 1 by {
                if k < p {
                    assert(after[k] == before[k]);
                } else if k > p {
                    assert(after[k] == before[k - 1]);
                }
            }
            assert forall|x: int, y: int| 0 <= x < y < after.len() implies event_key_before(
                v,
                #[trigger] after[x] as int,
                #[trigger] after[y] as int,
            ) by {
                if y < p {
                    assert(after[x] == before[x] && after[y] == before[y]);
                } else if y == p {
                    assert(after[x] == before[x]);
                } else if x < p {
                    assert(after[x] == before[x] && after[y] == before[y - 1]);
                    if y - 1 > p {
                        assert(event_key_before(v, before[p as int] as int, before[y - 1] as int));
                        lemma_event_before_transitive(v, i as int, before[p as int] as int, before[y - 1] as int);
                    }
                    lemma_event_before_transitive(v, before[x] as int, i as int, before[y - 1] as int);
                } else if x == p {
                    assert(after[y] == before[y - 1]);
                    if y - 1 > p {
                        assert(event_key_before(v, before[p as int] as int, before[y - 1] as int));
                        lemma_event_before_transitive(v, i as int, before[p as int] as int, before[y - 1] as int);
                    }
                } else {
                    assert(after[x] == before[x - 1] && after[y] == before[y - 1]);
                }
            }
            assert forall|o: int| 0 <= o < i + 1 implies #[trigger] orders_entry(after, o) by {
                if o == i {
                    assert(after[p as int] as int == o);
                } else {
                    assert(orders_entry(before, o));
                    let k = choose|k: int| 0 <= k < before.len() && (#[trigger] before[k]) as int == o;
                    if k < p {
                        assert(after[k] == before[k]);
                    } else {
                        assert(after[k + 1] == before[k]);
                    }
                }
            }
        }
        i = i + 1;
    }
    out
}

} // verus!
