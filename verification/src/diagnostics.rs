//! Ordering of validation diagnostics.
//!
//! Validators report every problem they find, then sort the report by
//! class, subject, code and message so that the same input always gives the
//! same report, whatever order the problems were found in.

use vstd::prelude::*;
use crate::text::{compare_str, text_lt, lemma_text_lt_irreflexive, lemma_text_lt_transitive, lemma_text_lt_total, TextOrder};

verus! {

/// What a diagnostic is sorted by: the rank of its class, its subject, the
/// rank of its code, its message. A report that orders by code before
/// subject ranks its diagnostics by code in the class place.
pub type DiagnosticKey = (nat, Seq<char>, nat, Seq<char>);

/// Lexicographic order on diagnostic keys.
pub open spec fn key_lt(a: DiagnosticKey, b: DiagnosticKey) -> bool {
    ||| a.0 < b.0
    ||| (a.0 == b.0 && text_lt(a.1, b.1))
    ||| (a.0 == b.0 && a.1 == b.1 && a.2 < b.2)
    ||| (a.0 == b.0 && a.1 == b.1 && a.2 == b.2 && text_lt(a.3, b.3))
}

pub proof fn lemma_key_lt_irreflexive(a: DiagnosticKey)
    ensures
        !key_lt(a, a),
{
    lemma_text_lt_irreflexive(a.1);
    lemma_text_lt_irreflexive(a.3);
}

pub proof fn lemma_key_lt_transitive(a: DiagnosticKey, b: DiagnosticKey, c: DiagnosticKey)
    requires
        key_lt(a, b),
        key_lt(b, c),
    ensures
        key_lt(a, c),
{
    if a.0 == b.0 && b.0 == c.0 && text_lt(a.1, b.1) && text_lt(b.1, c.1) {
        lemma_text_lt_transitive(a.1, b.1, c.1);
    }
    if a.0 == b.0 && b.0 == c.0 && a.1 == b.1 && b.1 == c.1 && a.2 == b.2 && b.2 == c.2 && text_lt(a.3, b.3)
        && text_lt(b.3, c.3) {
        lemma_text_lt_transitive(a.3, b.3, c.3);
    }
}

pub proof fn lemma_key_lt_total(a: DiagnosticKey, b: DiagnosticKey)
    ensures
        a == b || key_lt(a, b) || key_lt(b, a),
{
    lemma_text_lt_total(a.1, b.1);
    lemma_text_lt_total(a.3, b.3);
}

/// A diagnostic that can be put in report order.
pub trait Diagnostic: Sized {
    spec fn key(&self) -> DiagnosticKey;

    fn class_rank(&self) -> (r: u8)
        ensures
            r as nat == self.key().0,
    ;

    fn subject_str(&self) -> (r: &str)
        ensures
            r@ == self.key().1,
    ;

    fn code_rank(&self) -> (r: u8)
        ensures
            r as nat == self.key().2,
    ;

    fn message_str(&self) -> (r: &str)
        ensures
            r@ == self.key().3,
    ;
}

/// The keys of a list of diagnostics.
pub open spec fn keys<D: Diagnostic>(s: Seq<D>) -> Seq<DiagnosticKey> {
    s.map_values(|d: D| d.key())
}

/// Keys in report order: no key comes after a key it sorts before.
pub open spec fn keys_sorted(s: Seq<DiagnosticKey>) -> bool {
    forall|i: int, j: int| 0 <= i < j < s.len() ==> !key_lt(#[trigger] s[j], #[trigger] s[i])
}

/// Whether `a` sorts before `b`.
pub fn sorts_before<D: Diagnostic>(a: &D, b: &D) -> (r: bool)
    ensures
        r == key_lt(a.key(), b.key()),
{
    let ca = a.class_rank();
    let cb = b.class_rank();
    if ca != cb {
        return ca < cb;
    }
    match compare_str(a.subject_str(), b.subject_str()) {
        TextOrder::Less => true,
        TextOrder::Greater => false,
        TextOrder::Equal => {
            let ra = a.code_rank();
            let rb = b.code_rank();
            if ra < rb {
                true
            } else if rb < ra {
                false
            } else {
                match compare_str(a.message_str(), b.message_str()) {
                    TextOrder::Less => true,
                    _ => false,
                }
            }
        },
    }
}

/// Put diagnostics in report order: by class, subject, code, then message.
///
/// The result holds the same diagnostics, counted by key.
pub fn sort_diagnostics<D: Diagnostic>(v: Vec<D>) -> (r: Vec<D>)
    ensures
        keys(r@).to_multiset() == keys(v@).to_multiset(),
        keys_sorted(keys(r@)),
{
    let ghost all = keys(v@).to_multiset();
    let mut rest = v;
    let mut out: Vec<D> = Vec::new();
    proof {
        assert(keys(out@) =~= Seq::<DiagnosticKey>::empty());
        vstd::seq_lib::to_multiset_len(keys(out@));
        vstd::multiset::lemma_multiset_empty_len(keys(out@).to_multiset());
        assert(keys(out@).to_multiset() =~= vstd::multiset::Multiset::empty());
        assert(keys(out@).to_multiset().add(keys(rest@).to_multiset()) =~= all);
    }
    while rest.len() > 0
        invariant
            keys(out@).to_multiset().add(keys(rest@).to_multiset()) == all,
            keys_sorted(keys(out@)),
        decreases rest@.len(),
    {
        let ghost before_rest = rest@;
        let x = rest.pop().unwrap();
        proof {
            assert(before_rest =~= rest@.push(x));
            assert(keys(before_rest) =~= keys(rest@).push(x.key()));
        }
        let mut p: usize = 0;
        while p < out.len() && !sorts_before(&x, &out[p])
            invariant
                p <= out@.len(),
                forall|i: int| 0 <= i < p ==> !key_lt(x.key(), #[trigger] keys(out@)[i]),
            decreases out@.len() - p,
        {
            p = p + 1;
        }
        let ghost old_keys = keys(out@);
        proof {
            if p < out@.len() {
                assert(key_lt(x.key(), old_keys[p as int]));
            }
        }
        out.insert(p, x);
        proof {
            let nk = keys(out@);
            assert(nk =~= old_keys.insert(p as int, x.key()));
            assert forall|i: int, j: int| 0 <= i < j < nk.len() implies !key_lt(#[trigger] nk[j], #[trigger] nk[i]) by {
                if j < p {
                    assert(nk[i] == old_keys[i] && nk[j] == old_keys[j]);
                } else if j == p {
                    assert(nk[i] == old_keys[i]);
                } else if i < p {
                    assert(nk[i] == old_keys[i] && nk[j] == old_keys[j - 1]);
                } else if i == p {
                    assert(nk[j] == old_keys[j - 1]);
                    if key_lt(old_keys[j - 1], x.key()) {
                        lemma_key_lt_transitive(old_keys[j - 1], x.key(), old_keys[p as int]);
                        if j - 1 == p {
                            lemma_key_lt_irreflexive(old_keys[p as int]);
                        }
                    }
                } else {
                    assert(nk[i] == old_keys[i - 1] && nk[j] == old_keys[j - 1]);
                }
            }
            vstd::seq_lib::to_multiset_insert(old_keys, p as int, x.key());
            vstd::seq_lib::to_multiset_build(keys(rest@), x.key());
            assert(keys(out@).to_multiset() == old_keys.to_multiset().insert(x.key()));
            assert(keys(before_rest).to_multiset() == keys(rest@).to_multiset().insert(x.key()));
            assert(keys(out@).to_multiset().add(keys(rest@).to_multiset()) =~= all);
        }
    }
    proof {
        assert(keys(rest@) =~= Seq::<DiagnosticKey>::empty());
        vstd::seq_lib::to_multiset_len(keys(rest@));
        vstd::multiset::lemma_multiset_empty_len(keys(rest@).to_multiset());
        assert(keys(rest@).to_multiset() =~= vstd::multiset::Multiset::empty());
        assert(keys(out@).to_multiset() =~= all);
    }
    out
}

/// Keys in strict report order: each key sorts before every later one, so no
/// key occurs twice.
pub open spec fn keys_strictly_sorted(s: Seq<DiagnosticKey>) -> bool {
    forall|i: int, j: int| 0 <= i < j < s.len() ==> key_lt(#[trigger] s[i], #[trigger] s[j])
}

/// Put diagnostics in report order, keeping one of each key.
///
/// The result holds exactly the keys of `v`, each once.
pub fn sort_unique_diagnostics<D: Diagnostic>(v: Vec<D>) -> (r: Vec<D>)
    ensures
        keys(r@).to_set() == keys(v@).to_set(),
        keys_strictly_sorted(keys(r@)),
{
    let ghost all = keys(v@).to_set();
    let mut rest = v;
    let mut out: Vec<D> = Vec::new();
    proof {
        assert(keys(out@) =~= Seq::<DiagnosticKey>::empty());
        assert(keys(out@).to_set().union(keys(rest@).to_set()) =~= all);
    }
    while rest.len() > 0
        invariant
            keys(out@).to_set().union(keys(rest@).to_set()) == all,
            keys_strictly_sorted(keys(out@)),
        decreases rest@.len(),
    {
        let ghost before_rest = rest@;
        let x = rest.pop().unwrap();
        proof {
            assert(before_rest =~= rest@.push(x));
            assert(keys(before_rest) =~= keys(rest@).push(x.key()));
            keys(rest@).lemma_push_to_set_commute(x.key());
        }
        let mut p: usize = 0;
        while p < out.len() && !sorts_before(&x, &out[p])
            invariant
                p <= out@.len(),
                forall|i: int| 0 <= i < p ==> !key_lt(x.key(), #[trigger] keys(out@)[i]),
            decreases out@.len() - p,
        {
            p = p + 1;
        }
        let ghost old_keys = keys(out@);
        proof {
            if p < out@.len() {
                assert(key_lt(x.key(), old_keys[p as int]));
            }
        }
        let repeated = p > 0 && !sorts_before(&out[p - 1], &x);
        if repeated {
            proof {
                lemma_key_lt_total(old_keys[p - 1], x.key());
                assert(old_keys[p - 1] == x.key());
                assert(keys(out@).to_set() =~= keys(out@).to_set().insert(x.key()));
                assert(keys(out@).to_set().union(keys(rest@).to_set()) =~= all);
            }
        } else {
            out.insert(p, x);
            proof {
                let nk = keys(out@);
                assert(nk =~= old_keys.insert(p as int, x.key()));
                if p > 0 {
                    assert(key_lt(old_keys[p - 1], x.key()));
                }
                assert forall|i: int, j: int| 0 <= i < j < nk.len() implies key_lt(#[trigger] nk[i], #[trigger] nk[j]) by {
                    if j < p {
                        assert(nk[i] == old_keys[i] && nk[j] == old_keys[j]);
                    } else if j == p {
                        assert(nk[i] == old_keys[i]);
                        if i < p - 1 {
                            lemma_key_lt_transitive(old_keys[i], old_keys[p - 1], x.key());
                        }
                    } else if i < p {
                        assert(nk[i] == old_keys[i] && nk[j] == old_keys[j - 1]);
                    } else if i == p {
                        assert(nk[j] == old_keys[j - 1]);
                        if j - 1 > p {
                            lemma_key_lt_transitive(x.key(), old_keys[p as int], old_keys[j - 1]);
                        }
                    } else {
                        assert(nk[i] == old_keys[i - 1] && nk[j] == old_keys[j - 1]);
                    }
                }
                assert(nk.to_set() =~= old_keys.to_set().insert(x.key())) by {
                    assert forall|k: DiagnosticKey| nk.to_set().contains(k) == old_keys.to_set().insert(x.key()).contains(k) by {
                        if nk.contains(k) {
                            let i = nk.index_of(k);
                            if i < p {
                                assert(old_keys[i] == k);
                            } else if i > p {
                                assert(old_keys[i - 1] == k);
                            }
                        }
                        if old_keys.contains(k) {
                            let i = old_keys.index_of(k);
                            if i < p {
                                assert(nk[i] == k);
                            } else {
                                assert(nk[i + 1] == k);
                            }
                        }
                        if k == x.key() {
                            assert(nk[p as int] == k);
                        }
                    }
                }
                assert(keys(out@).to_set().union(keys(rest@).to_set()) =~= all);
            }
        }
    }
    proof {
        assert(keys(rest@) =~= Seq::<DiagnosticKey>::empty());
        assert(keys(out@).to_set() =~= all);
    }
    out
}

/// The keys of a finite set in strict report order.
pub open spec fn report_of(s: Set<DiagnosticKey>) -> Seq<DiagnosticKey> {
    choose|ks: Seq<DiagnosticKey>| keys_strictly_sorted(ks) && ks.to_set() == s
}

/// A key that sorts strictly before every later key is not among them.
proof fn lemma_first_not_in_tail(a: Seq<DiagnosticKey>)
    requires
        keys_strictly_sorted(a),
        a.len() > 0,
    ensures
        !a.drop_first().contains(a[0]),
{
    if a.drop_first().contains(a[0]) {
        let k = a.drop_first().index_of(a[0]);
        assert(a[k + 1] == a[0]);
        assert(key_lt(a[0], a[k + 1]));
        lemma_key_lt_irreflexive(a[0]);
    }
}

/// Two reports in strict report order with the same keys are the same
/// report: the order of a report is determined by its set of keys.
pub proof fn lemma_strict_report_unique(a: Seq<DiagnosticKey>, b: Seq<DiagnosticKey>)
    requires
        keys_strictly_sorted(a),
        keys_strictly_sorted(b),
        a.to_set() == b.to_set(),
    ensures
        a == b,
    decreases a.len(),
{
    if a.len() == 0 {
        if b.len() > 0 {
            assert(b.to_set().contains(b[0]));
        }
        assert(a =~= b);
    } else {
        assert(a.to_set().contains(a[0]));
        assert(b.contains(a[0]));
        let j = b.index_of(a[0]);
        assert(b.to_set().contains(b[0]));
        assert(a.contains(b[0]));
        let i = a.index_of(b[0]);
        if j > 0 && i > 0 {
            assert(key_lt(b[0], b[j]));
            assert(key_lt(a[0], a[i]));
            lemma_key_lt_transitive(a[0], b[0], a[0]);
            lemma_key_lt_irreflexive(a[0]);
        }
        assert(a[0] == b[0]);
        let ta = a.drop_first();
        let tb = b.drop_first();
        lemma_first_not_in_tail(a);
        lemma_first_not_in_tail(b);
        assert(ta.to_set() =~= tb.to_set()) by {
            assert forall|x: DiagnosticKey| ta.to_set().contains(x) <==> tb.to_set().contains(x) by {
                if ta.contains(x) {
                    let k = ta.index_of(x);
                    assert(a[k + 1] == x);
                    assert(a.to_set().contains(x));
                    let m = b.index_of(x);
                    assert(x != a[0]);
                    assert(m != 0);
                    assert(tb[m - 1] == x);
                }
                if tb.contains(x) {
                    let k = tb.index_of(x);
                    assert(b[k + 1] == x);
                    assert(b.to_set().contains(x));
                    let m = a.index_of(x);
                    assert(x != b[0]);
                    assert(m != 0);
                    assert(ta[m - 1] == x);
                }
            }
        }
        assert forall|p: int, q: int| 0 <= p < q < ta.len() implies key_lt(#[trigger] ta[p], #[trigger] ta[q]) by {
            assert(ta[p] == a[p + 1] && ta[q] == a[q + 1]);
        }
        assert forall|p: int, q: int| 0 <= p < q < tb.len() implies key_lt(#[trigger] tb[p], #[trigger] tb[q]) by {
            assert(tb[p] == b[p + 1] && tb[q] == b[q + 1]);
        }
        lemma_strict_report_unique(ta, tb);
        assert(a =~= seq![a[0]] + ta);
        assert(b =~= seq![b[0]] + tb);
    }
}

/// A report in strict report order is the report of its set of keys.
pub proof fn lemma_is_report_of(ks: Seq<DiagnosticKey>)
    requires
        keys_strictly_sorted(ks),
    ensures
        report_of(ks.to_set()) == ks,
{
    let c = report_of(ks.to_set());
    assert(keys_strictly_sorted(ks) && ks.to_set() == ks.to_set());
    lemma_strict_report_unique(c, ks);
}

/// Sequences with the same elements, counted, still have the same elements,
/// counted, once each element is mapped.
pub proof fn lemma_map_same_multiset<A, B>(a: Seq<A>, b: Seq<A>, f: spec_fn(A) -> B)
    requires
        a.to_multiset() == b.to_multiset(),
    ensures
        a.map_values(f).to_multiset() == b.map_values(f).to_multiset(),
    decreases a.len(),
{
    broadcast use vstd::multiset::group_multiset_axioms;

    vstd::seq_lib::to_multiset_len(a);
    vstd::seq_lib::to_multiset_len(b);
    if a.len() == 0 {
        assert(a =~= b);
    } else {
        let x = a.last();
        let a0 = a.drop_last();
        assert(a =~= a0.push(x));
        vstd::seq_lib::to_multiset_build(a0, x);
        vstd::seq_lib::to_multiset_contains(b, x);
        let i = b.index_of(x);
        vstd::seq_lib::to_multiset_remove(b, i);
        assert(a0.to_multiset() =~= b.remove(i).to_multiset());
        lemma_map_same_multiset(a0, b.remove(i), f);
        let fa = a.map_values(f);
        let fb = b.map_values(f);
        assert(fa =~= a0.map_values(f).push(f(x)));
        vstd::seq_lib::to_multiset_build(a0.map_values(f), f(x));
        assert(fb.remove(i) =~= b.remove(i).map_values(f));
        vstd::seq_lib::to_multiset_remove(fb, i);
        vstd::seq_lib::to_multiset_contains(fb, f(x));
        assert(fb[i] == f(x));
        assert(fb.contains(f(x)));
        assert(fb.to_multiset() =~= fb.to_multiset().remove(f(x)).insert(f(x)));
    }
}

} // verus!
