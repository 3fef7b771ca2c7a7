//! The order of the report: keys ascend by their bytes, compared as
//! unsigned numbers from the first byte on, a key before those it is a proper
//! start of.

use crate::agg_map::{entry_views, is_listing};
use crate::aggregate::{Aggregate, Summary};
use vstd::prelude::*;

verus! {

/// Whether `a` comes before `b` in the order of the report.
pub open spec fn bytes_lt(a: Seq<u8>, b: Seq<u8>) -> bool
    decreases a.len(),
{
    if b.len() == 0 {
        false
    } else if a.len() == 0 {
        true
    } else if a[0] != b[0] {
        a[0] < b[0]
    } else {
        bytes_lt(a.drop_first(), b.drop_first())
    }
}

/// Whether the keys of `v` ascend strictly.
pub open spec fn ascending(v: Seq<(Seq<u8>, Summary)>) -> bool {
    forall|i: int, j: int| 0 <= i < j < v.len() ==> bytes_lt(#[trigger] v[i].0, #[trigger] v[j].0)
}

/// Whether `v` lists the entries of `m` in the order of the report.
pub open spec fn is_report_order(v: Seq<(Seq<u8>, Summary)>, m: Map<Seq<u8>, Summary>) -> bool {
    is_listing(v, m) && ascending(v)
}

/// No key comes before itself.
pub proof fn lemma_lt_irreflexive(a: Seq<u8>)
    ensures
        !bytes_lt(a, a),
    decreases a.len(),
{
    if a.len() > 0 {
        lemma_lt_irreflexive(a.drop_first());
    }
}

/// Of two keys, at most one comes before the other.
pub proof fn lemma_lt_asymmetric(a: Seq<u8>, b: Seq<u8>)
    ensures
        !(bytes_lt(a, b) && bytes_lt(b, a)),
    decreases a.len(),
{
    if a.len() > 0 && b.len() > 0 && a[0] == b[0] {
        lemma_lt_asymmetric(a.drop_first(), b.drop_first());
    }
}

/// What comes before a key comes before all that the key comes before.
pub proof fn lemma_lt_transitive(a: Seq<u8>, b: Seq<u8>, c: Seq<u8>)
    requires
        bytes_lt(a, b),
        bytes_lt(b, c),
    ensures
        bytes_lt(a, c),
    decreases a.len(),
{
    if a.len() > 0 && b.len() > 0 && c.len() > 0 && a[0] == b[0] && b[0] == c[0] {
        lemma_lt_transitive(a.drop_first(), b.drop_first(), c.drop_first());
    }
}

/// Of two different keys, one comes before the other.
pub proof fn lemma_lt_total(a: Seq<u8>, b: Seq<u8>)
    requires
        a != b,
    ensures
        bytes_lt(a, b) || bytes_lt(b, a),
    decreases a.len(),
{
    if a.len() > 0 && b.len() > 0 && a[0] == b[0] {
        assert(a.drop_first() != b.drop_first()) by {
            if a.drop_first() == b.drop_first() {
                assert(a =~= seq![a[0]] + a.drop_first());
                assert(b =~= seq![b[0]] + b.drop_first());
            }
        }
        lemma_lt_total(a.drop_first(), b.drop_first());
    } else if a.len() == 0 && b.len() == 0 {
        assert(a =~= b);
    }
}

/// The order does not depend on a start that two keys share.
pub proof fn lemma_lt_skip(a: Seq<u8>, b: Seq<u8>, n: int)
    requires
        0 <= n <= a.len(),
        n <= b.len(),
        forall|j: int| 0 <= j < n ==> a[j] == b[j],
    ensures
        bytes_lt(a, b) == bytes_lt(a.skip(n), b.skip(n)),
    decreases n,
{
    if n == 0 {
        assert(a.skip(0) =~= a);
        assert(b.skip(0) =~= b);
    } else {
        lemma_lt_skip(a.drop_first(), b.drop_first(), n - 1);
        assert(a.drop_first().skip(n - 1) =~= a.skip(n));
        assert(b.drop_first().skip(n - 1) =~= b.skip(n));
    }
}

/// A map has one listing in the order of the report and no other: the
/// order of the lines is fixed by the map's contents alone.
pub proof fn lemma_report_order_unique(
    v: Seq<(Seq<u8>, Summary)>,
    w: Seq<(Seq<u8>, Summary)>,
    m: Map<Seq<u8>, Summary>,
)
    requires
        is_report_order(v, m),
        is_report_order(w, m),
    ensures
        v == w,
    decreases v.len(),
{
    if v.len() == 0 {
        if w.len() > 0 {
            assert(m.contains_key(w[0].0));
        }
        assert(v =~= w);
    } else if w.len() == 0 {
        assert(m.contains_key(v[0].0));
    } else {
        let lv = v.len() - 1;
        let lw = w.len() - 1;
        let kv = v[lv].0;
        let kw = w[lw].0;
        assert(m.contains_key(kv));
        assert(m.contains_key(kw));
        let i = choose|i: int| 0 <= i < w.len() && #[trigger] w[i].0 == kv;
        let j = choose|j: int| 0 <= j < v.len() && #[trigger] v[j].0 == kw;
        if i < lw {
            assert(bytes_lt(w[i].0, w[lw].0));
            if j < lv {
                assert(bytes_lt(v[j].0, v[lv].0));
            }
            lemma_lt_asymmetric(kv, kw);
            lemma_lt_irreflexive(kv);
        }
        assert(kv == kw);
        assert(v[lv] == w[lw]);
        let rest = m.remove(kv);
        let v1 = v.drop_last();
        let w1 = w.drop_last();
        assert forall|a: int| 0 <= a < v1.len() implies rest.contains_key(#[trigger] v1[a].0)
            && rest[v1[a].0] == v1[a].1 by {
            assert(v1[a] == v[a]);
            assert(bytes_lt(v[a].0, v[lv].0));
            lemma_lt_irreflexive(kv);
            assert(m.contains_key(v[a].0));
        }
        assert forall|a: int| 0 <= a < w1.len() implies rest.contains_key(#[trigger] w1[a].0)
            && rest[w1[a].0] == w1[a].1 by {
            assert(w1[a] == w[a]);
            assert(bytes_lt(w[a].0, w[lw].0));
            lemma_lt_irreflexive(kv);
            assert(m.contains_key(w[a].0));
        }
        assert forall|k: Seq<u8>| #[trigger] rest.contains_key(k) implies (exists|a: int|
            0 <= a < v1.len() && #[trigger] v1[a].0 == k) && (exists|a: int|
            0 <= a < w1.len() && #[trigger] w1[a].0 == k) by {
            assert(m.contains_key(k));
            let a = choose|a: int| 0 <= a < v.len() && #[trigger] v[a].0 == k;
            assert(v1[a].0 == k);
            let b = choose|b: int| 0 <= b < w.len() && #[trigger] w[b].0 == k;
            assert(w1[b].0 == k);
        }
        assert forall|a: int, b: int| 0 <= a < b < v1.len() implies bytes_lt(
            #[trigger] v1[a].0,
            #[trigger] v1[b].0,
        ) by {
            assert(bytes_lt(v[a].0, v[b].0));
        }
        assert forall|a: int, b: int| 0 <= a < b < w1.len() implies bytes_lt(
            #[trigger] w1[a].0,
            #[trigger] w1[b].0,
        ) by {
            assert(bytes_lt(w[a].0, w[b].0));
        }
        assert forall|a: int, b: int| 0 <= a < b < v1.len() implies #[trigger] v1[a].0
            != #[trigger] v1[b].0 by {
            assert(v[a].0 != v[b].0);
        }
        assert forall|a: int, b: int| 0 <= a < b < w1.len() implies #[trigger] w1[a].0
            != #[trigger] w1[b].0 by {
            assert(w[a].0 != w[b].0);
        }
        lemma_report_order_unique(v1, w1, rest);
        assert(v =~= v1.push(v[lv]));
        assert(w =~= w1.push(w[lw]));
    }
}

/// Whether `a` comes before `b` in the order of the report.
pub fn key_less(a: &[u8], b: &[u8]) -> (r: bool)
    ensures
        r == bytes_lt(a@, b@),
{
    let mut i: usize = 0;
    while i < a.len() && i < b.len()
        invariant
            i <= a@.len(),
            i <= b@.len(),
            forall|j: int| 0 <= j < i ==> a@[j] == b@[j],
        decreases a@.len() - i,
    {
        if a[i] != b[i] {
            proof {
                lemma_lt_skip(a@, b@, i as int);
            }
            return a[i] < b[i];
        }
        i += 1;
    }
    proof {
        lemma_lt_skip(a@, b@, i as int);
    }
    i < b.len()
}

/// Whether no key of `v` comes before a key that stands earlier in `v`.
pub open spec fn sorted(v: Seq<(Seq<u8>, Summary)>) -> bool {
    forall|i: int, j: int| 0 <= i < j < v.len() ==> !bytes_lt(#[trigger] v[j].0, #[trigger] v[i].0)
}

/// The number of items of `v` whose key comes before `key`, found by
/// bisection.
fn lower_bound(v: &Vec<(Vec<u8>, Aggregate)>, key: &[u8]) -> (pos: usize)
    requires
        sorted(entry_views(v@)),
    ensures
        pos <= v@.len(),
        forall|i: int| 0 <= i < pos ==> bytes_lt(#[trigger] v@[i].0@, key@),
        forall|i: int| pos <= i < v@.len() ==> !bytes_lt(#[trigger] v@[i].0@, key@),
{
    let ghost e = entry_views(v@);
    let mut lo: usize = 0;
    let mut hi: usize = v.len();
    while lo < hi
        invariant
            lo <= hi <= v@.len(),
            e == entry_views(v@),
            sorted(e),
            forall|i: int| 0 <= i < lo ==> bytes_lt(#[trigger] v@[i].0@, key@),
            forall|i: int| hi <= i < v@.len() ==> !bytes_lt(#[trigger] v@[i].0@, key@),
        decreases hi - lo,
    {
        let mid = lo + (hi - lo) / 2;
        if key_less(v[mid].0.as_slice(), key) {
            proof {
                assert forall|i: int| 0 <= i < mid + 1 implies bytes_lt(
                    #[trigger] v@[i].0@,
                    key@,
                ) by {
                    if i < mid {
                        assert(!bytes_lt(e[mid as int].0, e[i].0));
                        if v@[i].0@ != v@[mid as int].0@ {
                            lemma_lt_total(v@[i].0@, v@[mid as int].0@);
                            lemma_lt_transitive(v@[i].0@, v@[mid as int].0@, key@);
                        }
                    }
                }
            }
            lo = mid + 1;
        } else {
            proof {
                assert forall|i: int| mid <= i < v@.len() implies !bytes_lt(
                    #[trigger] v@[i].0@,
                    key@,
                ) by {
                    if i > mid && bytes_lt(v@[i].0@, key@) {
                        assert(!bytes_lt(e[i].0, e[mid as int].0));
                        if v@[i].0@ != v@[mid as int].0@ {
                            lemma_lt_total(v@[mid as int].0@, v@[i].0@);
                            lemma_lt_transitive(v@[mid as int].0@, v@[i].0@, key@);
                        }
                    }
                }
            }
            hi = mid;
        }
    }
    lo
}

/// Sorts a list of entries by key. The result holds the same entries, each
/// as often as the list did, and no key comes before an earlier one.
pub fn sort_entries(entries: Vec<(Vec<u8>, Aggregate)>) -> (out: Vec<(Vec<u8>, Aggregate)>)
    ensures
        sorted(entry_views(out@)),
        entry_views(out@).to_multiset() == entry_views(entries@).to_multiset(),
{
    let ghost all = entry_views(entries@);
    let mut rest = entries;
    let mut out: Vec<(Vec<u8>, Aggregate)> = Vec::new();
    proof {
        assert(entry_views(out@) =~= Seq::empty());
        assert(entry_views(out@).to_multiset().add(all.to_multiset()) =~= all.to_multiset()) by {
            entry_views(out@).to_multiset_ensures();
        }
    }
    while rest.len() > 0
        invariant
            sorted(entry_views(out@)),
            entry_views(out@).to_multiset().add(entry_views(rest@).to_multiset())
                == all.to_multiset(),
        decreases rest@.len(),
    {
        let ghost before = entry_views(out@);
        let ghost rest_before = entry_views(rest@);
        let item = rest.pop().unwrap();
        let ghost shown = (item.0@, item.1@);
        let ghost rest_after = entry_views(rest@);
        let pos = lower_bound(&out, item.0.as_slice());
        out.insert(pos, item);
        proof {
            let after = entry_views(out@);
            assert(rest_before =~= rest_after.push(shown));
            assert(after =~= before.insert(pos as int, shown));
            vstd::seq_lib::to_multiset_build(rest_after, shown);
            vstd::seq_lib::to_multiset_insert(before, pos as int, shown);
            assert(after.to_multiset().add(rest_after.to_multiset()) =~= before.to_multiset().add(
                rest_before.to_multiset(),
            ));
            assert forall|a: int, b: int| 0 <= a < b < after.len() implies !bytes_lt(
                #[trigger] after[b].0,
                #[trigger] after[a].0,
            ) by {
                if b == pos {
                    assert(after[a] == before[a]);
                    lemma_lt_asymmetric(before[a].0, shown.0);
                } else if a == pos {
                    assert(after[b] == before[b - 1]);
                } else {
                    let a0 = if a < pos {
                        a
                    } else {
                        a - 1
                    };
                    let b0 = if b < pos {
                        b
                    } else {
                        b - 1
                    };
                    assert(after[a] == before[a0]);
                    assert(after[b] == before[b0]);
                    assert(!bytes_lt(before[b0].0, before[a0].0));
                }
            }
        }
    }
    proof {
        assert(entry_views(rest@) =~= Seq::empty());
        entry_views(rest@).to_multiset_ensures();
        assert(entry_views(out@).to_multiset().add(entry_views(rest@).to_multiset())
            =~= entry_views(out@).to_multiset());
    }
    out
}

/// A value that stands at two places of a sequence counts at least twice
/// among its items.
proof fn lemma_twice(v: Seq<(Seq<u8>, Summary)>, a: int, b: int)
    requires
        0 <= a < b < v.len(),
        v[a] == v[b],
    ensures
        v.to_multiset().count(v[a]) >= 2,
{
    let w = v.remove(a);
    vstd::seq_lib::to_multiset_remove(v, a);
    w.to_multiset_ensures();
    assert(w[b - 1] == v[b]);
    assert(w.contains(v[a]));
    assert(w.to_multiset().count(v[a]) > 0);
    assert(v.to_multiset().remove(v[a]).count(v[a]) > 0);
}

/// A value that counts at least twice among the items of a sequence stands
/// at two places of it.
proof fn lemma_two_places(v: Seq<(Seq<u8>, Summary)>, x: (Seq<u8>, Summary)) -> (r: (int, int))
    requires
        v.to_multiset().count(x) >= 2,
    ensures
        0 <= r.0 < r.1 < v.len(),
        v[r.0] == x,
        v[r.1] == x,
{
    v.to_multiset_ensures();
    assert(v.contains(x));
    let a = choose|a: int| 0 <= a < v.len() && v[a] == x;
    let w = v.remove(a);
    vstd::seq_lib::to_multiset_remove(v, a);
    w.to_multiset_ensures();
    assert(v.to_multiset().remove(x).count(x) >= 1);
    assert(w.to_multiset().count(x) >= 1);
    assert(w.contains(x));
    let c = choose|c: int| 0 <= c < w.len() && w[c] == x;
    if c < a {
        assert(w[c] == v[c]);
        (c, a)
    } else {
        assert(w[c] == v[c + 1]);
        (a, c + 1)
    }
}

/// A sorted list with the items of a listing of `m` is the listing of `m` in
/// the order of the report.
pub proof fn lemma_sorted_listing(
    listing: Seq<(Seq<u8>, Summary)>,
    out: Seq<(Seq<u8>, Summary)>,
    m: Map<Seq<u8>, Summary>,
)
    requires
        is_listing(listing, m),
        sorted(out),
        out.to_multiset() == listing.to_multiset(),
    ensures
        is_report_order(out, m),
{
    listing.to_multiset_ensures();
    out.to_multiset_ensures();
    assert forall|i: int| 0 <= i < out.len() implies m.contains_key(#[trigger] out[i].0)
        && m[out[i].0] == out[i].1 by {
        assert(out.contains(out[i]));
        assert(out.to_multiset().count(out[i]) > 0);
        assert(listing.to_multiset().count(out[i]) > 0);
        assert(listing.contains(out[i]));
        let j = choose|j: int| 0 <= j < listing.len() && listing[j] == out[i];
        assert(m.contains_key(listing[j].0));
    }
    assert forall|k: Seq<u8>| #[trigger] m.contains_key(k) implies exists|i: int|
        0 <= i < out.len() && #[trigger] out[i].0 == k by {
        let j = choose|j: int| 0 <= j < listing.len() && #[trigger] listing[j].0 == k;
        assert(listing.contains(listing[j]));
        assert(listing.to_multiset().count(listing[j]) > 0);
        assert(out.to_multiset().count(listing[j]) > 0);
        assert(out.contains(listing[j]));
        let i = choose|i: int| 0 <= i < out.len() && out[i] == listing[j];
        assert(out[i].0 == k);
    }
    assert forall|a: int, b: int| 0 <= a < b < out.len() implies #[trigger] out[a].0
        != #[trigger] out[b].0 by {
        if out[a].0 == out[b].0 {
            assert(m[out[a].0] == out[a].1);
            assert(m[out[b].0] == out[b].1);
            assert(out[a] == out[b]);
            lemma_twice(out, a, b);
            let (p, q) = lemma_two_places(listing, out[a]);
            assert(listing[p].0 != listing[q].0);
        }
    }
    assert forall|a: int, b: int| 0 <= a < b < out.len() implies bytes_lt(
        #[trigger] out[a].0,
        #[trigger] out[b].0,
    ) by {
        lemma_lt_total(out[a].0, out[b].0);
    }
}

} // verus!
