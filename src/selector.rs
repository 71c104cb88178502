use vstd::prelude::*;
use std::cmp::Ordering;
use vstd::multiset::Multiset;
use crate::fields::SearchFieldResults;
use crate::order::{
    rank_features, conforms, features_rank, lemma_features_rank_antisym, lemma_features_rank_trans,
    ComparableDocFeature, Order,
};

verus! {

broadcast use vstd::seq_lib::group_to_multiset_ensures;

/// The address of a document: the segment that holds it and its id there.
#[derive(Clone, Copy, Debug, PartialEq, Eq, Structural, Hash, PartialOrd, Ord)]
pub struct DocAddress {
    pub segment_ord: u32,
    pub doc_id: u32,
}

/// The sort key of a document, one feature per sort field, with the
/// document's requested field values carried along.
#[derive(Clone, Debug)]
pub struct ComparableDocFeatures(pub Vec<ComparableDocFeature>, pub SearchFieldResults);

/// A document with its sort key.
#[derive(Clone, Debug)]
pub struct ComparableDoc {
    pub feature: ComparableDocFeatures,
    pub doc: DocAddress,
}

/// `a` ranks at most as high as `b`.
pub open spec fn rank_le(a: ComparableDoc, b: ComparableDoc) -> bool {
    features_rank(a.feature.0@, b.feature.0@) != Ordering::Greater
}

/// Best first: no entry ranks above an earlier one.
pub open spec fn sorted_desc(s: Seq<ComparableDoc>) -> bool {
    forall|i: int, j: int| 0 <= i < j < s.len() ==> rank_le(#[trigger] s[j], #[trigger] s[i])
}

/// Every entry's key conforms to the sort orders.
pub open spec fn all_conform(s: Seq<ComparableDoc>, orders: Seq<Order>) -> bool {
    forall|i: int| 0 <= i < s.len() ==> conforms((#[trigger] s[i]).feature.0@, orders)
}

/// The smaller of two numbers.
pub open spec fn min_nat(a: nat, b: nat) -> nat {
    if a <= b {
        a
    } else {
        b
    }
}

/// `m` is a top-`k` of `s`: `min(k, |s|)` entries taken from `s`, and every
/// entry of `s` left out ranks at most as high as every entry kept.
pub open spec fn is_top_k(m: Seq<ComparableDoc>, s: Seq<ComparableDoc>, k: nat) -> bool {
    &&& m.len() == min_nat(k, s.len())
    &&& m.to_multiset().subset_of(s.to_multiset())
    &&& forall|x: ComparableDoc, y: ComparableDoc|
        #![trigger m.to_multiset().count(x), s.to_multiset().count(y)]
        m.to_multiset().count(x) > 0 && s.to_multiset().count(y) > m.to_multiset().count(y) ==> rank_le(y, x)
}

/// A member of a sequence whose keys conform conforms too.
pub proof fn lemma_member_conforms(s: Seq<ComparableDoc>, x: ComparableDoc, orders: Seq<Order>)
    requires
        all_conform(s, orders),
        s.to_multiset().count(x) > 0,
    ensures
        conforms(x.feature.0@, orders),
{
    assert(s.contains(x));
    let k = choose|k: int| 0 <= k < s.len() && s[k] == x;
    assert(conforms(s[k].feature.0@, orders));
}

/// A member of a best-first sequence ranks at least as high as its last entry.
pub proof fn lemma_last_ranks_lowest(s: Seq<ComparableDoc>, x: ComparableDoc, orders: Seq<Order>)
    requires
        sorted_desc(s),
        all_conform(s, orders),
        s.to_multiset().count(x) > 0,
    ensures
        s.len() > 0,
        rank_le(s.last(), x),
{
    assert(s.contains(x));
    let k = choose|k: int| 0 <= k < s.len() && s[k] == x;
    if k < s.len() - 1 {
        assert(rank_le(s[s.len() - 1], s[k]));
    } else {
        lemma_features_rank_antisym(x.feature.0@, x.feature.0@, orders);
    }
}

/// A sub-multiset with a value of larger count is strictly smaller.
pub proof fn lemma_subset_len<V>(a: Multiset<V>, s: Multiset<V>, y: V)
    requires
        a.subset_of(s),
    ensures
        a.len() <= s.len(),
        s.count(y) > a.count(y) ==> a.len() < s.len(),
{
    broadcast use vstd::multiset::group_multiset_axioms;

    vstd::multiset::axiom_len_sub(s, a);
    vstd::multiset::axiom_count_le_len(s.sub(a), y);
    assert(s.sub(a).count(y) == s.count(y) - a.count(y));
}

/// A top-K that holds fewer than K entries holds every entry.
pub proof fn lemma_not_full_keeps_all(m: Seq<ComparableDoc>, s: Seq<ComparableDoc>, k: nat)
    requires
        is_top_k(m, s, k),
        m.len() < k,
    ensures
        m.to_multiset() == s.to_multiset(),
{
    assert forall|y: ComparableDoc| m.to_multiset().count(y) == s.to_multiset().count(y) by {
        lemma_subset_len(m.to_multiset(), s.to_multiset(), y);
    }
    assert(m.to_multiset() =~= s.to_multiset());
}

/// Being a top-K depends on the multiset of the documents only.
pub proof fn lemma_top_k_same_multiset(m: Seq<ComparableDoc>, s: Seq<ComparableDoc>, s2: Seq<ComparableDoc>, k: nat)
    requires
        is_top_k(m, s, k),
        s.to_multiset() == s2.to_multiset(),
    ensures
        is_top_k(m, s2, k),
{
    vstd::seq_lib::to_multiset_len(s);
    vstd::seq_lib::to_multiset_len(s2);
}

/// Two sequences whose keys conform, joined, still do.
pub proof fn lemma_concat_conforms(a: Seq<ComparableDoc>, b: Seq<ComparableDoc>, orders: Seq<Order>)
    requires
        all_conform(a, orders),
        all_conform(b, orders),
    ensures
        all_conform(a + b, orders),
{
    assert forall|i: int| 0 <= i < (a + b).len() implies conforms((#[trigger] (a + b)[i]).feature.0@, orders) by {
        if i < a.len() {
            assert((a + b)[i] == a[i]);
        } else {
            assert((a + b)[i] == b[i - a.len()]);
        }
    }
}

proof fn lemma_subset_conforms(a: Seq<ComparableDoc>, s: Seq<ComparableDoc>, orders: Seq<Order>)
    requires
        a.to_multiset().subset_of(s.to_multiset()),
        all_conform(s, orders),
    ensures
        all_conform(a, orders),
{
    assert forall|i: int| 0 <= i < a.len() implies conforms((#[trigger] a[i]).feature.0@, orders) by {
        assert(a.contains(a[i]));
        assert(a.to_multiset().count(a[i]) > 0);
        lemma_member_conforms(s, a[i], orders);
    }
}

/// Replacing a part of a document set by a top-K of that part leaves every
/// top-K of the whole a top-K: `m`, a top-K of `t` and `b`, where `b` is a
/// top-K of `s2`, is a top-K of `t` and `s2`.
pub proof fn lemma_top_k_replace_part(
    t: Seq<ComparableDoc>,
    s2: Seq<ComparableDoc>,
    b: Seq<ComparableDoc>,
    m: Seq<ComparableDoc>,
    k: nat,
    orders: Seq<Order>,
)
    requires
        is_top_k(b, s2, k),
        is_top_k(m, t + b, k),
        all_conform(t, orders),
        all_conform(s2, orders),
    ensures
        is_top_k(m, t + s2, k),
{
    broadcast use vstd::multiset::group_multiset_axioms;
    broadcast use vstd::seq_lib::lemma_multiset_commutative;

    let bm = b.to_multiset();
    let mm = m.to_multiset();
    let s2m = s2.to_multiset();
    let tbm = (t + b).to_multiset();
    let tsm = (t + s2).to_multiset();
    assert(tbm == t.to_multiset().add(bm));
    assert(tsm == t.to_multiset().add(s2m));
    lemma_subset_conforms(b, s2, orders);
    lemma_concat_conforms(t, b, orders);
    lemma_concat_conforms(t, s2, orders);
    lemma_subset_len(bm, s2m, arbitrary());
    assert(mm.subset_of(tsm)) by {
        assert forall|z: ComparableDoc| mm.count(z) <= tsm.count(z) by {
            assert(mm.count(z) <= tbm.count(z));
            assert(bm.count(z) <= s2m.count(z));
        }
    }
    assert forall|x: ComparableDoc, y: ComparableDoc|
        #![trigger mm.count(x), tsm.count(y)]
        mm.count(x) > 0 && tsm.count(y) > mm.count(y) implies rank_le(y, x) by {
        if tbm.count(y) <= mm.count(y) {
            assert(s2m.count(y) > bm.count(y));
            lemma_member_conforms(t + b, x, orders);
            lemma_member_conforms(t + s2, y, orders);
            if !rank_le(y, x) {
                lemma_features_rank_antisym(y.feature.0@, x.feature.0@, orders);
                lemma_subset_len(bm, s2m, y);
                assert forall|z: ComparableDoc| bm.count(z) <= mm.count(z) by {
                    if bm.count(z) > mm.count(z) {
                        assert(rank_le(y, z));
                        assert(tbm.count(z) > mm.count(z));
                        assert(rank_le(z, x));
                        lemma_member_conforms(b, z, orders);
                        lemma_features_rank_trans(y.feature.0@, z.feature.0@, x.feature.0@, orders);
                    }
                }
                if bm.count(x) > 0 {
                    assert(rank_le(y, x));
                }
                lemma_subset_len(bm, mm, x);
            }
        }
    }
}

/// Merging: a top-K of a top-K of `s1` and a top-K of `s2`, taken together,
/// is a top-K of `s1` and `s2` together.
pub proof fn lemma_merge_top_k(
    s1: Seq<ComparableDoc>,
    s2: Seq<ComparableDoc>,
    a: Seq<ComparableDoc>,
    b: Seq<ComparableDoc>,
    m: Seq<ComparableDoc>,
    k: nat,
    orders: Seq<Order>,
)
    requires
        is_top_k(a, s1, k),
        is_top_k(b, s2, k),
        is_top_k(m, a + b, k),
        all_conform(s1, orders),
        all_conform(s2, orders),
    ensures
        is_top_k(m, s1 + s2, k),
{
    broadcast use vstd::multiset::group_multiset_axioms;
    broadcast use vstd::seq_lib::lemma_multiset_commutative;

    lemma_subset_conforms(a, s1, orders);
    lemma_top_k_replace_part(a, s2, b, m, k, orders);
    assert((a + s2).to_multiset() =~= (s2 + a).to_multiset());
    lemma_top_k_same_multiset(m, a + s2, s2 + a, k);
    lemma_top_k_replace_part(s2, s1, a, m, k, orders);
    assert((s2 + s1).to_multiset() =~= (s1 + s2).to_multiset());
    lemma_top_k_same_multiset(m, s2 + s1, s1 + s2, k);
}

/// Bounded top-K selector: keeps the `top_n` best documents pushed so far,
/// best first. Once full, the last kept entry is the cutoff that a new
/// document must beat to get in: a document that does not is dropped after
/// one comparison; one that does finds its place by binary search.
pub struct TopNComputer {
    buffer: Vec<ComparableDoc>,
    top_n: usize,
    orders: Vec<Order>,
    pushed: Ghost<Seq<ComparableDoc>>,
}

impl TopNComputer {
    /// Every document pushed so far, in order.
    pub closed spec fn seen(&self) -> Seq<ComparableDoc> {
        self.pushed@
    }

    /// The documents kept, best first.
    pub closed spec fn retained(&self) -> Seq<ComparableDoc> {
        self.buffer@
    }

    /// How many documents are kept at most.
    pub closed spec fn capacity(&self) -> nat {
        self.top_n as nat
    }

    /// The sort orders that every key conforms to.
    pub closed spec fn orders(&self) -> Seq<Order> {
        self.orders@
    }

    /// The buffer is a best-first top-K of what was pushed, and every key
    /// conforms to the sort orders.
    pub closed spec fn wf(&self) -> bool {
        &&& is_top_k(self.buffer@, self.pushed@, self.top_n as nat)
        &&& sorted_desc(self.buffer@)
        &&& all_conform(self.buffer@, self.orders@)
        &&& all_conform(self.pushed@, self.orders@)
    }

    /// A well-formed selector holds a best-first top-K of what was pushed.
    pub proof fn lemma_wf(&self)
        requires
            self.wf(),
        ensures
            is_top_k(self.retained(), self.seen(), self.capacity()),
            sorted_desc(self.retained()),
            all_conform(self.retained(), self.orders()),
            all_conform(self.seen(), self.orders()),
    {
    }

    /// An empty selector that keeps at most `top_n` documents whose keys
    /// follow `orders`.
    pub fn new(top_n: usize, orders: Vec<Order>) -> (r: TopNComputer)
        ensures
            r.wf(),
            r.seen() == Seq::<ComparableDoc>::empty(),
            r.retained() == Seq::<ComparableDoc>::empty(),
            r.capacity() == top_n,
            r.orders() == orders@,
    {
        let r = TopNComputer { buffer: Vec::new(), top_n, orders, pushed: Ghost(Seq::empty()) };
        proof {
            assert(r.buffer@.to_multiset() =~= Seq::<ComparableDoc>::empty().to_multiset());
        }
        r
    }

    /// The most documents kept.
    pub fn top_n(&self) -> (r: usize)
        ensures
            r == self.capacity(),
    {
        self.top_n
    }

    /// The sort orders of the keys.
    pub fn orders_vec(&self) -> (r: &Vec<Order>)
        ensures
            r@ == self.orders(),
    {
        &self.orders
    }

    /// The cutoff: the key of the worst kept document, once the selector is full.
    pub fn threshold(&self) -> (r: Option<&ComparableDocFeatures>)
        ensures
            r is Some <==> self.retained().len() == self.capacity() && self.capacity() > 0,
            r is Some ==> *r->0 == self.retained().last().feature,
    {
        if self.top_n > 0 && self.buffer.len() == self.top_n {
            Some(&self.buffer[self.buffer.len() - 1].feature)
        } else {
            None
        }
    }

    /// Pushes a document: it is kept while the selector is not full, or when
    /// it ranks strictly above the cutoff, which then leaves; otherwise it is
    /// dropped.
    pub fn push(&mut self, feature: ComparableDocFeatures, doc: DocAddress)
        requires
            old(self).wf(),
            conforms(feature.0@, old(self).orders()),
        ensures
            final(self).wf(),
            final(self).seen() == old(self).seen().push(ComparableDoc { feature, doc }),
            final(self).capacity() == old(self).capacity(),
            final(self).orders() == old(self).orders(),
            is_top_k(final(self).retained(), final(self).seen(), final(self).capacity()),
            sorted_desc(final(self).retained()),
    {
        let ghost e = ComparableDoc { feature, doc };
        let ghost s0 = self.pushed@;
        let ghost b0 = self.buffer@;
        let ghost orders = self.orders@;
        proof {
            self.pushed = Ghost(s0.push(e));
            assert(s0.push(e).to_multiset() == s0.to_multiset().insert(e));
            assert forall|i: int| 0 <= i < s0.push(e).len() implies conforms((#[trigger] s0.push(e)[i]).feature.0@, orders) by {
                if i < s0.len() {
                    assert(s0.push(e)[i] == s0[i]);
                }
            }
        }
        if self.top_n == 0 {
            return;
        }
        proof {
            if b0.len() < self.top_n {
                lemma_not_full_keeps_all(b0, s0, self.top_n as nat);
            }
        }
        let full = self.buffer.len() == self.top_n;
        if full {
            let c = rank_features(&feature.0, &self.buffer[self.buffer.len() - 1].feature.0);
            match c {
                Ordering::Greater => {},
                _ => {
                    proof {
                        let w = b0.last();
                        assert(b0.to_multiset().count(w) > 0) by {
                            assert(b0[b0.len() - 1] == w);
                            assert(b0.contains(w));
                        }
                        assert forall|x: ComparableDoc, y: ComparableDoc|
                            b0.to_multiset().count(x) > 0 && s0.push(e).to_multiset().count(y) > b0.to_multiset().count(y)
                            implies rank_le(y, x) by {
                            lemma_last_ranks_lowest(b0, x, orders);
                            lemma_member_conforms(b0, x, orders);
                            assert(conforms(w.feature.0@, orders));
                            if y == e {
                                lemma_features_rank_trans(e.feature.0@, w.feature.0@, x.feature.0@, orders);
                            } else {
                                assert(s0.to_multiset().count(y) > b0.to_multiset().count(y));
                            }
                        }
                        assert(b0.to_multiset().subset_of(s0.push(e).to_multiset()));
                    }
                    return;
                },
            }
            let _ = self.buffer.pop();
        }
        let ghost b1 = self.buffer@;
        proof {
            if full {
                assert(b1 =~= b0.remove(b0.len() - 1));
            } else {
                assert(b1 == b0);
            }
        }
        // Binary search for the first kept entry that ranks strictly below
        // the new one.
        let mut lo: usize = 0;
        let mut hi: usize = self.buffer.len();
        while lo < hi
            invariant
                self.buffer@ == b1,
                sorted_desc(b1),
                all_conform(b1, orders),
                conforms(feature.0@, orders),
                lo <= hi <= b1.len(),
                forall|j: int| 0 <= j < lo ==> features_rank(#[trigger] b1[j].feature.0@, feature.0@) != Ordering::Less,
                forall|j: int| hi <= j < b1.len() ==> features_rank(#[trigger] b1[j].feature.0@, feature.0@) == Ordering::Less,
            decreases hi - lo,
        {
            let mid = lo + (hi - lo) / 2;
            let c = rank_features(&self.buffer[mid].feature.0, &feature.0);
            match c {
                Ordering::Less => {
                    proof {
                        assert forall|j: int| mid <= j < b1.len() implies features_rank(
                            #[trigger] b1[j].feature.0@,
                            feature.0@,
                        ) == Ordering::Less by {
                            if j < hi && j > mid {
                                assert(rank_le(b1[j], b1[mid as int]));
                                lemma_features_rank_trans(b1[j].feature.0@, b1[mid as int].feature.0@, feature.0@, orders);
                            }
                        }
                    }
                    hi = mid;
                },
                _ => {
                    proof {
                        lemma_features_rank_antisym(b1[mid as int].feature.0@, feature.0@, orders);
                        assert forall|j: int| 0 <= j <= mid implies features_rank(
                            #[trigger] b1[j].feature.0@,
                            feature.0@,
                        ) != Ordering::Less by {
                            if j >= lo && j < mid {
                                assert(rank_le(b1[mid as int], b1[j]));
                                lemma_features_rank_trans(feature.0@, b1[mid as int].feature.0@, b1[j].feature.0@, orders);
                                lemma_features_rank_antisym(b1[j].feature.0@, feature.0@, orders);
                            }
                        }
                    }
                    lo = mid + 1;
                },
            }
        }
        let i = lo;
        self.buffer.insert(i, ComparableDoc { feature, doc });
        proof {
            let b2 = self.buffer@;
            assert(b2 == b1.insert(i as int, e));
            assert(b2.to_multiset() == b1.to_multiset().insert(e));
            assert(sorted_desc(b1));
            assert forall|p: int, q: int| 0 <= p < q < b2.len() implies rank_le(#[trigger] b2[q], #[trigger] b2[p]) by {
                if q == i {
                    lemma_features_rank_antisym(b1[p].feature.0@, e.feature.0@, orders);
                } else if p == i {
                    assert(features_rank(b1[q - 1].feature.0@, e.feature.0@) == Ordering::Less);
                } else if p < i && q > i {
                    assert(rank_le(b1[q - 1], b1[p]));
                } else if q < i {
                    assert(rank_le(b1[q], b1[p]));
                } else {
                    assert(rank_le(b1[q - 1], b1[p - 1]));
                }
            }
            assert forall|k: int| 0 <= k < b2.len() implies conforms((#[trigger] b2[k]).feature.0@, orders) by {
                if k < i {
                    assert(b2[k] == b1[k]);
                } else if k > i {
                    assert(b2[k] == b1[k - 1]);
                }
            }
            if !full {
                assert(b2.to_multiset() == s0.push(e).to_multiset());
            } else {
                let w = b0.last();
                assert(b1.to_multiset() == b0.to_multiset().remove(w));
                assert(features_rank(e.feature.0@, w.feature.0@) == Ordering::Greater);
                lemma_features_rank_antisym(e.feature.0@, w.feature.0@, orders);
                assert(b0.to_multiset().count(w) > 0) by {
                    assert(b0[b0.len() - 1] == w);
                            assert(b0.contains(w));
                }
                assert forall|x: ComparableDoc, y: ComparableDoc|
                    b2.to_multiset().count(x) > 0 && s0.push(e).to_multiset().count(y) > b2.to_multiset().count(y)
                    implies rank_le(y, x) by {
                    assert(conforms(w.feature.0@, orders));
                    if y == w {
                        lemma_features_rank_antisym(w.feature.0@, w.feature.0@, orders);
                    } else {
                        assert(s0.to_multiset().count(y) > b0.to_multiset().count(y));
                        lemma_member_conforms(s0, y, orders);
                    }
                    assert(rank_le(y, w));
                    if x == e {
                        lemma_features_rank_trans(y.feature.0@, w.feature.0@, e.feature.0@, orders);
                    } else {
                        assert(b1.to_multiset().count(x) > 0);
                        assert(b1.contains(x));
                        let k = choose|k: int| 0 <= k < b1.len() && b1[k] == x;
                        assert(b0[k] == x);
                        assert(rank_le(b0[b0.len() - 1], b0[k]));
                        assert(conforms(x.feature.0@, orders));
                        lemma_features_rank_trans(y.feature.0@, w.feature.0@, x.feature.0@, orders);
                    }
                }
                assert(b2.to_multiset().subset_of(s0.push(e).to_multiset()));
            }
        }
    }

    /// Replaces what the selector counts as seen by a sequence of which the
    /// kept documents are still a top-K.
    pub(crate) fn set_seen(&mut self, s: Ghost<Seq<ComparableDoc>>)
        requires
            old(self).wf(),
            is_top_k(old(self).retained(), s@, old(self).capacity()),
            all_conform(s@, old(self).orders()),
        ensures
            final(self).wf(),
            final(self).seen() == s@,
            final(self).retained() == old(self).retained(),
            final(self).capacity() == old(self).capacity(),
            final(self).orders() == old(self).orders(),
    {
        self.pushed = s;
    }

    /// The kept documents, best first.
    pub fn into_sorted_vec(self) -> (r: Vec<ComparableDoc>)
        ensures
            r@ == self.retained(),
    {
        self.buffer
    }

    /// The kept documents, in no promised order.
    pub fn into_vec(self) -> (r: Vec<ComparableDoc>)
        ensures
            r@ == self.retained(),
    {
        self.buffer
    }
}

} // verus!
