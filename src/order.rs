use vstd::prelude::*;
use std::cmp::Ordering;

verus! {

/// Sort direction of one sort key.
#[derive(Clone, Copy, Debug, PartialEq, Eq, Structural, Hash)]
pub enum Order {
    Asc,
    Desc,
}

/// A single comparable doc feature: an optional order-preserving value and
/// the order in which it is sorted. A missing value always ranks below a
/// present one, whatever the order.
#[derive(Clone, Copy, Debug)]
pub struct ComparableDocFeature {
    pub value: Option<u64>,
    pub order: Order,
}

/// The reverse of an ordering.
pub open spec fn reverse_spec(o: Ordering) -> Ordering {
    match o {
        Ordering::Less => Ordering::Greater,
        Ordering::Equal => Ordering::Equal,
        Ordering::Greater => Ordering::Less,
    }
}

/// Numeric comparison of two values.
pub open spec fn cmp_u64_spec(x: u64, y: u64) -> Ordering {
    if x < y {
        Ordering::Less
    } else if x == y {
        Ordering::Equal
    } else {
        Ordering::Greater
    }
}

/// How `a` ranks against `b`, in the order of `a`: present values compare
/// numerically, reversed when descending; a present value ranks above a
/// missing one.
pub open spec fn feature_cmp(a: ComparableDocFeature, b: ComparableDocFeature) -> Ordering {
    match (a.value, b.value) {
        (Some(x), Some(y)) => match a.order {
            Order::Asc => cmp_u64_spec(x, y),
            Order::Desc => reverse_spec(cmp_u64_spec(x, y)),
        },
        (Some(_), None) => Ordering::Greater,
        (None, Some(_)) => Ordering::Less,
        (None, None) => Ordering::Equal,
    }
}

/// Lexicographic comparison of two feature vectors: the first feature that
/// does not tie decides; the comparison stops at the shorter vector.
pub open spec fn features_cmp(a: Seq<ComparableDocFeature>, b: Seq<ComparableDocFeature>) -> Ordering
    decreases a.len(),
{
    if a.len() == 0 || b.len() == 0 {
        Ordering::Equal
    } else if feature_cmp(a[0], b[0]) != Ordering::Equal {
        feature_cmp(a[0], b[0])
    } else {
        features_cmp(a.drop_first(), b.drop_first())
    }
}

/// The feature vector has one feature per sort key, each with that key's order.
pub open spec fn conforms(f: Seq<ComparableDocFeature>, orders: Seq<Order>) -> bool {
    &&& f.len() == orders.len()
    &&& forall|i: int| 0 <= i < f.len() ==> #[trigger] f[i].order == orders[i]
}

/// A feature with the other direction.
pub open spec fn flip(f: ComparableDocFeature) -> ComparableDocFeature {
    ComparableDocFeature {
        value: f.value,
        order: match f.order {
            Order::Asc => Order::Desc,
            Order::Desc => Order::Asc,
        },
    }
}

/// A feature vector with every direction flipped.
pub open spec fn flip_all(a: Seq<ComparableDocFeature>) -> Seq<ComparableDocFeature> {
    Seq::new(a.len(), |i: int| flip(a[i]))
}

/// Every feature of the vector holds a value.
pub open spec fn all_present(a: Seq<ComparableDocFeature>) -> bool {
    forall|i: int| 0 <= i < a.len() ==> (#[trigger] a[i]).value is Some
}

/// How `a` ranks against `b` for selection, in the order of `a`: `Greater`
/// means better. Ascending prefers the smaller value, descending the larger;
/// a missing value ranks below every present one in both directions.
pub open spec fn feature_rank(a: ComparableDocFeature, b: ComparableDocFeature) -> Ordering {
    match (a.value, b.value) {
        (Some(x), Some(y)) => match a.order {
            Order::Asc => reverse_spec(cmp_u64_spec(x, y)),
            Order::Desc => cmp_u64_spec(x, y),
        },
        (Some(_), None) => Ordering::Greater,
        (None, Some(_)) => Ordering::Less,
        (None, None) => Ordering::Equal,
    }
}

/// Lexicographic ranking of two feature vectors: the first feature that does
/// not tie decides; the ranking stops at the shorter vector.
pub open spec fn features_rank(a: Seq<ComparableDocFeature>, b: Seq<ComparableDocFeature>) -> Ordering
    decreases a.len(),
{
    if a.len() == 0 || b.len() == 0 {
        Ordering::Equal
    } else if feature_rank(a[0], b[0]) != Ordering::Equal {
        feature_rank(a[0], b[0])
    } else {
        features_rank(a.drop_first(), b.drop_first())
    }
}

/// The other direction.
pub open spec fn flip_order(o: Order) -> Order {
    match o {
        Order::Asc => Order::Desc,
        Order::Desc => Order::Asc,
    }
}

/// Every direction of a list of sort orders flipped.
pub open spec fn flip_orders(orders: Seq<Order>) -> Seq<Order> {
    Seq::new(orders.len(), |i: int| flip_order(orders[i]))
}

impl ComparableDocFeature {
    /// Ranks `self` against `other` for selection, in the order of `self`.
    pub fn rank(&self, other: &ComparableDocFeature) -> (r: Ordering)
        ensures
            r == feature_rank(*self, *other),
    {
        match (self.value, other.value) {
            (Some(x), Some(y)) => {
                let c = if x < y {
                    Ordering::Less
                } else if x == y {
                    Ordering::Equal
                } else {
                    Ordering::Greater
                };
                match self.order {
                    Order::Desc => c,
                    Order::Asc => match c {
                        Ordering::Less => Ordering::Greater,
                        Ordering::Equal => Ordering::Equal,
                        Ordering::Greater => Ordering::Less,
                    },
                }
            },
            (Some(_), None) => Ordering::Greater,
            (None, Some(_)) => Ordering::Less,
            (None, None) => Ordering::Equal,
        }
    }
}

/// Ranks two feature vectors lexicographically for selection, first
/// feature first.
pub fn rank_features(a: &Vec<ComparableDocFeature>, b: &Vec<ComparableDocFeature>) -> (r: Ordering)
    ensures
        r == features_rank(a@, b@),
{
    let n = if a.len() < b.len() {
        a.len()
    } else {
        b.len()
    };
    let mut i: usize = 0;
    assert(a@.subrange(0, a@.len() as int) =~= a@);
    assert(b@.subrange(0, b@.len() as int) =~= b@);
    while i < n
        invariant
            i <= n,
            n <= a@.len(),
            n <= b@.len(),
            n == a@.len() || n == b@.len(),
            features_rank(a@, b@) == features_rank(
                a@.subrange(i as int, a@.len() as int),
                b@.subrange(i as int, b@.len() as int),
            ),
        decreases n - i,
    {
        let c = a[i].rank(&b[i]);
        let ghost sa = a@.subrange(i as int, a@.len() as int);
        let ghost sb = b@.subrange(i as int, b@.len() as int);
        assert(sa.len() > 0 && sa[0] == a@[i as int]);
        assert(sb.len() > 0 && sb[0] == b@[i as int]);
        assert(features_rank(sa, sb) == if feature_rank(sa[0], sb[0]) != Ordering::Equal {
            feature_rank(sa[0], sb[0])
        } else {
            features_rank(sa.drop_first(), sb.drop_first())
        });
        match c {
            Ordering::Equal => {},
            _ => {
                return c;
            },
        }
        assert(sa.drop_first() =~= a@.subrange(i + 1, a@.len() as int));
        assert(sb.drop_first() =~= b@.subrange(i + 1, b@.len() as int));
        i = i + 1;
    }
    assert(a@.subrange(i as int, a@.len() as int).len() == 0 || b@.subrange(i as int, b@.len() as int).len() == 0);
    Ordering::Equal
}

/// The ranking is the comparison with every direction flipped.
pub proof fn lemma_rank_is_flipped_cmp(a: Seq<ComparableDocFeature>, b: Seq<ComparableDocFeature>)
    ensures
        features_rank(a, b) == features_cmp(flip_all(a), flip_all(b)),
    decreases a.len(),
{
    if a.len() > 0 && b.len() > 0 {
        lemma_rank_is_flipped_cmp(a.drop_first(), b.drop_first());
        assert(flip_all(a).drop_first() =~= flip_all(a.drop_first()));
        assert(flip_all(b).drop_first() =~= flip_all(b.drop_first()));
    }
}

proof fn lemma_flip_conforms(a: Seq<ComparableDocFeature>, orders: Seq<Order>)
    requires
        conforms(a, orders),
    ensures
        conforms(flip_all(a), flip_orders(orders)),
{
    assert forall|i: int| 0 <= i < flip_all(a).len() implies #[trigger] flip_all(a)[i].order == flip_orders(orders)[i] by {
        assert(a[i].order == orders[i]);
    }
}

/// Ranking vectors that conform to one list of sort orders, either way
/// round, gives opposite results.
pub proof fn lemma_features_rank_antisym(a: Seq<ComparableDocFeature>, b: Seq<ComparableDocFeature>, orders: Seq<Order>)
    requires
        conforms(a, orders),
        conforms(b, orders),
    ensures
        features_rank(b, a) == reverse_spec(features_rank(a, b)),
{
    lemma_rank_is_flipped_cmp(a, b);
    lemma_rank_is_flipped_cmp(b, a);
    lemma_flip_conforms(a, orders);
    lemma_flip_conforms(b, orders);
    lemma_features_cmp_antisym(flip_all(a), flip_all(b), flip_orders(orders));
}

/// The ranking of vectors that conform to one list of sort orders is
/// transitive, and strictly so where one of the two steps is strict.
pub proof fn lemma_features_rank_trans(
    a: Seq<ComparableDocFeature>,
    b: Seq<ComparableDocFeature>,
    c: Seq<ComparableDocFeature>,
    orders: Seq<Order>,
)
    requires
        conforms(a, orders),
        conforms(b, orders),
        conforms(c, orders),
        features_rank(a, b) != Ordering::Greater,
        features_rank(b, c) != Ordering::Greater,
    ensures
        features_rank(a, c) != Ordering::Greater,
        features_rank(a, b) == Ordering::Less || features_rank(b, c) == Ordering::Less ==> features_rank(a, c)
            == Ordering::Less,
{
    lemma_rank_is_flipped_cmp(a, b);
    lemma_rank_is_flipped_cmp(b, c);
    lemma_rank_is_flipped_cmp(a, c);
    lemma_flip_conforms(a, orders);
    lemma_flip_conforms(b, orders);
    lemma_flip_conforms(c, orders);
    lemma_features_cmp_trans(flip_all(a), flip_all(b), flip_all(c), flip_orders(orders));
}

impl ComparableDocFeature {
    /// Compares `self` to `other` in the order of `self`.
    pub fn compare(&self, other: &ComparableDocFeature) -> (r: Ordering)
        ensures
            r == feature_cmp(*self, *other),
    {
        match (self.value, other.value) {
            (Some(x), Some(y)) => {
                let c = if x < y {
                    Ordering::Less
                } else if x == y {
                    Ordering::Equal
                } else {
                    Ordering::Greater
                };
                match self.order {
                    Order::Asc => c,
                    Order::Desc => match c {
                        Ordering::Less => Ordering::Greater,
                        Ordering::Equal => Ordering::Equal,
                        Ordering::Greater => Ordering::Less,
                    },
                }
            },
            (Some(_), None) => Ordering::Greater,
            (None, Some(_)) => Ordering::Less,
            (None, None) => Ordering::Equal,
        }
    }
}

impl PartialEq for ComparableDocFeature {
    /// Two features are equal when their values are, whatever their orders.
    fn eq(&self, other: &ComparableDocFeature) -> (r: bool) {
        match (self.value, other.value) {
            (Some(x), Some(y)) => x == y,
            (None, None) => true,
            _ => false,
        }
    }
}

impl vstd::std_specs::cmp::PartialEqSpecImpl for ComparableDocFeature {
    open spec fn obeys_eq_spec() -> bool {
        true
    }

    open spec fn eq_spec(&self, other: &ComparableDocFeature) -> bool {
        self.value == other.value
    }
}

impl PartialOrd for ComparableDocFeature {
    /// Orders as `compare` does.
    fn partial_cmp(&self, other: &ComparableDocFeature) -> (r: Option<Ordering>) {
        Some(self.compare(other))
    }
}

impl vstd::std_specs::cmp::PartialOrdSpecImpl for ComparableDocFeature {
    open spec fn obeys_partial_cmp_spec() -> bool {
        true
    }

    open spec fn partial_cmp_spec(&self, other: &ComparableDocFeature) -> Option<Ordering> {
        Some(feature_cmp(*self, *other))
    }
}

/// Compares two feature vectors lexicographically, first feature first.
pub fn compare_features(a: &Vec<ComparableDocFeature>, b: &Vec<ComparableDocFeature>) -> (r: Ordering)
    ensures
        r == features_cmp(a@, b@),
{
    let n = if a.len() < b.len() {
        a.len()
    } else {
        b.len()
    };
    let mut i: usize = 0;
    assert(a@.subrange(0, a@.len() as int) =~= a@);
    assert(b@.subrange(0, b@.len() as int) =~= b@);
    while i < n
        invariant
            i <= n,
            n <= a@.len(),
            n <= b@.len(),
            n == a@.len() || n == b@.len(),
            features_cmp(a@, b@) == features_cmp(
                a@.subrange(i as int, a@.len() as int),
                b@.subrange(i as int, b@.len() as int),
            ),
        decreases n - i,
    {
        let c = a[i].compare(&b[i]);
        let ghost sa = a@.subrange(i as int, a@.len() as int);
        let ghost sb = b@.subrange(i as int, b@.len() as int);
        assert(sa.len() > 0 && sa[0] == a@[i as int]);
        assert(sb.len() > 0 && sb[0] == b@[i as int]);
        assert(features_cmp(sa, sb) == if feature_cmp(sa[0], sb[0]) != Ordering::Equal {
            feature_cmp(sa[0], sb[0])
        } else {
            features_cmp(sa.drop_first(), sb.drop_first())
        });
        match c {
            Ordering::Equal => {},
            _ => {
                return c;
            },
        }
        assert(sa.drop_first() =~= a@.subrange(i + 1, a@.len() as int));
        assert(sb.drop_first() =~= b@.subrange(i + 1, b@.len() as int));
        i = i + 1;
    }
    assert(a@.subrange(i as int, a@.len() as int).len() == 0 || b@.subrange(i as int, b@.len() as int).len() == 0);
    Ordering::Equal
}

/// Comparing two vectors that conform to one list of sort orders, either
/// way round, gives opposite results.
pub proof fn lemma_features_cmp_antisym(a: Seq<ComparableDocFeature>, b: Seq<ComparableDocFeature>, orders: Seq<Order>)
    requires
        conforms(a, orders),
        conforms(b, orders),
    ensures
        features_cmp(b, a) == reverse_spec(features_cmp(a, b)),
    decreases a.len(),
{
    if a.len() > 0 {
        assert(a[0].order == orders[0] && b[0].order == orders[0]);
        let o = orders.drop_first();
        assert forall|i: int| 0 <= i < a.len() - 1 implies #[trigger] a.drop_first()[i].order == o[i] by {
            assert(a[i + 1].order == orders[i + 1]);
        }
        assert forall|i: int| 0 <= i < b.len() - 1 implies #[trigger] b.drop_first()[i].order == o[i] by {
            assert(b[i + 1].order == orders[i + 1]);
        }
        lemma_features_cmp_antisym(a.drop_first(), b.drop_first(), o);
    }
}

/// The ranking of vectors that conform to one list of sort orders is
/// transitive, and strictly so where one of the two steps is strict.
pub proof fn lemma_features_cmp_trans(
    a: Seq<ComparableDocFeature>,
    b: Seq<ComparableDocFeature>,
    c: Seq<ComparableDocFeature>,
    orders: Seq<Order>,
)
    requires
        conforms(a, orders),
        conforms(b, orders),
        conforms(c, orders),
        features_cmp(a, b) != Ordering::Greater,
        features_cmp(b, c) != Ordering::Greater,
    ensures
        features_cmp(a, c) != Ordering::Greater,
        features_cmp(a, b) == Ordering::Less || features_cmp(b, c) == Ordering::Less ==> features_cmp(a, c)
            == Ordering::Less,
    decreases a.len(),
{
    if a.len() > 0 {
        assert(a[0].order == orders[0] && b[0].order == orders[0] && c[0].order == orders[0]);
        let o = orders.drop_first();
        assert forall|i: int| 0 <= i < a.len() - 1 implies #[trigger] a.drop_first()[i].order == o[i] by {
            assert(a[i + 1].order == orders[i + 1]);
        }
        assert forall|i: int| 0 <= i < b.len() - 1 implies #[trigger] b.drop_first()[i].order == o[i] by {
            assert(b[i + 1].order == orders[i + 1]);
        }
        assert forall|i: int| 0 <= i < c.len() - 1 implies #[trigger] c.drop_first()[i].order == o[i] by {
            assert(c[i + 1].order == orders[i + 1]);
        }
        if feature_cmp(a[0], b[0]) == Ordering::Equal && feature_cmp(b[0], c[0]) == Ordering::Equal {
            lemma_features_cmp_trans(a.drop_first(), b.drop_first(), c.drop_first(), o);
        }
    }
}

/// With a single ascending key, one present value compares below another
/// exactly when it is numerically smaller; for selection it then ranks above.
pub proof fn lemma_single_ascending(x: u64, y: u64)
    ensures
        features_cmp(
            seq![ComparableDocFeature { value: Some(x), order: Order::Asc }],
            seq![ComparableDocFeature { value: Some(y), order: Order::Asc }],
        ) == Ordering::Less <==> x < y,
        features_rank(
            seq![ComparableDocFeature { value: Some(x), order: Order::Asc }],
            seq![ComparableDocFeature { value: Some(y), order: Order::Asc }],
        ) == Ordering::Greater <==> x < y,
{
    let a = seq![ComparableDocFeature { value: Some(x), order: Order::Asc }];
    let b = seq![ComparableDocFeature { value: Some(y), order: Order::Asc }];
    assert(a.len() == 1 && b.len() == 1);
    assert(a[0].value == Some(x) && b[0].value == Some(y) && a[0].order == Order::Asc);
    assert(features_cmp(a.drop_first(), b.drop_first()) == Ordering::Equal);
    assert(features_rank(a.drop_first(), b.drop_first()) == Ordering::Equal);
}

/// Flipping the direction of every key exactly reverses the comparison of
/// two vectors whose features are all present; the ranking then reverses too.
pub proof fn lemma_flip_reverses(a: Seq<ComparableDocFeature>, b: Seq<ComparableDocFeature>, orders: Seq<Order>)
    requires
        conforms(a, orders),
        conforms(b, orders),
        all_present(a),
        all_present(b),
    ensures
        features_cmp(flip_all(a), flip_all(b)) == reverse_spec(features_cmp(a, b)),
        features_rank(flip_all(a), flip_all(b)) == reverse_spec(features_rank(a, b)),
    decreases a.len(),
{
    lemma_rank_is_flipped_cmp(a, b);
    lemma_rank_is_flipped_cmp(flip_all(a), flip_all(b));
    assert(flip_all(flip_all(a)) =~= a);
    assert(flip_all(flip_all(b)) =~= b);
    if a.len() > 0 {
        assert(a[0].order == orders[0] && b[0].order == orders[0]);
        assert(a[0].value is Some && b[0].value is Some);
        let o = orders.drop_first();
        assert forall|i: int| 0 <= i < a.len() - 1 implies #[trigger] a.drop_first()[i].order == o[i] by {
            assert(a[i + 1].order == orders[i + 1]);
        }
        assert forall|i: int| 0 <= i < b.len() - 1 implies #[trigger] b.drop_first()[i].order == o[i] by {
            assert(b[i + 1].order == orders[i + 1]);
        }
        assert forall|i: int| 0 <= i < a.len() - 1 implies (#[trigger] a.drop_first()[i]).value is Some by {
            assert(a[i + 1].value is Some);
        }
        assert forall|i: int| 0 <= i < b.len() - 1 implies (#[trigger] b.drop_first()[i]).value is Some by {
            assert(b[i + 1].value is Some);
        }
        lemma_flip_reverses(a.drop_first(), b.drop_first(), o);
        assert(flip_all(a).drop_first() =~= flip_all(a.drop_first()));
        assert(flip_all(b).drop_first() =~= flip_all(b.drop_first()));
    }
}

/// A missing value ranks below a present one in either direction.
pub proof fn lemma_absent_ranks_below(a: ComparableDocFeature, b: ComparableDocFeature)
    requires
        a.value is None,
        b.value is Some,
    ensures
        feature_rank(a, b) == Ordering::Less,
        feature_rank(flip(a), flip(b)) == Ordering::Less,
        feature_rank(b, a) == Ordering::Greater,
        feature_rank(flip(b), flip(a)) == Ordering::Greater,
        feature_cmp(a, b) == Ordering::Less,
        feature_cmp(flip(a), flip(b)) == Ordering::Less,
        feature_cmp(b, a) == Ordering::Greater,
        feature_cmp(flip(b), flip(a)) == Ordering::Greater,
{
}

} // verus!
