use vstd::prelude::*;
use crate::fields::{
    check_field_types, display_spec, get_fields, names_view, supported, ColumnType, SearchFieldResults,
    TopHitsError,
};
use crate::order::{conforms, ComparableDocFeature, Order};
use crate::selector::{
    is_top_k, lemma_concat_conforms, lemma_top_k_replace_part, lemma_top_k_same_multiset, sorted_desc, ComparableDoc,
    ComparableDocFeatures, DocAddress, TopNComputer,
};

verus! {

broadcast use vstd::seq_lib::group_to_multiset_ensures;

/// A sort field and its order.
#[derive(Clone, Debug)]
pub struct KeyOrder {
    pub field: String,
    pub order: Order,
}

/// The fast fields to return with each hit.
#[derive(Clone, Debug)]
pub struct SearchFields {
    pub doc_value_fields: Vec<String>,
}

/// A top-hits request: the sort criterion, the page size, the offset of the
/// page (`from`, none meaning zero) and the fields to return with each hit.
#[derive(Clone, Debug)]
pub struct TopHitsAggregation {
    pub sort: Vec<KeyOrder>,
    pub size: usize,
    pub from: Option<usize>,
    pub search_fields: SearchFields,
}

/// One hit of the final result: the document, the values of its sort
/// fields in sort order, and its requested field values.
#[derive(Clone, Debug)]
pub struct TopHitsVecEntry {
    pub id: DocAddress,
    pub sort: Vec<Option<u64>>,
    pub search_results: SearchFieldResults,
}

/// The final result: the hits of the requested page, best first.
#[derive(Clone, Debug)]
pub struct TopHitsMetricResult {
    pub hits: Vec<TopHitsVecEntry>,
}

/// The values of a feature vector.
pub open spec fn values_of(f: Seq<ComparableDocFeature>) -> Seq<Option<u64>> {
    Seq::new(f.len(), |i: int| f[i].value)
}

/// The feature vector of a document whose sort fields have the values `vals`.
pub open spec fn features_spec(orders: Seq<Order>, vals: Seq<Option<u64>>) -> Seq<ComparableDocFeature> {
    Seq::new(orders.len(), |i: int| ComparableDocFeature { value: vals[i], order: orders[i] })
}

/// The page `[from, from + size)` of a ranked sequence; empty when `from`
/// is past its end.
pub open spec fn page_of<T>(s: Seq<T>, from: nat, size: nat) -> Seq<T> {
    if from >= s.len() {
        Seq::empty()
    } else if from + size <= s.len() {
        s.subrange(from as int, (from + size) as int)
    } else {
        s.subrange(from as int, s.len() as int)
    }
}

/// A hit made from a ranked document.
pub open spec fn hit_matches(h: TopHitsVecEntry, d: ComparableDoc) -> bool {
    &&& h.id == d.doc
    &&& h.sort@ == values_of(d.feature.0@)
    &&& h.search_results == d.feature.1
}

impl TopHitsAggregation {
    /// The sort orders, in sort order.
    pub open spec fn orders_spec(&self) -> Seq<Order> {
        Seq::new(self.sort@.len(), |i: int| self.sort@[i].order)
    }

    /// The offset of the page.
    pub open spec fn from_spec(&self) -> nat {
        match self.from {
            Some(f) => f as nat,
            None => 0,
        }
    }

    /// How many documents each selector keeps: the page and all before it.
    pub open spec fn capacity_spec(&self) -> nat {
        self.size as nat + self.from_spec()
    }

    /// The sort orders, in sort order.
    pub fn sort_orders(&self) -> (r: Vec<Order>)
        ensures
            r@ == self.orders_spec(),
    {
        let mut r: Vec<Order> = Vec::new();
        let mut i: usize = 0;
        while i < self.sort.len()
            invariant
                i <= self.sort@.len(),
                r@ == self.orders_spec().take(i as int),
            decreases self.sort@.len() - i,
        {
            r.push(self.sort[i].order);
            i = i + 1;
            proof {
                assert(r@ =~= self.orders_spec().take(i as int));
            }
        }
        proof {
            assert(r@ =~= self.orders_spec());
        }
        r
    }

    /// The fields read by the aggregation, in order: the sort fields, then
    /// the fields returned with each hit.
    pub fn field_names(&self) -> (r: Vec<&str>)
        ensures
            r@.len() == self.sort@.len() + self.search_fields.doc_value_fields@.len(),
            forall|i: int| 0 <= i < self.sort@.len() ==> (#[trigger] r@[i])@ == self.sort@[i].field@,
            forall|i: int|
                0 <= i < self.search_fields.doc_value_fields@.len() ==> (#[trigger] r@[self.sort@.len() + i])@
                    == self.search_fields.doc_value_fields@[i]@,
    {
        let mut r: Vec<&str> = Vec::new();
        let mut i: usize = 0;
        while i < self.sort.len()
            invariant
                i <= self.sort@.len(),
                r@.len() == i,
                forall|j: int| 0 <= j < i ==> (#[trigger] r@[j])@ == self.sort@[j].field@,
            decreases self.sort@.len() - i,
        {
            r.push(self.sort[i].field.as_str());
            i = i + 1;
        }
        let names = self.search_fields.get_field_names();
        let mut k: usize = 0;
        while k < names.len()
            invariant
                k <= names@.len(),
                names@.len() == self.search_fields.doc_value_fields@.len(),
                forall|j: int| 0 <= j < names@.len() ==> (#[trigger] names@[j])@ == self.search_fields.doc_value_fields@[j]@,
                r@.len() == self.sort@.len() + k,
                forall|j: int| 0 <= j < self.sort@.len() ==> (#[trigger] r@[j])@ == self.sort@[j].field@,
                forall|j: int| 0 <= j < k ==> (#[trigger] r@[self.sort@.len() + j])@ == self.search_fields.doc_value_fields@[j]@,
            decreases names@.len() - k,
        {
            r.push(names[k]);
            k = k + 1;
        }
        r
    }
}

impl SearchFields {
    /// The names of the fields to return.
    pub fn get_field_names(&self) -> (r: Vec<&str>)
        ensures
            r@.len() == self.doc_value_fields@.len(),
            forall|i: int| 0 <= i < r@.len() ==> (#[trigger] r@[i])@ == self.doc_value_fields@[i]@,
    {
        let mut r: Vec<&str> = Vec::new();
        let mut i: usize = 0;
        while i < self.doc_value_fields.len()
            invariant
                i <= self.doc_value_fields@.len(),
                r@.len() == i,
                forall|j: int| 0 <= j < i ==> (#[trigger] r@[j])@ == self.doc_value_fields@[j]@,
            decreases self.doc_value_fields@.len() - i,
        {
            r.push(self.doc_value_fields[i].as_str());
            i = i + 1;
        }
        r
    }
}

/// The collector of the top hits of one bucket, per segment and, after
/// merging, over all segments.
pub struct TopHitsCollector {
    req: TopHitsAggregation,
    top_n: TopNComputer,
}

impl TopHitsCollector {
    /// The selector is well formed, with the request's sort orders and
    /// capacity.
    pub closed spec fn wf(&self) -> bool {
        &&& self.top_n.wf()
        &&& self.top_n.orders() == self.req.orders_spec()
        &&& self.top_n.capacity() == self.req.capacity_spec()
    }

    /// The request.
    pub closed spec fn request(&self) -> TopHitsAggregation {
        self.req
    }

    /// Every document collected, by this collector or by those merged into it.
    pub closed spec fn seen(&self) -> Seq<ComparableDoc> {
        self.top_n.seen()
    }

    /// The documents kept, best first.
    pub closed spec fn retained(&self) -> Seq<ComparableDoc> {
        self.top_n.retained()
    }

    /// A well-formed collector keeps a best-first top-K of what it saw, K
    /// being the page size plus the offset.
    pub proof fn lemma_wf(&self)
        requires
            self.wf(),
        ensures
            is_top_k(self.retained(), self.seen(), self.request().capacity_spec()),
            sorted_desc(self.retained()),
    {
        self.top_n.lemma_wf();
    }

    /// An empty collector for `req`.
    pub fn from_req(req: TopHitsAggregation) -> (r: TopHitsCollector)
        requires
            req.capacity_spec() <= usize::MAX,
        ensures
            r.wf(),
            r.request() == req,
            r.seen() == Seq::<ComparableDoc>::empty(),
    {
        let from = match req.from {
            Some(f) => f,
            None => 0,
        };
        let orders = req.sort_orders();
        let top_n = TopNComputer::new(req.size + from, orders);
        TopHitsCollector { req, top_n }
    }

    /// The request.
    pub fn req(&self) -> (r: &TopHitsAggregation)
        ensures
            *r == self.request(),
    {
        &self.req
    }

    /// The cutoff that a new document must beat once the collector is full.
    pub fn threshold(&self) -> (r: Option<&ComparableDocFeatures>)
        requires
            self.wf(),
        ensures
            r is Some <==> self.retained().len() == self.request().capacity_spec() && self.request().capacity_spec() > 0,
            r is Some ==> *r->0 == self.retained().last().feature,
    {
        self.top_n.threshold()
    }

    /// Collects one document.
    pub fn collect(&mut self, features: ComparableDocFeatures, doc: DocAddress)
        requires
            old(self).wf(),
            conforms(features.0@, old(self).request().orders_spec()),
        ensures
            final(self).wf(),
            final(self).request() == old(self).request(),
            final(self).seen() == old(self).seen().push(ComparableDoc { feature: features, doc }),
    {
        self.top_n.push(features, doc);
    }

    /// Merges the result of another collector of the same request into this
    /// one. What this collector then keeps is a top-K of all that both saw.
    pub fn merge_fruits(&mut self, other_fruit: TopHitsCollector)
        requires
            old(self).wf(),
            other_fruit.wf(),
            other_fruit.request().orders_spec() == old(self).request().orders_spec(),
            other_fruit.request().capacity_spec() == old(self).request().capacity_spec(),
        ensures
            final(self).wf(),
            final(self).request() == old(self).request(),
            final(self).seen() == old(self).seen() + other_fruit.seen(),
    {
        let ghost s0 = self.top_n.seen();
        let ghost s2 = other_fruit.top_n.seen();
        let ghost k = self.req.capacity_spec();
        let ghost orders = self.req.orders_spec();
        proof {
            other_fruit.top_n.lemma_wf();
            self.top_n.lemma_wf();
        }
        let mut docs = other_fruit.top_n.into_vec();
        let ghost b = docs@;
        proof {
            assert forall|i: int| 0 <= i < b.len() implies conforms((#[trigger] b[i]).feature.0@, orders) by {}
        }
        while docs.len() > 0
            invariant
                self.wf(),
                self.req.orders_spec() == orders,
                self.req.capacity_spec() == k,
                old(self).request() == self.req,
                docs@ == b.take(docs@.len() as int),
                forall|i: int| 0 <= i < b.len() ==> conforms((#[trigger] b[i]).feature.0@, orders),
                self.top_n.seen() == s0 + b.subrange(docs@.len() as int, b.len() as int).reverse(),
                docs@.len() <= b.len(),
            decreases docs@.len(),
        {
            let ghost n = docs@.len();
            let d = docs.pop().unwrap();
            proof {
                assert(d == b[n - 1]);
                assert(docs@ =~= b.take(n - 1));
            }
            self.top_n.push(d.feature, d.doc);
            proof {
                assert(b.subrange(n - 1, b.len() as int).reverse() =~= b.subrange(n as int, b.len() as int).reverse().push(
                    b[n - 1],
                ));
            }
        }
        proof {
            let seen = self.top_n.seen();
            self.top_n.lemma_wf();
            assert(b.subrange(0, b.len() as int) =~= b);
            vstd::seq_lib::lemma_multiset_commutative(s0, b.reverse());
            vstd::seq_lib::lemma_multiset_commutative(s0, b);
            b.lemma_reverse_to_multiset();
            lemma_top_k_same_multiset(self.top_n.retained(), seen, s0 + b, k);
            lemma_top_k_replace_part(s0, s2, b, self.top_n.retained(), k, orders);
            lemma_concat_conforms(s0, s2, orders);
        }
        self.top_n.set_seen(Ghost(s0 + s2));
    }

    /// The final result: the kept documents best first, without the first
    /// `from` of them, and at most `size` of the rest.
    pub fn finalize(self) -> (r: TopHitsMetricResult)
        requires
            self.wf(),
        ensures
            r.hits@.len() == page_of(self.retained(), self.request().from_spec(), self.request().size as nat).len(),
            forall|i: int|
                0 <= i < r.hits@.len() ==> hit_matches(
                    #[trigger] r.hits@[i],
                    page_of(self.retained(), self.request().from_spec(), self.request().size as nat)[i],
                ),
    {
        let from = match self.req.from {
            Some(f) => f,
            None => 0,
        };
        let size = self.req.size;
        let mut docs = self.top_n.into_sorted_vec();
        let ghost all = docs@;
        let ghost page = page_of(all, from as nat, size as nat);
        if from >= docs.len() {
            return TopHitsMetricResult { hits: Vec::new() };
        }
        let mut tail = docs.split_off(from);
        if tail.len() > size {
            tail.truncate(size);
        }
        proof {
            assert(tail@ =~= page);
        }
        // Move the page out back to front, then again, to keep its order.
        let mut rev: Vec<ComparableDoc> = Vec::new();
        while tail.len() > 0
            invariant
                tail@ == page.take(tail@.len() as int),
                tail@.len() <= page.len(),
                rev@.len() == page.len() - tail@.len(),
                forall|j: int| 0 <= j < rev@.len() ==> #[trigger] rev@[j] == page[page.len() - 1 - j],
            decreases tail@.len(),
        {
            let ghost n = tail@.len();
            let d = tail.pop().unwrap();
            proof {
                assert(tail@ =~= page.take(n - 1));
            }
            rev.push(d);
        }
        let mut hits: Vec<TopHitsVecEntry> = Vec::new();
        while rev.len() > 0
            invariant
                rev@.len() + hits@.len() == page.len(),
                forall|j: int| 0 <= j < rev@.len() ==> #[trigger] rev@[j] == page[page.len() - 1 - j],
                forall|j: int| 0 <= j < hits@.len() ==> hit_matches(#[trigger] hits@[j], page[j]),
            decreases rev@.len(),
        {
            let d = rev.pop().unwrap();
            let sort = feature_values(&d.feature.0);
            hits.push(TopHitsVecEntry { id: d.doc, sort, search_results: d.feature.1 });
        }
        TopHitsMetricResult { hits }
    }
}

/// `e` is the entry collected for document `doc_id` of segment `segment`,
/// whose sort fields have the values `sort_vals` and whose requested fields
/// have the values `field_vals`.
pub open spec fn entry_matches(
    e: ComparableDoc,
    segment: u32,
    doc_id: u32,
    req: TopHitsAggregation,
    types: Seq<ColumnType>,
    sort_vals: Seq<Option<u64>>,
    field_vals: Seq<Option<u64>>,
) -> bool {
    &&& e.doc == (DocAddress { segment_ord: segment, doc_id })
    &&& e.feature.0@ == features_spec(req.orders_spec(), sort_vals)
    &&& e.feature.1.view_fields() == display_spec(names_view(req.search_fields.doc_value_fields@), types, field_vals)
}

/// Collects the top hits of one segment: builds each document's sort key
/// and requested field values, and keeps the best `size + from` documents.
pub struct SegmentTopHitsCollector {
    segment_id: u32,
    accessor_idx: usize,
    field_types: Vec<ColumnType>,
    inner_collector: TopHitsCollector,
}

impl SegmentTopHitsCollector {
    /// The collector is well formed, with a decodable column type for each
    /// requested field.
    pub closed spec fn wf(&self) -> bool {
        &&& self.inner_collector.wf()
        &&& self.field_types@.len() == self.inner_collector.request().search_fields.doc_value_fields@.len()
        &&& forall|i: int| 0 <= i < self.field_types@.len() ==> supported(#[trigger] self.field_types@[i])
    }

    /// The collector that holds this segment's hits.
    pub closed spec fn inner(&self) -> TopHitsCollector {
        self.inner_collector
    }

    /// The ordinal of the segment.
    pub closed spec fn segment(&self) -> u32 {
        self.segment_id
    }

    /// The index of this aggregation among its siblings.
    pub closed spec fn accessor_index(&self) -> usize {
        self.accessor_idx
    }

    /// The column types of the requested fields.
    pub closed spec fn types(&self) -> Seq<ColumnType> {
        self.field_types@
    }

    /// A collector for segment `segment_id`, given the column type of each
    /// requested field. A field whose type cannot be decoded is refused
    /// here, before any document is collected.
    pub fn from_req(
        req: TopHitsAggregation,
        field_types: Vec<ColumnType>,
        accessor_idx: usize,
        segment_id: u32,
    ) -> (r: Result<SegmentTopHitsCollector, TopHitsError>)
        requires
            req.capacity_spec() <= usize::MAX,
            field_types@.len() == req.search_fields.doc_value_fields@.len(),
        ensures
            r is Ok <==> forall|i: int| 0 <= i < field_types@.len() ==> supported(#[trigger] field_types@[i]),
            r matches Ok(c) ==> c.wf() && c.inner().request() == req && c.inner().seen() == Seq::<ComparableDoc>::empty()
                && c.segment() == segment_id && c.types() == field_types@ && c.accessor_index() == accessor_idx,
            r matches Err(TopHitsError::UnsupportedFieldType { field_index, column_type }) ==> field_index
                < field_types@.len() && column_type == field_types@[field_index as int] && !supported(column_type)
                && forall|i: int| 0 <= i < field_index ==> supported(#[trigger] field_types@[i]),
    {
        match check_field_types(&field_types) {
            Ok(()) => {},
            Err(e) => {
                return Err(e);
            },
        }
        let inner_collector = TopHitsCollector::from_req(req);
        Ok(SegmentTopHitsCollector { segment_id, accessor_idx, field_types, inner_collector })
    }

    /// The index of this aggregation among its siblings.
    pub fn accessor_idx(&self) -> (r: usize)
        ensures
            r == self.accessor_index(),
    {
        self.accessor_idx
    }

    /// Collects document `doc_id`, given the first value of each sort field,
    /// in sort order, and of each requested field, in request order (none
    /// where the document has no value).
    pub fn collect(&mut self, doc_id: u32, sort_values: &Vec<Option<u64>>, field_values: &Vec<Option<u64>>)
        requires
            old(self).wf(),
            sort_values@.len() == old(self).inner().request().sort@.len(),
            field_values@.len() == old(self).inner().request().search_fields.doc_value_fields@.len(),
        ensures
            final(self).wf(),
            final(self).segment() == old(self).segment(),
            final(self).types() == old(self).types(),
            final(self).inner().request() == old(self).inner().request(),
            final(self).inner().seen().len() == old(self).inner().seen().len() + 1,
            final(self).inner().seen().drop_last() == old(self).inner().seen(),
            entry_matches(
                final(self).inner().seen().last(),
                old(self).segment(),
                doc_id,
                old(self).inner().request(),
                old(self).types(),
                sort_values@,
                field_values@,
            ),
    {
        let ghost req = self.inner_collector.request();
        let mut features: Vec<ComparableDocFeature> = Vec::new();
        let mut i: usize = 0;
        while i < sort_values.len()
            invariant
                i <= sort_values@.len(),
                sort_values@.len() == req.sort@.len(),
                self.inner_collector.req == req,
                features@ == features_spec(req.orders_spec(), sort_values@).take(i as int),
            decreases sort_values@.len() - i,
        {
            let order = self.inner_collector.req.sort[i].order;
            features.push(ComparableDocFeature { value: sort_values[i], order });
            i = i + 1;
            proof {
                assert(features@ =~= features_spec(req.orders_spec(), sort_values@).take(i as int));
            }
        }
        proof {
            assert(features@ =~= features_spec(req.orders_spec(), sort_values@));
        }
        let search_results = get_fields(
            &self.inner_collector.req.search_fields.doc_value_fields,
            &self.field_types,
            field_values,
        );
        let doc = DocAddress { segment_ord: self.segment_id, doc_id };
        self.inner_collector.collect(ComparableDocFeatures(features, search_results), doc);
        proof {
            let s = self.inner_collector.seen();
            assert(s.drop_last() =~= old(self).inner().seen());
        }
    }

    /// Collects a block of documents, as `collect` on each in turn; entry
    /// `i` of `sort_values` and `field_values` belongs to `docs[i]`.
    pub fn collect_block(
        &mut self,
        docs: &Vec<u32>,
        sort_values: &Vec<Vec<Option<u64>>>,
        field_values: &Vec<Vec<Option<u64>>>,
    )
        requires
            old(self).wf(),
            sort_values@.len() == docs@.len(),
            field_values@.len() == docs@.len(),
            forall|i: int| 0 <= i < docs@.len() ==> (#[trigger] sort_values@[i])@.len() == old(self).inner().request().sort@.len(),
            forall|i: int|
                0 <= i < docs@.len() ==> (#[trigger] field_values@[i])@.len()
                    == old(self).inner().request().search_fields.doc_value_fields@.len(),
        ensures
            final(self).wf(),
            final(self).segment() == old(self).segment(),
            final(self).types() == old(self).types(),
            final(self).inner().request() == old(self).inner().request(),
            final(self).inner().seen().len() == old(self).inner().seen().len() + docs@.len(),
            final(self).inner().seen().take(old(self).inner().seen().len() as int) == old(self).inner().seen(),
            forall|i: int|
                0 <= i < docs@.len() ==> entry_matches(
                    #[trigger] final(self).inner().seen()[old(self).inner().seen().len() + i],
                    old(self).segment(),
                    docs@[i],
                    old(self).inner().request(),
                    old(self).types(),
                    sort_values@[i]@,
                    field_values@[i]@,
                ),
    {
        let ghost s0 = self.inner().seen();
        let mut i: usize = 0;
        while i < docs.len()
            invariant
                i <= docs@.len(),
                self.wf(),
                self.segment() == old(self).segment(),
                self.types() == old(self).types(),
                self.inner().request() == old(self).inner().request(),
                sort_values@.len() == docs@.len(),
                field_values@.len() == docs@.len(),
                forall|j: int| 0 <= j < docs@.len() ==> (#[trigger] sort_values@[j])@.len() == old(self).inner().request().sort@.len(),
                forall|j: int|
                    0 <= j < docs@.len() ==> (#[trigger] field_values@[j])@.len()
                        == old(self).inner().request().search_fields.doc_value_fields@.len(),
                self.inner().seen().len() == s0.len() + i,
                self.inner().seen().take(s0.len() as int) == s0,
                forall|j: int|
                    0 <= j < i ==> entry_matches(
                        #[trigger] self.inner().seen()[s0.len() + j],
                        old(self).segment(),
                        docs@[j],
                        old(self).inner().request(),
                        old(self).types(),
                        sort_values@[j]@,
                        field_values@[j]@,
                    ),
            decreases docs@.len() - i,
        {
            let ghost before = self.inner().seen();
            self.collect(docs[i], &sort_values[i], &field_values[i]);
            proof {
                let after = self.inner().seen();
                assert(after.drop_last() == before);
                assert forall|j: int| 0 <= j < s0.len() + i implies after[j] == before[j] by {
                    assert(after.drop_last()[j] == after[j]);
                }
                assert(after.take(s0.len() as int) =~= s0);
            }
            i = i + 1;
        }
    }

    /// Hands over the segment's result, to be merged with those of the other
    /// segments.
    pub fn into_collector(self) -> (r: TopHitsCollector)
        ensures
            r == self.inner(),
    {
        self.inner_collector
    }
}

/// The values of a feature vector, in order.
pub fn feature_values(f: &Vec<ComparableDocFeature>) -> (r: Vec<Option<u64>>)
    ensures
        r@ == values_of(f@),
{
    let mut r: Vec<Option<u64>> = Vec::new();
    let mut i: usize = 0;
    while i < f.len()
        invariant
            i <= f@.len(),
            r@ == values_of(f@).take(i as int),
        decreases f@.len() - i,
    {
        r.push(f[i].value);
        i = i + 1;
        proof {
            assert(r@ =~= values_of(f@).take(i as int));
        }
    }
    proof {
        assert(r@ =~= values_of(f@));
    }
    r
}

} // verus!
