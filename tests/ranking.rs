use std::cmp::Ordering;
use top_hits::collector::{KeyOrder, SearchFields, SegmentTopHitsCollector, TopHitsAggregation, TopHitsCollector};
use top_hits::common::{i64_to_u64, u64_to_f64_bits, u64_to_i64};
use top_hits::fields::{decode_value, same_name, ColumnType, FieldValue, SearchFieldResults, TopHitsError};
use top_hits::order::{compare_features, ComparableDocFeature, Order};
use top_hits::selector::{ComparableDocFeatures, DocAddress, TopNComputer};

fn feat(value: Option<u64>, order: Order) -> ComparableDocFeature {
    ComparableDocFeature { value, order }
}

fn invert_order(f: ComparableDocFeature) -> ComparableDocFeature {
    let order = match f.order {
        Order::Asc => Order::Desc,
        Order::Desc => Order::Asc,
    };
    ComparableDocFeature { value: f.value, order }
}

fn empty_fields() -> SearchFieldResults {
    SearchFieldResults { doc_value_fields: Vec::new() }
}

fn key(values: &[Option<u64>], order: Order) -> ComparableDocFeatures {
    ComparableDocFeatures(values.iter().map(|v| feat(*v, order)).collect(), empty_fields())
}

fn addr(doc_id: u32) -> DocAddress {
    DocAddress { segment_ord: 0, doc_id }
}

fn request(order: Order, size: usize, from: Option<usize>, fields: &[&str]) -> TopHitsAggregation {
    TopHitsAggregation {
        sort: vec![KeyOrder { field: "date".to_string(), order }],
        size,
        from,
        search_fields: SearchFields { doc_value_fields: fields.iter().map(|s| s.to_string()).collect() },
    }
}

fn retained_ids(c: TopHitsCollector) -> Vec<u32> {
    c.finalize().hits.iter().map(|h| h.id.doc_id).collect()
}

#[test]
fn test_comparable_doc_feature() {
    let small = feat(Some(1), Order::Asc);
    let big = feat(Some(2), Order::Asc);
    let none = feat(None, Order::Asc);
    assert!(small < big);
    assert!(none < small);
    assert!(none < big);

    let small = invert_order(small);
    let big = invert_order(big);
    let none = invert_order(none);
    assert!(small > big);
    assert!(none < small);
    assert!(none < big);
}

#[test]
fn features_compare_by_value_and_order() {
    assert_eq!(feat(Some(1), Order::Asc).compare(&feat(Some(2), Order::Asc)), Ordering::Less);
    assert_eq!(feat(Some(1), Order::Desc).compare(&feat(Some(2), Order::Desc)), Ordering::Greater);
    assert_eq!(feat(Some(0), Order::Desc).compare(&feat(None, Order::Desc)), Ordering::Greater);
    assert_eq!(feat(None, Order::Asc).compare(&feat(None, Order::Asc)), Ordering::Equal);
    assert!(feat(Some(3), Order::Asc) == feat(Some(3), Order::Desc));
    assert!(feat(None, Order::Asc) != feat(Some(0), Order::Asc));
}

#[test]
fn single_ascending_orders_numerically() {
    for (x, y) in [(1u64, 2u64), (2, 1), (5, 5), (0, u64::MAX)] {
        let a = vec![feat(Some(x), Order::Asc)];
        let b = vec![feat(Some(y), Order::Asc)];
        assert_eq!(compare_features(&a, &b), x.cmp(&y));
    }
}

#[test]
fn flipping_directions_reverses_present_keys() {
    let a = vec![feat(Some(3), Order::Asc), feat(Some(1), Order::Desc)];
    let b = vec![feat(Some(3), Order::Asc), feat(Some(2), Order::Desc)];
    let fa: Vec<_> = a.iter().map(|f| invert_order(*f)).collect();
    let fb: Vec<_> = b.iter().map(|f| invert_order(*f)).collect();
    assert_eq!(compare_features(&a, &b), Ordering::Greater);
    assert_eq!(compare_features(&fa, &fb), Ordering::Less);
    let n = vec![feat(None, Order::Asc)];
    let p = vec![feat(Some(0), Order::Asc)];
    let fnn: Vec<_> = n.iter().map(|f| invert_order(*f)).collect();
    let fp: Vec<_> = p.iter().map(|f| invert_order(*f)).collect();
    assert_eq!(compare_features(&n, &p), Ordering::Less);
    assert_eq!(compare_features(&fnn, &fp), Ordering::Less);
}

#[test]
fn later_keys_break_ties() {
    let a = vec![feat(Some(1), Order::Desc), feat(Some(10), Order::Asc)];
    let b = vec![feat(Some(1), Order::Desc), feat(Some(20), Order::Asc)];
    assert_eq!(compare_features(&a, &b), Ordering::Less);
    let c = vec![feat(Some(1), Order::Desc), feat(Some(10), Order::Asc)];
    assert_eq!(compare_features(&a, &c), Ordering::Equal);
}

#[test]
fn selector_keeps_top_k_in_any_order() {
    let values = [7u64, 3, 9, 1, 8, 2, 6];
    for rotation in 0..values.len() {
        let mut sel = TopNComputer::new(3, vec![Order::Asc]);
        for i in 0..values.len() {
            let v = values[(i + rotation) % values.len()];
            sel.push(key(&[Some(v)], Order::Asc), addr(v as u32));
        }
        let kept: Vec<u32> = sel.into_sorted_vec().iter().map(|d| d.doc.doc_id).collect();
        // Ascending prefers the smaller values.
        assert_eq!(kept, vec![1, 2, 3]);
    }
}

#[test]
fn selector_threshold_is_worst_kept() {
    let mut sel = TopNComputer::new(2, vec![Order::Asc]);
    assert!(sel.threshold().is_none());
    sel.push(key(&[Some(4)], Order::Asc), addr(4));
    assert!(sel.threshold().is_none());
    sel.push(key(&[Some(6)], Order::Asc), addr(6));
    assert_eq!(sel.threshold().unwrap().0[0].value, Some(6));
    sel.push(key(&[Some(5)], Order::Asc), addr(5));
    assert_eq!(sel.threshold().unwrap().0[0].value, Some(5));
    sel.push(key(&[Some(9)], Order::Asc), addr(9));
    assert_eq!(sel.threshold().unwrap().0[0].value, Some(5));
}

#[test]
fn selector_of_capacity_zero_keeps_nothing() {
    let mut sel = TopNComputer::new(0, vec![Order::Asc]);
    sel.push(key(&[Some(1)], Order::Asc), addr(1));
    assert!(sel.into_sorted_vec().is_empty());
}

#[test]
fn descending_scenario_keeps_both_fives() {
    let mut sel = TopNComputer::new(2, vec![Order::Desc]);
    sel.push(key(&[Some(5)], Order::Desc), addr(0));
    sel.push(key(&[None], Order::Desc), addr(1));
    sel.push(key(&[Some(3)], Order::Desc), addr(2));
    sel.push(key(&[Some(5)], Order::Desc), addr(3));
    let mut kept: Vec<u32> = sel.into_sorted_vec().iter().map(|d| d.doc.doc_id).collect();
    kept.sort();
    assert_eq!(kept, vec![0, 3]);
}

#[test]
fn ascending_scenario_keeps_smallest_and_drops_missing() {
    let mut sel = TopNComputer::new(2, vec![Order::Asc]);
    sel.push(key(&[Some(5)], Order::Asc), addr(0));
    sel.push(key(&[None], Order::Asc), addr(1));
    sel.push(key(&[Some(3)], Order::Asc), addr(2));
    sel.push(key(&[Some(5)], Order::Asc), addr(3));
    let kept: Vec<u32> = sel.into_sorted_vec().iter().map(|d| d.doc.doc_id).collect();
    assert_eq!(kept.len(), 2);
    assert!(!kept.contains(&1));
    assert_eq!(kept[0], 2);
    assert!(kept[1] == 0 || kept[1] == 3);
}

#[test]
fn descending_scenario_none_loses_to_present() {
    let mut sel = TopNComputer::new(2, vec![Order::Desc]);
    sel.push(key(&[Some(5)], Order::Desc), addr(0));
    sel.push(key(&[None], Order::Desc), addr(1));
    sel.push(key(&[Some(9)], Order::Desc), addr(2));
    let kept: Vec<u32> = sel.into_sorted_vec().iter().map(|d| d.doc.doc_id).collect();
    assert_eq!(kept, vec![2, 0]);
}

#[test]
fn pagination_returns_second_and_third() {
    let mut c = TopHitsCollector::from_req(request(Order::Desc, 2, Some(1), &[]));
    for (doc, v) in [(4u32, 20u64), (1, 50), (5, 10), (3, 30), (2, 40)] {
        c.collect(key(&[Some(v)], Order::Desc), addr(doc));
    }
    // Descending: the larger value ranks higher.
    assert_eq!(retained_ids(c), vec![2, 3]);
}

#[test]
fn pagination_by_rank() {
    let mut c = TopHitsCollector::from_req(request(Order::Asc, 2, Some(1), &[]));
    for (doc, v) in [(3u32, 30u64), (1, 10), (5, 50), (2, 20), (4, 40)] {
        c.collect(key(&[Some(v)], Order::Asc), addr(doc));
    }
    assert_eq!(retained_ids(c), vec![2, 3]);
}

#[test]
fn offset_past_the_end_gives_nothing() {
    let mut c = TopHitsCollector::from_req(request(Order::Asc, 2, Some(10), &[]));
    for (doc, v) in [(1u32, 50u64), (2, 40), (3, 30), (4, 20), (5, 10)] {
        c.collect(key(&[Some(v)], Order::Asc), addr(doc));
    }
    assert!(c.finalize().hits.is_empty());
}

#[test]
fn size_zero_gives_nothing() {
    let mut c = TopHitsCollector::from_req(request(Order::Asc, 0, None, &[]));
    c.collect(key(&[Some(1)], Order::Asc), addr(1));
    assert!(c.finalize().hits.is_empty());
}

#[test]
fn merge_matches_single_selector() {
    let values: Vec<u64> = vec![12, 5, 77, 3, 41, 41, 8, 19, 60, 2];
    let mut whole = TopHitsCollector::from_req(request(Order::Desc, 4, None, &[]));
    for (i, v) in values.iter().enumerate() {
        whole.collect(key(&[Some(*v)], Order::Desc), addr(i as u32));
    }
    let mut left = TopHitsCollector::from_req(request(Order::Desc, 4, None, &[]));
    let mut right = TopHitsCollector::from_req(request(Order::Desc, 4, None, &[]));
    let mut third = TopHitsCollector::from_req(request(Order::Desc, 4, None, &[]));
    for (i, v) in values.iter().enumerate() {
        let target = match i % 3 {
            0 => &mut left,
            1 => &mut right,
            _ => &mut third,
        };
        target.collect(key(&[Some(*v)], Order::Desc), addr(i as u32));
    }
    third.merge_fruits(left);
    right.merge_fruits(third);
    let merged = right.finalize();
    let single = whole.finalize();
    let sorts = |r: &top_hits::collector::TopHitsMetricResult| -> Vec<Option<u64>> {
        r.hits.iter().map(|h| h.sort[0]).collect()
    };
    assert_eq!(sorts(&merged), vec![Some(77), Some(60), Some(41), Some(41)]);
    assert_eq!(sorts(&merged), sorts(&single));
}

#[test]
fn segment_collector_builds_keys_and_fields() {
    let req = request(Order::Desc, 2, None, &["price", "delta", "ratio"]);
    let types = vec![ColumnType::U64, ColumnType::I64, ColumnType::F64];
    let mut seg = match SegmentTopHitsCollector::from_req(req, types, 0, 7) {
        Ok(s) => s,
        Err(_) => panic!("supported types"),
    };
    seg.collect(1, &vec![Some(10)], &vec![Some(3), Some(i64_to_u64(-2)), None]);
    seg.collect_block(
        &vec![2, 3],
        &vec![vec![Some(5)], vec![None]],
        &vec![vec![None, None, Some(u64_to_f64_bits_inverse(1.5))], vec![Some(1), None, None]],
    );
    let result = seg.into_collector().finalize();
    assert_eq!(result.hits.len(), 2);
    assert_eq!(result.hits[0].id, DocAddress { segment_ord: 7, doc_id: 1 });
    assert_eq!(result.hits[0].sort, vec![Some(10)]);
    let f0 = &result.hits[0].search_results.doc_value_fields;
    assert_eq!(f0.len(), 2);
    assert_eq!(f0[0], ("price".to_string(), FieldValue::U64(3)));
    assert_eq!(f0[1], ("delta".to_string(), FieldValue::I64(-2)));
    assert_eq!(result.hits[1].id, DocAddress { segment_ord: 7, doc_id: 2 });
    assert_eq!(result.hits[1].sort, vec![Some(5)]);
    let f1 = &result.hits[1].search_results.doc_value_fields;
    assert_eq!(f1.len(), 1);
    assert_eq!(f1[0].0, "ratio");
    assert_eq!(f1[0].1, FieldValue::F64Bits(1.5f64.to_bits()));
}

// The order-preserving u64 form of a float.
fn u64_to_f64_bits_inverse(v: f64) -> u64 {
    let bits = v.to_bits();
    if bits & (1 << 63) == 0 {
        bits | (1 << 63)
    } else {
        !bits
    }
}

#[test]
fn unsupported_field_type_is_refused() {
    let req = request(Order::Asc, 1, None, &["price", "title"]);
    let r = SegmentTopHitsCollector::from_req(req, vec![ColumnType::U64, ColumnType::Str], 0, 0);
    match r {
        Err(e) => assert_eq!(e, TopHitsError::UnsupportedFieldType { field_index: 1, column_type: ColumnType::Str }),
        Ok(_) => panic!("text fields cannot be returned"),
    }
}

#[test]
fn decode_transforms() {
    assert_eq!(decode_value(42, ColumnType::U64), FieldValue::U64(42));
    assert_eq!(decode_value(1u64 << 63, ColumnType::I64), FieldValue::I64(0));
    assert_eq!(decode_value(0, ColumnType::I64), FieldValue::I64(i64::MIN));
    assert_eq!(u64_to_i64(i64_to_u64(-12345)), -12345);
    assert_eq!(i64_to_u64(i64::MAX), u64::MAX);
    assert_eq!(u64_to_f64_bits(u64_to_f64_bits_inverse(-2.25)), (-2.25f64).to_bits());
    assert_eq!(u64_to_f64_bits(u64_to_f64_bits_inverse(0.0)), 0.0f64.to_bits());
}

#[test]
fn field_names_lists_sort_then_fields() {
    let req = request(Order::Asc, 1, None, &["a", "b"]);
    assert_eq!(req.field_names(), vec!["date", "a", "b"]);
    assert_eq!(req.search_fields.get_field_names(), vec!["a", "b"]);
}

#[test]
fn repeated_field_is_returned_once() {
    let names = vec!["price".to_string(), "stock".to_string(), "price".to_string()];
    let types = vec![ColumnType::U64, ColumnType::U64, ColumnType::U64];
    let r = top_hits::fields::get_fields(&names, &types, &vec![Some(9), None, Some(9)]);
    assert_eq!(r.doc_value_fields, vec![("price".to_string(), FieldValue::U64(9))]);
    let r = top_hits::fields::get_fields(&names, &types, &vec![None, Some(2), Some(9)]);
    assert_eq!(r.doc_value_fields, vec![("stock".to_string(), FieldValue::U64(2))]);
}

#[test]
fn same_name_compares_characters() {
    assert!(same_name(&"héllo".to_string(), &"héllo".to_string()));
    assert!(!same_name(&"héllo".to_string(), &"hello".to_string()));
    assert!(!same_name(&"ab".to_string(), &"abc".to_string()));
}

#[test]
fn selection_rank_follows_direction() {
    let a = vec![feat(Some(1), Order::Asc)];
    let b = vec![feat(Some(2), Order::Asc)];
    assert_eq!(top_hits::order::rank_features(&a, &b), Ordering::Greater);
    let a = vec![feat(Some(1), Order::Desc)];
    let b = vec![feat(Some(2), Order::Desc)];
    assert_eq!(top_hits::order::rank_features(&a, &b), Ordering::Less);
    let n = vec![feat(None, Order::Asc)];
    let p = vec![feat(Some(u64::MAX), Order::Asc)];
    assert_eq!(top_hits::order::rank_features(&n, &p), Ordering::Less);
    let n = vec![feat(None, Order::Desc)];
    let p = vec![feat(Some(0), Order::Desc)];
    assert_eq!(top_hits::order::rank_features(&p, &n), Ordering::Greater);
}
