use data_assets::analytics::fetch_analytics;
use data_assets::store::Store;
use data_assets::types::{DatasetEntryInput, DatasetValue, RecordKey, Value};

fn region_sales_entry(id: u64, region: &str, sales: u32) -> DatasetEntryInput {
    DatasetEntryInput {
        id: RecordKey::Id(id),
        values: vec![
            DatasetValue { dimension_id: 1, value: Value::Attribute(region.to_string()) },
            DatasetValue { dimension_id: 2, value: Value::Metric(sales) },
        ],
    }
}

fn region_sales_store() -> Store {
    let mut store = Store::new();
    let inputs = vec![
        region_sales_entry(1, "EU", 10),
        region_sales_entry(2, "EU", 5),
        region_sales_entry(3, "US", 7),
    ];
    store.put_many_entries(7, 1, &inputs, 1000);
    store
}

#[test]
fn two_groups_with_sums_and_stage_sizes() {
    let store = region_sales_store();
    let r = fetch_analytics(&store, 1, &vec![1], &vec![2], &vec![], false, 5);
    assert!(r.counts == (3, 3, 3, 2, 2));
    assert!(r.analytics.len() == 2);
    let eu = &r.analytics[0];
    assert!(eu.group_key == "EU");
    assert!(eu.count == 2);
    assert!(eu.metrics == vec![(2u8, 15u64)]);
    assert!(eu.attributes == vec![Value::Attribute("EU".to_string())]);
    let us = &r.analytics[1];
    assert!(us.group_key == "US");
    assert!(us.count == 1);
    assert!(us.metrics == vec![(2u8, 7u64)]);
    assert!(us.attributes == vec![Value::Attribute("US".to_string())]);
}

#[test]
fn suppression_keeps_only_large_groups() {
    let store = region_sales_store();
    let r = fetch_analytics(&store, 1, &vec![1], &vec![2], &vec![], true, 1);
    assert!(r.counts == (3, 3, 3, 2, 1));
    assert!(r.analytics.len() == 1);
    assert!(r.analytics[0].group_key == "EU");
    assert!(r.analytics[0].count == 2);
    assert!(r.analytics[0].metrics == vec![(2u8, 15u64)]);
}

#[test]
fn suppression_threshold_zero_suppresses_nothing() {
    let store = region_sales_store();
    let r = fetch_analytics(&store, 1, &vec![1], &vec![2], &vec![], true, 0);
    assert!(r.counts == (3, 3, 3, 2, 2));
    assert!(r.analytics.len() == 2);
}

#[test]
fn repeated_runs_return_identical_results() {
    let store = region_sales_store();
    let a = fetch_analytics(&store, 1, &vec![1], &vec![2], &vec![], true, 1);
    let b = fetch_analytics(&store, 1, &vec![1], &vec![2], &vec![], true, 1);
    assert!(a.counts == b.counts);
    assert!(a.analytics.len() == b.analytics.len());
    for (ga, gb) in a.analytics.iter().zip(b.analytics.iter()) {
        assert!(ga.group_key == gb.group_key);
        assert!(ga.attributes == gb.attributes);
        assert!(ga.metrics == gb.metrics);
        assert!(ga.count == gb.count);
    }
}

#[test]
fn raising_threshold_never_grows_surviving_groups() {
    let store = region_sales_store();
    let mut previous = usize::MAX;
    for t in [0u32, 1, 2, 3] {
        let r = fetch_analytics(&store, 1, &vec![1], &vec![2], &vec![], true, t);
        assert!(r.analytics.len() <= previous);
        assert!((r.counts.4 as usize) == r.analytics.len());
        previous = r.analytics.len();
    }
}

#[test]
fn filters_drop_matching_records() {
    let store = region_sales_store();
    let filters = vec![(1u8, Value::Attribute("EU".to_string()))];
    let r = fetch_analytics(&store, 1, &vec![1], &vec![2], &filters, false, 5);
    assert!(r.counts == (3, 1, 1, 1, 1));
    assert!(r.analytics.len() == 1);
    assert!(r.analytics[0].group_key == "US");
}

#[test]
fn filter_on_metric_value_drops_record() {
    let store = region_sales_store();
    let filters = vec![(2u8, Value::Metric(7))];
    let r = fetch_analytics(&store, 1, &vec![1], &vec![2], &filters, false, 5);
    assert!(r.counts.1 == 2);
    assert!(r.analytics.len() == 1);
    assert!(r.analytics[0].group_key == "EU");
}

#[test]
fn missing_dataset_yields_all_zero_stage_sizes() {
    let store = Store::new();
    let r = fetch_analytics(&store, 99, &vec![1], &vec![2], &vec![], false, 5);
    assert!(r.counts == (0, 0, 0, 0, 0));
    assert!(r.analytics.is_empty());
}

#[test]
fn metric_attribute_renders_as_decimal_in_group_key() {
    let mut store = Store::new();
    let input = DatasetEntryInput {
        id: RecordKey::Id(1),
        values: vec![DatasetValue { dimension_id: 1, value: Value::Metric(42) }],
    };
    store.put_entry(9, 5, &input, 10);
    let r = fetch_analytics(&store, 5, &vec![1], &vec![], &vec![], false, 5);
    assert!(r.analytics.len() == 1);
    assert!(r.analytics[0].group_key == "42");
}

#[test]
fn group_key_joins_labels_with_separator() {
    let mut store = Store::new();
    let input = DatasetEntryInput {
        id: RecordKey::Id(1),
        values: vec![
            DatasetValue { dimension_id: 1, value: Value::Attribute("EU".to_string()) },
            DatasetValue { dimension_id: 2, value: Value::Metric(42) },
        ],
    };
    store.put_entry(9, 5, &input, 10);
    let r = fetch_analytics(&store, 5, &vec![1, 2], &vec![], &vec![], false, 5);
    assert!(r.analytics.len() == 1);
    assert!(r.analytics[0].group_key == "EU--42");
}

#[test]
fn groups_come_out_in_ascending_key_order() {
    let mut store = Store::new();
    let inputs = vec![
        region_sales_entry(1, "b", 1),
        region_sales_entry(2, "a", 2),
        region_sales_entry(3, "c", 3),
        region_sales_entry(4, "a", 4),
    ];
    store.put_many_entries(7, 1, &inputs, 1000);
    let r = fetch_analytics(&store, 1, &vec![1], &vec![2], &vec![], false, 5);
    assert!(r.analytics.len() == 3);
    assert!(r.analytics[0].group_key == "a");
    assert!(r.analytics[1].group_key == "b");
    assert!(r.analytics[2].group_key == "c");
    assert!(r.analytics[0].count == 2);
    assert!(r.analytics[0].metrics == vec![(2u8, 6u64)]);
}

#[test]
fn requested_metric_dimension_missing_from_records_sums_to_zero() {
    let store = region_sales_store();
    let r = fetch_analytics(&store, 1, &vec![1], &vec![9], &vec![], false, 5);
    assert!(r.analytics.len() == 2);
    assert!(r.analytics[0].metrics == vec![(9u8, 0u64)]);
    assert!(r.analytics[1].metrics == vec![(9u8, 0u64)]);
}

#[test]
fn empty_attribute_selection_forms_one_group_with_empty_key() {
    let store = region_sales_store();
    let r = fetch_analytics(&store, 1, &vec![], &vec![2], &vec![], false, 5);
    assert!(r.counts == (3, 3, 3, 1, 1));
    assert!(r.analytics.len() == 1);
    assert!(r.analytics[0].group_key.is_empty());
    assert!(r.analytics[0].attributes.is_empty());
    assert!(r.analytics[0].count == 3);
    assert!(r.analytics[0].metrics == vec![(2u8, 22u64)]);
}

#[test]
fn large_metric_values_sum_exactly() {
    let mut store = Store::new();
    let inputs = vec![
        region_sales_entry(1, "EU", u32::MAX),
        region_sales_entry(2, "EU", u32::MAX),
        region_sales_entry(3, "EU", 1),
    ];
    store.put_many_entries(7, 1, &inputs, 1000);
    let r = fetch_analytics(&store, 1, &vec![1], &vec![2], &vec![], false, 5);
    assert!(r.analytics.len() == 1);
    let expected: u64 = 2 * (u32::MAX as u64) + 1;
    assert!(r.analytics[0].metrics == vec![(2u8, expected)]);
}

#[test]
fn attribute_value_under_metric_dimension_contributes_zero() {
    let mut store = Store::new();
    let input = DatasetEntryInput {
        id: RecordKey::Id(1),
        values: vec![
            DatasetValue { dimension_id: 1, value: Value::Attribute("EU".to_string()) },
            DatasetValue { dimension_id: 2, value: Value::Attribute("oops".to_string()) },
        ],
    };
    store.put_entry(9, 1, &input, 10);
    let r = fetch_analytics(&store, 1, &vec![1], &vec![2], &vec![], false, 5);
    assert!(r.analytics.len() == 1);
    assert!(r.analytics[0].metrics == vec![(2u8, 0u64)]);
}
