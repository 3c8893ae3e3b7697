use data_assets::activity::DAY_NS;
use data_assets::auth::get_analytics;
use data_assets::store::Store;
use data_assets::types::{DatasetEntryInput, DatasetValue, QueryInput, RecordKey, Value};

fn entry(id: u64, text: &str) -> DatasetEntryInput {
    DatasetEntryInput {
        id: RecordKey::Id(id),
        values: vec![
            DatasetValue { dimension_id: 1, value: Value::Attribute(text.to_string()) },
        ],
    }
}

#[test]
fn producer_stats_count_consecutive_runs() {
    let mut store = Store::new();
    // entries prepend, so the stored order is the reverse of the put order
    store.put_entry(5, 1, &entry(1, "a"), 10);
    store.put_entry(5, 1, &entry(2, "b"), 20);
    store.put_entry(8, 1, &entry(3, "c"), 30);
    // stored: producer 8, then 5, then 5
    let stats = store.get_producers_stats(1);
    assert!(stats == vec![(8u64, 1u32), (5u64, 2u32)]);
}

#[test]
fn producer_stats_for_missing_dataset_are_empty() {
    let store = Store::new();
    assert!(store.get_producers_stats(7).is_empty());
}

#[test]
fn dataset_activity_buckets_by_day() {
    let mut store = Store::new();
    let day0 = 5u64;
    let day0_later = 99u64;
    let day2 = 2 * DAY_NS + 17;
    // stored newest-first: put oldest last so stored order is day2, day0, day0
    store.put_entry(5, 1, &entry(1, "x"), day0);
    store.put_entry(5, 1, &entry(2, "y"), day0_later);
    store.put_entry(5, 1, &entry(3, "z"), day2);
    let activity = store.get_dataset_activity(1).unwrap();
    assert!(activity.len() == 2);
    assert!(activity[0].date == 2 * DAY_NS);
    assert!(activity[0].value == 1);
    assert!(activity[1].date == 0);
    assert!(activity[1].value == 2);
}

#[test]
fn dataset_activity_for_missing_dataset_is_none() {
    let store = Store::new();
    assert!(store.get_dataset_activity(7).is_none());
}

#[test]
fn query_activity_counts_only_this_datasets_queries() {
    let mut store = Store::new();
    store.put_entry(5, 1, &entry(1, "x"), 10);
    store.put_entry(5, 2, &entry(2, "y"), 20);
    let q1 = QueryInput { dataset_id: 1, attributes: vec![1], metrics: vec![], filters: vec![] };
    let q2 = QueryInput { dataset_id: 2, attributes: vec![1], metrics: vec![], filters: vec![] };
    let allowed = vec![1u8];
    get_analytics(&mut store, 42, &allowed, false, &q1, 100).unwrap();
    get_analytics(&mut store, 42, &allowed, false, &q2, 200).unwrap();
    get_analytics(&mut store, 42, &allowed, false, &q1, DAY_NS + 300).unwrap();
    let activity = store.get_dataset_query_activity(1);
    assert!(activity.len() == 2);
    assert!(activity[0].date == 0);
    assert!(activity[0].value == 1);
    assert!(activity[1].date == DAY_NS);
    assert!(activity[1].value == 1);
    let other = store.get_dataset_query_activity(2);
    assert!(other.len() == 1);
    assert!(other[0].value == 1);
}
