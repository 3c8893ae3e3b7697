use data_assets::auth::{combine_grants, get_analytics, process_token_data};
use data_assets::store::Store;
use data_assets::types::{
    AccessGrantRecord, DatasetEntryInput, DatasetValue, QueryInput, RecordKey, Value,
};
use data_assets::{AnalyticsError, ANONYMOUS_IDENTITY};

fn region_sales_store() -> Store {
    let mut store = Store::new();
    let inputs = vec![
        DatasetEntryInput {
            id: RecordKey::Id(1),
            values: vec![
                DatasetValue { dimension_id: 1, value: Value::Attribute("EU".to_string()) },
                DatasetValue { dimension_id: 2, value: Value::Metric(10) },
            ],
        },
        DatasetEntryInput {
            id: RecordKey::Id(2),
            values: vec![
                DatasetValue { dimension_id: 1, value: Value::Attribute("EU".to_string()) },
                DatasetValue { dimension_id: 2, value: Value::Metric(5) },
            ],
        },
    ];
    store.put_many_entries(7, 1, &inputs, 1000);
    store
}

fn region_query() -> QueryInput {
    QueryInput { dataset_id: 1, attributes: vec![1], metrics: vec![2], filters: vec![] }
}

#[test]
fn zero_grants_fail_closed() {
    let grants: Vec<AccessGrantRecord> = vec![];
    let (dims, gdpr) = combine_grants(&grants);
    assert!(dims.is_empty());
    assert!(!gdpr);
}

#[test]
fn grants_union_dedups_keeping_first_occurrences() {
    let grants = vec![
        AccessGrantRecord { dimension_restrict_list: vec![1, 2, 2, 3], is_gdpr_enabled: true },
        AccessGrantRecord { dimension_restrict_list: vec![2, 4], is_gdpr_enabled: false },
    ];
    let (dims, gdpr) = combine_grants(&grants);
    assert!(dims == vec![1, 2, 3, 4]);
    // the suppression flag comes from the first record only
    assert!(gdpr);
}

#[test]
fn anonymous_caller_without_token_is_rejected() {
    let store = Store::new();
    let r = process_token_data(&store, ANONYMOUS_IDENTITY, None);
    assert!(r == Err(AnalyticsError::AnonymousUnauthorized));
}

#[test]
fn direct_identity_passes_through_without_token() {
    let store = Store::new();
    let r = process_token_data(&store, 42, None);
    assert!(r == Ok(42));
}

#[test]
fn unknown_token_is_rejected() {
    let mut store = Store::new();
    store.register_analytics_token(42, "sesame".to_string(), 100);
    let r = process_token_data(&store, 9, Some("wrong".to_string()));
    assert!(r == Err(AnalyticsError::TokenNotFound));
}

#[test]
fn token_resolves_to_the_registered_identity_not_the_presenter() {
    let mut store = Store::new();
    let echoed = store.register_analytics_token(42, "sesame".to_string(), 100);
    assert!(echoed == "sesame");
    let r = process_token_data(&store, ANONYMOUS_IDENTITY, Some("sesame".to_string()));
    assert!(r == Ok(42));
}

#[test]
fn reregistering_a_token_replaces_the_old_one() {
    let mut store = Store::new();
    store.register_analytics_token(42, "old".to_string(), 100);
    store.register_analytics_token(42, "new".to_string(), 200);
    assert!(process_token_data(&store, 9, Some("old".to_string()))
        == Err(AnalyticsError::TokenNotFound));
    assert!(process_token_data(&store, 9, Some("new".to_string())) == Ok(42));
}

#[test]
fn empty_allowed_set_rejects_with_no_entitlement_despite_data() {
    let mut store = region_sales_store();
    let r = get_analytics(&mut store, 42, &vec![], false, &region_query(), 2000);
    assert!(matches!(r, Err(AnalyticsError::NoEntitlement)));
}

#[test]
fn dimension_outside_allowed_set_is_denied() {
    let mut store = region_sales_store();
    let r = get_analytics(&mut store, 42, &vec![1], false, &region_query(), 2000);
    assert!(matches!(r, Err(AnalyticsError::AttributeAccessDenied)));
}

#[test]
fn authorized_query_runs_the_pipeline_with_threshold_five() {
    let mut store = region_sales_store();
    let r = get_analytics(&mut store, 42, &vec![1, 2], false, &region_query(), 2000).unwrap();
    assert!(r.counts == (2, 2, 2, 1, 1));
    assert!(r.analytics.len() == 1);
    assert!(r.analytics[0].group_key == "EU");
    assert!(r.analytics[0].metrics == vec![(2u8, 15u64)]);
}

#[test]
fn authorized_gdpr_query_suppresses_small_groups() {
    let mut store = region_sales_store();
    // two EU records form one group of two members: not above the fixed
    // threshold of five, so it is suppressed
    let r = get_analytics(&mut store, 42, &vec![1, 2], true, &region_query(), 2000).unwrap();
    assert!(r.counts == (2, 2, 2, 1, 0));
    assert!(r.analytics.is_empty());
}
