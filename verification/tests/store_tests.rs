use data_assets::store::{get_data_by_dataset_id, get_dataset_sample, Store};
use data_assets::types::{
    DatasetConfigurationInput, DatasetCreateRequest, DatasetDimension, DatasetEntry,
    DatasetEntryInput, DatasetValue, DimensionType, RecordKey, UpdateMode, Value,
};

fn entry_input(key: RecordKey, dim: u8, text: &str) -> DatasetEntryInput {
    DatasetEntryInput {
        id: key,
        values: vec![
            DatasetValue { dimension_id: dim, value: Value::Attribute(text.to_string()) },
        ],
    }
}

fn sample_request(name: &str, description: &str) -> DatasetCreateRequest {
    DatasetCreateRequest {
        dataset_config: DatasetConfigurationInput {
            name: name.to_string(),
            description: description.to_string(),
            jupyter_notebook: String::new(),
            asset_id: "asset".to_string(),
            dimensions: vec![
                DatasetDimension {
                    dimension_id: 1,
                    title: "region".to_string(),
                    dimension_type: DimensionType::Categorical(vec![
                        "EU".to_string(),
                        "US".to_string(),
                    ]),
                },
                DatasetDimension {
                    dimension_id: 2,
                    title: "sales".to_string(),
                    dimension_type: DimensionType::Numerical,
                },
            ],
        },
        category: "commerce".to_string(),
    }
}

fn texts(entries: &[DatasetEntry]) -> Vec<String> {
    entries
        .iter()
        .map(|e| match &e.values[0].value {
            Value::Attribute(s) => s.clone(),
            Value::Metric(n) => n.to_string(),
        })
        .collect()
}

#[test]
fn create_data_set_assigns_sequential_ids_and_initial_producer() {
    let mut store = Store::new();
    let id1 = store.create_data_set(11, sample_request("alpha", "first"), 100);
    let id2 = store.create_data_set(12, sample_request("beta", "second"), 200);
    assert!(id1 == 1);
    assert!(id2 == 2);
    let producers = store.get_producers(id1).unwrap();
    assert!(producers.len() == 1);
    assert!(producers[0].id == 11);
    assert!(producers[0].is_enabled);
    assert!(store.is_user_producer(11, id1));
    assert!(!store.is_user_producer(12, id1));
    assert!(store.is_dataset_owner(11, id1));
    assert!(!store.is_dataset_owner(11, id2));
    assert!(store.get_user_datasets(11) == Some(vec![1]));
    let config = store.get_dataset_by_dataset_id(id1).unwrap();
    assert!(config.name == "alpha");
    assert!(config.is_active);
    assert!(config.created_at == 100);
    assert!(store.get_dataset_by_dataset_id(99).is_none());
}

#[test]
fn delete_data_set_removes_config_producers_and_entries() {
    let mut store = Store::new();
    let id = store.create_data_set(11, sample_request("alpha", "first"), 100);
    store.put_entry(11, id, &entry_input(RecordKey::Id(1), 1, "x"), 150);
    store.delete_data_set(id);
    assert!(store.get_dataset_by_dataset_id(id).is_none());
    assert!(store.get_producers(id).is_none());
    assert!(get_data_by_dataset_id(&store, id, None, None).is_empty());
}

#[test]
fn put_entry_prepends_newest_first() {
    let mut store = Store::new();
    store.put_entry(7, 1, &entry_input(RecordKey::Id(1), 1, "first"), 10);
    store.put_entry(7, 1, &entry_input(RecordKey::Id(2), 1, "second"), 20);
    let data = get_data_by_dataset_id(&store, 1, None, None);
    assert!(texts(&data) == vec!["second".to_string(), "first".to_string()]);
    assert!(data[0].created_at == 20);
    assert!(data[0].updated_at == 20);
    assert!(data[0].producer == 7);
}

#[test]
fn put_entry_with_user_key_replaces_that_identitys_entry() {
    let mut store = Store::new();
    store.put_entry(42, 1, &entry_input(RecordKey::User(42), 1, "old"), 10);
    store.put_entry(9, 1, &entry_input(RecordKey::Id(5), 1, "other"), 20);
    store.put_entry(42, 1, &entry_input(RecordKey::User(42), 1, "new"), 30);
    let mine = store.get_user_data_by_dataset_id(42, 1);
    assert!(mine.len() == 1);
    assert!(texts(&mine) == vec!["new".to_string()]);
    let all = get_data_by_dataset_id(&store, 1, None, None);
    assert!(all.len() == 2);
    assert!(texts(&all) == vec!["new".to_string(), "other".to_string()]);
}

#[test]
fn put_entry_with_id_keys_accumulates() {
    let mut store = Store::new();
    store.put_entry(7, 1, &entry_input(RecordKey::Id(1), 1, "a"), 10);
    store.put_entry(7, 1, &entry_input(RecordKey::Id(1), 1, "b"), 20);
    assert!(get_data_by_dataset_id(&store, 1, None, None).len() == 2);
}

#[test]
fn delete_user_entry_removes_exactly_that_identity() {
    let mut store = Store::new();
    store.put_entry(42, 1, &entry_input(RecordKey::User(42), 1, "mine"), 10);
    store.put_entry(9, 1, &entry_input(RecordKey::User(9), 1, "theirs"), 20);
    store.put_entry(9, 1, &entry_input(RecordKey::Id(3), 1, "keyed"), 30);
    store.delete_user_entry(42, 1);
    let rest = get_data_by_dataset_id(&store, 1, None, None);
    assert!(rest.len() == 2);
    assert!(store.get_user_data_by_dataset_id(42, 1).is_empty());
    assert!(store.get_user_data_by_dataset_id(9, 1).len() == 1);
}

#[test]
fn delete_entry_twice_equals_delete_once() {
    let mut store = Store::new();
    store.put_entry(42, 1, &entry_input(RecordKey::User(42), 1, "mine"), 10);
    store.put_entry(9, 1, &entry_input(RecordKey::Id(3), 1, "keyed"), 30);
    store.delete_data_entry(42, 1);
    let once = texts(&get_data_by_dataset_id(&store, 1, None, None));
    store.delete_data_entry(42, 1);
    let twice = texts(&get_data_by_dataset_id(&store, 1, None, None));
    assert!(once == twice);
}

#[test]
fn delete_on_missing_dataset_is_a_no_op() {
    let mut store = Store::new();
    store.put_entry(7, 1, &entry_input(RecordKey::Id(1), 1, "a"), 10);
    store.delete_data_entry(42, 99);
    assert!(get_data_by_dataset_id(&store, 1, None, None).len() == 1);
}

#[test]
fn erasure_sweep_spares_other_identities_in_all_datasets() {
    let mut store = Store::new();
    store.put_entry(42, 1, &entry_input(RecordKey::User(42), 1, "a1"), 10);
    store.put_entry(9, 1, &entry_input(RecordKey::User(9), 1, "b1"), 20);
    store.put_entry(42, 2, &entry_input(RecordKey::User(42), 1, "a2"), 30);
    store.put_entry(9, 2, &entry_input(RecordKey::Id(42), 1, "b2"), 40);
    store.delete_all_entries_of_user(42);
    assert!(store.get_user_data_by_dataset_id(42, 1).is_empty());
    assert!(store.get_user_data_by_dataset_id(42, 2).is_empty());
    assert!(texts(&get_data_by_dataset_id(&store, 1, None, None)) == vec!["b1".to_string()]);
    // a numeric record key equal to the erased identity is not a ByUser key
    assert!(texts(&get_data_by_dataset_id(&store, 2, None, None)) == vec!["b2".to_string()]);
}

#[test]
fn read_projects_to_allowed_dimensions() {
    let mut store = Store::new();
    let input = DatasetEntryInput {
        id: RecordKey::Id(1),
        values: vec![
            DatasetValue { dimension_id: 1, value: Value::Attribute("EU".to_string()) },
            DatasetValue { dimension_id: 2, value: Value::Metric(10) },
            DatasetValue { dimension_id: 3, value: Value::Attribute("x".to_string()) },
        ],
    };
    store.put_entry(7, 1, &input, 10);
    let data = get_data_by_dataset_id(&store, 1, None, Some(vec![1, 3]));
    assert!(data.len() == 1);
    assert!(data[0].values.len() == 2);
    assert!(data[0].values[0].dimension_id == 1);
    assert!(data[0].values[1].dimension_id == 3);
}

#[test]
fn read_sample_takes_the_first_entries_in_stored_order() {
    let mut store = Store::new();
    for k in 0..40u64 {
        store.put_entry(7, 1, &entry_input(RecordKey::Id(k), 1, &k.to_string()), 100 + k);
    }
    let sample = get_dataset_sample(&store, 1);
    assert!(sample.len() == 30);
    // newest first: the last put comes out first
    assert!(texts(&sample)[0] == "39");
    let limited = get_data_by_dataset_id(&store, 1, Some(3), None);
    assert!(texts(&limited) == vec!["39".to_string(), "38".to_string(), "37".to_string()]);
}

#[test]
fn entry_counts_report_zero_for_missing_datasets() {
    let mut store = Store::new();
    store.put_entry(7, 1, &entry_input(RecordKey::Id(1), 1, "a"), 10);
    store.put_entry(7, 1, &entry_input(RecordKey::Id(2), 1, "b"), 20);
    let counts = store.get_dataset_entry_counts(&vec![1, 99]);
    assert!(counts == vec![(1u32, 2usize), (99u32, 0usize)]);
}

#[test]
fn search_dataset_matches_name_or_description() {
    let mut store = Store::new();
    let id1 = store.create_data_set(11, sample_request("weather data", "hourly samples"), 100);
    let id2 = store.create_data_set(11, sample_request("sales", "weather adjusted"), 200);
    let _ = store.create_data_set(11, sample_request("traffic", "city roads"), 300);
    let hits = store.search_dataset(&"weather".to_string());
    assert!(hits == vec![id1, id2]);
    let none = store.search_dataset(&"oceans".to_string());
    assert!(none.is_empty());
}

#[test]
fn producer_list_updates_add_and_remove() {
    let mut store = Store::new();
    let id = store.create_data_set(11, sample_request("alpha", "first"), 100);
    assert!(store.is_dataset_owner(11, id));
    store.update_producer_list(11, id, 33, UpdateMode::Add, 150);
    assert!(store.is_user_producer(33, id));
    store.update_producer_list(11, id, 33, UpdateMode::Remove, 160);
    assert!(!store.is_user_producer(33, id));
    assert!(store.is_user_producer(11, id));
}

#[test]
fn producer_list_queries_cover_membership() {
    let mut store = Store::new();
    let id1 = store.create_data_set(11, sample_request("alpha", "first"), 100);
    let id2 = store.create_data_set(12, sample_request("beta", "second"), 200);
    store.update_producer_list(12, id2, 11, UpdateMode::Add, 250);
    let mine = store.get_datasets_where_user_is_producers(11);
    assert!(mine == vec![id1, id2]);
    let ownerships = store.get_dataset_ownerships();
    assert!(ownerships.len() == 2);
    assert!(ownerships[0] == (11u64, vec![id1]));
    assert!(ownerships[1] == (12u64, vec![id2]));
}

#[test]
fn get_many_datasets_pairs_each_id_with_its_config() {
    let mut store = Store::new();
    let id = store.create_data_set(11, sample_request("alpha", "first"), 100);
    let many = store.get_many_datasets(&vec![id, 77]);
    assert!(many.len() == 2);
    assert!(many[0].0 == id);
    assert!(many[0].1.as_ref().unwrap().name == "alpha");
    assert!(many[1].0 == 77);
    assert!(many[1].1.is_none());
    let all = store.get_all_datasets();
    assert!(all.len() == 1);
    assert!(all[0].0 == id);
}
