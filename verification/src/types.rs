//! Data model: datasets, dimensions, record keys, entries, producers, tokens,
//! queries and analytics results.
//!
//! Caller identities are plain numeric values here; the anonymous caller is
//! the well-known sentinel `ANONYMOUS_IDENTITY`. Types that hold a `Vec` get a
//! ghost model (their `View`) over `Seq`, so that contracts can pin values
//! down exactly.

use vstd::prelude::*;

verus! {

/// A single cell of a record: which dimension it belongs to, and its value.
pub struct DatasetValue {
    pub dimension_id: u8,
    pub value: Value,
}

/// A value is either a summable metric or a groupable attribute.
pub enum Value {
    Metric(u32),
    Attribute(String),
}

/// Identifies an entry either by the submitting identity (at most one entry
/// per identity in a dataset) or by a producer-assigned numeric id (no
/// uniqueness constraint).
#[derive(PartialEq, Eq, Structural, Clone, Copy, Debug)]
pub enum RecordKey {
    User(u64),
    Id(u64),
}

/// A stored record: its key, the producer that submitted it, its cells, and
/// creation / last-update timestamps.
pub struct DatasetEntry {
    pub id: RecordKey,
    pub producer: u64,
    pub values: Vec<DatasetValue>,
    pub created_at: u64,
    pub updated_at: u64,
}

/// What a producer submits: the record key and the cells; timestamps and the
/// producer identity are stamped by the store.
pub struct DatasetEntryInput {
    pub id: RecordKey,
    pub values: Vec<DatasetValue>,
}

/// The type of a dimension.
pub enum DimensionType {
    Numerical,
    Binary,
    Categorical(Vec<String>),
    Freetext,
}

/// A named, typed column of a dataset.
pub struct DatasetDimension {
    pub dimension_id: u8,
    pub title: String,
    pub dimension_type: DimensionType,
}

/// Dataset metadata: name, description, linked asset, dimension schema.
pub struct DatasetConfiguration {
    pub name: String,
    pub description: String,
    pub jupyter_notebook: String,
    pub asset_id: String,
    pub dimensions: Vec<DatasetDimension>,
    pub is_active: bool,
    pub category: String,
    pub created_at: u64,
    pub updated_at: u64,
}

/// The configuration part of a dataset-creation request.
pub struct DatasetConfigurationInput {
    pub name: String,
    pub description: String,
    pub jupyter_notebook: String,
    pub asset_id: String,
    pub dimensions: Vec<DatasetDimension>,
}

/// A dataset-creation request.
pub struct DatasetCreateRequest {
    pub dataset_config: DatasetConfigurationInput,
    pub category: String,
}

/// An identity permitted to submit entries into a dataset.
#[derive(Clone, Copy)]
pub struct ProducerState {
    pub id: u64,
    pub is_enabled: bool,
    pub created_at: u64,
}

/// Whether a list mutation adds or removes.
#[derive(PartialEq, Eq, Structural, Clone, Copy)]
pub enum UpdateMode {
    Add,
    Remove,
}

/// A short-lived credential bound to an identity, letting a delegated caller
/// be resolved to that identity.
pub struct AnalyticsToken {
    pub token: String,
    pub lifetime: u64,
    pub created_at: u64,
    pub expire_at: u64,
}

/// State of a logged query.
#[derive(Clone, Copy)]
pub enum QueryState {
    Pending,
}

/// An analytics request: the dataset, the requested attribute and metric
/// dimensions, and the exclusionary filters.
pub struct QueryInput {
    pub dataset_id: u32,
    pub attributes: Vec<u8>,
    pub metrics: Vec<u8>,
    pub filters: Vec<(u8, Value)>,
}

/// A log record of one authorized analytics query; append-only.
pub struct Query {
    pub timestamp: u64,
    pub user: u64,
    pub query_meta: QueryInput,
    pub query_state: QueryState,
    pub is_gdpr: bool,
    pub gdpr_limit: u32,
}

/// One time bucket of activity: the bucket's start and the member count.
#[derive(PartialEq, Eq, Structural, Clone, Copy, Debug)]
pub struct DateMetrics {
    pub date: u64,
    pub value: u32,
}

/// One entitlement record from the access oracle: the dimension ids the
/// caller may query, and whether privacy suppression applies.
pub struct AccessGrantRecord {
    pub dimension_restrict_list: Vec<u8>,
    pub is_gdpr_enabled: bool,
}

/// One aggregated group: its key, the representative attribute values, the
/// per-metric-dimension sums, and the member count.
pub struct AnalyticsType {
    pub group_key: String,
    pub attributes: Vec<Value>,
    pub metrics: Vec<(u8, u64)>,
    pub count: u32,
}

/// The analytics result: the surviving groups and the five stage sizes
/// (pre-filter, post-filter, post-transform, post-aggregate, post-suppression).
pub struct AnalyticsSuperType {
    pub analytics: Vec<AnalyticsType>,
    pub counts: (u32, u32, u32, u32, u32),
}

// ---------------------------------------------------------------------------
// Equality
// ---------------------------------------------------------------------------

/// Two values are equal when they carry the same tag and the same payload;
/// attribute strings compare by their characters.
pub open spec fn value_eq(a: Value, b: Value) -> bool {
    match (a, b) {
        (Value::Metric(x), Value::Metric(y)) => x == y,
        (Value::Attribute(x), Value::Attribute(y)) => x@ == y@,
        _ => false,
    }
}

impl PartialEq for Value {
    fn eq(&self, other: &Value) -> (r: bool) {
        match (self, other) {
            (Value::Metric(a), Value::Metric(b)) => a == b,
            (Value::Attribute(x), Value::Attribute(y)) => *x == *y,
            _ => false,
        }
    }
}

impl vstd::std_specs::cmp::PartialEqSpecImpl for Value {
    open spec fn obeys_eq_spec() -> bool {
        true
    }

    open spec fn eq_spec(&self, other: &Value) -> bool {
        value_eq(*self, *other)
    }
}

// ---------------------------------------------------------------------------
// Clones
// ---------------------------------------------------------------------------

impl Clone for Value {
    fn clone(&self) -> (res: Value)
        ensures
            res == *self,
    {
        match self {
            Value::Metric(n) => Value::Metric(*n),
            Value::Attribute(s) => Value::Attribute(s.clone()),
        }
    }
}

impl Clone for DatasetValue {
    fn clone(&self) -> (res: DatasetValue)
        ensures
            res == *self,
    {
        DatasetValue { dimension_id: self.dimension_id, value: self.value.clone() }
    }
}

/// Clones a list of cells, element for element.
pub fn clone_values(values: &Vec<DatasetValue>) -> (res: Vec<DatasetValue>)
    ensures
        res@ == values@,
{
    let mut out: Vec<DatasetValue> = Vec::new();
    let mut i: usize = 0;
    while i < values.len()
        invariant
            0 <= i <= values.len(),
            out@ == values@.take(i as int),
        decreases values.len() - i,
    {
        out.push(values[i].clone());
        assert(out@ =~= values@.take(i + 1 as int));
        i = i + 1;
    }
    assert(out@ =~= values@);
    out
}

impl Clone for DatasetEntry {
    fn clone(&self) -> (res: DatasetEntry)
        ensures
            res@ == self@,
    {
        DatasetEntry {
            id: self.id,
            producer: self.producer,
            values: clone_values(&self.values),
            created_at: self.created_at,
            updated_at: self.updated_at,
        }
    }
}

/// Clones a list of strings, element for element.
pub fn clone_strings(xs: &Vec<String>) -> (res: Vec<String>)
    ensures
        res@ == xs@,
{
    let mut out: Vec<String> = Vec::new();
    let mut i: usize = 0;
    while i < xs.len()
        invariant
            0 <= i <= xs.len(),
            out@ == xs@.take(i as int),
        decreases xs.len() - i,
    {
        out.push(xs[i].clone());
        assert(out@ =~= xs@.take(i + 1 as int));
        i = i + 1;
    }
    assert(out@ =~= xs@);
    out
}

/// Clones a list of dimension ids.
pub fn clone_dims(xs: &Vec<u8>) -> (res: Vec<u8>)
    ensures
        res@ == xs@,
{
    let mut out: Vec<u8> = Vec::new();
    let mut i: usize = 0;
    while i < xs.len()
        invariant
            0 <= i <= xs.len(),
            out@ == xs@.take(i as int),
        decreases xs.len() - i,
    {
        out.push(xs[i]);
        assert(out@ =~= xs@.take(i + 1 as int));
        i = i + 1;
    }
    assert(out@ =~= xs@);
    out
}

/// Clones a list of dataset ids.
pub fn clone_ids(xs: &Vec<u32>) -> (res: Vec<u32>)
    ensures
        res@ == xs@,
{
    let mut out: Vec<u32> = Vec::new();
    let mut i: usize = 0;
    while i < xs.len()
        invariant
            0 <= i <= xs.len(),
            out@ == xs@.take(i as int),
        decreases xs.len() - i,
    {
        out.push(xs[i]);
        assert(out@ =~= xs@.take(i + 1 as int));
        i = i + 1;
    }
    assert(out@ =~= xs@);
    out
}

/// Clones a list of filter pairs, element for element.
pub fn clone_filters(xs: &Vec<(u8, Value)>) -> (res: Vec<(u8, Value)>)
    ensures
        res@ == xs@,
{
    let mut out: Vec<(u8, Value)> = Vec::new();
    let mut i: usize = 0;
    while i < xs.len()
        invariant
            0 <= i <= xs.len(),
            out@ == xs@.take(i as int),
        decreases xs.len() - i,
    {
        let p = &xs[i];
        out.push((p.0, p.1.clone()));
        assert(out@ =~= xs@.take(i + 1 as int));
        i = i + 1;
    }
    assert(out@ =~= xs@);
    out
}

impl Clone for DimensionType {
    fn clone(&self) -> (res: DimensionType)
        ensures
            res@ == self@,
    {
        match self {
            DimensionType::Numerical => DimensionType::Numerical,
            DimensionType::Binary => DimensionType::Binary,
            DimensionType::Categorical(labels) => DimensionType::Categorical(
                clone_strings(labels),
            ),
            DimensionType::Freetext => DimensionType::Freetext,
        }
    }
}

impl Clone for DatasetDimension {
    fn clone(&self) -> (res: DatasetDimension)
        ensures
            res@ == self@,
    {
        DatasetDimension {
            dimension_id: self.dimension_id,
            title: self.title.clone(),
            dimension_type: self.dimension_type.clone(),
        }
    }
}

/// Clones a dimension schema, element for element.
pub fn clone_dimensions(xs: &Vec<DatasetDimension>) -> (res: Vec<DatasetDimension>)
    ensures
        res@.map_values(|d: DatasetDimension| d@) == xs@.map_values(|d: DatasetDimension| d@),
{
    let mut out: Vec<DatasetDimension> = Vec::new();
    let mut i: usize = 0;
    while i < xs.len()
        invariant
            0 <= i <= xs.len(),
            out@.map_values(|d: DatasetDimension| d@) == xs@.take(i as int).map_values(
                |d: DatasetDimension| d@,
            ),
        decreases xs.len() - i,
    {
        let ghost pre = out@;
        let cl = xs[i].clone();
        let ghost clv = cl@;
        out.push(cl);
        proof {
            assert(out@.map_values(|d: DatasetDimension| d@) =~= pre.map_values(
                |d: DatasetDimension| d@,
            ).push(clv));
            assert(xs@.take(i + 1 as int) =~= xs@.take(i as int).push(xs@[i as int]));
            assert(xs@.take(i + 1 as int).map_values(|d: DatasetDimension| d@) =~= xs@.take(
                i as int,
            ).map_values(|d: DatasetDimension| d@).push(xs@[i as int]@));
            assert(out@.map_values(|d: DatasetDimension| d@) =~= xs@.take(i + 1 as int).map_values(
                |d: DatasetDimension| d@,
            ));
        }
        i = i + 1;
    }
    assert(xs@.take(xs@.len() as int) =~= xs@);
    out
}

impl Clone for DatasetConfiguration {
    fn clone(&self) -> (res: DatasetConfiguration)
        ensures
            res@ == self@,
    {
        DatasetConfiguration {
            name: self.name.clone(),
            description: self.description.clone(),
            jupyter_notebook: self.jupyter_notebook.clone(),
            asset_id: self.asset_id.clone(),
            dimensions: clone_dimensions(&self.dimensions),
            is_active: self.is_active,
            category: self.category.clone(),
            created_at: self.created_at,
            updated_at: self.updated_at,
        }
    }
}

/// Clones a list of values, element for element.
pub fn clone_value_list(xs: &Vec<Value>) -> (res: Vec<Value>)
    ensures
        res@ == xs@,
{
    let mut out: Vec<Value> = Vec::new();
    let mut i: usize = 0;
    while i < xs.len()
        invariant
            0 <= i <= xs.len(),
            out@ == xs@.take(i as int),
        decreases xs.len() - i,
    {
        out.push(xs[i].clone());
        assert(out@ =~= xs@.take(i + 1 as int));
        i = i + 1;
    }
    assert(out@ =~= xs@);
    out
}

/// Clones a list of per-dimension sums.
pub fn clone_metric_sums(xs: &Vec<(u8, u64)>) -> (res: Vec<(u8, u64)>)
    ensures
        res@ == xs@,
{
    let mut out: Vec<(u8, u64)> = Vec::new();
    let mut i: usize = 0;
    while i < xs.len()
        invariant
            0 <= i <= xs.len(),
            out@ == xs@.take(i as int),
        decreases xs.len() - i,
    {
        out.push(xs[i]);
        assert(out@ =~= xs@.take(i + 1 as int));
        i = i + 1;
    }
    assert(out@ =~= xs@);
    out
}

impl Clone for AnalyticsType {
    fn clone(&self) -> (res: AnalyticsType)
        ensures
            res@ == self@,
    {
        AnalyticsType {
            group_key: self.group_key.clone(),
            attributes: clone_value_list(&self.attributes),
            metrics: clone_metric_sums(&self.metrics),
            count: self.count,
        }
    }
}

impl Clone for QueryInput {
    fn clone(&self) -> (res: QueryInput)
        ensures
            res@ == self@,
    {
        QueryInput {
            dataset_id: self.dataset_id,
            attributes: clone_dims(&self.attributes),
            metrics: clone_dims(&self.metrics),
            filters: clone_filters(&self.filters),
        }
    }
}

// ---------------------------------------------------------------------------
// Ghost models (views)
// ---------------------------------------------------------------------------

/// Model of a stored entry: the cell list as a `Seq`.
#[verifier::ext_equal]
pub ghost struct EntryModel {
    pub id: RecordKey,
    pub producer: u64,
    pub values: Seq<DatasetValue>,
    pub created_at: u64,
    pub updated_at: u64,
}

impl View for DatasetEntry {
    type V = EntryModel;

    open spec fn view(&self) -> EntryModel {
        EntryModel {
            id: self.id,
            producer: self.producer,
            values: self.values@,
            created_at: self.created_at,
            updated_at: self.updated_at,
        }
    }
}

/// Model of an entry input.
#[verifier::ext_equal]
pub ghost struct EntryInputModel {
    pub id: RecordKey,
    pub values: Seq<DatasetValue>,
}

impl View for DatasetEntryInput {
    type V = EntryInputModel;

    open spec fn view(&self) -> EntryInputModel {
        EntryInputModel { id: self.id, values: self.values@ }
    }
}

/// Model of a dimension type: categorical labels as a `Seq`.
pub ghost enum DimensionTypeModel {
    Numerical,
    Binary,
    Categorical(Seq<String>),
    Freetext,
}

impl View for DimensionType {
    type V = DimensionTypeModel;

    open spec fn view(&self) -> DimensionTypeModel {
        match self {
            DimensionType::Numerical => DimensionTypeModel::Numerical,
            DimensionType::Binary => DimensionTypeModel::Binary,
            DimensionType::Categorical(labels) => DimensionTypeModel::Categorical(labels@),
            DimensionType::Freetext => DimensionTypeModel::Freetext,
        }
    }
}

/// Model of a dimension.
pub ghost struct DimensionModel {
    pub dimension_id: u8,
    pub title: String,
    pub dimension_type: DimensionTypeModel,
}

impl View for DatasetDimension {
    type V = DimensionModel;

    open spec fn view(&self) -> DimensionModel {
        DimensionModel {
            dimension_id: self.dimension_id,
            title: self.title,
            dimension_type: self.dimension_type@,
        }
    }
}

/// Model of a dataset configuration.
#[verifier::ext_equal]
pub ghost struct ConfigModel {
    pub name: String,
    pub description: String,
    pub jupyter_notebook: String,
    pub asset_id: String,
    pub dimensions: Seq<DimensionModel>,
    pub is_active: bool,
    pub category: String,
    pub created_at: u64,
    pub updated_at: u64,
}

impl View for DatasetConfiguration {
    type V = ConfigModel;

    open spec fn view(&self) -> ConfigModel {
        ConfigModel {
            name: self.name,
            description: self.description,
            jupyter_notebook: self.jupyter_notebook,
            asset_id: self.asset_id,
            dimensions: self.dimensions@.map_values(|d: DatasetDimension| d@),
            is_active: self.is_active,
            category: self.category,
            created_at: self.created_at,
            updated_at: self.updated_at,
        }
    }
}

/// Model of the configuration part of a creation request.
pub ghost struct ConfigInputModel {
    pub name: String,
    pub description: String,
    pub jupyter_notebook: String,
    pub asset_id: String,
    pub dimensions: Seq<DimensionModel>,
}

impl View for DatasetConfigurationInput {
    type V = ConfigInputModel;

    open spec fn view(&self) -> ConfigInputModel {
        ConfigInputModel {
            name: self.name,
            description: self.description,
            jupyter_notebook: self.jupyter_notebook,
            asset_id: self.asset_id,
            dimensions: self.dimensions@.map_values(|d: DatasetDimension| d@),
        }
    }
}

/// Model of a dataset-creation request.
pub ghost struct CreateRequestModel {
    pub dataset_config: ConfigInputModel,
    pub category: String,
}

impl View for DatasetCreateRequest {
    type V = CreateRequestModel;

    open spec fn view(&self) -> CreateRequestModel {
        CreateRequestModel { dataset_config: self.dataset_config@, category: self.category }
    }
}

/// Model of an analytics request.
#[verifier::ext_equal]
pub ghost struct QueryInputModel {
    pub dataset_id: u32,
    pub attributes: Seq<u8>,
    pub metrics: Seq<u8>,
    pub filters: Seq<(u8, Value)>,
}

impl View for QueryInput {
    type V = QueryInputModel;

    open spec fn view(&self) -> QueryInputModel {
        QueryInputModel {
            dataset_id: self.dataset_id,
            attributes: self.attributes@,
            metrics: self.metrics@,
            filters: self.filters@,
        }
    }
}

/// Model of a logged query.
#[verifier::ext_equal]
pub ghost struct QueryModel {
    pub timestamp: u64,
    pub user: u64,
    pub query_meta: QueryInputModel,
    pub query_state: QueryState,
    pub is_gdpr: bool,
    pub gdpr_limit: u32,
}

impl View for Query {
    type V = QueryModel;

    open spec fn view(&self) -> QueryModel {
        QueryModel {
            timestamp: self.timestamp,
            user: self.user,
            query_meta: self.query_meta@,
            query_state: self.query_state,
            is_gdpr: self.is_gdpr,
            gdpr_limit: self.gdpr_limit,
        }
    }
}

/// Model of one aggregated group.
#[verifier::ext_equal]
pub ghost struct GroupModel {
    pub group_key: Seq<char>,
    pub attributes: Seq<Value>,
    pub metrics: Seq<(u8, u64)>,
    pub count: u32,
}

impl View for AnalyticsType {
    type V = GroupModel;

    open spec fn view(&self) -> GroupModel {
        GroupModel {
            group_key: self.group_key@,
            attributes: self.attributes@,
            metrics: self.metrics@,
            count: self.count,
        }
    }
}

/// Model of the analytics result.
#[verifier::ext_equal]
pub ghost struct AnalyticsResultModel {
    pub analytics: Seq<GroupModel>,
    pub counts: (u32, u32, u32, u32, u32),
}

impl View for AnalyticsSuperType {
    type V = AnalyticsResultModel;

    open spec fn view(&self) -> AnalyticsResultModel {
        AnalyticsResultModel {
            analytics: self.analytics@.map_values(|g: AnalyticsType| g@),
            counts: self.counts,
        }
    }
}

/// Model of one entitlement record.
pub ghost struct AccessGrantModel {
    pub dimension_restrict_list: Seq<u8>,
    pub is_gdpr_enabled: bool,
}

impl View for AccessGrantRecord {
    type V = AccessGrantModel;

    open spec fn view(&self) -> AccessGrantModel {
        AccessGrantModel {
            dimension_restrict_list: self.dimension_restrict_list@,
            is_gdpr_enabled: self.is_gdpr_enabled,
        }
    }
}

} // verus!
