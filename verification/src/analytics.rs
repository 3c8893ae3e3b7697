//! The aggregation pipeline: filter, transform, group-and-aggregate, and
//! privacy suppression, with the five stage sizes the caller audits.
//!
//! The pipeline is a pure function of the dataset's entry collection. Groups
//! are keyed by the attribute labels joined with `--`, held in ascending
//! lexicographic key order; for each group the first record's attribute list
//! is kept, metric values are summed per requested metric dimension
//! (saturating at the counter's maximum), and members are counted.

use vstd::prelude::*;
use crate::seqs::{lemma_take_push, lemma_filter_push, contains_dim, spec_get, lemma_spec_get_at,
    lemma_spec_get_none};
use crate::store::{Store, find_u32_key, entries_view};
use crate::text::{lex_lt, join_labels, str_lt, join_label_string};
use crate::types::{
    AnalyticsType, AnalyticsSuperType, AnalyticsResultModel, DatasetEntry, DatasetValue,
    EntryModel, GroupModel, Value, value_eq, clone_value_list,
};

verus! {

/// A record matches the exclusionary filters when any of its cells equals any
/// filter pair, dimension and value both.
pub open spec fn entry_matches_filters(e: EntryModel, filters: Seq<(u8, Value)>) -> bool {
    exists|i: int, j: int|
        0 <= i < filters.len() && 0 <= j < e.values.len() && (#[trigger] filters[i]).0 == (
        #[trigger] e.values[j]).dimension_id && value_eq(filters[i].1, e.values[j].value)
}

/// Stage one: drop every record that matches any filter pair.
pub open spec fn filter_stage(s: Seq<EntryModel>, filters: Seq<(u8, Value)>) -> Seq<EntryModel> {
    s.filter(|e: EntryModel| !entry_matches_filters(e, filters))
}

/// The record's values under the requested attribute dimensions, in stored
/// order.
pub open spec fn attr_values(vals: Seq<DatasetValue>, atts: Seq<u8>) -> Seq<Value> {
    vals.filter(|v: DatasetValue| atts.contains(v.dimension_id)).map_values(
        |v: DatasetValue| v.value,
    )
}

/// A transformed record: its group key, its attribute values, and its cells
/// under the requested metric dimensions.
#[verifier::ext_equal]
pub ghost struct PrepModel {
    pub key: Seq<char>,
    pub att: Seq<Value>,
    pub met: Seq<DatasetValue>,
}

/// Stage two, for one record.
pub open spec fn prep_of(e: EntryModel, atts: Seq<u8>, mets: Seq<u8>) -> PrepModel {
    PrepModel {
        key: join_labels(attr_values(e.values, atts)),
        att: attr_values(e.values, atts),
        met: e.values.filter(|v: DatasetValue| mets.contains(v.dimension_id)),
    }
}

/// Stage two: transform every surviving record.
pub open spec fn transform_stage(s: Seq<EntryModel>, atts: Seq<u8>, mets: Seq<u8>) -> Seq<
    PrepModel,
> {
    s.map_values(|e: EntryModel| prep_of(e, atts, mets))
}

/// Addition capped at the metric counter's maximum.
pub open spec fn sat_add(a: nat, b: nat) -> nat {
    if a + b > u64::MAX {
        u64::MAX as nat
    } else {
        a + b
    }
}

/// What one cell contributes to a metric dimension: its value when it is a
/// metric under that dimension, zero otherwise.
pub open spec fn value_contrib(v: DatasetValue, m: u8) -> nat {
    if v.dimension_id == m {
        match v.value {
            Value::Metric(x) => x as nat,
            Value::Attribute(_) => 0,
        }
    } else {
        0
    }
}

/// What one record contributes to a metric dimension: the capped sum of its
/// cells' contributions.
pub open spec fn metric_contrib(vals: Seq<DatasetValue>, m: u8) -> nat
    decreases vals.len(),
{
    if vals.len() == 0 {
        0
    } else {
        sat_add(metric_contrib(vals.drop_last(), m), value_contrib(vals.last(), m))
    }
}

/// A record's contribution never exceeds the counter's maximum.
pub proof fn lemma_metric_contrib_bound(vals: Seq<DatasetValue>, m: u8)
    ensures
        metric_contrib(vals, m) <= u64::MAX,
{
    if vals.len() > 0 {
        assert(metric_contrib(vals, m) == sat_add(
            metric_contrib(vals.drop_last(), m),
            value_contrib(vals.last(), m),
        ));
    }
}

/// The group a record opens: count one, the record's attributes, and its own
/// contributions.
pub open spec fn new_group(p: PrepModel, mets: Seq<u8>) -> GroupModel {
    GroupModel {
        group_key: p.key,
        attributes: p.att,
        metrics: Seq::new(mets.len(), |i: int| (mets[i], metric_contrib(p.met, mets[i]) as u64)),
        count: 1,
    }
}

/// A record folded into its group: the count rises by one, each metric sum
/// takes the record's contribution; key and attributes stay.
pub open spec fn merge_group(g: GroupModel, p: PrepModel, mets: Seq<u8>) -> GroupModel {
    GroupModel {
        group_key: g.group_key,
        attributes: g.attributes,
        metrics: Seq::new(
            mets.len(),
            |i: int| (mets[i], sat_add(g.metrics[i].1 as nat, metric_contrib(p.met, mets[i])) as u64),
        ),
        count: if g.count < u32::MAX {
            (g.count + 1) as u32
        } else {
            u32::MAX
        },
    }
}

/// One record entered into the key-ordered group list: it opens a new group
/// at its key's place, or folds into the group already keyed equally.
pub open spec fn insert_group(gs: Seq<GroupModel>, p: PrepModel, mets: Seq<u8>) -> Seq<GroupModel>
    decreases gs.len(),
{
    if gs.len() == 0 {
        seq![new_group(p, mets)]
    } else if lex_lt(gs[0].group_key, p.key) {
        seq![gs[0]] + insert_group(gs.drop_first(), p, mets)
    } else if lex_lt(p.key, gs[0].group_key) {
        seq![new_group(p, mets)] + gs
    } else {
        seq![merge_group(gs[0], p, mets)] + gs.drop_first()
    }
}

/// Stage three: every transformed record entered in order.
pub open spec fn groups_of(preps: Seq<PrepModel>, mets: Seq<u8>) -> Seq<GroupModel>
    decreases preps.len(),
{
    if preps.len() == 0 {
        Seq::<GroupModel>::empty()
    } else {
        insert_group(groups_of(preps.drop_last(), mets), preps.last(), mets)
    }
}

/// Stage four: with suppression on and a positive threshold, only groups
/// whose member count strictly exceeds the threshold survive.
pub open spec fn suppress_stage(gs: Seq<GroupModel>, is_gdpr: bool, gdpr_limit: u32) -> Seq<
    GroupModel,
> {
    if is_gdpr && gdpr_limit > 0 {
        gs.filter(|g: GroupModel| g.count > gdpr_limit)
    } else {
        gs
    }
}

/// The whole pipeline over a dataset's entry collection: the surviving groups
/// and the five stage sizes; a missing collection yields no groups and
/// all-zero sizes.
pub open spec fn analytics_model(
    coll: Option<Seq<EntryModel>>,
    atts: Seq<u8>,
    mets: Seq<u8>,
    filters: Seq<(u8, Value)>,
    is_gdpr: bool,
    gdpr_limit: u32,
) -> AnalyticsResultModel {
    match coll {
        Some(s0) => {
            let s1 = filter_stage(s0, filters);
            let preps = transform_stage(s1, atts, mets);
            let gs = groups_of(preps, mets);
            let kept = suppress_stage(gs, is_gdpr, gdpr_limit);
            AnalyticsResultModel {
                analytics: kept,
                counts: (
                    s0.len() as u32,
                    s1.len() as u32,
                    preps.len() as u32,
                    gs.len() as u32,
                    kept.len() as u32,
                ),
            }
        },
        None => AnalyticsResultModel {
            analytics: Seq::<GroupModel>::empty(),
            counts: (0u32, 0u32, 0u32, 0u32, 0u32),
        },
    }
}

/// Entering a record at the position its key selects — the first position
/// whose group key is not below the record's — is what `insert_group` does.
pub proof fn lemma_insert_group_at(gs: Seq<GroupModel>, p: PrepModel, mets: Seq<u8>, j: int)
    requires
        0 <= j <= gs.len(),
        forall|q: int| 0 <= q < j ==> lex_lt((#[trigger] gs[q]).group_key, p.key),
        j < gs.len() ==> !lex_lt(gs[j].group_key, p.key),
    ensures
        insert_group(gs, p, mets) == (if j < gs.len() && !lex_lt(p.key, gs[j].group_key) {
            gs.update(j, merge_group(gs[j], p, mets))
        } else {
            gs.insert(j, new_group(p, mets))
        }),
    decreases j,
{
    if j == 0 {
        if gs.len() == 0 {
            assert(insert_group(gs, p, mets) =~= gs.insert(0, new_group(p, mets)));
        } else if !lex_lt(p.key, gs[0].group_key) {
            assert(insert_group(gs, p, mets) == seq![merge_group(gs[0], p, mets)]
                + gs.drop_first());
            assert(insert_group(gs, p, mets) =~= gs.update(0, merge_group(gs[0], p, mets)));
        } else {
            assert(insert_group(gs, p, mets) == seq![new_group(p, mets)] + gs);
            assert(insert_group(gs, p, mets) =~= gs.insert(0, new_group(p, mets)));
        }
    } else {
        assert(lex_lt(gs[0].group_key, p.key));
        let t = gs.drop_first();
        assert forall|q: int| 0 <= q < j - 1 implies lex_lt((#[trigger] t[q]).group_key, p.key) by {
            assert(t[q] == gs[q + 1]);
        }
        assert(j - 1 < t.len() ==> t[j - 1] == gs[j]);
        lemma_insert_group_at(t, p, mets, j - 1);
        assert(insert_group(gs, p, mets) == seq![gs[0]] + insert_group(t, p, mets));
        if j < gs.len() && !lex_lt(p.key, gs[j].group_key) {
            assert(insert_group(t, p, mets) == t.update(j - 1, merge_group(t[j - 1], p, mets)));
            assert(insert_group(gs, p, mets) =~= gs.update(j, merge_group(gs[j], p, mets)));
        } else {
            assert(insert_group(t, p, mets) == t.insert(j - 1, new_group(p, mets)));
            assert(insert_group(gs, p, mets) =~= gs.insert(j, new_group(p, mets)));
        }
    }
}

/// Entering one record raises no group's count beyond the old bound plus one.
pub proof fn lemma_insert_count_bound(gs: Seq<GroupModel>, p: PrepModel, mets: Seq<u8>, b: nat)
    requires
        forall|q: int| 0 <= q < gs.len() ==> (#[trigger] gs[q]).count <= b,
    ensures
        forall|q: int|
            0 <= q < insert_group(gs, p, mets).len() ==> (#[trigger] insert_group(gs, p, mets)[q]).count
                <= b + 1,
    decreases gs.len(),
{
    let r = insert_group(gs, p, mets);
    if gs.len() == 0 {
    } else if lex_lt(gs[0].group_key, p.key) {
        let t = gs.drop_first();
        assert forall|q: int| 0 <= q < t.len() implies (#[trigger] t[q]).count <= b by {
            assert(t[q] == gs[q + 1]);
        }
        lemma_insert_count_bound(t, p, mets, b);
        assert forall|q: int| 0 <= q < r.len() implies (#[trigger] r[q]).count <= b + 1 by {
            if q > 0 {
                assert(r[q] == insert_group(t, p, mets)[q - 1]);
            }
        }
    } else if lex_lt(p.key, gs[0].group_key) {
        assert forall|q: int| 0 <= q < r.len() implies (#[trigger] r[q]).count <= b + 1 by {
            if q > 0 {
                assert(r[q] == gs[q - 1]);
            }
        }
    } else {
        assert forall|q: int| 0 <= q < r.len() implies (#[trigger] r[q]).count <= b + 1 by {
            if q > 0 {
                assert(r[q] == gs[q]);
            }
        }
    }
}

/// No group ever counts more members than there are records.
pub proof fn lemma_groups_count_bound(preps: Seq<PrepModel>, mets: Seq<u8>)
    ensures
        forall|q: int|
            0 <= q < groups_of(preps, mets).len() ==> (#[trigger] groups_of(preps, mets)[q]).count
                <= preps.len(),
    decreases preps.len(),
{
    if preps.len() > 0 {
        lemma_groups_count_bound(preps.drop_last(), mets);
        lemma_insert_count_bound(
            groups_of(preps.drop_last(), mets),
            preps.last(),
            mets,
            preps.drop_last().len(),
        );
    }
}

/// Entering one record grows the group list by at most one.
pub proof fn lemma_insert_len(gs: Seq<GroupModel>, p: PrepModel, mets: Seq<u8>)
    ensures
        gs.len() <= insert_group(gs, p, mets).len() <= gs.len() + 1,
    decreases gs.len(),
{
    if gs.len() == 0 {
    } else if lex_lt(gs[0].group_key, p.key) {
        lemma_insert_len(gs.drop_first(), p, mets);
    }
}

/// There are never more groups than records.
pub proof fn lemma_groups_len(preps: Seq<PrepModel>, mets: Seq<u8>)
    ensures
        groups_of(preps, mets).len() <= preps.len(),
    decreases preps.len(),
{
    if preps.len() > 0 {
        lemma_groups_len(preps.drop_last(), mets);
        lemma_insert_len(groups_of(preps.drop_last(), mets), preps.last(), mets);
    }
}

/// The group keys stand in strictly ascending order.
pub open spec fn groups_sorted(gs: Seq<GroupModel>) -> bool {
    forall|i: int, j: int|
        0 <= i < j < gs.len() ==> lex_lt((#[trigger] gs[i]).group_key, (#[trigger] gs[j]).group_key)
}

/// Every key after an insert is the record's own key or one of the old keys.
proof fn lemma_insert_keys(gs: Seq<GroupModel>, p: PrepModel, mets: Seq<u8>)
    ensures
        forall|q: int|
            0 <= q < insert_group(gs, p, mets).len() ==> (#[trigger] insert_group(
                gs,
                p,
                mets,
            )[q]).group_key == p.key || (exists|w: int|
                0 <= w < gs.len() && insert_group(gs, p, mets)[q].group_key == (
                #[trigger] gs[w]).group_key),
    decreases gs.len(),
{
    let r = insert_group(gs, p, mets);
    if gs.len() == 0 {
    } else if lex_lt(gs[0].group_key, p.key) {
        let t = gs.drop_first();
        lemma_insert_keys(t, p, mets);
        assert forall|q: int| 0 <= q < r.len() implies (#[trigger] r[q]).group_key == p.key || (
        exists|w: int| 0 <= w < gs.len() && r[q].group_key == (#[trigger] gs[w]).group_key) by {
            if q == 0 {
                assert(r[0].group_key == gs[0].group_key);
            } else {
                assert(r[q] == insert_group(t, p, mets)[q - 1]);
                if insert_group(t, p, mets)[q - 1].group_key != p.key {
                    let w = choose|w: int|
                        0 <= w < t.len() && insert_group(t, p, mets)[q - 1].group_key == (
                        #[trigger] t[w]).group_key;
                    assert(t[w] == gs[w + 1]);
                    assert(r[q].group_key == gs[w + 1].group_key);
                }
            }
        }
    } else if lex_lt(p.key, gs[0].group_key) {
        assert forall|q: int| 0 <= q < r.len() implies (#[trigger] r[q]).group_key == p.key || (
        exists|w: int| 0 <= w < gs.len() && r[q].group_key == (#[trigger] gs[w]).group_key) by {
            if q > 0 {
                assert(r[q] == gs[q - 1]);
            }
        }
    } else {
        assert forall|q: int| 0 <= q < r.len() implies (#[trigger] r[q]).group_key == p.key || (
        exists|w: int| 0 <= w < gs.len() && r[q].group_key == (#[trigger] gs[w]).group_key) by {
            if q == 0 {
                assert(r[0].group_key == gs[0].group_key);
            } else {
                assert(r[q] == gs[q]);
            }
        }
    }
}

/// Entering a record keeps the group keys strictly ascending.
proof fn lemma_insert_sorted(gs: Seq<GroupModel>, p: PrepModel, mets: Seq<u8>)
    requires
        groups_sorted(gs),
    ensures
        groups_sorted(insert_group(gs, p, mets)),
    decreases gs.len(),
{
    let r = insert_group(gs, p, mets);
    if gs.len() == 0 {
    } else if lex_lt(gs[0].group_key, p.key) {
        let t = gs.drop_first();
        assert forall|i: int, j: int| 0 <= i < j < t.len() implies lex_lt(
            (#[trigger] t[i]).group_key,
            (#[trigger] t[j]).group_key,
        ) by {
            assert(t[i] == gs[i + 1]);
            assert(t[j] == gs[j + 1]);
        }
        lemma_insert_sorted(t, p, mets);
        lemma_insert_keys(t, p, mets);
        let rt = insert_group(t, p, mets);
        assert forall|i: int, j: int| 0 <= i < j < r.len() implies lex_lt(
            (#[trigger] r[i]).group_key,
            (#[trigger] r[j]).group_key,
        ) by {
            if i == 0 {
                assert(r[j] == rt[j - 1]);
                if rt[j - 1].group_key == p.key {
                } else {
                    let w = choose|w: int|
                        0 <= w < t.len() && rt[j - 1].group_key == (#[trigger] t[w]).group_key;
                    assert(t[w] == gs[w + 1]);
                    assert(lex_lt(gs[0].group_key, gs[w + 1].group_key));
                }
            } else {
                assert(r[i] == rt[i - 1]);
                assert(r[j] == rt[j - 1]);
            }
        }
    } else if lex_lt(p.key, gs[0].group_key) {
        assert forall|i: int, j: int| 0 <= i < j < r.len() implies lex_lt(
            (#[trigger] r[i]).group_key,
            (#[trigger] r[j]).group_key,
        ) by {
            if i == 0 {
                assert(r[j] == gs[j - 1]);
                if j > 1 {
                    crate::text::lemma_lex_transitive(
                        p.key,
                        gs[0].group_key,
                        gs[j - 1].group_key,
                    );
                }
            } else {
                assert(r[i] == gs[i - 1]);
                assert(r[j] == gs[j - 1]);
            }
        }
    } else {
        assert forall|i: int, j: int| 0 <= i < j < r.len() implies lex_lt(
            (#[trigger] r[i]).group_key,
            (#[trigger] r[j]).group_key,
        ) by {
            assert(r[0].group_key == gs[0].group_key);
            if i > 0 {
                assert(r[i] == gs[i]);
            }
            assert(r[j] == gs[j]);
        }
    }
}

/// One group per key: the pipeline's groups come out with strictly ascending,
/// pairwise distinct keys.
pub proof fn lemma_groups_sorted_distinct(preps: Seq<PrepModel>, mets: Seq<u8>)
    ensures
        groups_sorted(groups_of(preps, mets)),
        forall|i: int, j: int|
            0 <= i < j < groups_of(preps, mets).len() ==> (#[trigger] groups_of(
                preps,
                mets,
            )[i]).group_key != (#[trigger] groups_of(preps, mets)[j]).group_key,
    decreases preps.len(),
{
    let gs = groups_of(preps, mets);
    if preps.len() > 0 {
        lemma_groups_sorted_distinct(preps.drop_last(), mets);
        lemma_insert_sorted(groups_of(preps.drop_last(), mets), preps.last(), mets);
    }
    assert forall|i: int, j: int| 0 <= i < j < gs.len() implies (#[trigger] gs[i]).group_key != (
    #[trigger] gs[j]).group_key by {
        crate::text::lemma_lex_irreflexive(gs[i].group_key);
    }
}

/// Aggregation determinism: the pipeline is a pure function of the stored
/// entries and the query selection — two results computed from the same
/// collection, selection, filters and suppression setting are equal.
pub proof fn lemma_analytics_deterministic(
    coll: Option<Seq<EntryModel>>,
    atts: Seq<u8>,
    mets: Seq<u8>,
    filters: Seq<(u8, Value)>,
    is_gdpr: bool,
    gdpr_limit: u32,
    r1: AnalyticsResultModel,
    r2: AnalyticsResultModel,
)
    requires
        r1 == analytics_model(coll, atts, mets, filters, is_gdpr, gdpr_limit),
        r2 == analytics_model(coll, atts, mets, filters, is_gdpr, gdpr_limit),
    ensures
        r1 == r2,
{
}

/// Suppression monotonicity: raising the threshold never increases the number
/// of surviving groups; when the collection is within the counter's range,
/// the post-suppression stage size is non-increasing as well.
pub proof fn lemma_suppression_monotone(
    coll: Option<Seq<EntryModel>>,
    atts: Seq<u8>,
    mets: Seq<u8>,
    filters: Seq<(u8, Value)>,
    is_gdpr: bool,
    t1: u32,
    t2: u32,
)
    requires
        t1 <= t2,
    ensures
        analytics_model(coll, atts, mets, filters, is_gdpr, t2).analytics.len()
            <= analytics_model(coll, atts, mets, filters, is_gdpr, t1).analytics.len(),
        (match coll {
            Some(s0) => s0.len() <= u32::MAX,
            None => true,
        }) ==> analytics_model(coll, atts, mets, filters, is_gdpr, t2).counts.4 <= analytics_model(
            coll,
            atts,
            mets,
            filters,
            is_gdpr,
            t1,
        ).counts.4,
{
    match coll {
        Some(s0) => {
            let s1 = filter_stage(s0, filters);
            let preps = transform_stage(s1, atts, mets);
            let gs = groups_of(preps, mets);
            let p1 = |g: GroupModel| g.count > t1;
            let p2 = |g: GroupModel| g.count > t2;
            s0.lemma_filter_len(|e: EntryModel| !entry_matches_filters(e, filters));
            lemma_groups_len(preps, mets);
            if is_gdpr && t2 > 0 {
                if t1 > 0 {
                    crate::seqs::lemma_filter_len_monotone(gs, p2, p1);
                } else {
                    gs.lemma_filter_len(p2);
                }
            }
        },
        None => {},
    }
}

/// Tests whether a record matches any of the exclusionary filter pairs.
fn entry_matches(e: &DatasetEntry, filters: &Vec<(u8, Value)>) -> (r: bool)
    ensures
        r == entry_matches_filters(e@, filters@),
{
    let mut found = false;
    let mut i: usize = 0;
    while i < filters.len()
        invariant
            0 <= i <= filters@.len(),
            found ==> entry_matches_filters(e@, filters@),
            !found ==> forall|i2: int, j2: int|
                0 <= i2 < i && 0 <= j2 < e@.values.len() ==> !((#[trigger] filters@[i2]).0 == (
                #[trigger] e@.values[j2]).dimension_id && value_eq(
                    filters@[i2].1,
                    e@.values[j2].value,
                )),
        decreases filters@.len() - i,
    {
        let f = &filters[i];
        let mut j: usize = 0;
        while j < e.values.len()
            invariant
                0 <= j <= e@.values.len(),
                i < filters@.len(),
                f == &filters@[i as int],
                found ==> entry_matches_filters(e@, filters@),
                !found ==> forall|i2: int, j2: int|
                    0 <= i2 < i && 0 <= j2 < e@.values.len() ==> !((#[trigger] filters@[i2]).0 == (
                    #[trigger] e@.values[j2]).dimension_id && value_eq(
                        filters@[i2].1,
                        e@.values[j2].value,
                    )),
                !found ==> forall|j2: int|
                    0 <= j2 < j ==> !(filters@[i as int].0 == (
                    #[trigger] e@.values[j2]).dimension_id && value_eq(
                        filters@[i as int].1,
                        e@.values[j2].value,
                    )),
            decreases e@.values.len() - j,
        {
            let v = &e.values[j];
            if f.0 == v.dimension_id && f.1 == v.value {
                proof {
                    assert(filters@[i as int].0 == e@.values[j as int].dimension_id && value_eq(
                        filters@[i as int].1,
                        e@.values[j as int].value,
                    ));
                    assert(entry_matches_filters(e@, filters@));
                }
                found = true;
            }
            j = j + 1;
        }
        i = i + 1;
    }
    proof {
        if !found {
            assert(!entry_matches_filters(e@, filters@)) by {
                if entry_matches_filters(e@, filters@) {
                    let (i2, j2): (int, int) = choose|i2: int, j2: int|
                        0 <= i2 < filters@.len() && 0 <= j2 < e@.values.len() && (
                        #[trigger] filters@[i2]).0 == (#[trigger] e@.values[j2]).dimension_id
                            && value_eq(filters@[i2].1, e@.values[j2].value);
                    assert(false);
                }
            }
        }
    }
    found
}

/// Adds with a cap at the counter's maximum.
pub fn sat_add64(a: u64, b: u64) -> (r: u64)
    ensures
        r as nat == sat_add(a as nat, b as nat),
{
    if b > u64::MAX - a {
        u64::MAX
    } else {
        a + b
    }
}

/// A transformed record, as the pipeline holds it.
pub struct Prepared {
    pub att_hash: String,
    pub att: Vec<Value>,
    pub met: Vec<DatasetValue>,
}

impl View for Prepared {
    type V = PrepModel;

    open spec fn view(&self) -> PrepModel {
        PrepModel { key: self.att_hash@, att: self.att@, met: self.met@ }
    }
}

/// The models of the transformed records.
spec fn preps_view(s: Seq<Prepared>) -> Seq<PrepModel> {
    s.map_values(|p: Prepared| p@)
}

/// The models of the groups.
spec fn groups_view(s: Seq<AnalyticsType>) -> Seq<GroupModel> {
    s.map_values(|g: AnalyticsType| g@)
}

/// Stage two for one record: pick out the attribute values and join their
/// labels into the group key, and keep the cells under metric dimensions.
fn transform_record(e: &DatasetEntry, atts: &Vec<u8>, mets: &Vec<u8>) -> (r: Prepared)
    ensures
        r@ == prep_of(e@, atts@, mets@),
{
    let ghost pf = |v: DatasetValue| atts@.contains(v.dimension_id);
    let ghost vf = |v: DatasetValue| v.value;
    let mut att: Vec<Value> = Vec::new();
    let mut k: usize = 0;
    while k < e.values.len()
        invariant
            0 <= k <= e.values@.len(),
            pf == (|v: DatasetValue| atts@.contains(v.dimension_id)),
            vf == (|v: DatasetValue| v.value),
            att@ == e.values@.take(k as int).filter(pf).map_values(vf),
        decreases e.values@.len() - k,
    {
        proof {
            lemma_take_push(e.values@, k as int);
            lemma_filter_push(e.values@.take(k as int), pf, e.values@[k as int]);
        }
        let keep = contains_dim(atts, e.values[k].dimension_id);
        let ghost pre = att@;
        if keep {
            att.push(e.values[k].value.clone());
            proof {
                assert(att@ =~= pre.push(e.values@[k as int].value));
                assert(e.values@.take(k + 1 as int).filter(pf).map_values(vf) =~= e.values@.take(
                    k as int,
                ).filter(pf).map_values(vf).push(vf(e.values@[k as int])));
                assert(att@ =~= e.values@.take(k + 1 as int).filter(pf).map_values(vf));
            }
        } else {
            proof {
                assert(att@ =~= e.values@.take(k + 1 as int).filter(pf).map_values(vf));
            }
        }
        k = k + 1;
    }
    proof {
        assert(e.values@.take(e.values@.len() as int) =~= e.values@);
        assert(att@ == attr_values(e@.values, atts@));
    }
    let ghost pm = |v: DatasetValue| mets@.contains(v.dimension_id);
    let mut met: Vec<DatasetValue> = Vec::new();
    let mut k2: usize = 0;
    while k2 < e.values.len()
        invariant
            0 <= k2 <= e.values@.len(),
            pm == (|v: DatasetValue| mets@.contains(v.dimension_id)),
            met@ == e.values@.take(k2 as int).filter(pm),
        decreases e.values@.len() - k2,
    {
        proof {
            lemma_take_push(e.values@, k2 as int);
            lemma_filter_push(e.values@.take(k2 as int), pm, e.values@[k2 as int]);
        }
        let keep = contains_dim(mets, e.values[k2].dimension_id);
        let ghost pre = met@;
        if keep {
            met.push(e.values[k2].clone());
            proof {
                assert(met@ =~= pre.push(e.values@[k2 as int]));
                assert(met@ =~= e.values@.take(k2 + 1 as int).filter(pm));
            }
        } else {
            proof {
                assert(met@ =~= e.values@.take(k2 + 1 as int).filter(pm));
            }
        }
        k2 = k2 + 1;
    }
    proof {
        assert(e.values@.take(e.values@.len() as int) =~= e.values@);
    }
    let att_hash = join_label_string(&att);
    Prepared { att_hash, att, met }
}

/// Sums one record's contributions to a metric dimension, capped.
fn metric_contrib_exec(vals: &Vec<DatasetValue>, m: u8) -> (r: u64)
    ensures
        r as nat == metric_contrib(vals@, m),
{
    let mut acc: u64 = 0;
    let mut k: usize = 0;
    while k < vals.len()
        invariant
            0 <= k <= vals@.len(),
            acc as nat == metric_contrib(vals@.take(k as int), m),
        decreases vals@.len() - k,
    {
        let v = &vals[k];
        let c: u64 = if v.dimension_id == m {
            match &v.value {
                Value::Metric(x) => *x as u64,
                Value::Attribute(_) => 0,
            }
        } else {
            0
        };
        proof {
            assert(c as nat == value_contrib(vals@[k as int], m));
            assert(vals@.take(k + 1 as int).drop_last() =~= vals@.take(k as int));
            assert(vals@.take(k + 1 as int).last() == vals@[k as int]);
        }
        acc = sat_add64(acc, c);
        k = k + 1;
    }
    proof {
        assert(vals@.take(vals@.len() as int) =~= vals@);
    }
    acc
}

/// The per-dimension sums a new group starts with: the one record's own
/// contributions.
fn initial_sums(p: &Prepared, metrics: &Vec<u8>) -> (r: Vec<(u8, u64)>)
    ensures
        r@.len() == metrics@.len(),
        forall|q: int|
            0 <= q < metrics@.len() ==> (#[trigger] r@[q]) == (
                metrics@[q],
                metric_contrib(p@.met, metrics@[q]) as u64,
            ),
{
    let mut ms: Vec<(u8, u64)> = Vec::new();
    let mut k: usize = 0;
    while k < metrics.len()
        invariant
            0 <= k <= metrics@.len(),
            ms@.len() == k,
            forall|q: int|
                0 <= q < k ==> (#[trigger] ms@[q]) == (
                    metrics@[q],
                    metric_contrib(p@.met, metrics@[q]) as u64,
                ),
        decreases metrics@.len() - k,
    {
        let c = metric_contrib_exec(&p.met, metrics[k]);
        proof {
            lemma_metric_contrib_bound(p@.met, metrics@[k as int]);
        }
        ms.push((metrics[k], c));
        k = k + 1;
    }
    ms
}

/// Runs the four-stage pipeline over the dataset's entry collection and
/// returns the surviving groups with the five stage sizes. Pure: the result
/// is a function of the store's current state and the arguments alone.
pub fn fetch_analytics(
    store: &Store,
    dataset_id: u32,
    attributes: &Vec<u8>,
    metrics: &Vec<u8>,
    filters: &Vec<(u8, Value)>,
    is_gdpr: bool,
    gdpr_limit: u32,
) -> (r: AnalyticsSuperType)
    requires
        store.wf(),
    ensures
        r@ == analytics_model(
            spec_get(store@.dataset_values, dataset_id),
            attributes@,
            metrics@,
            filters@,
            is_gdpr,
            gdpr_limit,
        ),
{
    let found = find_u32_key(&store.dataset_values, dataset_id);
    match found {
        None => {
            proof {
                assert forall|j: int|
                    0 <= j < store@.dataset_values.len() implies (
                #[trigger] store@.dataset_values[j]).0 != dataset_id by {
                    assert(store@.dataset_values[j].0 == store.dataset_values@[j].0);
                }
                lemma_spec_get_none(store@.dataset_values, dataset_id);
            }
            let r = AnalyticsSuperType {
                analytics: Vec::new(),
                counts: (0u32, 0u32, 0u32, 0u32, 0u32),
            };
            proof {
                assert(r@ =~= analytics_model(
                    spec_get(store@.dataset_values, dataset_id),
                    attributes@,
                    metrics@,
                    filters@,
                    is_gdpr,
                    gdpr_limit,
                ));
            }
            r
        },
        Some(i) => {
            proof {
                assert forall|j: int| 0 <= j < i implies (#[trigger] store@.dataset_values[j]).0
                    != dataset_id by {
                    assert(store@.dataset_values[j].0 == store.dataset_values@[j].0);
                }
                lemma_spec_get_at(store@.dataset_values, dataset_id, i as int);
            }
            let ghost c = store@.dataset_values[i as int].1;
            let list = &store.dataset_values[i].1;
            proof {
                assert(c.len() <= u32::MAX as nat);
            }
            let op0: u32 = list.len() as u32;

            // Stages one and two, fused: keep and transform the survivors.
            let ghost fpred = |em: EntryModel| !entry_matches_filters(em, filters@);
            let mut preps: Vec<Prepared> = Vec::new();
            let mut j: usize = 0;
            while j < list.len()
                invariant
                    0 <= j <= list@.len(),
                    c == entries_view(list@),
                    c.len() == list@.len(),
                    fpred == (|em: EntryModel| !entry_matches_filters(em, filters@)),
                    preps_view(preps@) == transform_stage(
                        c.take(j as int).filter(fpred),
                        attributes@,
                        metrics@,
                    ),
                    preps@.len() <= j,
                decreases list@.len() - j,
            {
                let e = &list[j];
                proof {
                    assert(e@ == c[j as int]);
                    lemma_take_push(c, j as int);
                    lemma_filter_push(c.take(j as int), fpred, c[j as int]);
                }
                let hit = entry_matches(e, filters);
                let ghost pre = preps@;
                if !hit {
                    let p = transform_record(e, attributes, metrics);
                    let ghost pv = p@;
                    preps.push(p);
                    proof {
                        assert(pv == prep_of(c[j as int], attributes@, metrics@));
                        assert(preps_view(preps@) =~= preps_view(pre).push(pv));
                        assert(preps_view(preps@) =~= transform_stage(
                            c.take(j + 1 as int).filter(fpred),
                            attributes@,
                            metrics@,
                        ));
                    }
                } else {
                    proof {
                        assert(preps_view(preps@) =~= transform_stage(
                            c.take(j + 1 as int).filter(fpred),
                            attributes@,
                            metrics@,
                        ));
                    }
                }
                j = j + 1;
            }
            let ghost pm = transform_stage(filter_stage(c, filters@), attributes@, metrics@);
            proof {
                assert(c.take(c.len() as int) =~= c);
                assert(preps_view(preps@) == pm);
                assert(pm.len() == preps@.len());
            }
            let op1: u32 = preps.len() as u32;
            let op2: u32 = op1;

            // Stage three: enter each record into the key-ordered groups.
            let mut groups: Vec<AnalyticsType> = Vec::new();
            let mut idx: usize = 0;
            while idx < preps.len()
                invariant
                    0 <= idx <= preps@.len(),
                    preps_view(preps@) == pm,
                    pm.len() == preps@.len(),
                    pm.len() <= u32::MAX as nat,
                    groups_view(groups@) == groups_of(pm.take(idx as int), metrics@),
                    groups@.len() <= idx,
                    forall|q: int|
                        0 <= q < groups@.len() ==> (#[trigger] groups@[q])@.count <= idx,
                    forall|q: int|
                        0 <= q < groups@.len() ==> (#[trigger] groups@[q]).metrics@.len()
                            == metrics@.len(),
                decreases preps@.len() - idx,
            {
                let p = &preps[idx];
                let ghost pv = pm[idx as int];
                let ghost gs = groups_view(groups@);
                proof {
                    assert(p@ == pv);
                }
                let mut pos: usize = 0;
                while pos < groups.len() && str_lt(
                    groups[pos].group_key.as_str(),
                    p.att_hash.as_str(),
                )
                    invariant
                        0 <= pos <= groups@.len(),
                        gs == groups_view(groups@),
                        gs.len() == groups@.len(),
                        pv == p@,
                        forall|q: int|
                            0 <= q < pos ==> lex_lt((#[trigger] gs[q]).group_key, pv.key),
                    decreases groups@.len() - pos,
                {
                    proof {
                        assert(gs[pos as int].group_key == groups@[pos as int]@.group_key);
                    }
                    pos = pos + 1;
                }
                proof {
                    assert(pos < groups@.len() ==> !lex_lt(gs[pos as int].group_key, pv.key));
                    lemma_insert_group_at(gs, pv, metrics@, pos as int);
                    lemma_insert_count_bound(gs, pv, metrics@, idx as nat);
                    lemma_take_push(pm, idx as int);
                    assert(pm.take(idx + 1 as int).drop_last() =~= pm.take(idx as int));
                    assert(groups_of(pm.take(idx + 1 as int), metrics@) == insert_group(
                        gs,
                        pv,
                        metrics@,
                    ));
                }
                let do_merge = pos < groups.len() && !str_lt(
                    p.att_hash.as_str(),
                    groups[pos].group_key.as_str(),
                );
                if do_merge {
                    let g = groups.remove(pos);
                    let ghost gv = gs[pos as int];
                    proof {
                        assert(g@ == gv);
                    }
                    let mut ms: Vec<(u8, u64)> = Vec::new();
                    let mut k: usize = 0;
                    while k < metrics.len()
                        invariant
                            0 <= k <= metrics@.len(),
                            g@ == gv,
                            pv == p@,
                            gv.metrics.len() == metrics@.len(),
                            g.metrics@.len() == metrics@.len(),
                            ms@.len() == k,
                            forall|q: int|
                                0 <= q < k ==> (#[trigger] ms@[q]) == (
                                    metrics@[q],
                                    sat_add(
                                        gv.metrics[q].1 as nat,
                                        metric_contrib(pv.met, metrics@[q]),
                                    ) as u64,
                                ),
                        decreases metrics@.len() - k,
                    {
                        let delta: u64 = metric_contrib_exec(&p.met, metrics[k]);
                        let s: u64 = sat_add64(g.metrics[k].1, delta);
                        proof {
                            assert(g.metrics@[k as int] == gv.metrics[k as int]);
                        }
                        ms.push((metrics[k], s));
                        k = k + 1;
                    }
                    proof {
                        assert(gv.count <= idx);
                        assert(idx < pm.len());
                        assert(g.count < u32::MAX);
                    }
                    let merged = AnalyticsType {
                        group_key: g.group_key,
                        attributes: g.attributes,
                        metrics: ms,
                        count: g.count + 1,
                    };
                    proof {
                        assert(merged@ =~= merge_group(gv, pv, metrics@));
                    }
                    groups.insert(pos, merged);
                    proof {
                        assert(groups_view(groups@) =~= gs.update(
                            pos as int,
                            merge_group(gv, pv, metrics@),
                        ));
                        assert(groups_view(groups@) == groups_of(pm.take(idx + 1 as int), metrics@));
                    }
                } else {
                    let ms = initial_sums(p, metrics);
                    let gnew = AnalyticsType {
                        group_key: p.att_hash.clone(),
                        attributes: clone_value_list(&p.att),
                        metrics: ms,
                        count: 1,
                    };
                    proof {
                        assert(gnew@ =~= new_group(pv, metrics@));
                    }
                    groups.insert(pos, gnew);
                    proof {
                        assert(groups_view(groups@) =~= gs.insert(
                            pos as int,
                            new_group(pv, metrics@),
                        ));
                        assert(groups_view(groups@) == groups_of(pm.take(idx + 1 as int), metrics@));
                    }
                }
                idx = idx + 1;
            }
            let ghost gsall = groups_of(pm, metrics@);
            proof {
                assert(pm.take(pm.len() as int) =~= pm);
                assert(groups_view(groups@) == gsall);
            }
            let op3: u32 = groups.len() as u32;

            // Stage four: privacy suppression.
            if is_gdpr && gdpr_limit > 0 {
                let ghost spred = |g: GroupModel| g.count > gdpr_limit;
                let mut kept: Vec<AnalyticsType> = Vec::new();
                let mut q: usize = 0;
                while q < groups.len()
                    invariant
                        0 <= q <= groups@.len(),
                        groups_view(groups@) == gsall,
                        gsall.len() == groups@.len(),
                        spred == (|g: GroupModel| g.count > gdpr_limit),
                        groups_view(kept@) == gsall.take(q as int).filter(spred),
                        kept@.len() <= q,
                    decreases groups@.len() - q,
                {
                    let g = &groups[q];
                    proof {
                        assert(g@ == gsall[q as int]);
                        lemma_take_push(gsall, q as int);
                        lemma_filter_push(gsall.take(q as int), spred, gsall[q as int]);
                    }
                    let ghost pre = kept@;
                    if g.count > gdpr_limit {
                        let cl = g.clone();
                        let ghost clv = cl@;
                        kept.push(cl);
                        proof {
                            assert(groups_view(kept@) =~= groups_view(pre).push(clv));
                            assert(groups_view(kept@) =~= gsall.take(q + 1 as int).filter(spred));
                        }
                    } else {
                        proof {
                            assert(groups_view(kept@) =~= gsall.take(q + 1 as int).filter(spred));
                        }
                    }
                    q = q + 1;
                }
                proof {
                    assert(gsall.take(gsall.len() as int) =~= gsall);
                }
                let op4: u32 = kept.len() as u32;
                let r = AnalyticsSuperType { analytics: kept, counts: (op0, op1, op2, op3, op4) };
                proof {
                    assert(r@ =~= analytics_model(
                        spec_get(store@.dataset_values, dataset_id),
                        attributes@,
                        metrics@,
                        filters@,
                        is_gdpr,
                        gdpr_limit,
                    ));
                }
                r
            } else {
                let r = AnalyticsSuperType { analytics: groups, counts: (op0, op1, op2, op3, op3) };
                proof {
                    assert(r@ =~= analytics_model(
                        spec_get(store@.dataset_values, dataset_id),
                        attributes@,
                        metrics@,
                        filters@,
                        is_gdpr,
                        gdpr_limit,
                    ));
                }
                r
            }
        },
    }
}

} // verus!
