//! Caller resolution and query authorization: resolving a direct identity or
//! a registered analytics token to the effective caller, combining the access
//! oracle's entitlement records into one allowed dimension set, and the
//! authorization gate in front of the aggregation pipeline.

use vstd::prelude::*;
use itertools::Itertools;

use crate::analytics::{analytics_model, fetch_analytics};
use crate::seqs::{spec_get, contains_dim};
use crate::store::{Store, StoreModel, store_inv};
use crate::types::{
    AccessGrantRecord, AccessGrantModel, AnalyticsSuperType, AnalyticsToken, Query, QueryInput,
    QueryModel, QueryState, QueryInputModel,
};
use crate::AnalyticsError;
use crate::ANONYMOUS_IDENTITY;

verus! {

/// The input list with duplicates dropped: each element stays at its first
/// occurrence. `seen` carries the elements already emitted.
pub open spec fn dedup_from(s: Seq<u8>, seen: Set<u8>) -> Seq<u8>
    decreases s.len(),
{
    if s.len() == 0 {
        Seq::<u8>::empty()
    } else if seen.contains(s[0]) {
        dedup_from(s.drop_first(), seen)
    } else {
        seq![s[0]] + dedup_from(s.drop_first(), seen.insert(s[0]))
    }
}

/// The input list with duplicates dropped, first occurrences kept in order.
pub open spec fn dedup_first(s: Seq<u8>) -> Seq<u8> {
    dedup_from(s, Set::<u8>::empty())
}

/// All the grants' dimension lists, one after another.
pub open spec fn flatten_grants(grants: Seq<AccessGrantModel>) -> Seq<u8>
    decreases grants.len(),
{
    if grants.len() == 0 {
        Seq::<u8>::empty()
    } else {
        flatten_grants(grants.drop_last()) + grants.last().dimension_restrict_list
    }
}

/// The models of the oracle's grant records.
pub open spec fn grants_view(s: Seq<AccessGrantRecord>) -> Seq<AccessGrantModel> {
    s.map_values(|g: AccessGrantRecord| g@)
}

/// What the oracle's answer amounts to: with no grants, no access and no
/// suppression (fail closed); otherwise the union of all grants' dimension
/// lists (first occurrences kept) and the first grant's suppression flag.
pub open spec fn combine_grants_model(grants: Seq<AccessGrantModel>) -> (Seq<u8>, bool) {
    if grants.len() == 0 {
        (Seq::<u8>::empty(), false)
    } else {
        (dedup_first(flatten_grants(grants)), grants[0].is_gdpr_enabled)
    }
}

/// Relies on itertools' `unique`: yields each element the first time it is
/// seen, in order; later duplicates are dropped.
#[verifier::external_body]
fn unique_dims(v: Vec<u8>) -> (r: Vec<u8>)
    ensures
        r@ == dedup_first(v@),
{
    v.into_iter().unique().collect()
}

/// Combines the access oracle's entitlement records into the allowed
/// dimension set and the suppression flag, failing closed on zero records.
pub fn combine_grants(grants: &Vec<AccessGrantRecord>) -> (r: (Vec<u8>, bool))
    ensures
        (r.0@, r.1) == combine_grants_model(grants_view(grants@)),
{
    let ghost gv = grants_view(grants@);
    if grants.len() == 0 {
        let r = (Vec::<u8>::new(), false);
        proof {
            assert(r.0@ =~= Seq::<u8>::empty());
        }
        r
    } else {
        let mut flat: Vec<u8> = Vec::new();
        let mut i: usize = 0;
        while i < grants.len()
            invariant
                0 <= i <= grants@.len(),
                gv == grants_view(grants@),
                gv.len() == grants@.len(),
                flat@ == flatten_grants(gv.take(i as int)),
            decreases grants@.len() - i,
        {
            let list = &grants[i].dimension_restrict_list;
            proof {
                assert(gv[i as int].dimension_restrict_list == list@);
            }
            let ghost pre = flat@;
            let mut k: usize = 0;
            while k < list.len()
                invariant
                    0 <= k <= list@.len(),
                    flat@ == pre + list@.take(k as int),
                decreases list@.len() - k,
            {
                flat.push(list[k]);
                proof {
                    assert(flat@ =~= pre + list@.take(k + 1 as int));
                }
                k = k + 1;
            }
            proof {
                assert(list@.take(list@.len() as int) =~= list@);
                assert(gv.take(i + 1 as int).drop_last() =~= gv.take(i as int));
                assert(gv.take(i + 1 as int).last() == gv[i as int]);
                assert(flat@ == flatten_grants(gv.take(i + 1 as int)));
            }
            i = i + 1;
        }
        proof {
            assert(gv.take(gv.len() as int) =~= gv);
        }
        let dims = unique_dims(flat);
        let flag = grants[0].is_gdpr_enabled;
        proof {
            assert(gv[0].is_gdpr_enabled == flag);
        }
        (dims, flag)
    }
}

/// The identity a token resolves to: the first registered token record whose
/// token string matches, if any.
pub open spec fn token_lookup(tokens: Seq<(u64, AnalyticsToken)>, token: String) -> Option<u64>
    decreases tokens.len(),
{
    if tokens.len() == 0 {
        None
    } else if tokens[0].1.token@ == token@ {
        Some(tokens[0].0)
    } else {
        token_lookup(tokens.drop_first(), token)
    }
}

/// The effective caller: a supplied token resolves to the identity it is
/// registered under, or fails as unknown; without a token the direct identity
/// stands, unless it is the anonymous sentinel, which is rejected.
pub open spec fn resolve_caller_model(m: StoreModel, direct: u64, token: Option<String>) -> Result<
    u64,
    AnalyticsError,
> {
    match token {
        Some(t) => match token_lookup(m.analytics_tokens, t) {
            Some(id) => Ok(id),
            None => Err(AnalyticsError::TokenNotFound),
        },
        None => if direct == ANONYMOUS_IDENTITY {
            Err(AnalyticsError::AnonymousUnauthorized)
        } else {
            Ok(direct)
        },
    }
}

/// When position `i` holds the first matching token string, the lookup
/// resolves to that record's identity.
proof fn lemma_token_lookup_at(tokens: Seq<(u64, AnalyticsToken)>, token: String, i: int)
    requires
        0 <= i < tokens.len(),
        tokens[i].1.token@ == token@,
        forall|j: int| 0 <= j < i ==> (#[trigger] tokens[j]).1.token@ != token@,
    ensures
        token_lookup(tokens, token) == Some(tokens[i].0),
    decreases i,
{
    if i > 0 {
        let t = tokens.drop_first();
        assert forall|j: int| 0 <= j < i - 1 implies (#[trigger] t[j]).1.token@ != token@ by {
            assert(t[j] == tokens[j + 1]);
        }
        lemma_token_lookup_at(t, token, i - 1);
    }
}

/// When no record's token string matches, the lookup resolves to nothing.
proof fn lemma_token_lookup_none(tokens: Seq<(u64, AnalyticsToken)>, token: String)
    requires
        forall|j: int| 0 <= j < tokens.len() ==> (#[trigger] tokens[j]).1.token@ != token@,
    ensures
        token_lookup(tokens, token) is None,
    decreases tokens.len(),
{
    if tokens.len() > 0 {
        let t = tokens.drop_first();
        assert forall|j: int| 0 <= j < t.len() implies (#[trigger] t[j]).1.token@ != token@ by {
            assert(t[j] == tokens[j + 1]);
        }
        lemma_token_lookup_none(t, token);
    }
}

/// Resolves the effective caller from the direct identity and an optional
/// analytics token.
pub fn process_token_data(store: &Store, ic_caller: u64, token: Option<String>) -> (r: Result<
    u64,
    AnalyticsError,
>)
    ensures
        r == resolve_caller_model(store@, ic_caller, token),
{
    match &token {
        Some(t) => {
            let ghost mt = store@.analytics_tokens;
            let mut i: usize = 0;
            let mut hit: Option<u64> = None;
            while i < store.analytics_tokens.len()
                invariant
                    0 <= i <= store.analytics_tokens@.len(),
                    mt == store@.analytics_tokens,
                    mt.len() == store.analytics_tokens@.len(),
                    match hit {
                        Some(id) => token_lookup(mt, *t) == Some(id),
                        None => forall|j: int|
                            0 <= j < i ==> (#[trigger] mt[j]).1.token@ != t@,
                    },
                decreases store.analytics_tokens@.len() - i,
            {
                if hit.is_none() {
                    let rec = &store.analytics_tokens[i];
                    if rec.1.token == *t {
                        proof {
                            assert(mt[i as int].1.token@ == t@);
                            lemma_token_lookup_at(mt, *t, i as int);
                        }
                        hit = Some(rec.0);
                    }
                }
                i = i + 1;
            }
            match hit {
                Some(id) => Ok(id),
                None => {
                    proof {
                        lemma_token_lookup_none(mt, *t);
                    }
                    Err(AnalyticsError::TokenNotFound)
                },
            }
        },
        None => {
            if ic_caller == ANONYMOUS_IDENTITY {
                Err(AnalyticsError::AnonymousUnauthorized)
            } else {
                Ok(ic_caller)
            }
        },
    }
}

/// Every requested attribute and metric dimension is in the allowed set.
pub open spec fn requested_allowed(q: QueryInputModel, authorized: Seq<u8>) -> bool {
    (forall|i: int| 0 <= i < q.attributes.len() ==> authorized.contains(#[trigger] q.attributes[i]))
        && (forall|i: int|
        0 <= i < q.metrics.len() ==> authorized.contains(#[trigger] q.metrics[i]))
}

/// The store after logging an authorized query: the next query id is taken
/// and the log gains the query record; nothing else changes.
pub open spec fn log_query_model(
    m: StoreModel,
    caller: u64,
    q: QueryInputModel,
    is_gdpr: bool,
    now: u64,
) -> StoreModel {
    let id = (m.next_query_id + 1) as u32;
    StoreModel {
        queries: m.queries.push(
            (
                id,
                QueryModel {
                    timestamp: now,
                    user: caller,
                    query_meta: q,
                    query_state: QueryState::Pending,
                    is_gdpr: is_gdpr,
                    gdpr_limit: 5,
                },
            ),
        ),
        next_query_id: id,
        ..m
    }
}

/// Whether every element of `xs` occurs in `allowed`.
fn all_contained(xs: &Vec<u8>, allowed: &Vec<u8>) -> (r: bool)
    ensures
        r == (forall|i: int| 0 <= i < xs@.len() ==> allowed@.contains(#[trigger] xs@[i])),
{
    let mut i: usize = 0;
    while i < xs.len()
        invariant
            0 <= i <= xs@.len(),
            forall|j: int| 0 <= j < i ==> allowed@.contains(#[trigger] xs@[j]),
        decreases xs@.len() - i,
    {
        let ok = contains_dim(allowed, xs[i]);
        if !ok {
            proof {
                assert(!allowed@.contains(xs@[i as int]));
            }
            return false;
        }
        i = i + 1;
    }
    true
}

/// The authorized analytics entry point, after the oracle has answered: fails
/// closed with `NoEntitlement` on an empty allowed set whatever the dataset
/// holds, rejects any request for a dimension outside the allowed set, and
/// otherwise logs the query and runs the pipeline with the oracle's
/// suppression flag and the fixed threshold of five.
pub fn get_analytics(
    store: &mut Store,
    caller: u64,
    authorized: &Vec<u8>,
    is_gdpr_enabled: bool,
    query: &QueryInput,
    now: u64,
) -> (r: Result<AnalyticsSuperType, AnalyticsError>)
    requires
        old(store).wf(),
        old(store).next_query_id < u32::MAX,
    ensures
        final(store).wf(),
        authorized@.len() == 0 ==> r == Err::<AnalyticsSuperType, AnalyticsError>(
            AnalyticsError::NoEntitlement,
        ) && final(store)@ == old(store)@,
        authorized@.len() > 0 && !requested_allowed(query@, authorized@) ==> r == Err::<
            AnalyticsSuperType,
            AnalyticsError,
        >(AnalyticsError::AttributeAccessDenied) && final(store)@ == old(store)@,
        authorized@.len() > 0 && requested_allowed(query@, authorized@) ==> final(store)@
            == log_query_model(old(store)@, caller, query@, is_gdpr_enabled, now) && (match r {
            Ok(a) => a@ == analytics_model(
                spec_get(old(store)@.dataset_values, query@.dataset_id),
                query@.attributes,
                query@.metrics,
                query@.filters,
                is_gdpr_enabled,
                5u32,
            ),
            Err(_) => false,
        }),
{
    if authorized.len() == 0 {
        return Err(AnalyticsError::NoEntitlement);
    }
    let atts_ok = all_contained(&query.attributes, authorized);
    let mets_ok = all_contained(&query.metrics, authorized);
    if !(atts_ok && mets_ok) {
        proof {
            if !atts_ok {
                let i = choose|i: int|
                    0 <= i < query.attributes@.len() && !authorized@.contains(
                        #[trigger] query.attributes@[i],
                    );
                assert(query@.attributes[i] == query.attributes@[i]);
                assert(!requested_allowed(query@, authorized@));
            } else {
                let i = choose|i: int|
                    0 <= i < query.metrics@.len() && !authorized@.contains(
                        #[trigger] query.metrics@[i],
                    );
                assert(query@.metrics[i] == query.metrics@[i]);
                assert(!requested_allowed(query@, authorized@));
            }
        }
        return Err(AnalyticsError::AttributeAccessDenied);
    }
    proof {
        assert(requested_allowed(query@, authorized@)) by {
            assert forall|i: int| 0 <= i < query@.attributes.len() implies authorized@.contains(
                #[trigger] query@.attributes[i],
            ) by {
                assert(query@.attributes[i] == query.attributes@[i]);
            }
            assert forall|i: int| 0 <= i < query@.metrics.len() implies authorized@.contains(
                #[trigger] query@.metrics[i],
            ) by {
                assert(query@.metrics[i] == query.metrics@[i]);
            }
        }
    }
    let ghost m0 = store@;
    let id = store.next_query_id + 1;
    store.next_query_id = id;
    let logged = Query {
        timestamp: now,
        user: caller,
        query_meta: query.clone(),
        query_state: QueryState::Pending,
        is_gdpr: is_gdpr_enabled,
        gdpr_limit: 5,
    };
    proof {
        assert(logged@ == (QueryModel {
            timestamp: now,
            user: caller,
            query_meta: query@,
            query_state: QueryState::Pending,
            is_gdpr: is_gdpr_enabled,
            gdpr_limit: 5,
        }));
    }
    store.queries.push((id, logged));
    proof {
        assert(store@.queries =~= m0.queries.push((id, logged@)));
        assert(store@ =~= log_query_model(m0, caller, query@, is_gdpr_enabled, now));
        assert forall|j: int| 0 <= j < m0.queries.len() implies (#[trigger] m0.queries[j]).0
            != id by {}
        assert(store_inv(store@));
        assert(spec_get(store@.dataset_values, query@.dataset_id) == spec_get(
            m0.dataset_values,
            query@.dataset_id,
        ));
    }
    let result = fetch_analytics(
        store,
        query.dataset_id,
        &query.attributes,
        &query.metrics,
        &query.filters,
        is_gdpr_enabled,
        5,
    );
    Ok(result)
}

} // verus!
