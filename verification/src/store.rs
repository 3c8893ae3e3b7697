//! The entry store and its tables: dataset metadata, per-dataset entry
//! collections, owners, producers, the query log and the token table — one
//! owned object, mutated only through the operations here.
//!
//! Every operation's contract pins the new store model as a function of the
//! old one. Entry collections are newest-first: an insert prepends. A put
//! bearing a `ByUser` record key replaces that identity's entry (at most one
//! entry per identity, invariant I-style uniqueness); `ById` keys accumulate.

use vstd::prelude::*;
use crate::seqs::{
    unique_keys, spec_get, assoc_set, assoc_remove, lemma_spec_get_at, lemma_spec_get_none,
    lemma_assoc_set_updates, lemma_assoc_set_appends, lemma_take_push, lemma_filter_push,
};
use crate::types::{
    DatasetConfiguration, DatasetCreateRequest, DatasetEntry, DatasetEntryInput, DatasetValue,
    ProducerState, Query, AnalyticsToken, ConfigModel, CreateRequestModel, EntryModel,
    EntryInputModel, QueryModel, RecordKey, UpdateMode, clone_values, clone_ids,
};

verus! {

/// The store: association tables with pairwise-distinct keys.
pub struct Store {
    pub datasets: Vec<(u32, DatasetConfiguration)>,
    pub dataset_values: Vec<(u32, Vec<DatasetEntry>)>,
    pub dataset_owners: Vec<(u64, Vec<u32>)>,
    pub dataset_producers: Vec<(u32, Vec<ProducerState>)>,
    pub queries: Vec<(u32, Query)>,
    pub analytics_tokens: Vec<(u64, AnalyticsToken)>,
    pub next_dataset_id: u32,
    pub next_query_id: u32,
}

/// Ghost model of the store.
#[verifier::ext_equal]
pub ghost struct StoreModel {
    pub datasets: Seq<(u32, ConfigModel)>,
    pub dataset_values: Seq<(u32, Seq<EntryModel>)>,
    pub dataset_owners: Seq<(u64, Seq<u32>)>,
    pub dataset_producers: Seq<(u32, Seq<ProducerState>)>,
    pub queries: Seq<(u32, QueryModel)>,
    pub analytics_tokens: Seq<(u64, AnalyticsToken)>,
    pub next_dataset_id: u32,
    pub next_query_id: u32,
}

/// Model of one entry collection.
pub open spec fn entries_view(v: Seq<DatasetEntry>) -> Seq<EntryModel> {
    v.map_values(|e: DatasetEntry| e@)
}

impl View for Store {
    type V = StoreModel;

    open spec fn view(&self) -> StoreModel {
        StoreModel {
            datasets: self.datasets@.map_values(|p: (u32, DatasetConfiguration)| (p.0, p.1@)),
            dataset_values: self.dataset_values@.map_values(
                |p: (u32, Vec<DatasetEntry>)| (p.0, entries_view(p.1@)),
            ),
            dataset_owners: self.dataset_owners@.map_values(|p: (u64, Vec<u32>)| (p.0, p.1@)),
            dataset_producers: self.dataset_producers@.map_values(
                |p: (u32, Vec<ProducerState>)| (p.0, p.1@),
            ),
            queries: self.queries@.map_values(|p: (u32, Query)| (p.0, p.1@)),
            analytics_tokens: self.analytics_tokens@.map_values(
                |p: (u64, AnalyticsToken)| (p.0, p.1),
            ),
            next_dataset_id: self.next_dataset_id,
            next_query_id: self.next_query_id,
        }
    }
}

/// Well-formedness of the store model: distinct keys in every table, dataset
/// and query ids no larger than their counters, and collection sizes within
/// the machine bounds the analytics stage counters need.
pub open spec fn store_inv(m: StoreModel) -> bool {
    &&& unique_keys(m.datasets)
    &&& unique_keys(m.dataset_values)
    &&& unique_keys(m.dataset_owners)
    &&& unique_keys(m.dataset_producers)
    &&& unique_keys(m.queries)
    &&& unique_keys(m.analytics_tokens)
    &&& forall|i: int|
        0 <= i < m.datasets.len() ==> (#[trigger] m.datasets[i]).0 <= m.next_dataset_id
    &&& forall|i: int| 0 <= i < m.queries.len() ==> (#[trigger] m.queries[i]).0 <= m.next_query_id
    &&& forall|i: int|
        0 <= i < m.dataset_values.len() ==> (#[trigger] m.dataset_values[i]).1.len()
            <= u32::MAX as nat
    &&& forall|i: int, j: int|
        0 <= i < m.dataset_values.len() && 0 <= j < m.dataset_values[i].1.len() ==> (
        #[trigger] m.dataset_values[i].1[j]).values.len() <= u32::MAX as nat
}

/// The length of a dataset's entry collection (0 when it has none).
pub open spec fn coll_len(m: StoreModel, dataset_id: u32) -> nat {
    match spec_get(m.dataset_values, dataset_id) {
        Some(c) => c.len(),
        None => 0,
    }
}

impl Store {
    /// Well-formedness, as the contracts state it.
    pub open spec fn wf(self) -> bool {
        store_inv(self@)
    }

    /// A fresh store: every table empty, both counters zero.
    pub fn new() -> (s: Store)
        ensures
            s.wf(),
            s@.datasets == Seq::<(u32, ConfigModel)>::empty(),
            s@.dataset_values == Seq::<(u32, Seq<EntryModel>)>::empty(),
            s@.dataset_owners == Seq::<(u64, Seq<u32>)>::empty(),
            s@.dataset_producers == Seq::<(u32, Seq<ProducerState>)>::empty(),
            s@.queries == Seq::<(u32, QueryModel)>::empty(),
            s@.analytics_tokens == Seq::<(u64, AnalyticsToken)>::empty(),
            s@.next_dataset_id == 0,
            s@.next_query_id == 0,
    {
        let s = Store {
            datasets: Vec::new(),
            dataset_values: Vec::new(),
            dataset_owners: Vec::new(),
            dataset_producers: Vec::new(),
            queries: Vec::new(),
            analytics_tokens: Vec::new(),
            next_dataset_id: 0,
            next_query_id: 0,
        };
        proof {
            assert(s@.datasets =~= Seq::<(u32, ConfigModel)>::empty());
            assert(s@.dataset_values =~= Seq::<(u32, Seq<EntryModel>)>::empty());
            assert(s@.dataset_owners =~= Seq::<(u64, Seq<u32>)>::empty());
            assert(s@.dataset_producers =~= Seq::<(u32, Seq<ProducerState>)>::empty());
            assert(s@.queries =~= Seq::<(u32, QueryModel)>::empty());
            assert(s@.analytics_tokens =~= Seq::<(u64, AnalyticsToken)>::empty());
        }
        s
    }

    /// Registers a dataset: takes the next id, stores the configuration,
    /// records the caller as an owner, and makes the caller the sole initial
    /// producer. Returns the new dataset's id.
    pub fn create_data_set(
        &mut self,
        caller: u64,
        request: DatasetCreateRequest,
        now: u64,
    ) -> (id: u32)
        requires
            old(self).wf(),
            old(self).next_dataset_id < u32::MAX,
        ensures
            final(self).wf(),
            final(self)@ == create_dataset_model(old(self)@, caller, request@, now),
            id == old(self)@.next_dataset_id + 1,
    {
        let ghost m0 = self@;
        let ghost reqv = request@;
        let id = self.next_dataset_id + 1;
        self.next_dataset_id = id;
        let crate::types::DatasetCreateRequest { dataset_config, category } = request;
        let crate::types::DatasetConfigurationInput {
            name,
            description,
            jupyter_notebook,
            asset_id,
            dimensions,
        } = dataset_config;
        let config = DatasetConfiguration {
            name,
            description,
            jupyter_notebook,
            asset_id,
            dimensions,
            is_active: true,
            category,
            created_at: now,
            updated_at: now,
        };
        proof {
            assert(config@ == config_of(reqv, now));
            assert forall|j: int|
                0 <= j < m0.datasets.len() implies (#[trigger] m0.datasets[j]).0 != id by {}
            lemma_assoc_set_appends(m0.datasets, id, config_of(reqv, now));
        }
        self.datasets.push((id, config));
        proof {
            assert(self@.datasets =~= m0.datasets.push((id, config_of(reqv, now))));
        }
        let found_owner = find_u64_key(&self.dataset_owners, caller);
        match found_owner {
            Some(i) => {
                proof {
                    assert forall|j: int| 0 <= j < i implies (#[trigger] m0.dataset_owners[j]).0
                        != caller by {
                        assert(m0.dataset_owners[j].0 == self.dataset_owners@[j].0);
                    }
                    lemma_spec_get_at(m0.dataset_owners, caller, i as int);
                }
                let ghost owned0 = m0.dataset_owners[i as int].1;
                let pair = self.dataset_owners.remove(i);
                let mut list = pair.1;
                list.push(id);
                self.dataset_owners.insert(i, (caller, list));
                proof {
                    lemma_assoc_set_updates(m0.dataset_owners, caller, owned0.push(id), i as int);
                    assert(self@.dataset_owners =~= m0.dataset_owners.update(
                        i as int,
                        (caller, owned0.push(id)),
                    ));
                }
            },
            None => {
                proof {
                    assert forall|j: int|
                        0 <= j < m0.dataset_owners.len() implies (
                    #[trigger] m0.dataset_owners[j]).0 != caller by {
                        assert(m0.dataset_owners[j].0 == self.dataset_owners@[j].0);
                    }
                    lemma_spec_get_none(m0.dataset_owners, caller);
                    lemma_assoc_set_appends(m0.dataset_owners, caller, seq![id]);
                }
                let mut list: Vec<u32> = Vec::new();
                list.push(id);
                self.dataset_owners.push((caller, list));
                proof {
                    assert(self@.dataset_owners =~= m0.dataset_owners.push((caller, seq![id])));
                }
            },
        }
        let producer = ProducerState { id: caller, is_enabled: true, created_at: now };
        let ghost pview = seq![producer];
        let mut plist: Vec<ProducerState> = Vec::new();
        plist.push(producer);
        proof {
            assert(plist@ =~= pview);
        }
        let found_prod = find_u32_key(&self.dataset_producers, id);
        match found_prod {
            Some(i) => {
                proof {
                    assert forall|j: int| 0 <= j < i implies (
                    #[trigger] m0.dataset_producers[j]).0 != id by {
                        assert(m0.dataset_producers[j].0 == self.dataset_producers@[j].0);
                    }
                    lemma_spec_get_at(m0.dataset_producers, id, i as int);
                    lemma_assoc_set_updates(m0.dataset_producers, id, pview, i as int);
                }
                self.dataset_producers.remove(i);
                self.dataset_producers.insert(i, (id, plist));
                proof {
                    assert(self@.dataset_producers =~= m0.dataset_producers.update(
                        i as int,
                        (id, pview),
                    ));
                }
            },
            None => {
                proof {
                    assert forall|j: int|
                        0 <= j < m0.dataset_producers.len() implies (
                    #[trigger] m0.dataset_producers[j]).0 != id by {
                        assert(m0.dataset_producers[j].0 == self.dataset_producers@[j].0);
                    }
                    lemma_spec_get_none(m0.dataset_producers, id);
                    lemma_assoc_set_appends(m0.dataset_producers, id, pview);
                }
                self.dataset_producers.push((id, plist));
                proof {
                    assert(self@.dataset_producers =~= m0.dataset_producers.push((id, pview)));
                }
            },
        }
        proof {
            assert(self@ =~= create_dataset_model(m0, caller, reqv, now));
            assert(store_inv(self@));
        }
        id
    }

    /// Unregisters a dataset: its configuration, its producer list and its
    /// entry collection are destroyed together.
    pub fn delete_data_set(&mut self, dataset_id: u32)
        requires
            old(self).wf(),
        ensures
            final(self).wf(),
            final(self)@ == delete_dataset_model(old(self)@, dataset_id),
    {
        let ghost m0 = self@;
        let found_d = find_u32_key(&self.datasets, dataset_id);
        match found_d {
            Some(i) => {
                proof {
                    assert(m0.datasets[i as int].0 == dataset_id);
                    assert forall|j: int|
                        0 <= j < m0.datasets.len() && j != i implies (
                    #[trigger] m0.datasets[j]).0 != dataset_id by {}
                    crate::seqs::lemma_assoc_remove_at(m0.datasets, dataset_id, i as int);
                    crate::seqs::lemma_remove_unique(m0.datasets, i as int);
                }
                self.datasets.remove(i);
                proof {
                    assert(self@.datasets =~= m0.datasets.remove(i as int));
                }
            },
            None => {
                proof {
                    assert forall|j: int|
                        0 <= j < m0.datasets.len() implies (#[trigger] m0.datasets[j]).0
                        != dataset_id by {
                        assert(m0.datasets[j].0 == self.datasets@[j].0);
                    }
                    crate::seqs::lemma_assoc_remove_absent(m0.datasets, dataset_id);
                }
            },
        }
        let found_p = find_u32_key(&self.dataset_producers, dataset_id);
        match found_p {
            Some(i) => {
                proof {
                    assert(m0.dataset_producers[i as int].0 == dataset_id);
                    assert forall|j: int|
                        0 <= j < m0.dataset_producers.len() && j != i implies (
                    #[trigger] m0.dataset_producers[j]).0 != dataset_id by {}
                    crate::seqs::lemma_assoc_remove_at(m0.dataset_producers, dataset_id, i as int);
                    crate::seqs::lemma_remove_unique(m0.dataset_producers, i as int);
                }
                self.dataset_producers.remove(i);
                proof {
                    assert(self@.dataset_producers =~= m0.dataset_producers.remove(i as int));
                }
            },
            None => {
                proof {
                    assert forall|j: int|
                        0 <= j < m0.dataset_producers.len() implies (
                    #[trigger] m0.dataset_producers[j]).0 != dataset_id by {
                        assert(m0.dataset_producers[j].0 == self.dataset_producers@[j].0);
                    }
                    crate::seqs::lemma_assoc_remove_absent(m0.dataset_producers, dataset_id);
                }
            },
        }
        let found_v = find_u32_key(&self.dataset_values, dataset_id);
        match found_v {
            Some(i) => {
                proof {
                    assert(m0.dataset_values[i as int].0 == dataset_id);
                    assert forall|j: int|
                        0 <= j < m0.dataset_values.len() && j != i implies (
                    #[trigger] m0.dataset_values[j]).0 != dataset_id by {}
                    crate::seqs::lemma_assoc_remove_at(m0.dataset_values, dataset_id, i as int);
                    crate::seqs::lemma_remove_unique(m0.dataset_values, i as int);
                }
                self.dataset_values.remove(i);
                proof {
                    assert(self@.dataset_values =~= m0.dataset_values.remove(i as int));
                }
            },
            None => {
                proof {
                    assert forall|j: int|
                        0 <= j < m0.dataset_values.len() implies (
                    #[trigger] m0.dataset_values[j]).0 != dataset_id by {
                        assert(m0.dataset_values[j].0 == self.dataset_values@[j].0);
                    }
                    crate::seqs::lemma_assoc_remove_absent(m0.dataset_values, dataset_id);
                }
            },
        }
        proof {
            assert(self@ =~= delete_dataset_model(m0, dataset_id));
            assert(store_inv(self@));
        }
    }

    /// Adds the user to, or removes the user from, a dataset's producer list.
    /// Only an owner of the dataset may call this; the caller must have been
    /// checked against the owner table.
    pub fn update_producer_list(
        &mut self,
        caller: u64,
        dataset_id: u32,
        user: u64,
        mode: UpdateMode,
        now: u64,
    )
        requires
            old(self).wf(),
            is_owner(old(self)@, caller, dataset_id),
        ensures
            final(self).wf(),
            final(self)@ == update_producers_model(old(self)@, dataset_id, user, mode, now),
    {
        let ghost m0 = self@;
        let new_entry = ProducerState { id: user, is_enabled: true, created_at: now };
        let found = find_u32_key(&self.dataset_producers, dataset_id);
        match found {
            Some(i) => {
                proof {
                    assert forall|j: int| 0 <= j < i implies (
                    #[trigger] m0.dataset_producers[j]).0 != dataset_id by {
                        assert(m0.dataset_producers[j].0 == self.dataset_producers@[j].0);
                    }
                    lemma_spec_get_at(m0.dataset_producers, dataset_id, i as int);
                }
                let ghost ps = m0.dataset_producers[i as int].1;
                let pair = self.dataset_producers.remove(i);
                let mut list = pair.1;
                if mode == UpdateMode::Add {
                    list.push(new_entry);
                    self.dataset_producers.insert(i, (dataset_id, list));
                    proof {
                        lemma_assoc_set_updates(
                            m0.dataset_producers,
                            dataset_id,
                            ps.push(new_entry),
                            i as int,
                        );
                        assert(self@.dataset_producers =~= m0.dataset_producers.update(
                            i as int,
                            (dataset_id, ps.push(new_entry)),
                        ));
                        assert(self@ =~= update_producers_model(m0, dataset_id, user, mode, now));
                        assert(store_inv(self@));
                    }
                } else {
                    let ghost pred = |p: ProducerState| p.id != user;
                    let n = list.len();
                    let mut kept: Vec<ProducerState> = Vec::new();
                    let mut j: usize = 0;
                    while j < n
                        invariant
                            0 <= j <= n,
                            n == list@.len(),
                            list@ == ps,
                            pred == (|p: ProducerState| p.id != user),
                            kept@ == ps.take(j as int).filter(pred),
                        decreases n - j,
                    {
                        proof {
                            lemma_take_push(ps, j as int);
                            lemma_filter_push(ps.take(j as int), pred, ps[j as int]);
                        }
                        if !(list[j].id == user) {
                            kept.push(list[j]);
                            proof {
                                assert(kept@ =~= ps.take(j + 1 as int).filter(pred));
                            }
                        } else {
                            proof {
                                assert(kept@ =~= ps.take(j + 1 as int).filter(pred));
                            }
                        }
                        j = j + 1;
                    }
                    proof {
                        assert(ps.take(n as int) =~= ps);
                    }
                    self.dataset_producers.insert(i, (dataset_id, kept));
                    proof {
                        lemma_assoc_set_updates(
                            m0.dataset_producers,
                            dataset_id,
                            ps.filter(pred),
                            i as int,
                        );
                        assert(self@.dataset_producers =~= m0.dataset_producers.update(
                            i as int,
                            (dataset_id, ps.filter(pred)),
                        ));
                        assert(self@ =~= update_producers_model(m0, dataset_id, user, mode, now));
                        assert(store_inv(self@));
                    }
                }
            },
            None => {
                proof {
                    assert forall|j: int|
                        0 <= j < m0.dataset_producers.len() implies (
                    #[trigger] m0.dataset_producers[j]).0 != dataset_id by {
                        assert(m0.dataset_producers[j].0 == self.dataset_producers@[j].0);
                    }
                    lemma_spec_get_none(m0.dataset_producers, dataset_id);
                }
                if mode == UpdateMode::Add {
                    let mut list: Vec<ProducerState> = Vec::new();
                    list.push(new_entry);
                    proof {
                        assert(list@ =~= seq![new_entry]);
                        lemma_assoc_set_appends(m0.dataset_producers, dataset_id, seq![new_entry]);
                    }
                    self.dataset_producers.push((dataset_id, list));
                    proof {
                        assert(self@.dataset_producers =~= m0.dataset_producers.push(
                            (dataset_id, seq![new_entry]),
                        ));
                        assert(self@ =~= update_producers_model(m0, dataset_id, user, mode, now));
                        assert(store_inv(self@));
                    }
                } else {
                    proof {
                        assert(self@ =~= update_producers_model(m0, dataset_id, user, mode, now));
                    }
                }
            },
        }
    }

    /// Registers (or replaces) the caller's analytics token and hands the
    /// token string back.
    pub fn register_analytics_token(&mut self, caller: u64, token: String, now: u64) -> (r: String)
        requires
            old(self).wf(),
        ensures
            final(self).wf(),
            final(self)@ == register_token_model(old(self)@, caller, token, now),
            r == token,
    {
        let ghost m0 = self@;
        let stored = AnalyticsToken {
            token: token.clone(),
            lifetime: 3600,
            created_at: now,
            expire_at: now,
        };
        proof {
            assert(stored == (AnalyticsToken {
                token: token,
                lifetime: 3600,
                created_at: now,
                expire_at: now,
            }));
        }
        let found = find_u64_key(&self.analytics_tokens, caller);
        match found {
            Some(i) => {
                proof {
                    assert forall|j: int| 0 <= j < i implies (
                    #[trigger] m0.analytics_tokens[j]).0 != caller by {
                        assert(m0.analytics_tokens[j].0 == self.analytics_tokens@[j].0);
                    }
                    lemma_spec_get_at(m0.analytics_tokens, caller, i as int);
                    lemma_assoc_set_updates(m0.analytics_tokens, caller, stored, i as int);
                }
                self.analytics_tokens.remove(i);
                self.analytics_tokens.insert(i, (caller, stored));
                proof {
                    assert(self@.analytics_tokens =~= m0.analytics_tokens.update(
                        i as int,
                        (caller, stored),
                    ));
                    assert(self@ =~= register_token_model(m0, caller, token, now));
                    assert(store_inv(self@));
                }
            },
            None => {
                proof {
                    assert forall|j: int|
                        0 <= j < m0.analytics_tokens.len() implies (
                    #[trigger] m0.analytics_tokens[j]).0 != caller by {
                        assert(m0.analytics_tokens[j].0 == self.analytics_tokens@[j].0);
                    }
                    lemma_spec_get_none(m0.analytics_tokens, caller);
                    lemma_assoc_set_appends(m0.analytics_tokens, caller, stored);
                }
                self.analytics_tokens.push((caller, stored));
                proof {
                    assert(self@.analytics_tokens =~= m0.analytics_tokens.push((caller, stored)));
                    assert(self@ =~= register_token_model(m0, caller, token, now));
                    assert(store_inv(self@));
                }
            },
        }
        token
    }

    /// Stores one entry for `dataset_id`: stamps both timestamps with `now`,
    /// prepends it to the dataset's collection (creating the collection when
    /// missing), and — for a `ByUser` record key — drops that identity's old
    /// entry, so that at most one entry per identity remains.
    pub fn put_entry(&mut self, caller: u64, dataset_id: u32, input: &DatasetEntryInput, now: u64)
        requires
            old(self).wf(),
            input.values@.len() <= u32::MAX as nat,
            coll_len(old(self)@, dataset_id) < u32::MAX as nat,
        ensures
            final(self).wf(),
            final(self)@ == put_entry_model(old(self)@, caller, dataset_id, input@, now),
    {
        let ghost m0 = self@;
        let entry = DatasetEntry {
            id: input.id,
            producer: caller,
            values: clone_values(&input.values),
            created_at: now,
            updated_at: now,
        };
        proof {
            assert(entry@ == entry_of(input@, caller, now));
        }
        let found = find_u32_key(&self.dataset_values, dataset_id);
        match found {
            Some(i) => {
                proof {
                    assert forall|j: int| 0 <= j < i implies (#[trigger] m0.dataset_values[j]).0
                        != dataset_id by {
                        assert(m0.dataset_values[j].0 == self.dataset_values@[j].0);
                    }
                    lemma_spec_get_at(m0.dataset_values, dataset_id, i as int);
                }
                let ghost c = m0.dataset_values[i as int].1;
                let ghost pred = |e: EntryModel| keeps_on_put(e, input@.id);
                let n = self.dataset_values[i].1.len();
                let mut new_coll: Vec<DatasetEntry> = Vec::new();
                new_coll.push(entry);
                let mut j: usize = 0;
                while j < n
                    invariant
                        0 <= j <= n,
                        i < self.dataset_values@.len(),
                        n == self.dataset_values@[i as int].1@.len(),
                        c == entries_view(self.dataset_values@[i as int].1@),
                        c.len() == n,
                        pred == (|e: EntryModel| keeps_on_put(e, input@.id)),
                        new_coll@.map_values(|e: DatasetEntry| e@) == seq![
                            entry_of(input@, caller, now),
                        ] + c.take(j as int).filter(pred),
                        input@.values.len() <= u32::MAX as nat,
                        forall|q: int|
                            0 <= q < new_coll@.len() ==> (#[trigger] new_coll@[q])@.values.len()
                                <= u32::MAX as nat,
                        forall|q: int|
                            0 <= q < n ==> (#[trigger] c[q]).values.len() <= u32::MAX as nat,
                    decreases n - j,
                {
                    let e = &self.dataset_values[i].1[j];
                    proof {
                        assert(e@ == c[j as int]);
                    }
                    let keep = match input.id {
                        RecordKey::User(_) => !(e.id == input.id),
                        RecordKey::Id(_) => true,
                    };
                    proof {
                        assert(keep == keeps_on_put(c[j as int], input@.id));
                        lemma_take_push(c, j as int);
                        lemma_filter_push(c.take(j as int), pred, c[j as int]);
                    }
                    let ghost pre = new_coll@;
                    let ghost head = seq![entry_of(input@, caller, now)];
                    if keep {
                        let cl = e.clone();
                        let ghost clv = cl@;
                        new_coll.push(cl);
                        proof {
                            assert(clv == c[j as int]);
                            assert(new_coll@.map_values(|e: DatasetEntry| e@) =~= pre.map_values(
                                |e: DatasetEntry| e@,
                            ).push(clv));
                            assert(c.take(j + 1 as int).filter(pred) == c.take(
                                j as int,
                            ).filter(pred).push(c[j as int]));
                            assert(new_coll@.map_values(|e: DatasetEntry| e@) =~= head + c.take(
                                j + 1 as int,
                            ).filter(pred));
                        }
                    } else {
                        proof {
                            assert(c.take(j + 1 as int).filter(pred) == c.take(
                                j as int,
                            ).filter(pred));
                            assert(new_coll@.map_values(|e: DatasetEntry| e@) =~= head + c.take(
                                j + 1 as int,
                            ).filter(pred));
                        }
                    }
                    j = j + 1;
                }
                proof {
                    assert(c.take(n as int) =~= c);
                }
                let ghost new_view = put_entry_coll(Some(c), input@, caller, now);
                proof {
                    assert(new_coll@.map_values(|e: DatasetEntry| e@) == new_view);
                }
                self.dataset_values.remove(i);
                self.dataset_values.insert(i, (dataset_id, new_coll));
                proof {
                    lemma_assoc_set_updates(m0.dataset_values, dataset_id, new_view, i as int);
                    assert(self@.dataset_values =~= m0.dataset_values.update(
                        i as int,
                        (dataset_id, new_view),
                    ));
                    assert(self@ =~= put_entry_model(m0, caller, dataset_id, input@, now));
                    c.lemma_filter_len(pred);
                    assert(store_inv(self@));
                }
            },
            None => {
                proof {
                    assert forall|j: int|
                        0 <= j < m0.dataset_values.len() implies (
                    #[trigger] m0.dataset_values[j]).0 != dataset_id by {
                        assert(m0.dataset_values[j].0 == self.dataset_values@[j].0);
                    }
                    lemma_spec_get_none(m0.dataset_values, dataset_id);
                }
                let mut new_coll: Vec<DatasetEntry> = Vec::new();
                new_coll.push(entry);
                let ghost new_view = put_entry_coll(None, input@, caller, now);
                proof {
                    assert(new_coll@.map_values(|e: DatasetEntry| e@) =~= new_view);
                }
                self.dataset_values.push((dataset_id, new_coll));
                proof {
                    lemma_assoc_set_appends(m0.dataset_values, dataset_id, new_view);
                    assert(self@.dataset_values =~= m0.dataset_values.push(
                        (dataset_id, new_view),
                    ));
                    assert(self@ =~= put_entry_model(m0, caller, dataset_id, input@, now));
                    assert(store_inv(self@));
                }
            },
        }
    }

    /// Stores each input entry in order, each prepended as `put_entry` does.
    pub fn put_many_entries(
        &mut self,
        caller: u64,
        dataset_id: u32,
        inputs: &Vec<DatasetEntryInput>,
        now: u64,
    )
        requires
            old(self).wf(),
            forall|q: int|
                0 <= q < inputs@.len() ==> (#[trigger] inputs@[q]).values@.len() <= u32::MAX as nat,
            coll_len(old(self)@, dataset_id) + inputs@.len() <= u32::MAX as nat,
        ensures
            final(self).wf(),
            final(self)@ == put_many_model(
                old(self)@,
                caller,
                dataset_id,
                inputs_view(inputs@),
                now,
            ),
    {
        let ghost m0 = self@;
        let ghost iv = inputs_view(inputs@);
        let mut i: usize = 0;
        while i < inputs.len()
            invariant
                0 <= i <= inputs@.len(),
                iv == inputs_view(inputs@),
                iv.len() == inputs@.len(),
                forall|q: int|
                    0 <= q < inputs@.len() ==> (#[trigger] inputs@[q]).values@.len()
                        <= u32::MAX as nat,
                coll_len(m0, dataset_id) + inputs@.len() <= u32::MAX as nat,
                self.wf(),
                self@ == put_many_model(m0, caller, dataset_id, iv.take(i as int), now),
                coll_len(self@, dataset_id) <= coll_len(m0, dataset_id) + i,
            decreases inputs@.len() - i,
        {
            let ghost m_before = self@;
            self.put_entry(caller, dataset_id, &inputs[i], now);
            proof {
                assert(iv[i as int] == inputs@[i as int]@);
                lemma_take_push(iv, i as int);
                lemma_put_many_snoc(m0, caller, dataset_id, iv.take(i as int), iv[i as int], now);
                lemma_put_coll_len(m_before, caller, dataset_id, inputs@[i as int]@, now);
            }
            i = i + 1;
        }
        proof {
            assert(iv.take(inputs@.len() as int) =~= iv);
        }
    }

    /// Removes exactly the entries keyed `ByUser(caller)` from the dataset's
    /// collection; a dataset without a collection is left alone.
    pub fn delete_data_entry(&mut self, caller: u64, dataset_id: u32)
        requires
            old(self).wf(),
        ensures
            final(self).wf(),
            final(self)@ == delete_entry_model(old(self)@, caller, dataset_id),
    {
        let ghost m0 = self@;
        let found = find_u32_key(&self.dataset_values, dataset_id);
        match found {
            Some(i) => {
                proof {
                    assert forall|j: int| 0 <= j < i implies (#[trigger] m0.dataset_values[j]).0
                        != dataset_id by {
                        assert(m0.dataset_values[j].0 == self.dataset_values@[j].0);
                    }
                    lemma_spec_get_at(m0.dataset_values, dataset_id, i as int);
                }
                let ghost c = m0.dataset_values[i as int].1;
                let ghost pred = |e: EntryModel| e.id != RecordKey::User(caller);
                let n = self.dataset_values[i].1.len();
                let mut new_coll: Vec<DatasetEntry> = Vec::new();
                let mut j: usize = 0;
                while j < n
                    invariant
                        0 <= j <= n,
                        i < self.dataset_values@.len(),
                        n == self.dataset_values@[i as int].1@.len(),
                        c == entries_view(self.dataset_values@[i as int].1@),
                        c.len() == n,
                        pred == (|e: EntryModel| e.id != RecordKey::User(caller)),
                        new_coll@.map_values(|e: DatasetEntry| e@) == c.take(j as int).filter(pred),
                        forall|q: int|
                            0 <= q < new_coll@.len() ==> (#[trigger] new_coll@[q])@.values.len()
                                <= u32::MAX as nat,
                        forall|q: int|
                            0 <= q < n ==> (#[trigger] c[q]).values.len() <= u32::MAX as nat,
                    decreases n - j,
                {
                    let e = &self.dataset_values[i].1[j];
                    proof {
                        assert(e@ == c[j as int]);
                        lemma_take_push(c, j as int);
                        lemma_filter_push(c.take(j as int), pred, c[j as int]);
                    }
                    let keep = !(e.id == RecordKey::User(caller));
                    let ghost pre = new_coll@;
                    if keep {
                        let cl = e.clone();
                        let ghost clv = cl@;
                        new_coll.push(cl);
                        proof {
                            assert(clv == c[j as int]);
                            assert(new_coll@.map_values(|e: DatasetEntry| e@) =~= pre.map_values(
                                |e: DatasetEntry| e@,
                            ).push(clv));
                            assert(new_coll@.map_values(|e: DatasetEntry| e@) =~= c.take(
                                j + 1 as int,
                            ).filter(pred));
                        }
                    } else {
                        proof {
                            assert(new_coll@.map_values(|e: DatasetEntry| e@) =~= c.take(
                                j + 1 as int,
                            ).filter(pred));
                        }
                    }
                    j = j + 1;
                }
                proof {
                    assert(c.take(n as int) =~= c);
                }
                let ghost new_view = delete_entry_coll(c, caller);
                proof {
                    assert(new_coll@.map_values(|e: DatasetEntry| e@) == new_view);
                }
                self.dataset_values.remove(i);
                self.dataset_values.insert(i, (dataset_id, new_coll));
                proof {
                    lemma_assoc_set_updates(m0.dataset_values, dataset_id, new_view, i as int);
                    assert(self@.dataset_values =~= m0.dataset_values.update(
                        i as int,
                        (dataset_id, new_view),
                    ));
                    assert(self@ =~= delete_entry_model(m0, caller, dataset_id));
                    c.lemma_filter_len(pred);
                    assert(store_inv(self@));
                }
            },
            None => {
                proof {
                    assert forall|j: int|
                        0 <= j < m0.dataset_values.len() implies (
                    #[trigger] m0.dataset_values[j]).0 != dataset_id by {
                        assert(m0.dataset_values[j].0 == self.dataset_values@[j].0);
                    }
                    lemma_spec_get_none(m0.dataset_values, dataset_id);
                    assert(self@ =~= delete_entry_model(m0, caller, dataset_id));
                }
            },
        }
    }

    /// Removes the calling identity's own entry from the dataset.
    pub fn delete_user_entry(&mut self, caller: u64, dataset_id: u32)
        requires
            old(self).wf(),
        ensures
            final(self).wf(),
            final(self)@ == delete_entry_model(old(self)@, caller, dataset_id),
    {
        self.delete_data_entry(caller, dataset_id)
    }

    /// The erasure sweep: removes the identity's `ByUser` entries from every
    /// dataset's collection, each dataset handled independently.
    pub fn delete_all_entries_of_user(&mut self, caller: u64)
        requires
            old(self).wf(),
        ensures
            final(self).wf(),
            final(self)@ == delete_all_model(old(self)@, caller),
    {
        let ghost m0 = self@;
        let ghost pred = |e: EntryModel| e.id != RecordKey::User(caller);
        let len = self.dataset_values.len();
        let mut i: usize = 0;
        while i < len
            invariant
                0 <= i <= len,
                self@.dataset_values.len() == len,
                m0.dataset_values.len() == len,
                pred == (|e: EntryModel| e.id != RecordKey::User(caller)),
                forall|q: int|
                    0 <= q < i ==> #[trigger] self@.dataset_values[q] == (
                    m0.dataset_values[q].0,
                    delete_entry_coll(m0.dataset_values[q].1, caller),
                ),
                forall|q: int|
                    i <= q < len ==> #[trigger] self@.dataset_values[q] == m0.dataset_values[q],
                self@.datasets == m0.datasets,
                self@.dataset_owners == m0.dataset_owners,
                self@.dataset_producers == m0.dataset_producers,
                self@.queries == m0.queries,
                self@.analytics_tokens == m0.analytics_tokens,
                self@.next_dataset_id == m0.next_dataset_id,
                self@.next_query_id == m0.next_query_id,
                store_inv(m0),
                store_inv(self@),
            decreases len - i,
        {
            let ghost m_pre = self@;
            let ghost c = m_pre.dataset_values[i as int].1;
            let key = self.dataset_values[i].0;
            proof {
                assert(m_pre.dataset_values[i as int] == m0.dataset_values[i as int]);
                assert(key == m0.dataset_values[i as int].0);
            }
            let n = self.dataset_values[i].1.len();
            let mut new_coll: Vec<DatasetEntry> = Vec::new();
            let mut j: usize = 0;
            while j < n
                invariant
                    0 <= j <= n,
                    i < self.dataset_values@.len(),
                    n == self.dataset_values@[i as int].1@.len(),
                    c == entries_view(self.dataset_values@[i as int].1@),
                    c.len() == n,
                    pred == (|e: EntryModel| e.id != RecordKey::User(caller)),
                    new_coll@.map_values(|e: DatasetEntry| e@) == c.take(j as int).filter(pred),
                    forall|q: int|
                        0 <= q < new_coll@.len() ==> (#[trigger] new_coll@[q])@.values.len()
                            <= u32::MAX as nat,
                    forall|q: int|
                        0 <= q < n ==> (#[trigger] c[q]).values.len() <= u32::MAX as nat,
                decreases n - j,
            {
                let e = &self.dataset_values[i].1[j];
                proof {
                    assert(e@ == c[j as int]);
                    lemma_take_push(c, j as int);
                    lemma_filter_push(c.take(j as int), pred, c[j as int]);
                }
                let keep = !(e.id == RecordKey::User(caller));
                let ghost pre = new_coll@;
                if keep {
                    let cl = e.clone();
                    let ghost clv = cl@;
                    new_coll.push(cl);
                    proof {
                        assert(clv == c[j as int]);
                        assert(new_coll@.map_values(|e: DatasetEntry| e@) =~= pre.map_values(
                            |e: DatasetEntry| e@,
                        ).push(clv));
                        assert(new_coll@.map_values(|e: DatasetEntry| e@) =~= c.take(
                            j + 1 as int,
                        ).filter(pred));
                    }
                } else {
                    proof {
                        assert(new_coll@.map_values(|e: DatasetEntry| e@) =~= c.take(
                            j + 1 as int,
                        ).filter(pred));
                    }
                }
                j = j + 1;
            }
            proof {
                assert(c.take(n as int) =~= c);
            }
            self.dataset_values.remove(i);
            self.dataset_values.insert(i, (key, new_coll));
            proof {
                assert(self@.dataset_values =~= m_pre.dataset_values.update(
                    i as int,
                    (key, delete_entry_coll(c, caller)),
                ));
                c.lemma_filter_len(pred);
                assert(store_inv(self@));
            }
            i = i + 1;
        }
        proof {
            assert(self@.dataset_values =~= m0.dataset_values.map_values(
                |p: (u32, Seq<EntryModel>)| (p.0, delete_entry_coll(p.1, caller)),
            ));
            assert(self@ =~= delete_all_model(m0, caller));
        }
    }
}

/// The stored entry a put builds from its input: the producer and both
/// timestamps are stamped on.
pub open spec fn entry_of(input: EntryInputModel, caller: u64, now: u64) -> EntryModel {
    EntryModel {
        id: input.id,
        producer: caller,
        values: input.values,
        created_at: now,
        updated_at: now,
    }
}

/// Whether an existing entry survives a put bearing record key `k`: a
/// `ByUser` key replaces that identity's entry, a numeric key accumulates.
pub open spec fn keeps_on_put(e: EntryModel, k: RecordKey) -> bool {
    match k {
        RecordKey::User(_) => e.id != k,
        RecordKey::Id(_) => true,
    }
}

/// The collection after one put: the new entry prepended to the survivors;
/// a missing collection is created with just the new entry.
pub open spec fn put_entry_coll(
    coll: Option<Seq<EntryModel>>,
    input: EntryInputModel,
    caller: u64,
    now: u64,
) -> Seq<EntryModel> {
    match coll {
        Some(s) => seq![entry_of(input, caller, now)] + s.filter(
            |e: EntryModel| keeps_on_put(e, input.id),
        ),
        None => seq![entry_of(input, caller, now)],
    }
}

/// The store after one put: only the dataset's entry collection changes.
pub open spec fn put_entry_model(
    m: StoreModel,
    caller: u64,
    dataset_id: u32,
    input: EntryInputModel,
    now: u64,
) -> StoreModel {
    StoreModel {
        dataset_values: assoc_set(
            m.dataset_values,
            dataset_id,
            put_entry_coll(spec_get(m.dataset_values, dataset_id), input, caller, now),
        ),
        ..m
    }
}

/// The collection after a delete for `caller`: exactly the entries whose
/// record key is that identity's `ByUser` key are dropped.
pub open spec fn delete_entry_coll(s: Seq<EntryModel>, caller: u64) -> Seq<EntryModel> {
    s.filter(|e: EntryModel| e.id != RecordKey::User(caller))
}

/// The store after a delete: only the dataset's entry collection changes; a
/// dataset without a collection is left alone.
pub open spec fn delete_entry_model(m: StoreModel, caller: u64, dataset_id: u32) -> StoreModel {
    match spec_get(m.dataset_values, dataset_id) {
        Some(c) => StoreModel {
            dataset_values: assoc_set(m.dataset_values, dataset_id, delete_entry_coll(c, caller)),
            ..m
        },
        None => m,
    }
}

/// The store after the erasure sweep: every entry collection is filtered, no
/// dataset is skipped.
pub open spec fn delete_all_model(m: StoreModel, caller: u64) -> StoreModel {
    StoreModel {
        dataset_values: m.dataset_values.map_values(
            |p: (u32, Seq<EntryModel>)| (p.0, delete_entry_coll(p.1, caller)),
        ),
        ..m
    }
}

/// The models of a sequence of entry inputs.
pub open spec fn inputs_view(s: Seq<DatasetEntryInput>) -> Seq<EntryInputModel> {
    s.map_values(|x: DatasetEntryInput| x@)
}

/// The store after a sequence of puts, applied first to last.
pub open spec fn put_many_model(
    m: StoreModel,
    caller: u64,
    dataset_id: u32,
    inputs: Seq<EntryInputModel>,
    now: u64,
) -> StoreModel
    decreases inputs.len(),
{
    if inputs.len() == 0 {
        m
    } else {
        put_many_model(
            put_entry_model(m, caller, dataset_id, inputs[0], now),
            caller,
            dataset_id,
            inputs.drop_first(),
            now,
        )
    }
}

/// The configuration stored for a creation request: active, both timestamps
/// stamped with `now`.
pub open spec fn config_of(req: CreateRequestModel, now: u64) -> ConfigModel {
    ConfigModel {
        name: req.dataset_config.name,
        description: req.dataset_config.description,
        jupyter_notebook: req.dataset_config.jupyter_notebook,
        asset_id: req.dataset_config.asset_id,
        dimensions: req.dataset_config.dimensions,
        is_active: true,
        category: req.category,
        created_at: now,
        updated_at: now,
    }
}

/// The store after creating a dataset: the next id is taken, the caller
/// becomes an owner and the sole initial producer.
pub open spec fn create_dataset_model(
    m: StoreModel,
    caller: u64,
    req: CreateRequestModel,
    now: u64,
) -> StoreModel {
    let id = (m.next_dataset_id + 1) as u32;
    let owned = match spec_get(m.dataset_owners, caller) {
        Some(ids) => ids.push(id),
        None => seq![id],
    };
    StoreModel {
        datasets: assoc_set(m.datasets, id, config_of(req, now)),
        dataset_owners: assoc_set(m.dataset_owners, caller, owned),
        dataset_producers: assoc_set(
            m.dataset_producers,
            id,
            seq![(ProducerState { id: caller, is_enabled: true, created_at: now })],
        ),
        next_dataset_id: id,
        ..m
    }
}

/// The store after deleting a dataset: its configuration, its producers and
/// its entry collection go together.
pub open spec fn delete_dataset_model(m: StoreModel, dataset_id: u32) -> StoreModel {
    StoreModel {
        datasets: assoc_remove(m.datasets, dataset_id),
        dataset_producers: assoc_remove(m.dataset_producers, dataset_id),
        dataset_values: assoc_remove(m.dataset_values, dataset_id),
        ..m
    }
}

/// The caller owns the dataset.
pub open spec fn is_owner(m: StoreModel, caller: u64, dataset_id: u32) -> bool {
    match spec_get(m.dataset_owners, caller) {
        Some(ids) => ids.contains(dataset_id),
        None => false,
    }
}

/// The store after a producer-list update: `Add` appends the new producer,
/// `Remove` drops every producer with that identity; `Add` creates a missing
/// list, `Remove` leaves it missing.
pub open spec fn update_producers_model(
    m: StoreModel,
    dataset_id: u32,
    user: u64,
    mode: UpdateMode,
    now: u64,
) -> StoreModel {
    let new_entry = ProducerState { id: user, is_enabled: true, created_at: now };
    match spec_get(m.dataset_producers, dataset_id) {
        Some(ps) => if mode == UpdateMode::Add {
            StoreModel {
                dataset_producers: assoc_set(m.dataset_producers, dataset_id, ps.push(new_entry)),
                ..m
            }
        } else {
            StoreModel {
                dataset_producers: assoc_set(
                    m.dataset_producers,
                    dataset_id,
                    ps.filter(|p: ProducerState| p.id != user),
                ),
                ..m
            }
        },
        None => if mode == UpdateMode::Add {
            StoreModel {
                dataset_producers: assoc_set(m.dataset_producers, dataset_id, seq![new_entry]),
                ..m
            }
        } else {
            m
        },
    }
}

/// The store after registering a token: the caller's token record is set to
/// the given token string with the fixed lifetime, issued at `now`.
pub open spec fn register_token_model(
    m: StoreModel,
    caller: u64,
    token: String,
    now: u64,
) -> StoreModel {
    StoreModel {
        analytics_tokens: assoc_set(
            m.analytics_tokens,
            caller,
            (AnalyticsToken { token: token, lifetime: 3600, created_at: now, expire_at: now }),
        ),
        ..m
    }
}

/// Some producer in the list has this identity.
pub open spec fn has_producer(ps: Seq<ProducerState>, user: u64) -> bool {
    exists|j: int| 0 <= j < ps.len() && (#[trigger] ps[j]).id == user
}

/// A dataset's name or description contains the search string.
pub open spec fn matches_search(c: ConfigModel, search: String) -> bool {
    crate::text::is_substring_of(search@, c.name@) || crate::text::is_substring_of(
        search@,
        c.description@,
    )
}

/// An entry with only the cells whose dimension id is allowed.
pub open spec fn project_entry(e: EntryModel, dims: Seq<u8>) -> EntryModel {
    EntryModel { values: e.values.filter(|v: DatasetValue| dims.contains(v.dimension_id)), ..e }
}

/// What a read returns: the dataset's entries in stored order, each
/// dimension-projected when an allowed set is given, cut to the first `limit`
/// when a sample limit is given; a missing dataset reads as empty.
pub open spec fn read_entries_model(
    m: StoreModel,
    dataset_id: u32,
    sample: Option<u32>,
    dims: Option<Seq<u8>>,
) -> Seq<EntryModel> {
    let base = match spec_get(m.dataset_values, dataset_id) {
        Some(c) => c,
        None => Seq::<EntryModel>::empty(),
    };
    let projected = match dims {
        Some(ds) => base.map_values(|e: EntryModel| project_entry(e, ds)),
        None => base,
    };
    match sample {
        Some(limit) => if (limit as int) < projected.len() {
            projected.take(limit as int)
        } else {
            projected
        },
        None => projected,
    }
}

/// One put never grows a collection by more than one entry.
pub proof fn lemma_put_coll_len(
    m: StoreModel,
    caller: u64,
    dataset_id: u32,
    input: EntryInputModel,
    now: u64,
)
    ensures
        coll_len(put_entry_model(m, caller, dataset_id, input, now), dataset_id) <= coll_len(
            m,
            dataset_id,
        ) + 1,
{
    let new_coll = put_entry_coll(spec_get(m.dataset_values, dataset_id), input, caller, now);
    crate::seqs::lemma_assoc_set_get_same(m.dataset_values, dataset_id, new_coll);
    match spec_get(m.dataset_values, dataset_id) {
        Some(c) => {
            c.lemma_filter_len(|e: EntryModel| keeps_on_put(e, input.id));
        },
        None => {},
    }
}

/// Applying puts to a sequence extended by one input equals applying them to
/// the sequence and then putting that input.
pub proof fn lemma_put_many_snoc(
    m: StoreModel,
    caller: u64,
    dataset_id: u32,
    s: Seq<EntryInputModel>,
    x: EntryInputModel,
    now: u64,
)
    ensures
        put_many_model(m, caller, dataset_id, s.push(x), now) == put_entry_model(
            put_many_model(m, caller, dataset_id, s, now),
            caller,
            dataset_id,
            x,
            now,
        ),
    decreases s.len(),
{
    if s.len() == 0 {
        assert(s.push(x)[0] == x);
        assert(s.push(x).drop_first() =~= Seq::<EntryInputModel>::empty());
        let m1 = put_entry_model(m, caller, dataset_id, x, now);
        assert(put_many_model(m1, caller, dataset_id, Seq::<EntryInputModel>::empty(), now) == m1);
        assert(put_many_model(m, caller, dataset_id, s, now) == m);
    } else {
        assert(s.push(x)[0] == s[0]);
        assert(s.push(x).drop_first() =~= s.drop_first().push(x));
        lemma_put_many_snoc(
            put_entry_model(m, caller, dataset_id, s[0], now),
            caller,
            dataset_id,
            s.drop_first(),
            x,
            now,
        );
    }
}

/// Whether some producer in the list has this identity.
pub fn producers_contain(list: &Vec<ProducerState>, user: u64) -> (r: bool)
    ensures
        r == has_producer(list@, user),
{
    let mut j: usize = 0;
    while j < list.len()
        invariant
            0 <= j <= list@.len(),
            forall|q: int| 0 <= q < j ==> (#[trigger] list@[q]).id != user,
        decreases list@.len() - j,
    {
        if list[j].id == user {
            proof {
                assert(list@[j as int].id == user);
            }
            return true;
        }
        j = j + 1;
    }
    false
}

/// Whether the list holds this dataset id.
pub fn ids_contain(list: &Vec<u32>, x: u32) -> (r: bool)
    ensures
        r == list@.contains(x),
{
    let mut j: usize = 0;
    while j < list.len()
        invariant
            0 <= j <= list@.len(),
            forall|q: int| 0 <= q < j ==> list@[q] != x,
        decreases list@.len() - j,
    {
        if list[j] == x {
            proof {
                assert(list@[j as int] == x);
            }
            return true;
        }
        j = j + 1;
    }
    false
}

impl Store {
    /// The producer list of a dataset, if one is registered.
    pub fn get_producers(&self, dataset_id: u32) -> (r: Option<Vec<ProducerState>>)
        ensures
            match r {
                Some(v) => spec_get(self@.dataset_producers, dataset_id) == Some(v@),
                None => spec_get(self@.dataset_producers, dataset_id) is None,
            },
    {
        let found = find_u32_key(&self.dataset_producers, dataset_id);
        match found {
            Some(i) => {
                proof {
                    assert forall|j: int| 0 <= j < i implies (
                    #[trigger] self@.dataset_producers[j]).0 != dataset_id by {
                        assert(self@.dataset_producers[j].0 == self.dataset_producers@[j].0);
                    }
                    lemma_spec_get_at(self@.dataset_producers, dataset_id, i as int);
                }
                let list = &self.dataset_producers[i].1;
                let mut out: Vec<ProducerState> = Vec::new();
                let mut j: usize = 0;
                while j < list.len()
                    invariant
                        0 <= j <= list@.len(),
                        out@ == list@.take(j as int),
                    decreases list@.len() - j,
                {
                    out.push(list[j]);
                    assert(out@ =~= list@.take(j + 1 as int));
                    j = j + 1;
                }
                proof {
                    assert(out@ =~= list@);
                    assert(self@.dataset_producers[i as int].1 == list@);
                }
                Some(out)
            },
            None => {
                proof {
                    assert forall|j: int|
                        0 <= j < self@.dataset_producers.len() implies (
                    #[trigger] self@.dataset_producers[j]).0 != dataset_id by {
                        assert(self@.dataset_producers[j].0 == self.dataset_producers@[j].0);
                    }
                    lemma_spec_get_none(self@.dataset_producers, dataset_id);
                }
                None
            },
        }
    }

    /// Whether the caller is among a dataset's producers.
    pub fn is_user_producer(&self, caller: u64, dataset_id: u32) -> (r: bool)
        ensures
            r == (match spec_get(self@.dataset_producers, dataset_id) {
                Some(ps) => has_producer(ps, caller),
                None => false,
            }),
    {
        let found = find_u32_key(&self.dataset_producers, dataset_id);
        match found {
            Some(i) => {
                proof {
                    assert forall|j: int| 0 <= j < i implies (
                    #[trigger] self@.dataset_producers[j]).0 != dataset_id by {
                        assert(self@.dataset_producers[j].0 == self.dataset_producers@[j].0);
                    }
                    lemma_spec_get_at(self@.dataset_producers, dataset_id, i as int);
                }
                let r = producers_contain(&self.dataset_producers[i].1, caller);
                proof {
                    assert(self@.dataset_producers[i as int].1
                        == self.dataset_producers@[i as int].1@);
                }
                r
            },
            None => {
                proof {
                    assert forall|j: int|
                        0 <= j < self@.dataset_producers.len() implies (
                    #[trigger] self@.dataset_producers[j]).0 != dataset_id by {
                        assert(self@.dataset_producers[j].0 == self.dataset_producers@[j].0);
                    }
                    lemma_spec_get_none(self@.dataset_producers, dataset_id);
                }
                false
            },
        }
    }

    /// The ids of every dataset on whose producer list the user appears, in
    /// table order.
    pub fn get_datasets_where_user_is_producers(&self, user: u64) -> (r: Vec<u32>)
        ensures
            r@ == self@.dataset_producers.filter(
                |p: (u32, Seq<ProducerState>)| has_producer(p.1, user),
            ).map_values(|p: (u32, Seq<ProducerState>)| p.0),
    {
        let ghost mt = self@.dataset_producers;
        let ghost pp = |p: (u32, Seq<ProducerState>)| has_producer(p.1, user);
        let mut out: Vec<u32> = Vec::new();
        let mut i: usize = 0;
        while i < self.dataset_producers.len()
            invariant
                0 <= i <= self.dataset_producers@.len(),
                mt == self@.dataset_producers,
                mt.len() == self.dataset_producers@.len(),
                pp == (|p: (u32, Seq<ProducerState>)| has_producer(p.1, user)),
                out@ == mt.take(i as int).filter(pp).map_values(
                    |p: (u32, Seq<ProducerState>)| p.0,
                ),
            decreases self.dataset_producers@.len() - i,
        {
            let found = producers_contain(&self.dataset_producers[i].1, user);
            proof {
                assert(mt[i as int].1 == self.dataset_producers@[i as int].1@);
                assert(found == has_producer(mt[i as int].1, user));
                lemma_take_push(mt, i as int);
                lemma_filter_push(mt.take(i as int), pp, mt[i as int]);
            }
            let ghost pre = out@;
            if found {
                out.push(self.dataset_producers[i].0);
                proof {
                    assert(out@ =~= pre.push(mt[i as int].0));
                    assert(out@ =~= mt.take(i + 1 as int).filter(pp).map_values(
                        |p: (u32, Seq<ProducerState>)| p.0,
                    ));
                }
            } else {
                proof {
                    assert(out@ =~= mt.take(i + 1 as int).filter(pp).map_values(
                        |p: (u32, Seq<ProducerState>)| p.0,
                    ));
                }
            }
            i = i + 1;
        }
        proof {
            assert(mt.take(mt.len() as int) =~= mt);
        }
        out
    }

    /// The ids of every dataset whose name or description contains the search
    /// string, in table order.
    pub fn search_dataset(&self, search: &String) -> (r: Vec<u32>)
        ensures
            r@ == self@.datasets.filter(
                |p: (u32, ConfigModel)| matches_search(p.1, *search),
            ).map_values(|p: (u32, ConfigModel)| p.0),
    {
        let ghost mt = self@.datasets;
        let ghost pp = |p: (u32, ConfigModel)| matches_search(p.1, *search);
        let mut out: Vec<u32> = Vec::new();
        let mut i: usize = 0;
        while i < self.datasets.len()
            invariant
                0 <= i <= self.datasets@.len(),
                mt == self@.datasets,
                mt.len() == self.datasets@.len(),
                pp == (|p: (u32, ConfigModel)| matches_search(p.1, *search)),
                out@ == mt.take(i as int).filter(pp).map_values(|p: (u32, ConfigModel)| p.0),
            decreases self.datasets@.len() - i,
        {
            let config = &self.datasets[i].1;
            let found = crate::text::str_contains(&config.name, search) || crate::text::str_contains(
                &config.description,
                search,
            );
            proof {
                assert(mt[i as int].1 == config@);
                assert(found == matches_search(mt[i as int].1, *search));
                lemma_take_push(mt, i as int);
                lemma_filter_push(mt.take(i as int), pp, mt[i as int]);
            }
            let ghost pre = out@;
            if found {
                out.push(self.datasets[i].0);
                proof {
                    assert(out@ =~= pre.push(mt[i as int].0));
                    assert(out@ =~= mt.take(i + 1 as int).filter(pp).map_values(
                        |p: (u32, ConfigModel)| p.0,
                    ));
                }
            } else {
                proof {
                    assert(out@ =~= mt.take(i + 1 as int).filter(pp).map_values(
                        |p: (u32, ConfigModel)| p.0,
                    ));
                }
            }
            i = i + 1;
        }
        proof {
            assert(mt.take(mt.len() as int) =~= mt);
        }
        out
    }

    /// Every owner with the ids of the datasets they own.
    pub fn get_dataset_ownerships(&self) -> (r: Vec<(u64, Vec<u32>)>)
        ensures
            r@.map_values(|p: (u64, Vec<u32>)| (p.0, p.1@)) == self@.dataset_owners,
    {
        let mut out: Vec<(u64, Vec<u32>)> = Vec::new();
        let mut i: usize = 0;
        while i < self.dataset_owners.len()
            invariant
                0 <= i <= self.dataset_owners@.len(),
                out@.map_values(|p: (u64, Vec<u32>)| (p.0, p.1@)) == self@.dataset_owners.take(
                    i as int,
                ),
            decreases self.dataset_owners@.len() - i,
        {
            let pair = &self.dataset_owners[i];
            let ghost pre = out@;
            out.push((pair.0, clone_ids(&pair.1)));
            proof {
                assert(out@.map_values(|p: (u64, Vec<u32>)| (p.0, p.1@)) =~= pre.map_values(
                    |p: (u64, Vec<u32>)| (p.0, p.1@),
                ).push(self@.dataset_owners[i as int]));
                assert(out@.map_values(|p: (u64, Vec<u32>)| (p.0, p.1@))
                    =~= self@.dataset_owners.take(i + 1 as int));
            }
            i = i + 1;
        }
        proof {
            assert(self@.dataset_owners.take(self@.dataset_owners.len() as int)
                =~= self@.dataset_owners);
        }
        out
    }

    /// The configuration of a dataset, if it is registered.
    pub fn get_dataset_by_dataset_id(&self, dataset_id: u32) -> (r: Option<DatasetConfiguration>)
        ensures
            match r {
                Some(c) => spec_get(self@.datasets, dataset_id) == Some(c@),
                None => spec_get(self@.datasets, dataset_id) is None,
            },
    {
        let found = find_u32_key(&self.datasets, dataset_id);
        match found {
            Some(i) => {
                proof {
                    assert forall|j: int| 0 <= j < i implies (#[trigger] self@.datasets[j]).0
                        != dataset_id by {
                        assert(self@.datasets[j].0 == self.datasets@[j].0);
                    }
                    lemma_spec_get_at(self@.datasets, dataset_id, i as int);
                }
                let c = self.datasets[i].1.clone();
                proof {
                    assert(self@.datasets[i as int].1 == c@);
                }
                Some(c)
            },
            None => {
                proof {
                    assert forall|j: int|
                        0 <= j < self@.datasets.len() implies (#[trigger] self@.datasets[j]).0
                        != dataset_id by {
                        assert(self@.datasets[j].0 == self.datasets@[j].0);
                    }
                    lemma_spec_get_none(self@.datasets, dataset_id);
                }
                None
            },
        }
    }

    /// Every dataset with its id, in table order.
    pub fn get_all_datasets(&self) -> (r: Vec<(u32, DatasetConfiguration)>)
        ensures
            r@.map_values(|p: (u32, DatasetConfiguration)| (p.0, p.1@)) == self@.datasets,
    {
        let mut out: Vec<(u32, DatasetConfiguration)> = Vec::new();
        let mut i: usize = 0;
        while i < self.datasets.len()
            invariant
                0 <= i <= self.datasets@.len(),
                out@.map_values(|p: (u32, DatasetConfiguration)| (p.0, p.1@)) == self@.datasets.take(
                    i as int,
                ),
            decreases self.datasets@.len() - i,
        {
            let pair = &self.datasets[i];
            let ghost pre = out@;
            out.push((pair.0, pair.1.clone()));
            proof {
                assert(out@.map_values(|p: (u32, DatasetConfiguration)| (p.0, p.1@))
                    =~= pre.map_values(|p: (u32, DatasetConfiguration)| (p.0, p.1@)).push(
                    self@.datasets[i as int],
                ));
                assert(out@.map_values(|p: (u32, DatasetConfiguration)| (p.0, p.1@))
                    =~= self@.datasets.take(i + 1 as int));
            }
            i = i + 1;
        }
        proof {
            assert(self@.datasets.take(self@.datasets.len() as int) =~= self@.datasets);
        }
        out
    }

    /// For each requested id, the dataset's configuration or nothing.
    pub fn get_many_datasets(&self, ids: &Vec<u32>) -> (r: Vec<(u32, Option<DatasetConfiguration>)>)
        ensures
            r@.len() == ids@.len(),
            forall|q: int|
                0 <= q < ids@.len() ==> (#[trigger] r@[q]).0 == ids@[q] && (match r@[q].1 {
                    Some(c) => spec_get(self@.datasets, ids@[q]) == Some(c@),
                    None => spec_get(self@.datasets, ids@[q]) is None,
                }),
    {
        let mut out: Vec<(u32, Option<DatasetConfiguration>)> = Vec::new();
        let mut i: usize = 0;
        while i < ids.len()
            invariant
                0 <= i <= ids@.len(),
                out@.len() == i,
                forall|q: int|
                    0 <= q < i ==> (#[trigger] out@[q]).0 == ids@[q] && (match out@[q].1 {
                        Some(c) => spec_get(self@.datasets, ids@[q]) == Some(c@),
                        None => spec_get(self@.datasets, ids@[q]) is None,
                    }),
            decreases ids@.len() - i,
        {
            let id = ids[i];
            let c = self.get_dataset_by_dataset_id(id);
            out.push((id, c));
            i = i + 1;
        }
        out
    }

    /// The ids of the datasets the user owns, if the user owns any.
    pub fn get_user_datasets(&self, user_id: u64) -> (r: Option<Vec<u32>>)
        ensures
            match r {
                Some(v) => spec_get(self@.dataset_owners, user_id) == Some(v@),
                None => spec_get(self@.dataset_owners, user_id) is None,
            },
    {
        let found = find_u64_key(&self.dataset_owners, user_id);
        match found {
            Some(i) => {
                proof {
                    assert forall|j: int| 0 <= j < i implies (#[trigger] self@.dataset_owners[j]).0
                        != user_id by {
                        assert(self@.dataset_owners[j].0 == self.dataset_owners@[j].0);
                    }
                    lemma_spec_get_at(self@.dataset_owners, user_id, i as int);
                }
                let v = clone_ids(&self.dataset_owners[i].1);
                proof {
                    assert(self@.dataset_owners[i as int].1 == v@);
                }
                Some(v)
            },
            None => {
                proof {
                    assert forall|j: int|
                        0 <= j < self@.dataset_owners.len() implies (
                    #[trigger] self@.dataset_owners[j]).0 != user_id by {
                        assert(self@.dataset_owners[j].0 == self.dataset_owners@[j].0);
                    }
                    lemma_spec_get_none(self@.dataset_owners, user_id);
                }
                None
            },
        }
    }

    /// Whether the caller owns the dataset, which producer-list updates
    /// demand of their caller.
    pub fn is_dataset_owner(&self, caller: u64, dataset_id: u32) -> (r: bool)
        ensures
            r == is_owner(self@, caller, dataset_id),
    {
        let found = find_u64_key(&self.dataset_owners, caller);
        match found {
            Some(i) => {
                proof {
                    assert forall|j: int| 0 <= j < i implies (#[trigger] self@.dataset_owners[j]).0
                        != caller by {
                        assert(self@.dataset_owners[j].0 == self.dataset_owners@[j].0);
                    }
                    lemma_spec_get_at(self@.dataset_owners, caller, i as int);
                }
                let r = ids_contain(&self.dataset_owners[i].1, dataset_id);
                proof {
                    assert(self@.dataset_owners[i as int].1 == self.dataset_owners@[i as int].1@);
                }
                r
            },
            None => {
                proof {
                    assert forall|j: int|
                        0 <= j < self@.dataset_owners.len() implies (
                    #[trigger] self@.dataset_owners[j]).0 != caller by {
                        assert(self@.dataset_owners[j].0 == self.dataset_owners@[j].0);
                    }
                    lemma_spec_get_none(self@.dataset_owners, caller);
                }
                false
            },
        }
    }

    /// The caller's own entries in a dataset: exactly those keyed
    /// `ByUser(caller)`, in stored order.
    pub fn get_user_data_by_dataset_id(&self, caller: u64, dataset_id: u32) -> (r: Vec<
        DatasetEntry,
    >)
        ensures
            entries_view(r@) == (match spec_get(self@.dataset_values, dataset_id) {
                Some(c) => c.filter(|e: EntryModel| e.id == RecordKey::User(caller)),
                None => Seq::<EntryModel>::empty(),
            }),
    {
        let found = find_u32_key(&self.dataset_values, dataset_id);
        let mut out: Vec<DatasetEntry> = Vec::new();
        match found {
            Some(i) => {
                proof {
                    assert forall|j: int| 0 <= j < i implies (#[trigger] self@.dataset_values[j]).0
                        != dataset_id by {
                        assert(self@.dataset_values[j].0 == self.dataset_values@[j].0);
                    }
                    lemma_spec_get_at(self@.dataset_values, dataset_id, i as int);
                }
                let ghost c = self@.dataset_values[i as int].1;
                let ghost pred = |e: EntryModel| e.id == RecordKey::User(caller);
                let list = &self.dataset_values[i].1;
                let mut j: usize = 0;
                while j < list.len()
                    invariant
                        0 <= j <= list@.len(),
                        c == entries_view(list@),
                        c.len() == list@.len(),
                        pred == (|e: EntryModel| e.id == RecordKey::User(caller)),
                        entries_view(out@) == c.take(j as int).filter(pred),
                    decreases list@.len() - j,
                {
                    let e = &list[j];
                    proof {
                        assert(e@ == c[j as int]);
                        lemma_take_push(c, j as int);
                        lemma_filter_push(c.take(j as int), pred, c[j as int]);
                    }
                    let ghost pre = out@;
                    if e.id == RecordKey::User(caller) {
                        let cl = e.clone();
                        let ghost clv = cl@;
                        out.push(cl);
                        proof {
                            assert(clv == c[j as int]);
                            assert(entries_view(out@) =~= entries_view(pre).push(clv));
                            assert(entries_view(out@) =~= c.take(j + 1 as int).filter(pred));
                        }
                    } else {
                        proof {
                            assert(entries_view(out@) =~= c.take(j + 1 as int).filter(pred));
                        }
                    }
                    j = j + 1;
                }
                proof {
                    assert(c.take(c.len() as int) =~= c);
                }
            },
            None => {
                proof {
                    assert forall|j: int|
                        0 <= j < self@.dataset_values.len() implies (
                    #[trigger] self@.dataset_values[j]).0 != dataset_id by {
                        assert(self@.dataset_values[j].0 == self.dataset_values@[j].0);
                    }
                    lemma_spec_get_none(self@.dataset_values, dataset_id);
                    assert(entries_view(out@) =~= Seq::<EntryModel>::empty());
                }
            },
        }
        out
    }

    /// For each requested id, how many entries its collection holds; a
    /// dataset without a collection counts zero.
    pub fn get_dataset_entry_counts(&self, dataset_ids: &Vec<u32>) -> (r: Vec<(u32, usize)>)
        ensures
            r@.len() == dataset_ids@.len(),
            forall|q: int|
                0 <= q < dataset_ids@.len() ==> (#[trigger] r@[q]).0 == dataset_ids@[q]
                    && r@[q].1 == coll_len(self@, dataset_ids@[q]),
    {
        let mut out: Vec<(u32, usize)> = Vec::new();
        let mut i: usize = 0;
        while i < dataset_ids.len()
            invariant
                0 <= i <= dataset_ids@.len(),
                out@.len() == i,
                forall|q: int|
                    0 <= q < i ==> (#[trigger] out@[q]).0 == dataset_ids@[q] && out@[q].1
                        == coll_len(self@, dataset_ids@[q]),
            decreases dataset_ids@.len() - i,
        {
            let id = dataset_ids[i];
            let found = find_u32_key(&self.dataset_values, id);
            let n: usize = match found {
                Some(k) => {
                    proof {
                        assert forall|j: int| 0 <= j < k implies (
                        #[trigger] self@.dataset_values[j]).0 != id by {
                            assert(self@.dataset_values[j].0 == self.dataset_values@[j].0);
                        }
                        lemma_spec_get_at(self@.dataset_values, id, k as int);
                    }
                    self.dataset_values[k].1.len()
                },
                None => {
                    proof {
                        assert forall|j: int|
                            0 <= j < self@.dataset_values.len() implies (
                        #[trigger] self@.dataset_values[j]).0 != id by {
                            assert(self@.dataset_values[j].0 == self.dataset_values@[j].0);
                        }
                        lemma_spec_get_none(self@.dataset_values, id);
                    }
                    0
                },
            };
            out.push((id, n));
            i = i + 1;
        }
        out
    }
}

/// Position of the first pair keyed `k`, if any.
pub fn find_u32_key<V>(s: &Vec<(u32, V)>, k: u32) -> (r: Option<usize>)
    ensures
        match r {
            Some(i) => 0 <= i < s@.len() && s@[i as int].0 == k && (forall|j: int|
                0 <= j < i ==> (#[trigger] s@[j]).0 != k),
            None => forall|j: int| 0 <= j < s@.len() ==> (#[trigger] s@[j]).0 != k,
        },
{
    let mut i: usize = 0;
    while i < s.len()
        invariant
            0 <= i <= s.len(),
            forall|j: int| 0 <= j < i ==> (#[trigger] s@[j]).0 != k,
        decreases s.len() - i,
    {
        if s[i].0 == k {
            return Some(i);
        }
        i = i + 1;
    }
    None
}

/// Reads a dataset's entries: in stored order, each dimension-projected when
/// an allowed set is given (cells outside it are dropped), and cut to the
/// first `limit` entries when a sample limit is given. A dataset without a
/// collection reads as empty.
pub fn get_data_by_dataset_id(
    store: &Store,
    dataset_id: u32,
    sample: Option<u32>,
    attributes: Option<Vec<u8>>,
) -> (r: Vec<DatasetEntry>)
    ensures
        entries_view(r@) == read_entries_model(
            store@,
            dataset_id,
            sample,
            (match attributes {
                Some(a) => Some(a@),
                None => None,
            }),
        ),
{
    let found = find_u32_key(&store.dataset_values, dataset_id);
    let mut out: Vec<DatasetEntry> = Vec::new();
    let ghost base: Seq<EntryModel> = (match spec_get(store@.dataset_values, dataset_id) {
        Some(c) => c,
        None => Seq::<EntryModel>::empty(),
    });
    match found {
        Some(i) => {
            proof {
                assert forall|j: int| 0 <= j < i implies (#[trigger] store@.dataset_values[j]).0
                    != dataset_id by {
                    assert(store@.dataset_values[j].0 == store.dataset_values@[j].0);
                }
                lemma_spec_get_at(store@.dataset_values, dataset_id, i as int);
            }
            let ghost c = store@.dataset_values[i as int].1;
            let list = &store.dataset_values[i].1;
            match &attributes {
                Some(att) => {
                    let ghost ds = att@;
                    let mut j: usize = 0;
                    while j < list.len()
                        invariant
                            0 <= j <= list@.len(),
                            c == entries_view(list@),
                            c.len() == list@.len(),
                            ds == att@,
                            entries_view(out@) == c.take(j as int).map_values(
                                |e: EntryModel| project_entry(e, ds),
                            ),
                        decreases list@.len() - j,
                    {
                        let e = &list[j];
                        proof {
                            assert(e@ == c[j as int]);
                        }
                        let ghost predv = |v: DatasetValue| ds.contains(v.dimension_id);
                        let vals = &e.values;
                        let mut kept: Vec<DatasetValue> = Vec::new();
                        let mut k: usize = 0;
                        while k < vals.len()
                            invariant
                                0 <= k <= vals@.len(),
                                ds == att@,
                                predv == (|v: DatasetValue| ds.contains(v.dimension_id)),
                                kept@ == vals@.take(k as int).filter(predv),
                            decreases vals@.len() - k,
                        {
                            proof {
                                lemma_take_push(vals@, k as int);
                                lemma_filter_push(vals@.take(k as int), predv, vals@[k as int]);
                            }
                            let keep = crate::seqs::contains_dim(att, vals[k].dimension_id);
                            let ghost prek = kept@;
                            if keep {
                                let cl = vals[k].clone();
                                kept.push(cl);
                                proof {
                                    assert(kept@ =~= vals@.take(k + 1 as int).filter(predv));
                                }
                            } else {
                                proof {
                                    assert(kept@ =~= vals@.take(k + 1 as int).filter(predv));
                                }
                            }
                            k = k + 1;
                        }
                        proof {
                            assert(vals@.take(vals@.len() as int) =~= vals@);
                        }
                        let projected = DatasetEntry {
                            id: e.id,
                            producer: e.producer,
                            values: kept,
                            created_at: e.created_at,
                            updated_at: e.updated_at,
                        };
                        let ghost pv = projected@;
                        let ghost pre = out@;
                        proof {
                            assert(pv == project_entry(c[j as int], ds));
                        }
                        out.push(projected);
                        proof {
                            assert(entries_view(out@) =~= entries_view(pre).push(pv));
                            lemma_take_push(c, j as int);
                            assert(c.take(j + 1 as int).map_values(
                                |e: EntryModel| project_entry(e, ds),
                            ) =~= c.take(j as int).map_values(
                                |e: EntryModel| project_entry(e, ds),
                            ).push(project_entry(c[j as int], ds)));
                            assert(entries_view(out@) =~= c.take(j + 1 as int).map_values(
                                |e: EntryModel| project_entry(e, ds),
                            ));
                        }
                        j = j + 1;
                    }
                    proof {
                        assert(c.take(c.len() as int) =~= c);
                    }
                },
                None => {
                    let mut j: usize = 0;
                    while j < list.len()
                        invariant
                            0 <= j <= list@.len(),
                            c == entries_view(list@),
                            c.len() == list@.len(),
                            entries_view(out@) == c.take(j as int),
                        decreases list@.len() - j,
                    {
                        let e = &list[j];
                        proof {
                            assert(e@ == c[j as int]);
                        }
                        let cl = e.clone();
                        let ghost clv = cl@;
                        let ghost pre = out@;
                        out.push(cl);
                        proof {
                            assert(entries_view(out@) =~= entries_view(pre).push(clv));
                            assert(entries_view(out@) =~= c.take(j + 1 as int));
                        }
                        j = j + 1;
                    }
                    proof {
                        assert(c.take(c.len() as int) =~= c);
                    }
                },
            }
        },
        None => {
            proof {
                assert forall|j: int|
                    0 <= j < store@.dataset_values.len() implies (
                #[trigger] store@.dataset_values[j]).0 != dataset_id by {
                    assert(store@.dataset_values[j].0 == store.dataset_values@[j].0);
                }
                lemma_spec_get_none(store@.dataset_values, dataset_id);
                assert(entries_view(out@) =~= Seq::<EntryModel>::empty());
                if attributes is Some {
                    let ds = attributes->Some_0@;
                    assert(Seq::<EntryModel>::empty().map_values(
                        |e: EntryModel| project_entry(e, ds),
                    ) =~= Seq::<EntryModel>::empty());
                }
            }
        },
    }
    let ghost projected_view = entries_view(out@);
    match sample {
        Some(limit) => {
            if (limit as usize) < out.len() {
                out.truncate(limit as usize);
                proof {
                    assert(entries_view(out@) =~= projected_view.take(limit as int));
                }
            }
        },
        None => {},
    }
    out
}

/// A small unfiltered sample of a dataset: its first thirty entries in
/// stored order.
pub fn get_dataset_sample(store: &Store, dataset_id: u32) -> (r: Vec<DatasetEntry>)
    ensures
        entries_view(r@) == read_entries_model(store@, dataset_id, Some(30u32), None),
{
    get_data_by_dataset_id(store, dataset_id, Some(30), None)
}

/// How many entries of a collection are keyed `ByUser(u)`.
pub open spec fn user_count(s: Seq<EntryModel>, u: u64) -> nat {
    s.filter(|e: EntryModel| e.id == RecordKey::User(u)).len()
}

/// No identity has more than one `ByUser` entry in the collection.
pub open spec fn user_unique(s: Seq<EntryModel>) -> bool {
    forall|u: u64| user_count(s, u) <= 1
}

/// No identity has more than one `ByUser` entry in any dataset of the store.
pub open spec fn store_user_unique(m: StoreModel) -> bool {
    forall|id: u32|
        match #[trigger] spec_get(m.dataset_values, id) {
            Some(c) => user_unique(c),
            None => true,
        }
}

/// One put keeps identities' entries unique: the put key's identity ends up
/// with exactly one entry, and no other identity's entry count rises.
pub proof fn lemma_put_coll_user_unique(
    coll: Option<Seq<EntryModel>>,
    input: EntryInputModel,
    caller: u64,
    now: u64,
)
    requires
        (match coll {
            Some(s) => user_unique(s),
            None => true,
        }),
    ensures
        user_unique(put_entry_coll(coll, input, caller, now)),
        forall|u: u64|
            input.id == RecordKey::User(u) ==> user_count(
                put_entry_coll(coll, input, caller, now),
                u,
            ) == 1,
{
    let entry = entry_of(input, caller, now);
    let keep = |e: EntryModel| keeps_on_put(e, input.id);
    let new = put_entry_coll(coll, input, caller, now);
    assert forall|u: u64| user_count(new, u) <= 1 && (input.id == RecordKey::User(u)
        ==> user_count(new, u) == 1) by {
        let isu = |e: EntryModel| e.id == RecordKey::User(u);
        crate::seqs::lemma_filter_singleton(entry, isu);
        match coll {
            Some(s) => {
                let kept = s.filter(keep);
                Seq::filter_distributes_over_add(seq![entry], kept, isu);
                assert(new.filter(isu) == seq![entry].filter(isu) + kept.filter(isu));
                if input.id == RecordKey::User(u) {
                    assert forall|j: int| 0 <= j < kept.len() implies !isu(#[trigger] kept[j]) by {
                        s.lemma_filter_pred(keep, j);
                    }
                    crate::seqs::lemma_filter_none(kept, isu);
                    assert(seq![entry].filter(isu) == seq![entry]);
                    assert(user_count(new, u) == 1);
                } else {
                    assert(!isu(entry));
                    assert(seq![entry].filter(isu) == Seq::<EntryModel>::empty());
                    crate::seqs::lemma_filter_compose(s, keep, isu);
                    crate::seqs::lemma_filter_len_monotone(
                        s,
                        |x: EntryModel| keep(x) && isu(x),
                        isu,
                    );
                    assert(kept.filter(isu).len() <= s.filter(isu).len());
                    assert(user_count(new, u) <= user_count(s, u));
                }
            },
            None => {
                assert(new == seq![entry]);
                if input.id == RecordKey::User(u) {
                    assert(isu(entry));
                    assert(user_count(new, u) == 1);
                } else {
                    assert(!isu(entry));
                    assert(user_count(new, u) == 0);
                }
            },
        }
    }
}

/// One put keeps the whole store's identities' entries unique.
pub proof fn lemma_put_entry_store_user_unique(
    m: StoreModel,
    caller: u64,
    dataset_id: u32,
    input: EntryInputModel,
    now: u64,
)
    requires
        store_user_unique(m),
    ensures
        store_user_unique(put_entry_model(m, caller, dataset_id, input, now)),
{
    let m1 = put_entry_model(m, caller, dataset_id, input, now);
    let new_coll = put_entry_coll(spec_get(m.dataset_values, dataset_id), input, caller, now);
    assert forall|id: u32|
        match #[trigger] spec_get(m1.dataset_values, id) {
            Some(c) => user_unique(c),
            None => true,
        } by {
        if id == dataset_id {
            crate::seqs::lemma_assoc_set_get_same(m.dataset_values, dataset_id, new_coll);
            assert(match spec_get(m.dataset_values, dataset_id) {
                Some(c) => user_unique(c),
                None => true,
            });
            lemma_put_coll_user_unique(spec_get(m.dataset_values, dataset_id), input, caller, now);
        } else {
            crate::seqs::lemma_assoc_set_get_other(m.dataset_values, dataset_id, new_coll, id);
            assert(match spec_get(m.dataset_values, id) {
                Some(c) => user_unique(c),
                None => true,
            });
        }
    }
}

/// Uniqueness by key: after any sequence of puts — in particular puts bearing
/// only `ByUser` keys — no identity ever holds more than one entry in any
/// dataset, provided no identity did before.
pub proof fn lemma_put_many_user_uniqueness(
    m: StoreModel,
    caller: u64,
    dataset_id: u32,
    inputs: Seq<EntryInputModel>,
    now: u64,
)
    requires
        store_user_unique(m),
    ensures
        store_user_unique(put_many_model(m, caller, dataset_id, inputs, now)),
    decreases inputs.len(),
{
    if inputs.len() > 0 {
        lemma_put_entry_store_user_unique(m, caller, dataset_id, inputs[0], now);
        lemma_put_many_user_uniqueness(
            put_entry_model(m, caller, dataset_id, inputs[0], now),
            caller,
            dataset_id,
            inputs.drop_first(),
            now,
        );
    }
}

/// Delete idempotence: deleting an identity's entry twice in a row leaves the
/// same store as deleting it once.
pub proof fn lemma_delete_entry_idempotent(m: StoreModel, caller: u64, dataset_id: u32)
    ensures
        delete_entry_model(delete_entry_model(m, caller, dataset_id), caller, dataset_id)
            == delete_entry_model(m, caller, dataset_id),
{
    let pred = |e: EntryModel| e.id != RecordKey::User(caller);
    match spec_get(m.dataset_values, dataset_id) {
        Some(c) => {
            let m1 = delete_entry_model(m, caller, dataset_id);
            crate::seqs::lemma_assoc_set_get_same(
                m.dataset_values,
                dataset_id,
                delete_entry_coll(c, caller),
            );
            crate::seqs::lemma_filter_idempotent(c, pred);
            crate::seqs::lemma_assoc_set_absorb(
                m.dataset_values,
                dataset_id,
                delete_entry_coll(c, caller),
            );
            assert(delete_entry_model(m1, caller, dataset_id) =~= m1);
        },
        None => {},
    }
}

/// Sweep isolation: erasing one identity's data never removes another
/// identity's entries, in any dataset — every entry not keyed by the erased
/// identity is still in its dataset's collection after the sweep.
pub proof fn lemma_sweep_isolation(m: StoreModel, caller: u64)
    ensures
        delete_all_model(m, caller).dataset_values.len() == m.dataset_values.len(),
        forall|d: int|
            0 <= d < m.dataset_values.len() ==> (#[trigger] delete_all_model(
                m,
                caller,
            ).dataset_values[d]).0 == m.dataset_values[d].0,
        forall|d: int, j: int|
            0 <= d < m.dataset_values.len() && 0 <= j < m.dataset_values[d].1.len() && (
            #[trigger] m.dataset_values[d].1[j]).id != RecordKey::User(caller)
                ==> delete_all_model(m, caller).dataset_values[d].1.contains(
                m.dataset_values[d].1[j],
            ),
{
    let m1 = delete_all_model(m, caller);
    let pred = |e: EntryModel| e.id != RecordKey::User(caller);
    assert forall|d: int, j: int|
        0 <= d < m.dataset_values.len() && 0 <= j < m.dataset_values[d].1.len() && (
        #[trigger] m.dataset_values[d].1[j]).id != RecordKey::User(caller) implies m1.dataset_values[d].1.contains(
        m.dataset_values[d].1[j],
    ) by {
        let c = m.dataset_values[d].1;
        assert(m1.dataset_values[d].1 == delete_entry_coll(c, caller));
        c.lemma_filter_contains(pred, j);
    }
}

/// Position of the first pair keyed `k`, if any.
pub fn find_u64_key<V>(s: &Vec<(u64, V)>, k: u64) -> (r: Option<usize>)
    ensures
        match r {
            Some(i) => 0 <= i < s@.len() && s@[i as int].0 == k && (forall|j: int|
                0 <= j < i ==> (#[trigger] s@[j]).0 != k),
            None => forall|j: int| 0 <= j < s@.len() ==> (#[trigger] s@[j]).0 != k,
        },
{
    let mut i: usize = 0;
    while i < s.len()
        invariant
            0 <= i <= s.len(),
            forall|j: int| 0 <= j < i ==> (#[trigger] s@[j]).0 != k,
        decreases s.len() - i,
    {
        if s[i].0 == k {
            return Some(i);
        }
        i = i + 1;
    }
    None
}

} // verus!
