//! The backend store: a concurrency-safe flat key/value map and a map of
//! named hash tables, held in `dashmap::DashMap` behind trusted wrappers
//! and modeled as mathematical maps.
use vstd::prelude::*;

use dashmap::DashMap;

use crate::frame::RespFrame;
use crate::frame::frame_view;

verus! {

#[verifier::external_type_specification]
#[verifier::external_body]
#[verifier::reject_recursive_types(K)]
#[verifier::reject_recursive_types(V)]
#[verifier::reject_recursive_types(S)]
pub struct ExDashMap<K, V, S>(DashMap<K, V, S>);

/// The empty flat mapping.
pub open spec fn empty_kv() -> Map<Seq<char>, RespFrame> {
    Map::empty()
}

/// The empty mapping of named tables.
pub open spec fn empty_tables() -> Map<Seq<char>, Map<Seq<char>, RespFrame>> {
    Map::empty()
}

/// The contents of the flat key/value map.
pub uninterp spec fn kv_contents(m: DashMap<String, RespFrame>) -> Map<Seq<char>, RespFrame>;

/// The contents of the map of named tables, each table given directly as
/// the mapping it holds.
pub uninterp spec fn table_contents(m: DashMap<String, DashMap<String, RespFrame>>) -> Map<
    Seq<char>,
    Map<Seq<char>, RespFrame>,
>;

/// Makes a flat map; nothing is assumed of it until it is cleared.
#[verifier::external_body]
fn dm_new_kv() -> DashMap<String, RespFrame> {
    DashMap::new()
}

/// Makes a map of tables; nothing is assumed of it until it is cleared.
#[verifier::external_body]
fn dm_new_tables() -> DashMap<String, DashMap<String, RespFrame>> {
    DashMap::new()
}

/// Relies on `DashMap::clear`: every entry is removed.
#[verifier::external_body]
fn dm_clear_kv(m: &mut DashMap<String, RespFrame>)
    ensures
        kv_contents(*final(m)) == empty_kv(),
{
    m.clear();
}

/// Relies on `DashMap::clear`: every entry is removed.
#[verifier::external_body]
fn dm_clear_tables(m: &mut DashMap<String, DashMap<String, RespFrame>>)
    ensures
        table_contents(*final(m)) == empty_tables(),
{
    m.clear();
}

/// Relies on `DashMap::insert`: the entry is added to the contents, an
/// existing entry under the same key replaced.
#[verifier::external_body]
fn dm_insert(m: &mut DashMap<String, RespFrame>, k: String, v: RespFrame)
    ensures
        kv_contents(*final(m)) == kv_contents(*old(m)).insert(k@, v),
{
    m.insert(k, v);
}

/// Relies on `DashMap::get` and on the clone of the stored frame, which
/// preserves its model: the value stored under the key, if any.
#[verifier::external_body]
fn dm_get(m: &DashMap<String, RespFrame>, k: &str) -> (r: Option<RespFrame>)
    ensures
        match r {
            Option::Some(v) => kv_contents(*m).dom().contains(k@) && frame_view(v) == frame_view(
                kv_contents(*m)[k@],
            ),
            Option::None => !kv_contents(*m).dom().contains(k@),
        },
{
    m.get(k).map(|v| v.value().clone())
}

/// Relies on `DashMap::entry`, `Entry::or_default` and `DashMap::insert`:
/// the named table is created empty on first reference, and the entry is
/// written into it, an existing entry under the same key replaced.
#[verifier::external_body]
fn dm_table_insert(
    m: &mut DashMap<String, DashMap<String, RespFrame>>,
    table: String,
    k: String,
    v: RespFrame,
)
    ensures
        table_contents(*final(m)) == table_contents(*old(m)).insert(
            table@,
            (if table_contents(*old(m)).dom().contains(table@) {
                table_contents(*old(m))[table@]
            } else {
                Map::<Seq<char>, RespFrame>::empty()
            }).insert(k@, v),
        ),
{
    m.entry(table).or_default().insert(k, v);
}

/// Relies on `DashMap::get` twice and on the clone of the stored frame,
/// which preserves its model: the value stored under the key of the named
/// table, if both exist.
#[verifier::external_body]
fn dm_table_get(m: &DashMap<String, DashMap<String, RespFrame>>, table: &str, k: &str) -> (r:
    Option<RespFrame>)
    ensures
        match r {
            Option::Some(v) => table_contents(*m).dom().contains(table@) && table_contents(
                *m,
            )[table@].dom().contains(k@) && frame_view(v) == frame_view(
                table_contents(*m)[table@][k@],
            ),
            Option::None => !(table_contents(*m).dom().contains(table@) && table_contents(
                *m,
            )[table@].dom().contains(k@)),
        },
{
    m.get(table).and_then(|t| t.get(k).map(|v| v.value().clone()))
}

/// Relies on `DashMap::get` and the `Clone` impl of `DashMap`, which
/// copies the contents entry by entry: a snapshot of the named table.
#[verifier::external_body]
fn dm_table_snapshot(m: &DashMap<String, DashMap<String, RespFrame>>, table: &str) -> (r: Option<
    DashMap<String, RespFrame>,
>)
    ensures
        match r {
            Option::Some(t) => table_contents(*m).dom().contains(table@) && kv_contents(t).dom()
                =~= table_contents(*m)[table@].dom() && forall|k: Seq<char>|
                kv_contents(t).dom().contains(k) ==> frame_view(#[trigger] kv_contents(t)[k])
                    == frame_view(table_contents(*m)[table@][k]),
            Option::None => !table_contents(*m).dom().contains(table@),
        },
{
    m.get(table).map(|t| t.clone())
}

/// The inner state of the backend: the flat map and the map of named
/// tables.
pub struct BackendInner {
    pub map: DashMap<String, RespFrame>,
    pub hmap: DashMap<String, DashMap<String, RespFrame>>,
}

/// The backend store: process-lifetime state shared across command
/// executions, created empty, never expired.
pub struct Backend {
    pub inner: BackendInner,
}

/// The mathematical model of the backend: the flat mapping and the
/// mapping of named tables.
pub struct StoreModel {
    pub kv: Map<Seq<char>, RespFrame>,
    pub tables: Map<Seq<char>, Map<Seq<char>, RespFrame>>,
}

impl View for Backend {
    type V = StoreModel;

    open spec fn view(&self) -> StoreModel {
        StoreModel { kv: kv_contents(self.inner.map), tables: table_contents(self.inner.hmap) }
    }
}

impl Backend {
    /// An empty store.
    pub fn new() -> (r: Backend)
        ensures
            r@.kv == Map::<Seq<char>, RespFrame>::empty(),
            r@.tables == Map::<Seq<char>, Map<Seq<char>, RespFrame>>::empty(),
    {
        let mut map = dm_new_kv();
        let mut hmap = dm_new_tables();
        dm_clear_kv(&mut map);
        dm_clear_tables(&mut hmap);
        Backend { inner: BackendInner { map, hmap } }
    }

    /// Unconditionally stores the value under the key.
    pub fn set(&mut self, key: String, value: RespFrame)
        ensures
            final(self)@.kv == old(self)@.kv.insert(key@, value),
            final(self)@.tables == old(self)@.tables,
    {
        dm_insert(&mut self.inner.map, key, value);
    }

    /// The frame stored under the key, if any.
    pub fn get(&self, key: &str) -> (r: Option<RespFrame>)
        ensures
            match r {
                Option::Some(v) => self@.kv.dom().contains(key@) && frame_view(v) == frame_view(
                    self@.kv[key@],
                ),
                Option::None => !self@.kv.dom().contains(key@),
            },
    {
        dm_get(&self.inner.map, key)
    }

    /// Stores the value under the key of the named table, creating the
    /// table on first reference; a later write under the same key wins.
    pub fn hset(&mut self, table_name: String, key: String, value: RespFrame)
        ensures
            final(self)@.tables == old(self)@.tables.insert(
                table_name@,
                (if old(self)@.tables.dom().contains(table_name@) {
                    old(self)@.tables[table_name@]
                } else {
                    Map::<Seq<char>, RespFrame>::empty()
                }).insert(key@, value),
            ),
            final(self)@.kv == old(self)@.kv,
    {
        dm_table_insert(&mut self.inner.hmap, table_name, key, value);
    }

    /// The frame stored under the key of the named table; none if either
    /// the table or the key is absent.
    pub fn hget(&self, table_name: &str, key: &str) -> (r: Option<RespFrame>)
        ensures
            match r {
                Option::Some(v) => self@.tables.dom().contains(table_name@)
                    && self@.tables[table_name@].dom().contains(key@) && frame_view(v)
                    == frame_view(self@.tables[table_name@][key@]),
                Option::None => !(self@.tables.dom().contains(table_name@)
                    && self@.tables[table_name@].dom().contains(key@)),
            },
    {
        dm_table_get(&self.inner.hmap, table_name, key)
    }

    /// A snapshot of the whole named table, or none if it is absent: the
    /// same keys, each mapped to a frame with the model of its stored
    /// value.
    pub fn hgetall(&self, table_name: &str) -> (r: Option<DashMap<String, RespFrame>>)
        ensures
            match r {
                Option::Some(t) => self@.tables.dom().contains(table_name@) && kv_contents(
                    t,
                ).dom() =~= self@.tables[table_name@].dom() && forall|k: Seq<char>|
                    kv_contents(t).dom().contains(k) ==> frame_view(
                        #[trigger] kv_contents(t)[k],
                    ) == frame_view(self@.tables[table_name@][k]),
                Option::None => !self@.tables.dom().contains(table_name@),
            },
    {
        dm_table_snapshot(&self.inner.hmap, table_name)
    }
}

/// Writing twice under the same table and key leaves exactly one stored
/// value: the later write wins, as if only it had happened.
pub proof fn lemma_hset_last_write_wins(
    tables: Map<Seq<char>, Map<Seq<char>, RespFrame>>,
    table: Seq<char>,
    key: Seq<char>,
    v1: RespFrame,
    v2: RespFrame,
)
    ensures
        hset_model(hset_model(tables, table, key, v1), table, key, v2) == hset_model(
            tables,
            table,
            key,
            v2,
        ),
{
    let once = hset_model(tables, table, key, v2);
    let twice = hset_model(hset_model(tables, table, key, v1), table, key, v2);
    assert(twice[table] =~= once[table]);
    assert(twice =~= once);
}

/// The model of one `hset` call: the named table, created empty on first
/// reference, gains the entry.
pub open spec fn hset_model(
    tables: Map<Seq<char>, Map<Seq<char>, RespFrame>>,
    table: Seq<char>,
    key: Seq<char>,
    v: RespFrame,
) -> Map<Seq<char>, Map<Seq<char>, RespFrame>> {
    tables.insert(
        table,
        (if tables.dom().contains(table) {
            tables[table]
        } else {
            Map::<Seq<char>, RespFrame>::empty()
        }).insert(key, v),
    )
}

} // verus!
