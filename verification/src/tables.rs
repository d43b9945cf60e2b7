//! The two keyed tables of the statistics, held in `dashmap::DashMap`s:
//! counters by endpoint name, and response counts by status code.
use vstd::prelude::*;

use dashmap::DashMap;

use crate::latency::{EndpointCounters, EndpointTally};

verus! {

#[verifier::external_type_specification]
#[verifier::external_body]
#[verifier::reject_recursive_types(K)]
#[verifier::reject_recursive_types(V)]
#[verifier::reject_recursive_types(S)]
pub struct ExDashMap<K, V, S>(DashMap<K, V, S>);

/// The entries of an endpoint table: each name with the counters it holds.
pub uninterp spec fn endpoint_table(m: DashMap<String, EndpointCounters>) -> Map<
    Seq<char>,
    EndpointTally,
>;

/// The entries of a status table: each status code with its count.
pub uninterp spec fn status_table(m: DashMap<u16, u64>) -> Map<u16, u64>;

/// The endpoint table without entries.
pub open spec fn no_endpoints() -> Map<Seq<char>, EndpointTally> {
    Map::empty()
}

/// The status table without entries.
pub open spec fn no_statuses() -> Map<u16, u64> {
    Map::empty()
}

/// `s` lists every entry of `t` once, in any order.
pub open spec fn lists_endpoints(s: Seq<(String, EndpointCounters)>, t: Map<Seq<char>, EndpointTally>) -> bool {
    &&& s.len() == t.dom().len()
    &&& forall|i: int|
        0 <= i < s.len() ==> #[trigger] t.dom().contains(s[i].0@) && t[s[i].0@] == s[i].1@
    &&& forall|i: int, j: int| 0 <= i < j < s.len() ==> #[trigger] s[i].0@ != #[trigger] s[j].0@
}

/// `s` lists every entry of `t` once, in any order.
pub open spec fn lists_statuses(s: Seq<(u16, u64)>, t: Map<u16, u64>) -> bool {
    &&& s.len() == t.dom().len()
    &&& forall|i: int| 0 <= i < s.len() ==> #[trigger] t.dom().contains(s[i].0) && t[s[i].0] == s[i].1
    &&& forall|i: int, j: int| 0 <= i < j < s.len() ==> #[trigger] s[i].0 != #[trigger] s[j].0
}

/// `DashMap::new` for the endpoint table: it starts empty.
#[verifier::external_body]
pub(crate) fn endpoint_table_new() -> (m: DashMap<String, EndpointCounters>)
    ensures
        endpoint_table(m) == no_endpoints(),
{
    DashMap::new()
}

/// `DashMap::insert` on the endpoint table: `key` now maps to `value`,
/// replacing what it held; the replaced value is dropped.
#[verifier::external_body]
pub(crate) fn endpoint_table_insert(m: &mut DashMap<String, EndpointCounters>, key: String, value: EndpointCounters)
    ensures
        endpoint_table(*final(m)) == endpoint_table(*old(m)).insert(key@, value@),
{
    m.insert(key, value);
}

/// `DashMap::remove` on the endpoint table, handing back the value only:
/// the entry of `key` leaves the table, and its value is returned if there
/// was one.
#[verifier::external_body]
pub(crate) fn endpoint_table_take(m: &mut DashMap<String, EndpointCounters>, key: &str) -> (r: Option<EndpointCounters>)
    ensures
        endpoint_table(*final(m)) == endpoint_table(*old(m)).remove(key@),
        match r {
            Some(v) => endpoint_table(*old(m)).dom().contains(key@) && v@ == endpoint_table(
                *old(m),
            )[key@],
            None => !endpoint_table(*old(m)).dom().contains(key@),
        },
{
    m.remove(key).map(|(_, v)| v)
}

/// `DashMap::iter` on the endpoint table, each entry copied out: every entry
/// once, in the order of the table's shards and buckets, which is not stated.
#[verifier::external_body]
pub(crate) fn endpoint_table_entries(m: &DashMap<String, EndpointCounters>) -> (r: Vec<(String, EndpointCounters)>)
    ensures
        lists_endpoints(r@, endpoint_table(*m)),
{
    m.iter().map(|e| (e.key().clone(), e.value().duplicate())).collect()
}

/// `DashMap::clear` on the endpoint table: it is empty afterwards.
#[verifier::external_body]
pub(crate) fn endpoint_table_clear(m: &mut DashMap<String, EndpointCounters>)
    ensures
        endpoint_table(*final(m)) == no_endpoints(),
{
    m.clear()
}

/// `DashMap::new` for the status table: it starts empty.
#[verifier::external_body]
pub(crate) fn status_table_new() -> (m: DashMap<u16, u64>)
    ensures
        status_table(m) == no_statuses(),
{
    DashMap::new()
}

/// `DashMap::insert` on the status table: `key` now maps to `value`.
#[verifier::external_body]
pub(crate) fn status_table_insert(m: &mut DashMap<u16, u64>, key: u16, value: u64)
    ensures
        status_table(*final(m)) == status_table(*old(m)).insert(key, value),
{
    m.insert(key, value);
}

/// `DashMap::remove` on the status table, handing back the count only.
#[verifier::external_body]
pub(crate) fn status_table_take(m: &mut DashMap<u16, u64>, key: u16) -> (r: Option<u64>)
    ensures
        status_table(*final(m)) == status_table(*old(m)).remove(key),
        match r {
            Some(v) => status_table(*old(m)).dom().contains(key) && v == status_table(*old(m))[key],
            None => !status_table(*old(m)).dom().contains(key),
        },
{
    m.remove(&key).map(|(_, v)| v)
}

/// `DashMap::iter` on the status table, each entry copied out: every entry
/// once, in an order that is not stated.
#[verifier::external_body]
pub(crate) fn status_table_entries(m: &DashMap<u16, u64>) -> (r: Vec<(u16, u64)>)
    ensures
        lists_statuses(r@, status_table(*m)),
{
    m.iter().map(|e| (*e.key(), *e.value())).collect()
}

/// `DashMap::clear` on the status table: it is empty afterwards.
#[verifier::external_body]
pub(crate) fn status_table_clear(m: &mut DashMap<u16, u64>)
    ensures
        status_table(*final(m)) == no_statuses(),
{
    m.clear()
}

} // verus!
