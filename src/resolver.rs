//! The endpoint-to-egress mapping snapshot and its lookups.

use vstd::prelude::*;
use std::collections::HashMap;

use crate::addr::{is_ipv4_text, lemma_ipv4_text_unique, parse_ipv4};

verus! {

broadcast use vstd::std_specs::hash::group_hash_axioms;

/// The logical egress that the mapping authority assigns to an endpoint.
#[derive(Clone, Copy, Debug, PartialEq, Eq, Structural)]
pub enum Wan {
    Wan0,
    Wan1,
    Unrecognized,
}

/// The egress that a label of the mapping authority names.
pub open spec fn wan_of(label: Seq<char>) -> Wan {
    if label == "wan0"@ {
        Wan::Wan0
    } else if label == "wan1"@ {
        Wan::Wan1
    } else {
        Wan::Unrecognized
    }
}

/// Reads a label of the mapping authority.
pub fn wan_from_label(label: &String) -> (r: Wan)
    ensures
        r == wan_of(label@),
{
    if *label == String::from_str("wan0") {
        Wan::Wan0
    } else if *label == String::from_str("wan1") {
        Wan::Wan1
    } else {
        Wan::Unrecognized
    }
}

/// The physical interfaces: the captured one and the two egress paths.
#[derive(Debug)]
pub struct NicConfig {
    pub lan: String,
    pub wan0: String,
    pub wan1: String,
}

/// One snapshot of the endpoint-to-egress mapping. A snapshot is never
/// changed in place: a refresh replaces it whole.
#[derive(Debug)]
pub struct StatusResponse {
    pub config: NicConfig,
    pub mappings: HashMap<u32, Wan>,
}

/// The endpoint table read from `(address text, label)` entries in order:
/// entries whose key is no address are passed over, and a later entry for
/// the same address replaces an earlier one.
pub open spec fn table_of(entries: Seq<(Seq<char>, Seq<char>)>) -> Map<u32, Wan>
    decreases entries.len(),
{
    if entries.len() == 0 {
        Map::empty()
    } else {
        let prev = table_of(entries.drop_last());
        let e = entries.last();
        if exists|a: u32| is_ipv4_text(e.0, a) {
            prev.insert(choose|a: u32| is_ipv4_text(e.0, a), wan_of(e.1))
        } else {
            prev
        }
    }
}

/// The interface name that `st` assigns to the endpoint `a`: the one of its
/// egress when the endpoint is listed as `wan1` or `wan0`, else the default,
/// `wan0`.
pub open spec fn nic_for(st: StatusResponse, a: u32) -> Seq<char> {
    if st.mappings@.contains_key(a) && st.mappings@[a] == Wan::Wan1 {
        st.config.wan1@
    } else {
        st.config.wan0@
    }
}

/// The snapshot that stands after a refresh attempt: the fetched one, or
/// the current one untouched where the fetch failed.
pub open spec fn refreshed(current: StatusResponse, fetched: Option<StatusResponse>) -> StatusResponse {
    match fetched {
        Some(s) => s,
        None => current,
    }
}

impl NicConfig {
    /// The interfaces assumed when the mapping authority cannot be reached:
    /// `eth2` captured, `eth0` and `eth1` as egress paths.
    pub fn fallback() -> (r: NicConfig)
        ensures
            r.lan@ == "eth2"@,
            r.wan0@ == "eth0"@,
            r.wan1@ == "eth1"@,
    {
        NicConfig {
            lan: String::from_str("eth2"),
            wan0: String::from_str("eth0"),
            wan1: String::from_str("eth1"),
        }
    }
}

impl StatusResponse {
    /// A snapshot with the given interfaces and no endpoint listed.
    pub fn with_config(config: NicConfig) -> (r: StatusResponse)
        ensures
            r.config == config,
            r.mappings@ == Map::<u32, Wan>::empty(),
    {
        StatusResponse { config, mappings: HashMap::new() }
    }

    /// A snapshot with the given interfaces and the endpoint table read from
    /// `(address text, label)` entries.
    pub fn from_entries(config: NicConfig, entries: Vec<(String, String)>) -> (r: StatusResponse)
        ensures
            r.config == config,
            r.mappings@ == table_of(entries@.map_values(|e: (String, String)| (e.0@, e.1@))),
    {
        let ghost es = entries@.map_values(|e: (String, String)| (e.0@, e.1@));
        let mut mappings: HashMap<u32, Wan> = HashMap::new();
        let mut i: usize = 0;
        while i < entries.len()
            invariant
                i <= entries@.len(),
                es == entries@.map_values(|e: (String, String)| (e.0@, e.1@)),
                mappings@ == table_of(es.subrange(0, i as int)),
            decreases entries@.len() - i,
        {
            let ghost prefix = es.subrange(0, i as int + 1);
            assert(prefix.drop_last() =~= es.subrange(0, i as int));
            assert(prefix.last() == (entries@[i as int].0@, entries@[i as int].1@));
            match parse_ipv4(entries[i].0.as_str()) {
                Some(a) => {
                    proof {
                        let c = choose|b: u32| is_ipv4_text(prefix.last().0, b);
                        lemma_ipv4_text_unique(prefix.last().0, a, c);
                    }
                    let w = wan_from_label(&entries[i].1);
                    mappings.insert(a, w);
                },
                None => {},
            }
            i = i + 1;
        }
        assert(es.subrange(0, i as int) =~= es);
        StatusResponse { config, mappings }
    }

    /// The interface name for the endpoint `a`.
    pub fn resolve(&self, a: u32) -> (r: String)
        ensures
            r@ == nic_for(*self, a),
    {
        match self.mappings.get(&a) {
            Some(w) => match w {
                Wan::Wan1 => self.config.wan1.clone(),
                _ => self.config.wan0.clone(),
            },
            None => self.config.wan0.clone(),
        }
    }
}

/// The interface name for the endpoint written as `ip`; text that is no
/// address is listed nowhere and gets the default egress.
pub fn get_nic_for_ip(ip: &str, status: &StatusResponse) -> (r: String)
    ensures
        forall|a: u32| is_ipv4_text(ip@, a) ==> r@ == nic_for(*status, a),
        (forall|a: u32| !is_ipv4_text(ip@, a)) ==> r@ == status.config.wan0@,
{
    match parse_ipv4(ip) {
        Some(a) => {
            proof {
                assert forall|b: u32| is_ipv4_text(ip@, b) implies b == a by {
                    lemma_ipv4_text_unique(ip@, a, b);
                }
            }
            status.resolve(a)
        },
        None => status.config.wan0.clone(),
    }
}

/// One refresh step: the fetched snapshot where the fetch succeeded, the
/// current one untouched where it failed.
pub fn refresh(current: StatusResponse, fetched: Option<StatusResponse>) -> (r: StatusResponse)
    ensures
        r == refreshed(current, fetched),
{
    match fetched {
        Some(s) => s,
        None => current,
    }
}

/// A failed refresh leaves every endpoint resolving as before, and a
/// successful one resolves every endpoint by the fetched snapshot alone.
pub proof fn lemma_refresh_resolution(current: StatusResponse, fetched: Option<StatusResponse>, a: u32)
    ensures
        fetched is None ==> nic_for(refreshed(current, fetched), a) == nic_for(current, a),
        fetched matches Some(f) ==> nic_for(refreshed(current, fetched), a) == nic_for(f, a),
{
}

} // verus!
