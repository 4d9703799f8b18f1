//! Turning a window's byte counters into bit rates.

use vstd::prelude::*;

use crate::stats::{
    endpoint_entries, keys_unique, lemma_to_map_keys, lemma_to_map_value, nic_entries, to_map,
    EndpointTally, NicTally,
};

verus! {

/// Bits per second for a one-second window that carried `bytes` bytes.
pub open spec fn bps(bytes: u64) -> nat {
    bytes as nat * 8
}

/// The rate of one endpoint behind one interface.
#[derive(Debug)]
pub struct EndpointRate {
    pub ip: u32,
    pub nic: String,
    pub bits_per_second: u128,
}

/// The rate of one interface.
#[derive(Debug)]
pub struct NicRate {
    pub nic: String,
    pub bits_per_second: u128,
}

/// Bits per second for a one-second window that carried `bytes` bytes.
pub fn bits_per_second(bytes: u64) -> (r: u128)
    ensures
        r == bps(bytes),
{
    bytes as u128 * 8
}

/// One rate for each counter of `t`: its key and eight times its bytes.
pub fn endpoint_rates(t: &EndpointTally) -> (r: Vec<EndpointRate>)
    requires
        t.wf(),
    ensures
        forall|i: int|
            0 <= i < r@.len() ==> {
                let k = (#[trigger] r@[i].nic@, r@[i].ip);
                t@.contains_key(k) && r@[i].bits_per_second == bps(t@[k])
            },
        forall|k: (Seq<char>, u32)|
            t@.contains_key(k) ==> exists|i: int|
                0 <= i < r@.len() && (#[trigger] r@[i].nic@, r@[i].ip) == k,
        forall|i: int, j: int|
            0 <= i < j < r@.len() ==> (r@[i].nic@, r@[i].ip) != (r@[j].nic@, r@[j].ip),
{
    let ghost s = endpoint_entries(t.entries@);
    let mut r: Vec<EndpointRate> = Vec::new();
    let mut i: usize = 0;
    while i < t.entries.len()
        invariant
            i <= t.entries@.len(),
            s == endpoint_entries(t.entries@),
            keys_unique(s),
            r@.len() == i,
            forall|j: int| 0 <= j < i ==> (#[trigger] r@[j].nic@, r@[j].ip) == s[j].0,
            forall|j: int| 0 <= j < i ==> (#[trigger] r@[j]).bits_per_second == bps(s[j].1),
        decreases t.entries@.len() - i,
    {
        let e = &t.entries[i];
        r.push(
            EndpointRate { ip: e.ip, nic: e.nic.clone(), bits_per_second: bits_per_second(e.bytes) },
        );
        i = i + 1;
    }
    proof {
        assert forall|j: int| 0 <= j < r@.len() implies ({
            let k = (#[trigger] r@[j].nic@, r@[j].ip);
            t@.contains_key(k) && r@[j].bits_per_second == bps(t@[k])
        }) by {
            lemma_to_map_value(s, j);
        }
        assert forall|k: (Seq<char>, u32)| t@.contains_key(k) implies exists|j: int|
            0 <= j < r@.len() && (#[trigger] r@[j].nic@, r@[j].ip) == k by {
            lemma_to_map_keys(s, k);
            let j = choose|j: int| 0 <= j < s.len() && (#[trigger] s[j]).0 == k;
            assert((r@[j].nic@, r@[j].ip) == k);
        }
    }
    r
}

/// One rate for each interface total of `t`: its name and eight times its bytes.
pub fn nic_rates(t: &NicTally) -> (r: Vec<NicRate>)
    requires
        t.wf(),
    ensures
        forall|i: int|
            0 <= i < r@.len() ==> t@.contains_key(#[trigger] r@[i].nic@) && r@[i].bits_per_second
                == bps(t@[r@[i].nic@]),
        forall|k: Seq<char>|
            t@.contains_key(k) ==> exists|i: int| 0 <= i < r@.len() && (#[trigger] r@[i].nic@) == k,
        forall|i: int, j: int| 0 <= i < j < r@.len() ==> r@[i].nic@ != r@[j].nic@,
{
    let ghost s = nic_entries(t.entries@);
    let mut r: Vec<NicRate> = Vec::new();
    let mut i: usize = 0;
    while i < t.entries.len()
        invariant
            i <= t.entries@.len(),
            s == nic_entries(t.entries@),
            keys_unique(s),
            r@.len() == i,
            forall|j: int| 0 <= j < i ==> (#[trigger] r@[j]).nic@ == s[j].0,
            forall|j: int| 0 <= j < i ==> (#[trigger] r@[j]).bits_per_second == bps(s[j].1),
        decreases t.entries@.len() - i,
    {
        let e = &t.entries[i];
        r.push(NicRate { nic: e.nic.clone(), bits_per_second: bits_per_second(e.bytes) });
        i = i + 1;
    }
    proof {
        assert forall|j: int| 0 <= j < r@.len() implies t@.contains_key(#[trigger] r@[j].nic@)
            && r@[j].bits_per_second == bps(t@[r@[j].nic@]) by {
            lemma_to_map_value(s, j);
        }
        assert forall|k: Seq<char>| t@.contains_key(k) implies exists|j: int|
            0 <= j < r@.len() && (#[trigger] r@[j].nic@) == k by {
            lemma_to_map_keys(s, k);
            let j = choose|j: int| 0 <= j < s.len() && (#[trigger] s[j]).0 == k;
            assert(r@[j].nic@ == k);
        }
    }
    r
}

} // verus!
