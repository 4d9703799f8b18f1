//! The local networks and the test of whether an address is local.

use vstd::prelude::*;
use vstd::arithmetic::div_mod::lemma_basic_div;
use vstd::arithmetic::power2::{lemma2_to64, pow2};
use vstd::bits::lemma_u32_shr_is_div;

use crate::addr::{is_ipv4_text, lemma_ipv4_text_unique, parse_ipv4};

verus! {

/// Whether `a` and `net` agree on their first `len` bits.
pub open spec fn in_prefix(a: u32, net: u32, len: nat) -> bool {
    a as nat / pow2((32 - len) as nat) == net as nat / pow2((32 - len) as nat)
}

/// An IPv4 network: an address and a prefix length of at most 32 bits.
/// Host bits of `network` are kept as written; they take no part in membership.
#[derive(Clone, Copy, Debug, PartialEq, Eq, Structural)]
pub struct Subnet {
    pub network: u32,
    pub prefix_len: u8,
}

impl Subnet {
    pub open spec fn wf(self) -> bool {
        self.prefix_len <= 32
    }

    /// Whether the network holds the address `a`.
    pub open spec fn holds(self, a: u32) -> bool {
        in_prefix(a, self.network, self.prefix_len as nat)
    }

    /// The network with the given address and prefix length; `None` for a
    /// prefix longer than 32 bits.
    pub fn new(network: u32, prefix_len: u8) -> (r: Option<Subnet>)
        ensures
            prefix_len <= 32 <==> r is Some,
            r matches Some(n) ==> n.network == network && n.prefix_len == prefix_len,
    {
        if prefix_len <= 32 {
            Some(Subnet { network, prefix_len })
        } else {
            None
        }
    }

    /// Whether the network holds the address `a`.
    pub fn contains(&self, a: u32) -> (r: bool)
        requires
            self.wf(),
        ensures
            r == self.holds(a),
    {
        if self.prefix_len == 0 {
            proof {
                lemma2_to64();
                lemma_basic_div(a as int, pow2(32) as int);
                lemma_basic_div(self.network as int, pow2(32) as int);
            }
            true
        } else {
            let shift: u32 = 32 - self.prefix_len as u32;
            proof {
                lemma_u32_shr_is_div(a, shift);
                lemma_u32_shr_is_div(self.network, shift);
            }
            (a >> shift) == (self.network >> shift)
        }
    }
}

/// Error for a network text that does not read as `a.b.c.d/len`.
#[derive(Clone, Copy, Debug, PartialEq, Eq, Structural)]
pub enum SubnetError {
    Malformed,
}

/// What ipnet reads from a network text: its address and prefix length,
/// or nothing where the text is not an IPv4 network.
pub uninterp spec fn cidr_of(s: Seq<char>) -> Option<(u32, u8)>;

/// Declared so that the parse error of ipnet can be carried and mapped.
#[verifier::external_type_specification]
#[verifier::external_body]
pub struct ExAddrParseError(ipnet::AddrParseError);

/// Relies on ipnet's `FromStr for Ipv4Net` with `Ipv4Net::addr` and
/// `Ipv4Net::prefix_len`: the parser reads a prefix length below 33.
#[verifier::external_body]
fn read_cidr(s: &str) -> (r: Result<(u32, u8), ipnet::AddrParseError>)
    ensures
        match r {
            Ok(p) => cidr_of(s@) == Some(p) && p.1 <= 32,
            Err(_) => cidr_of(s@) is None,
        },
{
    match s.parse::<ipnet::Ipv4Net>() {
        Ok(net) => Ok((u32::from(net.addr()), net.prefix_len())),
        Err(e) => Err(e),
    }
}

/// The operator's local networks, in the order they were added.
#[derive(Debug)]
pub struct LocalSubnets {
    pub subnets: Vec<Subnet>,
}

impl View for LocalSubnets {
    type V = Seq<Subnet>;

    open spec fn view(&self) -> Seq<Subnet> {
        self.subnets@
    }
}

impl LocalSubnets {
    pub open spec fn wf(&self) -> bool {
        forall|i: int| 0 <= i < self@.len() ==> (#[trigger] self@[i]).wf()
    }

    /// Whether some configured network holds `a`.
    pub open spec fn covers(&self, a: u32) -> bool {
        exists|i: int| 0 <= i < self@.len() && (#[trigger] self@[i]).holds(a)
    }

    /// Whether the text `ip` names a local address.
    pub open spec fn is_local_text(&self, ip: Seq<char>) -> bool {
        exists|a: u32| is_ipv4_text(ip, a) && self.covers(a)
    }

    pub fn new() -> (r: LocalSubnets)
        ensures
            r@ == Seq::<Subnet>::empty(),
            r.wf(),
    {
        LocalSubnets { subnets: Vec::new() }
    }

    /// Appends a network.
    pub fn add(&mut self, net: Subnet)
        requires
            old(self).wf(),
            net.wf(),
        ensures
            final(self)@ == old(self)@.push(net),
            final(self).wf(),
    {
        self.subnets.push(net);
        proof {
            assert forall|i: int| 0 <= i < self@.len() implies (#[trigger] self@[i]).wf() by {
                if i < old(self)@.len() {
                    assert(self@[i] == old(self)@[i]);
                }
            }
        }
    }

    /// Reads `text` as `a.b.c.d/len` and appends that network; a text that
    /// does not read leaves the set as it was.
    pub fn add_subnet(&mut self, text: &str) -> (r: Result<(), SubnetError>)
        requires
            old(self).wf(),
        ensures
            final(self).wf(),
            match cidr_of(text@) {
                Some(p) => r is Ok && final(self)@ == old(self)@.push(
                    Subnet { network: p.0, prefix_len: p.1 },
                ),
                None => r == Err::<(), SubnetError>(SubnetError::Malformed) && final(self)@ == old(
                    self,
                )@,
            },
    {
        match read_cidr(text) {
            Ok(p) => {
                self.add(Subnet { network: p.0, prefix_len: p.1 });
                Ok(())
            },
            Err(_) => Err(SubnetError::Malformed),
        }
    }

    /// Whether some configured network holds the address `a`.
    pub fn contains_addr(&self, a: u32) -> (r: bool)
        requires
            self.wf(),
        ensures
            r == self.covers(a),
    {
        let mut i: usize = 0;
        while i < self.subnets.len()
            invariant
                self.wf(),
                i <= self@.len(),
                forall|j: int| 0 <= j < i ==> !(#[trigger] self@[j]).holds(a),
            decreases self@.len() - i,
        {
            if self.subnets[i].contains(a) {
                return true;
            }
            i = i + 1;
        }
        false
    }

    /// Whether `ip` is the dotted-decimal text of an address that some
    /// configured network holds. A text that is no address is not local.
    pub fn is_local(&self, ip: &str) -> (r: bool)
        requires
            self.wf(),
        ensures
            r == self.is_local_text(ip@),
    {
        match parse_ipv4(ip) {
            Some(a) => {
                let r = self.contains_addr(a);
                proof {
                    assert forall|b: u32| is_ipv4_text(ip@, b) implies b == a by {
                        lemma_ipv4_text_unique(ip@, a, b);
                    }
                }
                r
            },
            None => false,
        }
    }
}

/// Locality of a text: the text of an address is local exactly when some
/// configured network holds that address, and a text that is no address is
/// never local.
pub proof fn lemma_locality(subnets: LocalSubnets, ip: Seq<char>, a: u32)
    ensures
        is_ipv4_text(ip, a) ==> (subnets.is_local_text(ip) <==> subnets.covers(a)),
        (forall|b: u32| !is_ipv4_text(ip, b)) ==> !subnets.is_local_text(ip),
{
    if is_ipv4_text(ip, a) {
        assert forall|b: u32| is_ipv4_text(ip, b) implies b == a by {
            lemma_ipv4_text_unique(ip, a, b);
        }
    }
}

} // verus!
