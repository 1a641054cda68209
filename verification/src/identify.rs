//! Host identification: picking the preconfigured host whose interfaces
//! overlap, by MAC address, with the locally observed NICs.

use vstd::prelude::*;
use crate::types::{Host, HostView, Nic, NicView, IfaceView, nic_views};
use crate::strutil::str_eq;

verus! {

/// Both are present and hold the same characters.
pub open spec fn mac_eq(a: Option<Seq<char>>, b: Option<Seq<char>>) -> bool {
    a is Some && b is Some && a.unwrap() == b.unwrap()
}

/// NIC `n` carries a MAC address and it equals interface `i`'s.
pub open spec fn nic_matches_iface(n: NicView, i: IfaceView) -> bool {
    mac_eq(n.mac_addr, i.mac_address)
}

/// At least one interface of `h` shares a MAC address with one of the NICs.
pub open spec fn host_matches(h: HostView, nics: Seq<NicView>) -> bool {
    exists|i: int, j: int|
        0 <= i < h.interfaces.len() && 0 <= j < nics.len() && nic_matches_iface(
            nics[j],
            h.interfaces[i],
        )
}

/// Whether both options hold equal strings.
pub(crate) fn mac_eq_exec(a: &Option<String>, b: &Option<String>) -> (r: bool)
    ensures
        r == mac_eq(crate::types::opt_view(*a), crate::types::opt_view(*b)),
{
    match (a, b) {
        (Some(x), Some(y)) => str_eq(x.as_str(), y.as_str()),
        _ => false,
    }
}

/// Whether some interface of `h` shares a MAC address with some NIC.
fn host_matches_exec(h: &Host, nics: &Vec<Nic>) -> (r: bool)
    ensures
        r == host_matches(h@, nic_views(nics@)),
{
    let ghost hv = h@;
    let ghost nv = nic_views(nics@);
    let mut i: usize = 0;
    while i < h.interfaces.len()
        invariant
            hv == h@,
            nv == nic_views(nics@),
            i <= h.interfaces@.len(),
            forall|a: int, b: int|
                0 <= a < i && 0 <= b < nv.len() ==> !nic_matches_iface(nv[b], hv.interfaces[a]),
        decreases h.interfaces@.len() - i,
    {
        let mut j: usize = 0;
        while j < nics.len()
            invariant
                hv == h@,
                nv == nic_views(nics@),
                i < h.interfaces@.len(),
                j <= nics@.len(),
                forall|b: int| 0 <= b < j ==> !nic_matches_iface(nv[b], hv.interfaces[i as int]),
            decreases nics@.len() - j,
        {
            if mac_eq_exec(&nics[j].mac_addr, &h.interfaces[i].mac_address) {
                assert(nic_matches_iface(nv[j as int], hv.interfaces[i as int]));
                return true;
            }
            j = j + 1;
        }
        i = i + 1;
    }
    false
}

/// Selects the preconfigured host that matches the locally observed NICs.
///
/// The first host (in declaration order) with at least one interface whose
/// MAC address equals the MAC address of some local NIC is returned; NICs
/// without a MAC address never match. `None` is returned exactly when no
/// interface MAC across all hosts equals any NIC MAC.
pub fn identify_host(hosts: Vec<Host>, nics: &Vec<Nic>) -> (r: Option<Host>)
    ensures
        match r {
            Some(h) => exists|k: int|
                0 <= k < hosts@.len() && h@ == hosts@[k]@ && host_matches(
                    hosts@[k]@,
                    nic_views(nics@),
                ) && (forall|l: int|
                    0 <= l < k ==> !host_matches(hosts@[l]@, nic_views(nics@))),
            None => forall|k: int|
                0 <= k < hosts@.len() ==> !host_matches(hosts@[k]@, nic_views(nics@)),
        },
{
    let ghost nv = nic_views(nics@);
    let mut k: usize = 0;
    while k < hosts.len()
        invariant
            nv == nic_views(nics@),
            k <= hosts@.len(),
            forall|l: int| 0 <= l < k ==> !host_matches(hosts@[l]@, nv),
        decreases hosts@.len() - k,
    {
        if host_matches_exec(&hosts[k], nics) {
            let h = hosts[k].clone();
            return Some(h);
        }
        k = k + 1;
    }
    None
}

} // verus!
