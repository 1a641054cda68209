//! The profile store's normalization: hosts loaded from the host-mapping
//! document get their MAC addresses lower-cased, so that all later
//! comparisons work on one form.

use vstd::prelude::*;
use crate::strutil::{ascii_lowercase, lower};
use crate::types::{clone_string_vec, Host, HostView, IfaceView, Interface};

verus! {

/// The MAC address lower-cased, if present.
pub open spec fn normalize_mac(m: Option<Seq<char>>) -> Option<Seq<char>> {
    match m {
        Some(s) => Some(lower(s)),
        None => None,
    }
}

/// The interface with its MAC address lower-cased.
pub open spec fn normalize_iface(i: IfaceView) -> IfaceView {
    IfaceView { mac_address: normalize_mac(i.mac_address), ..i }
}

/// The host with every interface's MAC address lower-cased.
pub open spec fn normalize_host(h: HostView) -> HostView {
    HostView { interfaces: h.interfaces.map_values(|i: IfaceView| normalize_iface(i)), ..h }
}

/// Lower-cases every MAC address of every host, as loaded host mappings are
/// normalized before identification; everything else is kept.
pub fn normalize_hosts(hosts: &mut Vec<Host>)
    ensures
        final(hosts)@.len() == old(hosts)@.len(),
        forall|k: int|
            0 <= k < old(hosts)@.len() ==> (#[trigger] final(hosts)@[k]@) == normalize_host(
                old(hosts)@[k]@,
            ),
{
    let n = hosts.len();
    let mut k: usize = 0;
    while k < n
        invariant
            n == hosts@.len(),
            n == old(hosts)@.len(),
            k <= n,
            forall|w: int| k <= w < n ==> #[trigger] hosts@[w]@ == old(hosts)@[w]@,
            forall|w: int|
                0 <= w < k ==> (#[trigger] hosts@[w]@) == normalize_host(old(hosts)@[w]@),
        decreases n - k,
    {
        let m = hosts[k].interfaces.len();
        let mut ifs: Vec<Interface> = Vec::new();
        let mut t: usize = 0;
        while t < m
            invariant
                k < hosts@.len(),
                m == hosts@[k as int].interfaces@.len(),
                t <= m,
                ifs@.len() == t,
                forall|w: int|
                    0 <= w < t ==> (#[trigger] ifs@[w]@) == normalize_iface(
                        hosts@[k as int].interfaces@[w]@,
                    ),
            decreases m - t,
        {
            let src = &hosts[k].interfaces[t];
            let mac = match &src.mac_address {
                Some(s) => Some(ascii_lowercase(s.as_str())),
                None => None,
            };
            let ni = Interface {
                logical_name: src.logical_name.clone(),
                connection_ids: clone_string_vec(&src.connection_ids),
                mac_address: mac,
                interface_type: src.interface_type.clone(),
            };
            proof {
                assert(ni@ =~= normalize_iface(hosts@[k as int].interfaces@[t as int]@));
            }
            ifs.push(ni);
            t = t + 1;
        }
        let hostname = hosts[k].hostname.clone();
        let nh = Host { hostname, interfaces: ifs };
        proof {
            let hv = hosts@[k as int]@;
            assert forall|w: int| 0 <= w < m implies nh@.interfaces[w] == normalize_host(
                hv,
            ).interfaces[w] by {
                assert(nh.interfaces@[w]@ == normalize_iface(hosts@[k as int].interfaces@[w]@));
            }
            assert(nh@ =~= normalize_host(hv));
        }
        hosts.set(k, nh);
        k = k + 1;
    }
}

} // verus!
