//! The generate path: synthesizing connection profiles from a desired state,
//! validating the interface list, and attributing every generated profile to
//! the interface it configures.

use vstd::prelude::*;
use vstd::string::StrSliceExecFns;
use vstd::multiset::Multiset;
use crate::error::NmcError;
use crate::keyfile::{keyfile_get, keyfile_get_spec};
use crate::nm::{
    descs_of, gen_nm_conf, iface_desc, nm_error_message, state_from_yaml, state_iface_descs,
    state_interfaces, yaml_descs, yaml_error_text, yaml_parses, yaml_profiles,
};
use crate::strutil::{
    ascii_lowercase, contains_sub, dot_pred, is_dot_c, lower, last_where, lemma_last_where_at,
    str_eq,
};
use crate::types::{Interface, IfaceView, iface_views, opt_view, pair_views, str_views};
use crate::reconcile::is_ethernet;

verus! {

/// At least one interface is of Ethernet type.
pub open spec fn has_ethernet(ifaces: Seq<IfaceView>) -> bool {
    exists|t: int| 0 <= t < ifaces.len() && is_ethernet(ifaces[t])
}

/// The logical names, in order, of the Ethernet interfaces that carry no MAC
/// address.
pub open spec fn ethernet_missing_mac(ifaces: Seq<IfaceView>) -> Seq<Seq<char>>
    decreases ifaces.len(),
{
    if ifaces.len() == 0 {
        Seq::empty()
    } else {
        let pre = ethernet_missing_mac(ifaces.drop_last());
        let i = ifaces.last();
        if is_ethernet(i) && i.mac_address is None {
            pre.push(i.logical_name)
        } else {
            pre
        }
    }
}

/// The logical names, in order, of the interfaces with no attributed
/// connection profile.
pub open spec fn empty_connection_ids(ifaces: Seq<IfaceView>) -> Seq<Seq<char>>
    decreases ifaces.len(),
{
    if ifaces.len() == 0 {
        Seq::empty()
    } else {
        let pre = empty_connection_ids(ifaces.drop_last());
        let i = ifaces.last();
        if i.connection_ids.len() == 0 {
            pre.push(i.logical_name)
        } else {
            pre
        }
    }
}

/// Checks the structural preconditions on a host's interface list: at least
/// one Ethernet interface must be present, and in strict mode (several hosts
/// in one bundle, so MAC addresses are the only identification key left at
/// apply time) every Ethernet interface must carry a MAC address. All
/// offending interfaces are reported together.
pub fn validate_interfaces(interfaces: &Vec<Interface>, require_mac_addresses: bool) -> (r: Result<
    (),
    NmcError,
>)
    ensures
        match r {
            Ok(_) => has_ethernet(iface_views(interfaces@)) && (require_mac_addresses
                ==> ethernet_missing_mac(iface_views(interfaces@)).len() == 0),
            Err(e) => match e {
                NmcError::NoEthernetInterfaces => !has_ethernet(iface_views(interfaces@)),
                NmcError::MissingMacAddresses(names) => require_mac_addresses && has_ethernet(
                    iface_views(interfaces@),
                ) && str_views(names@) == ethernet_missing_mac(iface_views(interfaces@))
                    && names@.len() > 0,
                _ => false,
            },
        },
{
    let ghost ivs = iface_views(interfaces@);
    let n = interfaces.len();
    let mut any_ethernet = false;
    let mut missing: Vec<String> = Vec::new();
    let mut t: usize = 0;
    proof {
        assert(str_views(missing@) =~= ethernet_missing_mac(ivs.take(0)));
    }
    while t < n
        invariant
            ivs == iface_views(interfaces@),
            n == interfaces@.len(),
            t <= n,
            any_ethernet == has_ethernet(ivs.take(t as int)),
            str_views(missing@) == ethernet_missing_mac(ivs.take(t as int)),
        decreases n - t,
    {
        let ghost pre = ivs.take(t as int);
        proof {
            assert(ivs.take(t + 1).drop_last() =~= pre);
            assert(ivs.take(t + 1).last() == ivs[t as int]);
        }
        if str_eq(interfaces[t].interface_type.as_str(), "ethernet") {
            any_ethernet = true;
            assert(is_ethernet(ivs[t as int]));
            assert(has_ethernet(ivs.take(t + 1)));
            if interfaces[t].mac_address.is_none() {
                missing.push(interfaces[t].logical_name.clone());
                assert(str_views(missing@) =~= ethernet_missing_mac(ivs.take(t + 1)));
            }
        } else {
            proof {
                if has_ethernet(ivs.take(t + 1)) && !any_ethernet {
                    let w = choose|w: int| 0 <= w < t + 1 && #[trigger] is_ethernet(
                        ivs.take(t + 1)[w],
                    );
                    assert(is_ethernet(pre[w]));
                }
            }
        }
        t = t + 1;
    }
    proof {
        assert(ivs.take(n as int) =~= ivs);
    }
    if !any_ethernet {
        return Err(NmcError::NoEthernetInterfaces);
    }
    if !require_mac_addresses {
        return Ok(());
    }
    if missing.len() > 0 {
        return Err(NmcError::MissingMacAddresses(missing));
    }
    Ok(())
}

/// Checks that attribution left no interface without a connection profile:
/// an interface with zero attributed connection ids is a data error, and all
/// such interfaces are reported together.
pub fn validate_connection_ids(interfaces: &Vec<Interface>) -> (r: Result<(), NmcError>)
    ensures
        match r {
            Ok(_) => empty_connection_ids(iface_views(interfaces@)).len() == 0,
            Err(e) => match e {
                NmcError::MissingConnectionIds(names) => str_views(names@) == empty_connection_ids(
                    iface_views(interfaces@),
                ) && names@.len() > 0,
                _ => false,
            },
        },
{
    let ghost ivs = iface_views(interfaces@);
    let n = interfaces.len();
    let mut missing: Vec<String> = Vec::new();
    let mut t: usize = 0;
    proof {
        assert(str_views(missing@) =~= empty_connection_ids(ivs.take(0)));
    }
    while t < n
        invariant
            ivs == iface_views(interfaces@),
            n == interfaces@.len(),
            t <= n,
            str_views(missing@) == empty_connection_ids(ivs.take(t as int)),
        decreases n - t,
    {
        proof {
            assert(ivs.take(t + 1).drop_last() =~= ivs.take(t as int));
            assert(ivs.take(t + 1).last() == ivs[t as int]);
        }
        if interfaces[t].connection_ids.len() == 0 {
            missing.push(interfaces[t].logical_name.clone());
            assert(str_views(missing@) =~= empty_connection_ids(ivs.take(t + 1)));
        }
        t = t + 1;
    }
    proof {
        assert(ivs.take(n as int) =~= ivs);
    }
    if missing.len() > 0 {
        return Err(NmcError::MissingConnectionIds(missing));
    }
    Ok(())
}

/// The `type` entry of a profile's `[connection]` section.
pub open spec fn profile_type(content: Seq<char>) -> Option<Seq<char>> {
    keyfile_get_spec(content, "connection"@, "type"@)
}

/// The `interface-name` entry of a profile's `[connection]` section.
pub open spec fn profile_iface_name(content: Seq<char>) -> Option<Seq<char>> {
    keyfile_get_spec(content, "connection"@, "interface-name"@)
}

/// The `mac-address` entry of a profile's `[ethernet]` section.
pub open spec fn profile_mac(content: Seq<char>) -> Option<Seq<char>> {
    keyfile_get_spec(content, "ethernet"@, "mac-address"@)
}

/// The `id` entry of a profile's `[connection]` section.
pub open spec fn profile_conn_id(content: Seq<char>) -> Option<Seq<char>> {
    keyfile_get_spec(content, "connection"@, "id"@)
}

/// A loopback connection profile, which is never attributed to an interface.
pub open spec fn is_loopback_profile(content: Seq<char>) -> bool {
    profile_type(content) == Some("loopback"@)
}

/// The profile declares a MAC address and it equals the interface's,
/// compared case-insensitively.
pub open spec fn mac_matches(pmac: Option<Seq<char>>, i: IfaceView) -> bool {
    pmac is Some && i.mac_address is Some && lower(i.mac_address.unwrap()) == lower(pmac.unwrap())
}

/// The profile declares an interface name and it equals the interface's
/// logical name.
pub open spec fn name_matches(pname: Option<Seq<char>>, i: IfaceView) -> bool {
    pname is Some && i.logical_name == pname.unwrap()
}

/// How many interfaces the profile's MAC address matches.
pub open spec fn count_mac_matches(ifaces: Seq<IfaceView>, pmac: Option<Seq<char>>) -> int
    decreases ifaces.len(),
{
    if ifaces.len() == 0 {
        0
    } else {
        (if mac_matches(pmac, ifaces[0]) {
            1int
        } else {
            0
        }) + count_mac_matches(ifaces.drop_first(), pmac)
    }
}

/// How many interfaces the profile's interface name matches.
pub open spec fn count_name_matches(ifaces: Seq<IfaceView>, pname: Option<Seq<char>>) -> int
    decreases ifaces.len(),
{
    if ifaces.len() == 0 {
        0
    } else {
        (if name_matches(pname, ifaces[0]) {
            1int
        } else {
            0
        }) + count_name_matches(ifaces.drop_first(), pname)
    }
}

/// The position of the first interface the profile's MAC address matches.
pub open spec fn first_mac_match(ifaces: Seq<IfaceView>, pmac: Option<Seq<char>>) -> int
    decreases ifaces.len(),
{
    if ifaces.len() == 0 {
        0
    } else if mac_matches(pmac, ifaces[0]) {
        0
    } else {
        1 + first_mac_match(ifaces.drop_first(), pmac)
    }
}

/// The position of the first interface the profile's interface name matches.
pub open spec fn first_name_match(ifaces: Seq<IfaceView>, pname: Option<Seq<char>>) -> int
    decreases ifaces.len(),
{
    if ifaces.len() == 0 {
        0
    } else if name_matches(pname, ifaces[0]) {
        0
    } else {
        1 + first_name_match(ifaces.drop_first(), pname)
    }
}

proof fn lemma_mac_match_props(ifaces: Seq<IfaceView>, pmac: Option<Seq<char>>)
    ensures
        count_mac_matches(ifaces, pmac) >= 0,
        (count_mac_matches(ifaces, pmac) == 0 <==> forall|t: int|
            0 <= t < ifaces.len() ==> !mac_matches(pmac, #[trigger] ifaces[t])),
        count_mac_matches(ifaces, pmac) >= 1 ==> 0 <= first_mac_match(ifaces, pmac) < ifaces.len()
            && mac_matches(pmac, ifaces[first_mac_match(ifaces, pmac)]),
    decreases ifaces.len(),
{
    if ifaces.len() > 0 {
        lemma_mac_match_props(ifaces.drop_first(), pmac);
        assert(forall|l: int| 0 <= l < ifaces.len() - 1 ==> ifaces.drop_first()[l] == ifaces[l + 1]);
        if count_mac_matches(ifaces, pmac) == 0 {
            assert forall|t: int| 0 <= t < ifaces.len() implies !mac_matches(
                pmac,
                #[trigger] ifaces[t],
            ) by {
                if t > 0 {
                    assert(!mac_matches(pmac, ifaces.drop_first()[t - 1]));
                }
            }
        }
    }
}

proof fn lemma_name_match_props(ifaces: Seq<IfaceView>, pname: Option<Seq<char>>)
    ensures
        count_name_matches(ifaces, pname) >= 0,
        (count_name_matches(ifaces, pname) == 0 <==> forall|t: int|
            0 <= t < ifaces.len() ==> !name_matches(pname, #[trigger] ifaces[t])),
        count_name_matches(ifaces, pname) >= 1 ==> 0 <= first_name_match(ifaces, pname)
            < ifaces.len() && name_matches(pname, ifaces[first_name_match(ifaces, pname)]),
    decreases ifaces.len(),
{
    if ifaces.len() > 0 {
        lemma_name_match_props(ifaces.drop_first(), pname);
        assert(forall|l: int| 0 <= l < ifaces.len() - 1 ==> ifaces.drop_first()[l] == ifaces[l + 1]);
        if count_name_matches(ifaces, pname) == 0 {
            assert forall|t: int| 0 <= t < ifaces.len() implies !name_matches(
                pname,
                #[trigger] ifaces[t],
            ) by {
                if t > 0 {
                    assert(!name_matches(pname, ifaces.drop_first()[t - 1]));
                }
            }
        }
    }
}

/// Interface `i` with one more attributed connection id.
pub open spec fn with_id(i: IfaceView, cid: Seq<char>) -> IfaceView {
    IfaceView { connection_ids: i.connection_ids.push(cid), ..i }
}

/// Why attribution of a profile failed.
pub ghost enum AttrError {
    /// The profile names neither an interface nor a MAC address.
    NoIdentifier(Seq<char>),
    /// The profile carries no connection id.
    NoConnectionId(Seq<char>),
    /// No interface matches the profile.
    NoMatch(Seq<char>),
    /// More than one interface matches the profile.
    Ambiguous(Seq<char>),
}

/// Attribution of the profiles to the interfaces, in profile order: loopback
/// profiles are skipped; every other profile must name an interface or a MAC
/// address and carry a connection id. The MAC strategy runs first, over all
/// interfaces: the profile's id goes to the interface whose MAC address
/// equals its own, case-insensitively; several such interfaces are an
/// ambiguity and fail the run. Only when no MAC matches does the name
/// strategy run, attributing by exact logical name, again failing on
/// ambiguity. A profile matching nothing, or any other failure, stops the
/// run, keeping what was attributed before it.
pub open spec fn attribute_spec(
    ifaces: Seq<IfaceView>,
    profiles: Seq<(Seq<char>, Seq<char>)>,
) -> (Seq<IfaceView>, Option<AttrError>)
    decreases profiles.len(),
{
    if profiles.len() == 0 {
        (ifaces, None)
    } else {
        let fname = profiles[0].0;
        let content = profiles[0].1;
        if is_loopback_profile(content) {
            attribute_spec(ifaces, profiles.drop_first())
        } else {
            let pname = profile_iface_name(content);
            let pmac = profile_mac(content);
            if pmac is None && pname is None {
                (ifaces, Some(AttrError::NoIdentifier(fname)))
            } else {
                match profile_conn_id(content) {
                    None => (ifaces, Some(AttrError::NoConnectionId(fname))),
                    Some(cid) => {
                        let mc = count_mac_matches(ifaces, pmac);
                        let nc = count_name_matches(ifaces, pname);
                        if mc >= 2 {
                            (ifaces, Some(AttrError::Ambiguous(fname)))
                        } else if mc == 1 {
                            let t = first_mac_match(ifaces, pmac);
                            attribute_spec(
                                ifaces.update(t, with_id(ifaces[t], cid)),
                                profiles.drop_first(),
                            )
                        } else if nc >= 2 {
                            (ifaces, Some(AttrError::Ambiguous(fname)))
                        } else if nc == 1 {
                            let t = first_name_match(ifaces, pname);
                            attribute_spec(
                                ifaces.update(t, with_id(ifaces[t], cid)),
                                profiles.drop_first(),
                            )
                        } else {
                            (ifaces, Some(AttrError::NoMatch(fname)))
                        }
                    },
                }
            }
        }
    }
}

proof fn lemma_first_mac_match_at(ifaces: Seq<IfaceView>, pmac: Option<Seq<char>>, j: int)
    requires
        0 <= j < ifaces.len(),
        forall|l: int| 0 <= l < j ==> !mac_matches(pmac, ifaces[l]),
        mac_matches(pmac, ifaces[j]),
    ensures
        first_mac_match(ifaces, pmac) == j,
    decreases j,
{
    if j > 0 {
        assert(!mac_matches(pmac, ifaces[0]));
        assert(forall|l: int|
            0 <= l < j - 1 ==> ifaces.drop_first()[l] == ifaces[l + 1] && !mac_matches(
                pmac,
                ifaces[l + 1],
            ));
        lemma_first_mac_match_at(ifaces.drop_first(), pmac, j - 1);
    }
}

proof fn lemma_first_name_match_at(ifaces: Seq<IfaceView>, pname: Option<Seq<char>>, j: int)
    requires
        0 <= j < ifaces.len(),
        forall|l: int| 0 <= l < j ==> !name_matches(pname, ifaces[l]),
        name_matches(pname, ifaces[j]),
    ensures
        first_name_match(ifaces, pname) == j,
    decreases j,
{
    if j > 0 {
        assert(!name_matches(pname, ifaces[0]));
        assert(forall|l: int|
            0 <= l < j - 1 ==> ifaces.drop_first()[l] == ifaces[l + 1] && !name_matches(
                pname,
                ifaces[l + 1],
            ));
        lemma_first_name_match_at(ifaces.drop_first(), pname, j - 1);
    }
}

/// Whether the profile's MAC address matches `iface`.
fn mac_matches_exec(pmac: &Option<String>, iface: &Interface) -> (r: bool)
    ensures
        r == mac_matches(opt_view(*pmac), iface@),
{
    match (pmac, &iface.mac_address) {
        (Some(pm), Some(im)) => {
            let a = ascii_lowercase(im.as_str());
            let b = ascii_lowercase(pm.as_str());
            str_eq(a.as_str(), b.as_str())
        },
        _ => false,
    }
}

/// Whether the profile's interface name matches `iface`.
fn name_matches_exec(pname: &Option<String>, iface: &Interface) -> (r: bool)
    ensures
        r == name_matches(opt_view(*pname), iface@),
{
    match pname {
        Some(pn) => str_eq(iface.logical_name.as_str(), pn.as_str()),
        None => false,
    }
}

/// Counts the interfaces the profile's MAC address matches, and where the
/// first of them stands.
fn scan_mac_matches(interfaces: &Vec<Interface>, pmac: &Option<String>) -> (r: (usize, usize))
    ensures
        r.0 == count_mac_matches(iface_views(interfaces@), opt_view(*pmac)),
        r.0 > 0 ==> r.1 < interfaces@.len() && r.1 == first_mac_match(
            iface_views(interfaces@),
            opt_view(*pmac),
        ),
{
    let ghost ivs = iface_views(interfaces@);
    let ghost pm = opt_view(*pmac);
    let n = interfaces.len();
    let mut c: usize = 0;
    let mut first: usize = 0;
    let mut t: usize = 0;
    proof {
        assert(ivs.skip(0) =~= ivs);
    }
    while t < n
        invariant
            ivs == iface_views(interfaces@),
            pm == opt_view(*pmac),
            n == interfaces@.len(),
            t <= n,
            c <= t,
            c + count_mac_matches(ivs.skip(t as int), pm) == count_mac_matches(ivs, pm),
            c > 0 ==> first < t && mac_matches(pm, ivs[first as int]) && (forall|l: int|
                0 <= l < first ==> !mac_matches(pm, ivs[l])),
            c == 0 ==> forall|l: int| 0 <= l < t ==> !mac_matches(pm, ivs[l]),
        decreases n - t,
    {
        proof {
            let tail = ivs.skip(t as int);
            assert(tail[0] == ivs[t as int]);
            assert(tail.drop_first() =~= ivs.skip(t + 1));
        }
        if mac_matches_exec(pmac, &interfaces[t]) {
            if c == 0 {
                first = t;
            }
            c = c + 1;
        }
        t = t + 1;
    }
    proof {
        assert(ivs.skip(n as int) =~= Seq::<IfaceView>::empty());
        if c > 0 {
            lemma_first_mac_match_at(ivs, pm, first as int);
        }
    }
    (c, first)
}

/// Counts the interfaces the profile's interface name matches, and where the
/// first of them stands.
fn scan_name_matches(interfaces: &Vec<Interface>, pname: &Option<String>) -> (r: (usize, usize))
    ensures
        r.0 == count_name_matches(iface_views(interfaces@), opt_view(*pname)),
        r.0 > 0 ==> r.1 < interfaces@.len() && r.1 == first_name_match(
            iface_views(interfaces@),
            opt_view(*pname),
        ),
{
    let ghost ivs = iface_views(interfaces@);
    let ghost pn = opt_view(*pname);
    let n = interfaces.len();
    let mut c: usize = 0;
    let mut first: usize = 0;
    let mut t: usize = 0;
    proof {
        assert(ivs.skip(0) =~= ivs);
    }
    while t < n
        invariant
            ivs == iface_views(interfaces@),
            pn == opt_view(*pname),
            n == interfaces@.len(),
            t <= n,
            c <= t,
            c + count_name_matches(ivs.skip(t as int), pn) == count_name_matches(ivs, pn),
            c > 0 ==> first < t && name_matches(pn, ivs[first as int]) && (forall|l: int|
                0 <= l < first ==> !name_matches(pn, ivs[l])),
            c == 0 ==> forall|l: int| 0 <= l < t ==> !name_matches(pn, ivs[l]),
        decreases n - t,
    {
        proof {
            let tail = ivs.skip(t as int);
            assert(tail[0] == ivs[t as int]);
            assert(tail.drop_first() =~= ivs.skip(t + 1));
        }
        if name_matches_exec(pname, &interfaces[t]) {
            if c == 0 {
                first = t;
            }
            c = c + 1;
        }
        t = t + 1;
    }
    proof {
        assert(ivs.skip(n as int) =~= Seq::<IfaceView>::empty());
        if c > 0 {
            lemma_first_name_match_at(ivs, pn, first as int);
        }
    }
    (c, first)
}

/// Attributes every generated profile to the interface it configures.
///
/// Loopback profiles are skipped. Every other profile must name an interface
/// or a MAC address — else the run fails naming the file — and carry a
/// connection id. The MAC strategy is tried first, over all interfaces: the
/// id is appended to the one interface whose MAC address equals the
/// profile's, case-insensitively; more than one such interface is an
/// ambiguity and fails the run. Only when no MAC matches does the name
/// strategy apply, by exact logical name, again failing on ambiguity. A
/// profile matching no interface fails the run. Profiles before a failing
/// one stay attributed.
pub fn populate_connection_ids(interfaces: &mut Vec<Interface>, config: &Vec<(String, String)>) -> (r:
    Result<(), NmcError>)
    ensures
        iface_views(final(interfaces)@) == attribute_spec(
            iface_views(old(interfaces)@),
            pair_views(config@),
        ).0,
        match r {
            Ok(_) => attribute_spec(iface_views(old(interfaces)@), pair_views(config@)).1 is None,
            Err(e) => {
                let err = attribute_spec(iface_views(old(interfaces)@), pair_views(config@)).1;
                match e {
                    NmcError::NoProfileIdentifier(f) => err == Some(AttrError::NoIdentifier(f@)),
                    NmcError::NoConnectionId(f) => err == Some(AttrError::NoConnectionId(f@)),
                    NmcError::NoMatchingInterface(f) => err == Some(AttrError::NoMatch(f@)),
                    NmcError::MultipleMatchingInterfaces(f) => err == Some(
                        AttrError::Ambiguous(f@),
                    ),
                    _ => false,
                }
            },
        },
{
    let ghost orig = iface_views(old(interfaces)@);
    let ghost pvs = pair_views(config@);
    let n = config.len();
    let mut p: usize = 0;
    proof {
        assert(pvs.skip(0) =~= pvs);
    }
    while p < n
        invariant
            orig == iface_views(old(interfaces)@),
            pvs == pair_views(config@),
            n == config@.len(),
            p <= n,
            attribute_spec(iface_views(interfaces@), pvs.skip(p as int)) == attribute_spec(
                orig,
                pvs,
            ),
        decreases n - p,
    {
        let ghost cur = iface_views(interfaces@);
        let ghost tail = pvs.skip(p as int);
        proof {
            assert(tail[0] == pvs[p as int]);
            assert(tail.drop_first() =~= pvs.skip(p + 1));
            assert(config@[p as int].1@ == pvs[p as int].1);
        }
        let content = &config[p].1;
        let is_lo = match keyfile_get(content.as_str(), "connection", "type") {
            Some(t) => str_eq(t.as_str(), "loopback"),
            None => false,
        };
        if is_lo {
            proof {
                assert(is_loopback_profile(tail[0].1));
                assert(attribute_spec(cur, tail) == attribute_spec(cur, tail.drop_first()));
            }
        } else {
            assert(!is_loopback_profile(tail[0].1));
            let pname = keyfile_get(content.as_str(), "connection", "interface-name");
            let pmac = keyfile_get(content.as_str(), "ethernet", "mac-address");
            proof {
                assert(opt_view(pname) == profile_iface_name(tail[0].1));
                assert(opt_view(pmac) == profile_mac(tail[0].1));
            }
            if pmac.is_none() && pname.is_none() {
                proof {
                    assert(attribute_spec(cur, tail) == (
                        cur,
                        Some(AttrError::NoIdentifier(tail[0].0)),
                    ));
                }
                return Err(NmcError::NoProfileIdentifier(config[p].0.clone()));
            }
            match keyfile_get(content.as_str(), "connection", "id") {
                None => {
                    proof {
                        assert(profile_conn_id(tail[0].1) is None);
                        assert(attribute_spec(cur, tail) == (
                            cur,
                            Some(AttrError::NoConnectionId(tail[0].0)),
                        ));
                    }
                    return Err(NmcError::NoConnectionId(config[p].0.clone()));
                },
                Some(cid) => {
                    proof {
                        assert(profile_conn_id(tail[0].1) == Some(cid@));
                    }
                    let (mc, mfirst) = scan_mac_matches(interfaces, &pmac);
                    let target: usize;
                    if mc >= 2 {
                        proof {
                            assert(attribute_spec(cur, tail) == (
                                cur,
                                Some(AttrError::Ambiguous(tail[0].0)),
                            ));
                        }
                        return Err(NmcError::MultipleMatchingInterfaces(config[p].0.clone()));
                    } else if mc == 1 {
                        target = mfirst;
                    } else {
                        let (nc, nfirst) = scan_name_matches(interfaces, &pname);
                        if nc >= 2 {
                            proof {
                                assert(attribute_spec(cur, tail) == (
                                    cur,
                                    Some(AttrError::Ambiguous(tail[0].0)),
                                ));
                            }
                            return Err(
                                NmcError::MultipleMatchingInterfaces(config[p].0.clone()),
                            );
                        } else if nc == 1 {
                            target = nfirst;
                        } else {
                            proof {
                                assert(attribute_spec(cur, tail) == (
                                    cur,
                                    Some(AttrError::NoMatch(tail[0].0)),
                                ));
                            }
                            return Err(NmcError::NoMatchingInterface(config[p].0.clone()));
                        }
                    }
                    let t = target;
                    let mut up = interfaces[t].clone();
                    up.connection_ids.push(cid);
                    proof {
                        assert(str_views(up.connection_ids@) =~= cur[t as int].connection_ids.push(
                            cid@,
                        ));
                        assert(up@ =~= with_id(cur[t as int], cid@));
                    }
                    interfaces.set(t, up);
                    proof {
                        assert(iface_views(interfaces@) =~= cur.update(
                            t as int,
                            with_id(cur[t as int], cid@),
                        ));
                        assert(attribute_spec(cur, tail) == attribute_spec(
                            iface_views(interfaces@),
                            tail.drop_first(),
                        ));
                    }
                },
            }
        }
        p = p + 1;
    }
    proof {
        assert(pvs.skip(n as int) =~= Seq::<(Seq<char>, Seq<char>)>::empty());
    }
    Ok(())
}

/// A loopback-type profile is never attributed to any interface and never
/// fails a run: attribution over a profile list with a loopback profile
/// equals attribution over the list without it.
pub proof fn lemma_loopback_profile_skipped(
    ifaces: Seq<IfaceView>,
    profiles: Seq<(Seq<char>, Seq<char>)>,
    t: int,
)
    requires
        0 <= t < profiles.len(),
        is_loopback_profile(profiles[t].1),
    ensures
        attribute_spec(ifaces, profiles) == attribute_spec(ifaces, profiles.remove(t)),
    decreases profiles.len(),
{
    if t == 0 {
        assert(profiles.remove(0) =~= profiles.drop_first());
    } else {
        let rem = profiles.remove(t);
        assert(rem[0] == profiles[0]);
        assert(rem.drop_first() =~= profiles.drop_first().remove(t - 1));
        let content = profiles[0].1;
        if is_loopback_profile(content) {
            lemma_loopback_profile_skipped(ifaces, profiles.drop_first(), t - 1);
        } else {
            let pname = profile_iface_name(content);
            let pmac = profile_mac(content);
            if !(pmac is None && pname is None) {
                match profile_conn_id(content) {
                    None => {},
                    Some(cid) => {
                        lemma_mac_match_props(ifaces, pmac);
                        lemma_name_match_props(ifaces, pname);
                        let mc = count_mac_matches(ifaces, pmac);
                        let nc = count_name_matches(ifaces, pname);
                        if mc == 1 || (mc == 0 && nc == 1) {
                            let w = if mc == 1 {
                                first_mac_match(ifaces, pmac)
                            } else {
                                first_name_match(ifaces, pname)
                            };
                            lemma_loopback_profile_skipped(
                                ifaces.update(w, with_id(ifaces[w], cid)),
                                profiles.drop_first(),
                                t - 1,
                            );
                        }
                    },
                }
            }
        }
    }
}

/// A profile that names neither an interface nor a MAC address stops the run
/// with an error naming its file, as soon as attribution reaches it.
pub proof fn lemma_unidentifiable_profile_fails(
    ifaces: Seq<IfaceView>,
    profiles: Seq<(Seq<char>, Seq<char>)>,
)
    requires
        profiles.len() > 0,
        !is_loopback_profile(profiles[0].1),
        profile_mac(profiles[0].1) is None,
        profile_iface_name(profiles[0].1) is None,
    ensures
        attribute_spec(ifaces, profiles) == (ifaces, Some(AttrError::NoIdentifier(profiles[0].0))),
{
}

/// An interface record whose type is not loopback.
pub open spec fn non_loopback_desc(d: (Seq<char>, Option<Seq<char>>, Seq<char>)) -> bool {
    d.2 != "loopback"@
}

/// The non-loopback records of a record multiset.
pub open spec fn non_loopback(m: Multiset<(Seq<char>, Option<Seq<char>>, Seq<char>)>) -> Multiset<
    (Seq<char>, Option<Seq<char>>, Seq<char>),
> {
    m.filter(|d: (Seq<char>, Option<Seq<char>>, Seq<char>)| non_loopback_desc(d))
}

/// The non-loopback filter distributes over inserting one record.
proof fn lemma_non_loopback_insert(
    m: Multiset<(Seq<char>, Option<Seq<char>>, Seq<char>)>,
    x: (Seq<char>, Option<Seq<char>>, Seq<char>),
)
    ensures
        non_loopback(m.insert(x)) == if non_loopback_desc(x) {
            non_loopback(m).insert(x)
        } else {
            non_loopback(m)
        },
{
    broadcast use vstd::multiset::group_multiset_axioms;

    if non_loopback_desc(x) {
        assert(non_loopback(m.insert(x)) =~= non_loopback(m).insert(x));
    } else {
        assert(non_loopback(m.insert(x)) =~= non_loopback(m));
    }
}

/// Lists the interfaces of a desired network state, skipping the loopback
/// interface, each with no connection ids attributed yet: exactly the
/// non-loopback interface records the state holds.
pub fn extract_interfaces(state: &nmstate::NetworkState) -> (r: Vec<Interface>)
    ensures
        descs_of(iface_views(r@)) == non_loopback(state_iface_descs(*state)),
        forall|t: int|
            0 <= t < r@.len() ==> (#[trigger] r@[t]@).interface_type != "loopback"@
                && r@[t]@.connection_ids.len() == 0,
{
    broadcast use vstd::seq_lib::group_to_multiset_ensures;
    broadcast use vstd::multiset::group_multiset_axioms;

    let all = state_interfaces(state);
    let mut out: Vec<Interface> = Vec::new();
    let mut t: usize = 0;
    proof {
        assert(iface_views(out@).map_values(|i: IfaceView| iface_desc(i)) =~= Seq::<(
            Seq<char>,
            Option<Seq<char>>,
            Seq<char>,
        )>::empty());
        assert(iface_views(all@.take(0)).map_values(|i: IfaceView| iface_desc(i)) =~= Seq::<(
            Seq<char>,
            Option<Seq<char>>,
            Seq<char>,
        )>::empty());
        assert(descs_of(iface_views(out@)) =~= non_loopback(descs_of(iface_views(all@.take(0)))));
    }
    while t < all.len()
        invariant
            t <= all@.len(),
            forall|w: int| 0 <= w < all@.len() ==> (#[trigger] all@[w]@).connection_ids.len() == 0,
            forall|w: int|
                0 <= w < out@.len() ==> (#[trigger] out@[w]@).interface_type != "loopback"@
                    && out@[w]@.connection_ids.len() == 0,
            descs_of(iface_views(out@)) == non_loopback(descs_of(iface_views(all@.take(t as int)))),
        decreases all@.len() - t,
    {
        broadcast use vstd::seq_lib::group_to_multiset_ensures;

        let ghost prev_out = out@;
        let ghost d = iface_desc(all@[t as int]@);
        proof {
            assert(iface_views(all@.take(t + 1)).map_values(|i: IfaceView| iface_desc(i))
                =~= iface_views(all@.take(t as int)).map_values(|i: IfaceView| iface_desc(i)).push(
                d,
            ));
            assert(descs_of(iface_views(all@.take(t + 1))) == descs_of(
                iface_views(all@.take(t as int)),
            ).insert(d));
            lemma_non_loopback_insert(descs_of(iface_views(all@.take(t as int))), d);
        }
        if !str_eq(all[t].interface_type.as_str(), "loopback") {
            out.push(all[t].clone());
            proof {
                assert(iface_views(out@).map_values(|i: IfaceView| iface_desc(i)) =~= iface_views(
                    prev_out,
                ).map_values(|i: IfaceView| iface_desc(i)).push(d));
                assert(descs_of(iface_views(out@)) == descs_of(iface_views(prev_out)).insert(d));
            }
        }
        t = t + 1;
    }
    proof {
        assert(all@.take(all@.len() as int) =~= all@);
    }
    out
}

/// Two interface lists that agree on every type and MAC address have the
/// same Ethernet-without-MAC report.
proof fn lemma_missing_mac_congruent(a: Seq<IfaceView>, b: Seq<IfaceView>)
    requires
        a.len() == b.len(),
        forall|t: int| #![trigger a[t]]
            0 <= t < a.len() ==> a[t].logical_name == b[t].logical_name && a[t].mac_address
                == b[t].mac_address && a[t].interface_type == b[t].interface_type,
    ensures
        ethernet_missing_mac(a) == ethernet_missing_mac(b),
    decreases a.len(),
{
    if a.len() > 0 {
        assert(forall|t: int| #![trigger a.drop_last()[t]]
            0 <= t < a.len() - 1 ==> a.drop_last()[t] == a[t] && b.drop_last()[t] == b[t]);
        lemma_missing_mac_congruent(a.drop_last(), b.drop_last());
        assert(a.last() == a[a.len() - 1] && b.last() == b[a.len() - 1]);
    }
}

/// An Ethernet record.
pub open spec fn desc_is_ethernet(d: (Seq<char>, Option<Seq<char>>, Seq<char>)) -> bool {
    d.2 == "ethernet"@
}

/// An Ethernet record without a MAC address.
pub open spec fn desc_macless_ethernet(d: (Seq<char>, Option<Seq<char>>, Seq<char>)) -> bool {
    desc_is_ethernet(d) && d.1 is None
}

/// The record multiset holds an Ethernet record.
pub open spec fn ms_has_ethernet(m: Multiset<(Seq<char>, Option<Seq<char>>, Seq<char>)>) -> bool {
    exists|d: (Seq<char>, Option<Seq<char>>, Seq<char>)| m.count(d) > 0 && desc_is_ethernet(d)
}

/// The record multiset holds a MAC-less Ethernet record.
pub open spec fn ms_has_macless_ethernet(
    m: Multiset<(Seq<char>, Option<Seq<char>>, Seq<char>)>,
) -> bool {
    exists|d: (Seq<char>, Option<Seq<char>>, Seq<char>)| m.count(d) > 0 && desc_macless_ethernet(d)
}

/// A record is in the multiset of an interface list exactly when some
/// interface of the list carries it.
proof fn lemma_descs_membership(l: Seq<IfaceView>)
    ensures
        forall|d: (Seq<char>, Option<Seq<char>>, Seq<char>)| #![trigger descs_of(l).count(d)]
            descs_of(l).count(d) > 0 <==> (exists|t: int|
                0 <= t < l.len() && #[trigger] iface_desc(l[t]) == d),
{
    broadcast use vstd::seq_lib::group_to_multiset_ensures;

    let s = l.map_values(|i: IfaceView| iface_desc(i));
    assert forall|d: (Seq<char>, Option<Seq<char>>, Seq<char>)|
        descs_of(l).count(d) > 0 <==> (exists|t: int|
            0 <= t < l.len() && #[trigger] iface_desc(l[t]) == d) by {
        assert(s.contains(d) <==> s.to_multiset().count(d) > 0);
        if s.contains(d) {
            let t = choose|t: int| 0 <= t < s.len() && s[t] == d;
            assert(iface_desc(l[t]) == d);
        }
        if exists|t: int| 0 <= t < l.len() && #[trigger] iface_desc(l[t]) == d {
            let t = choose|t: int| 0 <= t < l.len() && #[trigger] iface_desc(l[t]) == d;
            assert(s[t] == d);
            assert(s.contains(d));
        }
    }
}

/// An interface list has an Ethernet interface exactly when its record
/// multiset has an Ethernet record.
proof fn lemma_has_ethernet_ms(l: Seq<IfaceView>)
    ensures
        has_ethernet(l) <==> ms_has_ethernet(descs_of(l)),
{
    lemma_descs_membership(l);
    if has_ethernet(l) {
        let t = choose|t: int| 0 <= t < l.len() && is_ethernet(l[t]);
        assert(iface_desc(l[t]) == iface_desc(l[t]));
        assert(descs_of(l).count(iface_desc(l[t])) > 0);
        assert(desc_is_ethernet(iface_desc(l[t])));
    }
    if ms_has_ethernet(descs_of(l)) {
        let d = choose|d: (Seq<char>, Option<Seq<char>>, Seq<char>)|
            descs_of(l).count(d) > 0 && desc_is_ethernet(d);
        let t = choose|t: int| 0 <= t < l.len() && #[trigger] iface_desc(l[t]) == d;
        assert(is_ethernet(l[t]));
    }
}

/// A name is reported as a MAC-less Ethernet interface exactly when the list
/// holds an Ethernet interface of that name without a MAC address.
proof fn lemma_missing_mac_membership(l: Seq<IfaceView>)
    ensures
        forall|n: Seq<char>| #![trigger ethernet_missing_mac(l).contains(n)]
            ethernet_missing_mac(l).contains(n) <==> (exists|t: int|
                0 <= t < l.len() && is_ethernet(#[trigger] l[t]) && l[t].mac_address is None
                    && l[t].logical_name == n),
    decreases l.len(),
{
    if l.len() > 0 {
        lemma_missing_mac_membership(l.drop_last());
        let pre = ethernet_missing_mac(l.drop_last());
        let cur = ethernet_missing_mac(l);
        let last = l.last();
        assert forall|n: Seq<char>|
            ethernet_missing_mac(l).contains(n) <==> (exists|t: int|
                0 <= t < l.len() && is_ethernet(#[trigger] l[t]) && l[t].mac_address is None
                    && l[t].logical_name == n) by {
            if cur.contains(n) {
                let i = choose|i: int| 0 <= i < cur.len() && cur[i] == n;
                if is_ethernet(last) && last.mac_address is None {
                    if i < pre.len() {
                        assert(pre[i] == n);
                        assert(pre.contains(n));
                        let t = choose|t: int|
                            0 <= t < l.len() - 1 && is_ethernet(#[trigger] l.drop_last()[t])
                                && l.drop_last()[t].mac_address is None
                                && l.drop_last()[t].logical_name == n;
                        assert(l[t] == l.drop_last()[t]);
                    } else {
                        assert(n == last.logical_name);
                        assert(l[l.len() - 1] == last);
                    }
                } else {
                    assert(pre[i] == n);
                    assert(pre.contains(n));
                    let t = choose|t: int|
                        0 <= t < l.len() - 1 && is_ethernet(#[trigger] l.drop_last()[t])
                            && l.drop_last()[t].mac_address is None
                            && l.drop_last()[t].logical_name == n;
                    assert(l[t] == l.drop_last()[t]);
                }
            }
            if exists|t: int|
                0 <= t < l.len() && is_ethernet(#[trigger] l[t]) && l[t].mac_address is None
                    && l[t].logical_name == n {
                let t = choose|t: int|
                    0 <= t < l.len() && is_ethernet(#[trigger] l[t]) && l[t].mac_address is None
                        && l[t].logical_name == n;
                if t == l.len() - 1 {
                    assert(cur == pre.push(n));
                    assert(cur[cur.len() - 1] == n);
                } else {
                    assert(l.drop_last()[t] == l[t]);
                    assert(pre.contains(n));
                    let i = choose|i: int| 0 <= i < pre.len() && pre[i] == n;
                    if is_ethernet(last) && last.mac_address is None {
                        assert(cur[i] == n);
                    } else {
                        assert(cur[i] == n);
                    }
                }
                assert(cur.contains(n));
            }
        }
    }
}

/// Every name reported as lacking a connection profile names an interface of
/// the list.
proof fn lemma_empty_ids_membership(l: Seq<IfaceView>)
    ensures
        forall|n: Seq<char>| #![trigger empty_connection_ids(l).contains(n)]
            empty_connection_ids(l).contains(n) ==> (exists|t: int|
                0 <= t < l.len() && #[trigger] l[t].logical_name == n),
    decreases l.len(),
{
    if l.len() > 0 {
        lemma_empty_ids_membership(l.drop_last());
        let pre = empty_connection_ids(l.drop_last());
        let cur = empty_connection_ids(l);
        assert forall|n: Seq<char>| cur.contains(n) implies (exists|t: int|
            0 <= t < l.len() && #[trigger] l[t].logical_name == n) by {
            let i = choose|i: int| 0 <= i < cur.len() && cur[i] == n;
            if l.last().connection_ids.len() == 0 && i == pre.len() {
                assert(l[l.len() - 1].logical_name == n);
            } else {
                assert(pre[i] == n);
                assert(pre.contains(n));
                let t = choose|t: int|
                    0 <= t < l.len() - 1 && #[trigger] l.drop_last()[t].logical_name == n;
                assert(l[t].logical_name == n);
            }
        }
    }
}

/// The record's MAC address is present and equals the profile's,
/// case-insensitively.
pub open spec fn desc_mac_matches(
    pmac: Option<Seq<char>>,
    d: (Seq<char>, Option<Seq<char>>, Seq<char>),
) -> bool {
    pmac is Some && d.1 is Some && lower(d.1.unwrap()) == lower(pmac.unwrap())
}

/// The record's name equals the profile's declared interface name.
pub open spec fn desc_name_matches(
    pname: Option<Seq<char>>,
    d: (Seq<char>, Option<Seq<char>>, Seq<char>),
) -> bool {
    pname is Some && d.0 == pname.unwrap()
}

/// How many records of the multiset the profile's MAC address matches.
pub open spec fn ms_mac_matches(
    m: Multiset<(Seq<char>, Option<Seq<char>>, Seq<char>)>,
    pmac: Option<Seq<char>>,
) -> int {
    m.filter(
        |d: (Seq<char>, Option<Seq<char>>, Seq<char>)| desc_mac_matches(pmac, d),
    ).len() as int
}

/// How many records of the multiset the profile's interface name matches.
pub open spec fn ms_name_matches(
    m: Multiset<(Seq<char>, Option<Seq<char>>, Seq<char>)>,
    pname: Option<Seq<char>>,
) -> int {
    m.filter(
        |d: (Seq<char>, Option<Seq<char>>, Seq<char>)| desc_name_matches(pname, d),
    ).len() as int
}

proof fn lemma_ms_mac_insert(
    m: Multiset<(Seq<char>, Option<Seq<char>>, Seq<char>)>,
    pmac: Option<Seq<char>>,
    x: (Seq<char>, Option<Seq<char>>, Seq<char>),
)
    ensures
        ms_mac_matches(m.insert(x), pmac) == ms_mac_matches(m, pmac) + (if desc_mac_matches(
            pmac,
            x,
        ) {
            1int
        } else {
            0
        }),
{
    broadcast use vstd::multiset::group_multiset_axioms;

    let p = |d: (Seq<char>, Option<Seq<char>>, Seq<char>)| desc_mac_matches(pmac, d);
    if desc_mac_matches(pmac, x) {
        assert(m.insert(x).filter(p) =~= m.filter(p).insert(x));
    } else {
        assert(m.insert(x).filter(p) =~= m.filter(p));
    }
}

proof fn lemma_ms_name_insert(
    m: Multiset<(Seq<char>, Option<Seq<char>>, Seq<char>)>,
    pname: Option<Seq<char>>,
    x: (Seq<char>, Option<Seq<char>>, Seq<char>),
)
    ensures
        ms_name_matches(m.insert(x), pname) == ms_name_matches(m, pname) + (if desc_name_matches(
            pname,
            x,
        ) {
            1int
        } else {
            0
        }),
{
    broadcast use vstd::multiset::group_multiset_axioms;

    let p = |d: (Seq<char>, Option<Seq<char>>, Seq<char>)| desc_name_matches(pname, d);
    if desc_name_matches(pname, x) {
        assert(m.insert(x).filter(p) =~= m.filter(p).insert(x));
    } else {
        assert(m.insert(x).filter(p) =~= m.filter(p));
    }
}

/// An interface list's records are its interfaces, one each: dropping the
/// first interface removes its record.
proof fn lemma_descs_drop_first(l: Seq<IfaceView>)
    requires
        l.len() > 0,
    ensures
        descs_of(l) == descs_of(l.drop_first()).insert(iface_desc(l[0])),
{
    broadcast use vstd::seq_lib::group_to_multiset_ensures;
    broadcast use vstd::multiset::group_multiset_axioms;

    let s = l.map_values(|i: IfaceView| iface_desc(i));
    let d0 = iface_desc(l[0]);
    assert(s.remove(0) =~= l.drop_first().map_values(|i: IfaceView| iface_desc(i)));
    assert(s.remove(0).to_multiset() =~= s.to_multiset().remove(s[0]));
    assert(s[0] == d0);
    assert(s.contains(d0));
    assert(s.to_multiset().count(d0) > 0);
    assert(s.to_multiset().remove(d0).insert(d0) =~= s.to_multiset());
}

proof fn lemma_ms_mac_count(l: Seq<IfaceView>, pmac: Option<Seq<char>>)
    ensures
        count_mac_matches(l, pmac) == ms_mac_matches(descs_of(l), pmac),
    decreases l.len(),
{
    broadcast use vstd::seq_lib::group_to_multiset_ensures;
    broadcast use vstd::multiset::group_multiset_axioms;

    let p = |d: (Seq<char>, Option<Seq<char>>, Seq<char>)| desc_mac_matches(pmac, d);
    if l.len() == 0 {
        assert(l.map_values(|i: IfaceView| iface_desc(i)).len() == 0);
        assert(descs_of(l).len() == 0);
        assert(descs_of(l).filter(p) =~= Multiset::<(
            Seq<char>,
            Option<Seq<char>>,
            Seq<char>,
        )>::empty()) by {
            assert(forall|d: (Seq<char>, Option<Seq<char>>, Seq<char>)|
                #![trigger descs_of(l).count(d)]
                descs_of(l).count(d) == 0);
        }
    } else {
        lemma_ms_mac_count(l.drop_first(), pmac);
        lemma_descs_drop_first(l);
        lemma_ms_mac_insert(descs_of(l.drop_first()), pmac, iface_desc(l[0]));
        assert(desc_mac_matches(pmac, iface_desc(l[0])) == mac_matches(pmac, l[0]));
    }
}

proof fn lemma_ms_name_count(l: Seq<IfaceView>, pname: Option<Seq<char>>)
    ensures
        count_name_matches(l, pname) == ms_name_matches(descs_of(l), pname),
    decreases l.len(),
{
    broadcast use vstd::seq_lib::group_to_multiset_ensures;
    broadcast use vstd::multiset::group_multiset_axioms;

    let p = |d: (Seq<char>, Option<Seq<char>>, Seq<char>)| desc_name_matches(pname, d);
    if l.len() == 0 {
        assert(l.map_values(|i: IfaceView| iface_desc(i)).len() == 0);
        assert(descs_of(l).len() == 0);
        assert(descs_of(l).filter(p) =~= Multiset::<(
            Seq<char>,
            Option<Seq<char>>,
            Seq<char>,
        )>::empty()) by {
            assert(forall|d: (Seq<char>, Option<Seq<char>>, Seq<char>)|
                #![trigger descs_of(l).count(d)]
                descs_of(l).count(d) == 0);
        }
    } else {
        lemma_ms_name_count(l.drop_first(), pname);
        lemma_descs_drop_first(l);
        lemma_ms_name_insert(descs_of(l.drop_first()), pname, iface_desc(l[0]));
        assert(desc_name_matches(pname, iface_desc(l[0])) == name_matches(pname, l[0]));
    }
}

/// Why attribution fails, read off the record multiset and the profiles in
/// order: the outcome does not depend on the interfaces' order, since a
/// profile matches some interface exactly when it matches some record.
pub open spec fn attribution_error(
    m: Multiset<(Seq<char>, Option<Seq<char>>, Seq<char>)>,
    profiles: Seq<(Seq<char>, Seq<char>)>,
) -> Option<AttrError>
    decreases profiles.len(),
{
    if profiles.len() == 0 {
        None
    } else {
        let fname = profiles[0].0;
        let content = profiles[0].1;
        if is_loopback_profile(content) {
            attribution_error(m, profiles.drop_first())
        } else {
            let pname = profile_iface_name(content);
            let pmac = profile_mac(content);
            if pmac is None && pname is None {
                Some(AttrError::NoIdentifier(fname))
            } else {
                match profile_conn_id(content) {
                    None => Some(AttrError::NoConnectionId(fname)),
                    Some(_) => {
                        let mc = ms_mac_matches(m, pmac);
                        let nc = ms_name_matches(m, pname);
                        if mc >= 2 {
                            Some(AttrError::Ambiguous(fname))
                        } else if mc == 1 {
                            attribution_error(m, profiles.drop_first())
                        } else if nc >= 2 {
                            Some(AttrError::Ambiguous(fname))
                        } else if nc == 1 {
                            attribution_error(m, profiles.drop_first())
                        } else {
                            Some(AttrError::NoMatch(fname))
                        }
                    },
                }
            }
        }
    }
}

/// Attribution fails exactly as the record multiset says: appending ids
/// never changes a record, so the error outcome is order-independent.
proof fn lemma_attribution_error_ms(ifaces: Seq<IfaceView>, profiles: Seq<(Seq<char>, Seq<char>)>)
    ensures
        attribute_spec(ifaces, profiles).1 == attribution_error(descs_of(ifaces), profiles),
    decreases profiles.len(),
{
    if profiles.len() > 0 {
        let content = profiles[0].1;
        if is_loopback_profile(content) {
            lemma_attribution_error_ms(ifaces, profiles.drop_first());
        } else {
            let pname = profile_iface_name(content);
            let pmac = profile_mac(content);
            if !(pmac is None && pname is None) {
                match profile_conn_id(content) {
                    None => {},
                    Some(cid) => {
                        lemma_ms_mac_count(ifaces, pmac);
                        lemma_ms_name_count(ifaces, pname);
                        lemma_mac_match_props(ifaces, pmac);
                        lemma_name_match_props(ifaces, pname);
                        let mc = count_mac_matches(ifaces, pmac);
                        let nc = count_name_matches(ifaces, pname);
                        if mc == 1 || (mc == 0 && nc == 1) {
                            let t = if mc == 1 {
                                first_mac_match(ifaces, pmac)
                            } else {
                                first_name_match(ifaces, pname)
                            };
                            let up = ifaces.update(t, with_id(ifaces[t], cid));
                            assert(up.map_values(|i: IfaceView| iface_desc(i)) =~= ifaces.map_values(
                                |i: IfaceView| iface_desc(i),
                            ));
                            assert(descs_of(up) == descs_of(ifaces));
                            lemma_attribution_error_ms(up, profiles.drop_first());
                        }
                    },
                }
            }
        }
    }
}

/// Attribution only appends ids, so it keeps every record.
proof fn lemma_attribute_preserves_descs(
    ifaces: Seq<IfaceView>,
    profiles: Seq<(Seq<char>, Seq<char>)>,
)
    ensures
        descs_of(attribute_spec(ifaces, profiles).0) == descs_of(ifaces),
{
    lemma_attribute_preserves_structure(ifaces, profiles);
    let fin = attribute_spec(ifaces, profiles).0;
    assert(fin.map_values(|i: IfaceView| iface_desc(i)) =~= ifaces.map_values(
        |i: IfaceView| iface_desc(i),
    ));
}

/// The non-loopback interface records of a desired-state document.
pub open spec fn synth_descs(d: Seq<char>) -> Multiset<(Seq<char>, Option<Seq<char>>, Seq<char>)> {
    non_loopback(yaml_descs(d))
}

/// The document parses and its interfaces pass the structural validations:
/// some Ethernet interface exists, and in strict mode every Ethernet
/// interface carries a MAC address.
pub open spec fn synth_validations_pass(d: Seq<char>, require_mac_addresses: bool) -> bool {
    yaml_parses(d) && ms_has_ethernet(synth_descs(d)) && (require_mac_addresses
        ==> !ms_has_macless_ethernet(synth_descs(d)))
}

/// Profile generation succeeds on the document and every generated profile
/// is attributable to one of its interfaces.
pub open spec fn synth_attribution_ok(d: Seq<char>) -> bool {
    yaml_profiles(d) is Some && attribution_error(synth_descs(d), yaml_profiles(d).unwrap())
        is None
}

/// Synthesizes the connection profiles for one host's desired state.
///
/// The desired state is parsed and handed to the state-translation library;
/// around that call, the library's own validations run: at least one Ethernet
/// interface must be present, in strict mode every Ethernet interface must
/// carry a MAC address, every generated profile must be attributable to an
/// interface, and every interface must end up with at least one profile.
pub fn generate_config(data: String, require_mac_addresses: bool) -> (r: Result<
    (Vec<Interface>, Vec<(String, String)>),
    NmcError,
>)
    ensures
        match r {
            Ok(pair) => synth_validations_pass(data@, require_mac_addresses)
                && synth_attribution_ok(data@) && descs_of(iface_views(pair.0@)) == synth_descs(
                data@,
            ) && yaml_profiles(data@) == Some(pair_views(pair.1@)) && has_ethernet(
                iface_views(pair.0@),
            ) && (require_mac_addresses ==> ethernet_missing_mac(iface_views(pair.0@)).len() == 0)
                && empty_connection_ids(iface_views(pair.0@)).len() == 0 && (forall|t: int|
                0 <= t < pair.0@.len() ==> (#[trigger] pair.0@[t]@).interface_type != "loopback"@),
            Err(e) => match e {
                NmcError::StateError(m) => (!yaml_parses(data@) && m@ == yaml_error_text(data@)
                    && contains_sub(m@, "Invalid YAML string"@)) || (synth_validations_pass(
                    data@,
                    require_mac_addresses,
                ) && yaml_profiles(data@) is None),
                NmcError::NoEthernetInterfaces => yaml_parses(data@) && !ms_has_ethernet(
                    synth_descs(data@),
                ),
                NmcError::MissingMacAddresses(names) => require_mac_addresses && yaml_parses(data@)
                    && ms_has_ethernet(synth_descs(data@)) && ms_has_macless_ethernet(
                    synth_descs(data@),
                ) && names@.len() > 0 && (forall|i: int| #![trigger names@[i]]
                    0 <= i < names@.len() ==> exists|dd: (Seq<char>, Option<Seq<char>>, Seq<char>)|
                        synth_descs(data@).count(dd) > 0 && desc_macless_ethernet(dd) && dd.0
                            == names@[i]@) && (forall|
                    dd: (Seq<char>, Option<Seq<char>>, Seq<char>),
                |
                    #![trigger synth_descs(data@).count(dd)]
                    synth_descs(data@).count(dd) > 0 && desc_macless_ethernet(dd) ==> exists|i: int|
                        0 <= i < names@.len() && names@[i]@ == dd.0),
                NmcError::InvalidNmConfiguration => false,
                NmcError::NoProfileIdentifier(f) => synth_validations_pass(
                    data@,
                    require_mac_addresses,
                ) && yaml_profiles(data@) is Some && attribution_error(
                    synth_descs(data@),
                    yaml_profiles(data@).unwrap(),
                ) == Some(AttrError::NoIdentifier(f@)),
                NmcError::NoConnectionId(f) => synth_validations_pass(data@, require_mac_addresses)
                    && yaml_profiles(data@) is Some && attribution_error(
                    synth_descs(data@),
                    yaml_profiles(data@).unwrap(),
                ) == Some(AttrError::NoConnectionId(f@)),
                NmcError::NoMatchingInterface(f) => synth_validations_pass(
                    data@,
                    require_mac_addresses,
                ) && yaml_profiles(data@) is Some && attribution_error(
                    synth_descs(data@),
                    yaml_profiles(data@).unwrap(),
                ) == Some(AttrError::NoMatch(f@)),
                NmcError::MultipleMatchingInterfaces(f) => synth_validations_pass(
                    data@,
                    require_mac_addresses,
                ) && yaml_profiles(data@) is Some && attribution_error(
                    synth_descs(data@),
                    yaml_profiles(data@).unwrap(),
                ) == Some(AttrError::Ambiguous(f@)),
                NmcError::MissingConnectionIds(names) => synth_validations_pass(
                    data@,
                    require_mac_addresses,
                ) && synth_attribution_ok(data@) && names@.len() > 0 && (forall|i: int|
                    #![trigger names@[i]]
                    0 <= i < names@.len() ==> exists|dd: (Seq<char>, Option<Seq<char>>, Seq<char>)|
                        synth_descs(data@).count(dd) > 0 && dd.0 == names@[i]@),
            },
        },
        // Success is owed whenever the document passes every named check; the
        // one open outcome is an interface left without a profile, which can
        // depend on the unspecified order the interfaces come out in.
        synth_validations_pass(data@, require_mac_addresses) && synth_attribution_ok(data@) ==> (r
            is Ok || r matches Err(NmcError::MissingConnectionIds(_))),
{
    let ghost d = data@;
    let state = match state_from_yaml(data.as_str()) {
        Ok(s) => s,
        Err(msg) => {
            return Err(NmcError::StateError(msg));
        },
    };
    let mut interfaces = extract_interfaces(&state);
    let ghost v0 = iface_views(interfaces@);
    proof {
        assert(descs_of(v0) == synth_descs(d));
    }
    match validate_interfaces(&interfaces, require_mac_addresses) {
        Ok(_) => {},
        Err(e) => {
            proof {
                lemma_has_ethernet_ms(v0);
                lemma_descs_membership(v0);
                lemma_missing_mac_membership(v0);
                match e {
                    NmcError::MissingMacAddresses(ref names) => {
                        let listed = ethernet_missing_mac(v0);
                        assert(listed.contains(listed[0]));
                        assert(ms_has_macless_ethernet(synth_descs(d))) by {
                            let t = choose|t: int|
                                0 <= t < v0.len() && is_ethernet(#[trigger] v0[t])
                                    && v0[t].mac_address is None && v0[t].logical_name == listed[0];
                            assert(descs_of(v0).count(iface_desc(v0[t])) > 0);
                            assert(desc_macless_ethernet(iface_desc(v0[t])));
                        }
                        assert forall|i: int| #![trigger names@[i]]
                            0 <= i < names@.len() implies exists|
                            dd: (Seq<char>, Option<Seq<char>>, Seq<char>),
                        |
                            synth_descs(d).count(dd) > 0 && desc_macless_ethernet(dd) && dd.0
                                == names@[i]@ by {
                            assert(str_views(names@)[i] == names@[i]@);
                            assert(listed.contains(listed[i]));
                            let t = choose|t: int|
                                0 <= t < v0.len() && is_ethernet(#[trigger] v0[t])
                                    && v0[t].mac_address is None && v0[t].logical_name == listed[i];
                            assert(descs_of(v0).count(iface_desc(v0[t])) > 0);
                            assert(desc_macless_ethernet(iface_desc(v0[t])));
                            assert(iface_desc(v0[t]).0 == names@[i]@);
                        }
                        assert forall|dd: (Seq<char>, Option<Seq<char>>, Seq<char>)|
                            #![trigger synth_descs(d).count(dd)]
                            synth_descs(d).count(dd) > 0 && desc_macless_ethernet(dd) implies exists|
                            i: int,
                        | 0 <= i < names@.len() && names@[i]@ == dd.0 by {
                            let t = choose|t: int|
                                0 <= t < v0.len() && #[trigger] iface_desc(v0[t]) == dd;
                            assert(is_ethernet(v0[t]) && v0[t].mac_address is None);
                            assert(listed.contains(v0[t].logical_name));
                            let i = choose|i: int|
                                0 <= i < listed.len() && listed[i] == v0[t].logical_name;
                            assert(str_views(names@)[i] == names@[i]@);
                            assert(names@[i]@ == dd.0);
                        }
                    },
                    _ => {},
                }
            }
            return Err(e);
        },
    }
    proof {
        lemma_has_ethernet_ms(v0);
        if require_mac_addresses {
            assert(!ms_has_macless_ethernet(synth_descs(d))) by {
                lemma_descs_membership(v0);
                lemma_missing_mac_membership(v0);
                if ms_has_macless_ethernet(synth_descs(d)) {
                    let dd = choose|dd: (Seq<char>, Option<Seq<char>>, Seq<char>)|
                        synth_descs(d).count(dd) > 0 && desc_macless_ethernet(dd);
                    let t = choose|t: int| 0 <= t < v0.len() && #[trigger] iface_desc(v0[t]) == dd;
                    assert(is_ethernet(v0[t]) && v0[t].mac_address is None);
                    assert(ethernet_missing_mac(v0).contains(v0[t].logical_name));
                }
            }
        }
        assert(synth_validations_pass(d, require_mac_addresses));
    }
    let config = match gen_nm_conf(&state) {
        Ok(Some(c)) => c,
        Ok(None) => {
            assert(false);
            return Err(NmcError::InvalidNmConfiguration);
        },
        Err(e) => {
            assert(yaml_profiles(d) is None);
            return Err(NmcError::StateError(nm_error_message(&e)));
        },
    };
    proof {
        assert(yaml_profiles(d) == Some(pair_views(config@)));
    }
    match populate_connection_ids(&mut interfaces, &config) {
        Ok(_) => {},
        Err(e) => {
            proof {
                lemma_attribution_error_ms(v0, pair_views(config@));
            }
            return Err(e);
        },
    }
    proof {
        lemma_attribution_error_ms(v0, pair_views(config@));
        assert(synth_attribution_ok(d));
    }
    match validate_connection_ids(&interfaces) {
        Ok(_) => {},
        Err(e) => {
            proof {
                let fin = iface_views(interfaces@);
                lemma_attribute_preserves_descs(v0, pair_views(config@));
                assert(descs_of(fin) == synth_descs(d));
                lemma_empty_ids_membership(fin);
                lemma_descs_membership(fin);
                match e {
                    NmcError::MissingConnectionIds(ref names) => {
                        let listed = empty_connection_ids(fin);
                        assert forall|i: int| #![trigger names@[i]]
                            0 <= i < names@.len() implies exists|
                            dd: (Seq<char>, Option<Seq<char>>, Seq<char>),
                        | synth_descs(d).count(dd) > 0 && dd.0 == names@[i]@ by {
                            assert(str_views(names@)[i] == names@[i]@);
                            assert(listed.contains(listed[i]));
                            let t = choose|t: int|
                                0 <= t < fin.len() && #[trigger] fin[t].logical_name == listed[i];
                            assert(descs_of(fin).count(iface_desc(fin[t])) > 0);
                            assert(iface_desc(fin[t]).0 == names@[i]@);
                        }
                    },
                    _ => {},
                }
            }
            return Err(e);
        },
    }
    proof {
        let fin = iface_views(interfaces@);
        lemma_attribute_preserves_structure(v0, pair_views(config@));
        lemma_attribute_preserves_descs(v0, pair_views(config@));
        assert(fin == attribute_spec(v0, pair_views(config@)).0);
        assert(descs_of(fin) == synth_descs(d));
        let w = choose|w: int| 0 <= w < v0.len() && #[trigger] is_ethernet(v0[w]);
        assert(is_ethernet(fin[w]));
        assert(has_ethernet(fin));
        if require_mac_addresses {
            lemma_missing_mac_congruent(fin, v0);
        }
        assert forall|t: int| 0 <= t < interfaces@.len() implies (
        #[trigger] interfaces@[t]@).interface_type != "loopback"@ by {
            assert(fin[t].interface_type == v0[t].interface_type);
        }
    }
    Ok((interfaces, config))
}

/// The hostname encoded in a configuration file's name: the name without its
/// extension when that extension is `yml` or `yaml`, the whole name
/// otherwise, and nothing for an empty name. A dot that begins the name
/// opens no extension.
pub open spec fn hostname_of(name: Seq<char>) -> Option<Seq<char>> {
    if name.len() == 0 {
        None
    } else {
        let d = last_where(name, dot_pred());
        if d >= 1 && (name.skip(d + 1) == "yml"@ || name.skip(d + 1) == "yaml"@) {
            Some(name.take(d))
        } else {
            Some(name)
        }
    }
}

/// Extracts the hostname from a per-host configuration file's name.
pub fn extract_hostname(file_name: &str) -> (r: Option<String>)
    ensures
        match r {
            Some(h) => hostname_of(file_name@) == Some(h@),
            None => hostname_of(file_name@) is None,
        },
{
    let n = file_name.unicode_len();
    if n == 0 {
        return None;
    }
    let mut end: usize = n;
    while end > 0 && !is_dot_c(file_name.get_char(end - 1))
        invariant
            n == file_name@.len(),
            end <= n,
            forall|j: int| end <= j < n ==> !(dot_pred()(file_name@[j])),
        decreases end,
    {
        end = end - 1;
    }
    proof {
        if end > 0 {
            assert((dot_pred())(file_name@[end - 1]));
        }
        lemma_last_where_at(file_name@, dot_pred(), end - 1);
    }
    if end >= 2 {
        let suffix = file_name.substring_char(end, n);
        proof {
            assert(suffix@ =~= file_name@.skip(end as int));
        }
        if str_eq(suffix, "yml") || str_eq(suffix, "yaml") {
            let stem = file_name.substring_char(0, end - 1);
            proof {
                assert(stem@ =~= file_name@.take(end - 1));
            }
            return Some(stem.to_owned());
        }
    }
    Some(file_name.to_owned())
}

/// Attribution never changes how many interfaces there are, nor any name,
/// MAC address or type; it only appends connection ids.
pub proof fn lemma_attribute_preserves_structure(
    ifaces: Seq<IfaceView>,
    profiles: Seq<(Seq<char>, Seq<char>)>,
)
    ensures
        attribute_spec(ifaces, profiles).0.len() == ifaces.len(),
        forall|t: int| #![trigger ifaces[t]]
            0 <= t < ifaces.len() ==> attribute_spec(ifaces, profiles).0[t].logical_name
                == ifaces[t].logical_name && attribute_spec(ifaces, profiles).0[t].mac_address
                == ifaces[t].mac_address && attribute_spec(ifaces, profiles).0[t].interface_type
                == ifaces[t].interface_type,
    decreases profiles.len(),
{
    if profiles.len() > 0 {
        let content = profiles[0].1;
        if is_loopback_profile(content) {
            lemma_attribute_preserves_structure(ifaces, profiles.drop_first());
        } else {
            let pname = profile_iface_name(content);
            let pmac = profile_mac(content);
            if !(pmac is None && pname is None) {
                match profile_conn_id(content) {
                    None => {},
                    Some(cid) => {
                        lemma_mac_match_props(ifaces, pmac);
                        lemma_name_match_props(ifaces, pname);
                        let mc = count_mac_matches(ifaces, pmac);
                        let nc = count_name_matches(ifaces, pname);
                        if mc == 1 || (mc == 0 && nc == 1) {
                            let t = if mc == 1 {
                                first_mac_match(ifaces, pmac)
                            } else {
                                first_name_match(ifaces, pname)
                            };
                            let up = ifaces.update(t, with_id(ifaces[t], cid));
                            lemma_attribute_preserves_structure(up, profiles.drop_first());
                            let fin = attribute_spec(ifaces, profiles).0;
                            assert(fin == attribute_spec(up, profiles.drop_first()).0);
                            assert forall|w: int| 0 <= w < ifaces.len() implies #[trigger] fin[w].logical_name
                                == ifaces[w].logical_name && fin[w].mac_address
                                == ifaces[w].mac_address && fin[w].interface_type
                                == ifaces[w].interface_type by {
                                assert(up[w].logical_name == ifaces[w].logical_name);
                                assert(fin[w].logical_name == up[w].logical_name);
                                assert(fin[w].mac_address == up[w].mac_address);
                                assert(fin[w].interface_type == up[w].interface_type);
                            }
                        }
                    },
                }
            }
        }
    }
}

} // verus!
