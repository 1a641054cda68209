//! Interface reconciliation: computing the rename map from preconfigured
//! logical interface names to locally observed NIC names, and propagating a
//! physical interface's rename to the derived interfaces (VLANs, bridges)
//! whose names embed it.

use vstd::prelude::*;
use crate::types::{
    Host, HostView, IfaceView, Nic, NicView, RenameMap, lemma_map_of_pairs_entry, map_of_pairs,
    nic_views,
};
use crate::identify::{mac_eq, mac_eq_exec};
use crate::strutil::{
    contains, contains_sub, lemma_replace_changes, replace_all, replace_seq, str_eq,
};

verus! {

/// The interface is of Ethernet type.
pub open spec fn is_ethernet(i: IfaceView) -> bool {
    i.interface_type == "ethernet"@
}

/// NIC `n` can stand in for interface `i` of host `h`: the MAC addresses are
/// both present and equal, and no preconfigured interface of `h` already uses
/// `n`'s kernel name (which guards against renaming onto a name the
/// configuration itself uses, and in particular against a rename where the
/// names already agree).
pub open spec fn nic_candidate(n: NicView, i: IfaceView, h: HostView) -> bool {
    mac_eq(n.mac_addr, i.mac_address) && !(exists|l: int|
        0 <= l < h.interfaces.len() && h.interfaces[l].logical_name == n.name)
}

/// Some NIC can stand in for interface `i`.
pub open spec fn has_candidate(nics: Seq<NicView>, i: IfaceView, h: HostView) -> bool {
    exists|j: int| 0 <= j < nics.len() && nic_candidate(nics[j], i, h)
}

/// The position of the first NIC that can stand in for interface `i`.
pub open spec fn first_candidate(nics: Seq<NicView>, i: IfaceView, h: HostView) -> int
    decreases nics.len(),
{
    if nics.len() == 0 {
        0
    } else if nic_candidate(nics[0], i, h) {
        0
    } else {
        1 + first_candidate(nics.drop_first(), i, h)
    }
}

proof fn lemma_first_candidate_at(nics: Seq<NicView>, i: IfaceView, h: HostView, j: int)
    requires
        0 <= j <= nics.len(),
        forall|l: int| 0 <= l < j ==> !nic_candidate(nics[l], i, h),
        j == nics.len() || nic_candidate(nics[j], i, h),
    ensures
        j < nics.len() ==> has_candidate(nics, i, h) && first_candidate(nics, i, h) == j,
        j == nics.len() ==> !has_candidate(nics, i, h),
    decreases j,
{
    if j == nics.len() {
    } else if j == 0 {
    } else {
        assert(!nic_candidate(nics[0], i, h));
        assert(forall|l: int|
            0 <= l < j - 1 ==> nics.drop_first()[l] == nics[l + 1] && !nic_candidate(
                nics[l + 1],
                i,
                h,
            ));
        lemma_first_candidate_at(nics.drop_first(), i, h, j - 1);
    }
}

/// The direct renames (phase one), in interface order, over the first `upto`
/// interfaces of `h`: for each Ethernet interface with a usable NIC, the pair
/// of its logical name and the first such NIC's kernel name.
pub open spec fn phase1_pairs(h: HostView, nics: Seq<NicView>, upto: int) -> Seq<
    (Seq<char>, Seq<char>),
>
    decreases upto,
{
    if upto <= 0 {
        Seq::empty()
    } else {
        let pre = phase1_pairs(h, nics, upto - 1);
        let i = h.interfaces[upto - 1];
        if 0 <= upto - 1 < h.interfaces.len() && is_ethernet(i) && has_candidate(nics, i, h) {
            pre.push((i.logical_name, nics[first_candidate(nics, i, h)].name))
        } else {
            pre
        }
    }
}

/// One propagation sweep for a single direct rename `old -> new` over the
/// first `upto` interfaces: every other interface whose name embeds `old`
/// is bound to its own name with `old` substituted by `new`.
pub open spec fn propagate_one(
    m: Map<Seq<char>, Seq<char>>,
    ifaces: Seq<IfaceView>,
    upto: int,
    old_name: Seq<char>,
    new_name: Seq<char>,
) -> Map<Seq<char>, Seq<char>>
    decreases upto,
{
    if upto <= 0 {
        m
    } else {
        let m2 = propagate_one(m, ifaces, upto - 1, old_name, new_name);
        let nm = ifaces[upto - 1].logical_name;
        if 0 <= upto - 1 < ifaces.len() && contains_sub(nm, old_name) && nm != old_name {
            m2.insert(nm, replace_seq(nm, old_name, new_name))
        } else {
            m2
        }
    }
}

/// The propagation sweeps (phase two) of the first `upto` direct renames, in
/// order, each evaluated over all interfaces. The sweeps read only the
/// direct-rename pairs, never entries added by propagation itself, so a
/// substitution is propagated one parent hop and never cascades.
pub open spec fn propagate_all(
    m: Map<Seq<char>, Seq<char>>,
    ifaces: Seq<IfaceView>,
    pairs: Seq<(Seq<char>, Seq<char>)>,
    upto: int,
) -> Map<Seq<char>, Seq<char>>
    decreases upto,
{
    if upto <= 0 {
        m
    } else {
        let m2 = propagate_all(m, ifaces, pairs, upto - 1);
        propagate_one(m2, ifaces, ifaces.len() as int, pairs[upto - 1].0, pairs[upto - 1].1)
    }
}

/// All direct renames of host `h` given the local NICs.
pub open spec fn direct_renames(h: HostView, nics: Seq<NicView>) -> Seq<(Seq<char>, Seq<char>)> {
    phase1_pairs(h, nics, h.interfaces.len() as int)
}

/// The complete rename map for host `h` given the local NICs: the direct
/// renames of phase one, then the propagation of each of them to derived
/// interface names.
pub open spec fn reconcile_spec(h: HostView, nics: Seq<NicView>) -> Map<Seq<char>, Seq<char>> {
    let pairs = direct_renames(h, nics);
    propagate_all(map_of_pairs(pairs), h.interfaces, pairs, pairs.len() as int)
}

/// How a propagation sweep for `old -> new` treats one key: the key is bound
/// to its substituted form when it is an interface name (among the first
/// `upto`) embedding `old`, and is untouched otherwise.
proof fn lemma_propagate_one_at(
    m: Map<Seq<char>, Seq<char>>,
    ifaces: Seq<IfaceView>,
    upto: int,
    old_name: Seq<char>,
    new_name: Seq<char>,
    k: Seq<char>,
)
    requires
        upto <= ifaces.len(),
    ensures
        ((exists|t: int| 0 <= t < upto && #[trigger] ifaces[t].logical_name == k) && contains_sub(
            k,
            old_name,
        ) && k != old_name) ==> propagate_one(m, ifaces, upto, old_name, new_name).contains_key(k)
            && propagate_one(m, ifaces, upto, old_name, new_name)[k] == replace_seq(
            k,
            old_name,
            new_name,
        ),
        !((exists|t: int| 0 <= t < upto && #[trigger] ifaces[t].logical_name == k) && contains_sub(
            k,
            old_name,
        ) && k != old_name) ==> (propagate_one(m, ifaces, upto, old_name, new_name).contains_key(k)
            <==> m.contains_key(k)) && (m.contains_key(k) ==> propagate_one(
            m,
            ifaces,
            upto,
            old_name,
            new_name,
        )[k] == m[k]),
    decreases upto,
{
    if upto > 0 {
        lemma_propagate_one_at(m, ifaces, upto - 1, old_name, new_name, k);
        let nm = ifaces[upto - 1].logical_name;
        if (exists|t: int| 0 <= t < upto && #[trigger] ifaces[t].logical_name == k) && contains_sub(
            k,
            old_name,
        ) && k != old_name {
            if nm != k {
                let t = choose|t: int|
                    0 <= t < upto && #[trigger] ifaces[t].logical_name == k;
                assert(t < upto - 1);
            }
        }
    }
}

/// Which sweep governs a key: the last direct rename whose old name the key
/// embeds wins, and it binds the key to its substituted form.
proof fn lemma_propagate_all_last(
    m: Map<Seq<char>, Seq<char>>,
    ifaces: Seq<IfaceView>,
    pairs: Seq<(Seq<char>, Seq<char>)>,
    upto: int,
    k: Seq<char>,
    pstar: int,
)
    requires
        exists|t: int| 0 <= t < ifaces.len() && #[trigger] ifaces[t].logical_name == k,
        0 <= pstar < upto <= pairs.len(),
        contains_sub(k, pairs[pstar].0),
        k != pairs[pstar].0,
        forall|l: int| #![trigger pairs[l]]
            pstar < l < upto ==> !(contains_sub(k, pairs[l].0) && k != pairs[l].0),
    ensures
        propagate_all(m, ifaces, pairs, upto).contains_key(k),
        propagate_all(m, ifaces, pairs, upto)[k] == replace_seq(k, pairs[pstar].0, pairs[pstar].1),
    decreases upto,
{
    let m2 = propagate_all(m, ifaces, pairs, upto - 1);
    if pstar == upto - 1 {
        lemma_propagate_one_at(
            m2,
            ifaces,
            ifaces.len() as int,
            pairs[upto - 1].0,
            pairs[upto - 1].1,
            k,
        );
    } else {
        lemma_propagate_all_last(m, ifaces, pairs, upto - 1, k, pstar);
        assert(!(contains_sub(k, pairs[upto - 1].0) && k != pairs[upto - 1].0));
        lemma_propagate_one_at(
            m2,
            ifaces,
            ifaces.len() as int,
            pairs[upto - 1].0,
            pairs[upto - 1].1,
            k,
        );
    }
}

/// The propagation law: an interface whose name embeds a directly renamed
/// parent's old name (without being that name) is itself renamed, to its own
/// name with the parent's new name substituted once for the old one. Where
/// several direct renames apply to one name, the last one in interface order
/// governs it.
pub proof fn lemma_reconcile_propagation(h: HostView, nics: Seq<NicView>, t: int, pstar: int)
    requires
        0 <= t < h.interfaces.len(),
        0 <= pstar < direct_renames(h, nics).len(),
        contains_sub(h.interfaces[t].logical_name, direct_renames(h, nics)[pstar].0),
        h.interfaces[t].logical_name != direct_renames(h, nics)[pstar].0,
        forall|l: int| #![trigger direct_renames(h, nics)[l]]
            pstar < l < direct_renames(h, nics).len() ==> !(contains_sub(
                h.interfaces[t].logical_name,
                direct_renames(h, nics)[l].0,
            ) && h.interfaces[t].logical_name != direct_renames(h, nics)[l].0),
    ensures
        reconcile_spec(h, nics).contains_key(h.interfaces[t].logical_name),
        reconcile_spec(h, nics)[h.interfaces[t].logical_name] == replace_seq(
            h.interfaces[t].logical_name,
            direct_renames(h, nics)[pstar].0,
            direct_renames(h, nics)[pstar].1,
        ),
{
    let pairs = direct_renames(h, nics);
    let k = h.interfaces[t].logical_name;
    assert(exists|w: int| 0 <= w < h.interfaces.len() && #[trigger] h.interfaces[w].logical_name
        == k);
    lemma_propagate_all_last(
        map_of_pairs(pairs),
        h.interfaces,
        pairs,
        pairs.len() as int,
        k,
        pstar,
    );
}

proof fn lemma_first_candidate_props(nics: Seq<NicView>, i: IfaceView, h: HostView)
    requires
        has_candidate(nics, i, h),
    ensures
        0 <= first_candidate(nics, i, h) < nics.len(),
        nic_candidate(nics[first_candidate(nics, i, h)], i, h),
    decreases nics.len(),
{
    if nics.len() > 0 && !nic_candidate(nics[0], i, h) {
        let w = choose|w: int| 0 <= w < nics.len() && #[trigger] nic_candidate(nics[w], i, h);
        assert(w != 0);
        assert(nic_candidate(nics.drop_first()[w - 1], i, h));
        lemma_first_candidate_props(nics.drop_first(), i, h);
    }
}

/// Every direct rename maps a logical name of the host to a kernel name that
/// no preconfigured interface uses.
proof fn lemma_phase1_pairs_names(h: HostView, nics: Seq<NicView>, upto: int)
    requires
        upto <= h.interfaces.len(),
    ensures
        forall|t: int| #![trigger phase1_pairs(h, nics, upto)[t]]
            0 <= t < phase1_pairs(h, nics, upto).len() ==> (exists|l: int|
                0 <= l < h.interfaces.len() && phase1_pairs(h, nics, upto)[t].0
                    == h.interfaces[l].logical_name) && !(exists|l: int|
                0 <= l < h.interfaces.len() && h.interfaces[l].logical_name == phase1_pairs(
                    h,
                    nics,
                    upto,
                )[t].1),
    decreases upto,
{
    if upto > 0 {
        lemma_phase1_pairs_names(h, nics, upto - 1);
        let pre = phase1_pairs(h, nics, upto - 1);
        let i = h.interfaces[upto - 1];
        if is_ethernet(i) && has_candidate(nics, i, h) {
            lemma_first_candidate_props(nics, i, h);
            let cur = phase1_pairs(h, nics, upto);
            assert(cur == pre.push((i.logical_name, nics[first_candidate(nics, i, h)].name)));
            assert forall|t: int| 0 <= t < cur.len() implies (exists|l: int|
                0 <= l < h.interfaces.len() && #[trigger] cur[t].0
                    == h.interfaces[l].logical_name) && !(exists|l: int|
                0 <= l < h.interfaces.len() && h.interfaces[l].logical_name == cur[t].1) by {
                if t < pre.len() {
                    assert(cur[t] == pre[t]);
                } else {
                    assert(cur[t].0 == h.interfaces[upto - 1].logical_name);
                    assert(nic_candidate(nics[first_candidate(nics, i, h)], i, h));
                }
            }
        }
    }
}

/// No key of `m` is bound to itself.
spec fn no_identity(m: Map<Seq<char>, Seq<char>>) -> bool {
    forall|k: Seq<char>| m.contains_key(k) ==> m[k] != k
}

proof fn lemma_propagate_one_no_identity(
    m: Map<Seq<char>, Seq<char>>,
    ifaces: Seq<IfaceView>,
    upto: int,
    old_name: Seq<char>,
    new_name: Seq<char>,
)
    requires
        no_identity(m),
        old_name.len() > 0,
        old_name != new_name,
    ensures
        no_identity(propagate_one(m, ifaces, upto, old_name, new_name)),
    decreases upto,
{
    if upto > 0 {
        lemma_propagate_one_no_identity(m, ifaces, upto - 1, old_name, new_name);
        let nm = ifaces[upto - 1].logical_name;
        if 0 <= upto - 1 < ifaces.len() && contains_sub(nm, old_name) && nm != old_name {
            lemma_replace_changes(nm, old_name, new_name);
        }
    }
}

proof fn lemma_propagate_all_no_identity(
    m: Map<Seq<char>, Seq<char>>,
    ifaces: Seq<IfaceView>,
    pairs: Seq<(Seq<char>, Seq<char>)>,
    upto: int,
)
    requires
        no_identity(m),
        upto <= pairs.len(),
        forall|t: int| #![trigger pairs[t]]
            0 <= t < pairs.len() ==> pairs[t].0.len() > 0 && pairs[t].0 != pairs[t].1,
    ensures
        no_identity(propagate_all(m, ifaces, pairs, upto)),
    decreases upto,
{
    if upto > 0 {
        lemma_propagate_all_no_identity(m, ifaces, pairs, upto - 1);
        lemma_propagate_one_no_identity(
            propagate_all(m, ifaces, pairs, upto - 1),
            ifaces,
            ifaces.len() as int,
            pairs[upto - 1].0,
            pairs[upto - 1].1,
        );
    }
}

/// The rename map never renames a name to itself.
///
/// A NIC whose kernel name equals a preconfigured logical name is never
/// recorded as a rename target, so an interface whose NIC already carries its
/// name gets no entry; and a propagated substitution always changes the
/// derived name it rewrites.
pub proof fn lemma_reconcile_no_identity(h: HostView, nics: Seq<NicView>)
    requires
        forall|l: int| 0 <= l < h.interfaces.len() ==> h.interfaces[l].logical_name.len() > 0,
    ensures
        forall|k: Seq<char>| #![trigger reconcile_spec(h, nics)[k]]
            reconcile_spec(h, nics).contains_key(k) ==> reconcile_spec(h, nics)[k] != k,
{
    let pairs = phase1_pairs(h, nics, h.interfaces.len() as int);
    lemma_phase1_pairs_names(h, nics, h.interfaces.len() as int);
    assert forall|t: int| #![trigger pairs[t]]
        0 <= t < pairs.len() implies pairs[t].0.len() > 0 && pairs[t].0 != pairs[t].1 by {
        let l = choose|l: int|
            0 <= l < h.interfaces.len() && pairs[t].0 == h.interfaces[l].logical_name;
        assert(h.interfaces[l].logical_name.len() > 0);
        if pairs[t].0 == pairs[t].1 {
            assert(h.interfaces[l].logical_name == pairs[t].1);
        }
    }
    let m1 = map_of_pairs(pairs);
    assert forall|k: Seq<char>| m1.contains_key(k) implies m1[k] != k by {
        lemma_map_of_pairs_entry(pairs, k);
        let j = choose|j: int| 0 <= j < pairs.len() && pairs[j] == (k, m1[k]);
        assert(pairs[j].0 != pairs[j].1);
    }
    lemma_propagate_all_no_identity(m1, h.interfaces, pairs, pairs.len() as int);
}

/// Whether some preconfigured interface of `host` has `name` as its logical name.
fn name_used_by_host(host: &Host, name: &str) -> (r: bool)
    ensures
        r == exists|l: int|
            0 <= l < host@.interfaces.len() && host@.interfaces[l].logical_name == name@,
{
    let mut l: usize = 0;
    while l < host.interfaces.len()
        invariant
            l <= host.interfaces@.len(),
            forall|x: int| 0 <= x < l ==> host@.interfaces[x].logical_name != name@,
        decreases host.interfaces@.len() - l,
    {
        if str_eq(host.interfaces[l].logical_name.as_str(), name) {
            assert(host@.interfaces[l as int].logical_name == name@);
            return true;
        }
        l = l + 1;
    }
    false
}

/// Finds the first NIC that can stand in for interface `i` of `host`.
fn find_candidate_nic(host: &Host, i: usize, nics: &Vec<Nic>) -> (r: Option<usize>)
    requires
        i < host@.interfaces.len(),
    ensures
        match r {
            Some(j) => j < nics@.len() && has_candidate(
                nic_views(nics@),
                host@.interfaces[i as int],
                host@,
            ) && first_candidate(nic_views(nics@), host@.interfaces[i as int], host@) == j,
            None => !has_candidate(nic_views(nics@), host@.interfaces[i as int], host@),
        },
{
    let ghost hv = host@;
    let ghost nv = nic_views(nics@);
    let ghost iv = hv.interfaces[i as int];
    let mut j: usize = 0;
    while j < nics.len()
        invariant
            hv == host@,
            nv == nic_views(nics@),
            i < hv.interfaces.len(),
            iv == hv.interfaces[i as int],
            j <= nics@.len(),
            forall|l: int| 0 <= l < j ==> !nic_candidate(nv[l], iv, hv),
        decreases nics@.len() - j,
    {
        if mac_eq_exec(&nics[j].mac_addr, &host.interfaces[i].mac_address) && !name_used_by_host(
            host,
            nics[j].name.as_str(),
        ) {
            proof {
                assert(nic_candidate(nv[j as int], iv, hv));
                lemma_first_candidate_at(nv, iv, hv, j as int);
            }
            return Some(j);
        }
        assert(!nic_candidate(nv[j as int], iv, hv));
        j = j + 1;
    }
    proof {
        lemma_first_candidate_at(nv, iv, hv, nv.len() as int);
    }
    None
}

/// Computes the rename map for the identified host from the locally observed
/// NICs.
///
/// Phase one records, for every Ethernet interface whose MAC address matches
/// a local NIC that no preconfigured name already claims, the rename from its
/// logical name to that NIC's kernel name (the first such NIC). Phase two
/// takes those direct renames only and rewrites every other interface name
/// that embeds a renamed parent's old name, substituting the new name once.
pub fn detect_local_interfaces(host: &Host, nics: &Vec<Nic>) -> (r: RenameMap)
    ensures
        r.wf(),
        r@ == reconcile_spec(host@, nic_views(nics@)),
{
    let ghost hv = host@;
    let ghost nv = nic_views(nics@);
    let ghost pv = |q: (String, String)| (q.0@, q.1@);
    let mut map = RenameMap::new();
    let mut pairs: Vec<(String, String)> = Vec::new();
    let n_if = host.interfaces.len();
    let mut i: usize = 0;
    proof {
        assert(pairs@.map_values(pv) =~= phase1_pairs(hv, nv, 0));
    }
    while i < n_if
        invariant
            hv == host@,
            nv == nic_views(nics@),
            pv == (|q: (String, String)| (q.0@, q.1@)),
            n_if == host.interfaces@.len(),
            i <= n_if,
            map.wf(),
            pairs@.map_values(pv) == phase1_pairs(hv, nv, i as int),
            map@ == map_of_pairs(pairs@.map_values(pv)),
        decreases n_if - i,
    {
        let ghost iv = hv.interfaces[i as int];
        if str_eq(host.interfaces[i].interface_type.as_str(), "ethernet") {
            let found = find_candidate_nic(host, i, nics);
            match found {
                Some(f) => {
                    let key = host.interfaces[i].logical_name.clone();
                    let val = nics[f].name.clone();
                    map.insert(key.clone(), val.clone());
                    pairs.push((key, val));
                    proof {
                        assert(pairs@.map_values(pv) =~= phase1_pairs(hv, nv, i as int).push(
                            (iv.logical_name, nv[first_candidate(nv, iv, hv)].name),
                        ));
                        assert(pairs@.map_values(pv) =~= phase1_pairs(hv, nv, i + 1));
                        assert(pairs@.map_values(pv).drop_last() =~= phase1_pairs(
                            hv,
                            nv,
                            i as int,
                        ));
                    }
                },
                None => {
                    proof {
                        assert(phase1_pairs(hv, nv, i + 1) == phase1_pairs(hv, nv, i as int));
                    }
                },
            }
        } else {
            proof {
                assert(!is_ethernet(iv));
                assert(phase1_pairs(hv, nv, i + 1) == phase1_pairs(hv, nv, i as int));
            }
        }
        i = i + 1;
    }
    let ghost pv_seq = pairs@.map_values(pv);
    let ghost m1 = map@;
    proof {
        assert(pv_seq == phase1_pairs(hv, nv, hv.interfaces.len() as int));
        assert(map@ == propagate_all(m1, hv.interfaces, pv_seq, 0));
    }
    let np = pairs.len();
    let mut p: usize = 0;
    while p < np
        invariant
            hv == host@,
            n_if == host.interfaces@.len(),
            np == pairs@.len(),
            p <= np,
            pv == (|q: (String, String)| (q.0@, q.1@)),
            pv_seq == pairs@.map_values(pv),
            map.wf(),
            map@ == propagate_all(m1, hv.interfaces, pv_seq, p as int),
        decreases np - p,
    {
        let ghost base = propagate_all(m1, hv.interfaces, pv_seq, p as int);
        let ghost old_v = pv_seq[p as int].0;
        let ghost new_v = pv_seq[p as int].1;
        let mut t: usize = 0;
        while t < n_if
            invariant
                hv == host@,
                n_if == host.interfaces@.len(),
                np == pairs@.len(),
                p < np,
                t <= n_if,
                pv == (|q: (String, String)| (q.0@, q.1@)),
                pv_seq == pairs@.map_values(pv),
                old_v == pv_seq[p as int].0,
                new_v == pv_seq[p as int].1,
                map.wf(),
                map@ == propagate_one(base, hv.interfaces, t as int, old_v, new_v),
            decreases n_if - t,
        {
            let name = &host.interfaces[t].logical_name;
            if contains(name.as_str(), pairs[p].0.as_str()) && !str_eq(
                name.as_str(),
                pairs[p].0.as_str(),
            ) {
                let replaced = replace_all(name.as_str(), pairs[p].0.as_str(), pairs[p].1.as_str());
                map.insert(name.clone(), replaced);
            }
            t = t + 1;
        }
        proof {
            assert(map@ == propagate_all(m1, hv.interfaces, pv_seq, p + 1));
        }
        p = p + 1;
    }
    proof {
        assert(pv_seq.len() == np);
        assert(map@ == reconcile_spec(hv, nv));
    }
    map
}

} // verus!
