//! The data model: preconfigured hosts with their interfaces, locally
//! observed NICs, and the rename map an apply run computes from them.

use vstd::prelude::*;
use vstd::pervasive::VecAdditionalExecFns;
use crate::strutil::str_eq;

verus! {

/// One preconfigured network interface of a host: the logical name given at
/// configuration time, the connection identifiers attributed to it, its MAC
/// address (absent for purely logical overlays such as VLANs), and its type
/// (`"ethernet"`, `"vlan"`, `"bond"`, ...).
#[derive(Debug, PartialEq)]
pub struct Interface {
    pub logical_name: String,
    pub connection_ids: Vec<String>,
    pub mac_address: Option<String>,
    pub interface_type: String,
}

/// One preconfigured machine profile: a hostname and its ordered interfaces.
#[derive(Debug, PartialEq)]
pub struct Host {
    pub hostname: String,
    pub interfaces: Vec<Interface>,
}

/// One locally observed NIC: the kernel-assigned name and, for physical
/// ports, a MAC address.
#[derive(Debug, PartialEq)]
pub struct Nic {
    pub name: String,
    pub mac_addr: Option<String>,
}

/// The views of a sequence of strings.
pub open spec fn str_views(v: Seq<String>) -> Seq<Seq<char>> {
    v.map_values(|s: String| s@)
}

/// The view of an optional string.
pub open spec fn opt_view(v: Option<String>) -> Option<Seq<char>> {
    match v {
        Some(s) => Some(s@),
        None => None,
    }
}

/// The mathematical value of an [`Interface`].
#[verifier::ext_equal]
pub ghost struct IfaceView {
    pub logical_name: Seq<char>,
    pub connection_ids: Seq<Seq<char>>,
    pub mac_address: Option<Seq<char>>,
    pub interface_type: Seq<char>,
}

impl View for Interface {
    type V = IfaceView;

    open spec fn view(&self) -> IfaceView {
        IfaceView {
            logical_name: self.logical_name@,
            connection_ids: str_views(self.connection_ids@),
            mac_address: opt_view(self.mac_address),
            interface_type: self.interface_type@,
        }
    }
}

/// The mathematical value of a [`Host`].
#[verifier::ext_equal]
pub ghost struct HostView {
    pub hostname: Seq<char>,
    pub interfaces: Seq<IfaceView>,
}

impl View for Host {
    type V = HostView;

    open spec fn view(&self) -> HostView {
        HostView {
            hostname: self.hostname@,
            interfaces: self.interfaces@.map_values(|i: Interface| i@),
        }
    }
}

/// The mathematical value of a [`Nic`].
#[verifier::ext_equal]
pub ghost struct NicView {
    pub name: Seq<char>,
    pub mac_addr: Option<Seq<char>>,
}

impl View for Nic {
    type V = NicView;

    open spec fn view(&self) -> NicView {
        NicView { name: self.name@, mac_addr: opt_view(self.mac_addr) }
    }
}

/// The views of a sequence of NICs.
pub open spec fn nic_views(v: Seq<Nic>) -> Seq<NicView> {
    v.map_values(|n: Nic| n@)
}

/// The views of a sequence of interfaces.
pub open spec fn iface_views(v: Seq<Interface>) -> Seq<IfaceView> {
    v.map_values(|i: Interface| i@)
}

/// The views of a sequence of string pairs (file names with their content).
pub open spec fn pair_views(v: Seq<(String, String)>) -> Seq<(Seq<char>, Seq<char>)> {
    v.map_values(|p: (String, String)| (p.0@, p.1@))
}

/// An element-wise copy of a vector of strings, equal to the original.
pub fn clone_string_vec(v: &Vec<String>) -> (r: Vec<String>)
    ensures
        r@ == v@,
{
    let mut r: Vec<String> = Vec::new();
    let mut i: usize = 0;
    while i < v.len()
        invariant
            i <= v@.len(),
            r@ == v@.take(i as int),
        decreases v@.len() - i,
    {
        r.push(v[i].clone());
        assert(r@ =~= v@.take(i + 1 as int));
        i = i + 1;
    }
    assert(v@.take(v@.len() as int) =~= v@);
    r
}

impl Clone for Interface {
    fn clone(&self) -> (r: Self)
        ensures
            r@ == self@,
    {
        let mac = match &self.mac_address {
            Some(m) => Some(m.clone()),
            None => None,
        };
        let r = Interface {
            logical_name: self.logical_name.clone(),
            connection_ids: clone_string_vec(&self.connection_ids),
            mac_address: mac,
            interface_type: self.interface_type.clone(),
        };
        proof {
            assert(r@ =~= self@);
        }
        r
    }
}

impl Clone for Host {
    fn clone(&self) -> (r: Self)
        ensures
            r@ == self@,
    {
        let mut ifs: Vec<Interface> = Vec::new();
        let mut i: usize = 0;
        while i < self.interfaces.len()
            invariant
                i <= self.interfaces@.len(),
                ifs@.len() == i,
                forall|j: int| 0 <= j < i ==> ifs@[j]@ == self.interfaces@[j]@,
            decreases self.interfaces@.len() - i,
        {
            ifs.push(self.interfaces[i].clone());
            i = i + 1;
        }
        let r = Host { hostname: self.hostname.clone(), interfaces: ifs };
        proof {
            assert forall|j: int| 0 <= j < ifs@.len() implies iface_views(ifs@)[j] == iface_views(
                self.interfaces@,
            )[j] by {
                assert(ifs@[j]@ == self.interfaces@[j]@);
            }
            assert(iface_views(ifs@) =~= iface_views(self.interfaces@));
            assert(r@ =~= self@);
        }
        r
    }
}

impl Clone for Nic {
    fn clone(&self) -> (r: Self)
        ensures
            r@ == self@,
    {
        let mac = match &self.mac_addr {
            Some(m) => Some(m.clone()),
            None => None,
        };
        let r = Nic { name: self.name.clone(), mac_addr: mac };
        proof {
            assert(r@ =~= self@);
        }
        r
    }
}

/// The map built from a sequence of pairs, later pairs overriding earlier ones.
pub open spec fn map_of_pairs(es: Seq<(Seq<char>, Seq<char>)>) -> Map<Seq<char>, Seq<char>>
    decreases es.len(),
{
    if es.len() == 0 {
        Map::empty()
    } else {
        map_of_pairs(es.drop_last()).insert(es.last().0, es.last().1)
    }
}

/// No two pairs bind the same key.
pub open spec fn unique_keys(es: Seq<(Seq<char>, Seq<char>)>) -> bool {
    forall|i: int, j: int| 0 <= i < j < es.len() ==> es[i].0 != es[j].0
}

pub proof fn lemma_map_of_pairs_contains(es: Seq<(Seq<char>, Seq<char>)>, k: Seq<char>)
    ensures
        map_of_pairs(es).contains_key(k) <==> exists|j: int| 0 <= j < es.len() && es[j].0 == k,
    decreases es.len(),
{
    if es.len() > 0 {
        lemma_map_of_pairs_contains(es.drop_last(), k);
        if map_of_pairs(es).contains_key(k) {
            if es.last().0 != k {
                let j = choose|j: int| 0 <= j < es.len() - 1 && es.drop_last()[j].0 == k;
                assert(es[j].0 == k);
            }
        }
        if exists|j: int| 0 <= j < es.len() && es[j].0 == k {
            let j = choose|j: int| 0 <= j < es.len() && es[j].0 == k;
            if j < es.len() - 1 {
                assert(es.drop_last()[j].0 == k);
            }
        }
    }
}

/// The value bound to `k` is the one of the last pair whose key is `k`.
pub proof fn lemma_map_of_pairs_value(es: Seq<(Seq<char>, Seq<char>)>, k: Seq<char>, j: int)
    requires
        0 <= j < es.len(),
        es[j].0 == k,
        forall|l: int| j < l < es.len() ==> es[l].0 != k,
    ensures
        map_of_pairs(es).contains_key(k),
        map_of_pairs(es)[k] == es[j].1,
    decreases es.len(),
{
    lemma_map_of_pairs_contains(es, k);
    if j == es.len() - 1 {
    } else {
        assert(es.last().0 != k);
        assert(es.drop_last()[j].0 == k);
        assert(forall|l: int| j < l < es.len() - 1 ==> es.drop_last()[l].0 != k);
        lemma_map_of_pairs_value(es.drop_last(), k, j);
    }
}

/// Every binding of the map is one of the pairs.
pub proof fn lemma_map_of_pairs_entry(es: Seq<(Seq<char>, Seq<char>)>, k: Seq<char>)
    requires
        map_of_pairs(es).contains_key(k),
    ensures
        exists|j: int| 0 <= j < es.len() && es[j] == (k, map_of_pairs(es)[k]),
    decreases es.len(),
{
    if es.len() > 0 {
        if es.last().0 == k {
            assert(es[es.len() - 1] == (k, map_of_pairs(es)[k]));
        } else {
            lemma_map_of_pairs_entry(es.drop_last(), k);
            let j = choose|j: int|
                0 <= j < es.len() - 1 && es.drop_last()[j] == (k, map_of_pairs(es.drop_last())[k]);
            assert(es[j] == (k, map_of_pairs(es)[k]));
        }
    }
}

/// Overwriting the pair that binds `k` updates the map at `k`, when keys are unique.
proof fn lemma_map_of_pairs_update(
    es: Seq<(Seq<char>, Seq<char>)>,
    idx: int,
    k: Seq<char>,
    v: Seq<char>,
)
    requires
        unique_keys(es),
        0 <= idx < es.len(),
        es[idx].0 == k,
    ensures
        map_of_pairs(es.update(idx, (k, v))) == map_of_pairs(es).insert(k, v),
    decreases es.len(),
{
    let up = es.update(idx, (k, v));
    if idx == es.len() - 1 {
        assert(up.drop_last() =~= es.drop_last());
        assert(up.last() == (k, v));
        assert(map_of_pairs(es.drop_last()).insert(es.last().0, es.last().1).insert(k, v)
            =~= map_of_pairs(es.drop_last()).insert(k, v));
    } else {
        assert(up.drop_last() =~= es.drop_last().update(idx, (k, v)));
        assert(up.last() == es.last());
        assert(unique_keys(es.drop_last()));
        assert(es.drop_last()[idx].0 == k);
        lemma_map_of_pairs_update(es.drop_last(), idx, k, v);
        assert(es.last().0 != k);
        assert(map_of_pairs(es.drop_last()).insert(k, v).insert(es.last().0, es.last().1)
            =~= map_of_pairs(es.drop_last()).insert(es.last().0, es.last().1).insert(k, v));
    }
}

/// The mapping from preconfigured logical interface names to locally observed
/// NIC names, computed once per apply run. Later insertions override earlier
/// ones; an absent key means the interface keeps its preconfigured name.
pub struct RenameMap {
    entries: Vec<(String, String)>,
}

impl View for RenameMap {
    type V = Map<Seq<char>, Seq<char>>;

    closed spec fn view(&self) -> Map<Seq<char>, Seq<char>> {
        map_of_pairs(self.entries@.map_values(|p: (String, String)| (p.0@, p.1@)))
    }
}

impl RenameMap {
    /// The internal pair list binds every key at most once.
    pub closed spec fn wf(&self) -> bool {
        unique_keys(self.entries@.map_values(|p: (String, String)| (p.0@, p.1@)))
    }

    pub fn new() -> (r: Self)
        ensures
            r@ == Map::<Seq<char>, Seq<char>>::empty(),
            r.wf(),
    {
        let r = RenameMap { entries: Vec::new() };
        proof {
            assert(r.entries@.map_values(|p: (String, String)| (p.0@, p.1@)) =~= Seq::<(
                Seq<char>,
                Seq<char>,
            )>::empty());
        }
        r
    }

    /// Binds `key` to `value`, overriding any earlier binding of `key`.
    pub fn insert(&mut self, key: String, value: String)
        requires
            old(self).wf(),
        ensures
            final(self).wf(),
            final(self)@ == old(self)@.insert(key@, value@),
    {
        let ghost es = self.entries@.map_values(|p: (String, String)| (p.0@, p.1@));
        let n = self.entries.len();
        let mut i: usize = 0;
        while i < n
            invariant
                n == self.entries@.len(),
                i <= n,
                unique_keys(es),
                self@ == old(self)@,
                es == self.entries@.map_values(|p: (String, String)| (p.0@, p.1@)),
                forall|j: int| 0 <= j < i ==> es[j].0 != key@,
            decreases n - i,
        {
            if str_eq(self.entries[i].0.as_str(), key.as_str()) {
                proof {
                    lemma_map_of_pairs_update(es, i as int, key@, value@);
                }
                self.entries.set(i, (key, value));
                proof {
                    let up = self.entries@.map_values(|p: (String, String)| (p.0@, p.1@));
                    assert(up =~= es.update(i as int, (key@, value@)));
                    assert(forall|j: int| 0 <= j < up.len() ==> up[j].0 == es[j].0);
                    assert(unique_keys(up));
                }
                return ;
            }
            i = i + 1;
        }
        self.entries.push((key, value));
        proof {
            let up = self.entries@.map_values(|p: (String, String)| (p.0@, p.1@));
            assert(up.drop_last() =~= es);
            assert(up.last() == (key@, value@));
            assert(forall|j: int| 0 <= j < es.len() ==> up[j] == es[j]);
            assert(unique_keys(up));
        }
    }

    /// The locally observed name for `key`, if a rename was recorded.
    pub fn get(&self, key: &str) -> (r: Option<&String>)
        ensures
            match r {
                Some(v) => self@.contains_key(key@) && self@[key@] == v@,
                None => !self@.contains_key(key@),
            },
    {
        let ghost es = self.entries@.map_values(|p: (String, String)| (p.0@, p.1@));
        let n = self.entries.len();
        let mut i: usize = n;
        while i > 0
            invariant
                n == self.entries@.len(),
                i <= n,
                es == self.entries@.map_values(|p: (String, String)| (p.0@, p.1@)),
                forall|j: int| i <= j < n ==> es[j].0 != key@,
            decreases i,
        {
            i = i - 1;
            if str_eq(self.entries[i].0.as_str(), key) {
                proof {
                    lemma_map_of_pairs_value(es, key@, i as int);
                }
                return Some(&self.entries[i].1);
            }
        }
        proof {
            lemma_map_of_pairs_contains(es, key@);
        }
        None
    }

    /// How many names are renamed.
    pub fn len(&self) -> (n: usize)
        requires
            self.wf(),
        ensures
            n == self@.dom().len(),
    {
        proof {
            lemma_map_of_pairs_card(
                self.entries@.map_values(|p: (String, String)| (p.0@, p.1@)),
            );
        }
        self.entries.len()
    }
}

/// With unique keys, the map has exactly one entry per pair.
proof fn lemma_map_of_pairs_card(es: Seq<(Seq<char>, Seq<char>)>)
    requires
        unique_keys(es),
    ensures
        map_of_pairs(es).dom().finite(),
        map_of_pairs(es).dom().len() == es.len(),
    decreases es.len(),
{
    if es.len() > 0 {
        assert(unique_keys(es.drop_last()));
        lemma_map_of_pairs_card(es.drop_last());
        lemma_map_of_pairs_contains(es.drop_last(), es.last().0);
        assert(!map_of_pairs(es.drop_last()).contains_key(es.last().0));
        assert(map_of_pairs(es).dom() =~= map_of_pairs(es.drop_last()).dom().insert(es.last().0));
    }
}

} // verus!
