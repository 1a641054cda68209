//! The boundary to the state-translation library (nmstate): type
//! declarations and trusted wrappers for the calls the synthesizer makes.
//! Everything computed from their results is verified elsewhere.

use vstd::prelude::*;
use vstd::multiset::Multiset;
use crate::strutil::contains_sub;
use crate::types::{iface_views, pair_views, Interface, IfaceView};

verus! {

/// The record the synthesizer reads of one interface: its name, MAC address
/// and type text.
pub open spec fn iface_desc(i: IfaceView) -> (Seq<char>, Option<Seq<char>>, Seq<char>) {
    (i.logical_name, i.mac_address, i.interface_type)
}

/// The records of a sequence of interfaces, as a multiset: what a list holds,
/// in no particular order.
pub open spec fn descs_of(ifaces: Seq<IfaceView>) -> Multiset<
    (Seq<char>, Option<Seq<char>>, Seq<char>),
> {
    ifaces.map_values(|i: IfaceView| iface_desc(i)).to_multiset()
}

/// The interface records a desired network state holds: one per interface,
/// with its name, MAC address and type rendered as text. A multiset, because
/// nmstate iterates its interfaces in an unspecified order.
pub uninterp spec fn state_iface_descs(st: nmstate::NetworkState) -> Multiset<
    (Seq<char>, Option<Seq<char>>, Seq<char>),
>;

/// Whether the state-translation library accepts this document. Parsing is a
/// plain deserialization, so acceptance is a function of the text alone.
pub uninterp spec fn yaml_parses(d: Seq<char>) -> bool;

/// The interface records of the state this document parses to (meaningful
/// when it parses at all).
pub uninterp spec fn yaml_descs(d: Seq<char>) -> Multiset<
    (Seq<char>, Option<Seq<char>>, Seq<char>),
>;

/// What profile generation yields for a state: `None` when it fails, else
/// the NetworkManager (file name, content) pairs, in generation order. The
/// order is a function of the state alone: nmstate sorts the connections by
/// activation priority and then by interface name before emitting them, and
/// in configuration-generation mode it derives the embedded UUIDs stably
/// from interface name and type.
pub uninterp spec fn state_gen_profiles(st: nmstate::NetworkState) -> Option<
    Seq<(Seq<char>, Seq<char>)>,
>;

/// What profile generation yields for the state this document parses to.
pub uninterp spec fn yaml_profiles(d: Seq<char>) -> Option<Seq<(Seq<char>, Seq<char>)>>;

/// The error text the state-translation library renders for a document it
/// rejects (meaningful when the document does not parse).
pub uninterp spec fn yaml_error_text(d: Seq<char>) -> Seq<char>;

#[verifier::external_type_specification]
#[verifier::external_body]
pub struct ExNetworkState(nmstate::NetworkState);

#[verifier::external_type_specification]
#[verifier::external_body]
pub struct ExNmstateError(nmstate::NmstateError);

/// Relies on `nmstate::NetworkState::new_from_yaml`: a deterministic parse of
/// one declarative network-state document, succeeding exactly on the
/// documents the library accepts; on success the returned state carries the
/// document's interface records and generates the document's profiles. A
/// rejected document yields the library's error rendered as text — the error
/// kind, then a message that the library always builds around its
/// invalid-YAML marker.
#[verifier::external_body]
pub(crate) fn state_from_yaml(data: &str) -> (r: Result<nmstate::NetworkState, String>)
    ensures
        match r {
            Ok(st) => yaml_parses(data@) && state_iface_descs(st) == yaml_descs(data@)
                && state_gen_profiles(st) == yaml_profiles(data@),
            Err(msg) => !yaml_parses(data@) && msg@ == yaml_error_text(data@) && contains_sub(
                msg@,
                "Invalid YAML string"@,
            ),
        },
{
    nmstate::NetworkState::new_from_yaml(data).map_err(|e| e.to_string())
}

/// Relies on `nmstate::NetworkState::gen_conf`: generates the connection
/// profiles as (file name, content) pairs, keyed by backend. The
/// NetworkManager profiles sit under the documented key `"NetworkManager"`,
/// which a successful run always inserts, so the missing-key arm never
/// occurs; the pairs come out in nmstate's generation order.
#[verifier::external_body]
pub(crate) fn gen_nm_conf(state: &nmstate::NetworkState) -> (r: Result<
    Option<Vec<(String, String)>>,
    nmstate::NmstateError,
>)
    ensures
        match r {
            Ok(Some(c)) => state_gen_profiles(*state) == Some(pair_views(c@)),
            Ok(None) => false,
            Err(_) => state_gen_profiles(*state) is None,
        },
{
    match state.gen_conf() {
        Ok(map) => Ok(map.get("NetworkManager").cloned()),
        Err(e) => Err(e),
    }
}

/// Relies on `Display` for `nmstate::NmstateError`: the error rendered as
/// text, the error kind followed by the message.
#[verifier::external_body]
pub(crate) fn nm_error_message(e: &nmstate::NmstateError) -> (r: String) {
    e.to_string()
}

/// Relies on nmstate's interface accessors (`name`, `base_iface`,
/// `iface_type` and `Display` for `InterfaceType`): one record per interface
/// of the state, holding its name, MAC address and type rendered as text
/// (`"ethernet"` for Ethernet, `"loopback"` for Loopback), with no
/// connection ids attributed yet. The order is nmstate's iteration order,
/// which is not specified; the records themselves are exactly what the state
/// holds.
#[verifier::external_body]
pub(crate) fn state_interfaces(state: &nmstate::NetworkState) -> (r: Vec<Interface>)
    ensures
        descs_of(iface_views(r@)) == state_iface_descs(*state),
        forall|i: int| 0 <= i < r@.len() ==> r@[i]@.connection_ids.len() == 0,
{
    state
        .interfaces
        .iter()
        .map(
            |i| Interface {
                logical_name: i.name().to_owned(),
                connection_ids: Vec::new(),
                mac_address: i.base_iface().mac_address.clone(),
                interface_type: i.iface_type().to_string(),
            },
        )
        .collect()
}

} // verus!
