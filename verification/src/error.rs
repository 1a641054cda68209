//! The library's error type. Validation errors aggregate every offending
//! item in one message, so an operator can fix a batch in one pass.

use vstd::prelude::*;
use vstd::string::StringExecFns;
use crate::strutil::{join_comma, join_names};
use crate::types::str_views;

verus! {

/// Everything that can go wrong while synthesizing, attributing or applying
/// network configuration.
#[derive(Debug, PartialEq)]
pub enum NmcError {
    /// The desired state holds no Ethernet interface at all.
    NoEthernetInterfaces,
    /// In strict mode, these Ethernet interfaces carry no MAC address.
    MissingMacAddresses(Vec<String>),
    /// These interfaces ended up with no attributed connection profile.
    MissingConnectionIds(Vec<String>),
    /// This profile file names neither an interface nor a MAC address.
    NoProfileIdentifier(String),
    /// This profile file carries no connection id.
    NoConnectionId(String),
    /// This profile file matches none of the interfaces.
    NoMatchingInterface(String),
    /// This profile file matches more than one interface; ambiguous
    /// attribution is a configuration error the library does not resolve.
    MultipleMatchingInterfaces(String),
    /// The state-translation library returned no NetworkManager section.
    InvalidNmConfiguration,
    /// The state-translation library rejected the desired state.
    StateError(String),
}

/// The human-readable message of an error.
pub open spec fn message_spec(e: NmcError) -> Seq<char> {
    match e {
        NmcError::NoEthernetInterfaces => "No Ethernet interfaces were provided"@,
        NmcError::MissingMacAddresses(names) => "Detected Ethernet interfaces without a MAC address: "@
            + join_comma(str_views(names@)),
        NmcError::MissingConnectionIds(names) => "Detected interfaces without connection files: "@
            + join_comma(str_views(names@)),
        NmcError::NoProfileIdentifier(file) => "No identifier found in connection file: "@ + file@
            + " (expected interface-name or mac-address)"@,
        NmcError::NoConnectionId(file) => "No connection id found in connection file: "@ + file@,
        NmcError::NoMatchingInterface(file) => "No matching interface found for connection file: "@
            + file@,
        NmcError::MultipleMatchingInterfaces(file) => "Multiple matching interfaces found for connection file: "@
            + file@,
        NmcError::InvalidNmConfiguration => "Invalid NM configuration"@,
        NmcError::StateError(msg) => msg@,
    }
}

impl NmcError {
    /// Renders the error as text.
    pub fn message(&self) -> (r: String)
        ensures
            r@ == message_spec(*self),
    {
        match self {
            NmcError::NoEthernetInterfaces => "No Ethernet interfaces were provided".to_owned(),
            NmcError::MissingMacAddresses(names) => {
                let mut out = "Detected Ethernet interfaces without a MAC address: ".to_owned();
                let joined = join_names(names);
                out.append(joined.as_str());
                out
            },
            NmcError::MissingConnectionIds(names) => {
                let mut out = "Detected interfaces without connection files: ".to_owned();
                let joined = join_names(names);
                out.append(joined.as_str());
                out
            },
            NmcError::NoProfileIdentifier(file) => {
                let mut out = "No identifier found in connection file: ".to_owned();
                out.append(file.as_str());
                out.append(" (expected interface-name or mac-address)");
                out
            },
            NmcError::NoConnectionId(file) => {
                let mut out = "No connection id found in connection file: ".to_owned();
                out.append(file.as_str());
                out
            },
            NmcError::NoMatchingInterface(file) => {
                let mut out = "No matching interface found for connection file: ".to_owned();
                out.append(file.as_str());
                out
            },
            NmcError::MultipleMatchingInterfaces(file) => {
                let mut out = "Multiple matching interfaces found for connection file: ".to_owned();
                out.append(file.as_str());
                out
            },
            NmcError::InvalidNmConfiguration => "Invalid NM configuration".to_owned(),
            NmcError::StateError(msg) => msg.clone(),
        }
    }
}

} // verus!
