//! Mapping from a network selector to the tag values that scope a relay query.
//!
//! Announcements on the production network historically carry the tag value
//! `"bitcoin"` even though the written protocol asks for `"mainnet"`, so the
//! production selector accepts both values.

use vstd::prelude::*;

verus! {

/// The network a caller wants to discover mints for.
///
/// The set of supported networks is closed; anything else a caller might hold
/// is represented by [`NetworkSelector::Unsupported`], which discovery rejects
/// with a typed error instead of aborting.
#[derive(Clone, Copy, Debug, PartialEq, Eq, Structural)]
pub enum NetworkSelector {
    Bitcoin,
    Testnet,
    Testnet4,
    Signet,
    Regtest,
    Unsupported,
}

/// Errors a discovery pass can surface to its caller.
#[derive(Clone, Copy, Debug, PartialEq, Eq, Structural)]
pub enum DiscoveryError {
    /// The caller asked for a network outside the supported set.
    UnsupportedNetwork,
    /// The relay provider failed to connect or fetch.
    Connectivity,
}

/// Whether a selector belongs to the supported, closed set of networks.
pub open spec fn network_supported(network: NetworkSelector) -> bool {
    network != NetworkSelector::Unsupported
}

/// The tag values that scope a query for the given supported network.
pub open spec fn spec_network_tag_values(network: NetworkSelector) -> Seq<Seq<char>> {
    match network {
        NetworkSelector::Bitcoin => seq!["mainnet"@, "bitcoin"@],
        NetworkSelector::Testnet => seq!["testnet"@],
        NetworkSelector::Testnet4 => seq!["testnet"@],
        NetworkSelector::Signet => seq!["signet"@],
        NetworkSelector::Regtest => seq!["regtest"@],
        NetworkSelector::Unsupported => seq![],
    }
}

/// The acceptable scoping tag values for `network`, or a typed error for an
/// unsupported selector.
pub fn network_tag_values(network: NetworkSelector) -> (r: Result<Vec<String>, DiscoveryError>)
    ensures
        network_supported(network) ==> (r matches Ok(v)
            && v@.map_values(|s: String| s@) == spec_network_tag_values(network)
            && v@.len() > 0),
        !network_supported(network) ==> r == Err::<Vec<String>, DiscoveryError>(
            DiscoveryError::UnsupportedNetwork,
        ),
{
    let mut values: Vec<String> = Vec::new();
    match network {
        NetworkSelector::Bitcoin => {
            values.push(String::from_str("mainnet"));
            values.push(String::from_str("bitcoin"));
        },
        NetworkSelector::Testnet => {
            values.push(String::from_str("testnet"));
        },
        NetworkSelector::Testnet4 => {
            values.push(String::from_str("testnet"));
        },
        NetworkSelector::Signet => {
            values.push(String::from_str("signet"));
        },
        NetworkSelector::Regtest => {
            values.push(String::from_str("regtest"));
        },
        NetworkSelector::Unsupported => {
            return Err(DiscoveryError::UnsupportedNetwork);
        },
    }
    proof {
        assert(values@.map_values(|s: String| s@) =~= spec_network_tag_values(network));
    }
    Ok(values)
}

} // verus!
