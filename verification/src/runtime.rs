use vstd::prelude::*;

verus! {

/// Markers for the types of networks mempool operates in.
#[derive(Clone, Copy, Debug, PartialEq, Eq, Structural, Hash)]
pub enum MempoolNetworkType {
    /// Validator network
    Validator,
    /// Full node network
    FullNode,
}

} // verus!
