use crate::runtime::MempoolNetworkType;
use vstd::prelude::*;

verus! {

/// A 32-byte account address, held as its upper and lower sixteen bytes in
/// big-endian order.
#[derive(Clone, Copy, Debug, PartialEq, Eq, Structural, Hash)]
pub struct AccountAddress {
    pub hi: u128,
    pub lo: u128,
}

/// The identity of a peer on a network.
pub type PeerId = AccountAddress;

/// A peer together with the network on which it is reached.
#[derive(Clone, Copy, Debug, PartialEq, Eq, Structural, Hash)]
pub struct PeerNetworkId(pub MempoolNetworkType, pub PeerId);

/// What the mempool reads of a signed transaction: who sent it, its place in
/// the sender's sequence and the gas it may spend. Sender and sequence number
/// together identify the transaction.
#[derive(Clone, Copy, Debug, PartialEq, Eq, Structural, Hash)]
pub struct SignedTransaction {
    pub sender: AccountAddress,
    pub sequence_number: u64,
    pub max_gas_amount: u64,
}

impl AccountAddress {
    /// The address all of whose 32 bytes equal `byte`.
    pub open spec fn spec_repeated(byte: u8) -> AccountAddress {
        AccountAddress {
            hi: (byte as u128 * 0x0101_0101_0101_0101_0101_0101_0101_0101u128) as u128,
            lo: (byte as u128 * 0x0101_0101_0101_0101_0101_0101_0101_0101u128) as u128,
        }
    }

    /// Builds the address all of whose 32 bytes equal `byte`.
    pub fn repeated(byte: u8) -> (address: AccountAddress)
        ensures
            address == Self::spec_repeated(byte),
    {
        let half: u128 = (byte as u128) * 0x0101_0101_0101_0101_0101_0101_0101_0101u128;
        AccountAddress { hi: half, lo: half }
    }
}

impl PeerNetworkId {
    /// The network on which the peer is reached.
    pub fn network(&self) -> (network: MempoolNetworkType)
        ensures
            network == self.0,
    {
        self.0
    }

    /// The peer's identity.
    pub fn peer_id(&self) -> (peer_id: PeerId)
        ensures
            peer_id == self.1,
    {
        self.1
    }
}

impl SignedTransaction {
    /// The account that sent the transaction.
    pub fn sender(&self) -> (sender: AccountAddress)
        ensures
            sender == self.sender,
    {
        self.sender
    }

    /// The transaction's place in its sender's sequence.
    pub fn sequence_number(&self) -> (sequence_number: u64)
        ensures
            sequence_number == self.sequence_number,
    {
        self.sequence_number
    }

    /// The most gas the transaction may spend.
    pub fn max_gas_amount(&self) -> (gas: u64)
        ensures
            gas == self.max_gas_amount,
    {
        self.max_gas_amount
    }
}

} // verus!
