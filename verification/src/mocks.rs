//! Stand-ins for the collaborators of the shared mempool.

pub mod coupled_ac_smp;
