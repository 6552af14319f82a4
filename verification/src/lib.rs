pub mod algorithm;
pub mod bytes;
pub mod delivery;
pub mod lkh;
pub mod lkhcrypto;
pub mod member;
pub mod node;
pub mod sync;
pub mod packet;
pub mod text;
pub mod tree;
pub mod user;

use vstd::prelude::*;

verus! {

/// Failures of the key server.
#[derive(Debug, Clone, Copy, PartialEq, Eq, Structural)]
pub enum Error {
    RekeyingError,
    EncryptError,
    MissingNode,
}

} // verus!
