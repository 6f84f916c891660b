//! Token envelope formats.

use vstd::prelude::*;

verus! {

/// The envelope a Cashu token is exported in.
#[derive(Copy, Clone, Debug, PartialEq, Eq, Structural)]
pub enum TokenFormat {
    /// The legacy `cashuA` (Token V3) envelope.
    CashuA,
    /// The `cashuB` (Token V4) envelope.
    CashuB,
}

/// The label stored with every issued bundle: tokens are exported as cashu-b.
pub const TOKEN_FORMAT_LABEL: &'static str = "cashu-b";

} // verus!
