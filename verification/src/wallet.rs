//! The wallet a run mints into: throw-away, or kept on disk between runs.

use std::path::PathBuf;
use vstd::prelude::*;

verus! {

/// Where the wallet's seed and proofs live.
#[derive(Debug)]
pub enum LakesideWalletType {
    /// Seed and proofs live in memory for this run only.
    Transient,
    /// Seed and proofs are kept in these files.
    Persistent { seed_path: PathBuf, db_path: PathBuf },
}

/// A wallet at a mint.
#[derive(Debug)]
pub struct LakesideWallet {
    mint: String,
    wallet_type: LakesideWalletType,
}

impl LakesideWallet {
    /// A wallet of the given type at `mint`.
    pub fn new(mint: String, wallet_type: LakesideWalletType) -> (res: Self)
        ensures
            res.mint_url()@ == mint@,
            res.kind() == wallet_type,
    {
        Self { mint, wallet_type }
    }

    /// The mint's URL.
    pub closed spec fn mint_url(&self) -> String {
        self.mint
    }

    /// The wallet's type.
    pub closed spec fn kind(&self) -> LakesideWalletType {
        self.wallet_type
    }

    /// The mint's URL and the wallet's type.
    pub fn into_parts(self) -> (res: (String, LakesideWalletType))
        ensures
            res.0 == self.mint_url(),
            res.1 == self.kind(),
    {
        (self.mint, self.wallet_type)
    }
}

/// How the mint is paid for a quote.
#[derive(Clone, Copy, Debug, PartialEq, Eq, Structural)]
pub enum PaymentMethod {
    Bolt11,
    Bolt12,
}

/// Bolt12 invoices when asked for, Bolt11 otherwise.
pub fn payment_method(bolt12: bool) -> (res: PaymentMethod)
    ensures
        res == if bolt12 {
            PaymentMethod::Bolt12
        } else {
            PaymentMethod::Bolt11
        },
{
    if bolt12 {
        PaymentMethod::Bolt12
    } else {
        PaymentMethod::Bolt11
    }
}

/// The state of a mint quote, as the mint reports it.
#[derive(Clone, Copy, Debug, PartialEq, Eq, Structural)]
pub enum MintQuoteStatus {
    Unpaid,
    Paid,
    Issued,
}

/// Whether funding can stop waiting: the invoice is paid (or already minted).
pub fn quote_settled(state: MintQuoteStatus) -> (res: bool)
    ensures
        res == (state == MintQuoteStatus::Paid || state == MintQuoteStatus::Issued),
{
    match state {
        MintQuoteStatus::Paid | MintQuoteStatus::Issued => true,
        MintQuoteStatus::Unpaid => false,
    }
}

/// The length of a wallet seed, in bytes.
pub const SEED_LEN: usize = 64;

/// What became of a wallet's seed.
#[derive(Debug)]
pub enum SeedOutcome {
    /// The seed file held this seed.
    Loaded([u8; 64]),
    /// The seed file exists but does not hold exactly a seed's worth of bytes.
    WrongLength,
    /// A new random seed; `store` says whether it is to be written to the seed file.
    Fresh { seed: [u8; 64], store: bool },
}

/// The seed of a wallet: a transient wallet always gets a fresh seed; a
/// persistent one uses its seed file (`read` is its contents, `None` when it
/// could not be read), refuses a file of the wrong length, and gets a fresh seed
/// to be stored when there is no readable file.
pub fn load_or_generate_seed(wallet_type: &LakesideWalletType, read: Option<Vec<u8>>) -> (res: SeedOutcome)
    ensures
        match wallet_type {
            LakesideWalletType::Transient => res matches SeedOutcome::Fresh { store, .. } && !store,
            LakesideWalletType::Persistent { .. } => match read {
                None => res matches SeedOutcome::Fresh { store, .. } && store,
                Some(bytes) => if bytes@.len() == SEED_LEN {
                    res matches SeedOutcome::Loaded(seed) && seed@ == bytes@
                } else {
                    res is WrongLength
                },
            },
        },
{
    match wallet_type {
        LakesideWalletType::Transient => SeedOutcome::Fresh { seed: random_seed(), store: false },
        LakesideWalletType::Persistent { .. } => match read {
            None => SeedOutcome::Fresh { seed: random_seed(), store: true },
            Some(bytes) => {
                if bytes.len() != SEED_LEN {
                    return SeedOutcome::WrongLength;
                }
                let mut seed = [0u8; 64];
                let mut i: usize = 0;
                while i < SEED_LEN
                    invariant
                        bytes@.len() == SEED_LEN,
                        i <= SEED_LEN,
                        seed@.len() == SEED_LEN,
                        forall|k: int| 0 <= k < i ==> seed@[k] == bytes@[k],
                    decreases SEED_LEN - i,
                {
                    seed[i] = bytes[i];
                    i = i + 1;
                }
                assert(seed@ =~= bytes@);
                SeedOutcome::Loaded(seed)
            },
        },
    }
}

/// A fresh random seed from `rand::random` (the thread-local generator).
/// Nothing is claimed of its bytes.
#[verifier::external_body]
fn random_seed() -> (res: [u8; 64]) {
    rand::random::<[u8; 64]>()
}

} // verus!
