use lakeside::wallet::{
    load_or_generate_seed, payment_method, quote_settled, LakesideWallet, LakesideWalletType,
    MintQuoteStatus, PaymentMethod, SeedOutcome,
};
use std::path::PathBuf;

fn persistent() -> LakesideWalletType {
    LakesideWalletType::Persistent {
        seed_path: PathBuf::from("/tmp/w/seed"),
        db_path: PathBuf::from("/tmp/w/wallet.sqlite"),
    }
}

#[test]
fn wallet_keeps_mint_and_type() {
    let w = LakesideWallet::new("https://m7.mountainlake.io".to_string(), persistent());
    let (mint, kind) = w.into_parts();
    assert_eq!(mint, "https://m7.mountainlake.io");
    assert!(matches!(kind, LakesideWalletType::Persistent { .. }));
}

#[test]
fn seeds() {
    let bytes: Vec<u8> = (0..64).collect();
    match load_or_generate_seed(&persistent(), Some(bytes.clone())) {
        SeedOutcome::Loaded(seed) => assert_eq!(seed.to_vec(), bytes),
        other => panic!("unexpected {:?}", other),
    }
    assert!(matches!(
        load_or_generate_seed(&persistent(), Some(vec![1, 2, 3])),
        SeedOutcome::WrongLength
    ));
    assert!(matches!(
        load_or_generate_seed(&persistent(), None),
        SeedOutcome::Fresh { store: true, .. }
    ));
    let a = load_or_generate_seed(&LakesideWalletType::Transient, None);
    let b = load_or_generate_seed(&LakesideWalletType::Transient, None);
    match (a, b) {
        (SeedOutcome::Fresh { seed: s1, store: false }, SeedOutcome::Fresh { seed: s2, store: false }) => {
            assert_ne!(s1, s2)
        }
        other => panic!("unexpected {:?}", other),
    }
}

#[test]
fn payment_and_quote_decisions() {
    assert_eq!(payment_method(true), PaymentMethod::Bolt12);
    assert_eq!(payment_method(false), PaymentMethod::Bolt11);
    assert!(quote_settled(MintQuoteStatus::Paid));
    assert!(quote_settled(MintQuoteStatus::Issued));
    assert!(!quote_settled(MintQuoteStatus::Unpaid));
}
