use lakeside::faucet::{
    begin_claim, claim_total_fits, complete_claim, completion_total_fits, minted_total_fits, ClaimError, ClaimResponse,
    ClaimStep, NormalizationConfig, PayoutConfig,
};
use lakeside::tickets::{TicketRecord, TicketStatus, TicketStore, TokenBundleRecord};
use lakeside::timestamp::{Timestamp, MAX_TIMESTAMP_SECS, MIN_TIMESTAMP_SECS};
use lakeside::token_amount::AmountStrategy;

fn ts(secs: i64, nanos: u32) -> Timestamp {
    Timestamp::new(secs, nanos).unwrap()
}

fn store() -> TicketStore {
    TicketStore {
        updated_at: ts(1, 0),
        tickets: vec![
            TicketRecord::new("AADJA62BC31234".to_string(), "AADJA-62BC3-1234".to_string()),
            TicketRecord::new("BBB".to_string(), "bbb".to_string()),
        ],
    }
}

const NORM: NormalizationConfig = NormalizationConfig {
    uppercase: true,
    strip_hyphen: true,
};

const PAYOUT: PayoutConfig = PayoutConfig {
    strategy: AmountStrategy::Fixed(1212),
    token_count: 1,
};

#[test]
fn timestamps_format_as_rfc3339() {
    assert_eq!(ts(1431648000, 0).to_rfc3339(), "2015-05-15T00:00:00+00:00");
    assert_eq!(
        ts(1773656709, 657866295).to_rfc3339(),
        "2026-03-16T10:25:09.657866295+00:00"
    );
    assert!(Timestamp::new(0, 1_000_000_000).is_none());
    assert!(Timestamp::new(59, 1_500_000_000).is_some());
    assert!(Timestamp::new(-1, 1_999_999_999).is_some());
    assert!(Timestamp::new(-1, 2_000_000_000).is_none());
    assert!(Timestamp::new(-2, 1_000_000_000).is_none());
    for (secs, nanos) in [
        (MIN_TIMESTAMP_SECS, 0u32),
        (MAX_TIMESTAMP_SECS, 1_999_999_999),
        (MIN_TIMESTAMP_SECS - 1, 0),
        (MAX_TIMESTAMP_SECS + 1, 0),
        (59, 1_500_000_000),
        (58, 1_500_000_000),
        (-61, 1_000_000_000),
    ] {
        let ours = Timestamp::new(secs, nanos);
        let theirs = chrono::DateTime::from_timestamp(secs, nanos);
        assert_eq!(ours.is_some(), theirs.is_some(), "{secs} {nanos}");
        if let (Some(t), Some(d)) = (ours, theirs) {
            assert_eq!(t.to_rfc3339(), d.to_rfc3339());
        }
    }
    assert_eq!(
        ts(MIN_TIMESTAMP_SECS, 0).to_rfc3339(),
        "-262143-01-01T00:00:00+00:00"
    );
    assert_eq!(ts(-5, 7).secs(), -5);
    assert_eq!(ts(-5, 7).subsec_nanos(), 7);
}

#[test]
fn refusals() {
    let s = store();
    assert!(matches!(begin_claim(&s, "   ", NORM, PAYOUT), Err(ClaimError::EmptyTicketCode)));
    assert!(matches!(begin_claim(&s, " - - ", NORM, PAYOUT), Err(ClaimError::InvalidTicketCode)));
    assert!(matches!(begin_claim(&s, "nope", NORM, PAYOUT), Err(ClaimError::UnknownTicket)));
    let strict = NormalizationConfig {
        uppercase: false,
        strip_hyphen: false,
    };
    assert!(matches!(
        begin_claim(&s, "aadja-62bc3-1234", strict, PAYOUT),
        Err(ClaimError::UnknownTicket)
    ));
}

#[test]
fn error_codes_and_messages() {
    let cases = [
        (ClaimError::EmptyTicketCode, 400, "invalid_ticket_code", "ticket_code must not be empty"),
        (ClaimError::InvalidTicketCode, 400, "invalid_ticket_code", "ticket_code is invalid after normalization"),
        (ClaimError::UnknownTicket, 404, "unknown_ticket", "Ticket code not found"),
        (ClaimError::WalletError("no funds".to_string()), 500, "wallet_error", "Failed to prepare token: no funds"),
        (ClaimError::TicketMissing, 500, "ticket_missing", "Ticket disappeared while processing claim"),
        (ClaimError::WriteFailed("disk full".to_string()), 500, "write_failed", "Failed to write tickets file: disk full"),
    ];
    for (e, status, code, message) in cases {
        assert_eq!(e.status_code(), status);
        assert_eq!(e.code(), code);
        assert_eq!(e.message(), message);
    }
}

#[test]
fn claim_issues_once_then_replays() {
    let mut s = store();
    let step = begin_claim(&s, "aadja-62bc3-1234", NORM, PAYOUT).unwrap();
    let (code, values) = match step {
        ClaimStep::Mint { code, values } => (code, values),
        other => panic!("unexpected {:?}", other),
    };
    assert_eq!(code, "AADJA62BC31234");
    assert_eq!(values, vec![1212]);
    let minted: Vec<(u64, String)> = values
        .iter()
        .map(|v| (*v, format!("cashuB{v}")))
        .collect();
    assert!(minted_total_fits(&minted));
    let now = ts(1773656709, 657866295);
    let issued = complete_claim(&mut s, &code, minted, now).unwrap();
    assert_eq!(issued.status, "issued");
    assert!(!issued.already_claimed);
    assert_eq!(issued.ticket_code, "AADJA62BC31234");
    assert_eq!(issued.display_code, "AADJA-62BC3-1234");
    assert_eq!(issued.total_amount, 1212);
    assert_eq!(issued.tokens.len(), 1);
    assert_eq!(issued.tokens[0].amount, 1212);
    assert_eq!(issued.tokens[0].token, "cashuB1212");
    assert_eq!(issued.tokens[0].format, "cashu-b");
    assert_eq!(
        issued.tokens[0].created_at.as_deref(),
        Some("2026-03-16T10:25:09.657866295+00:00")
    );
    let t = &s.tickets[0];
    assert_eq!(t.status, TicketStatus::Claimed);
    assert_eq!(t.claimed_at, Some(now));
    assert_eq!(t.token_bundles.len(), 1);

    match begin_claim(&s, "AADJA 62BC3 1234", NORM, PAYOUT).unwrap() {
        ClaimStep::Replay(r) => {
            assert_eq!(r.status, "already_claimed");
            assert!(r.already_claimed);
            assert_eq!(r.total_amount, issued.total_amount);
            assert_eq!(r.tokens[0].token, issued.tokens[0].token);
            assert_eq!(r.tokens[0].created_at, issued.tokens[0].created_at);
        }
        other => panic!("unexpected {:?}", other),
    }
    assert!(claim_total_fits(&s, "AADJA-62BC3-1234", NORM));
}

#[test]
fn completing_a_claim_twice_replays_the_first_bundle() {
    let mut s = store();
    let code = "BBB".to_string();
    complete_claim(&mut s, &code, vec![(5, "first".to_string())], ts(10, 0)).unwrap();
    let again = complete_claim(&mut s, &code, vec![(9, "second".to_string())], ts(11, 0)).unwrap();
    assert!(again.already_claimed);
    assert_eq!(again.tokens[0].token, "first");
    assert_eq!(s.tickets[1].token_bundles.len(), 1);
    assert_eq!(s.tickets[1].claimed_at, Some(ts(10, 0)));
}

#[test]
fn completing_for_a_missing_ticket_fails() {
    let mut s = store();
    let r = complete_claim(&mut s, &"GONE".to_string(), vec![(5, "t".to_string())], ts(10, 0));
    assert!(matches!(r, Err(ClaimError::TicketMissing)));
    assert!(s.tickets.iter().all(|t| t.token_bundles.is_empty()));
}

#[test]
fn response_totals_the_bundle() {
    let mut t = TicketRecord::new("X".to_string(), "x".to_string());
    for (amount, at) in [(10u64, Some(ts(0, 0))), (32, None)] {
        t.token_bundles.push(TokenBundleRecord {
            amount,
            token: format!("tok{amount}"),
            format: "cashu-b".to_string(),
            created_at: at,
        });
    }
    let r = ClaimResponse::from_ticket(&t, true);
    assert_eq!(r.total_amount, 42);
    assert_eq!(r.tokens[0].created_at.as_deref(), Some("1970-01-01T00:00:00+00:00"));
    assert_eq!(r.tokens[1].created_at, None);
    assert_eq!(r.status, "already_claimed");
}

#[test]
fn overflowing_totals_are_detected() {
    assert!(!minted_total_fits(&vec![(u64::MAX, "a".to_string()), (1, "b".to_string())]));
    let mut t = TicketRecord::new("X".to_string(), "x".to_string());
    for amount in [u64::MAX, 1] {
        t.token_bundles.push(TokenBundleRecord {
            amount,
            token: String::new(),
            format: String::new(),
            created_at: None,
        });
    }
    let s = TicketStore { updated_at: ts(0, 0), tickets: vec![t] };
    assert!(!claim_total_fits(&s, "x", NORM));
    assert!(claim_total_fits(&s, "y", NORM));
    assert!(!completion_total_fits(&s, &"X".to_string(), &vec![]));
    let fresh = store();
    assert!(!completion_total_fits(&fresh, &"BBB".to_string(), &vec![(u64::MAX, String::new()), (1, String::new())]));
    assert!(completion_total_fits(&fresh, &"NONE".to_string(), &vec![(u64::MAX, String::new()), (1, String::new())]));
}
