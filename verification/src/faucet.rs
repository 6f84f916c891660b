//! Answering a claim for a ticket's token bundle.
//!
//! A claim runs in two steps around the wallet: `begin_claim` looks the ticket up
//! and either replays its bundle or says which amounts to mint; the caller mints
//! them; `complete_claim` binds the minted tokens to the ticket, unless another
//! claim got there first.

use vstd::prelude::*;

use crate::tickets::{
    bundles_view, normalize_ticket_code, normalized_code, tickets_view, TicketRecord, TicketStatus,
    TicketStore, TicketView, TokenBundleRecord, TokenBundleView,
};
use crate::text::trimmed;
use crate::timestamp::{rfc3339_utc, Timestamp};
use crate::token_amount::{checked_sum_total, compute_token_values, lemma_sum_nonnegative, lemma_sum_prefix_bounded, sum_amounts, AmountStrategy};
use crate::token_format::TOKEN_FORMAT_LABEL;

verus! {

/// How ticket codes are normalised before lookup.
#[derive(Clone, Copy, Debug, PartialEq, Eq, Structural)]
pub struct NormalizationConfig {
    pub uppercase: bool,
    pub strip_hyphen: bool,
}

/// What a claim pays out.
#[derive(Clone, Copy, Debug, PartialEq, Eq, Structural)]
pub struct PayoutConfig {
    pub strategy: AmountStrategy,
    pub token_count: u64,
}

/// One token of a claim response.
#[derive(Debug)]
pub struct ClaimToken {
    pub amount: u64,
    pub token: String,
    pub format: String,
    pub created_at: Option<String>,
}

/// The contents of a `ClaimToken`.
pub struct ClaimTokenView {
    pub amount: u64,
    pub token: Seq<char>,
    pub format: Seq<char>,
    pub created_at: Option<Seq<char>>,
}

impl View for ClaimToken {
    type V = ClaimTokenView;

    open spec fn view(&self) -> ClaimTokenView {
        ClaimTokenView {
            amount: self.amount,
            token: self.token@,
            format: self.format@,
            created_at: match self.created_at {
                Some(s) => Some(s@),
                None => None,
            },
        }
    }
}

/// The answer to a claim: the ticket's bundle and whether it was issued before.
#[derive(Debug)]
pub struct ClaimResponse {
    pub status: &'static str,
    pub already_claimed: bool,
    pub ticket_code: String,
    pub display_code: String,
    pub total_amount: u64,
    pub tokens: Vec<ClaimToken>,
}

/// The contents of a `ClaimResponse`.
pub struct ClaimResponseView {
    pub status: Seq<char>,
    pub already_claimed: bool,
    pub ticket_code: Seq<char>,
    pub display_code: Seq<char>,
    pub total_amount: u64,
    pub tokens: Seq<ClaimTokenView>,
}

impl View for ClaimResponse {
    type V = ClaimResponseView;

    open spec fn view(&self) -> ClaimResponseView {
        ClaimResponseView {
            status: self.status@,
            already_claimed: self.already_claimed,
            ticket_code: self.ticket_code@,
            display_code: self.display_code@,
            total_amount: self.total_amount,
            tokens: self.tokens@.map_values(|t: ClaimToken| t@),
        }
    }
}

/// The amounts of a list of bundles.
pub open spec fn bundle_amounts(bundles: Seq<TokenBundleView>) -> Seq<u64> {
    bundles.map_values(|b: TokenBundleView| b.amount)
}

/// The sum of the amounts of a list of bundles.
pub open spec fn bundle_total(bundles: Seq<TokenBundleView>) -> int {
    sum_amounts(bundle_amounts(bundles))
}

/// Every ticket's bundle total fits in a `u64`.
pub open spec fn totals_fit(tickets: Seq<TicketRecord>) -> bool {
    forall|i: int| 0 <= i < tickets.len() ==> bundle_total(#[trigger] tickets[i]@.token_bundles) <= u64::MAX
}

/// The amounts of a list of bundles.
fn bundle_amounts_of(bundles: &Vec<TokenBundleRecord>) -> (res: Vec<u64>)
    ensures
        res@ == bundle_amounts(bundles_view(bundles@)),
{
    let mut res: Vec<u64> = Vec::new();
    let mut i: usize = 0;
    while i < bundles.len()
        invariant
            i <= bundles.len(),
            res@ == bundle_amounts(bundles_view(bundles@)).take(i as int),
        decreases bundles.len() - i,
    {
        res.push(bundles[i].amount);
        assert(res@ =~= bundle_amounts(bundles_view(bundles@)).take(i + 1));
        i = i + 1;
    }
    assert(res@ =~= bundle_amounts(bundles_view(bundles@)));
    res
}

/// Whether the amounts of minted tokens add up to a `u64`.
pub fn minted_total_fits(minted: &Vec<(u64, String)>) -> (res: bool)
    ensures
        res == (sum_amounts(minted_amounts(minted@)) <= u64::MAX),
{
    let mut amounts: Vec<u64> = Vec::new();
    let mut i: usize = 0;
    while i < minted.len()
        invariant
            i <= minted.len(),
            amounts@ == minted_amounts(minted@).take(i as int),
        decreases minted.len() - i,
    {
        amounts.push(minted[i].0);
        assert(amounts@ =~= minted_amounts(minted@).take(i + 1));
        i = i + 1;
    }
    assert(amounts@ =~= minted_amounts(minted@));
    checked_sum_total(&amounts).is_some()
}

/// A bundle as a claim response shows it: its instant as RFC 3339 text.
pub open spec fn claim_token_of(b: TokenBundleView) -> ClaimTokenView {
    ClaimTokenView {
        amount: b.amount,
        token: b.token,
        format: b.format,
        created_at: match b.created_at {
            Some(t) => Some(rfc3339_utc(t@.0, t@.1)),
            None => None,
        },
    }
}

/// The status text of a response.
pub open spec fn status_text(already_claimed: bool) -> Seq<char> {
    if already_claimed {
        "already_claimed"@
    } else {
        "issued"@
    }
}

/// The response that shows ticket `t`'s bundle.
pub open spec fn response_of(t: TicketView, already_claimed: bool) -> ClaimResponseView {
    ClaimResponseView {
        status: status_text(already_claimed),
        already_claimed,
        ticket_code: t.ticket_code,
        display_code: t.display_code,
        total_amount: bundle_total(t.token_bundles) as u64,
        tokens: t.token_bundles.map_values(|b: TokenBundleView| claim_token_of(b)),
    }
}

impl ClaimResponse {
    /// The response that shows `ticket`'s bundle.
    pub fn from_ticket(ticket: &TicketRecord, already_claimed: bool) -> (res: ClaimResponse)
        requires
            bundle_total(ticket@.token_bundles) <= u64::MAX,
        ensures
            res@ == response_of(ticket@, already_claimed),
    {
        let ghost amounts = bundle_amounts(ticket@.token_bundles);
        let mut total: u64 = 0;
        let mut tokens: Vec<ClaimToken> = Vec::new();
        let n = ticket.token_bundles.len();
        let mut i: usize = 0;
        while i < n
            invariant
                n == ticket.token_bundles@.len(),
                amounts == bundle_amounts(ticket@.token_bundles),
                sum_amounts(amounts) <= u64::MAX,
                i <= n,
                total == sum_amounts(amounts.take(i as int)),
                tokens@.len() == i,
                forall|k: int|
                    0 <= k < i ==> (#[trigger] tokens@[k])@ == claim_token_of(
                        ticket.token_bundles@[k]@,
                    ),
            decreases n - i,
        {
            let bundle = &ticket.token_bundles[i];
            proof {
                assert(amounts.take(i + 1).drop_last() =~= amounts.take(i as int));
                assert(amounts[i as int] == bundle.amount);
                lemma_sum_prefix_bounded(amounts, i + 1);
            }
            total = total + bundle.amount;
            let created_at = match &bundle.created_at {
                Some(ts) => Some(ts.to_rfc3339()),
                None => None,
            };
            tokens.push(
                ClaimToken {
                    amount: bundle.amount,
                    token: bundle.token.clone(),
                    format: bundle.format.clone(),
                    created_at,
                },
            );
            i = i + 1;
        }
        assert(amounts.take(n as int) =~= amounts);
        let res = ClaimResponse {
            status: if already_claimed {
                "already_claimed"
            } else {
                "issued"
            },
            already_claimed,
            ticket_code: ticket.ticket_code.clone(),
            display_code: ticket.display_code.clone(),
            total_amount: total,
            tokens,
        };
        proof {
            reveal_strlit("already_claimed");
            reveal_strlit("issued");
            assert(res@.tokens =~= ticket@.token_bundles.map_values(
                |b: TokenBundleView| claim_token_of(b),
            ));
        }
        res
    }
}

/// Why a claim is refused.
#[derive(Debug)]
pub enum ClaimError {
    /// The ticket code is blank.
    EmptyTicketCode,
    /// Nothing is left of the ticket code once normalised.
    InvalidTicketCode,
    /// No ticket has this code.
    UnknownTicket,
    /// The wallet could not prepare a token; the text says why.
    WalletError(String),
    /// The ticket was gone when the minted tokens were to be bound to it.
    TicketMissing,
    /// The tickets file could not be written; the text says why.
    WriteFailed(String),
}

impl ClaimError {
    /// The HTTP status that answers this error.
    pub fn status_code(&self) -> (res: u16)
        ensures
            res == match self {
                ClaimError::EmptyTicketCode | ClaimError::InvalidTicketCode => 400u16,
                ClaimError::UnknownTicket => 404u16,
                _ => 500u16,
            },
    {
        match self {
            ClaimError::EmptyTicketCode | ClaimError::InvalidTicketCode => 400,
            ClaimError::UnknownTicket => 404,
            _ => 500,
        }
    }

    /// The machine-readable code of this error.
    pub fn code(&self) -> (res: &'static str)
        ensures
            res@ == error_code_text(*self),
    {
        proof {
            reveal_strlit("invalid_ticket_code");
            reveal_strlit("unknown_ticket");
            reveal_strlit("wallet_error");
            reveal_strlit("ticket_missing");
            reveal_strlit("write_failed");
        }
        match self {
            ClaimError::EmptyTicketCode | ClaimError::InvalidTicketCode => "invalid_ticket_code",
            ClaimError::UnknownTicket => "unknown_ticket",
            ClaimError::WalletError(_) => "wallet_error",
            ClaimError::TicketMissing => "ticket_missing",
            ClaimError::WriteFailed(_) => "write_failed",
        }
    }

    /// The human-readable message of this error.
    pub fn message(&self) -> (res: String)
        ensures
            res@ == error_message_text(*self),
    {
        proof {
            reveal_strlit("ticket_code must not be empty");
            reveal_strlit("ticket_code is invalid after normalization");
            reveal_strlit("Ticket code not found");
            reveal_strlit("Failed to prepare token: ");
            reveal_strlit("Ticket disappeared while processing claim");
            reveal_strlit("Failed to write tickets file: ");
        }
        match self {
            ClaimError::EmptyTicketCode => String::from_str("ticket_code must not be empty"),
            ClaimError::InvalidTicketCode => String::from_str(
                "ticket_code is invalid after normalization",
            ),
            ClaimError::UnknownTicket => String::from_str("Ticket code not found"),
            ClaimError::WalletError(detail) => {
                let mut m = String::from_str("Failed to prepare token: ");
                m.append(detail.as_str());
                m
            },
            ClaimError::TicketMissing => String::from_str("Ticket disappeared while processing claim"),
            ClaimError::WriteFailed(detail) => {
                let mut m = String::from_str("Failed to write tickets file: ");
                m.append(detail.as_str());
                m
            },
        }
    }
}

/// The machine-readable code of an error.
pub open spec fn error_code_text(e: ClaimError) -> Seq<char> {
    match e {
        ClaimError::EmptyTicketCode | ClaimError::InvalidTicketCode => "invalid_ticket_code"@,
        ClaimError::UnknownTicket => "unknown_ticket"@,
        ClaimError::WalletError(_) => "wallet_error"@,
        ClaimError::TicketMissing => "ticket_missing"@,
        ClaimError::WriteFailed(_) => "write_failed"@,
    }
}

/// The human-readable message of an error.
pub open spec fn error_message_text(e: ClaimError) -> Seq<char> {
    match e {
        ClaimError::EmptyTicketCode => "ticket_code must not be empty"@,
        ClaimError::InvalidTicketCode => "ticket_code is invalid after normalization"@,
        ClaimError::UnknownTicket => "Ticket code not found"@,
        ClaimError::WalletError(detail) => "Failed to prepare token: "@ + detail@,
        ClaimError::TicketMissing => "Ticket disappeared while processing claim"@,
        ClaimError::WriteFailed(detail) => "Failed to write tickets file: "@ + detail@,
    }
}

/// The first ticket from `start` on whose code is `code`.
pub open spec fn code_from(tickets: Seq<TicketView>, code: Seq<char>, start: int) -> Option<int>
    decreases tickets.len() - start,
{
    if start < 0 || start >= tickets.len() {
        None
    } else if tickets[start].ticket_code == code {
        Some(start)
    } else {
        code_from(tickets, code, start + 1)
    }
}

/// The first ticket whose code is `code`.
pub open spec fn ticket_with_code(tickets: Seq<TicketView>, code: Seq<char>) -> Option<int> {
    code_from(tickets, code, 0)
}

/// The index of the first ticket whose code is `code`.
pub fn find_ticket_by_code(tickets: &Vec<TicketRecord>, code: &String) -> (res: Option<usize>)
    ensures
        match res {
            Some(i) => i < tickets@.len() && ticket_with_code(tickets_view(tickets@), code@) == Some(
                i as int,
            ),
            None => ticket_with_code(tickets_view(tickets@), code@) is None,
        },
{
    let mut i: usize = 0;
    while i < tickets.len()
        invariant
            i <= tickets.len(),
            ticket_with_code(tickets_view(tickets@), code@) == code_from(
                tickets_view(tickets@),
                code@,
                i as int,
            ),
        decreases tickets.len() - i,
    {
        if tickets[i].ticket_code == *code {
            return Some(i);
        }
        i = i + 1;
    }
    None
}

/// What the first step of a claim decided.
#[derive(Debug)]
pub enum ClaimStep {
    /// The ticket already has its bundle: answer with it.
    Replay(ClaimResponse),
    /// The ticket has no bundle yet: mint these amounts for the ticket `code`.
    Mint { code: String, values: Vec<u64> },
}

/// How the first step of a claim ends, as a function of the request.
pub enum ClaimDecision {
    Empty,
    Invalid,
    Unknown,
    Replay(int),
    Mint(Seq<char>),
}

/// The first step of a claim for the code `raw`: blank codes, codes that are
/// empty once normalised and unknown codes are refused; a ticket with a bundle
/// is replayed; otherwise its normalised code is to be minted for.
pub open spec fn claim_decision(tickets: Seq<TicketView>, raw: Seq<char>, normalization: NormalizationConfig) -> ClaimDecision {
    let code = normalized_code(raw, normalization.uppercase, normalization.strip_hyphen);
    if trimmed(raw).len() == 0 {
        ClaimDecision::Empty
    } else if code.len() == 0 {
        ClaimDecision::Invalid
    } else {
        match ticket_with_code(tickets, code) {
            None => ClaimDecision::Unknown,
            Some(j) => if tickets[j].token_bundles.len() > 0 {
                ClaimDecision::Replay(j)
            } else {
                ClaimDecision::Mint(code)
            },
        }
    }
}

/// First step of a claim for `ticket_code`: refuse it, replay the ticket's
/// bundle, or choose the amounts to mint for it.
pub fn begin_claim(
    store: &TicketStore,
    ticket_code: &str,
    normalization: NormalizationConfig,
    payout: PayoutConfig,
) -> (res: Result<ClaimStep, ClaimError>)
    requires
        payout.strategy.is_sampleable(),
        payout.token_count <= usize::MAX,
        claim_decision(tickets_view(store.tickets@), ticket_code@, normalization) matches ClaimDecision::Replay(j)
            ==> bundle_total(tickets_view(store.tickets@)[j].token_bundles) <= u64::MAX,
    ensures
        match claim_decision(tickets_view(store.tickets@), ticket_code@, normalization) {
            ClaimDecision::Empty => res matches Err(ClaimError::EmptyTicketCode),
            ClaimDecision::Invalid => res matches Err(ClaimError::InvalidTicketCode),
            ClaimDecision::Unknown => res matches Err(ClaimError::UnknownTicket),
            ClaimDecision::Replay(j) => res matches Ok(ClaimStep::Replay(r)) && r@ == response_of(
                tickets_view(store.tickets@)[j],
                true,
            ),
            ClaimDecision::Mint(code) => res matches Ok(ClaimStep::Mint { code: c, values }) && c@
                == code && values@.len() == payout.token_count && forall|i: int|
                0 <= i < values@.len() ==> payout.strategy.admits(#[trigger] values@[i]),
        },
{
    let trimmed_code = crate::text::trim(ticket_code);
    if trimmed_code.as_str().is_empty() {
        return Err(ClaimError::EmptyTicketCode);
    }
    let code = normalize_ticket_code(ticket_code, normalization.uppercase, normalization.strip_hyphen);
    if code.as_str().is_empty() {
        return Err(ClaimError::InvalidTicketCode);
    }
    match find_ticket_by_code(&store.tickets, &code) {
        None => Err(ClaimError::UnknownTicket),
        Some(j) => {
            let ticket = &store.tickets[j];
            assert(tickets_view(store.tickets@)[j as int] == ticket@);
            if ticket.token_bundles.len() > 0 {
                assert(ticket@.token_bundles.len() == ticket.token_bundles@.len());
                return Ok(ClaimStep::Replay(ClaimResponse::from_ticket(ticket, true)));
            }
            let values = compute_token_values(payout.strategy, payout.token_count);
            Ok(ClaimStep::Mint { code, values })
        },
    }
}

/// The bundles that minted `(amount, token)` pairs become, stamped `now`.
pub open spec fn minted_bundles(minted: Seq<(u64, String)>, now: Timestamp) -> Seq<TokenBundleView> {
    minted.map_values(
        |m: (u64, String)|
            TokenBundleView {
                amount: m.0,
                token: m.1@,
                format: TOKEN_FORMAT_LABEL@,
                created_at: Some(now),
            },
    )
}

/// Ticket `t` once the minted tokens are bound to it at `now`.
pub open spec fn claimed_ticket(t: TicketView, minted: Seq<(u64, String)>, now: Timestamp) -> TicketView {
    TicketView {
        status: TicketStatus::Claimed,
        claimed_at: Some(now),
        token_bundles: minted_bundles(minted, now),
        ..t
    }
}

/// The amounts of minted tokens.
pub open spec fn minted_amounts(minted: Seq<(u64, String)>) -> Seq<u64> {
    minted.map_values(|m: (u64, String)| m.0)
}

/// Second step of a claim: bind the tokens minted for the ticket `code` to it at
/// `now`.  If the ticket is gone the claim fails; if it got a bundle meanwhile,
/// that bundle is replayed and the minted tokens are not bound.
pub fn complete_claim(
    store: &mut TicketStore,
    code: &String,
    minted: Vec<(u64, String)>,
    now: Timestamp,
) -> (res: Result<ClaimResponse, ClaimError>)
    requires
        ticket_with_code(tickets_view(old(store).tickets@), code@) matches Some(j) ==> {
            let t = tickets_view(old(store).tickets@)[j];
            if t.token_bundles.len() > 0 {
                bundle_total(t.token_bundles) <= u64::MAX
            } else {
                sum_amounts(minted_amounts(minted@)) <= u64::MAX
            }
        },
    ensures
        totals_fit(old(store).tickets@) && sum_amounts(minted_amounts(minted@)) <= u64::MAX
            ==> totals_fit(final(store).tickets@),
        final(store).updated_at == old(store).updated_at,
        match ticket_with_code(tickets_view(old(store).tickets@), code@) {
            None => res matches Err(ClaimError::TicketMissing) && tickets_view(final(store).tickets@)
                == tickets_view(old(store).tickets@),
            Some(j) => {
                let t = tickets_view(old(store).tickets@)[j];
                if t.token_bundles.len() > 0 {
                    &&& res matches Ok(r)
                    &&& r@ == response_of(t, true)
                    &&& tickets_view(final(store).tickets@) == tickets_view(old(store).tickets@)
                } else {
                    &&& res matches Ok(r)
                    &&& r@ == response_of(claimed_ticket(t, minted@, now), false)
                    &&& r.tokens@.len() == minted@.len()
                    &&& forall|k: int| 0 <= k < minted@.len() ==> r.tokens@[k].amount == (
                        #[trigger] minted@[k]).0 && r.tokens@[k].token@ == minted@[k].1@
                    &&& r.total_amount == sum_amounts(minted_amounts(minted@))
                    &&& tickets_view(final(store).tickets@) == tickets_view(old(store).tickets@).update(
                        j,
                        claimed_ticket(t, minted@, now),
                    )
                }
            },
        },
{
    let j = match find_ticket_by_code(&store.tickets, code) {
        None => {
            return Err(ClaimError::TicketMissing);
        },
        Some(j) => j,
    };
    assert(tickets_view(store.tickets@)[j as int] == store.tickets@[j as int]@);
    if store.tickets[j].token_bundles.len() > 0 {
        return Ok(ClaimResponse::from_ticket(&store.tickets[j], true));
    }
    let ghost before = store.tickets@;
    let mut bundles: Vec<TokenBundleRecord> = Vec::new();
    let n = minted.len();
    let mut minted = minted;
    let ghost all_minted = minted@;
    let mut i: usize = 0;
    while i < n
        invariant
            n == all_minted.len(),
            i <= n,
            minted@ == all_minted.skip(i as int),
            bundles@.len() == i,
            bundles_view(bundles@) == minted_bundles(all_minted.take(i as int), now),
        decreases n - i,
    {
        let ghost rest = minted@;
        let (amount, token) = minted.remove(0);
        proof {
            assert(minted@ =~= all_minted.skip(i + 1)) by {
                assert forall|k: int| 0 <= k < minted@.len() implies minted@[k] == all_minted.skip(i + 1)[k] by {
                    assert(minted@[k] == rest[k + 1]);
                }
            }
            assert(rest[0] == all_minted[i as int]);
        }
        let ghost before_bundles = bundles@;
        bundles.push(
            TokenBundleRecord {
                amount,
                token,
                format: String::from_str(TOKEN_FORMAT_LABEL),
                created_at: Some(now),
            },
        );
        proof {
            assert(amount == all_minted[i as int].0);
            assert(token@ == all_minted[i as int].1@);
            assert(all_minted.take(i + 1) =~= all_minted.take(i as int).push(all_minted[i as int]));
            assert(bundles@ =~= before_bundles.push(bundles@[i as int]));
            assert(bundles@[i as int].format@ == TOKEN_FORMAT_LABEL@);
            assert(bundles@[i as int]@ == TokenBundleView {
                amount: all_minted[i as int].0,
                token: all_minted[i as int].1@,
                format: TOKEN_FORMAT_LABEL@,
                created_at: Some(now),
            });
            assert forall|k: int| 0 <= k < i + 1 implies #[trigger] bundles_view(bundles@)[k]
                == minted_bundles(all_minted.take(i + 1), now)[k] by {
                if k < i {
                    assert(bundles@[k] == before_bundles[k]);
                    assert(bundles_view(before_bundles)[k] == minted_bundles(
                        all_minted.take(i as int),
                        now,
                    )[k]);
                }
            }
            assert(bundles_view(bundles@) =~= minted_bundles(all_minted.take(i + 1), now));
        }
        i = i + 1;
    }
    assert(all_minted.take(n as int) =~= all_minted);
    let mut ticket = store.tickets.remove(j);
    ticket.status = TicketStatus::Claimed;
    ticket.claimed_at = Some(now);
    ticket.token_bundles = bundles;
    proof {
        assert(bundle_amounts(ticket@.token_bundles) =~= minted_amounts(all_minted));
    }
    let response = ClaimResponse::from_ticket(&ticket, false);
    store.tickets.insert(j, ticket);
    proof {
        assert(store.tickets@ =~= before.update(j as int, ticket));
        assert(tickets_view(store.tickets@) =~= tickets_view(before).update(
            j as int,
            claimed_ticket(tickets_view(before)[j as int], all_minted, now),
        ));
        if totals_fit(before) {
            assert forall|k: int| 0 <= k < store.tickets@.len() implies bundle_total(
                #[trigger] store.tickets@[k]@.token_bundles,
            ) <= u64::MAX by {
                if k != j {
                    assert(store.tickets@[k] == before[k]);
                }
            }
        }
        lemma_first_claim_keeps_every_token(tickets_view(before)[j as int], all_minted, now);
    }
    Ok(response)
}

/// A first claim binds every minted token to the ticket, in the order minted:
/// the ticket gets one bundle per token, with that token's amount and text; the
/// answer lists every token in that order, says "issued", and its total is the
/// sum of all the minted amounts.
pub proof fn lemma_first_claim_keeps_every_token(
    t: TicketView,
    minted: Seq<(u64, String)>,
    now: Timestamp,
)
    requires
        sum_amounts(minted_amounts(minted)) <= u64::MAX,
    ensures
        ({
            let c = claimed_ticket(t, minted, now);
            let r = response_of(c, false);
            &&& c.status == TicketStatus::Claimed
            &&& c.claimed_at == Some(now)
            &&& c.token_bundles.len() == minted.len()
            &&& forall|k: int|
                0 <= k < minted.len() ==> c.token_bundles[k].amount == (#[trigger] minted[k]).0
                    && c.token_bundles[k].token == minted[k].1@
            &&& r.tokens.len() == minted.len()
            &&& forall|k: int|
                0 <= k < minted.len() ==> r.tokens[k].amount == (#[trigger] minted[k]).0
                    && r.tokens[k].token == minted[k].1@
            &&& r.total_amount == sum_amounts(minted_amounts(minted))
            &&& r.status == "issued"@
            &&& !r.already_claimed
        }),
{
    let c = claimed_ticket(t, minted, now);
    assert(bundle_amounts(c.token_bundles) =~= minted_amounts(minted));
    lemma_sum_nonnegative(minted_amounts(minted));
}

/// Whether the replay that a claim for `ticket_code` may answer with totals to a
/// `u64` (the condition `begin_claim` requires).
pub fn claim_total_fits(store: &TicketStore, ticket_code: &str, normalization: NormalizationConfig) -> (res: bool)
    ensures
        res == (claim_decision(tickets_view(store.tickets@), ticket_code@, normalization) matches ClaimDecision::Replay(j)
            ==> bundle_total(tickets_view(store.tickets@)[j].token_bundles) <= u64::MAX),
{
    let trimmed_code = crate::text::trim(ticket_code);
    if trimmed_code.as_str().is_empty() {
        return true;
    }
    let code = normalize_ticket_code(ticket_code, normalization.uppercase, normalization.strip_hyphen);
    if code.as_str().is_empty() {
        return true;
    }
    match find_ticket_by_code(&store.tickets, &code) {
        None => true,
        Some(j) => {
            assert(tickets_view(store.tickets@)[j as int] == store.tickets@[j as int]@);
            if store.tickets[j].token_bundles.len() == 0 {
                return true;
            }
            let amounts = bundle_amounts_of(&store.tickets[j].token_bundles);
            checked_sum_total(&amounts).is_some()
        },
    }
}

/// Whether the response that binding `minted` to the ticket `code` answers with
/// totals to a `u64` (the condition `complete_claim` requires).
pub fn completion_total_fits(store: &TicketStore, code: &String, minted: &Vec<(u64, String)>) -> (res: bool)
    ensures
        res == (ticket_with_code(tickets_view(store.tickets@), code@) matches Some(j) ==> {
            let t = tickets_view(store.tickets@)[j];
            if t.token_bundles.len() > 0 {
                bundle_total(t.token_bundles) <= u64::MAX
            } else {
                sum_amounts(minted_amounts(minted@)) <= u64::MAX
            }
        }),
{
    match find_ticket_by_code(&store.tickets, code) {
        None => true,
        Some(j) => {
            assert(tickets_view(store.tickets@)[j as int] == store.tickets@[j as int]@);
            if store.tickets[j].token_bundles.len() > 0 {
                let amounts = bundle_amounts_of(&store.tickets[j].token_bundles);
                checked_sum_total(&amounts).is_some()
            } else {
                minted_total_fits(minted)
            }
        },
    }
}

/// Replacing a ticket by one with the same code does not change where a code is
/// found.
proof fn lemma_code_from_update(
    tickets: Seq<TicketView>,
    j: int,
    t: TicketView,
    code: Seq<char>,
    start: int,
)
    requires
        0 <= j < tickets.len(),
        t.ticket_code == tickets[j].ticket_code,
    ensures
        code_from(tickets.update(j, t), code, start) == code_from(tickets, code, start),
    decreases tickets.len() - start,
{
    if 0 <= start < tickets.len() {
        lemma_code_from_update(tickets, j, t, code, start + 1);
    }
}

/// A search from `start` finds a ticket at or after `start`, with that code.
proof fn lemma_code_from_some(tickets: Seq<TicketView>, code: Seq<char>, start: int)
    requires
        0 <= start,
        code_from(tickets, code, start) is Some,
    ensures
        start <= code_from(tickets, code, start)->Some_0 < tickets.len(),
        tickets[code_from(tickets, code, start)->Some_0].ticket_code == code,
    decreases tickets.len() - start,
{
    if start < tickets.len() && tickets[start].ticket_code != code {
        lemma_code_from_some(tickets, code, start + 1);
    }
}

/// A ticket is issued at most once: once a claim has bound a non-empty bundle to
/// a ticket, every later claim whose code normalises to the same ticket code is
/// answered by replaying that bundle, marked as already claimed, with the same
/// tokens and total as the first answer.
pub proof fn lemma_claim_is_replayed(
    tickets: Seq<TicketView>,
    raw: Seq<char>,
    normalization: NormalizationConfig,
    minted: Seq<(u64, String)>,
    now: Timestamp,
    later_raw: Seq<char>,
)
    requires
        claim_decision(tickets, raw, normalization) is Mint,
        minted.len() > 0,
        trimmed(later_raw).len() > 0,
        normalized_code(later_raw, normalization.uppercase, normalization.strip_hyphen)
            == normalized_code(raw, normalization.uppercase, normalization.strip_hyphen),
    ensures
        ({
            let code = normalized_code(raw, normalization.uppercase, normalization.strip_hyphen);
            let j = ticket_with_code(tickets, code)->Some_0;
            let claimed = claimed_ticket(tickets[j], minted, now);
            let after = tickets.update(j, claimed);
            let first = response_of(claimed, false);
            &&& claim_decision(after, later_raw, normalization) == ClaimDecision::Replay(j)
            &&& response_of(after[j], true).tokens == first.tokens
            &&& response_of(after[j], true).total_amount == first.total_amount
            &&& response_of(after[j], true).already_claimed
        }),
{
    let code = normalized_code(raw, normalization.uppercase, normalization.strip_hyphen);
    lemma_code_from_some(tickets, code, 0);
    let j = ticket_with_code(tickets, code)->Some_0;
    let claimed = claimed_ticket(tickets[j], minted, now);
    lemma_code_from_update(tickets, j, claimed, code, 0);
    assert(claimed.token_bundles.len() == minted.len());
}

} // verus!
