//! The ticket datastore: records, code normalisation, hashing, import and summary.

use std::path::PathBuf;
use vstd::prelude::*;

use crate::hashing::{hex_encode, hex_lower, lemma_hex_lower_len, sha256, sha256_digest};
use crate::metadata::TicketMetadata;
use crate::text::{ascii_upper, char_is_whitespace, char_to_ascii_uppercase, is_white_space, string_push};
use crate::timestamp::Timestamp;

verus! {

/// Whether a ticket's bundle has been handed out.
#[derive(Clone, Copy, Debug, PartialEq, Eq, Structural)]
pub enum TicketStatus {
    Unclaimed,
    Claimed,
    Reissued,
}

impl Default for TicketStatus {
    fn default() -> (res: Self)
        ensures
            res == TicketStatus::Unclaimed,
    {
        TicketStatus::Unclaimed
    }
}

/// One Cashu token handed out for a ticket.
#[derive(Debug)]
pub struct TokenBundleRecord {
    pub amount: u64,
    pub token: String,
    pub format: String,
    pub created_at: Option<Timestamp>,
}

/// The contents of a `TokenBundleRecord`.
pub struct TokenBundleView {
    pub amount: u64,
    pub token: Seq<char>,
    pub format: Seq<char>,
    pub created_at: Option<Timestamp>,
}

impl View for TokenBundleRecord {
    type V = TokenBundleView;

    open spec fn view(&self) -> TokenBundleView {
        TokenBundleView {
            amount: self.amount,
            token: self.token@,
            format: self.format@,
            created_at: self.created_at,
        }
    }
}

/// A ticket: its normalised code, the hash of that code, the code as the
/// attendee sees it, its claim state and the tokens issued for it.
#[derive(Debug)]
pub struct TicketRecord {
    pub ticket_code: String,
    pub ticket_hash: String,
    pub display_code: String,
    pub status: TicketStatus,
    pub claimed_at: Option<Timestamp>,
    pub token_bundles: Vec<TokenBundleRecord>,
    pub metadata: TicketMetadata,
}

/// The contents of a `TicketRecord`.
pub struct TicketView {
    pub ticket_code: Seq<char>,
    pub ticket_hash: Seq<char>,
    pub display_code: Seq<char>,
    pub status: TicketStatus,
    pub claimed_at: Option<Timestamp>,
    pub token_bundles: Seq<TokenBundleView>,
    pub metadata: Map<Seq<char>, Seq<char>>,
}

/// The contents of a sequence of token bundles.
pub open spec fn bundles_view(bundles: Seq<TokenBundleRecord>) -> Seq<TokenBundleView> {
    bundles.map_values(|b: TokenBundleRecord| b@)
}

impl View for TicketRecord {
    type V = TicketView;

    open spec fn view(&self) -> TicketView {
        TicketView {
            ticket_code: self.ticket_code@,
            ticket_hash: self.ticket_hash@,
            display_code: self.display_code@,
            status: self.status,
            claimed_at: self.claimed_at,
            token_bundles: bundles_view(self.token_bundles@),
            metadata: self.metadata@,
        }
    }
}

/// The contents of a sequence of tickets.
pub open spec fn tickets_view(tickets: Seq<TicketRecord>) -> Seq<TicketView> {
    tickets.map_values(|t: TicketRecord| t@)
}

/// The hash under which a ticket with normalised code `code` is stored: the
/// lower-case hex text of the SHA-256 digest of the code's UTF-8 bytes.
pub open spec fn ticket_hash_of(code: Seq<char>) -> Seq<char> {
    hex_lower(sha256_digest(vstd::utf8::encode_utf8(code)))
}

/// A fresh, unclaimed ticket with no tokens.
pub open spec fn fresh_ticket(
    code: Seq<char>,
    display_code: Seq<char>,
    metadata: Map<Seq<char>, Seq<char>>,
) -> TicketView {
    TicketView {
        ticket_code: code,
        ticket_hash: ticket_hash_of(code),
        display_code,
        status: TicketStatus::Unclaimed,
        claimed_at: None,
        token_bundles: Seq::empty(),
        metadata,
    }
}

impl TicketRecord {
    /// A fresh, unclaimed ticket for `ticket_code`, hashed, with no tokens and no
    /// metadata.
    pub fn new(ticket_code: String, display_code: String) -> (res: TicketRecord)
        ensures
            res@ == fresh_ticket(ticket_code@, display_code@, Map::empty()),
    {
        let ticket_hash = derive_ticket_hash(ticket_code.as_str());
        let res = TicketRecord {
            display_code,
            ticket_code,
            ticket_hash,
            status: TicketStatus::Unclaimed,
            claimed_at: None,
            token_bundles: Vec::new(),
            metadata: TicketMetadata::new(),
        };
        assert(bundles_view(res.token_bundles@) =~= Seq::empty());
        res
    }
}

/// All tickets, with the time of the last write.
#[derive(Debug)]
pub struct TicketStore {
    pub updated_at: Timestamp,
    pub tickets: Vec<TicketRecord>,
}

impl TicketStore {
    /// A store with no tickets, written at `now`.
    pub fn empty(now: Timestamp) -> (res: TicketStore)
        ensures
            res.updated_at == now,
            res.tickets@.len() == 0,
    {
        TicketStore { updated_at: now, tickets: Vec::new() }
    }

    /// Older files have no display code: such a ticket shows its code.
    pub fn backfill_display_codes(&mut self)
        ensures
            final(self).updated_at == old(self).updated_at,
            tickets_view(final(self).tickets@).len() == old(self).tickets@.len(),
            forall|i: int|
                0 <= i < old(self).tickets@.len() ==> #[trigger] tickets_view(final(self).tickets@)[i]
                    == backfilled(old(self).tickets@[i]@),
    {
        let n = self.tickets.len();
        let mut i: usize = 0;
        while i < n
            invariant
                n == old(self).tickets@.len(),
                self.tickets@.len() == n,
                self.updated_at == old(self).updated_at,
                i <= n,
                forall|k: int| 0 <= k < i ==> #[trigger] self.tickets@[k]@ == backfilled(old(self).tickets@[k]@),
                forall|k: int| i <= k < n ==> #[trigger] self.tickets@[k] == old(self).tickets@[k],
            decreases n - i,
        {
            let mut ticket = self.tickets.remove(i);
            if ticket.display_code.as_str().is_empty() {
                ticket.display_code = ticket.ticket_code.clone();
            }
            self.tickets.insert(i, ticket);
            i = i + 1;
        }
    }
}

/// A ticket whose empty display code is replaced by its code.
pub open spec fn backfilled(t: TicketView) -> TicketView {
    if t.display_code.len() == 0 {
        TicketView { display_code: t.ticket_code, ..t }
    } else {
        t
    }
}

/// Whether `c` survives normalisation: no white space, and no hyphen when
/// hyphens are stripped.
pub open spec fn kept_in_code(c: char, strip_hyphen: bool) -> bool {
    !is_white_space(c) && !(strip_hyphen && c == '-')
}

/// The normalised form of a ticket code: white space removed everywhere, then
/// hyphens removed when `strip_hyphen`, then ASCII letters upper-cased when
/// `uppercase`.
pub open spec fn normalized_code(input: Seq<char>, uppercase: bool, strip_hyphen: bool) -> Seq<char>
    decreases input.len(),
{
    if input.len() == 0 {
        Seq::empty()
    } else {
        let rest = normalized_code(input.drop_last(), uppercase, strip_hyphen);
        let c = input.last();
        if kept_in_code(c, strip_hyphen) {
            rest.push(if uppercase { ascii_upper(c) } else { c })
        } else {
            rest
        }
    }
}

/// Normalise a ticket code: strip white space, optionally hyphens, optionally
/// upper-case ASCII letters.
pub fn normalize_ticket_code(input: &str, uppercase: bool, strip_hyphen: bool) -> (res: String)
    ensures
        res@ == normalized_code(input@, uppercase, strip_hyphen),
{
    let cs = crate::text::chars_of(input);
    let mut cleaned = String::new();
    let mut i: usize = 0;
    while i < cs.len()
        invariant
            cs@ == input@,
            i <= cs.len(),
            cleaned@ == normalized_code(cs@.take(i as int), uppercase, strip_hyphen),
        decreases cs.len() - i,
    {
        let c = cs[i];
        assert(cs@.take(i + 1).drop_last() =~= cs@.take(i as int));
        if !char_is_whitespace(c) && !(strip_hyphen && c == '-') {
            if uppercase {
                string_push(&mut cleaned, char_to_ascii_uppercase(c));
            } else {
                string_push(&mut cleaned, c);
            }
        }
        i = i + 1;
    }
    assert(cs@.take(cs.len() as int) =~= cs@);
    cleaned
}

/// The hash under which a ticket code is stored: 64 lower-case hex digits.
pub fn derive_ticket_hash(ticket_code: &str) -> (res: String)
    ensures
        res@ == ticket_hash_of(ticket_code@),
        res@.len() == 64,
{
    let digest = sha256(ticket_code.as_bytes());
    proof {
        lemma_hex_lower_len(digest@);
    }
    hex_encode(digest.as_slice())
}

/// An upper-cased ASCII character is neither white space, nor a hyphen, nor a
/// lower-case ASCII letter, unless it was already one of those and not a letter.
proof fn lemma_ascii_upper_char(c: char)
    ensures
        'a' <= c <= 'z' ==> 'A' <= ascii_upper(c) <= 'Z',
        !('a' <= c <= 'z') ==> ascii_upper(c) == c,
{
    if 'a' <= c && c <= 'z' {
        let n = c as u32;
        assert(('a' as u32) <= n <= ('z' as u32));
        let u = (n - 32) as char;
        assert(u as u32 == n - 32);
    }
}

/// A normalised code holds no white space; no hyphen when hyphens are stripped;
/// and no lower-case ASCII letter when codes are upper-cased.
pub proof fn lemma_normalized_code_is_clean(input: Seq<char>, uppercase: bool, strip_hyphen: bool)
    ensures
        forall|i: int|
            0 <= i < normalized_code(input, uppercase, strip_hyphen).len() ==> {
                let c = #[trigger] normalized_code(input, uppercase, strip_hyphen)[i];
                &&& !is_white_space(c)
                &&& strip_hyphen ==> c != '-'
                &&& uppercase ==> !('a' <= c <= 'z')
            },
    decreases input.len(),
{
    if input.len() > 0 {
        lemma_normalized_code_is_clean(input.drop_last(), uppercase, strip_hyphen);
        lemma_ascii_upper_char(input.last());
        let rest = normalized_code(input.drop_last(), uppercase, strip_hyphen);
        assert forall|i: int|
            0 <= i < normalized_code(input, uppercase, strip_hyphen).len() implies {
                let c = #[trigger] normalized_code(input, uppercase, strip_hyphen)[i];
                &&& !is_white_space(c)
                &&& strip_hyphen ==> c != '-'
                &&& uppercase ==> !('a' <= c <= 'z')
            } by {
            if i < rest.len() {
                assert(normalized_code(input, uppercase, strip_hyphen)[i] == rest[i]);
            }
        }
    }
}

/// Normalisation only deletes characters and changes case: without upper-casing
/// it keeps exactly the characters of the input that are neither white space nor
/// (when hyphens are stripped) a hyphen, in their order; with upper-casing it is
/// that same code with each ASCII lower-case letter made upper-case, and every
/// other character unchanged.
pub proof fn lemma_normalized_code_deletes_and_upcases(input: Seq<char>, strip_hyphen: bool)
    ensures
        normalized_code(input, false, strip_hyphen) == input.filter(
            |c: char| !is_white_space(c) && !(strip_hyphen && c == '-'),
        ),
        normalized_code(input, true, strip_hyphen).len() == normalized_code(input, false, strip_hyphen).len(),
        forall|i: int|
            0 <= i < normalized_code(input, false, strip_hyphen).len() ==> {
                let c = #[trigger] normalized_code(input, false, strip_hyphen)[i];
                let u = normalized_code(input, true, strip_hyphen)[i];
                &&& 'a' <= c <= 'z' ==> u as u32 == c as u32 - 32
                &&& !('a' <= c <= 'z') ==> u == c
            },
    decreases input.len(),
{
    reveal(Seq::filter);
    if input.len() > 0 {
        lemma_normalized_code_deletes_and_upcases(input.drop_last(), strip_hyphen);
        let c = input.last();
        lemma_ascii_upper_char(c);
        if 'a' <= c && c <= 'z' {
            let n = c as u32;
            assert(ascii_upper(c) as u32 == n - 32);
        }
        let lo = normalized_code(input, false, strip_hyphen);
        let up = normalized_code(input, true, strip_hyphen);
        let lo0 = normalized_code(input.drop_last(), false, strip_hyphen);
        let up0 = normalized_code(input.drop_last(), true, strip_hyphen);
        assert forall|i: int| 0 <= i < lo.len() implies {
            let c = #[trigger] lo[i];
            let u = up[i];
            &&& 'a' <= c <= 'z' ==> u as u32 == c as u32 - 32
            &&& !('a' <= c <= 'z') ==> u == c
        } by {
            if i < lo0.len() {
                assert(lo[i] == lo0[i]);
                assert(up[i] == up0[i]);
            }
        }
    }
}

/// Normalisation distributes over concatenation.
proof fn lemma_normalized_code_append(a: Seq<char>, b: Seq<char>, uppercase: bool, strip_hyphen: bool)
    ensures
        normalized_code(a + b, uppercase, strip_hyphen) == normalized_code(a, uppercase, strip_hyphen)
            + normalized_code(b, uppercase, strip_hyphen),
    decreases b.len(),
{
    if b.len() == 0 {
        assert(a + b =~= a);
        assert(normalized_code(a, uppercase, strip_hyphen) + normalized_code(b, uppercase, strip_hyphen)
            =~= normalized_code(a, uppercase, strip_hyphen));
    } else {
        assert((a + b).drop_last() =~= a + b.drop_last());
        assert((a + b).last() == b.last());
        lemma_normalized_code_append(a, b.drop_last(), uppercase, strip_hyphen);
        let na = normalized_code(a, uppercase, strip_hyphen);
        let nb = normalized_code(b.drop_last(), uppercase, strip_hyphen);
        let c = b.last();
        if kept_in_code(c, strip_hyphen) {
            let d = if uppercase { ascii_upper(c) } else { c };
            assert((na + nb).push(d) =~= na + nb.push(d));
        }
    }
}

/// Normalising a normalised code changes nothing.
pub proof fn lemma_normalize_idempotent(input: Seq<char>, uppercase: bool, strip_hyphen: bool)
    ensures
        normalized_code(normalized_code(input, uppercase, strip_hyphen), uppercase, strip_hyphen)
            == normalized_code(input, uppercase, strip_hyphen),
    decreases input.len(),
{
    if input.len() > 0 {
        let rest = normalized_code(input.drop_last(), uppercase, strip_hyphen);
        lemma_normalize_idempotent(input.drop_last(), uppercase, strip_hyphen);
        let c = input.last();
        if kept_in_code(c, strip_hyphen) {
            let d = if uppercase { ascii_upper(c) } else { c };
            lemma_ascii_upper_char(c);
            lemma_ascii_upper_char(d);
            lemma_normalized_code_append(rest, seq![d], uppercase, strip_hyphen);
            assert(rest.push(d) =~= rest + seq![d]);
            assert(seq![d].drop_last() =~= Seq::<char>::empty());
            assert(kept_in_code(d, strip_hyphen)) by {
                if uppercase && 'a' <= c && c <= 'z' {
                    assert('A' <= d <= 'Z');
                    assert(!is_white_space(d));
                }
            }
            assert(uppercase ==> !('a' <= d <= 'z'));
            assert(uppercase ==> ascii_upper(d) == d);
            assert(seq![d].last() == d);
            assert(normalized_code(Seq::<char>::empty(), uppercase, strip_hyphen) =~= Seq::<char>::empty());
            assert(normalized_code(seq![d].drop_last(), uppercase, strip_hyphen) =~= Seq::<char>::empty());
            assert(normalized_code(seq![d], uppercase, strip_hyphen) =~= seq![d]);
        }
    }
}

/// Why a tickets operation is refused.
#[derive(Debug, PartialEq, Eq)]
pub enum TicketsError {
    /// The tickets file already exists and overwriting was not asked for.
    StoreExists,
    /// The CSV has no column of this name.
    MissingCodeColumn(String),
    /// The CSV header line could not be read; the text says why.
    CsvHeader(String),
    /// A CSV record could not be read; the text says why.
    CsvRecord(String),
}

/// A new, empty store written at `now`, unless a tickets file already exists
/// (`exists`) and `force` is not set.
pub fn init_store(exists: bool, force: bool, now: Timestamp) -> (res: Result<TicketStore, TicketsError>)
    ensures
        res is Err <==> exists && !force,
        res is Err ==> res == Err::<TicketStore, TicketsError>(TicketsError::StoreExists),
        res matches Ok(store) ==> store.updated_at == now && store.tickets@.len() == 0,
{
    if exists && !force {
        return Err(TicketsError::StoreExists);
    }
    Ok(TicketStore::empty(now))
}

/// Totals of a tickets file.
#[derive(Debug)]
pub struct ListSummary {
    pub path: PathBuf,
    pub updated_at: Timestamp,
    pub total: usize,
    pub unclaimed: usize,
    pub claimed: usize,
    pub reissued: usize,
}

/// The number of tickets in `tickets` whose status is `status`.
pub open spec fn count_status(tickets: Seq<TicketRecord>, status: TicketStatus) -> nat
    decreases tickets.len(),
{
    if tickets.len() == 0 {
        0
    } else {
        count_status(tickets.drop_last(), status) + if tickets.last().status == status {
            1nat
        } else {
            0nat
        }
    }
}

/// Every ticket has exactly one status: the three counts add up to the number
/// of tickets.
pub proof fn lemma_status_counts_add_up(tickets: Seq<TicketRecord>)
    ensures
        count_status(tickets, TicketStatus::Unclaimed) + count_status(tickets, TicketStatus::Claimed)
            + count_status(tickets, TicketStatus::Reissued) == tickets.len(),
    decreases tickets.len(),
{
    if tickets.len() > 0 {
        lemma_status_counts_add_up(tickets.drop_last());
    }
}

/// Count the tickets of `store`, read from `path`, by status.
pub fn list_summary(path: PathBuf, store: &TicketStore) -> (res: ListSummary)
    ensures
        res.path == path,
        res.updated_at == store.updated_at,
        res.total == store.tickets@.len(),
        res.claimed == count_status(store.tickets@, TicketStatus::Claimed),
        res.reissued == count_status(store.tickets@, TicketStatus::Reissued),
        res.unclaimed == count_status(store.tickets@, TicketStatus::Unclaimed),
{
    let mut claimed: usize = 0;
    let mut reissued: usize = 0;
    let mut i: usize = 0;
    let n = store.tickets.len();
    while i < n
        invariant
            n == store.tickets@.len(),
            i <= n,
            claimed == count_status(store.tickets@.take(i as int), TicketStatus::Claimed),
            reissued == count_status(store.tickets@.take(i as int), TicketStatus::Reissued),
            claimed + reissued + count_status(store.tickets@.take(i as int), TicketStatus::Unclaimed)
                == i,
        decreases n - i,
    {
        assert(store.tickets@.take(i + 1).drop_last() =~= store.tickets@.take(i as int));
        match store.tickets[i].status {
            TicketStatus::Unclaimed => {},
            TicketStatus::Claimed => claimed = claimed + 1,
            TicketStatus::Reissued => reissued = reissued + 1,
        }
        i = i + 1;
    }
    assert(store.tickets@.take(n as int) =~= store.tickets@);
    let unclaimed = n - (claimed + reissued);
    ListSummary {
        path,
        updated_at: store.updated_at,
        total: n,
        unclaimed,
        claimed,
        reissued,
    }
}

} // verus!
