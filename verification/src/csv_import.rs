//! Merging rows of a ticket export (a CSV file read elsewhere) into the store.

use std::path::PathBuf;
use vstd::prelude::*;

use crate::metadata::TicketMetadata;
use crate::text::{
    chars_eq_ignore_ascii_case, chars_of, eq_ignoring_ascii_case, is_white_space, lemma_trimmed_shape, trim, trimmed,
};
use crate::ticket_order::{
    all_tickets, hashes_distinct, lemma_sort_keeps_all, lemma_sort_keeps_hashes_distinct, sort_tickets_by_code,
    sorted_by_code,
};
use crate::tickets::{
    derive_ticket_hash, fresh_ticket, normalize_ticket_code, normalized_code, ticket_hash_of,
    tickets_view, TicketRecord, TicketStore, TicketView, TicketsError,
};

verus! {

/// Where to read and write, and how to read ticket codes.
pub struct ImportOptions {
    pub csv_path: PathBuf,
    pub store_path: PathBuf,
    pub code_column: String,
    pub delimiter: Option<char>,
    pub uppercase: bool,
    pub strip_hyphen: bool,
    pub metadata_columns: Vec<String>,
}

/// What an import did.
#[derive(Debug, PartialEq, Eq)]
pub struct ImportReport {
    pub inserted: usize,
    pub updated: usize,
    pub skipped: usize,
    pub total_after: usize,
}

/// A header names the column `name`: equal up to ASCII case once trimmed.
pub open spec fn header_matches(header: Seq<char>, name: Seq<char>) -> bool {
    eq_ignoring_ascii_case(trimmed(header), name)
}

/// The first index from `start` on whose header names the column `name`.
pub open spec fn column_from(headers: Seq<Seq<char>>, name: Seq<char>, start: int) -> Option<int>
    decreases headers.len() - start,
{
    if start < 0 || start >= headers.len() {
        None
    } else if header_matches(headers[start], name) {
        Some(start)
    } else {
        column_from(headers, name, start + 1)
    }
}

/// The index of the first header that names the column `name`.
pub open spec fn column_index(headers: Seq<Seq<char>>, name: Seq<char>) -> Option<int> {
    column_from(headers, name, 0)
}

/// The index of the first header that names the column `name`.
pub fn find_column(headers: &Vec<String>, name: &String) -> (res: Option<usize>)
    ensures
        match res {
            Some(i) => column_index(strings_view(headers@), name@) == Some(i as int),
            None => column_index(strings_view(headers@), name@) is None,
        },
{
    let name_chars = chars_of(name.as_str());
    let mut i: usize = 0;
    while i < headers.len()
        invariant
            i <= headers.len(),
            name_chars@ == name@,
            column_index(strings_view(headers@), name@) == column_from(strings_view(headers@), name@, i as int),
        decreases headers.len() - i,
    {
        let header = trim(headers[i].as_str());
        let header_chars = chars_of(header.as_str());
        if chars_eq_ignore_ascii_case(&header_chars, &name_chars) {
            return Some(i);
        }
        i = i + 1;
    }
    None
}

/// The metadata columns found among the headers, each with the index of its
/// first matching header, in the order they were asked for.
pub open spec fn found_columns(headers: Seq<Seq<char>>, columns: Seq<Seq<char>>) -> Seq<(Seq<char>, int)>
    decreases columns.len(),
{
    if columns.len() == 0 {
        Seq::empty()
    } else {
        let found = found_columns(headers, columns.drop_last());
        match column_index(headers, columns.last()) {
            Some(i) => found.push((columns.last(), i)),
            None => found,
        }
    }
}

/// The metadata columns that no header names, in the order they were asked for.
pub open spec fn unmatched_columns(headers: Seq<Seq<char>>, columns: Seq<Seq<char>>) -> Seq<Seq<char>>
    decreases columns.len(),
{
    if columns.len() == 0 {
        Seq::empty()
    } else {
        let missing = unmatched_columns(headers, columns.drop_last());
        match column_index(headers, columns.last()) {
            Some(_) => missing,
            None => missing.push(columns.last()),
        }
    }
}

/// The names and indices held by a list of found columns.
pub open spec fn found_view(found: Seq<(String, usize)>) -> Seq<(Seq<char>, int)> {
    found.map_values(|p: (String, usize)| (p.0@, p.1 as int))
}

/// The names held by a list of strings.
pub open spec fn strings_view(strings: Seq<String>) -> Seq<Seq<char>> {
    strings.map_values(|s: String| s@)
}

/// The cells held by a list of rows.
pub open spec fn rows_view(rows: Seq<Vec<String>>) -> Seq<Seq<Seq<char>>> {
    rows.map_values(|r: Vec<String>| strings_view(r@))
}

/// Match the metadata columns against the headers: the columns found, with the
/// index of each, and the columns that are missing (to warn about).
pub fn match_metadata_columns(headers: &Vec<String>, columns: &Vec<String>) -> (res: (
    Vec<(String, usize)>,
    Vec<String>,
))
    ensures
        found_view(res.0@) == found_columns(strings_view(headers@), strings_view(columns@)),
        strings_view(res.1@) == unmatched_columns(strings_view(headers@), strings_view(columns@)),
{
    let mut found: Vec<(String, usize)> = Vec::new();
    let mut missing: Vec<String> = Vec::new();
    let mut i: usize = 0;
    while i < columns.len()
        invariant
            i <= columns.len(),
            found_view(found@) == found_columns(strings_view(headers@), strings_view(columns@).take(i as int)),
            strings_view(missing@) == unmatched_columns(strings_view(headers@), strings_view(columns@).take(i as int)),
        decreases columns.len() - i,
    {
        assert(strings_view(columns@).take(i + 1).drop_last() =~= strings_view(columns@).take(i as int));
        assert(strings_view(columns@).take(i + 1).last() == columns@[i as int]@);
        match find_column(headers, &columns[i]) {
            Some(idx) => {
                found.push((columns[i].clone(), idx));
                assert(found_view(found@) =~= found_columns(strings_view(headers@), strings_view(columns@).take(i as int)).push(
                    (columns@[i as int]@, idx as int),
                ));
            },
            None => {
                missing.push(columns[i].clone());
                assert(strings_view(missing@) =~= unmatched_columns(
                    strings_view(headers@),
                    strings_view(columns@).take(i as int),
                ).push(columns@[i as int]@));
            },
        }
        i = i + 1;
    }
    assert(strings_view(columns@).take(columns.len() as int) =~= strings_view(columns@));
    (found, missing)
}

/// The cell of `row` at `idx`, or nothing when the row is shorter.
pub open spec fn cell(row: Seq<Seq<char>>, idx: int) -> Seq<char> {
    if 0 <= idx < row.len() {
        row[idx]
    } else {
        Seq::empty()
    }
}

/// The metadata a row carries: for each found column, its trimmed cell when that
/// is not empty; a later column of the same name wins.
pub open spec fn row_metadata(row: Seq<Seq<char>>, found: Seq<(Seq<char>, int)>) -> Map<
    Seq<char>,
    Seq<char>,
>
    decreases found.len(),
{
    if found.len() == 0 {
        Map::empty()
    } else {
        let m = row_metadata(row, found.drop_last());
        let (name, idx) = found.last();
        let value = trimmed(cell(row, idx));
        if 0 <= idx < row.len() && value.len() > 0 {
            m.insert(name, value)
        } else {
            m
        }
    }
}

/// Every metadata value a row gives is a trimmed cell: not empty, with no white
/// space at either end, and equal to the trimmed text of that row's cell in some
/// found column of that name.
pub proof fn lemma_row_metadata_values_are_trimmed(row: Seq<Seq<char>>, found: Seq<(Seq<char>, int)>)
    ensures
        forall|key: Seq<char>|
            #[trigger] row_metadata(row, found).dom().contains(key) ==> {
                let v = row_metadata(row, found)[key];
                &&& v.len() > 0
                &&& !is_white_space(v[0])
                &&& !is_white_space(v.last())
                &&& exists|i: int|
                    0 <= i < found.len() && (#[trigger] found[i]).0 == key && 0 <= found[i].1 < row.len()
                        && v == trimmed(row[found[i].1])
            },
    decreases found.len(),
{
    if found.len() > 0 {
        let prev = found.drop_last();
        lemma_row_metadata_values_are_trimmed(row, prev);
        let (name, idx) = found.last();
        lemma_trimmed_shape(cell(row, idx));
        assert forall|key: Seq<char>|
            #[trigger] row_metadata(row, found).dom().contains(key) implies {
                let v = row_metadata(row, found)[key];
                &&& v.len() > 0
                &&& !is_white_space(v[0])
                &&& !is_white_space(v.last())
                &&& exists|i: int|
                    0 <= i < found.len() && (#[trigger] found[i]).0 == key && 0 <= found[i].1 < row.len()
                        && v == trimmed(row[found[i].1])
            } by {
            let value = trimmed(cell(row, idx));
            if 0 <= idx < row.len() && value.len() > 0 && key == name {
                assert(found[found.len() - 1] == (name, idx));
            } else {
                assert(row_metadata(row, prev).dom().contains(key));
                let i = choose|i: int|
                    0 <= i < prev.len() && (#[trigger] prev[i]).0 == key && 0 <= prev[i].1 < row.len()
                        && row_metadata(row, prev)[key] == trimmed(row[prev[i].1]);
                assert(found[i] == prev[i]);
            }
        }
    }
}

/// The metadata a row carries under the found columns.
fn collect_row_metadata(row: &Vec<String>, found: &Vec<(String, usize)>) -> (res: TicketMetadata)
    ensures
        res@ == row_metadata(strings_view(row@), found_view(found@)),
{
    let mut meta = TicketMetadata::new();
    let mut k: usize = 0;
    while k < found.len()
        invariant
            k <= found.len(),
            meta@ == row_metadata(strings_view(row@), found_view(found@).take(k as int)),
        decreases found.len() - k,
    {
        assert(found_view(found@).take(k + 1).drop_last() =~= found_view(found@).take(k as int));
        assert(found_view(found@).take(k + 1).last() == (found@[k as int].0@, found@[k as int].1 as int));
        let idx = found[k].1;
        if idx < row.len() {
            let value = trim(row[idx].as_str());
            if !value.as_str().is_empty() {
                meta.insert(found[k].0.clone(), value);
            }
        }
        k = k + 1;
    }
    assert(found_view(found@).take(found.len() as int) =~= found_view(found@));
    meta
}

/// The first ticket from `start` on with hash `hash`.
pub open spec fn hash_from(tickets: Seq<TicketView>, hash: Seq<char>, start: int) -> Option<int>
    decreases tickets.len() - start,
{
    if start < 0 || start >= tickets.len() {
        None
    } else if tickets[start].ticket_hash == hash {
        Some(start)
    } else {
        hash_from(tickets, hash, start + 1)
    }
}

/// The first ticket with hash `hash`.
pub open spec fn ticket_with_hash(tickets: Seq<TicketView>, hash: Seq<char>) -> Option<int> {
    hash_from(tickets, hash, 0)
}

/// The index of the first ticket with hash `hash`.
fn find_ticket_by_hash(tickets: &Vec<TicketRecord>, hash: &String) -> (res: Option<usize>)
    ensures
        match res {
            Some(i) => i < tickets@.len() && ticket_with_hash(tickets_view(tickets@), hash@) == Some(
                i as int,
            ),
            None => ticket_with_hash(tickets_view(tickets@), hash@) is None,
        },
{
    let mut i: usize = 0;
    while i < tickets.len()
        invariant
            i <= tickets.len(),
            ticket_with_hash(tickets_view(tickets@), hash@) == hash_from(
                tickets_view(tickets@),
                hash@,
                i as int,
            ),
        decreases tickets.len() - i,
    {
        if tickets[i].ticket_hash == *hash {
            return Some(i);
        }
        i = i + 1;
    }
    None
}

/// The tickets and counters while rows are merged.
pub struct ImportTally {
    pub tickets: Seq<TicketView>,
    pub inserted: nat,
    pub updated: nat,
    pub skipped: nat,
}

/// A known ticket that a row names again: it keeps its display code unless that
/// is empty, and the row's metadata is merged over its own.
pub open spec fn merged_ticket(t: TicketView, raw: Seq<char>, meta: Map<Seq<char>, Seq<char>>) -> TicketView {
    TicketView {
        display_code: if t.display_code.len() == 0 {
            raw
        } else {
            t.display_code
        },
        metadata: t.metadata.union_prefer_right(meta),
        ..t
    }
}

/// The effect of one row.  A row whose code cell is blank, or whose code is
/// empty once normalised, is skipped.  Otherwise the ticket with the code's hash
/// is updated, or a new unclaimed ticket is appended.
pub open spec fn import_row(
    tally: ImportTally,
    row: Seq<Seq<char>>,
    code_idx: int,
    found: Seq<(Seq<char>, int)>,
    uppercase: bool,
    strip_hyphen: bool,
) -> ImportTally {
    let raw = trimmed(cell(row, code_idx));
    let code = normalized_code(raw, uppercase, strip_hyphen);
    if raw.len() == 0 || code.len() == 0 {
        ImportTally { skipped: tally.skipped + 1, ..tally }
    } else {
        let meta = row_metadata(row, found);
        match ticket_with_hash(tally.tickets, ticket_hash_of(code)) {
            Some(j) => ImportTally {
                tickets: tally.tickets.update(j, merged_ticket(tally.tickets[j], raw, meta)),
                updated: tally.updated + 1,
                ..tally
            },
            None => ImportTally {
                tickets: tally.tickets.push(fresh_ticket(code, raw, meta)),
                inserted: tally.inserted + 1,
                ..tally
            },
        }
    }
}

/// The effect of the rows, in order.
pub open spec fn import_rows(
    tally: ImportTally,
    rows: Seq<Seq<Seq<char>>>,
    code_idx: int,
    found: Seq<(Seq<char>, int)>,
    uppercase: bool,
    strip_hyphen: bool,
) -> ImportTally
    decreases rows.len(),
{
    if rows.len() == 0 {
        tally
    } else {
        import_row(
            import_rows(tally, rows.drop_last(), code_idx, found, uppercase, strip_hyphen),
            rows.last(),
            code_idx,
            found,
            uppercase,
            strip_hyphen,
        )
    }
}

/// The tally before any row is merged into `tickets`.
pub open spec fn start_tally(tickets: Seq<TicketView>) -> ImportTally {
    ImportTally { tickets, inserted: 0, updated: 0, skipped: 0 }
}

/// Each ticket of `before` is still in `after`, at the same place, with its
/// code, hash, status, claim time and bundle unchanged.
pub open spec fn keeps_claims(before: Seq<TicketView>, after: Seq<TicketView>) -> bool {
    &&& before.len() <= after.len()
    &&& forall|j: int|
        0 <= j < before.len() ==> {
            let a = #[trigger] after[j];
            let b = before[j];
            &&& a.ticket_code == b.ticket_code
            &&& a.ticket_hash == b.ticket_hash
            &&& a.status == b.status
            &&& a.claimed_at == b.claimed_at
            &&& a.token_bundles == b.token_bundles
        }
}

/// A ticket is stored under the hash of its code.
pub open spec fn hashed_by_code(t: TicketView) -> bool {
    t.ticket_hash == ticket_hash_of(t.ticket_code)
}

/// A hash that the search from `start` does not find occurs nowhere from there.
pub(crate) proof fn lemma_hash_from_none(tickets: Seq<TicketView>, hash: Seq<char>, start: int)
    requires
        0 <= start,
        hash_from(tickets, hash, start) is None,
    ensures
        forall|k: int| start <= k < tickets.len() ==> (#[trigger] tickets[k]).ticket_hash != hash,
    decreases tickets.len() - start,
{
    if start < tickets.len() {
        lemma_hash_from_none(tickets, hash, start + 1);
    }
}

/// A search from `start` finds a ticket at or after `start`.
pub(crate) proof fn lemma_hash_from_some(tickets: Seq<TicketView>, hash: Seq<char>, start: int)
    requires
        0 <= start,
        hash_from(tickets, hash, start) is Some,
    ensures
        start <= hash_from(tickets, hash, start)->Some_0 < tickets.len(),
        tickets[hash_from(tickets, hash, start)->Some_0].ticket_hash == hash,
    decreases tickets.len() - start,
{
    if start < tickets.len() && tickets[start].ticket_hash != hash {
        lemma_hash_from_some(tickets, hash, start + 1);
    }
}

/// One row: the counters grow by one between them, a ticket is appended only
/// when a row inserts, known tickets keep their claims, and hashes stay distinct.
proof fn lemma_import_row_facts(
    tally: ImportTally,
    row: Seq<Seq<char>>,
    code_idx: int,
    found: Seq<(Seq<char>, int)>,
    uppercase: bool,
    strip_hyphen: bool,
)
    ensures
        ({
            let after = import_row(tally, row, code_idx, found, uppercase, strip_hyphen);
            &&& after.inserted + after.updated + after.skipped == tally.inserted + tally.updated
                + tally.skipped + 1
            &&& after.inserted >= tally.inserted
            &&& after.tickets.len() == tally.tickets.len() + (after.inserted - tally.inserted)
            &&& keeps_claims(tally.tickets, after.tickets)
            &&& hashes_distinct(tally.tickets) ==> hashes_distinct(after.tickets)
            &&& all_tickets(tally.tickets, |t: TicketView| hashed_by_code(t)) ==> all_tickets(
                after.tickets,
                |t: TicketView| hashed_by_code(t),
            )
        }),
{
    let raw = trimmed(cell(row, code_idx));
    let code = normalized_code(raw, uppercase, strip_hyphen);
    let after = import_row(tally, row, code_idx, found, uppercase, strip_hyphen);
    if raw.len() == 0 || code.len() == 0 {
    } else {
        let h = ticket_hash_of(code);
        match ticket_with_hash(tally.tickets, h) {
            Some(j) => {
                lemma_hash_from_some(tally.tickets, h, 0);
            },
            None => {
                lemma_hash_from_none(tally.tickets, h, 0);
                let t = after.tickets;
                assert(t.len() == tally.tickets.len() + 1);
                assert forall|k: int| 0 <= k < tally.tickets.len() implies #[trigger] t[k] == tally.tickets[k] by {}
                if hashes_distinct(tally.tickets) {
                    assert forall|i: int, j: int|
                        0 <= i < t.len() && 0 <= j < t.len() && i != j implies (#[trigger] t[i]).ticket_hash
                        != (#[trigger] t[j]).ticket_hash by {
                        if i < tally.tickets.len() {
                            assert(t[i] == tally.tickets[i]);
                        }
                        if j < tally.tickets.len() {
                            assert(t[j] == tally.tickets[j]);
                        }
                    }
                }
            },
        }
    }
}

/// The rows: every row is counted once as inserted, updated or skipped; the
/// store grows by the inserted tickets only; known tickets keep their claims;
/// and hashes stay distinct.
pub(crate) proof fn lemma_import_rows_facts(
    tally: ImportTally,
    rows: Seq<Seq<Seq<char>>>,
    code_idx: int,
    found: Seq<(Seq<char>, int)>,
    uppercase: bool,
    strip_hyphen: bool,
)
    ensures
        ({
            let after = import_rows(tally, rows, code_idx, found, uppercase, strip_hyphen);
            &&& after.inserted + after.updated + after.skipped == tally.inserted + tally.updated
                + tally.skipped + rows.len()
            &&& after.inserted >= tally.inserted
            &&& after.tickets.len() == tally.tickets.len() + (after.inserted - tally.inserted)
            &&& keeps_claims(tally.tickets, after.tickets)
            &&& hashes_distinct(tally.tickets) ==> hashes_distinct(after.tickets)
            &&& all_tickets(tally.tickets, |t: TicketView| hashed_by_code(t)) ==> all_tickets(
                after.tickets,
                |t: TicketView| hashed_by_code(t),
            )
        }),
    decreases rows.len(),
{
    if rows.len() > 0 {
        lemma_import_rows_facts(tally, rows.drop_last(), code_idx, found, uppercase, strip_hyphen);
        let mid = import_rows(tally, rows.drop_last(), code_idx, found, uppercase, strip_hyphen);
        lemma_import_row_facts(mid, rows.last(), code_idx, found, uppercase, strip_hyphen);
        let after = import_rows(tally, rows, code_idx, found, uppercase, strip_hyphen);
        assert(keeps_claims(tally.tickets, after.tickets)) by {
            assert forall|j: int| 0 <= j < tally.tickets.len() implies {
                let a = #[trigger] after.tickets[j];
                let b = tally.tickets[j];
                &&& a.ticket_code == b.ticket_code
                &&& a.ticket_hash == b.ticket_hash
                &&& a.status == b.status
                &&& a.claimed_at == b.claimed_at
                &&& a.token_bundles == b.token_bundles
            } by {
                assert(mid.tickets[j].ticket_code == tally.tickets[j].ticket_code);
            }
        }
    } else {
        assert(keeps_claims(tally.tickets, tally.tickets));
    }
}

/// What an import promises of the store: every row is counted once as
/// inserted, updated or skipped; the store grows by exactly the inserted
/// tickets; a ticket already in the store keeps its code, hash, status, claim
/// time and bundle (an import never touches a claim); when no two tickets
/// shared a hash before, none do after the import and sort, so a code is never
/// stored twice; and when every ticket was stored under the hash of its code,
/// every ticket still is.
pub proof fn lemma_import_preserves_store(
    tickets: Seq<TicketView>,
    rows: Seq<Seq<Seq<char>>>,
    code_idx: int,
    found: Seq<(Seq<char>, int)>,
    uppercase: bool,
    strip_hyphen: bool,
)
    ensures
        ({
            let tally = import_rows(start_tally(tickets), rows, code_idx, found, uppercase, strip_hyphen);
            &&& tally.inserted + tally.updated + tally.skipped == rows.len()
            &&& tally.tickets.len() == tickets.len() + tally.inserted
            &&& keeps_claims(tickets, tally.tickets)
            &&& hashes_distinct(tickets) ==> hashes_distinct(sorted_by_code(tally.tickets))
            &&& all_tickets(tickets, |t: TicketView| hashed_by_code(t)) ==> all_tickets(
                sorted_by_code(tally.tickets),
                |t: TicketView| hashed_by_code(t),
            )
        }),
{
    lemma_import_rows_facts(start_tally(tickets), rows, code_idx, found, uppercase, strip_hyphen);
    let tally = import_rows(start_tally(tickets), rows, code_idx, found, uppercase, strip_hyphen);
    if hashes_distinct(tickets) {
        lemma_sort_keeps_hashes_distinct(tally.tickets);
    }
    if all_tickets(tickets, |t: TicketView| hashed_by_code(t)) {
        lemma_sort_keeps_all(tally.tickets, |t: TicketView| hashed_by_code(t));
    }
}

/// What one row did to the store.
#[derive(PartialEq, Eq, Structural)]
enum RowOutcome {
    Inserted,
    Updated,
    Skipped,
}

/// Merge one row into the store.
fn import_one_row(
    store: &mut TicketStore,
    row: &Vec<String>,
    code_idx: usize,
    found: &Vec<(String, usize)>,
    uppercase: bool,
    strip_hyphen: bool,
) -> (outcome: RowOutcome)
    ensures
        final(store).updated_at == old(store).updated_at,
        ({
            let before = start_tally(tickets_view(old(store).tickets@));
            let after = import_row(before, strings_view(row@), code_idx as int, found_view(found@), uppercase, strip_hyphen);
            &&& tickets_view(final(store).tickets@) == after.tickets
            &&& outcome == RowOutcome::Inserted ==> after.inserted == 1 && after.updated == 0
                && after.skipped == 0
            &&& outcome == RowOutcome::Updated ==> after.inserted == 0 && after.updated == 1
                && after.skipped == 0
            &&& outcome == RowOutcome::Skipped ==> after.inserted == 0 && after.updated == 0
                && after.skipped == 1
        }),
{
    let raw = if code_idx < row.len() {
        trim(row[code_idx].as_str())
    } else {
        String::new()
    };
    proof {
        assert(raw@ == trimmed(cell(strings_view(row@), code_idx as int))) by {
            if code_idx >= row.len() {
                assert(trimmed(Seq::<char>::empty()) =~= Seq::<char>::empty());
            }
        }
    }
    if raw.as_str().is_empty() {
        return RowOutcome::Skipped;
    }
    let code = normalize_ticket_code(raw.as_str(), uppercase, strip_hyphen);
    if code.as_str().is_empty() {
        return RowOutcome::Skipped;
    }
    let hash = derive_ticket_hash(code.as_str());
    let meta = collect_row_metadata(row, found);
    match find_ticket_by_hash(&store.tickets, &hash) {
        Some(j) => {
            let ghost before = store.tickets@;
            let mut ticket = store.tickets.remove(j);
            if ticket.display_code.as_str().is_empty() {
                ticket.display_code = raw.clone();
            }
            ticket.metadata.merge(&meta);
            store.tickets.insert(j, ticket);
            proof {
                assert(store.tickets@ =~= before.update(j as int, ticket));
                assert(tickets_view(store.tickets@) =~= tickets_view(before).update(
                    j as int,
                    merged_ticket(tickets_view(before)[j as int], raw@, meta@),
                ));
            }
            RowOutcome::Updated
        },
        None => {
            let mut ticket = TicketRecord::new(code, raw);
            ticket.metadata = meta;
            let ghost before = store.tickets@;
            store.tickets.push(ticket);
            proof {
                assert(tickets_view(store.tickets@) =~= tickets_view(before).push(ticket@));
            }
            RowOutcome::Inserted
        },
    }
}

/// Merge the rows of a ticket export into `store`.  `headers` are the export's
/// column names and `rows` its records, each a list of cells (a row may be
/// shorter than the header line).  The code column is the first header equal to
/// `opts.code_column` up to ASCII case once trimmed; without it nothing changes
/// and the import fails.  Each row is then merged as `import_row` says, and the
/// tickets end up stably sorted by code.
pub fn import_records(
    store: &mut TicketStore,
    headers: &Vec<String>,
    rows: &Vec<Vec<String>>,
    opts: &ImportOptions,
) -> (res: Result<ImportReport, TicketsError>)
    ensures
        match column_index(strings_view(headers@), opts.code_column@) {
            None => {
                &&& res matches Err(TicketsError::MissingCodeColumn(name))
                &&& name@ == opts.code_column@
                &&& *final(store) == *old(store)
            },
            Some(code_idx) => {
                let tally = import_rows(
                    start_tally(tickets_view(old(store).tickets@)),
                    rows_view(rows@),
                    code_idx,
                    found_columns(strings_view(headers@), strings_view(opts.metadata_columns@)),
                    opts.uppercase,
                    opts.strip_hyphen,
                );
                &&& res matches Ok(report)
                &&& report.inserted == tally.inserted
                &&& report.updated == tally.updated
                &&& report.skipped == tally.skipped
                &&& report.total_after == final(store).tickets@.len()
                &&& tickets_view(final(store).tickets@) == sorted_by_code(tally.tickets)
                &&& final(store).updated_at == old(store).updated_at
            },
        },
{
    let code_idx = match find_column(headers, &opts.code_column) {
        Some(idx) => idx,
        None => {
            return Err(TicketsError::MissingCodeColumn(opts.code_column.clone()));
        },
    };
    let (found, _missing) = match_metadata_columns(headers, &opts.metadata_columns);
    let ghost found_spec = found_view(found@);
    let ghost init = start_tally(tickets_view(old(store).tickets@));
    let mut inserted: usize = 0;
    let mut updated: usize = 0;
    let mut skipped: usize = 0;
    let mut r: usize = 0;
    while r < rows.len()
        invariant
            r <= rows.len(),
            found_view(found@) == found_spec,
            store.updated_at == old(store).updated_at,
            inserted + updated + skipped == r,
            ({
                let tally = import_rows(
                    init,
                    rows_view(rows@).take(r as int),
                    code_idx as int,
                    found_spec,
                    opts.uppercase,
                    opts.strip_hyphen,
                );
                &&& tickets_view(store.tickets@) == tally.tickets
                &&& inserted == tally.inserted
                &&& updated == tally.updated
                &&& skipped == tally.skipped
            }),
        decreases rows.len() - r,
    {
        assert(rows_view(rows@).take(r + 1).drop_last() =~= rows_view(rows@).take(r as int));
        assert(rows_view(rows@).take(r + 1).last() == strings_view(rows@[r as int]@));
        let outcome = import_one_row(
            store,
            &rows[r],
            code_idx,
            &found,
            opts.uppercase,
            opts.strip_hyphen,
        );
        match outcome {
            RowOutcome::Inserted => inserted = inserted + 1,
            RowOutcome::Updated => updated = updated + 1,
            RowOutcome::Skipped => skipped = skipped + 1,
        }
        r = r + 1;
    }
    assert(rows_view(rows@).take(rows.len() as int) =~= rows_view(rows@));
    let mut tickets: Vec<TicketRecord> = Vec::new();
    std::mem::swap(&mut tickets, &mut store.tickets);
    store.tickets = sort_tickets_by_code(tickets);
    let total_after = store.tickets.len();
    Ok(ImportReport { inserted, updated, skipped, total_after })
}

/// Name for the header record that the `csv` crate reads from `data` (flexible
/// records, a header line, the given delimiter byte), or `None` when it fails.
pub uninterp spec fn csv_header_record(data: Seq<u8>, delimiter: u8) -> Option<Seq<Seq<char>>>;

/// Name for the data records that the `csv` crate reads from `data` after the
/// header line (flexible records, the given delimiter byte), or `None` when any
/// of them fails.
pub uninterp spec fn csv_data_records(data: Seq<u8>, delimiter: u8) -> Option<Seq<Seq<Seq<char>>>>;

/// `csv::ReaderBuilder` (flexible, with headers, `delimiter`) over `data`, then
/// `Reader::headers`.  The contract names the header record; the error text is
/// `csv::Error`'s and nothing is claimed of it.
#[verifier::external_body]
fn read_csv_header(data: &[u8], delimiter: u8) -> (res: Result<Vec<String>, String>)
    ensures
        match res {
            Ok(h) => csv_header_record(data@, delimiter) == Some(strings_view(h@)),
            Err(_) => csv_header_record(data@, delimiter) is None,
        },
{
    let mut reader = csv::ReaderBuilder::new().flexible(true).has_headers(true).delimiter(
        delimiter,
    ).from_reader(data);
    match reader.headers() {
        Ok(record) => Ok(record.iter().map(|f| f.to_string()).collect()),
        Err(e) => Err(e.to_string()),
    }
}

/// `csv::ReaderBuilder` (flexible, with headers, `delimiter`) over `data`, then
/// every item of `Reader::records`.  The contract names the records; the error
/// text is that of the first `csv::Error` and nothing is claimed of it.
#[verifier::external_body]
fn read_csv_records(data: &[u8], delimiter: u8) -> (res: Result<Vec<Vec<String>>, String>)
    ensures
        match res {
            Ok(rows) => csv_data_records(data@, delimiter) == Some(rows_view(rows@)),
            Err(_) => csv_data_records(data@, delimiter) is None,
        },
{
    let mut reader = csv::ReaderBuilder::new().flexible(true).has_headers(true).delimiter(
        delimiter,
    ).from_reader(data);
    let mut rows: Vec<Vec<String>> = Vec::new();
    for record in reader.records() {
        match record {
            Ok(r) => rows.push(r.iter().map(|f| f.to_string()).collect()),
            Err(e) => return Err(e.to_string()),
        }
    }
    Ok(rows)
}

/// The delimiter byte: the given character (as its low byte), `,` by default.
pub open spec fn delimiter_byte(delimiter: Option<char>) -> u8 {
    match delimiter {
        Some(c) => ((c as u32) % 256) as u8,
        None => 44u8,
    }
}

/// The delimiter byte for the options.
pub fn csv_delimiter(delimiter: Option<char>) -> (res: u8)
    ensures
        res == delimiter_byte(delimiter),
{
    match delimiter {
        Some(c) => {
            let n: u32 = c as u32;
            (n % 256) as u8
        },
        None => 44u8,
    }
}

/// What an import of CSV text did, with the metadata columns it did not find.
#[derive(Debug)]
pub struct ImportOutcome {
    pub report: ImportReport,
    pub missing_columns: Vec<String>,
}

/// Import the CSV text `data` into `store`.  The header line is read first; a
/// header that cannot be read, or that has no code column, fails the import
/// before any record is read.  A record that cannot be read fails it too.  On
/// failure the store is unchanged; otherwise the records are merged as
/// `import_records` says, and the metadata columns that no header names are
/// returned.
pub fn import_csv_bytes(store: &mut TicketStore, data: &Vec<u8>, opts: &ImportOptions) -> (res: Result<
    ImportOutcome,
    TicketsError,
>)
    ensures
        ({
            let d = delimiter_byte(opts.delimiter);
            match csv_header_record(data@, d) {
                None => res matches Err(TicketsError::CsvHeader(_)) && *final(store) == *old(store),
                Some(headers) => match column_index(headers, opts.code_column@) {
                    None => {
                        &&& res matches Err(TicketsError::MissingCodeColumn(name))
                        &&& name@ == opts.code_column@
                        &&& *final(store) == *old(store)
                    },
                    Some(code_idx) => match csv_data_records(data@, d) {
                        None => res matches Err(TicketsError::CsvRecord(_)) && *final(store)
                            == *old(store),
                        Some(rows) => {
                            let tally = import_rows(
                                start_tally(tickets_view(old(store).tickets@)),
                                rows,
                                code_idx,
                                found_columns(headers, strings_view(opts.metadata_columns@)),
                                opts.uppercase,
                                opts.strip_hyphen,
                            );
                            &&& res matches Ok(outcome)
                            &&& outcome.report.inserted == tally.inserted
                            &&& outcome.report.updated == tally.updated
                            &&& outcome.report.skipped == tally.skipped
                            &&& outcome.report.total_after == final(store).tickets@.len()
                            &&& tickets_view(final(store).tickets@) == sorted_by_code(tally.tickets)
                            &&& final(store).updated_at == old(store).updated_at
                            &&& strings_view(outcome.missing_columns@) == unmatched_columns(
                                headers,
                                strings_view(opts.metadata_columns@),
                            )
                        },
                    },
                },
            }
        }),
{
    let delimiter = csv_delimiter(opts.delimiter);
    let headers = match read_csv_header(data.as_slice(), delimiter) {
        Ok(h) => h,
        Err(e) => {
            return Err(TicketsError::CsvHeader(e));
        },
    };
    if find_column(&headers, &opts.code_column).is_none() {
        return Err(TicketsError::MissingCodeColumn(opts.code_column.clone()));
    }
    let (_found, missing_columns) = match_metadata_columns(&headers, &opts.metadata_columns);
    let rows = match read_csv_records(data.as_slice(), delimiter) {
        Ok(rows) => rows,
        Err(e) => {
            return Err(TicketsError::CsvRecord(e));
        },
    };
    match import_records(store, &headers, &rows, opts) {
        Ok(report) => Ok(ImportOutcome { report, missing_columns }),
        Err(e) => Err(e),
    }
}

} // verus!
