//! Importing the same export twice: the second import changes nothing.

use vstd::prelude::*;

use crate::csv_import::{
    cell, import_row, import_rows, lemma_hash_from_none, lemma_hash_from_some,
    lemma_import_rows_facts, merged_ticket, row_metadata, start_tally, ticket_with_hash, ImportTally,
};
use crate::text::trimmed;
use crate::ticket_order::{
    all_tickets, hashes_distinct, lemma_sort_keeps_all, lemma_sort_keeps_hashes_distinct,
    lemma_sorted_by_code_is_sorted, lemma_sorted_by_code_permutes, sorted_by_code, sorted_codes,
    insert_by_code,
};
use crate::tickets::{normalized_code, ticket_hash_of, TicketView};

verus! {

/// How the rows of an export are read.
pub struct RowReading {
    pub code_idx: int,
    pub found: Seq<(Seq<char>, int)>,
    pub uppercase: bool,
    pub strip_hyphen: bool,
}

/// The hash of the ticket a row names, or `None` for a row that is skipped.
pub open spec fn row_key(row: Seq<Seq<char>>, rd: RowReading) -> Option<Seq<char>> {
    let raw = trimmed(cell(row, rd.code_idx));
    let code = normalized_code(raw, rd.uppercase, rd.strip_hyphen);
    if raw.len() == 0 || code.len() == 0 {
        None
    } else {
        Some(ticket_hash_of(code))
    }
}

/// The metadata that the rows naming hash `h` carry, later rows winning.
pub open spec fn keyed_metadata(rows: Seq<Seq<Seq<char>>>, h: Seq<char>, rd: RowReading) -> Map<
    Seq<char>,
    Seq<char>,
>
    decreases rows.len(),
{
    if rows.len() == 0 {
        Map::empty()
    } else if row_key(rows.last(), rd) == Some(h) {
        keyed_metadata(rows.drop_last(), h, rd).union_prefer_right(
            row_metadata(rows.last(), rd.found),
        )
    } else {
        keyed_metadata(rows.drop_last(), h, rd)
    }
}

/// Some row names hash `h`.
pub open spec fn names_hash(rows: Seq<Seq<Seq<char>>>, h: Seq<char>, rd: RowReading) -> bool
    decreases rows.len(),
{
    if rows.len() == 0 {
        false
    } else {
        names_hash(rows.drop_last(), h, rd) || row_key(rows.last(), rd) == Some(h)
    }
}

/// What one row does to ticket `t` when it names it.
pub open spec fn apply_row(t: TicketView, row: Seq<Seq<char>>, rd: RowReading) -> TicketView {
    if row_key(row, rd) == Some(t.ticket_hash) {
        merged_ticket(t, trimmed(cell(row, rd.code_idx)), row_metadata(row, rd.found))
    } else {
        t
    }
}

/// What the rows, in order, do to ticket `t`.
pub open spec fn apply_rows(t: TicketView, rows: Seq<Seq<Seq<char>>>, rd: RowReading) -> TicketView
    decreases rows.len(),
{
    if rows.len() == 0 {
        t
    } else {
        apply_row(apply_rows(t, rows.drop_last(), rd), rows.last(), rd)
    }
}

/// Ticket `t` already holds what the rows would give it: their metadata, and a
/// display code if any of them names it.
pub open spec fn absorbed(t: TicketView, rows: Seq<Seq<Seq<char>>>, rd: RowReading) -> bool {
    &&& t.metadata.union_prefer_right(keyed_metadata(rows, t.ticket_hash, rd)) == t.metadata
    &&& (t.display_code.len() > 0 || !names_hash(rows, t.ticket_hash, rd))
}

/// The number of rows that are skipped.
pub open spec fn skipped_rows(rows: Seq<Seq<Seq<char>>>, rd: RowReading) -> nat
    decreases rows.len(),
{
    if rows.len() == 0 {
        0
    } else {
        skipped_rows(rows.drop_last(), rd) + if row_key(rows.last(), rd) is None {
            1nat
        } else {
            0nat
        }
    }
}

/// Applying rows keeps everything but the display code and the metadata; the
/// metadata gains the rows' metadata; a display code that is set, or that no
/// row names, stays.
proof fn lemma_apply_rows_shape(t: TicketView, rows: Seq<Seq<Seq<char>>>, rd: RowReading)
    ensures
        ({
            let a = apply_rows(t, rows, rd);
            &&& a.ticket_code == t.ticket_code
            &&& a.ticket_hash == t.ticket_hash
            &&& a.status == t.status
            &&& a.claimed_at == t.claimed_at
            &&& a.token_bundles == t.token_bundles
            &&& a.metadata == t.metadata.union_prefer_right(keyed_metadata(rows, t.ticket_hash, rd))
            &&& (t.display_code.len() > 0 || !names_hash(rows, t.ticket_hash, rd)) ==> a.display_code
                == t.display_code
        }),
    decreases rows.len(),
{
    if rows.len() == 0 {
        assert(t.metadata.union_prefer_right(Map::empty()) =~= t.metadata);
    } else {
        lemma_apply_rows_shape(t, rows.drop_last(), rd);
        let mid = apply_rows(t, rows.drop_last(), rd);
        let k = keyed_metadata(rows.drop_last(), t.ticket_hash, rd);
        if row_key(rows.last(), rd) == Some(t.ticket_hash) {
            let m = row_metadata(rows.last(), rd.found);
            assert(t.metadata.union_prefer_right(k).union_prefer_right(m) =~= t.metadata.union_prefer_right(
                k.union_prefer_right(m),
            ));
        }
    }
}

/// An absorbed ticket is left as it is by the rows.
proof fn lemma_absorbed_fixed(t: TicketView, rows: Seq<Seq<Seq<char>>>, rd: RowReading)
    requires
        absorbed(t, rows, rd),
    ensures
        apply_rows(t, rows, rd) == t,
{
    lemma_apply_rows_shape(t, rows, rd);
    let a = apply_rows(t, rows, rd);
    assert(a.metadata =~= t.metadata);
    assert(a.display_code =~= t.display_code);
    assert(a.ticket_code =~= t.ticket_code);
    assert(a.ticket_hash =~= t.ticket_hash);
    assert(a.token_bundles =~= t.token_bundles);
}

/// The skipped counter counts exactly the rows that are skipped.
proof fn lemma_skipped_count(tally: ImportTally, rows: Seq<Seq<Seq<char>>>, rd: RowReading)
    ensures
        import_rows(tally, rows, rd.code_idx, rd.found, rd.uppercase, rd.strip_hyphen).skipped
            == tally.skipped + skipped_rows(rows, rd),
    decreases rows.len(),
{
    if rows.len() > 0 {
        lemma_skipped_count(tally, rows.drop_last(), rd);
    }
}

/// Every row that is not skipped names a ticket among `tickets`.
pub open spec fn rows_name_known(tickets: Seq<TicketView>, rows: Seq<Seq<Seq<char>>>, rd: RowReading) -> bool {
    forall|i: int|
        0 <= i < rows.len() ==> (#[trigger] row_key(rows[i], rd) matches Some(h) ==> exists|j: int|
            0 <= j < tickets.len() && tickets[j].ticket_hash == h)
}

/// When every row names a ticket that is already there, and no two tickets share
/// a hash, importing inserts nothing and applies the rows to each ticket in
/// place.
proof fn lemma_import_in_place(tally: ImportTally, rows: Seq<Seq<Seq<char>>>, rd: RowReading)
    requires
        hashes_distinct(tally.tickets),
        rows_name_known(tally.tickets, rows, rd),
    ensures
        ({
            let after = import_rows(tally, rows, rd.code_idx, rd.found, rd.uppercase, rd.strip_hyphen);
            &&& after.inserted == tally.inserted
            &&& after.tickets.len() == tally.tickets.len()
            &&& forall|j: int|
                0 <= j < tally.tickets.len() ==> #[trigger] after.tickets[j] == apply_rows(
                    tally.tickets[j],
                    rows,
                    rd,
                )
        }),
    decreases rows.len(),
{
    if rows.len() > 0 {
        let dl = rows.drop_last();
        assert(rows_name_known(tally.tickets, dl, rd)) by {
            assert forall|i: int| 0 <= i < dl.len() implies (#[trigger] row_key(dl[i], rd) matches Some(h)
                ==> exists|j: int| 0 <= j < tally.tickets.len() && tally.tickets[j].ticket_hash == h) by {
                assert(dl[i] == rows[i]);
            }
        }
        lemma_import_in_place(tally, dl, rd);
        let mid = import_rows(tally, dl, rd.code_idx, rd.found, rd.uppercase, rd.strip_hyphen);
        let r = rows.last();
        let after = import_rows(tally, rows, rd.code_idx, rd.found, rd.uppercase, rd.strip_hyphen);
        assert forall|j: int| 0 <= j < tally.tickets.len() implies #[trigger] mid.tickets[j].ticket_hash
            == tally.tickets[j].ticket_hash by {
            lemma_apply_rows_shape(tally.tickets[j], dl, rd);
        }
        match row_key(r, rd) {
            None => {
                assert forall|j: int| 0 <= j < tally.tickets.len() implies #[trigger] after.tickets[j]
                    == apply_rows(tally.tickets[j], rows, rd) by {}
            },
            Some(h) => {
                assert(row_key(rows[rows.len() - 1], rd) == Some(h));
                let j0 = choose|j: int| 0 <= j < tally.tickets.len() && tally.tickets[j].ticket_hash == h;
                assert(mid.tickets[j0].ticket_hash == h);
                if ticket_with_hash(mid.tickets, h) is None {
                    lemma_hash_from_none(mid.tickets, h, 0);
                    assert(false);
                }
                lemma_hash_from_some(mid.tickets, h, 0);
                let j1 = ticket_with_hash(mid.tickets, h)->Some_0;
                assert forall|j: int| 0 <= j < tally.tickets.len() implies #[trigger] after.tickets[j]
                    == apply_rows(tally.tickets[j], rows, rd) by {
                    if j != j1 {
                        assert(tally.tickets[j].ticket_hash != tally.tickets[j1].ticket_hash);
                    }
                }
            },
        }
    }
}

/// A row that names `h` is one of the rows.
proof fn lemma_names_hash_row(rows: Seq<Seq<Seq<char>>>, h: Seq<char>, rd: RowReading)
    ensures
        names_hash(rows, h, rd) ==> exists|i: int| 0 <= i < rows.len() && #[trigger] row_key(rows[i], rd) == Some(h),
        !names_hash(rows, h, rd) ==> keyed_metadata(rows, h, rd) == Map::<Seq<char>, Seq<char>>::empty(),
    decreases rows.len(),
{
    if rows.len() > 0 {
        let dl = rows.drop_last();
        lemma_names_hash_row(dl, h, rd);
        if names_hash(dl, h, rd) {
            let i = choose|i: int| 0 <= i < dl.len() && #[trigger] row_key(dl[i], rd) == Some(h);
            assert(rows[i] == dl[i]);
        } else if names_hash(rows, h, rd) {
            assert(row_key(rows[rows.len() - 1], rd) == Some(h));
        }
    }
}

/// After a first import, every ticket already holds what the rows give it, and
/// every row that is not skipped names a ticket of the store.
proof fn lemma_first_import_absorbs(tickets: Seq<TicketView>, rows: Seq<Seq<Seq<char>>>, rd: RowReading)
    requires
        hashes_distinct(tickets),
    ensures
        ({
            let after = import_rows(start_tally(tickets), rows, rd.code_idx, rd.found, rd.uppercase, rd.strip_hyphen);
            &&& all_tickets(after.tickets, |u: TicketView| absorbed(u, rows, rd))
            &&& rows_name_known(after.tickets, rows, rd)
            &&& hashes_distinct(after.tickets)
        }),
    decreases rows.len(),
{
    let p = |u: TicketView| absorbed(u, rows, rd);
    lemma_import_rows_facts(start_tally(tickets), rows, rd.code_idx, rd.found, rd.uppercase, rd.strip_hyphen);
    if rows.len() == 0 {
        assert forall|i: int| 0 <= i < tickets.len() implies p(#[trigger] tickets[i]) by {
            assert(tickets[i].metadata.union_prefer_right(Map::empty()) =~= tickets[i].metadata);
        }
    } else {
        let dl = rows.drop_last();
        let r = rows.last();
        lemma_first_import_absorbs(tickets, dl, rd);
        let mid = import_rows(start_tally(tickets), dl, rd.code_idx, rd.found, rd.uppercase, rd.strip_hyphen);
        let after = import_rows(start_tally(tickets), rows, rd.code_idx, rd.found, rd.uppercase, rd.strip_hyphen);
        assert(after == import_row(mid, r, rd.code_idx, rd.found, rd.uppercase, rd.strip_hyphen));
        assert(rows[rows.len() - 1] == r);
        assert forall|i: int| 0 <= i < dl.len() implies #[trigger] rows[i] == dl[i] by {}
        match row_key(r, rd) {
            None => {
                assert forall|i: int| 0 <= i < after.tickets.len() implies p(#[trigger] after.tickets[i]) by {
                    assert(absorbed(mid.tickets[i], dl, rd));
                }
                assert forall|i: int| 0 <= i < rows.len() implies (#[trigger] row_key(rows[i], rd) matches Some(h)
                    ==> exists|j: int| 0 <= j < after.tickets.len() && after.tickets[j].ticket_hash == h) by {
                    if i < dl.len() {
                        assert(row_key(dl[i], rd) == row_key(rows[i], rd));
                    }
                }
            },
            Some(h) => {
                let raw = trimmed(cell(r, rd.code_idx));
                let meta = row_metadata(r, rd.found);
                match ticket_with_hash(mid.tickets, h) {
                    Some(j) => {
                        lemma_hash_from_some(mid.tickets, h, 0);
                        assert forall|i: int| 0 <= i < after.tickets.len() implies p(#[trigger] after.tickets[i]) by {
                            let u = mid.tickets[i];
                            assert(absorbed(u, dl, rd));
                            if i == j {
                                let k = keyed_metadata(dl, h, rd);
                                assert(u.metadata.union_prefer_right(k) == u.metadata);
                                assert(u.metadata.union_prefer_right(meta).union_prefer_right(
                                    k.union_prefer_right(meta),
                                ) =~= u.metadata.union_prefer_right(meta)) by {
                                    assert forall|key: Seq<char>|
                                        #[trigger] u.metadata.union_prefer_right(k).dom().contains(key)
                                        implies u.metadata.union_prefer_right(k)[key] == u.metadata[key] by {}
                                }
                            } else {
                                assert(u.ticket_hash != h);
                            }
                        }
                        assert forall|i: int| 0 <= i < rows.len() implies (#[trigger] row_key(rows[i], rd) matches Some(hh)
                            ==> exists|jj: int| 0 <= jj < after.tickets.len() && after.tickets[jj].ticket_hash == hh) by {
                            if i < dl.len() {
                                assert(row_key(dl[i], rd) == row_key(rows[i], rd));
                                if let Some(hh) = row_key(rows[i], rd) {
                                    let jj = choose|jj: int| 0 <= jj < mid.tickets.len() && mid.tickets[jj].ticket_hash == hh;
                                    assert(after.tickets[jj].ticket_hash == hh);
                                }
                            } else {
                                assert(after.tickets[j].ticket_hash == h);
                            }
                        }
                    },
                    None => {
                        lemma_hash_from_none(mid.tickets, h, 0);
                        lemma_names_hash_row(dl, h, rd);
                        if names_hash(dl, h, rd) {
                            let i = choose|i: int| 0 <= i < dl.len() && #[trigger] row_key(dl[i], rd) == Some(h);
                            let jj = choose|jj: int| 0 <= jj < mid.tickets.len() && mid.tickets[jj].ticket_hash == h;
                            assert(false);
                        }
                        assert(Map::<Seq<char>, Seq<char>>::empty().union_prefer_right(meta) =~= meta);
                        assert(meta.union_prefer_right(meta) =~= meta);
                        assert forall|i: int| 0 <= i < after.tickets.len() implies p(#[trigger] after.tickets[i]) by {
                            if i < mid.tickets.len() {
                                assert(absorbed(mid.tickets[i], dl, rd));
                                assert(mid.tickets[i].ticket_hash != h);
                            }
                        }
                        assert forall|i: int| 0 <= i < rows.len() implies (#[trigger] row_key(rows[i], rd) matches Some(hh)
                            ==> exists|jj: int| 0 <= jj < after.tickets.len() && after.tickets[jj].ticket_hash == hh) by {
                            if i < dl.len() {
                                assert(row_key(dl[i], rd) == row_key(rows[i], rd));
                                if let Some(hh) = row_key(rows[i], rd) {
                                    let jj = choose|jj: int| 0 <= jj < mid.tickets.len() && mid.tickets[jj].ticket_hash == hh;
                                    assert(after.tickets[jj].ticket_hash == hh);
                                }
                            } else {
                                assert(after.tickets[mid.tickets.len() as int].ticket_hash == h);
                            }
                        }
                    },
                }
            },
        }
    }
}

/// Sorting tickets that are already in order changes nothing.
proof fn lemma_sorted_is_fixed(s: Seq<TicketView>)
    requires
        sorted_codes(s),
    ensures
        sorted_by_code(s) == s,
    decreases s.len(),
{
    if s.len() > 0 {
        let dl = s.drop_last();
        assert(sorted_codes(dl)) by {
            assert forall|i: int, j: int| 0 <= i < j < dl.len() implies crate::text::lex_le(
                #[trigger] dl[i].ticket_code,
                #[trigger] dl[j].ticket_code,
            ) by {
                assert(dl[i] == s[i] && dl[j] == s[j]);
            }
        }
        lemma_sorted_is_fixed(dl);
        if dl.len() > 0 {
            assert(crate::text::lex_le(s[dl.len() - 1].ticket_code, s[s.len() - 1].ticket_code));
            assert(dl.last() == s[dl.len() - 1]);
        } else {
            assert(seq![s.last()] =~= s);
        }
        assert(dl.push(s.last()) =~= s);
    }
}

/// Sorting keeps a ticket with every hash that was there.
proof fn lemma_sort_keeps_known(s: Seq<TicketView>, rows: Seq<Seq<Seq<char>>>, rd: RowReading)
    requires
        rows_name_known(s, rows, rd),
    ensures
        rows_name_known(sorted_by_code(s), rows, rd),
{
    broadcast use vstd::seq_lib::group_to_multiset_ensures;

    lemma_sorted_by_code_permutes(s);
    let t = sorted_by_code(s);
    assert forall|i: int| 0 <= i < rows.len() implies (#[trigger] row_key(rows[i], rd) matches Some(h)
        ==> exists|j: int| 0 <= j < t.len() && t[j].ticket_hash == h) by {
        if let Some(h) = row_key(rows[i], rd) {
            let j = choose|j: int| 0 <= j < s.len() && s[j].ticket_hash == h;
            assert(s.contains(s[j]));
            assert(s.to_multiset().count(s[j]) > 0);
            assert(t.contains(s[j]));
        }
    }
}

/// Importing the same export a second time changes nothing further: it inserts
/// no ticket, updates one ticket for every row that is not skipped, skips the
/// same rows, and leaves the tickets exactly as the first import left them.
/// (This holds when no two tickets of the store shared a hash to begin with.)
pub proof fn lemma_reimport_changes_nothing(
    tickets: Seq<TicketView>,
    rows: Seq<Seq<Seq<char>>>,
    code_idx: int,
    found: Seq<(Seq<char>, int)>,
    uppercase: bool,
    strip_hyphen: bool,
)
    requires
        hashes_distinct(tickets),
    ensures
        ({
            let first = import_rows(start_tally(tickets), rows, code_idx, found, uppercase, strip_hyphen);
            let stored = sorted_by_code(first.tickets);
            let second = import_rows(start_tally(stored), rows, code_idx, found, uppercase, strip_hyphen);
            &&& second.inserted == 0
            &&& second.updated == first.inserted + first.updated
            &&& second.skipped == first.skipped
            &&& second.tickets == stored
            &&& sorted_by_code(second.tickets) == stored
        }),
{
    let rd = RowReading { code_idx, found, uppercase, strip_hyphen };
    let first = import_rows(start_tally(tickets), rows, code_idx, found, uppercase, strip_hyphen);
    let stored = sorted_by_code(first.tickets);
    let second = import_rows(start_tally(stored), rows, code_idx, found, uppercase, strip_hyphen);
    lemma_first_import_absorbs(tickets, rows, rd);
    lemma_sort_keeps_hashes_distinct(first.tickets);
    lemma_sort_keeps_all(first.tickets, |u: TicketView| absorbed(u, rows, rd));
    lemma_sort_keeps_known(first.tickets, rows, rd);
    lemma_import_in_place(start_tally(stored), rows, rd);
    assert forall|j: int| 0 <= j < stored.len() implies #[trigger] second.tickets[j] == stored[j] by {
        assert(absorbed(stored[j], rows, rd));
        lemma_absorbed_fixed(stored[j], rows, rd);
    }
    assert(second.tickets =~= stored);
    lemma_sorted_by_code_is_sorted(first.tickets);
    lemma_sorted_is_fixed(stored);
    lemma_skipped_count(start_tally(tickets), rows, rd);
    lemma_skipped_count(start_tally(stored), rows, rd);
    lemma_import_rows_facts(start_tally(tickets), rows, code_idx, found, uppercase, strip_hyphen);
    lemma_import_rows_facts(start_tally(stored), rows, code_idx, found, uppercase, strip_hyphen);
}

} // verus!
