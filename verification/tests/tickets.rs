use std::path::PathBuf;

use lakeside::csv_import::{
    csv_delimiter, import_csv_bytes, import_records, match_metadata_columns, ImportOptions,
    ImportReport,
};
use lakeside::metadata::TicketMetadata;
use lakeside::ticket_order::sort_tickets_by_code;
use lakeside::tickets::{
    derive_ticket_hash, init_store, list_summary, normalize_ticket_code, TicketRecord, TicketStatus,
    TicketStore, TicketsError, TokenBundleRecord,
};
use lakeside::timestamp::Timestamp;

fn ts(secs: i64) -> Timestamp {
    Timestamp::new(secs, 0).unwrap()
}

#[test]
fn normalization_strips_whitespace_and_hyphens_and_uppercases() {
    assert_eq!(normalize_ticket_code(" aadja-62bc3-1234 ", true, true), "AADJA62BC31234");
    assert_eq!(normalize_ticket_code("AADJA-62BC3-1234", true, true), "AADJA62BC31234");
    assert_eq!(normalize_ticket_code("ab c-d\te", false, true), "abcde");
    assert_eq!(normalize_ticket_code("ab c-d", true, false), "ABC-D");
    assert_eq!(normalize_ticket_code("ab c-d", false, false), "abc-d");
    assert_eq!(normalize_ticket_code("straße-ä", true, true), "STRAßEä");
    assert_eq!(normalize_ticket_code(" - ", true, true), "");
}

#[test]
fn normalization_is_idempotent() {
    for raw in ["a-b c", "  x\u{2003}y-z ", "Ünï-cödé", "---"] {
        for (up, strip) in [(true, true), (true, false), (false, true), (false, false)] {
            let once = normalize_ticket_code(raw, up, strip);
            assert_eq!(normalize_ticket_code(&once, up, strip), once);
        }
    }
}

#[test]
fn ticket_hash_is_hex_sha256_of_the_code() {
    assert_eq!(
        derive_ticket_hash("AADJA62BC31234"),
        "a93c7529cc7de9497acb6fef619bbdcd2e7b3cd3ca5da5c10fc3da090ae04912"
    );
    assert_eq!(
        derive_ticket_hash("ABC"),
        "b5d4045c3f466fa91fe2cc6abe79232a1a57cdf104f7a26e716e0a1e2789df78"
    );
    assert_eq!(derive_ticket_hash("").len(), 64);
}

#[test]
fn new_ticket_is_unclaimed_and_hashed() {
    let t = TicketRecord::new("ABC".to_string(), "a-b-c".to_string());
    assert_eq!(t.ticket_code, "ABC");
    assert_eq!(t.display_code, "a-b-c");
    assert_eq!(t.ticket_hash, derive_ticket_hash("ABC"));
    assert_eq!(t.status, TicketStatus::Unclaimed);
    assert!(t.claimed_at.is_none());
    assert!(t.token_bundles.is_empty());
    assert!(t.metadata.is_empty());
    assert_eq!(TicketStatus::default(), TicketStatus::Unclaimed);
}

#[test]
fn init_store_refuses_existing_file_unless_forced() {
    assert!(matches!(init_store(true, false, ts(5)), Err(TicketsError::StoreExists)));
    let forced = init_store(true, true, ts(5)).unwrap();
    assert!(forced.tickets.is_empty());
    assert_eq!(forced.updated_at, ts(5));
    assert!(init_store(false, false, ts(6)).unwrap().tickets.is_empty());
}

fn ticket_with(code: &str, status: TicketStatus) -> TicketRecord {
    let mut t = TicketRecord::new(code.to_string(), code.to_string());
    t.status = status;
    t
}

#[test]
fn summary_counts_by_status() {
    let store = TicketStore {
        updated_at: ts(100),
        tickets: vec![
            ticket_with("A", TicketStatus::Unclaimed),
            ticket_with("B", TicketStatus::Claimed),
            ticket_with("C", TicketStatus::Claimed),
            ticket_with("D", TicketStatus::Reissued),
            ticket_with("E", TicketStatus::Unclaimed),
        ],
    };
    let s = list_summary(PathBuf::from("tickets.json"), &store);
    assert_eq!(s.path, PathBuf::from("tickets.json"));
    assert_eq!(s.updated_at, ts(100));
    assert_eq!((s.total, s.unclaimed, s.claimed, s.reissued), (5, 2, 2, 1));
}

#[test]
fn backfill_uses_the_code_for_missing_display_codes() {
    let mut a = TicketRecord::new("AAA".to_string(), String::new());
    a.status = TicketStatus::Claimed;
    let b = TicketRecord::new("BBB".to_string(), "b-b-b".to_string());
    let mut store = TicketStore { updated_at: ts(1), tickets: vec![a, b] };
    store.backfill_display_codes();
    assert_eq!(store.tickets[0].display_code, "AAA");
    assert_eq!(store.tickets[0].status, TicketStatus::Claimed);
    assert_eq!(store.tickets[1].display_code, "b-b-b");
}

#[test]
fn metadata_insert_and_merge() {
    let mut m = TicketMetadata::new();
    m.insert("holder_name".to_string(), "Alice".to_string());
    m.insert("seat".to_string(), "A1".to_string());
    m.insert("holder_name".to_string(), "Alicia".to_string());
    assert_eq!(m.len(), 2);
    let mut other = TicketMetadata::new();
    other.insert("seat".to_string(), "B2".to_string());
    other.insert("email".to_string(), "a@b.c".to_string());
    m.merge(&other);
    let mut entries = m.entries().clone();
    entries.sort();
    assert_eq!(
        entries,
        vec![
            ("email".to_string(), "a@b.c".to_string()),
            ("holder_name".to_string(), "Alicia".to_string()),
            ("seat".to_string(), "B2".to_string()),
        ]
    );
}

#[test]
fn sorting_is_by_code_and_stable() {
    let mut x = TicketRecord::new("B".to_string(), "first".to_string());
    x.status = TicketStatus::Claimed;
    let y = TicketRecord::new("B".to_string(), "second".to_string());
    let tickets = vec![
        TicketRecord::new("C".to_string(), String::new()),
        x,
        TicketRecord::new("A".to_string(), String::new()),
        y,
        TicketRecord::new("AB".to_string(), String::new()),
    ];
    let sorted = sort_tickets_by_code(tickets);
    let codes: Vec<&str> = sorted.iter().map(|t| t.ticket_code.as_str()).collect();
    assert_eq!(codes, vec!["A", "AB", "B", "B", "C"]);
    assert_eq!(sorted[2].display_code, "first");
    assert_eq!(sorted[3].display_code, "second");
}

fn strings(xs: &[&str]) -> Vec<String> {
    xs.iter().map(|s| s.to_string()).collect()
}

fn options(metadata: &[&str]) -> ImportOptions {
    ImportOptions {
        csv_path: PathBuf::from("attendees.csv"),
        store_path: PathBuf::from("tickets.json"),
        code_column: "ticket_code".to_string(),
        delimiter: None,
        uppercase: true,
        strip_hyphen: true,
        metadata_columns: strings(metadata),
    }
}

#[test]
fn metadata_columns_are_matched_case_insensitively() {
    let headers = strings(&[" Ticket_Code ", "Holder_Name", "email"]);
    let (found, missing) = match_metadata_columns(&headers, &strings(&["holder_name", "seat", "EMAIL"]));
    assert_eq!(found, vec![("holder_name".to_string(), 1), ("EMAIL".to_string(), 2)]);
    assert_eq!(missing, strings(&["seat"]));
}

#[test]
fn import_inserts_updates_skips_and_sorts() {
    let mut existing = TicketRecord::new("ZZZ1".to_string(), String::new());
    existing.status = TicketStatus::Claimed;
    existing.claimed_at = Some(ts(77));
    existing.token_bundles.push(TokenBundleRecord {
        amount: 21,
        token: "cashuBxyz".to_string(),
        format: "cashu-b".to_string(),
        created_at: Some(ts(77)),
    });
    let mut store = TicketStore { updated_at: ts(3), tickets: vec![existing] };
    let headers = strings(&["Name", " TICKET_CODE"]);
    let rows = vec![
        strings(&["Alice", "aadja-62bc3-1234"]),
        strings(&["Bob", "   "]),
        strings(&["Carol"]),
        strings(&["Dave", "zzz-1"]),
        strings(&["Alice again", "AADJA62BC31234"]),
        strings(&["Eve", "--"]),
        strings(&["Frank", "bb-01"]),
    ];
    let report = import_records(&mut store, &headers, &rows, &options(&["name"])).unwrap();
    assert_eq!(
        report,
        ImportReport { inserted: 2, updated: 2, skipped: 3, total_after: 3 }
    );
    let codes: Vec<&str> = store.tickets.iter().map(|t| t.ticket_code.as_str()).collect();
    assert_eq!(codes, vec!["AADJA62BC31234", "BB01", "ZZZ1"]);
    let alice = &store.tickets[0];
    assert_eq!(alice.display_code, "aadja-62bc3-1234");
    assert_eq!(alice.ticket_hash, derive_ticket_hash("AADJA62BC31234"));
    assert_eq!(
        alice.metadata.entries().clone(),
        vec![("name".to_string(), "Alice again".to_string())]
    );
    let zzz = &store.tickets[2];
    assert_eq!(zzz.display_code, "zzz-1");
    assert_eq!(zzz.status, TicketStatus::Claimed);
    assert_eq!(zzz.token_bundles.len(), 1);
    assert_eq!(zzz.claimed_at, Some(ts(77)));
    assert_eq!(store.updated_at, ts(3));
}

#[test]
fn import_without_code_column_fails_and_changes_nothing() {
    let mut store = TicketStore { updated_at: ts(3), tickets: vec![] };
    let headers = strings(&["code"]);
    let rows = vec![strings(&["ABC"])];
    match import_records(&mut store, &headers, &rows, &options(&[])) {
        Err(TicketsError::MissingCodeColumn(c)) => assert_eq!(c, "ticket_code"),
        other => panic!("unexpected {:?}", other),
    }
    assert!(store.tickets.is_empty());
}

#[test]
fn reimporting_the_same_rows_updates_instead_of_duplicating() {
    let mut store = TicketStore { updated_at: ts(3), tickets: vec![] };
    let headers = strings(&["ticket_code"]);
    let rows = vec![strings(&["a-1"]), strings(&["b-2"])];
    let first = import_records(&mut store, &headers, &rows, &options(&[])).unwrap();
    assert_eq!(first.inserted, 2);
    let second = import_records(&mut store, &headers, &rows, &options(&[])).unwrap();
    assert_eq!(
        second,
        ImportReport { inserted: 0, updated: 2, skipped: 0, total_after: 2 }
    );
}

#[test]
fn csv_text_is_parsed_and_imported() {
    let mut store = TicketStore { updated_at: ts(3), tickets: vec![] };
    let data = b"name;Ticket_Code;seat\nAlice;aa-1;A1\nBob\n;bb-2;\n".to_vec();
    let mut opts = options(&["seat", "email"]);
    opts.delimiter = Some(';');
    let outcome = import_csv_bytes(&mut store, &data, &opts).unwrap();
    assert_eq!(
        outcome.report,
        ImportReport { inserted: 2, updated: 0, skipped: 1, total_after: 2 }
    );
    assert_eq!(outcome.missing_columns, strings(&["email"]));
    assert_eq!(store.tickets[0].ticket_code, "AA1");
    assert_eq!(
        store.tickets[0].metadata.entries().clone(),
        vec![("seat".to_string(), "A1".to_string())]
    );
    assert!(store.tickets[1].metadata.is_empty());
}

#[test]
fn csv_failures_leave_the_store_unchanged() {
    let mut store = TicketStore { updated_at: ts(3), tickets: vec![] };
    let missing = b"code\nA\n".to_vec();
    assert!(matches!(
        import_csv_bytes(&mut store, &missing, &options(&[])),
        Err(TicketsError::MissingCodeColumn(_))
    ));
    let bad_header = b"ticket_code,\xff\nA,B\n".to_vec();
    assert!(matches!(
        import_csv_bytes(&mut store, &bad_header, &options(&[])),
        Err(TicketsError::CsvHeader(_))
    ));
    let bad_row = b"ticket_code\nA\n\xff\n".to_vec();
    assert!(matches!(
        import_csv_bytes(&mut store, &bad_row, &options(&[])),
        Err(TicketsError::CsvRecord(_))
    ));
    assert!(store.tickets.is_empty());
}

#[test]
fn delimiter_defaults_to_comma() {
    assert_eq!(csv_delimiter(None), b',');
    assert_eq!(csv_delimiter(Some(';')), b';');
    assert_eq!(csv_delimiter(Some('\t')), b'\t');
}
