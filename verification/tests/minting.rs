use lakeside::filenames::next_available_filename;
use lakeside::minting::{
    mint_budget_fits, output_file_contents, token_line, token_values_summary, LakesideToken, MintAction, MintRun, MINT_RESERVE,
};
use std::collections::HashSet;

#[test]
fn mint_run_caps_tokens_at_the_remaining_credit() {
    let mut run = MintRun::new(vec![12, 38, 79]);
    assert_eq!(run.max_amount(), 12 + 38 + 79 + MINT_RESERVE);
    assert_eq!(run.planned_count(), 3);
    let mut sent = vec![];
    while let MintAction::Send(amount) = run.next_action() {
        sent.push(amount);
        run.record_token(format!("cashuB{amount}"));
    }
    assert_eq!(sent, vec![12, 38, 79]);
    assert_eq!(run.tokens().len(), 3);
    assert_eq!(run.tokens()[1].value, 38);
    assert_eq!(run.tokens()[1].code, "cashuB38");
}

#[test]
fn mint_run_stops_at_the_first_failure() {
    let mut run = MintRun::new(vec![5, 6, 7]);
    assert_eq!(run.next_action(), MintAction::Send(5));
    run.record_token("a".to_string());
    assert!(run.record_failure());
    assert_eq!(run.next_action(), MintAction::Finish);
    assert_eq!(run.tokens().len(), 1);
}

#[test]
fn token_lines_and_summary() {
    let tokens = vec![
        LakesideToken { value: 12, code: "cashuBabc".to_string() },
        LakesideToken { value: 38, code: "cashuBdef".to_string() },
    ];
    assert_eq!(token_line(&tokens[0]), "12\tcashuBabc");
    assert_eq!(token_values_summary(&tokens), "Token values: 12 38 ");
    assert_eq!(token_values_summary(&vec![]), "Token values: ");
    assert_eq!(
        output_file_contents(&tokens),
        "Token values: 12 38 \n12\tcashuBabc\n38\tcashuBdef\n"
    );
    assert_eq!(output_file_contents(&vec![]), "Token values: \n");
}

#[test]
fn next_filename_appends_a_counter() {
    let taken: HashSet<String> = ["cashu_tokens.txt", "cashu_tokens_1.txt", "out/a.b.txt"]
        .iter()
        .map(|s| s.to_string())
        .collect();
    let is_taken = |p: &String| taken.contains(p);
    assert_eq!(next_available_filename("fresh.txt", &is_taken), "fresh.txt");
    assert_eq!(next_available_filename("cashu_tokens.txt", &is_taken), "cashu_tokens_2.txt");
    assert_eq!(next_available_filename("out/a.b.txt", &is_taken), "out/a.b_1.txt");
    let all: HashSet<String> = ["noext"].iter().map(|s| s.to_string()).collect();
    assert_eq!(next_available_filename("noext", |p: &String| all.contains(p)), "noext_1");
}

#[test]
fn mint_budget_must_fit() {
    assert!(mint_budget_fits(&vec![1, 2, 3]));
    assert!(mint_budget_fits(&vec![u64::MAX - MINT_RESERVE]));
    assert!(!mint_budget_fits(&vec![u64::MAX - MINT_RESERVE + 1]));
    assert!(!mint_budget_fits(&vec![u64::MAX, u64::MAX]));
}
