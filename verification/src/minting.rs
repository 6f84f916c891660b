//! A batch mint: a budget paid into the wallet, then one token per planned value
//! until the values or the wallet run out.
//!
//! The caller drives the run: it asks `next_action`, sends a token of that
//! amount through the wallet, and reports the outcome with `record_token` or
//! `record_failure`.

use vstd::prelude::*;

use crate::decimal::{decimal_text, push_decimal};
use crate::text::string_push;
use crate::token_amount::{lemma_sum_concat, lemma_sum_nonnegative, sum_amounts};

verus! {

/// Sats minted on top of the planned values, to cover the mint's fees.
pub const MINT_RESERVE: u64 = 10;

/// One exported token and its value.
#[derive(Debug)]
pub struct LakesideToken {
    pub value: u64,
    pub code: String,
}

/// What the caller does next.
#[derive(Debug, PartialEq, Eq, Structural)]
pub enum MintAction {
    /// Send a token of this many sats.
    Send(u64),
    /// Stop: write the tokens out.
    Finish,
}

/// The state of a batch mint.
#[derive(Debug)]
pub struct MintRun {
    token_values: Vec<u64>,
    next: usize,
    remaining_credit: u64,
    max_amount: u64,
    tokens: Vec<LakesideToken>,
    stopped: bool,
}

/// The contents of a `MintRun`.
pub struct MintRunView {
    /// The planned token values.
    pub planned: Seq<u64>,
    /// How many planned values have been handled.
    pub next: nat,
    /// Sats of the budget not yet handed out.
    pub remaining_credit: u64,
    /// The budget: the planned values plus the reserve.
    pub max_amount: u64,
    /// The tokens exported so far, value and text.
    pub issued: Seq<(u64, Seq<char>)>,
    /// A send failed.
    pub stopped: bool,
}

/// The values of exported tokens.
pub open spec fn issued_values(issued: Seq<(u64, Seq<char>)>) -> Seq<u64> {
    issued.map_values(|t: (u64, Seq<char>)| t.0)
}

impl MintRunView {
    /// What holds of every run: the budget is the planned values plus the
    /// reserve; each handled value gave one token; and what was handed out plus
    /// what remains is the budget.
    pub open spec fn consistent(self) -> bool {
        &&& self.max_amount == sum_amounts(self.planned) + MINT_RESERVE
        &&& self.next <= self.planned.len()
        &&& self.issued.len() == self.next
        &&& sum_amounts(issued_values(self.issued)) + self.remaining_credit == self.max_amount
        &&& forall|i: int| 0 <= i < self.next ==> #[trigger] self.issued[i].0 <= self.planned[i]
    }

    /// What the caller does next: finish once a send failed or every value is
    /// handled; otherwise send the next value, capped at the remaining credit.
    pub open spec fn action(self) -> MintAction {
        if self.stopped || self.next >= self.planned.len() {
            MintAction::Finish
        } else if self.planned[self.next as int] > self.remaining_credit {
            MintAction::Send(self.remaining_credit)
        } else {
            MintAction::Send(self.planned[self.next as int])
        }
    }
}

impl View for MintRun {
    type V = MintRunView;

    closed spec fn view(&self) -> MintRunView {
        MintRunView {
            planned: self.token_values@,
            next: self.next as nat,
            remaining_credit: self.remaining_credit,
            max_amount: self.max_amount,
            issued: self.tokens@.map_values(|t: LakesideToken| (t.value, t.code@)),
            stopped: self.stopped,
        }
    }
}

/// Whether a run over these values has a budget that fits in a `u64`.
pub fn mint_budget_fits(token_values: &Vec<u64>) -> (res: bool)
    ensures
        res == (sum_amounts(token_values@) + MINT_RESERVE <= u64::MAX),
{
    match crate::token_amount::checked_sum_total(token_values) {
        Some(total) => total <= u64::MAX - MINT_RESERVE,
        None => false,
    }
}

/// The sum of values grows by the last one.
proof fn lemma_sum_push(values: Seq<u64>, v: u64)
    ensures
        sum_amounts(values.push(v)) == sum_amounts(values) + v,
{
    assert(values.push(v).drop_last() =~= values);
}

impl MintRun {
    /// A run over the planned values, with a budget of their sum plus the reserve.
    pub fn new(token_values: Vec<u64>) -> (res: MintRun)
        requires
            sum_amounts(token_values@) + MINT_RESERVE <= u64::MAX,
        ensures
            res@.planned == token_values@,
            res@.next == 0,
            res@.max_amount == sum_amounts(token_values@) + MINT_RESERVE,
            res@.remaining_credit == res@.max_amount,
            res@.issued.len() == 0,
            !res@.stopped,
            res@.consistent(),
    {
        let total = crate::token_amount::compute_sum_total(&token_values);
        let max_amount = total + MINT_RESERVE;
        let res = MintRun {
            token_values,
            next: 0,
            remaining_credit: max_amount,
            max_amount,
            tokens: Vec::new(),
            stopped: false,
        };
        assert(res@.issued =~= Seq::<(u64, Seq<char>)>::empty());
        assert(issued_values(res@.issued) =~= Seq::<u64>::empty());
        res
    }

    /// The budget to mint: the planned values plus the reserve.
    pub fn max_amount(&self) -> (res: u64)
        ensures
            res == self@.max_amount,
    {
        self.max_amount
    }

    /// How many values were planned.
    pub fn planned_count(&self) -> (res: usize)
        ensures
            res == self@.planned.len(),
    {
        self.token_values.len()
    }

    /// What the caller does next.
    pub fn next_action(&self) -> (res: MintAction)
        ensures
            res == self@.action(),
            !self@.stopped && self@.next < self@.planned.len() && self@.planned[self@.next as int]
                <= self@.remaining_credit ==> res == MintAction::Send(self@.planned[self@.next as int]),
    {
        if self.stopped || self.next >= self.token_values.len() {
            MintAction::Finish
        } else {
            let value = self.token_values[self.next];
            if value > self.remaining_credit {
                MintAction::Send(self.remaining_credit)
            } else {
                MintAction::Send(value)
            }
        }
    }

    /// The wallet exported `code` for the amount `next_action` asked for.
    pub fn record_token(&mut self, code: String)
        requires
            old(self)@.consistent(),
            old(self)@.action() is Send,
        ensures
            ({
                let amount = old(self)@.action()->Send_0;
                &&& final(self)@.planned == old(self)@.planned
                &&& final(self)@.next == old(self)@.next + 1
                &&& final(self)@.issued == old(self)@.issued.push((amount, code@))
                &&& final(self)@.remaining_credit == old(self)@.remaining_credit - amount
                &&& final(self)@.max_amount == old(self)@.max_amount
                &&& final(self)@.stopped == old(self)@.stopped
            }),
            final(self)@.consistent(),
    {
        let planned_len = self.token_values.len();
        assert(self.next < planned_len);
        let value = self.token_values[self.next];
        let amount = if value > self.remaining_credit {
            self.remaining_credit
        } else {
            value
        };
        let next = self.next + 1;
        let ghost old_issued = self@.issued;
        let ghost old_self = self@;
        self.tokens.push(LakesideToken { value: amount, code });
        self.remaining_credit = self.remaining_credit - amount;
        self.next = next;
        proof {
            assert(self@.issued =~= old_issued.push((amount, code@)));
            assert(issued_values(self@.issued) =~= issued_values(old_issued).push(amount));
            lemma_sum_push(issued_values(old_issued), amount);
            assert(self@.issued[old_self.next as int].0 == amount);
            assert forall|i: int| 0 <= i < self@.next implies #[trigger] self@.issued[i].0
                <= self@.planned[i] by {
                if i < old_self.next {
                    assert(self@.issued[i] == old_issued[i]);
                }
            }
        }
    }

    /// A send failed: the run stops.  The result says whether fewer tokens than
    /// planned were made, which the caller reports.
    pub fn record_failure(&mut self) -> (short: bool)
        requires
            old(self)@.consistent(),
        ensures
            final(self)@ == (MintRunView { stopped: true, ..old(self)@ }),
            short == (old(self)@.issued.len() < old(self)@.planned.len()),
            final(self)@.consistent(),
    {
        self.stopped = true;
        self.tokens.len() < self.token_values.len()
    }

    /// The tokens exported so far.
    pub fn tokens(&self) -> (res: &Vec<LakesideToken>)
        ensures
            res@.map_values(|t: LakesideToken| (t.value, t.code@)) == self@.issued,
    {
        &self.tokens
    }
}

/// The tokens handed out never exceed the budget, and each token is worth at
/// most the value planned for it.
pub proof fn lemma_issued_within_budget(run: MintRunView)
    requires
        run.consistent(),
    ensures
        sum_amounts(issued_values(run.issued)) <= run.max_amount,
        forall|i: int| 0 <= i < run.issued.len() ==> #[trigger] run.issued[i].0 <= run.planned[i],
{
}

/// The amount a run sends next is the smaller of the planned value and the
/// remaining credit: the planned value itself whenever the credit covers it.
pub proof fn lemma_send_is_planned_value_capped_by_credit(run: MintRunView)
    requires
        !run.stopped,
        run.next < run.planned.len(),
    ensures
        run.action() is Send,
        run.action()->Send_0 <= run.planned[run.next as int],
        run.action()->Send_0 <= run.remaining_credit,
        run.action()->Send_0 == run.planned[run.next as int] || run.action()->Send_0
            == run.remaining_credit,
        run.planned[run.next as int] <= run.remaining_credit ==> run.action() == MintAction::Send(
            run.planned[run.next as int],
        ),
{
}

/// A run in which every token so far carried its planned value still has the
/// rest of the planned values plus the reserve in credit, so it sends the next
/// planned value in full.
pub proof fn lemma_full_run_sends_planned_value(run: MintRunView)
    requires
        run.consistent(),
        !run.stopped,
        run.next < run.planned.len(),
        issued_values(run.issued) == run.planned.take(run.next as int),
    ensures
        run.remaining_credit == sum_amounts(run.planned.skip(run.next as int)) + MINT_RESERVE,
        run.action() == MintAction::Send(run.planned[run.next as int]),
{
    let n = run.next as int;
    let p = run.planned;
    assert(p =~= p.take(n) + p.skip(n));
    lemma_sum_concat(p.take(n), p.skip(n));
    let rest = p.skip(n);
    assert(rest =~= seq![p[n]] + rest.skip(1));
    lemma_sum_concat(seq![p[n]], rest.skip(1));
    assert(seq![p[n]].drop_last() =~= Seq::<u64>::empty());
    assert(sum_amounts(Seq::<u64>::empty()) == 0);
    assert(seq![p[n]].last() == p[n]);
    assert(sum_amounts(seq![p[n]]) == sum_amounts(seq![p[n]].drop_last()) + seq![p[n]].last());
    lemma_sum_nonnegative(rest.skip(1));
}

/// The line written for a token: its value, a tab, its text.
pub open spec fn token_line_text(value: u64, code: Seq<char>) -> Seq<char> {
    decimal_text(value as nat) + seq!['\t'] + code
}

/// The line written for a token: its value, a tab, its text.
pub fn token_line(token: &LakesideToken) -> (res: String)
    ensures
        res@ == token_line_text(token.value, token.code@),
{
    let mut line = String::new();
    push_decimal(&mut line, token.value);
    string_push(&mut line, '\t');
    line.append(token.code.as_str());
    assert(line@ =~= token_line_text(token.value, token.code@));
    line
}

/// Each value followed by a space.
pub open spec fn values_each_spaced(values: Seq<u64>) -> Seq<char>
    decreases values.len(),
{
    if values.len() == 0 {
        Seq::empty()
    } else {
        values_each_spaced(values.drop_last()) + decimal_text(values.last() as nat) + seq![' ']
    }
}

/// The summary line of a run: `Token values: ` and then each value followed by
/// a space.
pub open spec fn values_summary_text(values: Seq<u64>) -> Seq<char> {
    "Token values: "@ + values_each_spaced(values)
}

/// The values of a list of tokens.
pub open spec fn token_values(tokens: Seq<LakesideToken>) -> Seq<u64> {
    tokens.map_values(|t: LakesideToken| t.value)
}

/// The summary line of a run.
pub fn token_values_summary(tokens: &Vec<LakesideToken>) -> (res: String)
    ensures
        res@ == values_summary_text(token_values(tokens@)),
{
    let ghost values = token_values(tokens@);
    proof {
        reveal_strlit("Token values: ");
    }
    let mut s = String::from_str("Token values: ");
    let mut i: usize = 0;
    assert(values.take(0) =~= Seq::<u64>::empty());
    assert(s@ =~= values_summary_text(values.take(0)));
    while i < tokens.len()
        invariant
            i <= tokens.len(),
            values == token_values(tokens@),
            s@ == values_summary_text(values.take(i as int)),
        decreases tokens.len() - i,
    {
        push_decimal(&mut s, tokens[i].value);
        string_push(&mut s, ' ');
        proof {
            let taken = values.take(i + 1);
            assert(taken.drop_last() =~= values.take(i as int));
            assert(taken.last() == tokens@[i as int].value);
            assert(s@ =~= values_summary_text(taken));
        }
        i = i + 1;
    }
    assert(values.take(tokens.len() as int) =~= values);
    s
}

/// The token lines of a run, each ended by a line break.
pub open spec fn token_lines_text(tokens: Seq<LakesideToken>) -> Seq<char>
    decreases tokens.len(),
{
    if tokens.len() == 0 {
        Seq::empty()
    } else {
        token_lines_text(tokens.drop_last()) + token_line_text(tokens.last().value, tokens.last().code@)
            + seq!['\n']
    }
}

/// The text of the output file of a run: the summary line, then one
/// `value<TAB>token` line per token, each line ended by a line break.
pub open spec fn output_file_text(tokens: Seq<LakesideToken>) -> Seq<char> {
    values_summary_text(token_values(tokens)) + seq!['\n'] + token_lines_text(tokens)
}

/// The text of the output file of a run.
pub fn output_file_contents(tokens: &Vec<LakesideToken>) -> (res: String)
    ensures
        res@ == output_file_text(tokens@),
{
    let mut text = token_values_summary(tokens);
    string_push(&mut text, '\n');
    let ghost head = text@;
    let mut i: usize = 0;
    assert(tokens@.take(0) =~= Seq::<LakesideToken>::empty());
    while i < tokens.len()
        invariant
            i <= tokens.len(),
            head == values_summary_text(token_values(tokens@)) + seq!['\n'],
            text@ == head + token_lines_text(tokens@.take(i as int)),
        decreases tokens.len() - i,
    {
        let line = token_line(&tokens[i]);
        text.append(line.as_str());
        string_push(&mut text, '\n');
        proof {
            let taken = tokens@.take(i + 1);
            assert(taken.drop_last() =~= tokens@.take(i as int));
            assert(taken.last() == tokens@[i as int]);
            assert(text@ =~= head + token_lines_text(taken));
        }
        i = i + 1;
    }
    assert(tokens@.take(tokens.len() as int) =~= tokens@);
    text
}

} // verus!
