//! Ordering tickets by code, as the store keeps them.

use vstd::prelude::*;

use crate::text::{
    chars_lex_le, chars_of, lemma_lex_le_total, lemma_lex_le_transitive, lex_le,
};
use crate::tickets::{tickets_view, TicketRecord, TicketView};

verus! {

/// `x` inserted into `s` after every element whose code comes before or equals
/// its own, scanning from the end.
pub open spec fn insert_by_code(s: Seq<TicketView>, x: TicketView) -> Seq<TicketView>
    decreases s.len(),
{
    if s.len() == 0 {
        seq![x]
    } else if lex_le(s.last().ticket_code, x.ticket_code) {
        s.push(x)
    } else {
        insert_by_code(s.drop_last(), x).push(s.last())
    }
}

/// The tickets stably sorted by code: tickets with equal codes keep their order.
pub open spec fn sorted_by_code(s: Seq<TicketView>) -> Seq<TicketView>
    decreases s.len(),
{
    if s.len() == 0 {
        s
    } else {
        insert_by_code(sorted_by_code(s.drop_last()), s.last())
    }
}

/// Insertion at the position found by scanning back over the larger codes.
proof fn lemma_insert_at_scan(s: Seq<TicketView>, x: TicketView, p: int)
    requires
        0 <= p <= s.len(),
        p == 0 || lex_le(s[p - 1].ticket_code, x.ticket_code),
        forall|q: int| p <= q < s.len() ==> !lex_le(#[trigger] s[q].ticket_code, x.ticket_code),
    ensures
        insert_by_code(s, x) == s.take(p).push(x) + s.skip(p),
    decreases s.len(),
{
    if s.len() == 0 {
        assert(s.take(p).push(x) + s.skip(p) =~= seq![x]);
    } else if p == s.len() {
        assert(s.take(p) =~= s);
        assert(s.take(p).push(x) + s.skip(p) =~= s.push(x));
    } else {
        let last_index = s.len() - 1;
        assert(!lex_le(s[last_index].ticket_code, x.ticket_code));
        let prefix = s.drop_last();
        lemma_insert_at_scan(prefix, x, p);
        assert(prefix.take(p).push(x) + prefix.skip(p) + seq![s.last()] =~= s.take(p).push(x)
            + s.skip(p));
        assert((prefix.take(p).push(x) + prefix.skip(p)).push(s.last()) =~= prefix.take(p).push(x)
            + prefix.skip(p) + seq![s.last()]);
    }
}

/// Sort tickets by code, keeping the order of tickets with equal codes.
pub fn sort_tickets_by_code(tickets: Vec<TicketRecord>) -> (res: Vec<TicketRecord>)
    ensures
        tickets_view(res@) == sorted_by_code(tickets_view(tickets@)),
{
    let ghost input = tickets_view(tickets@);
    let n = tickets.len();
    let mut rest = tickets;
    let mut sorted: Vec<TicketRecord> = Vec::new();
    let mut keys: Vec<Vec<char>> = Vec::new();
    let mut i: usize = 0;
    while i < n
        invariant
            n == input.len(),
            i <= n,
            rest@.len() == n - i,
            tickets_view(rest@) == input.skip(i as int),
            tickets_view(sorted@) == sorted_by_code(input.take(i as int)),
            keys@.len() == sorted@.len(),
            forall|k: int| 0 <= k < keys@.len() ==> (#[trigger] keys@[k])@ == sorted@[k].ticket_code@,
        decreases n - i,
    {
        let ghost old_rest = rest@;
        let x = rest.remove(0);
        proof {
            assert(tickets_view(old_rest)[0] == input.skip(i as int)[0]);
            assert(old_rest[0] == x);
            assert forall|k: int| 0 <= k < rest@.len() implies #[trigger] tickets_view(rest@)[k]
                == input.skip(i + 1)[k] by {
                assert(rest@[k] == old_rest[k + 1]);
                assert(tickets_view(old_rest)[k + 1] == input.skip(i as int)[k + 1]);
            }
            assert(tickets_view(rest@) =~= input.skip(i + 1));
            assert(input.take(i + 1).drop_last() =~= input.take(i as int));
            assert(input[i as int] == x@);
        }
        let key = chars_of(x.ticket_code.as_str());
        let mut p: usize = sorted.len();
        while p > 0 && !chars_lex_le(&keys[p - 1], &key)
            invariant
                p <= sorted@.len(),
                keys@.len() == sorted@.len(),
                key@ == x.ticket_code@,
                forall|k: int| 0 <= k < keys@.len() ==> (#[trigger] keys@[k])@ == sorted@[k].ticket_code@,
                forall|q: int|
                    p <= q < sorted@.len() ==> !lex_le(
                        #[trigger] tickets_view(sorted@)[q].ticket_code,
                        x@.ticket_code,
                    ),
            decreases p,
        {
            p = p - 1;
        }
        proof {
            lemma_insert_at_scan(tickets_view(sorted@), x@, p as int);
        }
        let ghost before = sorted@;
        sorted.insert(p, x);
        keys.insert(p, key);
        proof {
            assert(tickets_view(sorted@) =~= tickets_view(before).take(p as int).push(x@)
                + tickets_view(before).skip(p as int));
            assert forall|k: int| 0 <= k < keys@.len() implies (#[trigger] keys@[k])@
                == sorted@[k].ticket_code@ by {
                if k < p {
                } else if k == p {
                } else {
                }
            }
        }
        i = i + 1;
    }
    assert(input.take(n as int) =~= input);
    sorted
}

/// Every code of `s` comes before or equals `bound`.
pub open spec fn codes_at_most(s: Seq<TicketView>, bound: Seq<char>) -> bool {
    forall|i: int| 0 <= i < s.len() ==> lex_le(#[trigger] s[i].ticket_code, bound)
}

/// The codes of `s` never decrease.
pub open spec fn sorted_codes(s: Seq<TicketView>) -> bool {
    forall|i: int, j: int| 0 <= i < j < s.len() ==> lex_le(#[trigger] s[i].ticket_code, #[trigger] s[j].ticket_code)
}

/// Inserting keeps a bound that holds of every element and of the new one.
proof fn lemma_insert_keeps_bound(s: Seq<TicketView>, x: TicketView, bound: Seq<char>)
    requires
        codes_at_most(s, bound),
        lex_le(x.ticket_code, bound),
    ensures
        codes_at_most(insert_by_code(s, x), bound),
    decreases s.len(),
{
    if s.len() > 0 && !lex_le(s.last().ticket_code, x.ticket_code) {
        let prefix = s.drop_last();
        assert(codes_at_most(prefix, bound)) by {
            assert forall|i: int| 0 <= i < prefix.len() implies lex_le(#[trigger] prefix[i].ticket_code, bound) by {
                assert(prefix[i] == s[i]);
            }
        }
        lemma_insert_keeps_bound(prefix, x, bound);
        assert(s[s.len() - 1] == s.last());
    }
}

/// Inserting into sorted tickets keeps them sorted.
proof fn lemma_insert_keeps_sorted(s: Seq<TicketView>, x: TicketView)
    requires
        sorted_codes(s),
    ensures
        sorted_codes(insert_by_code(s, x)),
    decreases s.len(),
{
    if s.len() == 0 {
    } else if lex_le(s.last().ticket_code, x.ticket_code) {
        let r = s.push(x);
        assert forall|i: int, j: int| 0 <= i < j < r.len() implies lex_le(
            #[trigger] r[i].ticket_code,
            #[trigger] r[j].ticket_code,
        ) by {
            if j == s.len() {
                if i < s.len() - 1 {
                    assert(lex_le(s[i].ticket_code, s[s.len() - 1].ticket_code));
                    lemma_lex_le_transitive(s[i].ticket_code, s.last().ticket_code, x.ticket_code);
                }
            } else {
                assert(r[i] == s[i] && r[j] == s[j]);
            }
        }
    } else {
        let prefix = s.drop_last();
        let last = s.last();
        assert(sorted_codes(prefix)) by {
            assert forall|i: int, j: int| 0 <= i < j < prefix.len() implies lex_le(
                #[trigger] prefix[i].ticket_code,
                #[trigger] prefix[j].ticket_code,
            ) by {
                assert(prefix[i] == s[i] && prefix[j] == s[j]);
            }
        }
        lemma_insert_keeps_sorted(prefix, x);
        lemma_lex_le_total(last.ticket_code, x.ticket_code);
        assert(codes_at_most(prefix, last.ticket_code)) by {
            assert forall|i: int| 0 <= i < prefix.len() implies lex_le(
                #[trigger] prefix[i].ticket_code,
                last.ticket_code,
            ) by {
                assert(prefix[i] == s[i]);
                assert(s[s.len() - 1] == last);
            }
        }
        lemma_insert_keeps_bound(prefix, x, last.ticket_code);
        let inner = insert_by_code(prefix, x);
        let r = inner.push(last);
        assert forall|i: int, j: int| 0 <= i < j < r.len() implies lex_le(
            #[trigger] r[i].ticket_code,
            #[trigger] r[j].ticket_code,
        ) by {
            if j == inner.len() {
                assert(r[i] == inner[i]);
            } else {
                assert(r[i] == inner[i] && r[j] == inner[j]);
            }
        }
    }
}

/// Inserting adds exactly the new ticket.
proof fn lemma_insert_multiset(s: Seq<TicketView>, x: TicketView)
    ensures
        insert_by_code(s, x).to_multiset() == s.to_multiset().insert(x),
    decreases s.len(),
{
    broadcast use vstd::seq_lib::group_to_multiset_ensures;

    if s.len() == 0 {
        assert(seq![x] =~= s.push(x));
    } else if lex_le(s.last().ticket_code, x.ticket_code) {
    } else {
        let prefix = s.drop_last();
        lemma_insert_multiset(prefix, x);
        assert(s =~= prefix.push(s.last()));
        assert(insert_by_code(s, x).to_multiset() =~= s.to_multiset().insert(x));
    }
}

/// Sorting by code orders the tickets by code.
pub proof fn lemma_sorted_by_code_is_sorted(s: Seq<TicketView>)
    ensures
        sorted_codes(sorted_by_code(s)),
    decreases s.len(),
{
    if s.len() > 0 {
        lemma_sorted_by_code_is_sorted(s.drop_last());
        lemma_insert_keeps_sorted(sorted_by_code(s.drop_last()), s.last());
    }
}

/// Sorting by code keeps every ticket, as often as it occurs: it only reorders.
pub proof fn lemma_sorted_by_code_permutes(s: Seq<TicketView>)
    ensures
        sorted_by_code(s).to_multiset() == s.to_multiset(),
        sorted_by_code(s).len() == s.len(),
    decreases s.len(),
{
    broadcast use vstd::seq_lib::group_to_multiset_ensures;

    if s.len() > 0 {
        lemma_sorted_by_code_permutes(s.drop_last());
        lemma_insert_multiset(sorted_by_code(s.drop_last()), s.last());
        assert(s =~= s.drop_last().push(s.last()));
        assert(sorted_by_code(s).to_multiset() =~= s.to_multiset());
    }
    assert(sorted_by_code(s).len() == sorted_by_code(s).to_multiset().len());
    assert(s.len() == s.to_multiset().len());
}

/// Every ticket of `s` satisfies `p`.
pub open spec fn all_tickets(s: Seq<TicketView>, p: spec_fn(TicketView) -> bool) -> bool {
    forall|i: int| 0 <= i < s.len() ==> p(#[trigger] s[i])
}

/// Inserting a ticket that satisfies `p` into tickets that all do keeps it so.
proof fn lemma_insert_keeps_all(s: Seq<TicketView>, x: TicketView, p: spec_fn(TicketView) -> bool)
    requires
        all_tickets(s, p),
        p(x),
    ensures
        all_tickets(insert_by_code(s, x), p),
    decreases s.len(),
{
    if s.len() > 0 && !lex_le(s.last().ticket_code, x.ticket_code) {
        let prefix = s.drop_last();
        assert(all_tickets(prefix, p)) by {
            assert forall|i: int| 0 <= i < prefix.len() implies p(#[trigger] prefix[i]) by {
                assert(prefix[i] == s[i]);
            }
        }
        lemma_insert_keeps_all(prefix, x, p);
        assert(s[s.len() - 1] == s.last());
    } else if s.len() > 0 {
        assert forall|i: int| 0 <= i < s.push(x).len() implies p(#[trigger] s.push(x)[i]) by {
            if i < s.len() {
                assert(s.push(x)[i] == s[i]);
            }
        }
    }
}

/// Sorting keeps a property that every ticket has.
pub proof fn lemma_sort_keeps_all(s: Seq<TicketView>, p: spec_fn(TicketView) -> bool)
    requires
        all_tickets(s, p),
    ensures
        all_tickets(sorted_by_code(s), p),
    decreases s.len(),
{
    if s.len() > 0 {
        let prefix = s.drop_last();
        assert(all_tickets(prefix, p)) by {
            assert forall|i: int| 0 <= i < prefix.len() implies p(#[trigger] prefix[i]) by {
                assert(prefix[i] == s[i]);
            }
        }
        lemma_sort_keeps_all(prefix, p);
        assert(s[s.len() - 1] == s.last());
        lemma_insert_keeps_all(sorted_by_code(prefix), s.last(), p);
    }
}

/// No ticket of `s` has hash `h`.
pub open spec fn hash_absent(s: Seq<TicketView>, h: Seq<char>) -> bool {
    forall|i: int| 0 <= i < s.len() ==> (#[trigger] s[i]).ticket_hash != h
}

/// No two tickets of `s` share a hash.
pub open spec fn hashes_distinct(s: Seq<TicketView>) -> bool {
    forall|i: int, j: int|
        0 <= i < s.len() && 0 <= j < s.len() && i != j ==> (#[trigger] s[i]).ticket_hash != (
        #[trigger] s[j]).ticket_hash
}

/// Inserting a ticket with another hash keeps a hash absent.
proof fn lemma_insert_keeps_absent(s: Seq<TicketView>, x: TicketView, h: Seq<char>)
    requires
        hash_absent(s, h),
        x.ticket_hash != h,
    ensures
        hash_absent(insert_by_code(s, x), h),
    decreases s.len(),
{
    if s.len() > 0 && !lex_le(s.last().ticket_code, x.ticket_code) {
        let prefix = s.drop_last();
        assert(hash_absent(prefix, h)) by {
            assert forall|i: int| 0 <= i < prefix.len() implies (#[trigger] prefix[i]).ticket_hash != h by {
                assert(prefix[i] == s[i]);
            }
        }
        lemma_insert_keeps_absent(prefix, x, h);
        assert(s[s.len() - 1] == s.last());
    } else if s.len() > 0 {
        assert forall|i: int| 0 <= i < s.push(x).len() implies (#[trigger] s.push(x)[i]).ticket_hash != h by {
            if i < s.len() {
                assert(s.push(x)[i] == s[i]);
            }
        }
    }
}

/// Sorting keeps a hash absent.
proof fn lemma_sort_keeps_absent(s: Seq<TicketView>, h: Seq<char>)
    requires
        hash_absent(s, h),
    ensures
        hash_absent(sorted_by_code(s), h),
    decreases s.len(),
{
    if s.len() > 0 {
        let prefix = s.drop_last();
        assert(hash_absent(prefix, h)) by {
            assert forall|i: int| 0 <= i < prefix.len() implies (#[trigger] prefix[i]).ticket_hash != h by {
                assert(prefix[i] == s[i]);
            }
        }
        lemma_sort_keeps_absent(prefix, h);
        assert(s[s.len() - 1] == s.last());
        lemma_insert_keeps_absent(sorted_by_code(prefix), s.last(), h);
    }
}

/// Inserting a ticket with a new hash keeps the hashes distinct.
proof fn lemma_insert_keeps_distinct(s: Seq<TicketView>, x: TicketView)
    requires
        hashes_distinct(s),
        hash_absent(s, x.ticket_hash),
    ensures
        hashes_distinct(insert_by_code(s, x)),
    decreases s.len(),
{
    if s.len() == 0 {
    } else if lex_le(s.last().ticket_code, x.ticket_code) {
        let r = s.push(x);
        assert forall|i: int, j: int|
            0 <= i < r.len() && 0 <= j < r.len() && i != j implies (#[trigger] r[i]).ticket_hash != (
            #[trigger] r[j]).ticket_hash by {
            if i < s.len() {
                assert(r[i] == s[i]);
            }
            if j < s.len() {
                assert(r[j] == s[j]);
            }
        }
    } else {
        let prefix = s.drop_last();
        let last = s.last();
        assert(s[s.len() - 1] == last);
        assert(hashes_distinct(prefix)) by {
            assert forall|i: int, j: int|
                0 <= i < prefix.len() && 0 <= j < prefix.len() && i != j implies (
                #[trigger] prefix[i]).ticket_hash != (#[trigger] prefix[j]).ticket_hash by {
                assert(prefix[i] == s[i] && prefix[j] == s[j]);
            }
        }
        assert(hash_absent(prefix, x.ticket_hash)) by {
            assert forall|i: int| 0 <= i < prefix.len() implies (#[trigger] prefix[i]).ticket_hash
                != x.ticket_hash by {
                assert(prefix[i] == s[i]);
            }
        }
        assert(hash_absent(prefix, last.ticket_hash)) by {
            assert forall|i: int| 0 <= i < prefix.len() implies (#[trigger] prefix[i]).ticket_hash
                != last.ticket_hash by {
                assert(prefix[i] == s[i]);
            }
        }
        lemma_insert_keeps_distinct(prefix, x);
        lemma_insert_keeps_absent(prefix, x, last.ticket_hash);
        let inner = insert_by_code(prefix, x);
        let r = inner.push(last);
        assert forall|i: int, j: int|
            0 <= i < r.len() && 0 <= j < r.len() && i != j implies (#[trigger] r[i]).ticket_hash != (
            #[trigger] r[j]).ticket_hash by {
            if i < inner.len() {
                assert(r[i] == inner[i]);
            }
            if j < inner.len() {
                assert(r[j] == inner[j]);
            }
        }
    }
}

/// Sorting keeps the hashes distinct.
pub proof fn lemma_sort_keeps_hashes_distinct(s: Seq<TicketView>)
    requires
        hashes_distinct(s),
    ensures
        hashes_distinct(sorted_by_code(s)),
    decreases s.len(),
{
    if s.len() > 0 {
        let prefix = s.drop_last();
        let last = s.last();
        assert(s[s.len() - 1] == last);
        assert(hashes_distinct(prefix)) by {
            assert forall|i: int, j: int|
                0 <= i < prefix.len() && 0 <= j < prefix.len() && i != j implies (
                #[trigger] prefix[i]).ticket_hash != (#[trigger] prefix[j]).ticket_hash by {
                assert(prefix[i] == s[i] && prefix[j] == s[j]);
            }
        }
        assert(hash_absent(prefix, last.ticket_hash)) by {
            assert forall|i: int| 0 <= i < prefix.len() implies (#[trigger] prefix[i]).ticket_hash
                != last.ticket_hash by {
                assert(prefix[i] == s[i]);
            }
        }
        lemma_sort_keeps_hashes_distinct(prefix);
        lemma_sort_keeps_absent(prefix, last.ticket_hash);
        lemma_insert_keeps_distinct(sorted_by_code(prefix), last);
    }
}

} // verus!
