//! The double-entry invariant as arithmetic on values: per-commodity running totals, what they
//! add up to, and the law that every transaction the parser returns balances.
use crate::model::{AmountView, PostingView, TransactionView};
use crate::parser::{
    add_total, add_total_fits, balance_spec, collect_body, first_elided, first_elided_from,
    first_nonzero_from, is_ignored_directive, parse_amount_spec, parse_header_spec,
    parse_journal_spec, parse_lines, parse_posting_spec, parse_transaction_spec, posting_totals,
    posting_totals_fit, starts_with_date, total_index, total_index_from, elided_count,
    continues_transaction, comment_text, is_comment, is_indented, directive_rest, parse_tags_spec,
    digit_from, numeral_end, normalize_numeral_spec, split_comment, status_prefix,
    split_account_amount_spec, Outcome, ParsedView,
};

use crate::text::trim_end;
use crate::text::{trim, trim_start};
use crate::quantity::{lemma_negated_val, lemma_parsed_quantity_wf, lemma_plus_val, Quantity};
use vstd::prelude::*;

verus! {

// ---------------------------------------------------------------------------------------------
// Values of postings.
// ---------------------------------------------------------------------------------------------

/// The value (in units of 10^-28) a posting contributes to commodity `c`.
pub open spec fn amount_val(p: PostingView, c: Seq<char>) -> int {
    match p.amount {
        Some(a) => if a.commodity == c {
            a.quantity.val()
        } else {
            0
        },
        None => 0,
    }
}

/// The sum of the postings' values in commodity `c`.
pub open spec fn postings_val(ps: Seq<PostingView>, c: Seq<char>) -> int
    decreases ps.len(),
{
    if ps.len() == 0 {
        0
    } else {
        postings_val(ps.drop_last(), c) + amount_val(ps.last(), c)
    }
}

/// Whether every amount a posting carries is a valid decimal.
pub open spec fn postings_valid(ps: Seq<PostingView>) -> bool {
    forall|i: int| 0 <= i < ps.len() ==> match (#[trigger] ps[i]).amount {
        Some(a) => a.quantity.wf(),
        None => true,
    }
}

/// A balanced transaction: every posting carries an amount, and in every commodity the
/// postings sum to zero.
pub open spec fn txn_balanced(t: TransactionView) -> bool {
    &&& forall|i: int| 0 <= i < t.postings.len() ==> (#[trigger] t.postings[i]).amount is Some
    &&& forall|c: Seq<char>| #[trigger] postings_val(t.postings, c) == 0
}

// ---------------------------------------------------------------------------------------------
// Running totals.
// ---------------------------------------------------------------------------------------------

/// The value of commodity `c`'s running total (zero when it has none).
pub open spec fn tval(totals: Seq<(Seq<char>, Quantity)>, c: Seq<char>) -> int {
    match total_index(totals, c) {
        Some(k) => totals[k as int].1.val(),
        None => 0,
    }
}

/// Whether every running total is a valid decimal.
pub open spec fn totals_wf(totals: Seq<(Seq<char>, Quantity)>) -> bool {
    forall|i: int| 0 <= i < totals.len() ==> (#[trigger] totals[i]).1.wf()
}

pub proof fn lemma_index_from_first(totals: Seq<(Seq<char>, Quantity)>, c: Seq<char>, m: nat)
    ensures
        total_index_from(totals, c, m) matches Some(k) ==> m <= k < totals.len() && totals[k as int].0
            == c && forall|j: int| m <= j < k ==> totals[j].0 != c,
        total_index_from(totals, c, m) is None ==> forall|j: int|
            m <= j < totals.len() ==> totals[j].0 != c,
    decreases totals.len() - m,
{
    if m < totals.len() && totals[m as int].0 != c {
        lemma_index_from_first(totals, c, m + 1);
    }
}

pub proof fn lemma_index_from_is(totals: Seq<(Seq<char>, Quantity)>, c: Seq<char>, m: nat, k: nat)
    requires
        m <= k < totals.len(),
        totals[k as int].0 == c,
        forall|j: int| m <= j < k ==> totals[j].0 != c,
    ensures
        total_index_from(totals, c, m) == Some(k),
    decreases k - m,
{
    if m < k {
        lemma_index_from_is(totals, c, m + 1, k);
    }
}

pub proof fn lemma_index_from_none(totals: Seq<(Seq<char>, Quantity)>, c: Seq<char>, m: nat)
    requires
        forall|j: int| m <= j < totals.len() ==> totals[j].0 != c,
    ensures
        total_index_from(totals, c, m) is None,
    decreases totals.len() - m,
{
    if m < totals.len() {
        lemma_index_from_none(totals, c, m + 1);
    }
}

/// The position of a commodity's total depends only on the commodities' positions.
pub proof fn lemma_index_same_keys(
    a: Seq<(Seq<char>, Quantity)>,
    b: Seq<(Seq<char>, Quantity)>,
    c: Seq<char>,
)
    requires
        forall|j: int| 0 <= j < a.len() && j < b.len() ==> (a[j].0 == c <==> b[j].0 == c),
        forall|j: int| a.len() <= j < b.len() ==> b[j].0 != c,
        a.len() <= b.len(),
    ensures
        total_index(a, c) == total_index(b, c),
{
    lemma_index_from_first(a, c, 0);
    match total_index(a, c) {
        Some(k) => {
            lemma_index_from_is(b, c, 0, k);
        },
        None => {
            lemma_index_from_none(b, c, 0);
        },
    }
}

/// Adding a quantity into the running totals adds its value to its own commodity's total and
/// leaves the other totals' values alone; the totals stay valid.
pub proof fn lemma_tval_add_total(
    totals: Seq<(Seq<char>, Quantity)>,
    c2: Seq<char>,
    q: Quantity,
    c: Seq<char>,
)
    requires
        add_total_fits(totals, c2, q),
        totals_wf(totals),
        q.wf(),
    ensures
        tval(add_total(totals, c2, q), c) == tval(totals, c) + if c2 == c {
            q.val()
        } else {
            0
        },
        totals_wf(add_total(totals, c2, q)),
{
    let t2 = add_total(totals, c2, q);
    lemma_index_from_first(totals, c2, 0);
    lemma_index_from_first(totals, c, 0);
    match total_index(totals, c2) {
        Some(k) => {
            assert(totals[k as int].1.wf());
            lemma_plus_val(totals[k as int].1, q);
            lemma_index_same_keys(totals, t2, c);
            assert forall|i: int| 0 <= i < t2.len() implies (#[trigger] t2[i]).1.wf() by {
                if i != k {
                    assert(t2[i] == totals[i]);
                }
            }
        },
        None => {
            if c2 == c {
                lemma_index_from_is(t2, c, 0, totals.len());
            } else {
                lemma_index_same_keys(totals, t2, c);
            }
            assert forall|i: int| 0 <= i < t2.len() implies (#[trigger] t2[i]).1.wf() by {
                if i < totals.len() {
                    assert(t2[i] == totals[i]);
                }
            }
        },
    }
}

// ---------------------------------------------------------------------------------------------
// Every parsed transaction balances.
// ---------------------------------------------------------------------------------------------

/// The sum of the values in commodity `c` of the postings whose amount was written out.
pub open spec fn written_val(ps: Seq<PostingView>, c: Seq<char>) -> int
    decreases ps.len(),
{
    if ps.len() == 0 {
        0
    } else {
        written_val(ps.drop_last(), c) + if ps.last().was_elided {
            0
        } else {
            amount_val(ps.last(), c)
        }
    }
}

/// Postings as the parser makes them: an amount exactly when it was written out, and each
/// amount a valid decimal.
pub open spec fn postings_shaped(ps: Seq<PostingView>) -> bool {
    forall|i: int|
        0 <= i < ps.len() ==> ((#[trigger] ps[i]).was_elided <==> ps[i].amount is None) && match ps[i].amount {
            Some(a) => a.quantity.wf(),
            None => true,
        }
}

/// Whether the posting carries an amount in commodity `c`.
pub open spec fn amount_in(p: PostingView, c: Seq<char>) -> bool {
    match p.amount {
        Some(a) => a.commodity == c,
        None => false,
    }
}

/// Whether some written-out posting carries an amount in commodity `c`.
pub open spec fn writes_commodity(ps: Seq<PostingView>, c: Seq<char>) -> bool {
    exists|i: int|
        0 <= i < ps.len() && !ps[i].was_elided && amount_in(#[trigger] ps[i], c)
}

proof fn lemma_posting_totals(ps: Seq<PostingView>, c: Seq<char>)
    requires
        posting_totals_fit(ps),
        postings_shaped(ps),
    ensures
        tval(posting_totals(ps), c) == written_val(ps, c),
        totals_wf(posting_totals(ps)),
        total_index(posting_totals(ps), c) is Some <==> writes_commodity(ps, c),
        forall|j: int| 0 <= j < posting_totals(ps).len() ==> writes_commodity(ps, #[trigger] posting_totals(ps)[j].0),
    decreases ps.len(),
{
    if ps.len() == 0 {
        lemma_index_from_first(posting_totals(ps), c, 0);
    } else {
        let prev = ps.drop_last();
        assert(postings_shaped(prev)) by {
            assert forall|i: int| 0 <= i < prev.len() implies ((#[trigger] prev[i]).was_elided <==> prev[i].amount is None) && match prev[i].amount {
                Some(a) => a.quantity.wf(),
                None => true,
            } by {
                assert(prev[i] == ps[i]);
            }
        }
        lemma_posting_totals(prev, c);
        let p = ps.last();
        let tp = posting_totals(prev);
        assert(p == ps[ps.len() - 1]);
        assert forall|x: Seq<char>| writes_commodity(prev, x) implies writes_commodity(ps, x) by {
            let i = choose|i: int|
                0 <= i < prev.len() && !prev[i].was_elided && amount_in(#[trigger] prev[i], x);
            assert(ps[i] == prev[i]);
        }
        if !p.was_elided {
            let a = p.amount->0;
            lemma_tval_add_total(tp, a.commodity, a.quantity, c);
            lemma_posting_totals(prev, a.commodity);
            let t2 = add_total(tp, a.commodity, a.quantity);
            assert(writes_commodity(ps, a.commodity));
            lemma_index_from_first(tp, c, 0);
            lemma_index_from_first(t2, c, 0);
            lemma_index_from_first(tp, a.commodity, 0);
            assert(posting_totals(ps) == t2);
            if c == a.commodity {
                assert(writes_commodity(ps, c));
                match total_index(tp, a.commodity) {
                    Some(k) => {
                        assert(t2[k as int].0 == c);
                    },
                    None => {
                        assert(t2[tp.len() as int].0 == c);
                    },
                }
                assert(total_index(t2, c) is Some);
            }
            if c != a.commodity {
                lemma_index_same_keys(tp, t2, c);
                if writes_commodity(ps, c) {
                    let i = choose|i: int|
                        0 <= i < ps.len() && !ps[i].was_elided && amount_in(#[trigger] ps[i], c);
                    assert(i != ps.len() - 1);
                    assert(prev[i] == ps[i]);
                    assert(writes_commodity(prev, c));
                }
                if total_index(t2, c) is Some {
                    assert(writes_commodity(prev, c));
                    assert(writes_commodity(ps, c));
                }
            }
            assert forall|j: int| 0 <= j < t2.len() implies writes_commodity(ps, #[trigger] t2[j].0) by {
                if j < tp.len() {
                    match total_index(tp, a.commodity) {
                        Some(k) => {
                            if j == k {
                                assert(t2[j].0 == a.commodity);
                            } else {
                                assert(t2[j] == tp[j]);
                                assert(writes_commodity(prev, tp[j].0));
                            }
                        },
                        None => {
                            assert(t2[j] == tp[j]);
                            assert(writes_commodity(prev, tp[j].0));
                        },
                    }
                } else {
                    assert(t2[j].0 == a.commodity);
                }
            }
        } else {
            assert(p.amount is None);
            assert(posting_totals(ps) == tp);
            if total_index(tp, c) is Some {
                assert(writes_commodity(prev, c));
                assert(writes_commodity(ps, c));
            }
            if writes_commodity(ps, c) {
                let i = choose|i: int|
                    0 <= i < ps.len() && !ps[i].was_elided && amount_in(#[trigger] ps[i], c);
                assert(prev[i] == ps[i]);
            }
            assert forall|j: int| 0 <= j < tp.len() implies writes_commodity(ps, #[trigger] tp[j].0) by {
                assert(writes_commodity(prev, tp[j].0));
            }
        }
    }
}

proof fn lemma_postings_val_written(ps: Seq<PostingView>, c: Seq<char>)
    requires
        postings_shaped(ps),
    ensures
        postings_val(ps, c) == written_val(ps, c),
    decreases ps.len(),
{
    if ps.len() > 0 {
        let prev = ps.drop_last();
        assert forall|i: int| 0 <= i < prev.len() implies ((#[trigger] prev[i]).was_elided <==> prev[i].amount is None) && match prev[i].amount {
            Some(a) => a.quantity.wf(),
            None => true,
        } by {
            assert(prev[i] == ps[i]);
        }
        lemma_postings_val_written(prev, c);
        assert(ps.last() == ps[ps.len() - 1]);
    }
}

proof fn lemma_postings_val_update(ps: Seq<PostingView>, k: int, p2: PostingView, c: Seq<char>)
    requires
        0 <= k < ps.len(),
    ensures
        postings_val(ps.update(k, p2), c) == postings_val(ps, c) - amount_val(ps[k], c) + amount_val(
            p2,
            c,
        ),
    decreases ps.len(),
{
    let u = ps.update(k, p2);
    if k == ps.len() - 1 {
        assert(u.drop_last() =~= ps.drop_last());
    } else {
        lemma_postings_val_update(ps.drop_last(), k, p2, c);
        assert(u.drop_last() =~= ps.drop_last().update(k, p2));
        assert(u.last() == ps.last());
    }
}

proof fn lemma_elided_positive(ps: Seq<PostingView>, k: int)
    requires
        0 <= k < ps.len(),
        ps[k].was_elided,
    ensures
        elided_count(ps) >= 1,
    decreases ps.len(),
{
    if k < ps.len() - 1 {
        lemma_elided_positive(ps.drop_last(), k);
    }
}

proof fn lemma_one_elided(ps: Seq<PostingView>, j: int, k: int)
    requires
        0 <= j < ps.len(),
        0 <= k < ps.len(),
        ps[j].was_elided,
        ps[k].was_elided,
        elided_count(ps) <= 1,
    ensures
        j == k,
    decreases ps.len(),
{
    let n = ps.len() - 1;
    if j < n && k < n {
        lemma_one_elided(ps.drop_last(), j, k);
    } else if j == n && k < n {
        lemma_elided_positive(ps.drop_last(), k);
    } else if k == n && j < n {
        lemma_elided_positive(ps.drop_last(), j);
    }
}

proof fn lemma_first_elided(ps: Seq<PostingView>, m: nat)
    ensures
        first_elided_from(ps, m) matches Some(k) ==> m <= k < ps.len() && ps[k as int].was_elided,
        first_elided_from(ps, m) is None ==> forall|j: int| m <= j < ps.len() ==> !ps[j].was_elided,
    decreases ps.len() - m,
{
    if m < ps.len() && !ps[m as int].was_elided {
        lemma_first_elided(ps, m + 1);
    }
}

proof fn lemma_first_nonzero(totals: Seq<(Seq<char>, Quantity)>, m: nat)
    ensures
        first_nonzero_from(totals, m) is None ==> forall|j: int|
            m <= j < totals.len() ==> totals[j].1.val() == 0,
    decreases totals.len() - m,
{
    if m < totals.len() && totals[m as int].1.val() == 0 {
        lemma_first_nonzero(totals, m + 1);
    }
}

/// A transaction that balancing accepts is balanced, and its amounts are valid decimals.
pub proof fn lemma_balance_done(t: TransactionView, file: Seq<char>)
    requires
        postings_shaped(t.postings),
    ensures
        balance_spec(t, file) matches Outcome::Done(t2) ==> txn_balanced(t2) && postings_valid(
            t2.postings,
        ),
{
    let ps = t.postings;
    if let Outcome::Done(t2) = balance_spec(t, file) {
        let totals = posting_totals(ps);
        assert(posting_totals_fit(ps));
        assert(elided_count(ps) <= 1);
        lemma_first_elided(ps, 0);
        match first_elided(ps) {
            Some(k) => {
                let c0 = totals[0].0;
                let q0 = totals[0].1;
                let filled = PostingView {
                    amount: Some(AmountView { quantity: q0.negated(), commodity: c0 }),
                    ..ps[k as int]
                };
                assert(t2.postings == ps.update(k as int, filled));
                lemma_posting_totals(ps, c0);
                assert(totals_wf(totals));
                assert(q0.wf());
                lemma_negated_val(q0);
                assert(q0.negated().wf()) by {
                    crate::quantity::lemma_negated_wf(q0);
                }
                assert forall|i: int| 0 <= i < t2.postings.len() implies (#[trigger] t2.postings[i]).amount is Some by {
                    if i != k {
                        if ps[i].was_elided {
                            lemma_one_elided(ps, i, k as int);
                        }
                    }
                }
                assert forall|c: Seq<char>| #[trigger] postings_val(t2.postings, c) == 0 by {
                    lemma_postings_val_update(ps, k as int, filled, c);
                    lemma_postings_val_written(ps, c);
                    lemma_posting_totals(ps, c);
                    lemma_index_from_first(totals, c, 0);
                    assert(ps[k as int].amount is None);
                    if c == c0 {
                        lemma_index_from_is(totals, c, 0, 0);
                    }
                }
                assert forall|i: int| 0 <= i < t2.postings.len() implies match (#[trigger] t2.postings[i]).amount {
                    Some(a) => a.quantity.wf(),
                    None => true,
                } by {
                    if i != k {
                        assert(t2.postings[i] == ps[i]);
                    }
                }
            },
            None => {
                assert(t2 == t);
                lemma_first_nonzero(totals, 0);
                assert forall|i: int| 0 <= i < ps.len() implies (#[trigger] ps[i]).amount is Some by {
                    assert(!ps[i].was_elided);
                }
                assert forall|c: Seq<char>| #[trigger] postings_val(ps, c) == 0 by {
                    lemma_postings_val_written(ps, c);
                    lemma_posting_totals(ps, c);
                    lemma_index_from_first(totals, c, 0);
                }
                assert forall|i: int| 0 <= i < ps.len() implies match (#[trigger] ps[i]).amount {
                    Some(a) => a.quantity.wf(),
                    None => true,
                } by {
                }
            },
        }
    }
}

proof fn lemma_amount_wf(s0: Seq<char>)
    ensures
        parse_amount_spec(s0) matches Ok(v) ==> v.quantity.wf(),
{
    let s = trim(s0);
    if s.len() > 0 {
        if let Some(fd) = digit_from(s, 0) {
            let prefix = s.take(fd as int);
            let negative = prefix.contains('-');
            let end = numeral_end(s, fd);
            let numeral = normalize_numeral_spec(s.subrange(fd as int, end as int));
            let signed = if negative {
                seq!['-'] + numeral
            } else {
                numeral
            };
            lemma_parsed_quantity_wf(signed);
        }
    }
}

/// A posting the parser reads carries an amount exactly when one was written, and it is a
/// valid decimal.
proof fn lemma_posting_shaped(content: Seq<char>, file: Seq<char>, line: nat)
    ensures
        parse_posting_spec(content, file, line) matches Ok(p) ==> (p.was_elided <==> p.amount is None)
            && match p.amount {
            Some(a) => a.quantity.wf(),
            None => true,
        },
{
    let (main0, comment) = split_comment(trim_end(content));
    let (status, main) = status_prefix(trim(main0));
    let (account, amount_text) = split_account_amount_spec(main);
    if let Some(a) = amount_text {
        lemma_amount_wf(a);
    }
}

proof fn lemma_collect_body_shaped(lines: Seq<Seq<char>>, i: nat, file: Seq<char>, t: TransactionView)
    requires
        postings_shaped(t.postings),
    ensures
        collect_body(lines, i, file, t) matches Ok((t2, _)) ==> postings_shaped(t2.postings),
    decreases lines.len() - i,
{
    if i < lines.len() && continues_transaction(lines[i as int]) {
        let content = trim_start(lines[i as int]);
        if is_comment(content) {
            lemma_collect_body_shaped(
                lines,
                i + 1,
                file,
                TransactionView { tags: t.tags + parse_tags_spec(comment_text(content)), ..t },
            );
        } else {
            lemma_posting_shaped(content, file, i + 1);
            if let Ok(p) = parse_posting_spec(content, file, i + 1) {
                let ps = t.postings.push(p);
                assert forall|k: int| 0 <= k < ps.len() implies ((#[trigger] ps[k]).was_elided
                    <==> ps[k].amount is None) && match ps[k].amount {
                    Some(a) => a.quantity.wf(),
                    None => true,
                } by {
                    if k < t.postings.len() {
                        assert(ps[k] == t.postings[k]);
                    }
                }
                lemma_collect_body_shaped(
                    lines,
                    i + 1,
                    file,
                    TransactionView { postings: ps, ..t },
                );
            }
        }
    }
}

/// Whether every transaction is balanced and its amounts are valid decimals.
pub open spec fn all_balanced(ts: Seq<TransactionView>) -> bool {
    forall|k: int| 0 <= k < ts.len() ==> txn_balanced(#[trigger] ts[k]) && postings_valid(ts[k].postings)
}

/// Reordering transactions keeps every one of them balanced.
pub proof fn lemma_balanced_permutation(s: Seq<TransactionView>, t: Seq<TransactionView>)
    requires
        s.to_multiset() == t.to_multiset(),
        all_balanced(s),
    ensures
        all_balanced(t),
{
    assert forall|k: int| 0 <= k < t.len() implies txn_balanced(#[trigger] t[k]) && postings_valid(
        t[k].postings,
    ) by {
        vstd::seq_lib::to_multiset_contains(t, t[k]);
        vstd::seq_lib::to_multiset_contains(s, t[k]);
        assert(t.contains(t[k]));
        let j = choose|j: int| 0 <= j < s.len() && s[j] == t[k];
        assert(txn_balanced(s[j]) && postings_valid(s[j].postings));
    }
}

proof fn lemma_parse_transaction_balanced(lines: Seq<Seq<char>>, start: nat, file: Seq<char>)
    requires
        start < lines.len(),
    ensures
        parse_transaction_spec(lines, start, file) matches Outcome::Done((t3, _)) ==> txn_balanced(t3)
            && postings_valid(t3.postings),
{
    if let Ok(t) = parse_header_spec(lines[start as int], file, start + 1) {
        assert(t.postings.len() == 0);
        lemma_collect_body_shaped(lines, start + 1, file, t);
        if let Ok((t2, next)) = collect_body(lines, start + 1, file, t) {
            lemma_balance_done(t2, file);
        }
    }
}

proof fn lemma_parse_lines_balanced(lines: Seq<Seq<char>>, i: nat, file: Seq<char>, acc: ParsedView)
    requires
        all_balanced(acc.transactions),
    ensures
        parse_lines(lines, i, file, acc) matches Outcome::Done(pv) ==> all_balanced(pv.transactions),
    decreases lines.len() - i,
{
    if i < lines.len() {
        let raw = lines[i as int];
        let t = trim(raw);
        if t.len() == 0 {
            lemma_parse_lines_balanced(lines, i + 1, file, acc);
        } else if is_indented(raw) {
        } else if is_comment(t) {
            lemma_parse_lines_balanced(lines, i + 1, file, acc);
        } else if directive_rest(t, "include"@) is Some {
            let rest = directive_rest(t, "include"@)->0;
            let inc = crate::parser::IncludeView {
                path: trim(rest),
                source: crate::model::SourceView { file, line: i + 1 },
            };
            lemma_parse_lines_balanced(
                lines,
                i + 1,
                file,
                ParsedView { includes: acc.includes.push(inc), ..acc },
            );
        } else if is_ignored_directive(t) {
            lemma_parse_lines_balanced(lines, i + 1, file, acc);
        } else if starts_with_date(t) {
            lemma_parse_transaction_balanced(lines, i, file);
            if let Outcome::Done((txn, n)) = parse_transaction_spec(lines, i, file) {
                if 0 < n && i + n <= lines.len() {
                    let ts = acc.transactions.push(txn);
                    assert forall|k: int| 0 <= k < ts.len() implies txn_balanced(#[trigger] ts[k])
                        && postings_valid(ts[k].postings) by {
                        if k < acc.transactions.len() {
                            assert(ts[k] == acc.transactions[k]);
                        }
                    }
                    lemma_parse_lines_balanced(
                        lines,
                        i + n,
                        file,
                        ParsedView { transactions: ts, ..acc },
                    );
                }
            }
        }
    }
}

/// A transaction as the parser hands it out: it has postings, and at most one of them had its
/// amount elided.
pub open spec fn txn_shaped(t: TransactionView) -> bool {
    t.postings.len() > 0 && elided_count(t.postings) <= 1
}

proof fn lemma_elided_count_update(ps: Seq<PostingView>, k: int, p: PostingView)
    requires
        0 <= k < ps.len(),
        p.was_elided == ps[k].was_elided,
    ensures
        elided_count(ps.update(k, p)) == elided_count(ps),
    decreases ps.len(),
{
    let u = ps.update(k, p);
    if k == ps.len() - 1 {
        assert(u.drop_last() =~= ps.drop_last());
    } else {
        lemma_elided_count_update(ps.drop_last(), k, p);
        assert(u.drop_last() =~= ps.drop_last().update(k, p));
    }
}

proof fn lemma_parse_transaction_shaped(lines: Seq<Seq<char>>, start: nat, file: Seq<char>)
    requires
        start < lines.len(),
    ensures
        parse_transaction_spec(lines, start, file) matches Outcome::Done((t3, _)) ==> txn_shaped(t3),
{
    if let Ok(t) = parse_header_spec(lines[start as int], file, start + 1) {
        if let Ok((t2, next)) = collect_body(lines, start + 1, file, t) {
            let ps = t2.postings;
            if let Outcome::Done(t3) = balance_spec(t2, file) {
                if let Some(k) = first_elided(ps) {
                    lemma_first_elided(ps, 0);
                    let totals = posting_totals(ps);
                    let filled = PostingView {
                        amount: Some(AmountView { quantity: totals[0].1.negated(), commodity: totals[0].0 }),
                        ..ps[k as int]
                    };
                    lemma_elided_count_update(ps, k as int, filled);
                }
            }
        }
    }
}

proof fn lemma_parse_lines_shaped(lines: Seq<Seq<char>>, i: nat, file: Seq<char>, acc: ParsedView)
    requires
        forall|k: int| 0 <= k < acc.transactions.len() ==> txn_shaped(#[trigger] acc.transactions[k]),
    ensures
        parse_lines(lines, i, file, acc) matches Outcome::Done(pv) ==> forall|k: int|
            0 <= k < pv.transactions.len() ==> txn_shaped(#[trigger] pv.transactions[k]),
    decreases lines.len() - i,
{
    if i < lines.len() {
        let raw = lines[i as int];
        let t = trim(raw);
        if t.len() == 0 {
            lemma_parse_lines_shaped(lines, i + 1, file, acc);
        } else if is_indented(raw) {
        } else if is_comment(t) {
            lemma_parse_lines_shaped(lines, i + 1, file, acc);
        } else if directive_rest(t, "include"@) is Some {
            let rest = directive_rest(t, "include"@)->0;
            let inc = crate::parser::IncludeView {
                path: trim(rest),
                source: crate::model::SourceView { file, line: i + 1 },
            };
            lemma_parse_lines_shaped(
                lines,
                i + 1,
                file,
                ParsedView { includes: acc.includes.push(inc), ..acc },
            );
        } else if is_ignored_directive(t) {
            lemma_parse_lines_shaped(lines, i + 1, file, acc);
        } else if starts_with_date(t) {
            lemma_parse_transaction_shaped(lines, i, file);
            if let Outcome::Done((txn, n)) = parse_transaction_spec(lines, i, file) {
                if 0 < n && i + n <= lines.len() {
                    let ts = acc.transactions.push(txn);
                    assert forall|k: int| 0 <= k < ts.len() implies txn_shaped(#[trigger] ts[k]) by {
                        if k < acc.transactions.len() {
                            assert(ts[k] == acc.transactions[k]);
                        }
                    }
                    lemma_parse_lines_shaped(lines, i + n, file, ParsedView { transactions: ts, ..acc });
                }
            }
        }
    }
}

/// Every transaction the parser accepts has at least one posting, and at most one posting whose
/// amount was elided (and then inferred).
pub proof fn law_parsed_transactions_shaped(content: Seq<char>, file: Seq<char>)
    ensures
        parse_journal_spec(content, file) matches Outcome::Done(pv) ==> forall|k: int|
            0 <= k < pv.transactions.len() ==> txn_shaped(#[trigger] pv.transactions[k]),
{
    lemma_parse_lines_shaped(
        crate::parser::lines_of(content),
        0,
        file,
        ParsedView { transactions: Seq::empty(), includes: Seq::empty() },
    );
}

proof fn lemma_elided_none(ps: Seq<PostingView>)
    ensures
        elided_count(ps) == 0 <==> forall|i: int| 0 <= i < ps.len() ==> !(#[trigger] ps[i]).was_elided,
    decreases ps.len(),
{
    if ps.len() > 0 {
        let prev = ps.drop_last();
        lemma_elided_none(prev);
        assert forall|i: int| 0 <= i < prev.len() implies prev[i] == ps[i] by {}
        assert(ps.last() == ps[ps.len() - 1]);
    }
}

proof fn lemma_first_nonzero_from(totals: Seq<(Seq<char>, Quantity)>, k: nat)
    ensures
        first_nonzero_from(totals, k) is Some <==> exists|j: int|
            k <= j < totals.len() && (#[trigger] totals[j]).1.val() != 0,
    decreases totals.len() - k,
{
    if k < totals.len() {
        lemma_first_nonzero_from(totals, k + 1);
        if totals[k as int].1.val() == 0 && exists|j: int| k <= j < totals.len() && (#[trigger] totals[j]).1.val() != 0 {
            let j = choose|j: int| k <= j < totals.len() && (#[trigger] totals[j]).1.val() != 0;
            assert(j != k);
        }
    }
}

/// What balancing a transaction gives: an error, on its header's line, exactly when it has no
/// postings, more than one elided amount, an elided amount with no single commodity to take it
/// from, or (with none elided) a commodity whose postings do not sum to zero; no answer when a
/// sum is not exact; and otherwise the transaction with every field kept, every posting with
/// an amount kept, and the elided posting given minus the sum of the others.
pub proof fn law_balance_outcome(t: TransactionView, file: Seq<char>)
    ensures
        balance_spec(t, file) matches Outcome::Failed(e) ==> e.file == file && e.line
            == t.source.line,
        (balance_spec(t, file) is Failed) <==> (t.postings.len() == 0 || elided_count(t.postings)
            > 1 || (posting_totals_fit(t.postings) && if elided_count(t.postings) == 1 {
            posting_totals(t.postings).len() != 1
        } else {
            exists|j: int|
                0 <= j < posting_totals(t.postings).len() && (#[trigger] posting_totals(
                    t.postings,
                )[j]).1.val() != 0
        })),
        (balance_spec(t, file) is TooLarge) <==> (t.postings.len() > 0 && elided_count(t.postings)
            <= 1 && !posting_totals_fit(t.postings)),
        balance_spec(t, file) matches Outcome::Done(t2) ==> {
            &&& t2 == (TransactionView { postings: t2.postings, ..t })
            &&& t2.postings.len() == t.postings.len()
            &&& forall|i: int|
                0 <= i < t.postings.len() ==> (#[trigger] t2.postings[i]) == if t.postings[i].was_elided {
                    PostingView {
                        amount: Some(
                            AmountView {
                                quantity: posting_totals(t.postings)[0].1.negated(),
                                commodity: posting_totals(t.postings)[0].0,
                            },
                        ),
                        ..t.postings[i]
                    }
                } else {
                    t.postings[i]
                }
        },
{
    let ps = t.postings;
    let totals = posting_totals(ps);
    lemma_elided_none(ps);
    lemma_first_elided(ps, 0);
    lemma_first_nonzero_from(totals, 0);
    if ps.len() > 0 && elided_count(ps) <= 1 && posting_totals_fit(ps) {
        match first_elided(ps) {
            Some(k) => {
                assert(elided_count(ps) != 0);
                assert(elided_count(ps) == 1);
                if totals.len() == 1 {
                    let filled = PostingView {
                        amount: Some(AmountView { quantity: totals[0].1.negated(), commodity: totals[0].0 }),
                        ..ps[k as int]
                    };
                    assert forall|i: int| 0 <= i < ps.len() implies (#[trigger] ps.update(k as int, filled)[i]) == if ps[i].was_elided {
                        PostingView {
                            amount: Some(AmountView { quantity: totals[0].1.negated(), commodity: totals[0].0 }),
                            ..ps[i]
                        }
                    } else {
                        ps[i]
                    } by {
                        if ps[i].was_elided {
                            lemma_one_elided(ps, i, k as int);
                        }
                    }
                }
            },
            None => {
                assert(elided_count(ps) == 0);
            },
        }
    }
}

/// The index of the first line from `i` on that does not continue a transaction (a blank or
/// unindented line, or the end).
pub open spec fn body_end(lines: Seq<Seq<char>>, i: nat) -> nat
    decreases lines.len() - i,
{
    if i >= lines.len() || !continues_transaction(lines[i as int]) {
        i
    } else {
        body_end(lines, i + 1)
    }
}

/// The number of lines in `lines[i..j]` that are not comment lines.
pub open spec fn posting_lines(lines: Seq<Seq<char>>, i: nat, j: nat) -> nat
    decreases j - i,
{
    if i >= j {
        0
    } else {
        (if is_comment(trim_start(lines[i as int])) {
            0nat
        } else {
            1nat
        }) + posting_lines(lines, i + 1, j)
    }
}

proof fn lemma_body_end(lines: Seq<Seq<char>>, i: nat)
    ensures
        i <= body_end(lines, i),
        body_end(lines, i) <= lines.len() || body_end(lines, i) == i,
        forall|j: int| i <= j < body_end(lines, i) ==> continues_transaction(#[trigger] lines[j]),
        body_end(lines, i) < lines.len() ==> !continues_transaction(lines[body_end(lines, i) as int]),
    decreases lines.len() - i,
{
    if i < lines.len() && continues_transaction(lines[i as int]) {
        lemma_body_end(lines, i + 1);
    }
}

proof fn lemma_collect_body_counts(lines: Seq<Seq<char>>, i: nat, file: Seq<char>, t: TransactionView)
    ensures
        collect_body(lines, i, file, t) matches Ok((t2, next)) ==> next == body_end(lines, i)
            && t2.postings.len() == t.postings.len() + posting_lines(lines, i, next) && t2.source
            == t.source,
    decreases lines.len() - i,
{
    if i < lines.len() && continues_transaction(lines[i as int]) {
        let content = trim_start(lines[i as int]);
        if is_comment(content) {
            let t1 = TransactionView { tags: t.tags + parse_tags_spec(comment_text(content)), ..t };
            lemma_collect_body_counts(lines, i + 1, file, t1);
        } else if let Ok(p) = parse_posting_spec(content, file, i + 1) {
            let t1 = TransactionView { postings: t.postings.push(p), ..t };
            lemma_collect_body_counts(lines, i + 1, file, t1);
        }
        if let Ok((t2, next)) = collect_body(lines, i, file, t) {
            lemma_body_end(lines, i + 1);
        }
    }
}

/// A parsed transaction takes up its header line and every following line that continues it
/// (non-blank and indented), and no more: the count returned is one plus the number of those
/// lines, it stops at the first line that does not continue it, the transaction has one posting
/// per such line that is not a comment line, and it is placed at its header's line.
pub proof fn law_transaction_extent(lines: Seq<Seq<char>>, start: nat, file: Seq<char>)
    requires
        start < lines.len(),
    ensures
        parse_transaction_spec(lines, start, file) matches Outcome::Done((t, n)) ==> {
            &&& n >= 1
            &&& start + n == body_end(lines, start + 1)
            &&& forall|j: int| start + 1 <= j < start + n ==> continues_transaction(#[trigger] lines[j])
            &&& start + n < lines.len() ==> !continues_transaction(lines[start + n as int])
            &&& t.postings.len() == posting_lines(lines, start + 1, start + n)
            &&& t.source.file == file && t.source.line == start + 1
        },
{
    lemma_body_end(lines, start + 1);
    if let Ok(t) = parse_header_spec(lines[start as int], file, start + 1) {
        lemma_collect_body_counts(lines, start + 1, file, t);
        if let Ok((t2, next)) = collect_body(lines, start + 1, file, t) {
            law_balance_outcome(t2, file);
        }
    }
}

/// Double entry: every transaction the parser accepts is balanced, with every posting carrying
/// an amount (an elided one inferred) and the postings summing to zero in every commodity.
pub proof fn lemma_parsed_transactions_balance(content: Seq<char>, file: Seq<char>)
    ensures
        parse_journal_spec(content, file) matches Outcome::Done(pv) ==> all_balanced(pv.transactions),
{
    lemma_parse_lines_balanced(
        crate::parser::lines_of(content),
        0,
        file,
        ParsedView { transactions: Seq::empty(), includes: Seq::empty() },
    );
}

} // verus!
