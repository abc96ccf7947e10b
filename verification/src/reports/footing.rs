//! Why the reports add up: the leaf balances of a ledger, commodity by commodity, sum to what
//! the ledger's postings sum to, which is zero when every transaction balances. From this the
//! trial balance foots, the balance sheet balances, and the income statement's bottom line
//! agrees with the net income the balance sheet folds into Equity.
use crate::balance::{
    all_balanced, amount_val, lemma_index_same_keys, lemma_tval_add_total, postings_val,
    postings_valid, totals_wf, tval, txn_balanced,
};
use crate::ledger::{
    amount_account_set, exactly, flat_postings, within, sorted_seq, strictly_sorted, totals_for,
    totals_for_fit, Ledger,
};
use crate::model::{account_under, PostingView, TransactionView};
use crate::parser::{add_total, total_index};
use crate::quantity::{
    all_wf, lemma_negated_val, lemma_negated_wf, lemma_qsum_val, val_sum, Quantity,
};
use crate::reports::{leaf_rows, nonzero_rows, rows_in, rows_of, LeafView};
use crate::reports::trial_balance::{
    columns_fit, credits, debits, section_balanced, tb_row, tb_rows, tb_section, trial_balance_spec,
};
use crate::quantity::{lemma_minus_val, lemma_plus_val, lemma_zero_val, qsum_fits};
use crate::account_types::{classify_spec, AccountType};
use crate::reports::rows_where;
use crate::reports::sections::{amounts, of_type, quantities, recognized, signed_rows, RowView};
use crate::reports::balance_sheet::{
    balance_sheet_spec, equity_rows, expense_total, income_total, sheet_balanced, sheet_spec,
    sheet_sums_fit, unclosed_net_income,
};
use crate::reports::income_statement::{net_income_spec, statement_spec, statement_sums_fit};
use crate::text::{lemma_seq_less_irreflexive, lemma_seq_less_total, lemma_seq_less_trans, seq_less};
use vstd::prelude::*;

verus! {

// ---------------------------------------------------------------------------------------------
// Values of entries and accounts.
// ---------------------------------------------------------------------------------------------

/// The sum of the entries' values in commodity `c`.
pub open spec fn entries_val(es: Seq<(TransactionView, PostingView)>, c: Seq<char>) -> int
    decreases es.len(),
{
    if es.len() == 0 {
        0
    } else {
        entries_val(es.drop_last(), c) + amount_val(es.last().1, c)
    }
}

/// The sum of the values in commodity `c` posted to exactly account `a`.
pub open spec fn account_val(es: Seq<(TransactionView, PostingView)>, a: Seq<char>, c: Seq<char>) -> int
    decreases es.len(),
{
    if es.len() == 0 {
        0
    } else {
        account_val(es.drop_last(), a, c) + if es.last().1.account == a {
            amount_val(es.last().1, c)
        } else {
            0
        }
    }
}

/// The sum over the accounts `accts` of what is posted to each in commodity `c`.
pub open spec fn accounts_val(
    es: Seq<(TransactionView, PostingView)>,
    accts: Seq<Seq<char>>,
    c: Seq<char>,
) -> int
    decreases accts.len(),
{
    if accts.len() == 0 {
        0
    } else {
        accounts_val(es, accts.drop_last(), c) + account_val(es, accts.last(), c)
    }
}

/// The sum of the leaf balances' values.
pub open spec fn leaf_val(rows: Seq<LeafView>) -> int
    decreases rows.len(),
{
    if rows.len() == 0 {
        0
    } else {
        leaf_val(rows.drop_last()) + rows.last().2.val()
    }
}

/// Whether every amount the entries carry is a valid decimal.
pub open spec fn entries_valid(es: Seq<(TransactionView, PostingView)>) -> bool {
    forall|i: int| 0 <= i < es.len() ==> match (#[trigger] es[i]).1.amount {
        Some(a) => a.quantity.wf(),
        None => true,
    }
}

/// Whether no two running totals share a commodity.
pub open spec fn keys_distinct(totals: Seq<(Seq<char>, Quantity)>) -> bool {
    forall|i: int, j: int| 0 <= i < j < totals.len() ==> totals[i].0 != totals[j].0
}

// ---------------------------------------------------------------------------------------------
// Leaf totals.
// ---------------------------------------------------------------------------------------------

proof fn lemma_add_total_distinct(totals: Seq<(Seq<char>, Quantity)>, c2: Seq<char>, q: Quantity)
    requires
        keys_distinct(totals),
    ensures
        keys_distinct(add_total(totals, c2, q)),
{
    let t2 = add_total(totals, c2, q);
    crate::balance::lemma_index_from_first(totals, c2, 0);
    match total_index(totals, c2) {
        Some(k) => {
            assert forall|i: int, j: int| 0 <= i < j < t2.len() implies t2[i].0 != t2[j].0 by {
                assert(t2[i].0 == totals[i].0);
                assert(t2[j].0 == totals[j].0);
            }
        },
        None => {
            assert forall|i: int, j: int| 0 <= i < j < t2.len() implies t2[i].0 != t2[j].0 by {
                assert(t2[i] == totals[i]);
                if j < totals.len() {
                    assert(t2[j] == totals[j]);
                }
            }
        },
    }
}

/// An account's running totals hold, per commodity, exactly what is posted to the account.
pub proof fn lemma_leaf_totals(es: Seq<(TransactionView, PostingView)>, a: Seq<char>, c: Seq<char>)
    requires
        totals_for_fit(es, exactly(a)),
        entries_valid(es),
    ensures
        tval(totals_for(es, exactly(a)), c) == account_val(es, a, c),
        totals_wf(totals_for(es, exactly(a))),
        keys_distinct(totals_for(es, exactly(a))),
    decreases es.len(),
{
    if es.len() == 0 {
        crate::balance::lemma_index_from_first(totals_for(es, exactly(a)), c, 0);
    } else {
        let prev = es.drop_last();
        assert forall|i: int| 0 <= i < prev.len() implies match (#[trigger] prev[i]).1.amount {
            Some(x) => x.quantity.wf(),
            None => true,
        } by {
            assert(prev[i] == es[i]);
        }
        lemma_leaf_totals(prev, a, c);
        let p = es.last().1;
        assert(es.last() == es[es.len() - 1]);
        if p.account == a {
            if let Some(am) = p.amount {
                lemma_tval_add_total(totals_for(prev, exactly(a)), am.commodity, am.quantity, c);
                lemma_add_total_distinct(totals_for(prev, exactly(a)), am.commodity, am.quantity);
            }
        }
    }
}

/// The sum of the values in commodity `c` posted to the accounts `sel` selects.
pub open spec fn selected_val(
    es: Seq<(TransactionView, PostingView)>,
    sel: spec_fn(Seq<char>) -> bool,
    c: Seq<char>,
) -> int
    decreases es.len(),
{
    if es.len() == 0 {
        0
    } else {
        selected_val(es.drop_last(), sel, c) + if sel(es.last().1.account) {
            amount_val(es.last().1, c)
        } else {
            0
        }
    }
}

/// The running totals for the selected accounts hold, per commodity, what is posted to them.
proof fn lemma_selected_totals(
    es: Seq<(TransactionView, PostingView)>,
    sel: spec_fn(Seq<char>) -> bool,
    c: Seq<char>,
)
    requires
        totals_for_fit(es, sel),
        entries_valid(es),
    ensures
        tval(totals_for(es, sel), c) == selected_val(es, sel, c),
        totals_wf(totals_for(es, sel)),
    decreases es.len(),
{
    if es.len() == 0 {
        crate::balance::lemma_index_from_first(totals_for(es, sel), c, 0);
    } else {
        let prev = es.drop_last();
        assert forall|i: int| 0 <= i < prev.len() implies match (#[trigger] prev[i]).1.amount {
            Some(x) => x.quantity.wf(),
            None => true,
        } by {
            assert(prev[i] == es[i]);
        }
        lemma_selected_totals(prev, sel, c);
        let p = es.last().1;
        assert(es.last() == es[es.len() - 1]);
        if sel(p.account) {
            if let Some(am) = p.amount {
                lemma_tval_add_total(totals_for(prev, sel), am.commodity, am.quantity, c);
            }
        }
    }
}

/// The sum over the accounts `accts` of their leaf balances in commodity `c`.
pub open spec fn leaves_sum(
    es: Seq<(TransactionView, PostingView)>,
    accts: Seq<Seq<char>>,
    c: Seq<char>,
) -> int
    decreases accts.len(),
{
    if accts.len() == 0 {
        0
    } else {
        leaves_sum(es, accts.drop_last(), c) + tval(totals_for(es, exactly(accts.last())), c)
    }
}

proof fn lemma_leaves_sum(es: Seq<(TransactionView, PostingView)>, accts: Seq<Seq<char>>, c: Seq<char>)
    requires
        forall|b: Seq<char>| totals_for_fit(es, #[trigger] exactly(b)),
        entries_valid(es),
    ensures
        leaves_sum(es, accts, c) == accounts_val(es, accts, c),
    decreases accts.len(),
{
    if accts.len() > 0 {
        lemma_leaves_sum(es, accts.drop_last(), c);
        assert(totals_for_fit(es, exactly(accts.last())));
        lemma_leaf_totals(es, accts.last(), c);
    }
}

proof fn lemma_selected_accounts(
    es: Seq<(TransactionView, PostingView)>,
    a: Seq<char>,
    under: Seq<Seq<char>>,
    c: Seq<char>,
)
    requires
        forall|i: int, j: int| 0 <= i < j < under.len() ==> under[i] != under[j],
        forall|i: int| 0 <= i < under.len() ==> account_under(#[trigger] under[i], a),
        forall|i: int|
            0 <= i < es.len() && (#[trigger] es[i]).1.amount is Some && account_under(es[i].1.account, a)
                ==> under.contains(es[i].1.account),
    ensures
        selected_val(es, within(a), c) == accounts_val(es, under, c),
    decreases es.len(),
{
    if es.len() == 0 {
        lemma_accounts_val_empty(es, under, c);
    } else {
        let prev = es.drop_last();
        let e = es.last();
        assert forall|i: int|
            0 <= i < prev.len() && (#[trigger] prev[i]).1.amount is Some && account_under(prev[i].1.account, a)
                implies under.contains(prev[i].1.account) by {
            assert(prev[i] == es[i]);
        }
        lemma_selected_accounts(prev, a, under, c);
        assert(prev.push(e) =~= es);
        lemma_accounts_val_push(prev, e, under, c);
        assert(e == es[es.len() - 1]);
        if under.contains(e.1.account) {
            let k = choose|k: int| 0 <= k < under.len() && under[k] == e.1.account;
            assert(account_under(under[k], a));
        }
        if e.1.amount is None {
            assert(amount_val(e.1, c) == 0);
        }
    }
}

/// An account's subtree balance is the sum of the leaf balances of the accounts under it: in
/// every commodity, what is posted to the account or any account under it equals the sum, over
/// the accounts under it that carry amounts (each listed once), of what is posted to exactly
/// that account.
pub proof fn law_subtree_is_sum_of_leaves(
    es: Seq<(TransactionView, PostingView)>,
    a: Seq<char>,
    under: Seq<Seq<char>>,
    c: Seq<char>,
)
    requires
        forall|i: int, j: int| 0 <= i < j < under.len() ==> under[i] != under[j],
        forall|b: Seq<char>|
            under.contains(b) <==> amount_account_set(es).contains(b) && account_under(b, a),
        totals_for_fit(es, within(a)),
        forall|b: Seq<char>| totals_for_fit(es, #[trigger] exactly(b)),
        entries_valid(es),
    ensures
        tval(totals_for(es, within(a)), c) == leaves_sum(es, under, c),
{
    assert forall|i: int| 0 <= i < under.len() implies account_under(#[trigger] under[i], a) by {
        assert(under.contains(under[i]));
    }
    assert forall|i: int|
        0 <= i < es.len() && (#[trigger] es[i]).1.amount is Some && account_under(es[i].1.account, a)
            implies under.contains(es[i].1.account) by {
        assert(amount_account_set(es).contains(es[i].1.account));
    }
    lemma_selected_totals(es, within(a), c);
    lemma_selected_accounts(es, a, under, c);
    lemma_leaves_sum(es, under, c);
}

proof fn lemma_rows_in_append(x: Seq<LeafView>, y: Seq<LeafView>, c: Seq<char>)
    ensures
        rows_in(x + y, c) == rows_in(x, c) + rows_in(y, c),
    decreases y.len(),
{
    if y.len() == 0 {
        assert(x + y =~= x);
        assert(rows_in(x, c) + rows_in(y, c) =~= rows_in(x, c));
    } else {
        lemma_rows_in_append(x, y.drop_last(), c);
        assert((x + y).drop_last() =~= x + y.drop_last());
        assert((x + y).last() == y.last());
        if y.last().1 == c {
            assert(rows_in(x, c) + rows_in(y, c) =~= (rows_in(x, c) + rows_in(y.drop_last(), c)).push(
                y.last(),
            ));
        }
    }
}

proof fn lemma_leaf_val_append(x: Seq<LeafView>, y: Seq<LeafView>)
    ensures
        leaf_val(x + y) == leaf_val(x) + leaf_val(y),
    decreases y.len(),
{
    if y.len() == 0 {
        assert(x + y =~= x);
    } else {
        lemma_leaf_val_append(x, y.drop_last());
        assert((x + y).drop_last() =~= x + y.drop_last());
        assert((x + y).last() == y.last());
    }
}

/// The nonzero rows of one account's totals, in commodity `c`, sum to its total in `c`.
proof fn lemma_nonzero_rows_val(a: Seq<char>, totals: Seq<(Seq<char>, Quantity)>, c: Seq<char>)
    requires
        keys_distinct(totals),
    ensures
        leaf_val(rows_in(nonzero_rows(a, totals), c)) == tval(totals, c),
    decreases totals.len(),
{
    crate::balance::lemma_index_from_first(totals, c, 0);
    if totals.len() > 0 {
        let prev = totals.drop_last();
        assert forall|i: int, j: int| 0 <= i < j < prev.len() implies prev[i].0 != prev[j].0 by {
            assert(prev[i] == totals[i]);
            assert(prev[j] == totals[j]);
        }
        lemma_nonzero_rows_val(a, prev, c);
        crate::balance::lemma_index_from_first(prev, c, 0);
        let t = totals.last();
        assert(t == totals[totals.len() - 1]);
        let pr = nonzero_rows(a, prev);
        if t.1.val() != 0 {
            assert(nonzero_rows(a, totals) == pr.push((a, t.0, t.1)));
            let row: LeafView = (a, t.0, t.1);
            assert(pr.push(row).drop_last() =~= pr);
            if t.0 == c {
                assert(rows_in(pr.push(row), c) == rows_in(pr, c).push(row));
                assert(rows_in(pr, c).push(row).drop_last() =~= rows_in(pr, c));
            } else {
                assert(rows_in(pr.push(row), c) == rows_in(pr, c));
            }
        } else {
            assert(nonzero_rows(a, totals) == pr);
        }
        if t.0 == c {
            assert forall|j: int| 0 <= j < prev.len() implies prev[j].0 != c by {
                assert(prev[j] == totals[j]);
            }
            crate::balance::lemma_index_from_none(prev, c, 0);
            crate::balance::lemma_index_from_is(totals, c, 0, (totals.len() - 1) as nat);
        } else {
            assert forall|j: int| 0 <= j < prev.len() && j < totals.len() implies (prev[j].0 == c
                <==> totals[j].0 == c) by {
                assert(prev[j] == totals[j]);
            }
            lemma_index_same_keys(prev, totals, c);
            if let Some(k) = total_index(prev, c) {
                assert(prev[k as int] == totals[k as int]);
            }
        }
    }
}

/// The nonzero leaf balances in commodity `c` of accounts `accts` sum to what is posted to
/// those accounts in `c`.
proof fn lemma_rows_of_val(es: Seq<(TransactionView, PostingView)>, accts: Seq<Seq<char>>, c: Seq<char>)
    requires
        forall|a: Seq<char>| totals_for_fit(es, #[trigger] exactly(a)),
        entries_valid(es),
    ensures
        leaf_val(rows_in(rows_of(es, accts), c)) == accounts_val(es, accts, c),
    decreases accts.len(),
{
    if accts.len() > 0 {
        let a = accts.last();
        lemma_rows_of_val(es, accts.drop_last(), c);
        assert(totals_for_fit(es, exactly(a)));
        lemma_leaf_totals(es, a, c);
        lemma_nonzero_rows_val(a, totals_for(es, exactly(a)), c);
        lemma_rows_in_append(rows_of(es, accts.drop_last()), nonzero_rows(a, totals_for(es, exactly(a))), c);
        lemma_leaf_val_append(
            rows_in(rows_of(es, accts.drop_last()), c),
            rows_in(nonzero_rows(a, totals_for(es, exactly(a))), c),
        );
    }
}

// ---------------------------------------------------------------------------------------------
// Summing over accounts and over entries.
// ---------------------------------------------------------------------------------------------

/// How much the sum over the accounts changes when one more entry is posted.
proof fn lemma_accounts_val_push(
    es: Seq<(TransactionView, PostingView)>,
    e: (TransactionView, PostingView),
    accts: Seq<Seq<char>>,
    c: Seq<char>,
)
    requires
        forall|i: int, j: int| 0 <= i < j < accts.len() ==> accts[i] != accts[j],
    ensures
        accounts_val(es.push(e), accts, c) == accounts_val(es, accts, c) + if accts.contains(
            e.1.account,
        ) {
            amount_val(e.1, c)
        } else {
            0
        },
    decreases accts.len(),
{
    if accts.len() > 0 {
        let prev = accts.drop_last();
        assert forall|i: int, j: int| 0 <= i < j < prev.len() implies prev[i] != prev[j] by {
            assert(prev[i] == accts[i]);
            assert(prev[j] == accts[j]);
        }
        lemma_accounts_val_push(es, e, prev, c);
        assert(es.push(e).drop_last() =~= es);
        assert(es.push(e).last() == e);
        let x = e.1.account;
        if accts.last() == x {
            assert(accts.contains(x));
            if prev.contains(x) {
                let i = choose|i: int| 0 <= i < prev.len() && prev[i] == x;
                assert(accts[i] == accts[accts.len() - 1]);
            }
        } else {
            if accts.contains(x) {
                let i = choose|i: int| 0 <= i < accts.len() && accts[i] == x;
                assert(prev[i] == x);
            }
            if prev.contains(x) {
                let i = choose|i: int| 0 <= i < prev.len() && prev[i] == x;
                assert(accts[i] == x);
            }
        }
    } else {
        assert(!accts.contains(e.1.account));
    }
}

/// Summed over distinct accounts that include every account posted an amount, what is posted
/// to each account adds up to what the entries add up to.
proof fn lemma_accounts_val_total(es: Seq<(TransactionView, PostingView)>, accts: Seq<Seq<char>>, c: Seq<char>)
    requires
        forall|i: int, j: int| 0 <= i < j < accts.len() ==> accts[i] != accts[j],
        forall|i: int|
            0 <= i < es.len() && (#[trigger] es[i]).1.amount is Some ==> accts.contains(es[i].1.account),
    ensures
        accounts_val(es, accts, c) == entries_val(es, c),
    decreases es.len(),
{
    if es.len() == 0 {
        lemma_accounts_val_empty(es, accts, c);
    } else {
        let prev = es.drop_last();
        assert forall|i: int|
            0 <= i < prev.len() && (#[trigger] prev[i]).1.amount is Some implies accts.contains(prev[i].1.account) by {
            assert(prev[i] == es[i]);
        }
        lemma_accounts_val_total(prev, accts, c);
        assert(prev.push(es.last()) =~= es);
        lemma_accounts_val_push(prev, es.last(), accts, c);
        assert(es.last() == es[es.len() - 1]);
    }
}

proof fn lemma_accounts_val_empty(es: Seq<(TransactionView, PostingView)>, accts: Seq<Seq<char>>, c: Seq<char>)
    requires
        es.len() == 0,
    ensures
        accounts_val(es, accts, c) == 0,
    decreases accts.len(),
{
    if accts.len() > 0 {
        lemma_accounts_val_empty(es, accts.drop_last(), c);
    }
}

proof fn lemma_entries_val_append(
    x: Seq<(TransactionView, PostingView)>,
    y: Seq<(TransactionView, PostingView)>,
    c: Seq<char>,
)
    ensures
        entries_val(x + y, c) == entries_val(x, c) + entries_val(y, c),
    decreases y.len(),
{
    if y.len() == 0 {
        assert(x + y =~= x);
    } else {
        lemma_entries_val_append(x, y.drop_last(), c);
        assert((x + y).drop_last() =~= x + y.drop_last());
        assert((x + y).last() == y.last());
    }
}

proof fn lemma_tagged_val(t: TransactionView, ps: Seq<PostingView>, c: Seq<char>)
    ensures
        entries_val(ps.map_values(|p: PostingView| (t, p)), c) == postings_val(ps, c),
    decreases ps.len(),
{
    if ps.len() > 0 {
        lemma_tagged_val(t, ps.drop_last(), c);
        assert(ps.map_values(|p: PostingView| (t, p)).drop_last() =~= ps.drop_last().map_values(
            |p: PostingView| (t, p),
        ));
    }
}

/// When every transaction balances, the ledger's entries sum to zero in every commodity, and
/// every amount they carry is a valid decimal.
pub proof fn lemma_entries_balance(ts: Seq<TransactionView>, c: Seq<char>)
    requires
        all_balanced(ts),
    ensures
        entries_val(flat_postings(ts), c) == 0,
        entries_valid(flat_postings(ts)),
        forall|i: int|
            0 <= i < flat_postings(ts).len() ==> (#[trigger] flat_postings(ts)[i]).1.amount is Some,
    decreases ts.len(),
{
    if ts.len() > 0 {
        let prev = ts.drop_last();
        assert forall|k: int| 0 <= k < prev.len() implies txn_balanced(#[trigger] prev[k])
            && postings_valid(prev[k].postings) by {
            assert(prev[k] == ts[k]);
        }
        lemma_entries_balance(prev, c);
        let t = ts.last();
        assert(t == ts[ts.len() - 1]);
        let tagged = t.postings.map_values(|p: PostingView| (t, p));
        lemma_entries_val_append(flat_postings(prev), tagged, c);
        lemma_tagged_val(t, t.postings, c);
        assert(postings_val(t.postings, c) == 0);
        let fp = flat_postings(ts);
        assert forall|i: int| 0 <= i < fp.len() implies match (#[trigger] fp[i]).1.amount {
            Some(a) => a.quantity.wf(),
            None => true,
        } && fp[i].1.amount is Some by {
            if i < flat_postings(prev).len() {
                assert(fp[i] == flat_postings(prev)[i]);
            } else {
                let j = i - flat_postings(prev).len();
                assert(fp[i] == tagged[j]);
                assert(tagged[j] == (t, t.postings[j]));
            }
        }
    }
}

// ---------------------------------------------------------------------------------------------
// Sorted account lists exist.
// ---------------------------------------------------------------------------------------------

/// `v` with `x` inserted in order (unchanged if `x` is already there).
pub open spec fn sorted_insert(v: Seq<Seq<char>>, x: Seq<char>) -> Seq<Seq<char>>
    decreases v.len(),
{
    if v.len() == 0 {
        seq![x]
    } else if v.last() == x {
        v
    } else if seq_less(v.last(), x) {
        v.push(x)
    } else {
        sorted_insert(v.drop_last(), x).push(v.last())
    }
}

pub proof fn lemma_sorted_insert(v: Seq<Seq<char>>, x: Seq<char>)
    requires
        strictly_sorted(v),
    ensures
        strictly_sorted(sorted_insert(v, x)),
        sorted_insert(v, x).to_set() == v.to_set().insert(x),
        forall|y: Seq<char>| #[trigger] sorted_insert(v, x).contains(y) ==> y == x || v.contains(y),
    decreases v.len(),
{
    let w = sorted_insert(v, x);
    if v.len() == 0 {
        assert(w.to_set() =~= v.to_set().insert(x)) by {
            assert forall|y: Seq<char>| w.to_set().contains(y) <==> v.to_set().insert(x).contains(y) by {
                if y == x {
                    assert(w[0] == x);
                }
            }
        }
    } else if v.last() == x {
        assert(v.contains(x)) by {
            assert(v[v.len() - 1] == x);
        }
        assert(w.to_set() =~= v.to_set().insert(x));
    } else if seq_less(v.last(), x) {
        assert forall|i: int, j: int| 0 <= i < j < w.len() implies seq_less(w[i], w[j]) by {
            if j == w.len() - 1 && i < v.len() - 1 {
                lemma_seq_less_trans(v[i], v[v.len() - 1], x);
            }
        }
        assert(w.to_set() =~= v.to_set().insert(x)) by {
            assert forall|y: Seq<char>| w.to_set().contains(y) <==> v.to_set().insert(x).contains(y) by {
                if w.to_set().contains(y) {
                    let k = choose|k: int| 0 <= k < w.len() && w[k] == y;
                    if k < v.len() {
                        assert(v[k] == y);
                    }
                }
                if v.to_set().contains(y) {
                    let k = choose|k: int| 0 <= k < v.len() && v[k] == y;
                    assert(w[k] == y);
                }
                if y == x {
                    assert(w[v.len() as int] == x);
                }
            }
        }
    } else {
        let prev = v.drop_last();
        let last = v.last();
        assert(strictly_sorted(prev)) by {
            assert forall|i: int, j: int| 0 <= i < j < prev.len() implies seq_less(prev[i], prev[j]) by {
                assert(prev[i] == v[i]);
                assert(prev[j] == v[j]);
            }
        }
        lemma_sorted_insert(prev, x);
        let u = sorted_insert(prev, x);
        lemma_seq_less_total(last, x);
        assert(seq_less(x, last));
        assert forall|k: int| 0 <= k < u.len() implies seq_less(#[trigger] u[k], last) by {
            assert(u.contains(u[k]));
            if u[k] != x {
                let m = choose|m: int| 0 <= m < prev.len() && prev[m] == u[k];
                assert(v[m] == prev[m]);
            }
        }
        assert forall|i: int, j: int| 0 <= i < j < w.len() implies seq_less(w[i], w[j]) by {
            if j == w.len() - 1 {
                assert(w[i] == u[i]);
            } else {
                assert(w[i] == u[i]);
                assert(w[j] == u[j]);
            }
        }
        assert(w.to_set() =~= v.to_set().insert(x)) by {
            assert forall|y: Seq<char>| w.to_set().contains(y) <==> v.to_set().insert(x).contains(y) by {
                if w.to_set().contains(y) {
                    let k = choose|k: int| 0 <= k < w.len() && w[k] == y;
                    if k < u.len() {
                        assert(u[k] == y);
                        assert(u.to_set().contains(y));
                        if y != x {
                            assert(prev.to_set().contains(y));
                            let m = choose|m: int| 0 <= m < prev.len() && prev[m] == y;
                            assert(v[m] == y);
                        }
                    } else {
                        assert(y == last);
                        assert(v[v.len() - 1] == y);
                    }
                }
                if v.to_set().contains(y) {
                    let k = choose|k: int| 0 <= k < v.len() && v[k] == y;
                    if k < v.len() - 1 {
                        assert(prev[k] == y);
                        assert(u.to_set().contains(y));
                        let m = choose|m: int| 0 <= m < u.len() && u[m] == y;
                        assert(w[m] == y);
                    } else {
                        assert(w[w.len() - 1] == y);
                    }
                }
                if y == x {
                    assert(u.to_set().contains(x));
                    let m = choose|m: int| 0 <= m < u.len() && u[m] == x;
                    assert(w[m] == x);
                }
            }
        }
        assert forall|y: Seq<char>| #[trigger] w.contains(y) implies y == x || v.contains(y) by {
            let k = choose|k: int| 0 <= k < w.len() && w[k] == y;
            if k < u.len() {
                assert(u[k] == y);
                assert(u.contains(y));
                if y != x {
                    let m = choose|m: int| 0 <= m < prev.len() && prev[m] == y;
                    assert(v[m] == y);
                }
            } else {
                assert(v[v.len() - 1] == y);
            }
        }
    }
}

/// The accounts the entries post amounts to, in order of their entries.
pub open spec fn amount_accounts(es: Seq<(TransactionView, PostingView)>) -> Seq<Seq<char>>
    decreases es.len(),
{
    if es.len() == 0 {
        Seq::empty()
    } else if es.last().1.amount is Some {
        amount_accounts(es.drop_last()).push(es.last().1.account)
    } else {
        amount_accounts(es.drop_last())
    }
}

/// The same accounts, sorted and without repeats.
pub open spec fn sorted_amount_accounts(es: Seq<(TransactionView, PostingView)>) -> Seq<Seq<char>>
    decreases es.len(),
{
    if es.len() == 0 {
        Seq::empty()
    } else if es.last().1.amount is Some {
        sorted_insert(sorted_amount_accounts(es.drop_last()), es.last().1.account)
    } else {
        sorted_amount_accounts(es.drop_last())
    }
}

proof fn lemma_sorted_amount_accounts(es: Seq<(TransactionView, PostingView)>)
    ensures
        strictly_sorted(sorted_amount_accounts(es)),
        sorted_amount_accounts(es).to_set() == amount_account_set(es),
    decreases es.len(),
{
    let v = sorted_amount_accounts(es);
    if es.len() == 0 {
        assert(v.to_set() =~= amount_account_set(es));
    } else {
        let prev = es.drop_last();
        lemma_sorted_amount_accounts(prev);
        let e = es.last();
        assert(e == es[es.len() - 1]);
        let target = if e.1.amount is Some {
            amount_account_set(prev).insert(e.1.account)
        } else {
            amount_account_set(prev)
        };
        if e.1.amount is Some {
            lemma_sorted_insert(sorted_amount_accounts(prev), e.1.account);
        }
        assert(amount_account_set(es) =~= target) by {
            assert forall|x: Seq<char>| amount_account_set(es).contains(x) <==> target.contains(x) by {
                if amount_account_set(es).contains(x) {
                    let i = choose|i: int| 0 <= i < es.len() && es[i].1.account == x && es[i].1.amount is Some;
                    if i < prev.len() {
                        assert(prev[i] == es[i]);
                    }
                }
                if amount_account_set(prev).contains(x) {
                    let i = choose|i: int| 0 <= i < prev.len() && prev[i].1.account == x && prev[i].1.amount is Some;
                    assert(es[i] == prev[i]);
                }
            }
        }
    }
}

/// The accounts a ledger posts amounts to, sorted: the sequence exists, and holds exactly them.
pub proof fn lemma_ledger_accounts(es: Seq<(TransactionView, PostingView)>)
    ensures
        strictly_sorted(sorted_seq(amount_account_set(es))),
        sorted_seq(amount_account_set(es)).to_set() == amount_account_set(es),
{
    lemma_sorted_amount_accounts(es);
    let w = sorted_amount_accounts(es);
    assert(strictly_sorted(w) && w.to_set() == amount_account_set(es));
}

proof fn lemma_sorted_distinct(v: Seq<Seq<char>>)
    requires
        strictly_sorted(v),
    ensures
        forall|i: int, j: int| 0 <= i < j < v.len() ==> v[i] != v[j],
{
    assert forall|i: int, j: int| 0 <= i < j < v.len() implies v[i] != v[j] by {
        assert(seq_less(v[i], v[j]));
        lemma_seq_less_irreflexive(v[i]);
    }
}

/// The nonzero leaf balances of a ledger in any commodity sum to what its entries sum to in
/// that commodity.
pub proof fn lemma_leaf_rows_val(es: Seq<(TransactionView, PostingView)>, c: Seq<char>)
    requires
        forall|a: Seq<char>| totals_for_fit(es, #[trigger] exactly(a)),
        entries_valid(es),
    ensures
        leaf_val(rows_in(leaf_rows(es), c)) == entries_val(es, c),
{
    let accts = sorted_seq(amount_account_set(es));
    lemma_ledger_accounts(es);
    lemma_sorted_distinct(accts);
    lemma_rows_of_val(es, accts, c);
    assert forall|i: int|
        0 <= i < es.len() && (#[trigger] es[i]).1.amount is Some implies accts.contains(es[i].1.account) by {
        assert(amount_account_set(es).contains(es[i].1.account));
        assert(accts.to_set().contains(es[i].1.account));
    }
    lemma_accounts_val_total(es, accts, c);
}

// ---------------------------------------------------------------------------------------------
// The trial balance foots.
// ---------------------------------------------------------------------------------------------

/// Whether every leaf balance is a valid decimal.
pub open spec fn rows_wf(rows: Seq<LeafView>) -> bool {
    forall|i: int| 0 <= i < rows.len() ==> (#[trigger] rows[i]).2.wf()
}

proof fn lemma_nonzero_rows_wf(a: Seq<char>, totals: Seq<(Seq<char>, Quantity)>)
    requires
        totals_wf(totals),
    ensures
        rows_wf(nonzero_rows(a, totals)),
    decreases totals.len(),
{
    if totals.len() > 0 {
        let prev = totals.drop_last();
        assert forall|i: int| 0 <= i < prev.len() implies (#[trigger] prev[i]).1.wf() by {
            assert(prev[i] == totals[i]);
        }
        lemma_nonzero_rows_wf(a, prev);
        assert(totals.last() == totals[totals.len() - 1]);
        let pr = nonzero_rows(a, prev);
        let t = totals.last();
        if t.1.val() != 0 {
            let nr = pr.push((a, t.0, t.1));
            assert forall|i: int| 0 <= i < nr.len() implies (#[trigger] nr[i]).2.wf() by {
                if i < pr.len() {
                    assert(nr[i] == pr[i]);
                }
            }
        }
    }
}

proof fn lemma_rows_of_wf(es: Seq<(TransactionView, PostingView)>, accts: Seq<Seq<char>>)
    requires
        forall|a: Seq<char>| totals_for_fit(es, #[trigger] exactly(a)),
        entries_valid(es),
    ensures
        rows_wf(rows_of(es, accts)),
    decreases accts.len(),
{
    if accts.len() > 0 {
        let a = accts.last();
        lemma_rows_of_wf(es, accts.drop_last());
        assert(totals_for_fit(es, exactly(a)));
        lemma_leaf_totals(es, a, Seq::empty());
        lemma_nonzero_rows_wf(a, totals_for(es, exactly(a)));
        let x = rows_of(es, accts.drop_last());
        let y = nonzero_rows(a, totals_for(es, exactly(a)));
        assert forall|i: int| 0 <= i < (x + y).len() implies (#[trigger] (x + y)[i]).2.wf() by {
            if i < x.len() {
                assert((x + y)[i] == x[i]);
            } else {
                assert((x + y)[i] == y[i - x.len()]);
            }
        }
    }
}

proof fn lemma_rows_in_wf(rows: Seq<LeafView>, c: Seq<char>)
    requires
        rows_wf(rows),
    ensures
        rows_wf(rows_in(rows, c)),
    decreases rows.len(),
{
    if rows.len() > 0 {
        let prev = rows.drop_last();
        assert forall|i: int| 0 <= i < prev.len() implies (#[trigger] prev[i]).2.wf() by {
            assert(prev[i] == rows[i]);
        }
        lemma_rows_in_wf(prev, c);
        assert(rows.last() == rows[rows.len() - 1]);
        let p = rows_in(prev, c);
        if rows.last().1 == c {
            let n = p.push(rows.last());
            assert forall|i: int| 0 <= i < n.len() implies (#[trigger] n[i]).2.wf() by {
                if i < p.len() {
                    assert(n[i] == p[i]);
                }
            }
        }
    }
}

/// Debits less credits is the sum of the balances the rows stand for.
proof fn lemma_columns_val(rows: Seq<LeafView>)
    requires
        rows_wf(rows),
    ensures
        val_sum(debits(tb_rows(rows))) - val_sum(credits(tb_rows(rows))) == leaf_val(rows),
        all_wf(debits(tb_rows(rows))),
        all_wf(credits(tb_rows(rows))),
    decreases rows.len(),
{
    lemma_zero_val();
    if rows.len() > 0 {
        let prev = rows.drop_last();
        assert forall|i: int| 0 <= i < prev.len() implies (#[trigger] prev[i]).2.wf() by {
            assert(prev[i] == rows[i]);
        }
        lemma_columns_val(prev);
        let r = rows.last();
        assert(r == rows[rows.len() - 1]);
        lemma_negated_val(r.2);
        lemma_negated_wf(r.2);
        let d = debits(tb_rows(rows));
        let cr = credits(tb_rows(rows));
        assert(d.drop_last() =~= debits(tb_rows(prev)));
        assert(cr.drop_last() =~= credits(tb_rows(prev)));
        assert(d.last() == tb_row(r).debit);
        assert(cr.last() == tb_row(r).credit);
        assert forall|i: int| 0 <= i < d.len() implies (#[trigger] d[i]).wf() by {
            if i < prev.len() {
                assert(d[i] == debits(tb_rows(prev))[i]);
            }
        }
        assert forall|i: int| 0 <= i < cr.len() implies (#[trigger] cr[i]).wf() by {
            if i < prev.len() {
                assert(cr[i] == credits(tb_rows(prev))[i]);
            }
        }
    }
}

/// The trial balance foots: when every transaction of the ledger balances, every section's
/// debit column totals the same as its credit column.
pub proof fn law_trial_balance_foots(ledger: Ledger)
    requires
        all_balanced(ledger.txns()),
        ledger.leaf_sums_fit(),
        columns_fit(ledger.entries()),
    ensures
        forall|k: int|
            0 <= k < trial_balance_spec(ledger.entries()).len() ==> section_balanced(
                #[trigger] trial_balance_spec(ledger.entries())[k],
            ),
{
    let es = ledger.entries();
    let rows = leaf_rows(es);
    assert forall|c: Seq<char>| section_balanced(#[trigger] tb_section(rows, c)) by {
        lemma_entries_balance(ledger.txns(), c);
        assert(forall|a: Seq<char>| totals_for_fit(es, #[trigger] exactly(a)));
        lemma_leaf_rows_val(es, c);
        lemma_rows_of_wf(es, sorted_seq(amount_account_set(es)));
        lemma_rows_in_wf(rows, c);
        let rc = rows_in(rows, c);
        lemma_columns_val(rc);
        assert(qsum_fits(debits(tb_rows(rc))));
        lemma_qsum_val(debits(tb_rows(rc)));
        lemma_qsum_val(credits(tb_rows(rc)));
    }
    assert forall|k: int|
        0 <= k < trial_balance_spec(es).len() implies section_balanced(
        #[trigger] trial_balance_spec(es)[k],
    ) by {
        let c = crate::reports::commodities(rows)[k];
        assert(trial_balance_spec(es)[k] == tb_section(rows, c));
    }
}

// ---------------------------------------------------------------------------------------------
// The balance sheet balances; the income statement agrees with it.
// ---------------------------------------------------------------------------------------------

proof fn lemma_rows_where_wf(rows: Seq<LeafView>, sel: spec_fn(Seq<char>) -> bool)
    requires
        rows_wf(rows),
    ensures
        rows_wf(rows_where(rows, sel)),
    decreases rows.len(),
{
    if rows.len() > 0 {
        let prev = rows.drop_last();
        assert forall|i: int| 0 <= i < prev.len() implies (#[trigger] prev[i]).2.wf() by {
            assert(prev[i] == rows[i]);
        }
        lemma_rows_where_wf(prev, sel);
        assert(rows.last() == rows[rows.len() - 1]);
        let p = rows_where(prev, sel);
        if sel(rows.last().0) {
            let n = p.push(rows.last());
            assert forall|i: int| 0 <= i < n.len() implies (#[trigger] n[i]).2.wf() by {
                if i < p.len() {
                    assert(n[i] == p[i]);
                }
            }
        }
    }
}

/// The values of the rows as they stand, or sign-flipped.
proof fn lemma_signed_val(rows: Seq<LeafView>, flip: bool)
    requires
        rows_wf(rows),
    ensures
        val_sum(amounts(signed_rows(rows, flip))) == if flip {
            -leaf_val(rows)
        } else {
            leaf_val(rows)
        },
        val_sum(quantities(rows)) == leaf_val(rows),
        all_wf(amounts(signed_rows(rows, flip))),
        all_wf(quantities(rows)),
    decreases rows.len(),
{
    if rows.len() > 0 {
        let prev = rows.drop_last();
        assert forall|i: int| 0 <= i < prev.len() implies (#[trigger] prev[i]).2.wf() by {
            assert(prev[i] == rows[i]);
        }
        lemma_signed_val(prev, flip);
        let r = rows.last();
        assert(r == rows[rows.len() - 1]);
        lemma_negated_val(r.2);
        lemma_negated_wf(r.2);
        let a = amounts(signed_rows(rows, flip));
        let q = quantities(rows);
        assert(a.drop_last() =~= amounts(signed_rows(prev, flip)));
        assert(q.drop_last() =~= quantities(prev));
        assert forall|i: int| 0 <= i < a.len() implies (#[trigger] a[i]).wf() by {
            if i < prev.len() {
                assert(a[i] == amounts(signed_rows(prev, flip))[i]);
            }
        }
        assert forall|i: int| 0 <= i < q.len() implies (#[trigger] q[i]).wf() by {
            if i < prev.len() {
                assert(q[i] == quantities(prev)[i]);
            }
        }
    }
}

proof fn lemma_val_sum_append(x: Seq<Quantity>, y: Seq<Quantity>)
    ensures
        val_sum(x + y) == val_sum(x) + val_sum(y),
    decreases y.len(),
{
    if y.len() == 0 {
        assert(x + y =~= x);
    } else {
        lemma_val_sum_append(x, y.drop_last());
        assert((x + y).drop_last() =~= x + y.drop_last());
        assert((x + y).last() == y.last());
    }
}

/// The Revenue and Expense balances sum to their totals, and the unclosed net income is minus
/// their sum.
proof fn lemma_net_income_val(rc: Seq<LeafView>)
    requires
        rows_wf(rc),
        sheet_sums_fit(rc) || statement_sums_fit(rc),
        qsum_fits(quantities(rows_where(rc, of_type(AccountType::Revenue)))),
        qsum_fits(quantities(rows_where(rc, of_type(AccountType::Expense)))),
    ensures
        income_total(rc).val() == leaf_val(rows_where(rc, of_type(AccountType::Revenue))),
        expense_total(rc).val() == leaf_val(rows_where(rc, of_type(AccountType::Expense))),
        income_total(rc).wf(),
        expense_total(rc).wf(),
{
    let r = rows_where(rc, of_type(AccountType::Revenue));
    let x = rows_where(rc, of_type(AccountType::Expense));
    lemma_rows_where_wf(rc, of_type(AccountType::Revenue));
    lemma_rows_where_wf(rc, of_type(AccountType::Expense));
    lemma_signed_val(r, false);
    lemma_signed_val(x, false);
    lemma_qsum_val(quantities(r));
    lemma_qsum_val(quantities(x));
}

/// The balances of classified rows split by type.
proof fn lemma_partition_val(rows: Seq<LeafView>)
    requires
        forall|i: int| 0 <= i < rows.len() ==> classify_spec((#[trigger] rows[i]).0) is Some,
    ensures
        leaf_val(rows) == leaf_val(rows_where(rows, of_type(AccountType::Asset))) + leaf_val(
            rows_where(rows, of_type(AccountType::Liability)),
        ) + leaf_val(rows_where(rows, of_type(AccountType::Equity))) + leaf_val(
            rows_where(rows, of_type(AccountType::Revenue)),
        ) + leaf_val(rows_where(rows, of_type(AccountType::Expense))),
    decreases rows.len(),
{
    if rows.len() > 0 {
        let prev = rows.drop_last();
        assert forall|i: int| 0 <= i < prev.len() implies classify_spec((#[trigger] prev[i]).0) is Some by {
            assert(prev[i] == rows[i]);
        }
        lemma_partition_val(prev);
        let r = rows.last();
        assert(r == rows[rows.len() - 1]);
        let t = classify_spec(r.0)->0;
        assert forall|u: AccountType| #[trigger] rows_where(rows, of_type(u)) == if u == t {
            rows_where(prev, of_type(u)).push(r)
        } else {
            rows_where(prev, of_type(u))
        } by {
        }
        assert forall|u: AccountType| #[trigger] leaf_val(rows_where(rows, of_type(u))) == leaf_val(
            rows_where(prev, of_type(u)),
        ) + if u == t {
            r.2.val()
        } else {
            0
        } by {
            if u == t {
                assert(rows_where(prev, of_type(u)).push(r).drop_last() =~= rows_where(
                    prev,
                    of_type(u),
                ));
            }
        }
    }
}

/// Whether every row is on an account the classifier recognizes.
pub open spec fn all_classified(rows: Seq<LeafView>) -> bool {
    forall|i: int| 0 <= i < rows.len() ==> classify_spec((#[trigger] rows[i]).0) is Some
}

/// A commodity's balance sheet balances: when every transaction balances and every account
/// with a nonzero balance in that commodity is classified, its Assets equal its Liabilities
/// plus Equity (Equity holding the unclosed net income). Unclassified accounts in other
/// commodities do not matter.
pub proof fn law_sheet_balances(ledger: Ledger, c: Seq<char>)
    requires
        all_balanced(ledger.txns()),
        ledger.leaf_sums_fit(),
        crate::reports::balance_sheet::sheet_fits(leaf_rows(ledger.entries()), c),
        all_classified(rows_in(leaf_rows(ledger.entries()), c)),
    ensures
        sheet_balanced(sheet_spec(leaf_rows(ledger.entries()), c)),
{
    let es = ledger.entries();
    let rows = leaf_rows(es);
    let s = sheet_spec(rows, c);
    let rc = rows_in(rows, c);
    lemma_entries_balance(ledger.txns(), c);
    assert(forall|a: Seq<char>| totals_for_fit(es, #[trigger] exactly(a)));
    lemma_leaf_rows_val(es, c);
    lemma_rows_of_wf(es, sorted_seq(amount_account_set(es)));
    lemma_rows_in_wf(rows, c);
    lemma_partition_val(rc);
    assert(crate::reports::balance_sheet::sheet_fits(rows, c));
    assert(sheet_sums_fit(rc));
    let a = rows_where(rc, of_type(AccountType::Asset));
    let l = rows_where(rc, of_type(AccountType::Liability));
    let e = rows_where(rc, of_type(AccountType::Equity));
    lemma_rows_where_wf(rc, of_type(AccountType::Asset));
    lemma_rows_where_wf(rc, of_type(AccountType::Liability));
    lemma_rows_where_wf(rc, of_type(AccountType::Equity));
    lemma_signed_val(a, false);
    lemma_signed_val(l, true);
    lemma_signed_val(e, true);
    lemma_qsum_val(amounts(signed_rows(a, false)));
    lemma_qsum_val(amounts(signed_rows(l, true)));
    lemma_net_income_val(rc);
    lemma_plus_val(income_total(rc), expense_total(rc));
    let both = income_total(rc).plus(expense_total(rc));
    lemma_negated_val(both);
    lemma_negated_wf(both);
    let net = unclosed_net_income(rc);
    let fixed = signed_rows(e, true);
    let extra = if net.val() != 0 {
        seq![RowView { account: "Net Income (unclosed)"@, amount: net }]
    } else {
        Seq::<RowView>::empty()
    };
    assert(equity_rows(rc) == fixed + extra);
    assert(amounts(fixed + extra) =~= amounts(fixed) + amounts(extra));
    lemma_val_sum_append(amounts(fixed), amounts(extra));
    assert(val_sum(Seq::<Quantity>::empty()) == 0);
    if net.val() != 0 {
        assert(amounts(extra) =~= seq![net]);
        assert(seq![net].drop_last() =~= Seq::<Quantity>::empty());
        assert(val_sum(seq![net]) == val_sum(Seq::<Quantity>::empty()) + net.val());
    } else {
        assert(amounts(extra) =~= Seq::<Quantity>::empty());
    }
    assert forall|i: int| 0 <= i < amounts(fixed + extra).len() implies (#[trigger] amounts(
        fixed + extra,
    )[i]).wf() by {
        if i < amounts(fixed).len() {
            assert(amounts(fixed + extra)[i] == amounts(fixed)[i]);
        }
    }
    lemma_qsum_val(amounts(equity_rows(rc)));
    assert(s.liabilities.total.plus_fits(s.equity.total));
    lemma_plus_val(s.liabilities.total, s.equity.total);
    let rv = rows_where(rc, of_type(AccountType::Revenue));
    let xv = rows_where(rc, of_type(AccountType::Expense));
    assert(leaf_val(rc) == 0);
    assert(s.assets.total.val() == leaf_val(a));
    assert(s.liabilities.total.val() == -leaf_val(l));
    assert(net.val() == -(leaf_val(rv) + leaf_val(xv)));
    assert(val_sum(amounts(extra)) == if net.val() != 0 { net.val() } else { 0 });
    assert(s.equity.total.val() == -leaf_val(e) + net.val());
}

/// The balance sheet balances sheet by sheet: when every transaction balances, each sheet
/// whose commodity has no nonzero balance on an unclassified account has Assets equal to
/// Liabilities plus Equity.
pub proof fn law_balance_sheet_balances(ledger: Ledger)
    requires
        all_balanced(ledger.txns()),
        ledger.leaf_sums_fit(),
        crate::reports::balance_sheet::sheets_fit(ledger.entries()),
    ensures
        forall|k: int|
            0 <= k < balance_sheet_spec(ledger.entries()).sheets.len() && all_classified(
                rows_in(leaf_rows(ledger.entries()), balance_sheet_spec(ledger.entries()).sheets[k].commodity),
            ) ==> sheet_balanced(#[trigger] balance_sheet_spec(ledger.entries()).sheets[k]),
{
    let es = ledger.entries();
    let rows = leaf_rows(es);
    assert forall|k: int|
        0 <= k < balance_sheet_spec(es).sheets.len() && all_classified(
            rows_in(rows, balance_sheet_spec(es).sheets[k].commodity),
        ) implies sheet_balanced(#[trigger] balance_sheet_spec(es).sheets[k]) by {
        let c = crate::reports::commodities(rows_where(rows, recognized()))[k];
        assert(balance_sheet_spec(es).sheets[k] == sheet_spec(rows, c));
        assert(crate::reports::balance_sheet::sheet_fits(rows, c));
        law_sheet_balances(ledger, c);
    }
}

/// The income statement's bottom line is the balance sheet's unclosed net income: for every
/// commodity, Revenue less Expenses has the value of the `Net Income (unclosed)` amount the
/// balance sheet folds into Equity (which it shows exactly when that amount is not zero).
pub proof fn law_net_income_agrees(ledger: Ledger, c: Seq<char>)
    requires
        ledger.leaf_sums_fit(),
        entries_valid(ledger.entries()),
        crate::reports::income_statement::statement_fits(leaf_rows(ledger.entries()), c),
        crate::reports::balance_sheet::sheet_fits(leaf_rows(ledger.entries()), c),
    ensures
        net_income_spec(statement_spec(leaf_rows(ledger.entries()), c)).val() == unclosed_net_income(
            rows_in(leaf_rows(ledger.entries()), c),
        ).val(),
{
    let es = ledger.entries();
    let rows = leaf_rows(es);
    let rc = rows_in(rows, c);
    assert(forall|a: Seq<char>| totals_for_fit(es, #[trigger] exactly(a)));
    lemma_rows_of_wf(es, sorted_seq(amount_account_set(es)));
    lemma_rows_in_wf(rows, c);
    let r = rows_where(rc, of_type(AccountType::Revenue));
    let x = rows_where(rc, of_type(AccountType::Expense));
    lemma_rows_where_wf(rc, of_type(AccountType::Revenue));
    lemma_rows_where_wf(rc, of_type(AccountType::Expense));
    lemma_signed_val(r, true);
    lemma_signed_val(x, false);
    lemma_qsum_val(amounts(signed_rows(r, true)));
    lemma_qsum_val(amounts(signed_rows(x, false)));
    lemma_net_income_val(rc);
    lemma_plus_val(income_total(rc), expense_total(rc));
    lemma_negated_val(income_total(rc).plus(expense_total(rc)));
    let st = statement_spec(rows, c);
    lemma_minus_val(st.revenue.total, st.expenses.total);
}


// ---------------------------------------------------------------------------------------------
// The trial balance's order.
// ---------------------------------------------------------------------------------------------

/// The commodities of the rows, inserted one by one in sorted order.
pub open spec fn sorted_commodity_seq(rows: Seq<LeafView>) -> Seq<Seq<char>>
    decreases rows.len(),
{
    if rows.len() == 0 {
        Seq::empty()
    } else {
        sorted_insert(sorted_commodity_seq(rows.drop_last()), rows.last().1)
    }
}

proof fn lemma_commodities_sorted(rows: Seq<LeafView>)
    ensures
        strictly_sorted(crate::reports::commodities(rows)),
        crate::reports::commodities(rows) == sorted_commodity_seq(rows),
    decreases rows.len(),
{
    let v = sorted_commodity_seq(rows);
    if rows.len() > 0 {
        let prev = rows.drop_last();
        lemma_commodities_sorted(prev);
        lemma_sorted_insert(sorted_commodity_seq(prev), rows.last().1);
    }
    assert(v.to_set() =~= crate::reports::commodity_set(rows)) by {
        lemma_commodity_seq_set(rows);
    }
    lemma_sorted_seq_of_v(v, rows);
}

proof fn lemma_commodity_seq_set(rows: Seq<LeafView>)
    ensures
        strictly_sorted(sorted_commodity_seq(rows)),
        sorted_commodity_seq(rows).to_set() == crate::reports::commodity_set(rows),
    decreases rows.len(),
{
    let v = sorted_commodity_seq(rows);
    if rows.len() == 0 {
        assert(v.to_set() =~= crate::reports::commodity_set(rows));
    } else {
        let prev = rows.drop_last();
        lemma_commodity_seq_set(prev);
        lemma_sorted_insert(sorted_commodity_seq(prev), rows.last().1);
        assert(rows.last() == rows[rows.len() - 1]);
        assert forall|x: Seq<char>| crate::reports::commodity_set(rows).contains(x)
            <==> crate::reports::commodity_set(prev).insert(rows.last().1).contains(x) by {
            if crate::reports::commodity_set(rows).contains(x) && x != rows.last().1 {
                let i = choose|i: int| 0 <= i < rows.len() && rows[i].1 == x;
                assert(prev[i] == rows[i]);
            }
            if crate::reports::commodity_set(prev).contains(x) {
                let i = choose|i: int| 0 <= i < prev.len() && prev[i].1 == x;
                assert(prev[i] == rows[i]);
            }
        }
        assert(crate::reports::commodity_set(rows) =~= crate::reports::commodity_set(prev).insert(
            rows.last().1,
        ));
    }
}

proof fn lemma_sorted_seq_of_v(v: Seq<Seq<char>>, rows: Seq<LeafView>)
    requires
        v == sorted_commodity_seq(rows),
        v.to_set() == crate::reports::commodity_set(rows),
    ensures
        strictly_sorted(crate::reports::commodities(rows)),
        crate::reports::commodities(rows) == v,
{
    lemma_commodity_seq_set(rows);
    crate::ledger::lemma_sorted_seq_of(v);
}

proof fn lemma_rows_of_accounts(es: Seq<(TransactionView, PostingView)>, accts: Seq<Seq<char>>)
    ensures
        forall|i: int| 0 <= i < rows_of(es, accts).len() ==> accts.contains(#[trigger] rows_of(es, accts)[i].0),
    decreases accts.len(),
{
    if accts.len() > 0 {
        let prev = accts.drop_last();
        let a = accts.last();
        lemma_rows_of_accounts(es, prev);
        let x = rows_of(es, prev);
        let y = nonzero_rows(a, totals_for(es, exactly(a)));
        lemma_nonzero_rows_account(a, totals_for(es, exactly(a)));
        assert forall|i: int| 0 <= i < rows_of(es, accts).len() implies accts.contains(
            #[trigger] rows_of(es, accts)[i].0,
        ) by {
            if i < x.len() {
                assert(rows_of(es, accts)[i] == x[i]);
                let k = choose|k: int| 0 <= k < prev.len() && prev[k] == x[i].0;
                assert(accts[k] == prev[k]);
            } else {
                assert(rows_of(es, accts)[i] == y[i - x.len()]);
                assert(accts[accts.len() - 1] == a);
            }
        }
    }
}

proof fn lemma_nonzero_rows_account(a: Seq<char>, totals: Seq<(Seq<char>, Quantity)>)
    ensures
        forall|i: int| 0 <= i < nonzero_rows(a, totals).len() ==> (#[trigger] nonzero_rows(a, totals)[i]).0 == a,
        forall|i: int| 0 <= i < nonzero_rows(a, totals).len() ==> exists|j: int|
            0 <= j < totals.len() && totals[j].0 == (#[trigger] nonzero_rows(a, totals)[i]).1,
    decreases totals.len(),
{
    if totals.len() > 0 {
        let prev = totals.drop_last();
        lemma_nonzero_rows_account(a, prev);
        let pr = nonzero_rows(a, prev);
        assert forall|i: int| 0 <= i < nonzero_rows(a, totals).len() implies exists|j: int|
            0 <= j < totals.len() && totals[j].0 == (#[trigger] nonzero_rows(a, totals)[i]).1 by {
            if i < pr.len() {
                assert(nonzero_rows(a, totals)[i] == pr[i]);
                let j = choose|j: int| 0 <= j < prev.len() && prev[j].0 == pr[i].1;
                assert(totals[j] == prev[j]);
            } else {
                assert(totals[totals.len() - 1] == totals.last());
            }
        }
    }
}

proof fn lemma_rows_in_members(x: Seq<LeafView>, c: Seq<char>)
    ensures
        forall|i: int| 0 <= i < rows_in(x, c).len() ==> (#[trigger] rows_in(x, c)[i]).1 == c && x.contains(
            rows_in(x, c)[i],
        ),
    decreases x.len(),
{
    if x.len() > 0 {
        let prev = x.drop_last();
        lemma_rows_in_members(prev, c);
        assert forall|i: int| 0 <= i < rows_in(x, c).len() implies (#[trigger] rows_in(x, c)[i]).1 == c
            && x.contains(rows_in(x, c)[i]) by {
            let rp = rows_in(prev, c);
            if i < rp.len() {
                assert(rows_in(x, c)[i] == rp[i]);
                let k = choose|k: int| 0 <= k < prev.len() && prev[k] == rp[i];
                assert(x[k] == prev[k]);
            } else {
                assert(rows_in(x, c)[i] == x.last());
                assert(x[x.len() - 1] == x.last());
            }
        }
    }
}

/// One account's nonzero rows hold at most one row per commodity.
proof fn lemma_nonzero_rows_one(a: Seq<char>, totals: Seq<(Seq<char>, Quantity)>, c: Seq<char>)
    requires
        keys_distinct(totals),
    ensures
        rows_in(nonzero_rows(a, totals), c).len() <= 1,
    decreases totals.len(),
{
    if totals.len() > 0 {
        let prev = totals.drop_last();
        assert forall|i: int, j: int| 0 <= i < j < prev.len() implies prev[i].0 != prev[j].0 by {
            assert(prev[i] == totals[i]);
            assert(prev[j] == totals[j]);
        }
        lemma_nonzero_rows_one(a, prev, c);
        let pr = nonzero_rows(a, prev);
        let t = totals.last();
        assert(t == totals[totals.len() - 1]);
        if t.1.val() != 0 {
            let row: LeafView = (a, t.0, t.1);
            assert(pr.push(row).drop_last() =~= pr);
            if t.0 == c {
                lemma_nonzero_rows_account(a, prev);
                lemma_rows_in_members(pr, c);
                if rows_in(pr, c).len() > 0 {
                    let r0 = rows_in(pr, c)[0];
                    let k = choose|k: int| 0 <= k < pr.len() && pr[k] == r0;
                    let j = choose|j: int| 0 <= j < prev.len() && prev[j].0 == pr[k].1;
                    assert(totals[j] == prev[j]);
                    assert(false);
                }
            }
        }
    }
}

proof fn lemma_section_rows_sorted(es: Seq<(TransactionView, PostingView)>, accts: Seq<Seq<char>>, c: Seq<char>)
    requires
        strictly_sorted(accts),
    ensures
        forall|i: int, j: int|
            0 <= i < j < rows_in(rows_of(es, accts), c).len() ==> seq_less(
                #[trigger] rows_in(rows_of(es, accts), c)[i].0,
                #[trigger] rows_in(rows_of(es, accts), c)[j].0,
            ),
    decreases accts.len(),
{
    if accts.len() > 0 {
        let prev = accts.drop_last();
        let a = accts.last();
        assert forall|i: int, j: int| 0 <= i < j < prev.len() implies seq_less(prev[i], prev[j]) by {
            assert(prev[i] == accts[i]);
            assert(prev[j] == accts[j]);
        }
        lemma_section_rows_sorted(es, prev, c);
        let x = rows_of(es, prev);
        let totals = totals_for(es, exactly(a));
        let y = nonzero_rows(a, totals);
        crate::ledger::law_totals_shape(es, exactly(a));
        assert forall|i: int, j: int| 0 <= i < j < totals.len() implies totals[i].0 != totals[j].0 by {
            assert(crate::ledger::total_keys(totals)[i] == totals[i].0);
            assert(crate::ledger::total_keys(totals)[j] == totals[j].0);
        }
        lemma_nonzero_rows_one(a, totals, c);
        lemma_rows_in_append(x, y, c);
        lemma_rows_in_members(x, c);
        lemma_rows_in_members(y, c);
        lemma_rows_of_accounts(es, prev);
        lemma_nonzero_rows_account(a, totals);
        let rx = rows_in(x, c);
        let ry = rows_in(y, c);
        let r = rows_in(rows_of(es, accts), c);
        assert(r == rx + ry);
        assert forall|i: int, j: int| 0 <= i < j < r.len() implies seq_less(#[trigger] r[i].0, #[trigger] r[j].0) by {
            if j < rx.len() {
                assert(r[i] == rx[i] && r[j] == rx[j]);
            } else {
                assert(j == rx.len());
                assert(i < rx.len());
                assert(r[i] == rx[i]);
                assert(r[j] == ry[0]);
                let k = choose|k: int| 0 <= k < y.len() && y[k] == ry[0];
                assert(ry[0].0 == a);
                let m = choose|m: int| 0 <= m < x.len() && x[m] == rx[i];
                assert(prev.contains(x[m].0));
                let p = choose|p: int| 0 <= p < prev.len() && prev[p] == x[m].0;
                assert(accts[p] == prev[p]);
                assert(accts[accts.len() - 1] == a);
            }
        }
    }
}

/// The trial balance comes in order: its sections strictly increase by commodity, and within a
/// section the rows strictly increase by account, one row per account with a nonzero balance in
/// that commodity.
pub proof fn law_trial_balance_order(es: Seq<(TransactionView, PostingView)>)
    ensures
        forall|i: int, j: int|
            0 <= i < j < trial_balance_spec(es).len() ==> seq_less(
                #[trigger] trial_balance_spec(es)[i].commodity,
                #[trigger] trial_balance_spec(es)[j].commodity,
            ),
        forall|k: int, i: int, j: int|
            0 <= k < trial_balance_spec(es).len() && 0 <= i < j < trial_balance_spec(es)[k].rows.len()
                ==> seq_less(
                #[trigger] trial_balance_spec(es)[k].rows[i].account,
                #[trigger] trial_balance_spec(es)[k].rows[j].account,
            ),
{
    let rows = leaf_rows(es);
    let cs = crate::reports::commodities(rows);
    lemma_commodities_sorted(rows);
    lemma_ledger_accounts(es);
    assert forall|k: int, i: int, j: int|
        0 <= k < trial_balance_spec(es).len() && 0 <= i < j < trial_balance_spec(es)[k].rows.len()
            implies seq_less(
            #[trigger] trial_balance_spec(es)[k].rows[i].account,
            #[trigger] trial_balance_spec(es)[k].rows[j].account,
        ) by {
        let c = cs[k];
        lemma_section_rows_sorted(es, sorted_seq(amount_account_set(es)), c);
        let r = rows_in(rows, c);
        assert(trial_balance_spec(es)[k] == tb_section(rows, c));
        assert(trial_balance_spec(es)[k].rows[i] == tb_row(r[i]));
        assert(trial_balance_spec(es)[k].rows[j] == tb_row(r[j]));
    }
}

} // verus!
