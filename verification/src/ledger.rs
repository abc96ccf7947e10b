//! An in-memory ledger over parsed transactions, with account-balance queries. Built fresh from
//! the journal on every run.
use crate::date::Date;
use crate::balance::{all_balanced, lemma_balanced_permutation};
use crate::model::{
    account_under, transactions_view, Account, Amount, Posting, PostingView, Transaction,
    TransactionView,
};
use crate::parser::{add_total, add_total_fits, total_index, total_index_from};
use crate::quantity::Quantity;
use crate::text::{
    lemma_seq_less_irreflexive, lemma_seq_less_total, lemma_seq_less_trans, seq_less, string_less,
    strings_equal,
};
use vstd::prelude::*;

verus! {

broadcast use vstd::string::group_string_axioms;

// ---------------------------------------------------------------------------------------------
// Specification.
// ---------------------------------------------------------------------------------------------

/// Every posting of every transaction, each paired with its transaction, in order.
pub open spec fn flat_postings(ts: Seq<TransactionView>) -> Seq<(TransactionView, PostingView)>
    decreases ts.len(),
{
    if ts.len() == 0 {
        Seq::empty()
    } else {
        flat_postings(ts.drop_last()) + ts.last().postings.map_values(
            |p: PostingView| (ts.last(), p),
        )
    }
}

/// The entries whose posting account is `a` or lies under it.
pub open spec fn entries_under(es: Seq<(TransactionView, PostingView)>, a: Seq<char>) -> Seq<
    (TransactionView, PostingView),
>
    decreases es.len(),
{
    if es.len() == 0 {
        Seq::empty()
    } else if account_under(es.last().1.account, a) {
        entries_under(es.drop_last(), a).push(es.last())
    } else {
        entries_under(es.drop_last(), a)
    }
}

/// Per-commodity totals (first appearance order) of the amounts posted to accounts that
/// satisfy `sel`.
pub open spec fn totals_for(
    es: Seq<(TransactionView, PostingView)>,
    sel: spec_fn(Seq<char>) -> bool,
) -> Seq<(Seq<char>, Quantity)>
    decreases es.len(),
{
    if es.len() == 0 {
        Seq::empty()
    } else {
        let prev = totals_for(es.drop_last(), sel);
        let p = es.last().1;
        if sel(p.account) {
            match p.amount {
                Some(am) => add_total(prev, am.commodity, am.quantity),
                None => prev,
            }
        } else {
            prev
        }
    }
}

/// Whether every addition in `totals_for(es, sel)` is exact.
pub open spec fn totals_for_fit(
    es: Seq<(TransactionView, PostingView)>,
    sel: spec_fn(Seq<char>) -> bool,
) -> bool
    decreases es.len(),
{
    if es.len() == 0 {
        true
    } else {
        let p = es.last().1;
        totals_for_fit(es.drop_last(), sel) && (!sel(p.account) || match p.amount {
            Some(am) => add_total_fits(totals_for(es.drop_last(), sel), am.commodity, am.quantity),
            None => true,
        })
    }
}

/// Selects exactly the account `a`.
pub open spec fn exactly(a: Seq<char>) -> spec_fn(Seq<char>) -> bool {
    |x: Seq<char>| x == a
}

/// The commodities of the amounts on the selected entries, each once, in order of first
/// appearance.
pub open spec fn first_seen(
    es: Seq<(TransactionView, PostingView)>,
    sel: spec_fn(Seq<char>) -> bool,
) -> Seq<Seq<char>>
    decreases es.len(),
{
    if es.len() == 0 {
        Seq::empty()
    } else {
        let prev = first_seen(es.drop_last(), sel);
        let p = es.last().1;
        if sel(p.account) {
            match p.amount {
                Some(am) => if prev.contains(am.commodity) {
                    prev
                } else {
                    prev.push(am.commodity)
                },
                None => prev,
            }
        } else {
            prev
        }
    }
}

/// Whether the entry is selected and carries an amount in commodity `c`.
pub open spec fn carries(e: (TransactionView, PostingView), sel: spec_fn(Seq<char>) -> bool, c: Seq<char>) -> bool {
    sel(e.1.account) && match e.1.amount {
        Some(am) => am.commodity == c,
        None => false,
    }
}

/// Whether some selected entry carries an amount in commodity `c`.
pub open spec fn posted_in(
    es: Seq<(TransactionView, PostingView)>,
    sel: spec_fn(Seq<char>) -> bool,
    c: Seq<char>,
) -> bool {
    exists|i: int| 0 <= i < es.len() && #[trigger] carries(es[i], sel, c)
}

proof fn lemma_posted_in_last(es: Seq<(TransactionView, PostingView)>, sel: spec_fn(Seq<char>) -> bool, c: Seq<char>)
    requires
        es.len() > 0,
    ensures
        posted_in(es, sel, c) <==> posted_in(es.drop_last(), sel, c) || carries(es.last(), sel, c),
{
    let prev = es.drop_last();
    if posted_in(es, sel, c) && !carries(es.last(), sel, c) {
        let i = choose|i: int| 0 <= i < es.len() && #[trigger] carries(es[i], sel, c);
        assert(i != es.len() - 1);
        assert(prev[i] == es[i]);
    }
    if posted_in(prev, sel, c) {
        let i = choose|i: int| 0 <= i < prev.len() && #[trigger] carries(prev[i], sel, c);
        assert(prev[i] == es[i]);
    }
    if carries(es.last(), sel, c) {
        assert(es[es.len() - 1] == es.last());
    }
}

/// The commodities of a list of totals, in order.
pub open spec fn total_keys(t: Seq<(Seq<char>, Quantity)>) -> Seq<Seq<char>> {
    t.map_values(|e: (Seq<char>, Quantity)| e.0)
}

/// The per-commodity totals of the selected entries have one entry per commodity, in order of
/// first appearance, and a commodity has an entry exactly when some selected entry carries an
/// amount in it (a total of zero keeps its entry). For `exactly(a)` these are the totals
/// [`Ledger::leaf_balance`] returns: postings to accounts under `a` are not counted.
pub proof fn law_totals_shape(es: Seq<(TransactionView, PostingView)>, sel: spec_fn(Seq<char>) -> bool)
    ensures
        total_keys(totals_for(es, sel)) == first_seen(es, sel),
        forall|i: int, j: int|
            0 <= i < j < first_seen(es, sel).len() ==> first_seen(es, sel)[i] != first_seen(
                es,
                sel,
            )[j],
        forall|c: Seq<char>| #[trigger] first_seen(es, sel).contains(c) <==> posted_in(es, sel, c),
    decreases es.len(),
{
    if es.len() > 0 {
        let prev_es = es.drop_last();
        law_totals_shape(prev_es, sel);
        let prev = totals_for(prev_es, sel);
        let keys = first_seen(prev_es, sel);
        let p = es.last().1;
        assert forall|i: int| 0 <= i < prev_es.len() implies prev_es[i] == es[i] by {}
        assert(es.last() == es[es.len() - 1]);
        if sel(p.account) {
            if let Some(am) = p.amount {
                let c = am.commodity;
                crate::balance::lemma_index_from_first(prev, c, 0);
                if keys.contains(c) {
                    let k = choose|k: int| 0 <= k < keys.len() && keys[k] == c;
                    assert(total_keys(prev)[k] == c);
                    assert(total_index(prev, c) is Some);
                    assert(total_keys(add_total(prev, c, am.quantity)) =~= total_keys(prev));
                } else {
                    assert forall|j: int| 0 <= j < prev.len() implies prev[j].0 != c by {
                        assert(total_keys(prev)[j] == prev[j].0);
                    }
                    assert(total_index(prev, c) is None);
                    assert(total_keys(add_total(prev, c, am.quantity)) =~= total_keys(prev).push(c));
                }
                assert forall|x: Seq<char>| #[trigger] first_seen(es, sel).contains(x) <==> posted_in(es, sel, x) by {
                    lemma_posted_in_last(es, sel, x);
                    if !keys.contains(c) {
                        assert(first_seen(es, sel) == keys.push(c));
                        assert(keys.push(c).contains(x) <==> (keys.contains(x) || x == c)) by {
                            if keys.push(c).contains(x) && x != c {
                                let k = choose|k: int| 0 <= k < keys.push(c).len() && keys.push(c)[k] == x;
                                assert(k < keys.len());
                                assert(keys[k] == x);
                            }
                            if keys.contains(x) {
                                let k = choose|k: int| 0 <= k < keys.len() && keys[k] == x;
                                assert(keys.push(c)[k] == x);
                            }
                            if x == c {
                                assert(keys.push(c)[keys.len() as int] == c);
                            }
                        }
                    }
                }
            } else {
                assert forall|x: Seq<char>| #[trigger] first_seen(es, sel).contains(x) <==> posted_in(es, sel, x) by {
                    lemma_posted_in_last(es, sel, x);
                }
            }
        } else {
            assert forall|x: Seq<char>| #[trigger] first_seen(es, sel).contains(x) <==> posted_in(es, sel, x) by {
                lemma_posted_in_last(es, sel, x);
            }
        }
    }
}

/// Selects `a` and the accounts under it.
pub open spec fn within(a: Seq<char>) -> spec_fn(Seq<char>) -> bool {
    |x: Seq<char>| account_under(x, a)
}

/// The view of a list of amounts as (commodity, quantity) totals.
pub open spec fn amounts_totals(v: Seq<Amount>) -> Seq<(Seq<char>, Quantity)> {
    v.map_values(|a: Amount| (a.commodity@, a.quantity))
}

/// Whether the accounts are in strictly increasing order (sorted, no duplicates).
pub open spec fn strictly_sorted(v: Seq<Seq<char>>) -> bool {
    forall|i: int, j: int| 0 <= i < j < v.len() ==> seq_less(v[i], v[j])
}

/// The strictly increasing sequence holding exactly the names in `s` (for a finite `s`, there
/// is exactly one: see `lemma_strictly_sorted_unique`).
pub open spec fn sorted_seq(s: Set<Seq<char>>) -> Seq<Seq<char>> {
    choose|v: Seq<Seq<char>>| strictly_sorted(v) && v.to_set() == s
}

/// Two strictly sorted sequences with the same elements are equal.
pub proof fn lemma_strictly_sorted_unique(a: Seq<Seq<char>>, b: Seq<Seq<char>>)
    requires
        strictly_sorted(a),
        strictly_sorted(b),
        a.to_set() == b.to_set(),
    ensures
        a == b,
    decreases a.len(),
{
    if a.len() == 0 {
        if b.len() > 0 {
            assert(b.to_set().contains(b[0]));
        }
        assert(a =~= b);
    } else {
        assert(a.to_set().contains(a[0]));
        assert(b.to_set().contains(a[0]));
        let j = choose|j: int| 0 <= j < b.len() && b[j] == a[0];
        assert(b.to_set().contains(b[0]));
        assert(a.to_set().contains(b[0]));
        let i = choose|i: int| 0 <= i < a.len() && a[i] == b[0];
        if j > 0 {
            if i > 0 {
                lemma_seq_less_trans(a[0], a[i], b[j]);
            }
            lemma_seq_less_irreflexive(a[0]);
            assert(false);
        }
        let ra = a.drop_first();
        let rb = b.drop_first();
        assert forall|x: Seq<char>| ra.to_set().contains(x) <==> rb.to_set().contains(x) by {
            if ra.to_set().contains(x) {
                let k = choose|k: int| 0 <= k < ra.len() && ra[k] == x;
                assert(a[k + 1] == x);
                assert(seq_less(a[0], a[k + 1]));
                lemma_seq_less_irreflexive(x);
                assert(b.to_set().contains(x));
                let m = choose|m: int| 0 <= m < b.len() && b[m] == x;
                assert(m != 0);
                assert(rb[m - 1] == x);
            }
            if rb.to_set().contains(x) {
                let k = choose|k: int| 0 <= k < rb.len() && rb[k] == x;
                assert(b[k + 1] == x);
                assert(seq_less(b[0], b[k + 1]));
                lemma_seq_less_irreflexive(x);
                assert(a.to_set().contains(x));
                let m = choose|m: int| 0 <= m < a.len() && a[m] == x;
                assert(m != 0);
                assert(ra[m - 1] == x);
            }
        }
        assert(ra.to_set() =~= rb.to_set());
        lemma_strictly_sorted_unique(ra, rb);
        assert(a =~= seq![a[0]] + ra);
        assert(b =~= seq![b[0]] + rb);
    }
}

/// A strictly sorted sequence is the sorted sequence of its own elements.
pub proof fn lemma_sorted_seq_of(v: Seq<Seq<char>>)
    requires
        strictly_sorted(v),
    ensures
        sorted_seq(v.to_set()) == v,
{
    let w = sorted_seq(v.to_set());
    assert(strictly_sorted(w) && w.to_set() == v.to_set());
    lemma_strictly_sorted_unique(w, v);
}

/// The set of accounts the entries post to.
pub open spec fn account_set(es: Seq<(TransactionView, PostingView)>) -> Set<Seq<char>> {
    Set::new(|a: Seq<char>| exists|i: int| 0 <= i < es.len() && es[i].1.account == a)
}

/// The set of accounts the entries post an amount to.
pub open spec fn amount_account_set(es: Seq<(TransactionView, PostingView)>) -> Set<Seq<char>> {
    Set::new(
        |a: Seq<char>|
            exists|i: int| 0 <= i < es.len() && es[i].1.account == a && es[i].1.amount is Some,
    )
}

/// `t` comes before `u` in ledger order: earlier date, or same date and earlier source line.
pub open spec fn txn_before(t: TransactionView, u: TransactionView) -> bool {
    t.date.before(u.date) || (t.date == u.date && t.source.line < u.source.line)
}

/// `s` with `x` inserted after every element that does not come after it.
pub open spec fn insert_in_order(s: Seq<TransactionView>, x: TransactionView) -> Seq<TransactionView>
    decreases s.len(),
{
    if s.len() == 0 {
        seq![x]
    } else if txn_before(x, s.last()) {
        insert_in_order(s.drop_last(), x).push(s.last())
    } else {
        s.push(x)
    }
}

/// The transactions stably sorted by (date, source line): ties keep their input order.
pub open spec fn sort_in_order(s: Seq<TransactionView>) -> Seq<TransactionView>
    decreases s.len(),
{
    if s.len() == 0 {
        Seq::empty()
    } else {
        insert_in_order(sort_in_order(s.drop_last()), s.last())
    }
}

/// Whether the transactions are in ledger order: none comes before one ahead of it.
pub open spec fn in_ledger_order(s: Seq<TransactionView>) -> bool {
    forall|i: int, j: int| 0 <= i < j < s.len() ==> !txn_before(#[trigger] s[j], #[trigger] s[i])
}

proof fn lemma_before_order(a: TransactionView, b: TransactionView, c: TransactionView)
    ensures
        txn_before(c, a) ==> txn_before(c, b) || txn_before(b, a),
        !(txn_before(a, b) && txn_before(b, a)),
{
    crate::date::lemma_at_ymd(a.date, 0, 0, 0);
    crate::date::lemma_at_ymd(b.date, 0, 0, 0);
    crate::date::lemma_at_ymd(c.date, 0, 0, 0);
}

proof fn lemma_insert_in_order(s: Seq<TransactionView>, x: TransactionView)
    requires
        in_ledger_order(s),
    ensures
        in_ledger_order(insert_in_order(s, x)),
        insert_in_order(s, x).to_multiset() == s.to_multiset().insert(x),
        forall|y: TransactionView| #[trigger] insert_in_order(s, x).contains(y) ==> y == x || s.contains(y),
    decreases s.len(),
{
    broadcast use vstd::seq_lib::group_to_multiset_ensures;
    let r = insert_in_order(s, x);
    if s.len() == 0 {
        assert(seq![x] =~= Seq::<TransactionView>::empty().push(x));
    } else if txn_before(x, s.last()) {
        let prev = s.drop_last();
        let last = s.last();
        assert(last == s[s.len() - 1]);
        assert(in_ledger_order(prev)) by {
            assert forall|i: int, j: int| 0 <= i < j < prev.len() implies !txn_before(#[trigger] prev[j], #[trigger] prev[i]) by {
                assert(prev[i] == s[i]);
                assert(prev[j] == s[j]);
            }
        }
        lemma_insert_in_order(prev, x);
        let u = insert_in_order(prev, x);
        assert(r == u.push(last));
        assert forall|k: int| 0 <= k < u.len() implies !txn_before(last, #[trigger] u[k]) by {
            assert(u.contains(u[k]));
            if u[k] == x {
                lemma_before_order(x, last, x);
            } else {
                let m = choose|m: int| 0 <= m < prev.len() && prev[m] == u[k];
                assert(s[m] == prev[m]);
            }
        }
        assert forall|i: int, j: int| 0 <= i < j < r.len() implies !txn_before(#[trigger] r[j], #[trigger] r[i]) by {
            if j == r.len() - 1 {
                assert(r[i] == u[i]);
            } else {
                assert(r[i] == u[i]);
                assert(r[j] == u[j]);
            }
        }
        assert(s =~= prev.push(last));
        assert forall|y: TransactionView| #[trigger] r.contains(y) implies y == x || s.contains(y) by {
            let k = choose|k: int| 0 <= k < r.len() && r[k] == y;
            if k < u.len() {
                assert(u[k] == y);
                assert(u.contains(y));
                if y != x {
                    let m = choose|m: int| 0 <= m < prev.len() && prev[m] == y;
                    assert(s[m] == y);
                }
            } else {
                assert(s[s.len() - 1] == y);
            }
        }
    } else {
        let last = s.last();
        assert(last == s[s.len() - 1]);
        assert forall|i: int, j: int| 0 <= i < j < r.len() implies !txn_before(#[trigger] r[j], #[trigger] r[i]) by {
            if j == r.len() - 1 {
                assert(r[i] == s[i]);
                if i < s.len() - 1 {
                    lemma_before_order(s[i], last, x);
                }
            } else {
                assert(r[i] == s[i]);
                assert(r[j] == s[j]);
            }
        }
        assert forall|y: TransactionView| #[trigger] r.contains(y) implies y == x || s.contains(y) by {
            let k = choose|k: int| 0 <= k < r.len() && r[k] == y;
            if k < s.len() {
                assert(s[k] == y);
            }
        }
    }
}

/// Building a ledger sorts: the transactions come out in ledger order (by date, then by source
/// line), and they are exactly the transactions that went in.
pub proof fn law_sorted_permutation(ts: Seq<TransactionView>)
    ensures
        in_ledger_order(sort_in_order(ts)),
        sort_in_order(ts).to_multiset() == ts.to_multiset(),
    decreases ts.len(),
{
    broadcast use vstd::seq_lib::group_to_multiset_ensures;
    if ts.len() > 0 {
        law_sorted_permutation(ts.drop_last());
        lemma_insert_in_order(sort_in_order(ts.drop_last()), ts.last());
        assert(ts =~= ts.drop_last().push(ts.last()));
    }
}

/// Whether a transaction has the sort key (date `d`, source line `line`).
pub open spec fn has_key(t: TransactionView, d: Date, line: nat) -> bool {
    t.date == d && t.source.line == line
}

/// The transactions with sort key (`d`, `line`), in their order.
pub open spec fn with_key(s: Seq<TransactionView>, d: Date, line: nat) -> Seq<TransactionView>
    decreases s.len(),
{
    if s.len() == 0 {
        Seq::empty()
    } else if has_key(s.last(), d, line) {
        with_key(s.drop_last(), d, line).push(s.last())
    } else {
        with_key(s.drop_last(), d, line)
    }
}

proof fn lemma_insert_keeps_ties(s: Seq<TransactionView>, x: TransactionView, d: Date, line: nat)
    ensures
        with_key(insert_in_order(s, x), d, line) == if has_key(x, d, line) {
            with_key(s, d, line).push(x)
        } else {
            with_key(s, d, line)
        },
    decreases s.len(),
{
    crate::date::lemma_at_ymd(x.date, 0, 0, 0);
    if s.len() == 0 {
        assert(seq![x].drop_last() =~= Seq::<TransactionView>::empty());
        assert(insert_in_order(s, x) == seq![x]);
        assert(with_key(s, d, line) == Seq::<TransactionView>::empty());
        assert(Seq::<TransactionView>::empty().push(x) =~= seq![x]);
        assert(seq![x].last() == x);
        assert(with_key(seq![x].drop_last(), d, line) == Seq::<TransactionView>::empty());
        assert(with_key(insert_in_order(s, x), d, line) =~= if has_key(x, d, line) {
            with_key(s, d, line).push(x)
        } else {
            with_key(s, d, line)
        });
    } else if txn_before(x, s.last()) {
        let r = insert_in_order(s.drop_last(), x);
        lemma_insert_keeps_ties(s.drop_last(), x, d, line);
        assert(r.push(s.last()).drop_last() =~= r);
        assert(insert_in_order(s, x) == r.push(s.last()));
        if has_key(x, d, line) {
            assert(!has_key(s.last(), d, line));
        }
        assert(with_key(s, d, line) == if has_key(s.last(), d, line) {
            with_key(s.drop_last(), d, line).push(s.last())
        } else {
            with_key(s.drop_last(), d, line)
        });
        assert(with_key(insert_in_order(s, x), d, line) =~= if has_key(x, d, line) {
            with_key(s, d, line).push(x)
        } else {
            with_key(s, d, line)
        });
    } else {
        assert(s.push(x).drop_last() =~= s);
        assert(insert_in_order(s, x) == s.push(x));
        assert(with_key(insert_in_order(s, x), d, line) =~= if has_key(x, d, line) {
            with_key(s, d, line).push(x)
        } else {
            with_key(s, d, line)
        });
    }
}

/// Sorting is stable: the transactions sharing a sort key (date, source line) come out in the
/// order they went in.
pub proof fn law_sort_keeps_ties(ts: Seq<TransactionView>, d: Date, line: nat)
    ensures
        with_key(sort_in_order(ts), d, line) == with_key(ts, d, line),
    decreases ts.len(),
{
    if ts.len() > 0 {
        law_sort_keeps_ties(ts.drop_last(), d, line);
        lemma_insert_keeps_ties(sort_in_order(ts.drop_last()), ts.last(), d, line);
    }
}

// ---------------------------------------------------------------------------------------------
// The ledger.
// ---------------------------------------------------------------------------------------------

/// A journal's transactions, sorted by date (then source line), held for one report.
pub struct Ledger {
    /// All transactions, in ledger order.
    pub transactions: Vec<Transaction>,
}

/// A posting together with the transaction it belongs to.
#[derive(Clone, Copy)]
pub struct PostingRef<'a> {
    /// The transaction this posting belongs to.
    pub transaction: &'a Transaction,
    /// The posting itself.
    pub posting: &'a Posting,
}

/// The view of a list of posting references.
pub open spec fn refs_view(v: Seq<PostingRef>) -> Seq<(TransactionView, PostingView)> {
    v.map_values(|r: PostingRef| (r.transaction@, r.posting@))
}

impl Ledger {
    /// The transactions' views.
    pub open spec fn txns(self) -> Seq<TransactionView> {
        transactions_view(self.transactions@)
    }

    /// Every posting paired with its transaction, in ledger order.
    pub open spec fn entries(self) -> Seq<(TransactionView, PostingView)> {
        flat_postings(self.txns())
    }
}

proof fn lemma_insert_at(s: Seq<TransactionView>, x: TransactionView, j: int)
    requires
        0 <= j <= s.len(),
        forall|k: int| j <= k < s.len() ==> txn_before(x, #[trigger] s[k]),
        j > 0 ==> !txn_before(x, s[j - 1]),
    ensures
        insert_in_order(s, x) == s.insert(j, x),
    decreases s.len(),
{
    if s.len() == 0 {
        assert(s.insert(0, x) =~= seq![x]);
    } else if j == s.len() {
        assert(s.insert(j, x) =~= s.push(x));
    } else {
        lemma_insert_at(s.drop_last(), x, j);
        assert(s.drop_last().insert(j, x).push(s.last()) =~= s.insert(j, x));
    }
}

/// Whether `t` comes before `u` in ledger order.
fn txn_is_before(t: &Transaction, u: &Transaction) -> (r: bool)
    ensures
        r == txn_before(t@, u@),
{
    t.date.is_before(&u.date) || (t.date == u.date && t.source.line < u.source.line)
}

impl Ledger {
    /// Builds a ledger, sorting the transactions by date, ties by source line, keeping the
    /// input order of transactions equal in both.
    pub fn from_transactions(transactions: Vec<Transaction>) -> (r: Ledger)
        ensures
            r.txns() == sort_in_order(transactions_view(transactions@)),
            in_ledger_order(r.txns()),
            r.txns().to_multiset() == transactions_view(transactions@).to_multiset(),
            all_balanced(transactions_view(transactions@)) ==> all_balanced(r.txns()),
    {
        proof {
            law_sorted_permutation(transactions_view(transactions@));
            if all_balanced(transactions_view(transactions@)) {
                lemma_balanced_permutation(
                    transactions_view(transactions@),
                    sort_in_order(transactions_view(transactions@)),
                );
            }
        }
        let ghost input = transactions_view(transactions@);
        let n = transactions.len();
        let mut rest = transactions;
        let mut out: Vec<Transaction> = Vec::new();
        let mut i: usize = 0;
        assert(input.take(0) =~= Seq::<TransactionView>::empty());
        assert(transactions_view(out@) =~= Seq::<TransactionView>::empty());
        while i < n
            invariant
                0 <= i <= n,
                n == input.len(),
                transactions_view(rest@) == input.skip(i as int),
                transactions_view(out@) == sort_in_order(input.take(i as int)),
            decreases n - i,
        {
            assert(transactions_view(rest@).len() == rest@.len());
            assert(transactions_view(rest@)[0] == input[i as int]);
            let ghost rv = transactions_view(rest@);
            let t = rest.remove(0);
            assert(transactions_view(rest@) =~= rv.drop_first());
            assert(input.skip(i as int).drop_first() =~= input.skip(i + 1));
            let ghost ov = transactions_view(out@);
            let mut j = out.len();
            while j > 0 && txn_is_before(&t, &out[j - 1])
                invariant
                    0 <= j <= out.len(),
                    ov == transactions_view(out@),
                    forall|k: int| j <= k < out.len() ==> txn_before(t@, #[trigger] ov[k]),
                decreases j,
            {
                j -= 1;
            }
            proof {
                lemma_insert_at(ov, t@, j as int);
                assert(input.take(i + 1).drop_last() =~= input.take(i as int));
                assert(input.take(i + 1).last() == t@);
            }
            out.insert(j, t);
            assert(transactions_view(out@) =~= ov.insert(j as int, t@));
            i += 1;
        }
        assert(input.take(n as int) =~= input);
        Ledger { transactions: out }
    }

    /// Every posting paired with its transaction, in ledger order.
    pub fn postings(&self) -> (r: Vec<PostingRef<'_>>)
        ensures
            refs_view(r@) == self.entries(),
    {
        let mut out: Vec<PostingRef<'_>> = Vec::new();
        let ghost ts = self.txns();
        let mut i: usize = 0;
        assert(ts.take(0) =~= Seq::<TransactionView>::empty());
        assert(refs_view(out@) =~= Seq::<(TransactionView, PostingView)>::empty());
        while i < self.transactions.len()
            invariant
                0 <= i <= self.transactions.len(),
                ts == self.txns(),
                refs_view(out@) == flat_postings(ts.take(i as int)),
            decreases self.transactions.len() - i,
        {
            let t = &self.transactions[i];
            let ghost base = refs_view(out@);
            let ghost tv = t@;
            let mut j: usize = 0;
            assert(base + tv.postings.take(0).map_values(|p: PostingView| (tv, p)) =~= base);
            while j < t.postings.len()
                invariant
                    0 <= j <= t.postings.len(),
                    tv == t@,
                    refs_view(out@) == base + tv.postings.take(j as int).map_values(
                        |p: PostingView| (tv, p),
                    ),
                decreases t.postings.len() - j,
            {
                let pr = PostingRef { transaction: t, posting: &t.postings[j] };
                assert(tv.postings[j as int] == t.postings@[j as int]@);
                let ghost before = refs_view(out@);
                out.push(pr);
                assert(refs_view(out@) =~= before.push((tv, tv.postings[j as int])));
                assert(tv.postings.take(j + 1).map_values(|p: PostingView| (tv, p)) =~= tv.postings.take(
                    j as int,
                ).map_values(|p: PostingView| (tv, p)).push((tv, tv.postings[j as int])));
                assert(refs_view(out@) =~= base + tv.postings.take(j + 1).map_values(
                    |p: PostingView| (tv, p),
                ));
                j += 1;
            }
            proof {
                assert(tv.postings.take(tv.postings.len() as int) =~= tv.postings);
                assert(ts.take(i + 1).drop_last() =~= ts.take(i as int));
                assert(ts.take(i + 1).last() == tv);
            }
            i += 1;
        }
        assert(ts.take(ts.len() as int) =~= ts);
        out
    }

    /// Postings whose account is `account` or a descendant of it, in ledger order.
    pub fn postings_in<'a>(&'a self, account: &Account) -> (r: Vec<PostingRef<'a>>)
        ensures
            refs_view(r@) == entries_under(self.entries(), account@),
    {
        let all = self.postings();
        let ghost es = self.entries();
        let mut out: Vec<PostingRef<'a>> = Vec::new();
        let mut i: usize = 0;
        assert(es.take(0) =~= Seq::<(TransactionView, PostingView)>::empty());
        assert(refs_view(out@) =~= Seq::<(TransactionView, PostingView)>::empty());
        while i < all.len()
            invariant
                0 <= i <= all.len(),
                es == refs_view(all@),
                refs_view(out@) == entries_under(es.take(i as int), account@),
            decreases all.len() - i,
        {
            let pr = all[i];
            proof {
                assert(es.take(i + 1).drop_last() =~= es.take(i as int));
                assert(es.take(i + 1).last() == (pr.transaction@, pr.posting@));
            }
            if pr.posting.account.is_under(account) {
                let ghost before = refs_view(out@);
                out.push(pr);
                assert(refs_view(out@) =~= before.push((pr.transaction@, pr.posting@)));
            }
            i += 1;
        }
        assert(es.take(es.len() as int) =~= es);
        out
    }
}

/// The view of a list of accounts.
pub open spec fn accounts_view(v: Seq<Account>) -> Seq<Seq<char>> {
    v.map_values(|a: Account| a@)
}

/// A copy of an account.
pub fn copy_account(a: &Account) -> (r: Account)
    ensures
        r@ == a@,
{
    Account(a.0.clone())
}

/// A copy of an amount.
pub fn copy_amount(a: &Amount) -> (r: Amount)
    ensures
        r@ == a@,
{
    Amount { quantity: a.quantity, commodity: a.commodity.clone() }
}

/// Adds `amount` into the per-commodity totals (a new entry if its commodity has none yet)
/// when the sum is exact; reports whether it was.
fn add_into(totals: &mut Vec<Amount>, amount: &Amount) -> (r: bool)
    ensures
        r == add_total_fits(amounts_totals(old(totals)@), amount.commodity@, amount.quantity),
        r ==> amounts_totals(final(totals)@) == add_total(
            amounts_totals(old(totals)@),
            amount.commodity@,
            amount.quantity,
        ),
{
    let ghost tv = amounts_totals(totals@);
    let mut k: usize = 0;
    while k < totals.len() && !strings_equal(&totals[k].commodity, &amount.commodity)
        invariant
            0 <= k <= totals.len(),
            tv == amounts_totals(totals@),
            total_index_from(tv, amount.commodity@, 0) == total_index_from(
                tv,
                amount.commodity@,
                k as nat,
            ),
        decreases totals.len() - k,
    {
        k += 1;
    }
    if k < totals.len() {
        let cur = totals[k].quantity;
        let sum = match cur.add_exact(&amount.quantity) {
            Some(x) => x,
            None => {
                return false;
            },
        };
        let entry = Amount { quantity: sum, commodity: totals[k].commodity.clone() };
        totals.remove(k);
        totals.insert(k, entry);
        assert(amounts_totals(totals@) =~= tv.update(
            k as int,
            (amount.commodity@, tv[k as int].1.plus(amount.quantity)),
        ));
        true
    } else {
        totals.push(copy_amount(amount));
        assert(amounts_totals(totals@) =~= tv.push((amount.commodity@, amount.quantity)));
        true
    }
}

/// Inserts `a` into the strictly sorted accounts `v` unless it is already there.
pub(crate) fn insert_account(v: &mut Vec<Account>, a: &Account)
    requires
        strictly_sorted(accounts_view(old(v)@)),
    ensures
        strictly_sorted(accounts_view(final(v)@)),
        accounts_view(final(v)@).to_set() == accounts_view(old(v)@).to_set().insert(a@),
{
    let ghost av = accounts_view(v@);
    let mut j: usize = 0;
    while j < v.len() && string_less(&v[j].0, &a.0)
        invariant
            0 <= j <= v.len(),
            av == accounts_view(v@),
            forall|k: int| 0 <= k < j ==> seq_less(#[trigger] av[k], a@),
        decreases v.len() - j,
    {
        j += 1;
    }
    if j < v.len() && strings_equal(&v[j].0, &a.0) {
        assert(av.to_set().insert(a@) =~= av.to_set()) by {
            assert(av[j as int] == a@);
        }
        return;
    }
    proof {
        if j < v.len() {
            lemma_seq_less_total(av[j as int], a@);
        }
    }
    v.insert(j, copy_account(a));
    proof {
        let nv = accounts_view(v@);
        assert(nv =~= av.insert(j as int, a@));
        assert forall|x: int, y: int| 0 <= x < y < nv.len() implies seq_less(nv[x], nv[y]) by {
            if y < j {
            } else if y == j {
            } else if x < j {
                assert(nv[y] == av[y - 1]);
                if y - 1 > j {
                    lemma_seq_less_trans(a@, av[j as int], av[y - 1]);
                }
                lemma_seq_less_trans(nv[x], a@, nv[y]);
            } else if x == j {
                assert(nv[y] == av[y - 1]);
                if y - 1 > j {
                    lemma_seq_less_trans(a@, av[j as int], av[y - 1]);
                }
            } else {
                assert(nv[x] == av[x - 1]);
                assert(nv[y] == av[y - 1]);
            }
        }
        assert(nv.to_set() =~= av.to_set().insert(a@)) by {
            assert forall|x: Seq<char>| nv.to_set().contains(x) <==> av.to_set().insert(a@).contains(x) by {
                if nv.to_set().contains(x) {
                    let k = choose|k: int| 0 <= k < nv.len() && nv[k] == x;
                    if k < j {
                        assert(av[k] == x);
                    } else if k > j {
                        assert(av[k - 1] == x);
                    }
                }
                if av.to_set().contains(x) {
                    let k = choose|k: int| 0 <= k < av.len() && av[k] == x;
                    if k < j {
                        assert(nv[k] == x);
                    } else {
                        assert(nv[k + 1] == x);
                    }
                }
                if x == a@ {
                    assert(nv[j as int] == x);
                }
            }
        }
    }
}

impl Ledger {
    /// Whether every account's own per-commodity sums are exact.
    pub open spec fn leaf_sums_fit(self) -> bool {
        forall|a: Seq<char>| totals_for_fit(self.entries(), #[trigger] exactly(a))
    }

    /// Sums, per commodity, of the amounts of the entries whose account satisfies the test, or
    /// `None` where a sum is not exact.
    fn try_sum_matching(&self, account: &Account, exact: bool) -> (r: Option<Vec<Amount>>)
        ensures
            r is Some <==> totals_for_fit(
                self.entries(),
                if exact {
                    exactly(account@)
                } else {
                    within(account@)
                },
            ),
            r matches Some(v) ==> amounts_totals(v@) == totals_for(
                self.entries(),
                if exact {
                    exactly(account@)
                } else {
                    within(account@)
                },
            ),
    {
        let ghost sel = if exact {
            exactly(account@)
        } else {
            within(account@)
        };
        let all = self.postings();
        let ghost es = self.entries();
        let mut totals: Vec<Amount> = Vec::new();
        let mut i: usize = 0;
        assert(es.take(0) =~= Seq::<(TransactionView, PostingView)>::empty());
        assert(amounts_totals(totals@) =~= Seq::<(Seq<char>, Quantity)>::empty());
        while i < all.len()
            invariant
                0 <= i <= all.len(),
                es == refs_view(all@),
                es == self.entries(),
                sel == (if exact {
                    exactly(account@)
                } else {
                    within(account@)
                }),
                totals_for_fit(es.take(i as int), sel),
                amounts_totals(totals@) == totals_for(es.take(i as int), sel),
            decreases all.len() - i,
        {
            let pr = all[i];
            proof {
                assert(es.take(i + 1).drop_last() =~= es.take(i as int));
                assert(es.take(i + 1).last() == (pr.transaction@, pr.posting@));
            }
            let selected = if exact {
                strings_equal(&pr.posting.account.0, &account.0)
            } else {
                pr.posting.account.is_under(account)
            };
            if selected {
                match &pr.posting.amount {
                    Some(amount) => {
                        if !add_into(&mut totals, amount) {
                            proof {
                                if totals_for_fit(es, sel) {
                                    lemma_totals_for_fit_prefix(es, sel, (i + 1) as nat);
                                }
                            }
                            return None;
                        }
                    },
                    None => {},
                }
            }
            i += 1;
        }
        assert(es.take(es.len() as int) =~= es);
        Some(totals)
    }

    /// Sums, per commodity, of the amounts of the entries whose account satisfies the test.
    fn sum_matching(&self, account: &Account, exact: bool) -> (r: Vec<Amount>)
        requires
            totals_for_fit(
                self.entries(),
                if exact {
                    exactly(account@)
                } else {
                    within(account@)
                },
            ),
        ensures
            amounts_totals(r@) == totals_for(
                self.entries(),
                if exact {
                    exactly(account@)
                } else {
                    within(account@)
                },
            ),
    {
        match self.try_sum_matching(account, exact) {
            Some(v) => v,
            None => {
                proof {
                    assert(false);
                }
                Vec::new()
            },
        }
    }

    /// Sums, per commodity (first appearance order), of the amounts posted directly to exactly
    /// this account.
    pub fn leaf_balance(&self, account: &Account) -> (r: Vec<Amount>)
        requires
            totals_for_fit(self.entries(), exactly(account@)),
        ensures
            amounts_totals(r@) == totals_for(self.entries(), exactly(account@)),
    {
        self.sum_matching(account, true)
    }

    /// Sums, per commodity (first appearance order), of the amounts posted to this account or
    /// any account under it.
    pub fn subtree_balance(&self, account: &Account) -> (r: Vec<Amount>)
        requires
            totals_for_fit(self.entries(), within(account@)),
        ensures
            amounts_totals(r@) == totals_for(self.entries(), within(account@)),
    {
        self.sum_matching(account, false)
    }

    /// Every distinct account that appears on a posting, sorted.
    pub fn accounts(&self) -> (r: Vec<Account>)
        ensures
            strictly_sorted(accounts_view(r@)),
            accounts_view(r@).to_set() == account_set(self.entries()),
    {
        let all = self.postings();
        let ghost es = self.entries();
        let mut out: Vec<Account> = Vec::new();
        let mut i: usize = 0;
        assert(accounts_view(out@).to_set() =~= account_set(es.take(0)));
        while i < all.len()
            invariant
                0 <= i <= all.len(),
                es == refs_view(all@),
                strictly_sorted(accounts_view(out@)),
                accounts_view(out@).to_set() == account_set(es.take(i as int)),
            decreases all.len() - i,
        {
            let pr = all[i];
            insert_account(&mut out, &pr.posting.account);
            proof {
                assert(es[i as int] == (pr.transaction@, pr.posting@));
                assert(account_set(es.take(i + 1)) =~= account_set(es.take(i as int)).insert(
                    pr.posting.account@,
                )) by {
                    assert forall|x: Seq<char>| account_set(es.take(i + 1)).contains(x) implies account_set(
                        es.take(i as int),
                    ).insert(pr.posting.account@).contains(x) by {
                        let k = choose|k: int| 0 <= k < i + 1 && (#[trigger] es.take(i + 1)[k]).1.account == x;
                        if k < i {
                            assert(es.take(i as int)[k] == es[k]);
                        }
                    }
                    assert forall|x: Seq<char>| account_set(es.take(i as int)).insert(pr.posting.account@).contains(x) implies account_set(
                        es.take(i + 1),
                    ).contains(x) by {
                        if x == pr.posting.account@ {
                            assert(es.take(i + 1)[i as int].1.account == x);
                        } else {
                            let k = choose|k: int| 0 <= k < i && (#[trigger] es.take(i as int)[k]).1.account == x;
                            assert(es.take(i + 1)[k] == es[k]);
                        }
                    }
                }
            }
            i += 1;
        }
        assert(es.take(es.len() as int) =~= es);
        out
    }

    /// The accounts that have at least one posted amount, sorted.
    fn amount_accounts(&self) -> (r: Vec<Account>)
        ensures
            strictly_sorted(accounts_view(r@)),
            accounts_view(r@).to_set() == amount_account_set(self.entries()),
    {
        let all = self.postings();
        let ghost es = self.entries();
        let mut out: Vec<Account> = Vec::new();
        let mut i: usize = 0;
        assert(accounts_view(out@).to_set() =~= amount_account_set(es.take(0)));
        while i < all.len()
            invariant
                0 <= i <= all.len(),
                es == refs_view(all@),
                strictly_sorted(accounts_view(out@)),
                accounts_view(out@).to_set() == amount_account_set(es.take(i as int)),
            decreases all.len() - i,
        {
            let pr = all[i];
            let has_amount = pr.posting.amount.is_some();
            let ghost prev = accounts_view(out@).to_set();
            if has_amount {
                insert_account(&mut out, &pr.posting.account);
            }
            proof {
                assert(es[i as int] == (pr.transaction@, pr.posting@));
                assert(pr.posting@.amount is Some == has_amount);
                let next = if has_amount {
                    amount_account_set(es.take(i as int)).insert(pr.posting.account@)
                } else {
                    amount_account_set(es.take(i as int))
                };
                assert(amount_account_set(es.take(i + 1)) =~= next) by {
                    assert forall|x: Seq<char>| amount_account_set(es.take(i + 1)).contains(x) implies next.contains(x) by {
                        let k = choose|k: int|
                            0 <= k < i + 1 && (#[trigger] es.take(i + 1)[k]).1.account == x && es.take(i + 1)[k].1.amount is Some;
                        if k < i {
                            assert(es.take(i as int)[k] == es[k]);
                        }
                    }
                    assert forall|x: Seq<char>| next.contains(x) implies amount_account_set(es.take(i + 1)).contains(x) by {
                        if has_amount && x == pr.posting.account@ {
                            assert(es.take(i + 1)[i as int].1.account == x);
                        } else {
                            let k = choose|k: int|
                                0 <= k < i && (#[trigger] es.take(i as int)[k]).1.account == x && es.take(i as int)[k].1.amount is Some;
                            assert(es.take(i + 1)[k] == es[k]);
                        }
                    }
                }
            }
            i += 1;
        }
        assert(es.take(es.len() as int) =~= es);
        out
    }

    /// The leaf balance of every account with at least one posted amount, in account order, or
    /// `None` where some account's sum is not exact.
    pub fn try_all_leaf_balances(&self) -> (r: Option<Vec<(Account, Vec<Amount>)>>)
        ensures
            r is Some <==> self.leaf_sums_fit(),
            r matches Some(v) ==> leaf_balances_spec(self.entries(), v@),
    {
        let accts = self.amount_accounts();
        let ghost es = self.entries();
        let mut out: Vec<(Account, Vec<Amount>)> = Vec::new();
        let mut i: usize = 0;
        while i < accts.len()
            invariant
                0 <= i <= accts.len(),
                es == self.entries(),
                strictly_sorted(accounts_view(accts@)),
                accounts_view(accts@).to_set() == amount_account_set(es),
                out@.map_values(|e: (Account, Vec<Amount>)| e.0@) == accounts_view(accts@).take(i as int),
                forall|k: int|
                    0 <= k < out.len() ==> amounts_totals(#[trigger] out@[k].1@) == totals_for(
                        es,
                        exactly(out@[k].0@),
                    ),
                forall|k: int| 0 <= k < i ==> totals_for_fit(es, exactly(#[trigger] accts@[k]@)),
            decreases accts.len() - i,
        {
            let a = &accts[i];
            let amounts = match self.try_sum_matching(a, true) {
                Some(v) => v,
                None => {
                    return None;
                },
            };
            let ghost before = out@.map_values(|e: (Account, Vec<Amount>)| e.0@);
            out.push((copy_account(a), amounts));
            assert(out@.map_values(|e: (Account, Vec<Amount>)| e.0@) =~= before.push(a@));
            assert(accounts_view(accts@).take(i + 1) =~= accounts_view(accts@).take(i as int).push(
                a@,
            ));
            i += 1;
        }
        assert(accounts_view(accts@).take(accts.len() as int) =~= accounts_view(accts@));
        proof {
            lemma_sorted_seq_of(accounts_view(accts@));
            assert forall|a: Seq<char>| totals_for_fit(es, #[trigger] exactly(a)) by {
                if amount_account_set(es).contains(a) {
                    assert(accounts_view(accts@).to_set().contains(a));
                    let k = choose|k: int| 0 <= k < accounts_view(accts@).len() && accounts_view(accts@)[k] == a;
                    assert(accts@[k]@ == a);
                } else {
                    lemma_fit_without_amounts(es, a);
                }
            }
        }
        Some(out)
    }

    /// The leaf balance of every account with at least one posted amount, in account order.
    pub fn all_leaf_balances(&self) -> (r: Vec<(Account, Vec<Amount>)>)
        requires
            self.leaf_sums_fit(),
        ensures
            leaf_balances_spec(self.entries(), r@),
    {
        match self.try_all_leaf_balances() {
            Some(v) => v,
            None => {
                proof {
                    assert(false);
                }
                Vec::new()
            },
        }
    }
}

/// Leaf balances as `all_leaf_balances` gives them: one entry per account posted an amount,
/// in strictly increasing account order, each with that account's per-commodity sums.
pub open spec fn leaf_balances_spec(
    es: Seq<(TransactionView, PostingView)>,
    v: Seq<(Account, Vec<Amount>)>,
) -> bool {
    &&& strictly_sorted(v.map_values(|e: (Account, Vec<Amount>)| e.0@))
    &&& v.map_values(|e: (Account, Vec<Amount>)| e.0@).to_set() == amount_account_set(es)
    &&& v.map_values(|e: (Account, Vec<Amount>)| e.0@) == sorted_seq(amount_account_set(es))
    &&& forall|k: int|
        0 <= k < v.len() ==> amounts_totals(#[trigger] v[k].1@) == totals_for(es, exactly(v[k].0@))
}

/// An account with no posted amount has exact (empty) sums.
proof fn lemma_fit_without_amounts(es: Seq<(TransactionView, PostingView)>, a: Seq<char>)
    requires
        !amount_account_set(es).contains(a),
    ensures
        totals_for_fit(es, exactly(a)),
    decreases es.len(),
{
    if es.len() > 0 {
        let prev = es.drop_last();
        assert(!amount_account_set(prev).contains(a)) by {
            if amount_account_set(prev).contains(a) {
                let i = choose|i: int| 0 <= i < prev.len() && prev[i].1.account == a && prev[i].1.amount is Some;
                assert(es[i] == prev[i]);
            }
        }
        lemma_fit_without_amounts(prev, a);
        let p = es.last().1;
        if p.account == a && p.amount is Some {
            assert(es[es.len() - 1].1 == p);
        }
    }
}

pub proof fn lemma_totals_for_fit_prefix(
    es: Seq<(TransactionView, PostingView)>,
    sel: spec_fn(Seq<char>) -> bool,
    i: nat,
)
    requires
        totals_for_fit(es, sel),
        i <= es.len(),
    ensures
        totals_for_fit(es.take(i as int), sel),
    decreases es.len(),
{
    if i == es.len() {
        assert(es.take(i as int) == es);
    } else {
        lemma_totals_for_fit_prefix(es.drop_last(), sel, i);
        assert(es.drop_last().take(i as int) == es.take(i as int));
    }
}

} // verus!
