//! Reports are functions of a ledger that return a data structure, kept apart from rendering.
//! What they share is stated here: the nonzero leaf balances of a ledger, in account order, and
//! the sorted set of commodities that a list of them uses.
pub mod balance_sheet;
pub mod clearing;
pub mod footing;
pub mod income_statement;
pub mod sections;
pub mod trial_balance;


use crate::ledger::{
    amount_account_set, amounts_totals, copy_account, exactly, lemma_sorted_seq_of, sorted_seq,
    strictly_sorted, totals_for, Ledger,
};
use crate::model::{Account, Amount, PostingView, TransactionView};
use crate::quantity::Quantity;
use crate::text::{lemma_seq_less_total, lemma_seq_less_trans, seq_less, string_less, strings_equal};
use vstd::prelude::*;

verus! {

broadcast use vstd::string::group_string_axioms;

/// A leaf balance: (account, commodity, quantity).
pub type LeafView = (Seq<char>, Seq<char>, Quantity);

/// The nonzero totals among `totals`, each tagged with the account `a`, in order.
pub open spec fn nonzero_rows(a: Seq<char>, totals: Seq<(Seq<char>, Quantity)>) -> Seq<LeafView>
    decreases totals.len(),
{
    if totals.len() == 0 {
        Seq::empty()
    } else {
        let prev = nonzero_rows(a, totals.drop_last());
        let t = totals.last();
        if t.1.val() != 0 {
            prev.push((a, t.0, t.1))
        } else {
            prev
        }
    }
}

/// The nonzero leaf balances of the accounts `accts`, account by account.
pub open spec fn rows_of(es: Seq<(TransactionView, PostingView)>, accts: Seq<Seq<char>>) -> Seq<
    LeafView,
>
    decreases accts.len(),
{
    if accts.len() == 0 {
        Seq::empty()
    } else {
        rows_of(es, accts.drop_last()) + nonzero_rows(
            accts.last(),
            totals_for(es, exactly(accts.last())),
        )
    }
}

/// Every nonzero leaf balance of the entries: accounts in order, and within an account its
/// commodities in order of first appearance.
pub open spec fn leaf_rows(es: Seq<(TransactionView, PostingView)>) -> Seq<LeafView> {
    rows_of(es, sorted_seq(amount_account_set(es)))
}

/// The rows whose account satisfies `sel`, in order.
pub open spec fn rows_where(rows: Seq<LeafView>, sel: spec_fn(Seq<char>) -> bool) -> Seq<LeafView>
    decreases rows.len(),
{
    if rows.len() == 0 {
        Seq::empty()
    } else if sel(rows.last().0) {
        rows_where(rows.drop_last(), sel).push(rows.last())
    } else {
        rows_where(rows.drop_last(), sel)
    }
}

/// The rows in commodity `c`, in order.
pub open spec fn rows_in(rows: Seq<LeafView>, c: Seq<char>) -> Seq<LeafView>
    decreases rows.len(),
{
    if rows.len() == 0 {
        Seq::empty()
    } else if rows.last().1 == c {
        rows_in(rows.drop_last(), c).push(rows.last())
    } else {
        rows_in(rows.drop_last(), c)
    }
}

/// The commodities the rows use.
pub open spec fn commodity_set(rows: Seq<LeafView>) -> Set<Seq<char>> {
    Set::new(|c: Seq<char>| exists|i: int| 0 <= i < rows.len() && rows[i].1 == c)
}

/// The commodities the rows use, sorted.
pub open spec fn commodities(rows: Seq<LeafView>) -> Seq<Seq<char>> {
    sorted_seq(commodity_set(rows))
}

/// The rows of a commodity the rows do not use are none.
pub proof fn lemma_rows_in_absent(rows: Seq<LeafView>, c: Seq<char>)
    requires
        !commodity_set(rows).contains(c),
    ensures
        rows_in(rows, c).len() == 0,
    decreases rows.len(),
{
    if rows.len() > 0 {
        let prev = rows.drop_last();
        assert(!commodity_set(prev).contains(c)) by {
            if commodity_set(prev).contains(c) {
                let i = choose|i: int| 0 <= i < prev.len() && prev[i].1 == c;
                assert(rows[i] == prev[i]);
            }
        }
        lemma_rows_in_absent(prev, c);
        if rows.last().1 == c {
            assert(rows[rows.len() - 1].1 == c);
        }
    }
}

/// The view of a list of leaf balances.
pub open spec fn leaf_view(v: Seq<(Account, String, Quantity)>) -> Seq<LeafView> {
    v.map_values(|e: (Account, String, Quantity)| (e.0@, e.1@, e.2))
}

/// The view of a list of strings.
pub open spec fn strings_view(v: Seq<String>) -> Seq<Seq<char>> {
    v.map_values(|s: String| s@)
}

proof fn lemma_rows_of_step(es: Seq<(TransactionView, PostingView)>, accts: Seq<Seq<char>>, i: int)
    requires
        0 <= i < accts.len(),
    ensures
        rows_of(es, accts.take(i + 1)) == rows_of(es, accts.take(i)) + nonzero_rows(
            accts[i],
            totals_for(es, exactly(accts[i])),
        ),
{
    assert(accts.take(i + 1).drop_last() =~= accts.take(i));
    assert(accts.take(i + 1).last() == accts[i]);
}

/// Every nonzero leaf balance of the ledger, in account order; `None` where some account's
/// sum is not exact.
pub fn try_leaf_amounts(ledger: &Ledger) -> (r: Option<Vec<(Account, String, Quantity)>>)
    ensures
        r is Some <==> ledger.leaf_sums_fit(),
        r matches Some(v) ==> leaf_view(v@) == leaf_rows(ledger.entries()),
{
    let balances = match ledger.try_all_leaf_balances() {
        Some(b) => b,
        None => {
            return None;
        },
    };
    let ghost es = ledger.entries();
    let ghost accts = balances@.map_values(|e: (Account, Vec<Amount>)| e.0@);
    let mut out: Vec<(Account, String, Quantity)> = Vec::new();
    let mut i: usize = 0;
    assert(accts.take(0) =~= Seq::<Seq<char>>::empty());
    assert(leaf_view(out@) =~= Seq::<LeafView>::empty());
    while i < balances.len()
        invariant
            0 <= i <= balances.len(),
            accts == balances@.map_values(|e: (Account, Vec<Amount>)| e.0@),
            es == ledger.entries(),
            forall|k: int|
                0 <= k < balances.len() ==> amounts_totals(#[trigger] balances@[k].1@)
                    == totals_for(es, exactly(balances@[k].0@)),
            leaf_view(out@) == rows_of(es, accts.take(i as int)),
        decreases balances.len() - i,
    {
        let account = &balances[i].0;
        let amounts = &balances[i].1;
        let ghost base = leaf_view(out@);
        let ghost tot = amounts_totals(amounts@);
        assert(tot == totals_for(es, exactly(account@)));
        let mut j: usize = 0;
        assert(tot.take(0) =~= Seq::<(Seq<char>, Quantity)>::empty());
        assert(base + nonzero_rows(account@, tot.take(0)) =~= base);
        while j < amounts.len()
            invariant
                0 <= j <= amounts.len(),
                tot == amounts_totals(amounts@),
                leaf_view(out@) == base + nonzero_rows(account@, tot.take(j as int)),
            decreases amounts.len() - j,
        {
            let amount = &amounts[j];
            proof {
                assert(tot.take(j + 1).drop_last() =~= tot.take(j as int));
                assert(tot.take(j + 1).last() == (amount.commodity@, amount.quantity));
            }
            if !amount.quantity.is_zero() {
                let ghost before = leaf_view(out@);
                out.push((copy_account(account), amount.commodity.clone(), amount.quantity));
                assert(leaf_view(out@) =~= before.push((account@, amount.commodity@, amount.quantity)));
                assert(base + nonzero_rows(account@, tot.take(j + 1)) =~= (base + nonzero_rows(
                    account@,
                    tot.take(j as int),
                )).push((account@, amount.commodity@, amount.quantity)));
            }
            j += 1;
        }
        proof {
            assert(tot.take(amounts.len() as int) =~= tot);
            assert(accts[i as int] == account@);
            lemma_rows_of_step(es, accts, i as int);
        }
        i += 1;
    }
    assert(accts.take(balances.len() as int) =~= accts);
    Some(out)
}

/// Inserts `s` into the strictly sorted strings `v` unless it is already there.
pub fn insert_sorted(v: &mut Vec<String>, s: &String)
    requires
        strictly_sorted(strings_view(old(v)@)),
    ensures
        strictly_sorted(strings_view(final(v)@)),
        strings_view(final(v)@).to_set() == strings_view(old(v)@).to_set().insert(s@),
{
    let ghost sv = strings_view(v@);
    let mut j: usize = 0;
    while j < v.len() && string_less(&v[j], s)
        invariant
            0 <= j <= v.len(),
            sv == strings_view(v@),
            forall|k: int| 0 <= k < j ==> seq_less(#[trigger] sv[k], s@),
        decreases v.len() - j,
    {
        j += 1;
    }
    if j < v.len() && strings_equal(&v[j], s) {
        assert(sv.to_set().insert(s@) =~= sv.to_set()) by {
            assert(sv[j as int] == s@);
        }
        return;
    }
    proof {
        if j < v.len() {
            lemma_seq_less_total(sv[j as int], s@);
        }
    }
    v.insert(j, s.clone());
    proof {
        let nv = strings_view(v@);
        assert(nv =~= sv.insert(j as int, s@));
        assert forall|x: int, y: int| 0 <= x < y < nv.len() implies seq_less(nv[x], nv[y]) by {
            if y < j {
            } else if y == j {
            } else if x < j {
                assert(nv[y] == sv[y - 1]);
                if y - 1 > j {
                    lemma_seq_less_trans(s@, sv[j as int], sv[y - 1]);
                }
                lemma_seq_less_trans(nv[x], s@, nv[y]);
            } else if x == j {
                assert(nv[y] == sv[y - 1]);
                if y - 1 > j {
                    lemma_seq_less_trans(s@, sv[j as int], sv[y - 1]);
                }
            } else {
                assert(nv[x] == sv[x - 1]);
                assert(nv[y] == sv[y - 1]);
            }
        }
        assert(nv.to_set() =~= sv.to_set().insert(s@)) by {
            assert forall|x: Seq<char>| nv.to_set().contains(x) <==> sv.to_set().insert(
                s@,
            ).contains(x) by {
                if nv.to_set().contains(x) {
                    let k = choose|k: int| 0 <= k < nv.len() && nv[k] == x;
                    if k < j {
                        assert(sv[k] == x);
                    } else if k > j {
                        assert(sv[k - 1] == x);
                    }
                }
                if sv.to_set().contains(x) {
                    let k = choose|k: int| 0 <= k < sv.len() && sv[k] == x;
                    if k < j {
                        assert(nv[k] == x);
                    } else {
                        assert(nv[k + 1] == x);
                    }
                }
                if x == s@ {
                    assert(nv[j as int] == x);
                }
            }
        }
    }
}

/// The commodities the rows use, sorted.
pub fn sorted_commodities(rows: &Vec<(Account, String, Quantity)>) -> (r: Vec<String>)
    ensures
        strings_view(r@) == commodities(leaf_view(rows@)),
        strings_view(r@).to_set() == commodity_set(leaf_view(rows@)),
{
    let ghost lv = leaf_view(rows@);
    let mut out: Vec<String> = Vec::new();
    let mut i: usize = 0;
    assert(strings_view(out@).to_set() =~= commodity_set(lv.take(0)));
    while i < rows.len()
        invariant
            0 <= i <= rows.len(),
            lv == leaf_view(rows@),
            strictly_sorted(strings_view(out@)),
            strings_view(out@).to_set() == commodity_set(lv.take(i as int)),
        decreases rows.len() - i,
    {
        insert_sorted(&mut out, &rows[i].1);
        proof {
            let c = rows@[i as int].1@;
            assert(lv[i as int].1 == c);
            assert(commodity_set(lv.take(i + 1)) =~= commodity_set(lv.take(i as int)).insert(c)) by {
                assert forall|x: Seq<char>| commodity_set(lv.take(i + 1)).contains(x) implies commodity_set(
                    lv.take(i as int),
                ).insert(c).contains(x) by {
                    let k = choose|k: int| 0 <= k < i + 1 && (#[trigger] lv.take(i + 1)[k]).1 == x;
                    if k < i {
                        assert(lv.take(i as int)[k] == lv[k]);
                    }
                }
                assert forall|x: Seq<char>| commodity_set(lv.take(i as int)).insert(c).contains(x) implies commodity_set(
                    lv.take(i + 1),
                ).contains(x) by {
                    if x == c {
                        assert(lv.take(i + 1)[i as int].1 == x);
                    } else {
                        let k = choose|k: int| 0 <= k < i && (#[trigger] lv.take(i as int)[k]).1 == x;
                        assert(lv.take(i + 1)[k] == lv[k]);
                    }
                }
            }
        }
        i += 1;
    }
    proof {
        assert(lv.take(rows.len() as int) =~= lv);
        lemma_sorted_seq_of(strings_view(out@));
    }
    out
}

/// The rows in commodity `c`, in order.
pub fn rows_with_commodity(rows: &Vec<(Account, String, Quantity)>, c: &String) -> (r: Vec<
    (Account, String, Quantity),
>)
    ensures
        leaf_view(r@) == rows_in(leaf_view(rows@), c@),
{
    let ghost lv = leaf_view(rows@);
    let mut out: Vec<(Account, String, Quantity)> = Vec::new();
    let mut i: usize = 0;
    assert(leaf_view(out@) =~= rows_in(lv.take(0), c@));
    while i < rows.len()
        invariant
            0 <= i <= rows.len(),
            lv == leaf_view(rows@),
            leaf_view(out@) == rows_in(lv.take(i as int), c@),
        decreases rows.len() - i,
    {
        proof {
            assert(lv.take(i + 1).drop_last() =~= lv.take(i as int));
            assert(lv.take(i + 1).last() == lv[i as int]);
        }
        if strings_equal(&rows[i].1, c) {
            let ghost before = leaf_view(out@);
            out.push((copy_account(&rows[i].0), rows[i].1.clone(), rows[i].2));
            assert(leaf_view(out@) =~= before.push(lv[i as int]));
        }
        i += 1;
    }
    assert(lv.take(rows.len() as int) =~= lv);
    out
}

} // verus!
