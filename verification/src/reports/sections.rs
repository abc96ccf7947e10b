//! What the balance sheet and the income statement share: sections of named amounts with a
//! total, how a section is laid out as text, and the list of accounts the classifier does not
//! recognize.
use crate::account_types::{classify, classify_spec, AccountType};
use crate::layout::{
    byte_len, nat_text, pad_end, pad_start, push_padded_end, push_padded_start, usize_text,
};
use crate::ledger::{
    accounts_view, insert_account, lemma_sorted_seq_of, sorted_seq, strictly_sorted,
};
use crate::model::Account;
use crate::quantity::{qsum, Quantity};
use crate::reports::{leaf_view, LeafView};
use vstd::prelude::*;

verus! {

broadcast use vstd::string::group_string_axioms;

/// A row of a report section: an account (or a label) and the amount shown for it.
pub struct RowView {
    pub account: Seq<char>,
    pub amount: Quantity,
}

/// A report section: its rows and their total.
pub struct SectionView {
    pub rows: Seq<RowView>,
    pub total: Quantity,
}

/// Selects the accounts of type `t`.
pub open spec fn of_type(t: AccountType) -> spec_fn(Seq<char>) -> bool {
    |a: Seq<char>| classify_spec(a) == Some(t)
}

/// Selects the accounts the classifier recognizes.
pub open spec fn recognized() -> spec_fn(Seq<char>) -> bool {
    |a: Seq<char>| classify_spec(a) is Some
}

/// Selects the accounts the classifier does not recognize.
pub open spec fn unrecognized() -> spec_fn(Seq<char>) -> bool {
    |a: Seq<char>| classify_spec(a) is None
}

/// The quantities of the rows.
pub open spec fn quantities(rows: Seq<LeafView>) -> Seq<Quantity> {
    rows.map_values(|r: LeafView| r.2)
}

/// Section rows for leaf balances, as they stand or sign-flipped.
pub open spec fn signed_rows(rows: Seq<LeafView>, flip: bool) -> Seq<RowView> {
    rows.map_values(
        |r: LeafView|
            RowView {
                account: r.0,
                amount: if flip {
                    r.2.negated()
                } else {
                    r.2
                },
            },
    )
}

/// The amounts of section rows.
pub open spec fn amounts(rows: Seq<RowView>) -> Seq<Quantity> {
    rows.map_values(|r: RowView| r.amount)
}

/// A section holding `rows`, totalled.
pub open spec fn section_of(rows: Seq<RowView>) -> SectionView {
    SectionView { rows, total: qsum(amounts(rows)) }
}

/// The accounts with a nonzero balance that the classifier does not recognize, sorted.
pub open spec fn unclassified_spec(rows: Seq<LeafView>) -> Seq<Seq<char>> {
    sorted_seq(
        Set::new(
            |a: Seq<char>| exists|i: int| 0 <= i < rows.len() && rows[i].0 == a && classify_spec(a) is None,
        ),
    )
}

/// The accounts among the rows that the classifier does not recognize, sorted.
pub fn unclassified_of(rows: &Vec<(Account, String, Quantity)>) -> (r: Vec<Account>)
    ensures
        accounts_view(r@) == unclassified_spec(leaf_view(rows@)),
{
    let ghost lv = leaf_view(rows@);
    let ghost target = Set::new(
        |a: Seq<char>| exists|k: int| 0 <= k < lv.len() && lv[k].0 == a && classify_spec(a) is None,
    );
    let mut out: Vec<Account> = Vec::new();
    let mut i: usize = 0;
    assert(accounts_view(out@).to_set() =~= Set::new(
        |a: Seq<char>| exists|k: int| 0 <= k < 0 && lv[k].0 == a && classify_spec(a) is None,
    ));
    while i < rows.len()
        invariant
            0 <= i <= rows.len(),
            lv == leaf_view(rows@),
            strictly_sorted(accounts_view(out@)),
            accounts_view(out@).to_set() == Set::new(
                |a: Seq<char>| exists|k: int| 0 <= k < i && lv[k].0 == a && classify_spec(a) is None,
            ),
        decreases rows.len() - i,
    {
        let ghost prev = accounts_view(out@).to_set();
        let class = classify(&rows[i].0);
        if class.is_none() {
            insert_account(&mut out, &rows[i].0);
        }
        proof {
            let a0 = rows@[i as int].0@;
            assert(lv[i as int].0 == a0);
            let next = Set::new(
                |a: Seq<char>| exists|k: int| 0 <= k < i + 1 && lv[k].0 == a && classify_spec(a) is None,
            );
            assert(accounts_view(out@).to_set() =~= next) by {
                assert forall|x: Seq<char>| next.contains(x) implies accounts_view(out@).to_set().contains(x) by {
                    let k = choose|k: int| 0 <= k < i + 1 && lv[k].0 == x && classify_spec(x) is None;
                    if k < i {
                        assert(prev.contains(x));
                    }
                }
                assert forall|x: Seq<char>| accounts_view(out@).to_set().contains(x) implies next.contains(x) by {
                    if prev.contains(x) {
                        let k = choose|k: int| 0 <= k < i && lv[k].0 == x && classify_spec(x) is None;
                        assert(0 <= k < i + 1 && lv[k].0 == x);
                    } else {
                        assert(x == a0);
                        assert(0 <= i < i + 1 && lv[i as int].0 == x);
                    }
                }
            }
        }
        i += 1;
    }
    proof {
        assert(Set::new(
            |a: Seq<char>| exists|k: int| 0 <= k < rows.len() && lv[k].0 == a && classify_spec(a) is None,
        ) =~= target);
        crate::ledger::lemma_sorted_seq_of(accounts_view(out@));
    }
    out
}

/// Width in bytes of `s`.
pub open spec fn len_of(s: Seq<char>) -> nat {
    byte_len(s)
}

/// Width of the name column: the longest row name in bytes, at least the total label's.
pub open spec fn name_col(rows: Seq<RowView>, label: Seq<char>) -> nat
    decreases rows.len(),
{
    if rows.len() == 0 {
        len_of(label)
    } else {
        let w = name_col(rows.drop_last(), label);
        let n = len_of(rows.last().account);
        if n > w {
            n
        } else {
            w
        }
    }
}

/// One line of a section: `  {:<nw$}  {:>14.2}`.
pub open spec fn amount_line(name: Seq<char>, q: Quantity, nw: nat) -> Seq<char> {
    "  "@ + pad_end(name, nw) + "  "@ + pad_start(q.text_2dp(), 14) + "\n"@
}

/// The lines of the rows.
pub open spec fn amount_lines(rows: Seq<RowView>, nw: nat) -> Seq<char>
    decreases rows.len(),
{
    if rows.len() == 0 {
        Seq::empty()
    } else {
        amount_lines(rows.drop_last(), nw) + amount_line(rows.last().account, rows.last().amount, nw)
    }
}

/// A section: its heading, its rows, its total line, and a blank line.
pub open spec fn section_text(heading: Seq<char>, label: Seq<char>, s: SectionView) -> Seq<char> {
    let nw = name_col(s.rows, label);
    heading + "\n"@ + amount_lines(s.rows, nw) + amount_line(label, s.total, nw) + "\n"@
}

/// The commodity line, when the commodity has a name.
pub open spec fn commodity_line(c: Seq<char>) -> Seq<char> {
    if c.len() > 0 {
        "Commodity: "@ + c + "\n"@
    } else {
        Seq::empty()
    }
}

/// One indented line per account.
pub open spec fn account_lines(v: Seq<Seq<char>>) -> Seq<char>
    decreases v.len(),
{
    if v.len() == 0 {
        Seq::empty()
    } else {
        account_lines(v.drop_last()) + "  "@ + v.last() + "\n"@
    }
}

/// The note listing the accounts left out, if there are any.
pub open spec fn unclassified_note(v: Seq<Seq<char>>) -> Seq<char> {
    if v.len() == 0 {
        Seq::empty()
    } else {
        "NOTE: "@ + nat_text(v.len()) + " account(s) have an unrecognized top-level segment and are excluded from this report:\n"@
            + account_lines(v)
    }
}

pub fn push_amount_line(out: &mut String, name: &str, q: Quantity, nw: usize)
    ensures
        final(out)@ == old(out)@ + amount_line(name@, q, nw as nat),
{
    let ghost start = out@;
    out.append("  ");
    push_padded_end(out, name, nw);
    out.append("  ");
    let t = q.to_text_2dp();
    push_padded_start(out, t.as_str(), 14);
    out.append("\n");
    assert(out@ =~= start + amount_line(name@, q, nw as nat));
}

/// Appends the commodity line, when the commodity has a name.
pub fn push_commodity_line(out: &mut String, commodity: &String)
    ensures
        final(out)@ == old(out)@ + commodity_line(commodity@),
{
    let ghost start = out@;
    if !commodity.as_str().is_empty() {
        out.append("Commodity: ");
        out.append(commodity.as_str());
        out.append("\n");
    }
    assert(out@ =~= start + commodity_line(commodity@));
}

/// Appends the note listing the accounts left out, if there are any.
pub fn push_unclassified_note(out: &mut String, accounts: &Vec<Account>)
    ensures
        final(out)@ == old(out)@ + unclassified_note(accounts_view(accounts@)),
{
    let ghost v = accounts_view(accounts@);
    if accounts.len() == 0 {
        assert(out@ =~= out@ + unclassified_note(v));
        return;
    }
    let ghost start = out@;
    out.append("NOTE: ");
    let n = usize_text(accounts.len());
    out.append(n.as_str());
    out.append(" account(s) have an unrecognized top-level segment and are excluded from this report:\n");
    let ghost head = out@;
    let mut i: usize = 0;
    assert(v.take(0) =~= Seq::<Seq<char>>::empty());
    assert(head + account_lines(v.take(0)) =~= head);
    while i < accounts.len()
        invariant
            0 <= i <= accounts.len(),
            v == accounts_view(accounts@),
            out@ == head + account_lines(v.take(i as int)),
        decreases accounts.len() - i,
    {
        out.append("  ");
        out.append(accounts[i].0.as_str());
        out.append("\n");
        proof {
            assert(v[i as int] == accounts@[i as int]@);
            assert(v.take(i + 1).drop_last() =~= v.take(i as int));
            assert(v.take(i + 1).last() == v[i as int]);
            assert(out@ =~= head + account_lines(v.take(i + 1)));
        }
        i += 1;
    }
    assert(v.take(accounts.len() as int) =~= v);
    assert(out@ =~= start + unclassified_note(v));
}

} // verus!
