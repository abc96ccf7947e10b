//! The primary report: a classic trial balance, one row per account with its balance in the
//! debit or the credit column by sign, and a total row that foots to the same value on both
//! sides. Amounts are never summed across commodities: each commodity gets its own section.
use crate::layout::{
    byte_count, byte_len, pad_end, pad_start, push_padded_end, push_padded_start, push_repeat,
    repeat,
};
use crate::ledger::{copy_account, Ledger};
use crate::model::Account;
use crate::quantity::{qsum, qsum_fits, try_sum_all, Quantity};
use crate::reports::{
    commodities, lemma_rows_in_absent, try_leaf_amounts, leaf_rows, leaf_view, rows_in,
    rows_with_commodity, sorted_commodities, strings_view, LeafView,
};
use crate::model::{PostingView, TransactionView};
use vstd::prelude::*;

verus! {

broadcast use vstd::string::group_string_axioms;

/// One account's row: its balance in the debit column when positive, else in the credit
/// column as a positive number.
pub struct TrialBalanceRow {
    pub account: Account,
    pub debit: Quantity,
    pub credit: Quantity,
}

/// The view of a [`TrialBalanceRow`].
pub struct TrialBalanceRowView {
    pub account: Seq<char>,
    pub debit: Quantity,
    pub credit: Quantity,
}

impl View for TrialBalanceRow {
    type V = TrialBalanceRowView;

    open spec fn view(&self) -> TrialBalanceRowView {
        TrialBalanceRowView { account: self.account@, debit: self.debit, credit: self.credit }
    }
}

/// The rows of one commodity, with the totals of both columns.
pub struct TrialBalanceSection {
    pub commodity: String,
    pub rows: Vec<TrialBalanceRow>,
    pub total_debit: Quantity,
    pub total_credit: Quantity,
}

/// The view of a [`TrialBalanceSection`].
pub struct TrialBalanceSectionView {
    pub commodity: Seq<char>,
    pub rows: Seq<TrialBalanceRowView>,
    pub total_debit: Quantity,
    pub total_credit: Quantity,
}

/// The view of a list of rows.
pub open spec fn rows_view(v: Seq<TrialBalanceRow>) -> Seq<TrialBalanceRowView> {
    v.map_values(|r: TrialBalanceRow| r@)
}

impl View for TrialBalanceSection {
    type V = TrialBalanceSectionView;

    open spec fn view(&self) -> TrialBalanceSectionView {
        TrialBalanceSectionView {
            commodity: self.commodity@,
            rows: rows_view(self.rows@),
            total_debit: self.total_debit,
            total_credit: self.total_credit,
        }
    }
}

/// One section per commodity, in commodity order.
pub struct TrialBalance {
    pub sections: Vec<TrialBalanceSection>,
}

/// The view of a list of sections.
pub open spec fn sections_view(v: Seq<TrialBalanceSection>) -> Seq<TrialBalanceSectionView> {
    v.map_values(|s: TrialBalanceSection| s@)
}

impl View for TrialBalance {
    type V = Seq<TrialBalanceSectionView>;

    open spec fn view(&self) -> Seq<TrialBalanceSectionView> {
        sections_view(self.sections@)
    }
}

// ---------------------------------------------------------------------------------------------
// What the report holds.
// ---------------------------------------------------------------------------------------------

/// The row for a nonzero leaf balance: positive ones debit, the others credit.
pub open spec fn tb_row(r: LeafView) -> TrialBalanceRowView {
    if r.2.val() > 0 {
        TrialBalanceRowView { account: r.0, debit: r.2, credit: Quantity::spec_zero() }
    } else {
        TrialBalanceRowView { account: r.0, debit: Quantity::spec_zero(), credit: r.2.negated() }
    }
}

/// The rows for a list of leaf balances.
pub open spec fn tb_rows(rows: Seq<LeafView>) -> Seq<TrialBalanceRowView> {
    rows.map_values(|r: LeafView| tb_row(r))
}

/// The debit column.
pub open spec fn debits(rs: Seq<TrialBalanceRowView>) -> Seq<Quantity> {
    rs.map_values(|r: TrialBalanceRowView| r.debit)
}

/// The credit column.
pub open spec fn credits(rs: Seq<TrialBalanceRowView>) -> Seq<Quantity> {
    rs.map_values(|r: TrialBalanceRowView| r.credit)
}

/// The section for commodity `c` of the leaf balances `rows`.
pub open spec fn tb_section(rows: Seq<LeafView>, c: Seq<char>) -> TrialBalanceSectionView {
    let rs = tb_rows(rows_in(rows, c));
    TrialBalanceSectionView {
        commodity: c,
        rows: rs,
        total_debit: qsum(debits(rs)),
        total_credit: qsum(credits(rs)),
    }
}

/// The trial balance of the entries: one section per commodity of a nonzero leaf balance.
pub open spec fn trial_balance_spec(es: Seq<(TransactionView, PostingView)>) -> Seq<
    TrialBalanceSectionView,
> {
    let rows = leaf_rows(es);
    commodities(rows).map_values(|c: Seq<char>| tb_section(rows, c))
}

/// Whether the column totals of every section are exact sums.
pub open spec fn columns_fit(es: Seq<(TransactionView, PostingView)>) -> bool {
    forall|c: Seq<char>|
        qsum_fits(#[trigger] debits(tb_rows(rows_in(leaf_rows(es), c)))) && qsum_fits(
            credits(tb_rows(rows_in(leaf_rows(es), c))),
        )
}

/// Whether a section's totals agree.
pub open spec fn section_balanced(s: TrialBalanceSectionView) -> bool {
    s.total_debit.val() == s.total_credit.val()
}

impl TrialBalanceSection {
    /// True if total debits equal total credits.
    pub fn is_balanced(&self) -> (r: bool)
        ensures
            r == section_balanced(self@),
    {
        self.total_debit.equals(&self.total_credit)
    }
}

impl TrialBalance {
    /// True if every section foots.
    pub fn is_balanced(&self) -> (r: bool)
        ensures
            r == forall|k: int| 0 <= k < self@.len() ==> section_balanced(#[trigger] self@[k]),
    {
        let mut i: usize = 0;
        while i < self.sections.len()
            invariant
                0 <= i <= self.sections.len(),
                forall|k: int| 0 <= k < i ==> section_balanced(#[trigger] self@[k]),
            decreases self.sections.len() - i,
        {
            if !self.sections[i].is_balanced() {
                assert(!section_balanced(self@[i as int]));
                return false;
            }
            i += 1;
        }
        true
    }
}

fn to_row(r: &(Account, String, Quantity)) -> (t: TrialBalanceRow)
    ensures
        t@ == tb_row((r.0@, r.1@, r.2)),
{
    if r.2.is_positive() {
        TrialBalanceRow { account: copy_account(&r.0), debit: r.2, credit: Quantity::zero() }
    } else {
        TrialBalanceRow { account: copy_account(&r.0), debit: Quantity::zero(), credit: r.2.neg() }
    }
}

/// Builds the trial balance of the ledger, or gives `None` where a sum is not exact (where
/// `Decimal` addition would overflow).
pub fn try_build(ledger: &Ledger) -> (r: Option<TrialBalance>)
    ensures
        r is Some <==> ledger.leaf_sums_fit() && columns_fit(ledger.entries()),
        r matches Some(tb) ==> tb@ == trial_balance_spec(ledger.entries()),
{
    let leaf = match try_leaf_amounts(ledger) {
        Some(l) => l,
        None => {
            return None;
        },
    };
    let comms = sorted_commodities(&leaf);
    let ghost rows = leaf_rows(ledger.entries());
    let ghost cs = commodities(rows);
    let mut sections: Vec<TrialBalanceSection> = Vec::new();
    let mut i: usize = 0;
    while i < comms.len()
        invariant
            0 <= i <= comms.len(),
            rows == leaf_view(leaf@),
            cs == strings_view(comms@),
            rows == leaf_rows(ledger.entries()),
            sections_view(sections@) == cs.take(i as int).map_values(
                |c: Seq<char>| tb_section(rows, c),
            ),
            forall|k: int|
                0 <= k < i ==> qsum_fits(debits(tb_rows(rows_in(rows, #[trigger] cs[k]))))
                    && qsum_fits(credits(tb_rows(rows_in(rows, cs[k])))),
        decreases comms.len() - i,
    {
        let c = &comms[i];
        let selected = rows_with_commodity(&leaf, c);
        let ghost sel = rows_in(rows, c@);
        let mut out_rows: Vec<TrialBalanceRow> = Vec::new();
        let mut ds: Vec<Quantity> = Vec::new();
        let mut crs: Vec<Quantity> = Vec::new();
        let mut j: usize = 0;
        while j < selected.len()
            invariant
                0 <= j <= selected.len(),
                sel == leaf_view(selected@),
                rows_view(out_rows@) == tb_rows(sel.take(j as int)),
                ds@ == debits(tb_rows(sel.take(j as int))),
                crs@ == credits(tb_rows(sel.take(j as int))),
            decreases selected.len() - j,
        {
            let row = to_row(&selected[j]);
            let ghost rv = row@;
            assert(sel[j as int] == (selected@[j as int].0@, selected@[j as int].1@, selected@[j as int].2));
            assert(tb_rows(sel.take(j + 1)) =~= tb_rows(sel.take(j as int)).push(rv));
            ds.push(row.debit);
            crs.push(row.credit);
            let ghost before = rows_view(out_rows@);
            out_rows.push(row);
            assert(rows_view(out_rows@) =~= before.push(rv));
            assert(ds@ =~= debits(tb_rows(sel.take(j + 1))));
            assert(crs@ =~= credits(tb_rows(sel.take(j + 1))));
            j += 1;
        }
        assert(sel.take(selected.len() as int) =~= sel);
        assert(cs[i as int] == c@);
        let total_debit = match try_sum_all(&ds) {
            Some(q) => q,
            None => {
                return None;
            },
        };
        let total_credit = match try_sum_all(&crs) {
            Some(q) => q,
            None => {
                return None;
            },
        };
        let section = TrialBalanceSection {
            commodity: c.clone(),
            rows: out_rows,
            total_debit,
            total_credit,
        };
        let ghost before = sections_view(sections@);
        sections.push(section);
        proof {
            assert(sections_view(sections@) =~= before.push(tb_section(rows, c@)));
            assert(cs.take(i + 1).map_values(|c: Seq<char>| tb_section(rows, c)) =~= cs.take(
                i as int,
            ).map_values(|c: Seq<char>| tb_section(rows, c)).push(tb_section(rows, c@)));
        }
        i += 1;
    }
    assert(cs.take(comms.len() as int) =~= cs);
    proof {
        assert forall|c: Seq<char>|
            qsum_fits(#[trigger] debits(tb_rows(rows_in(leaf_rows(ledger.entries()), c))))
                && qsum_fits(credits(tb_rows(rows_in(leaf_rows(ledger.entries()), c)))) by {
            if cs.to_set().contains(c) {
                let k = choose|k: int| 0 <= k < cs.len() && cs[k] == c;
                assert(qsum_fits(debits(tb_rows(rows_in(rows, cs[k])))));
            } else {
                lemma_rows_in_absent(rows, c);
                assert(debits(tb_rows(rows_in(rows, c))) =~= Seq::<Quantity>::empty());
                assert(credits(tb_rows(rows_in(rows, c))) =~= Seq::<Quantity>::empty());
            }
        }
    }
    Some(TrialBalance { sections })
}

/// Builds the trial balance of the ledger: for each commodity, in order, the nonzero leaf
/// balances in account order, and the totals of the two columns.
pub fn build(ledger: &Ledger) -> (r: TrialBalance)
    requires
        ledger.leaf_sums_fit(),
        columns_fit(ledger.entries()),
    ensures
        r@ == trial_balance_spec(ledger.entries()),
{
    match try_build(ledger) {
        Some(tb) => tb,
        None => {
            proof {
                assert(false);
            }
            TrialBalance { sections: Vec::new() }
        },
    }
}

// ---------------------------------------------------------------------------------------------
// Rendering.
// ---------------------------------------------------------------------------------------------

/// Width of the account column: the longest account name in UTF-8 bytes, at least that of
/// the heading `Account`.
pub open spec fn name_width(rows: Seq<TrialBalanceRowView>) -> nat
    decreases rows.len(),
{
    if rows.len() == 0 {
        7
    } else {
        let w = name_width(rows.drop_last());
        let n = byte_len(rows.last().account);
        if n > w {
            n
        } else {
            w
        }
    }
}

/// A column cell: blank for zero, else the value with two decimals.
pub open spec fn blank_or(q: Quantity) -> Seq<char> {
    if q.val() == 0 {
        Seq::empty()
    } else {
        q.text_2dp()
    }
}

/// One line of three columns: `{:<aw$}  {:>14}  {:>14}`.
pub open spec fn columns_line(a: Seq<char>, b: Seq<char>, c: Seq<char>, aw: nat) -> Seq<char> {
    pad_end(a, aw) + "  "@ + pad_start(b, 14) + "  "@ + pad_start(c, 14) + "\n"@
}

/// The lines of the rows.
pub open spec fn row_lines(rows: Seq<TrialBalanceRowView>, aw: nat) -> Seq<char>
    decreases rows.len(),
{
    if rows.len() == 0 {
        Seq::empty()
    } else {
        let r = rows.last();
        row_lines(rows.drop_last(), aw) + columns_line(
            r.account,
            blank_or(r.debit),
            blank_or(r.credit),
            aw,
        )
    }
}

/// The rule under the header and above the total: dashes across all three columns.
pub open spec fn rule_line(aw: nat) -> Seq<char> {
    repeat('-', aw + 32) + "\n"@
}

/// A section's optional commodity line, its header and the rule under it.
pub open spec fn section_head(s: TrialBalanceSectionView) -> Seq<char> {
    let aw = name_width(s.rows);
    (if s.commodity.len() > 0 {
        "Commodity: "@ + s.commodity + "\n"@
    } else {
        Seq::empty()
    }) + columns_line("Account"@, "Debit"@, "Credit"@, aw) + rule_line(aw)
}

/// A section's closing rule, total line, and warning if it does not foot.
pub open spec fn section_tail(s: TrialBalanceSectionView) -> Seq<char> {
    let aw = name_width(s.rows);
    rule_line(aw) + columns_line("TOTAL"@, s.total_debit.text_2dp(), s.total_credit.text_2dp(), aw)
        + (if section_balanced(s) {
        Seq::empty()
    } else {
        "WARNING: trial balance does not foot \u{2014} debits "@ + s.total_debit.text()
            + " != credits "@ + s.total_credit.text() + "\n"@
    })
}

/// The text of one section.
pub open spec fn section_text(s: TrialBalanceSectionView) -> Seq<char> {
    section_head(s) + row_lines(s.rows, name_width(s.rows)) + section_tail(s)
}

/// The sections' texts, each followed by a blank line.
pub open spec fn sections_text(v: Seq<TrialBalanceSectionView>) -> Seq<char>
    decreases v.len(),
{
    if v.len() == 0 {
        Seq::empty()
    } else {
        sections_text(v.drop_last()) + section_text(v.last()) + "\n"@
    }
}

/// The text of the whole report.
pub open spec fn render_spec(v: Seq<TrialBalanceSectionView>) -> Seq<char> {
    if v.len() == 0 {
        "(no postings)\n"@
    } else {
        sections_text(v)
    }
}

/// A column cell: blank for zero, else the value with two decimals.
pub fn fmt_or_blank(value: Quantity) -> (r: String)
    ensures
        r@ == blank_or(value),
{
    if value.is_zero() {
        String::new()
    } else {
        value.to_text_2dp()
    }
}

fn push_columns(out: &mut String, a: &str, b: &str, c: &str, aw: usize)
    ensures
        final(out)@ == old(out)@ + columns_line(a@, b@, c@, aw as nat),
{
    let ghost start = out@;
    push_padded_end(out, a, aw);
    out.append("  ");
    push_padded_start(out, b, 14);
    out.append("  ");
    push_padded_start(out, c, 14);
    out.append("\n");
    assert(out@ =~= start + columns_line(a@, b@, c@, aw as nat));
}

fn name_width_exec(rows: &Vec<TrialBalanceRow>) -> (r: usize)
    ensures
        r == name_width(rows_view(rows@)),
        r + 32 <= usize::MAX,
{
    let ghost rv = rows_view(rows@);
    let mut w: usize = 7;
    let mut i: usize = 0;
    assert(rv.take(0) =~= Seq::<TrialBalanceRowView>::empty());
    while i < rows.len()
        invariant
            0 <= i <= rows.len(),
            rv == rows_view(rows@),
            w == name_width(rv.take(i as int)),
            w + 32 <= usize::MAX,
        decreases rows.len() - i,
    {
        let n = byte_count(rows[i].account.0.as_str());
        proof {
            assert(rv.take(i + 1).drop_last() =~= rv.take(i as int));
            assert(rv.take(i + 1).last() == rv[i as int]);
        }
        if n > w {
            w = n;
        }
        i += 1;
    }
    assert(rv.take(rows.len() as int) =~= rv);
    w
}

fn push_section_head(out: &mut String, section: &TrialBalanceSection, aw: usize)
    requires
        aw == name_width(section@.rows),
        aw + 32 <= usize::MAX,
    ensures
        final(out)@ == old(out)@ + section_head(section@),
{
    let ghost start = out@;
    let ghost sv = section@;
    let ghost prefix = if sv.commodity.len() > 0 {
        "Commodity: "@ + sv.commodity + "\n"@
    } else {
        Seq::<char>::empty()
    };
    if !section.commodity.as_str().is_empty() {
        out.append("Commodity: ");
        out.append(section.commodity.as_str());
        out.append("\n");
    }
    assert(out@ =~= start + prefix);
    push_columns(out, "Account", "Debit", "Credit", aw);
    push_repeat(out, '-', aw + 32);
    out.append("\n");
    assert(out@ =~= start + section_head(sv));
}

fn push_section_tail(out: &mut String, section: &TrialBalanceSection, aw: usize)
    requires
        aw == name_width(section@.rows),
        aw + 32 <= usize::MAX,
    ensures
        final(out)@ == old(out)@ + section_tail(section@),
{
    let ghost start = out@;
    let ghost sv = section@;
    push_repeat(out, '-', aw + 32);
    out.append("\n");
    let td = section.total_debit.to_text_2dp();
    let tc = section.total_credit.to_text_2dp();
    push_columns(out, "TOTAL", td.as_str(), tc.as_str(), aw);
    let ghost mid = out@;
    assert(mid =~= start + rule_line(aw as nat) + columns_line(
        "TOTAL"@,
        sv.total_debit.text_2dp(),
        sv.total_credit.text_2dp(),
        aw as nat,
    ));
    if !section.is_balanced() {
        out.append("WARNING: trial balance does not foot \u{2014} debits ");
        let a = section.total_debit.to_text();
        out.append(a.as_str());
        out.append(" != credits ");
        let b = section.total_credit.to_text();
        out.append(b.as_str());
        out.append("\n");
    }
    assert(out@ =~= start + section_tail(sv));
}

fn push_row_lines(out: &mut String, rows: &Vec<TrialBalanceRow>, aw: usize)
    ensures
        final(out)@ == old(out)@ + row_lines(rows_view(rows@), aw as nat),
{
    let ghost head = out@;
    let ghost rv = rows_view(rows@);
    let mut i: usize = 0;
    assert(rv.take(0) =~= Seq::<TrialBalanceRowView>::empty());
    assert(head + row_lines(rv.take(0), aw as nat) =~= head);
    while i < rows.len()
        invariant
            0 <= i <= rows.len(),
            rv == rows_view(rows@),
            out@ == head + row_lines(rv.take(i as int), aw as nat),
        decreases rows.len() - i,
    {
        let row = &rows[i];
        let d = fmt_or_blank(row.debit);
        let c = fmt_or_blank(row.credit);
        push_columns(out, row.account.0.as_str(), d.as_str(), c.as_str(), aw);
        proof {
            assert(rv[i as int] == row@);
            assert(rv.take(i + 1).drop_last() =~= rv.take(i as int));
            assert(rv.take(i + 1).last() == row@);
            assert(out@ =~= head + row_lines(rv.take(i + 1), aw as nat));
        }
        i += 1;
    }
    assert(rv.take(rows.len() as int) =~= rv);
}

fn render_section(out: &mut String, section: &TrialBalanceSection)
    ensures
        final(out)@ == old(out)@ + section_text(section@),
{
    let ghost start = out@;
    let aw = name_width_exec(&section.rows);
    push_section_head(out, section, aw);
    push_row_lines(out, &section.rows, aw);
    push_section_tail(out, section, aw);
    assert(out@ =~= start + section_text(section@));
}

impl TrialBalance {
    /// The report as plain text: each section with its header, rows, rule and total line (and
    /// a warning if it does not foot), then a blank line; `(no postings)` when there is none.
    pub fn render(&self) -> (r: String)
        ensures
            r@ == render_spec(self@),
    {
        let mut out = String::new();
        if self.sections.len() == 0 {
            out.append("(no postings)\n");
            return out;
        }
        let ghost v = self@;
        let mut i: usize = 0;
        assert(v.take(0) =~= Seq::<TrialBalanceSectionView>::empty());
        while i < self.sections.len()
            invariant
                0 <= i <= self.sections.len(),
                v == self@,
                out@ == sections_text(v.take(i as int)),
            decreases self.sections.len() - i,
        {
            let section = &self.sections[i];
            proof {
                assert(v[i as int] == section@);
            }
            render_section(&mut out, section);
            out.append("\n");
            proof {
                assert(v.take(i + 1).drop_last() =~= v.take(i as int));
                assert(v.take(i + 1).last() == section@);
            }
            i += 1;
        }
        assert(v.take(self.sections.len() as int) =~= v);
        out
    }
}

} // verus!
