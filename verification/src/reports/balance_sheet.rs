//! Balance sheet report: Assets, Liabilities and Equity, classified from each account's
//! top-level segment. Income and Expense balances are not shown directly but netted into one
//! `Net Income (unclosed)` row in Equity, so that the sheet balances.
use crate::account_types::{classify, AccountType};
use crate::layout::byte_count;
use crate::ledger::{accounts_view, copy_account, Ledger};
use crate::model::{Account, PostingView, TransactionView};
use crate::quantity::{qsum, qsum_fits, try_sum_all, Quantity};
use crate::reports::sections::{
    amount_lines, amounts, commodity_line, name_col, of_type, push_amount_line, push_commodity_line,
    push_unclassified_note, quantities, section_of, section_text, signed_rows, unclassified_note,
    recognized, unclassified_of, unclassified_spec, RowView, SectionView,
};
use crate::reports::{
    commodities, lemma_rows_in_absent, try_leaf_amounts, leaf_rows, leaf_view, rows_in, rows_where,
    rows_with_commodity, sorted_commodities, strings_view, LeafView,
};
use vstd::prelude::*;

verus! {

broadcast use vstd::string::group_string_axioms;

/// One row of a section: an account (or the net income label) and its display amount,
/// positive for a normal balance in that section.
pub struct BalanceSheetRow {
    pub account: String,
    pub amount: Quantity,
}

impl View for BalanceSheetRow {
    type V = RowView;

    open spec fn view(&self) -> RowView {
        RowView { account: self.account@, amount: self.amount }
    }
}

/// One section (Assets, Liabilities or Equity) of a sheet.
pub struct BalanceSheetSection {
    pub rows: Vec<BalanceSheetRow>,
    pub total: Quantity,
}

/// The view of a list of rows.
pub open spec fn rows_view(v: Seq<BalanceSheetRow>) -> Seq<RowView> {
    v.map_values(|r: BalanceSheetRow| r@)
}

impl View for BalanceSheetSection {
    type V = SectionView;

    open spec fn view(&self) -> SectionView {
        SectionView { rows: rows_view(self.rows@), total: self.total }
    }
}

/// The balance sheet of one commodity.
pub struct BalanceSheet {
    pub commodity: String,
    pub assets: BalanceSheetSection,
    pub liabilities: BalanceSheetSection,
    pub equity: BalanceSheetSection,
}

/// The view of a [`BalanceSheet`].
pub struct BalanceSheetView {
    pub commodity: Seq<char>,
    pub assets: SectionView,
    pub liabilities: SectionView,
    pub equity: SectionView,
}

impl View for BalanceSheet {
    type V = BalanceSheetView;

    open spec fn view(&self) -> BalanceSheetView {
        BalanceSheetView {
            commodity: self.commodity@,
            assets: self.assets@,
            liabilities: self.liabilities@,
            equity: self.equity@,
        }
    }
}

/// One sheet per commodity, and the accounts left off every sheet.
pub struct BalanceSheetReport {
    pub sheets: Vec<BalanceSheet>,
    pub unclassified_accounts: Vec<Account>,
}

/// The view of a [`BalanceSheetReport`].
pub struct BalanceSheetReportView {
    pub sheets: Seq<BalanceSheetView>,
    pub unclassified_accounts: Seq<Seq<char>>,
}

/// The view of a list of sheets.
pub open spec fn sheets_view(v: Seq<BalanceSheet>) -> Seq<BalanceSheetView> {
    v.map_values(|s: BalanceSheet| s@)
}

impl View for BalanceSheetReport {
    type V = BalanceSheetReportView;

    open spec fn view(&self) -> BalanceSheetReportView {
        BalanceSheetReportView {
            sheets: sheets_view(self.sheets@),
            unclassified_accounts: accounts_view(self.unclassified_accounts@),
        }
    }
}

// ---------------------------------------------------------------------------------------------
// What the report holds.
// ---------------------------------------------------------------------------------------------

/// Sum of the Revenue balances of the rows (in their own sign).
pub open spec fn income_total(rc: Seq<LeafView>) -> Quantity {
    qsum(quantities(rows_where(rc, of_type(AccountType::Revenue))))
}

/// Sum of the Expense balances of the rows.
pub open spec fn expense_total(rc: Seq<LeafView>) -> Quantity {
    qsum(quantities(rows_where(rc, of_type(AccountType::Expense))))
}

/// The net income not yet closed into equity: minus the sum of the Revenue and Expense
/// balances.
pub open spec fn unclosed_net_income(rc: Seq<LeafView>) -> Quantity {
    income_total(rc).plus(expense_total(rc)).negated()
}

/// The Equity rows: the Equity balances sign-flipped, then the net income row when nonzero.
pub open spec fn equity_rows(rc: Seq<LeafView>) -> Seq<RowView> {
    let net = unclosed_net_income(rc);
    signed_rows(rows_where(rc, of_type(AccountType::Equity)), true) + if net.val() != 0 {
        seq![RowView { account: "Net Income (unclosed)"@, amount: net }]
    } else {
        Seq::empty()
    }
}

/// The sheet for commodity `c` of the leaf balances `rows`.
pub open spec fn sheet_spec(rows: Seq<LeafView>, c: Seq<char>) -> BalanceSheetView {
    let rc = rows_in(rows, c);
    BalanceSheetView {
        commodity: c,
        assets: section_of(signed_rows(rows_where(rc, of_type(AccountType::Asset)), false)),
        liabilities: section_of(
            signed_rows(rows_where(rc, of_type(AccountType::Liability)), true),
        ),
        equity: section_of(equity_rows(rc)),
    }
}

/// The balance sheet report of the entries: one sheet per commodity with a nonzero balance on
/// a classified account.
pub open spec fn balance_sheet_spec(es: Seq<(TransactionView, PostingView)>) -> BalanceSheetReportView {
    let rows = leaf_rows(es);
    BalanceSheetReportView {
        sheets: commodities(rows_where(rows, recognized())).map_values(
            |c: Seq<char>| sheet_spec(rows, c),
        ),
        unclassified_accounts: unclassified_spec(rows),
    }
}

/// Whether every sum the sheet of the rows `rc` computes is exact.
pub open spec fn sheet_sums_fit(rc: Seq<LeafView>) -> bool {
    &&& qsum_fits(amounts(signed_rows(rows_where(rc, of_type(AccountType::Asset)), false)))
    &&& qsum_fits(amounts(signed_rows(rows_where(rc, of_type(AccountType::Liability)), true)))
    &&& qsum_fits(quantities(rows_where(rc, of_type(AccountType::Revenue))))
    &&& qsum_fits(quantities(rows_where(rc, of_type(AccountType::Expense))))
    &&& income_total(rc).plus_fits(expense_total(rc))
    &&& qsum_fits(amounts(equity_rows(rc)))
}

/// Whether every sum for the sheet of commodity `c`, Liabilities + Equity included, is exact.
pub open spec fn sheet_fits(rows: Seq<LeafView>, c: Seq<char>) -> bool {
    sheet_sums_fit(rows_in(rows, c)) && sheet_spec(rows, c).liabilities.total.plus_fits(
        sheet_spec(rows, c).equity.total,
    )
}

/// Whether every sum of every sheet of the entries is exact.
pub open spec fn sheets_fit(es: Seq<(TransactionView, PostingView)>) -> bool {
    forall|c: Seq<char>| #[trigger] sheet_fits(leaf_rows(es), c)
}

/// Whether a sheet balances: Assets == Liabilities + Equity.
pub open spec fn sheet_balanced(s: BalanceSheetView) -> bool {
    s.assets.total.val() == s.liabilities.total.plus(s.equity.total).val()
}

impl BalanceSheet {
    /// Whether Liabilities + Equity can be added exactly.
    pub open spec fn totals_fit(&self) -> bool {
        self.liabilities.total.plus_fits(self.equity.total)
    }

    /// True if Assets == Liabilities + Equity for this commodity.
    pub fn is_balanced(&self) -> (r: bool)
        requires
            self.totals_fit(),
        ensures
            r == sheet_balanced(self@),
    {
        let rhs = match self.liabilities.total.checked_add(&self.equity.total) {
            Some(q) => q,
            None => {
                proof {
                    assert(false);
                }
                self.equity.total
            },
        };
        self.assets.total.equals(&rhs)
    }
}

impl BalanceSheetReport {
    /// Whether every sheet's Liabilities + Equity can be added exactly.
    pub open spec fn totals_fit(&self) -> bool {
        forall|k: int| 0 <= k < self.sheets.len() ==> (#[trigger] self.sheets@[k]).totals_fit()
    }

    /// True if every sheet balances.
    pub fn is_balanced(&self) -> (r: bool)
        requires
            self.totals_fit(),
        ensures
            r == forall|k: int| 0 <= k < self@.sheets.len() ==> sheet_balanced(#[trigger] self@.sheets[k]),
    {
        let mut i: usize = 0;
        while i < self.sheets.len()
            invariant
                0 <= i <= self.sheets.len(),
                self.totals_fit(),
                forall|k: int| 0 <= k < i ==> sheet_balanced(#[trigger] self@.sheets[k]),
            decreases self.sheets.len() - i,
        {
            assert(self.sheets@[i as int].totals_fit());
            if !self.sheets[i].is_balanced() {
                assert(!sheet_balanced(self@.sheets[i as int]));
                return false;
            }
            i += 1;
        }
        true
    }
}

fn to_section(rows: Vec<BalanceSheetRow>, amts: &Vec<Quantity>) -> (r: Option<BalanceSheetSection>)
    requires
        amts@ == amounts(rows_view(rows@)),
    ensures
        r is Some <==> qsum_fits(amts@),
        r matches Some(sec) ==> sec@ == section_of(rows_view(rows@)),
{
    match try_sum_all(amts) {
        Some(total) => Some(BalanceSheetSection { rows, total }),
        None => None,
    }
}

fn build_sheet(rc: &Vec<(Account, String, Quantity)>, commodity: &String) -> (r: Option<BalanceSheet>)
    ensures
        r is Some <==> sheet_sums_fit(leaf_view(rc@)) && section_of(
            signed_rows(rows_where(leaf_view(rc@), of_type(AccountType::Liability)), true),
        ).total.plus_fits(section_of(equity_rows(leaf_view(rc@))).total),
        r matches Some(sheet) ==> sheet@ == (BalanceSheetView {
            commodity: commodity@,
            assets: section_of(signed_rows(rows_where(leaf_view(rc@), of_type(AccountType::Asset)), false)),
            liabilities: section_of(
                signed_rows(rows_where(leaf_view(rc@), of_type(AccountType::Liability)), true),
            ),
            equity: section_of(equity_rows(leaf_view(rc@))),
        }),
{
    let ghost lv = leaf_view(rc@);
    let mut assets: Vec<BalanceSheetRow> = Vec::new();
    let mut liabilities: Vec<BalanceSheetRow> = Vec::new();
    let mut equity: Vec<BalanceSheetRow> = Vec::new();
    let mut a_amts: Vec<Quantity> = Vec::new();
    let mut l_amts: Vec<Quantity> = Vec::new();
    let mut e_amts: Vec<Quantity> = Vec::new();
    let mut incomes: Vec<Quantity> = Vec::new();
    let mut expenses: Vec<Quantity> = Vec::new();
    let mut i: usize = 0;
    assert(lv.take(0) =~= Seq::<LeafView>::empty());
    while i < rc.len()
        invariant
            0 <= i <= rc.len(),
            lv == leaf_view(rc@),
            rows_view(assets@) == signed_rows(rows_where(lv.take(i as int), of_type(AccountType::Asset)), false),
            rows_view(liabilities@) == signed_rows(rows_where(lv.take(i as int), of_type(AccountType::Liability)), true),
            rows_view(equity@) == signed_rows(rows_where(lv.take(i as int), of_type(AccountType::Equity)), true),
            a_amts@ == amounts(rows_view(assets@)),
            l_amts@ == amounts(rows_view(liabilities@)),
            e_amts@ == amounts(rows_view(equity@)),
            incomes@ == quantities(rows_where(lv.take(i as int), of_type(AccountType::Revenue))),
            expenses@ == quantities(rows_where(lv.take(i as int), of_type(AccountType::Expense))),
        decreases rc.len() - i,
    {
        let row = &rc[i];
        let ghost r = lv[i as int];
        proof {
            assert(r == (row.0@, row.1@, row.2));
            assert(lv.take(i + 1).drop_last() =~= lv.take(i as int));
            assert(lv.take(i + 1).last() == r);
        }
        let class = classify(&row.0);
        match class {
            Some(AccountType::Asset) => {
                let ghost before = rows_view(assets@);
                assets.push(BalanceSheetRow { account: row.0.0.clone(), amount: row.2 });
                a_amts.push(row.2);
                assert(rows_view(assets@) =~= before.push(RowView { account: r.0, amount: r.2 }));
            },
            Some(AccountType::Liability) => {
                let ghost before = rows_view(liabilities@);
                let q = row.2.neg();
                liabilities.push(BalanceSheetRow { account: row.0.0.clone(), amount: q });
                l_amts.push(q);
                assert(rows_view(liabilities@) =~= before.push(RowView { account: r.0, amount: r.2.negated() }));
            },
            Some(AccountType::Equity) => {
                let ghost before = rows_view(equity@);
                let q = row.2.neg();
                equity.push(BalanceSheetRow { account: row.0.0.clone(), amount: q });
                e_amts.push(q);
                assert(rows_view(equity@) =~= before.push(RowView { account: r.0, amount: r.2.negated() }));
            },
            Some(AccountType::Revenue) => {
                incomes.push(row.2);
            },
            Some(AccountType::Expense) => {
                expenses.push(row.2);
            },
            None => {},
        }
        proof {
            assert(signed_rows(rows_where(lv.take(i + 1), of_type(AccountType::Asset)), false) =~= rows_view(assets@));
            assert(signed_rows(rows_where(lv.take(i + 1), of_type(AccountType::Liability)), true) =~= rows_view(liabilities@));
            assert(signed_rows(rows_where(lv.take(i + 1), of_type(AccountType::Equity)), true) =~= rows_view(equity@));
            assert(a_amts@ =~= amounts(rows_view(assets@)));
            assert(l_amts@ =~= amounts(rows_view(liabilities@)));
            assert(e_amts@ =~= amounts(rows_view(equity@)));
            assert(incomes@ =~= quantities(rows_where(lv.take(i + 1), of_type(AccountType::Revenue))));
            assert(expenses@ =~= quantities(rows_where(lv.take(i + 1), of_type(AccountType::Expense))));
        }
        i += 1;
    }
    assert(lv.take(rc.len() as int) =~= lv);
    let income_total = match try_sum_all(&incomes) {
        Some(q) => q,
        None => {
            return None;
        },
    };
    let expense_total = match try_sum_all(&expenses) {
        Some(q) => q,
        None => {
            return None;
        },
    };
    let both = match income_total.add_exact(&expense_total) {
        Some(q) => q,
        None => {
            return None;
        },
    };
    let net = both.neg();
    let ghost eq_before = rows_view(equity@);
    if !net.is_zero() {
        equity.push(BalanceSheetRow { account: "Net Income (unclosed)".to_owned(), amount: net });
        e_amts.push(net);
        assert(rows_view(equity@) =~= eq_before.push(RowView { account: "Net Income (unclosed)"@, amount: net }));
    }
    assert(rows_view(equity@) =~= equity_rows(lv));
    assert(e_amts@ =~= amounts(rows_view(equity@)));
    let assets = match to_section(assets, &a_amts) {
        Some(x) => x,
        None => {
            return None;
        },
    };
    let liabilities = match to_section(liabilities, &l_amts) {
        Some(x) => x,
        None => {
            return None;
        },
    };
    let equity = match to_section(equity, &e_amts) {
        Some(x) => x,
        None => {
            return None;
        },
    };
    if liabilities.total.add_exact(&equity.total).is_none() {
        return None;
    }
    Some(BalanceSheet { commodity: commodity.clone(), assets, liabilities, equity })
}

/// Builds the balance sheet report of the ledger, or gives `None` where a sum is not exact
/// (where `Decimal` addition would overflow).
pub fn try_build(ledger: &Ledger) -> (r: Option<BalanceSheetReport>)
    ensures
        r is Some <==> ledger.leaf_sums_fit() && sheets_fit(ledger.entries()),
        r matches Some(rep) ==> rep@ == balance_sheet_spec(ledger.entries()) && rep.totals_fit(),
{
    let leaf = match try_leaf_amounts(ledger) {
        Some(l) => l,
        None => {
            return None;
        },
    };
    let classified = classified_rows(&leaf);
    let comms = sorted_commodities(&classified);
    let ghost rows = leaf_rows(ledger.entries());
    let ghost cs = commodities(rows_where(rows, recognized()));
    let mut sheets: Vec<BalanceSheet> = Vec::new();
    let mut i: usize = 0;
    while i < comms.len()
        invariant
            0 <= i <= comms.len(),
            rows == leaf_view(leaf@),
            cs == strings_view(comms@),
            rows == leaf_rows(ledger.entries()),
            sheets_view(sheets@) == cs.take(i as int).map_values(|c: Seq<char>| sheet_spec(rows, c)),
            forall|k: int| 0 <= k < i ==> sheet_fits(rows, #[trigger] cs[k]),
            forall|k: int| 0 <= k < sheets.len() ==> (#[trigger] sheets@[k]).totals_fit(),
        decreases comms.len() - i,
    {
        let c = &comms[i];
        let rc = rows_with_commodity(&leaf, c);
        assert(cs[i as int] == c@);
        let sheet = match build_sheet(&rc, c) {
            Some(x) => x,
            None => {
                assert(!sheet_fits(leaf_rows(ledger.entries()), c@));
                return None;
            },
        };
        let ghost before = sheets_view(sheets@);
        let ghost old_sheets = sheets@;
        sheets.push(sheet);
        proof {
            assert(sheets_view(sheets@) =~= before.push(sheet_spec(rows, c@)));
            assert(cs.take(i + 1).map_values(|c: Seq<char>| sheet_spec(rows, c)) =~= cs.take(
                i as int,
            ).map_values(|c: Seq<char>| sheet_spec(rows, c)).push(sheet_spec(rows, c@)));
            assert forall|k: int| 0 <= k < sheets.len() implies (#[trigger] sheets@[k]).totals_fit() by {
                if k < old_sheets.len() {
                    assert(sheets@[k] == old_sheets[k]);
                }
            }
        }
        i += 1;
    }
    assert(cs.take(comms.len() as int) =~= cs);
    proof {
        assert forall|c: Seq<char>| #[trigger] sheet_fits(leaf_rows(ledger.entries()), c) by {
            if cs.to_set().contains(c) {
                let k = choose|k: int| 0 <= k < cs.len() && cs[k] == c;
                assert(sheet_fits(rows, cs[k]));
            } else {
                lemma_rows_in_absent(rows_where(rows, recognized()), c);
                lemma_unclassified_only(rows, c, AccountType::Asset);
                lemma_unclassified_only(rows, c, AccountType::Liability);
                lemma_unclassified_only(rows, c, AccountType::Equity);
                lemma_unclassified_only(rows, c, AccountType::Revenue);
                lemma_unclassified_only(rows, c, AccountType::Expense);
                lemma_empty_sheet_fits(rows_in(rows, c));
            }
        }
    }
    let unclassified = unclassified_of(&leaf);
    Some(BalanceSheetReport { sheets, unclassified_accounts: unclassified })
}

/// The leaf balances of classified accounts, in order.
fn classified_rows(rows: &Vec<(Account, String, Quantity)>) -> (r: Vec<(Account, String, Quantity)>)
    ensures
        leaf_view(r@) == rows_where(leaf_view(rows@), recognized()),
{
    let ghost lv = leaf_view(rows@);
    let mut out: Vec<(Account, String, Quantity)> = Vec::new();
    let mut i: usize = 0;
    assert(leaf_view(out@) =~= rows_where(lv.take(0), recognized()));
    while i < rows.len()
        invariant
            0 <= i <= rows.len(),
            lv == leaf_view(rows@),
            leaf_view(out@) == rows_where(lv.take(i as int), recognized()),
        decreases rows.len() - i,
    {
        proof {
            assert(lv.take(i + 1).drop_last() =~= lv.take(i as int));
            assert(lv.take(i + 1).last() == lv[i as int]);
        }
        if classify(&rows[i].0).is_some() {
            let ghost before = leaf_view(out@);
            out.push((copy_account(&rows[i].0), rows[i].1.clone(), rows[i].2));
            assert(leaf_view(out@) =~= before.push(lv[i as int]));
        }
        i += 1;
    }
    assert(lv.take(rows.len() as int) =~= lv);
    out
}

/// A commodity with no balance on a classified account has no rows of any account type.
proof fn lemma_unclassified_only(rows: Seq<LeafView>, c: Seq<char>, t: AccountType)
    requires
        rows_in(rows_where(rows, recognized()), c).len() == 0,
    ensures
        rows_where(rows_in(rows, c), of_type(t)).len() == 0,
    decreases rows.len(),
{
    if rows.len() > 0 {
        let prev = rows.drop_last();
        let last = rows.last();
        let kept = rows_where(prev, recognized());
        if recognized()(last.0) {
            assert(rows_where(rows, recognized()) == kept.push(last));
            assert(kept.push(last).drop_last() =~= kept);
            assert(last.1 != c);
        }
        lemma_unclassified_only(prev, c, t);
        if last.1 == c {
            let rp = rows_in(prev, c);
            assert(rows_in(rows, c) == rp.push(last));
            assert(rp.push(last).drop_last() =~= rp);
            assert(!of_type(t)(last.0));
        }
    }
}

/// A commodity with no classified balance gives an empty sheet, whose sums are all exact.
proof fn lemma_empty_sheet_fits(rc: Seq<LeafView>)
    requires
        rows_where(rc, of_type(AccountType::Asset)).len() == 0,
        rows_where(rc, of_type(AccountType::Liability)).len() == 0,
        rows_where(rc, of_type(AccountType::Equity)).len() == 0,
        rows_where(rc, of_type(AccountType::Revenue)).len() == 0,
        rows_where(rc, of_type(AccountType::Expense)).len() == 0,
    ensures
        sheet_sums_fit(rc),
        section_of(signed_rows(rows_where(rc, of_type(AccountType::Liability)), true)).total.plus_fits(
            section_of(equity_rows(rc)).total,
        ),
{
    crate::quantity::lemma_zero_val();
    crate::quantity::lemma_zero_plus(Quantity::spec_zero());
    crate::quantity::lemma_negated_val(Quantity::spec_zero());
    assert(rows_where(rc, of_type(AccountType::Asset)) =~= Seq::<LeafView>::empty());
    assert(rows_where(rc, of_type(AccountType::Liability)) =~= Seq::<LeafView>::empty());
    assert(rows_where(rc, of_type(AccountType::Equity)) =~= Seq::<LeafView>::empty());
    assert(rows_where(rc, of_type(AccountType::Revenue)) =~= Seq::<LeafView>::empty());
    assert(rows_where(rc, of_type(AccountType::Expense)) =~= Seq::<LeafView>::empty());
    assert(quantities(Seq::<LeafView>::empty()) =~= Seq::<Quantity>::empty());
    assert(signed_rows(Seq::<LeafView>::empty(), true) =~= Seq::<RowView>::empty());
    assert(signed_rows(Seq::<LeafView>::empty(), false) =~= Seq::<RowView>::empty());
    assert(amounts(Seq::<RowView>::empty()) =~= Seq::<Quantity>::empty());
    assert(income_total(rc) == Quantity::spec_zero());
    assert(expense_total(rc) == Quantity::spec_zero());
    assert(unclosed_net_income(rc).val() == 0);
    assert(equity_rows(rc) =~= Seq::<RowView>::empty());
}

/// Builds the balance sheet report of the ledger: for each commodity with a nonzero leaf
/// balance, in order, its Assets, Liabilities (sign-flipped) and Equity (sign-flipped, plus the
/// unclosed net income row); and the unrecognized accounts, sorted.
pub fn build(ledger: &Ledger) -> (r: BalanceSheetReport)
    requires
        ledger.leaf_sums_fit(),
        sheets_fit(ledger.entries()),
    ensures
        r@ == balance_sheet_spec(ledger.entries()),
        r.totals_fit(),
{
    match try_build(ledger) {
        Some(rep) => rep,
        None => {
            proof {
                assert(false);
            }
            BalanceSheetReport { sheets: Vec::new(), unclassified_accounts: Vec::new() }
        },
    }
}

// ---------------------------------------------------------------------------------------------
// Rendering.
// ---------------------------------------------------------------------------------------------

/// The accounting-equation line, and a warning when the sheet does not balance.
pub open spec fn equation_text(s: BalanceSheetView) -> Seq<char> {
    let ok = sheet_balanced(s);
    "Assets ("@ + s.assets.total.text_2dp() + ") "@ + (if ok {
        "="@
    } else {
        "!="@
    }) + " Liabilities + Equity ("@ + s.liabilities.total.plus(s.equity.total).text_2dp() + ")\n"@
        + (if ok {
        Seq::empty()
    } else {
        "WARNING: balance sheet does not balance.\n"@
    })
}

/// A sheet: its commodity line, its three sections, and the accounting-equation line.
pub open spec fn sheet_text(s: BalanceSheetView) -> Seq<char> {
    commodity_line(s.commodity) + section_text("ASSETS"@, "Total Assets"@, s.assets) + section_text(
        "LIABILITIES"@,
        "Total Liabilities"@,
        s.liabilities,
    ) + section_text("EQUITY"@, "Total Equity"@, s.equity) + equation_text(s)
}

/// The sheets' texts, each followed by a blank line.
pub open spec fn sheets_text(v: Seq<BalanceSheetView>) -> Seq<char>
    decreases v.len(),
{
    if v.len() == 0 {
        Seq::empty()
    } else {
        sheets_text(v.drop_last()) + sheet_text(v.last()) + "\n"@
    }
}

/// The text of the whole report.
pub open spec fn render_spec(r: BalanceSheetReportView) -> Seq<char> {
    (if r.sheets.len() == 0 {
        "(no postings)\n"@
    } else {
        Seq::empty()
    }) + sheets_text(r.sheets) + unclassified_note(r.unclassified_accounts)
}

fn name_col_exec(rows: &Vec<BalanceSheetRow>, label: &str) -> (r: usize)
    ensures
        r == name_col(rows_view(rows@), label@),
{
    let ghost rv = rows_view(rows@);
    let mut w: usize = byte_count(label);
    let mut i: usize = 0;
    assert(rv.take(0) =~= Seq::<RowView>::empty());
    while i < rows.len()
        invariant
            0 <= i <= rows.len(),
            rv == rows_view(rows@),
            w == name_col(rv.take(i as int), label@),
        decreases rows.len() - i,
    {
        let n = byte_count(rows[i].account.as_str());
        proof {
            assert(rv.take(i + 1).drop_last() =~= rv.take(i as int));
            assert(rv.take(i + 1).last() == rv[i as int]);
        }
        if n > w {
            w = n;
        }
        i += 1;
    }
    assert(rv.take(rows.len() as int) =~= rv);
    w
}

fn render_section(out: &mut String, heading: &str, total_label: &str, section: &BalanceSheetSection)
    ensures
        final(out)@ == old(out)@ + section_text(heading@, total_label@, section@),
{
    let ghost start = out@;
    let ghost rv = section@.rows;
    out.append(heading);
    out.append("\n");
    let nw = name_col_exec(&section.rows, total_label);
    let ghost head = out@;
    let mut i: usize = 0;
    assert(rv.take(0) =~= Seq::<RowView>::empty());
    assert(head + amount_lines(rv.take(0), nw as nat) =~= head);
    while i < section.rows.len()
        invariant
            0 <= i <= section.rows.len(),
            rv == section@.rows,
            out@ == head + amount_lines(rv.take(i as int), nw as nat),
        decreases section.rows.len() - i,
    {
        let row = &section.rows[i];
        push_amount_line(out, row.account.as_str(), row.amount, nw);
        proof {
            assert(rv[i as int] == row@);
            assert(rv.take(i + 1).drop_last() =~= rv.take(i as int));
            assert(rv.take(i + 1).last() == row@);
            assert(out@ =~= head + amount_lines(rv.take(i + 1), nw as nat));
        }
        i += 1;
    }
    assert(rv.take(section.rows.len() as int) =~= rv);
    push_amount_line(out, total_label, section.total, nw);
    out.append("\n");
    assert(out@ =~= start + section_text(heading@, total_label@, section@));
}

fn push_equation(out: &mut String, sheet: &BalanceSheet)
    requires
        sheet.totals_fit(),
    ensures
        final(out)@ == old(out)@ + equation_text(sheet@),
{
    let ghost start = out@;
    let ok = sheet.is_balanced();
    out.append("Assets (");
    let a = sheet.assets.total.to_text_2dp();
    out.append(a.as_str());
    out.append(") ");
    if ok {
        out.append("=");
    } else {
        out.append("!=");
    }
    out.append(" Liabilities + Equity (");
    let rhs = match sheet.liabilities.total.checked_add(&sheet.equity.total) {
        Some(q) => q,
        None => {
            proof {
                assert(false);
            }
            sheet.equity.total
        },
    };
    let b = rhs.to_text_2dp();
    out.append(b.as_str());
    out.append(")\n");
    if !ok {
        out.append("WARNING: balance sheet does not balance.\n");
    }
    assert(out@ =~= start + equation_text(sheet@));
}

fn render_sheet(out: &mut String, sheet: &BalanceSheet)
    requires
        sheet.totals_fit(),
    ensures
        final(out)@ == old(out)@ + sheet_text(sheet@),
{
    let ghost start = out@;
    push_commodity_line(out, &sheet.commodity);
    render_section(out, "ASSETS", "Total Assets", &sheet.assets);
    render_section(out, "LIABILITIES", "Total Liabilities", &sheet.liabilities);
    render_section(out, "EQUITY", "Total Equity", &sheet.equity);
    push_equation(out, sheet);
    assert(out@ =~= start + sheet_text(sheet@));
}

impl BalanceSheetReport {
    /// The report as plain text: each sheet (commodity line, Assets, Liabilities, Equity and
    /// the accounting-equation line) followed by a blank line, `(no postings)` when there is
    /// none, then a note listing the accounts left out.
    #[verifier::spinoff_prover]
    #[verifier::rlimit(40)]
    pub fn render(&self) -> (r: String)
        requires
            self.totals_fit(),
        ensures
            r@ == render_spec(self@),
    {
        let mut out = String::new();
        if self.sheets.len() == 0 {
            out.append("(no postings)\n");
        }
        let ghost start = out@;
        let ghost v = self@.sheets;
        let mut i: usize = 0;
        assert(v.take(0) =~= Seq::<BalanceSheetView>::empty());
        assert(start + sheets_text(v.take(0)) =~= start);
        while i < self.sheets.len()
            invariant
                0 <= i <= self.sheets.len(),
                v == self@.sheets,
                self.totals_fit(),
                out@ == start + sheets_text(v.take(i as int)),
            decreases self.sheets.len() - i,
        {
            let sheet = &self.sheets[i];
            assert(self.sheets@[i as int].totals_fit());
            render_sheet(&mut out, sheet);
            out.append("\n");
            proof {
                assert(v[i as int] == sheet@);
                assert(v.take(i + 1).drop_last() =~= v.take(i as int));
                assert(v.take(i + 1).last() == sheet@);
                assert(out@ =~= start + sheets_text(v.take(i + 1)));
            }
            i += 1;
        }
        assert(v.take(self.sheets.len() as int) =~= v);
        push_unclassified_note(&mut out, &self.unclassified_accounts);
        assert(out@ =~= render_spec(self@));
        out
    }
}

} // verus!
