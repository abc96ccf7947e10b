//! Income statement (profit and loss) report: Revenue and Expenses over the whole ledger,
//! ending in a net income or loss line. That bottom line equals the net income the balance
//! sheet folds into Equity as `Net Income (unclosed)`.
use crate::account_types::{classify, classify_spec, AccountType};
use crate::layout::byte_count;
use crate::ledger::{accounts_view, copy_account, Ledger};
use crate::model::{Account, PostingView, TransactionView};
use crate::quantity::{qsum_fits, try_sum_all, Quantity};
use crate::reports::sections::{
    amount_lines, amounts, commodity_line, name_col, of_type, push_amount_line,
    push_commodity_line, push_unclassified_note, section_of, section_text, signed_rows,
    unclassified_note, unclassified_of, unclassified_spec, RowView, SectionView,
};
use crate::reports::{
    commodities, commodity_set, lemma_rows_in_absent, leaf_rows, leaf_view, rows_in, rows_where,
    rows_with_commodity, sorted_commodities, strings_view, try_leaf_amounts, LeafView,
};
use vstd::prelude::*;

verus! {

broadcast use vstd::string::group_string_axioms;

/// One account's row, with its amount positive for a normal balance in its section.
pub struct IncomeStatementRow {
    pub account: Account,
    pub amount: Quantity,
}

impl View for IncomeStatementRow {
    type V = RowView;

    open spec fn view(&self) -> RowView {
        RowView { account: self.account@, amount: self.amount }
    }
}

/// One section (Revenue or Expenses) of a statement.
pub struct IncomeStatementSection {
    pub rows: Vec<IncomeStatementRow>,
    pub total: Quantity,
}

/// The view of a list of rows.
pub open spec fn rows_view(v: Seq<IncomeStatementRow>) -> Seq<RowView> {
    v.map_values(|r: IncomeStatementRow| r@)
}

impl View for IncomeStatementSection {
    type V = SectionView;

    open spec fn view(&self) -> SectionView {
        SectionView { rows: rows_view(self.rows@), total: self.total }
    }
}

/// The income statement of one commodity.
pub struct IncomeStatement {
    pub commodity: String,
    pub revenue: IncomeStatementSection,
    pub expenses: IncomeStatementSection,
}

/// The view of an [`IncomeStatement`].
pub struct IncomeStatementView {
    pub commodity: Seq<char>,
    pub revenue: SectionView,
    pub expenses: SectionView,
}

impl View for IncomeStatement {
    type V = IncomeStatementView;

    open spec fn view(&self) -> IncomeStatementView {
        IncomeStatementView {
            commodity: self.commodity@,
            revenue: self.revenue@,
            expenses: self.expenses@,
        }
    }
}

/// One statement per commodity with Revenue or Expense activity, and the accounts the
/// classifier does not recognize.
pub struct IncomeStatementReport {
    pub statements: Vec<IncomeStatement>,
    pub unclassified_accounts: Vec<Account>,
}

/// The view of an [`IncomeStatementReport`].
pub struct IncomeStatementReportView {
    pub statements: Seq<IncomeStatementView>,
    pub unclassified_accounts: Seq<Seq<char>>,
}

/// The view of a list of statements.
pub open spec fn statements_view(v: Seq<IncomeStatement>) -> Seq<IncomeStatementView> {
    v.map_values(|s: IncomeStatement| s@)
}

impl View for IncomeStatementReport {
    type V = IncomeStatementReportView;

    open spec fn view(&self) -> IncomeStatementReportView {
        IncomeStatementReportView {
            statements: statements_view(self.statements@),
            unclassified_accounts: accounts_view(self.unclassified_accounts@),
        }
    }
}

// ---------------------------------------------------------------------------------------------
// What the report holds.
// ---------------------------------------------------------------------------------------------

/// Selects the Revenue and Expense accounts.
pub open spec fn in_scope() -> spec_fn(Seq<char>) -> bool {
    |a: Seq<char>|
        classify_spec(a) == Some(AccountType::Revenue) || classify_spec(a) == Some(
            AccountType::Expense,
        )
}

/// The statement for commodity `c` of the leaf balances `rows`.
pub open spec fn statement_spec(rows: Seq<LeafView>, c: Seq<char>) -> IncomeStatementView {
    let rc = rows_in(rows, c);
    IncomeStatementView {
        commodity: c,
        revenue: section_of(signed_rows(rows_where(rc, of_type(AccountType::Revenue)), true)),
        expenses: section_of(signed_rows(rows_where(rc, of_type(AccountType::Expense)), false)),
    }
}

/// The income statement report of the entries.
pub open spec fn income_statement_spec(es: Seq<(TransactionView, PostingView)>) -> IncomeStatementReportView {
    let rows = leaf_rows(es);
    IncomeStatementReportView {
        statements: commodities(rows_where(rows, in_scope())).map_values(
            |c: Seq<char>| statement_spec(rows, c),
        ),
        unclassified_accounts: unclassified_spec(rows),
    }
}

/// Whether the section totals of the statement of the rows `rc` are exact sums.
pub open spec fn statement_sums_fit(rc: Seq<LeafView>) -> bool {
    &&& qsum_fits(amounts(signed_rows(rows_where(rc, of_type(AccountType::Revenue)), true)))
    &&& qsum_fits(amounts(signed_rows(rows_where(rc, of_type(AccountType::Expense)), false)))
}

/// Whether every sum of the statement of commodity `c`, the net income included, is exact.
pub open spec fn statement_fits(rows: Seq<LeafView>, c: Seq<char>) -> bool {
    statement_sums_fit(rows_in(rows, c)) && net_income_fits(statement_spec(rows, c))
}

/// Whether every sum of every statement of the entries is exact.
pub open spec fn statements_fit(es: Seq<(TransactionView, PostingView)>) -> bool {
    forall|c: Seq<char>| #[trigger] statement_fits(leaf_rows(es), c)
}

/// Whether Revenue minus Expenses can be computed exactly.
pub open spec fn net_income_fits(s: IncomeStatementView) -> bool {
    s.revenue.total.minus_fits(s.expenses.total)
}

/// Revenue minus Expenses.
pub open spec fn net_income_spec(s: IncomeStatementView) -> Quantity {
    s.revenue.total.minus(s.expenses.total)
}

impl IncomeStatement {
    /// Whether Revenue minus Expenses can be computed exactly.
    pub open spec fn net_fits(&self) -> bool {
        self.revenue.total.minus_fits(self.expenses.total)
    }

    /// Revenue minus Expenses; negative for a net loss.
    pub fn net_income(&self) -> (r: Quantity)
        requires
            self.net_fits(),
        ensures
            r == net_income_spec(self@),
    {
        match self.revenue.total.checked_sub(&self.expenses.total) {
            Some(q) => q,
            None => {
                proof {
                    assert(false);
                }
                self.revenue.total
            },
        }
    }
}

fn to_section(rows: Vec<IncomeStatementRow>, amts: &Vec<Quantity>) -> (r: Option<IncomeStatementSection>)
    requires
        amts@ == amounts(rows_view(rows@)),
    ensures
        r is Some <==> qsum_fits(amts@),
        r matches Some(sec) ==> sec@ == section_of(rows_view(rows@)),
{
    match try_sum_all(amts) {
        Some(total) => Some(IncomeStatementSection { rows, total }),
        None => None,
    }
}

fn build_statement(rc: &Vec<(Account, String, Quantity)>, commodity: &String) -> (r: Option<IncomeStatement>)
    ensures
        r is Some <==> statement_sums_fit(leaf_view(rc@)) && section_of(
            signed_rows(rows_where(leaf_view(rc@), of_type(AccountType::Revenue)), true),
        ).total.minus_fits(
            section_of(signed_rows(rows_where(leaf_view(rc@), of_type(AccountType::Expense)), false)).total,
        ),
        r matches Some(st) ==> st@ == (IncomeStatementView {
            commodity: commodity@,
            revenue: section_of(signed_rows(rows_where(leaf_view(rc@), of_type(AccountType::Revenue)), true)),
            expenses: section_of(signed_rows(rows_where(leaf_view(rc@), of_type(AccountType::Expense)), false)),
        }),
{
    let ghost lv = leaf_view(rc@);
    let mut revenue: Vec<IncomeStatementRow> = Vec::new();
    let mut expenses: Vec<IncomeStatementRow> = Vec::new();
    let mut r_amts: Vec<Quantity> = Vec::new();
    let mut e_amts: Vec<Quantity> = Vec::new();
    let mut i: usize = 0;
    assert(lv.take(0) =~= Seq::<LeafView>::empty());
    while i < rc.len()
        invariant
            0 <= i <= rc.len(),
            lv == leaf_view(rc@),
            rows_view(revenue@) == signed_rows(rows_where(lv.take(i as int), of_type(AccountType::Revenue)), true),
            rows_view(expenses@) == signed_rows(rows_where(lv.take(i as int), of_type(AccountType::Expense)), false),
            r_amts@ == amounts(rows_view(revenue@)),
            e_amts@ == amounts(rows_view(expenses@)),
        decreases rc.len() - i,
    {
        let row = &rc[i];
        let ghost r = lv[i as int];
        proof {
            assert(r == (row.0@, row.1@, row.2));
            assert(lv.take(i + 1).drop_last() =~= lv.take(i as int));
            assert(lv.take(i + 1).last() == r);
        }
        match classify(&row.0) {
            Some(AccountType::Revenue) => {
                let ghost before = rows_view(revenue@);
                let q = row.2.neg();
                revenue.push(IncomeStatementRow { account: copy_account(&row.0), amount: q });
                r_amts.push(q);
                assert(rows_view(revenue@) =~= before.push(RowView { account: r.0, amount: r.2.negated() }));
            },
            Some(AccountType::Expense) => {
                let ghost before = rows_view(expenses@);
                expenses.push(IncomeStatementRow { account: copy_account(&row.0), amount: row.2 });
                e_amts.push(row.2);
                assert(rows_view(expenses@) =~= before.push(RowView { account: r.0, amount: r.2 }));
            },
            _ => {},
        }
        proof {
            assert(signed_rows(rows_where(lv.take(i + 1), of_type(AccountType::Revenue)), true) =~= rows_view(revenue@));
            assert(signed_rows(rows_where(lv.take(i + 1), of_type(AccountType::Expense)), false) =~= rows_view(expenses@));
            assert(r_amts@ =~= amounts(rows_view(revenue@)));
            assert(e_amts@ =~= amounts(rows_view(expenses@)));
        }
        i += 1;
    }
    assert(lv.take(rc.len() as int) =~= lv);
    let revenue = match to_section(revenue, &r_amts) {
        Some(x) => x,
        None => {
            return None;
        },
    };
    let expenses = match to_section(expenses, &e_amts) {
        Some(x) => x,
        None => {
            return None;
        },
    };
    if revenue.total.sub_exact(&expenses.total).is_none() {
        return None;
    }
    Some(IncomeStatement { commodity: commodity.clone(), revenue, expenses })
}

/// The leaf balances of Revenue and Expense accounts, in order.
fn scoped_rows(rows: &Vec<(Account, String, Quantity)>) -> (r: Vec<(Account, String, Quantity)>)
    ensures
        leaf_view(r@) == rows_where(leaf_view(rows@), in_scope()),
{
    let ghost lv = leaf_view(rows@);
    let mut out: Vec<(Account, String, Quantity)> = Vec::new();
    let mut i: usize = 0;
    assert(leaf_view(out@) =~= rows_where(lv.take(0), in_scope()));
    while i < rows.len()
        invariant
            0 <= i <= rows.len(),
            lv == leaf_view(rows@),
            leaf_view(out@) == rows_where(lv.take(i as int), in_scope()),
        decreases rows.len() - i,
    {
        proof {
            assert(lv.take(i + 1).drop_last() =~= lv.take(i as int));
            assert(lv.take(i + 1).last() == lv[i as int]);
        }
        let class = classify(&rows[i].0);
        if class == Some(AccountType::Revenue) || class == Some(AccountType::Expense) {
            let ghost before = leaf_view(out@);
            out.push((copy_account(&rows[i].0), rows[i].1.clone(), rows[i].2));
            assert(leaf_view(out@) =~= before.push(lv[i as int]));
        }
        i += 1;
    }
    assert(lv.take(rows.len() as int) =~= lv);
    out
}

/// Builds the income statement report of the ledger, or gives `None` where a sum is not exact
/// (where `Decimal` arithmetic would overflow).
pub fn try_build(ledger: &Ledger) -> (r: Option<IncomeStatementReport>)
    ensures
        r is Some <==> ledger.leaf_sums_fit() && statements_fit(ledger.entries()),
        r matches Some(rep) ==> rep@ == income_statement_spec(ledger.entries()) && rep.nets_fit(),
{
    let leaf = match try_leaf_amounts(ledger) {
        Some(l) => l,
        None => {
            return None;
        },
    };
    let scoped = scoped_rows(&leaf);
    let comms = sorted_commodities(&scoped);
    let ghost rows = leaf_rows(ledger.entries());
    let ghost cs = commodities(rows_where(rows, in_scope()));
    let mut statements: Vec<IncomeStatement> = Vec::new();
    let mut i: usize = 0;
    while i < comms.len()
        invariant
            0 <= i <= comms.len(),
            rows == leaf_view(leaf@),
            cs == strings_view(comms@),
            rows == leaf_rows(ledger.entries()),
            statements_view(statements@) == cs.take(i as int).map_values(
                |c: Seq<char>| statement_spec(rows, c),
            ),
            forall|k: int| 0 <= k < i ==> statement_fits(rows, #[trigger] cs[k]),
            forall|k: int| 0 <= k < statements.len() ==> (#[trigger] statements@[k]).net_fits(),
        decreases comms.len() - i,
    {
        let c = &comms[i];
        let rc = rows_with_commodity(&leaf, c);
        assert(cs[i as int] == c@);
        let statement = match build_statement(&rc, c) {
            Some(x) => x,
            None => {
                assert(!statement_fits(leaf_rows(ledger.entries()), c@));
                return None;
            },
        };
        let ghost before = statements_view(statements@);
        let ghost old_statements = statements@;
        statements.push(statement);
        proof {
            assert(statements_view(statements@) =~= before.push(statement_spec(rows, c@)));
            assert(cs.take(i + 1).map_values(|c: Seq<char>| statement_spec(rows, c)) =~= cs.take(
                i as int,
            ).map_values(|c: Seq<char>| statement_spec(rows, c)).push(statement_spec(rows, c@)));
            assert forall|k: int| 0 <= k < statements.len() implies (#[trigger] statements@[k]).net_fits() by {
                if k < old_statements.len() {
                    assert(statements@[k] == old_statements[k]);
                }
            }
        }
        i += 1;
    }
    assert(cs.take(comms.len() as int) =~= cs);
    proof {
        assert forall|c: Seq<char>| #[trigger] statement_fits(leaf_rows(ledger.entries()), c) by {
            if commodity_set(rows_where(rows, in_scope())).contains(c) {
                assert(cs.to_set().contains(c));
                let k = choose|k: int| 0 <= k < cs.len() && cs[k] == c;
                assert(statement_fits(rows, cs[k]));
            } else {
                lemma_rows_in_absent(rows_where(rows, in_scope()), c);
                lemma_out_of_scope(rows, c, AccountType::Revenue);
                lemma_out_of_scope(rows, c, AccountType::Expense);
                lemma_empty_statement_fits(rows_in(rows, c));
            }
        }
    }
    let unclassified = unclassified_of(&leaf);
    Some(IncomeStatementReport { statements, unclassified_accounts: unclassified })
}

/// A commodity with no Revenue or Expense balance has no Revenue or Expense rows.
proof fn lemma_out_of_scope(rows: Seq<LeafView>, c: Seq<char>, t: AccountType)
    requires
        t == AccountType::Revenue || t == AccountType::Expense,
        rows_in(rows_where(rows, in_scope()), c).len() == 0,
    ensures
        rows_where(rows_in(rows, c), of_type(t)).len() == 0,
    decreases rows.len(),
{
    if rows.len() > 0 {
        let prev = rows.drop_last();
        let last = rows.last();
        let scoped_prev = rows_where(prev, in_scope());
        if in_scope()(last.0) {
            assert(rows_where(rows, in_scope()) == scoped_prev.push(last));
            assert(scoped_prev.push(last).drop_last() =~= scoped_prev);
            assert(last.1 != c);
        }
        lemma_out_of_scope(prev, c, t);
        if last.1 == c {
            let rp = rows_in(prev, c);
            assert(rows_in(rows, c) == rp.push(last));
            assert(rp.push(last).drop_last() =~= rp);
            assert(!of_type(t)(last.0));
        }
    }
}

/// A statement with no rows has sums that are all exact.
proof fn lemma_empty_statement_fits(rc: Seq<LeafView>)
    requires
        rows_where(rc, of_type(AccountType::Revenue)).len() == 0,
        rows_where(rc, of_type(AccountType::Expense)).len() == 0,
    ensures
        statement_sums_fit(rc),
        section_of(signed_rows(rows_where(rc, of_type(AccountType::Revenue)), true)).total.minus_fits(
            section_of(signed_rows(rows_where(rc, of_type(AccountType::Expense)), false)).total,
        ),
{
    crate::quantity::lemma_zero_minus_zero();
    assert(rows_where(rc, of_type(AccountType::Revenue)) =~= Seq::<LeafView>::empty());
    assert(rows_where(rc, of_type(AccountType::Expense)) =~= Seq::<LeafView>::empty());
    assert(signed_rows(Seq::<LeafView>::empty(), true) =~= Seq::<RowView>::empty());
    assert(signed_rows(Seq::<LeafView>::empty(), false) =~= Seq::<RowView>::empty());
    assert(amounts(Seq::<RowView>::empty()) =~= Seq::<Quantity>::empty());
}

/// Builds the income statement report of the ledger: for each commodity with a nonzero
/// Revenue or Expense leaf balance, in order, its Revenue (sign-flipped) and Expenses; and the
/// unrecognized accounts, sorted. Asset, Liability and Equity accounts are out of scope.
pub fn build(ledger: &Ledger) -> (r: IncomeStatementReport)
    requires
        ledger.leaf_sums_fit(),
        statements_fit(ledger.entries()),
    ensures
        r@ == income_statement_spec(ledger.entries()),
        r.nets_fit(),
{
    match try_build(ledger) {
        Some(rep) => rep,
        None => {
            proof {
                assert(false);
            }
            IncomeStatementReport { statements: Vec::new(), unclassified_accounts: Vec::new() }
        },
    }
}

// ---------------------------------------------------------------------------------------------
// Rendering.
// ---------------------------------------------------------------------------------------------

/// The bottom line: `NET LOSS` for a negative net, else `NET INCOME`, with two decimals.
pub open spec fn net_line(net: Quantity) -> Seq<char> {
    (if net.val() < 0 {
        "NET LOSS"@
    } else {
        "NET INCOME"@
    }) + ": "@ + net.text_2dp() + "\n"@
}

/// A statement: its commodity line, its two sections, and the bottom line.
pub open spec fn statement_text(s: IncomeStatementView) -> Seq<char> {
    commodity_line(s.commodity) + section_text("REVENUE"@, "Total Revenue"@, s.revenue)
        + section_text("EXPENSES"@, "Total Expenses"@, s.expenses) + net_line(net_income_spec(s))
}

/// The statements' texts, each followed by a blank line.
pub open spec fn statements_text(v: Seq<IncomeStatementView>) -> Seq<char>
    decreases v.len(),
{
    if v.len() == 0 {
        Seq::empty()
    } else {
        statements_text(v.drop_last()) + statement_text(v.last()) + "\n"@
    }
}

/// The text of the whole report.
pub open spec fn render_spec(r: IncomeStatementReportView) -> Seq<char> {
    (if r.statements.len() == 0 {
        "(no postings)\n"@
    } else {
        Seq::empty()
    }) + statements_text(r.statements) + unclassified_note(r.unclassified_accounts)
}

fn name_col_exec(rows: &Vec<IncomeStatementRow>, label: &str) -> (r: usize)
    ensures
        r == name_col(rows_view(rows@), label@),
{
    let ghost rv = rows_view(rows@);
    let mut w: usize = byte_count(label);
    let mut i: usize = 0;
    assert(rv.take(0) =~= Seq::<RowView>::empty());
    while i < rows.len()
        invariant
            0 <= i <= rows.len(),
            rv == rows_view(rows@),
            w == name_col(rv.take(i as int), label@),
        decreases rows.len() - i,
    {
        let n = byte_count(rows[i].account.0.as_str());
        proof {
            assert(rv.take(i + 1).drop_last() =~= rv.take(i as int));
            assert(rv.take(i + 1).last() == rv[i as int]);
        }
        if n > w {
            w = n;
        }
        i += 1;
    }
    assert(rv.take(rows.len() as int) =~= rv);
    w
}

fn render_section(out: &mut String, heading: &str, total_label: &str, section: &IncomeStatementSection)
    ensures
        final(out)@ == old(out)@ + section_text(heading@, total_label@, section@),
{
    let ghost start = out@;
    let ghost rv = section@.rows;
    out.append(heading);
    out.append("\n");
    let nw = name_col_exec(&section.rows, total_label);
    let ghost head = out@;
    let mut i: usize = 0;
    assert(rv.take(0) =~= Seq::<RowView>::empty());
    assert(head + amount_lines(rv.take(0), nw as nat) =~= head);
    while i < section.rows.len()
        invariant
            0 <= i <= section.rows.len(),
            rv == section@.rows,
            out@ == head + amount_lines(rv.take(i as int), nw as nat),
        decreases section.rows.len() - i,
    {
        let row = &section.rows[i];
        push_amount_line(out, row.account.0.as_str(), row.amount, nw);
        proof {
            assert(rv[i as int] == row@);
            assert(rv.take(i + 1).drop_last() =~= rv.take(i as int));
            assert(rv.take(i + 1).last() == row@);
            assert(out@ =~= head + amount_lines(rv.take(i + 1), nw as nat));
        }
        i += 1;
    }
    assert(rv.take(section.rows.len() as int) =~= rv);
    push_amount_line(out, total_label, section.total, nw);
    out.append("\n");
    assert(out@ =~= start + section_text(heading@, total_label@, section@));
}

fn render_statement(out: &mut String, statement: &IncomeStatement)
    requires
        statement.net_fits(),
    ensures
        final(out)@ == old(out)@ + statement_text(statement@),
{
    let ghost start = out@;
    push_commodity_line(out, &statement.commodity);
    render_section(out, "REVENUE", "Total Revenue", &statement.revenue);
    render_section(out, "EXPENSES", "Total Expenses", &statement.expenses);
    let ghost body = out@;
    let net = statement.net_income();
    if net.is_negative() {
        out.append("NET LOSS");
    } else {
        out.append("NET INCOME");
    }
    out.append(": ");
    let t = net.to_text_2dp();
    out.append(t.as_str());
    out.append("\n");
    assert(out@ =~= body + net_line(net));
    assert(out@ =~= start + statement_text(statement@));
}

impl IncomeStatementReport {
    /// Whether every statement's net income can be computed exactly.
    pub open spec fn nets_fit(&self) -> bool {
        forall|k: int| 0 <= k < self.statements.len() ==> (#[trigger] self.statements@[k]).net_fits()
    }

    /// The report as plain text: each statement (commodity line, Revenue, Expenses and the net
    /// income or loss line) followed by a blank line, `(no postings)` when there is none, then
    /// a note listing the unrecognized accounts.
    pub fn render(&self) -> (r: String)
        requires
            self.nets_fit(),
        ensures
            r@ == render_spec(self@),
    {
        let mut out = String::new();
        if self.statements.len() == 0 {
            out.append("(no postings)\n");
        }
        let ghost start = out@;
        let ghost v = self@.statements;
        let mut i: usize = 0;
        assert(v.take(0) =~= Seq::<IncomeStatementView>::empty());
        assert(start + statements_text(v.take(0)) =~= start);
        while i < self.statements.len()
            invariant
                0 <= i <= self.statements.len(),
                v == self@.statements,
                self.nets_fit(),
                out@ == start + statements_text(v.take(i as int)),
            decreases self.statements.len() - i,
        {
            let statement = &self.statements[i];
            assert(self.statements@[i as int].net_fits());
            render_statement(&mut out, statement);
            out.append("\n");
            proof {
                assert(v[i as int] == statement@);
                assert(v.take(i + 1).drop_last() =~= v.take(i as int));
                assert(v.take(i + 1).last() == statement@);
                assert(out@ =~= start + statements_text(v.take(i + 1)));
            }
            i += 1;
        }
        assert(v.take(self.statements.len() as int) =~= v);
        push_unclassified_note(&mut out, &self.unclassified_accounts);
        assert(out@ =~= render_spec(self@));
        out
    }
}

} // verus!
