//! The command line's shape as plain data, and what the command line decides before any report
//! runs: reading the `--since`/`--until` flags into a date range, and the header that says a
//! report is scoped to a period.
use crate::date::Date;
use crate::date_range::DateRange;
use crate::parser::{parse_date_str, parse_date_str_spec};
use vstd::prelude::*;

verus! {

broadcast use vstd::string::group_string_axioms;

/// The `--since`/`--until` flags shared by every report subcommand.
pub struct DateRangeArgs {
    /// Only transactions on or after this date (`YYYY-MM-DD`, `YYYY/MM/DD` or `YYYY.MM.DD`).
    pub since: Option<String>,
    /// Only transactions strictly before this date.
    pub until: Option<String>,
}

/// The whole command line: one subcommand.
pub struct Cli {
    /// Which report or action to run.
    pub command: Command,
}

/// The subcommands.
pub enum Command {
    /// A trial balance: one row per account with debit and credit columns.
    Balance { file: String, date_range: DateRangeArgs },
    /// A balance sheet: Assets, Liabilities and Equity.
    BalanceSheet { file: String, date_range: DateRangeArgs },
    /// An income statement: Revenue and Expenses, and the net income.
    IncomeStatement { file: String, date_range: DateRangeArgs },
    /// Parse and balance-check the journal only.
    Check { file: String },
    /// Analyze clearing accounts.
    Clear { file: String, accounts: Vec<String>, date_range: DateRangeArgs },
}

/// The message for a flag whose value is not a date.
pub open spec fn bad_date_message(flag: Seq<char>, value: Seq<char>) -> Seq<char> {
    "invalid "@ + flag + " date '"@ + value
        + "': expected YYYY-MM-DD, YYYY/MM/DD, or YYYY.MM.DD"@
}

/// What an optional date flag reads as: absent, a date, or the error naming the flag.
pub open spec fn date_flag_spec(flag: Seq<char>, value: Option<Seq<char>>) -> Result<
    Option<Date>,
    Seq<char>,
> {
    match value {
        None => Ok(None),
        Some(s) => match parse_date_str_spec(s) {
            Some(d) => Ok(Some(d)),
            None => Err(bad_date_message(flag, s)),
        },
    }
}

/// The view of an optional string.
pub open spec fn opt_string(o: Option<String>) -> Option<Seq<char>> {
    match o {
        Some(s) => Some(s@),
        None => None,
    }
}

/// The range the two flags give, or the first flag's error (`--since` is read first).
pub open spec fn date_range_spec(since: Option<Seq<char>>, until: Option<Seq<char>>) -> Result<
    DateRange,
    Seq<char>,
> {
    match date_flag_spec("--since"@, since) {
        Err(e) => Err(e),
        Ok(s) => match date_flag_spec("--until"@, until) {
            Err(e) => Err(e),
            Ok(u) => Ok(DateRange { since: s, until: u }),
        },
    }
}

/// The header line printed before a report scoped to a period (empty for no bounds).
pub open spec fn period_header_spec(since: Option<Date>, until: Option<Date>) -> Seq<char> {
    match (since, until) {
        (Some(s), Some(u)) => "Period: "@ + s.text() + " to "@ + u.text() + " (exclusive)\n"@,
        (Some(s), None) => "Period: "@ + s.text() + " onward\n"@,
        (None, Some(u)) => "Period: up to "@ + u.text() + " (exclusive)\n"@,
        (None, None) => Seq::empty(),
    }
}

/// Reads an optional date flag.
pub fn parse_date_flag(flag: &str, value: &Option<String>) -> (r: Result<Option<Date>, String>)
    ensures
        match r {
            Ok(d) => date_flag_spec(flag@, opt_string(*value)) == Ok::<Option<Date>, Seq<char>>(d),
            Err(e) => date_flag_spec(flag@, opt_string(*value)) == Err::<Option<Date>, Seq<char>>(
                e@,
            ),
        },
{
    match value {
        None => Ok(None),
        Some(s) => match parse_date_str(s.as_str()) {
            Some(d) => Ok(Some(d)),
            None => {
                let mut m = "invalid ".to_owned();
                m.append(flag);
                m.append(" date '");
                m.append(s.as_str());
                m.append("': expected YYYY-MM-DD, YYYY/MM/DD, or YYYY.MM.DD");
                Err(m)
            },
        },
    }
}

/// Reads `--since` then `--until` into a date range; the first flag that is not a date gives
/// the error.
pub fn resolve_date_range(args: &DateRangeArgs) -> (r: Result<DateRange, String>)
    ensures
        match r {
            Ok(d) => date_range_spec(opt_string(args.since), opt_string(args.until)) == Ok::<
                DateRange,
                Seq<char>,
            >(d),
            Err(e) => date_range_spec(opt_string(args.since), opt_string(args.until)) == Err::<
                DateRange,
                Seq<char>,
            >(e@),
        },
{
    let since = match parse_date_flag("--since", &args.since) {
        Ok(d) => d,
        Err(e) => {
            return Err(e);
        },
    };
    let until = match parse_date_flag("--until", &args.until) {
        Ok(d) => d,
        Err(e) => {
            return Err(e);
        },
    };
    Ok(DateRange::new(since, until))
}

/// The header line for a report scoped to `range` (empty when it is unbounded).
pub fn render_period_header(range: &DateRange) -> (r: String)
    ensures
        r@ == period_header_spec(range.since, range.until),
{
    match (range.since, range.until) {
        (Some(since), Some(until)) => {
            let mut out = "Period: ".to_owned();
            let a = since.to_text();
            out.append(a.as_str());
            out.append(" to ");
            let b = until.to_text();
            out.append(b.as_str());
            out.append(" (exclusive)\n");
            out
        },
        (Some(since), None) => {
            let mut out = "Period: ".to_owned();
            let a = since.to_text();
            out.append(a.as_str());
            out.append(" onward\n");
            out
        },
        (None, Some(until)) => {
            let mut out = "Period: up to ".to_owned();
            let b = until.to_text();
            out.append(b.as_str());
            out.append(" (exclusive)\n");
            out
        },
        (None, None) => String::new(),
    }
}

} // verus!
