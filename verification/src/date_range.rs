//! A `--since`/`--until` window of transaction dates, applied to a journal's transactions
//! before a ledger is built from them: reports stay unaware of dates.
use crate::balance::{all_balanced, postings_valid, txn_balanced};
use crate::date::Date;
use crate::model::{transactions_view, Transaction, TransactionView};
use vstd::prelude::*;

verus! {

/// An inclusive-start, exclusive-end window: a date is in range when `since <= date < until`.
/// An absent bound leaves that side unconstrained; the default range keeps every date.
#[derive(Debug, Clone, Copy, PartialEq, Eq, Structural)]
pub struct DateRange {
    /// Earliest date included; `None` for no lower bound.
    pub since: Option<Date>,
    /// Earliest date excluded at the upper end; `None` for no upper bound.
    pub until: Option<Date>,
}

/// Whether `d` lies in the range given by the two optional bounds.
pub open spec fn in_range(since: Option<Date>, until: Option<Date>, d: Date) -> bool {
    (match since {
        Some(s) => !d.before(s),
        None => true,
    }) && (match until {
        Some(u) => d.before(u),
        None => true,
    })
}

/// The transactions dated within the bounds, in their order.
pub open spec fn within_range(since: Option<Date>, until: Option<Date>, ts: Seq<TransactionView>) -> Seq<
    TransactionView,
>
    decreases ts.len(),
{
    if ts.len() == 0 {
        Seq::empty()
    } else if in_range(since, until, ts.last().date) {
        within_range(since, until, ts.drop_last()).push(ts.last())
    } else {
        within_range(since, until, ts.drop_last())
    }
}

impl Default for DateRange {
    fn default() -> (r: DateRange)
        ensures
            r.since is None,
            r.until is None,
    {
        DateRange { since: None, until: None }
    }
}

impl DateRange {
    /// The range with these bounds.
    pub fn new(since: Option<Date>, until: Option<Date>) -> (r: DateRange)
        ensures
            r.since == since,
            r.until == until,
    {
        DateRange { since, until }
    }

    /// True if neither bound is set.
    pub fn is_unbounded(&self) -> (r: bool)
        ensures
            r == (self.since is None && self.until is None),
    {
        self.since.is_none() && self.until.is_none()
    }

    /// True if `date` falls within the range: `since <= date < until`.
    pub fn contains(&self, date: Date) -> (r: bool)
        ensures
            r == in_range(self.since, self.until, date),
    {
        let after_since = match self.since {
            Some(s) => !date.is_before(&s),
            None => true,
        };
        let before_until = match self.until {
            Some(u) => date.is_before(&u),
            None => true,
        };
        after_since && before_until
    }

    /// Keeps the transactions dated within the range, in their order; an unbounded range
    /// hands the transactions back as they are.
    pub fn filter(&self, transactions: Vec<Transaction>) -> (r: Vec<Transaction>)
        ensures
            transactions_view(r@) == within_range(
                self.since,
                self.until,
                transactions_view(transactions@),
            ),
            self.since is None && self.until is None ==> r@ == transactions@,
            all_balanced(transactions_view(transactions@)) ==> all_balanced(transactions_view(r@)),
    {
        proof {
            if all_balanced(transactions_view(transactions@)) {
                lemma_filter_keeps_balance(self.since, self.until, transactions_view(transactions@));
            }
        }
        if self.is_unbounded() {
            proof {
                lemma_unbounded_keeps_all(transactions_view(transactions@));
            }
            return transactions;
        }
        let ghost input = transactions_view(transactions@);
        let n = transactions.len();
        let mut rest = transactions;
        let mut out: Vec<Transaction> = Vec::new();
        let mut i: usize = 0;
        assert(input.take(0) =~= Seq::<TransactionView>::empty());
        assert(transactions_view(out@) =~= Seq::<TransactionView>::empty());
        while i < n
            invariant
                0 <= i <= n,
                n == input.len(),
                transactions_view(rest@) == input.skip(i as int),
                transactions_view(out@) == within_range(self.since, self.until, input.take(i as int)),
            decreases n - i,
        {
            assert(transactions_view(rest@).len() == rest@.len());
            assert(transactions_view(rest@)[0] == input[i as int]);
            let ghost rv = transactions_view(rest@);
            let t = rest.remove(0);
            assert(transactions_view(rest@) =~= rv.drop_first());
            assert(input.skip(i as int).drop_first() =~= input.skip(i + 1));
            proof {
                assert(input.take(i + 1).drop_last() =~= input.take(i as int));
                assert(input.take(i + 1).last() == t@);
            }
            if self.contains(t.date) {
                let ghost ov = transactions_view(out@);
                let ghost tv = t@;
                out.push(t);
                assert(transactions_view(out@) =~= ov.push(tv));
            }
            i += 1;
        }
        assert(input.take(n as int) =~= input);
        out
    }
}

/// Filtering with no bound keeps every transaction, in order.
pub proof fn lemma_unbounded_keeps_all(ts: Seq<TransactionView>)
    ensures
        within_range(None, None, ts) == ts,
    decreases ts.len(),
{
    if ts.len() > 0 {
        lemma_unbounded_keeps_all(ts.drop_last());
        assert(ts.drop_last().push(ts.last()) =~= ts);
    }
}

/// Filtering keeps every kept transaction balanced.
pub proof fn lemma_filter_keeps_balance(since: Option<Date>, until: Option<Date>, ts: Seq<TransactionView>)
    requires
        all_balanced(ts),
    ensures
        all_balanced(within_range(since, until, ts)),
    decreases ts.len(),
{
    if ts.len() > 0 {
        let prev = ts.drop_last();
        assert forall|k: int| 0 <= k < prev.len() implies txn_balanced(#[trigger] prev[k])
            && postings_valid(prev[k].postings) by {
            assert(prev[k] == ts[k]);
        }
        lemma_filter_keeps_balance(since, until, prev);
        let w = within_range(since, until, prev);
        if in_range(since, until, ts.last().date) {
            assert forall|k: int| 0 <= k < w.push(ts.last()).len() implies txn_balanced(
                #[trigger] w.push(ts.last())[k],
            ) && postings_valid(w.push(ts.last())[k].postings) by {
                if k < w.len() {
                    assert(w.push(ts.last())[k] == w[k]);
                } else {
                    assert(ts.last() == ts[ts.len() - 1]);
                }
            }
        }
    }
}

/// A transaction survives filtering exactly when its date is in range: everything kept is in
/// range, and every transaction in range is kept.
pub proof fn lemma_filter_keeps_exactly_in_range(
    since: Option<Date>,
    until: Option<Date>,
    ts: Seq<TransactionView>,
)
    ensures
        forall|i: int|
            0 <= i < within_range(since, until, ts).len() ==> in_range(
                since,
                until,
                #[trigger] within_range(since, until, ts)[i].date,
            ),
        forall|i: int|
            0 <= i < ts.len() && in_range(since, until, ts[i].date) ==> within_range(
                since,
                until,
                ts,
            ).contains(#[trigger] ts[i]),
    decreases ts.len(),
{
    if ts.len() > 0 {
        lemma_filter_keeps_exactly_in_range(since, until, ts.drop_last());
        let prev = within_range(since, until, ts.drop_last());
        assert forall|i: int|
            0 <= i < ts.len() && in_range(since, until, ts[i].date) implies within_range(
            since,
            until,
            ts,
        ).contains(#[trigger] ts[i]) by {
            if i < ts.len() - 1 {
                assert(ts[i] == ts.drop_last()[i]);
                assert(prev.contains(ts.drop_last()[i]));
                let k = choose|k: int| 0 <= k < prev.len() && prev[k] == ts.drop_last()[i];
                if in_range(since, until, ts.last().date) {
                    assert(within_range(since, until, ts)[k] == prev[k]);
                }
            } else {
                assert(within_range(since, until, ts).last() == ts[i]);
            }
        }
    }
}

} // verus!
