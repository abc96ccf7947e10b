//! Hand-written parser for the hledger-compatible journal subset: journal text in, transactions
//! and `include` directives out. Pure: no I/O. The grammar is stated as spec functions over the
//! text's characters, and `parse_str` is proved to compute exactly what they describe.
use crate::date::{parse_date_fmt, parse_date_fmt_spec, Date};
use crate::model::{
    first_index, lemma_first_index_bounds, lemma_first_index_exact, lemma_first_index_none,
    opt_view, split_at_char, tags_view, Account, Amount, AmountView, Posting, PostingView,
    SourcePos, SourceView, Status, Tag, TagView, Transaction, TransactionView,
};
use crate::quantity::{parse_quantity, parse_quantity_spec, Quantity};
use crate::text::{
    has_prefix_at, head, is_whitespace, is_ws, slice_chars, str_chars, string_of_all, tail, trim,
    trim_end, trim_start, trimmed, trimmed_end, trimmed_start,
};
use vstd::prelude::*;

verus! {

broadcast use vstd::string::group_string_axioms;

// ---------------------------------------------------------------------------------------------
// The grammar, as spec functions over characters.
// ---------------------------------------------------------------------------------------------

/// `l` without one trailing carriage return.
pub open spec fn strip_cr(l: Seq<char>) -> Seq<char> {
    if l.len() > 0 && l.last() == '\r' {
        l.drop_last()
    } else {
        l
    }
}

/// The lines of `s` (`str::lines`): split at `\n`, a `\r` before the `\n` dropped, and no empty
/// line after a final `\n`.
pub open spec fn lines_of(s: Seq<char>) -> Seq<Seq<char>>
    decreases s.len(),
{
    if s.len() == 0 {
        Seq::empty()
    } else {
        match first_index(s, '\n') {
            Some(i) => {
                proof {
                    lemma_first_index_bounds(s, '\n');
                }
                seq![strip_cr(s.take(i as int))] + lines_of(s.skip(i as int + 1))
            },
            None => seq![s],
        }
    }
}

/// Whether a line starts with a space or a tab.
pub open spec fn is_indented(raw: Seq<char>) -> bool {
    raw.len() > 0 && (raw[0] == ' ' || raw[0] == '\t')
}

/// Whether a (trimmed) line starts with `;` or `#`.
pub open spec fn is_comment(t: Seq<char>) -> bool {
    t.len() > 0 && (t[0] == ';' || t[0] == '#')
}

/// `line` with the keyword `kw` removed, if it starts with `kw` followed by whitespace or the
/// end of the line.
pub open spec fn directive_rest(line: Seq<char>, kw: Seq<char>) -> Option<Seq<char>> {
    if kw.is_prefix_of(line) {
        let rest = line.skip(kw.len() as int);
        if rest.len() == 0 || is_ws(rest[0]) {
            Some(rest)
        } else {
            None
        }
    } else {
        None
    }
}

/// Length of the run of non-whitespace characters at the start of `s`.
pub open spec fn token_len(s: Seq<char>) -> nat
    decreases s.len(),
{
    if s.len() == 0 || is_ws(s[0]) {
        0
    } else {
        1 + token_len(s.drop_first())
    }
}

/// The first whitespace-separated token of `s` (`split_whitespace().next()`).
pub open spec fn first_token(s: Seq<char>) -> Option<Seq<char>> {
    let u = trim_start(s);
    if u.len() == 0 {
        None
    } else {
        Some(u.take(token_len(u) as int))
    }
}

/// The part of `s` before the first `c` (all of `s` if there is none).
pub open spec fn before_char(s: Seq<char>, c: char) -> Seq<char> {
    match first_index(s, c) {
        Some(i) => s.take(i as int),
        None => s,
    }
}

/// A date string read with the first of the formats `%Y-%m-%d`, `%Y/%m/%d`, `%Y.%m.%d` that
/// accepts it: the one reading of dates shared by journal headers and the command line.
pub open spec fn parse_date_str_spec(s: Seq<char>) -> Option<Date> {
    match parse_date_fmt_spec(s, "%Y-%m-%d"@) {
        Some(x) => Some(x),
        None => match parse_date_fmt_spec(s, "%Y/%m/%d"@) {
            Some(x) => Some(x),
            None => parse_date_fmt_spec(s, "%Y.%m.%d"@),
        },
    }
}

/// A header's date token: the part before any `=` (a secondary date follows it), read as a
/// date string.
pub open spec fn date_token_spec(tok: Seq<char>) -> Option<Date> {
    parse_date_str_spec(before_char(tok, '='))
}

/// The text before the first `;` and, if there is one, the trimmed text after it.
pub open spec fn split_comment(line: Seq<char>) -> (Seq<char>, Option<Seq<char>>) {
    match first_index(line, ';') {
        Some(i) => (line.take(i as int), Some(trim(line.skip(i as int + 1)))),
        None => (line, None),
    }
}

/// The tag a comma-separated comment fragment holds: one with a `:` is a tag.
pub open spec fn tag_of_fragment(frag: Seq<char>) -> Option<TagView> {
    let f = trim(frag);
    if f.len() == 0 {
        None
    } else {
        match first_index(f, ':') {
            None => None,
            Some(i) => {
                let key = trim(f.take(i as int));
                let value = trim(f.skip(i as int + 1));
                Some(
                    TagView {
                        key,
                        value: if value.len() == 0 {
                            None
                        } else {
                            Some(value)
                        },
                    },
                )
            },
        }
    }
}

/// The tags in the comma-separated fragments `frags`, in order.
pub open spec fn tags_of_fragments(frags: Seq<Seq<char>>) -> Seq<TagView>
    decreases frags.len(),
{
    if frags.len() == 0 {
        Seq::empty()
    } else {
        let rest = tags_of_fragments(frags.drop_first());
        match tag_of_fragment(frags[0]) {
            Some(t) => seq![t] + rest,
            None => rest,
        }
    }
}

/// The tags in a comment: `key:value` fragments separated by `,`.
pub open spec fn parse_tags_spec(comment: Seq<char>) -> Seq<TagView> {
    tags_of_fragments(split_at_char(comment, ','))
}

/// Whether position `i` of `s` starts an account/amount separator: a tab or two spaces.
pub open spec fn is_sep_at(s: Seq<char>, i: int) -> bool {
    s[i] == '\t' || (s[i] == ' ' && i + 1 < s.len() && s[i + 1] == ' ')
}

/// The first separator position at or after `from`.
pub open spec fn sep_from(s: Seq<char>, from: nat) -> Option<nat>
    decreases s.len() - from,
{
    if from >= s.len() {
        None
    } else if is_sep_at(s, from as int) {
        Some(from)
    } else {
        sep_from(s, from + 1)
    }
}

/// A posting's account text and, if present, its amount text.
pub open spec fn split_account_amount_spec(s: Seq<char>) -> (Seq<char>, Option<Seq<char>>) {
    match sep_from(s, 0) {
        Some(i) => {
            let rest = trim(s.skip(i as int));
            (trim_end(s.take(i as int)), if rest.len() == 0 {
                None
            } else {
                Some(rest)
            })
        },
        None => (trim(s), None),
    }
}

/// Whether `c` is an ASCII digit.
pub open spec fn is_digit(c: char) -> bool {
    '0' <= c && c <= '9'
}

/// Whether `c` may appear in a numeral: a digit, `.` or `,`.
pub open spec fn is_numeral_char(c: char) -> bool {
    is_digit(c) || c == '.' || c == ','
}

/// The first ASCII digit position at or after `from`.
pub open spec fn digit_from(s: Seq<char>, from: nat) -> Option<nat>
    decreases s.len() - from,
{
    if from >= s.len() {
        None
    } else if is_digit(s[from as int]) {
        Some(from)
    } else {
        digit_from(s, from + 1)
    }
}

/// The end of the numeral run starting at `from`.
pub open spec fn numeral_end(s: Seq<char>, from: nat) -> nat
    decreases s.len() - from,
{
    if from >= s.len() || !is_numeral_char(s[from as int]) {
        from
    } else {
        numeral_end(s, from + 1)
    }
}

/// The ASCII digits of `s`, in order.
pub open spec fn keep_digits(s: Seq<char>) -> Seq<char>
    decreases s.len(),
{
    if s.len() == 0 {
        Seq::empty()
    } else if is_digit(s.last()) {
        keep_digits(s.drop_last()).push(s.last())
    } else {
        keep_digits(s.drop_last())
    }
}

/// The characters of `s` other than `-` and `+`, in order.
pub open spec fn drop_signs(s: Seq<char>) -> Seq<char>
    decreases s.len(),
{
    if s.len() == 0 {
        Seq::empty()
    } else if s.last() != '-' && s.last() != '+' {
        drop_signs(s.drop_last()).push(s.last())
    } else {
        drop_signs(s.drop_last())
    }
}

/// The last position in `s[..upto]` holding `.` or `,`.
pub open spec fn last_sep_before(s: Seq<char>, upto: nat) -> Option<nat>
    decreases upto,
{
    if upto == 0 {
        None
    } else if s[upto - 1] == '.' || s[upto - 1] == ',' {
        Some((upto - 1) as nat)
    } else {
        last_sep_before(s, (upto - 1) as nat)
    }
}

/// A numeral with hledger's decimal-mark rule applied: the rightmost `.`/`,` is the decimal
/// point and other separators are dropped.
pub open spec fn normalize_numeral_spec(raw: Seq<char>) -> Seq<char> {
    match last_sep_before(raw, raw.len()) {
        None => raw,
        Some(idx) => {
            let int_part = keep_digits(raw.take(idx as int));
            let frac_part = keep_digits(raw.skip(idx as int + 1));
            let int_part = if int_part.len() == 0 {
                seq!['0']
            } else {
                int_part
            };
            if frac_part.len() == 0 {
                int_part
            } else {
                int_part + seq!['.'] + frac_part
            }
        },
    }
}

/// An amount field such as `100.00 USD`, `$100.00`, `-$1,234.56` or `USD -100`.
pub open spec fn parse_amount_spec(s0: Seq<char>) -> Result<AmountView, Seq<char>> {
    let s = trim(s0);
    if s.len() == 0 {
        Err("empty amount"@)
    } else {
        match digit_from(s, 0) {
            None => Err("no numeric value found in amount '"@ + s + "'"@),
            Some(fd) => {
                let prefix = s.take(fd as int);
                let negative = prefix.contains('-');
                let prefix_symbol = trim(drop_signs(prefix));
                let end = numeral_end(s, fd);
                let numeral = normalize_numeral_spec(s.subrange(fd as int, end as int));
                let suffix = trim(s.skip(end as int));
                let commodity = if prefix_symbol.len() > 0 {
                    prefix_symbol
                } else {
                    suffix
                };
                let signed = if negative {
                    seq!['-'] + numeral
                } else {
                    numeral
                };
                match parse_quantity_spec(signed) {
                    Ok(q) => Ok(AmountView { quantity: q, commodity }),
                    Err(e) => Err("invalid numeric amount '"@ + s + "': "@ + e),
                }
            },
        }
    }
}

/// A leading `*` or `!` status marker (followed by whitespace or the end), and the text after
/// it with leading whitespace trimmed.
pub open spec fn status_prefix(s: Seq<char>) -> (Option<Status>, Seq<char>) {
    if s.len() > 0 && (s[0] == '*' || s[0] == '!') && (s.len() == 1 || is_ws(s[1])) {
        (Some(if s[0] == '*' {
            Status::Cleared
        } else {
            Status::Pending
        }), trim_start(s.skip(1)))
    } else {
        (None, s)
    }
}

/// The view of a parse error.
pub struct ParseErrorView {
    pub file: Seq<char>,
    pub line: nat,
    pub message: Seq<char>,
}

/// An error at `line` of `file`.
pub open spec fn err_at(file: Seq<char>, line: nat, message: Seq<char>) -> ParseErrorView {
    ParseErrorView { file, line, message }
}

/// A posting line's content (indentation removed).
pub open spec fn parse_posting_spec(content: Seq<char>, file: Seq<char>, line: nat) -> Result<
    PostingView,
    ParseErrorView,
> {
    let (main0, comment) = split_comment(trim_end(content));
    let (status, main) = status_prefix(trim(main0));
    let (account, amount_text) = split_account_amount_spec(main);
    if account.len() == 0 {
        Err(err_at(file, line, "posting has no account"@))
    } else {
        let amount: Result<(Option<AmountView>, bool), ParseErrorView> = match amount_text {
            Some(a) => match parse_amount_spec(a) {
                Ok(v) => Ok((Some(v), false)),
                Err(m) => Err(err_at(file, line, m)),
            },
            None => Ok((None, true)),
        };
        match amount {
            Err(e) => Err(e),
            Ok((amount, was_elided)) => Ok(
                PostingView {
                    account,
                    amount,
                    was_elided,
                    status,
                    comment,
                    tags: match comment {
                        Some(c) => parse_tags_spec(c),
                        None => Seq::empty(),
                    },
                    source: SourceView { file, line },
                },
            ),
        }
    }
}

/// A transaction header line: `DATE[=DATE2] [STATUS] [(CODE)] DESCRIPTION [; COMMENT]`, with
/// no postings yet.
pub open spec fn parse_header_spec(header: Seq<char>, file: Seq<char>, line: nat) -> Result<
    TransactionView,
    ParseErrorView,
> {
    let (main, comment) = split_comment(trim(header));
    match first_token(main) {
        None => Err(err_at(file, line, "empty transaction header"@)),
        Some(tok) => {
            let rest0 = trim_start(main.skip(tok.len() as int));
            let d = before_char(tok, '=');
            match date_token_spec(d) {
                None => Err(err_at(file, line, "invalid date '"@ + d + "'"@)),
                Some(date) => {
                    let secondary: Result<Option<Date>, ParseErrorView> = match first_index(
                        tok,
                        '=',
                    ) {
                        None => Ok(None),
                        Some(i) => {
                            let s2 = tok.skip(i as int + 1);
                            match date_token_spec(s2) {
                                Some(x) => Ok(Some(x)),
                                None => Err(
                                    err_at(file, line, "invalid secondary date '"@ + s2 + "'"@),
                                ),
                            }
                        },
                    };
                    match secondary {
                        Err(e) => Err(e),
                        Ok(secondary_date) => {
                            let (st, rest1) = status_prefix(rest0);
                            let status = match st {
                                Some(x) => x,
                                None => Status::Unmarked,
                            };
                            let code_part: Result<(Option<Seq<char>>, Seq<char>), ParseErrorView> =
                                if rest1.len() > 0 && rest1[0] == '(' {
                                match first_index(rest1, ')') {
                                    Some(close) => Ok(
                                        (
                                            Some(rest1.subrange(1, close as int)),
                                            trim_start(rest1.skip(close as int + 1)),
                                        ),
                                    ),
                                    None => Err(
                                        err_at(
                                            file,
                                            line,
                                            "unterminated '(' code in transaction header"@,
                                        ),
                                    ),
                                }
                            } else {
                                Ok((None, rest1))
                            };
                            match code_part {
                                Err(e) => Err(e),
                                Ok((code, rest2)) => Ok(
                                    TransactionView {
                                        date,
                                        secondary_date,
                                        status,
                                        code,
                                        description: trim(rest2),
                                        comment,
                                        tags: match comment {
                                            Some(c) => parse_tags_spec(c),
                                            None => Seq::empty(),
                                        },
                                        postings: Seq::empty(),
                                        source: SourceView { file, line },
                                    },
                                ),
                            }
                        },
                    }
                },
            }
        },
    }
}

/// Whether a raw line belongs to the transaction above it (indented and not blank).
pub open spec fn continues_transaction(raw: Seq<char>) -> bool {
    trim(raw).len() > 0 && is_indented(raw)
}

/// The transaction `t` extended with the posting and comment lines from `lines[i..]`, and the
/// index of the first line after them.
pub open spec fn collect_body(lines: Seq<Seq<char>>, i: nat, file: Seq<char>, t: TransactionView) -> Result<
    (TransactionView, nat),
    ParseErrorView,
>
    decreases lines.len() - i,
{
    if i >= lines.len() || !continues_transaction(lines[i as int]) {
        Ok((t, i))
    } else {
        let content = trim_start(lines[i as int]);
        if is_comment(content) {
            collect_body(
                lines,
                i + 1,
                file,
                TransactionView { tags: t.tags + parse_tags_spec(comment_text(content)), ..t },
            )
        } else {
            match parse_posting_spec(content, file, i + 1) {
                Err(e) => Err(e),
                Ok(p) => collect_body(
                    lines,
                    i + 1,
                    file,
                    TransactionView { postings: t.postings.push(p), ..t },
                ),
            }
        }
    }
}

/// A full-line comment's text: leading `;`/`#` characters removed, then trimmed.
pub open spec fn comment_text(content: Seq<char>) -> Seq<char>
    decreases content.len(),
{
    if content.len() > 0 && (content[0] == ';' || content[0] == '#') {
        comment_text(content.drop_first())
    } else {
        trim(content)
    }
}

/// The outcome of a parsing step: a value, a parse error, or amounts too large for exact decimal
/// arithmetic.
pub enum Outcome<T> {
    Done(T),
    Failed(ParseErrorView),
    TooLarge,
}

/// Position of the running total for commodity `c`, searching from `k`.
pub open spec fn total_index_from(totals: Seq<(Seq<char>, Quantity)>, c: Seq<char>, k: nat) -> Option<
    nat,
>
    decreases totals.len() - k,
{
    if k >= totals.len() {
        None
    } else if totals[k as int].0 == c {
        Some(k)
    } else {
        total_index_from(totals, c, k + 1)
    }
}

/// Position of the running total for commodity `c`.
pub open spec fn total_index(totals: Seq<(Seq<char>, Quantity)>, c: Seq<char>) -> Option<nat> {
    total_index_from(totals, c, 0)
}

pub proof fn lemma_total_index_bounds(totals: Seq<(Seq<char>, Quantity)>, c: Seq<char>, k: nat)
    ensures
        total_index_from(totals, c, k) matches Some(j) ==> k <= j < totals.len() && totals[j as int].0 == c,
        total_index_from(totals, c, k) is None ==> forall|j: int| k <= j < totals.len() ==> totals[j].0 != c,
    decreases totals.len() - k,
{
    if k < totals.len() && totals[k as int].0 != c {
        lemma_total_index_bounds(totals, c, k + 1);
    }
}

/// `totals` with `q` added to commodity `c`'s running total (a new entry at the end if `c` has
/// none yet).
pub open spec fn add_total(totals: Seq<(Seq<char>, Quantity)>, c: Seq<char>, q: Quantity) -> Seq<
    (Seq<char>, Quantity),
> {
    match total_index(totals, c) {
        Some(k) => totals.update(k as int, (c, totals[k as int].1.plus(q))),
        None => totals.push((c, q)),
    }
}

/// Whether adding `q` to commodity `c`'s running total is exact.
pub open spec fn add_total_fits(totals: Seq<(Seq<char>, Quantity)>, c: Seq<char>, q: Quantity) -> bool {
    match total_index(totals, c) {
        Some(k) => totals[k as int].1.plus_fits(q),
        None => true,
    }
}

/// Per-commodity totals of the non-elided postings, in order of first appearance.
pub open spec fn posting_totals(ps: Seq<PostingView>) -> Seq<(Seq<char>, Quantity)>
    decreases ps.len(),
{
    if ps.len() == 0 {
        Seq::empty()
    } else {
        let prev = posting_totals(ps.drop_last());
        let p = ps.last();
        if p.was_elided {
            prev
        } else {
            match p.amount {
                Some(a) => add_total(prev, a.commodity, a.quantity),
                None => prev,
            }
        }
    }
}

/// Whether every addition into the per-commodity totals is exact.
pub open spec fn posting_totals_fit(ps: Seq<PostingView>) -> bool
    decreases ps.len(),
{
    if ps.len() == 0 {
        true
    } else {
        let p = ps.last();
        posting_totals_fit(ps.drop_last()) && (p.was_elided || match p.amount {
            Some(a) => add_total_fits(posting_totals(ps.drop_last()), a.commodity, a.quantity),
            None => true,
        })
    }
}

/// Number of postings whose amount was elided.
pub open spec fn elided_count(ps: Seq<PostingView>) -> nat
    decreases ps.len(),
{
    if ps.len() == 0 {
        0
    } else {
        elided_count(ps.drop_last()) + if ps.last().was_elided {
            1nat
        } else {
            0nat
        }
    }
}

/// Position of the first posting at or after `k` whose amount was elided.
pub open spec fn first_elided_from(ps: Seq<PostingView>, k: nat) -> Option<nat>
    decreases ps.len() - k,
{
    if k >= ps.len() {
        None
    } else if ps[k as int].was_elided {
        Some(k)
    } else {
        first_elided_from(ps, k + 1)
    }
}

/// Position of the first posting whose amount was elided.
pub open spec fn first_elided(ps: Seq<PostingView>) -> Option<nat> {
    first_elided_from(ps, 0)
}

/// The first running total at or after `k` that is not zero.
pub open spec fn first_nonzero_from(totals: Seq<(Seq<char>, Quantity)>, k: nat) -> Option<
    (Seq<char>, Quantity),
>
    decreases totals.len() - k,
{
    if k >= totals.len() {
        None
    } else if totals[k as int].1.val() != 0 {
        Some(totals[k as int])
    } else {
        first_nonzero_from(totals, k + 1)
    }
}

/// The first running total that is not zero.
pub open spec fn first_nonzero(totals: Seq<(Seq<char>, Quantity)>) -> Option<(Seq<char>, Quantity)> {
    first_nonzero_from(totals, 0)
}

/// Checks that a transaction's postings sum to zero per commodity, inferring the amount of a
/// single elided posting.
pub open spec fn balance_spec(t: TransactionView, file: Seq<char>) -> Outcome<TransactionView> {
    let ps = t.postings;
    let line = t.source.line;
    if ps.len() == 0 {
        Outcome::Failed(err_at(file, line, "transaction has no postings"@))
    } else if elided_count(ps) > 1 {
        Outcome::Failed(
            err_at(file, line, "only one posting per transaction may elide its amount"@),
        )
    } else if !posting_totals_fit(ps) {
        Outcome::TooLarge
    } else {
        let totals = posting_totals(ps);
        match first_elided(ps) {
            Some(k) => if totals.len() == 0 {
                Outcome::Failed(
                    err_at(
                        file,
                        line,
                        "cannot infer elided posting amount: no other postings to balance against"@,
                    ),
                )
            } else if totals.len() > 1 {
                Outcome::Failed(
                    err_at(
                        file,
                        line,
                        "cannot infer elided posting amount: postings span multiple commodities"@,
                    ),
                )
            } else {
                let filled = PostingView {
                    amount: Some(
                        AmountView { quantity: totals[0].1.negated(), commodity: totals[0].0 },
                    ),
                    ..ps[k as int]
                };
                Outcome::Done(TransactionView { postings: ps.update(k as int, filled), ..t })
            },
            None => match first_nonzero(totals) {
                Some((c, q)) => Outcome::Failed(
                    err_at(
                        file,
                        line,
                        "transaction does not balance: "@ + t.description + " '"@ + c
                            + "' postings sum to "@ + q.text() + " instead of 0"@,
                    ),
                ),
                None => Outcome::Done(t),
            },
        }
    }
}

pub proof fn lemma_collect_body_progress(
    lines: Seq<Seq<char>>,
    i: nat,
    file: Seq<char>,
    t: TransactionView,
)
    requires
        i <= lines.len(),
    ensures
        collect_body(lines, i, file, t) matches Ok((_, j)) ==> i <= j <= lines.len(),
    decreases lines.len() - i,
{
    if i < lines.len() && continues_transaction(lines[i as int]) {
        let content = trim_start(lines[i as int]);
        if is_comment(content) {
            lemma_collect_body_progress(
                lines,
                i + 1,
                file,
                TransactionView { tags: t.tags + parse_tags_spec(comment_text(content)), ..t },
            );
        } else {
            if let Ok(p) = parse_posting_spec(content, file, i + 1) {
                lemma_collect_body_progress(
                    lines,
                    i + 1,
                    file,
                    TransactionView { postings: t.postings.push(p), ..t },
                );
            }
        }
    }
}

/// The transaction whose header is `lines[start]`, and the number of lines it takes up (its
/// header and its body).
pub open spec fn parse_transaction_spec(lines: Seq<Seq<char>>, start: nat, file: Seq<char>) -> Outcome<
    (TransactionView, nat),
> {
    match parse_header_spec(lines[start as int], file, start + 1) {
        Err(e) => Outcome::Failed(e),
        Ok(t) => match collect_body(lines, start + 1, file, t) {
            Err(e) => Outcome::Failed(e),
            Ok((t2, next)) => match balance_spec(t2, file) {
                Outcome::Done(t3) => Outcome::Done((t3, (next - start) as nat)),
                Outcome::Failed(e) => Outcome::Failed(e),
                Outcome::TooLarge => Outcome::TooLarge,
            },
        },
    }
}

/// The view of an `include` directive.
pub struct IncludeView {
    pub path: Seq<char>,
    pub source: SourceView,
}

/// The view of a parsed journal.
pub struct ParsedView {
    pub transactions: Seq<TransactionView>,
    pub includes: Seq<IncludeView>,
}

/// Whether a line is a directive that is accepted and ignored.
pub open spec fn is_ignored_directive(t: Seq<char>) -> bool {
    directive_rest(t, "account"@) is Some || directive_rest(t, "commodity"@) is Some
        || directive_rest(t, "year"@) is Some || directive_rest(t, "Y"@) is Some
}

/// Whether a line starts with a token that reads as a date.
pub open spec fn starts_with_date(t: Seq<char>) -> bool {
    match first_token(t) {
        Some(tok) => date_token_spec(tok) is Some,
        None => false,
    }
}

/// The journal from `lines[i..]` on, added to what `acc` already holds.
pub open spec fn parse_lines(lines: Seq<Seq<char>>, i: nat, file: Seq<char>, acc: ParsedView) -> Outcome<
    ParsedView,
>
    decreases lines.len() - i,
{
    if i >= lines.len() {
        Outcome::Done(acc)
    } else {
        let raw = lines[i as int];
        let t = trim(raw);
        if t.len() == 0 {
            parse_lines(lines, i + 1, file, acc)
        } else if is_indented(raw) {
            Outcome::Failed(
                err_at(file, i + 1, "indented line with no preceding transaction header"@),
            )
        } else if is_comment(t) {
            parse_lines(lines, i + 1, file, acc)
        } else if directive_rest(t, "include"@) is Some {
            let rest = directive_rest(t, "include"@)->0;
            let inc = IncludeView { path: trim(rest), source: SourceView { file, line: i + 1 } };
            parse_lines(lines, i + 1, file, ParsedView { includes: acc.includes.push(inc), ..acc })
        } else if is_ignored_directive(t) {
            parse_lines(lines, i + 1, file, acc)
        } else if starts_with_date(t) {
            match parse_transaction_spec(lines, i, file) {
                Outcome::Done((txn, n)) => {
                    if 0 < n && i + n <= lines.len() {
                        parse_lines(
                            lines,
                            i + n,
                            file,
                            ParsedView { transactions: acc.transactions.push(txn), ..acc },
                        )
                    } else {
                        Outcome::Done(acc)
                    }
                },
                Outcome::Failed(e) => Outcome::Failed(e),
                Outcome::TooLarge => Outcome::TooLarge,
            }
        } else {
            Outcome::Failed(
                err_at(
                    file,
                    i + 1,
                    "unrecognized directive or transaction line: '"@ + t + "'"@,
                ),
            )
        }
    }
}

/// What parsing the journal text `content` from file `file` yields.
pub open spec fn parse_journal_spec(content: Seq<char>, file: Seq<char>) -> Outcome<ParsedView> {
    parse_lines(
        lines_of(content),
        0,
        file,
        ParsedView { transactions: Seq::empty(), includes: Seq::empty() },
    )
}

// ---------------------------------------------------------------------------------------------
// The parser.
// ---------------------------------------------------------------------------------------------

/// The views of a list of lines.
pub open spec fn lines_view(ls: Seq<Vec<char>>) -> Seq<Seq<char>> {
    ls.map_values(|l: Vec<char>| l@)
}

/// Position of the first `c` in `v`, if any.
fn find_char(v: &Vec<char>, c: char) -> (r: Option<usize>)
    ensures
        match r {
            Some(i) => first_index(v@, c) == Some(i as nat) && i < v.len(),
            None => first_index(v@, c) is None,
        },
{
    let mut i: usize = 0;
    while i < v.len()
        invariant
            0 <= i <= v.len(),
            forall|j: int| 0 <= j < i ==> v@[j] != c,
        decreases v.len() - i,
    {
        if v[i] == c {
            proof {
                lemma_first_index_exact(v@, c, i as nat);
            }
            return Some(i);
        }
        i += 1;
    }
    proof {
        lemma_first_index_none(v@, c);
    }
    None
}

/// Drops one trailing `\r`.
fn strip_cr_vec(v: Vec<char>) -> (r: Vec<char>)
    ensures
        r@ == strip_cr(v@),
{
    let mut v = v;
    if v.len() > 0 && v[v.len() - 1] == '\r' {
        v.pop();
    }
    v
}

/// The lines of `content`, as `str::lines` gives them.
pub fn split_lines(content: &Vec<char>) -> (r: Vec<Vec<char>>)
    ensures
        lines_view(r@) == lines_of(content@),
{
    let mut out: Vec<Vec<char>> = Vec::new();
    let mut start: usize = 0;
    let mut i: usize = 0;
    assert(content@.skip(0) == content@);
    while i < content.len()
        invariant
            0 <= start <= i <= content.len(),
            forall|j: int| start <= j < i ==> content@[j] != '\n',
            lines_view(out@) + lines_of(content@.skip(start as int)) == lines_of(content@),
        decreases content.len() - i,
    {
        if content[i] == '\n' {
            let line = strip_cr_vec(slice_chars(content, start, i));
            proof {
                let rest = content@.skip(start as int);
                lemma_first_index_exact(rest, '\n', (i - start) as nat);
                assert(rest.take((i - start) as int) == content@.subrange(start as int, i as int));
                assert(rest.skip((i - start) + 1) == content@.skip(i + 1));
                assert(lines_of(rest) == seq![line@] + lines_of(content@.skip(i + 1)));
            }
            let ghost before = lines_view(out@);
            out.push(line);
            assert(lines_view(out@) =~= before.push(line@));
            assert(before.push(line@) + lines_of(content@.skip(i + 1)) =~= before + (seq![line@]
                + lines_of(content@.skip(i + 1))));
            start = i + 1;
        }
        i += 1;
    }
    if start < content.len() {
        let line = tail(content, start);
        proof {
            let rest = content@.skip(start as int);
            assert forall|j: int| 0 <= j < rest.len() implies rest[j] != '\n' by {
                assert(rest[j] == content@[start + j]);
            }
            lemma_first_index_none(rest, '\n');
            assert(lines_of(rest) == seq![rest]);
        }
        let ghost before = lines_view(out@);
        out.push(line);
        assert(lines_view(out@) =~= before.push(line@));
        assert(before.push(line@) =~= before + seq![line@]);
    } else {
        assert(content@.skip(start as int).len() == 0);
        assert(lines_view(out@) + Seq::<Seq<char>>::empty() =~= lines_view(out@));
    }
    out
}

/// `line` with keyword `kw` removed, when it starts with `kw` followed by whitespace or the end.
pub fn strip_directive(line: &Vec<char>, kw: &str) -> (r: Option<Vec<char>>)
    ensures
        match r {
            Some(rest) => directive_rest(line@, kw@) == Some(rest@),
            None => directive_rest(line@, kw@) is None,
        },
{
    let k = str_chars(kw);
    assert(line@.subrange(0, line@.len() as int) == line@);
    if !has_prefix_at(line, 0, line.len(), &k) {
        return None;
    }
    let rest = tail(line, k.len());
    if rest.len() == 0 || is_whitespace(rest[0]) {
        Some(rest)
    } else {
        None
    }
}

proof fn lemma_token_len_bound(s: Seq<char>)
    ensures
        token_len(s) <= s.len(),
        forall|j: int| 0 <= j < token_len(s) ==> !is_ws(s[j]),
        token_len(s) < s.len() ==> is_ws(s[token_len(s) as int]),
    decreases s.len(),
{
    if s.len() > 0 && !is_ws(s[0]) {
        lemma_token_len_bound(s.drop_first());
        assert forall|j: int| 0 <= j < token_len(s) implies !is_ws(s[j]) by {
            if j > 0 {
                assert(s[j] == s.drop_first()[j - 1]);
            }
        }
        if token_len(s) < s.len() {
            assert(s[token_len(s) as int] == s.drop_first()[token_len(s) - 1]);
        }
    }
}

proof fn lemma_token_len_exact(s: Seq<char>, n: nat)
    requires
        n <= s.len(),
        forall|j: int| 0 <= j < n ==> !is_ws(s[j]),
        n < s.len() ==> is_ws(s[n as int]),
    ensures
        token_len(s) == n,
    decreases n,
{
    if n > 0 {
        assert forall|j: int| 0 <= j < n - 1 implies !is_ws(s.drop_first()[j]) by {
            assert(s.drop_first()[j] == s[j + 1]);
        }
        if n - 1 < s.len() - 1 {
            assert(s.drop_first()[n - 1] == s[n as int]);
        }
        lemma_token_len_exact(s.drop_first(), (n - 1) as nat);
    }
}

/// The first whitespace-separated token of `t`.
fn first_token_exec(t: &Vec<char>) -> (r: Option<Vec<char>>)
    ensures
        match r {
            Some(tok) => first_token(t@) == Some(tok@),
            None => first_token(t@) is None,
        },
{
    let u = trimmed_start(t);
    if u.len() == 0 {
        return None;
    }
    let mut n: usize = 0;
    while n < u.len() && !is_whitespace(u[n])
        invariant
            0 <= n <= u.len(),
            forall|j: int| 0 <= j < n ==> !is_ws(u@[j]),
        decreases u.len() - n,
    {
        n += 1;
    }
    proof {
        lemma_token_len_exact(u@, n as nat);
    }
    Some(head(&u, n))
}

/// The part of `v` before the first `c`.
fn before_char_exec(v: &Vec<char>, c: char) -> (r: Vec<char>)
    ensures
        r@ == before_char(v@, c),
{
    match find_char(v, c) {
        Some(i) => head(v, i),
        None => {
            let r = slice_chars(v, 0, v.len());
            assert(v@.subrange(0, v.len() as int) == v@);
            r
        },
    }
}

/// Reads a date token: the part before any `=`, as a date string.
fn try_parse_date_token(tok: &Vec<char>) -> (r: Option<Date>)
    ensures
        r == date_token_spec(tok@),
{
    let d = string_of_all(&before_char_exec(tok, '='));
    parse_date_str(d.as_str())
}

/// Reads a date written `YYYY-MM-DD`, `YYYY/MM/DD` or `YYYY.MM.DD`: the one reading of date
/// strings shared by journal headers and the command line.
pub fn parse_date_str(s: &str) -> (r: Option<Date>)
    ensures
        r == parse_date_str_spec(s@),
{
    match parse_date_fmt(s, "%Y-%m-%d") {
        Some(x) => Some(x),
        None => match parse_date_fmt(s, "%Y/%m/%d") {
            Some(x) => Some(x),
            None => parse_date_fmt(s, "%Y.%m.%d"),
        },
    }
}

/// Splits off an inline `;` comment, trimming the comment text.
pub fn split_inline_comment(line: &Vec<char>) -> (r: (Vec<char>, Option<Vec<char>>))
    ensures
        split_comment(line@) == (r.0@, match r.1 {
            Some(c) => Some(c@),
            None => None::<Seq<char>>,
        }),
{
    match find_char(line, ';') {
        Some(i) => {
            let before = head(line, i);
            let after = tail(line, i + 1);
            (before, Some(trimmed(&after)))
        },
        None => {
            let r = slice_chars(line, 0, line.len());
            assert(line@.subrange(0, line.len() as int) == line@);
            (r, None)
        },
    }
}

/// A leading `*`/`!` status marker and the rest of the text.
fn status_prefix_exec(s: &Vec<char>) -> (r: (Option<Status>, Vec<char>))
    ensures
        status_prefix(s@) == (r.0, r.1@),
{
    if s.len() > 0 && (s[0] == '*' || s[0] == '!') && (s.len() == 1 || is_whitespace(s[1])) {
        let st = if s[0] == '*' {
            Status::Cleared
        } else {
            Status::Pending
        };
        let rest = tail(s, 1);
        (Some(st), trimmed_start(&rest))
    } else {
        let r = slice_chars(s, 0, s.len());
        assert(s@.subrange(0, s.len() as int) == s@);
        (None, r)
    }
}

/// `v` split at every `c`.
pub(crate) fn split_vec(v: &Vec<char>, c: char) -> (r: Vec<Vec<char>>)
    ensures
        lines_view(r@) == split_at_char(v@, c),
{
    let mut out: Vec<Vec<char>> = Vec::new();
    let mut start: usize = 0;
    let mut i: usize = 0;
    assert(v@.skip(0) == v@);
    assert(lines_view(out@) + split_at_char(v@, c) =~= split_at_char(v@, c));
    while i < v.len()
        invariant
            0 <= start <= i <= v.len(),
            forall|j: int| start <= j < i ==> v@[j] != c,
            lines_view(out@) + split_at_char(v@.skip(start as int), c) == split_at_char(v@, c),
        decreases v.len() - i,
    {
        if v[i] == c {
            let piece = slice_chars(v, start, i);
            proof {
                let rest = v@.skip(start as int);
                lemma_first_index_exact(rest, c, (i - start) as nat);
                assert(rest.take((i - start) as int) == v@.subrange(start as int, i as int));
                assert(rest.skip((i - start) + 1) == v@.skip(i + 1));
            }
            let ghost before = lines_view(out@);
            out.push(piece);
            assert(lines_view(out@) =~= before.push(piece@));
            assert(before.push(piece@) + split_at_char(v@.skip(i + 1), c) =~= before + (seq![piece@]
                + split_at_char(v@.skip(i + 1), c)));
            start = i + 1;
        }
        i += 1;
    }
    let piece = tail(v, start);
    proof {
        let rest = v@.skip(start as int);
        assert forall|j: int| 0 <= j < rest.len() implies rest[j] != c by {
            assert(rest[j] == v@[start + j]);
        }
        lemma_first_index_none(rest, c);
    }
    let ghost before = lines_view(out@);
    out.push(piece);
    assert(lines_view(out@) =~= before.push(piece@));
    assert(before.push(piece@) =~= before + seq![piece@]);
    out
}

/// The view of an optional character sequence.
pub open spec fn opt_chars(o: Option<Vec<char>>) -> Option<Seq<char>> {
    match o {
        Some(v) => Some(v@),
        None => None,
    }
}

/// The tag a fragment holds, if any.
fn tag_of_fragment_exec(frag: &Vec<char>) -> (r: Option<Tag>)
    ensures
        match r {
            Some(t) => tag_of_fragment(frag@) == Some(t@),
            None => tag_of_fragment(frag@) is None,
        },
{
    let f = trimmed(frag);
    if f.len() == 0 {
        return None;
    }
    match find_char(&f, ':') {
        None => None,
        Some(i) => {
            let key = trimmed(&head(&f, i));
            let value = trimmed(&tail(&f, i + 1));
            let v = if value.len() == 0 {
                None
            } else {
                Some(string_of_all(&value))
            };
            Some(Tag { key: string_of_all(&key), value: v })
        },
    }
}

/// The tags in a comment: comma-separated `key:value` (or bare `key:`) fragments.
pub fn parse_tags(comment: &Vec<char>) -> (r: Vec<Tag>)
    ensures
        tags_view(r@) == parse_tags_spec(comment@),
{
    let frags = split_vec(comment, ',');
    let ghost fs = lines_view(frags@);
    let mut out: Vec<Tag> = Vec::new();
    let mut k: usize = 0;
    assert(fs.skip(0) == fs);
    while k < frags.len()
        invariant
            0 <= k <= frags.len(),
            fs == lines_view(frags@),
            fs == split_at_char(comment@, ','),
            tags_view(out@) + tags_of_fragments(fs.skip(k as int)) == tags_of_fragments(fs),
        decreases frags.len() - k,
    {
        proof {
            assert(fs.skip(k as int)[0] == frags@[k as int]@);
            assert(fs.skip(k as int).drop_first() == fs.skip(k + 1));
        }
        match tag_of_fragment_exec(&frags[k]) {
            Some(t) => {
                let ghost before = tags_view(out@);
                out.push(t);
                assert(tags_view(out@) =~= before.push(t@));
                assert(before.push(t@) + tags_of_fragments(fs.skip(k + 1)) =~= before + (seq![t@]
                    + tags_of_fragments(fs.skip(k + 1))));
            },
            None => {},
        }
        k += 1;
    }
    assert(fs.skip(k as int).len() == 0);
    assert(tags_view(out@) + Seq::<TagView>::empty() =~= tags_view(out@));
    out
}

/// The tags in an optional comment (none without a comment).
fn tags_of_comment(comment: &Option<Vec<char>>) -> (r: Vec<Tag>)
    ensures
        tags_view(r@) == match opt_chars(*comment) {
            Some(c) => parse_tags_spec(c),
            None => Seq::empty(),
        },
{
    match comment {
        Some(c) => parse_tags(c),
        None => {
            let v: Vec<Tag> = Vec::new();
            assert(tags_view(v@) =~= Seq::<TagView>::empty());
            v
        },
    }
}

/// Whether position `i` of `s` starts a separator.
fn is_sep_exec(s: &Vec<char>, i: usize) -> (r: bool)
    requires
        i < s.len(),
    ensures
        r == is_sep_at(s@, i as int),
{
    s[i] == '\t' || (s[i] == ' ' && i + 1 < s.len() && s[i + 1] == ' ')
}

/// A posting's account text and its amount text, if any.
pub fn split_account_amount(s: &Vec<char>) -> (r: (Vec<char>, Option<Vec<char>>))
    ensures
        split_account_amount_spec(s@) == (r.0@, opt_chars(r.1)),
{
    let mut i: usize = 0;
    while i < s.len() && !is_sep_exec(s, i)
        invariant
            0 <= i <= s.len(),
            sep_from(s@, 0) == sep_from(s@, i as nat),
        decreases s.len() - i,
    {
        i += 1;
    }
    if i < s.len() {
        let account = trimmed_end(&head(s, i));
        let rest = trimmed(&tail(s, i));
        if rest.len() == 0 {
            (account, None)
        } else {
            (account, Some(rest))
        }
    } else {
        (trimmed(s), None)
    }
}

/// Position of the first ASCII digit in `s`.
fn first_digit(s: &Vec<char>) -> (r: Option<usize>)
    ensures
        match r {
            Some(i) => digit_from(s@, 0) == Some(i as nat) && i < s.len(),
            None => digit_from(s@, 0) is None,
        },
{
    let mut i: usize = 0;
    while i < s.len() && !('0' <= s[i] && s[i] <= '9')
        invariant
            0 <= i <= s.len(),
            digit_from(s@, 0) == digit_from(s@, i as nat),
        decreases s.len() - i,
    {
        i += 1;
    }
    if i < s.len() {
        Some(i)
    } else {
        None
    }
}

/// End of the numeral run starting at `from`.
fn numeral_end_exec(s: &Vec<char>, from: usize) -> (r: usize)
    requires
        from <= s.len(),
    ensures
        r == numeral_end(s@, from as nat),
        from <= r <= s.len(),
{
    let mut i = from;
    while i < s.len() && (('0' <= s[i] && s[i] <= '9') || s[i] == '.' || s[i] == ',')
        invariant
            from <= i <= s.len(),
            numeral_end(s@, from as nat) == numeral_end(s@, i as nat),
        decreases s.len() - i,
    {
        i += 1;
    }
    i
}

/// The ASCII digits of `s`.
fn keep_digits_exec(s: &Vec<char>) -> (r: Vec<char>)
    ensures
        r@ == keep_digits(s@),
{
    let mut out: Vec<char> = Vec::new();
    let mut i: usize = 0;
    while i < s.len()
        invariant
            0 <= i <= s.len(),
            out@ == keep_digits(s@.take(i as int)),
        decreases s.len() - i,
    {
        assert(s@.take(i + 1).drop_last() == s@.take(i as int));
        if '0' <= s[i] && s[i] <= '9' {
            out.push(s[i]);
        }
        i += 1;
    }
    assert(s@.take(s.len() as int) == s@);
    out
}

/// The characters of `s` other than `-` and `+`.
fn drop_signs_exec(s: &Vec<char>) -> (r: Vec<char>)
    ensures
        r@ == drop_signs(s@),
{
    let mut out: Vec<char> = Vec::new();
    let mut i: usize = 0;
    while i < s.len()
        invariant
            0 <= i <= s.len(),
            out@ == drop_signs(s@.take(i as int)),
        decreases s.len() - i,
    {
        assert(s@.take(i + 1).drop_last() == s@.take(i as int));
        if s[i] != '-' && s[i] != '+' {
            out.push(s[i]);
        }
        i += 1;
    }
    assert(s@.take(s.len() as int) == s@);
    out
}

/// Applies the decimal-mark rule to a numeral.
pub fn normalize_numeral(raw: &Vec<char>) -> (r: Vec<char>)
    ensures
        r@ == normalize_numeral_spec(raw@),
{
    let mut upto = raw.len();
    while upto > 0 && !(raw[upto - 1] == '.' || raw[upto - 1] == ',')
        invariant
            0 <= upto <= raw.len(),
            last_sep_before(raw@, raw.len() as nat) == last_sep_before(raw@, upto as nat),
        decreases upto,
    {
        upto -= 1;
    }
    if upto == 0 {
        let r = slice_chars(raw, 0, raw.len());
        assert(raw@.subrange(0, raw.len() as int) == raw@);
        return r;
    }
    let idx = upto - 1;
    let int_part0 = keep_digits_exec(&head(raw, idx));
    let frac_part = keep_digits_exec(&tail(raw, idx + 1));
    let mut int_part = if int_part0.len() == 0 {
        let mut z: Vec<char> = Vec::new();
        z.push('0');
        assert(z@ == seq!['0']);
        z
    } else {
        int_part0
    };
    if frac_part.len() == 0 {
        int_part
    } else {
        let ghost ip = int_part@;
        int_part.push('.');
        let mut k: usize = 0;
        while k < frac_part.len()
            invariant
                0 <= k <= frac_part.len(),
                int_part@ == ip + seq!['.'] + frac_part@.take(k as int),
            decreases frac_part.len() - k,
        {
            int_part.push(frac_part[k]);
            assert(frac_part@.take(k + 1) == frac_part@.take(k as int).push(frac_part@[k as int]));
            k += 1;
        }
        assert(frac_part@.take(frac_part.len() as int) == frac_part@);
        int_part
    }
}

/// `a` followed by `b`, as strings.
fn join_text(a: &str, b: &Vec<char>) -> (r: String)
    ensures
        r@ == a@ + b@,
{
    let mut r = a.to_owned();
    let sb = string_of_all(b);
    r.append(sb.as_str());
    r
}

/// Parses an amount field: an optional sign, an optional prefix symbol, a numeral (with `,`
/// thousands separators) and an optional suffix commodity.
pub fn parse_amount(s: &str) -> (r: Result<Amount, String>)
    ensures
        match r {
            Ok(a) => parse_amount_spec(s@) == Ok::<AmountView, Seq<char>>(a@),
            Err(e) => parse_amount_spec(s@) == Err::<AmountView, Seq<char>>(e@),
        },
{
    let chars = str_chars(s);
    parse_amount_chars(&chars)
}

fn parse_amount_chars(s0: &Vec<char>) -> (r: Result<Amount, String>)
    ensures
        match r {
            Ok(a) => parse_amount_spec(s0@) == Ok::<AmountView, Seq<char>>(a@),
            Err(e) => parse_amount_spec(s0@) == Err::<AmountView, Seq<char>>(e@),
        },
{
    let s = trimmed(s0);
    if s.len() == 0 {
        return Err("empty amount".to_owned());
    }
    let fd = match first_digit(&s) {
        Some(fd) => fd,
        None => {
            let mut m = join_text("no numeric value found in amount '", &s);
            m.append("'");
            return Err(m);
        },
    };
    let prefix = head(&s, fd);
    let mut negative = false;
    let mut k: usize = 0;
    while k < prefix.len()
        invariant
            0 <= k <= prefix.len(),
            negative == exists|j: int| 0 <= j < k && prefix@[j] == '-',
        decreases prefix.len() - k,
    {
        if prefix[k] == '-' {
            negative = true;
        }
        k += 1;
    }
    let prefix_symbol = trimmed(&drop_signs_exec(&prefix));
    let end = numeral_end_exec(&s, fd);
    let numeral = normalize_numeral(&slice_chars(&s, fd, end));
    let suffix = trimmed(&tail(&s, end));
    let commodity = if prefix_symbol.len() > 0 {
        prefix_symbol
    } else {
        suffix
    };
    let signed = if negative {
        join_text("-", &numeral)
    } else {
        string_of_all(&numeral)
    };
    proof {
        reveal_strlit("-");
        assert("-"@ =~= seq!['-']);
        assert(negative == prefix@.contains('-'));
    }
    match parse_quantity(signed.as_str()) {
        Ok(q) => Ok(Amount { quantity: q, commodity: string_of_all(&commodity) }),
        Err(e) => {
            let mut m = join_text("invalid numeric amount '", &s);
            m.append("': ");
            m.append(e.as_str());
            Err(m)
        },
    }
}

/// A journal syntax or balancing error, located by file and line.
#[derive(Debug)]
pub struct ParseError {
    /// The file name as given to the parser.
    pub file: String,
    /// 1-based line number.
    pub line: usize,
    /// What went wrong.
    pub message: String,
}

impl View for ParseError {
    type V = ParseErrorView;

    open spec fn view(&self) -> ParseErrorView {
        ParseErrorView { file: self.file@, line: self.line as nat, message: self.message@ }
    }
}

impl ParseError {
    /// An error at `line` of `file`.
    pub fn new(file: &str, line: usize, message: String) -> (r: ParseError)
        ensures
            r@ == err_at(file@, line as nat, message@),
    {
        ParseError { file: file.to_owned(), line, message }
    }

    /// The error as text: `FILE:LINE: MESSAGE`.
    pub fn to_text(&self) -> (r: String)
        ensures
            r@ == error_text(self@),
    {
        let mut out = self.file.clone();
        out.append(":");
        let n = crate::layout::usize_text(self.line);
        out.append(n.as_str());
        out.append(": ");
        out.append(self.message.as_str());
        out
    }
}

/// How a parse error is written: `FILE:LINE: MESSAGE`.
pub open spec fn error_text(e: ParseErrorView) -> Seq<char> {
    e.file + ":"@ + crate::layout::nat_text(e.line) + ": "@ + e.message
}

/// Parses one posting line's content (indentation already removed).
fn parse_posting(content: &Vec<char>, filename: &str, line_no: usize) -> (r: Result<
    Posting,
    ParseError,
>)
    ensures
        match r {
            Ok(p) => parse_posting_spec(content@, filename@, line_no as nat) == Ok::<PostingView, ParseErrorView>(p@),
            Err(e) => parse_posting_spec(content@, filename@, line_no as nat) == Err::<PostingView, ParseErrorView>(e@),
        },
{
    let (main0, comment) = split_inline_comment(&trimmed_end(content));
    let (status, main) = status_prefix_exec(&trimmed(&main0));
    let (account, amount_text) = split_account_amount(&main);
    if account.len() == 0 {
        return Err(ParseError::new(filename, line_no, "posting has no account".to_owned()));
    }
    let (amount, was_elided) = match &amount_text {
        Some(a) => match parse_amount_chars(a) {
            Ok(v) => (Some(v), false),
            Err(m) => {
                return Err(ParseError::new(filename, line_no, m));
            },
        },
        None => (None, true),
    };
    let tags = tags_of_comment(&comment);
    let comment_str = match &comment {
        Some(c) => Some(string_of_all(c)),
        None => None,
    };
    let p = Posting {
        account: Account(string_of_all(&account)),
        amount,
        was_elided,
        status,
        comment: comment_str,
        tags,
        source: SourcePos { file: filename.to_owned(), line: line_no },
    };
    proof {
        assert(opt_view(comment_str) == opt_chars(comment));
    }
    Ok(p)
}

/// Parses a transaction header line into a transaction with no postings yet.
fn parse_header(header: &Vec<char>, filename: &str, line_no: usize) -> (r: Result<
    Transaction,
    ParseError,
>)
    ensures
        match r {
            Ok(t) => parse_header_spec(header@, filename@, line_no as nat) == Ok::<TransactionView, ParseErrorView>(t@),
            Err(e) => parse_header_spec(header@, filename@, line_no as nat) == Err::<TransactionView, ParseErrorView>(e@),
        },
{
    let (main, comment) = split_inline_comment(&trimmed(header));
    let tok = match first_token_exec(&main) {
        Some(t) => t,
        None => {
            return Err(ParseError::new(filename, line_no, "empty transaction header".to_owned()));
        },
    };
    proof {
        lemma_first_token_len(main@);
    }
    let rest0 = trimmed_start(&tail(&main, tok.len()));
    let d = before_char_exec(&tok, '=');
    let date = match try_parse_date_token(&d) {
        Some(x) => x,
        None => {
            let mut m = join_text("invalid date '", &d);
            m.append("'");
            return Err(ParseError::new(filename, line_no, m));
        },
    };
    let secondary_date = match find_char(&tok, '=') {
        None => None,
        Some(i) => {
            let s2 = tail(&tok, i + 1);
            match try_parse_date_token(&s2) {
                Some(x) => Some(x),
                None => {
                    let mut m = join_text("invalid secondary date '", &s2);
                    m.append("'");
                    return Err(ParseError::new(filename, line_no, m));
                },
            }
        },
    };
    let (st, rest1) = status_prefix_exec(&rest0);
    let status = match st {
        Some(x) => x,
        None => Status::Unmarked,
    };
    let (code, rest2) = if rest1.len() > 0 && rest1[0] == '(' {
        match find_char(&rest1, ')') {
            Some(close) => {
                proof {
                    lemma_first_index_bounds(rest1@, ')');
                }
                let c = slice_chars(&rest1, 1, close);
                (Some(string_of_all(&c)), trimmed_start(&tail(&rest1, close + 1)))
            },
            None => {
                return Err(
                    ParseError::new(
                        filename,
                        line_no,
                        "unterminated '(' code in transaction header".to_owned(),
                    ),
                );
            },
        }
    } else {
        (None, rest1)
    };
    let tags = tags_of_comment(&comment);
    let comment_str = match &comment {
        Some(c) => Some(string_of_all(c)),
        None => None,
    };
    let t = Transaction {
        date,
        secondary_date,
        status,
        code,
        description: string_of_all(&trimmed(&rest2)),
        comment: comment_str,
        tags,
        postings: Vec::new(),
        source: SourcePos { file: filename.to_owned(), line: line_no },
    };
    proof {
        assert(opt_view(comment_str) == opt_chars(comment));
        assert(t@.postings =~= Seq::<PostingView>::empty());
    }
    Ok(t)
}

proof fn lemma_first_token_len(s: Seq<char>)
    ensures
        first_token(s) matches Some(tok) ==> tok.len() <= s.len(),
{
    lemma_trim_start_suffix(s);
    let u = trim_start(s);
    if u.len() > 0 {
        lemma_token_len_bound(u);
    }
}

proof fn lemma_trim_start_suffix(s: Seq<char>)
    ensures
        trim_start(s).len() <= s.len(),
    decreases s.len(),
{
    if s.len() > 0 && is_ws(s[0]) {
        lemma_trim_start_suffix(s.drop_first());
    }
}

/// The characters of a full-line comment's text.
fn comment_text_exec(content: &Vec<char>) -> (r: Vec<char>)
    ensures
        r@ == comment_text(content@),
{
    let mut i: usize = 0;
    assert(content@.skip(0) == content@);
    while i < content.len() && (content[i] == ';' || content[i] == '#')
        invariant
            0 <= i <= content.len(),
            comment_text(content@.skip(i as int)) == comment_text(content@),
        decreases content.len() - i,
    {
        assert(content@.skip(i as int).drop_first() == content@.skip(i + 1));
        i += 1;
    }
    let rest = tail(content, i);
    if i < content.len() {
        assert(rest@[0] == content@[i as int]);
    }
    trimmed(&rest)
}

/// Whether a raw line is indented (starts with a space or a tab).
fn is_indented_exec(raw: &Vec<char>) -> (r: bool)
    ensures
        r == is_indented(raw@),
{
    raw.len() > 0 && (raw[0] == ' ' || raw[0] == '\t')
}

/// Whether a raw line continues the transaction above it.
fn continues_exec(raw: &Vec<char>) -> (r: bool)
    ensures
        r == continues_transaction(raw@),
{
    trimmed(raw).len() > 0 && is_indented_exec(raw)
}

/// Whether a trimmed line starts with `;` or `#`.
fn is_comment_exec(t: &Vec<char>) -> (r: bool)
    ensures
        r == is_comment(t@),
{
    t.len() > 0 && (t[0] == ';' || t[0] == '#')
}

/// The view of a transaction-body parse result.
pub open spec fn body_result_view(r: Result<(Transaction, usize), ParseError>) -> Result<
    (TransactionView, nat),
    ParseErrorView,
> {
    match r {
        Ok((t, j)) => Ok((t@, j as nat)),
        Err(e) => Err(e@),
    }
}

/// Extends the transaction `t` with the posting and comment lines from `lines[start..]`.
fn collect_body_exec(lines: &Vec<Vec<char>>, start: usize, filename: &str, t0: Transaction) -> (r:
    Result<(Transaction, usize), ParseError>)
    requires
        start <= lines.len(),
    ensures
        body_result_view(r) == collect_body(lines_view(lines@), start as nat, filename@, t0@),
{
    let ghost lv = lines_view(lines@);
    let ghost t0v = t0@;
    let ghost goal = collect_body(lv, start as nat, filename@, t0v);
    let mut t = t0;
    let mut i = start;
    while i < lines.len() && continues_exec(&lines[i])
        invariant
            start <= i <= lines.len(),
            lv == lines_view(lines@),
            goal == collect_body(lv, start as nat, filename@, t0v),
            t0v == t0@,
            collect_body(lv, i as nat, filename@, t@) == goal,
        decreases lines.len() - i,
    {
        let raw = &lines[i];
        assert(lv[i as int] == raw@);
        let content = trimmed_start(raw);
        if is_comment_exec(&content) {
            let mut more = parse_tags(&comment_text_exec(&content));
            let ghost before = t@;
            t.tags.append(&mut more);
            proof {
                assert(tags_view(t.tags@) =~= before.tags + parse_tags_spec(comment_text(content@)));
                assert(t@ == TransactionView {
                    tags: before.tags + parse_tags_spec(comment_text(content@)),
                    ..before
                });
            }
        } else {
            match parse_posting(&content, filename, i + 1) {
                Ok(p) => {
                    let ghost before = t@;
                    t.postings.push(p);
                    proof {
                        assert(t@.postings =~= before.postings.push(p@));
                    }
                },
                Err(e) => {
                    assert(continues_transaction(lv[i as int]));
                    assert(collect_body(lv, i as nat, filename@, t@) == Err::<(TransactionView, nat), ParseErrorView>(e@));
                    return Err(e);
                },
            }
        }
        i += 1;
    }
    proof {
        if i < lines.len() {
            assert(lv[i as int] == lines@[i as int]@);
        }
    }
    Ok((t, i))
}

/// The view of a list of running totals.
pub open spec fn totals_view(v: Seq<(String, Quantity)>) -> Seq<(Seq<char>, Quantity)> {
    v.map_values(|e: (String, Quantity)| (e.0@, e.1))
}

/// Position of commodity `c`'s running total, if it has one.
fn find_total(totals: &Vec<(String, Quantity)>, c: &String) -> (r: Option<usize>)
    ensures
        match r {
            Some(k) => total_index(totals_view(totals@), c@) == Some(k as nat) && k < totals.len(),
            None => total_index(totals_view(totals@), c@) is None,
        },
{
    let ghost tv = totals_view(totals@);
    let mut k: usize = 0;
    while k < totals.len()
        invariant
            0 <= k <= totals.len(),
            tv == totals_view(totals@),
            total_index_from(tv, c@, 0) == total_index_from(tv, c@, k as nat),
        decreases totals.len() - k,
    {
        if crate::text::strings_equal(&totals[k].0, c) {
            return Some(k);
        }
        k += 1;
    }
    None
}

/// Adds `q` to commodity `c`'s running total when the sum is exact; reports whether it was.
pub(crate) fn add_total_exec(totals: &mut Vec<(String, Quantity)>, c: &String, q: Quantity) -> (r: bool)
    ensures
        r == add_total_fits(totals_view(old(totals)@), c@, q),
        r ==> totals_view(final(totals)@) == add_total(totals_view(old(totals)@), c@, q),
{
    let ghost tv = totals_view(totals@);
    match find_total(totals, c) {
        Some(k) => {
            let cur = totals[k].1;
            let sum = match cur.add_exact(&q) {
                Some(x) => x,
                None => {
                    return false;
                },
            };
            let entry = (totals[k].0.clone(), sum);
            totals.remove(k);
            totals.insert(k, entry);
            proof {
                lemma_total_index_bounds(tv, c@, 0);
                assert(totals_view(totals@) =~= tv.update(k as int, (c@, tv[k as int].1.plus(q))));
            }
            true
        },
        None => {
            totals.push((c.clone(), q));
            assert(totals_view(totals@) =~= tv.push((c@, q)));
            true
        },
    }
}

pub proof fn lemma_totals_fit_prefix(ps: Seq<PostingView>, i: nat)
    requires
        posting_totals_fit(ps),
        i <= ps.len(),
    ensures
        posting_totals_fit(ps.take(i as int)),
    decreases ps.len(),
{
    if i == ps.len() {
        assert(ps.take(i as int) == ps);
    } else {
        lemma_totals_fit_prefix(ps.drop_last(), i);
        assert(ps.drop_last().take(i as int) == ps.take(i as int));
    }
}

/// The view of a balancing result: `None` where the sums do not fit a decimal exactly.
pub open spec fn balance_result_view(r: Option<Result<Transaction, ParseError>>) -> Outcome<
    TransactionView,
> {
    match r {
        Some(Ok(t)) => Outcome::Done(t@),
        Some(Err(e)) => Outcome::Failed(e@),
        None => Outcome::TooLarge,
    }
}

/// Checks a transaction balances per commodity, inferring a single elided amount.
fn balance_transaction(t: Transaction, filename: &str) -> (r: Option<Result<Transaction, ParseError>>)
    ensures
        balance_result_view(r) == balance_spec(t@, filename@),
{
    let ghost ps = t@.postings;
    let line_no = t.source.line;
    if t.postings.len() == 0 {
        return Some(Err(ParseError::new(filename, line_no, "transaction has no postings".to_owned())));
    }
    let mut count: usize = 0;
    let mut i: usize = 0;
    while i < t.postings.len()
        invariant
            0 <= i <= t.postings.len(),
            ps == t@.postings,
            count == elided_count(ps.take(i as int)),
            count <= i,
        decreases t.postings.len() - i,
    {
        assert(ps.take(i + 1).drop_last() == ps.take(i as int));
        assert(ps.take(i + 1).last() == t.postings@[i as int]@);
        if t.postings[i].was_elided {
            count += 1;
        }
        i += 1;
    }
    assert(ps.take(ps.len() as int) == ps);
    if count > 1 {
        return Some(
            Err(
                ParseError::new(
                    filename,
                    line_no,
                    "only one posting per transaction may elide its amount".to_owned(),
                ),
            ),
        );
    }
    let mut totals: Vec<(String, Quantity)> = Vec::new();
    let mut i: usize = 0;
    assert(totals_view(totals@) =~= Seq::<(Seq<char>, Quantity)>::empty());
    while i < t.postings.len()
        invariant
            0 <= i <= t.postings.len(),
            ps == t@.postings,
            ps.len() > 0,
            elided_count(ps) <= 1,
            posting_totals_fit(ps.take(i as int)),
            totals_view(totals@) == posting_totals(ps.take(i as int)),
        decreases t.postings.len() - i,
    {
        proof {
            assert(ps.take(i + 1).drop_last() == ps.take(i as int));
            assert(ps.take(i + 1).last() == t.postings@[i as int]@);
        }
        let p = &t.postings[i];
        if !p.was_elided {
            match &p.amount {
                Some(a) => {
                    if !add_total_exec(&mut totals, &a.commodity, a.quantity) {
                        proof {
                            assert(!posting_totals_fit(ps.take(i + 1)));
                            if posting_totals_fit(ps) {
                                lemma_totals_fit_prefix(ps, (i + 1) as nat);
                            }
                        }
                        return None;
                    }
                },
                None => {},
            }
        }
        i += 1;
    }
    assert(ps.take(ps.len() as int) == ps);
    let ghost tv = totals_view(totals@);
    let mut k: usize = 0;
    while k < t.postings.len() && !t.postings[k].was_elided
        invariant
            0 <= k <= t.postings.len(),
            ps == t@.postings,
            first_elided_from(ps, 0) == first_elided_from(ps, k as nat),
        decreases t.postings.len() - k,
    {
        k += 1;
    }
    if k < t.postings.len() {
        if totals.len() == 0 {
            return Some(
                Err(
                    ParseError::new(
                        filename,
                        line_no,
                        "cannot infer elided posting amount: no other postings to balance against".to_owned(),
                    ),
                ),
            );
        }
        if totals.len() > 1 {
            return Some(
                Err(
                    ParseError::new(
                        filename,
                        line_no,
                        "cannot infer elided posting amount: postings span multiple commodities".to_owned(),
                    ),
                ),
            );
        }
        let fill = Amount { quantity: totals[0].1.neg(), commodity: totals[0].0.clone() };
        let mut t = t;
        let mut p = t.postings.remove(k);
        let ghost old_p = p@;
        p.amount = Some(fill);
        t.postings.insert(k, p);
        proof {
            assert(t@.postings =~= ps.update(
                k as int,
                PostingView {
                    amount: Some(AmountView { quantity: tv[0].1.negated(), commodity: tv[0].0 }),
                    ..old_p
                },
            ));
        }
        Some(Ok(t))
    } else {
        let mut j: usize = 0;
        while j < totals.len() && totals[j].1.is_zero()
            invariant
                0 <= j <= totals.len(),
                tv == totals_view(totals@),
                first_nonzero_from(tv, 0) == first_nonzero_from(tv, j as nat),
            decreases totals.len() - j,
        {
            j += 1;
        }
        if j < totals.len() {
            let mut m = "transaction does not balance: ".to_owned();
            m.append(t.description.as_str());
            m.append(" '");
            m.append(totals[j].0.as_str());
            m.append("' postings sum to ");
            let qt = totals[j].1.to_text();
            m.append(qt.as_str());
            m.append(" instead of 0");
            Some(Err(ParseError::new(filename, line_no, m)))
        } else {
            Some(Ok(t))
        }
    }
}

/// The view of a transaction parse result: `None` where its sums do not fit a decimal exactly.
pub open spec fn txn_result_view(r: Option<Result<(Transaction, usize), ParseError>>) -> Outcome<
    (TransactionView, nat),
> {
    match r {
        Some(Ok((t, j))) => Outcome::Done((t@, j as nat)),
        Some(Err(e)) => Outcome::Failed(e@),
        None => Outcome::TooLarge,
    }
}

/// Parses the transaction whose header is `lines[start]`; returns it with the number of lines
/// consumed (the header and its body).
fn parse_transaction(lines: &Vec<Vec<char>>, start: usize, filename: &str) -> (r: Option<
    Result<(Transaction, usize), ParseError>,
>)
    requires
        start < lines.len(),
    ensures
        txn_result_view(r) == parse_transaction_spec(lines_view(lines@), start as nat, filename@),
        r matches Some(Ok((_, n))) ==> 0 < n && start + n <= lines.len(),
{
    let ghost lv = lines_view(lines@);
    assert(lv[start as int] == lines@[start as int]@);
    let t = match parse_header(&lines[start], filename, start + 1) {
        Ok(t) => t,
        Err(e) => {
            return Some(Err(e));
        },
    };
    let (t2, next) = match collect_body_exec(lines, start + 1, filename, t) {
        Ok(x) => x,
        Err(e) => {
            return Some(Err(e));
        },
    };
    proof {
        lemma_collect_body_progress(lv, (start + 1) as nat, filename@, t@);
    }
    match balance_transaction(t2, filename) {
        Some(Ok(t3)) => Some(Ok((t3, next - start))),
        Some(Err(e)) => Some(Err(e)),
        None => None,
    }
}

/// An `include PATH` directive, with the path as written.
#[derive(Debug)]
pub struct IncludeDirective {
    /// The path exactly as written after `include`.
    pub path: String,
    /// Where the directive appeared.
    pub source: SourcePos,
}

impl View for IncludeDirective {
    type V = IncludeView;

    open spec fn view(&self) -> IncludeView {
        IncludeView { path: self.path@, source: self.source@ }
    }
}

/// One journal file's transactions and `include` directives, in source order.
#[derive(Debug)]
pub struct ParsedJournal {
    /// The transactions, in source order.
    pub transactions: Vec<Transaction>,
    /// The `include` directives, in source order.
    pub includes: Vec<IncludeDirective>,
}

impl View for ParsedJournal {
    type V = ParsedView;

    open spec fn view(&self) -> ParsedView {
        ParsedView {
            transactions: crate::model::transactions_view(self.transactions@),
            includes: self.includes@.map_values(|i: IncludeDirective| i@),
        }
    }
}

/// The view of a journal parse result.
pub open spec fn journal_result_view(r: Result<ParsedJournal, ParseError>) -> Outcome<ParsedView> {
    match r {
        Ok(p) => Outcome::Done(p@),
        Err(e) => Outcome::Failed(e@),
    }
}

/// Whether the journal text's amounts stay within exact decimal arithmetic.
pub open spec fn journal_fits(content: Seq<char>, filename: Seq<char>) -> bool {
    !(parse_journal_spec(content, filename) is TooLarge)
}

/// The view of a checked journal parse: `None` where some transaction's sums do not fit a
/// decimal exactly.
pub open spec fn checked_result_view(r: Option<Result<ParsedJournal, ParseError>>) -> Outcome<
    ParsedView,
> {
    match r {
        Some(Ok(p)) => Outcome::Done(p@),
        Some(Err(e)) => Outcome::Failed(e@),
        None => Outcome::TooLarge,
    }
}

/// Parses one journal file's text, or gives `None` where a transaction's amounts sum beyond
/// what a decimal holds exactly (where `Decimal` addition would overflow).
pub fn parse_journal(content: &str, filename: &str) -> (r: Option<Result<ParsedJournal, ParseError>>)
    ensures
        checked_result_view(r) == parse_journal_spec(content@, filename@),
{
    let chars = str_chars(content);
    let lines = split_lines(&chars);
    let ghost lv = lines_view(lines@);
    let ghost goal = parse_journal_spec(content@, filename@);
    let mut result = ParsedJournal { transactions: Vec::new(), includes: Vec::new() };
    proof {
        assert(result@.transactions =~= Seq::<TransactionView>::empty());
        assert(result@.includes =~= Seq::<IncludeView>::empty());
    }
    let mut i: usize = 0;
    while i < lines.len()
        invariant
            0 <= i <= lines.len(),
            lv == lines_view(lines@),
            goal == parse_journal_spec(content@, filename@),
            parse_lines(lv, i as nat, filename@, result@) == goal,
        decreases lines.len() - i,
    {
        let raw = &lines[i];
        assert(lv[i as int] == raw@);
        let t = trimmed(raw);
        if t.len() == 0 {
            i += 1;
        } else if is_indented_exec(raw) {
            return Some(
                Err(
                    ParseError::new(
                        filename,
                        i + 1,
                        "indented line with no preceding transaction header".to_owned(),
                    ),
                ),
            );
        } else if is_comment_exec(&t) {
            i += 1;
        } else {
            match strip_directive(&t, "include") {
                Some(rest) => {
                    let inc = IncludeDirective {
                        path: string_of_all(&trimmed(&rest)),
                        source: SourcePos { file: filename.to_owned(), line: i + 1 },
                    };
                    let ghost before = result@;
                    result.includes.push(inc);
                    proof {
                        assert(result@.includes =~= before.includes.push(inc@));
                        assert(result@ == ParsedView { includes: before.includes.push(inc@), ..before });
                    }
                    i += 1;
                },
                None => {
                    if strip_directive(&t, "account").is_some() || strip_directive(
                        &t,
                        "commodity",
                    ).is_some() || strip_directive(&t, "year").is_some()
                        || strip_directive(&t, "Y").is_some() {
                        i += 1;
                    } else {
                        let is_date = match first_token_exec(&t) {
                            Some(tok) => try_parse_date_token(&tok).is_some(),
                            None => false,
                        };
                        if is_date {
                            match parse_transaction(&lines, i, filename) {
                                Some(Ok((txn, consumed))) => {
                                    let ghost before = result@;
                                    result.transactions.push(txn);
                                    proof {
                                        assert(result@.transactions =~= before.transactions.push(txn@));
                                        assert(result@ == ParsedView {
                                            transactions: before.transactions.push(txn@),
                                            ..before
                                        });
                                    }
                                    i = i + consumed;
                                },
                                Some(Err(e)) => {
                                    return Some(Err(e));
                                },
                                None => {
                                    return None;
                                },
                            }
                        } else {
                            let mut m = "unrecognized directive or transaction line: '".to_owned();
                            m.append(string_of_all(&t).as_str());
                            m.append("'");
                            return Some(Err(ParseError::new(filename, i + 1, m)));
                        }
                    }
                },
            }
        }
    }
    Some(Ok(result))
}

/// Parses one journal file's text; `filename` is used only for positions and errors. Every
/// transaction returned balances: it has postings, at most one of them elided its amount (which
/// is then inferred), every posting carries an amount, and in every commodity the postings sum
/// to zero.
pub fn parse_str(content: &str, filename: &str) -> (r: Result<ParsedJournal, ParseError>)
    requires
        journal_fits(content@, filename@),
    ensures
        journal_result_view(r) == parse_journal_spec(content@, filename@),
        r matches Ok(pj) ==> crate::balance::all_balanced(pj@.transactions),
        r matches Ok(pj) ==> forall|k: int|
            0 <= k < pj@.transactions.len() ==> crate::balance::txn_shaped(
                #[trigger] pj@.transactions[k],
            ),
{
    proof {
        crate::balance::lemma_parsed_transactions_balance(content@, filename@);
        crate::balance::law_parsed_transactions_shaped(content@, filename@);
    }
    match parse_journal(content, filename) {
        Some(r) => r,
        None => {
            proof {
                assert(false);
            }
            Err(ParseError::new(filename, 0, String::new()))
        },
    }
}


/// Whether every character of `s` is an ASCII digit.
pub open spec fn digits_only(s: Seq<char>) -> bool {
    forall|i: int| 0 <= i < s.len() ==> is_digit(#[trigger] s[i])
}

proof fn lemma_keep_digits_of_digits(s: Seq<char>)
    requires
        digits_only(s),
    ensures
        keep_digits(s) == s,
    decreases s.len(),
{
    if s.len() > 0 {
        assert(is_digit(s[s.len() - 1]));
        let r = s.drop_last();
        assert forall|i: int| 0 <= i < r.len() implies is_digit(#[trigger] r[i]) by {
            assert(r[i] == s[i]);
        }
        lemma_keep_digits_of_digits(r);
        assert(r.push(s.last()) =~= s);
    }
}

proof fn lemma_keep_digits_concat(a: Seq<char>, b: Seq<char>)
    ensures
        keep_digits(a + b) == keep_digits(a) + keep_digits(b),
    decreases b.len(),
{
    if b.len() == 0 {
        assert(a + b =~= a);
        assert(keep_digits(a) + keep_digits(b) =~= keep_digits(a));
    } else {
        lemma_keep_digits_concat(a, b.drop_last());
        assert((a + b).drop_last() =~= a + b.drop_last());
        assert((a + b).last() == b.last());
        if is_digit(b.last()) {
            assert(keep_digits(a) + keep_digits(b.drop_last()).push(b.last()) =~= (keep_digits(a)
                + keep_digits(b.drop_last())).push(b.last()));
        }
    }
}

proof fn lemma_last_sep_past_digits(s: Seq<char>, upto: nat, k: nat)
    requires
        k <= upto <= s.len(),
        forall|i: int| k <= i < upto ==> is_digit(#[trigger] s[i]),
    ensures
        last_sep_before(s, upto) == last_sep_before(s, k),
    decreases upto,
{
    if upto > k {
        assert(is_digit(s[upto - 1]));
        lemma_last_sep_past_digits(s, (upto - 1) as nat, k);
    }
}

/// The decimal mark is the rightmost `.` or `,`, whichever it is: a numeral of digits `x`, one
/// separator and digits `y` reads as `x.y` (`0.y` when `x` is empty), so `100,50` is `100.50`
/// just as `100.50` is.
pub proof fn law_decimal_mark(x: Seq<char>, sep: char, y: Seq<char>)
    requires
        digits_only(x),
        digits_only(y),
        y.len() > 0,
        sep == '.' || sep == ',',
    ensures
        normalize_numeral_spec(x + seq![sep] + y) == (if x.len() == 0 {
            seq!['0']
        } else {
            x
        }) + seq!['.'] + y,
{
    let raw = x + seq![sep] + y;
    let k = x.len();
    assert forall|i: int| k + 1 <= i < raw.len() implies is_digit(#[trigger] raw[i]) by {
        assert(raw[i] == y[i - k - 1]);
    }
    lemma_last_sep_past_digits(raw, raw.len(), k + 1);
    assert(last_sep_before(raw, k + 1) == Some(k));
    assert(raw.take(k as int) =~= x);
    assert(raw.skip(k + 1int) =~= y);
    lemma_keep_digits_of_digits(x);
    lemma_keep_digits_of_digits(y);
}

/// Separators before the decimal mark group thousands and are dropped: digits `x1`, a
/// separator, digits `x2`, the decimal mark and digits `y` read as `x1x2.y`, so `1.234,56` is
/// `1234.56` and `1,234.56` is too.
pub proof fn law_grouping_separators_dropped(x1: Seq<char>, s1: char, x2: Seq<char>, sep: char, y: Seq<char>)
    requires
        digits_only(x1),
        digits_only(x2),
        digits_only(y),
        x1.len() + x2.len() > 0,
        y.len() > 0,
        s1 == '.' || s1 == ',',
        sep == '.' || sep == ',',
    ensures
        normalize_numeral_spec(x1 + seq![s1] + x2 + seq![sep] + y) == x1 + x2 + seq!['.'] + y,
{
    let head = x1 + seq![s1] + x2;
    let raw = head + seq![sep] + y;
    assert(raw =~= x1 + seq![s1] + x2 + seq![sep] + y);
    let k = head.len();
    assert forall|i: int| k + 1 <= i < raw.len() implies is_digit(#[trigger] raw[i]) by {
        assert(raw[i] == y[i - k - 1]);
    }
    lemma_last_sep_past_digits(raw, raw.len(), k + 1);
    assert(last_sep_before(raw, k + 1) == Some(k));
    assert(raw.take(k as int) =~= head);
    assert(raw.skip(k + 1int) =~= y);
    lemma_keep_digits_concat(x1 + seq![s1], x2);
    lemma_keep_digits_concat(x1, seq![s1]);
    assert(seq![s1].drop_last() =~= Seq::<char>::empty());
    assert(seq![s1].last() == s1);
    assert(!is_digit(s1));
    assert(keep_digits(Seq::<char>::empty()) =~= Seq::<char>::empty());
    assert(keep_digits(seq![s1]) =~= Seq::<char>::empty());
    lemma_keep_digits_of_digits(x1);
    lemma_keep_digits_of_digits(x2);
    lemma_keep_digits_of_digits(y);
    assert(keep_digits(head) =~= x1 + x2);
}

proof fn lemma_numeral_end_at(s: Seq<char>, from: nat, k: nat)
    requires
        from <= k < s.len(),
        forall|i: int| from <= i < k ==> is_numeral_char(#[trigger] s[i]),
        !is_numeral_char(s[k as int]),
    ensures
        numeral_end(s, from) == k,
    decreases k - from,
{
    if from < k {
        assert(is_numeral_char(s[from as int]));
        lemma_numeral_end_at(s, from + 1, k);
    }
}

/// An amount written with `,` as its decimal mark reads as one written with `.`: for digits
/// `x` and `y`, the amount `x,y C` (or `x.y C`) with commodity `C` is the quantity that `x.y`
/// parses to, in `C`.
pub proof fn law_amount_decimal_mark(x: Seq<char>, sep: char, y: Seq<char>, c: Seq<char>)
    requires
        digits_only(x),
        digits_only(y),
        x.len() > 0,
        y.len() > 0,
        sep == '.' || sep == ',',
        c.len() > 0,
        forall|i: int| 0 <= i < c.len() ==> !is_ws(#[trigger] c[i]),
        !is_numeral_char(c[0]),
    ensures
        parse_quantity_spec(x + seq!['.'] + y) matches Ok(q) ==> parse_amount_spec(
            x + seq![sep] + y + seq![' '] + c,
        ) == Ok::<AmountView, Seq<char>>(AmountView { quantity: q, commodity: c }),
{
    let num = x + seq![sep] + y;
    let s = num + seq![' '] + c;
    let k = num.len();
    assert(is_digit(x[0]));
    assert(s[0] == x[0]);
    assert(!is_ws(s[0]));
    assert(trim_start(s) == s);
    assert(s.last() == c[c.len() - 1]);
    assert(!is_ws(c[c.len() - 1]));
    assert(trim(s) == s);
    assert(digit_from(s, 0) == Some(0nat));
    assert(s.take(0) =~= Seq::<char>::empty());
    assert(!Seq::<char>::empty().contains('-'));
    assert(drop_signs(Seq::<char>::empty()) =~= Seq::<char>::empty());
    assert(trim(Seq::<char>::empty()) =~= Seq::<char>::empty());
    assert forall|i: int| 0 <= i < k implies is_numeral_char(#[trigger] s[i]) by {
        if i < x.len() {
            assert(s[i] == x[i]);
            assert(is_digit(x[i]));
        } else if i > x.len() {
            assert(s[i] == y[i - x.len() - 1]);
            assert(is_digit(y[i - x.len() - 1]));
        }
    }
    assert(s[k as int] == ' ');
    lemma_numeral_end_at(s, 0, k);
    assert(s.subrange(0, k as int) =~= num);
    law_decimal_mark(x, sep, y);
    let rest = s.skip(k as int);
    assert(rest =~= seq![' '] + c);
    assert(rest.drop_first() =~= c);
    assert(is_ws(' '));
    assert(!is_ws(c[0]));
    assert(rest[0] == ' ');
    assert(trim_start(c) == c);
    assert(trim_start(rest) == trim_start(rest.drop_first()));
    assert(trim_start(rest) == c);
    assert(trim(rest) == c);
}

/// A numeral with no separator is an integer and stays as written.
pub proof fn law_plain_numeral_unchanged(x: Seq<char>)
    requires
        digits_only(x),
    ensures
        normalize_numeral_spec(x) == x,
{
    lemma_last_sep_past_digits(x, x.len(), 0);
}

/// A decimal mark with no digits after it leaves the integer: digits `x` then `.` or `,`
/// read as `x` (`0` when `x` is empty).
pub proof fn law_bare_mark_is_integer(x: Seq<char>, sep: char)
    requires
        digits_only(x),
        sep == '.' || sep == ',',
    ensures
        normalize_numeral_spec(x + seq![sep]) == if x.len() == 0 {
            seq!['0']
        } else {
            x
        },
{
    let raw = x + seq![sep];
    let k = x.len();
    assert(last_sep_before(raw, k + 1) == Some(k));
    assert(raw.take(k as int) =~= x);
    assert(raw.skip(k + 1int) =~= Seq::<char>::empty());
    lemma_keep_digits_of_digits(x);
}

} // verus!
