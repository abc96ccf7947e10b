//! Period expressions: `2024`, `2024-01` or `2024-01-15`, or `TERM to TERM`, optionally after
//! `from`, expanded into the date range they denote.
use crate::account_types::{is_word, lower, lowered};
use crate::date::{valid_ymd, Date, MAX_YEAR};
use crate::date_range::DateRange;
use crate::layout::{nat_text, usize_text};
use crate::model::{join_with, split_at_char};
use crate::parser::{
    is_digit, lines_view, parse_date_str, parse_date_str_spec, split_vec, token_len,
};
use crate::text::{is_whitespace, is_ws, str_chars, string_of_all};
use vstd::prelude::*;

verus! {

broadcast use vstd::string::group_string_axioms;

// ---------------------------------------------------------------------------------------------
// Numbers.
// ---------------------------------------------------------------------------------------------

/// Whether every character is an ASCII digit.
pub open spec fn all_digits(s: Seq<char>) -> bool {
    forall|i: int| 0 <= i < s.len() ==> is_digit(#[trigger] s[i])
}

/// The value of a string of decimal digits.
pub open spec fn digits_value(s: Seq<char>) -> nat
    decreases s.len(),
{
    if s.len() == 0 {
        0
    } else {
        digits_value(s.drop_last()) * 10 + (s.last() as nat - '0' as nat) as nat
    }
}

/// What `u32::from_str` yields: an optional `+` then one or more digits whose value fits.
pub open spec fn parse_u32_spec(s: Seq<char>) -> Option<u32> {
    let body = if s.len() > 0 && s[0] == '+' {
        s.drop_first()
    } else {
        s
    };
    if body.len() > 0 && all_digits(body) && digits_value(body) <= u32::MAX {
        Some(digits_value(body) as u32)
    } else {
        None
    }
}

/// What `i32::from_str` yields: an optional `+` or `-` then one or more digits whose signed
/// value fits.
pub open spec fn parse_i32_spec(s: Seq<char>) -> Option<i32> {
    let neg = s.len() > 0 && s[0] == '-';
    let body = if s.len() > 0 && (s[0] == '+' || s[0] == '-') {
        s.drop_first()
    } else {
        s
    };
    let v: int = if neg {
        -digits_value(body)
    } else {
        digits_value(body) as int
    };
    if body.len() > 0 && all_digits(body) && i32::MIN <= v <= i32::MAX {
        Some(v as i32)
    } else {
        None
    }
}

/// The decimal numeral of a signed integer (`{}` on an `i32`).
pub open spec fn int_text(v: int) -> Seq<char> {
    if v < 0 {
        "-"@ + nat_text((-v) as nat)
    } else {
        nat_text(v as nat)
    }
}

proof fn lemma_digits_value_grows(s: Seq<char>)
    requires
        s.len() > 0,
        all_digits(s),
    ensures
        digits_value(s) >= digits_value(s.drop_last()),
{
}

/// The magnitude after a sign: digits only, and whether their value exceeds `limit`.
fn read_digits(v: &Vec<char>, from: usize, limit: u64) -> (r: Option<(bool, u64)>)
    requires
        from <= v.len(),
        limit <= u32::MAX + 1,
    ensures
        match r {
            Some((over, val)) => all_digits(v@.skip(from as int)) && (over <==> digits_value(
                v@.skip(from as int),
            ) > limit) && (!over ==> val == digits_value(v@.skip(from as int))),
            None => !all_digits(v@.skip(from as int)),
        },
{
    let ghost body = v@.skip(from as int);
    let mut over = false;
    let mut val: u64 = 0;
    let mut i = from;
    assert(body.take(0) =~= Seq::<char>::empty());
    while i < v.len()
        invariant
            from <= i <= v.len(),
            body == v@.skip(from as int),
            limit <= u32::MAX + 1,
            all_digits(body.take(i - from)),
            over <==> digits_value(body.take(i - from)) > limit,
            !over ==> val == digits_value(body.take(i - from)) && val <= limit,
        decreases v.len() - i,
    {
        let c = v[i];
        proof {
            assert(body[i - from] == c);
            assert(body.take(i - from + 1).drop_last() =~= body.take(i - from));
            assert(body.take(i - from + 1).last() == c);
        }
        if !('0' <= c && c <= '9') {
            proof {
                assert(!is_digit(body[i - from]));
            }
            return None;
        }
        proof {
            assert(all_digits(body.take(i - from + 1))) by {
                assert forall|k: int| 0 <= k < body.take(i - from + 1).len() implies is_digit(
                    #[trigger] body.take(i - from + 1)[k],
                ) by {
                    if k < i - from {
                        assert(body.take(i - from + 1)[k] == body.take(i - from)[k]);
                    }
                }
            }
            lemma_digits_value_grows(body.take(i - from + 1));
        }
        if !over {
            let d: u64 = (c as u32 - '0' as u32) as u64;
            val = val * 10 + d;
            if val > limit {
                over = true;
            }
        }
        i += 1;
    }
    assert(body.take(v.len() - from) =~= body);
    Some((over, val))
}

/// Parses an unsigned integer as `u32::from_str` does.
pub fn parse_u32(s: &str) -> (r: Option<u32>)
    ensures
        r == parse_u32_spec(s@),
{
    let v = str_chars(s);
    let from: usize = if v.len() > 0 && v[0] == '+' {
        1
    } else {
        0
    };
    assert(v@.skip(from as int) =~= if v@.len() > 0 && v@[0] == '+' {
        v@.drop_first()
    } else {
        v@
    });
    if from == v.len() {
        return None;
    }
    match read_digits(&v, from, 4294967295) {
        Some((over, val)) => {
            if over {
                None
            } else {
                Some(val as u32)
            }
        },
        None => None,
    }
}

/// Parses a signed integer as `i32::from_str` does.
pub fn parse_i32(s: &str) -> (r: Option<i32>)
    ensures
        r == parse_i32_spec(s@),
{
    let v = str_chars(s);
    let neg = v.len() > 0 && v[0] == '-';
    let from: usize = if v.len() > 0 && (v[0] == '+' || v[0] == '-') {
        1
    } else {
        0
    };
    assert(v@.skip(from as int) =~= if v@.len() > 0 && (v@[0] == '+' || v@[0] == '-') {
        v@.drop_first()
    } else {
        v@
    });
    if from == v.len() {
        return None;
    }
    let limit: u64 = if neg {
        2147483648
    } else {
        2147483647
    };
    match read_digits(&v, from, limit) {
        Some((over, val)) => {
            if over {
                None
            } else if neg {
                if val == 2147483648 {
                    Some(-2147483648i32)
                } else {
                    Some(-(val as i32))
                }
            } else {
                Some(val as i32)
            }
        },
        None => None,
    }
}

/// The decimal numeral of `v`.
pub fn i32_text(v: i32) -> (r: String)
    ensures
        r@ == int_text(v as int),
{
    if v < 0 {
        let mut s = "-".to_owned();
        let m: u32 = if v == -2147483648i32 {
            2147483648u32
        } else {
            (-v) as u32
        };
        let t = usize_text(m as usize);
        s.append(t.as_str());
        s
    } else {
        usize_text(v as usize)
    }
}

/// The decimal numeral of `v`.
pub fn u32_text(v: u32) -> (r: String)
    ensures
        r@ == nat_text(v as nat),
{
    usize_text(v as usize)
}

// ---------------------------------------------------------------------------------------------
// Terms.
// ---------------------------------------------------------------------------------------------

/// Whether `s` is four ASCII digits.
pub open spec fn is_year_spec(s: Seq<char>) -> bool {
    s.len() == 4 && all_digits(s)
}

/// The year of a year term, or the error.
pub open spec fn parse_year_spec(s: Seq<char>) -> Result<i32, Seq<char>> {
    match parse_i32_spec(s) {
        Some(y) => Ok(y),
        None => Err("invalid year '"@ + s + "'"@),
    }
}

/// The month of a month term, or the error naming the whole term.
pub open spec fn parse_month_spec(s: Seq<char>, token: Seq<char>) -> Result<u32, Seq<char>> {
    match parse_u32_spec(s) {
        Some(m) => Ok(m),
        None => Err("invalid month in '"@ + token + "'"@),
    }
}

/// The whole year `y`: from its first day to the next year's first day.
pub open spec fn year_range_spec(y: i32) -> Result<(Date, Date), Seq<char>> {
    if !valid_ymd(y as int, 1, 1) {
        Err("year "@ + int_text(y as int) + " out of range"@)
    } else if !valid_ymd(y + 1, 1, 1) {
        Err("year "@ + int_text(y + 1) + " out of range"@)
    } else {
        Ok((Date::at(y as int, 1, 1), Date::at(y + 1, 1, 1)))
    }
}

/// The whole month `m` of year `y`: from its first day to the next month's first day.
pub open spec fn month_range_spec(y: i32, m: u32) -> Result<(Date, Date), Seq<char>> {
    let (ey, em) = if m == 12 {
        (y + 1, 1int)
    } else {
        (y as int, m + 1)
    };
    if !valid_ymd(y as int, m as int, 1) {
        Err("invalid month "@ + nat_text(m as nat) + " in year "@ + int_text(y as int))
    } else if !valid_ymd(ey, em, 1) {
        Err("invalid month "@ + nat_text(em as nat) + " in year "@ + int_text(ey))
    } else {
        Ok((Date::at(y as int, m as int, 1), Date::at(ey, em, 1)))
    }
}

/// The single day `d`: from it to the next day (to itself after the last representable day).
pub open spec fn day_range_spec(d: Date) -> (Date, Date) {
    match crate::date::next_ymd(d.ymd().0, d.ymd().1, d.ymd().2) {
        Some(t) => (d, Date::at(t.0, t.1, t.2)),
        None => (d, d),
    }
}

/// `s` with `/` and `.` written as `-`.
pub open spec fn dashes(s: Seq<char>) -> Seq<char> {
    s.map_values(|c: char| if c == '/' || c == '.' { '-' } else { c })
}

/// The pieces of `s` between the separators `-`, `/` and `.`.
pub open spec fn term_pieces(s: Seq<char>) -> Seq<Seq<char>> {
    split_at_char(dashes(s), '-')
}

/// The message for a term of no recognized shape.
pub open spec fn bad_term(token: Seq<char>) -> Seq<char> {
    "invalid period term '"@ + token + "': expected YYYY, YYYY-MM, or YYYY-MM-DD"@
}

/// The range a period term denotes: a date is that day, `YYYY` that year, `YYYY-MM` that
/// month.
pub open spec fn term_spec(token: Seq<char>) -> Result<(Date, Date), Seq<char>> {
    match parse_date_str_spec(token) {
        Some(d) => Ok(day_range_spec(d)),
        None => {
            let parts = term_pieces(token);
            if parts.len() == 1 && is_year_spec(parts[0]) {
                match parse_year_spec(parts[0]) {
                    Ok(y) => year_range_spec(y),
                    Err(e) => Err(e),
                }
            } else if parts.len() == 2 && is_year_spec(parts[0]) {
                match parse_year_spec(parts[0]) {
                    Ok(y) => match parse_month_spec(parts[1], token) {
                        Ok(m) => month_range_spec(y, m),
                        Err(e) => Err(e),
                    },
                    Err(e) => Err(e),
                }
            } else {
                Err(bad_term(token))
            }
        },
    }
}

/// True if `s` is four ASCII digits.
pub fn is_year(s: &str) -> (r: bool)
    ensures
        r == is_year_spec(s@),
{
    let v = str_chars(s);
    if v.len() != 4 {
        return false;
    }
    let mut i: usize = 0;
    while i < 4
        invariant
            0 <= i <= 4,
            v.len() == 4,
            v@ == s@,
            forall|k: int| 0 <= k < i ==> is_digit(#[trigger] v@[k]),
        decreases 4 - i,
    {
        if !('0' <= v[i] && v[i] <= '9') {
            return false;
        }
        i += 1;
    }
    true
}

/// The year a year term names.
pub fn parse_year(s: &str) -> (r: Result<i32, String>)
    ensures
        match r {
            Ok(y) => parse_year_spec(s@) == Ok::<i32, Seq<char>>(y),
            Err(e) => parse_year_spec(s@) == Err::<i32, Seq<char>>(e@),
        },
{
    match parse_i32(s) {
        Some(y) => Ok(y),
        None => {
            let mut m = "invalid year '".to_owned();
            m.append(s);
            m.append("'");
            Err(m)
        },
    }
}

/// The month a month term names; the error names the whole `token`.
pub fn parse_month(s: &str, token: &str) -> (r: Result<u32, String>)
    ensures
        match r {
            Ok(m) => parse_month_spec(s@, token@) == Ok::<u32, Seq<char>>(m),
            Err(e) => parse_month_spec(s@, token@) == Err::<u32, Seq<char>>(e@),
        },
{
    match parse_u32(s) {
        Some(m) => Ok(m),
        None => {
            let mut e = "invalid month in '".to_owned();
            e.append(token);
            e.append("'");
            Err(e)
        },
    }
}

/// The view of a range result.
pub open spec fn range_result(r: Result<(Date, Date), String>) -> Result<(Date, Date), Seq<char>> {
    match r {
        Ok(p) => Ok(p),
        Err(e) => Err(e@),
    }
}

fn year_error(y: i32) -> (r: String)
    ensures
        r@ == "year "@ + int_text(y as int) + " out of range"@,
{
    let mut e = "year ".to_owned();
    let t = i32_text(y);
    e.append(t.as_str());
    e.append(" out of range");
    e
}

fn month_error(m: u32, y: i32) -> (r: String)
    ensures
        r@ == "invalid month "@ + nat_text(m as nat) + " in year "@ + int_text(y as int),
{
    let mut e = "invalid month ".to_owned();
    let t = u32_text(m);
    e.append(t.as_str());
    e.append(" in year ");
    let u = i32_text(y);
    e.append(u.as_str());
    e
}

/// The whole year `year`.
pub fn year_range(year: i32) -> (r: Result<(Date, Date), String>)
    requires
        year < i32::MAX,
    ensures
        range_result(r) == year_range_spec(year),
{
    let start = match Date::from_ymd_opt(year, 1, 1) {
        Some(d) => d,
        None => {
            return Err(year_error(year));
        },
    };
    let end = match Date::from_ymd_opt(year + 1, 1, 1) {
        Some(d) => d,
        None => {
            return Err(year_error(year + 1));
        },
    };
    Ok((start, end))
}

/// The whole month `month` of year `year`.
pub fn month_range(year: i32, month: u32) -> (r: Result<(Date, Date), String>)
    ensures
        range_result(r) == month_range_spec(year, month),
{
    let start = match Date::from_ymd_opt(year, month, 1) {
        Some(d) => d,
        None => {
            return Err(month_error(month, year));
        },
    };
    assert(year <= MAX_YEAR && month <= 12);
    let (end_year, end_month) = if month == 12 {
        (year + 1, 1u32)
    } else {
        (year, month + 1)
    };
    let end = match Date::from_ymd_opt(end_year, end_month, 1) {
        Some(d) => d,
        None => {
            return Err(month_error(end_month, end_year));
        },
    };
    Ok((start, end))
}

/// The single day `date`, up to the next day.
pub fn day_range(date: Date) -> (r: (Date, Date))
    ensures
        r == day_range_spec(date),
{
    let end = match date.succ_opt() {
        Some(n) => n,
        None => date,
    };
    (date, end)
}

/// The range a period term denotes.
pub fn parse_term(token: &str) -> (r: Result<(Date, Date), String>)
    ensures
        range_result(r) == term_spec(token@),
{
    if let Some(date) = parse_date_str(token) {
        return Ok(day_range(date));
    }
    let chars = str_chars(token);
    let mut mapped: Vec<char> = Vec::new();
    let mut i: usize = 0;
    while i < chars.len()
        invariant
            0 <= i <= chars.len(),
            chars@ == token@,
            mapped@ == dashes(chars@.take(i as int)),
        decreases chars.len() - i,
    {
        let c = chars[i];
        mapped.push(
            if c == '/' || c == '.' {
                '-'
            } else {
                c
            },
        );
        assert(dashes(chars@.take(i + 1)) =~= dashes(chars@.take(i as int)).push(
            if c == '/' || c == '.' {
                '-'
            } else {
                c
            },
        ));
        i += 1;
    }
    assert(chars@.take(chars.len() as int) =~= chars@);
    let parts = split_vec(&mapped, '-');
    let ghost pv = lines_view(parts@);
    assert(pv == term_pieces(token@));
    if parts.len() == 1 || parts.len() == 2 {
        assert(pv[0] == parts@[0]@);
        let y = string_of_all(&parts[0]);
        if is_year(y.as_str()) {
            proof {
                assert(y@.len() == 4);
            }
            let year = match parse_year(y.as_str()) {
                Ok(v) => v,
                Err(e) => {
                    return Err(e);
                },
            };
            if parts.len() == 1 {
                if year == i32::MAX {
                    proof {
                        assert(!valid_ymd(year as int, 1, 1));
                    }
                    return Err(year_error(year));
                }
                return year_range(year);
            }
            assert(pv[1] == parts@[1]@);
            let m = string_of_all(&parts[1]);
            let month = match parse_month(m.as_str(), token) {
                Ok(v) => v,
                Err(e) => {
                    return Err(e);
                },
            };
            return month_range(year, month);
        }
    }
    let mut e = "invalid period term '".to_owned();
    e.append(token);
    e.append("': expected YYYY, YYYY-MM, or YYYY-MM-DD");
    Err(e)
}

// ---------------------------------------------------------------------------------------------
// Period expressions.
// ---------------------------------------------------------------------------------------------

pub proof fn lemma_token_len_bounds(t: Seq<char>)
    ensures
        token_len(t) <= t.len(),
        t.len() > 0 && !is_ws(t[0]) ==> token_len(t) >= 1,
    decreases t.len(),
{
    if t.len() > 0 && !is_ws(t[0]) {
        lemma_token_len_bounds(t.drop_first());
    }
}

/// The whitespace-separated words of `s` from position `i` on (`split_whitespace`).
pub open spec fn words_from(s: Seq<char>, i: nat) -> Seq<Seq<char>>
    decreases s.len() - i,
{
    if i >= s.len() {
        Seq::empty()
    } else if is_ws(s[i as int]) {
        words_from(s, i + 1)
    } else {
        let n = token_len(s.skip(i as int));
        proof {
            assert(s.skip(i as int)[0] == s[i as int]);
            lemma_token_len_bounds(s.skip(i as int));
        }
        seq![s.subrange(i as int, (i + n) as int)] + words_from(s, i + n)
    }
}

/// The whitespace-separated words of `s`.
pub open spec fn words(s: Seq<char>) -> Seq<Seq<char>> {
    words_from(s, 0)
}

/// The words, without a first `from` (in any ASCII case).
pub open spec fn without_from(ws: Seq<Seq<char>>) -> Seq<Seq<char>> {
    if ws.len() > 0 && lower(ws[0]) == "from"@ {
        ws.drop_first()
    } else {
        ws
    }
}

/// Index of the first word `to` (in any ASCII case) from `i` on.
pub open spec fn to_index_from(ws: Seq<Seq<char>>, i: nat) -> Option<nat>
    decreases ws.len() - i,
{
    if i >= ws.len() {
        None
    } else if lower(ws[i as int]) == "to"@ {
        Some(i)
    } else {
        to_index_from(ws, i + 1)
    }
}

/// The range a period expression denotes: `[from] TERM` is the term's own range, `[from] TERM
/// to TERM` runs from the start of the first term's range to the end of the second's.
pub open spec fn period_spec(input: Seq<char>) -> Result<DateRange, Seq<char>> {
    let ws = without_from(words(input));
    if ws.len() == 0 {
        Err("empty period expression"@)
    } else {
        match to_index_from(ws, 0) {
            None => match term_spec(join_with(ws, ' ')) {
                Ok((s, e)) => Ok(DateRange { since: Some(s), until: Some(e) }),
                Err(m) => Err(m),
            },
            Some(pos) => {
                let left = join_with(ws.take(pos as int), ' ');
                let right = join_with(ws.skip((pos + 1) as int), ' ');
                if left.len() == 0 || right.len() == 0 {
                    Err(
                        "invalid period range '"@ + input
                            + "': expected '<TERM> to <TERM>'"@,
                    )
                } else {
                    match term_spec(left) {
                        Err(m) => Err(m),
                        Ok((s, _)) => match term_spec(right) {
                            Err(m) => Err(m),
                            Ok((_, e)) => Ok(DateRange { since: Some(s), until: Some(e) }),
                        },
                    }
                }
            },
        }
    }
}

proof fn lemma_token_len_at(s: Seq<char>, i: int, j: int)
    requires
        0 <= i <= j <= s.len(),
        forall|k: int| i <= k < j ==> !is_ws(#[trigger] s[k]),
        j == s.len() || is_ws(s[j]),
    ensures
        token_len(s.skip(i)) == j - i,
    decreases j - i,
{
    if i < j {
        lemma_token_len_at(s, i + 1, j);
        assert(s.skip(i).drop_first() =~= s.skip(i + 1));
        assert(s.skip(i)[0] == s[i]);
    } else {
        if j < s.len() {
            assert(s.skip(i)[0] == s[j]);
        }
    }
}

/// The whitespace-separated words of `v`.
fn split_words(v: &Vec<char>) -> (r: Vec<Vec<char>>)
    ensures
        lines_view(r@) == words(v@),
{
    let mut out: Vec<Vec<char>> = Vec::new();
    let mut i: usize = 0;
    assert(lines_view(out@) + words_from(v@, 0) =~= words(v@));
    while i < v.len()
        invariant
            0 <= i <= v.len(),
            lines_view(out@) + words_from(v@, i as nat) == words(v@),
        decreases v.len() - i,
    {
        if is_whitespace(v[i]) {
            i += 1;
        } else {
            let mut j = i + 1;
            while j < v.len() && !is_whitespace(v[j])
                invariant
                    i < j <= v.len(),
                    forall|k: int| i <= k < j ==> !is_ws(#[trigger] v@[k]),
                decreases v.len() - j,
            {
                j += 1;
            }
            proof {
                lemma_token_len_at(v@, i as int, j as int);
            }
            let word = crate::text::slice_chars(v, i, j);
            let ghost before = lines_view(out@);
            out.push(word);
            assert(lines_view(out@) =~= before.push(word@));
            assert(before.push(word@) + words_from(v@, j as nat) =~= before + (seq![word@]
                + words_from(v@, j as nat)));
            i = j;
        }
    }
    assert(words_from(v@, i as nat) =~= Seq::<Seq<char>>::empty());
    assert(lines_view(out@) + Seq::<Seq<char>>::empty() =~= lines_view(out@));
    out
}

/// The words `ws[lo..hi]` joined with single spaces.
fn join_words(ws: &Vec<Vec<char>>, lo: usize, hi: usize) -> (r: String)
    requires
        lo <= hi <= ws.len(),
    ensures
        r@ == join_with(lines_view(ws@).subrange(lo as int, hi as int), ' '),
{
    let ghost wv = lines_view(ws@);
    let mut out = String::new();
    let mut i = lo;
    assert(wv.subrange(lo as int, lo as int) =~= Seq::<Seq<char>>::empty());
    while i < hi
        invariant
            lo <= i <= hi <= ws.len(),
            wv == lines_view(ws@),
            out@ == join_with(wv.subrange(lo as int, i as int), ' '),
        decreases hi - i,
    {
        let ghost prev = wv.subrange(lo as int, i as int);
        assert(wv.subrange(lo as int, i + 1) =~= prev.push(wv[i as int]));
        if i > lo {
            proof {
                crate::model::lemma_join_push(prev, wv[i as int], ' ');
            }
            crate::text::push_char(&mut out, ' ');
        } else {
            assert(prev.push(wv[i as int]).len() == 1);
            assert(join_with(prev.push(wv[i as int]), ' ') == wv[i as int]);
        }
        let w = string_of_all(&ws[i]);
        let ghost before = out@;
        out.append(w.as_str());
        assert(wv[i as int] == ws@[i as int]@);
        assert(out@ =~= join_with(wv.subrange(lo as int, i + 1), ' '));
        i += 1;
    }
    out
}

/// Whether the word is `to`, in any ASCII case.
fn is_to(w: &Vec<char>) -> (r: bool)
    ensures
        r == (lower(w@) == "to"@),
{
    let lw = lowered(w);
    is_word(&lw, "to")
}

/// The view of a period result.
pub open spec fn period_result(r: Result<DateRange, String>) -> Result<DateRange, Seq<char>> {
    match r {
        Ok(d) => Ok(d),
        Err(e) => Err(e@),
    }
}

/// Parses a period expression into the date range it denotes: `[from] TERM [to TERM]`, where a
/// term is a year `YYYY`, a month `YYYY-MM` (`/` and `.` also separate) or a date. A single
/// term denotes its own range; `A to B` runs from the start of `A` to the end of `B`.
pub fn parse_period(input: &str) -> (r: Result<DateRange, String>)
    ensures
        period_result(r) == period_spec(input@),
{
    let chars = str_chars(input);
    let all = split_words(&chars);
    let ghost aw = lines_view(all@);
    let mut first: usize = 0;
    if all.len() > 0 {
        let w0 = lowered(&all[0]);
        assert(aw[0] == all@[0]@);
        if is_word(&w0, "from") {
            first = 1;
        }
    }
    let ghost ws = without_from(aw);
    assert(ws =~= aw.skip(first as int));
    if first == all.len() {
        return Err("empty period expression".to_owned());
    }
    let mut pos = first;
    while pos < all.len() && !is_to(&all[pos])
        invariant
            first <= pos <= all.len(),
            aw == lines_view(all@),
            ws == aw.skip(first as int),
            to_index_from(ws, 0) == to_index_from(ws, (pos - first) as nat),
        decreases all.len() - pos,
    {
        assert(ws[pos - first] == all@[pos as int]@);
        pos += 1;
    }
    if pos == all.len() {
        let term = join_words(&all, first, all.len());
        assert(aw.subrange(first as int, all.len() as int) =~= ws);
        return match parse_term(term.as_str()) {
            Ok((start, end)) => Ok(DateRange::new(Some(start), Some(end))),
            Err(e) => Err(e),
        };
    }
    assert(ws[pos - first] == all@[pos as int]@);
    let left = join_words(&all, first, pos);
    let right = join_words(&all, pos + 1, all.len());
    assert(aw.subrange(first as int, pos as int) =~= ws.take(pos - first));
    assert(aw.subrange(pos + 1, all.len() as int) =~= ws.skip(pos - first + 1));
    if left.as_str().is_empty() || right.as_str().is_empty() {
        let mut e = "invalid period range '".to_owned();
        e.append(input);
        e.append("': expected '<TERM> to <TERM>'");
        return Err(e);
    }
    let start = match parse_term(left.as_str()) {
        Ok((s, _)) => s,
        Err(e) => {
            return Err(e);
        },
    };
    let end = match parse_term(right.as_str()) {
        Ok((_, e)) => e,
        Err(e) => {
            return Err(e);
        },
    };
    Ok(DateRange::new(Some(start), Some(end)))
}


proof fn lemma_four_digits_value(s: Seq<char>)
    requires
        s.len() == 4,
        all_digits(s),
    ensures
        digits_value(s) <= 9999,
{
    reveal_with_fuel(digits_value, 5);
    assert(is_digit(s[0]) && is_digit(s[1]) && is_digit(s[2]) && is_digit(s[3]));
    assert(s.drop_last().drop_last().drop_last().drop_last() =~= Seq::<char>::empty());
    assert(s.drop_last().drop_last().drop_last().last() == s[0]);
    assert(s.drop_last().drop_last().last() == s[1]);
    assert(s.drop_last().last() == s[2]);
    assert(s.last() == s[3]);
}

proof fn lemma_no_dash_split(s: Seq<char>)
    requires
        all_digits(s),
    ensures
        split_at_char(s, '-') == seq![s],
{
    assert forall|j: int| 0 <= j < s.len() implies s[j] != '-' by {
        assert(is_digit(s[j]));
    }
    crate::model::lemma_first_index_none(s, '-');
}

/// A month term is its year, a separator (`-`, `/` or `.`) and its month: for a four-digit
/// year `Y` and a month numeral `M` from 1 to 12, the term `Y-M`, `Y/M` or `Y.M` (one that
/// does not read as a whole date) denotes the month from its first day up to the first day of
/// the next month.
pub proof fn law_month_term(ys: Seq<char>, sep: char, ms: Seq<char>)
    requires
        ys.len() == 4,
        all_digits(ys),
        ms.len() > 0,
        all_digits(ms),
        1 <= digits_value(ms) <= 12,
        sep == '-' || sep == '/' || sep == '.',
        parse_date_str_spec(ys + seq![sep] + ms) is None,
    ensures
        ({
            let y = digits_value(ys) as int;
            let m = digits_value(ms) as int;
            term_spec(ys + seq![sep] + ms) == Ok::<(Date, Date), Seq<char>>(
                (
                    Date::at(y, m, 1),
                    if m == 12 {
                        Date::at(y + 1, 1, 1)
                    } else {
                        Date::at(y, m + 1, 1)
                    },
                ),
            )
        }),
{
    let tok = ys + seq![sep] + ms;
    let d = ys + seq!['-'] + ms;
    assert forall|i: int| 0 <= i < tok.len() implies dashes(tok)[i] == d[i] by {
        if i < 4 {
            assert(is_digit(ys[i]));
        } else if i > 4 {
            assert(is_digit(ms[i - 5]));
        }
    }
    assert(dashes(tok) =~= d);
    assert forall|j: int| 0 <= j < 4 implies d[j] != '-' by {
        assert(is_digit(ys[j]));
    }
    crate::model::lemma_first_index_exact(d, '-', 4);
    assert(d.take(4) =~= ys);
    assert(d.skip(5) =~= ms);
    lemma_no_dash_split(ms);
    assert(term_pieces(tok) =~= seq![ys, ms]);
    lemma_four_digits_value(ys);
    assert(is_digit(ys[0]));
    let y = digits_value(ys) as int;
    let m = digits_value(ms) as int;
    assert(parse_i32_spec(ys) == Some(y as i32));
    assert(is_digit(ms[0]));
    assert(parse_u32_spec(ms) == Some(m as u32));
    assert(valid_ymd(y, m, 1));
    if m == 12 {
        assert(valid_ymd(y + 1, 1, 1));
    } else {
        assert(valid_ymd(y, m + 1, 1));
    }
}

proof fn lemma_token_len_whole(t: Seq<char>)
    requires
        forall|i: int| 0 <= i < t.len() ==> !is_ws(#[trigger] t[i]),
    ensures
        token_len(t) == t.len(),
    decreases t.len(),
{
    if t.len() > 0 {
        assert(!is_ws(t[0]));
        let r = t.drop_first();
        assert forall|i: int| 0 <= i < r.len() implies !is_ws(#[trigger] r[i]) by {
            assert(r[i] == t[i + 1]);
            assert(!is_ws(t[i + 1]));
        }
        lemma_token_len_whole(r);
    }
}

/// A period expression that is one month term denotes that month: `parse_period` of `Y-M`,
/// `Y/M` or `Y.M` (a four-digit year, a month from 1 to 12, not readable as a whole date) is
/// the range from the month's first day up to the first day of the next month.
pub proof fn law_month_period(ys: Seq<char>, sep: char, ms: Seq<char>)
    requires
        ys.len() == 4,
        all_digits(ys),
        ms.len() > 0,
        all_digits(ms),
        1 <= digits_value(ms) <= 12,
        sep == '-' || sep == '/' || sep == '.',
        parse_date_str_spec(ys + seq![sep] + ms) is None,
    ensures
        ({
            let y = digits_value(ys) as int;
            let m = digits_value(ms) as int;
            period_spec(ys + seq![sep] + ms) == Ok::<DateRange, Seq<char>>(
                DateRange {
                    since: Some(Date::at(y, m, 1)),
                    until: Some(
                        if m == 12 {
                            Date::at(y + 1, 1, 1)
                        } else {
                            Date::at(y, m + 1, 1)
                        },
                    ),
                },
            )
        }),
{
    let tok = ys + seq![sep] + ms;
    law_month_term(ys, sep, ms);
    assert forall|i: int| 0 <= i < tok.len() implies !is_ws(#[trigger] tok[i]) by {
        if i < 4 {
            assert(is_digit(ys[i]));
        } else if i > 4 {
            assert(is_digit(ms[i - 5]));
        }
    }
    lemma_token_len_whole(tok);
    assert(tok.skip(0) =~= tok);
    assert(tok.subrange(0, tok.len() as int) =~= tok);
    assert(words_from(tok, tok.len()) =~= Seq::<Seq<char>>::empty());
    assert(words(tok) =~= seq![tok]);
    assert(is_digit(tok[0]));
    reveal_strlit("from");
    reveal_strlit("to");
    assert(lower(tok)[0] == tok[0]);
    assert(lower(tok) != "from"@);
    assert(lower(tok) != "to"@);
    let ws = without_from(words(tok));
    assert(ws =~= seq![tok]);
    assert(to_index_from(ws, 1) is None);
    assert(to_index_from(ws, 0) is None);
    assert(join_with(ws, ' ') == tok);
}

/// A four-digit year term (one that does not read as a whole date) denotes the whole year:
/// from its first day up to the first day of the next year.
pub proof fn law_year_term(ys: Seq<char>)
    requires
        ys.len() == 4,
        all_digits(ys),
        parse_date_str_spec(ys) is None,
    ensures
        ({
            let y = digits_value(ys) as int;
            term_spec(ys) == Ok::<(Date, Date), Seq<char>>(
                (Date::at(y, 1, 1), Date::at(y + 1, 1, 1)),
            )
        }),
{
    assert forall|i: int| 0 <= i < ys.len() implies dashes(ys)[i] == ys[i] by {
        assert(is_digit(ys[i]));
    }
    assert(dashes(ys) =~= ys);
    lemma_no_dash_split(ys);
    assert(term_pieces(ys) =~= seq![ys]);
    lemma_four_digits_value(ys);
    assert(is_digit(ys[0]));
    let y = digits_value(ys) as int;
    assert(parse_i32_spec(ys) == Some(y as i32));
    assert(valid_ymd(y, 1, 1));
    assert(valid_ymd(y + 1, 1, 1));
}

} // verus!
