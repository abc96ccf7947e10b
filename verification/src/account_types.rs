//! Classification of an account by the top-level segment of its name, case-insensitively:
//! which side of the accounting equation it belongs to.
use crate::model::Account;
use crate::parser::before_char;
use crate::text::{chars_equal, str_chars};
use vstd::prelude::*;

verus! {

/// Which side of the accounting equation an account belongs to, inferred from its name.
#[derive(Debug, Clone, Copy, PartialEq, Eq, Structural)]
pub enum AccountType {
    /// `asset`/`assets`.
    Asset,
    /// `liability`/`liabilities`.
    Liability,
    /// `equity`.
    Equity,
    /// `income`/`revenue`/`revenues`.
    Revenue,
    /// `expense`/`expenses`.
    Expense,
}

/// `c` with ASCII upper-case letters lowered (`char::to_ascii_lowercase`).
pub open spec fn lower_char(c: char) -> char {
    if 'A' <= c && c <= 'Z' {
        ((c as u32) + 32) as char
    } else {
        c
    }
}

/// `s` with ASCII upper-case letters lowered (`str::to_ascii_lowercase`).
pub open spec fn lower(s: Seq<char>) -> Seq<char> {
    s.map_values(|c: char| lower_char(c))
}

/// The classification of the account named `a`: by its first `:`-segment, lower-cased.
pub open spec fn classify_spec(a: Seq<char>) -> Option<AccountType> {
    let top = lower(before_char(a, ':'));
    if top == "asset"@ || top == "assets"@ {
        Some(AccountType::Asset)
    } else if top == "liability"@ || top == "liabilities"@ {
        Some(AccountType::Liability)
    } else if top == "equity"@ {
        Some(AccountType::Equity)
    } else if top == "income"@ || top == "revenue"@ || top == "revenues"@ {
        Some(AccountType::Revenue)
    } else if top == "expense"@ || top == "expenses"@ {
        Some(AccountType::Expense)
    } else {
        None
    }
}

fn lower_exec(c: char) -> (r: char)
    ensures
        r == lower_char(c),
{
    if 'A' <= c && c <= 'Z' {
        let code: u32 = c as u32;
        ((code + 32) as u8) as char
    } else {
        c
    }
}

/// The characters of `v` with ASCII upper-case letters lowered.
pub(crate) fn lowered(v: &Vec<char>) -> (r: Vec<char>)
    ensures
        r@ == lower(v@),
{
    let mut out: Vec<char> = Vec::new();
    let mut i: usize = 0;
    while i < v.len()
        invariant
            0 <= i <= v.len(),
            out@ == lower(v@.take(i as int)),
        decreases v.len() - i,
    {
        out.push(lower_exec(v[i]));
        assert(lower(v@.take(i + 1)) =~= lower(v@.take(i as int)).push(lower_char(v@[i as int])));
        i += 1;
    }
    assert(v@.take(v.len() as int) =~= v@);
    out
}

/// Whether the characters `v` spell the word `w`.
pub(crate) fn is_word(v: &Vec<char>, w: &str) -> (r: bool)
    ensures
        r == (v@ == w@),
{
    let wc = str_chars(w);
    chars_equal(v, &wc)
}

/// Classifies `account` by its top-level segment; `None` for an unrecognized one.
pub fn classify(account: &Account) -> (r: Option<AccountType>)
    ensures
        r == classify_spec(account@),
{
    let chars = str_chars(account.0.as_str());
    let mut top: Vec<char> = Vec::new();
    let mut i: usize = 0;
    while i < chars.len() && chars[i] != ':'
        invariant
            0 <= i <= chars.len(),
            forall|j: int| 0 <= j < i ==> chars@[j] != ':',
            top@ == lower(chars@.take(i as int)),
        decreases chars.len() - i,
    {
        top.push(lower_exec(chars[i]));
        assert(lower(chars@.take(i + 1)) =~= lower(chars@.take(i as int)).push(lower_char(chars@[i as int])));
        i += 1;
    }
    proof {
        crate::model::lemma_first_index_bounds(chars@, ':');
        if i < chars.len() {
            crate::model::lemma_first_index_exact(chars@, ':', i as nat);
        } else {
            assert(chars@.take(i as int) =~= chars@);
            crate::model::lemma_first_index_none(chars@, ':');
        }
    }
    if is_word(&top, "asset") || is_word(&top, "assets") {
        Some(AccountType::Asset)
    } else if is_word(&top, "liability") || is_word(&top, "liabilities") {
        Some(AccountType::Liability)
    } else if is_word(&top, "equity") {
        Some(AccountType::Equity)
    } else if is_word(&top, "income") || is_word(&top, "revenue") || is_word(&top, "revenues") {
        Some(AccountType::Revenue)
    } else if is_word(&top, "expense") || is_word(&top, "expenses") {
        Some(AccountType::Expense)
    } else {
        None
    }
}


/// Whether `s` spells the lower-case word `w` with each letter in either case.
pub open spec fn spells_any_case(s: Seq<char>, w: Seq<char>) -> bool {
    &&& s.len() == w.len()
    &&& forall|i: int| 0 <= i < w.len() ==> (s[i] == w[i] || (s[i] as int) + 32 == (w[i] as int))
}

/// Whether the first `:`-segment of `a` is the first `n` characters.
pub open spec fn top_segment_ends_at(a: Seq<char>, n: int) -> bool {
    &&& 0 <= n <= a.len()
    &&& (n == a.len() || a[n] == ':')
    &&& forall|i: int| 0 <= i < n ==> a[i] != ':'
}

proof fn lemma_lower_of_spelling(s: Seq<char>, w: Seq<char>)
    requires
        spells_any_case(s, w),
        forall|i: int| 0 <= i < w.len() ==> 97 <= (#[trigger] w[i] as int) <= 122,
    ensures
        lower(s) == w,
{
    assert forall|i: int| 0 <= i < w.len() implies lower(s)[i] == w[i] by {
        let c = s[i];
        let d = w[i];
        assert(97 <= (d as int) <= 122);
        if c != d {
            assert((c as int) + 32 == (d as int));
            assert(65 <= (c as int) <= 90);
            assert((c as u32) as int == c as int);
            assert('A' <= c && c <= 'Z');
            assert(lower_char(c) == ((c as u32) + 32) as char);
            assert(((c as u32) + 32) as char == d);
        } else {
            assert(!('A' <= c && c <= 'Z'));
        }
    }
    assert(lower(s) =~= w);
}

proof fn lemma_word_lower(s: Seq<char>, w: Seq<char>)
    requires
        spells_any_case(s, w),
        w == "asset"@ || w == "assets"@ || w == "liability"@ || w == "liabilities"@ || w == "equity"@
            || w == "income"@ || w == "revenue"@ || w == "revenues"@ || w == "expense"@ || w
            == "expenses"@,
    ensures
        lower(s) == w,
{
    reveal_strlit("asset");
    reveal_strlit("assets");
    reveal_strlit("liability");
    reveal_strlit("liabilities");
    reveal_strlit("equity");
    reveal_strlit("income");
    reveal_strlit("revenue");
    reveal_strlit("revenues");
    reveal_strlit("expense");
    reveal_strlit("expenses");
    assert forall|i: int| 0 <= i < w.len() implies 97 <= (#[trigger] w[i] as int) <= 122 by {}
    lemma_lower_of_spelling(s, w);
}

/// An account is classified by the word its first `:`-segment spells, in any letter case:
/// `asset`/`assets` make an asset, `liability`/`liabilities` a liability, `equity` equity,
/// `income`/`revenue`/`revenues` revenue, and `expense`/`expenses` an expense.
pub proof fn law_classify_by_top_word(a: Seq<char>, n: int, w: Seq<char>)
    requires
        top_segment_ends_at(a, n),
        spells_any_case(a.take(n), w),
    ensures
        (w == "asset"@ || w == "assets"@) ==> classify_spec(a) == Some(AccountType::Asset),
        (w == "liability"@ || w == "liabilities"@) ==> classify_spec(a) == Some(AccountType::Liability),
        w == "equity"@ ==> classify_spec(a) == Some(AccountType::Equity),
        (w == "income"@ || w == "revenue"@ || w == "revenues"@) ==> classify_spec(a) == Some(AccountType::Revenue),
        (w == "expense"@ || w == "expenses"@) ==> classify_spec(a) == Some(AccountType::Expense),
{
    if n < a.len() {
        crate::model::lemma_first_index_exact(a, ':', n as nat);
    } else {
        assert(a.take(n) =~= a);
        crate::model::lemma_first_index_none(a, ':');
    }
    assert(before_char(a, ':') == a.take(n));
    reveal_strlit("asset");
    reveal_strlit("assets");
    reveal_strlit("liability");
    reveal_strlit("liabilities");
    reveal_strlit("equity");
    reveal_strlit("income");
    reveal_strlit("revenue");
    reveal_strlit("revenues");
    reveal_strlit("expense");
    reveal_strlit("expenses");
    let top = a.take(n);
    if w == "asset"@ || w == "assets"@ {
        lemma_word_lower(top, w);
    } else if w == "liability"@ || w == "liabilities"@ {
        lemma_word_lower(top, w);
        assert(w[0] == 'l');
    } else if w == "equity"@ {
        lemma_word_lower(top, w);
        assert(w[0] == 'e' && "assets"@[0] == 'a');
    } else if w == "income"@ || w == "revenue"@ || w == "revenues"@ {
        lemma_word_lower(top, w);
        assert(w[0] == 'i' || w[0] == 'r');
        assert("assets"@[0] == 'a' && "equity"@[0] == 'e' && "expense"@[0] == 'e');
    } else if w == "expense"@ || w == "expenses"@ {
        lemma_word_lower(top, w);
        assert(w[0] == 'e' && w[1] == 'x');
        assert("revenue"@[0] == 'r' && "revenues"@[0] == 'r' && "equity"@[1] == 'q');
    }
}

proof fn lemma_spelling_of_lower(s: Seq<char>, w: Seq<char>)
    requires
        lower(s) == w,
    ensures
        spells_any_case(s, w),
{
    assert forall|i: int| 0 <= i < w.len() implies (s[i] == w[i] || (s[i] as int) + 32 == (
    w[i] as int)) by {
        let c = s[i];
        assert(lower(s)[i] == lower_char(c));
        if 'A' <= c && c <= 'Z' {
            assert((c as u32) as int == c as int);
            assert(lower_char(c) == ((c as u32) + 32) as char);
            assert((((c as u32) + 32) as char) as int == (c as int) + 32);
        }
    }
}

/// An account whose first `:`-segment spells none of the words `asset`, `assets`,
/// `liability`, `liabilities`, `equity`, `income`, `revenue`, `revenues`, `expense`,
/// `expenses` (in any letter case) is not classified.
pub proof fn law_unrecognized_top_word(a: Seq<char>, n: int)
    requires
        top_segment_ends_at(a, n),
        !spells_any_case(a.take(n), "asset"@),
        !spells_any_case(a.take(n), "assets"@),
        !spells_any_case(a.take(n), "liability"@),
        !spells_any_case(a.take(n), "liabilities"@),
        !spells_any_case(a.take(n), "equity"@),
        !spells_any_case(a.take(n), "income"@),
        !spells_any_case(a.take(n), "revenue"@),
        !spells_any_case(a.take(n), "revenues"@),
        !spells_any_case(a.take(n), "expense"@),
        !spells_any_case(a.take(n), "expenses"@),
    ensures
        classify_spec(a) is None,
{
    if n < a.len() {
        crate::model::lemma_first_index_exact(a, ':', n as nat);
    } else {
        assert(a.take(n) =~= a);
        crate::model::lemma_first_index_none(a, ':');
    }
    let top = a.take(n);
    assert(before_char(a, ':') == top);
    let lw = lower(top);
    if lw == "asset"@ || lw == "assets"@ || lw == "liability"@ || lw == "liabilities"@ || lw
        == "equity"@ || lw == "income"@ || lw == "revenue"@ || lw == "revenues"@ || lw
        == "expense"@ || lw == "expenses"@ {
        lemma_spelling_of_lower(top, lw);
    }
}

} // verus!
