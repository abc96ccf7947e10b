//! Core journal data: accounts, amounts, tags, postings and transactions, each with a view over
//! mathematical sequences that the parser, ledger and reports state their contracts with.
use crate::date::Date;
use crate::layout::{nat_text, usize_text};
use crate::quantity::Quantity;
use crate::text::{concat, push_char, str_chars, string_of, strings_equal};
use vstd::prelude::*;

verus! {

broadcast use vstd::string::group_string_axioms;

/// Index of the first occurrence of `c` in `s`.
pub open spec fn first_index(s: Seq<char>, c: char) -> Option<nat>
    decreases s.len(),
{
    if s.len() == 0 {
        None
    } else if s[0] == c {
        Some(0)
    } else {
        match first_index(s.drop_first(), c) {
            Some(i) => Some(i + 1),
            None => None,
        }
    }
}

/// `s` split at every `c` (`str::split(c)`): always at least one piece.
pub open spec fn split_at_char(s: Seq<char>, c: char) -> Seq<Seq<char>>
    decreases s.len(),
{
    match first_index(s, c) {
        Some(i) => {
            proof {
                lemma_first_index_bounds(s, c);
            }
            seq![s.take(i as int)] + split_at_char(s.skip(i as int + 1), c)
        },
        None => seq![s],
    }
}

/// The pieces joined with `c` between consecutive pieces (`[..].join(c)`).
pub open spec fn join_with(pieces: Seq<Seq<char>>, c: char) -> Seq<char>
    decreases pieces.len(),
{
    if pieces.len() == 0 {
        Seq::empty()
    } else if pieces.len() == 1 {
        pieces[0]
    } else {
        pieces[0] + seq![c] + join_with(pieces.drop_first(), c)
    }
}

pub proof fn lemma_first_index_bounds(s: Seq<char>, c: char)
    ensures
        first_index(s, c) matches Some(i) ==> i < s.len() && s[i as int] == c && forall|j: int| 0 <= j < i ==> s[j] != c,
        first_index(s, c) is None ==> forall|j: int| 0 <= j < s.len() ==> s[j] != c,
    decreases s.len(),
{
    if s.len() > 0 && s[0] != c {
        lemma_first_index_bounds(s.drop_first(), c);
        if let Some(i) = first_index(s.drop_first(), c) {
            assert forall|j: int| 0 <= j < i + 1 implies s[j] != c by {
                if j > 0 {
                    assert(s[j] == s.drop_first()[j - 1]);
                }
            }
        } else {
            assert forall|j: int| 0 <= j < s.len() implies s[j] != c by {
                if j > 0 {
                    assert(s[j] == s.drop_first()[j - 1]);
                }
            }
        }
    }
}

/// A colon-separated account hierarchy such as `Assets:Bank:Checking`.
#[derive(Debug, Clone, PartialEq, Eq, PartialOrd, Ord, Hash)]
pub struct Account(pub String);

impl View for Account {
    type V = Seq<char>;

    open spec fn view(&self) -> Seq<char> {
        self.0@
    }
}

/// Whether account `a` is account `b` or lies under it in the hierarchy.
pub open spec fn account_under(a: Seq<char>, b: Seq<char>) -> bool {
    a == b || (b + seq![':']).is_prefix_of(a)
}

/// The ancestors of the account named `s`, root first, ending with `s` itself.
pub open spec fn ancestors_spec(s: Seq<char>) -> Seq<Seq<char>> {
    let segs = split_at_char(s, ':');
    Seq::new(segs.len(), |n: int| join_with(segs.take(n + 1), ':'))
}

impl Account {
    /// Wraps a name as an account, without validating or normalizing it.
    pub fn new(s: &str) -> (r: Account)
        ensures
            r@ == s@,
    {
        Account(s.to_owned())
    }

    /// The hierarchy segments, split at `:` (`Assets:Bank` gives `Assets`, `Bank`).
    pub fn segments(&self) -> (r: Vec<String>)
        ensures
            r@.map_values(|x: String| x@) == split_at_char(self@, ':'),
    {
        let chars = str_chars(self.0.as_str());
        split_chars(&chars, ':')
    }

    /// Number of segments (at least 1).
    pub fn depth(&self) -> (r: usize)
        ensures
            r == split_at_char(self@, ':').len(),
    {
        let segs = self.segments();
        assert(segs@.map_values(|x: String| x@).len() == segs@.len());
        segs.len()
    }

    /// True if `self` is `other` or one of its descendants.
    pub fn is_under(&self, other: &Account) -> (r: bool)
        ensures
            r == account_under(self@, other@),
    {
        if strings_equal(&self.0, &other.0) {
            return true;
        }
        let mut prefix = other.0.clone();
        push_char(&mut prefix, ':');
        let a = str_chars(self.0.as_str());
        let p = str_chars(prefix.as_str());
        assert(a@.subrange(0, a@.len() as int) == a@);
        crate::text::has_prefix_at(&a, 0, a.len(), &p)
    }

    /// The ancestors from the root down to `self`, inclusive
    /// (`Assets:Bank` gives `Assets`, `Assets:Bank`).
    pub fn ancestors_inclusive(&self) -> (r: Vec<Account>)
        ensures
            r@.map_values(|a: Account| a@) == ancestors_spec(self@),
    {
        let segs = self.segments();
        let ghost gsegs = split_at_char(self@, ':');
        let mut out: Vec<Account> = Vec::new();
        let mut joined = String::new();
        let mut n: usize = 0;
        while n < segs.len()
            invariant
                0 <= n <= segs.len(),
                segs@.map_values(|x: String| x@) == gsegs,
                out@.len() == n,
                forall|k: int| 0 <= k < n ==> #[trigger] out@[k]@ == join_with(gsegs.take(k + 1), ':'),
                n > 0 ==> joined@ == join_with(gsegs.take(n as int), ':'),
            decreases segs.len() - n,
        {
            assert(segs@[n as int]@ == gsegs[n as int]);
            if n == 0 {
                joined = segs[0].clone();
                assert(gsegs.take(1) == seq![gsegs[0]]);
            } else {
                push_char(&mut joined, ':');
                joined = concat(&joined, &segs[n]);
                proof {
                    lemma_join_push(gsegs.take(n as int), gsegs[n as int], ':');
                    assert(gsegs.take(n as int).push(gsegs[n as int]) == gsegs.take(n + 1));
                }
            }
            out.push(Account(joined.clone()));
            n += 1;
        }
        proof {
            let lhs = out@.map_values(|a: Account| a@);
            let rhs = ancestors_spec(self@);
            assert(lhs.len() == rhs.len());
            assert forall|k: int| 0 <= k < lhs.len() implies lhs[k] == rhs[k] by {
                assert(out@[k]@ == join_with(gsegs.take(k + 1), ':'));
            }
            assert(lhs =~= rhs);
        }
        out
    }
}

/// Splitting at `c` always gives at least one piece.
pub proof fn lemma_split_nonempty(s: Seq<char>, c: char)
    ensures
        split_at_char(s, c).len() >= 1,
    decreases s.len(),
{
    lemma_first_index_bounds(s, c);
    if let Some(i) = first_index(s, c) {
        lemma_split_nonempty(s.skip(i as int + 1), c);
    }
}

/// Joining the pieces of a split with the separator gives back the text.
pub proof fn lemma_split_join(s: Seq<char>, c: char)
    ensures
        join_with(split_at_char(s, c), c) == s,
    decreases s.len(),
{
    lemma_first_index_bounds(s, c);
    match first_index(s, c) {
        Some(i) => {
            let rest = s.skip(i as int + 1);
            lemma_split_join(rest, c);
            lemma_split_nonempty(rest, c);
            let pieces = seq![s.take(i as int)] + split_at_char(rest, c);
            assert(pieces[0] == s.take(i as int));
            assert(pieces.drop_first() =~= split_at_char(rest, c));
            assert(pieces.len() > 1);
            assert(s.take(i as int) + seq![c] + rest =~= s);
        },
        None => {
            assert(split_at_char(s, c) == seq![s]);
        },
    }
}

/// An account's ancestors run from its top-level segment down to the account itself: there
/// are as many as the account has segments, and the last is the account.
pub proof fn law_ancestors_end_at_self(s: Seq<char>)
    ensures
        ancestors_spec(s).len() == split_at_char(s, ':').len(),
        ancestors_spec(s).len() >= 1,
        ancestors_spec(s).last() == s,
        account_under(s, s),
{
    let segs = split_at_char(s, ':');
    lemma_split_nonempty(s, ':');
    lemma_split_join(s, ':');
    assert(segs.take(segs.len() as int) =~= segs);
}

/// A piece with no `c`, then `c`, then `y`, splits into that piece followed by the pieces of `y`.
proof fn lemma_split_after_head(h: Seq<char>, y: Seq<char>, c: char)
    requires
        forall|j: int| 0 <= j < h.len() ==> h[j] != c,
    ensures
        split_at_char(h + seq![c] + y, c) == seq![h] + split_at_char(y, c),
{
    let s = h + seq![c] + y;
    assert forall|j: int| 0 <= j < h.len() implies s[j] != c by {
        assert(s[j] == h[j]);
    }
    assert(s[h.len() as int] == c);
    lemma_first_index_exact(s, c, h.len());
    assert(s.take(h.len() as int) =~= h);
    assert(s.skip(h.len() as int + 1) =~= y);
}

/// The ancestors of an account made of a first segment `h` and the rest `y`: `h`, then `h:`
/// followed by each ancestor of `y`.
proof fn lemma_ancestors_after_head(s: Seq<char>, i: nat)
    requires
        first_index(s, ':') == Some(i),
    ensures
        ancestors_spec(s).len() == ancestors_spec(s.skip(i as int + 1)).len() + 1,
        ancestors_spec(s)[0] == s.take(i as int),
        forall|n: int|
            0 <= n < ancestors_spec(s.skip(i as int + 1)).len() ==> #[trigger] ancestors_spec(s)[n + 1]
                == s.take(i as int) + seq![':'] + ancestors_spec(s.skip(i as int + 1))[n],
{
    lemma_first_index_bounds(s, ':');
    let h = s.take(i as int);
    let rest = s.skip(i as int + 1);
    let segs = split_at_char(s, ':');
    let rs = split_at_char(rest, ':');
    lemma_split_nonempty(rest, ':');
    assert(segs == seq![h] + rs);
    assert(segs.take(1) =~= seq![h]);
    assert forall|n: int| 0 <= n < rs.len() implies #[trigger] ancestors_spec(s)[n + 1] == h + seq![':']
        + ancestors_spec(rest)[n] by {
        let p = segs.take(n + 2);
        assert(p.len() > 1);
        assert(p[0] == h);
        assert(p.drop_first() =~= rs.take(n + 1));
    }
}

/// An account lies under `b` (or is `b`) exactly when `b` is one of its ancestors; the `n`-th
/// ancestor (from the root) has `n + 1` segments.
pub proof fn law_ancestors_are_what_it_lies_under(s: Seq<char>, b: Seq<char>)
    ensures
        ancestors_spec(s).contains(b) <==> account_under(s, b),
        forall|n: int|
            0 <= n < ancestors_spec(s).len() ==> split_at_char(#[trigger] ancestors_spec(s)[n], ':').len()
                == n + 1,
    decreases s.len(),
{
    lemma_first_index_bounds(s, ':');
    law_ancestors_end_at_self(s);
    match first_index(s, ':') {
        None => {
            let segs = split_at_char(s, ':');
            assert(segs == seq![s]);
            assert(segs.take(1) =~= seq![s]);
            assert(ancestors_spec(s)[0] == s);
            if account_under(s, b) && s != b {
                assert(s[b.len() as int] == (b + seq![':'])[b.len() as int]);
            }
            if ancestors_spec(s).contains(b) {
                let k = choose|k: int| 0 <= k < ancestors_spec(s).len() && ancestors_spec(s)[k] == b;
                assert(k == 0);
            }
            assert(split_at_char(s, ':') == seq![s]);
        },
        Some(i) => {
            let h = s.take(i as int);
            let rest = s.skip(i as int + 1);
            assert(s =~= h + seq![':'] + rest);
            lemma_ancestors_after_head(s, i);
            let ar = ancestors_spec(rest);
            let a = ancestors_spec(s);
            assert forall|j: int| 0 <= j < h.len() implies h[j] != ':' by {}
            assert forall|n: int| 0 <= n < a.len() implies split_at_char(#[trigger] a[n], ':').len()
                == n + 1 by {
                if n == 0 {
                    lemma_first_index_none(h, ':');
                    assert(split_at_char(h, ':') == seq![h]);
                } else {
                    law_ancestors_are_what_it_lies_under(rest, b);
                    lemma_split_after_head(h, ar[n - 1], ':');
                    assert(a[n] == h + seq![':'] + ar[n - 1]);
                }
            }
            law_ancestors_are_what_it_lies_under(rest, b.skip(i as int + 1));
            if a.contains(b) {
                let k = choose|k: int| 0 <= k < a.len() && a[k] == b;
                if k == 0 {
                    assert((b + seq![':']) =~= s.take(i as int + 1));
                    assert((b + seq![':']).is_prefix_of(s));
                } else {
                    let x = ar[k - 1];
                    assert(b == h + seq![':'] + x);
                    assert(b.skip(i as int + 1) =~= x);
                    assert(ar.contains(x));
                    if rest == x {
                        assert(b =~= s);
                    } else {
                        assert((x + seq![':']).is_prefix_of(rest));
                        assert forall|j: int| 0 <= j < (b + seq![':']).len() implies (b + seq![':'])[j]
                            == s[j] by {
                            if j > i {
                                assert((b + seq![':'])[j] == (x + seq![':'])[j - i - 1]);
                                assert(s[j] == rest[j - i - 1]);
                            } else if j < i {
                                assert(b[j] == h[j]);
                            }
                        }
                    }
                }
            }
            if account_under(s, b) {
                if s == b {
                    assert(a[a.len() - 1] == b);
                } else {
                    assert((b + seq![':']).is_prefix_of(s));
                    let bc = b + seq![':'];
                    assert(bc.len() <= s.len() && s.subrange(0, bc.len() as int) =~= bc);
                    assert(bc[b.len() as int] == ':');
                    assert(s.subrange(0, bc.len() as int)[b.len() as int] == s[b.len() as int]);
                    assert(s[b.len() as int] == ':');
                    if b.len() < i {
                        assert(false);
                    } else if b.len() == i {
                        assert(b =~= h);
                        assert(a[0] == b);
                    } else {
                        let x = b.skip(i as int + 1);
                        assert forall|j: int| 0 <= j < i implies b[j] == h[j] by {
                            assert(b[j] == (b + seq![':'])[j]);
                        }
                        assert(b[i as int] == ':') by {
                            assert(b[i as int] == (b + seq![':'])[i as int]);
                        }
                        assert(b =~= h + seq![':'] + x);
                        assert forall|j: int| 0 <= j < (x + seq![':']).len() implies (x + seq![':'])[j]
                            == rest[j] by {
                            assert((x + seq![':'])[j] == (b + seq![':'])[j + i + 1]);
                        }
                        assert((x + seq![':']).is_prefix_of(rest));
                        assert(account_under(rest, x));
                        let k = choose|k: int| 0 <= k < ar.len() && ar[k] == x;
                        assert(a[k + 1] == b);
                    }
                }
            }
        },
    }
}

pub proof fn lemma_join_push(pieces: Seq<Seq<char>>, x: Seq<char>, c: char)
    requires
        pieces.len() > 0,
    ensures
        join_with(pieces.push(x), c) == join_with(pieces, c) + seq![c] + x,
    decreases pieces.len(),
{
    if pieces.len() == 1 {
        assert(pieces.push(x).drop_first() == seq![x]);
        assert(join_with(seq![x], c) == x);
    } else {
        assert(pieces.push(x).drop_first() == pieces.drop_first().push(x));
        lemma_join_push(pieces.drop_first(), x, c);
        assert(pieces.push(x)[0] == pieces[0]);
        assert(pieces[0] + seq![c] + (join_with(pieces.drop_first(), c) + seq![c] + x) == (pieces[0]
            + seq![c] + join_with(pieces.drop_first(), c)) + seq![c] + x);
    }
}

/// `v` split at every `c`, as strings.
pub fn split_chars(v: &Vec<char>, c: char) -> (r: Vec<String>)
    ensures
        r@.map_values(|x: String| x@) == split_at_char(v@, c),
{
    let mut out: Vec<String> = Vec::new();
    let mut start: usize = 0;
    let mut i: usize = 0;
    assert(v@.skip(0) == v@);
    assert(out@.map_values(|x: String| x@) + split_at_char(v@, c) =~= split_at_char(v@, c));
    while i < v.len()
        invariant
            0 <= start <= i <= v.len(),
            forall|j: int| start <= j < i ==> v@[j] != c,
            out@.map_values(|x: String| x@) + split_at_char(v@.skip(start as int), c) == split_at_char(v@, c),
        decreases v.len() - i,
    {
        if v[i] == c {
            let piece = string_of(v, start, i);
            proof {
                let rest = v@.skip(start as int);
                lemma_first_index_exact(rest, c, (i - start) as nat);
                assert(rest.take((i - start) as int) == v@.subrange(start as int, i as int));
                assert(rest.skip((i - start) + 1) == v@.skip(i + 1));
                let old_out = out@.map_values(|x: String| x@);
                assert(old_out.push(piece@) == old_out + seq![piece@]);
                assert(old_out.push(piece@) + split_at_char(v@.skip(i + 1), c) == old_out + split_at_char(rest, c));
            }
            let ghost before = out@.map_values(|x: String| x@);
            out.push(piece);
            assert(out@.map_values(|x: String| x@) =~= before.push(piece@));
            start = i + 1;
        }
        i += 1;
    }
    let piece = string_of(v, start, v.len());
    proof {
        let rest = v@.skip(start as int);
        lemma_first_index_bounds(rest, c);
        if let Some(k) = first_index(rest, c) {
            assert(rest[k as int] == v@[start + k]);
        }
        assert(rest == v@.subrange(start as int, v.len() as int));
    }
    let ghost before = out@.map_values(|x: String| x@);
    out.push(piece);
    assert(out@.map_values(|x: String| x@) =~= before.push(piece@));
    out
}

/// The first `c` in `s` is at `i` when `s[i]` is `c` and nothing before it is.
pub proof fn lemma_first_index_exact(s: Seq<char>, c: char, i: nat)
    requires
        i < s.len(),
        s[i as int] == c,
        forall|j: int| 0 <= j < i ==> s[j] != c,
    ensures
        first_index(s, c) == Some(i),
    decreases i,
{
    if i > 0 {
        assert forall|j: int| 0 <= j < i - 1 implies s.drop_first()[j] != c by {
            assert(s.drop_first()[j] == s[j + 1]);
        }
        lemma_first_index_exact(s.drop_first(), c, (i - 1) as nat);
    }
}


/// A sequence without `c` has no first `c`.
pub proof fn lemma_first_index_none(s: Seq<char>, c: char)
    requires
        forall|j: int| 0 <= j < s.len() ==> s[j] != c,
    ensures
        first_index(s, c) is None,
    decreases s.len(),
{
    if s.len() > 0 {
        assert forall|j: int| 0 <= j < s.len() - 1 implies s.drop_first()[j] != c by {
            assert(s.drop_first()[j] == s[j + 1]);
        }
        lemma_first_index_none(s.drop_first(), c);
    }
}

/// The view of an optional string.
pub open spec fn opt_view(o: Option<String>) -> Option<Seq<char>> {
    match o {
        Some(s) => Some(s@),
        None => None,
    }
}

/// A quantity in a single commodity (`""` for a bare number).
#[derive(Debug, Clone)]
pub struct Amount {
    /// The numeric quantity.
    pub quantity: Quantity,
    /// The commodity or currency symbol.
    pub commodity: String,
}

/// The view of an [`Amount`].
pub struct AmountView {
    pub quantity: Quantity,
    pub commodity: Seq<char>,
}

impl View for Amount {
    type V = AmountView;

    open spec fn view(&self) -> AmountView {
        AmountView { quantity: self.quantity, commodity: self.commodity@ }
    }
}

impl Amount {
    /// Builds an amount from a quantity and a commodity symbol.
    pub fn new(quantity: Quantity, commodity: &str) -> (r: Amount)
        ensures
            r@ == (AmountView { quantity, commodity: commodity@ }),
    {
        Amount { quantity, commodity: commodity.to_owned() }
    }

    /// Zero in the given commodity.
    pub fn zero(commodity: &str) -> (r: Amount)
        ensures
            r@ == (AmountView { quantity: Quantity::spec_zero(), commodity: commodity@ }),
    {
        Amount { quantity: Quantity::zero(), commodity: commodity.to_owned() }
    }

    /// True if the quantity is exactly zero, whatever the commodity.
    pub fn is_zero(&self) -> (r: bool)
        ensures
            r == (self.quantity.val() == 0),
    {
        self.quantity.is_zero()
    }

    /// The same amount with its sign flipped.
    pub fn negate(&self) -> (r: Amount)
        ensures
            r@ == (AmountView { quantity: self.quantity.negated(), commodity: self.commodity@ }),
            r.quantity.val() == -self.quantity.val(),
    {
        Amount { quantity: self.quantity.neg(), commodity: self.commodity.clone() }
    }

    /// The amount as text: the quantity, then the commodity after a space when it has one.
    pub fn to_text(&self) -> (r: String)
        ensures
            r@ == if self.commodity@.len() == 0 {
                self.quantity.text()
            } else {
                self.quantity.text() + " "@ + self.commodity@
            },
    {
        let mut out = self.quantity.to_text();
        if !self.commodity.as_str().is_empty() {
            out.append(" ");
            out.append(self.commodity.as_str());
        }
        out
    }

    /// The sum of two amounts of one commodity; `None` when the commodities differ.
    pub fn checked_add(&self, other: &Amount) -> (r: Option<Amount>)
        requires
            self.commodity@ == other.commodity@ ==> self.quantity.plus_fits(other.quantity),
        ensures
            r matches Some(a) ==> self.commodity@ == other.commodity@ && a@ == (AmountView {
                quantity: self.quantity.plus(other.quantity),
                commodity: self.commodity@,
            }),
            r is None ==> self.commodity@ != other.commodity@,
    {
        if !strings_equal(&self.commodity, &other.commodity) {
            return None;
        }
        match self.quantity.checked_add(&other.quantity) {
            Some(q) => Some(Amount { quantity: q, commodity: self.commodity.clone() }),
            None => None,
        }
    }
}

/// Transaction (or posting) status: unmarked, `!` pending, or `*` cleared.
#[derive(Debug, Clone, Copy, PartialEq, Eq, Structural)]
pub enum Status {
    /// No marker.
    Unmarked,
    /// Marked `!`.
    Pending,
    /// Marked `*`.
    Cleared,
}

impl Default for Status {
    fn default() -> (r: Status)
        ensures
            r == Status::Unmarked,
    {
        Status::Unmarked
    }
}

/// A `key:value` tag (or bare `key:`) from a comment.
#[derive(Debug, Clone)]
pub struct Tag {
    /// The tag name.
    pub key: String,
    /// The value, or `None` for a bare `key:`.
    pub value: Option<String>,
}

/// The view of a [`Tag`].
pub struct TagView {
    pub key: Seq<char>,
    pub value: Option<Seq<char>>,
}

impl View for Tag {
    type V = TagView;

    open spec fn view(&self) -> TagView {
        TagView { key: self.key@, value: opt_view(self.value) }
    }
}

impl Tag {
    /// Builds a tag from a key and an optional value.
    pub fn new(key: &str, value: Option<String>) -> (r: Tag)
        ensures
            r@ == (TagView { key: key@, value: opt_view(value) }),
    {
        Tag { key: key.to_owned(), value }
    }
}

/// The views of a list of tags.
pub open spec fn tags_view(tags: Seq<Tag>) -> Seq<TagView> {
    tags.map_values(|t: Tag| t@)
}

/// The first tag with this key.
pub open spec fn find_tag(tags: Seq<TagView>, key: Seq<char>) -> Option<TagView>
    decreases tags.len(),
{
    if tags.len() == 0 {
        None
    } else if tags[0].key == key {
        Some(tags[0])
    } else {
        find_tag(tags.drop_first(), key)
    }
}

/// Where a piece of journal data came from.
#[derive(Debug, Clone)]
pub struct SourcePos {
    /// The journal file name as given to the parser.
    pub file: String,
    /// 1-based line number within `file`.
    pub line: usize,
}

/// The view of a [`SourcePos`].
pub struct SourceView {
    pub file: Seq<char>,
    pub line: nat,
}

impl View for SourcePos {
    type V = SourceView;

    open spec fn view(&self) -> SourceView {
        SourceView { file: self.file@, line: self.line as nat }
    }
}

/// How a source position is written: `FILE:LINE`.
pub open spec fn source_text(s: SourceView) -> Seq<char> {
    s.file + ":"@ + nat_text(s.line)
}

impl SourcePos {
    /// The position as text, `FILE:LINE`.
    pub fn to_text(&self) -> (r: String)
        ensures
            r@ == source_text(self@),
    {
        let mut out = self.file.clone();
        out.append(":");
        let n = usize_text(self.line);
        out.append(n.as_str());
        out
    }
}

/// One line of a transaction: an account and the amount moved into or out of it.
#[derive(Debug, Clone)]
pub struct Posting {
    /// The account this posting affects.
    pub account: Account,
    /// The amount; filled in by the parser even when elided in the source.
    pub amount: Option<Amount>,
    /// Whether the amount was elided in the source and inferred.
    pub was_elided: bool,
    /// An optional per-posting status marker.
    pub status: Option<Status>,
    /// The raw inline comment text, if any.
    pub comment: Option<String>,
    /// Tags parsed from `comment`.
    pub tags: Vec<Tag>,
    /// File and line this posting was parsed from.
    pub source: SourcePos,
}

/// The view of a [`Posting`].
pub struct PostingView {
    pub account: Seq<char>,
    pub amount: Option<AmountView>,
    pub was_elided: bool,
    pub status: Option<Status>,
    pub comment: Option<Seq<char>>,
    pub tags: Seq<TagView>,
    pub source: SourceView,
}

/// The view of an optional amount.
pub open spec fn opt_amount_view(o: Option<Amount>) -> Option<AmountView> {
    match o {
        Some(a) => Some(a@),
        None => None,
    }
}

impl View for Posting {
    type V = PostingView;

    open spec fn view(&self) -> PostingView {
        PostingView {
            account: self.account@,
            amount: opt_amount_view(self.amount),
            was_elided: self.was_elided,
            status: self.status,
            comment: opt_view(self.comment),
            tags: tags_view(self.tags@),
            source: self.source@,
        }
    }
}

/// Looks up the first tag with `key` in `tags`.
fn find_tag_in<'a>(tags: &'a Vec<Tag>, key: &str) -> (r: Option<&'a Tag>)
    ensures
        match r {
            Some(t) => find_tag(tags_view(tags@), key@) == Some(t@),
            None => find_tag(tags_view(tags@), key@) is None,
        },
{
    let mut i: usize = 0;
    let ghost all = tags_view(tags@);
    assert(all.skip(0) == all);
    while i < tags.len()
        invariant
            0 <= i <= tags.len(),
            all == tags_view(tags@),
            find_tag(all.skip(i as int), key@) == find_tag(all, key@),
        decreases tags.len() - i,
    {
        assert(all.skip(i as int)[0] == tags@[i as int]@);
        if strings_equal(&tags[i].key, &key.to_owned()) {
            return Some(&tags[i]);
        }
        assert(all.skip(i as int).drop_first() == all.skip(i + 1));
        i += 1;
    }
    None
}

impl Posting {
    /// The posting's own first tag with this key.
    pub fn tag(&self, key: &str) -> (r: Option<&Tag>)
        ensures
            match r {
                Some(t) => find_tag(self@.tags, key@) == Some(t@),
                None => find_tag(self@.tags, key@) is None,
            },
    {
        find_tag_in(&self.tags, key)
    }
}

/// A balanced group of postings recorded together.
#[derive(Debug, Clone)]
pub struct Transaction {
    /// The primary date.
    pub date: Date,
    /// An optional secondary date after `=`.
    pub secondary_date: Option<Date>,
    /// The transaction-level status marker.
    pub status: Status,
    /// An optional parenthesized reference code.
    pub code: Option<String>,
    /// The free-text description.
    pub description: String,
    /// The raw header comment text, if any.
    pub comment: Option<String>,
    /// Tags from the header comment and indented comment lines.
    pub tags: Vec<Tag>,
    /// The postings; they sum to zero per commodity.
    pub postings: Vec<Posting>,
    /// File and line of the header.
    pub source: SourcePos,
}

/// The view of a [`Transaction`].
pub struct TransactionView {
    pub date: Date,
    pub secondary_date: Option<Date>,
    pub status: Status,
    pub code: Option<Seq<char>>,
    pub description: Seq<char>,
    pub comment: Option<Seq<char>>,
    pub tags: Seq<TagView>,
    pub postings: Seq<PostingView>,
    pub source: SourceView,
}

/// The views of a list of postings.
pub open spec fn postings_view(ps: Seq<Posting>) -> Seq<PostingView> {
    ps.map_values(|p: Posting| p@)
}

impl View for Transaction {
    type V = TransactionView;

    open spec fn view(&self) -> TransactionView {
        TransactionView {
            date: self.date,
            secondary_date: self.secondary_date,
            status: self.status,
            code: opt_view(self.code),
            description: self.description@,
            comment: opt_view(self.comment),
            tags: tags_view(self.tags@),
            postings: postings_view(self.postings@),
            source: self.source@,
        }
    }
}

/// The views of a list of transactions.
pub open spec fn transactions_view(ts: Seq<Transaction>) -> Seq<TransactionView> {
    ts.map_values(|t: Transaction| t@)
}

/// The tag a posting carries for `key`, falling back to its transaction's.
pub open spec fn effective_tag_spec(t: TransactionView, p: PostingView, key: Seq<char>) -> Option<TagView> {
    match find_tag(p.tags, key) {
        Some(tag) => Some(tag),
        None => find_tag(t.tags, key),
    }
}

impl Transaction {
    /// The transaction's first tag with this key.
    pub fn tag(&self, key: &str) -> (r: Option<&Tag>)
        ensures
            match r {
                Some(t) => find_tag(self@.tags, key@) == Some(t@),
                None => find_tag(self@.tags, key@) is None,
            },
    {
        find_tag_in(&self.tags, key)
    }

    /// The tag for `key` on `posting`, falling back to this transaction's own tag.
    pub fn effective_tag<'a>(&'a self, posting: &'a Posting, key: &str) -> (r: Option<&'a Tag>)
        ensures
            match r {
                Some(t) => effective_tag_spec(self@, posting@, key@) == Some(t@),
                None => effective_tag_spec(self@, posting@, key@) is None,
            },
    {
        match posting.tag(key) {
            Some(t) => Some(t),
            None => self.tag(key),
        }
    }
}

} // verus!
