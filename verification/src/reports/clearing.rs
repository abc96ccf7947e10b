//! Clearing and suspense account analysis: the postings to a clearing account (and the accounts
//! under it) are grouped by a matching key, each group is netted, and the groups are reported
//! as cleared (one commodity, netting to zero) or outstanding.
use crate::date::Date;
use crate::layout::{nat_text, pad_end, pad_start, push_padded_end, push_padded_start, usize_text};
use crate::ledger::{
    copy_account, entries_under, lemma_sorted_seq_of, sorted_seq, strictly_sorted, Ledger,
};
use crate::model::{
    effective_tag_spec, source_text, Account, AmountView, PostingView, SourcePos, SourceView, TagView,
    TransactionView,
};
use crate::parser::{add_total, add_total_exec, add_total_fits, totals_view};
use crate::quantity::{hundredths_cut, numeral_2dp_value, qsum, qsum_fits, try_sum_all, Quantity};
use crate::reports::{insert_sorted, strings_view};
use crate::text::{seq_less, string_less, strings_equal};
use vstd::prelude::*;

verus! {

broadcast use vstd::string::group_string_axioms;

/// What links postings into one group: the value of their `match:` tag, or, for postings
/// without one, their commodity and absolute quantity.
pub enum GroupKey {
    /// The value of an explicit `match:` tag (empty for a bare `match:`).
    Tag(String),
    /// No `match:` tag: the commodity and the absolute quantity.
    Fallback(String, Quantity),
}

/// The view of a [`GroupKey`].
pub enum KeyView {
    Tag(Seq<char>),
    Fallback(Seq<char>, Quantity),
}

impl View for GroupKey {
    type V = KeyView;

    open spec fn view(&self) -> KeyView {
        match self {
            GroupKey::Tag(v) => KeyView::Tag(v@),
            GroupKey::Fallback(c, q) => KeyView::Fallback(c@, *q),
        }
    }
}

/// One posting of a group.
pub struct GroupMember {
    pub date: Date,
    pub description: String,
    pub quantity: Quantity,
    pub commodity: String,
    pub source: SourcePos,
}

/// The view of a [`GroupMember`].
pub struct MemberView {
    pub date: Date,
    pub description: Seq<char>,
    pub quantity: Quantity,
    pub commodity: Seq<char>,
    pub source: SourceView,
}

impl View for GroupMember {
    type V = MemberView;

    open spec fn view(&self) -> MemberView {
        MemberView {
            date: self.date,
            description: self.description@,
            quantity: self.quantity,
            commodity: self.commodity@,
            source: self.source@,
        }
    }
}

/// The view of a list of members.
pub open spec fn members_view(v: Seq<GroupMember>) -> Seq<MemberView> {
    v.map_values(|m: GroupMember| m@)
}

/// A netted group of postings.
pub struct ClearingGroup {
    pub label: String,
    pub members: Vec<GroupMember>,
    pub net: Quantity,
    pub commodity: String,
    pub mixed_commodity: bool,
    pub cleared: bool,
}

/// The view of a [`ClearingGroup`].
pub struct GroupView {
    pub label: Seq<char>,
    pub members: Seq<MemberView>,
    pub net: Quantity,
    pub commodity: Seq<char>,
    pub mixed_commodity: bool,
    pub cleared: bool,
}

impl View for ClearingGroup {
    type V = GroupView;

    open spec fn view(&self) -> GroupView {
        GroupView {
            label: self.label@,
            members: members_view(self.members@),
            net: self.net,
            commodity: self.commodity@,
            mixed_commodity: self.mixed_commodity,
            cleared: self.cleared,
        }
    }
}

/// The analysis of one clearing account.
pub struct ClearingAccountReport {
    pub account: Account,
    pub groups: Vec<ClearingGroup>,
    /// Per commodity, in order of first appearance, the value that passed through the cleared
    /// groups and cancelled: the sum of their members' positive quantities.
    pub cleared_totals: Vec<(String, Quantity)>,
}

/// The view of a [`ClearingAccountReport`].
pub struct ClearingReportView {
    pub account: Seq<char>,
    pub groups: Seq<GroupView>,
    pub cleared_totals: Seq<(Seq<char>, Quantity)>,
}

/// The view of a list of groups.
pub open spec fn groups_view(v: Seq<ClearingGroup>) -> Seq<GroupView> {
    v.map_values(|g: ClearingGroup| g@)
}

impl View for ClearingAccountReport {
    type V = ClearingReportView;

    open spec fn view(&self) -> ClearingReportView {
        ClearingReportView {
            account: self.account@,
            groups: groups_view(self.groups@),
            cleared_totals: totals_view(self.cleared_totals@),
        }
    }
}

/// The view of a list of reports.
pub open spec fn reports_view(v: Seq<ClearingAccountReport>) -> Seq<ClearingReportView> {
    v.map_values(|r: ClearingAccountReport| r@)
}

// ---------------------------------------------------------------------------------------------
// What the analysis holds.
// ---------------------------------------------------------------------------------------------

/// The key a posting with amount `am` is grouped by.
pub open spec fn key_of(t: TransactionView, p: PostingView, am: AmountView) -> KeyView {
    match effective_tag_spec(t, p, "match"@) {
        Some(tag) => KeyView::Tag(
            match tag.value {
                Some(v) => v,
                None => Seq::empty(),
            },
        ),
        None => KeyView::Fallback(am.commodity, am.quantity.magnitude()),
    }
}

/// The group member for a posting with amount `am`.
pub open spec fn member_of(t: TransactionView, p: PostingView, am: AmountView) -> MemberView {
    MemberView {
        date: t.date,
        description: t.description,
        quantity: am.quantity,
        commodity: am.commodity,
        source: p.source,
    }
}

/// Whether two keys denote the same group: equal tag values, or equal commodities and
/// numerically equal quantities.
pub open spec fn key_equiv(a: KeyView, b: KeyView) -> bool {
    match (a, b) {
        (KeyView::Tag(x), KeyView::Tag(y)) => x == y,
        (KeyView::Fallback(c, q), KeyView::Fallback(d, r)) => c == d && q.val() == r.val(),
        _ => false,
    }
}

/// The key order: tag keys first, by value; then fallback keys by commodity, then quantity.
pub open spec fn key_less(a: KeyView, b: KeyView) -> bool {
    match (a, b) {
        (KeyView::Tag(x), KeyView::Tag(y)) => seq_less(x, y),
        (KeyView::Tag(_), KeyView::Fallback(_, _)) => true,
        (KeyView::Fallback(_, _), KeyView::Tag(_)) => false,
        (KeyView::Fallback(c, q), KeyView::Fallback(d, r)) => seq_less(c, d) || (c == d && q.val()
            < r.val()),
    }
}

/// Keyed groups of members, kept in key order.
pub type Groups = Seq<(KeyView, Seq<MemberView>)>;

/// Index of the first group from `i` on whose key is equivalent to `k`.
pub open spec fn find_group_from(gs: Groups, k: KeyView, i: nat) -> Option<nat>
    decreases gs.len() - i,
{
    if i >= gs.len() {
        None
    } else if key_equiv(gs[i as int].0, k) {
        Some(i)
    } else {
        find_group_from(gs, k, i + 1)
    }
}

/// Index of the first group from `i` on whose key does not come before `k`.
pub open spec fn insert_pos_from(gs: Groups, k: KeyView, i: nat) -> nat
    decreases gs.len() - i,
{
    if i >= gs.len() {
        gs.len()
    } else if key_less(gs[i as int].0, k) {
        insert_pos_from(gs, k, i + 1)
    } else {
        i
    }
}

/// The groups with member `m` added under key `k`: to the group whose key is equivalent, or
/// to a new group placed in key order (a group keeps the key it was created with).
pub open spec fn add_member(gs: Groups, k: KeyView, m: MemberView) -> Groups {
    match find_group_from(gs, k, 0) {
        Some(i) => gs.update(i as int, (gs[i as int].0, gs[i as int].1.push(m))),
        None => gs.insert(insert_pos_from(gs, k, 0) as int, (k, seq![m])),
    }
}

/// The groups of the entries that carry an amount, in entry order within each group.
pub open spec fn group_entries(es: Seq<(TransactionView, PostingView)>) -> Groups
    decreases es.len(),
{
    if es.len() == 0 {
        Seq::empty()
    } else {
        let prev = group_entries(es.drop_last());
        let t = es.last().0;
        let p = es.last().1;
        match p.amount {
            Some(am) => add_member(prev, key_of(t, p, am), member_of(t, p, am)),
            None => prev,
        }
    }
}

/// The commodities of the members.
pub open spec fn member_commodities(ms: Seq<MemberView>) -> Set<Seq<char>> {
    Set::new(|c: Seq<char>| exists|i: int| 0 <= i < ms.len() && ms[i].commodity == c)
}

/// The quantities of the members.
pub open spec fn member_quantities(ms: Seq<MemberView>) -> Seq<Quantity> {
    ms.map_values(|m: MemberView| m.quantity)
}

/// A group's label: `match:VALUE` (or `match:(no value)`), or `amount Q C` for a fallback key.
pub open spec fn label_of(k: KeyView) -> Seq<char> {
    match k {
        KeyView::Tag(v) => if v.len() == 0 {
            "match:(no value)"@
        } else {
            "match:"@ + v
        },
        KeyView::Fallback(c, q) => "amount "@ + q.text_2dp() + " "@ + c,
    }
}

/// The netted group for key `k` and members `ms`.
pub open spec fn group_spec(k: KeyView, ms: Seq<MemberView>) -> GroupView {
    let cs = sorted_seq(member_commodities(ms));
    let mixed = cs.len() > 1;
    let net = qsum(member_quantities(ms));
    GroupView {
        label: label_of(k),
        members: ms,
        net,
        commodity: if cs.len() > 0 {
            cs[0]
        } else {
            Seq::empty()
        },
        mixed_commodity: mixed,
        cleared: !mixed && net.val() == 0,
    }
}

/// Report order: outstanding groups before cleared ones, then by label.
pub open spec fn group_before(a: GroupView, b: GroupView) -> bool {
    (!a.cleared && b.cleared) || (a.cleared == b.cleared && seq_less(a.label, b.label))
}

/// `s` with `x` placed after every group that does not come after it.
pub open spec fn insert_group(s: Seq<GroupView>, x: GroupView) -> Seq<GroupView>
    decreases s.len(),
{
    if s.len() == 0 {
        seq![x]
    } else if group_before(x, s.last()) {
        insert_group(s.drop_last(), x).push(s.last())
    } else {
        s.push(x)
    }
}

/// The groups stably sorted into report order.
pub open spec fn sort_groups(s: Seq<GroupView>) -> Seq<GroupView>
    decreases s.len(),
{
    if s.len() == 0 {
        Seq::empty()
    } else {
        insert_group(sort_groups(s.drop_last()), s.last())
    }
}

/// The netted groups of the entries, in key order.
pub open spec fn built_groups(es: Seq<(TransactionView, PostingView)>) -> Seq<GroupView> {
    group_entries(es).map_values(|g: (KeyView, Seq<MemberView>)| group_spec(g.0, g.1))
}

/// Per-commodity totals, in order of first appearance.
pub type Totals = Seq<(Seq<char>, Quantity)>;

/// `acc` with the positive quantities of the members added, per commodity.
pub open spec fn inflow(acc: Totals, ms: Seq<MemberView>) -> Totals
    decreases ms.len(),
{
    if ms.len() == 0 {
        acc
    } else {
        let prev = inflow(acc, ms.drop_last());
        let m = ms.last();
        if m.quantity.val() > 0 {
            add_total(prev, m.commodity, m.quantity)
        } else {
            prev
        }
    }
}

/// Whether every addition [`inflow`] makes is exact.
pub open spec fn inflow_fits(acc: Totals, ms: Seq<MemberView>) -> bool
    decreases ms.len(),
{
    if ms.len() == 0 {
        true
    } else {
        inflow_fits(acc, ms.drop_last()) && (ms.last().quantity.val() > 0 ==> add_total_fits(
            inflow(acc, ms.drop_last()),
            ms.last().commodity,
            ms.last().quantity,
        ))
    }
}

/// The value that passed through the cleared groups and cancelled, per commodity in order of
/// first appearance: the sum of the cleared groups' positive member quantities.
pub open spec fn cleared_totals(gs: Seq<GroupView>) -> Totals
    decreases gs.len(),
{
    if gs.len() == 0 {
        Seq::empty()
    } else {
        let prev = cleared_totals(gs.drop_last());
        if gs.last().cleared {
            inflow(prev, gs.last().members)
        } else {
            prev
        }
    }
}

/// Whether every addition [`cleared_totals`] makes is exact.
pub open spec fn cleared_totals_fit(gs: Seq<GroupView>) -> bool
    decreases gs.len(),
{
    if gs.len() == 0 {
        true
    } else {
        cleared_totals_fit(gs.drop_last()) && (gs.last().cleared ==> inflow_fits(
            cleared_totals(gs.drop_last()),
            gs.last().members,
        ))
    }
}

/// The sorted groups of account `a` over the entries.
pub open spec fn account_groups(es: Seq<(TransactionView, PostingView)>, a: Seq<char>) -> Seq<GroupView> {
    sort_groups(built_groups(entries_under(es, a)))
}

/// The analysis of account `a` over the entries.
pub open spec fn account_report_spec(es: Seq<(TransactionView, PostingView)>, a: Seq<char>) -> ClearingReportView {
    ClearingReportView {
        account: a,
        groups: account_groups(es, a),
        cleared_totals: cleared_totals(account_groups(es, a)),
    }
}

/// Whether every sum the analysis of account `a` makes is exact: the group nets and the
/// cleared totals.
pub open spec fn analysis_fits(es: Seq<(TransactionView, PostingView)>, a: Seq<char>) -> bool {
    nets_fit(es, a) && cleared_totals_fit(account_groups(es, a))
}

/// An exact prefix of the members' additions.
proof fn lemma_inflow_fits_prefix(acc: Totals, ms: Seq<MemberView>, j: int)
    requires
        0 <= j <= ms.len(),
        inflow_fits(acc, ms),
    ensures
        inflow_fits(acc, ms.take(j)),
    decreases ms.len(),
{
    if j == ms.len() {
        assert(ms.take(j) =~= ms);
    } else {
        assert(ms.drop_last().take(j) =~= ms.take(j));
        lemma_inflow_fits_prefix(acc, ms.drop_last(), j);
    }
}

/// An exact prefix of the groups' additions.
proof fn lemma_cleared_fits_prefix(gs: Seq<GroupView>, n: int)
    requires
        0 <= n <= gs.len(),
        cleared_totals_fit(gs),
    ensures
        cleared_totals_fit(gs.take(n)),
    decreases gs.len(),
{
    if n == gs.len() {
        assert(gs.take(n) =~= gs);
    } else {
        assert(gs.drop_last().take(n) =~= gs.take(n));
        lemma_cleared_fits_prefix(gs.drop_last(), n);
    }
}

/// Whether every group net of account `a` is an exact sum.
pub open spec fn nets_fit(es: Seq<(TransactionView, PostingView)>, a: Seq<char>) -> bool {
    let gs = group_entries(entries_under(es, a));
    forall|i: int| 0 <= i < gs.len() ==> qsum_fits(member_quantities(#[trigger] gs[i].1))
}

// ---------------------------------------------------------------------------------------------
// Building the analysis.
// ---------------------------------------------------------------------------------------------

/// The view of a list of keyed groups.
pub open spec fn keyed_view(v: Seq<(GroupKey, Vec<GroupMember>)>) -> Groups {
    v.map_values(|g: (GroupKey, Vec<GroupMember>)| (g.0@, members_view(g.1@)))
}

fn key_equiv_exec(a: &GroupKey, b: &GroupKey) -> (r: bool)
    ensures
        r == key_equiv(a@, b@),
{
    match (a, b) {
        (GroupKey::Tag(x), GroupKey::Tag(y)) => strings_equal(x, y),
        (GroupKey::Fallback(c, q), GroupKey::Fallback(d, r)) => strings_equal(c, d) && q.equals(r),
        _ => false,
    }
}

fn key_less_exec(a: &GroupKey, b: &GroupKey) -> (r: bool)
    ensures
        r == key_less(a@, b@),
{
    match (a, b) {
        (GroupKey::Tag(x), GroupKey::Tag(y)) => string_less(x, y),
        (GroupKey::Tag(_), GroupKey::Fallback(_, _)) => true,
        (GroupKey::Fallback(_, _), GroupKey::Tag(_)) => false,
        (GroupKey::Fallback(c, q), GroupKey::Fallback(d, r)) => string_less(c, d) || (strings_equal(
            c,
            d,
        ) && q.less_than(r)),
    }
}

fn add_member_exec(gs: &mut Vec<(GroupKey, Vec<GroupMember>)>, k: GroupKey, m: GroupMember)
    ensures
        keyed_view(final(gs)@) == add_member(keyed_view(old(gs)@), k@, m@),
{
    let ghost gv = keyed_view(gs@);
    let mut i: usize = 0;
    while i < gs.len() && !key_equiv_exec(&gs[i].0, &k)
        invariant
            0 <= i <= gs.len(),
            gv == keyed_view(gs@),
            find_group_from(gv, k@, 0) == find_group_from(gv, k@, i as nat),
        decreases gs.len() - i,
    {
        i += 1;
    }
    if i < gs.len() {
        let (key, mut members) = gs.remove(i);
        let ghost mv = members_view(members@);
        members.push(m);
        assert(members_view(members@) =~= mv.push(m@));
        gs.insert(i, (key, members));
        assert(keyed_view(gs@) =~= gv.update(i as int, (gv[i as int].0, gv[i as int].1.push(m@))));
    } else {
        let mut j: usize = 0;
        while j < gs.len() && key_less_exec(&gs[j].0, &k)
            invariant
                0 <= j <= gs.len(),
                gv == keyed_view(gs@),
                insert_pos_from(gv, k@, 0) == insert_pos_from(gv, k@, j as nat),
            decreases gs.len() - j,
        {
            j += 1;
        }
        let ghost kv = k@;
        let ghost mvw = m@;
        let mut members: Vec<GroupMember> = Vec::new();
        members.push(m);
        assert(members_view(members@) =~= seq![mvw]);
        gs.insert(j, (k, members));
        assert(keyed_view(gs@) =~= gv.insert(j as int, (kv, seq![mvw])));
    }
}

fn label_exec(k: &GroupKey) -> (r: String)
    ensures
        r@ == label_of(k@),
{
    match k {
        GroupKey::Tag(v) => {
            if v.as_str().is_empty() {
                "match:(no value)".to_owned()
            } else {
                let mut s = "match:".to_owned();
                s.append(v.as_str());
                s
            }
        },
        GroupKey::Fallback(c, q) => {
            let mut s = "amount ".to_owned();
            let t = q.to_text_2dp();
            s.append(t.as_str());
            s.append(" ");
            s.append(c.as_str());
            s
        },
    }
}

fn build_group(key: &GroupKey, members: Vec<GroupMember>) -> (r: Option<ClearingGroup>)
    ensures
        r is Some <==> qsum_fits(member_quantities(members_view(members@))),
        r matches Some(g) ==> g@ == group_spec(key@, members_view(members@)),
{
    let ghost mv = members_view(members@);
    let mut cs: Vec<String> = Vec::new();
    let mut qs: Vec<Quantity> = Vec::new();
    let mut i: usize = 0;
    assert(strings_view(cs@).to_set() =~= member_commodities(mv.take(0)));
    while i < members.len()
        invariant
            0 <= i <= members.len(),
            mv == members_view(members@),
            strictly_sorted(strings_view(cs@)),
            strings_view(cs@).to_set() == member_commodities(mv.take(i as int)),
            qs@ == member_quantities(mv.take(i as int)),
        decreases members.len() - i,
    {
        insert_sorted(&mut cs, &members[i].commodity);
        qs.push(members[i].quantity);
        proof {
            let c = mv[i as int].commodity;
            assert(member_commodities(mv.take(i + 1)) =~= member_commodities(mv.take(i as int)).insert(c)) by {
                assert forall|x: Seq<char>| member_commodities(mv.take(i + 1)).contains(x) implies member_commodities(
                    mv.take(i as int),
                ).insert(c).contains(x) by {
                    let k = choose|k: int| 0 <= k < i + 1 && (#[trigger] mv.take(i + 1)[k]).commodity == x;
                    if k < i {
                        assert(mv.take(i as int)[k] == mv[k]);
                    }
                }
                assert forall|x: Seq<char>| member_commodities(mv.take(i as int)).insert(c).contains(x) implies member_commodities(
                    mv.take(i + 1),
                ).contains(x) by {
                    if x == c {
                        assert(mv.take(i + 1)[i as int].commodity == x);
                    } else {
                        let k = choose|k: int| 0 <= k < i && (#[trigger] mv.take(i as int)[k]).commodity == x;
                        assert(mv.take(i + 1)[k] == mv[k]);
                    }
                }
            }
            assert(member_quantities(mv.take(i + 1)) =~= member_quantities(mv.take(i as int)).push(
                members@[i as int].quantity,
            ));
        }
        i += 1;
    }
    proof {
        assert(mv.take(members.len() as int) =~= mv);
        lemma_sorted_seq_of(strings_view(cs@));
    }
    let mixed_commodity = cs.len() > 1;
    let commodity = if cs.len() > 0 {
        cs[0].clone()
    } else {
        String::new()
    };
    let net = match try_sum_all(&qs) {
        Some(q) => q,
        None => {
            return None;
        },
    };
    let cleared = !mixed_commodity && net.is_zero();
    let label = label_exec(key);
    Some(ClearingGroup { label, members, net, commodity, mixed_commodity, cleared })
}

fn group_is_before(a: &ClearingGroup, b: &ClearingGroup) -> (r: bool)
    ensures
        r == group_before(a@, b@),
{
    (!a.cleared && b.cleared) || (a.cleared == b.cleared && string_less(&a.label, &b.label))
}

proof fn lemma_insert_group_at(s: Seq<GroupView>, x: GroupView, j: int)
    requires
        0 <= j <= s.len(),
        forall|k: int| j <= k < s.len() ==> group_before(x, #[trigger] s[k]),
        j > 0 ==> !group_before(x, s[j - 1]),
    ensures
        insert_group(s, x) == s.insert(j, x),
    decreases s.len(),
{
    if s.len() == 0 {
        assert(s.insert(0, x) =~= seq![x]);
    } else if j == s.len() {
        assert(s.insert(j, x) =~= s.push(x));
    } else {
        lemma_insert_group_at(s.drop_last(), x, j);
        assert(s.drop_last().insert(j, x).push(s.last()) =~= s.insert(j, x));
    }
}

/// Analyzes one clearing account, or gives `None` where a group's net is not an exact sum.
fn analyze_account(ledger: &Ledger, account: &Account) -> (r: Option<ClearingAccountReport>)
    ensures
        r is Some <==> analysis_fits(ledger.entries(), account@),
        r matches Some(rep) ==> rep@ == account_report_spec(ledger.entries(), account@),
{
    let refs = ledger.postings_in(account);
    let ghost es = entries_under(ledger.entries(), account@);
    let mut keyed: Vec<(GroupKey, Vec<GroupMember>)> = Vec::new();
    let mut i: usize = 0;
    assert(es.take(0) =~= Seq::<(TransactionView, PostingView)>::empty());
    assert(keyed_view(keyed@) =~= group_entries(es.take(0)));
    while i < refs.len()
        invariant
            0 <= i <= refs.len(),
            es == crate::ledger::refs_view(refs@),
            keyed_view(keyed@) == group_entries(es.take(i as int)),
        decreases refs.len() - i,
    {
        let pr = refs[i];
        proof {
            assert(es.take(i + 1).drop_last() =~= es.take(i as int));
            assert(es.take(i + 1).last() == (pr.transaction@, pr.posting@));
        }
        match &pr.posting.amount {
            Some(amount) => {
                let key = match pr.transaction.effective_tag(pr.posting, "match") {
                    Some(tag) => GroupKey::Tag(
                        match &tag.value {
                            Some(v) => v.clone(),
                            None => String::new(),
                        },
                    ),
                    None => GroupKey::Fallback(amount.commodity.clone(), amount.quantity.abs()),
                };
                let member = GroupMember {
                    date: pr.transaction.date,
                    description: pr.transaction.description.clone(),
                    quantity: amount.quantity,
                    commodity: amount.commodity.clone(),
                    source: SourcePos { file: pr.posting.source.file.clone(), line: pr.posting.source.line },
                };
                assert(key@ == key_of(pr.transaction@, pr.posting@, amount@));
                assert(member@ == member_of(pr.transaction@, pr.posting@, amount@));
                add_member_exec(&mut keyed, key, member);
            },
            None => {},
        }
        i += 1;
    }
    assert(es.take(refs.len() as int) =~= es);
    let ghost gv = keyed_view(keyed@);
    let ghost built = built_groups(es);
    let mut rest = keyed;
    let mut out: Vec<ClearingGroup> = Vec::new();
    let mut n: usize = 0;
    let total = rest.len();
    assert(built.take(0) =~= Seq::<GroupView>::empty());
    assert(groups_view(out@) =~= sort_groups(built.take(0)));
    while n < total
        invariant
            0 <= n <= total,
            total == gv.len(),
            gv == group_entries(es),
            built == built_groups(es),
            keyed_view(rest@) == gv.skip(n as int),
            forall|k: int| 0 <= k < n ==> qsum_fits(member_quantities(#[trigger] gv[k].1)),
            es == entries_under(ledger.entries(), account@),
            groups_view(out@) == sort_groups(built.take(n as int)),
        decreases total - n,
    {
        let ghost rv = keyed_view(rest@);
        assert(rv.len() == rest@.len());
        assert(rv[0] == gv[n as int]);
        let (key, members) = rest.remove(0);
        assert(keyed_view(rest@) =~= rv.drop_first());
        assert(gv.skip(n as int).drop_first() =~= gv.skip(n + 1));
        let group = match build_group(&key, members) {
            Some(g) => g,
            None => {
                assert(!qsum_fits(member_quantities(gv[n as int].1)));
                return None;
            },
        };
        let ghost ov = groups_view(out@);
        let mut j = out.len();
        while j > 0 && group_is_before(&group, &out[j - 1])
            invariant
                0 <= j <= out.len(),
                ov == groups_view(out@),
                forall|k: int| j <= k < out.len() ==> group_before(group@, #[trigger] ov[k]),
            decreases j,
        {
            j -= 1;
        }
        proof {
            lemma_insert_group_at(ov, group@, j as int);
            assert(built.take(n + 1).drop_last() =~= built.take(n as int));
            assert(built[n as int] == group_spec(gv[n as int].0, gv[n as int].1));
            assert(built.take(n + 1).last() == group@);
        }
        let ghost gw = group@;
        out.insert(j, group);
        assert(groups_view(out@) =~= ov.insert(j as int, gw));
        n += 1;
    }
    assert(built.take(total as int) =~= built);
    assert(nets_fit(ledger.entries(), account@));
    let ghost gs = groups_view(out@);
    assert(gs == account_groups(ledger.entries(), account@));
    let mut totals: Vec<(String, Quantity)> = Vec::new();
    let mut n: usize = 0;
    assert(gs.take(0) =~= Seq::<GroupView>::empty());
    assert(totals_view(totals@) =~= Seq::<(Seq<char>, Quantity)>::empty());
    while n < out.len()
        invariant
            0 <= n <= out.len(),
            gs == groups_view(out@),
            gs == account_groups(ledger.entries(), account@),
            nets_fit(ledger.entries(), account@),
            totals_view(totals@) == cleared_totals(gs.take(n as int)),
            cleared_totals_fit(gs.take(n as int)),
        decreases out.len() - n,
    {
        proof {
            assert(gs.take(n + 1).drop_last() =~= gs.take(n as int));
            assert(gs.take(n + 1).last() == gs[n as int]);
        }
        if out[n].cleared {
            let ghost base = totals_view(totals@);
            let ghost ms = gs[n as int].members;
            assert(ms == members_view(out@[n as int].members@));
            let mut j: usize = 0;
            assert(ms.take(0) =~= Seq::<MemberView>::empty());
            while j < out[n].members.len()
                invariant
                    0 <= n < out.len(),
                    0 <= j <= out@[n as int].members.len(),
                    gs == groups_view(out@),
                    gs == account_groups(ledger.entries(), account@),
                    nets_fit(ledger.entries(), account@),
                    gs[n as int].cleared,
                    base == cleared_totals(gs.take(n as int)),
                    gs.take(n + 1).drop_last() == gs.take(n as int),
                    gs.take(n + 1).last() == gs[n as int],
                    ms == gs[n as int].members,
                    ms == members_view(out@[n as int].members@),
                    totals_view(totals@) == inflow(base, ms.take(j as int)),
                    inflow_fits(base, ms.take(j as int)),
                decreases out@[n as int].members.len() - j,
            {
                proof {
                    assert(ms.take(j + 1).drop_last() =~= ms.take(j as int));
                    assert(ms.take(j + 1).last() == ms[j as int]);
                    assert(ms[j as int] == out@[n as int].members@[j as int]@);
                }
                let q = out[n].members[j].quantity;
                if q.is_positive() {
                    if !add_total_exec(&mut totals, &out[n].members[j].commodity, q) {
                        proof {
                            assert(!inflow_fits(base, ms.take(j + 1)));
                            if cleared_totals_fit(gs) {
                                lemma_cleared_fits_prefix(gs, n + 1);
                                lemma_inflow_fits_prefix(base, ms, j + 1);
                            }
                        }
                        return None;
                    }
                }
                j += 1;
            }
            assert(ms.take(ms.len() as int) =~= ms);
        }
        n += 1;
    }
    assert(gs.take(out.len() as int) =~= gs);
    Some(ClearingAccountReport { account: copy_account(account), groups: out, cleared_totals: totals })
}

/// Analyzes each of the clearing accounts, in order, or gives `None` where a group's net is
/// not an exact sum (where `Decimal` addition would overflow).
pub fn try_analyze(ledger: &Ledger, accounts: &[Account]) -> (r: Option<Vec<ClearingAccountReport>>)
    ensures
        r is Some <==> forall|k: int|
            0 <= k < accounts@.len() ==> analysis_fits(ledger.entries(), #[trigger] accounts@[k]@),
        r matches Some(v) ==> reports_view(v@) == accounts@.map_values(
            |a: Account| account_report_spec(ledger.entries(), a@),
        ),
{
    let mut out: Vec<ClearingAccountReport> = Vec::new();
    let mut i: usize = 0;
    while i < accounts.len()
        invariant
            0 <= i <= accounts.len(),
            forall|k: int| 0 <= k < i ==> analysis_fits(ledger.entries(), #[trigger] accounts@[k]@),
            reports_view(out@) == accounts@.take(i as int).map_values(
                |a: Account| account_report_spec(ledger.entries(), a@),
            ),
        decreases accounts.len() - i,
    {
        let report = match analyze_account(ledger, &accounts[i]) {
            Some(rep) => rep,
            None => {
                return None;
            },
        };
        let ghost before = reports_view(out@);
        let ghost rep = report@;
        out.push(report);
        assert(reports_view(out@) =~= before.push(rep));
        assert(accounts@.take(i + 1) =~= accounts@.take(i as int).push(accounts@[i as int]));
        assert(accounts@.take(i + 1).map_values(|a: Account| account_report_spec(ledger.entries(), a@))
            =~= accounts@.take(i as int).map_values(
            |a: Account| account_report_spec(ledger.entries(), a@),
        ).push(account_report_spec(ledger.entries(), accounts@[i as int]@)));
        i += 1;
    }
    assert(accounts@.take(accounts.len() as int) =~= accounts@);
    Some(out)
}

/// Analyzes each of the clearing accounts, in order: its postings (and those of the accounts
/// under it) grouped by `match:` tag value, or else by commodity and absolute quantity, each
/// group netted, and the groups ordered outstanding first, then by label.
pub fn analyze(ledger: &Ledger, accounts: &[Account]) -> (r: Vec<ClearingAccountReport>)
    requires
        forall|k: int| 0 <= k < accounts@.len() ==> analysis_fits(ledger.entries(), #[trigger] accounts@[k]@),
    ensures
        reports_view(r@) == accounts@.map_values(
            |a: Account| account_report_spec(ledger.entries(), a@),
        ),
{
    match try_analyze(ledger, accounts) {
        Some(v) => v,
        None => {
            proof {
                assert(false);
            }
            Vec::new()
        },
    }
}

// ---------------------------------------------------------------------------------------------
// Counting and rendering.
// ---------------------------------------------------------------------------------------------

/// Number of cleared groups.
pub open spec fn cleared_in(gs: Seq<GroupView>) -> nat
    decreases gs.len(),
{
    if gs.len() == 0 {
        0
    } else {
        cleared_in(gs.drop_last()) + if gs.last().cleared {
            1nat
        } else {
            0nat
        }
    }
}

/// Number of groups that are not cleared.
pub open spec fn outstanding_in(gs: Seq<GroupView>) -> nat
    decreases gs.len(),
{
    if gs.len() == 0 {
        0
    } else {
        outstanding_in(gs.drop_last()) + if gs.last().cleared {
            0nat
        } else {
            1nat
        }
    }
}

impl ClearingAccountReport {
    /// Number of cleared groups.
    pub fn cleared_count(&self) -> (r: usize)
        ensures
            r == cleared_in(self@.groups),
    {
        let ghost gv = self@.groups;
        let mut n: usize = 0;
        let mut i: usize = 0;
        assert(gv.take(0) =~= Seq::<GroupView>::empty());
        while i < self.groups.len()
            invariant
                0 <= i <= self.groups.len(),
                gv == self@.groups,
                n == cleared_in(gv.take(i as int)),
                n <= i,
            decreases self.groups.len() - i,
        {
            proof {
                assert(gv.take(i + 1).drop_last() =~= gv.take(i as int));
                assert(gv.take(i + 1).last() == self.groups@[i as int]@);
            }
            if self.groups[i].cleared {
                n += 1;
            }
            i += 1;
        }
        assert(gv.take(self.groups.len() as int) =~= gv);
        n
    }

    /// Number of groups that are not cleared.
    pub fn outstanding_count(&self) -> (r: usize)
        ensures
            r == outstanding_in(self@.groups),
    {
        let ghost gv = self@.groups;
        let mut n: usize = 0;
        let mut i: usize = 0;
        assert(gv.take(0) =~= Seq::<GroupView>::empty());
        while i < self.groups.len()
            invariant
                0 <= i <= self.groups.len(),
                gv == self@.groups,
                n == outstanding_in(gv.take(i as int)),
                n <= i,
            decreases self.groups.len() - i,
        {
            proof {
                assert(gv.take(i + 1).drop_last() =~= gv.take(i as int));
                assert(gv.take(i + 1).last() == self.groups@[i as int]@);
            }
            if !self.groups[i].cleared {
                n += 1;
            }
            i += 1;
        }
        assert(gv.take(self.groups.len() as int) =~= gv);
        n
    }
}

/// A group's status word.
pub open spec fn status_text(g: GroupView) -> Seq<char> {
    if g.mixed_commodity {
        "ANOMALY (mixed commodities)"@
    } else if g.cleared {
        "CLEARED"@
    } else {
        "OUTSTANDING"@
    }
}

/// A member's line: date, description, quantity, commodity and source position.
pub open spec fn member_line(m: MemberView) -> Seq<char> {
    "      "@ + m.date.text() + "  "@ + pad_end(m.description, 40) + "  "@ + pad_start(
        m.quantity.text_2dp(),
        14,
    ) + " "@ + m.commodity + "  ("@ + source_text(m.source) + ")\n"@
}

/// The members' lines.
pub open spec fn member_lines(ms: Seq<MemberView>) -> Seq<char>
    decreases ms.len(),
{
    if ms.len() == 0 {
        Seq::empty()
    } else {
        member_lines(ms.drop_last()) + member_line(ms.last())
    }
}

/// A group's heading line.
pub open spec fn group_line(g: GroupView) -> Seq<char> {
    "  ["@ + status_text(g) + "] "@ + g.label + "  net "@ + g.net.text_2dp() + " "@ + g.commodity
        + " ("@ + nat_text(g.members.len()) + " posting(s))\n"@
}

/// The groups' texts.
pub open spec fn groups_text(gs: Seq<GroupView>) -> Seq<char>
    decreases gs.len(),
{
    if gs.len() == 0 {
        Seq::empty()
    } else {
        groups_text(gs.drop_last()) + group_line(gs.last()) + member_lines(gs.last().members)
    }
}

/// The cleared totals, one line per commodity.
pub open spec fn cleared_lines(ts: Totals) -> Seq<char>
    decreases ts.len(),
{
    if ts.len() == 0 {
        Seq::empty()
    } else {
        cleared_lines(ts.drop_last()) + "  cleared total: "@ + ts.last().1.text_2dp() + " "@
            + ts.last().0 + "\n"@
    }
}

/// One account's analysis as text, followed by a blank line.
pub open spec fn report_text(r: ClearingReportView) -> Seq<char> {
    "Clearing account: "@ + r.account + "\n"@ + "  "@ + nat_text(cleared_in(r.groups))
        + " cleared group(s), "@ + nat_text(outstanding_in(r.groups)) + " outstanding group(s)\n"@
        + cleared_lines(r.cleared_totals) + (if r.groups.len() == 0 {
        "  (no postings)\n"@
    } else {
        Seq::empty()
    }) + groups_text(r.groups) + "\n"@
}

/// The analyses' texts.
pub open spec fn render_spec(v: Seq<ClearingReportView>) -> Seq<char>
    decreases v.len(),
{
    if v.len() == 0 {
        Seq::empty()
    } else {
        render_spec(v.drop_last()) + report_text(v.last())
    }
}

fn push_member_line(out: &mut String, m: &GroupMember)
    ensures
        final(out)@ == old(out)@ + member_line(m@),
{
    let ghost start = out@;
    out.append("      ");
    let d = m.date.to_text();
    out.append(d.as_str());
    out.append("  ");
    push_padded_end(out, m.description.as_str(), 40);
    out.append("  ");
    let q = m.quantity.to_text_2dp();
    push_padded_start(out, q.as_str(), 14);
    out.append(" ");
    out.append(m.commodity.as_str());
    out.append("  (");
    let src = m.source.to_text();
    out.append(src.as_str());
    out.append(")\n");
    assert(out@ =~= start + member_line(m@));
}

fn push_group(out: &mut String, g: &ClearingGroup)
    ensures
        final(out)@ == old(out)@ + group_line(g@) + member_lines(g@.members),
{
    let ghost start = out@;
    out.append("  [");
    if g.mixed_commodity {
        out.append("ANOMALY (mixed commodities)");
    } else if g.cleared {
        out.append("CLEARED");
    } else {
        out.append("OUTSTANDING");
    }
    out.append("] ");
    out.append(g.label.as_str());
    out.append("  net ");
    let net = g.net.to_text_2dp();
    out.append(net.as_str());
    out.append(" ");
    out.append(g.commodity.as_str());
    out.append(" (");
    let n = usize_text(g.members.len());
    out.append(n.as_str());
    out.append(" posting(s))\n");
    assert(out@ =~= start + group_line(g@));
    let ghost head = out@;
    let ghost mv = g@.members;
    let mut i: usize = 0;
    assert(mv.take(0) =~= Seq::<MemberView>::empty());
    assert(head + member_lines(mv.take(0)) =~= head);
    while i < g.members.len()
        invariant
            0 <= i <= g.members.len(),
            mv == g@.members,
            out@ == head + member_lines(mv.take(i as int)),
        decreases g.members.len() - i,
    {
        push_member_line(out, &g.members[i]);
        proof {
            assert(mv.take(i + 1).drop_last() =~= mv.take(i as int));
            assert(mv.take(i + 1).last() == g.members@[i as int]@);
            assert(out@ =~= head + member_lines(mv.take(i + 1)));
        }
        i += 1;
    }
    assert(mv.take(g.members.len() as int) =~= mv);
    assert(out@ =~= start + group_line(g@) + member_lines(g@.members));
}

#[verifier::spinoff_prover]
#[verifier::rlimit(40)]
fn push_report(out: &mut String, report: &ClearingAccountReport)
    ensures
        final(out)@ == old(out)@ + report_text(report@),
{
    let ghost start = out@;
    out.append("Clearing account: ");
    out.append(report.account.0.as_str());
    out.append("\n");
    out.append("  ");
    let c = usize_text(report.cleared_count());
    out.append(c.as_str());
    out.append(" cleared group(s), ");
    let o = usize_text(report.outstanding_count());
    out.append(o.as_str());
    out.append(" outstanding group(s)\n");
    let ghost counts = out@;
    let ghost tv = report@.cleared_totals;
    let mut t: usize = 0;
    assert(tv.take(0) =~= Seq::<(Seq<char>, Quantity)>::empty());
    assert(counts + cleared_lines(tv.take(0)) =~= counts);
    while t < report.cleared_totals.len()
        invariant
            0 <= t <= report.cleared_totals.len(),
            tv == report@.cleared_totals,
            out@ == counts + cleared_lines(tv.take(t as int)),
        decreases report.cleared_totals.len() - t,
    {
        let entry = &report.cleared_totals[t];
        out.append("  cleared total: ");
        let q = entry.1.to_text_2dp();
        out.append(q.as_str());
        out.append(" ");
        out.append(entry.0.as_str());
        out.append("\n");
        proof {
            assert(tv[t as int] == (entry.0@, entry.1));
            assert(tv.take(t + 1).drop_last() =~= tv.take(t as int));
            assert(tv.take(t + 1).last() == tv[t as int]);
            assert(out@ =~= counts + cleared_lines(tv.take(t + 1)));
        }
        t += 1;
    }
    assert(tv.take(report.cleared_totals.len() as int) =~= tv);
    if report.groups.len() == 0 {
        out.append("  (no postings)\n");
    }
    assert(out@ =~= start + "Clearing account: "@ + report@.account + "\n"@ + "  "@ + nat_text(
        cleared_in(report@.groups),
    ) + " cleared group(s), "@ + nat_text(outstanding_in(report@.groups))
        + " outstanding group(s)\n"@ + cleared_lines(report@.cleared_totals) + (if report@.groups.len() == 0 {
        "  (no postings)\n"@
    } else {
        Seq::empty()
    }));
    let ghost head = out@;
    let ghost gv = report@.groups;
    let mut i: usize = 0;
    assert(gv.take(0) =~= Seq::<GroupView>::empty());
    assert(head + groups_text(gv.take(0)) =~= head);
    while i < report.groups.len()
        invariant
            0 <= i <= report.groups.len(),
            gv == report@.groups,
            out@ == head + groups_text(gv.take(i as int)),
        decreases report.groups.len() - i,
    {
        push_group(out, &report.groups[i]);
        proof {
            assert(gv.take(i + 1).drop_last() =~= gv.take(i as int));
            assert(gv.take(i + 1).last() == report.groups@[i as int]@);
            assert(out@ =~= head + groups_text(gv.take(i + 1)));
        }
        i += 1;
    }
    assert(gv.take(report.groups.len() as int) =~= gv);
    out.append("\n");
    assert(out@ =~= start + report_text(report@));
}

/// The analyses as plain text: for each account, its heading, the cleared and outstanding
/// counts, the value that passed through the cleared groups per commodity, then each group's line followed by its members' lines, then a blank line.
pub fn render(reports: &[ClearingAccountReport]) -> (r: String)
    ensures
        r@ == render_spec(reports@.map_values(|x: ClearingAccountReport| x@)),
{
    let ghost v = reports@.map_values(|x: ClearingAccountReport| x@);
    let mut out = String::new();
    let mut i: usize = 0;
    assert(v.take(0) =~= Seq::<ClearingReportView>::empty());
    while i < reports.len()
        invariant
            0 <= i <= reports.len(),
            v == reports@.map_values(|x: ClearingAccountReport| x@),
            out@ == render_spec(v.take(i as int)),
        decreases reports.len() - i,
    {
        push_report(&mut out, &reports[i]);
        proof {
            assert(v.take(i + 1).drop_last() =~= v.take(i as int));
            assert(v.take(i + 1).last() == reports@[i as int]@);
        }
        i += 1;
    }
    assert(v.take(reports.len() as int) =~= v);
    out
}

// ---------------------------------------------------------------------------------------------
// Laws.
// ---------------------------------------------------------------------------------------------

/// Whether the groups are in report order: none comes before one ahead of it.
pub open spec fn in_report_order(s: Seq<GroupView>) -> bool {
    forall|i: int, j: int| 0 <= i < j < s.len() ==> !group_before(#[trigger] s[j], #[trigger] s[i])
}

proof fn lemma_group_order(a: GroupView, b: GroupView, c: GroupView)
    ensures
        group_before(c, a) ==> group_before(c, b) || group_before(b, a),
        !(group_before(a, b) && group_before(b, a)),
{
    crate::text::lemma_seq_less_total(a.label, b.label);
    crate::text::lemma_seq_less_total(b.label, c.label);
    crate::text::lemma_seq_less_total(a.label, c.label);
    crate::text::lemma_seq_less_irreflexive(a.label);
    crate::text::lemma_seq_less_irreflexive(b.label);
    if seq_less(a.label, b.label) && seq_less(b.label, a.label) {
        crate::text::lemma_seq_less_trans(a.label, b.label, a.label);
    }
    if seq_less(c.label, a.label) && !seq_less(c.label, b.label) && !seq_less(b.label, a.label) {
        if b.label == c.label {
        } else if b.label == a.label {
        } else {
            crate::text::lemma_seq_less_trans(b.label, c.label, a.label);
        }
    }
}

proof fn lemma_insert_group(s: Seq<GroupView>, x: GroupView)
    requires
        in_report_order(s),
    ensures
        in_report_order(insert_group(s, x)),
        forall|y: GroupView| #[trigger] insert_group(s, x).contains(y) ==> y == x || s.contains(y),
    decreases s.len(),
{
    let r = insert_group(s, x);
    if s.len() == 0 {
    } else if group_before(x, s.last()) {
        let prev = s.drop_last();
        let last = s.last();
        assert(last == s[s.len() - 1]);
        assert(in_report_order(prev)) by {
            assert forall|i: int, j: int| 0 <= i < j < prev.len() implies !group_before(#[trigger] prev[j], #[trigger] prev[i]) by {
                assert(prev[i] == s[i]);
                assert(prev[j] == s[j]);
            }
        }
        lemma_insert_group(prev, x);
        let u = insert_group(prev, x);
        assert(r == u.push(last));
        assert forall|k: int| 0 <= k < u.len() implies !group_before(last, #[trigger] u[k]) by {
            assert(u.contains(u[k]));
            if u[k] == x {
                lemma_group_order(x, last, x);
            } else {
                let m = choose|m: int| 0 <= m < prev.len() && prev[m] == u[k];
                assert(s[m] == prev[m]);
            }
        }
        assert forall|i: int, j: int| 0 <= i < j < r.len() implies !group_before(#[trigger] r[j], #[trigger] r[i]) by {
            if j == r.len() - 1 {
                assert(r[i] == u[i]);
            } else {
                assert(r[i] == u[i]);
                assert(r[j] == u[j]);
            }
        }
        assert forall|y: GroupView| #[trigger] r.contains(y) implies y == x || s.contains(y) by {
            let k = choose|k: int| 0 <= k < r.len() && r[k] == y;
            if k < u.len() {
                assert(u[k] == y);
                assert(u.contains(y));
                if y != x {
                    let m = choose|m: int| 0 <= m < prev.len() && prev[m] == y;
                    assert(s[m] == y);
                }
            } else {
                assert(s[s.len() - 1] == y);
            }
        }
    } else {
        let last = s.last();
        assert(last == s[s.len() - 1]);
        assert forall|i: int, j: int| 0 <= i < j < r.len() implies !group_before(#[trigger] r[j], #[trigger] r[i]) by {
            if j == r.len() - 1 {
                assert(r[i] == s[i]);
                if i < s.len() - 1 {
                    lemma_group_order(s[i], last, x);
                }
            } else {
                assert(r[i] == s[i]);
                assert(r[j] == s[j]);
            }
        }
        assert forall|y: GroupView| #[trigger] r.contains(y) implies y == x || s.contains(y) by {
            let k = choose|k: int| 0 <= k < r.len() && r[k] == y;
            if k < s.len() {
                assert(s[k] == y);
            }
        }
    }
}

proof fn lemma_sort_groups(s: Seq<GroupView>)
    ensures
        in_report_order(sort_groups(s)),
        forall|y: GroupView| #[trigger] sort_groups(s).contains(y) ==> s.contains(y),
    decreases s.len(),
{
    if s.len() > 0 {
        lemma_sort_groups(s.drop_last());
        lemma_insert_group(sort_groups(s.drop_last()), s.last());
        assert forall|y: GroupView| #[trigger] sort_groups(s).contains(y) implies s.contains(y) by {
            if y == s.last() {
                assert(s[s.len() - 1] == y);
            } else {
                assert(sort_groups(s.drop_last()).contains(y));
                let m = choose|m: int| 0 <= m < s.drop_last().len() && s.drop_last()[m] == y;
                assert(s[m] == y);
            }
        }
    }
}

/// Whether a group's cleared flag follows the clearing rule: cleared exactly when it holds a
/// single commodity and nets to zero.
pub open spec fn follows_clearing_rule(g: GroupView) -> bool {
    g.cleared == (!g.mixed_commodity && g.net.val() == 0)
}

/// An analysis lists its outstanding groups before its cleared ones, each kind by label; every
/// group is cleared exactly when it is single-commodity and nets to zero; and a group of one
/// posting is cleared exactly when that posting's quantity is zero.
pub proof fn law_clearing_groups(es: Seq<(TransactionView, PostingView)>, a: Seq<char>)
    ensures
        in_report_order(account_report_spec(es, a).groups),
        forall|k: int|
            0 <= k < account_report_spec(es, a).groups.len() ==> follows_clearing_rule(
                #[trigger] account_report_spec(es, a).groups[k],
            ),
        forall|k: int|
            0 <= k < account_report_spec(es, a).groups.len() && (#[trigger] account_report_spec(
                es,
                a,
            ).groups[k]).members.len() == 1 ==> (account_report_spec(es, a).groups[k].cleared
                <==> account_report_spec(es, a).groups[k].members[0].quantity.val() == 0),
{
    let built = built_groups(entries_under(es, a));
    let gs = account_report_spec(es, a).groups;
    lemma_sort_groups(built);
    assert forall|k: int| 0 <= k < gs.len() implies follows_clearing_rule(#[trigger] gs[k]) && (
    gs[k].members.len() == 1 ==> (gs[k].cleared <==> gs[k].members[0].quantity.val() == 0)) by {
        assert(gs.contains(gs[k]));
        assert(built.contains(gs[k]));
        let m = choose|m: int| 0 <= m < built.len() && built[m] == gs[k];
        let ge = group_entries(entries_under(es, a))[m];
        assert(gs[k] == group_spec(ge.0, ge.1));
        if ge.1.len() == 1 {
            lemma_single_member(ge.0, ge.1);
        }
    }
}

proof fn lemma_single_member(k: KeyView, ms: Seq<MemberView>)
    requires
        ms.len() == 1,
    ensures
        group_spec(k, ms).cleared <==> ms[0].quantity.val() == 0,
{
    let c = ms[0].commodity;
    assert(member_commodities(ms) =~= seq![c].to_set()) by {
        assert forall|x: Seq<char>| member_commodities(ms).contains(x) <==> seq![c].to_set().contains(x) by {
            if x == c {
                assert(seq![c][0] == c);
            }
        }
    }
    assert(strictly_sorted(seq![c]));
    lemma_sorted_seq_of(seq![c]);
    assert(member_quantities(ms) =~= seq![ms[0].quantity]);
    assert(seq![ms[0].quantity].drop_last() =~= Seq::<Quantity>::empty());
    crate::quantity::lemma_zero_plus(ms[0].quantity);
    let q = ms[0].quantity;
    assert(qsum(Seq::<Quantity>::empty()) == Quantity::spec_zero());
    assert(qsum(seq![q]) == qsum(Seq::<Quantity>::empty()).plus(q));
    assert(qsum(member_quantities(ms)) == q);
    assert(sorted_seq(member_commodities(ms)) == seq![c]);
}

/// Every group is counted once, as cleared or as outstanding.
pub proof fn law_counts_cover_groups(gs: Seq<GroupView>)
    ensures
        cleared_in(gs) + outstanding_in(gs) == gs.len(),
    decreases gs.len(),
{
    if gs.len() > 0 {
        law_counts_cover_groups(gs.drop_last());
    }
}


/// The commodities of the members, inserted one by one in sorted order.
pub open spec fn member_commodity_seq(ms: Seq<MemberView>) -> Seq<Seq<char>>
    decreases ms.len(),
{
    if ms.len() == 0 {
        Seq::empty()
    } else {
        crate::reports::footing::sorted_insert(member_commodity_seq(ms.drop_last()), ms.last().commodity)
    }
}

proof fn lemma_member_commodity_seq(ms: Seq<MemberView>)
    ensures
        strictly_sorted(member_commodity_seq(ms)),
        member_commodity_seq(ms).to_set() == member_commodities(ms),
    decreases ms.len(),
{
    let v = member_commodity_seq(ms);
    if ms.len() == 0 {
        assert(v.to_set() =~= member_commodities(ms));
    } else {
        let prev = ms.drop_last();
        lemma_member_commodity_seq(prev);
        crate::reports::footing::lemma_sorted_insert(member_commodity_seq(prev), ms.last().commodity);
        assert(ms.last() == ms[ms.len() - 1]);
        assert forall|x: Seq<char>| member_commodities(ms).contains(x)
            <==> member_commodities(prev).insert(ms.last().commodity).contains(x) by {
            if member_commodities(ms).contains(x) && x != ms.last().commodity {
                let i = choose|i: int| 0 <= i < ms.len() && ms[i].commodity == x;
                assert(prev[i] == ms[i]);
            }
            if member_commodities(prev).contains(x) {
                let i = choose|i: int| 0 <= i < prev.len() && prev[i].commodity == x;
                assert(prev[i] == ms[i]);
            }
        }
        assert(member_commodities(ms) =~= member_commodities(prev).insert(ms.last().commodity));
    }
}

/// What a group is made of, for members gathered under a key: the members themselves, in
/// order; their net, summed from zero; the mixed-commodity flag, set exactly when two members
/// differ in commodity; the group's commodity, the least of the members' commodities; cleared
/// exactly when not mixed and the net is zero; and the key's label.
pub proof fn law_group_contents(k: KeyView, ms: Seq<MemberView>)
    requires
        ms.len() > 0,
    ensures
        group_spec(k, ms).members == ms,
        group_spec(k, ms).net == qsum(member_quantities(ms)),
        group_spec(k, ms).mixed_commodity <==> exists|i: int, j: int|
            0 <= i < ms.len() && 0 <= j < ms.len() && (#[trigger] ms[i]).commodity != (#[trigger] ms[j]).commodity,
        exists|i: int| 0 <= i < ms.len() && (#[trigger] ms[i]).commodity == group_spec(k, ms).commodity,
        forall|i: int| 0 <= i < ms.len() ==> !seq_less((#[trigger] ms[i]).commodity, group_spec(k, ms).commodity),
        group_spec(k, ms).cleared == (!group_spec(k, ms).mixed_commodity && group_spec(k, ms).net.val() == 0),
        group_spec(k, ms).label == label_of(k),
{
    let v = member_commodity_seq(ms);
    lemma_member_commodity_seq(ms);
    lemma_sorted_seq_of(v);
    let cs = sorted_seq(member_commodities(ms));
    assert(cs == v);
    assert(ms[0].commodity == ms[0].commodity);
    assert(member_commodities(ms).contains(ms[0].commodity));
    assert(cs.len() > 0) by {
        assert(cs.to_set().contains(ms[0].commodity));
    }
    assert(cs.to_set().contains(cs[0]));
    let i0 = choose|i: int| 0 <= i < ms.len() && ms[i].commodity == cs[0];
    assert(ms[i0].commodity == group_spec(k, ms).commodity);
    assert forall|i: int| 0 <= i < ms.len() implies !seq_less((#[trigger] ms[i]).commodity, cs[0]) by {
        assert(member_commodities(ms).contains(ms[i].commodity));
        assert(cs.to_set().contains(ms[i].commodity));
        let p = choose|p: int| 0 <= p < cs.len() && cs[p] == ms[i].commodity;
        if p > 0 {
            assert(seq_less(cs[0], cs[p]));
            if seq_less(cs[p], cs[0]) {
                crate::text::lemma_seq_less_trans(cs[0], cs[p], cs[0]);
                crate::text::lemma_seq_less_irreflexive(cs[0]);
            }
        } else {
            crate::text::lemma_seq_less_irreflexive(cs[0]);
        }
    }
    if cs.len() > 1 {
        assert(cs.to_set().contains(cs[1]));
        let i1 = choose|i: int| 0 <= i < ms.len() && ms[i].commodity == cs[1];
        crate::text::lemma_seq_less_irreflexive(cs[0]);
        assert(ms[i0].commodity != ms[i1].commodity);
    } else {
        assert forall|i: int, j: int|
            0 <= i < ms.len() && 0 <= j < ms.len() implies (#[trigger] ms[i]).commodity == (#[trigger] ms[j]).commodity by {
            assert(cs.to_set().contains(ms[i].commodity));
            assert(cs.to_set().contains(ms[j].commodity));
        }
    }
}


// ---------------------------------------------------------------------------------------------
// How the postings are grouped.
// ---------------------------------------------------------------------------------------------

/// The matching key of an entry that carries an amount.
pub open spec fn entry_key(e: (TransactionView, PostingView)) -> KeyView {
    key_of(e.0, e.1, e.1.amount->0)
}

/// The members of the entries (those with an amount) whose key is equivalent to `k`, in entry
/// order.
pub open spec fn members_with_key(es: Seq<(TransactionView, PostingView)>, k: KeyView) -> Seq<MemberView>
    decreases es.len(),
{
    if es.len() == 0 {
        Seq::empty()
    } else {
        let prev = members_with_key(es.drop_last(), k);
        let e = es.last();
        match e.1.amount {
            Some(am) => if key_equiv(key_of(e.0, e.1, am), k) {
                prev.push(member_of(e.0, e.1, am))
            } else {
                prev
            },
            None => prev,
        }
    }
}

/// Whether some group's key is equivalent to `k`.
pub open spec fn has_group(gs: Groups, k: KeyView) -> bool {
    exists|j: int| 0 <= j < gs.len() && key_equiv(#[trigger] gs[j].0, k)
}

/// Whether `gs` groups the entries: no two groups have equivalent keys, each group holds exactly
/// the members of the entries whose key is equivalent to its own (in entry order), and every
/// entry with an amount has a group.
pub open spec fn groups_entries(es: Seq<(TransactionView, PostingView)>, gs: Groups) -> bool {
    &&& forall|i: int, j: int| 0 <= i < j < gs.len() ==> !key_equiv(#[trigger] gs[i].0, #[trigger] gs[j].0)
    &&& forall|i: int| 0 <= i < gs.len() ==> (#[trigger] gs[i]).1 == members_with_key(es, gs[i].0)
    &&& forall|i: int| 0 <= i < es.len() && (#[trigger] es[i]).1.amount is Some ==> has_group(gs, entry_key(es[i]))
}

proof fn lemma_key_equiv(a: KeyView, b: KeyView, c: KeyView)
    ensures
        key_equiv(a, a),
        key_equiv(a, b) ==> key_equiv(b, a),
        key_equiv(a, b) && key_equiv(b, c) ==> key_equiv(a, c),
{
}

proof fn lemma_find_group(gs: Groups, k: KeyView, i: nat)
    ensures
        find_group_from(gs, k, i) matches Some(j) ==> i <= j < gs.len() && key_equiv(gs[j as int].0, k),
        find_group_from(gs, k, i) is None ==> forall|j: int| i <= j < gs.len() ==> !key_equiv(#[trigger] gs[j].0, k),
    decreases gs.len() - i,
{
    if i < gs.len() && !key_equiv(gs[i as int].0, k) {
        lemma_find_group(gs, k, i + 1);
    }
}

proof fn lemma_insert_pos(gs: Groups, k: KeyView, i: nat)
    requires
        i <= gs.len(),
    ensures
        insert_pos_from(gs, k, i) <= gs.len(),
    decreases gs.len() - i,
{
    if i < gs.len() && key_less(gs[i as int].0, k) {
        lemma_insert_pos(gs, k, i + 1);
    }
}

proof fn lemma_members_none(es: Seq<(TransactionView, PostingView)>, k: KeyView)
    requires
        forall|i: int| 0 <= i < es.len() && (#[trigger] es[i]).1.amount is Some ==> !key_equiv(entry_key(es[i]), k),
    ensures
        members_with_key(es, k) == Seq::<MemberView>::empty(),
    decreases es.len(),
{
    if es.len() > 0 {
        let prev = es.drop_last();
        assert forall|i: int| 0 <= i < prev.len() && (#[trigger] prev[i]).1.amount is Some implies !key_equiv(entry_key(prev[i]), k) by {
            assert(prev[i] == es[i]);
        }
        lemma_members_none(prev, k);
        assert(es.last() == es[es.len() - 1]);
    }
}

/// The analysis groups an account's postings by their matching key: each posting with an amount
/// falls in exactly one group, the group whose key is equivalent to its own (equal `match:`
/// values, or equal commodity and equal absolute quantity); a group holds the members of exactly
/// those postings, in ledger order; and no two groups have equivalent keys.
pub proof fn law_grouping(es: Seq<(TransactionView, PostingView)>)
    ensures
        groups_entries(es, group_entries(es)),
    decreases es.len(),
{
    if es.len() > 0 {
        let prev = es.drop_last();
        let e = es.last();
        assert(e == es[es.len() - 1]);
        law_grouping(prev);
        let gs = group_entries(prev);
        assert forall|i: int| 0 <= i < prev.len() implies prev[i] == es[i] by {}
        match e.1.amount {
            None => {
                assert forall|i: int| 0 <= i < gs.len() implies (#[trigger] gs[i]).1 == members_with_key(es, gs[i].0) by {}
                assert forall|i: int| 0 <= i < es.len() && (#[trigger] es[i]).1.amount is Some implies has_group(gs, entry_key(es[i])) by {
                    assert(i < prev.len());
                    assert(prev[i].1.amount is Some);
                }
            },
            Some(am) => {
                let k = key_of(e.0, e.1, am);
                let m = member_of(e.0, e.1, am);
                let g2 = add_member(gs, k, m);
                assert(entry_key(e) == k);
                lemma_find_group(gs, k, 0);
                match find_group_from(gs, k, 0) {
                    Some(fi) => {
                        let f = fi as int;
                        assert(g2 == gs.update(f, (gs[f].0, gs[f].1.push(m))));
                        assert forall|i: int, j: int| 0 <= i < j < g2.len() implies !key_equiv(#[trigger] g2[i].0, #[trigger] g2[j].0) by {
                            assert(g2[i].0 == gs[i].0 && g2[j].0 == gs[j].0);
                        }
                        assert forall|i: int| 0 <= i < g2.len() implies (#[trigger] g2[i]).1 == members_with_key(es, g2[i].0) by {
                            lemma_key_equiv(k, gs[f].0, gs[i].0);
                            lemma_key_equiv(gs[f].0, k, gs[i].0);
                            lemma_key_equiv(gs[i].0, gs[f].0, k);
                            if i != f {
                                if key_equiv(k, gs[i].0) {
                                    lemma_key_equiv(gs[f].0, k, gs[i].0);
                                    lemma_key_equiv(gs[i].0, gs[f].0, gs[f].0);
                                    if i < f {
                                        assert(!key_equiv(gs[i].0, gs[f].0));
                                    } else {
                                        assert(!key_equiv(gs[f].0, gs[i].0));
                                    }
                                    assert(false);
                                }
                            }
                        }
                        assert forall|i: int| 0 <= i < es.len() && (#[trigger] es[i]).1.amount is Some implies has_group(g2, entry_key(es[i])) by {
                            if i < prev.len() {
                                assert(prev[i].1.amount is Some);
                                assert(has_group(gs, entry_key(prev[i])));
                                let j = choose|j: int| 0 <= j < gs.len() && key_equiv(#[trigger] gs[j].0, entry_key(prev[i]));
                                assert(g2[j].0 == gs[j].0);
                            } else {
                                assert(g2[f].0 == gs[f].0);
                            }
                        }
                    },
                    None => {
                        let p = insert_pos_from(gs, k, 0);
                        lemma_insert_pos(gs, k, 0);
                        assert(g2 == gs.insert(p as int, (k, seq![m])));
                        assert forall|j: int| 0 <= j < gs.len() implies !key_equiv(k, #[trigger] gs[j].0) by {
                            lemma_key_equiv(k, gs[j].0, k);
                            assert(!key_equiv(gs[j].0, k));
                        }
                        assert forall|i: int| 0 <= i < prev.len() && (#[trigger] prev[i]).1.amount is Some implies !key_equiv(entry_key(prev[i]), k) by {
                            assert(has_group(gs, entry_key(prev[i])));
                            let j = choose|j: int| 0 <= j < gs.len() && key_equiv(#[trigger] gs[j].0, entry_key(prev[i]));
                            if key_equiv(entry_key(prev[i]), k) {
                                lemma_key_equiv(gs[j].0, entry_key(prev[i]), k);
                                assert(false);
                            }
                        }
                        lemma_members_none(prev, k);
                        lemma_key_equiv(k, k, k);
                        assert forall|i: int, j: int| 0 <= i < j < g2.len() implies !key_equiv(#[trigger] g2[i].0, #[trigger] g2[j].0) by {
                            if i < p && j < p {
                                assert(g2[i] == gs[i] && g2[j] == gs[j]);
                            } else if i < p && j == p {
                                assert(g2[i] == gs[i]);
                                lemma_key_equiv(gs[i].0, k, k);
                            } else if i < p {
                                assert(g2[i] == gs[i] && g2[j] == gs[j - 1]);
                            } else if i == p {
                                assert(g2[j] == gs[j - 1]);
                            } else {
                                assert(g2[i] == gs[i - 1] && g2[j] == gs[j - 1]);
                            }
                        }
                        assert forall|i: int| 0 <= i < g2.len() implies (#[trigger] g2[i]).1 == members_with_key(es, g2[i].0) by {
                            if i < p {
                                assert(g2[i] == gs[i]);
                                lemma_key_equiv(k, gs[i].0, k);
                            } else if i == p {
                                assert(members_with_key(prev, k) == Seq::<MemberView>::empty());
                                assert(Seq::<MemberView>::empty().push(m) =~= seq![m]);
                            } else {
                                assert(g2[i] == gs[i - 1]);
                                lemma_key_equiv(k, gs[i - 1].0, k);
                            }
                        }
                        assert forall|i: int| 0 <= i < es.len() && (#[trigger] es[i]).1.amount is Some implies has_group(g2, entry_key(es[i])) by {
                            if i < prev.len() {
                                assert(prev[i].1.amount is Some);
                                assert(has_group(gs, entry_key(prev[i])));
                                let j = choose|j: int| 0 <= j < gs.len() && key_equiv(#[trigger] gs[j].0, entry_key(prev[i]));
                                if j < p {
                                    assert(g2[j] == gs[j]);
                                } else {
                                    assert(g2[j + 1] == gs[j]);
                                }
                            } else {
                                assert(g2[p as int].0 == k);
                            }
                        }
                    },
                }
            },
        }
    }
}


/// Whether `tags[j]` is the first tag in `tags` named `key`.
pub open spec fn first_named(tags: Seq<TagView>, key: Seq<char>, j: int) -> bool {
    &&& 0 <= j < tags.len()
    &&& tags[j].key == key
    &&& forall|i: int| 0 <= i < j ==> tags[i].key != key
}

/// The value a tag carries, empty for a bare `key:`.
pub open spec fn tag_value(t: TagView) -> Seq<char> {
    match t.value {
        Some(v) => v,
        None => Seq::empty(),
    }
}

proof fn lemma_first_named_found(tags: Seq<TagView>, key: Seq<char>, j: int)
    requires
        first_named(tags, key, j),
    ensures
        crate::model::find_tag(tags, key) == Some(tags[j]),
    decreases j,
{
    if j > 0 {
        assert(tags[0].key != key);
        let rest = tags.drop_first();
        assert forall|i: int| 0 <= i < j - 1 implies rest[i].key != key by {
            assert(rest[i] == tags[i + 1]);
        }
        assert(rest[j - 1] == tags[j]);
        lemma_first_named_found(rest, key, j - 1);
    }
}

proof fn lemma_none_named(tags: Seq<TagView>, key: Seq<char>)
    requires
        forall|i: int| 0 <= i < tags.len() ==> tags[i].key != key,
    ensures
        crate::model::find_tag(tags, key) is None,
    decreases tags.len(),
{
    if tags.len() > 0 {
        let rest = tags.drop_first();
        assert forall|i: int| 0 <= i < rest.len() implies rest[i].key != key by {
            assert(rest[i] == tags[i + 1]);
        }
        lemma_none_named(rest, key);
    }
}

/// A posting's own `match:` tag decides its matching key: the first `match:` tag among the
/// posting's tags gives the key `match:<value>`, whatever its transaction carries.
pub proof fn law_posting_match_tag_keys(t: TransactionView, p: PostingView, am: AmountView, j: int)
    requires
        first_named(p.tags, "match"@, j),
    ensures
        key_of(t, p, am) == KeyView::Tag(tag_value(p.tags[j])),
{
    lemma_first_named_found(p.tags, "match"@, j);
}

/// A posting without a `match:` tag of its own takes its transaction's: when the first
/// `match:` tag among the transaction's tags is `t.tags[j]`, the posting is keyed by its value.
pub proof fn law_transaction_match_tag_keys(t: TransactionView, p: PostingView, am: AmountView, j: int)
    requires
        forall|i: int| 0 <= i < p.tags.len() ==> p.tags[i].key != "match"@,
        first_named(t.tags, "match"@, j),
    ensures
        key_of(t, p, am) == KeyView::Tag(tag_value(t.tags[j])),
{
    lemma_none_named(p.tags, "match"@);
    lemma_first_named_found(t.tags, "match"@, j);
}

/// A posting with no `match:` tag, on itself or on its transaction, is keyed by its amount:
/// its commodity and its absolute quantity.
pub proof fn law_untagged_posting_keys_by_amount(t: TransactionView, p: PostingView, am: AmountView)
    requires
        forall|i: int| 0 <= i < p.tags.len() ==> p.tags[i].key != "match"@,
        forall|i: int| 0 <= i < t.tags.len() ==> t.tags[i].key != "match"@,
    ensures
        key_of(t, p, am) == KeyView::Fallback(am.commodity, am.quantity.magnitude()),
{
    lemma_none_named(p.tags, "match"@);
    lemma_none_named(t.tags, "match"@);
}

/// A member line shows the member's signed quantity: the right-aligned number between the
/// description and the commodity reads back as the quantity cut to two fractional digits, and
/// carries a `-` exactly when the quantity is negative.
pub proof fn law_member_line_shows_signed_quantity(m: MemberView)
    ensures
        exists|n: Seq<char>|
            {
                &&& #[trigger] numeral_2dp_value(n) == Some(hundredths_cut(m.quantity))
                &&& n.len() > 0
                &&& (n[0] == '-' <==> m.quantity.mant() < 0)
                &&& member_line(m) == "      "@ + m.date.text() + "  "@ + pad_end(m.description, 40)
                    + "  "@ + pad_start(n, 14) + " "@ + m.commodity + "  ("@ + source_text(
                    m.source,
                ) + ")\n"@
            },
{
    let n = m.quantity.text_2dp();
    crate::quantity::law_text_2dp_reads_back(m.quantity);
    assert(numeral_2dp_value(n) == Some(hundredths_cut(m.quantity)));
}

/// A group's heading line shows the group's signed net: the number after `net` reads back as
/// the net cut to two fractional digits, and carries a `-` exactly when the net is negative.
pub proof fn law_group_line_shows_signed_net(g: GroupView)
    ensures
        exists|n: Seq<char>|
            {
                &&& #[trigger] numeral_2dp_value(n) == Some(hundredths_cut(g.net))
                &&& n.len() > 0
                &&& (n[0] == '-' <==> g.net.mant() < 0)
                &&& group_line(g) == "  ["@ + status_text(g) + "] "@ + g.label + "  net "@ + n + " "@
                    + g.commodity + " ("@ + nat_text(g.members.len()) + " posting(s))\n"@
            },
{
    let n = g.net.text_2dp();
    crate::quantity::law_text_2dp_reads_back(g.net);
    assert(numeral_2dp_value(n) == Some(hundredths_cut(g.net)));
}

} // verus!
