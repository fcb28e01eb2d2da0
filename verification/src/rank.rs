//! The ranker: orders the handler catalog by pin status, then a
//! mode-specific key (recency or frequency, descending), then display
//! name ascending, populating each handler's transient pin flag from the
//! statistics table.  The order is a total one — ties beyond the name
//! keep the catalog order — so ranking the same inputs always yields the
//! same sequence.

use vstd::prelude::*;
use vstd::relations::{sorted_by, total_ordering};
use crate::catalog::{catalog_view, Browser, BrowserView};
use crate::store::{
    lemma_stats_map_view, records_view, stat_or_default, stats_map, unique_ids, StatView,
    UsageRecord,
};
use crate::text::{lemma_lex_leq_total, lemma_lex_leq_trans, lex_leq, str_eq, str_leq};

verus! {

/// The order in which the catalog is presented.
#[derive(Clone, Copy, PartialEq, Eq, Structural, Debug)]
pub enum SortMode {
    /// Display name only.
    Alpha,
    /// Most recently used first.
    Recent,
    /// Most frequently used first.
    Freq,
}

/// The sort mode a settings value selects; unknown values mean `Freq`.
pub open spec fn sort_mode_spec(s: Seq<char>) -> SortMode {
    if s == "alpha"@ {
        SortMode::Alpha
    } else if s == "recent"@ {
        SortMode::Recent
    } else {
        SortMode::Freq
    }
}

/// Parse the persisted sort-order setting.
pub fn sort_mode_of(s: &str) -> (r: SortMode)
    ensures
        r == sort_mode_spec(s@),
{
    if str_eq(s, "alpha") {
        SortMode::Alpha
    } else if str_eq(s, "recent") {
        SortMode::Recent
    } else {
        SortMode::Freq
    }
}

/// A handler together with the statistics that order it; the handler's
/// pin flag has been populated from the statistics table.
pub struct Scored {
    pub browser: Browser,
    pub usage_count: i64,
    pub last_used: i64,
}

/// Mathematical image of a `Scored`.
pub struct ScoredView {
    pub handler: BrowserView,
    pub usage_count: int,
    pub last_used: int,
}

impl View for Scored {
    type V = ScoredView;

    open spec fn view(&self) -> ScoredView {
        ScoredView {
            handler: self.browser@,
            usage_count: self.usage_count as int,
            last_used: self.last_used as int,
        }
    }
}

/// The views of a sequence of scored entries.
pub open spec fn scored_views(v: Seq<Scored>) -> Seq<ScoredView> {
    v.map_values(|e: Scored| e@)
}

/// A handler scored against the statistics table: the pin flag comes
/// from the table (absence meaning unpinned), as do count and recency.
pub open spec fn scored_of(b: BrowserView, stats: Map<Seq<char>, StatView>) -> ScoredView {
    let s = stat_or_default(stats, b.id);
    ScoredView {
        handler: BrowserView {
            name: b.name,
            command: b.command,
            icon: b.icon,
            id: b.id,
            is_pinned: s.is_pinned,
        },
        usage_count: s.usage_count,
        last_used: s.last_used,
    }
}

/// All handlers scored against the statistics table.
pub open spec fn scored_seq(hs: Seq<BrowserView>, stats: Map<Seq<char>, StatView>) -> Seq<
    ScoredView,
> {
    hs.map_values(|b: BrowserView| scored_of(b, stats))
}

/// The mode-specific sort key; larger keys sort earlier.  The
/// alphabetical mode has no key of its own and falls through to the
/// name.
pub open spec fn mode_key(e: ScoredView, mode: SortMode) -> int {
    match mode {
        SortMode::Alpha => 0,
        SortMode::Recent => e.last_used,
        SortMode::Freq => e.usage_count,
    }
}

/// `a` may come no later than `b`: pinned handlers precede unpinned ones
/// whatever the mode; then the mode key descending; then the display
/// name ascending.
pub open spec fn entry_leq(a: ScoredView, b: ScoredView, mode: SortMode) -> bool {
    if a.handler.is_pinned != b.handler.is_pinned {
        a.handler.is_pinned
    } else if mode_key(a, mode) != mode_key(b, mode) {
        mode_key(a, mode) > mode_key(b, mode)
    } else {
        lex_leq(a.handler.name, b.handler.name)
    }
}

/// `a` and `b` tie on every sort key.
pub open spec fn entry_equiv(a: ScoredView, b: ScoredView, mode: SortMode) -> bool {
    entry_leq(a, b, mode) && entry_leq(b, a, mode)
}

/// The comparison runs at least one way between any two entries.
pub proof fn lemma_entry_leq_total(a: ScoredView, b: ScoredView, mode: SortMode)
    ensures
        entry_leq(a, b, mode) || entry_leq(b, a, mode),
{
    lemma_lex_leq_total(a.handler.name, b.handler.name);
}

/// The comparison is transitive.
pub proof fn lemma_entry_leq_trans(a: ScoredView, b: ScoredView, c: ScoredView, mode: SortMode)
    requires
        entry_leq(a, b, mode),
        entry_leq(b, c, mode),
    ensures
        entry_leq(a, c, mode),
{
    if a.handler.is_pinned == b.handler.is_pinned && b.handler.is_pinned == c.handler.is_pinned
        && mode_key(a, mode) == mode_key(b, mode) && mode_key(b, mode) == mode_key(c, mode) {
        lemma_lex_leq_trans(a.handler.name, b.handler.name, c.handler.name);
    }
}

/// The order the ranker sorts by, as a relation on positions of the
/// scored sequence: the entry comparison, with ties resolved by the
/// original position.  This makes the order total, so the ranked
/// sequence is unique.
pub open spec fn index_leq(s: Seq<ScoredView>, mode: SortMode) -> spec_fn(int, int) -> bool {
    |i: int, j: int|
        {
            if entry_equiv(s[i], s[j], mode) {
                i <= j
            } else {
                entry_leq(s[i], s[j], mode)
            }
        }
}

/// The position order is a total ordering.
pub proof fn lemma_index_leq_total_ordering(s: Seq<ScoredView>, mode: SortMode)
    ensures
        total_ordering(index_leq(s, mode)),
{
    let leq = index_leq(s, mode);
    assert forall|i: int| #[trigger] leq(i, i) by {
        lemma_entry_leq_total(s[i], s[i], mode);
    }
    assert forall|i: int, j: int| #[trigger] leq(i, j) && #[trigger] leq(j, i) implies i == j by {
        if !entry_equiv(s[i], s[j], mode) {
            assert(entry_leq(s[i], s[j], mode));
            assert(entry_leq(s[j], s[i], mode));
        }
    }
    assert forall|i: int, j: int, k: int| #[trigger] leq(i, j) && #[trigger] leq(j, k) implies leq(
        i,
        k,
    ) by {
        lemma_index_leq_step(s, mode, i, j, k);
    }
    assert forall|i: int, j: int| #[trigger] leq(i, j) || #[trigger] leq(j, i) by {
        lemma_entry_leq_total(s[i], s[j], mode);
    }
}

proof fn lemma_index_leq_step(s: Seq<ScoredView>, mode: SortMode, i: int, j: int, k: int)
    requires
        index_leq(s, mode)(i, j),
        index_leq(s, mode)(j, k),
    ensures
        index_leq(s, mode)(i, k),
{
    let a = s[i];
    let b = s[j];
    let c = s[k];
    if entry_equiv(a, b, mode) && entry_equiv(b, c, mode) {
        lemma_entry_leq_trans(a, b, c, mode);
        lemma_entry_leq_trans(c, b, a, mode);
    } else if entry_equiv(a, b, mode) {
        lemma_entry_leq_trans(a, b, c, mode);
        if entry_equiv(a, c, mode) {
            lemma_entry_leq_trans(c, a, b, mode);
        }
    } else if entry_equiv(b, c, mode) {
        lemma_entry_leq_trans(a, b, c, mode);
        if entry_equiv(a, c, mode) {
            lemma_entry_leq_trans(b, c, a, mode);
        }
    } else {
        lemma_entry_leq_trans(a, b, c, mode);
        if entry_equiv(a, c, mode) {
            lemma_entry_leq_trans(c, a, b, mode);
            lemma_entry_leq_trans(b, c, a, mode);
        }
    }
}

/// Whether entry `a` may come no later than entry `b`.
fn entry_leq_exec(a: &Scored, b: &Scored, mode: SortMode) -> (r: bool)
    ensures
        r == entry_leq(a@, b@, mode),
{
    if a.browser.is_pinned != b.browser.is_pinned {
        a.browser.is_pinned
    } else {
        let ka: i64 = match mode {
            SortMode::Alpha => 0,
            SortMode::Recent => a.last_used,
            SortMode::Freq => a.usage_count,
        };
        let kb: i64 = match mode {
            SortMode::Alpha => 0,
            SortMode::Recent => b.last_used,
            SortMode::Freq => b.usage_count,
        };
        if ka != kb {
            ka > kb
        } else {
            str_leq(a.browser.name.as_str(), b.browser.name.as_str())
        }
    }
}

/// The positions of a sequence, in order.
pub open spec fn identity_perm(n: int) -> Seq<int> {
    Seq::new(n as nat, |i: int| i)
}

/// A sequence of vector indices, as mathematical integers.
pub open spec fn idx_ints(s: Seq<usize>) -> Seq<int> {
    s.map_values(|u: usize| u as int)
}

/// The permutation the ranker applies: the positions of the scored
/// sequence, sorted by the position order.
pub open spec fn rank_perm(s: Seq<ScoredView>, mode: SortMode) -> Seq<int> {
    identity_perm(s.len() as int).sort_by(index_leq(s, mode))
}

/// The ranked catalog: every handler scored against the statistics
/// table, then reordered by the ranking permutation.
pub open spec fn rank_spec(
    hs: Seq<BrowserView>,
    stats: Map<Seq<char>, StatView>,
    mode: SortMode,
) -> Seq<BrowserView> {
    let scored = scored_seq(hs, stats);
    rank_perm(scored, mode).map_values(|i: int| scored[i].handler)
}

/// The statistics recorded for `id`, as plain values; a missing record
/// reads as the zeroed, unpinned default.
fn lookup_stat(stats: &Vec<UsageRecord>, id: &str) -> (r: (i64, bool, i64))
    requires
        unique_ids(records_view(stats@)),
    ensures
        ({
            let s = stat_or_default(stats_map(records_view(stats@)), id@);
            r.0 == s.usage_count && r.1 == s.is_pinned && r.2 == s.last_used
        }),
{
    let ghost rv = records_view(stats@);
    let mut i: usize = 0;
    while i < stats.len()
        invariant
            i <= stats@.len(),
            rv == records_view(stats@),
            unique_ids(rv),
            forall|j: int| 0 <= j < i ==> (#[trigger] records_view(stats@)[j]).id != id@,
        decreases stats@.len() - i,
    {
        let rec = &stats[i];
        proof {
            assert(records_view(stats@)[i as int] == stats@[i as int]@);
        }
        if str_eq(rec.id.as_str(), id) {
            proof {
                lemma_stats_map_view(rv);
                assert(stats_map(rv).dom().contains(rv[i as int].id));
                assert(stats_map(rv)[id@] == crate::store::stat_of(rv[i as int]));
            }
            return (rec.usage_count, rec.is_pinned, rec.last_used);
        }
        i = i + 1;
    }
    proof {
        lemma_stats_map_view(rv);
        if stats_map(rv).dom().contains(id@) {
            let w = choose|w: int| 0 <= w < rv.len() && (#[trigger] rv[w]).id == id@;
            assert(records_view(stats@)[w].id == id@);
        }
    }
    (0, false, 0)
}

/// Score every handler against the statistics table, populating the
/// transient pin flag.
fn score_handlers(handlers: &Vec<Browser>, stats: &Vec<UsageRecord>) -> (r: Vec<Scored>)
    requires
        unique_ids(records_view(stats@)),
    ensures
        scored_views(r@) == scored_seq(catalog_view(handlers@), stats_map(records_view(stats@))),
{
    let ghost sm = stats_map(records_view(stats@));
    let ghost target = scored_seq(catalog_view(handlers@), sm);
    let mut out: Vec<Scored> = Vec::new();
    let mut i: usize = 0;
    proof {
        assert(scored_views(out@) =~= target.take(0));
    }
    while i < handlers.len()
        invariant
            i <= handlers@.len(),
            unique_ids(records_view(stats@)),
            sm == stats_map(records_view(stats@)),
            target == scored_seq(catalog_view(handlers@), sm),
            scored_views(out@) == target.take(i as int),
        decreases handlers@.len() - i,
    {
        let ghost before = scored_views(out@);
        let h = &handlers[i];
        let looked = lookup_stat(stats, h.id.as_str());
        let entry = Scored {
            browser: Browser {
                name: h.name.clone(),
                command: h.command.clone(),
                icon: h.icon.clone(),
                id: h.id.clone(),
                is_pinned: looked.1,
            },
            usage_count: looked.0,
            last_used: looked.2,
        };
        proof {
            assert(catalog_view(handlers@)[i as int] == handlers@[i as int]@);
            assert(entry@ == target[i as int]);
        }
        out.push(entry);
        proof {
            assert(scored_views(out@) =~= before.push(target[i as int]));
            assert(before.push(target[i as int]) =~= target.take(i + 1));
        }
        i = i + 1;
    }
    proof {
        assert(target.take(handlers@.len() as int) =~= target);
    }
    out
}

/// An entry strictly before `kk` in the position order stays before any
/// position it already preceded.
proof fn lemma_before_carries(sv: Seq<ScoredView>, mode: SortMode, kk: int, a: int, b: int)
    requires
        !entry_leq(sv[a], sv[kk], mode),
        index_leq(sv, mode)(a, b),
    ensures
        index_leq(sv, mode)(kk, b),
{
    lemma_entry_leq_total(sv[a], sv[kk], mode);
    assert(entry_leq(sv[kk], sv[a], mode));
    assert(entry_leq(sv[a], sv[b], mode));
    lemma_entry_leq_trans(sv[kk], sv[a], sv[b], mode);
    if entry_equiv(sv[kk], sv[b], mode) {
        lemma_entry_leq_trans(sv[a], sv[b], sv[kk], mode);
    }
}

/// Insert position `k` into the sorted run of positions, keeping it
/// sorted; equal entries keep their original order because `k` exceeds
/// every position already present.
fn insert_sorted(idxs: &mut Vec<usize>, scored: &Vec<Scored>, mode: SortMode, k: usize)
    requires
        k < scored@.len(),
        forall|p: int| 0 <= p < old(idxs)@.len() ==> (#[trigger] old(idxs)@[p]) < k,
        sorted_by(idx_ints(old(idxs)@), index_leq(scored_views(scored@), mode)),
    ensures
        final(idxs)@.len() == old(idxs)@.len() + 1,
        forall|p: int| 0 <= p < final(idxs)@.len() ==> (#[trigger] final(idxs)@[p]) <= k,
        sorted_by(idx_ints(final(idxs)@), index_leq(scored_views(scored@), mode)),
        idx_ints(final(idxs)@).to_multiset() == idx_ints(old(idxs)@).to_multiset().insert(
            k as int,
        ),
{
    broadcast use vstd::seq_lib::group_to_multiset_ensures;
    broadcast use vstd::multiset::group_multiset_axioms;

    let ghost sv = scored_views(scored@);
    let ghost leq = index_leq(sv, mode);
    let ghost t0 = idx_ints(idxs@);
    let mut pos: usize = 0;
    while pos < idxs.len() && entry_leq_exec(&scored[idxs[pos]], &scored[k], mode)
        invariant
            pos <= idxs@.len(),
            idxs@ == old(idxs)@,
            k < scored@.len(),
            sv == scored_views(scored@),
            t0 == idx_ints(idxs@),
            forall|p: int| 0 <= p < idxs@.len() ==> (#[trigger] idxs@[p]) < k,
            forall|p: int| 0 <= p < pos ==> entry_leq(sv[#[trigger] t0[p]], sv[k as int], mode),
        decreases idxs@.len() - pos,
    {
        proof {
            assert(sv[t0[pos as int]] == scored@[idxs@[pos as int] as int]@);
        }
        pos = pos + 1;
    }
    proof {
        if pos < idxs@.len() {
            assert(sv[t0[pos as int]] == scored@[idxs@[pos as int] as int]@);
            assert(!entry_leq(sv[t0[pos as int]], sv[k as int], mode));
        }
    }
    idxs.insert(pos, k);
    proof {
        let t1 = idx_ints(idxs@);
        assert(t1 =~= t0.insert(pos as int, k as int));
        assert(forall|p: int| 0 <= p < pos ==> #[trigger] t1[p] == t0[p]);
        assert(t1[pos as int] == k as int);
        assert(forall|p: int| pos < p < t1.len() ==> #[trigger] t1[p] == t0[p - 1]);
        assert forall|x: int, y: int| 0 <= x < y < t1.len() implies #[trigger] leq(
            t1[x],
            t1[y],
        ) by {
            if y < pos {
                assert(leq(t0[x], t0[y]));
            } else if y == pos {
                assert(t0[x] < k as int);
                assert(entry_leq(sv[t0[x]], sv[k as int], mode));
            } else if x == pos {
                if pos < t0.len() {
                    if y - 1 == pos {
                        assert(leq(t0[pos as int], t0[pos as int])) by {
                            lemma_entry_leq_total(sv[t0[pos as int]], sv[t0[pos as int]], mode);
                        }
                    } else {
                        assert(leq(t0[pos as int], t0[y - 1]));
                    }
                    lemma_before_carries(sv, mode, k as int, t0[pos as int], t0[y - 1]);
                }
            } else if x < pos {
                assert(leq(t0[x], t0[y - 1]));
            } else {
                assert(leq(t0[x - 1], t0[y - 1]));
            }
        }
        assert(t1.remove(pos as int) =~= t0);
        assert(t1.remove(pos as int).to_multiset() == t1.to_multiset().remove(t1[pos as int]));
        assert(t1.to_multiset().remove(k as int) == t0.to_multiset());
        assert(t1.contains(k as int)) by {
            assert(t1[pos as int] == k as int);
        }
        assert(t1.to_multiset().count(k as int) > 0);
        assert(t1.to_multiset() =~= t0.to_multiset().insert(k as int));
    }
}

/// Relies only on field-by-field copying; the clone's view equals the
/// original's.
fn clone_browser(b: &Browser) -> (r: Browser)
    ensures
        r@ == b@,
{
    Browser {
        name: b.name.clone(),
        command: b.command.clone(),
        icon: b.icon.clone(),
        id: b.id.clone(),
        is_pinned: b.is_pinned,
    }
}

/// Rank the catalog: populate each handler's pin flag from the
/// statistics snapshot and order by pin status first, then the
/// mode-specific key, then display name; remaining ties keep the
/// catalog order.  The result is a fixed function of the inputs, so
/// repeated calls agree.
pub fn rank(handlers: &Vec<Browser>, stats: &Vec<UsageRecord>, mode: SortMode) -> (r: Vec<Browser>)
    requires
        unique_ids(records_view(stats@)),
    ensures
        catalog_view(r@) == rank_spec(
            catalog_view(handlers@),
            stats_map(records_view(stats@)),
            mode,
        ),
{
    broadcast use vstd::seq_lib::group_to_multiset_ensures;

    let ghost sm = stats_map(records_view(stats@));
    let scored = score_handlers(handlers, stats);
    let ghost sv = scored_views(scored@);
    let ghost leq = index_leq(sv, mode);
    let n: usize = scored.len();
    let mut idxs: Vec<usize> = Vec::new();
    let mut k: usize = 0;
    proof {
        assert(idx_ints(idxs@) =~= Seq::<int>::empty());
        assert(identity_perm(0) =~= Seq::<int>::empty());
    }
    while k < n
        invariant
            k <= n,
            n == scored@.len(),
            sv == scored_views(scored@),
            leq == index_leq(sv, mode),
            idxs@.len() == k,
            forall|p: int| 0 <= p < idxs@.len() ==> (#[trigger] idxs@[p]) < k,
            sorted_by(idx_ints(idxs@), leq),
            idx_ints(idxs@).to_multiset() == identity_perm(k as int).to_multiset(),
        decreases n - k,
    {
        let ghost m0 = idx_ints(idxs@).to_multiset();
        insert_sorted(&mut idxs, &scored, mode, k);
        proof {
            vstd::seq_lib::to_multiset_build(identity_perm(k as int), k as int);
            assert(identity_perm(k + 1) =~= identity_perm(k as int).push(k as int));
        }
        k = k + 1;
    }
    proof {
        lemma_index_leq_total_ordering(sv, mode);
        identity_perm(n as int).lemma_sort_by_ensures(leq);
        assert(sv.len() == n);
        vstd::seq_lib::lemma_sorted_unique(idx_ints(idxs@), rank_perm(sv, mode), leq);
        assert(idx_ints(idxs@) == rank_perm(sv, mode));
    }
    let ghost target = rank_spec(catalog_view(handlers@), sm, mode);
    let mut out: Vec<Browser> = Vec::new();
    let mut p: usize = 0;
    proof {
        assert(scored_seq(catalog_view(handlers@), sm) == sv);
        assert(target == rank_perm(sv, mode).map_values(|i: int| sv[i].handler));
        assert(catalog_view(out@) =~= target.take(0));
    }
    while p < idxs.len()
        invariant
            p <= idxs@.len(),
            sv == scored_views(scored@),
            idx_ints(idxs@) == rank_perm(sv, mode),
            forall|q: int| 0 <= q < idxs@.len() ==> (#[trigger] idxs@[q]) < scored@.len(),
            target == rank_perm(sv, mode).map_values(|i: int| sv[i].handler),
            catalog_view(out@) == target.take(p as int),
        decreases idxs@.len() - p,
    {
        let ghost before = catalog_view(out@);
        let q: usize = idxs[p];
        let picked = clone_browser(&scored[q].browser);
        proof {
            assert(sv[idx_ints(idxs@)[p as int]] == scored@[q as int]@);
            assert(picked@ == target[p as int]);
        }
        out.push(picked);
        proof {
            assert(catalog_view(out@) =~= before.push(target[p as int]));
            assert(before.push(target[p as int]) =~= target.take(p + 1));
        }
        p = p + 1;
    }
    proof {
        assert(target.take(idxs@.len() as int) =~= target);
    }
    out
}

/// The mode key a ranked entry sorts under, read back from the
/// statistics table by the entry's id.
pub open spec fn rank_key(stats: Map<Seq<char>, StatView>, b: BrowserView, mode: SortMode) -> int {
    mode_key(scored_of(b, stats), mode)
}

/// `b` is one of the handlers of `hs`, scored against the statistics
/// table.
pub open spec fn is_scored_handler(
    hs: Seq<BrowserView>,
    stats: Map<Seq<char>, StatView>,
    b: BrowserView,
) -> bool {
    exists|i: int| 0 <= i < hs.len() && b == (#[trigger] scored_of(hs[i], stats)).handler
}

/// The ranked catalog is a stable total order.  It has exactly one entry
/// per input handler — each input appears with its pin flag populated,
/// and nothing else appears; pinned entries all precede unpinned ones
/// whatever the mode; and entries that tie on pin state and mode key
/// stand in ascending name order.  Being a fixed function of the inputs,
/// the order is the same on every call over the same snapshot.
pub proof fn lemma_rank_properties(
    hs: Seq<BrowserView>,
    stats: Map<Seq<char>, StatView>,
    mode: SortMode,
    out: Seq<BrowserView>,
)
    requires
        out == rank_spec(hs, stats, mode),
    ensures
        out.len() == hs.len(),
        forall|p: int| 0 <= p < out.len() ==> is_scored_handler(hs, stats, #[trigger] out[p]),
        forall|i: int|
            0 <= i < hs.len() ==> out.contains(scored_of(#[trigger] hs[i], stats).handler),
        forall|i: int, j: int|
            0 <= i < j < out.len() && !(#[trigger] out[i]).is_pinned ==> !(
            #[trigger] out[j]).is_pinned,
        forall|i: int, j: int|
            0 <= i < j < out.len() && (#[trigger] out[i]).is_pinned == (
            #[trigger] out[j]).is_pinned && rank_key(stats, out[i], mode) == rank_key(
                stats,
                out[j],
                mode,
            ) ==> lex_leq(out[i].name, out[j].name),
{
    broadcast use vstd::seq_lib::group_to_multiset_ensures;
    broadcast use vstd::multiset::group_multiset_axioms;

    let scored = scored_seq(hs, stats);
    let n = hs.len() as int;
    assert(scored.len() == n);
    let leq = index_leq(scored, mode);
    let perm = rank_perm(scored, mode);
    lemma_index_leq_total_ordering(scored, mode);
    identity_perm(n).lemma_sort_by_ensures(leq);
    assert(identity_perm(n).to_multiset() =~= perm.to_multiset());
    assert(identity_perm(n).to_multiset().len() == perm.to_multiset().len());
    assert(perm.len() == n);
    assert(out.len() == n);
    assert forall|p: int| 0 <= p < n implies 0 <= #[trigger] perm[p] < n by {
        assert(perm.contains(perm[p]));
        assert(perm.to_multiset().count(perm[p]) > 0);
        assert(identity_perm(n).to_multiset().count(perm[p]) > 0);
        assert(identity_perm(n).contains(perm[p]));
        let q = choose|q: int| 0 <= q < n && identity_perm(n)[q] == perm[p];
        assert(identity_perm(n)[q] == q);
    }
    assert forall|p: int| 0 <= p < out.len() implies is_scored_handler(
        hs,
        stats,
        #[trigger] out[p],
    ) by {
        assert(out[p] == scored[perm[p]].handler);
        assert(scored[perm[p]] == scored_of(hs[perm[p]], stats));
        assert(out[p] == scored_of(hs[perm[p]], stats).handler);
    }
    assert forall|i: int| 0 <= i < hs.len() implies out.contains(
        scored_of(#[trigger] hs[i], stats).handler,
    ) by {
        assert(identity_perm(n)[i] == i);
        assert(identity_perm(n).contains(i));
        assert(identity_perm(n).to_multiset().count(i) > 0);
        assert(perm.to_multiset().count(i) > 0);
        assert(perm.contains(i));
        let p = choose|p: int| 0 <= p < perm.len() && perm[p] == i;
        assert(out[p] == scored[i].handler);
        assert(scored[i] == scored_of(hs[i], stats));
    }
    assert forall|i: int, j: int| 0 <= i < j < out.len() implies entry_leq(
        scored[perm[i]],
        scored[perm[j]],
        mode,
    ) && out[i] == scored[perm[i]].handler && out[j] == scored[perm[j]].handler by {
        assert(leq(perm[i], perm[j]));
    }
    assert forall|i: int, j: int|
        0 <= i < j < out.len() && !(#[trigger] out[i]).is_pinned implies !(
    #[trigger] out[j]).is_pinned by {
        assert(entry_leq(scored[perm[i]], scored[perm[j]], mode));
    }
    assert forall|i: int, j: int|
        0 <= i < j < out.len() && (#[trigger] out[i]).is_pinned == (#[trigger] out[j]).is_pinned
            && rank_key(stats, out[i], mode) == rank_key(stats, out[j], mode) implies lex_leq(
        out[i].name,
        out[j].name,
    ) by {
        let a = scored[perm[i]];
        let b = scored[perm[j]];
        assert(entry_leq(a, b, mode));
        assert(rank_key(stats, out[i], mode) == mode_key(a, mode));
        assert(rank_key(stats, out[j], mode) == mode_key(b, mode));
    }
}

} // verus!
