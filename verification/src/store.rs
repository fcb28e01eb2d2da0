//! The ranking store model: per-handler usage statistics (count, pinned
//! flag, last-used timestamp) keyed by handler id, and a generic
//! key/value settings table.  Absence of a record is equivalent to the
//! all-zero, unpinned default; each operation has upsert semantics, so
//! there is never more than one record per id.  The surrounding binary
//! moves this state in and out of the database file; every rule about
//! what the operations do to the tables is verified here.

use vstd::prelude::*;
use crate::text::str_eq;

verus! {

/// Persisted per-handler statistics, keyed by the handler's registry id.
pub struct UsageRecord {
    pub id: String,
    pub usage_count: i64,
    pub is_pinned: bool,
    pub last_used: i64,
}

/// Mathematical image of a `UsageRecord`.
pub struct RecordView {
    pub id: Seq<char>,
    pub usage_count: int,
    pub is_pinned: bool,
    pub last_used: int,
}

impl View for UsageRecord {
    type V = RecordView;

    open spec fn view(&self) -> RecordView {
        RecordView {
            id: self.id@,
            usage_count: self.usage_count as int,
            is_pinned: self.is_pinned,
            last_used: self.last_used as int,
        }
    }
}

/// A persisted key/value setting.
pub struct Setting {
    pub key: String,
    pub value: String,
}

/// The statistics of one handler, without its id.
pub struct StatView {
    pub usage_count: int,
    pub is_pinned: bool,
    pub last_used: int,
}

/// The statistics half of a record view.
pub open spec fn stat_of(r: RecordView) -> StatView {
    StatView { usage_count: r.usage_count, is_pinned: r.is_pinned, last_used: r.last_used }
}

/// The views of a sequence of records.
pub open spec fn records_view(v: Seq<UsageRecord>) -> Seq<RecordView> {
    v.map_values(|r: UsageRecord| r@)
}

/// No two records share an id.
pub open spec fn unique_ids(rs: Seq<RecordView>) -> bool {
    forall|i: int, j: int| 0 <= i < j < rs.len() ==> (#[trigger] rs[i]).id != (#[trigger] rs[j]).id
}

/// The statistics table that a sequence of records denotes.
pub open spec fn stats_map(rs: Seq<RecordView>) -> Map<Seq<char>, StatView>
    decreases rs.len(),
{
    if rs.len() == 0 {
        Map::empty()
    } else {
        stats_map(rs.drop_last()).insert(rs.last().id, stat_of(rs.last()))
    }
}

/// The key/value pairs of a sequence of settings.
pub open spec fn settings_view(v: Seq<Setting>) -> Seq<(Seq<char>, Seq<char>)> {
    v.map_values(|s: Setting| (s.key@, s.value@))
}

/// No two settings share a key.
pub open spec fn unique_keys(ss: Seq<(Seq<char>, Seq<char>)>) -> bool {
    forall|i: int, j: int| 0 <= i < j < ss.len() ==> (#[trigger] ss[i]).0 != (#[trigger] ss[j]).0
}

/// The settings table that a sequence of pairs denotes.
pub open spec fn settings_map(ss: Seq<(Seq<char>, Seq<char>)>) -> Map<Seq<char>, Seq<char>>
    decreases ss.len(),
{
    if ss.len() == 0 {
        Map::empty()
    } else {
        settings_map(ss.drop_last()).insert(ss.last().0, ss.last().1)
    }
}

/// A sequence of records with pairwise distinct ids denotes the table
/// that holds exactly those records' statistics under their ids.
pub proof fn lemma_stats_map_view(rs: Seq<RecordView>)
    requires
        unique_ids(rs),
    ensures
        forall|k: Seq<char>|
            stats_map(rs).dom().contains(k) <==> exists|i: int|
                0 <= i < rs.len() && (#[trigger] rs[i]).id == k,
        forall|i: int|
            0 <= i < rs.len() ==> stats_map(rs).dom().contains((#[trigger] rs[i]).id)
                && stats_map(rs)[rs[i].id] == stat_of(rs[i]),
    decreases rs.len(),
{
    if rs.len() > 0 {
        let head = rs.drop_last();
        assert(forall|i: int| 0 <= i < head.len() ==> #[trigger] head[i] == rs[i]);
        lemma_stats_map_view(head);
        assert forall|k: Seq<char>| stats_map(rs).dom().contains(k) implies exists|i: int|
            0 <= i < rs.len() && (#[trigger] rs[i]).id == k by {
            if k == rs.last().id {
                assert(rs[rs.len() - 1].id == k);
            } else {
                assert(stats_map(head).dom().contains(k));
                assert(exists|i: int| 0 <= i < head.len() && (#[trigger] head[i]).id == k);
                let i = choose|i: int| 0 <= i < head.len() && (#[trigger] head[i]).id == k;
                assert(rs[i].id == k);
            }
        }
        assert forall|i: int| 0 <= i < rs.len() implies stats_map(rs).dom().contains(
            (#[trigger] rs[i]).id,
        ) && stats_map(rs)[rs[i].id] == stat_of(rs[i]) by {
            if i < rs.len() - 1 {
                assert(head[i] == rs[i]);
                assert(rs[i].id != rs.last().id);
            }
        }
    }
}

/// A sequence of settings with pairwise distinct keys denotes the table
/// that holds exactly those pairs.
pub proof fn lemma_settings_map_view(ss: Seq<(Seq<char>, Seq<char>)>)
    requires
        unique_keys(ss),
    ensures
        forall|k: Seq<char>|
            settings_map(ss).dom().contains(k) <==> exists|i: int|
                0 <= i < ss.len() && (#[trigger] ss[i]).0 == k,
        forall|i: int|
            0 <= i < ss.len() ==> settings_map(ss).dom().contains((#[trigger] ss[i]).0)
                && settings_map(ss)[ss[i].0] == ss[i].1,
    decreases ss.len(),
{
    if ss.len() > 0 {
        let head = ss.drop_last();
        assert(forall|i: int| 0 <= i < head.len() ==> #[trigger] head[i] == ss[i]);
        lemma_settings_map_view(head);
        assert forall|k: Seq<char>| settings_map(ss).dom().contains(k) implies exists|i: int|
            0 <= i < ss.len() && (#[trigger] ss[i]).0 == k by {
            if k == ss.last().0 {
                assert(ss[ss.len() - 1].0 == k);
            } else {
                assert(settings_map(head).dom().contains(k));
                assert(exists|i: int| 0 <= i < head.len() && (#[trigger] head[i]).0 == k);
                let i = choose|i: int| 0 <= i < head.len() && (#[trigger] head[i]).0 == k;
                assert(ss[i].0 == k);
            }
        }
        assert forall|i: int| 0 <= i < ss.len() implies settings_map(ss).dom().contains(
            (#[trigger] ss[i]).0,
        ) && settings_map(ss)[ss[i].0] == ss[i].1 by {
            if i < ss.len() - 1 {
                assert(head[i] == ss[i]);
                assert(ss[i].0 != ss.last().0);
            }
        }
    }
}

/// Mathematical image of the store: both tables.
pub struct StoreView {
    pub stats: Map<Seq<char>, StatView>,
    pub settings: Map<Seq<char>, Seq<char>>,
}

/// The ranking store: the usage-statistics table and the settings table.
pub struct Store {
    records: Vec<UsageRecord>,
    settings: Vec<Setting>,
}

impl View for Store {
    type V = StoreView;

    closed spec fn view(&self) -> StoreView {
        StoreView {
            stats: stats_map(records_view(self.records@)),
            settings: settings_map(settings_view(self.settings@)),
        }
    }
}

impl Store {
    /// The store's internal tables are well-formed: one record per id,
    /// one row per settings key.
    pub closed spec fn wf(&self) -> bool {
        unique_ids(records_view(self.records@)) && unique_keys(settings_view(self.settings@))
    }

    /// An empty store: no statistics, no settings.
    pub fn new() -> (r: Store)
        ensures
            r.wf(),
            r@.stats == Map::<Seq<char>, StatView>::empty(),
            r@.settings == Map::<Seq<char>, Seq<char>>::empty(),
    {
        Store { records: Vec::new(), settings: Vec::new() }
    }
}

/// Index of the record with the given id, if one exists.
fn find_record(records: &Vec<UsageRecord>, id: &str) -> (r: Option<usize>)
    ensures
        match r {
            Some(i) => i < records@.len() && records@[i as int]@.id == id@,
            None => forall|i: int|
                0 <= i < records@.len() ==> (#[trigger] records@[i]@).id != id@,
        },
{
    let mut i: usize = 0;
    while i < records.len()
        invariant
            i <= records@.len(),
            forall|j: int| 0 <= j < i ==> (#[trigger] records@[j]@).id != id@,
        decreases records@.len() - i,
    {
        if str_eq(records[i].id.as_str(), id) {
            return Some(i);
        }
        i = i + 1;
    }
    None
}

/// The statistics a handler has, with absence meaning the all-zero,
/// unpinned default.
pub open spec fn stat_or_default(stats: Map<Seq<char>, StatView>, id: Seq<char>) -> StatView {
    if stats.dom().contains(id) {
        stats[id]
    } else {
        StatView { usage_count: 0, is_pinned: false, last_used: 0 }
    }
}

/// The record a use at time `now` leaves behind: a fresh record starts at
/// count 1; an existing one counts one more (saturating at the integer
/// limit) and always takes the new timestamp.  Pin state is untouched.
pub open spec fn bumped_stat(stats: Map<Seq<char>, StatView>, id: Seq<char>, now: int) -> StatView {
    if stats.dom().contains(id) {
        let s = stats[id];
        StatView {
            usage_count: if s.usage_count < i64::MAX { s.usage_count + 1 } else { s.usage_count },
            is_pinned: s.is_pinned,
            last_used: now,
        }
    } else {
        StatView { usage_count: 1, is_pinned: false, last_used: now }
    }
}

/// The statistics table after one use of `id` at time `now`.
pub open spec fn bump_spec(
    stats: Map<Seq<char>, StatView>,
    id: Seq<char>,
    now: int,
) -> Map<Seq<char>, StatView> {
    stats.insert(id, bumped_stat(stats, id, now))
}

impl Store {
    /// Record one use of the handler `id` at time `now`: upsert, so a
    /// missing record is created with count 1 and an existing one is
    /// incremented, with `last_used` set to `now` either way.
    pub fn increment_usage(&mut self, id: &str, now: i64)
        requires
            old(self).wf(),
        ensures
            final(self).wf(),
            final(self)@.stats == bump_spec(old(self)@.stats, id@, now as int),
            final(self)@.settings == old(self)@.settings,
    {
        let ghost rv0 = records_view(self.records@);
        proof {
            lemma_stats_map_view(rv0);
        }
        match find_record(&self.records, id) {
            Some(i) => {
                proof {
                    assert(rv0[i as int] == old(self).records@[i as int]@);
                    assert(stats_map(rv0).dom().contains(rv0[i as int].id));
                    assert(stats_map(rv0)[id@] == stat_of(rv0[i as int]));
                }
                let rec = self.records.remove(i);
                let count: i64 = if rec.usage_count < i64::MAX {
                    rec.usage_count + 1
                } else {
                    rec.usage_count
                };
                let updated = UsageRecord {
                    id: rec.id,
                    usage_count: count,
                    is_pinned: rec.is_pinned,
                    last_used: now,
                };
                proof {
                    assert(updated@.id == id@);
                    assert(stat_of(updated@) == bumped_stat(stats_map(rv0), id@, now as int));
                }
                self.records.push(updated);
                proof {
                    assert(self.records@ == old(self).records@.remove(i as int).push(updated));
                    assert(records_view(self.records@) =~= rv0.remove(i as int).push(updated@));
                    lemma_upsert(rv0, records_view(self.records@), i as int, updated@);
                    assert(self@.stats =~= bump_spec(stats_map(rv0), id@, now as int));
                    assert(settings_view(self.settings@) == settings_view(old(self).settings@));
                }
            },
            None => {
                let fresh = UsageRecord {
                    id: String::from_str(id),
                    usage_count: 1,
                    is_pinned: false,
                    last_used: now,
                };
                proof {
                    if stats_map(rv0).dom().contains(id@) {
                        let w = choose|w: int| 0 <= w < rv0.len() && (#[trigger] rv0[w]).id == id@;
                        assert(old(self).records@[w]@.id == id@);
                    }
                    assert(!stats_map(rv0).dom().contains(id@));
                    assert(stat_of(fresh@) == bumped_stat(stats_map(rv0), id@, now as int));
                }
                self.records.push(fresh);
                proof {
                    assert(records_view(self.records@) =~= rv0.push(fresh@));
                    lemma_append(rv0, records_view(self.records@), fresh@);
                    assert(self@.stats =~= bump_spec(stats_map(rv0), id@, now as int));
                }
            },
        }
    }
}

/// Replacing the record at `i` by one with the same id, moved to the back
/// of the sequence, upserts that id's statistics and nothing else.
proof fn lemma_upsert(rv0: Seq<RecordView>, rv1: Seq<RecordView>, i: int, r: RecordView)
    requires
        unique_ids(rv0),
        0 <= i < rv0.len(),
        rv0[i].id == r.id,
        rv1 == rv0.remove(i).push(r),
    ensures
        unique_ids(rv1),
        stats_map(rv1) == stats_map(rv0).insert(r.id, stat_of(r)),
{
    let removed = rv0.remove(i);
    assert(rv1.len() == rv0.len());
    assert(forall|j: int| 0 <= j < i ==> #[trigger] removed[j] == rv0[j]);
    assert(forall|j: int| i <= j < removed.len() ==> #[trigger] removed[j] == rv0[j + 1]);
    assert(forall|j: int| 0 <= j < removed.len() ==> #[trigger] rv1[j] == removed[j]);
    assert(rv1.last() == r);
    assert(unique_ids(rv1)) by {
        assert(forall|j: int| 0 <= j < rv1.len() - 1 ==> (#[trigger] rv1[j]).id != r.id);
    }
    lemma_stats_map_view(rv0);
    lemma_stats_map_view(rv1);
    let target = stats_map(rv0).insert(r.id, stat_of(r));
    assert forall|k: Seq<char>| stats_map(rv1).dom().contains(k) implies target.dom().contains(
        k,
    ) by {
        let w = choose|w: int| 0 <= w < rv1.len() && (#[trigger] rv1[w]).id == k;
        if k != r.id {
            assert(w < rv1.len() - 1);
            if w < i {
                assert(rv0[w].id == k);
            } else {
                assert(rv0[w + 1].id == k);
            }
        }
    }
    assert forall|k: Seq<char>| target.dom().contains(k) implies stats_map(rv1).dom().contains(
        k,
    ) by {
        if k == r.id {
            assert(rv1.last().id == k);
        } else {
            let w = choose|w: int| 0 <= w < rv0.len() && (#[trigger] rv0[w]).id == k;
            assert(w != i);
            if w < i {
                assert(rv1[w].id == k);
            } else {
                assert(rv1[w - 1].id == k);
            }
        }
    }
    assert forall|k: Seq<char>| stats_map(rv1).dom().contains(k) implies stats_map(rv1)[k]
        == target[k] by {
        if k == r.id {
            assert(stats_map(rv1)[rv1.last().id] == stat_of(rv1.last()));
        } else {
            let w = choose|w: int| 0 <= w < rv1.len() && (#[trigger] rv1[w]).id == k;
            assert(w < rv1.len() - 1);
            assert(stats_map(rv1)[k] == stat_of(rv1[w]));
            if w < i {
                assert(rv0[w].id == k);
                assert(stats_map(rv0)[k] == stat_of(rv0[w]));
            } else {
                assert(rv0[w + 1].id == k);
                assert(stats_map(rv0)[k] == stat_of(rv0[w + 1]));
            }
        }
    }
    assert(stats_map(rv1) =~= target);
}

/// Appending a record with a fresh id adds exactly that id's statistics.
proof fn lemma_append(rv0: Seq<RecordView>, rv1: Seq<RecordView>, r: RecordView)
    requires
        unique_ids(rv0),
        forall|i: int| 0 <= i < rv0.len() ==> (#[trigger] rv0[i]).id != r.id,
        rv1 == rv0.push(r),
    ensures
        unique_ids(rv1),
        stats_map(rv1) == stats_map(rv0).insert(r.id, stat_of(r)),
{
    assert(rv1.drop_last() =~= rv0);
    assert(rv1.last() == r);
    assert(forall|j: int| 0 <= j < rv0.len() ==> #[trigger] rv1[j] == rv0[j]);
}

/// The statistics after toggling `id`'s pin: a missing record counts as
/// the zeroed default, and only the pin flag flips.
pub open spec fn toggled_stat(stats: Map<Seq<char>, StatView>, id: Seq<char>) -> StatView {
    let s = stat_or_default(stats, id);
    StatView { usage_count: s.usage_count, is_pinned: !s.is_pinned, last_used: s.last_used }
}

/// The statistics table after toggling `id`'s pin.
pub open spec fn toggle_spec(
    stats: Map<Seq<char>, StatView>,
    id: Seq<char>,
) -> Map<Seq<char>, StatView> {
    stats.insert(id, toggled_stat(stats, id))
}

impl Store {
    /// Flip the pin flag of `id`, creating a zeroed record first when
    /// none exists, and report the resulting pin state.
    pub fn toggle_pin(&mut self, id: &str) -> (r: bool)
        requires
            old(self).wf(),
        ensures
            final(self).wf(),
            final(self)@.stats == toggle_spec(old(self)@.stats, id@),
            final(self)@.settings == old(self)@.settings,
            r == !stat_or_default(old(self)@.stats, id@).is_pinned,
    {
        let ghost rv0 = records_view(self.records@);
        proof {
            lemma_stats_map_view(rv0);
        }
        match find_record(&self.records, id) {
            Some(i) => {
                proof {
                    assert(rv0[i as int] == old(self).records@[i as int]@);
                    assert(stats_map(rv0).dom().contains(rv0[i as int].id));
                    assert(stats_map(rv0)[id@] == stat_of(rv0[i as int]));
                }
                let rec = self.records.remove(i);
                let flipped: bool = !rec.is_pinned;
                let updated = UsageRecord {
                    id: rec.id,
                    usage_count: rec.usage_count,
                    is_pinned: flipped,
                    last_used: rec.last_used,
                };
                proof {
                    assert(updated@.id == id@);
                    assert(stat_of(updated@) == toggled_stat(stats_map(rv0), id@));
                }
                self.records.push(updated);
                proof {
                    assert(records_view(self.records@) =~= rv0.remove(i as int).push(updated@));
                    lemma_upsert(rv0, records_view(self.records@), i as int, updated@);
                    assert(self@.stats =~= toggle_spec(stats_map(rv0), id@));
                }
                flipped
            },
            None => {
                let fresh = UsageRecord {
                    id: String::from_str(id),
                    usage_count: 0,
                    is_pinned: true,
                    last_used: 0,
                };
                proof {
                    if stats_map(rv0).dom().contains(id@) {
                        let w = choose|w: int| 0 <= w < rv0.len() && (#[trigger] rv0[w]).id == id@;
                        assert(old(self).records@[w]@.id == id@);
                    }
                    assert(!stats_map(rv0).dom().contains(id@));
                    assert(stat_of(fresh@) == toggled_stat(stats_map(rv0), id@));
                }
                self.records.push(fresh);
                proof {
                    assert(records_view(self.records@) =~= rv0.push(fresh@));
                    lemma_append(rv0, records_view(self.records@), fresh@);
                    assert(self@.stats =~= toggle_spec(stats_map(rv0), id@));
                }
                true
            },
        }
    }

    /// The statistics recorded for `id`, if a record exists.
    pub fn get_record(&self, id: &str) -> (r: Option<UsageRecord>)
        requires
            self.wf(),
        ensures
            match r {
                Some(rec) => self@.stats.dom().contains(id@) && rec@.id == id@ && stat_of(rec@)
                    == self@.stats[id@],
                None => !self@.stats.dom().contains(id@),
            },
    {
        let ghost rv = records_view(self.records@);
        proof {
            lemma_stats_map_view(rv);
        }
        match find_record(&self.records, id) {
            Some(i) => {
                proof {
                    assert(rv[i as int] == self.records@[i as int]@);
                    assert(stats_map(rv).dom().contains(rv[i as int].id));
                    assert(stats_map(rv)[id@] == stat_of(rv[i as int]));
                }
                let rec = &self.records[i];
                Some(
                    UsageRecord {
                        id: rec.id.clone(),
                        usage_count: rec.usage_count,
                        is_pinned: rec.is_pinned,
                        last_used: rec.last_used,
                    },
                )
            },
            None => {
                proof {
                    if stats_map(rv).dom().contains(id@) {
                        let w = choose|w: int| 0 <= w < rv.len() && (#[trigger] rv[w]).id == id@;
                        assert(self.records@[w]@.id == id@);
                    }
                }
                None
            },
        }
    }

    /// A full snapshot of the statistics table: one record per id,
    /// holding exactly the table's contents.
    pub fn get_stats(&self) -> (r: Vec<UsageRecord>)
        requires
            self.wf(),
        ensures
            unique_ids(records_view(r@)),
            stats_map(records_view(r@)) == self@.stats,
    {
        let ghost rv = records_view(self.records@);
        let mut out: Vec<UsageRecord> = Vec::new();
        let mut i: usize = 0;
        proof {
            assert(records_view(out@) =~= rv.take(0));
        }
        while i < self.records.len()
            invariant
                i <= self.records@.len(),
                rv == records_view(self.records@),
                records_view(out@) == rv.take(i as int),
            decreases self.records@.len() - i,
        {
            let ghost before = records_view(out@);
            let rec = &self.records[i];
            let snap = UsageRecord {
                id: rec.id.clone(),
                usage_count: rec.usage_count,
                is_pinned: rec.is_pinned,
                last_used: rec.last_used,
            };
            proof {
                assert(snap@ == rv[i as int]);
            }
            out.push(snap);
            proof {
                assert(records_view(out@) =~= before.push(rv[i as int]));
                assert(before.push(rv[i as int]) =~= rv.take(i + 1));
            }
            i = i + 1;
        }
        proof {
            assert(rv.take(self.records@.len() as int) =~= rv);
        }
        out
    }

    /// Load one record into the table, replacing any record of the same
    /// id.  The persistence layer feeds the store through this.
    pub fn insert_record(&mut self, rec: UsageRecord)
        requires
            old(self).wf(),
        ensures
            final(self).wf(),
            final(self)@.stats == old(self)@.stats.insert(rec@.id, stat_of(rec@)),
            final(self)@.settings == old(self)@.settings,
    {
        let ghost rv0 = records_view(self.records@);
        proof {
            lemma_stats_map_view(rv0);
        }
        match find_record(&self.records, rec.id.as_str()) {
            Some(i) => {
                proof {
                    assert(rv0[i as int] == old(self).records@[i as int]@);
                }
                let _dropped = self.records.remove(i);
                self.records.push(rec);
                proof {
                    assert(records_view(self.records@) =~= rv0.remove(i as int).push(rec@));
                    lemma_upsert(rv0, records_view(self.records@), i as int, rec@);
                }
            },
            None => {
                proof {
                    if stats_map(rv0).dom().contains(rec@.id) {
                        let w = choose|w: int|
                            0 <= w < rv0.len() && (#[trigger] rv0[w]).id == rec@.id;
                        assert(old(self).records@[w]@.id == rec@.id);
                    }
                }
                self.records.push(rec);
                proof {
                    assert(records_view(self.records@) =~= rv0.push(rec@));
                    lemma_append(rv0, records_view(self.records@), rec@);
                }
            },
        }
    }

    /// Zero every usage count and every timestamp, preserving pins.
    pub fn clear_stats(&mut self)
        requires
            old(self).wf(),
        ensures
            final(self).wf(),
            final(self)@.settings == old(self)@.settings,
            final(self)@.stats.dom() == old(self)@.stats.dom(),
            forall|k: Seq<char>|
                old(self)@.stats.dom().contains(k) ==> #[trigger] final(self)@.stats[k]
                    == (StatView {
                    usage_count: 0,
                    is_pinned: old(self)@.stats[k].is_pinned,
                    last_used: 0,
                }),
    {
        let updated = rewrite_records(&self.records, true, true);
        self.records = updated;
        proof {
            lemma_rewrite(
                records_view(old(self).records@),
                records_view(self.records@),
                true,
                true,
            );
        }
    }

    /// Zero only the last-used timestamps: usage counts and pins stay.
    pub fn reset_recent_stats(&mut self)
        requires
            old(self).wf(),
        ensures
            final(self).wf(),
            final(self)@.settings == old(self)@.settings,
            final(self)@.stats.dom() == old(self)@.stats.dom(),
            forall|k: Seq<char>|
                old(self)@.stats.dom().contains(k) ==> #[trigger] final(self)@.stats[k]
                    == (StatView {
                    usage_count: old(self)@.stats[k].usage_count,
                    is_pinned: old(self)@.stats[k].is_pinned,
                    last_used: 0,
                }),
    {
        let updated = rewrite_records(&self.records, false, true);
        self.records = updated;
        proof {
            lemma_rewrite(
                records_view(old(self).records@),
                records_view(self.records@),
                false,
                true,
            );
        }
    }

    /// Zero only the usage counts: timestamps and pins stay.
    pub fn reset_frequent_stats(&mut self)
        requires
            old(self).wf(),
        ensures
            final(self).wf(),
            final(self)@.settings == old(self)@.settings,
            final(self)@.stats.dom() == old(self)@.stats.dom(),
            forall|k: Seq<char>|
                old(self)@.stats.dom().contains(k) ==> #[trigger] final(self)@.stats[k]
                    == (StatView {
                    usage_count: 0,
                    is_pinned: old(self)@.stats[k].is_pinned,
                    last_used: old(self)@.stats[k].last_used,
                }),
    {
        let updated = rewrite_records(&self.records, true, false);
        self.records = updated;
        proof {
            lemma_rewrite(
                records_view(old(self).records@),
                records_view(self.records@),
                true,
                false,
            );
        }
    }
}

/// The record after an administrative reset: the chosen fields zeroed,
/// the pin flag always preserved.
pub open spec fn reset_record(r: RecordView, zero_count: bool, zero_last: bool) -> RecordView {
    RecordView {
        id: r.id,
        usage_count: if zero_count {
            0
        } else {
            r.usage_count
        },
        is_pinned: r.is_pinned,
        last_used: if zero_last {
            0
        } else {
            r.last_used
        },
    }
}

/// Copy the records, zeroing the chosen fields of each.
fn rewrite_records(records: &Vec<UsageRecord>, zero_count: bool, zero_last: bool) -> (r: Vec<
    UsageRecord,
>)
    ensures
        records_view(r@) == records_view(records@).map_values(
            |v: RecordView| reset_record(v, zero_count, zero_last),
        ),
{
    let ghost rv = records_view(records@);
    let ghost target = rv.map_values(|v: RecordView| reset_record(v, zero_count, zero_last));
    let mut out: Vec<UsageRecord> = Vec::new();
    let mut i: usize = 0;
    proof {
        assert(records_view(out@) =~= target.take(0));
    }
    while i < records.len()
        invariant
            i <= records@.len(),
            rv == records_view(records@),
            target == rv.map_values(|v: RecordView| reset_record(v, zero_count, zero_last)),
            records_view(out@) == target.take(i as int),
        decreases records@.len() - i,
    {
        let ghost before = records_view(out@);
        let rec = &records[i];
        let fresh = UsageRecord {
            id: rec.id.clone(),
            usage_count: if zero_count {
                0
            } else {
                rec.usage_count
            },
            is_pinned: rec.is_pinned,
            last_used: if zero_last {
                0
            } else {
                rec.last_used
            },
        };
        proof {
            assert(fresh@ == target[i as int]);
        }
        out.push(fresh);
        proof {
            assert(records_view(out@) =~= before.push(target[i as int]));
            assert(before.push(target[i as int]) =~= target.take(i + 1));
        }
        i = i + 1;
    }
    proof {
        assert(target.take(records@.len() as int) =~= target);
    }
    out
}

/// A field-zeroing rewrite keeps the table's ids and zeroes exactly the
/// chosen fields of every entry.
proof fn lemma_rewrite(rv0: Seq<RecordView>, rv1: Seq<RecordView>, zero_count: bool, zero_last: bool)
    requires
        unique_ids(rv0),
        rv1 == rv0.map_values(|v: RecordView| reset_record(v, zero_count, zero_last)),
    ensures
        unique_ids(rv1),
        stats_map(rv1).dom() == stats_map(rv0).dom(),
        forall|k: Seq<char>|
            stats_map(rv0).dom().contains(k) ==> #[trigger] stats_map(rv1)[k] == (StatView {
                usage_count: if zero_count {
                    0
                } else {
                    stats_map(rv0)[k].usage_count
                },
                is_pinned: stats_map(rv0)[k].is_pinned,
                last_used: if zero_last {
                    0
                } else {
                    stats_map(rv0)[k].last_used
                },
            }),
{
    assert(rv1.len() == rv0.len());
    assert(forall|j: int|
        0 <= j < rv0.len() ==> #[trigger] rv1[j] == reset_record(rv0[j], zero_count, zero_last));
    lemma_stats_map_view(rv0);
    lemma_stats_map_view(rv1);
    assert forall|k: Seq<char>| stats_map(rv1).dom().contains(k) implies stats_map(
        rv0,
    ).dom().contains(k) by {
        let w = choose|w: int| 0 <= w < rv1.len() && (#[trigger] rv1[w]).id == k;
        assert(rv0[w].id == k);
    }
    assert forall|k: Seq<char>| stats_map(rv0).dom().contains(k) implies stats_map(
        rv1,
    ).dom().contains(k) by {
        let w = choose|w: int| 0 <= w < rv0.len() && (#[trigger] rv0[w]).id == k;
        assert(rv1[w].id == k);
    }
    assert(stats_map(rv1).dom() =~= stats_map(rv0).dom());
    assert forall|k: Seq<char>| stats_map(rv0).dom().contains(k) implies #[trigger] stats_map(
        rv1,
    )[k] == (StatView {
        usage_count: if zero_count {
            0
        } else {
            stats_map(rv0)[k].usage_count
        },
        is_pinned: stats_map(rv0)[k].is_pinned,
        last_used: if zero_last {
            0
        } else {
            stats_map(rv0)[k].last_used
        },
    }) by {
        let w = choose|w: int| 0 <= w < rv0.len() && (#[trigger] rv0[w]).id == k;
        assert(stats_map(rv0)[k] == stat_of(rv0[w]));
        assert(rv1[w].id == k);
        assert(stats_map(rv1)[k] == stat_of(rv1[w]));
    }
}

/// Index of the setting with the given key, if one exists.
fn find_setting(settings: &Vec<Setting>, key: &str) -> (r: Option<usize>)
    ensures
        match r {
            Some(i) => i < settings@.len() && settings@[i as int].key@ == key@,
            None => forall|i: int|
                0 <= i < settings@.len() ==> (#[trigger] settings@[i]).key@ != key@,
        },
{
    let mut i: usize = 0;
    while i < settings.len()
        invariant
            i <= settings@.len(),
            forall|j: int| 0 <= j < i ==> (#[trigger] settings@[j]).key@ != key@,
        decreases settings@.len() - i,
    {
        if str_eq(settings[i].key.as_str(), key) {
            return Some(i);
        }
        i = i + 1;
    }
    None
}

/// Replacing the row at `i` by one with the same key, moved to the back,
/// upserts that key and nothing else.
proof fn lemma_setting_upsert(
    sv0: Seq<(Seq<char>, Seq<char>)>,
    sv1: Seq<(Seq<char>, Seq<char>)>,
    i: int,
    row: (Seq<char>, Seq<char>),
)
    requires
        unique_keys(sv0),
        0 <= i < sv0.len(),
        sv0[i].0 == row.0,
        sv1 == sv0.remove(i).push(row),
    ensures
        unique_keys(sv1),
        settings_map(sv1) == settings_map(sv0).insert(row.0, row.1),
{
    let removed = sv0.remove(i);
    assert(sv1.len() == sv0.len());
    assert(forall|j: int| 0 <= j < i ==> #[trigger] removed[j] == sv0[j]);
    assert(forall|j: int| i <= j < removed.len() ==> #[trigger] removed[j] == sv0[j + 1]);
    assert(forall|j: int| 0 <= j < removed.len() ==> #[trigger] sv1[j] == removed[j]);
    assert(sv1.last() == row);
    assert(unique_keys(sv1)) by {
        assert(forall|j: int| 0 <= j < sv1.len() - 1 ==> (#[trigger] sv1[j]).0 != row.0);
    }
    lemma_settings_map_view(sv0);
    lemma_settings_map_view(sv1);
    let target = settings_map(sv0).insert(row.0, row.1);
    assert forall|k: Seq<char>| settings_map(sv1).dom().contains(k) implies target.dom().contains(
        k,
    ) by {
        let w = choose|w: int| 0 <= w < sv1.len() && (#[trigger] sv1[w]).0 == k;
        if k != row.0 {
            assert(w < sv1.len() - 1);
            if w < i {
                assert(sv0[w].0 == k);
            } else {
                assert(sv0[w + 1].0 == k);
            }
        }
    }
    assert forall|k: Seq<char>| target.dom().contains(k) implies settings_map(sv1).dom().contains(
        k,
    ) by {
        if k == row.0 {
            assert(sv1.last().0 == k);
        } else {
            let w = choose|w: int| 0 <= w < sv0.len() && (#[trigger] sv0[w]).0 == k;
            assert(w != i);
            if w < i {
                assert(sv1[w].0 == k);
            } else {
                assert(sv1[w - 1].0 == k);
            }
        }
    }
    assert forall|k: Seq<char>| settings_map(sv1).dom().contains(k) implies settings_map(sv1)[k]
        == target[k] by {
        if k == row.0 {
            assert(settings_map(sv1)[sv1.last().0] == sv1.last().1);
        } else {
            let w = choose|w: int| 0 <= w < sv1.len() && (#[trigger] sv1[w]).0 == k;
            assert(w < sv1.len() - 1);
            assert(settings_map(sv1)[k] == sv1[w].1);
            if w < i {
                assert(sv0[w].0 == k);
                assert(settings_map(sv0)[k] == sv0[w].1);
            } else {
                assert(sv0[w + 1].0 == k);
                assert(settings_map(sv0)[k] == sv0[w + 1].1);
            }
        }
    }
    assert(settings_map(sv1) =~= target);
}

/// Appending a row with a fresh key adds exactly that key.
proof fn lemma_setting_append(
    sv0: Seq<(Seq<char>, Seq<char>)>,
    sv1: Seq<(Seq<char>, Seq<char>)>,
    row: (Seq<char>, Seq<char>),
)
    requires
        unique_keys(sv0),
        forall|i: int| 0 <= i < sv0.len() ==> (#[trigger] sv0[i]).0 != row.0,
        sv1 == sv0.push(row),
    ensures
        unique_keys(sv1),
        settings_map(sv1) == settings_map(sv0).insert(row.0, row.1),
{
    assert(sv1.drop_last() =~= sv0);
    assert(sv1.last() == row);
    assert(forall|j: int| 0 <= j < sv0.len() ==> #[trigger] sv1[j] == sv0[j]);
}

/// The normalization applied when the default-search-engine setting is
/// read: legacy human-readable engine names still map to their short
/// keywords.
pub open spec fn normalize_engine_name(v: Seq<char>) -> Seq<char> {
    if v == "Google"@ {
        "g"@
    } else if v == "DuckDuckGo"@ {
        "d"@
    } else if v == "Bing"@ {
        "b"@
    } else if v == "Brave"@ {
        "br"@
    } else if v == "Ecosia"@ {
        "e"@
    } else {
        v
    }
}

/// What a read of `key` yields from the settings table: the stored value,
/// normalized when the key is the default-engine setting.
pub open spec fn setting_read(
    settings: Map<Seq<char>, Seq<char>>,
    key: Seq<char>,
) -> Option<Seq<char>> {
    if !settings.dom().contains(key) {
        Option::None
    } else if key == "search_engine"@ {
        Option::Some(normalize_engine_name(settings[key]))
    } else {
        Option::Some(settings[key])
    }
}

impl Store {
    /// Store `value` under `key`, replacing any earlier value.
    pub fn set_setting(&mut self, key: &str, value: &str)
        requires
            old(self).wf(),
        ensures
            final(self).wf(),
            final(self)@.stats == old(self)@.stats,
            final(self)@.settings == old(self)@.settings.insert(key@, value@),
    {
        let ghost sv0 = settings_view(self.settings@);
        let row = Setting { key: String::from_str(key), value: String::from_str(value) };
        proof {
            assert((row.key@, row.value@) == (key@, value@));
        }
        match find_setting(&self.settings, key) {
            Some(i) => {
                proof {
                    assert(sv0[i as int] == (self.settings@[i as int].key@,
                    self.settings@[i as int].value@));
                }
                let _dropped = self.settings.remove(i);
                self.settings.push(row);
                proof {
                    assert(settings_view(self.settings@) =~= sv0.remove(i as int).push(
                        (key@, value@),
                    ));
                    lemma_setting_upsert(
                        sv0,
                        settings_view(self.settings@),
                        i as int,
                        (key@, value@),
                    );
                }
            },
            None => {
                self.settings.push(row);
                proof {
                    assert(settings_view(self.settings@) =~= sv0.push((key@, value@)));
                    lemma_setting_append(sv0, settings_view(self.settings@), (key@, value@));
                }
            },
        }
    }

    /// Read the setting stored under `key`.  The default-engine setting
    /// is normalized on the way out: legacy display names become their
    /// short keywords.
    pub fn get_setting(&self, key: &str) -> (r: Option<String>)
        requires
            self.wf(),
        ensures
            match r {
                Some(v) => setting_read(self@.settings, key@) == Option::Some(v@),
                None => setting_read(self@.settings, key@) is None,
            },
    {
        let ghost sv = settings_view(self.settings@);
        proof {
            lemma_settings_map_view(sv);
        }
        match find_setting(&self.settings, key) {
            None => {
                proof {
                    if settings_map(sv).dom().contains(key@) {
                        let w = choose|w: int| 0 <= w < sv.len() && (#[trigger] sv[w]).0 == key@;
                        assert(self.settings@[w].key@ == key@);
                    }
                }
                None
            },
            Some(i) => {
                proof {
                    assert(sv[i as int] == (self.settings@[i as int].key@,
                    self.settings@[i as int].value@));
                    assert(settings_map(sv).dom().contains(sv[i as int].0));
                    assert(settings_map(sv)[key@] == self.settings@[i as int].value@);
                }
                let stored = &self.settings[i].value;
                if str_eq(key, "search_engine") {
                    if str_eq(stored.as_str(), "Google") {
                        Some(String::from_str("g"))
                    } else if str_eq(stored.as_str(), "DuckDuckGo") {
                        Some(String::from_str("d"))
                    } else if str_eq(stored.as_str(), "Bing") {
                        Some(String::from_str("b"))
                    } else if str_eq(stored.as_str(), "Brave") {
                        Some(String::from_str("br"))
                    } else if str_eq(stored.as_str(), "Ecosia") {
                        Some(String::from_str("e"))
                    } else {
                        Some(stored.clone())
                    }
                } else {
                    Some(stored.clone())
                }
            },
        }
    }
}

/// The statistics table after a run of uses of one handler, one `bump`
/// per element of `times`, oldest first.
pub open spec fn bump_many(
    stats: Map<Seq<char>, StatView>,
    id: Seq<char>,
    times: Seq<int>,
) -> Map<Seq<char>, StatView>
    decreases times.len(),
{
    if times.len() == 0 {
        stats
    } else {
        bump_spec(bump_many(stats, id, times.drop_last()), id, times.last())
    }
}

/// Usage accumulates: starting with no record for `id`, a run of uses
/// leaves `usage_count` equal to the number of uses, `last_used` equal to
/// the time of the final one, and the handler unpinned.
pub proof fn lemma_usage_accumulates(
    stats: Map<Seq<char>, StatView>,
    id: Seq<char>,
    times: Seq<int>,
)
    requires
        !stats.dom().contains(id),
        1 <= times.len() <= i64::MAX,
    ensures
        bump_many(stats, id, times).dom().contains(id),
        bump_many(stats, id, times)[id].usage_count == times.len(),
        bump_many(stats, id, times)[id].last_used == times.last(),
        !bump_many(stats, id, times)[id].is_pinned,
    decreases times.len(),
{
    if times.len() == 1 {
        assert(bump_many(stats, id, times.drop_last()) == stats);
    } else {
        lemma_usage_accumulates(stats, id, times.drop_last());
    }
}

/// Toggling a pin twice restores the handler's statistics exactly, one
/// toggle touches no other handler, and the reported states are the
/// flipped and then the original pin state.
pub proof fn lemma_toggle_twice(stats: Map<Seq<char>, StatView>, id: Seq<char>)
    ensures
        stat_or_default(toggle_spec(toggle_spec(stats, id), id), id) == stat_or_default(stats, id),
        toggled_stat(toggle_spec(stats, id), id).is_pinned == stat_or_default(stats, id).is_pinned,
        forall|k: Seq<char>|
            k != id ==> #[trigger] stat_or_default(toggle_spec(stats, id), k) == stat_or_default(
                stats,
                k,
            ),
{
}

} // verus!
