//! Which files of a log directory are log files, in what order they stand,
//! and which of them leave when the retention limit is enforced.
//!
//! Nothing here touches the disk: the functions take the directory's entries
//! as values and answer with the paths to delete.

use crate::codec::{decode, encode, fields_of, is_token, token_of};
use crate::instant::Instant;
use vstd::prelude::*;
use vstd::string::*;

verus! {

/// How many log files the directory may hold once the file of the current
/// run has been added.
pub const MAX_LOG_FILES: u8 = 5;

/// One entry of the log directory, as the directory listing gave it.
#[derive(Clone, Debug)]
pub struct DirEntry {
    /// The entry's full path.
    pub path: String,
    /// The entry's name without its last extension, if it has a name.
    pub stem: Option<String>,
}

/// A log file: its path and the instant that its name states.
#[derive(Clone, Debug)]
pub struct LogFileRecord {
    pub path: String,
    pub timestamp: Instant,
}

/// What a scan found: the log files, newest first, and the paths of the
/// entries that are no log files and have to be deleted.
#[derive(Debug)]
pub struct ScanOutcome {
    pub records: Vec<LogFileRecord>,
    pub foreign: Vec<String>,
}

/// What one pass over the directory has to do: delete `foreign`, then delete
/// `evicted` in the order given, oldest first. `kept` stays, newest first.
#[derive(Debug)]
pub struct RotationPlan {
    pub foreign: Vec<String>,
    pub evicted: Vec<LogFileRecord>,
    pub kept: Vec<LogFileRecord>,
}

/// Why a pass over the log directory is given up.
#[derive(Clone, Copy, Debug, PartialEq, Eq, Structural)]
pub enum DeletionFailure {
    /// An entry that is no log file could not be deleted.
    CorruptEntryCleanupFailed,
    /// A log file beyond the retention limit could not be deleted.
    EvictionFailed,
}

/// One deletion of a pass: the path to delete, and the failure to report
/// if it cannot be deleted. A failure ends the pass.
#[derive(Debug)]
pub struct Deletion {
    pub path: String,
    pub on_failure: DeletionFailure,
}

/// What an entry of the log directory is.
#[derive(Clone, Copy, Debug, PartialEq, Eq, Structural)]
pub enum EntryKind {
    /// It has no stem: it is left alone.
    Unnamed,
    /// Its stem is the token of this instant: it is a log file.
    LogFile(Instant),
    /// Its stem is no token: it is deleted.
    Foreign,
}

/// What an entry with the stem `stem` is.
pub open spec fn stem_kind(stem: Seq<char>) -> EntryKind {
    if is_token(stem) {
        EntryKind::LogFile(fields_of(stem))
    } else {
        EntryKind::Foreign
    }
}

impl DirEntry {
    /// What the entry is.
    pub open spec fn kind(&self) -> EntryKind {
        match self.stem {
            None => EntryKind::Unnamed,
            Some(stem) => stem_kind(stem@),
        }
    }

    /// Computes [`DirEntry::kind`].
    pub fn classify(&self) -> (k: EntryKind)
        ensures
            k == self.kind(),
    {
        match &self.stem {
            None => EntryKind::Unnamed,
            Some(stem) => match decode(stem.as_str()) {
                Ok(t) => EntryKind::LogFile(t),
                Err(_) => EntryKind::Foreign,
            },
        }
    }
}

/// The log files among `entries`, in the order of the listing.
pub open spec fn recognised(entries: Seq<DirEntry>) -> Seq<LogFileRecord>
    decreases entries.len(),
{
    if entries.len() == 0 {
        Seq::empty()
    } else {
        let rest = recognised(entries.drop_last());
        match entries.last().kind() {
            EntryKind::LogFile(t) => rest.push(
                LogFileRecord { path: entries.last().path, timestamp: t },
            ),
            _ => rest,
        }
    }
}

/// The paths of the entries among `entries` with a stem that is no token,
/// in the order of the listing.
pub open spec fn foreign_paths(entries: Seq<DirEntry>) -> Seq<String>
    decreases entries.len(),
{
    if entries.len() == 0 {
        Seq::empty()
    } else {
        let rest = foreign_paths(entries.drop_last());
        match entries.last().kind() {
            EntryKind::Foreign => rest.push(entries.last().path),
            _ => rest,
        }
    }
}

/// How many of `count` log files stay under the limit `limit`: all of them
/// while they are fewer than the limit, else one fewer than the limit.
pub open spec fn kept_count(count: int, limit: int) -> int {
    if count < limit {
        count
    } else {
        limit - 1
    }
}

/// `kept` and `evicted` are what enforcing `limit` makes of `sorted`: `kept`
/// is its head, and `evicted` its tail from the last record backwards.
pub open spec fn enforced(
    sorted: Seq<LogFileRecord>,
    limit: int,
    kept: Seq<LogFileRecord>,
    evicted: Seq<LogFileRecord>,
) -> bool {
    &&& kept == sorted.take(kept_count(sorted.len() as int, limit))
    &&& evicted.len() == sorted.len() - kept_count(sorted.len() as int, limit)
    &&& forall|k: int|
        0 <= k < evicted.len() ==> #[trigger] evicted[k] == sorted[sorted.len() - 1 - k]
}

/// `first`, which stood at `first_origin` before sorting, belongs before
/// `second`, which stood at `second_origin`: it is later, or as late and was
/// listed earlier.
pub open spec fn stands_before(
    first: LogFileRecord,
    first_origin: int,
    second: LogFileRecord,
    second_origin: int,
) -> bool {
    first.timestamp.rank() > second.timestamp.rank() || (first.timestamp.rank()
        == second.timestamp.rank() && first_origin < second_origin)
}

/// The record that stood at `k` stands at some place after sorting.
pub open spec fn has_place(origin: Seq<int>, k: int) -> bool {
    exists|i: int| 0 <= i < origin.len() && #[trigger] origin[i] == k
}

/// `after` holds the records of `before`, the record at `i` being the one
/// that stood at `origin[i]` and every record of `before` standing
/// somewhere, ordered from the latest instant to the earliest, records of
/// one instant in the order in which they stood.
pub open spec fn newest_first(
    before: Seq<LogFileRecord>,
    after: Seq<LogFileRecord>,
    origin: Seq<int>,
) -> bool {
    &&& after.len() == before.len()
    &&& origin.len() == before.len()
    &&& forall|i: int|
        0 <= i < after.len() ==> 0 <= #[trigger] origin[i] < before.len() && after[i]
            == before[origin[i]]
    &&& forall|k: int| 0 <= k < before.len() ==> #[trigger] has_place(origin, k)
    &&& forall|i: int, j: int|
        0 <= i < j < after.len() ==> stands_before(
            after[i],
            #[trigger] origin[i],
            after[j],
            #[trigger] origin[j],
        )
}

/// Sorts the records from the latest to the earliest, keeping records of
/// the same instant in their order.
pub fn sort_log_files(logs: &mut Vec<LogFileRecord>)
    ensures
        exists|origin: Seq<int>| newest_first(old(logs)@, final(logs)@, origin),
{
    let ghost before = logs@;
    let n: usize = logs.len();
    let ghost mut origin: Seq<int> = Seq::new(n as nat, |k: int| k);
    assert forall|k: int| 0 <= k < n implies #[trigger] has_place(origin, k) by {
        assert(origin[k] == k);
    }
    let mut i: usize = 0;
    while i < n
        invariant
            i <= n,
            logs@.len() == n,
            before.len() == n,
            origin.len() == n,
            forall|a: int|
                0 <= a < n ==> 0 <= #[trigger] origin[a] < n && logs@[a] == before[origin[a]],
            forall|a: int| 0 <= a < i ==> #[trigger] origin[a] < i,
            forall|a: int| i <= a < n ==> #[trigger] origin[a] == a,
            forall|k: int| 0 <= k < n ==> #[trigger] has_place(origin, k),
            forall|a: int, b: int|
                0 <= a < b < i ==> stands_before(
                    logs@[a],
                    #[trigger] origin[a],
                    logs@[b],
                    #[trigger] origin[b],
                ),
        decreases n - i,
    {
        let key: u64 = logs[i].timestamp.rank_value();
        let mut j: usize = 0;
        while j < i && logs[j].timestamp.rank_value() >= key
            invariant
                j <= i,
                i < n,
                logs@.len() == n,
                key == logs@[i as int].timestamp.rank(),
                forall|a: int| 0 <= a < j ==> (#[trigger] logs@[a]).timestamp.rank() >= key,
            decreases i - j,
        {
            j += 1;
        }
        let ghost prev = logs@;
        let ghost prev_origin = origin;
        let moved = logs.remove(i);
        logs.insert(j, moved);
        proof {
            origin = prev_origin.remove(i as int).insert(j as int, prev_origin[i as int]);
            assert forall|a: int| 0 <= a < n implies logs@[a] == (if a < j {
                prev[a]
            } else if a == j {
                prev[i as int]
            } else if a <= i {
                prev[a - 1]
            } else {
                prev[a]
            }) && #[trigger] origin[a] == (if a < j {
                prev_origin[a]
            } else if a == j {
                prev_origin[i as int]
            } else if a <= i {
                prev_origin[a - 1]
            } else {
                prev_origin[a]
            }) by {}
            assert forall|k: int| 0 <= k < n implies #[trigger] has_place(origin, k) by {
                assert(has_place(prev_origin, k));
                let a = choose|a: int| 0 <= a < n && #[trigger] prev_origin[a] == k;
                let moved_to = if a < j {
                    a
                } else if a == i {
                    j as int
                } else if a < i {
                    a + 1
                } else {
                    a
                };
                assert(origin[moved_to] == k);
            }
            assert forall|a: int, b: int| 0 <= a < b < i + 1 implies stands_before(
                logs@[a],
                #[trigger] origin[a],
                logs@[b],
                #[trigger] origin[b],
            ) by {
                if a == j {
                    if j < b - 1 {
                        assert(stands_before(
                            prev[j as int],
                            prev_origin[j as int],
                            prev[b - 1],
                            prev_origin[b - 1],
                        ));
                    }
                } else if b == j {
                    assert(prev[a].timestamp.rank() >= key);
                    assert(prev_origin[a] < i);
                } else {
                    let pa = if a < j { a } else { a - 1 };
                    let pb = if b < j { b } else { b - 1 };
                    assert(stands_before(prev[pa], prev_origin[pa], prev[pb], prev_origin[pb]));
                }
            }
        }
        i += 1;
    }
    assert(newest_first(before, logs@, origin));
}

/// Scans the listing of the log directory: finds the log files, orders them
/// from the latest to the earliest and names the entries to delete because
/// their stem is no timestamp token. Entries without a stem are passed over.
pub fn get_all_logs(entries: &Vec<DirEntry>) -> (found: ScanOutcome)
    ensures
        found.foreign@ == foreign_paths(entries@),
        exists|origin: Seq<int>| newest_first(recognised(entries@), found.records@, origin),
{
    let mut records: Vec<LogFileRecord> = Vec::new();
    let mut foreign: Vec<String> = Vec::new();
    let mut k: usize = 0;
    while k < entries.len()
        invariant
            k <= entries@.len(),
            records@ == recognised(entries@.take(k as int)),
            foreign@ == foreign_paths(entries@.take(k as int)),
        decreases entries@.len() - k,
    {
        proof {
            assert(entries@.take(k + 1).drop_last() =~= entries@.take(k as int));
            assert(entries@.take(k + 1).last() == entries@[k as int]);
        }
        match entries[k].classify() {
            EntryKind::Unnamed => {},
            EntryKind::LogFile(t) => {
                records.push(LogFileRecord { path: entries[k].path.clone(), timestamp: t });
            },
            EntryKind::Foreign => {
                foreign.push(entries[k].path.clone());
            },
        }
        k += 1;
    }
    assert(entries@.take(k as int) =~= entries@);
    let ghost listed = records@;
    sort_log_files(&mut records);
    let ghost origin = choose|origin: Seq<int>| newest_first(listed, records@, origin);
    let found = ScanOutcome { records, foreign };
    assert(newest_first(recognised(entries@), found.records@, origin));
    found
}

/// Takes the oldest records off the end of `logs`, which is ordered newest
/// first, until fewer than `limit` are left, and returns them in the order
/// in which they left.
pub fn evict(logs: &mut Vec<LogFileRecord>, limit: usize) -> (evicted: Vec<LogFileRecord>)
    requires
        limit >= 1,
    ensures
        enforced(old(logs)@, limit as int, final(logs)@, evicted@),
        final(logs)@.len() < limit,
{
    let ghost sorted = logs@;
    let mut evicted: Vec<LogFileRecord> = Vec::new();
    while logs.len() >= limit
        invariant
            limit >= 1,
            logs@.len() + evicted@.len() == sorted.len(),
            logs@ == sorted.take(logs@.len() as int),
            logs@.len() >= kept_count(sorted.len() as int, limit as int),
            forall|k: int|
                0 <= k < evicted@.len() ==> #[trigger] evicted@[k] == sorted[sorted.len() - 1 - k],
        decreases logs@.len(),
    {
        let ghost m = logs@.len();
        match logs.pop() {
            Some(last) => {
                evicted.push(last);
                assert(logs@ =~= sorted.take(m - 1));
            },
            None => {},
        }
    }
    evicted
}

impl RotationPlan {
    /// The `k`-th deletion of the pass, counted from 0: first the entries
    /// that are no log files, in the order of the listing, then the evicted
    /// log files, oldest first. `None` once all are done.
    pub fn deletion(&self, k: usize) -> (next: Option<Deletion>)
        ensures
            match next {
                Some(d) => if k < self.foreign@.len() {
                    d.path == self.foreign@[k as int] && d.on_failure
                        == DeletionFailure::CorruptEntryCleanupFailed
                } else {
                    k - self.foreign@.len() < self.evicted@.len() && d.path
                        == self.evicted@[k - self.foreign@.len()].path && d.on_failure
                        == DeletionFailure::EvictionFailed
                },
                None => k >= self.foreign@.len() + self.evicted@.len(),
            },
    {
        if k < self.foreign.len() {
            Some(
                Deletion {
                    path: self.foreign[k].clone(),
                    on_failure: DeletionFailure::CorruptEntryCleanupFailed,
                },
            )
        } else {
            let past: usize = k - self.foreign.len();
            if past < self.evicted.len() {
                Some(
                    Deletion {
                        path: self.evicted[past].path.clone(),
                        on_failure: DeletionFailure::EvictionFailed,
                    },
                )
            } else {
                None
            }
        }
    }
}

/// Plans one pass over the log directory with the listing `entries`: the
/// entries that are no log files go, and of the log files the oldest go
/// until fewer than `limit` are left.
pub fn rotate_logs(entries: &Vec<DirEntry>, limit: usize) -> (plan: RotationPlan)
    requires
        limit >= 1,
    ensures
        plan.foreign@ == foreign_paths(entries@),
        plan.kept@.len() < limit,
        exists|sorted: Seq<LogFileRecord>, origin: Seq<int>|
            newest_first(recognised(entries@), sorted, origin) && enforced(
                sorted,
                limit as int,
                plan.kept@,
                plan.evicted@,
            ),
{
    let found = get_all_logs(entries);
    let foreign = found.foreign;
    let mut kept = found.records;
    let ghost sorted = kept@;
    let evicted = evict(&mut kept, limit);
    proof {
        let origin = choose|origin: Seq<int>| newest_first(recognised(entries@), sorted, origin);
        assert(newest_first(recognised(entries@), sorted, origin) && enforced(
            sorted,
            limit as int,
            kept@,
            evicted@,
        ));
    }
    RotationPlan { foreign, evicted, kept }
}

/// The name of the log file of a run that starts at `now`: the token of
/// `now` with the extension `.log`.
pub fn log_file_name(now: &Instant) -> (name: String)
    requires
        now.valid(),
    ensures
        name@ == token_of(*now) + ".log"@,
{
    let mut name = encode(now);
    name.append(".log");
    name
}

/// In a sequence ordered newest first no record is later than one before
/// it, records of one instant stand as they stood before, and each record
/// of the input stands at one place only.
pub proof fn lemma_newest_first_order(
    before: Seq<LogFileRecord>,
    after: Seq<LogFileRecord>,
    origin: Seq<int>,
)
    requires
        newest_first(before, after, origin),
    ensures
        forall|i: int, j: int|
            0 <= i < j < after.len() ==> (#[trigger] after[i]).timestamp.rank() >= (
            #[trigger] after[j]).timestamp.rank(),
        forall|i: int, j: int|
            0 <= i < j < after.len() && after[i].timestamp == after[j].timestamp
                ==> #[trigger] origin[i] < #[trigger] origin[j],
        forall|i: int, j: int|
            0 <= i < after.len() && 0 <= j < after.len() && i != j ==> #[trigger] origin[i]
                != #[trigger] origin[j],
{
    assert forall|i: int, j: int| 0 <= i < j < after.len() implies (#[trigger] after[i]).timestamp.rank()
        >= (#[trigger] after[j]).timestamp.rank() by {
        assert(stands_before(after[i], origin[i], after[j], origin[j]));
    }
    assert forall|i: int, j: int|
        0 <= i < after.len() && 0 <= j < after.len() && i != j implies #[trigger] origin[i]
        != #[trigger] origin[j] by {
        if i < j {
            assert(stands_before(after[i], origin[i], after[j], origin[j]));
        } else {
            assert(stands_before(after[j], origin[j], after[i], origin[i]));
        }
    }
}

/// Two orderings of the same records, both newest first, agree on the first
/// `upto` places.
proof fn lemma_newest_first_agree(
    before: Seq<LogFileRecord>,
    first: Seq<LogFileRecord>,
    first_origin: Seq<int>,
    second: Seq<LogFileRecord>,
    second_origin: Seq<int>,
    upto: int,
)
    requires
        newest_first(before, first, first_origin),
        newest_first(before, second, second_origin),
        0 <= upto <= before.len(),
    ensures
        forall|p: int| 0 <= p < upto ==> first_origin[p] == second_origin[p],
    decreases upto,
{
    if upto > 0 {
        let i = upto - 1;
        lemma_newest_first_agree(before, first, first_origin, second, second_origin, i);
        lemma_newest_first_order(before, first, first_origin);
        lemma_newest_first_order(before, second, second_origin);
        let k1 = first_origin[i];
        let k2 = second_origin[i];
        if k1 != k2 {
            assert(has_place(second_origin, k1));
            assert(has_place(first_origin, k2));
            let j2 = choose|j: int|
                0 <= j < second_origin.len() && #[trigger] second_origin[j] == k1;
            let j1 = choose|j: int| 0 <= j < first_origin.len() && #[trigger] first_origin[j] == k2;
            if j2 < i {
                assert(first_origin[j2] == second_origin[j2]);
                assert(first_origin[j2] != first_origin[i]);
            }
            if j1 < i {
                assert(first_origin[j1] == second_origin[j1]);
                assert(second_origin[j1] != second_origin[i]);
            }
            assert(stands_before(second[i], second_origin[i], second[j2], second_origin[j2]));
            assert(stands_before(first[i], first_origin[i], first[j1], first_origin[j1]));
            assert(second[i] == before[k2] && second[j2] == before[k1]);
            assert(first[i] == before[k1] && first[j1] == before[k2]);
            assert(false);
        }
    }
}

/// There is one way only to order given records newest first: the order and
/// the place that each record came from are determined.
pub proof fn lemma_newest_first_is_unique(
    before: Seq<LogFileRecord>,
    first: Seq<LogFileRecord>,
    first_origin: Seq<int>,
    second: Seq<LogFileRecord>,
    second_origin: Seq<int>,
)
    requires
        newest_first(before, first, first_origin),
        newest_first(before, second, second_origin),
    ensures
        first == second,
        first_origin == second_origin,
{
    lemma_newest_first_agree(
        before,
        first,
        first_origin,
        second,
        second_origin,
        before.len() as int,
    );
    assert(first_origin =~= second_origin);
    assert forall|i: int| 0 <= i < first.len() implies first[i] == second[i] by {
        assert(first[i] == before[first_origin[i]]);
        assert(second[i] == before[second_origin[i]]);
    }
    assert(first =~= second);
}

/// A scan leaves no entry with a stem undecided: one whose stem is no token
/// is among the paths to delete, and one whose stem is a token is among the
/// log files, with the instant of its token.
pub proof fn lemma_every_entry_is_sorted_out(entries: Seq<DirEntry>, k: int)
    requires
        0 <= k < entries.len(),
    ensures
        match entries[k].kind() {
            EntryKind::Foreign => foreign_paths(entries).contains(entries[k].path),
            EntryKind::LogFile(t) => recognised(entries).contains(
                LogFileRecord { path: entries[k].path, timestamp: t },
            ),
            EntryKind::Unnamed => true,
        },
    decreases entries.len(),
{
    let rest = entries.drop_last();
    if k == entries.len() - 1 {
        match entries[k].kind() {
            EntryKind::Foreign => {
                assert(foreign_paths(entries) == foreign_paths(rest).push(entries[k].path));
                assert(foreign_paths(entries).last() == entries[k].path);
            },
            EntryKind::LogFile(t) => {
                let record = LogFileRecord { path: entries[k].path, timestamp: t };
                assert(recognised(entries) == recognised(rest).push(record));
                assert(recognised(entries).last() == record);
            },
            EntryKind::Unnamed => {},
        }
    } else {
        lemma_every_entry_is_sorted_out(rest, k);
        assert(rest[k] == entries[k]);
        match entries[k].kind() {
            EntryKind::Foreign => {
                let i = choose|i: int|
                    0 <= i < foreign_paths(rest).len() && foreign_paths(rest)[i] == entries[k].path;
                assert(foreign_paths(entries)[i] == entries[k].path);
            },
            EntryKind::LogFile(t) => {
                let record = LogFileRecord { path: entries[k].path, timestamp: t };
                let i = choose|i: int|
                    0 <= i < recognised(rest).len() && recognised(rest)[i] == record;
                assert(recognised(entries)[i] == record);
            },
            EntryKind::Unnamed => {},
        }
    }
}

/// A scan deletes nothing but entries whose stem is no token: each path to
/// delete is the path of such an entry.
pub proof fn lemma_only_foreign_entries_go(entries: Seq<DirEntry>, i: int)
    requires
        0 <= i < foreign_paths(entries).len(),
    ensures
        exists|k: int|
            0 <= k < entries.len() && (#[trigger] entries[k]).kind() == EntryKind::Foreign
                && entries[k].path == foreign_paths(entries)[i],
    decreases entries.len(),
{
    let rest = entries.drop_last();
    let last = entries.len() - 1;
    if entries[last].kind() == EntryKind::Foreign && i == foreign_paths(rest).len() {
        assert(entries[last].path == foreign_paths(entries)[i]);
    } else {
        lemma_only_foreign_entries_go(rest, i);
        let k = choose|k: int|
            0 <= k < rest.len() && (#[trigger] rest[k]).kind() == EntryKind::Foreign
                && rest[k].path == foreign_paths(rest)[i];
        assert(entries[k] == rest[k]);
    }
}

/// A scan takes nothing for a log file but entries whose stem is a token:
/// each record has the path of such an entry and the instant of its token.
pub proof fn lemma_only_log_files_are_recorded(entries: Seq<DirEntry>, i: int)
    requires
        0 <= i < recognised(entries).len(),
    ensures
        exists|k: int|
            0 <= k < entries.len() && (#[trigger] entries[k]).kind() == EntryKind::LogFile(
                recognised(entries)[i].timestamp,
            ) && entries[k].path == recognised(entries)[i].path,
    decreases entries.len(),
{
    let rest = entries.drop_last();
    let last = entries.len() - 1;
    if entries[last].kind() is LogFile && i == recognised(rest).len() {
        assert(entries[last].path == recognised(entries)[i].path);
    } else {
        lemma_only_log_files_are_recorded(rest, i);
        let k = choose|k: int|
            0 <= k < rest.len() && (#[trigger] rest[k]).kind() == EntryKind::LogFile(
                recognised(rest)[i].timestamp,
            ) && rest[k].path == recognised(rest)[i].path;
        assert(entries[k] == rest[k]);
    }
}

/// Of `count` log files under the limit `limit`, the oldest
/// `max(0, count - limit + 1)` leave and `min(count, limit - 1)` stay.
pub proof fn lemma_eviction_counts(
    sorted: Seq<LogFileRecord>,
    limit: int,
    kept: Seq<LogFileRecord>,
    evicted: Seq<LogFileRecord>,
)
    requires
        limit >= 1,
        enforced(sorted, limit, kept, evicted),
    ensures
        evicted.len() == vstd::math::max(0, sorted.len() - limit + 1),
        kept.len() == vstd::math::min(sorted.len() as int, limit - 1),
        kept.len() < limit,
        kept + evicted.reverse() == sorted,
{
    let m = sorted.len() as int;
    let kc = kept_count(m, limit);
    assert(kept.len() == kc);
    assert((kept + evicted.reverse()) =~= sorted);
}

} // verus!
