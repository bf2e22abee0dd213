//! Contributor expertise ("who knows"): who changed a file how often, and
//! over which span of time.
//!
//! The input is the history of one file, renames followed: one record per
//! commit, made of the commit id, the author's name and the author's time in
//! seconds since the epoch, with a tab between each two.

use crate::error::AnalysisError;
use crate::index::{distinct, index_in, lemma_index_in_bounds, lemma_index_in_is, TextIndex};
use crate::rank::{
    arranged, count_key, indices, is_arrangement, is_descending, key_views, lemma_ranked,
    outranks, rank, ranked, Key, RankKey,
};
use crate::text::{
    chars_of, copy_range, decimal_text, is_blank, lines_of, parse_i64, parse_i64_spec,
    push_decimal, push_str, split_at_char, split_lines, split_on, string_of, trimmed, views,
};
use crate::time::{days_between, is_date, timestamp_is_date, whole_days};
use vstd::prelude::*;

verus! {

/// What one contributor did to a file, as a mathematical value.
pub struct StatsView {
    pub name: Seq<char>,
    pub commit_count: nat,
    pub first_commit: int,
    pub last_commit: int,
}

/// What one contributor did to a file: the number of commits and the times
/// of the first and the last one.
#[derive(Debug)]
pub struct ContributorStats {
    pub name: String,
    pub commit_count: u64,
    pub last_commit: i64,
    pub first_commit: i64,
}

impl View for ContributorStats {
    type V = StatsView;

    open spec fn view(&self) -> StatsView {
        StatsView {
            name: self.name@,
            commit_count: self.commit_count as nat,
            first_commit: self.first_commit as int,
            last_commit: self.last_commit as int,
        }
    }
}

/// Whether the statistics are sound: there is at least one commit, and the
/// first is not later than the last.
pub open spec fn stats_wf(v: StatsView) -> bool {
    v.commit_count >= 1 && v.first_commit <= v.last_commit
}

/// The statistics of a contributor after the first commit.
pub open spec fn first_commit_of(name: Seq<char>, timestamp: int) -> StatsView {
    StatsView { name, commit_count: 1, first_commit: timestamp, last_commit: timestamp }
}

/// The statistics after one more commit: the count goes up by one and the
/// span is stretched to hold the commit's time.
pub open spec fn updated(v: StatsView, timestamp: int) -> StatsView {
    StatsView {
        name: v.name,
        commit_count: v.commit_count + 1,
        first_commit: if timestamp < v.first_commit {
            timestamp
        } else {
            v.first_commit
        },
        last_commit: if timestamp > v.last_commit {
            timestamp
        } else {
            v.last_commit
        },
    }
}

/// How long a contributor worked on the file, in words: years and months,
/// months, or days, with a year of 365 days and a month of 30. A span that
/// runs backwards is told in days.
pub open spec fn duration_text(v: StatsView) -> Seq<char> {
    let days = days_between(v.first_commit, v.last_commit);
    let years = days / 365;
    let months = (days % 365) / 30;
    if days < 0 {
        decimal_text(days) + " days"@
    } else if years > 0 {
        if months > 0 {
            decimal_text(years) + " years, "@ + decimal_text(months) + " months"@
        } else {
            decimal_text(years) + " years"@
        }
    } else if months > 0 {
        decimal_text(months) + " months"@
    } else {
        decimal_text(days) + " days"@
    }
}

/// How long ago, seen from `now`, a contributor last touched the file, in
/// words: today, or whole days, weeks, months or years.
pub open spec fn last_touched_text(v: StatsView, now: int) -> Seq<char> {
    let days = days_between(v.last_commit, now);
    if days == 0 {
        "today"@
    } else if days < 7 {
        decimal_text(days) + " days ago"@
    } else if days < 30 {
        decimal_text(days / 7) + " weeks ago"@
    } else if days < 365 {
        decimal_text(days / 30) + " months ago"@
    } else {
        decimal_text(days / 365) + " years ago"@
    }
}

impl ContributorStats {
    /// There is at least one commit, and the first is not later than the
    /// last.
    pub open spec fn wf(&self) -> bool {
        stats_wf(self@)
    }

    /// The statistics of a contributor whose first commit was at
    /// `timestamp`.
    pub fn new(name: String, timestamp: i64) -> (stats: ContributorStats)
        ensures
            stats.wf(),
            stats@ == first_commit_of(name@, timestamp as int),
    {
        ContributorStats { name, commit_count: 1, last_commit: timestamp, first_commit: timestamp }
    }

    /// Takes in one more commit at `timestamp`.
    pub fn update(&mut self, timestamp: i64)
        requires
            old(self).commit_count < u64::MAX,
        ensures
            final(self)@ == updated(old(self)@, timestamp as int),
            old(self).wf() ==> final(self).wf(),
    {
        self.commit_count = self.commit_count + 1;
        if timestamp > self.last_commit {
            self.last_commit = timestamp;
        }
        if timestamp < self.first_commit {
            self.first_commit = timestamp;
        }
    }

    /// How long the contributor worked on the file, in words.
    pub fn contribution_duration(&self) -> (text: String)
        ensures
            text@ == duration_text(self@),
    {
        let days = whole_days(self.first_commit, self.last_commit);
        let mut out: Vec<char> = Vec::new();
        if days < 0 {
            push_decimal(&mut out, days);
            push_str(&mut out, " days");
            proof {
                assert(out@ =~= decimal_text(days as int) + " days"@);
            }
            return string_of(&out);
        }
        let years = days / 365;
        let months = (days % 365) / 30;
        if years > 0 {
            push_decimal(&mut out, years);
            if months > 0 {
                push_str(&mut out, " years, ");
                push_decimal(&mut out, months);
                push_str(&mut out, " months");
                proof {
                    assert(out@ =~= decimal_text(years as int) + " years, "@ + decimal_text(
                        months as int,
                    ) + " months"@);
                }
            } else {
                push_str(&mut out, " years");
                proof {
                    assert(out@ =~= decimal_text(years as int) + " years"@);
                }
            }
        } else if months > 0 {
            push_decimal(&mut out, months);
            push_str(&mut out, " months");
            proof {
                assert(out@ =~= decimal_text(months as int) + " months"@);
            }
        } else {
            push_decimal(&mut out, days);
            push_str(&mut out, " days");
            proof {
                assert(out@ =~= decimal_text(days as int) + " days"@);
            }
        }
        string_of(&out)
    }

    /// How long ago, seen from `now`, the contributor last touched the file,
    /// in words.
    pub fn format_last_touched(&self, now: i64) -> (text: String)
        ensures
            text@ == last_touched_text(self@, now as int),
    {
        let days = whole_days(self.last_commit, now);
        let mut out: Vec<char> = Vec::new();
        if days == 0 {
            push_str(&mut out, "today");
            proof {
                assert(out@ =~= "today"@);
            }
        } else if days < 7 {
            push_decimal(&mut out, days);
            push_str(&mut out, " days ago");
            proof {
                assert(out@ =~= decimal_text(days as int) + " days ago"@);
            }
        } else if days < 30 {
            push_decimal(&mut out, days / 7);
            push_str(&mut out, " weeks ago");
            proof {
                assert(out@ =~= decimal_text(days as int / 7) + " weeks ago"@);
            }
        } else if days < 365 {
            push_decimal(&mut out, days / 30);
            push_str(&mut out, " months ago");
            proof {
                assert(out@ =~= decimal_text(days as int / 30) + " months ago"@);
            }
        } else {
            push_decimal(&mut out, days / 365);
            push_str(&mut out, " years ago");
            proof {
                assert(out@ =~= decimal_text(days as int / 365) + " years ago"@);
            }
        }
        string_of(&out)
    }

    /// What these statistics are ranked by.
    pub fn rank_key(&self) -> (key: RankKey)
        ensures
            key@ == stats_key(self@),
    {
        RankKey { num: self.commit_count, den: 1, tie: 0 }
    }

    /// A copy of these statistics.
    pub fn duplicate(&self) -> (copy: ContributorStats)
        ensures
            copy == *self,
    {
        ContributorStats {
            name: self.name.clone(),
            commit_count: self.commit_count,
            last_commit: self.last_commit,
            first_commit: self.first_commit,
        }
    }
}

/// What statistics are ranked by: the number of commits.
pub open spec fn stats_key(v: StatsView) -> Key {
    count_key(v.commit_count as int)
}

/// The keys of a sequence of statistics.
pub open spec fn stats_keys(stats: Seq<StatsView>) -> Seq<Key> {
    Seq::new(stats.len(), |i: int| stats_key(stats[i]))
}

/// The names of a sequence of statistics.
pub open spec fn names_of(stats: Seq<StatsView>) -> Seq<Seq<char>> {
    Seq::new(stats.len(), |i: int| stats[i].name)
}

/// The views of a sequence of statistics.
pub open spec fn stats_views(stats: Seq<ContributorStats>) -> Seq<StatsView> {
    Seq::new(stats.len(), |i: int| stats[i]@)
}

/// Where a reading of a file's history stands: the statistics so far, one
/// per contributor in the order of first appearance, and the failure if
/// there was one.
pub struct ExpertiseState {
    pub stats: Seq<StatsView>,
    pub failure: Option<AnalysisError>,
}

/// The statistics after one more commit by `name` at `timestamp`.
pub open spec fn credited(stats: Seq<StatsView>, name: Seq<char>, timestamp: int) -> Seq<StatsView> {
    let k = index_in(names_of(stats), name);
    if 0 <= k < stats.len() {
        stats.update(k, updated(stats[k], timestamp))
    } else {
        stats.push(first_commit_of(name, timestamp))
    }
}

/// The reading after one more line. After a failure nothing changes. A
/// line that has not exactly three fields is passed over. The third field
/// must be a decimal number of seconds that is a date; the second is the
/// name.
pub open spec fn expertise_step(s: ExpertiseState, line: Seq<char>) -> ExpertiseState {
    let fields = split_on(line, '\t');
    if s.failure is Some || fields.len() != 3 {
        s
    } else {
        match parse_i64_spec(fields[2]) {
            None => ExpertiseState { failure: Some(AnalysisError::MalformedTimestamp), ..s },
            Some(t) => if is_date(t as int) {
                ExpertiseState { stats: credited(s.stats, fields[1], t as int), ..s }
            } else {
                ExpertiseState { failure: Some(AnalysisError::TimestampOutOfRange), ..s }
            },
        }
    }
}

/// The reading after all the given lines.
pub open spec fn expertise_after(lines: Seq<Seq<char>>) -> ExpertiseState
    decreases lines.len(),
{
    if lines.len() == 0 {
        ExpertiseState { stats: Seq::empty(), failure: None }
    } else {
        expertise_step(expertise_after(lines.drop_last()), lines.last())
    }
}

/// The report on a file. The failures come in this order: the path does not
/// exist; it is not under version control; the history is blank, so that
/// there is no history; a record is damaged; no line is a record, so that
/// again there is no history. Else the report is the statistics of the
/// contributors from the most commits to the fewest.
pub open spec fn expertise_report(path_exists: bool, in_repository: bool, history: Seq<char>) -> Result<
    Seq<StatsView>,
    AnalysisError,
> {
    if !path_exists {
        Err(AnalysisError::PathNotFound)
    } else if !in_repository {
        Err(AnalysisError::NotUnderVersionControl)
    } else if is_blank(history) {
        Err(AnalysisError::NoHistory)
    } else {
        let s = expertise_after(lines_of(history));
        match s.failure {
            Some(e) => Err(e),
            None => if s.stats.len() == 0 {
                Err(AnalysisError::NoHistory)
            } else {
                Ok(ranked(s.stats, stats_keys(s.stats)))
            },
        }
    }
}

/// A failure stays: once a reading has failed, more lines do not change it.
pub proof fn lemma_expertise_failure_stays(lines: Seq<Seq<char>>, k: int)
    requires
        0 <= k <= lines.len(),
        expertise_after(lines.take(k)).failure is Some,
    ensures
        expertise_after(lines) == expertise_after(lines.take(k)),
    decreases lines.len() - k,
{
    if k < lines.len() {
        assert(lines.take(k + 1).drop_last() =~= lines.take(k));
        lemma_expertise_failure_stays(lines, k + 1);
    } else {
        assert(lines.take(k) =~= lines);
    }
}

/// One more commit keeps statistics sound and names distinct.
pub proof fn lemma_credited(stats: Seq<StatsView>, name: Seq<char>, timestamp: int)
    requires
        distinct(names_of(stats)),
        forall|i: int| 0 <= i < stats.len() ==> stats_wf(#[trigger] stats[i]),
    ensures
        distinct(names_of(credited(stats, name, timestamp))),
        forall|i: int|
            0 <= i < credited(stats, name, timestamp).len() ==> stats_wf(
                #[trigger] credited(stats, name, timestamp)[i],
            ),
        stats.len() <= credited(stats, name, timestamp).len() <= stats.len() + 1,
        forall|i: int|
            0 <= i < stats.len() ==> (#[trigger] credited(stats, name, timestamp)[i]).commit_count
                <= stats[i].commit_count + 1,
        credited(stats, name, timestamp).len() > stats.len() ==> credited(
            stats,
            name,
            timestamp,
        ).last().commit_count == 1,
{
    let names = names_of(stats);
    let k = index_in(names, name);
    let after = credited(stats, name, timestamp);
    lemma_index_in_bounds(names, name);
    if k < stats.len() {
        assert(names_of(after) =~= names) by {
            assert(names[k] == stats[k].name);
        }
    } else {
        assert forall|i: int, j: int| 0 <= i < j < names_of(after).len() implies #[trigger] names_of(
            after,
        )[i] != #[trigger] names_of(after)[j] by {
            assert(names_of(after)[i] == names[i]);
            if j < stats.len() {
                assert(names_of(after)[j] == names[j]);
            }
        }
    }
}

/// Whatever the history, every contributor of a reading has at least one
/// commit and a first commit that is not later than the last; no
/// contributor occurs twice, and none has more commits than there are lines.
pub proof fn lemma_expertise_after(lines: Seq<Seq<char>>)
    ensures
        distinct(names_of(expertise_after(lines).stats)),
        forall|i: int|
            0 <= i < expertise_after(lines).stats.len() ==> stats_wf(
                #[trigger] expertise_after(lines).stats[i],
            ),
        forall|i: int|
            0 <= i < expertise_after(lines).stats.len() ==> (#[trigger] expertise_after(
                lines,
            ).stats[i]).commit_count <= lines.len(),
    decreases lines.len(),
{
    if lines.len() > 0 {
        let before = expertise_after(lines.drop_last());
        lemma_expertise_after(lines.drop_last());
        let fields = split_on(lines.last(), '\t');
        if before.failure is None && fields.len() == 3 {
            match parse_i64_spec(fields[2]) {
                Some(t) => {
                    if is_date(t as int) {
                        lemma_credited(before.stats, fields[1], t as int);
                        let after = credited(before.stats, fields[1], t as int);
                        assert forall|i: int| 0 <= i < after.len() implies (
                        #[trigger] after[i]).commit_count <= lines.len() by {
                            if i < before.stats.len() {
                                assert(before.stats[i].commit_count <= lines.len() - 1);
                            }
                        }
                    }
                },
                None => {},
            }
        }
    }
}

/// The statistics from the most commits to the fewest; contributors with
/// equally many commits stay in their order.
#[verifier::rlimit(50)]
pub fn rank_contributors(stats: &Vec<ContributorStats>) -> (report: Vec<ContributorStats>)
    ensures
        stats_views(report@) == ranked(stats_views(stats@), stats_keys(stats_views(stats@))),
        report@.len() == stats@.len(),
        forall|a: int, b: int|
            0 <= a < b < report@.len() ==> (#[trigger] report@[a]).commit_count >= (
            #[trigger] report@[b]).commit_count,
{
    let ghost found = stats_views(stats@);
    let mut keys: Vec<RankKey> = Vec::new();
    let mut k: usize = 0;
    while k < stats.len()
        invariant
            k <= stats.len(),
            keys@.len() == k,
            forall|x: int| 0 <= x < k ==> (#[trigger] keys@[x])@ == stats_key(stats@[x]@),
        decreases stats.len() - k,
    {
        keys.push(stats[k].rank_key());
        k = k + 1;
    }
    let ghost key_seq = key_views(keys@);
    proof {
        assert(key_seq =~= stats_keys(found));
    }
    let order = rank(&keys);
    let mut report: Vec<ContributorStats> = Vec::new();
    let mut j: usize = 0;
    let ghost target = arranged(found, indices(order@));
    proof {
        assert(stats_views(report@) =~= target.take(0));
    }
    while j < order.len()
        invariant
            j <= order.len(),
            order@.len() == stats@.len(),
            is_arrangement(indices(order@), stats@.len() as int),
            found == stats_views(stats@),
            target == arranged(found, indices(order@)),
            stats_views(report@) == target.take(j as int),
            report@.len() == j,
        decreases order.len() - j,
    {
        proof {
            assert(indices(order@)[j as int] == order@[j as int]);
        }
        let item = stats[order[j]].duplicate();
        proof {
            let at = order@[j as int] as int;
            assert(target[j as int] == found[indices(order@)[j as int]]);
            assert(found[at] == stats@[at]@);
            assert(stats_views(report@.push(item)) =~= stats_views(report@).push(item@));
            assert(target.take(j + 1) =~= target.take(j as int).push(target[j as int]));
        }
        report.push(item);
        j = j + 1;
    }
    proof {
        assert(target.take(order.len() as int) =~= target);
        let views = stats_views(report@);
        let o = indices(order@);
        assert forall|a: int, b: int| 0 <= a < b < report@.len() implies (
        #[trigger] report@[a]).commit_count >= (#[trigger] report@[b]).commit_count by {
            assert(views[a] == report@[a]@);
            assert(views[b] == report@[b]@);
            assert(views[a] == found[o[a]]);
            assert(views[b] == found[o[b]]);
            assert(0 <= o[a] < stats@.len());
            assert(0 <= o[b] < stats@.len());
            assert(key_seq[o[a]] == stats_key(found[o[a]]));
            assert(key_seq[o[b]] == stats_key(found[o[b]]));
            assert(is_descending(key_seq, o));
            assert(!outranks(key_seq[o[b]], key_seq[o[a]]));
            assert(found[o[a]] == stats@[o[a]]@);
            assert(found[o[b]] == stats@[o[b]]@);
        }
    }
    report
}

/// The time of the commit that a line records for `name`; `None` where the
/// line records no commit of that name.
pub open spec fn commit_time(line: Seq<char>, name: Seq<char>) -> Option<int> {
    let fields = split_on(line, '\t');
    if fields.len() == 3 && fields[1] == name {
        match parse_i64_spec(fields[2]) {
            Some(t) => if is_date(t as int) {
                Some(t as int)
            } else {
                None
            },
            None => None,
        }
    } else {
        None
    }
}

/// The times of the commits that the lines record for `name`, in order.
pub open spec fn commit_times(lines: Seq<Seq<char>>, name: Seq<char>) -> Seq<int>
    decreases lines.len(),
{
    if lines.len() == 0 {
        Seq::empty()
    } else {
        match commit_time(lines.last(), name) {
            Some(t) => commit_times(lines.drop_last(), name).push(t),
            None => commit_times(lines.drop_last(), name),
        }
    }
}

/// The earliest of the given times; zero where there is none.
pub open spec fn earliest(times: Seq<int>) -> int
    decreases times.len(),
{
    if times.len() == 0 {
        0
    } else if times.len() == 1 {
        times[0]
    } else {
        let before = earliest(times.drop_last());
        if times.last() < before {
            times.last()
        } else {
            before
        }
    }
}

/// The latest of the given times; zero where there is none.
pub open spec fn latest(times: Seq<int>) -> int
    decreases times.len(),
{
    if times.len() == 0 {
        0
    } else if times.len() == 1 {
        times[0]
    } else {
        let before = latest(times.drop_last());
        if times.last() > before {
            times.last()
        } else {
            before
        }
    }
}

/// What a reading without failure comes to for one name. A name with at
/// least one recorded commit has one entry: it counts those commits and
/// holds the earliest and the latest of their times. Any other name has no
/// entry.
pub proof fn lemma_stats_of_name(lines: Seq<Seq<char>>, name: Seq<char>)
    requires
        expertise_after(lines).failure is None,
    ensures
        ({
            let stats = expertise_after(lines).stats;
            let k = index_in(names_of(stats), name);
            let times = commit_times(lines, name);
            if times.len() > 0 {
                &&& 0 <= k < stats.len()
                &&& stats[k] == (StatsView {
                    name,
                    commit_count: times.len(),
                    first_commit: earliest(times),
                    last_commit: latest(times),
                })
            } else {
                k == stats.len()
            }
        }),
    decreases lines.len(),
{
    let stats = expertise_after(lines).stats;
    if lines.len() == 0 {
        assert(names_of(stats) =~= Seq::empty());
    } else {
        let line = lines.last();
        let earlier = lines.drop_last();
        let before = expertise_after(earlier).stats;
        let times_before = commit_times(earlier, name);
        let keys = names_of(before);
        let k = index_in(keys, name);
        lemma_stats_of_name(earlier, name);
        lemma_index_in_bounds(keys, name);
        let fields = split_on(line, '\t');
        if fields.len() == 3 {
            let t = parse_i64_spec(fields[2])->0 as int;
            let who = fields[1];
            let at = index_in(keys, who);
            lemma_index_in_bounds(keys, who);
            if who == name {
                let times = times_before.push(t);
                assert(times.drop_last() =~= times_before);
                if k < before.len() {
                    assert(names_of(stats) =~= keys) by {
                        assert(keys[k] == before[k].name);
                    }
                } else {
                    assert forall|j: int| 0 <= j < before.len() implies #[trigger] names_of(
                        stats,
                    )[j] != name by {
                        assert(names_of(stats)[j] == keys[j]);
                    }
                    lemma_index_in_is(names_of(stats), name, before.len() as int);
                }
            } else {
                if at < before.len() {
                    assert(names_of(stats) =~= keys) by {
                        assert(keys[at] == before[at].name);
                    }
                } else {
                    assert forall|j: int| 0 <= j < k implies #[trigger] names_of(stats)[j]
                        != name by {
                        assert(names_of(stats)[j] == keys[j]);
                    }
                    if k < before.len() {
                        assert(names_of(stats)[k] == keys[k]);
                        lemma_index_in_is(names_of(stats), name, k);
                    } else {
                        assert(names_of(stats)[before.len() as int] == who);
                        lemma_index_in_is(names_of(stats), name, stats.len() as int);
                    }
                }
            }
        }
    }
}

/// What the result of an analysis shows: its statistics as mathematical
/// values, or its failure.
pub open spec fn shown_report(result: Result<Vec<ContributorStats>, AnalysisError>) -> Result<
    Seq<StatsView>,
    AnalysisError,
> {
    match result {
        Ok(report) => Ok(stats_views(report@)),
        Err(e) => Err(e),
    }
}

/// Two analyses of the same history show the same: the same failure, or the
/// same statistics in the same order.
pub proof fn lemma_expertise_report_repeatable(
    path_exists: bool,
    in_repository: bool,
    history: Seq<char>,
    first: Result<Vec<ContributorStats>, AnalysisError>,
    second: Result<Vec<ContributorStats>, AnalysisError>,
)
    requires
        shown_report(first) == expertise_report(path_exists, in_repository, history),
        shown_report(second) == expertise_report(path_exists, in_repository, history),
    ensures
        shown_report(first) == shown_report(second),
{
}

/// A history of white space only is no history, whatever its lines hold.
pub proof fn lemma_blank_history_is_no_history(history: Seq<char>)
    requires
        is_blank(history),
    ensures
        expertise_report(true, true, history) == Err::<Seq<StatsView>, AnalysisError>(
            AnalysisError::NoHistory,
        ),
{
}

/// Every contributor of a report has at least one commit and a first commit
/// that is not later than the last, and no more commits than the
/// contributor before.
pub proof fn lemma_expertise_report(path_exists: bool, in_repository: bool, history: Seq<char>)
    requires
        expertise_report(path_exists, in_repository, history) is Ok,
    ensures
        forall|i: int|
            0 <= i < expertise_report(path_exists, in_repository, history)->Ok_0.len() ==> stats_wf(
                #[trigger] expertise_report(path_exists, in_repository, history)->Ok_0[i],
            ),
        forall|a: int, b: int|
            0 <= a < b < expertise_report(path_exists, in_repository, history)->Ok_0.len() ==> (
            #[trigger] expertise_report(path_exists, in_repository, history)->Ok_0[a]).commit_count
                >= (#[trigger] expertise_report(
                path_exists,
                in_repository,
                history,
            )->Ok_0[b]).commit_count,
{
    let lines = lines_of(history);
    let stats = expertise_after(lines).stats;
    let keys = stats_keys(stats);
    let report = ranked(stats, keys);
    lemma_expertise_after(lines);
    crate::rank::lemma_rank_order(keys);
    let order = crate::rank::rank_order(keys);
    assert forall|i: int| 0 <= i < report.len() implies stats_wf(#[trigger] report[i]) by {
        assert(0 <= order[i] < stats.len());
        assert(report[i] == stats[order[i]]);
    }
    assert forall|a: int, b: int| 0 <= a < b < report.len() implies (
    #[trigger] report[a]).commit_count >= (#[trigger] report[b]).commit_count by {
        assert(0 <= order[a] < stats.len());
        assert(0 <= order[b] < stats.len());
        assert(report[a] == stats[order[a]]);
        assert(report[b] == stats[order[b]]);
        assert(is_descending(keys, order));
        assert(!outranks(keys[order[b]], keys[order[a]]));
        assert(keys[order[a]] == stats_key(stats[order[a]]));
        assert(keys[order[b]] == stats_key(stats[order[b]]));
    }
}

/// The statistics of the contributors to one file, from the most commits to
/// the fewest; contributors with equally many commits come in the order in
/// which the history first names them.
///
/// `path_exists` says whether the path exists, `in_repository` whether a
/// repository root lies above it, and `history` is the file's history. A
/// history of white space only is no history, whatever its lines hold.
#[verifier::rlimit(50)]
pub fn analyze_file_expertise(path_exists: bool, in_repository: bool, history: &str) -> (result:
    Result<Vec<ContributorStats>, AnalysisError>)
    ensures
        shown_report(result) == expertise_report(path_exists, in_repository, history@),
        match result {
            Ok(report) => {
                &&& report@.len() > 0
                &&& forall|i: int| 0 <= i < report@.len() ==> (#[trigger] report@[i]).wf()
                &&& forall|a: int, b: int|
                    0 <= a < b < report@.len() ==> (#[trigger] report@[a]).commit_count >= (
                    #[trigger] report@[b]).commit_count
            },
            Err(_) => true,
        },
{
    if !path_exists {
        return Err(AnalysisError::PathNotFound);
    }
    if !in_repository {
        return Err(AnalysisError::NotUnderVersionControl);
    }
    let chars = chars_of(history);
    if trimmed(&chars).len() == 0 {
        return Err(AnalysisError::NoHistory);
    }
    let lines = split_lines(&chars);
    let mut names = TextIndex::new();
    let mut stats: Vec<ContributorStats> = Vec::new();
    let mut i: usize = 0;
    let ghost all = views(lines@);
    proof {
        assert(all.take(0) =~= Seq::empty());
        assert(stats_views(stats@) =~= Seq::empty());
        assert(names@ =~= names_of(stats_views(stats@)));
    }
    while i < lines.len()
        invariant
            i <= lines.len(),
            all == views(lines@),
            all == lines_of(history@),
            path_exists,
            in_repository,
            !is_blank(history@),
            names.wf(),
            names@ == names_of(stats_views(stats@)),
            expertise_after(all.take(i as int)) == (ExpertiseState {
                stats: stats_views(stats@),
                failure: None,
            }),
        decreases lines.len() - i,
    {
        let line = &lines[i];
        let ghost before = stats_views(stats@);
        proof {
            assert(all.take(i + 1).drop_last() =~= all.take(i as int));
            assert(all.take(i + 1).last() == line@);
            lemma_expertise_after(all.take(i as int));
        }
        let fields = split_at_char(line, '\t');
        if fields.len() == 3 {
            proof {
                assert(views(fields@)[1] == fields@[1]@);
                assert(views(fields@)[2] == fields@[2]@);
            }
            match parse_i64(&fields[2]) {
                None => {
                    proof {
                        lemma_expertise_failure_stays(all, i + 1);
                    }
                    return Err(AnalysisError::MalformedTimestamp);
                },
                Some(t) => {
                    if !timestamp_is_date(t) {
                        proof {
                            lemma_expertise_failure_stays(all, i + 1);
                        }
                        return Err(AnalysisError::TimestampOutOfRange);
                    }
                    let name = copy_range(&fields[1], 0, fields[1].len());
                    proof {
                        assert(name@ =~= fields@[1]@);
                    }
                    match names.find(&name) {
                        Some(k) => {
                            proof {
                                assert(before[k as int] == stats@[k as int]@);
                                assert(before[k as int].commit_count <= i);
                            }
                            stats[k].update(t);
                            proof {
                                assert(stats_views(stats@) =~= credited(before, name@, t as int));
                                assert(names_of(stats_views(stats@)) =~= names_of(before)) by {
                                    assert(names_of(before)[k as int] == before[k as int].name);
                                }
                            }
                        },
                        None => {
                            let entry = ContributorStats::new(string_of(&name), t);
                            proof {
                                assert(stats_views(stats@.push(entry)) =~= before.push(entry@));
                                assert(names_of(before.push(entry@)) =~= names_of(before).push(
                                    name@,
                                ));
                            }
                            names.insert(name);
                            stats.push(entry);
                        },
                    }
                },
            }
        }
        i = i + 1;
    }
    proof {
        assert(all.take(lines.len() as int) =~= all);
        lemma_expertise_after(all);
    }
    if stats.len() == 0 {
        return Err(AnalysisError::NoHistory);
    }
    let report = rank_contributors(&stats);
    proof {
        let found = stats_views(stats@);
        lemma_ranked(found, stats_keys(found));
        assert forall|x: int| 0 <= x < report@.len() implies (#[trigger] report@[x]).wf() by {
            let shown = stats_views(report@);
            assert(shown[x] == report@[x]@);
            assert(found.contains(shown[x]));
        }
    }
    Ok(report)
}

} // verus!
