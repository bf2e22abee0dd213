//! Churn hotspots: the files that change most often.
//!
//! The events of the history are folded into one entry per file. Only files
//! that the working tree still tracks are counted.

use crate::error::AnalysisError;
use crate::history::{event_views, parse_history, parsed_history, CommitChangeEvent, EventView};
use crate::index::{distinct, index_in, lemma_index_in_bounds, lemma_index_in_is, TextIndex};
use crate::path::{effective_filter, effective_filter_of, normalize_filter, normalized_filter};
use crate::rank::{
    arranged, count_key, indices, is_arrangement, is_descending, key_views, lemma_ranked,
    outranks, rank, ranked, Key, RankKey,
};
use crate::tally::{
    bump, distinct_names, lemma_bump, positive_counts, tally_of, total, Tally, TallyView,
};
use crate::text::{
    chars_of, copy_range, is_blank, lemma_push_contains, lines_of, optional_view, owned,
    split_lines, trimmed, views,
};
use vstd::prelude::*;

verus! {

/// The churn of one file as a mathematical value.
pub struct HotspotView {
    pub path: Seq<char>,
    pub commit_count: nat,
    pub contributor_count: nat,
    pub last_modified: int,
    pub contributors: TallyView,
}

/// The churn of one file: how many commits touched it, who made how many of
/// them, and when the last one was made.
#[derive(Debug)]
pub struct FileHotspot {
    pub path: String,
    pub commit_count: usize,
    pub contributor_count: usize,
    pub last_modified: i64,
    pub contributors: Tally,
}

impl View for FileHotspot {
    type V = HotspotView;

    open spec fn view(&self) -> HotspotView {
        HotspotView {
            path: self.path@,
            commit_count: self.commit_count as nat,
            contributor_count: self.contributor_count as nat,
            last_modified: self.last_modified as int,
            contributors: self.contributors@,
        }
    }
}

/// Whether the churn of a file is sound: there is at least one commit, the
/// number of contributors is the number of names in the tally, no
/// contributor is listed twice or without a commit, and the commits of the
/// contributors add up to the commits of the file.
pub open spec fn hotspot_wf(h: HotspotView) -> bool {
    &&& h.commit_count >= 1
    &&& h.contributor_count == h.contributors.len()
    &&& h.commit_count == total(h.contributors)
    &&& distinct_names(h.contributors)
    &&& positive_counts(h.contributors)
}

/// The churn of a file after its first event.
pub open spec fn first_sighting(e: EventView) -> HotspotView {
    HotspotView {
        path: e.file_path,
        commit_count: 1,
        contributor_count: 1,
        last_modified: e.timestamp,
        contributors: bump(Seq::empty(), e.author),
    }
}

/// The churn of a file after one more commit by `author` at `timestamp`.
pub open spec fn recorded(h: HotspotView, author: Seq<char>, timestamp: int) -> HotspotView {
    HotspotView {
        path: h.path,
        commit_count: h.commit_count + 1,
        contributor_count: bump(h.contributors, author).len(),
        last_modified: if timestamp > h.last_modified {
            timestamp
        } else {
            h.last_modified
        },
        contributors: bump(h.contributors, author),
    }
}

/// The paths of a sequence of entries.
pub open spec fn paths_of(spots: Seq<HotspotView>) -> Seq<Seq<char>> {
    Seq::new(spots.len(), |i: int| spots[i].path)
}

/// The entries after one more event: the entry of the event's file takes
/// the commit, or a new entry for that file joins at the end.
pub open spec fn folded(spots: Seq<HotspotView>, e: EventView) -> Seq<HotspotView> {
    let k = index_in(paths_of(spots), e.file_path);
    if 0 <= k < spots.len() {
        spots.update(k, recorded(spots[k], e.author, e.timestamp))
    } else {
        spots.push(first_sighting(e))
    }
}

/// Whether the listing of the working tree names the path: one of its lines
/// is the path, and the path is not blank.
pub open spec fn is_tracked(listing: Seq<char>, path: Seq<char>) -> bool {
    lines_of(listing).contains(path) && !is_blank(path)
}

/// Whether the listing of the working tree names any path.
pub open spec fn tracks_any(listing: Seq<char>) -> bool {
    exists|i: int| 0 <= i < lines_of(listing).len() && !is_blank(#[trigger] lines_of(listing)[i])
}

/// The paths that the listing of the working tree names.
pub open spec fn listed_paths(listing: Seq<char>) -> Set<Seq<char>> {
    Set::new(|path: Seq<char>| is_tracked(listing, path))
}

/// The entries that the events give for the files among `paths`, in the
/// order in which the files first occur.
pub open spec fn hotspots_of(events: Seq<EventView>, paths: Set<Seq<char>>) -> Seq<HotspotView>
    decreases events.len(),
{
    if events.len() == 0 {
        Seq::empty()
    } else {
        let before = hotspots_of(events.drop_last(), paths);
        if paths.contains(events.last().file_path) {
            folded(before, events.last())
        } else {
            before
        }
    }
}

/// What an entry is ranked by: its number of commits.
pub open spec fn hotspot_key(h: HotspotView) -> Key {
    count_key(h.commit_count as int)
}

/// The keys of a sequence of entries.
pub open spec fn hotspot_keys(spots: Seq<HotspotView>) -> Seq<Key> {
    Seq::new(spots.len(), |i: int| hotspot_key(spots[i]))
}

/// The report on a history for a working tree. Where the analysis is held to
/// a path filter and the listing names no path, the report is empty and the
/// history is not read. In every other case the history decides: the report
/// is the failure of reading it, or the entries of the listed files from the
/// most commits to the fewest.
pub open spec fn churn_report(filtered: bool, listing: Seq<char>, history: Seq<char>) -> Result<
    Seq<HotspotView>,
    AnalysisError,
> {
    if filtered && !tracks_any(listing) {
        Ok(Seq::empty())
    } else {
        match parsed_history(history) {
            Err(e) => Err(e),
            Ok(events) => {
                let spots = hotspots_of(events, listed_paths(listing));
                Ok(ranked(spots, hotspot_keys(spots)))
            },
        }
    }
}

/// One more event keeps entries sound and their paths distinct, and brings
/// in no path but that of the event.
pub proof fn lemma_folded(spots: Seq<HotspotView>, e: EventView)
    requires
        distinct(paths_of(spots)),
        forall|i: int| 0 <= i < spots.len() ==> hotspot_wf(#[trigger] spots[i]),
    ensures
        distinct(paths_of(folded(spots, e))),
        forall|i: int| 0 <= i < folded(spots, e).len() ==> hotspot_wf(#[trigger] folded(spots, e)[i]),
        forall|i: int|
            0 <= i < folded(spots, e).len() ==> (#[trigger] folded(spots, e)[i]).path == e.file_path
                || (i < spots.len() && folded(spots, e)[i].path == spots[i].path),
        spots.len() <= folded(spots, e).len() <= spots.len() + 1,
{
    let paths = paths_of(spots);
    let k = index_in(paths, e.file_path);
    let after = folded(spots, e);
    lemma_index_in_bounds(paths, e.file_path);
    if k < spots.len() {
        lemma_bump(spots[k].contributors, e.author);
        assert(paths_of(after) =~= paths) by {
            assert(paths[k] == spots[k].path);
        }
    } else {
        lemma_bump(Seq::empty(), e.author);
        assert(total(Seq::<(Seq<char>, nat)>::empty()) == 0);
        assert forall|i: int, j: int| 0 <= i < j < paths_of(after).len() implies #[trigger] paths_of(
            after,
        )[i] != #[trigger] paths_of(after)[j] by {
            assert(paths_of(after)[i] == paths[i]);
            if j < spots.len() {
                assert(paths_of(after)[j] == paths[j]);
            }
        }
    }
}

/// The entries of any events are sound, their paths are distinct, and each
/// path is among the given ones.
pub proof fn lemma_hotspots_of(events: Seq<EventView>, paths: Set<Seq<char>>)
    ensures
        distinct(paths_of(hotspots_of(events, paths))),
        forall|i: int|
            0 <= i < hotspots_of(events, paths).len() ==> hotspot_wf(
                #[trigger] hotspots_of(events, paths)[i],
            ),
        forall|i: int|
            0 <= i < hotspots_of(events, paths).len() ==> paths.contains(
                (#[trigger] hotspots_of(events, paths)[i]).path,
            ),
        forall|i: int|
            0 <= i < hotspots_of(events, paths).len() ==> (#[trigger] hotspots_of(
                events,
                paths,
            )[i]).commit_count <= events.len(),
        hotspots_of(events, paths).len() <= events.len(),
    decreases events.len(),
{
    if events.len() > 0 {
        let before = hotspots_of(events.drop_last(), paths);
        lemma_hotspots_of(events.drop_last(), paths);
        let e = events.last();
        if paths.contains(e.file_path) {
            lemma_folded(before, e);
            let after = folded(before, e);
            lemma_index_in_bounds(paths_of(before), e.file_path);
            assert forall|i: int| 0 <= i < after.len() implies paths.contains(
                (#[trigger] after[i]).path,
            ) by {
                if i < before.len() && after[i].path == before[i].path {
                    assert(paths.contains(before[i].path));
                }
            }
            assert forall|i: int| 0 <= i < after.len() implies (#[trigger] after[i]).commit_count
                <= events.len() by {
                if i < before.len() {
                    assert(before[i].commit_count <= events.len() - 1);
                }
            }
        }
    }
}

/// The events that touch the file at `path`, in order.
pub open spec fn touching(events: Seq<EventView>, path: Seq<char>) -> Seq<EventView>
    decreases events.len(),
{
    if events.len() == 0 {
        Seq::empty()
    } else if events.last().file_path == path {
        touching(events.drop_last(), path).push(events.last())
    } else {
        touching(events.drop_last(), path)
    }
}

/// The authors of the given events, in order.
pub open spec fn authors_of(events: Seq<EventView>) -> Seq<Seq<char>> {
    Seq::new(events.len(), |i: int| events[i].author)
}

/// The latest time among the given events; the epoch where there is none.
pub open spec fn latest(events: Seq<EventView>) -> int
    decreases events.len(),
{
    if events.len() == 0 {
        0
    } else if events.len() == 1 {
        events[0].timestamp
    } else {
        let before = latest(events.drop_last());
        if events.last().timestamp > before {
            events.last().timestamp
        } else {
            before
        }
    }
}

/// What the fold comes to for one path. A path among the given ones that
/// some event touches has one entry: it counts those events, tallies their
/// authors and holds the latest of their times. Any other path has no
/// entry.
pub proof fn lemma_hotspot_of_path(events: Seq<EventView>, paths: Set<Seq<char>>, path: Seq<char>)
    ensures
        ({
            let spots = hotspots_of(events, paths);
            let k = index_in(paths_of(spots), path);
            let seen = touching(events, path);
            if paths.contains(path) && seen.len() > 0 {
                &&& 0 <= k < spots.len()
                &&& spots[k] == (HotspotView {
                    path,
                    commit_count: seen.len(),
                    contributor_count: tally_of(authors_of(seen)).len(),
                    last_modified: latest(seen),
                    contributors: tally_of(authors_of(seen)),
                })
            } else {
                k == spots.len()
            }
        }),
    decreases events.len(),
{
    let spots = hotspots_of(events, paths);
    if events.len() == 0 {
        assert(paths_of(spots) =~= Seq::empty());
    } else {
        let e = events.last();
        let earlier = events.drop_last();
        let before = hotspots_of(earlier, paths);
        let seen_before = touching(earlier, path);
        let keys = paths_of(before);
        let k = index_in(keys, path);
        lemma_hotspot_of_path(earlier, paths, path);
        lemma_index_in_bounds(keys, path);
        if paths.contains(e.file_path) {
            let at = index_in(keys, e.file_path);
            lemma_index_in_bounds(keys, e.file_path);
            if e.file_path == path {
                let seen = seen_before.push(e);
                assert(seen.drop_last() =~= seen_before);
                assert(authors_of(seen) =~= authors_of(seen_before).push(e.author));
                assert(authors_of(seen).drop_last() =~= authors_of(seen_before));
                if k < before.len() {
                    assert(paths_of(spots) =~= keys) by {
                        assert(keys[k] == before[k].path);
                    }
                } else {
                    assert(seen_before.len() == 0);
                    assert(authors_of(seen_before) =~= Seq::empty());
                    assert forall|j: int| 0 <= j < before.len() implies #[trigger] paths_of(
                        spots,
                    )[j] != path by {
                        assert(paths_of(spots)[j] == keys[j]);
                    }
                    lemma_index_in_is(paths_of(spots), path, before.len() as int);
                }
            } else {
                if at < before.len() {
                    assert(paths_of(spots) =~= keys) by {
                        assert(keys[at] == before[at].path);
                    }
                } else {
                    assert forall|j: int| 0 <= j < k implies #[trigger] paths_of(spots)[j]
                        != path by {
                        assert(paths_of(spots)[j] == keys[j]);
                    }
                    if k < before.len() {
                        assert(paths_of(spots)[k] == keys[k]);
                        lemma_index_in_is(paths_of(spots), path, k);
                    } else {
                        assert(paths_of(spots)[before.len() as int] == e.file_path);
                        lemma_index_in_is(paths_of(spots), path, spots.len() as int);
                    }
                }
            }
        }
    }
}

impl FileHotspot {
    /// The entry is sound: so is its tally, and the number of contributors
    /// is the number of names in it.
    pub open spec fn wf(&self) -> bool {
        &&& self.contributors.wf()
        &&& hotspot_wf(self@)
    }

    /// The entry of a file after its first commit.
    pub fn first(path: &str, author: &str, timestamp: i64) -> (spot: FileHotspot)
        ensures
            spot.wf(),
            spot@ == (HotspotView {
                path: path@,
                commit_count: 1,
                contributor_count: 1,
                last_modified: timestamp as int,
                contributors: bump(Seq::empty(), author@),
            }),
    {
        let mut contributors = Tally::new();
        proof {
            assert(total(contributors@) == 0);
            lemma_bump(Seq::empty(), author@);
            contributors.lemma_wf();
        }
        contributors.add(author);
        FileHotspot {
            path: owned(path),
            commit_count: 1,
            contributor_count: contributors.len(),
            last_modified: timestamp,
            contributors,
        }
    }

    /// Takes in one more commit by `author` at `timestamp`.
    pub fn record(&mut self, author: &str, timestamp: i64)
        requires
            old(self).wf(),
            old(self).commit_count < usize::MAX,
        ensures
            final(self).wf(),
            final(self)@ == recorded(old(self)@, author@, timestamp as int),
            final(self).contributor_count == final(self).contributors@.len(),
    {
        proof {
            lemma_bump(self.contributors@, author@);
        }
        self.commit_count = self.commit_count + 1;
        self.contributors.add(author);
        self.contributor_count = self.contributors.len();
        if timestamp > self.last_modified {
            self.last_modified = timestamp;
        }
    }

    /// What this entry is ranked by.
    pub fn rank_key(&self) -> (key: RankKey)
        ensures
            key@ == hotspot_key(self@),
    {
        RankKey { num: self.commit_count as u64, den: 1, tie: 0 }
    }

    /// A copy of this entry.
    pub fn duplicate(&self) -> (copy: FileHotspot)
        requires
            self.wf(),
        ensures
            copy.wf(),
            copy@ == self@,
    {
        FileHotspot {
            path: self.path.clone(),
            commit_count: self.commit_count,
            contributor_count: self.contributor_count,
            last_modified: self.last_modified,
            contributors: self.contributors.duplicate(),
        }
    }
}

/// The views of a sequence of entries.
pub open spec fn hotspot_views(spots: Seq<FileHotspot>) -> Seq<HotspotView> {
    Seq::new(spots.len(), |i: int| spots[i]@)
}

/// Whether `index` holds exactly the lines that are not blank.
pub open spec fn lists(index: Seq<Seq<char>>, lines: Seq<Seq<char>>) -> bool {
    forall|path: Seq<char>|
        #![trigger index.contains(path)]
        #![trigger lines.contains(path)]
        index.contains(path) <==> lines.contains(path) && !is_blank(path)
}

/// Reads the listing of the working tree: the paths that it names, each
/// once.
#[verifier::rlimit(50)]
pub fn listed_files(listing: &str) -> (listed: TextIndex)
    ensures
        listed.wf(),
        listed@.to_set() == listed_paths(listing@),
        listed@.len() == 0 <==> !tracks_any(listing@),
{
    let chars = chars_of(listing);
    let lines = split_lines(&chars);
    let mut listed = TextIndex::new();
    let mut i: usize = 0;
    let ghost all = views(lines@);
    proof {
        assert(lists(listed@, all.take(0)));
    }
    while i < lines.len()
        invariant
            i <= lines.len(),
            all == views(lines@),
            listed.wf(),
            lists(listed@, all.take(i as int)),
        decreases lines.len() - i,
    {
        let line = &lines[i];
        let ghost before = listed@;
        proof {
            assert(all[i as int] == line@);
            assert(all.take(i + 1) =~= all.take(i as int).push(line@));
        }
        let body = trimmed(line);
        if body.len() != 0 {
            match listed.find(line) {
                Some(k) => {
                    proof {
                        assert(before.contains(line@)) by {
                            assert(before[k as int] == line@);
                        }
                    }
                },
                None => {
                    let key = copy_range(line, 0, line.len());
                    proof {
                        assert(key@ =~= line@);
                    }
                    listed.insert(key);
                },
            }
        }
        proof {
            assert(lists(before, all.take(i as int)));
            let next = all.take(i + 1);
            assert forall|path: Seq<char>|
                #![trigger listed@.contains(path)]
                #![trigger next.contains(path)]
                listed@.contains(path) <==> next.contains(path) && !is_blank(path) by {
                lemma_push_contains(all.take(i as int), line@, path);
                lemma_push_contains(before, line@, path);
                assert(before.contains(path) <==> all.take(i as int).contains(path) && !is_blank(
                    path,
                ));
            }
            assert(lists(listed@, all.take(i + 1)));
        }
        i = i + 1;
    }
    proof {
        assert(all.take(lines.len() as int) =~= all);
        assert(all == lines_of(listing@));
        assert(lists(listed@, all));
        assert(listed@.to_set() =~= listed_paths(listing@)) by {
            assert forall|path: Seq<char>|
                listed@.to_set().contains(path) <==> listed_paths(listing@).contains(path) by {
                assert(listed@.to_set().contains(path) <==> listed@.contains(path));
                assert(listed@.contains(path) <==> all.contains(path) && !is_blank(path));
            }
        }
        if listed@.len() > 0 {
            assert(listed@.contains(listed@[0]));
            let p = listed@[0];
            let k = choose|k: int| 0 <= k < all.len() && all[k] == p;
            assert(!is_blank(lines_of(listing@)[k]));
        }
        if tracks_any(listing@) {
            let k = choose|k: int| 0 <= k < all.len() && !is_blank(#[trigger] all[k]);
            assert(all.contains(all[k]));
            assert(listed@.contains(all[k]));
        }
    }
    listed
}

/// Folds events into the entries of the listed files: one entry per file,
/// in the order in which the files first occur.
#[verifier::rlimit(50)]
pub fn fold_events(events: &Vec<CommitChangeEvent>, listed: &TextIndex) -> (spots: Vec<FileHotspot>)
    requires
        listed.wf(),
    ensures
        hotspot_views(spots@) == hotspots_of(event_views(events@), listed@.to_set()),
        forall|k: int| 0 <= k < spots@.len() ==> (#[trigger] spots@[k]).wf(),
{
    let mut found = TextIndex::new();
    let mut spots: Vec<FileHotspot> = Vec::new();
    let mut i: usize = 0;
    let ghost all = event_views(events@);
    let ghost paths = listed@.to_set();
    proof {
        assert(all.take(0) =~= Seq::empty());
        assert(hotspot_views(spots@) =~= Seq::empty());
        assert(found@ =~= paths_of(hotspot_views(spots@)));
    }
    while i < events.len()
        invariant
            i <= events.len(),
            all == event_views(events@),
            listed.wf(),
            paths == listed@.to_set(),
            found.wf(),
            found@ == paths_of(hotspot_views(spots@)),
            hotspot_views(spots@) == hotspots_of(all.take(i as int), paths),
            forall|k: int| 0 <= k < spots@.len() ==> (#[trigger] spots@[k]).wf(),
        decreases events.len() - i,
    {
        let event = &events[i];
        let ghost before = hotspot_views(spots@);
        proof {
            assert(all.take(i + 1).drop_last() =~= all.take(i as int));
            assert(all.take(i + 1).last() == event@);
            lemma_hotspots_of(all.take(i as int), paths);
        }
        let path = chars_of(event.file_path.as_str());
        if listed.find(&path).is_some() {
            match found.find(&path) {
                Some(k) => {
                    proof {
                        assert(before[k as int] == spots@[k as int]@);
                        assert(before[k as int].commit_count <= i);
                    }
                    spots[k].record(event.author.as_str(), event.timestamp);
                    proof {
                        assert(hotspot_views(spots@) =~= folded(before, event@));
                        assert(paths_of(hotspot_views(spots@)) =~= paths_of(before)) by {
                            assert(paths_of(before)[k as int] == before[k as int].path);
                        }
                    }
                },
                None => {
                    let spot = FileHotspot::first(
                        event.file_path.as_str(),
                        event.author.as_str(),
                        event.timestamp,
                    );
                    proof {
                        assert(hotspot_views(spots@.push(spot)) =~= before.push(spot@));
                        assert(paths_of(before.push(spot@)) =~= paths_of(before).push(path@));
                    }
                    found.insert(path);
                    spots.push(spot);
                },
            }
        }
        i = i + 1;
    }
    proof {
        assert(all.take(events.len() as int) =~= all);
    }
    spots
}

/// The entries from the most commits to the fewest; entries with equally
/// many commits stay in their order.
#[verifier::rlimit(50)]
pub fn rank_hotspots(spots: &Vec<FileHotspot>) -> (report: Vec<FileHotspot>)
    requires
        forall|k: int| 0 <= k < spots@.len() ==> (#[trigger] spots@[k]).wf(),
    ensures
        hotspot_views(report@) == ranked(
            hotspot_views(spots@),
            hotspot_keys(hotspot_views(spots@)),
        ),
        report@.len() == spots@.len(),
        forall|i: int| 0 <= i < report@.len() ==> (#[trigger] report@[i]).wf(),
        forall|a: int, b: int|
            0 <= a < b < report@.len() ==> (#[trigger] report@[a]).commit_count >= (
            #[trigger] report@[b]).commit_count,
{
    let ghost spot_views = hotspot_views(spots@);
    let mut keys: Vec<RankKey> = Vec::new();
    let mut i: usize = 0;
    while i < spots.len()
        invariant
            i <= spots.len(),
            keys@.len() == i,
            forall|k: int| 0 <= k < i ==> (#[trigger] keys@[k])@ == hotspot_key(spots@[k]@),
        decreases spots.len() - i,
    {
        keys.push(spots[i].rank_key());
        i = i + 1;
    }
    let ghost key_seq = key_views(keys@);
    proof {
        assert(key_seq =~= hotspot_keys(spot_views));
    }
    let order = rank(&keys);
    let mut report: Vec<FileHotspot> = Vec::new();
    let mut j: usize = 0;
    let ghost target = arranged(spot_views, indices(order@));
    proof {
        assert(hotspot_views(report@) =~= target.take(0));
    }
    while j < order.len()
        invariant
            j <= order.len(),
            order@.len() == spots@.len(),
            is_arrangement(indices(order@), spots@.len() as int),
            spot_views == hotspot_views(spots@),
            target == arranged(spot_views, indices(order@)),
            hotspot_views(report@) == target.take(j as int),
            report@.len() == j,
            forall|k: int| 0 <= k < spots@.len() ==> (#[trigger] spots@[k]).wf(),
            forall|k: int| 0 <= k < report@.len() ==> (#[trigger] report@[k]).wf(),
        decreases order.len() - j,
    {
        proof {
            assert(indices(order@)[j as int] == order@[j as int]);
        }
        let item = spots[order[j]].duplicate();
        proof {
            let at = order@[j as int] as int;
            assert(target[j as int] == spot_views[indices(order@)[j as int]]);
            assert(spot_views[at] == spots@[at]@);
            assert(hotspot_views(report@.push(item)) =~= hotspot_views(report@).push(item@));
            assert(target.take(j + 1) =~= target.take(j as int).push(target[j as int]));
        }
        report.push(item);
        j = j + 1;
    }
    proof {
        assert(target.take(order.len() as int) =~= target);
        let views = hotspot_views(report@);
        let o = indices(order@);
        assert forall|a: int, b: int| 0 <= a < b < report@.len() implies (
        #[trigger] report@[a]).commit_count >= (#[trigger] report@[b]).commit_count by {
            assert(views[a] == report@[a]@);
            assert(views[b] == report@[b]@);
            assert(views[a] == spot_views[o[a]]);
            assert(views[b] == spot_views[o[b]]);
            assert(0 <= o[a] < spots@.len());
            assert(0 <= o[b] < spots@.len());
            assert(key_seq[o[a]] == hotspot_key(spot_views[o[a]]));
            assert(key_seq[o[b]] == hotspot_key(spot_views[o[b]]));
            assert(is_descending(key_seq, o));
            assert(!outranks(key_seq[o[b]], key_seq[o[a]]));
            assert(spot_views[o[a]] == spots@[o[a]]@);
            assert(spot_views[o[b]] == spots@[o[b]]@);
        }
    }
    report
}

/// What a report suggests for a file.
#[derive(Debug, Clone, Copy, PartialEq, Eq, Structural)]
pub enum Suggestion {
    /// Many commits by many people: consider refactoring or more tests.
    RefactorCandidate,
    /// Very many people: consider assigning a code owner.
    NeedsCodeOwner,
    /// Many commits: review for technical debt.
    TechnicalDebtReview,
}

/// The suggestion for a file with the given numbers of commits and
/// contributors.
pub open spec fn suggestion_for(commits: int, contributors: int) -> Option<Suggestion> {
    if commits > 20 && contributors > 4 {
        Some(Suggestion::RefactorCandidate)
    } else if contributors > 6 {
        Some(Suggestion::NeedsCodeOwner)
    } else if commits > 15 {
        Some(Suggestion::TechnicalDebtReview)
    } else {
        None
    }
}

/// Decides the suggestion for a file.
pub fn classify(commit_count: usize, contributor_count: usize) -> (suggestion: Option<Suggestion>)
    ensures
        suggestion == suggestion_for(commit_count as int, contributor_count as int),
{
    if commit_count > 20 && contributor_count > 4 {
        Some(Suggestion::RefactorCandidate)
    } else if contributor_count > 6 {
        Some(Suggestion::NeedsCodeOwner)
    } else if commit_count > 15 {
        Some(Suggestion::TechnicalDebtReview)
    } else {
        None
    }
}

/// How many files a report shows.
pub const REPORT_LIMIT: usize = 10;

/// One file of a report as it is shown.
#[derive(Debug)]
pub struct ReportEntry {
    pub position: usize,
    pub path: String,
    pub commit_count: usize,
    pub contributor_count: usize,
    pub suggestion: Option<Suggestion>,
}

/// Whether an entry shows the given file at the given place of a report.
pub open spec fn shows(entry: ReportEntry, spot: FileHotspot, place: int) -> bool {
    &&& entry.position == place + 1
    &&& entry.path@ == spot.path@
    &&& entry.commit_count == spot.commit_count
    &&& entry.contributor_count == spot.contributor_count
    &&& entry.suggestion == suggestion_for(
        spot.commit_count as int,
        spot.contributor_count as int,
    )
}

/// The entries of a report: the first files of the ranking, up to the limit,
/// each with its position, counted from one, and its suggestion.
pub fn report_entries(hotspots: &Vec<FileHotspot>) -> (entries: Vec<ReportEntry>)
    ensures
        entries@.len() == if hotspots@.len() < REPORT_LIMIT {
            hotspots@.len()
        } else {
            REPORT_LIMIT as nat
        },
        forall|i: int| 0 <= i < entries@.len() ==> shows(#[trigger] entries@[i], hotspots@[i], i),
{
    let mut entries: Vec<ReportEntry> = Vec::new();
    let mut i: usize = 0;
    while i < hotspots.len() && i < REPORT_LIMIT
        invariant
            i <= hotspots.len(),
            i <= REPORT_LIMIT,
            entries@.len() == i,
            forall|k: int| 0 <= k < entries@.len() ==> shows(#[trigger] entries@[k], hotspots@[k], k),
        decreases hotspots.len() - i,
    {
        let spot = &hotspots[i];
        entries.push(
            ReportEntry {
                position: i + 1,
                path: spot.path.clone(),
                commit_count: spot.commit_count,
                contributor_count: spot.contributor_count,
                suggestion: classify(spot.commit_count, spot.contributor_count),
            },
        );
        i = i + 1;
    }
    entries
}

/// What the result of an analysis shows: its entries as mathematical
/// values, or its failure.
pub open spec fn shown_report(result: Result<Vec<FileHotspot>, AnalysisError>) -> Result<
    Seq<HotspotView>,
    AnalysisError,
> {
    match result {
        Ok(report) => Ok(hotspot_views(report@)),
        Err(e) => Err(e),
    }
}

/// Two analyses of the same listing and the same history, both with a
/// filter or both without, show the same: the same failure, or the same
/// entries in the same order.
pub proof fn lemma_churn_report_repeatable(
    filtered: bool,
    listing: Seq<char>,
    history: Seq<char>,
    first: Result<Vec<FileHotspot>, AnalysisError>,
    second: Result<Vec<FileHotspot>, AnalysisError>,
)
    requires
        shown_report(first) == churn_report(filtered, listing, history),
        shown_report(second) == churn_report(filtered, listing, history),
    ensures
        shown_report(first) == shown_report(second),
{
}

/// A history that cannot be read is fatal: the report is its failure, unless
/// the analysis is held to a filter and the listing names no path.
pub proof fn lemma_damaged_history_is_fatal(filtered: bool, listing: Seq<char>, history: Seq<char>)
    requires
        parsed_history(history) is Err,
        !filtered || tracks_any(listing),
    ensures
        churn_report(filtered, listing, history) == Err::<Seq<HotspotView>, AnalysisError>(
            parsed_history(history)->Err_0,
        ),
{
}

/// Every entry of a churn report is sound, names a path that the listing
/// names, and has no more commits than the entry before it.
pub proof fn lemma_churn_report(filtered: bool, listing: Seq<char>, history: Seq<char>)
    requires
        churn_report(filtered, listing, history) is Ok,
    ensures
        forall|i: int|
            0 <= i < churn_report(filtered, listing, history)->Ok_0.len() ==> hotspot_wf(
                #[trigger] churn_report(filtered, listing, history)->Ok_0[i],
            ) && is_tracked(listing, churn_report(filtered, listing, history)->Ok_0[i].path),
        forall|a: int, b: int|
            0 <= a < b < churn_report(filtered, listing, history)->Ok_0.len() ==> (
            #[trigger] churn_report(filtered, listing, history)->Ok_0[a]).commit_count >= (
            #[trigger] churn_report(filtered, listing, history)->Ok_0[b]).commit_count,
{
    if !filtered || tracks_any(listing) {
        let events = parsed_history(history)->Ok_0;
        let spots = hotspots_of(events, listed_paths(listing));
        let keys = hotspot_keys(spots);
        let report = ranked(spots, keys);
        lemma_hotspots_of(events, listed_paths(listing));
        crate::rank::lemma_rank_order(keys);
        let order = crate::rank::rank_order(keys);
        assert forall|i: int| 0 <= i < report.len() implies hotspot_wf(#[trigger] report[i])
            && is_tracked(listing, report[i].path) by {
            assert(0 <= order[i] < spots.len());
            assert(report[i] == spots[order[i]]);
            assert(listed_paths(listing).contains(spots[order[i]].path));
        }
        assert forall|a: int, b: int| 0 <= a < b < report.len() implies (
        #[trigger] report[a]).commit_count >= (#[trigger] report[b]).commit_count by {
            assert(0 <= order[a] < spots.len());
            assert(0 <= order[b] < spots.len());
            assert(report[a] == spots[order[a]]);
            assert(report[b] == spots[order[b]]);
            assert(crate::rank::is_descending(keys, order));
            assert(!outranks(keys[order[b]], keys[order[a]]));
            assert(keys[order[a]] == hotspot_key(spots[order[a]]));
            assert(keys[order[b]] == hotspot_key(spots[order[b]]));
        }
    }
}

/// Finds the files that change most often.
pub struct HotspotAnalyzer {
    root: String,
    path_filter: Option<String>,
}

impl HotspotAnalyzer {
    /// The root of the repository's working tree.
    pub closed spec fn root(&self) -> Seq<char> {
        self.root@
    }

    /// The path to which the analysis is held, as the repository names it.
    pub closed spec fn path_filter(&self) -> Option<Seq<char>> {
        optional_view(self.path_filter)
    }

    /// An analyzer for the working tree at `root`, held to `path_filter`
    /// where one is given. The filter is brought into the form in which the
    /// repository names paths.
    pub fn new(root: &str, path_filter: Option<String>) -> (analyzer: HotspotAnalyzer)
        ensures
            analyzer.root() == root@,
            analyzer.path_filter() == match path_filter {
                Some(filter) => Some(normalized_filter(root@, filter@)),
                None => None,
            },
    {
        let normalized = match path_filter {
            Some(filter) => Some(normalize_filter(root, filter.as_str())),
            None => None,
        };
        HotspotAnalyzer { root: owned(root), path_filter: normalized }
    }

    /// The filter as it holds from the current directory; `None` where the
    /// analysis has no filter.
    pub fn effective_path_filter(&self, current_dir: &str) -> (filter: Option<String>)
        ensures
            optional_view(filter) == match self.path_filter() {
                Some(f) => Some(effective_filter_of(self.root(), current_dir@, f)),
                None => None,
            },
    {
        match &self.path_filter {
            Some(f) => Some(effective_filter(self.root.as_str(), current_dir, f.as_str())),
            None => None,
        }
    }

    /// The churn report for a working tree and its history.
    ///
    /// `listing` is the listing of the working tree and `history` the bulk
    /// history. Where the analysis is held to a path filter and the listing
    /// names no path, the report is empty. In every other case the history is
    /// read, which fails on a damaged header, and its events are folded into
    /// one entry for each file that the listing names; the entries come from
    /// the most commits to the fewest, files with equally many in the order
    /// in which the history first names them.
    #[verifier::rlimit(50)]
    pub fn analyze(&self, listing: &str, history: &str) -> (result: Result<
        Vec<FileHotspot>,
        AnalysisError,
    >)
        ensures
            shown_report(result) == churn_report(self.path_filter() is Some, listing@, history@),
            match result {
                Ok(report) => {
                    &&& forall|i: int| 0 <= i < report@.len() ==> (#[trigger] report@[i]).wf()
                    &&& forall|i: int|
                        0 <= i < report@.len() ==> is_tracked(listing@, (#[trigger] report@[i]).path@)
                    &&& forall|a: int, b: int|
                        0 <= a < b < report@.len() ==> (#[trigger] report@[a]).commit_count >= (
                        #[trigger] report@[b]).commit_count
                },
                Err(_) => true,
            },
    {
        let listed = listed_files(listing);
        if self.path_filter.is_some() && listed.len() == 0 {
            let report: Vec<FileHotspot> = Vec::new();
            proof {
                assert(hotspot_views(report@) =~= Seq::empty());
            }
            return Ok(report);
        }
        let events = match parse_history(history) {
            Ok(events) => events,
            Err(e) => {
                return Err(e);
            },
        };
        let spots = fold_events(&events, &listed);
        proof {
            lemma_hotspots_of(event_views(events@), listed_paths(listing@));
        }
        let report = rank_hotspots(&spots);
        proof {
            lemma_ranked(hotspot_views(spots@), hotspot_keys(hotspot_views(spots@)));
            assert forall|k: int| 0 <= k < report@.len() implies is_tracked(
                listing@,
                (#[trigger] report@[k]).path@,
            ) by {
                let found = hotspot_views(spots@);
                let shown = hotspot_views(report@);
                assert(shown[k] == report@[k]@);
                assert(found.contains(shown[k]));
                let at = choose|at: int| 0 <= at < found.len() && found[at] == shown[k];
                assert(listed_paths(listing@).contains(found[at].path));
            }
        }
        Ok(report)
    }
}

} // verus!
