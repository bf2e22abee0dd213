//! Ownership concentration ("bus factor"): files of which one author wrote
//! so large a share that losing that author is a risk.

use crate::attribution::{credited_authors, parse_attribution};
use crate::error::AnalysisError;
use crate::path::{
    extension_chars, extension_of, is_hidden, resolve, resolved, strip_prefix, strip_prefix_of,
};
use crate::rank::{
    arranged, indices, is_arrangement, is_descending, key_views, lemma_ranked, outranks, rank,
    ranked, Key, RankKey,
};
use crate::tally::{
    is_leader, leader_index, lemma_leader_index, lemma_tally_of, lemma_total_update, tally_of,
    total,
};
use crate::text::{chars_of, owned, same_chars};
use crate::threshold::{reaches, reaches_threshold, Threshold};
use vstd::prelude::*;

verus! {

/// How many basis points make the whole: a basis point is a hundredth of a
/// percent.
pub const WHOLE: u64 = 10000;

/// Ownership of one file as a mathematical value.
pub struct OwnershipView {
    pub path: Seq<char>,
    pub dominant_author: Seq<char>,
    pub dominant_lines: nat,
    pub total_lines: nat,
}

/// Ownership of one file: the author with the most counted lines, the number
/// of those lines, and the number of all counted lines.
#[derive(Debug, Clone)]
pub struct BusFactorResult {
    pub path: String,
    pub dominant_author: String,
    pub dominant_lines: usize,
    pub total_lines: usize,
}

impl View for BusFactorResult {
    type V = OwnershipView;

    open spec fn view(&self) -> OwnershipView {
        OwnershipView {
            path: self.path@,
            dominant_author: self.dominant_author@,
            dominant_lines: self.dominant_lines as nat,
            total_lines: self.total_lines as nat,
        }
    }
}

/// The dominant author owns at least one line and no more than there are.
pub open spec fn ownership_wf(v: OwnershipView) -> bool {
    1 <= v.dominant_lines <= v.total_lines
}

/// The share of the dominant author in basis points, rounded down.
pub open spec fn basis_points(v: OwnershipView) -> int {
    WHOLE * v.dominant_lines / (v.total_lines as int)
}

/// Whether the share of the dominant author is at least `threshold`
/// percent.
pub open spec fn meets_threshold(v: OwnershipView, threshold: Threshold) -> bool {
    reaches(v.dominant_lines as int, v.total_lines as int, threshold)
}

/// What a file is ranked by: the share of the dominant author, then the
/// number of counted lines.
pub open spec fn ownership_key(v: OwnershipView) -> Key {
    Key { num: v.dominant_lines as int, den: v.total_lines as int, tie: v.total_lines as int }
}

/// The ownership that an attribution text shows for the file at `path`;
/// `None` where the text has no counted line.
pub open spec fn ownership_of(path: Seq<char>, text: Seq<char>) -> Option<OwnershipView> {
    let credited = credited_authors(text);
    if credited.len() == 0 {
        None
    } else {
        let t = tally_of(credited);
        let i = leader_index(t);
        Some(
            OwnershipView {
                path,
                dominant_author: t[i].0,
                dominant_lines: t[i].1,
                total_lines: credited.len(),
            },
        )
    }
}

/// Whatever an attribution text shows, the dominant author owns at least one
/// line and at most all, so the share lies between nothing and the whole, and
/// no other author owns more lines.
pub proof fn lemma_ownership_in_range(path: Seq<char>, text: Seq<char>)
    requires
        ownership_of(path, text) is Some,
    ensures
        ownership_wf(ownership_of(path, text)->0),
        0 <= basis_points(ownership_of(path, text)->0) <= WHOLE,
        is_leader(tally_of(credited_authors(text)), leader_index(tally_of(credited_authors(text)))),
{
    let credited = credited_authors(text);
    let t = tally_of(credited);
    lemma_tally_of(credited);
    assert(t.len() > 0) by {
        if t.len() == 0 {
            assert(total(t) == 0);
        }
    }
    lemma_leader_index(t);
    let i = leader_index(t);
    lemma_total_update(t, i, t[i]);
    lemma_basis_points_in_range(ownership_of(path, text)->0);
}

/// The share of a sound ownership lies between nothing and the whole.
pub proof fn lemma_basis_points_in_range(v: OwnershipView)
    requires
        ownership_wf(v),
    ensures
        0 <= basis_points(v) <= WHOLE,
{
    let d = v.dominant_lines as int;
    let t = v.total_lines as int;
    assert(0 <= (10000 * d) / t <= 10000) by (nonlinear_arith)
        requires
            1 <= d <= t,
    ;
}

impl BusFactorResult {
    /// The dominant author owns at least one line and no more than there are.
    pub open spec fn wf(&self) -> bool {
        ownership_wf(self@)
    }

    /// The share of the dominant author in basis points, rounded down.
    pub fn ownership_basis_points(&self) -> (share: u64)
        requires
            self.wf(),
        ensures
            share == basis_points(self@),
            share <= WHOLE,
    {
        proof {
            lemma_basis_points_in_range(self@);
        }
        let scaled: u128 = (self.dominant_lines as u128) * 10000;
        (scaled / (self.total_lines as u128)) as u64
    }

    /// Whether the share of the dominant author is at least `threshold`
    /// percent.
    pub fn meets(&self, threshold: Threshold) -> (yes: bool)
        ensures
            yes == meets_threshold(self@, threshold),
    {
        reaches_threshold(self.dominant_lines, self.total_lines, threshold)
    }

    /// What this file is ranked by.
    pub fn rank_key(&self) -> (key: RankKey)
        ensures
            key@ == ownership_key(self@),
    {
        RankKey {
            num: self.dominant_lines as u64,
            den: self.total_lines as u64,
            tie: self.total_lines as u64,
        }
    }

    /// A copy of this result.
    pub fn duplicate(&self) -> (copy: BusFactorResult)
        ensures
            copy == *self,
    {
        BusFactorResult {
            path: self.path.clone(),
            dominant_author: self.dominant_author.clone(),
            dominant_lines: self.dominant_lines,
            total_lines: self.total_lines,
        }
    }
}

/// The attribution text of one file, if there is one, with the file's path
/// from the repository root.
#[derive(Debug)]
pub struct FileAttribution {
    pub path: String,
    pub attribution: Option<String>,
}

/// The ownership that a file's attribution shows; `None` where there is no
/// attribution or it has no counted line.
pub open spec fn file_ownership(file: FileAttribution) -> Option<OwnershipView> {
    match file.attribution {
        Some(text) => ownership_of(file.path@, text@),
        None => None,
    }
}

/// The ownerships of the files that show one which meets the threshold, in
/// the order of the files.
pub open spec fn retained(threshold: Threshold, files: Seq<FileAttribution>) -> Seq<OwnershipView>
    decreases files.len(),
{
    if files.len() == 0 {
        Seq::empty()
    } else {
        let before = retained(threshold, files.drop_last());
        match file_ownership(files.last()) {
            Some(v) => if meets_threshold(v, threshold) {
                before.push(v)
            } else {
                before
            },
            None => before,
        }
    }
}

/// The keys of a sequence of ownerships.
pub open spec fn ownership_keys(items: Seq<OwnershipView>) -> Seq<Key> {
    Seq::new(items.len(), |i: int| ownership_key(items[i]))
}

/// The report on a set of files: the retained ownerships, from the largest
/// share to the smallest, and from the most lines to the fewest among equal
/// shares.
pub open spec fn ownership_report(threshold: Threshold, files: Seq<FileAttribution>) -> Seq<
    OwnershipView,
> {
    let kept = retained(threshold, files);
    ranked(kept, ownership_keys(kept))
}

/// The views of a sequence of results.
pub open spec fn result_views(results: Seq<BusFactorResult>) -> Seq<OwnershipView> {
    Seq::new(results.len(), |i: int| results[i]@)
}

/// Every retained ownership is sound and meets the threshold.
pub proof fn lemma_retained(threshold: Threshold, files: Seq<FileAttribution>)
    ensures
        forall|i: int|
            0 <= i < retained(threshold, files).len() ==> ownership_wf(
                #[trigger] retained(threshold, files)[i],
            ) && meets_threshold(retained(threshold, files)[i], threshold),
        retained(threshold, files).len() <= files.len(),
    decreases files.len(),
{
    if files.len() > 0 {
        lemma_retained(threshold, files.drop_last());
        let file = files.last();
        if file_ownership(file) is Some {
            lemma_ownership_in_range(file.path@, file.attribution->0@);
        }
    }
}

/// Whether two sequences of files hold the same paths and the same
/// attribution texts.
pub open spec fn same_files(a: Seq<FileAttribution>, b: Seq<FileAttribution>) -> bool {
    &&& a.len() == b.len()
    &&& forall|i: int| 0 <= i < a.len() ==> file_ownership(#[trigger] a[i]) == file_ownership(b[i])
    &&& forall|i: int|
        0 <= i < a.len() ==> (#[trigger] a[i]).path@ == b[i].path@ && (match (
            a[i].attribution,
            b[i].attribution,
        ) {
            (Some(x), Some(y)) => x@ == y@,
            (None, None) => true,
            _ => false,
        })
}

/// Two analyses of the same files with the same threshold give the same
/// report: the same files in the same order with the same numbers.
pub proof fn lemma_ownership_report_repeatable(
    threshold: Threshold,
    a: Seq<FileAttribution>,
    b: Seq<FileAttribution>,
)
    requires
        same_files(a, b),
    ensures
        retained(threshold, a) == retained(threshold, b),
        ownership_report(threshold, a) == ownership_report(threshold, b),
    decreases a.len(),
{
    if a.len() > 0 {
        assert(same_files(a.drop_last(), b.drop_last())) by {
            assert forall|i: int| 0 <= i < a.drop_last().len() implies file_ownership(
                #[trigger] a.drop_last()[i],
            ) == file_ownership(b.drop_last()[i]) by {
                assert(a.drop_last()[i] == a[i]);
                assert(b.drop_last()[i] == b[i]);
            }
            assert forall|i: int| 0 <= i < a.drop_last().len() implies (
            #[trigger] a.drop_last()[i]).path@ == b.drop_last()[i].path@ && (match (
                a.drop_last()[i].attribution,
                b.drop_last()[i].attribution,
            ) {
                (Some(x), Some(y)) => x@ == y@,
                (None, None) => true,
                _ => false,
            }) by {
                assert(a.drop_last()[i] == a[i]);
                assert(b.drop_last()[i] == b[i]);
            }
        }
        lemma_ownership_report_repeatable(threshold, a.drop_last(), b.drop_last());
        assert(file_ownership(a.last()) == file_ownership(b.last())) by {
            assert(a.last() == a[a.len() - 1]);
            assert(b.last() == b[a.len() - 1]);
        }
    }
}

/// Every file of an ownership report is sound and meets the threshold, its
/// share lies between nothing and the whole, and it may come before each
/// file behind it.
pub proof fn lemma_ownership_report(threshold: Threshold, files: Seq<FileAttribution>)
    ensures
        forall|i: int|
            0 <= i < ownership_report(threshold, files).len() ==> {
                &&& ownership_wf(#[trigger] ownership_report(threshold, files)[i])
                &&& meets_threshold(ownership_report(threshold, files)[i], threshold)
                &&& 0 <= basis_points(ownership_report(threshold, files)[i]) <= WHOLE
            },
        forall|a: int, b: int|
            0 <= a < b < ownership_report(threshold, files).len() ==> comes_before(
                #[trigger] ownership_report(threshold, files)[a],
                #[trigger] ownership_report(threshold, files)[b],
            ),
{
    let kept = retained(threshold, files);
    let keys = ownership_keys(kept);
    let report = ranked(kept, keys);
    lemma_retained(threshold, files);
    assert(crate::rank::all_wf(keys)) by {
        assert forall|i: int| 0 <= i < keys.len() implies (#[trigger] keys[i]).wf() by {
            assert(ownership_wf(kept[i]));
        }
    }
    crate::rank::lemma_rank_order(keys);
    let order = crate::rank::rank_order(keys);
    assert forall|i: int| 0 <= i < report.len() implies {
        &&& ownership_wf(#[trigger] report[i])
        &&& meets_threshold(report[i], threshold)
        &&& 0 <= basis_points(report[i]) <= WHOLE
    } by {
        assert(0 <= order[i] < kept.len());
        assert(report[i] == kept[order[i]]);
        lemma_basis_points_in_range(kept[order[i]]);
    }
    assert forall|a: int, b: int| 0 <= a < b < report.len() implies comes_before(
        #[trigger] report[a],
        #[trigger] report[b],
    ) by {
        assert(0 <= order[a] < kept.len());
        assert(0 <= order[b] < kept.len());
        assert(report[a] == kept[order[a]]);
        assert(report[b] == kept[order[b]]);
        assert(is_descending(keys, order));
        assert(!outranks(keys[order[b]], keys[order[a]]));
        assert(keys[order[a]] == ownership_key(kept[order[a]]));
        assert(keys[order[b]] == ownership_key(kept[order[b]]));
    }
}

/// What to do with an entry of a directory.
#[derive(Debug, Clone, Copy, PartialEq, Eq, Structural)]
pub enum WalkAction {
    /// Pass over the entry.
    Skip,
    /// Analyse the file.
    Analyze,
    /// Go through the directory.
    Descend,
}

/// What an entry of a directory is.
#[derive(Debug, Clone, Copy, PartialEq, Eq, Structural)]
pub enum EntryKind {
    File,
    Directory,
    Other,
}

/// Whether an extension marks a binary or media file, which is not analysed.
pub open spec fn is_excluded_extension(ext: Seq<char>) -> bool {
    ||| ext == "exe"@
    ||| ext == "dll"@
    ||| ext == "so"@
    ||| ext == "dylib"@
    ||| ext == "png"@
    ||| ext == "jpg"@
    ||| ext == "jpeg"@
    ||| ext == "gif"@
    ||| ext == "pdf"@
}

/// What the walk does with an entry of the given name and kind: hidden
/// entries are passed over, and so are files with an excluded extension;
/// other files are analysed and other directories gone through.
pub open spec fn walk_action_of(name: Seq<char>, kind: EntryKind) -> WalkAction {
    if is_hidden(name) {
        WalkAction::Skip
    } else {
        match kind {
            EntryKind::File => match extension_of(name) {
                Some(ext) => if is_excluded_extension(ext) {
                    WalkAction::Skip
                } else {
                    WalkAction::Analyze
                },
                None => WalkAction::Analyze,
            },
            EntryKind::Directory => WalkAction::Descend,
            EntryKind::Other => WalkAction::Skip,
        }
    }
}

/// Tests an extension against the excluded ones.
fn excluded_extension(ext: &Vec<char>) -> (yes: bool)
    ensures
        yes == is_excluded_extension(ext@),
{
    same_chars(ext, &chars_of("exe")) || same_chars(ext, &chars_of("dll")) || same_chars(
        ext,
        &chars_of("so"),
    ) || same_chars(ext, &chars_of("dylib")) || same_chars(ext, &chars_of("png")) || same_chars(
        ext,
        &chars_of("jpg"),
    ) || same_chars(ext, &chars_of("jpeg")) || same_chars(ext, &chars_of("gif")) || same_chars(
        ext,
        &chars_of("pdf"),
    )
}

/// Decides what the walk does with an entry of a directory.
pub fn walk_action(name: &str, kind: EntryKind) -> (action: WalkAction)
    ensures
        action == walk_action_of(name@, kind),
{
    let chars = chars_of(name);
    if chars.len() > 0 && chars[0] == '.' {
        return WalkAction::Skip;
    }
    match kind {
        EntryKind::File => match extension_chars(&chars) {
            Some(ext) => if excluded_extension(&ext) {
                WalkAction::Skip
            } else {
                WalkAction::Analyze
            },
            None => WalkAction::Analyze,
        },
        EntryKind::Directory => WalkAction::Descend,
        EntryKind::Other => WalkAction::Skip,
    }
}

/// Finds the files of a repository that one author dominates.
pub struct BusFactorAnalyzer {
    root: String,
    threshold: Threshold,
}

impl BusFactorAnalyzer {
    /// The root of the repository's working tree.
    pub closed spec fn root(&self) -> Seq<char> {
        self.root@
    }

    /// The least share at which a file is reported.
    pub closed spec fn threshold(&self) -> Threshold {
        self.threshold
    }

    /// An analyzer for the working tree at `root` that reports the files
    /// whose dominant author holds a share of at least `threshold`.
    pub fn new(root: &str, threshold: Threshold) -> (analyzer: BusFactorAnalyzer)
        ensures
            analyzer.root() == root@,
            analyzer.threshold() == threshold,
    {
        BusFactorAnalyzer { root: owned(root), threshold }
    }

    /// The least share at which a file is reported.
    pub fn least_share(&self) -> (threshold: Threshold)
        ensures
            threshold == self.threshold(),
    {
        self.threshold
    }

    /// Where the walk starts for a path given by the user: the path itself
    /// where it is absolute, else the path below the root.
    pub fn target_path(&self, path: &str) -> (target: String)
        ensures
            target@ == resolved(self.root(), path@),
    {
        resolve(self.root.as_str(), path)
    }

    /// The path of a file from the root. Fails where the file does not lie
    /// under the root.
    pub fn relative_path(&self, file_path: &str) -> (relative: Result<String, AnalysisError>)
        ensures
            match relative {
                Ok(r) => strip_prefix_of(file_path@, self.root()) == Some(r@),
                Err(e) => e == AnalysisError::OutsideRepository && strip_prefix_of(
                    file_path@,
                    self.root(),
                ) is None,
            },
    {
        match strip_prefix(file_path, self.root.as_str()) {
            Some(r) => Ok(r),
            None => Err(AnalysisError::OutsideRepository),
        }
    }

    /// The ownership of the file at `path`, read from its attribution text.
    /// Fails where the text has no counted line.
    pub fn analyze_file(&self, path: &str, attribution: &str) -> (result: Result<
        BusFactorResult,
        AnalysisError,
    >)
        ensures
            match result {
                Ok(found) => ownership_of(path@, attribution@) == Some(found@) && found.wf(),
                Err(e) => e == AnalysisError::UnanalyzableFile && ownership_of(
                    path@,
                    attribution@,
                ) is None,
            },
    {
        match parse_attribution(attribution) {
            Err(e) => Err(e),
            Ok(found) => {
                proof {
                    assert(found.authors@.len() > 0) by {
                        if found.authors@.len() == 0 {
                            assert(total(found.authors@) == 0);
                        }
                    }
                    lemma_ownership_in_range(path@, attribution@);
                }
                match found.authors.leader() {
                    None => Err(AnalysisError::UnanalyzableFile),
                    Some(place) => Ok(
                        BusFactorResult {
                            path: owned(path),
                            dominant_author: found.authors.name_at(place),
                            dominant_lines: found.authors.count_at(place),
                            total_lines: found.total_lines,
                        },
                    ),
                }
            },
        }
    }

    /// The report on the given files: each file whose attribution shows an
    /// ownership that meets the threshold, from the largest share to the
    /// smallest, and from the most lines to the fewest among equal shares.
    /// Files without attribution or without a counted line are left out.
    #[verifier::rlimit(50)]
    pub fn analyze_path(&self, files: &Vec<FileAttribution>) -> (report: Vec<BusFactorResult>)
        ensures
            result_views(report@) == ownership_report(self.threshold(), files@),
            forall|i: int|
                0 <= i < report@.len() ==> (#[trigger] report@[i]).wf() && meets_threshold(
                    report@[i]@,
                    self.threshold(),
                ),
            forall|a: int, b: int|
                0 <= a < b < report@.len() ==> comes_before(
                    #[trigger] report@[a]@,
                    #[trigger] report@[b]@,
                ),
    {
        let mut kept: Vec<BusFactorResult> = Vec::new();
        let mut i: usize = 0;
        proof {
            assert(files@.take(0) =~= Seq::empty());
            assert(result_views(kept@) =~= retained(self.threshold(), files@.take(0)));
        }
        while i < files.len()
            invariant
                i <= files.len(),
                result_views(kept@) == retained(self.threshold(), files@.take(i as int)),
                forall|k: int| 0 <= k < kept@.len() ==> (#[trigger] kept@[k]).wf(),
            decreases files.len() - i,
        {
            let file = &files[i];
            proof {
                assert(files@.take(i + 1).drop_last() =~= files@.take(i as int));
                assert(files@.take(i + 1).last() == *file);
            }
            match &file.attribution {
                Some(text) => {
                    match self.analyze_file(file.path.as_str(), text.as_str()) {
                        Ok(found) => {
                            if found.meets(self.threshold) {
                                proof {
                                    assert(result_views(kept@.push(found)) =~= result_views(
                                        kept@,
                                    ).push(found@));
                                }
                                kept.push(found);
                            }
                        },
                        Err(_) => {},
                    }
                },
                None => {},
            }
            i = i + 1;
        }
        proof {
            assert(files@.take(files.len() as int) =~= files@);
            lemma_retained(self.threshold(), files@);
        }
        let report = rank_results(&kept);
        proof {
            let found = result_views(kept@);
            lemma_ranked(found, ownership_keys(found));
            assert forall|k: int| 0 <= k < report@.len() implies meets_threshold(
                (#[trigger] report@[k])@,
                self.threshold(),
            ) by {
                let shown = result_views(report@);
                assert(shown[k] == report@[k]@);
                assert(found.contains(shown[k]));
            }
        }
        report
    }
}

/// Whether `a` may come before `b` in a report: its share is not smaller,
/// and where the shares are equal it has no fewer lines.
pub open spec fn comes_before(a: OwnershipView, b: OwnershipView) -> bool {
    &&& a.dominant_lines * b.total_lines >= b.dominant_lines * a.total_lines
    &&& a.dominant_lines * b.total_lines == b.dominant_lines * a.total_lines ==> a.total_lines
        >= b.total_lines
}

/// The results from the largest share of the dominant author to the
/// smallest, and from the most lines to the fewest among equal shares;
/// results equal in both stay in their order.
#[verifier::rlimit(50)]
pub fn rank_results(results: &Vec<BusFactorResult>) -> (report: Vec<BusFactorResult>)
    requires
        forall|k: int| 0 <= k < results@.len() ==> (#[trigger] results@[k]).wf(),
    ensures
        result_views(report@) == ranked(
            result_views(results@),
            ownership_keys(result_views(results@)),
        ),
        report@.len() == results@.len(),
        forall|i: int| 0 <= i < report@.len() ==> (#[trigger] report@[i]).wf(),
        forall|a: int, b: int|
            0 <= a < b < report@.len() ==> comes_before(
                #[trigger] report@[a]@,
                #[trigger] report@[b]@,
            ),
{
    let ghost found = result_views(results@);
    let mut keys: Vec<RankKey> = Vec::new();
    let mut i: usize = 0;
    while i < results.len()
        invariant
            i <= results.len(),
            keys@.len() == i,
            forall|k: int| 0 <= k < results@.len() ==> (#[trigger] results@[k]).wf(),
            forall|k: int| 0 <= k < i ==> (#[trigger] keys@[k])@ == ownership_key(results@[k]@),
        decreases results.len() - i,
    {
        keys.push(results[i].rank_key());
        i = i + 1;
    }
    let ghost key_seq = key_views(keys@);
    proof {
        assert(key_seq =~= ownership_keys(found));
        assert forall|k: int| 0 <= k < key_seq.len() implies (#[trigger] key_seq[k]).wf() by {
            assert(results@[k].wf());
        }
    }
    let order = rank(&keys);
    let mut report: Vec<BusFactorResult> = Vec::new();
    let mut j: usize = 0;
    let ghost target = arranged(found, indices(order@));
    proof {
        assert(result_views(report@) =~= target.take(0));
    }
    while j < order.len()
        invariant
            j <= order.len(),
            order@.len() == results@.len(),
            is_arrangement(indices(order@), results@.len() as int),
            found == result_views(results@),
            target == arranged(found, indices(order@)),
            result_views(report@) == target.take(j as int),
            report@.len() == j,
            forall|k: int| 0 <= k < results@.len() ==> (#[trigger] results@[k]).wf(),
            forall|k: int| 0 <= k < report@.len() ==> (#[trigger] report@[k]).wf(),
        decreases order.len() - j,
    {
        proof {
            assert(indices(order@)[j as int] == order@[j as int]);
        }
        let item = results[order[j]].duplicate();
        proof {
            let at = order@[j as int] as int;
            assert(target[j as int] == found[indices(order@)[j as int]]);
            assert(found[at] == results@[at]@);
            assert(item@ == target[j as int]);
            assert(result_views(report@.push(item)) =~= result_views(report@).push(item@));
            assert(target.take(j + 1) =~= target.take(j as int).push(target[j as int]));
        }
        report.push(item);
        j = j + 1;
    }
    proof {
        assert(target.take(order.len() as int) =~= target);
        let views = result_views(report@);
        let o = indices(order@);
        assert forall|a: int, b: int| 0 <= a < b < report@.len() implies comes_before(
            #[trigger] report@[a]@,
            #[trigger] report@[b]@,
        ) by {
            assert(views[a] == report@[a]@);
            assert(views[b] == report@[b]@);
            assert(views[a] == found[o[a]]);
            assert(views[b] == found[o[b]]);
            assert(0 <= o[a] < results@.len());
            assert(0 <= o[b] < results@.len());
            assert(key_seq[o[a]] == ownership_key(found[o[a]]));
            assert(key_seq[o[b]] == ownership_key(found[o[b]]));
            assert(is_descending(key_seq, o));
            assert(!outranks(key_seq[o[b]], key_seq[o[a]]));
            assert(found[o[a]] == results@[o[a]]@);
            assert(found[o[b]] == results@[o[b]]@);
        }
    }
    report
}

} // verus!
