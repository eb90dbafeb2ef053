//! Which tracks are missing: the difference between what the remote side lists
//! and what the library has recorded.

use crate::db::{Entry, EntryType, EntryView, Library, LibraryView};
use crate::error::OngakuError;
use crate::facts::{
    lemma_add_contains, lemma_filter_all, lemma_filter_none, lemma_flatten_next,
    lemma_last_contains, lemma_take_last, views,
};
use vstd::hash_set::StringHashSet;
use vstd::prelude::*;

verus! {

/// One pending download: a track that an entry lacks.
#[derive(Debug, Clone, PartialEq, Eq)]
pub struct Task {
    /// The key of the entry that the track belongs to.
    pub entry_id: String,
    /// The kind of that entry.
    pub entry_type: EntryType,
    /// The name of that entry.
    pub entry_name: String,
    /// The remote address of the track.
    pub track_url: String,
}

/// A task as the contracts see it.
pub struct TaskView {
    pub entry_id: Seq<char>,
    pub entry_type: EntryType,
    pub entry_name: Seq<char>,
    pub track_url: Seq<char>,
}

impl View for Task {
    type V = TaskView;

    open spec fn view(&self) -> TaskView {
        TaskView {
            entry_id: self.entry_id@,
            entry_type: self.entry_type,
            entry_name: self.entry_name@,
            track_url: self.track_url@,
        }
    }
}

/// The URLs of a listing that are to be fetched, in the listing's order: each one
/// that is not among the known ones, at the first place where the listing has it.
pub open spec fn missing(known: Seq<Seq<char>>, listing: Seq<Seq<char>>) -> Seq<Seq<char>>
    decreases listing.len(),
{
    if listing.len() == 0 {
        Seq::empty()
    } else {
        let earlier = listing.drop_last();
        let url = listing.last();
        if known.contains(url) || earlier.contains(url) {
            missing(known, earlier)
        } else {
            missing(known, earlier).push(url)
        }
    }
}

/// The task that fetches one track for an entry.
pub open spec fn task_for(entry: EntryView, url: Seq<char>) -> TaskView {
    TaskView {
        entry_id: entry.id,
        entry_type: entry.kind,
        entry_name: entry.name,
        track_url: url,
    }
}

/// The tasks that a listing gives rise to for one entry.
pub open spec fn entry_tasks(entry: EntryView, listing: Seq<Seq<char>>) -> Seq<TaskView> {
    missing(entry.urls(), listing).map_values(|url: Seq<char>| task_for(entry, url))
}

/// Compares one entry with the remote listing of its tracks.
///
/// Returns one task for each listed URL that the entry has not recorded, in the
/// order of the listing; a URL that the listing holds more than once is
/// scheduled once, at its first place.
pub fn diff(entry: &Entry, listing: &Vec<String>) -> (tasks: Vec<Task>)
    ensures
        views(tasks@) == entry_tasks(entry@, views(listing@)),
        forall|k: int|
            0 <= k < tasks.len() ==> !entry@.urls().contains((#[trigger] tasks[k]).track_url@),
        forall|k: int, m: int|
            0 <= k < m < tasks.len() ==> (#[trigger] tasks[k]).track_url@ != (
            #[trigger] tasks[m]).track_url@,
{
    let ghost known = entry@.urls();
    let ghost remote = views(listing@);
    let mut seen = StringHashSet::new();
    let mut k: usize = 0;
    while k < entry.tracks.len()
        invariant
            k <= entry.tracks.len(),
            known == entry@.urls(),
            forall|url: Seq<char>|
                #![trigger seen@.contains(url)]
                seen@.contains(url) <==> known.take(k as int).contains(url),
        decreases entry.tracks.len() - k,
    {
        proof {
            lemma_take_last(known, k + 1);
        }
        seen.insert(entry.tracks[k].url.clone());
        k += 1;
    }
    assert(known.take(k as int) == known);
    let mut tasks: Vec<Task> = Vec::new();
    let mut i: usize = 0;
    while i < listing.len()
        invariant
            i <= listing.len(),
            known == entry@.urls(),
            remote == views(listing@),
            forall|url: Seq<char>|
                #![trigger seen@.contains(url)]
                seen@.contains(url) <==> known.contains(url) || remote.take(i as int).contains(url),
            views(tasks@) == entry_tasks(entry@, remote.take(i as int)),
        decreases listing.len() - i,
    {
        let url = &listing[i];
        let ghost before = remote.take(i as int);
        let ghost after = remote.take(i + 1);
        proof {
            lemma_take_last(remote, i + 1);
            assert(remote[i as int] == url@);
            assert(after.last() == url@);
        }
        if !seen.contains(url.as_str()) {
            let task = Task {
                entry_id: entry.id.clone(),
                entry_type: entry.kind,
                entry_name: entry.name.clone(),
                track_url: url.clone(),
            };
            proof {
                assert(task@ == task_for(entry@, url@));
                assert(views(tasks@.push(task)) == views(tasks@).push(task@));
                assert(missing(known, after) == missing(known, before).push(url@));
                assert(entry_tasks(entry@, after) == entry_tasks(entry@, before).push(
                    task_for(entry@, url@),
                ));
            }
            tasks.push(task);
            seen.insert(url.clone());
        } else {
            assert(missing(known, after) == missing(known, before));
        }
        i += 1;
    }
    proof {
        assert(remote.take(i as int) == remote);
        lemma_entry_tasks(entry@, remote);
        assert forall|k: int| 0 <= k < tasks.len() implies (#[trigger] tasks[k])@
            == entry_tasks(entry@, remote)[k] by {
            assert(views(tasks@)[k] == tasks[k]@);
        }
    }
    tasks
}

/// The outcome of asking for one listing, as the contracts see it: the listed URLs,
/// or the line that tells why there are none.
pub type ListingView = Result<Seq<Seq<char>>, Seq<char>>;

/// The view of the outcome of asking for one listing.
pub open spec fn listing_view(outcome: Result<Vec<String>, OngakuError>) -> ListingView {
    match outcome {
        Ok(urls) => Ok(views(urls@)),
        Err(error) => Err(error.text()),
    }
}

/// The outcomes of asking for the listings, as the contracts see them.
pub open spec fn listing_views(outcomes: Seq<Result<Vec<String>, OngakuError>>) -> Seq<
    ListingView,
> {
    outcomes.map_values(|outcome: Result<Vec<String>, OngakuError>| listing_view(outcome))
}

/// The line that reports that an entry's tracks could not be listed.
pub open spec fn listing_warning(entry: EntryView, cause: Seq<char>) -> Seq<char> {
    "Failed to fetch tracks for "@ + entry.name + " ("@ + entry.url + "): "@ + cause
}

/// The tasks that the entry at one position gives rise to: those of its listing,
/// none where the listing failed or is not there.
pub open spec fn tasks_at(
    library: LibraryView,
    listings: Seq<ListingView>,
    i: int,
) -> Seq<TaskView> {
    if i < listings.len() && listings[i] is Ok {
        entry_tasks(library.entries[i], listings[i]->Ok_0)
    } else {
        Seq::empty()
    }
}

/// The warnings that the entry at one position gives rise to: one where its
/// listing failed.
pub open spec fn warnings_at(
    library: LibraryView,
    listings: Seq<ListingView>,
    i: int,
) -> Seq<Seq<char>> {
    if i < listings.len() && listings[i] is Err {
        seq![listing_warning(library.entries[i], listings[i]->Err_0)]
    } else {
        Seq::empty()
    }
}

/// The tasks of the first `n` entries, entry by entry.
pub open spec fn planned_upto(library: LibraryView, listings: Seq<ListingView>, n: nat) -> Seq<
    TaskView,
> {
    Seq::new(n, |i: int| tasks_at(library, listings, i)).flatten()
}

/// The tasks of a run: those of each entry in turn, the listing at a position
/// being that of the entry at the same position.
pub open spec fn planned(library: LibraryView, listings: Seq<ListingView>) -> Seq<TaskView> {
    planned_upto(library, listings, library.entries.len())
}

/// The warnings of a run: one for each entry whose listing failed, in turn.
pub open spec fn warned(
    library: LibraryView,
    listings: Seq<ListingView>,
) -> Seq<Seq<char>> {
    Seq::new(library.entries.len(), |i: int| warnings_at(library, listings, i)).flatten()
}

/// What a run has to do, and what it could not find out.
#[derive(Debug, Clone, PartialEq, Eq)]
pub struct Plan {
    /// The downloads to make.
    pub tasks: Vec<Task>,
    /// One line for each entry whose tracks could not be listed.
    pub warnings: Vec<String>,
}

/// Renders the line that reports that an entry's tracks could not be listed.
fn warn_listing(entry: &Entry, error: &OngakuError) -> (line: String)
    ensures
        line@ == listing_warning(entry@, error.text()),
{
    let mut line = String::from_str("Failed to fetch tracks for ");
    line.append(entry.name.as_str());
    line.append(" (");
    line.append(entry.url.as_str());
    line.append("): ");
    let cause = error.message();
    line.append(cause.as_str());
    line
}

/// Compares every entry of the library with its remote listing.
///
/// `listings[i]` is what asking for the tracks of `library.entries[i]` came back
/// with. An entry whose listing failed is skipped, with a warning, and so is one
/// for which no listing is given; the others are compared as [`diff`] does, each by
/// itself. The tasks come out entry by entry.
pub fn plan(library: &Library, listings: &Vec<Result<Vec<String>, OngakuError>>) -> (plan: Plan)
    ensures
        views(plan.tasks@) == planned(library@, listing_views(listings@)),
        views(plan.warnings@) == warned(library@, listing_views(listings@)),
        library@.wf() ==> forall|a: int, b: int|
            0 <= a < b < plan.tasks.len() ==> (#[trigger] plan.tasks[a]).entry_id@ != (
            #[trigger] plan.tasks[b]).entry_id@ || plan.tasks[a].track_url@
                != plan.tasks[b].track_url@,
{
    let ghost outcomes = listing_views(listings@);
    let ghost tasks_of = |i: int| tasks_at(library@, outcomes, i);
    let ghost warnings_of = |i: int| warnings_at(library@, outcomes, i);
    let mut tasks: Vec<Task> = Vec::new();
    let mut warnings: Vec<String> = Vec::new();
    let mut i: usize = 0;
    while i < library.entries.len()
        invariant
            i <= library.entries.len(),
            outcomes == listing_views(listings@),
            tasks_of == |i: int| tasks_at(library@, outcomes, i),
            warnings_of == |i: int| warnings_at(library@, outcomes, i),
            views(tasks@) == Seq::new(i as nat, tasks_of).flatten(),
            views(warnings@) == Seq::new(i as nat, warnings_of).flatten(),
        decreases library.entries.len() - i,
    {
        proof {
            let done_tasks = Seq::new(i as nat, tasks_of);
            let done_warnings = Seq::new(i as nat, warnings_of);
            assert(Seq::new((i + 1) as nat, tasks_of) == done_tasks.push(tasks_of(i as int)));
            assert(Seq::new((i + 1) as nat, warnings_of) == done_warnings.push(
                warnings_of(i as int),
            ));
            done_tasks.lemma_flatten_push(tasks_of(i as int));
            done_warnings.lemma_flatten_push(warnings_of(i as int));
            assert(library@.entries[i as int] == library.entries[i as int]@);
        }
        if i < listings.len() {
            assert(outcomes[i as int] == listing_view(listings[i as int]));
            match &listings[i] {
                Ok(urls) => {
                    let mut more = diff(&library.entries[i], urls);
                    assert(views(tasks@ + more@) == views(tasks@) + views(more@));
                    tasks.append(&mut more);
                },
                Err(error) => {
                    let line = warn_listing(&library.entries[i], error);
                    assert(views(warnings@.push(line)) == views(warnings@) + seq![line@]);
                    warnings.push(line);
                },
            }
        }
        i += 1;
    }
    proof {
        if library@.wf() {
            plan_schedules_each_track_once(library@, outcomes);
            assert forall|a: int, b: int| 0 <= a < b < tasks.len() implies (
            #[trigger] tasks[a]).entry_id@ != (#[trigger] tasks[b]).entry_id@
                || tasks[a].track_url@ != tasks[b].track_url@ by {
                assert(views(tasks@)[a] == tasks[a]@);
                assert(views(tasks@)[b] == tasks[b]@);
            }
        }
    }
    Plan { tasks, warnings }
}

/// What is missing holds no URL twice, and holds the listed URLs that are not
/// known, and no others.
pub proof fn lemma_missing(known: Seq<Seq<char>>, listing: Seq<Seq<char>>)
    ensures
        missing(known, listing).no_duplicates(),
        forall|url: Seq<char>|
            #![trigger missing(known, listing).contains(url)]
            missing(known, listing).contains(url) <==> listing.contains(url) && !known.contains(
                url,
            ),
    decreases listing.len(),
{
    if listing.len() > 0 {
        let earlier = listing.drop_last();
        let url = listing.last();
        lemma_missing(known, earlier);
        lemma_last_contains(listing);
        if !(known.contains(url) || earlier.contains(url)) {
            let found = missing(known, earlier);
            let grown = found.push(url);
            lemma_last_contains(grown);
            assert(grown.drop_last() == found);
            assert forall|i: int, j: int|
                0 <= i < grown.len() && 0 <= j < grown.len() && i != j implies grown[i]
                != grown[j] by {
                if i == found.len() {
                    assert(found.contains(found[j]));
                } else if j == found.len() {
                    assert(found.contains(found[i]));
                }
            }
        }
    }
}

/// Every task of an entry's listing is for that entry, and for a URL that the
/// listing holds and the entry has not recorded; no two of them share a URL.
pub proof fn lemma_entry_tasks(entry: EntryView, listing: Seq<Seq<char>>)
    ensures
        forall|k: int|
            0 <= k < entry_tasks(entry, listing).len() ==> {
                let task = #[trigger] entry_tasks(entry, listing)[k];
                &&& task == task_for(entry, task.track_url)
                &&& listing.contains(task.track_url)
                &&& !entry.urls().contains(task.track_url)
            },
        forall|k: int, m: int|
            0 <= k < m < entry_tasks(entry, listing).len() ==> (#[trigger] entry_tasks(
                entry,
                listing,
            )[k]).track_url != (#[trigger] entry_tasks(entry, listing)[m]).track_url,
        forall|url: Seq<char>|
            listing.contains(url) && !entry.urls().contains(url) ==> entry_tasks(
                entry,
                listing,
            ).contains(#[trigger] task_for(entry, url)),
{
    let found = missing(entry.urls(), listing);
    let tasks = entry_tasks(entry, listing);
    lemma_missing(entry.urls(), listing);
    assert forall|k: int| 0 <= k < tasks.len() implies {
        let task = #[trigger] tasks[k];
        &&& task == task_for(entry, task.track_url)
        &&& listing.contains(task.track_url)
        &&& !entry.urls().contains(task.track_url)
    } by {
        assert(found.contains(found[k]));
    }
    assert forall|url: Seq<char>|
        listing.contains(url) && !entry.urls().contains(url) implies tasks.contains(
        #[trigger] task_for(entry, url),
    ) by {
        assert(found.contains(url));
        let k = choose|k: int| 0 <= k < found.len() && found[k] == url;
        assert(tasks[k] == task_for(entry, url));
    }
}

/// The tasks of the first `n + 1` entries are those of the first `n` and then
/// those of the next.
pub proof fn lemma_planned_next(
    library: LibraryView,
    listings: Seq<ListingView>,
    n: nat,
)
    ensures
        planned_upto(library, listings, n + 1) == planned_upto(library, listings, n) + tasks_at(
            library,
            listings,
            n as int,
        ),
        planned_upto(library, listings, 0) == Seq::<TaskView>::empty(),
{
    lemma_flatten_next(|i: int| tasks_at(library, listings, i), n);
    assert(Seq::new(0, |i: int| tasks_at(library, listings, i)) == Seq::<Seq<TaskView>>::empty());
}

/// A task is planned exactly where the listing of some entry gives rise to it.
pub proof fn lemma_planned_contains(
    library: LibraryView,
    listings: Seq<ListingView>,
    n: nat,
)
    ensures
        forall|task: TaskView|
            #![trigger planned_upto(library, listings, n).contains(task)]
            planned_upto(library, listings, n).contains(task) <==> exists|i: int|
                0 <= i < n && #[trigger] tasks_at(library, listings, i).contains(task),
    decreases n,
{
    lemma_planned_next(library, listings, 0);
    if n > 0 {
        let m = (n - 1) as nat;
        lemma_planned_contains(library, listings, m);
        lemma_planned_next(library, listings, m);
        lemma_add_contains(
            planned_upto(library, listings, m),
            tasks_at(library, listings, m as int),
        );
        assert forall|task: TaskView|
            planned_upto(library, listings, n).contains(task) <==> exists|i: int|
                0 <= i < n && #[trigger] tasks_at(library, listings, i).contains(task) by {
            if planned_upto(library, listings, n).contains(task) {
                if planned_upto(library, listings, m).contains(task) {
                    let i = choose|i: int|
                        0 <= i < m && #[trigger] tasks_at(library, listings, i).contains(task);
                    assert(0 <= i < n && tasks_at(library, listings, i).contains(task));
                } else {
                    assert(tasks_at(library, listings, m as int).contains(task));
                }
            }
            if exists|i: int|
                0 <= i < n && #[trigger] tasks_at(library, listings, i).contains(task) {
                let i = choose|i: int|
                    0 <= i < n && #[trigger] tasks_at(library, listings, i).contains(task);
                if i < m {
                    assert(planned_upto(library, listings, m).contains(task));
                }
            }
        }
    } else {
        assert forall|task: TaskView|
            !(#[trigger] planned_upto(library, listings, n).contains(task)) by {
            if planned_upto(library, listings, n).contains(task) {
                let k = choose|k: int|
                    0 <= k < planned_upto(library, listings, n).len() && planned_upto(
                        library,
                        listings,
                        n,
                    )[k] == task;
            }
        }
    }
}

/// Every task of a plan is for an entry of the library, and for a URL that the
/// entry's listing holds and the entry has not recorded.
pub proof fn plan_schedules_only_new_tracks(
    library: LibraryView,
    listings: Seq<ListingView>,
    task: TaskView,
) -> (i: int)
    requires
        planned(library, listings).contains(task),
    ensures
        0 <= i < library.entries.len(),
        i < listings.len(),
        listings[i] is Ok,
        task == task_for(library.entries[i], task.track_url),
        listings[i]->Ok_0.contains(task.track_url),
        !library.entries[i].urls().contains(task.track_url),
{
    let n = library.entries.len();
    lemma_planned_contains(library, listings, n);
    assert(planned_upto(library, listings, n).contains(task));
    let i = choose|i: int| 0 <= i < n && #[trigger] tasks_at(library, listings, i).contains(task);
    let tasks = tasks_at(library, listings, i);
    let k = choose|k: int| 0 <= k < tasks.len() && tasks[k] == task;
    lemma_entry_tasks(library.entries[i], listings[i]->Ok_0);
    i
}

/// The tasks at one position are all for the entry at that position.
proof fn lemma_tasks_at_entry(
    library: LibraryView,
    listings: Seq<ListingView>,
    i: int,
)
    requires
        0 <= i < library.entries.len(),
    ensures
        forall|k: int|
            0 <= k < tasks_at(library, listings, i).len() ==> (#[trigger] tasks_at(
                library,
                listings,
                i,
            )[k]).entry_id == library.entries[i].id,
        forall|k: int, m: int|
            0 <= k < m < tasks_at(library, listings, i).len() ==> (#[trigger] tasks_at(
                library,
                listings,
                i,
            )[k]).track_url != (#[trigger] tasks_at(library, listings, i)[m]).track_url,
{
    if i < listings.len() && listings[i] is Ok {
        lemma_entry_tasks(library.entries[i], listings[i]->Ok_0);
    }
}

/// Among the tasks of the first `n` entries, no two are for the same track of the
/// same entry.
proof fn lemma_upto_distinct(
    library: LibraryView,
    listings: Seq<ListingView>,
    n: nat,
)
    requires
        library.wf(),
        n <= library.entries.len(),
    ensures
        forall|a: int, b: int|
            #![trigger planned_upto(library, listings, n)[a], planned_upto(library, listings, n)[b]]
            0 <= a < b < planned_upto(library, listings, n).len() ==> {
                let first = planned_upto(library, listings, n)[a];
                let second = planned_upto(library, listings, n)[b];
                first.entry_id != second.entry_id || first.track_url != second.track_url
            },
    decreases n,
{
    lemma_planned_next(library, listings, 0);
    if n > 0 {
        let m = (n - 1) as nat;
        let before = planned_upto(library, listings, m);
        let next = tasks_at(library, listings, m as int);
        let all = planned_upto(library, listings, n);
        lemma_upto_distinct(library, listings, m);
        lemma_planned_next(library, listings, m);
        lemma_planned_contains(library, listings, m);
        lemma_tasks_at_entry(library, listings, m as int);
        assert forall|a: int, b: int| 0 <= a < b < all.len() implies {
            let first = #[trigger] all[a];
            let second = #[trigger] all[b];
            first.entry_id != second.entry_id || first.track_url != second.track_url
        } by {
            if b < before.len() {
                assert(all[a] == before[a] && all[b] == before[b]);
            } else if a >= before.len() {
                assert(all[a] == next[a - before.len()]);
                assert(all[b] == next[b - before.len()]);
            } else {
                assert(all[a] == before[a]);
                assert(all[b] == next[b - before.len()]);
                assert(before.contains(before[a]));
                let i = choose|i: int|
                    0 <= i < m && #[trigger] tasks_at(library, listings, i).contains(before[a]);
                let tasks = tasks_at(library, listings, i);
                let k = choose|k: int| 0 <= k < tasks.len() && tasks[k] == before[a];
                lemma_tasks_at_entry(library, listings, i);
                assert(library.ids()[i] == library.entries[i].id);
                assert(library.ids()[m as int] == library.entries[m as int].id);
            }
        }
    }
}

/// In one plan no two tasks are for the same track of the same entry, even where
/// a listing holds a URL more than once.
pub proof fn plan_schedules_each_track_once(
    library: LibraryView,
    listings: Seq<ListingView>,
)
    requires
        library.wf(),
    ensures
        forall|a: int, b: int|
            #![trigger planned(library, listings)[a], planned(library, listings)[b]]
            0 <= a < b < planned(library, listings).len() ==> {
                let first = planned(library, listings)[a];
                let second = planned(library, listings)[b];
                first.entry_id != second.entry_id || first.track_url != second.track_url
            },
{
    lemma_upto_distinct(library, listings, library.entries.len());
}

/// The test that picks the tasks of one entry.
pub open spec fn is_for(id: Seq<char>) -> spec_fn(TaskView) -> bool {
    |task: TaskView| task.entry_id == id
}

/// Of the tasks of the first `n` entries, those for one entry are the tasks of
/// that entry's own listing.
proof fn lemma_upto_filter(
    library: LibraryView,
    listings: Seq<ListingView>,
    i: int,
    n: nat,
)
    requires
        library.wf(),
        0 <= i < library.entries.len(),
        n <= library.entries.len(),
    ensures
        planned_upto(library, listings, n).filter(is_for(library.entries[i].id)) == if i < n {
            tasks_at(library, listings, i)
        } else {
            Seq::empty()
        },
    decreases n,
{
    let keep = is_for(library.entries[i].id);
    lemma_planned_next(library, listings, 0);
    if n > 0 {
        let m = (n - 1) as nat;
        let before = planned_upto(library, listings, m);
        let next = tasks_at(library, listings, m as int);
        lemma_upto_filter(library, listings, i, m);
        lemma_planned_next(library, listings, m);
        lemma_tasks_at_entry(library, listings, m as int);
        Seq::filter_distributes_over_add(before, next, keep);
        if m == i {
            lemma_filter_all(next, keep);
        } else {
            assert(library.ids()[i] == library.entries[i].id);
            assert(library.ids()[m as int] == library.entries[m as int].id);
            lemma_filter_none(next, keep);
        }
    } else {
        lemma_filter_none(planned_upto(library, listings, 0), keep);
    }
}

/// Each entry is planned by itself: the tasks that a plan holds for an entry are
/// those of the entry's own listing, whatever the other listings hold and
/// whichever of them failed.
pub proof fn plan_treats_entries_apart(
    library: LibraryView,
    listings: Seq<ListingView>,
    i: int,
)
    requires
        library.wf(),
        0 <= i < library.entries.len(),
    ensures
        planned(library, listings).filter(is_for(library.entries[i].id)) == tasks_at(
            library,
            listings,
            i,
        ),
{
    lemma_upto_filter(library, listings, i, library.entries.len());
}

} // verus!
