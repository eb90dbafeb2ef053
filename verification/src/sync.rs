//! What holds of a whole synchronisation run: of the plan that
//! [`plan`](crate::diff::plan) makes and of the library that
//! [`merge`](crate::merge::merge) leaves, taken together.
//!
//! A run reads the library, asks for the listing of every entry, plans the
//! downloads, lets the workers make them, and merges those that went through, in
//! the order in which they return. The library does the planning, the settling of
//! each download and the merging; what is proved here holds whatever the order of
//! return, and whichever listings and downloads fail.

use crate::db::{LibraryView, TrackView};
use crate::diff::{
    lemma_entry_tasks, lemma_missing, lemma_planned_contains, lemma_planned_next, missing,
    plan_schedules_only_new_tracks, planned, planned_upto, task_for, tasks_at, ListingView,
    TaskView,
};
use crate::facts::{lemma_filter_contains, lemma_filter_distinct};
use crate::merge::{is_under, lemma_merged, merged, tracks_for, CompletedView};
use vstd::prelude::*;

verus! {

/// The downloads are of tasks of the plan, and no task was downloaded twice.
pub open spec fn completes(tasks: Seq<TaskView>, results: Seq<CompletedView>) -> bool {
    &&& forall|j: int| 0 <= j < results.len() ==> tasks.contains((#[trigger] results[j]).task)
    &&& forall|j: int, k: int|
        0 <= j < k < results.len() ==> (#[trigger] results[j]).task != (#[trigger] results[k]).task
}

/// The URLs that a run of downloads records under one key are new to the entry
/// under that key, and no two of them are the same.
proof fn lemma_new_urls(
    library: LibraryView,
    listings: Seq<ListingView>,
    results: Seq<CompletedView>,
    i: int,
)
    requires
        library.wf(),
        completes(planned(library, listings), results),
        0 <= i < library.entries.len(),
    ensures
        ({
            let found = tracks_for(results, library.entries[i].id);
            &&& forall|k: int|
                0 <= k < found.len() ==> !library.entries[i].urls().contains(
                    (#[trigger] found[k]).url,
                )
            &&& forall|k: int, m: int|
                0 <= k < m < found.len() ==> (#[trigger] found[k]).url != (#[trigger] found[m]).url
        }),
{
    let id = library.entries[i].id;
    let under = results.filter(is_under(id));
    let found = tracks_for(results, id);
    lemma_filter_contains(results, is_under(id));
    lemma_filter_distinct(results, is_under(id), |done: CompletedView| done.task);
    assert forall|k: int| 0 <= k < under.len() implies (#[trigger] under[k]).task == task_for(
        library.entries[i],
        under[k].task.track_url,
    ) && !library.entries[i].urls().contains(under[k].task.track_url) by {
        assert(under.contains(under[k]));
        let j = choose|j: int| 0 <= j < results.len() && results[j] == under[k];
        let at = plan_schedules_only_new_tracks(library, listings, results[j].task);
        assert(library.ids()[at] == library.entries[at].id);
        assert(library.ids()[i] == library.entries[i].id);
    }
    assert forall|k: int| 0 <= k < found.len() implies !library.entries[i].urls().contains(
        (#[trigger] found[k]).url,
    ) by {
        assert(found[k] == under[k].track());
    }
    assert forall|k: int, m: int| 0 <= k < m < found.len() implies (#[trigger] found[k]).url != (
    #[trigger] found[m]).url by {
        assert(found[k] == under[k].track());
        assert(found[m] == under[m].track());
    }
}

/// Merging the downloads of a plan keeps the recorded tracks distinct: where no
/// two entries share a key and no entry holds a URL twice before, none does after.
pub proof fn merge_keeps_tracks_distinct(
    library: LibraryView,
    listings: Seq<ListingView>,
    results: Seq<CompletedView>,
)
    requires
        library.wf(),
        library.deduplicated(),
        completes(planned(library, listings), results),
    ensures
        merged(library, results).wf(),
        merged(library, results).deduplicated(),
{
    let after = merged(library, results);
    lemma_merged(library, results);
    assert forall|i: int| 0 <= i < after.entries.len() implies (
    #[trigger] after.entries[i]).deduplicated() by {
        let had = library.entries[i].urls();
        let found = tracks_for(results, library.entries[i].id);
        let new = found.map_values(|track: TrackView| track.url);
        lemma_new_urls(library, listings, results, i);
        assert(after.entries[i].urls() == had + new);
        assert(library.entries[i].deduplicated());
        assert forall|k: int, m: int| 0 <= k < had.len() && 0 <= m < new.len() implies had[k]
            != new[m] by {
            assert(had.contains(had[k]));
            assert(new[m] == found[m].url);
        }
        assert(new.no_duplicates()) by {
            assert forall|k: int, m: int|
                0 <= k < new.len() && 0 <= m < new.len() && k != m implies new[k] != new[m] by {
                assert(new[k] == found[k].url && new[m] == found[m].url);
            }
        }
        vstd::seq_lib::lemma_no_dup_in_concat(had, new);
    }
}

/// A download of a plan is recorded once: the library holds an entry under the
/// task's key, and after the merge that entry holds the track with the task's URL
/// and the file, and holds that URL one time.
pub proof fn merge_records_each_download_once(
    library: LibraryView,
    listings: Seq<ListingView>,
    results: Seq<CompletedView>,
    j: int,
) -> (i: int)
    requires
        library.wf(),
        library.deduplicated(),
        completes(planned(library, listings), results),
        0 <= j < results.len(),
    ensures
        0 <= i < library.entries.len(),
        library.entries[i].id == results[j].task.entry_id,
        merged(library, results).entries[i].tracks.contains(results[j].track()),
        merged(library, results).entries[i].urls().to_multiset().count(results[j].task.track_url)
            == 1,
{
    let i = plan_schedules_only_new_tracks(library, listings, results[j].task);
    let after = merged(library, results).entries[i];
    let id = library.entries[i].id;
    let under = results.filter(is_under(id));
    let found = tracks_for(results, id);
    lemma_merged(library, results);
    merge_keeps_tracks_distinct(library, listings, results);
    lemma_filter_contains(results, is_under(id));
    assert(under.contains(results[j]));
    let k = choose|k: int| 0 <= k < under.len() && under[k] == results[j];
    assert(found[k] == results[j].track());
    assert(after.tracks[library.entries[i].tracks.len() + k] == results[j].track());
    assert(after.urls()[library.entries[i].tracks.len() + k] == results[j].task.track_url);
    assert(after.deduplicated());
    after.urls().lemma_multiset_has_no_duplicates();
    vstd::seq_lib::to_multiset_contains(after.urls(), results[j].task.track_url);
    i
}

/// Nothing is missing where every listed URL is known.
proof fn lemma_nothing_missing(known: Seq<Seq<char>>, listing: Seq<Seq<char>>)
    requires
        forall|k: int| 0 <= k < listing.len() ==> known.contains(#[trigger] listing[k]),
    ensures
        missing(known, listing) == Seq::<Seq<char>>::empty(),
{
    let found = missing(known, listing);
    lemma_missing(known, listing);
    if found.len() > 0 {
        assert(found.contains(found[0]));
        let k = choose|k: int| 0 <= k < listing.len() && listing[k] == found[0];
    }
}

/// A second run changes nothing: once every download of a plan has been merged,
/// the same listings give rise to no task, and merging what a run can then bring
/// leaves the library as the first run left it.
pub proof fn second_run_changes_nothing(
    library: LibraryView,
    listings: Seq<ListingView>,
    results: Seq<CompletedView>,
    again: Seq<CompletedView>,
)
    requires
        forall|k: int|
            0 <= k < planned(library, listings).len() ==> exists|j: int|
                0 <= j < results.len() && (#[trigger] results[j]).task == #[trigger] planned(
                    library,
                    listings,
                )[k],
        completes(planned(merged(library, results), listings), again),
    ensures
        planned(merged(library, results), listings) == Seq::<TaskView>::empty(),
        merged(merged(library, results), again) == merged(library, results),
{
    let after = merged(library, results);
    let n = library.entries.len();
    lemma_merged(library, results);
    lemma_planned_contains(library, listings, n);
    assert forall|i: int| 0 <= i < n implies #[trigger] tasks_at(after, listings, i)
        == Seq::<TaskView>::empty() by {
        if i < listings.len() && listings[i] is Ok {
            let listing = listings[i]->Ok_0;
            let entry = library.entries[i];
            let under = results.filter(is_under(entry.id));
            let found = tracks_for(results, entry.id);
            lemma_entry_tasks(entry, listing);
            lemma_filter_contains(results, is_under(entry.id));
            assert forall|k: int| 0 <= k < listing.len() implies after.entries[i].urls().contains(
                #[trigger] listing[k],
            ) by {
                let url = listing[k];
                assert(listing.contains(url));
                if entry.urls().contains(url) {
                    let m = choose|m: int| 0 <= m < entry.urls().len() && entry.urls()[m] == url;
                    assert(after.entries[i].urls()[m] == url);
                } else {
                    let task = task_for(entry, url);
                    assert(tasks_at(library, listings, i).contains(task));
                    assert(planned_upto(library, listings, n).contains(task));
                    let p = choose|p: int|
                        0 <= p < planned(library, listings).len() && planned(library, listings)[p]
                            == task;
                    let j = choose|j: int|
                        0 <= j < results.len() && (#[trigger] results[j]).task == planned(
                            library,
                            listings,
                        )[p];
                    assert(results.contains(results[j]));
                    assert(under.contains(results[j]));
                    let m = choose|m: int| 0 <= m < under.len() && under[m] == results[j];
                    assert(found[m].url == url);
                    assert(after.entries[i].urls()[entry.tracks.len() + m] == url);
                }
            }
            lemma_nothing_missing(after.entries[i].urls(), listing);
        }
    }
    lemma_all_empty(after, listings, n);
    if again.len() > 0 {
        assert(planned(after, listings).contains(again[0].task));
    }
    assert(again == Seq::<CompletedView>::empty());
}

/// Where no entry gives rise to a task, the plan is empty.
proof fn lemma_all_empty(
    library: LibraryView,
    listings: Seq<ListingView>,
    n: nat,
)
    requires
        forall|i: int|
            0 <= i < n ==> #[trigger] tasks_at(library, listings, i) == Seq::<TaskView>::empty(),
    ensures
        planned_upto(library, listings, n) == Seq::<TaskView>::empty(),
    decreases n,
{
    lemma_planned_next(library, listings, 0);
    if n > 0 {
        lemma_all_empty(library, listings, (n - 1) as nat);
        lemma_planned_next(library, listings, (n - 1) as nat);
        assert(tasks_at(library, listings, n - 1) == Seq::<TaskView>::empty());
    }
}

} // verus!
