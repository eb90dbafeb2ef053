//! What the commands decide once the library has been read.

use crate::db::{entry_id, key_of, Entry, EntryType, EntryView, Library, LibraryView};
use crate::error::OngakuError;
use crate::yt_dlp::{is_supported_url, supported};
use vstd::prelude::*;

verus! {

/// What the remote side tells of a collection that is to be added.
#[derive(Debug, Clone, PartialEq, Eq)]
pub struct EntryMetadata {
    /// The identifier that the remote side gives the collection.
    pub remote_id: String,
    /// The kind of collection.
    pub kind: EntryType,
    /// The name shown to the user.
    pub name: String,
    /// The URL under which the listing is asked for.
    pub url: String,
}

/// The entry that is added for a collection: under the collection's key, with no
/// track yet.
pub open spec fn new_entry(original_url: Seq<char>, found: EntryMetadata) -> EntryView {
    EntryView {
        id: key_of(found.kind, found.remote_id@),
        kind: found.kind,
        name: found.name@,
        original_url,
        url: found.url@,
        tracks: Seq::empty(),
    }
}

/// Refuses a URL of no supported kind, before anything is asked of the remote
/// side.
pub fn require_supported(url: &str) -> (result: Result<(), OngakuError>)
    ensures
        match result {
            Ok(_) => supported(url@),
            Err(error) => {
                &&& !supported(url@)
                &&& error matches OngakuError::UnsupportedUrl(refused) && refused@ == url@
            },
        },
{
    if is_supported_url(url) {
        Ok(())
    } else {
        Err(OngakuError::UnsupportedUrl(String::from_str(url)))
    }
}

/// Adds a collection to the library.
///
/// `original_url` is the URL that the user gave, `found` what the remote side
/// tells of it. A URL of no supported kind is refused, and then a collection whose
/// key the library already holds; the error names the URL, or the collection. In
/// both cases the library stays as it is. Otherwise the entry comes last, with no
/// track.
pub fn add(library: &mut Library, original_url: &str, found: EntryMetadata) -> (result: Result<
    (),
    OngakuError,
>)
    ensures
        match result {
            Ok(_) => {
                &&& supported(original_url@)
                &&& !old(library)@.has(key_of(found.kind, found.remote_id@))
                &&& final(library)@ == (LibraryView {
                    version: old(library)@.version,
                    entries: old(library)@.entries.push(new_entry(original_url@, found)),
                })
            },
            Err(error) => {
                &&& final(library)@ == old(library)@
                &&& if !supported(original_url@) {
                    error matches OngakuError::UnsupportedUrl(url) && url@ == original_url@
                } else {
                    &&& old(library)@.has(key_of(found.kind, found.remote_id@))
                    &&& error matches OngakuError::AlreadyInLibrary(name) && name@ == found.name@
                }
            },
        },
        old(library)@.wf() ==> final(library)@.wf(),
        old(library)@.deduplicated() ==> final(library)@.deduplicated(),
{
    match require_supported(original_url) {
        Ok(_) => {},
        Err(error) => {
            return Err(error);
        },
    }
    let id = entry_id(found.kind, found.remote_id.as_str());
    if library.contains(id.as_str()) {
        return Err(OngakuError::AlreadyInLibrary(found.name));
    }
    let ghost before = library@;
    let entry = Entry {
        id,
        kind: found.kind,
        name: found.name,
        original_url: String::from_str(original_url),
        url: found.url,
        tracks: Vec::new(),
    };
    proof {
        assert(entry@.tracks == Seq::<crate::db::TrackView>::empty());
        assert(entry@ == new_entry(original_url@, found));
        assert(library.entries@.push(entry).map_values(|entry: Entry| entry@)
            == library.entries@.map_values(|entry: Entry| entry@).push(entry@));
    }
    library.entries.push(entry);
    proof {
        let after = library@;
        let had = before.ids();
        let has = after.ids();
        assert(after.entries == before.entries.push(new_entry(original_url@, found)));
        assert(has == had.push(key_of(found.kind, found.remote_id@)));
        if before.wf() {
            assert forall|i: int, j: int|
                0 <= i < has.len() && 0 <= j < has.len() && i != j implies has[i] != has[j] by {
                if i == had.len() {
                    assert(had.contains(had[j]));
                } else if j == had.len() {
                    assert(had.contains(had[i]));
                }
            }
        }
        if before.deduplicated() {
            assert forall|i: int| 0 <= i < after.entries.len() implies (
            #[trigger] after.entries[i]).deduplicated() by {
                if i < before.entries.len() {
                    assert(after.entries[i] == before.entries[i]);
                } else {
                    assert(after.entries[i].urls() == Seq::<Seq<char>>::empty());
                }
            }
        }
    }
    Ok(())
}

} // verus!
