//! Stream catalogs: the typed records a stream of capture files turns into.
//!
//! A catalog entry is a path together with the file's size in bytes; the
//! builder derives the stem of each path and parses the capture instant from
//! it. Any stem that does not carry a well-formed timestamp aborts the whole
//! build: there are no partial catalogs.

use vstd::prelude::*;

use crate::StreamError;
use crate::files::path_stem;
use crate::files::stem_of_path;
use crate::timestamp::extract_timestamp;
use crate::timestamp::stem_matches;
use crate::timestamp::stem_timestamp_ms;

verus! {

/// One capture file of a stream: its path, the stem of that path, the capture
/// instant parsed from the stem (milliseconds from the start of 1900), and
/// the file's size in bytes. Immutable once built.
#[derive(Debug)]
pub struct Record {
    pub path: String,
    pub stem: String,
    pub captured_at: u64,
    pub size_bytes: u64,
}

/// Whether the path `path` has a stem with a well-formed timestamp.
pub open spec fn entry_parses(path: Seq<char>) -> bool {
    stem_matches(stem_of_path(path))
}

/// Whether `rec` is the record that the catalog builder derives from the
/// entry `(path, size)`.
pub open spec fn record_for(path: Seq<char>, size: u64, rec: Record) -> bool {
    &&& rec.path@ == path
    &&& rec.stem@ == stem_of_path(path)
    &&& rec.captured_at == stem_timestamp_ms(stem_of_path(path))
    &&& rec.size_bytes == size
}

/// Whether the paths of the records of `cat` are pairwise distinct.
pub open spec fn paths_distinct(cat: Seq<Record>) -> bool {
    forall|i: int, j: int|
        0 <= i < j < cat.len() ==> #[trigger] cat[i].path@ != #[trigger] cat[j].path@
}

/// Builds the catalog of one stream from its entries, each a path with the
/// file's size in bytes. Succeeds if and only if every path's stem carries a
/// well-formed timestamp; the first malformed stem aborts the build with a
/// `ParseError` naming that stem.
pub fn build_catalog(entries: &Vec<(String, u64)>) -> (r: Result<Vec<Record>, StreamError>)
    ensures
        (r is Ok <==> forall|i: int|
            0 <= i < entries@.len() ==> entry_parses(#[trigger] entries@[i].0@)),
        r is Ok ==> r->Ok_0@.len() == entries@.len() && (forall|i: int|
            0 <= i < entries@.len() ==> record_for(
                entries@[i].0@,
                entries@[i].1,
                #[trigger] r->Ok_0@[i],
            )),
        r is Err ==> exists|i: int|
            {
                &&& 0 <= i < entries@.len()
                &&& !entry_parses(#[trigger] entries@[i].0@)
                &&& (forall|j: int| 0 <= j < i ==> entry_parses(#[trigger] entries@[j].0@))
                &&& (r->Err_0 matches StreamError::ParseError { stem: t } && t@ == stem_of_path(
                    entries@[i].0@,
                ))
            },
{
    let mut cat: Vec<Record> = Vec::new();
    let mut i: usize = 0;
    while i < entries.len()
        invariant
            i <= entries@.len(),
            cat@.len() == i,
            forall|j: int| 0 <= j < i ==> entry_parses(#[trigger] entries@[j].0@),
            forall|j: int|
                0 <= j < i ==> record_for(entries@[j].0@, entries@[j].1, #[trigger] cat@[j]),
        decreases entries@.len() - i,
    {
        let stem = path_stem(&entries[i].0);
        match extract_timestamp(stem.as_str()) {
            Ok(ts) => {
                let rec = Record {
                    path: entries[i].0.clone(),
                    stem,
                    captured_at: ts,
                    size_bytes: entries[i].1,
                };
                cat.push(rec);
            },
            Err(e) => {
                return Err(e);
            },
        }
        i = i + 1;
    }
    Ok(cat)
}

} // verus!
