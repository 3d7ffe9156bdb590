//! The report files inside a downloaded zip archive: opening the archive,
//! finding the files whose names mark them, and reading them as text.
use std::io::{Cursor, Read};
use vstd::prelude::*;
use zip::result::ZipError;
use zip::ZipArchive;

use crate::text::{contains_text, has_substring};

verus! {

#[verifier::external_type_specification]
#[verifier::external_body]
#[verifier::reject_recursive_types(R)]
pub struct ExZipArchive<R>(ZipArchive<R>);

#[verifier::external_type_specification]
#[verifier::external_body]
#[verifier::reject_recursive_types(T)]
pub struct ExCursor<T>(Cursor<T>);

#[verifier::external_type_specification]
#[verifier::external_body]
pub struct ExZipError(ZipError);

/// An archive read from bytes held in memory.
pub type MemoryArchive = ZipArchive<Cursor<Vec<u8>>>;

/// What the zip crate reports of one entry of an archive.
pub struct ZipEntry {
    /// `ZipArchive::by_index` opens the entry.
    pub readable: bool,
    /// The entry's `enclosed_name`, as text; `None` where the name is not a
    /// safe relative path (by the path rules of std on Unix-like systems,
    /// where the reports run).
    pub name: Option<Seq<char>>,
    /// The entry's bytes; `None` where reading them fails.
    pub content: Option<Seq<u8>>,
}

/// What `ZipArchive::new` finds in the bytes: the archive's entries in order;
/// `None` where the bytes are not a zip archive that it reads.
pub uninterp spec fn zip_archive_read(bytes: Seq<u8>) -> Option<Seq<ZipEntry>>;

/// The entries of an open archive.
pub uninterp spec fn archive_entries(archive: MemoryArchive) -> Seq<ZipEntry>;

/// The text that std's `String::from_utf8_lossy` makes of the bytes.
pub uninterp spec fn utf8_lossy(bytes: Seq<u8>) -> Seq<char>;

/// Opens an archive over bytes in memory with `ZipArchive::new`.
/// Claims that it succeeds exactly where the named `zip_archive_read` of the
/// bytes is `Some`, and that the archive then holds those entries.
#[verifier::external_body]
fn zip_open(bytes: Vec<u8>) -> (r: Result<MemoryArchive, ZipError>)
    ensures
        r is Ok <==> zip_archive_read(bytes@) is Some,
        r matches Ok(a) ==> zip_archive_read(bytes@) == Some(archive_entries(a)),
{
    ZipArchive::new(Cursor::new(bytes))
}

/// The number of entries, from `ZipArchive::len`.
/// Claims that it is the length of the archive's entries.
#[verifier::external_body]
fn zip_len(archive: &MemoryArchive) -> (n: usize)
    ensures
        n == archive_entries(*archive).len(),
{
    archive.len()
}

/// Opens entry `i` with `ZipArchive::by_index` and reads its `enclosed_name`,
/// as a lossy string.
/// Claims that opening succeeds exactly where the entry is readable, that the
/// name is the entry's, and that the archive's entries stay the same.
#[verifier::external_body]
fn zip_entry_name(archive: &mut MemoryArchive, i: usize) -> (r: Result<Option<String>, ZipError>)
    requires
        i < archive_entries(*old(archive)).len(),
    ensures
        archive_entries(*final(archive)) == archive_entries(*old(archive)),
        r is Ok <==> archive_entries(*old(archive))[i as int].readable,
        r matches Ok(n) ==> {
            &&& (n is Some <==> archive_entries(*old(archive))[i as int].name is Some)
            &&& (n matches Some(t) ==> Some(t@) == archive_entries(*old(archive))[i as int].name)
        },
{
    let file = archive.by_index(i)?;
    match file.enclosed_name() {
        Some(path) => Ok(Some(path.to_string_lossy().to_string())),
        None => Ok(None),
    }
}

/// Opens entry `i` with `ZipArchive::by_index` and reads all its bytes with
/// `Read::read_to_end`.
/// Claims that opening succeeds exactly where the entry is readable, that the
/// bytes are the entry's (`None` where reading fails), and that the archive's
/// entries stay the same.
#[verifier::external_body]
fn zip_entry_bytes(archive: &mut MemoryArchive, i: usize) -> (r: Result<Option<Vec<u8>>, ZipError>)
    requires
        i < archive_entries(*old(archive)).len(),
    ensures
        archive_entries(*final(archive)) == archive_entries(*old(archive)),
        r is Ok <==> archive_entries(*old(archive))[i as int].readable,
        r matches Ok(c) ==> {
            &&& (c is Some <==> archive_entries(*old(archive))[i as int].content is Some)
            &&& (c matches Some(b) ==> Some(b@) == archive_entries(*old(archive))[i as int].content)
        },
{
    let mut file = archive.by_index(i)?;
    let mut content: Vec<u8> = Vec::new();
    match file.read_to_end(&mut content) {
        Ok(_) => Ok(Some(content)),
        Err(_) => Ok(None),
    }
}

/// Decodes bytes as UTF-8 with std's `String::from_utf8_lossy`.
/// Claims that the result is the named `utf8_lossy` of the bytes, and, as std's
/// documentation says, that valid UTF-8 comes back unchanged.
#[verifier::external_body]
fn lossy_text(bytes: &Vec<u8>) -> (r: String)
    ensures
        r@ == utf8_lossy(bytes@),
        vstd::utf8::valid_utf8(bytes@) ==> r@ == vstd::utf8::decode_utf8(bytes@),
{
    String::from_utf8_lossy(bytes).to_string()
}

/// Why an archive's report file could not be had.
#[derive(Clone, Copy, Debug, PartialEq, Eq, Structural)]
pub enum ArchiveError {
    /// The bytes are not a zip archive.
    NotAnArchive,
    /// An entry could not be opened.
    UnreadableEntry,
    /// An entry's name is not a safe relative path.
    UnsafeName,
    /// An entry's bytes could not be read.
    UnreadableContent,
}

/// Opens an archive over downloaded bytes.
pub fn open_zip_archive(bytes: Vec<u8>) -> (r: Result<MemoryArchive, ArchiveError>)
    ensures
        r is Ok <==> zip_archive_read(bytes@) is Some,
        r matches Ok(a) ==> zip_archive_read(bytes@) == Some(archive_entries(a)),
        r matches Err(e) ==> e == ArchiveError::NotAnArchive,
{
    match zip_open(bytes) {
        Ok(a) => Ok(a),
        Err(_) => Err(ArchiveError::NotAnArchive),
    }
}

/// Looking through the entries from `i` on, in order, as the reports do: an
/// unreadable entry or an unsafe name stops the search with an error; the
/// first entry whose name contains `marker` is the answer, unless its bytes
/// cannot be read.
pub open spec fn first_marked(es: Seq<ZipEntry>, marker: Seq<char>, i: int) -> Result<Option<int>, ArchiveError>
    decreases es.len() - i,
{
    if i >= es.len() || i < 0 {
        Ok(None)
    } else if !es[i].readable {
        Err(ArchiveError::UnreadableEntry)
    } else if es[i].name is None {
        Err(ArchiveError::UnsafeName)
    } else if has_substring(es[i].name.unwrap(), marker) {
        if es[i].content is None {
            Err(ArchiveError::UnreadableContent)
        } else {
            Ok(Some(i))
        }
    } else {
        first_marked(es, marker, i + 1)
    }
}

/// The indices of all entries from `i` on whose names contain `marker`, in
/// order; an unreadable entry, an unsafe name, or a marked entry whose bytes
/// cannot be read is an error.
pub open spec fn all_marked(es: Seq<ZipEntry>, marker: Seq<char>, i: int) -> Result<Seq<int>, ArchiveError>
    decreases es.len() - i,
{
    if i >= es.len() || i < 0 {
        Ok(Seq::<int>::empty())
    } else if !es[i].readable {
        Err(ArchiveError::UnreadableEntry)
    } else if es[i].name is None {
        Err(ArchiveError::UnsafeName)
    } else if has_substring(es[i].name.unwrap(), marker) && es[i].content is None {
        Err(ArchiveError::UnreadableContent)
    } else {
        match all_marked(es, marker, i + 1) {
            Ok(rest) => if has_substring(es[i].name.unwrap(), marker) {
                Ok(seq![i] + rest)
            } else {
                Ok(rest)
            },
            Err(e) => Err(e),
        }
    }
}

/// What the search from `k` finds is the first marked entry from `k` on.
proof fn lemma_first_marked_from(es: Seq<ZipEntry>, marker: Seq<char>, k: int, i: int)
    requires
        0 <= k,
        first_marked(es, marker, k) == Ok::<Option<int>, ArchiveError>(Some(i)),
    ensures
        k <= i < es.len(),
        es[i].readable,
        es[i].name is Some && has_substring(es[i].name.unwrap(), marker),
        es[i].content is Some,
        forall|j: int|
            k <= j < i ==> (#[trigger] es[j]).readable && es[j].name is Some && !has_substring(
                es[j].name.unwrap(),
                marker,
            ),
    decreases es.len() - k,
{
    if k < es.len() && es[k].readable && es[k].name is Some && !has_substring(es[k].name.unwrap(), marker) {
        lemma_first_marked_from(es, marker, k + 1, i);
    }
}

/// The report file found in an archive is the first one marked: it opens, its
/// name contains the mark and its bytes read, and every entry before it opens,
/// has a safe name and is not marked.
pub proof fn law_first_marked(es: Seq<ZipEntry>, marker: Seq<char>, i: int)
    requires
        first_marked(es, marker, 0) == Ok::<Option<int>, ArchiveError>(Some(i)),
    ensures
        0 <= i < es.len(),
        es[i].readable,
        es[i].name is Some && has_substring(es[i].name.unwrap(), marker),
        es[i].content is Some,
        forall|j: int|
            0 <= j < i ==> (#[trigger] es[j]).readable && es[j].name is Some && !has_substring(
                es[j].name.unwrap(),
                marker,
            ),
{
    lemma_first_marked_from(es, marker, 0, i);
}

/// A search that finds nothing has looked at every entry.
pub proof fn law_none_marked(es: Seq<ZipEntry>, marker: Seq<char>, k: int)
    requires
        0 <= k,
        first_marked(es, marker, k) == Ok::<Option<int>, ArchiveError>(None),
    ensures
        forall|j: int|
            k <= j < es.len() ==> (#[trigger] es[j]).readable && es[j].name is Some
                && !has_substring(es[j].name.unwrap(), marker),
    decreases es.len() - k,
{
    if k < es.len() {
        law_none_marked(es, marker, k + 1);
    }
}

/// The marked entries listed from `k` on are exactly the marked entries from
/// `k` on, in increasing order.
proof fn lemma_all_marked_from(es: Seq<ZipEntry>, marker: Seq<char>, k: int, idxs: Seq<int>)
    requires
        0 <= k,
        all_marked(es, marker, k) == Ok::<Seq<int>, ArchiveError>(idxs),
    ensures
        forall|a: int, b: int| 0 <= a < b < idxs.len() ==> #[trigger] idxs[a] < #[trigger] idxs[b],
        forall|a: int|
            0 <= a < idxs.len() ==> {
                &&& k <= #[trigger] idxs[a] < es.len()
                &&& es[idxs[a]].name is Some
                &&& has_substring(es[idxs[a]].name.unwrap(), marker)
                &&& es[idxs[a]].content is Some
            },
        forall|j: int|
            k <= j < es.len() ==> (#[trigger] es[j]).readable && es[j].name is Some && (has_substring(
                es[j].name.unwrap(),
                marker,
            ) ==> idxs.contains(j)),
    decreases es.len() - k,
{
    if k < es.len() {
        let rest = all_marked(es, marker, k + 1)->Ok_0;
        lemma_all_marked_from(es, marker, k + 1, rest);
        if has_substring(es[k].name.unwrap(), marker) {
            assert(idxs == seq![k] + rest);
            assert forall|j: int|
                k <= j < es.len() && has_substring(es[j].name.unwrap(), marker) implies idxs.contains(
                j,
            ) by {
                if j == k {
                    assert(idxs[0] == k);
                } else {
                    let q = choose|q: int| 0 <= q < rest.len() && rest[q] == j;
                    assert(idxs[q + 1] == j);
                }
            }
            assert forall|a: int, b: int| 0 <= a < b < idxs.len() implies #[trigger] idxs[a]
                < #[trigger] idxs[b] by {
                if a > 0 {
                    assert(idxs[a] == rest[a - 1] && idxs[b] == rest[b - 1]);
                } else {
                    assert(idxs[b] == rest[b - 1]);
                }
            }
            assert forall|a: int| 0 <= a < idxs.len() implies k <= #[trigger] idxs[a] < es.len() by {
                if a > 0 {
                    assert(idxs[a] == rest[a - 1]);
                }
            }
        }
    } else {
        assert(idxs.len() == 0);
    }
}

/// The price reports taken from an archive are exactly its marked entries:
/// each listed entry's name contains the mark and its bytes read, the entries
/// come in archive order, and every marked entry is listed.
pub proof fn law_all_marked(es: Seq<ZipEntry>, marker: Seq<char>, idxs: Seq<int>)
    requires
        all_marked(es, marker, 0) == Ok::<Seq<int>, ArchiveError>(idxs),
    ensures
        forall|a: int, b: int| 0 <= a < b < idxs.len() ==> #[trigger] idxs[a] < #[trigger] idxs[b],
        forall|a: int|
            0 <= a < idxs.len() ==> {
                &&& 0 <= #[trigger] idxs[a] < es.len()
                &&& es[idxs[a]].name is Some
                &&& has_substring(es[idxs[a]].name.unwrap(), marker)
                &&& es[idxs[a]].content is Some
            },
        forall|j: int|
            0 <= j < es.len() && (#[trigger] es[j]).name is Some && has_substring(es[j].name.unwrap(), marker)
                ==> idxs.contains(j),
{
    lemma_all_marked_from(es, marker, 0, idxs);
}

/// The text of the first file whose name contains `marker`.
fn first_marked_file(archive: &mut MemoryArchive, marker: &str) -> (r: Result<Option<String>, ArchiveError>)
    ensures
        archive_entries(*final(archive)) == archive_entries(*old(archive)),
        match first_marked(archive_entries(*old(archive)), marker@, 0) {
            Ok(None) => r == Ok::<Option<String>, ArchiveError>(None),
            Ok(Some(i)) => r matches Ok(Some(text)) && text@ == utf8_lossy(
                archive_entries(*old(archive))[i].content.unwrap(),
            ),
            Err(e) => r == Err::<Option<String>, ArchiveError>(e),
        },
{
    let ghost es = archive_entries(*archive);
    let n = zip_len(archive);
    let mut idx: usize = 0;
    while idx < n
        invariant
            archive_entries(*archive) == es,
            es == archive_entries(*old(archive)),
            n == es.len(),
            0 <= idx <= n,
            first_marked(es, marker@, 0) == first_marked(es, marker@, idx as int),
        decreases n - idx,
    {
        match zip_entry_name(archive, idx) {
            Err(_) => {
                return Err(ArchiveError::UnreadableEntry);
            },
            Ok(None) => {
                return Err(ArchiveError::UnsafeName);
            },
            Ok(Some(name)) => {
                if contains_text(name.as_str(), marker) {
                    match zip_entry_bytes(archive, idx) {
                        Err(_) => {
                            return Err(ArchiveError::UnreadableEntry);
                        },
                        Ok(None) => {
                            return Err(ArchiveError::UnreadableContent);
                        },
                        Ok(Some(bytes)) => {
                            return Ok(Some(lossy_text(&bytes)));
                        },
                    }
                }
            },
        }
        idx = idx + 1;
    }
    Ok(None)
}

/// The text of the gas quantity report (the first file whose name contains
/// `int271`), or `None` where there is none. The entries up to it must open
/// and have safe names, and its bytes must read.
pub fn get_file_from_zip(archive: &mut MemoryArchive) -> (r: Option<String>)
    requires
        first_marked(archive_entries(*old(archive)), "int271"@, 0) is Ok,
    ensures
        archive_entries(*final(archive)) == archive_entries(*old(archive)),
        match first_marked(archive_entries(*old(archive)), "int271"@, 0) {
            Ok(None) => r is None,
            Ok(Some(i)) => r matches Some(text) && text@ == utf8_lossy(
                archive_entries(*old(archive))[i].content.unwrap(),
            ),
            Err(_) => false,
        },
{
    match first_marked_file(archive, "int271") {
        Ok(found) => found,
        Err(_) => None,
    }
}

/// The text of the gas quantity report, `Ok(None)` where there is none, or the
/// error where `get_file_from_zip` would panic.
pub fn try_get_file_from_zip(archive: &mut MemoryArchive) -> (r: Result<Option<String>, ArchiveError>)
    ensures
        archive_entries(*final(archive)) == archive_entries(*old(archive)),
        match first_marked(archive_entries(*old(archive)), "int271"@, 0) {
            Ok(None) => r == Ok::<Option<String>, ArchiveError>(None),
            Ok(Some(i)) => r matches Ok(Some(text)) && text@ == utf8_lossy(
                archive_entries(*old(archive))[i].content.unwrap(),
            ),
            Err(e) => r == Err::<Option<String>, ArchiveError>(e),
        },
{
    match first_marked_file(archive, "int271") {
        Err(e) => Err(e),
        Ok(_) => Ok(get_file_from_zip(archive)),
    }
}

/// Every file whose name contains `marker`, as (name, text), in order.
fn all_marked_files(archive: &mut MemoryArchive, marker: &str) -> (r: Result<Vec<(String, String)>, ArchiveError>)
    ensures
        archive_entries(*final(archive)) == archive_entries(*old(archive)),
        match all_marked(archive_entries(*old(archive)), marker@, 0) {
            Ok(idxs) => r matches Ok(v) && v.len() == idxs.len() && forall|k: int|
                0 <= k < v.len() ==> {
                    &&& Some((#[trigger] v@[k]).0@) == archive_entries(*old(archive))[idxs[k]].name
                    &&& v@[k].1@ == utf8_lossy(archive_entries(*old(archive))[idxs[k]].content.unwrap())
                },
            Err(e) => r == Err::<Vec<(String, String)>, ArchiveError>(e),
        },
{
    let ghost es = archive_entries(*archive);
    let n = zip_len(archive);
    let mut found: Vec<(String, String)> = Vec::new();
    let ghost mut seen: Seq<int> = Seq::empty();
    let mut idx: usize = 0;
    while idx < n
        invariant
            archive_entries(*archive) == es,
            es == archive_entries(*old(archive)),
            n == es.len(),
            0 <= idx <= n,
            found.len() == seen.len(),
            forall|k: int|
                #![trigger seen[k]]
                0 <= k < found.len() ==> {
                    &&& 0 <= seen[k] < idx
                    &&& es[seen[k]].content is Some
                    &&& Some(found@[k].0@) == es[seen[k]].name
                    &&& found@[k].1@ == utf8_lossy(es[seen[k]].content.unwrap())
                },
            match all_marked(es, marker@, 0) {
                Ok(all) => all_marked(es, marker@, idx as int) matches Ok(rest) && all == seen + rest,
                Err(e) => all_marked(es, marker@, idx as int) == Err::<Seq<int>, ArchiveError>(e),
            },
        decreases n - idx,
    {
        match zip_entry_name(archive, idx) {
            Err(_) => {
                return Err(ArchiveError::UnreadableEntry);
            },
            Ok(None) => {
                return Err(ArchiveError::UnsafeName);
            },
            Ok(Some(name)) => {
                if contains_text(name.as_str(), marker) {
                    match zip_entry_bytes(archive, idx) {
                        Err(_) => {
                            return Err(ArchiveError::UnreadableEntry);
                        },
                        Ok(None) => {
                            return Err(ArchiveError::UnreadableContent);
                        },
                        Ok(Some(bytes)) => {
                            let text = lossy_text(&bytes);
                            let ghost old_found = found@;
                            found.push((name, text));
                            proof {
                                let old_seen = seen;
                                seen = seen.push(idx as int);
                                assert forall|k: int| 0 <= k < old_found.len() implies found@[k] == old_found[k]
                                    && seen[k] == old_seen[k] by {}

                                if all_marked(es, marker@, 0) is Ok {
                                    let rest = all_marked(es, marker@, idx + 1)->Ok_0;
                                    assert(old_seen + (seq![idx as int] + rest) =~= seen + rest);
                                }
                            }
                        },
                    }
                }
            },
        }
        idx = idx + 1;
    }
    proof {
        if all_marked(es, marker@, 0) is Ok {
            assert(seen + Seq::<int>::empty() =~= seen);
        }
    }
    Ok(found)
}

/// The gas price reports (every file whose name contains `int037b`), as
/// (name, text), in the archive's order. Every entry must open and have a
/// safe name, and every report's bytes must read.
pub fn get_price_file(archive: &mut MemoryArchive) -> (r: Vec<(String, String)>)
    requires
        all_marked(archive_entries(*old(archive)), "int037b"@, 0) is Ok,
    ensures
        archive_entries(*final(archive)) == archive_entries(*old(archive)),
        ({
            let idxs = all_marked(archive_entries(*old(archive)), "int037b"@, 0)->Ok_0;
            r.len() == idxs.len() && forall|k: int|
                0 <= k < r.len() ==> {
                    &&& Some((#[trigger] r@[k]).0@) == archive_entries(*old(archive))[idxs[k]].name
                    &&& r@[k].1@ == utf8_lossy(archive_entries(*old(archive))[idxs[k]].content.unwrap())
                }
        }),
{
    match all_marked_files(archive, "int037b") {
        Ok(found) => found,
        Err(_) => Vec::new(),
    }
}

/// The gas price reports, or the error where `get_price_file` would panic.
pub fn try_get_price_file(archive: &mut MemoryArchive) -> (r: Result<Vec<(String, String)>, ArchiveError>)
    ensures
        archive_entries(*final(archive)) == archive_entries(*old(archive)),
        match all_marked(archive_entries(*old(archive)), "int037b"@, 0) {
            Ok(idxs) => r matches Ok(v) && v.len() == idxs.len() && forall|k: int|
                0 <= k < v.len() ==> {
                    &&& Some((#[trigger] v@[k]).0@) == archive_entries(*old(archive))[idxs[k]].name
                    &&& v@[k].1@ == utf8_lossy(archive_entries(*old(archive))[idxs[k]].content.unwrap())
                },
            Err(e) => r == Err::<Vec<(String, String)>, ArchiveError>(e),
        },
{
    match all_marked_files(archive, "int037b") {
        Err(e) => Err(e),
        Ok(_) => Ok(get_price_file(archive)),
    }
}

/// The archive's first entry opens and its bytes read.
pub open spec fn first_entry_reads(es: Seq<ZipEntry>) -> bool {
    es.len() > 0 && es[0].readable && es[0].content is Some
}

/// The text of the archive's first file, or the error where it cannot be had.
fn first_file(archive: &mut MemoryArchive) -> (r: Result<String, ArchiveError>)
    ensures
        archive_entries(*final(archive)) == archive_entries(*old(archive)),
        archive_entries(*old(archive)).len() == 0 || !archive_entries(*old(archive))[0].readable
            ==> r == Err::<String, ArchiveError>(ArchiveError::UnreadableEntry),
        archive_entries(*old(archive)).len() > 0 && archive_entries(*old(archive))[0].readable ==> {
            match archive_entries(*old(archive))[0].content {
                Some(c) => r matches Ok(text) && text@ == utf8_lossy(c),
                None => r == Err::<String, ArchiveError>(ArchiveError::UnreadableContent),
            }
        },
{
    if zip_len(archive) == 0 {
        return Err(ArchiveError::UnreadableEntry);
    }
    match zip_entry_bytes(archive, 0) {
        Err(_) => Err(ArchiveError::UnreadableEntry),
        Ok(None) => Err(ArchiveError::UnreadableContent),
        Ok(Some(bytes)) => Ok(lossy_text(&bytes)),
    }
}

/// The text of the archive's first file (the report archives hold one file);
/// the entry must open and its bytes must read.
pub fn first_file_in_zip(archive: &mut MemoryArchive) -> (r: String)
    requires
        first_entry_reads(archive_entries(*old(archive))),
    ensures
        archive_entries(*final(archive)) == archive_entries(*old(archive)),
        r@ == utf8_lossy(archive_entries(*old(archive))[0].content.unwrap()),
{
    match first_file(archive) {
        Ok(text) => text,
        Err(_) => String::new(),
    }
}

/// The text of the archive's first file, or the error where
/// `first_file_in_zip` would panic.
pub fn try_first_file_in_zip(archive: &mut MemoryArchive) -> (r: Result<String, ArchiveError>)
    ensures
        archive_entries(*final(archive)) == archive_entries(*old(archive)),
        archive_entries(*old(archive)).len() == 0 || !archive_entries(*old(archive))[0].readable
            ==> r == Err::<String, ArchiveError>(ArchiveError::UnreadableEntry),
        archive_entries(*old(archive)).len() > 0 && archive_entries(*old(archive))[0].readable ==> {
            match archive_entries(*old(archive))[0].content {
                Some(c) => r matches Ok(text) && text@ == utf8_lossy(c),
                None => r == Err::<String, ArchiveError>(ArchiveError::UnreadableContent),
            }
        },
{
    match first_file(archive) {
        Err(e) => Err(e),
        Ok(_) => Ok(first_file_in_zip(archive)),
    }
}

} // verus!
