//! The classes that an archive holds, read off the names of its entries.

use vstd::prelude::*;
use crate::text::{
    chars_of, ends_with, ends_with_range, find_char, index_of, lemma_index_of, skip_suffix_all,
    strip_trailing_all,
};

verus! {

#[verifier::external_type_specification]
#[verifier::external_body]
#[verifier::reject_recursive_types(R)]
pub struct ExZipArchive<R>(zip::ZipArchive<R>);

#[verifier::external_type_specification]
#[verifier::external_body]
#[verifier::reject_recursive_types(T)]
pub struct ExCursor<T>(std::io::Cursor<T>);

#[verifier::external_type_specification]
#[verifier::external_body]
pub struct ExZipError(zip::result::ZipError);

/// The entries of an opened archive in the order of its directory: the
/// name of each entry, and whether the entry can be opened without a
/// password. An entry that is encrypted, or stored in a way that the
/// archive reader does not support, or whose header in the archive is
/// damaged, cannot.
pub uninterp spec fn archive_entries(
    archive: zip::ZipArchive<std::io::Cursor<Vec<u8>>>,
) -> Seq<(Seq<char>, bool)>;

/// The entries of the archive that `bytes` hold, or `None` when `bytes`
/// are no archive that can be read.
pub uninterp spec fn archive_of(bytes: Seq<u8>) -> Option<Seq<(Seq<char>, bool)>>;

/// Whether a lookup of `name` finds an entry: of the entries with that
/// name the last one counts, and it must be one that can be opened.
pub open spec fn finds(entries: Seq<(Seq<char>, bool)>, name: Seq<char>) -> bool {
    exists|i: int|
        0 <= i < entries.len() && (#[trigger] entries[i]).0 == name && entries[i].1 && forall|
            j: int,
        |
            i < j < entries.len() ==> (#[trigger] entries[j]).0 != name
}

/// An archive could not be read.
#[derive(Debug, Clone, Copy, PartialEq, Eq, Structural)]
pub enum ArchiveError {
    /// The bytes are no archive.
    NotAnArchive,
    /// The entry with this index cannot be opened.
    BadEntry(usize),
}

impl ArchiveError {
    pub fn message(&self) -> (r: String)
        ensures
            r@ == match *self {
                ArchiveError::NotAnArchive => "not a readable zip archive"@,
                ArchiveError::BadEntry(_) => "an entry of the archive cannot be opened"@,
            },
    {
        match self {
            ArchiveError::NotAnArchive => "not a readable zip archive".to_owned(),
            ArchiveError::BadEntry(_) => "an entry of the archive cannot be opened".to_owned(),
        }
    }
}

/// Calls `zip::ZipArchive::new` on a cursor over `bytes`: the archive is
/// returned when its directory can be read, and its entries are those that
/// the bytes determine.
#[verifier::external_body]
pub(crate) fn open_archive(bytes: Vec<u8>) -> (r: Result<
    zip::ZipArchive<std::io::Cursor<Vec<u8>>>,
    zip::result::ZipError,
>)
    ensures
        match r {
            Ok(a) => archive_of(bytes@) == Some(archive_entries(a)),
            Err(_) => archive_of(bytes@) is None,
        },
{
    zip::ZipArchive::new(std::io::Cursor::new(bytes))
}

/// Calls `zip::ZipArchive::len`: the number of entries in the directory.
#[verifier::external_body]
pub(crate) fn archive_len(archive: &zip::ZipArchive<std::io::Cursor<Vec<u8>>>) -> (n: usize)
    ensures
        n == archive_entries(*archive).len(),
{
    archive.len()
}

/// Calls `zip::ZipArchive::by_index_decrypt` with the empty password and
/// takes the name of the entry. The call gives no entry where the entry
/// cannot be opened, and leaves the archive as it was.
#[verifier::external_body]
pub(crate) fn entry_name(archive: &mut zip::ZipArchive<std::io::Cursor<Vec<u8>>>, i: usize) -> (r:
    Option<String>)
    ensures
        archive_entries(*final(archive)) == archive_entries(*old(archive)),
        i < archive_entries(*old(archive)).len() ==> match r {
            Some(name) => archive_entries(*old(archive))[i as int] == (name@, true),
            None => !archive_entries(*old(archive))[i as int].1,
        },
{
    match archive.by_index_decrypt(i, b"") {
        Ok(Ok(file)) => Some(file.name().to_string()),
        _ => None,
    }
}

/// Calls `zip::ZipArchive::by_name_decrypt` with the empty password and
/// says whether it gave an entry. The archive looks up the last entry with
/// that name and opens it.
#[verifier::external_body]
pub(crate) fn entry_found(archive: &mut zip::ZipArchive<std::io::Cursor<Vec<u8>>>, name: &str) -> (r:
    bool)
    ensures
        archive_entries(*final(archive)) == archive_entries(*old(archive)),
        r == finds(archive_entries(*old(archive)), name@),
{
    matches!(archive.by_name_decrypt(name, b""), Ok(Ok(_)))
}

/// `s` with `/` and `\` turned into `.`.
pub open spec fn dotted(s: Seq<char>) -> Seq<char> {
    Seq::new(s.len(), |i: int| if s[i] == '/' || s[i] == '\\' { '.' } else { s[i] })
}

/// The top-level class that an entry holds: an entry whose name ends in
/// `.class` and has no `$` holds the class named by its path.
pub open spec fn class_of_entry(name: Seq<char>) -> Option<Seq<char>> {
    if ends_with(name, ".class"@) && !name.contains('$') {
        Some(dotted(strip_trailing_all(name, ".class"@)))
    } else {
        None
    }
}

/// The classes of the first `n` entries, in order, or the index of the
/// first entry among them that cannot be opened.
pub open spec fn classes_upto(entries: Seq<(Seq<char>, bool)>, n: int) -> Result<Seq<Seq<char>>, int>
    decreases n,
{
    if n <= 0 {
        Ok(Seq::empty())
    } else {
        match classes_upto(entries, n - 1) {
            Err(i) => Err(i),
            Ok(before) => if !entries[n - 1].1 {
                Err(n - 1)
            } else {
                match class_of_entry(entries[n - 1].0) {
                    Some(c) => Ok(before.push(c)),
                    None => Ok(before),
                }
            },
        }
    }
}

/// What `catalog` gives for an archive with these entries.
pub open spec fn catalog_of(entries: Option<Seq<(Seq<char>, bool)>>) -> Result<
    Seq<Seq<char>>,
    ArchiveError,
> {
    match entries {
        None => Err(ArchiveError::NotAnArchive),
        Some(e) => match classes_upto(e, e.len() as int) {
            Ok(classes) => Ok(classes),
            Err(i) => Err(ArchiveError::BadEntry(i as usize)),
        },
    }
}

/// The class that the entry `name` holds, if it holds a top-level class.
pub fn entry_class(name: &str) -> (r: Option<String>)
    ensures
        match r {
            Some(c) => class_of_entry(name@) == Some(c@),
            None => class_of_entry(name@) is None,
        },
{
    let v = chars_of(name);
    let suffix = chars_of(".class");
    assert(v@.subrange(0, v.len() as int) =~= v@);
    if !ends_with_range(&v, 0, v.len(), &suffix) {
        return None;
    }
    let d = find_char(&v, 0, v.len(), '$');
    proof {
        lemma_index_of(v@, '$');
    }
    if d < v.len() {
        return None;
    }
    let end = skip_suffix_all(&v, 0, v.len(), &suffix);
    let mut out = String::new();
    let mut i: usize = 0;
    let ghost stem = v@.subrange(0, end as int);
    while i < end
        invariant
            i <= end <= v.len(),
            stem == v@.subrange(0, end as int),
            out@ == dotted(stem).take(i as int),
        decreases end - i,
    {
        let c = if v[i] == '/' || v[i] == '\\' {
            '.'
        } else {
            v[i]
        };
        out.push(c);
        i = i + 1;
        assert(dotted(stem).take(i as int) =~= dotted(stem).take(i - 1).push(c));
    }
    assert(dotted(stem).take(end as int) =~= dotted(stem));
    Some(out)
}

/// The top-level classes of the archive that `bytes` hold, in the order of
/// its directory.
pub fn catalog(bytes: Vec<u8>) -> (r: Result<Vec<String>, ArchiveError>)
    ensures
        match r {
            Ok(classes) => catalog_of(archive_of(bytes@)) == Ok::<Seq<Seq<char>>, ArchiveError>(
                classes.deep_view(),
            ),
            Err(e) => catalog_of(archive_of(bytes@)) == Err::<Seq<Seq<char>>, ArchiveError>(e),
        },
{
    let mut archive = match open_archive(bytes) {
        Ok(a) => a,
        Err(_) => {
            return Err(ArchiveError::NotAnArchive);
        },
    };
    let ghost entries = archive_entries(archive);
    let n = archive_len(&archive);
    let mut classes: Vec<String> = Vec::new();
    let mut i: usize = 0;
    assert(classes.deep_view() =~= Seq::<Seq<char>>::empty());
    while i < n
        invariant
            i <= n,
            n == entries.len(),
            entries == archive_entries(archive),
            archive_of(bytes@) == Some(entries),
            classes_upto(entries, i as int) == Ok::<Seq<Seq<char>>, int>(classes.deep_view()),
        decreases n - i,
    {
        match entry_name(&mut archive, i) {
            None => {
                assert(classes_upto(entries, i + 1) == Err::<Seq<Seq<char>>, int>(i as int));
                proof {
                    lemma_classes_error(entries, i + 1, n as int);
                }
                return Err(ArchiveError::BadEntry(i));
            },
            Some(name) => {
                match entry_class(name.as_str()) {
                    Some(c) => {
                        let ghost before = classes.deep_view();
                        classes.push(c);
                        assert(classes.deep_view() =~= before.push(c@));
                    },
                    None => {},
                }
            },
        }
        i = i + 1;
    }
    Ok(classes)
}

/// Once an entry cannot be opened, looking at more entries changes nothing.
pub proof fn lemma_classes_error(entries: Seq<(Seq<char>, bool)>, k: int, n: int)
    requires
        0 <= k <= n,
        classes_upto(entries, k) is Err,
    ensures
        classes_upto(entries, n) == classes_upto(entries, k),
    decreases n - k,
{
    if k < n {
        lemma_classes_error(entries, k, n - 1);
    }
}

} // verus!
