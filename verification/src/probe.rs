//! Questions to a single archive: does it hold a class, and which classes
//! in it have a given simple name.

use vstd::prelude::*;
use crate::catalog::{
    archive_entries, archive_len, archive_of, classes_upto, entry_found, entry_name, finds,
    lemma_classes_error, open_archive, ArchiveError,
};
use crate::text::{
    chars_of, concat3, ends_with, has_char, lemma_lex_irreflexive, lemma_lex_total,
    lemma_lex_transitive, lex_less, lex_lt, replace_char, replaced, same_text, skip_suffix_all,
    str_ends_with, string_of, strip_trailing_all,
};

verus! {

/// What `jar_contains_class` gives for an archive with these entries.
pub open spec fn contains_of(entries: Option<Seq<(Seq<char>, bool)>>, name: Seq<char>) -> Result<
    bool,
    ArchiveError,
> {
    match entries {
        None => Err(ArchiveError::NotAnArchive),
        Some(e) => Ok(finds(e, name)),
    }
}

/// Whether the archive that `bytes` hold has the entry `class_path` and
/// can open it.
pub fn jar_contains_class(bytes: Vec<u8>, class_path: &str) -> (r: Result<bool, ArchiveError>)
    ensures
        r == contains_of(archive_of(bytes@), class_path@),
{
    match open_archive(bytes) {
        Ok(archive) => {
            let mut archive = archive;
            Ok(entry_found(&mut archive, class_path))
        },
        Err(_) => Err(ArchiveError::NotAnArchive),
    }
}

/// The fully-qualified name of the top-level class `simple` that the entry
/// `name` holds, if it holds one.
pub open spec fn fqn_of_entry(name: Seq<char>, simple: Seq<char>) -> Option<Seq<char>> {
    if ends_with(name, ".class"@) && !name.contains('$') && ends_with(
        name,
        "/"@ + simple + ".class"@,
    ) {
        Some(replace_char(strip_trailing_all(name, ".class"@), '/', '.'))
    } else {
        None
    }
}

/// The names found among the first `n` entries.
pub open spec fn fqns_among(entries: Seq<(Seq<char>, bool)>, simple: Seq<char>, n: int) -> Set<
    Seq<char>,
> {
    Set::new(
        |f: Seq<char>|
            exists|i: int| 0 <= i < n && fqn_of_entry((#[trigger] entries[i]).0, simple) == Some(f),
    )
}

/// `s` rises strictly in the order of text, so it holds nothing twice.
pub open spec fn rising(s: Seq<Seq<char>>) -> bool {
    forall|i: int, j: int| 0 <= i < j < s.len() ==> lex_lt(#[trigger] s[i], #[trigger] s[j])
}

/// The fully-qualified name that the entry `name` gives for `simple`.
pub fn entry_fqn(name: &str, simple: &str) -> (r: Option<String>)
    ensures
        match r {
            Some(f) => fqn_of_entry(name@, simple@) == Some(f@),
            None => fqn_of_entry(name@, simple@) is None,
        },
{
    if !str_ends_with(name, ".class") {
        return None;
    }
    if has_char(name, '$') {
        return None;
    }
    let wanted = concat3("/", simple, ".class");
    if !str_ends_with(name, wanted.as_str()) {
        return None;
    }
    let v = chars_of(name);
    let suffix = chars_of(".class");
    assert(v@.subrange(0, v.len() as int) =~= v@);
    let end = skip_suffix_all(&v, 0, v.len(), &suffix);
    let stem = string_of(&v, 0, end);
    Some(replaced(stem.as_str(), '/', '.'))
}

/// Puts `item` into the rising list `v`, unless it is there.
pub fn insert_rising(v: &mut Vec<String>, item: String)
    requires
        rising(old(v).deep_view()),
    ensures
        rising(final(v).deep_view()),
        final(v).deep_view().to_set() == old(v).deep_view().to_set().insert(item@),
{
    let key = chars_of(item.as_str());
    let ghost before = v.deep_view();
    let mut pos: usize = 0;
    let mut stop = false;
    while pos < v.len() && !stop
        invariant
            pos <= v.len(),
            key@ == item@,
            before == v.deep_view(),
            forall|i: int| 0 <= i < pos ==> lex_lt(#[trigger] before[i], item@),
            stop ==> pos < v.len() && !lex_lt(before[pos as int], item@),
        decreases (v.len() - pos) + (if stop { 0int } else { 1int }),
    {
        let cur = chars_of(v[pos].as_str());
        assert(cur@ == before[pos as int]);
        if lex_less(&cur, &key) {
            pos = pos + 1;
        } else {
            stop = true;
        }
    }
    if pos < v.len() {
        let cur = chars_of(v[pos].as_str());
        assert(cur@ == before[pos as int]);
        if same_text(&cur, &key) {
            proof {
                assert(before.contains(item@));
                assert(before.to_set() =~= before.to_set().insert(item@));
            }
            return ;
        }
    }
    proof {
        if pos < v.len() {
            lemma_lex_total(before[pos as int], item@);
            assert forall|i: int| pos <= i < before.len() implies lex_lt(
                item@,
                #[trigger] before[i],
            ) by {
                if i > pos {
                    lemma_lex_transitive(item@, before[pos as int], before[i]);
                }
            }
        }
    }
    v.insert(pos, item);
    proof {
        let after = v.deep_view();
        assert(after =~= before.insert(pos as int, item@));
        assert forall|i: int, j: int| 0 <= i < j < after.len() implies lex_lt(
            #[trigger] after[i],
            #[trigger] after[j],
        ) by {
            if j < pos {
                assert(after[i] == before[i] && after[j] == before[j]);
            } else if j == pos {
                assert(after[i] == before[i]);
            } else if i < pos {
                assert(after[i] == before[i] && after[j] == before[j - 1]);
            } else if i == pos {
                assert(after[j] == before[j - 1]);
            } else {
                assert(after[i] == before[i - 1] && after[j] == before[j - 1]);
            }
        }
        assert forall|x: Seq<char>| after.to_set().contains(x) == before.to_set().insert(
            item@,
        ).contains(x) by {
            if after.contains(x) {
                let k = after.index_of(x);
                if k < pos {
                    assert(before[k] == x);
                } else if k > pos {
                    assert(before[k - 1] == x);
                }
            }
            if before.contains(x) {
                let k = before.index_of(x);
                if k < pos {
                    assert(after[k] == x);
                } else {
                    assert(after[k + 1] == x);
                }
            }
            if x == item@ {
                assert(after[pos as int] == x);
            }
        }
        assert(after.to_set() =~= before.to_set().insert(item@));
    }
}

/// The fully-qualified names of the top-level classes in the archive whose
/// simple name is `simple_class_name`, each once, in rising order.
pub fn find_class_fqns_in_jar(bytes: Vec<u8>, simple_class_name: &str) -> (r: Result<
    Vec<String>,
    ArchiveError,
>)
    ensures
        match r {
            Ok(names) => archive_of(bytes@) is Some && classes_upto(
                archive_of(bytes@)->0,
                archive_of(bytes@)->0.len() as int,
            ) is Ok && rising(names.deep_view()) && names.deep_view().to_set() == fqns_among(
                archive_of(bytes@)->0,
                simple_class_name@,
                archive_of(bytes@)->0.len() as int,
            ),
            Err(ArchiveError::NotAnArchive) => archive_of(bytes@) is None,
            Err(ArchiveError::BadEntry(i)) => archive_of(bytes@) is Some && classes_upto(
                archive_of(bytes@)->0,
                archive_of(bytes@)->0.len() as int,
            ) == Err::<Seq<Seq<char>>, int>(i as int),
        },
{
    let mut archive = match open_archive(bytes) {
        Ok(a) => a,
        Err(_) => {
            return Err(ArchiveError::NotAnArchive);
        },
    };
    let ghost entries = archive_entries(archive);
    let n = archive_len(&archive);
    let mut names: Vec<String> = Vec::new();
    let mut i: usize = 0;
    proof {
        assert(names.deep_view().to_set() =~= fqns_among(entries, simple_class_name@, 0));
    }
    while i < n
        invariant
            i <= n,
            n == entries.len(),
            entries == archive_entries(archive),
            archive_of(bytes@) == Some(entries),
            classes_upto(entries, i as int) is Ok,
            rising(names.deep_view()),
            names.deep_view().to_set() == fqns_among(entries, simple_class_name@, i as int),
        decreases n - i,
    {
        match entry_name(&mut archive, i) {
            None => {
                assert(classes_upto(entries, i + 1) == Err::<Seq<Seq<char>>, int>(i as int));
                proof {
                    lemma_classes_error(entries, i + 1, n as int);
                }
                return Err(ArchiveError::BadEntry(i));
            },
            Some(name) => {
                let ghost before = names.deep_view().to_set();
                match entry_fqn(name.as_str(), simple_class_name) {
                    Some(f) => {
                        insert_rising(&mut names, f);
                        assert(before.insert(f@) =~= fqns_among(
                            entries,
                            simple_class_name@,
                            i + 1,
                        )) by {
                            assert(fqn_of_entry(entries[i as int].0, simple_class_name@) == Some(
                                f@,
                            ));
                        }
                    },
                    None => {
                        assert(before =~= fqns_among(entries, simple_class_name@, i + 1));
                    },
                }
            },
        }
        i = i + 1;
    }
    Ok(names)
}

} // verus!
