//! Mod assembly: patches the files of the asset subdirectories and stages the
//! changed ones, with the metadata file, in a virtual directory tree.
use vstd::prelude::*;

use crate::directory::{has_name, names_ascending, Directory, DirectoryEntry};
use crate::markup::{file_outcome, modify_xaml_file, Node};
use crate::textual::{outcome_model, PatchError};

verus! {

/// A file as read from a directory: its name and its parsed document.
pub struct FileEntry {
    pub name: String,
    pub document: Vec<Node>,
}

/// A file that could not be patched, and why.
pub struct FileError {
    pub name: String,
    pub error: PatchError,
}

/// No two files share a name.
pub open spec fn names_distinct(files: Seq<FileEntry>) -> bool {
    forall|a: int, b: int|
        0 <= a < b < files.len() ==> (#[trigger] files[a]).name@ != (#[trigger] files[b]).name@
}

/// Every file can be patched.
pub open spec fn all_patchable(files: Seq<FileEntry>) -> bool {
    forall|k: int| 0 <= k < files.len() ==> (#[trigger] file_outcome(files[k].document@)) is Ok
}

/// `e` names a file of `files` that cannot be patched, with its error.
pub open spec fn fails_with(files: Seq<FileEntry>, e: FileError) -> bool {
    exists|k: int|
        0 <= k < files.len() && (#[trigger] files[k]).name@ == e.name@ && file_outcome(
            files[k].document@,
        ) == Err::<Option<Seq<u8>>, PatchError>(e.error)
}

/// Every changed file of `files` stands in `entries` under its name with its
/// patched content, and no unchanged one does.
#[verifier::opaque]
pub open spec fn stages_forward(files: Seq<FileEntry>, entries: Seq<(String, DirectoryEntry)>) -> bool {
    forall|k: int| #![trigger files[k]]
        0 <= k < files.len() ==> match file_outcome(files[k].document@) {
            Ok(Some(c)) => exists|j: int|
                0 <= j < entries.len() && (#[trigger] entries[j]).0@ == files[k].name@
                    && entries[j].1 is File && entries[j].1->File_0@ == c,
            Ok(None) => !has_name(entries, files[k].name@),
            Err(_) => false,
        }
}

/// Every file entry of `entries` is the patched content of a changed file of
/// `files` with its name.
#[verifier::opaque]
pub open spec fn stages_backward(files: Seq<FileEntry>, entries: Seq<(String, DirectoryEntry)>) -> bool {
    forall|j: int|
        0 <= j < entries.len() && (#[trigger] entries[j]).1 is File ==> exists|k: int|
            0 <= k < files.len() && (#[trigger] files[k]).name@ == entries[j].0@ && file_outcome(
                files[k].document@,
            ) == Ok::<Option<Seq<u8>>, PatchError>(Some(entries[j].1->File_0@))
}

/// The file entries of `entries` are exactly the changed files of `files`,
/// each under its name with its patched content; unchanged files are absent.
pub open spec fn stages_changed_files(
    files: Seq<FileEntry>,
    entries: Seq<(String, DirectoryEntry)>,
) -> bool {
    stages_forward(files, entries) && stages_backward(files, entries)
}

proof fn lemma_stages_empty(files: Seq<FileEntry>, entries: Seq<(String, DirectoryEntry)>)
    requires
        files.len() == 0,
        entries.len() == 0,
    ensures
        stages_changed_files(files, entries),
{
    reveal(stages_forward);
    reveal(stages_backward);
}

/// A file on which no rule fires is left out of the staged directory, not
/// copied unchanged.
pub proof fn lemma_unchanged_file_omitted(
    files: Seq<FileEntry>,
    entries: Seq<(String, DirectoryEntry)>,
    k: int,
)
    requires
        stages_changed_files(files, entries),
        0 <= k < files.len(),
        file_outcome(files[k].document@) == Ok::<Option<Seq<u8>>, PatchError>(None),
    ensures
        !has_name(entries, files[k].name@),
{
    reveal(stages_forward);
    assert(file_outcome(files[k].document@) == Ok::<Option<Seq<u8>>, PatchError>(None));
}

/// Every entry is a file.
pub open spec fn only_files(entries: Seq<(String, DirectoryEntry)>) -> bool {
    forall|j: int| 0 <= j < entries.len() ==> (#[trigger] entries[j]).1 is File
}

proof fn lemma_not_staged_yet(files: Seq<FileEntry>, i: int, entries: Seq<(String, DirectoryEntry)>)
    requires
        names_distinct(files),
        0 <= i < files.len(),
        stages_changed_files(files.subrange(0, i), entries),
        only_files(entries),
    ensures
        !has_name(entries, files[i].name@),
{
    reveal(stages_backward);
    let done = files.subrange(0, i);
    if has_name(entries, files[i].name@) {
        let j = choose|j: int| 0 <= j < entries.len() && #[trigger] entries[j].0@ == files[i].name@;
        assert(entries[j].1 is File);
        let k = choose|k: int|
            0 <= k < done.len() && (#[trigger] done[k]).name@ == entries[j].0@ && file_outcome(
                done[k].document@,
            ) == Ok::<Option<Seq<u8>>, PatchError>(Some(entries[j].1->File_0@));
        assert(files[k] == done[k]);
    }
}

proof fn lemma_stage_unchanged_forward(files: Seq<FileEntry>, i: int, entries: Seq<(String, DirectoryEntry)>)
    requires
        0 <= i < files.len(),
        all_patchable(files.subrange(0, i)),
        stages_changed_files(files.subrange(0, i), entries),
        file_outcome(files[i].document@) == Ok::<Option<Seq<u8>>, PatchError>(None),
        !has_name(entries, files[i].name@),
    ensures
        stages_forward(files.subrange(0, i + 1), entries),
{
    reveal(stages_forward);
    let done = files.subrange(0, i);
    let next = files.subrange(0, i + 1);
    assert forall|k: int| 0 <= k < i implies #[trigger] next[k] == done[k] by {}
    assert(next[i] == files[i]);
}

proof fn lemma_stage_unchanged_backward(files: Seq<FileEntry>, i: int, entries: Seq<(String, DirectoryEntry)>)
    requires
        0 <= i < files.len(),
        all_patchable(files.subrange(0, i)),
        stages_changed_files(files.subrange(0, i), entries),
        file_outcome(files[i].document@) == Ok::<Option<Seq<u8>>, PatchError>(None),
        !has_name(entries, files[i].name@),
    ensures
        stages_backward(files.subrange(0, i + 1), entries),
{
    reveal(stages_backward);
    let done = files.subrange(0, i);
    let next = files.subrange(0, i + 1);
    assert forall|k: int| 0 <= k < i implies #[trigger] next[k] == done[k] by {}
    assert(next[i] == files[i]);
    assert forall|j: int|
        0 <= j < entries.len() && (#[trigger] entries[j]).1 is File implies exists|k: int|
            0 <= k < next.len() && (#[trigger] next[k]).name@ == entries[j].0@ && file_outcome(
                next[k].document@,
            ) == Ok::<Option<Seq<u8>>, PatchError>(Some(entries[j].1->File_0@)) by {
        let k = choose|k: int|
            0 <= k < done.len() && (#[trigger] done[k]).name@ == entries[j].0@ && file_outcome(
                done[k].document@,
            ) == Ok::<Option<Seq<u8>>, PatchError>(Some(entries[j].1->File_0@));
        assert(next[k] == done[k]);
    }
}

proof fn lemma_stage_unchanged(files: Seq<FileEntry>, i: int, entries: Seq<(String, DirectoryEntry)>)
    requires
        0 <= i < files.len(),
        all_patchable(files.subrange(0, i)),
        stages_changed_files(files.subrange(0, i), entries),
        file_outcome(files[i].document@) == Ok::<Option<Seq<u8>>, PatchError>(None),
        !has_name(entries, files[i].name@),
    ensures
        all_patchable(files.subrange(0, i + 1)),
        stages_changed_files(files.subrange(0, i + 1), entries),
{
    lemma_stage_unchanged_forward(files, i, entries);
    lemma_stage_unchanged_backward(files, i, entries);
    let done = files.subrange(0, i);
    let next = files.subrange(0, i + 1);
    assert forall|k: int| 0 <= k < i implies #[trigger] next[k] == done[k] by {}
    assert(next[i] == files[i]);
}

#[verifier::rlimit(40)]
proof fn lemma_stage_changed_covers(
    files: Seq<FileEntry>,
    i: int,
    before: Seq<(String, DirectoryEntry)>,
    p: int,
    entry: (String, DirectoryEntry),
)
    requires
        0 <= i < files.len(),
        0 <= p <= before.len(),
        names_distinct(files),
        all_patchable(files.subrange(0, i)),
        stages_changed_files(files.subrange(0, i), before),
        only_files(before),
        !has_name(before, files[i].name@),
        entry.0@ == files[i].name@,
        entry.1 is File,
        file_outcome(files[i].document@) == Ok::<Option<Seq<u8>>, PatchError>(
            Some(entry.1->File_0@),
        ),
    ensures
        stages_forward(files.subrange(0, i + 1), before.insert(p, entry)),
{
    reveal(stages_forward);
    let done = files.subrange(0, i);
    let next = files.subrange(0, i + 1);
    let after = before.insert(p, entry);
    assert forall|k: int| 0 <= k < i implies #[trigger] next[k] == done[k] by {}
    assert(next[i] == files[i]);
    assert(after[p] == entry);
    assert forall|k: int| #![trigger next[k]]
        0 <= k < next.len() implies match file_outcome(next[k].document@) {
        Ok(Some(c)) => exists|j: int|
            0 <= j < after.len() && (#[trigger] after[j]).0@ == next[k].name@ && after[j].1 is File
                && after[j].1->File_0@ == c,
        Ok(None) => !has_name(after, next[k].name@),
        Err(_) => false,
    } by {
        if k == i {
            assert(after[p].0@ == next[k].name@);
        } else {
            match file_outcome(done[k].document@) {
                Ok(Some(c)) => {
                    let j = choose|j: int|
                        0 <= j < before.len() && (#[trigger] before[j]).0@ == done[k].name@
                            && before[j].1 is File && before[j].1->File_0@ == c;
                    if j < p {
                        assert(after[j] == before[j]);
                    } else {
                        assert(after[j + 1] == before[j]);
                    }
                },
                Ok(None) => {
                    if has_name(after, next[k].name@) {
                        let j = choose|j: int|
                            0 <= j < after.len() && #[trigger] after[j].0@ == next[k].name@;
                        if j < p {
                            assert(after[j] == before[j]);
                        } else if j > p {
                            assert(after[j] == before[j - 1]);
                        }
                    }
                },
                Err(_) => {},
            }
        }
    }
}

#[verifier::rlimit(40)]
proof fn lemma_stage_changed_back(
    files: Seq<FileEntry>,
    i: int,
    before: Seq<(String, DirectoryEntry)>,
    p: int,
    entry: (String, DirectoryEntry),
)
    requires
        0 <= i < files.len(),
        0 <= p <= before.len(),
        names_distinct(files),
        all_patchable(files.subrange(0, i)),
        stages_changed_files(files.subrange(0, i), before),
        only_files(before),
        !has_name(before, files[i].name@),
        entry.0@ == files[i].name@,
        entry.1 is File,
        file_outcome(files[i].document@) == Ok::<Option<Seq<u8>>, PatchError>(
            Some(entry.1->File_0@),
        ),
    ensures
        stages_backward(files.subrange(0, i + 1), before.insert(p, entry)),
{
    reveal(stages_backward);
    let done = files.subrange(0, i);
    let next = files.subrange(0, i + 1);
    let after = before.insert(p, entry);
    assert forall|k: int| 0 <= k < i implies #[trigger] next[k] == done[k] by {}
    assert(next[i] == files[i]);
    assert(after[p] == entry);
    assert forall|j: int|
        0 <= j < after.len() && (#[trigger] after[j]).1 is File implies exists|k: int|
            0 <= k < next.len() && (#[trigger] next[k]).name@ == after[j].0@ && file_outcome(
                next[k].document@,
            ) == Ok::<Option<Seq<u8>>, PatchError>(Some(after[j].1->File_0@)) by {
        if j == p {
            assert(next[i].name@ == after[j].0@);
        } else {
            let jj = if j < p {
                j
            } else {
                j - 1
            };
            assert(after[j] == before[jj]);
            let k = choose|k: int|
                0 <= k < done.len() && (#[trigger] done[k]).name@ == before[jj].0@ && file_outcome(
                    done[k].document@,
                ) == Ok::<Option<Seq<u8>>, PatchError>(Some(before[jj].1->File_0@));
            assert(next[k] == done[k]);
        }
    }
}

proof fn lemma_stage_changed(
    files: Seq<FileEntry>,
    i: int,
    before: Seq<(String, DirectoryEntry)>,
    p: int,
    entry: (String, DirectoryEntry),
)
    requires
        0 <= i < files.len(),
        0 <= p <= before.len(),
        names_distinct(files),
        all_patchable(files.subrange(0, i)),
        stages_changed_files(files.subrange(0, i), before),
        only_files(before),
        !has_name(before, files[i].name@),
        entry.0@ == files[i].name@,
        entry.1 is File,
        file_outcome(files[i].document@) == Ok::<Option<Seq<u8>>, PatchError>(
            Some(entry.1->File_0@),
        ),
    ensures
        all_patchable(files.subrange(0, i + 1)),
        stages_changed_files(files.subrange(0, i + 1), before.insert(p, entry)),
        only_files(before.insert(p, entry)),
{
    let done = files.subrange(0, i);
    let next = files.subrange(0, i + 1);
    let after = before.insert(p, entry);
    assert forall|k: int| 0 <= k < i implies #[trigger] next[k] == done[k] by {}
    assert(next[i] == files[i]);
    assert(after[p] == entry);
    assert forall|j: int| 0 <= j < after.len() implies (#[trigger] after[j]).1 is File by {
        if j < p {
            assert(after[j] == before[j]);
        } else if j > p {
            assert(after[j] == before[j - 1]);
        }
    }
    lemma_stage_changed_covers(files, i, before, p, entry);
    lemma_stage_changed_back(files, i, before, p, entry);
    assert forall|k: int| 0 <= k < next.len() implies (#[trigger] file_outcome(
        next[k].document@,
    )) is Ok by {
        if k < i {
            assert(done[k] == next[k]);
        }
    }
}

/// Patches every file of one directory and stages the changed ones under
/// their names; stops at the first file that cannot be patched.
pub fn modify_xaml_files(files: Vec<FileEntry>) -> (r: Result<Directory, FileError>)
    requires
        names_distinct(files@),
    ensures
        r is Ok <==> all_patchable(files@),
        match r {
            Ok(d) => names_ascending(d.entries@) && stages_changed_files(files@, d.entries@)
                && only_files(d.entries@),
            Err(e) => fails_with(files@, e),
        },
{
    let ghost orig = files@;
    let mut rest = files;
    let total = rest.len();
    let mut dir = Directory::new();
    let mut i: usize = 0;
    proof {
        lemma_stages_empty(orig.subrange(0, 0), dir.entries@);
    }
    while i < total
        invariant
            total == orig.len(),
            orig == files@,
            i <= orig.len(),
            rest@ == orig.subrange(i as int, orig.len() as int),
            names_distinct(orig),
            names_ascending(dir.entries@),
            all_patchable(orig.subrange(0, i as int)),
            stages_changed_files(orig.subrange(0, i as int), dir.entries@),
            only_files(dir.entries@),
        decreases orig.len() - i,
    {
        let file = rest.remove(0);
        assert(file == orig[i as int]);
        let FileEntry { name, document } = file;
        let result = modify_xaml_file(document);
        proof {
            lemma_not_staged_yet(orig, i as int, dir.entries@);
        }
        match result {
            Err(error) => {
                let e = FileError { name, error };
                proof {
                    if all_patchable(orig) {
                        assert(file_outcome(orig[i as int].document@) is Ok);
                    }
                }
                return Err(e);
            },
            Ok(None) => {
                proof {
                    lemma_stage_unchanged(orig, i as int, dir.entries@);
                }
            },
            Ok(Some(patched)) => {
                let ghost before = dir.entries@;
                let entry = (name, DirectoryEntry::File(patched));
                let ghost g = entry;
                dir.insert(entry.0, entry.1);
                proof {
                    let p = choose|p: int|
                        0 <= p <= before.len() && dir.entries@ == before.insert(p, g);
                    lemma_stage_changed(orig, i as int, before, p, g);
                }
            },
        }
        i = i + 1;
    }
    assert(orig.subrange(0, orig.len() as int) =~= orig);
    Ok(dir)
}

/// A staged subdirectory: its entries are exactly the changed files of
/// `files`, in ascending order of their names.
pub open spec fn staged_subdirectory(files: Seq<FileEntry>, entries: Seq<(String, DirectoryEntry)>) -> bool {
    names_ascending(entries) && stages_changed_files(files, entries) && only_files(entries)
}

/// The listing of one subdirectory: its name and its files.
pub type Listing = (String, Vec<FileEntry>);

/// The entry of `entries` at `j` is the staged subdirectory of listing `s`.
#[verifier::opaque]
pub open spec fn holds_listing(entries: Seq<(String, DirectoryEntry)>, j: int, s: Listing) -> bool {
    0 <= j < entries.len() && entries[j].0@ == s.0@ && entries[j].1 is Subdirectory
        && staged_subdirectory(s.1@, entries[j].1->Subdirectory_0.entries@)
}

/// Some entry of `entries` is the staged subdirectory of listing `s`.
#[verifier::opaque]
pub open spec fn has_listing(entries: Seq<(String, DirectoryEntry)>, s: Listing) -> bool {
    exists|j: int| holds_listing(entries, j, s)
}

proof fn lemma_has_listing_intro(entries: Seq<(String, DirectoryEntry)>, j: int, s: Listing)
    requires
        holds_listing(entries, j, s),
    ensures
        has_listing(entries, s),
{
    reveal(has_listing);
}

proof fn lemma_has_listing_elim(entries: Seq<(String, DirectoryEntry)>, s: Listing) -> (j: int)
    requires
        has_listing(entries, s),
    ensures
        holds_listing(entries, j, s),
{
    reveal(has_listing);
    choose|j: int| holds_listing(entries, j, s)
}

/// `entries` hold the changed files of `root` and, under each listed
/// subdirectory's name, the staged subdirectory of its files; nothing else.
pub open spec fn stages_tree(
    root: Seq<FileEntry>,
    subdirectories: Seq<Listing>,
    entries: Seq<(String, DirectoryEntry)>,
) -> bool {
    &&& stages_changed_files(root, entries)
    &&& forall|t: int|
        0 <= t < subdirectories.len() ==> has_listing(entries, #[trigger] subdirectories[t])
    &&& forall|j: int|
        0 <= j < entries.len() && (#[trigger] entries[j]).1 is Subdirectory ==> exists|t: int|
            0 <= t < subdirectories.len() && holds_listing(entries, j, #[trigger] subdirectories[t])
}

/// The listings can stand side by side with the root files in one directory:
/// every name once, and no two files of one listing with the same name.
pub open spec fn listings_well_formed(root: Seq<FileEntry>, subdirectories: Seq<Listing>) -> bool {
    &&& names_distinct(root)
    &&& forall|t: int| 0 <= t < subdirectories.len() ==> names_distinct(#[trigger] subdirectories[t].1@)
    &&& forall|a: int, b: int|
        0 <= a < b < subdirectories.len() ==> (#[trigger] subdirectories[a]).0@
            != (#[trigger] subdirectories[b]).0@
    &&& forall|t: int, k: int|
        0 <= t < subdirectories.len() && 0 <= k < root.len() ==> (#[trigger] subdirectories[t]).0@
            != (#[trigger] root[k]).name@
}

/// The listings are those of the widget directory's subdirectories
/// `dialog`, `panel`, `screen` and `tab`, in this order.
pub open spec fn wpfg_listings(subdirectories: Seq<Listing>) -> bool {
    &&& subdirectories.len() == 4
    &&& subdirectories[0].0@ == "dialog"@
    &&& subdirectories[1].0@ == "panel"@
    &&& subdirectories[2].0@ == "screen"@
    &&& subdirectories[3].0@ == "tab"@
}

/// Every file of every listing can be patched.
pub open spec fn listings_patchable(subdirectories: Seq<Listing>) -> bool {
    forall|t: int| 0 <= t < subdirectories.len() ==> all_patchable(#[trigger] subdirectories[t].1@)
}

#[verifier::rlimit(40)]
proof fn lemma_stages_keep_forward(
    root: Seq<FileEntry>,
    before: Seq<(String, DirectoryEntry)>,
    p: int,
    entry: (String, DirectoryEntry),
)
    requires
        0 <= p <= before.len(),
        stages_changed_files(root, before),
        entry.1 is Subdirectory,
        forall|k: int| 0 <= k < root.len() ==> (#[trigger] root[k]).name@ != entry.0@,
    ensures
        stages_forward(root, before.insert(p, entry)),
{
    reveal(stages_forward);
    let after = before.insert(p, entry);
    assert(after[p] == entry);
    assert forall|j: int| 0 <= j < p implies #[trigger] after[j] == before[j] by {}
    assert forall|j: int| p < j < after.len() implies #[trigger] after[j] == before[j - 1] by {}
    assert forall|k: int| #![trigger root[k]]
        0 <= k < root.len() implies match file_outcome(root[k].document@) {
        Ok(Some(c)) => exists|j: int|
            0 <= j < after.len() && (#[trigger] after[j]).0@ == root[k].name@ && after[j].1 is File
                && after[j].1->File_0@ == c,
        Ok(None) => !has_name(after, root[k].name@),
        Err(_) => false,
    } by {
        match file_outcome(root[k].document@) {
            Ok(Some(c)) => {
                let j = choose|j: int|
                    0 <= j < before.len() && (#[trigger] before[j]).0@ == root[k].name@
                        && before[j].1 is File && before[j].1->File_0@ == c;
                if j < p {
                    assert(after[j] == before[j]);
                } else {
                    assert(after[j + 1] == before[j]);
                }
            },
            Ok(None) => {
                if has_name(after, root[k].name@) {
                    let j = choose|j: int| 0 <= j < after.len() && #[trigger] after[j].0@ == root[k].name@;
                    if j < p {
                        assert(after[j] == before[j]);
                    } else if j > p {
                        assert(after[j] == before[j - 1]);
                    }
                }
            },
            Err(_) => {},
        }
    }
}

#[verifier::rlimit(40)]
proof fn lemma_stages_keep_backward(
    root: Seq<FileEntry>,
    before: Seq<(String, DirectoryEntry)>,
    p: int,
    entry: (String, DirectoryEntry),
)
    requires
        0 <= p <= before.len(),
        stages_changed_files(root, before),
        entry.1 is Subdirectory,
        forall|k: int| 0 <= k < root.len() ==> (#[trigger] root[k]).name@ != entry.0@,
    ensures
        stages_backward(root, before.insert(p, entry)),
{
    reveal(stages_backward);
    let after = before.insert(p, entry);
    assert(after[p] == entry);
    assert forall|j: int| 0 <= j < p implies #[trigger] after[j] == before[j] by {}
    assert forall|j: int| p < j < after.len() implies #[trigger] after[j] == before[j - 1] by {}
    assert forall|j: int|
        0 <= j < after.len() && (#[trigger] after[j]).1 is File implies exists|k: int|
            0 <= k < root.len() && (#[trigger] root[k]).name@ == after[j].0@ && file_outcome(
                root[k].document@,
            ) == Ok::<Option<Seq<u8>>, PatchError>(Some(after[j].1->File_0@)) by {
        if j < p {
            assert(after[j] == before[j]);
        } else if j > p {
            assert(after[j] == before[j - 1]);
        }
    }
}

proof fn lemma_stages_keep(
    root: Seq<FileEntry>,
    before: Seq<(String, DirectoryEntry)>,
    p: int,
    entry: (String, DirectoryEntry),
)
    requires
        0 <= p <= before.len(),
        stages_changed_files(root, before),
        entry.1 is Subdirectory,
        forall|k: int| 0 <= k < root.len() ==> (#[trigger] root[k]).name@ != entry.0@,
    ensures
        stages_changed_files(root, before.insert(p, entry)),
{
    lemma_stages_keep_forward(root, before, p, entry);
    lemma_stages_keep_backward(root, before, p, entry);
}

#[verifier::rlimit(40)]
proof fn lemma_add_subdirectory(
    root: Seq<FileEntry>,
    subdirectories: Seq<Listing>,
    t: int,
    before: Seq<(String, DirectoryEntry)>,
    p: int,
    entry: (String, DirectoryEntry),
)
    requires
        listings_well_formed(root, subdirectories),
        0 <= t < subdirectories.len(),
        0 <= p <= before.len(),
        stages_tree(root, subdirectories.subrange(0, t), before),
        entry.0@ == subdirectories[t].0@,
        entry.1 is Subdirectory,
        staged_subdirectory(subdirectories[t].1@, entry.1->Subdirectory_0.entries@),
    ensures
        stages_tree(root, subdirectories.subrange(0, t + 1), before.insert(p, entry)),
{
    let done = subdirectories.subrange(0, t);
    let next = subdirectories.subrange(0, t + 1);
    let after = before.insert(p, entry);
    assert forall|u: int| 0 <= u < t implies #[trigger] next[u] == done[u] by {}
    assert(next[t] == subdirectories[t]);
    assert(after[p] == entry);
    assert forall|j: int| 0 <= j < p implies #[trigger] after[j] == before[j] by {}
    assert forall|j: int| p < j < after.len() implies #[trigger] after[j] == before[j - 1] by {}
    assert forall|k: int| 0 <= k < root.len() implies (#[trigger] root[k]).name@ != entry.0@ by {
        assert(subdirectories[t].0@ != root[k].name@);
    }
    lemma_stages_keep(root, before, p, entry);
    // the subdirectories
    assert forall|u: int| 0 <= u < next.len() implies has_listing(after, #[trigger] next[u]) by {
        if u == t {
            lemma_holds_listing_new(after, p, next[u]);
            lemma_has_listing_intro(after, p, next[u]);
        } else {
            assert(next[u] == done[u]);
            let j = lemma_has_listing_elim(before, done[u]);
            lemma_holds_listing_bounds(before, j, done[u]);
            if j < p {
                lemma_holds_listing_moved(before, j, after, j, next[u]);
                lemma_has_listing_intro(after, j, next[u]);
            } else {
                lemma_holds_listing_moved(before, j, after, j + 1, next[u]);
                lemma_has_listing_intro(after, j + 1, next[u]);
            }
        }
    }
    assert forall|j: int|
        0 <= j < after.len() && (#[trigger] after[j]).1 is Subdirectory implies exists|u: int|
            0 <= u < next.len() && holds_listing(after, j, #[trigger] next[u]) by {
        if j == p {
            lemma_holds_listing_new(after, p, next[t]);
            assert(0 <= t < next.len() && holds_listing(after, j, next[t]));
        } else {
            let jj = if j < p {
                j
            } else {
                j - 1
            };
            assert(after[j] == before[jj]);
            let u = choose|u: int| 0 <= u < done.len() && holds_listing(before, jj, #[trigger] done[u]);
            assert(next[u] == done[u]);
            lemma_holds_listing_moved(before, jj, after, j, next[u]);
            assert(0 <= u < next.len() && holds_listing(after, j, next[u]));
        }
    }
}

proof fn lemma_holds_listing_bounds(entries: Seq<(String, DirectoryEntry)>, j: int, s: Listing)
    requires
        holds_listing(entries, j, s),
    ensures
        0 <= j < entries.len(),
        entries[j].0@ == s.0@,
{
    reveal(holds_listing);
}

proof fn lemma_holds_listing_moved(
    before: Seq<(String, DirectoryEntry)>,
    j: int,
    after: Seq<(String, DirectoryEntry)>,
    j2: int,
    s: Listing,
)
    requires
        holds_listing(before, j, s),
        0 <= j2 < after.len(),
        after[j2] == before[j],
    ensures
        holds_listing(after, j2, s),
{
    reveal(holds_listing);
}

proof fn lemma_holds_listing_new(entries: Seq<(String, DirectoryEntry)>, j: int, s: Listing)
    requires
        0 <= j < entries.len(),
        entries[j].0@ == s.0@,
        entries[j].1 is Subdirectory,
        staged_subdirectory(s.1@, entries[j].1->Subdirectory_0.entries@),
    ensures
        holds_listing(entries, j, s),
{
    reveal(holds_listing);
}

proof fn lemma_staged_file_named(files: Seq<FileEntry>, entries: Seq<(String, DirectoryEntry)>, j: int)
    requires
        stages_changed_files(files, entries),
        0 <= j < entries.len(),
        entries[j].1 is File,
    ensures
        exists|k: int| 0 <= k < files.len() && (#[trigger] files[k]).name@ == entries[j].0@,
{
    reveal(stages_backward);
    assert(entries[j].1 is File);
}

proof fn lemma_listing_name_free(
    root: Seq<FileEntry>,
    subdirectories: Seq<Listing>,
    t: int,
    entries: Seq<(String, DirectoryEntry)>,
)
    requires
        listings_well_formed(root, subdirectories),
        0 <= t < subdirectories.len(),
        stages_tree(root, subdirectories.subrange(0, t), entries),
    ensures
        !has_name(entries, subdirectories[t].0@),
{
    let done = subdirectories.subrange(0, t);
    if has_name(entries, subdirectories[t].0@) {
        let j = choose|j: int| 0 <= j < entries.len() && #[trigger] entries[j].0@ == subdirectories[t].0@;
        if entries[j].1 is File {
            lemma_staged_file_named(root, entries, j);
            let k = choose|k: int| 0 <= k < root.len() && (#[trigger] root[k]).name@ == entries[j].0@;
            assert(subdirectories[t].0@ != root[k].name@);
        } else {
            let u = choose|u: int| 0 <= u < done.len() && holds_listing(entries, j, #[trigger] done[u]);
            lemma_holds_listing_bounds(entries, j, done[u]);
            assert(done[u] == subdirectories[u]);
            assert(subdirectories[u].0@ != subdirectories[t].0@);
        }
    }
}

/// Stages the changed files of the widget directory: its own files, and under
/// each listed subdirectory's name the changed files of that subdirectory.
pub fn modify_wpfg(root: Vec<FileEntry>, subdirectories: Vec<Listing>) -> (r: Result<
    Directory,
    FileError,
>)
    requires
        wpfg_listings(subdirectories@),
        listings_well_formed(root@, subdirectories@),
    ensures
        r is Ok <==> all_patchable(root@) && listings_patchable(subdirectories@),
        match r {
            Ok(d) => names_ascending(d.entries@) && stages_tree(root@, subdirectories@, d.entries@),
            Err(e) => fails_with(root@, e) || exists|t: int|
                0 <= t < subdirectories@.len() && fails_with(#[trigger] subdirectories@[t].1@, e),
        },
{
    let ghost root_files = root@;
    let ghost subs = subdirectories@;
    let mut dir = match modify_xaml_files(root) {
        Ok(d) => d,
        Err(e) => {
            return Err(e);
        },
    };
    proof {
        assert forall|j: int|
            0 <= j < dir.entries@.len() && (#[trigger] dir.entries@[j]).1 is Subdirectory implies false by {
            assert(dir.entries@[j].1 is File);
        }
    }
    let mut rest = subdirectories;
    let total = rest.len();
    let mut t: usize = 0;
    while t < total
        invariant
            total == subs.len(),
            subs == subdirectories@,
            root_files == root@,
            t <= subs.len(),
            rest@ == subs.subrange(t as int, subs.len() as int),
            listings_well_formed(root_files, subs),
            all_patchable(root_files),
            listings_patchable(subs.subrange(0, t as int)),
            names_ascending(dir.entries@),
            stages_tree(root_files, subs.subrange(0, t as int), dir.entries@),
        decreases subs.len() - t,
    {
        let listing = rest.remove(0);
        assert(listing == subs[t as int]);
        let ghost done = subs.subrange(0, t as int);
        let ghost next = subs.subrange(0, t + 1);
        assert(names_distinct(subs[t as int].1@));
        let (name, files) = listing;
        let sub = match modify_xaml_files(files) {
            Ok(d) => d,
            Err(e) => {
                proof {
                    if listings_patchable(subs) {
                        assert(all_patchable(subs[t as int].1@));
                    }
                }
                return Err(e);
            },
        };
        proof {
            lemma_listing_name_free(root_files, subs, t as int, dir.entries@);
        }
        let ghost before = dir.entries@;
        let entry = (name, DirectoryEntry::Subdirectory(Box::new(sub)));
        let ghost g = entry;
        dir.insert(entry.0, entry.1);
        proof {
            let p = choose|p: int| 0 <= p <= before.len() && dir.entries@ == before.insert(p, g);
            lemma_add_subdirectory(root_files, subs, t as int, before, p, g);
            assert forall|u: int| 0 <= u < next.len() implies all_patchable(#[trigger] next[u].1@) by {
                if u < t {
                    assert(next[u] == done[u]);
                }
            }
        }
        t = t + 1;
    }
    assert(subs.subrange(0, subs.len() as int) =~= subs);
    Ok(dir)
}

/// Name of the metadata file at the root of the mod.
pub open spec fn info_json_name() -> Seq<char> {
    "info.json"@
}

/// `e` is a directory whose one entry is a subdirectory named `name`.
pub open spec fn only_child(e: DirectoryEntry, name: Seq<char>) -> bool {
    e is Subdirectory && e->Subdirectory_0.entries@.len() == 1
        && e->Subdirectory_0.entries@[0].0@ == name && e->Subdirectory_0.entries@[0].1 is Subdirectory
}

/// The one entry of the directory `e`.
pub open spec fn child(e: DirectoryEntry) -> DirectoryEntry {
    e->Subdirectory_0.entries@[0].1
}

/// The layout of the mod: the metadata file `info`, then
/// `resources/_common/wpfg` holding the staged widget directory, whose
/// subdirectories are `dialog`, `panel`, `screen` and `tab`.
pub open spec fn mod_layout(
    entries: Seq<(String, DirectoryEntry)>,
    info: Seq<u8>,
    root: Seq<FileEntry>,
    subdirectories: Seq<Listing>,
) -> bool {
    &&& names_ascending(entries)
    &&& entries.len() == 2
    &&& entries[0].0@ == info_json_name()
    &&& entries[0].1 is File
    &&& entries[0].1->File_0@ == info
    &&& entries[1].0@ == "resources"@
    &&& only_child(entries[1].1, "_common"@)
    &&& only_child(child(entries[1].1), "wpfg"@)
    &&& names_ascending(child(child(entries[1].1))->Subdirectory_0.entries@)
    &&& wpfg_listings(subdirectories)
    &&& stages_tree(root, subdirectories, child(child(entries[1].1))->Subdirectory_0.entries@)
}

/// The names of the subdirectories of the widget directory that are patched.
pub fn wpfg_subdirectory_names() -> (r: Vec<String>)
    ensures
        r@.len() == 4,
        r@[0]@ == "dialog"@,
        r@[1]@ == "panel"@,
        r@[2]@ == "screen"@,
        r@[3]@ == "tab"@,
{
    let mut r: Vec<String> = Vec::new();
    r.push("dialog".to_string());
    r.push("panel".to_string());
    r.push("screen".to_string());
    r.push("tab".to_string());
    r
}

/// The path of the widget directory under the installation root.
pub fn wpfg_path() -> (r: Vec<String>)
    ensures
        r@.len() == 3,
        r@[0]@ == "resources"@,
        r@[1]@ == "_common"@,
        r@[2]@ == "wpfg"@,
{
    let mut r: Vec<String> = Vec::new();
    r.push("resources".to_string());
    r.push("_common".to_string());
    r.push("wpfg".to_string());
    r
}

/// A directory whose one entry is `entry` under `name`.
fn single(name: String, entry: DirectoryEntry) -> (r: Directory)
    ensures
        r.entries@.len() == 1,
        r.entries@[0] == (name, entry),
        names_ascending(r.entries@),
{
    let mut entries: Vec<(String, DirectoryEntry)> = Vec::new();
    entries.push((name, entry));
    Directory { entries }
}

proof fn lemma_info_before_resources()
    ensures
        crate::order::name_less("info.json"@, "resources"@),
{
    reveal_strlit("info.json");
    reveal_strlit("resources");
    vstd::utf8::is_ascii_chars_encode_utf8("info.json"@);
    vstd::utf8::is_ascii_chars_encode_utf8("resources"@);
}

/// Builds the mod: the metadata file `info_json` at the root, and the staged
/// widget directory under `resources/_common/wpfg`.
pub fn generate_mod(info_json: Vec<u8>, root: Vec<FileEntry>, subdirectories: Vec<Listing>) -> (r:
    Result<Directory, FileError>)
    requires
        wpfg_listings(subdirectories@),
        listings_well_formed(root@, subdirectories@),
    ensures
        r is Ok <==> all_patchable(root@) && listings_patchable(subdirectories@),
        match r {
            Ok(d) => mod_layout(d.entries@, info_json@, root@, subdirectories@),
            Err(e) => fails_with(root@, e) || exists|t: int|
                0 <= t < subdirectories@.len() && fails_with(#[trigger] subdirectories@[t].1@, e),
        },
{
    let wpfg = match modify_wpfg(root, subdirectories) {
        Ok(d) => d,
        Err(e) => {
            return Err(e);
        },
    };
    let common = single("wpfg".to_string(), DirectoryEntry::Subdirectory(Box::new(wpfg)));
    let resources = single("_common".to_string(), DirectoryEntry::Subdirectory(Box::new(common)));
    let mut entries: Vec<(String, DirectoryEntry)> = Vec::new();
    entries.push(("info.json".to_string(), DirectoryEntry::File(info_json)));
    entries.push(("resources".to_string(), DirectoryEntry::Subdirectory(Box::new(resources))));
    proof {
        lemma_info_before_resources();
    }
    Ok(Directory { entries })
}

} // verus!
