//! The virtual directory tree that stages the output files before they are
//! written, and the flat list of writes it is emitted as.
use vstd::prelude::*;

use crate::order::{
    lemma_bytes_less_transitive, lemma_name_less_total, name_less, name_less_exec, utf8_of,
};

verus! {

/// What a name stands for in a directory.
pub enum DirectoryEntry {
    File(Vec<u8>),
    Subdirectory(Box<Directory>),
}

/// A directory: its entries, kept in ascending order of their names, so that
/// every name stands once and the order of insertion leaves no trace.
pub struct Directory {
    pub entries: Vec<(String, DirectoryEntry)>,
}

/// One file to create: the names of the directories that lead to it, then its
/// own name, and its content.
pub struct FileWrite {
    pub path: Vec<String>,
    pub content: Vec<u8>,
}

/// Entries whose names strictly ascend.
pub open spec fn names_ascending(entries: Seq<(String, DirectoryEntry)>) -> bool {
    forall|i: int, j: int|
        0 <= i < j < entries.len() ==> name_less(#[trigger] entries[i].0@, #[trigger] entries[j].0@)
}

/// Some entry has the name `name`.
pub open spec fn has_name(entries: Seq<(String, DirectoryEntry)>, name: Seq<char>) -> bool {
    exists|i: int| 0 <= i < entries.len() && #[trigger] entries[i].0@ == name
}

/// A file to create, as paths of names and bytes.
pub type FileModel = (Seq<Seq<char>>, Seq<u8>);

/// The files under `entries`, in the order of the entries, each subdirectory's
/// files in place of it with its name put in front of their paths.
pub open spec fn files_of(entries: Seq<(String, DirectoryEntry)>) -> Seq<FileModel>
    decreases entries,
{
    if entries.len() == 0 {
        Seq::empty()
    } else {
        let last = entries.last();
        let before = files_of(entries.drop_last());
        match last.1 {
            DirectoryEntry::File(content) => before.push((seq![last.0@], content@)),
            DirectoryEntry::Subdirectory(sub) => before + under(last.0@, files_of(sub.entries@)),
        }
    }
}

/// `files` with `name` put in front of each path.
pub open spec fn under(name: Seq<char>, files: Seq<FileModel>) -> Seq<FileModel> {
    files.map_values(|f: FileModel| (seq![name] + f.0, f.1))
}

/// The model of a list of writes.
pub open spec fn writes_model(writes: Seq<FileWrite>) -> Seq<FileModel> {
    writes.map_values(|w: FileWrite| (w.path@.map_values(|s: String| s@), w.content@))
}

impl Directory {
    /// The empty directory.
    pub fn new() -> (r: Directory)
        ensures
            r.entries@.len() == 0,
    {
        Directory { entries: Vec::new() }
    }

    /// Adds `entry` under a name that is not yet taken, at the place that
    /// keeps the names ascending.
    pub fn insert(&mut self, name: String, entry: DirectoryEntry)
        requires
            names_ascending(old(self).entries@),
            !has_name(old(self).entries@, name@),
        ensures
            names_ascending(final(self).entries@),
            exists|p: int|
                0 <= p <= old(self).entries@.len() && final(self).entries@ == old(
                    self,
                ).entries@.insert(p, (name, entry)),
    {
        let mut p: usize = 0;
        while p < self.entries.len() && name_less_exec(&self.entries[p].0, &name)
            invariant
                p <= self.entries@.len(),
                forall|k: int| 0 <= k < p ==> name_less(#[trigger] self.entries@[k].0@, name@),
            decreases self.entries@.len() - p,
        {
            p = p + 1;
        }
        let ghost old_entries = self.entries@;
        proof {
            if p < old_entries.len() {
                assert(old_entries[p as int].0@ != name@);
                lemma_name_less_total(old_entries[p as int].0@, name@);
                assert forall|k: int| p < k < old_entries.len() implies name_less(
                    name@,
                    #[trigger] old_entries[k].0@,
                ) by {
                    assert(name_less(old_entries[p as int].0@, old_entries[k].0@));
                    lemma_bytes_less_transitive(
                        utf8_of(name@),
                        utf8_of(old_entries[p as int].0@),
                        utf8_of(old_entries[k].0@),
                    );
                }
            }
        }
        self.entries.insert(p, (name, entry));
        proof {
            let new_entries = self.entries@;
            assert forall|i: int, j: int| 0 <= i < j < new_entries.len() implies name_less(
                #[trigger] new_entries[i].0@,
                #[trigger] new_entries[j].0@,
            ) by {
                if j < p {
                    assert(new_entries[i] == old_entries[i]);
                    assert(new_entries[j] == old_entries[j]);
                } else if i < p && j == p {
                } else if i < p && j > p {
                    assert(new_entries[j] == old_entries[j - 1]);
                    if j - 1 > i {
                        assert(name_less(old_entries[i].0@, old_entries[j - 1].0@));
                    }
                } else if i == p {
                    assert(new_entries[j] == old_entries[j - 1]);
                } else {
                    assert(new_entries[i] == old_entries[i - 1]);
                    assert(new_entries[j] == old_entries[j - 1]);
                }
            }
        }
    }
}

proof fn lemma_name_less_irreflexive(a: Seq<char>)
    ensures
        !name_less(a, a),
{
    crate::order::lemma_bytes_less_irreflexive(utf8_of(a));
}

proof fn lemma_contains_after_insert(
    s: Seq<(String, DirectoryEntry)>,
    p: int,
    x: (String, DirectoryEntry),
    e: (String, DirectoryEntry),
)
    requires
        0 <= p <= s.len(),
    ensures
        s.insert(p, x).contains(e) <==> (e == x || s.contains(e)),
{
    let t = s.insert(p, x);
    if t.contains(e) {
        let i = choose|i: int| 0 <= i < t.len() && t[i] == e;
        if i < p {
            assert(s[i] == e);
        } else if i > p {
            assert(s[i - 1] == e);
        }
    }
    if s.contains(e) {
        let i = choose|i: int| 0 <= i < s.len() && s[i] == e;
        if i < p {
            assert(t[i] == e);
        } else {
            assert(t[i + 1] == e);
        }
    }
    if e == x {
        assert(t[p] == e);
    }
}

/// Entries whose names ascend are fixed by which entries they hold: the
/// order in which they were inserted leaves no trace.
pub proof fn lemma_ascending_entries_unique(
    a: Seq<(String, DirectoryEntry)>,
    b: Seq<(String, DirectoryEntry)>,
)
    requires
        names_ascending(a),
        names_ascending(b),
        forall|e: (String, DirectoryEntry)| a.contains(e) <==> b.contains(e),
    ensures
        a == b,
    decreases a.len() + b.len(),
{
    if a.len() == 0 {
        if b.len() > 0 {
            assert(b.contains(b[0]));
        }
        assert(a =~= b);
    } else if b.len() == 0 {
        assert(a.contains(a[0]));
    } else {
        assert(a.contains(a[0]));
        assert(b.contains(b[0]));
        let j = choose|j: int| 0 <= j < b.len() && b[j] == a[0];
        let i = choose|i: int| 0 <= i < a.len() && a[i] == b[0];
        if j > 0 {
            assert(name_less(b[0].0@, b[j].0@));
            if i == 0 {
                lemma_name_less_irreflexive(b[0].0@);
            } else {
                assert(name_less(a[0].0@, a[i].0@));
                crate::order::lemma_bytes_less_asymmetric(utf8_of(a[0].0@), utf8_of(b[0].0@));
            }
        }
        assert(a[0] == b[0]);
        let a2 = a.drop_first();
        let b2 = b.drop_first();
        assert forall|e: (String, DirectoryEntry)| a2.contains(e) implies b2.contains(e) by {
            let k = choose|k: int| 0 <= k < a2.len() && a2[k] == e;
            assert(a[k + 1] == e);
            assert(b.contains(e));
            let m = choose|m: int| 0 <= m < b.len() && b[m] == e;
            if m == 0 {
                assert(name_less(a[0].0@, a[k + 1].0@));
                lemma_name_less_irreflexive(a[0].0@);
            } else {
                assert(b2[m - 1] == e);
            }
        }
        assert forall|e: (String, DirectoryEntry)| b2.contains(e) implies a2.contains(e) by {
            let k = choose|k: int| 0 <= k < b2.len() && b2[k] == e;
            assert(b[k + 1] == e);
            assert(a.contains(e));
            let m = choose|m: int| 0 <= m < a.len() && a[m] == e;
            if m == 0 {
                assert(name_less(b[0].0@, b[k + 1].0@));
                lemma_name_less_irreflexive(b[0].0@);
            } else {
                assert(a2[m - 1] == e);
            }
        }
        assert forall|x: int, y: int| 0 <= x < y < a2.len() implies name_less(
            #[trigger] a2[x].0@,
            #[trigger] a2[y].0@,
        ) by {
            assert(a2[x] == a[x + 1] && a2[y] == a[y + 1]);
        }
        assert forall|x: int, y: int| 0 <= x < y < b2.len() implies name_less(
            #[trigger] b2[x].0@,
            #[trigger] b2[y].0@,
        ) by {
            assert(b2[x] == b[x + 1] && b2[y] == b[y + 1]);
        }
        lemma_ascending_entries_unique(a2, b2);
        assert(a =~= seq![a[0]] + a2);
        assert(b =~= seq![b[0]] + b2);
    }
}

/// Inserting two entries in one order or the other gives the same directory.
pub proof fn lemma_insertion_order_irrelevant(
    s: Seq<(String, DirectoryEntry)>,
    x: (String, DirectoryEntry),
    y: (String, DirectoryEntry),
    p1: int,
    p2: int,
    q1: int,
    q2: int,
)
    requires
        0 <= p1 <= s.len(),
        0 <= p2 <= s.len() + 1,
        0 <= q1 <= s.len(),
        0 <= q2 <= s.len() + 1,
        names_ascending(s.insert(p1, x).insert(p2, y)),
        names_ascending(s.insert(q1, y).insert(q2, x)),
    ensures
        s.insert(p1, x).insert(p2, y) == s.insert(q1, y).insert(q2, x),
{
    assert forall|e: (String, DirectoryEntry)|
        s.insert(p1, x).insert(p2, y).contains(e) <==> s.insert(q1, y).insert(q2, x).contains(e) by {
        lemma_contains_after_insert(s, p1, x, e);
        lemma_contains_after_insert(s.insert(p1, x), p2, y, e);
        lemma_contains_after_insert(s, q1, y, e);
        lemma_contains_after_insert(s.insert(q1, y), q2, x, e);
    }
    lemma_ascending_entries_unique(s.insert(p1, x).insert(p2, y), s.insert(q1, y).insert(q2, x));
}

/// Names ascend in `entries` and in every subdirectory below them.
pub open spec fn tree_ascending(entries: Seq<(String, DirectoryEntry)>) -> bool
    decreases entries,
{
    &&& names_ascending(entries)
    &&& forall|j: int|
        0 <= j < entries.len() ==> match #[trigger] entries[j].1 {
            DirectoryEntry::Subdirectory(d) => tree_ascending(d.entries@),
            DirectoryEntry::File(_) => true,
        }
}

/// Whether the names of `entries` strictly ascend.
fn entries_ascend(entries: &Vec<(String, DirectoryEntry)>) -> (r: bool)
    ensures
        r == names_ascending(entries@),
{
    let mut i: usize = 0;
    while i < entries.len()
        invariant
            i <= entries@.len(),
            forall|a: int, b: int|
                0 <= a < i && a < b < entries@.len() ==> name_less(
                    #[trigger] entries@[a].0@,
                    #[trigger] entries@[b].0@,
                ),
        decreases entries@.len() - i,
    {
        let mut j: usize = i + 1;
        while j < entries.len()
            invariant
                i < entries@.len(),
                i + 1 <= j <= entries@.len(),
                forall|a: int, b: int|
                    0 <= a < i && a < b < entries@.len() ==> name_less(
                        #[trigger] entries@[a].0@,
                        #[trigger] entries@[b].0@,
                    ),
                forall|b: int| i < b < j ==> name_less(entries@[i as int].0@, #[trigger] entries@[b].0@),
            decreases entries@.len() - j,
        {
            if !name_less_exec(&entries[i].0, &entries[j].0) {
                return false;
            }
            j = j + 1;
        }
        i = i + 1;
    }
    true
}

impl Directory {
    /// Whether names ascend in this directory and in every one below it.
    pub fn is_sorted(&self) -> (r: bool)
        ensures
            r == tree_ascending(self.entries@),
        decreases self,
    {
        if !entries_ascend(&self.entries) {
            return false;
        }
        let mut i: usize = 0;
        while i < self.entries.len()
            invariant
                i <= self.entries@.len(),
                names_ascending(self.entries@),
                forall|j: int|
                    0 <= j < i ==> match #[trigger] self.entries@[j].1 {
                        DirectoryEntry::Subdirectory(d) => tree_ascending(d.entries@),
                        DirectoryEntry::File(_) => true,
                    },
            decreases self.entries@.len() - i,
        {
            if let DirectoryEntry::Subdirectory(sub) = &self.entries[i].1 {
                proof {
                    assert(decreases_to!(*self => self.entries@[i as int]));
                }
                if !sub.is_sorted() {
                    return false;
                }
            }
            i = i + 1;
        }
        true
    }
}

/// A copy of `v`.
fn copy_bytes(v: &Vec<u8>) -> (r: Vec<u8>)
    ensures
        r@ == v@,
{
    let r = v.clone();
    assert(r@ =~= v@);
    r
}

/// Appends the writes of `inner` to `out`, each with `name` put in front of
/// its path.
fn push_under(out: &mut Vec<FileWrite>, name: &String, inner: &Vec<FileWrite>)
    ensures
        writes_model(final(out)@) == writes_model(old(out)@) + under(name@, writes_model(inner@)),
{
    let mut t: usize = 0;
    while t < inner.len()
        invariant
            t <= inner@.len(),
            writes_model(out@) == writes_model(old(out)@) + under(
                name@,
                writes_model(inner@.subrange(0, t as int)),
            ),
        decreases inner@.len() - t,
    {
        let w = &inner[t];
        let mut path: Vec<String> = Vec::new();
        path.push(name.clone());
        let mut q: usize = 0;
        while q < w.path.len()
            invariant
                q <= w.path@.len(),
                path@.map_values(|s: String| s@) == seq![name@] + w.path@.subrange(
                    0,
                    q as int,
                ).map_values(|s: String| s@),
            decreases w.path@.len() - q,
        {
            let ghost shorter = path@;
            let part = w.path[q].clone();
            path.push(part);
            assert(path@.map_values(|s: String| s@) =~= shorter.map_values(|s: String| s@).push(
                w.path@[q as int]@,
            ));
            assert(w.path@.subrange(0, q + 1).map_values(|s: String| s@) =~= w.path@.subrange(
                0,
                q as int,
            ).map_values(|s: String| s@).push(w.path@[q as int]@));
            assert(path@.map_values(|s: String| s@) =~= seq![name@] + w.path@.subrange(
                0,
                q + 1,
            ).map_values(|s: String| s@));
            q = q + 1;
        }
        assert(w.path@.subrange(0, w.path@.len() as int) =~= w.path@);
        let ghost before = out@;
        out.push(FileWrite { path, content: copy_bytes(&w.content) });
        assert(inner@.subrange(0, t + 1) =~= inner@.subrange(0, t as int).push(*w));
        assert(writes_model(out@) =~= writes_model(before).push(
            (seq![name@] + w.path@.map_values(|s: String| s@), w.content@),
        ));
        assert(under(name@, writes_model(inner@.subrange(0, t + 1))) =~= under(
            name@,
            writes_model(inner@.subrange(0, t as int)),
        ).push((seq![name@] + w.path@.map_values(|s: String| s@), w.content@)));
        assert(writes_model(out@) =~= writes_model(old(out)@) + under(
            name@,
            writes_model(inner@.subrange(0, t + 1)),
        ));
        t = t + 1;
    }
    assert(inner@.subrange(0, inner@.len() as int) =~= inner@);
}

/// Emits `data` as the list of files to create: every file of the tree once,
/// with the path that leads to it, depth first and, at every level, in
/// ascending order of names.
pub fn write_directory(data: &Directory) -> (r: Vec<FileWrite>)
    requires
        tree_ascending(data.entries@),
    ensures
        writes_model(r@) == files_of(data.entries@),
    decreases data,
{
    let mut out: Vec<FileWrite> = Vec::new();
    let mut i: usize = 0;
    while i < data.entries.len()
        invariant
            i <= data.entries@.len(),
            writes_model(out@) == files_of(data.entries@.subrange(0, i as int)),
            tree_ascending(data.entries@),
        decreases data.entries@.len() - i,
    {
        let ghost before = out@;
        let entry = &data.entries[i];
        assert(data.entries@.subrange(0, i + 1).drop_last() =~= data.entries@.subrange(
            0,
            i as int,
        ));
        assert(data.entries@.subrange(0, i + 1).last() == *entry);
        match &entry.1 {
            DirectoryEntry::File(content) => {
                let mut path: Vec<String> = Vec::new();
                path.push(entry.0.clone());
                assert(path@.map_values(|s: String| s@) =~= seq![entry.0@]);
                out.push(FileWrite { path, content: copy_bytes(content) });
                assert(writes_model(out@) =~= writes_model(before).push(
                    (seq![entry.0@], content@),
                ));
            },
            DirectoryEntry::Subdirectory(sub) => {
                proof {
                    assert(decreases_to!(*data => data.entries@[i as int]));
                }
                assert(tree_ascending(sub.entries@)) by {
                    assert(match data.entries@[i as int].1 {
                        DirectoryEntry::Subdirectory(d) => tree_ascending(d.entries@),
                        DirectoryEntry::File(_) => true,
                    });
                }
                let inner = write_directory(sub);
                push_under(&mut out, &entry.0, &inner);
            },
        }
        i = i + 1;
    }
    assert(data.entries@.subrange(0, data.entries@.len() as int) =~= data.entries@);
    out
}

} // verus!
