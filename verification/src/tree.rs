//! The document tree: named entries that are either files (text) or
//! directories (ordered lists of named entries with unique names), with
//! verified lookup and path descent.

use vstd::prelude::*;
use crate::text::spec_split;
use crate::text::split_char;
use crate::text::str_eq;
use crate::text::string_views;

verus! {

/// Mathematical model of an entry: file content, or a directory as an
/// ordered sequence of (name, entry) pairs.
pub enum Node {
    File(Seq<char>),
    Dir(Seq<(Seq<char>, Node)>),
}

/// An entry of the virtual filesystem: a file with text content, or a
/// directory holding named children in insertion order.
pub enum FileOrDirectory {
    File(String),
    Directory(Vec<(String, FileOrDirectory)>),
}

/// The whole document: the root directory's children.
pub struct FileSystem {
    pub entries: Vec<(String, FileOrDirectory)>,
}

/// The model of an entry.
pub open spec fn entry_model(e: FileOrDirectory) -> Node
    decreases e,
{
    match e {
        FileOrDirectory::File(s) => Node::File(s@),
        FileOrDirectory::Directory(v) => {
            proof {
                assert(decreases_to!(e => v));
                assert(decreases_to!(v => v@));
            }
            Node::Dir(pairs_model(v@))
        },
    }
}

/// The model of a sequence of named entries.
pub open spec fn pairs_model(s: Seq<(String, FileOrDirectory)>) -> Seq<(Seq<char>, Node)>
    decreases s,
{
    Seq::new(
        s.len(),
        |i: int|
            if 0 <= i < s.len() {
                proof {
                    assert(decreases_to!(s => s[i]));
                }
                (s[i].0@, entry_model(s[i].1))
            } else {
                (Seq::empty(), Node::File(Seq::empty()))
            },
    )
}

/// The model of a directory's children.
pub open spec fn entries_model(v: Vec<(String, FileOrDirectory)>) -> Seq<(Seq<char>, Node)> {
    pairs_model(v@)
}

/// The model of the whole document.
pub open spec fn fs_model(fs: FileSystem) -> Seq<(Seq<char>, Node)> {
    entries_model(fs.entries)
}

/// The children of a directory node (empty for a file).
pub open spec fn dir_entries(n: Node) -> Seq<(Seq<char>, Node)> {
    match n {
        Node::Dir(m) => m,
        Node::File(_) => seq![],
    }
}

/// Whether some entry of `m` bears `name`.
pub open spec fn has_name(m: Seq<(Seq<char>, Node)>, name: Seq<char>) -> bool {
    exists|i: int| 0 <= i < m.len() && m[i].0 == name
}

/// An index of the entry bearing `name`.
pub open spec fn index_of_name(m: Seq<(Seq<char>, Node)>, name: Seq<char>) -> int {
    choose|i: int| 0 <= i < m.len() && m[i].0 == name
}

/// The entry of `m` bearing `name`.
pub open spec fn lookup_name(m: Seq<(Seq<char>, Node)>, name: Seq<char>) -> Node
    recommends
        has_name(m, name),
{
    m[index_of_name(m, name)].1
}

/// Entry names are pairwise distinct.
pub open spec fn names_unique(m: Seq<(Seq<char>, Node)>) -> bool {
    forall|i: int, j: int| 0 <= i < j < m.len() ==> m[i].0 != m[j].0
}

/// Well-formedness: names are unique in every directory, recursively.
pub open spec fn node_wf(n: Node) -> bool
    decreases n,
{
    match n {
        Node::File(_) => true,
        Node::Dir(m) => names_unique(m) && (forall|i: int|
            0 <= i < m.len() ==> node_wf(#[trigger] m[i].1)),
    }
}

/// Well-formedness of a directory's children.
pub open spec fn entries_wf(m: Seq<(Seq<char>, Node)>) -> bool {
    names_unique(m) && (forall|i: int| 0 <= i < m.len() ==> node_wf(#[trigger] m[i].1))
}

/// A found index is the index: under unique names, the entry bearing a
/// name is the one at any index where that name occurs.
pub proof fn lemma_found_index(m: Seq<(Seq<char>, Node)>, name: Seq<char>, i: int)
    requires
        names_unique(m),
        0 <= i < m.len(),
        m[i].0 == name,
    ensures
        has_name(m, name),
        index_of_name(m, name) == i,
        lookup_name(m, name) == m[i].1,
{
    assert(has_name(m, name));
    let j = index_of_name(m, name);
    assert(0 <= j < m.len() && m[j].0 == name);
    if i != j {
        assert(false);
    }
}

/// Whether `path` resolves from `m` through existing directories only.
pub open spec fn resolves(m: Seq<(Seq<char>, Node)>, path: Seq<Seq<char>>) -> bool
    decreases path.len(),
{
    path.len() == 0 || {
        &&& has_name(m, path[0])
        &&& lookup_name(m, path[0]) is Dir
        &&& resolves(dir_entries(lookup_name(m, path[0])), path.drop_first())
    }
}

/// The children of the directory that `path` resolves to.
pub open spec fn dir_at(m: Seq<(Seq<char>, Node)>, path: Seq<Seq<char>>) -> Seq<
    (Seq<char>, Node),
>
    recommends
        resolves(m, path),
    decreases path.len(),
{
    if path.len() == 0 {
        m
    } else {
        dir_at(dir_entries(lookup_name(m, path[0])), path.drop_first())
    }
}

/// `m` with the children of the directory at `path` replaced by `new`.
pub open spec fn replace_dir_at(
    m: Seq<(Seq<char>, Node)>,
    path: Seq<Seq<char>>,
    new: Seq<(Seq<char>, Node)>,
) -> Seq<(Seq<char>, Node)>
    recommends
        resolves(m, path),
    decreases path.len(),
{
    if path.len() == 0 {
        new
    } else {
        let i = index_of_name(m, path[0]);
        m.update(
            i,
            (path[0], Node::Dir(replace_dir_at(dir_entries(lookup_name(m, path[0])), path.drop_first(), new))),
        )
    }
}

/// Finds the position of the entry named `name`, scanning in order.
pub fn find_entry(v: &Vec<(String, FileOrDirectory)>, name: &str) -> (r: Option<usize>)
    ensures
        match r {
            Some(i) => i < v@.len() && v@[i as int].0@ == name@,
            None => !has_name(entries_model(*v), name@),
        },
{
    let mut i: usize = 0;
    while i < v.len()
        invariant
            0 <= i <= v@.len(),
            forall|j: int| 0 <= j < i ==> v@[j].0@ != name@,
        decreases v@.len() - i,
    {
        if str_eq(v[i].0.as_str(), name) {
            return Some(i);
        }
        i += 1;
    }
    proof {
        assert forall|j: int| 0 <= j < entries_model(*v).len() implies entries_model(*v)[j].0
            != name@ by {
            assert(entries_model(*v)[j].0 == v@[j].0@);
        }
    }
    None
}

/// Checks well-formedness of a directory's children, recursively.
pub fn entries_check(v: &Vec<(String, FileOrDirectory)>) -> (r: bool)
    ensures
        r == entries_wf(entries_model(*v)),
    decreases v,
{
    let ghost m = entries_model(*v);
    let mut i: usize = 0;
    while i < v.len()
        invariant
            0 <= i <= v@.len(),
            m == entries_model(*v),
            forall|j1: int, j2: int| 0 <= j1 < j2 < i ==> m[j1].0 != m[j2].0,
            forall|j: int| 0 <= j < i ==> node_wf(#[trigger] m[j].1),
        decreases v@.len() - i,
    {
        let mut j: usize = 0;
        while j < i
            invariant
                0 <= j <= i < v@.len(),
                m == entries_model(*v),
                forall|t: int| 0 <= t < j ==> m[t].0 != m[i as int].0,
            decreases i - j,
        {
            if str_eq(v[j].0.as_str(), v[i].0.as_str()) {
                proof {
                    assert(m[j as int].0 == m[i as int].0);
                    assert(!names_unique(m));
                }
                return false;
            }
            j += 1;
        }
        match &v[i].1 {
            FileOrDirectory::Directory(sub) => {
                if !entries_check(sub) {
                    proof {
                        assert(m[i as int].1 == Node::Dir(entries_model(*sub)));
                        assert(!node_wf(m[i as int].1));
                    }
                    return false;
                }
                proof {
                    assert(m[i as int].1 == Node::Dir(entries_model(*sub)));
                }
            },
            FileOrDirectory::File(_) => {
                proof {
                    assert(m[i as int].1 is File);
                }
            },
        }
        i += 1;
    }
    true
}

/// Checks the document-tree invariant: unique names in every directory.
pub fn tree_is_wf(fs: &FileSystem) -> (r: bool)
    ensures
        r == entries_wf(fs_model(*fs)),
{
    entries_check(&fs.entries)
}

/// Follows `path` (from position `from` on) down from `v`, returning the
/// children of the directory it ends at.
pub fn dir_children<'a>(
    v: &'a Vec<(String, FileOrDirectory)>,
    path: &Vec<String>,
    from: usize,
) -> (r: &'a Vec<(String, FileOrDirectory)>)
    requires
        from <= path@.len(),
        entries_wf(entries_model(*v)),
        resolves(entries_model(*v), string_views(path@).skip(from as int)),
    ensures
        entries_model(*r) == dir_at(entries_model(*v), string_views(path@).skip(from as int)),
        entries_wf(entries_model(*r)),
    decreases path@.len() - from,
{
    let ghost m = entries_model(*v);
    let ghost p = string_views(path@).skip(from as int);
    if from == path.len() {
        proof {
            assert(p.len() == 0);
        }
        v
    } else {
        proof {
            assert(p[0] == path@[from as int]@);
        }
        match find_entry(v, path[from].as_str()) {
            Some(i) => {
                proof {
                    lemma_found_index(m, p[0], i as int);
                }
                match &v[i].1 {
                    FileOrDirectory::Directory(sub) => {
                        proof {
                            assert(m[i as int].1 == Node::Dir(entries_model(*sub)));
                            assert(dir_entries(lookup_name(m, p[0])) == entries_model(*sub));
                            assert(node_wf(m[i as int].1));
                            assert(string_views(path@).skip(from as int + 1) =~= p.drop_first());
                        }
                        dir_children(sub, path, from + 1)
                    },
                    FileOrDirectory::File(_) => {
                        proof {
                            assert(m[i as int].1 is File);
                            assert(lookup_name(m, p[0]) is Dir);
                            assert(false);
                        }
                        unreached()
                    },
                }
            },
            None => {
                proof {
                    assert(has_name(m, p[0]));
                    assert(false);
                }
                unreached()
            },
        }
    }
}

/// A resolving path still resolves after any of its tails is cut off.
pub proof fn lemma_resolves_take(m: Seq<(Seq<char>, Node)>, p: Seq<Seq<char>>, k: int)
    requires
        resolves(m, p),
        0 <= k <= p.len(),
    ensures
        resolves(m, p.take(k)),
    decreases p.len(),
{
    if k > 0 {
        assert(p.take(k)[0] == p[0]);
        lemma_resolves_take(dir_entries(lookup_name(m, p[0])), p.drop_first(), k - 1);
        assert(p.take(k).drop_first() =~= p.drop_first().take(k - 1));
    }
}

/// A resolving path extends by one more directory found at its end.
pub proof fn lemma_resolves_snoc(m: Seq<(Seq<char>, Node)>, p: Seq<Seq<char>>, name: Seq<char>)
    requires
        resolves(m, p),
        has_name(dir_at(m, p), name),
        lookup_name(dir_at(m, p), name) is Dir,
    ensures
        resolves(m, p.push(name)),
        dir_at(m, p.push(name)) == dir_entries(lookup_name(dir_at(m, p), name)),
    decreases p.len(),
{
    let q = p.push(name);
    if p.len() == 0 {
        assert(q[0] == name);
        assert(dir_at(m, p) == m);
        assert(q.drop_first() =~= Seq::<Seq<char>>::empty());
        assert(resolves(dir_entries(lookup_name(m, q[0])), q.drop_first()));
        assert(resolves(m, q));
        assert(dir_at(dir_entries(lookup_name(m, q[0])), q.drop_first())
            == dir_entries(lookup_name(m, q[0])));
        assert(dir_at(m, q) == dir_entries(lookup_name(m, name)));
    } else {
        assert(q[0] == p[0]);
        let sub = dir_entries(lookup_name(m, p[0]));
        assert(dir_at(m, p) == dir_at(sub, p.drop_first()));
        lemma_resolves_snoc(sub, p.drop_first(), name);
        assert(q.drop_first() =~= p.drop_first().push(name));
        assert(resolves(sub, q.drop_first()));
        assert(resolves(m, q));
        assert(dir_at(m, q) == dir_at(sub, q.drop_first()));
    }
}

/// Replacing the children of the directory at a resolving path keeps the
/// path resolving, puts exactly the new children there, and preserves
/// well-formedness when the new children are well-formed.
pub proof fn lemma_replace_dir_at(
    m: Seq<(Seq<char>, Node)>,
    p: Seq<Seq<char>>,
    new: Seq<(Seq<char>, Node)>,
)
    requires
        entries_wf(m),
        resolves(m, p),
    ensures
        resolves(replace_dir_at(m, p, new), p),
        dir_at(replace_dir_at(m, p, new), p) == new,
        entries_wf(new) ==> entries_wf(replace_dir_at(m, p, new)),
    decreases p.len(),
{
    if p.len() == 0 {
    } else {
        let i = index_of_name(m, p[0]);
        assert(0 <= i < m.len() && m[i].0 == p[0]);
        let sub = dir_entries(lookup_name(m, p[0]));
        assert(node_wf(m[i].1));
        lemma_replace_dir_at(sub, p.drop_first(), new);
        let rsub = replace_dir_at(sub, p.drop_first(), new);
        let m2 = m.update(i, (p[0], Node::Dir(rsub)));
        assert forall|j1: int, j2: int| 0 <= j1 < j2 < m2.len() implies m2[j1].0 != m2[j2].0 by {
            assert(m2[j1].0 == m[j1].0);
            assert(m2[j2].0 == m[j2].0);
        }
        lemma_found_index(m2, p[0], i);
        assert(resolves(m2, p));
        assert(dir_at(m2, p) == new);
        if entries_wf(new) {
            assert forall|j: int| 0 <= j < m2.len() implies node_wf(#[trigger] m2[j].1) by {
                if j != i {
                    assert(m2[j].1 == m[j].1);
                }
            }
        }
    }
}

/// Removing an entry keeps a directory's children well-formed.
pub proof fn lemma_entries_wf_remove(m: Seq<(Seq<char>, Node)>, i: int)
    requires
        entries_wf(m),
        0 <= i < m.len(),
    ensures
        entries_wf(m.remove(i)),
{
    let m2 = m.remove(i);
    assert forall|j1: int, j2: int| 0 <= j1 < j2 < m2.len() implies m2[j1].0 != m2[j2].0 by {
        let k1: int = if j1 < i {
            j1
        } else {
            j1 + 1
        };
        let k2: int = if j2 < i {
            j2
        } else {
            j2 + 1
        };
        assert(m2[j1] == m[k1]);
        assert(m2[j2] == m[k2]);
    }
    assert forall|j: int| 0 <= j < m2.len() implies node_wf(#[trigger] m2[j].1) by {
        let k: int = if j < i {
            j
        } else {
            j + 1
        };
        assert(m2[j] == m[k]);
    }
}

/// Appending an entry under a fresh name keeps the children well-formed.
pub proof fn lemma_entries_wf_push(m: Seq<(Seq<char>, Node)>, name: Seq<char>, n: Node)
    requires
        entries_wf(m),
        !has_name(m, name),
        node_wf(n),
    ensures
        entries_wf(m.push((name, n))),
{
    let m2 = m.push((name, n));
    assert forall|j1: int, j2: int| 0 <= j1 < j2 < m2.len() implies m2[j1].0 != m2[j2].0 by {
        if j2 < m.len() {
            assert(m2[j1] == m[j1] && m2[j2] == m[j2]);
        } else {
            assert(m2[j1] == m[j1]);
            assert(m2[j2].0 == name);
        }
    }
    assert forall|j: int| 0 <= j < m2.len() implies node_wf(#[trigger] m2[j].1) by {
        if j < m.len() {
            assert(m2[j] == m[j]);
        }
    }
}

/// Replacing the entry at a position, keeping its name, keeps the
/// children well-formed.
pub proof fn lemma_entries_wf_update(m: Seq<(Seq<char>, Node)>, i: int, n: Node)
    requires
        entries_wf(m),
        0 <= i < m.len(),
        node_wf(n),
    ensures
        entries_wf(m.update(i, (m[i].0, n))),
{
    let m2 = m.update(i, (m[i].0, n));
    assert forall|j1: int, j2: int| 0 <= j1 < j2 < m2.len() implies m2[j1].0 != m2[j2].0 by {
        assert(m2[j1].0 == m[j1].0);
        assert(m2[j2].0 == m[j2].0);
    }
    assert forall|j: int| 0 <= j < m2.len() implies node_wf(#[trigger] m2[j].1) by {
        if j != i {
            assert(m2[j] == m[j]);
        }
    }
}

/// The model of a sequence with one element removed.
pub proof fn lemma_pairs_model_remove(s: Seq<(String, FileOrDirectory)>, i: int)
    requires
        0 <= i < s.len(),
    ensures
        pairs_model(s.remove(i)) == pairs_model(s).remove(i),
{
    assert(pairs_model(s.remove(i)) =~= pairs_model(s).remove(i));
}

/// The model of a sequence with one element appended.
pub proof fn lemma_pairs_model_push(s: Seq<(String, FileOrDirectory)>, e: (String, FileOrDirectory))
    ensures
        pairs_model(s.push(e)) == pairs_model(s).push((e.0@, entry_model(e.1))),
{
    assert(pairs_model(s.push(e)) =~= pairs_model(s).push((e.0@, entry_model(e.1))));
}

/// The model of a sequence with one element replaced.
pub proof fn lemma_pairs_model_update(
    s: Seq<(String, FileOrDirectory)>,
    i: int,
    e: (String, FileOrDirectory),
)
    requires
        0 <= i < s.len(),
    ensures
        pairs_model(s.update(i, e)) == pairs_model(s).update(i, (e.0@, entry_model(e.1))),
{
    assert(pairs_model(s.update(i, e)) =~= pairs_model(s).update(i, (e.0@, entry_model(e.1))));
}

/// Follows `path` (from position `from` on) down from `v`, returning a
/// mutable borrow of the children of the directory it ends at. The final
/// value of `v` is the tree with that directory's children replaced by
/// whatever the caller leaves in the borrow.
pub fn dir_children_mut<'a>(
    v: &'a mut Vec<(String, FileOrDirectory)>,
    path: &Vec<String>,
    from: usize,
) -> (r: &'a mut Vec<(String, FileOrDirectory)>)
    requires
        from <= path@.len(),
        entries_wf(entries_model(*old(v))),
        resolves(entries_model(*old(v)), string_views(path@).skip(from as int)),
    ensures
        entries_model(*r) == dir_at(
            entries_model(*old(v)),
            string_views(path@).skip(from as int),
        ),
        entries_wf(entries_model(*r)),
        entries_model(*final(v)) == replace_dir_at(
            entries_model(*old(v)),
            string_views(path@).skip(from as int),
            entries_model(*final(r)),
        ),
    decreases path@.len() - from,
{
    let ghost m = entries_model(*v);
    let ghost p = string_views(path@).skip(from as int);
    if from == path.len() {
        proof {
            assert(p.len() == 0);
        }
        v
    } else {
        proof {
            assert(p[0] == path@[from as int]@);
        }
        match find_entry(v, path[from].as_str()) {
            Some(i) => {
                proof {
                    lemma_found_index(m, p[0], i as int);
                }
                let pair = &mut v[i];
                let ghost name0 = pair.0;
                match &mut pair.1 {
                    FileOrDirectory::Directory(sub) => {
                        proof {
                            assert(m[i as int].1 == Node::Dir(entries_model(*sub)));
                            assert(dir_entries(lookup_name(m, p[0])) == entries_model(*sub));
                            assert(node_wf(m[i as int].1));
                            assert(string_views(path@).skip(from as int + 1) =~= p.drop_first());
                        }
                        dir_children_mut(sub, path, from + 1)
                    },
                    FileOrDirectory::File(_) => {
                        proof {
                            assert(m[i as int].1 is File);
                            assert(lookup_name(m, p[0]) is Dir);
                            assert(false);
                        }
                        unreached()
                    },
                }
            },
            None => {
                proof {
                    assert(has_name(m, p[0]));
                    assert(false);
                }
                unreached()
            },
        }
    }
}

/// Model of a direct-read result: a file's text, a directory at the end
/// of the path, or a miss.
pub enum ReadModel {
    Text(Seq<char>),
    DirEnd,
    Missing,
}

/// Resolving a path for direct reading: a file at the final segment
/// gives its text, a directory at the end gives `DirEnd`, and a missing
/// segment or a file in the middle of the path is a miss.
pub open spec fn spec_read(m: Seq<(Seq<char>, Node)>, segs: Seq<Seq<char>>) -> ReadModel
    decreases segs.len(),
{
    if segs.len() == 0 {
        ReadModel::DirEnd
    } else if !has_name(m, segs[0]) {
        ReadModel::Missing
    } else {
        match lookup_name(m, segs[0]) {
            Node::File(c) => if segs.len() == 1 {
                ReadModel::Text(c)
            } else {
                ReadModel::Missing
            },
            Node::Dir(sub) => spec_read(sub, segs.drop_first()),
        }
    }
}

/// Result of reading one slash-delimited path directly from the tree.
pub enum ReadOutcome {
    FileContent(String),
    DirectoryEnd,
    Missing,
}

fn read_segments(
    v: &Vec<(String, FileOrDirectory)>,
    segs: &Vec<String>,
    from: usize,
) -> (r: ReadOutcome)
    requires
        from <= segs@.len(),
        entries_wf(entries_model(*v)),
    ensures
        match r {
            ReadOutcome::FileContent(s) => spec_read(
                entries_model(*v),
                string_views(segs@).skip(from as int),
            ) == ReadModel::Text(s@),
            ReadOutcome::DirectoryEnd => spec_read(
                entries_model(*v),
                string_views(segs@).skip(from as int),
            ) == ReadModel::DirEnd,
            ReadOutcome::Missing => spec_read(
                entries_model(*v),
                string_views(segs@).skip(from as int),
            ) == ReadModel::Missing,
        },
    decreases segs@.len() - from,
{
    let ghost m = entries_model(*v);
    let ghost p = string_views(segs@).skip(from as int);
    if from == segs.len() {
        return ReadOutcome::DirectoryEnd;
    }
    proof {
        assert(p[0] == segs@[from as int]@);
    }
    match find_entry(v, segs[from].as_str()) {
        None => ReadOutcome::Missing,
        Some(i) => {
            proof {
                assert(m[i as int].0 == p[0]);
                lemma_found_index(m, p[0], i as int);
            }
            match &v[i].1 {
                FileOrDirectory::File(text) => {
                    proof {
                        assert(m[i as int].1 == Node::File(text@));
                    }
                    if from + 1 == segs.len() {
                        ReadOutcome::FileContent(text.clone())
                    } else {
                        ReadOutcome::Missing
                    }
                },
                FileOrDirectory::Directory(sub) => {
                    proof {
                        assert(m[i as int].1 == Node::Dir(entries_model(*sub)));
                        assert(node_wf(m[i as int].1));
                        assert(string_views(segs@).skip(from as int + 1) =~= p.drop_first());
                    }
                    read_segments(sub, segs, from + 1)
                },
            }
        },
    }
}

/// Direct-read mode: follows a slash-delimited path through the tree;
/// the final segment must be a file for its content to come back.
pub fn read_path(fs: &FileSystem, path: &str) -> (r: ReadOutcome)
    requires
        entries_wf(fs_model(*fs)),
    ensures
        match r {
            ReadOutcome::FileContent(s) => spec_read(fs_model(*fs), spec_split(path@, '/'))
                == ReadModel::Text(s@),
            ReadOutcome::DirectoryEnd => spec_read(fs_model(*fs), spec_split(path@, '/'))
                == ReadModel::DirEnd,
            ReadOutcome::Missing => spec_read(fs_model(*fs), spec_split(path@, '/'))
                == ReadModel::Missing,
        },
{
    let segs = split_char(path, '/');
    proof {
        assert(string_views(segs@).skip(0) =~= spec_split(path@, '/'));
    }
    read_segments(&fs.entries, &segs, 0)
}

/// The reserved file name that keeps a pushed document non-empty.
pub fn sentinel_name() -> (r: String)
    ensures
        r@ == "supno keep"@,
{
    "supno keep".to_owned()
}

/// Removes the reserved sentinel entry after a fetch, if it is there.
pub fn strip_sentinel(fs: &mut FileSystem)
    requires
        entries_wf(fs_model(*old(fs))),
    ensures
        entries_wf(fs_model(*final(fs))),
        has_name(fs_model(*old(fs)), "supno keep"@) ==> fs_model(*final(fs)) == fs_model(
            *old(fs),
        ).remove(index_of_name(fs_model(*old(fs)), "supno keep"@)),
        !has_name(fs_model(*old(fs)), "supno keep"@) ==> *final(fs) == *old(fs),
{
    let ghost m = fs_model(*old(fs));
    let name = sentinel_name();
    match find_entry(&fs.entries, name.as_str()) {
        None => {},
        Some(i) => {
            proof {
                lemma_found_index(m, "supno keep"@, i as int);
            }
            let ghost e0 = fs.entries@;
            fs.entries.remove(i);
            proof {
                lemma_pairs_model_remove(e0, i as int);
                lemma_entries_wf_remove(m, i as int);
            }
        },
    }
}

/// Inserts the reserved sentinel file before a push, so that the
/// serialized document is never an empty object.
pub fn add_sentinel(fs: &mut FileSystem)
    requires
        entries_wf(fs_model(*old(fs))),
    ensures
        entries_wf(fs_model(*final(fs))),
        !has_name(fs_model(*old(fs)), "supno keep"@) ==> fs_model(*final(fs)) == fs_model(
            *old(fs),
        ).push(("supno keep"@, Node::File("yes"@))),
        has_name(fs_model(*old(fs)), "supno keep"@) ==> fs_model(*final(fs)) == fs_model(
            *old(fs),
        ).update(
            index_of_name(fs_model(*old(fs)), "supno keep"@),
            ("supno keep"@, Node::File("yes"@)),
        ),
        fs_model(*final(fs)).len() >= 1,
{
    let ghost m = fs_model(*old(fs));
    let name = sentinel_name();
    let content = "yes".to_owned();
    match find_entry(&fs.entries, name.as_str()) {
        None => {
            let ghost e0 = fs.entries@;
            fs.entries.push((name, FileOrDirectory::File(content)));
            proof {
                lemma_pairs_model_push(
                    e0,
                    (fs.entries@[e0.len() as int].0, fs.entries@[e0.len() as int].1),
                );
                lemma_entries_wf_push(m, "supno keep"@, Node::File("yes"@));
            }
        },
        Some(i) => {
            proof {
                lemma_found_index(m, "supno keep"@, i as int);
            }
            let ghost e0 = fs.entries@;
            {
                let e = &mut fs.entries[i];
                e.1 = FileOrDirectory::File(content);
            }
            proof {
                lemma_pairs_model_update(e0, i as int, (e0[i as int].0, fs.entries@[i as int].1));
                assert(entry_model(fs.entries@[i as int].1) == Node::File("yes"@));
                lemma_entries_wf_update(m, i as int, Node::File("yes"@));
            }
        },
    }
}

} // verus!
