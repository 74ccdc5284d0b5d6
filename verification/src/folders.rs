//! The folder tree: folders nested under their parents, each with its notes.

use vstd::prelude::*;
use vstd::set_lib::{lemma_int_range, lemma_len_subset, set_int_range};

use crate::text::str_eq;

verus! {

/// A folder as the tree reads it: its id and its parent's id.
#[derive(Debug, Clone)]
pub struct FolderRef {
    pub id: String,
    pub parent_id: Option<String>,
}

/// A folder of the tree (by its position in the folder list), its child
/// folders and its notes (by position in the note list).
#[derive(Debug)]
pub struct FolderTree {
    pub folder: usize,
    pub children: Vec<FolderTree>,
    pub notes: Vec<usize>,
}

/// The positions of the folders whose parent is the folder with id `id`,
/// among the first `k`, in order.
pub open spec fn children_of(fs: Seq<FolderRef>, id: Seq<char>, k: int) -> Seq<usize>
    decreases k,
{
    if k <= 0 || k > fs.len() {
        seq![]
    } else {
        let r = children_of(fs, id, k - 1);
        if fs[k - 1].parent_id matches Some(p) && p@ == id {
            r.push((k - 1) as usize)
        } else {
            r
        }
    }
}

/// The positions of the notes, among the first `k`, that are in the folder
/// with id `id`, in order.
pub open spec fn notes_of(nf: Seq<Option<String>>, id: Seq<char>, k: int) -> Seq<usize>
    decreases k,
{
    if k <= 0 || k > nf.len() {
        seq![]
    } else {
        let r = notes_of(nf, id, k - 1);
        if nf[k - 1] matches Some(f) && f@ == id {
            r.push((k - 1) as usize)
        } else {
            r
        }
    }
}

/// `t` is the tree of its folder: its children are the trees of the
/// folders whose parent it is, in list order, and its notes those filed in
/// it, in list order.
pub open spec fn tree_ok(t: FolderTree, fs: Seq<FolderRef>, nf: Seq<Option<String>>) -> bool
    decreases t,
{
    let id = fs[t.folder as int].id@;
    let cs = children_of(fs, id, fs.len() as int);
    &&& t.folder < fs.len()
    &&& t.notes@ == notes_of(nf, id, nf.len() as int)
    &&& t.children@.len() == cs.len()
    &&& forall|k: int|
        0 <= k < t.children@.len() ==> (#[trigger] t.children@[k]).folder == cs[k] && tree_ok(
            t.children@[k],
            fs,
            nf,
        )
}

/// The positions of the folders without a parent, among the first `k`.
pub open spec fn roots_of(fs: Seq<FolderRef>, k: int) -> Seq<usize>
    decreases k,
{
    if k <= 0 || k > fs.len() {
        seq![]
    } else {
        let r = roots_of(fs, k - 1);
        if fs[k - 1].parent_id is None {
            r.push((k - 1) as usize)
        } else {
            r
        }
    }
}

/// No two folders share an id.
pub open spec fn ids_unique(fs: Seq<FolderRef>) -> bool {
    forall|a: int, b: int| 0 <= a < b < fs.len() ==> (#[trigger] fs[a]).id@ != (#[trigger] fs[b]).id@
}

/// `p` is a chain of folders down from a root: each the child of the one
/// before, none twice.
pub open spec fn is_chain(fs: Seq<FolderRef>, p: Seq<int>) -> bool {
    &&& p.len() > 0
    &&& forall|k: int| 0 <= k < p.len() ==> 0 <= #[trigger] p[k] < fs.len()
    &&& fs[p[0]].parent_id is None
    &&& forall|k: int|
        1 <= k < p.len() ==> (fs[#[trigger] p[k]].parent_id matches Some(q) && q@ == fs[p[k - 1]].id@)
    &&& p.no_duplicates()
}

proof fn lemma_chain_bound(fs: Seq<FolderRef>, p: Seq<int>)
    requires
        is_chain(fs, p),
    ensures
        p.len() <= fs.len(),
{
    p.unique_seq_to_set();
    lemma_int_range(0, fs.len() as int);
    assert(p.to_set().subset_of(set_int_range(0, fs.len() as int)));
    lemma_len_subset(p.to_set(), set_int_range(0, fs.len() as int));
}

/// A child of the last folder of a chain extends the chain.
proof fn lemma_chain_extend(fs: Seq<FolderRef>, p: Seq<int>, j: int)
    requires
        ids_unique(fs),
        is_chain(fs, p),
        0 <= j < fs.len(),
        fs[j].parent_id matches Some(q) && q@ == fs[p.last()].id@,
    ensures
        is_chain(fs, p.push(j)),
{
    let p2 = p.push(j);
    assert(p2[p.len() as int] == j);
    if p.contains(j) {
        let m = choose|m: int| 0 <= m < p.len() && p[m] == j;
        assert(m != 0);
        assert(fs[p[m - 1]].id@ == fs[p[p.len() - 1]].id@);
        if p[m - 1] != p[p.len() - 1] {
            if p[m - 1] < p[p.len() - 1] {
                assert(fs[p[m - 1]].id@ != fs[p[p.len() - 1]].id@);
            } else {
                assert(fs[p[p.len() - 1]].id@ != fs[p[m - 1]].id@);
            }
        }
        assert(m - 1 == p.len() - 1);
    }
    assert forall|k: int| 1 <= k < p2.len() implies (fs[#[trigger] p2[k]].parent_id matches Some(q) && q@
        == fs[p2[k - 1]].id@) by {
        if k < p.len() {
            assert(p2[k] == p[k] && p2[k - 1] == p[k - 1]);
        }
    }
    assert forall|a: int, b: int| 0 <= a < p2.len() && 0 <= b < p2.len() && a != b implies p2[a] != p2[b] by {
        if a < p.len() && b < p.len() {
            assert(p2[a] == p[a] && p2[b] == p[b]);
        } else if a < p.len() {
            assert(p2[a] == p[a]);
        } else if b < p.len() {
            assert(p2[b] == p[b]);
        }
    }
}

fn notes_in_folder(nf: &Vec<Option<String>>, id: &str) -> (r: Vec<usize>)
    ensures
        r@ == notes_of(nf@, id@, nf@.len() as int),
{
    let mut r: Vec<usize> = Vec::new();
    let mut k: usize = 0;
    while k < nf.len()
        invariant
            k <= nf@.len(),
            r@ == notes_of(nf@, id@, k as int),
        decreases nf@.len() - k,
    {
        if let Some(f) = &nf[k] {
            if str_eq(f.as_str(), id) {
                r.push(k);
            }
        }
        k = k + 1;
    }
    r
}

fn build_node(fs: &Vec<FolderRef>, nf: &Vec<Option<String>>, i: usize, Ghost(path): Ghost<Seq<int>>) -> (t: FolderTree)
    requires
        ids_unique(fs@),
        is_chain(fs@, path),
        path.last() == i,
    ensures
        t.folder == i,
        tree_ok(t, fs@, nf@),
    decreases fs@.len() - path.len(),
{
    proof {
        lemma_chain_bound(fs@, path);
        assert(path[path.len() - 1] == i);
    }
    let id = fs[i].id.as_str();
    let mut children: Vec<FolderTree> = Vec::new();
    let mut j: usize = 0;
    while j < fs.len()
        invariant
            j <= fs@.len(),
            ids_unique(fs@),
            is_chain(fs@, path),
            path.last() == i,
            i < fs@.len(),
            id@ == fs@[i as int].id@,
            children@.len() == children_of(fs@, id@, j as int).len(),
            forall|k: int|
                0 <= k < children@.len() ==> (#[trigger] children@[k]).folder == children_of(fs@, id@, j as int)[k]
                    && tree_ok(children@[k], fs@, nf@),
        decreases fs@.len() - j,
    {
        let ghost before = children_of(fs@, id@, j as int);
        if let Some(p) = &fs[j].parent_id {
            if str_eq(p.as_str(), id) {
                proof {
                    lemma_chain_extend(fs@, path, j as int);
                    lemma_chain_bound(fs@, path.push(j as int));
                }
                let c = build_node(fs, nf, j, Ghost(path.push(j as int)));
                let ghost c0 = children@;
                children.push(c);
                proof {
                    assert forall|k: int| 0 <= k < children@.len() implies (#[trigger] children@[k]).folder
                        == children_of(fs@, id@, j + 1)[k] && tree_ok(children@[k], fs@, nf@) by {
                        if k < c0.len() {
                            assert(children@[k] == c0[k]);
                        }
                    }
                }
            }
        }
        j = j + 1;
    }
    let notes = notes_in_folder(nf, id);
    FolderTree { folder: i, children, notes }
}

/// Get folder tree (recursive): the folders without a parent, in list
/// order, each with the folders under it and its notes. A folder whose
/// parent is not among `folders` does not appear.
pub fn get_tree(folders: &Vec<FolderRef>, note_folders: &Vec<Option<String>>) -> (roots: Vec<FolderTree>)
    requires
        ids_unique(folders@),
    ensures
        roots@.len() == roots_of(folders@, folders@.len() as int).len(),
        forall|k: int|
            0 <= k < roots@.len() ==> (#[trigger] roots@[k]).folder == roots_of(folders@, folders@.len() as int)[k]
                && tree_ok(roots@[k], folders@, note_folders@),
{
    let mut roots: Vec<FolderTree> = Vec::new();
    let mut j: usize = 0;
    while j < folders.len()
        invariant
            j <= folders@.len(),
            ids_unique(folders@),
            roots@.len() == roots_of(folders@, j as int).len(),
            forall|k: int|
                0 <= k < roots@.len() ==> (#[trigger] roots@[k]).folder == roots_of(folders@, j as int)[k]
                    && tree_ok(roots@[k], folders@, note_folders@),
        decreases folders@.len() - j,
    {
        if folders[j].parent_id.is_none() {
            let ghost path = seq![j as int];
            proof {
                assert(path[0] == j);
                assert(is_chain(folders@, path));
            }
            let t = build_node(folders, note_folders, j, Ghost(path));
            let ghost r0 = roots@;
            roots.push(t);
            proof {
                assert forall|k: int| 0 <= k < roots@.len() implies (#[trigger] roots@[k]).folder == roots_of(
                    folders@,
                    j + 1,
                )[k] && tree_ok(roots@[k], folders@, note_folders@) by {
                    if k < r0.len() {
                        assert(roots@[k] == r0[k]);
                    }
                }
            }
        }
        j = j + 1;
    }
    roots
}

} // verus!
