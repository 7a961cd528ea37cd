//! The same tree with every directory keeping its size up to date: a file
//! that is added is added to the size of every directory above it.

use vstd::prelude::*;

verus! {

/// A directory, with the index of the directory it lies in, its children
/// by name, and the size of all files below it; or a file with its size.
#[derive(Debug)]
pub enum FsNode {
    Dir(Option<usize>, Vec<(String, usize)>, u64),
    File(u64),
}

/// The nodes of the tree, the root first.
#[derive(Debug)]
pub struct Disk {
    pub nodes: Vec<FsNode>,
}

/// The children of a node: those of a directory, none of a file.
pub open spec fn kids(node: FsNode) -> Seq<(String, usize)> {
    match node {
        FsNode::Dir(_, children, _) => children@,
        FsNode::File(_) => Seq::empty(),
    }
}

/// The directory above a node, if the node is a directory that has one.
pub open spec fn above(node: FsNode) -> Option<usize> {
    match node {
        FsNode::Dir(up, _, _) => up,
        FsNode::File(_) => None,
    }
}

/// The size that a node keeps.
pub open spec fn kept(node: FsNode) -> u64 {
    match node {
        FsNode::Dir(_, _, size) => size,
        FsNode::File(size) => size,
    }
}

/// The place of the first child from `from` on with the given name, or
/// the number of children if there is none.
pub open spec fn kid_place(children: Seq<(String, usize)>, name: Seq<char>, from: int) -> int
    decreases children.len() - from,
{
    if from >= children.len() {
        children.len() as int
    } else if children[from].0@ == name {
        from
    } else {
        kid_place(children, name, from + 1)
    }
}

/// The names and indexes of children.
pub open spec fn entries(children: Seq<(String, usize)>) -> Seq<(Seq<char>, usize)> {
    Seq::new(children.len(), |i: int| (children[i].0@, children[i].1))
}

/// The children with the index put under the name: in place of the index
/// that the name had, or at the end.
pub open spec fn with_kid(children: Seq<(String, usize)>, name: Seq<char>, index: usize) -> Seq<
    (Seq<char>, usize),
> {
    let at = kid_place(children, name, 0);
    if 0 <= at < children.len() {
        entries(children).update(at, (name, index))
    } else {
        entries(children).push((name, index))
    }
}

/// Puts the index under the name among the children.
pub fn put_kid(children: &mut Vec<(String, usize)>, name: &str, index: usize)
    ensures
        entries(final(children)@) == with_kid(old(children)@, name@, index),
{
    let owned = name.to_owned();
    let ghost before = children@;
    let mut i: usize = 0;
    while i < children.len()
        invariant
            i <= children@.len(),
            children@ == before,
            before == old(children)@,
            owned@ == name@,
            kid_place(before, name@, 0) == kid_place(before, name@, i as int),
        decreases children@.len() - i,
    {
        if children[i].0 == owned {
            assert(kid_place(before, name@, i as int) == i);
            children.set(i, (owned, index));
            assert(entries(children@) =~= entries(before).update(i as int, (name@, index)));
            return ;
        }
        i += 1;
    }
    children.push((owned, index));
    assert(entries(children@) =~= entries(before).push((name@, index)));
}

impl FsNode {
    /// An empty directory in the directory given.
    pub fn new_dir(parent: Option<usize>) -> (node: FsNode)
        ensures
            above(node) == parent,
            node is Dir,
            kids(node).len() == 0,
            kept(node) == 0,
    {
        FsNode::Dir(parent, Vec::new(), 0)
    }

    /// The size that the node keeps.
    pub fn size(&self) -> (s: u64)
        ensures
            s == kept(*self),
    {
        match self {
            FsNode::Dir(_, _, s) => *s,
            FsNode::File(s) => *s,
        }
    }

    /// The directory above this one.
    pub fn parent(&self) -> (up: usize)
        requires
            above(*self) is Some,
        ensures
            above(*self) == Some(up),
    {
        match self {
            FsNode::Dir(Some(parent), _, _) => *parent,
            _ => 0,
        }
    }

    /// Puts the directory with the given index into this directory under
    /// the given name.
    pub fn add_subdir(&mut self, name: &str, subdir: usize) -> (index: usize)
        requires
            *old(self) is Dir,
        ensures
            index == subdir,
            *final(self) is Dir,
            above(*final(self)) == above(*old(self)),
            kept(*final(self)) == kept(*old(self)),
            entries(kids(*final(self))) == with_kid(kids(*old(self)), name@, subdir),
    {
        match self {
            FsNode::Dir(_, children, _) => {
                put_kid(children, name, subdir);
            },
            FsNode::File(_) => {},
        }
        subdir
    }

    /// Puts the file with the given index and size into this directory
    /// under the given name, and adds its size to that of the directory.
    pub fn add_file(&mut self, name: &str, size: u64, file: usize) -> (index: usize)
        requires
            *old(self) is Dir,
            kept(*old(self)) + size <= u64::MAX,
        ensures
            index == file,
            *final(self) is Dir,
            above(*final(self)) == above(*old(self)),
            kept(*final(self)) == kept(*old(self)) + size,
            entries(kids(*final(self))) == with_kid(kids(*old(self)), name@, file),
    {
        match self {
            FsNode::Dir(_, children, dir_size) => {
                put_kid(children, name, file);
                *dir_size = *dir_size + size;
            },
            FsNode::File(_) => {},
        }
        file
    }

    /// Adds to the size that the directory keeps.
    pub fn grow(&mut self, size: u64)
        requires
            *old(self) is Dir,
            kept(*old(self)) + size <= u64::MAX,
        ensures
            *final(self) is Dir,
            above(*final(self)) == above(*old(self)),
            kids(*final(self)) == kids(*old(self)),
            kept(*final(self)) == kept(*old(self)) + size,
    {
        match self {
            FsNode::Dir(_, _, dir_size) => {
                *dir_size = *dir_size + size;
            },
            FsNode::File(_) => {},
        }
    }
}

/// The directories above the nodes, node by node.
pub open spec fn ups(nodes: Seq<FsNode>) -> Seq<Option<usize>> {
    Seq::new(nodes.len(), |i: int| above(nodes[i]))
}

/// Whether directory `d` is directory `from` or lies above it.
pub open spec fn on_path(ups: Seq<Option<usize>>, from: int, d: int) -> bool
    decreases from,
{
    d == from || (0 <= from < ups.len() && match ups[from] {
        Some(p) => p < from && on_path(ups, p as int, d),
        None => false,
    })
}

/// What lies on the way up from a directory has no greater index.
pub proof fn lemma_path_goes_up(ups: Seq<Option<usize>>, from: int, d: int)
    requires
        on_path(ups, from, d),
    ensures
        d <= from,
    decreases from,
{
    if d != from {
        lemma_path_goes_up(ups, ups[from]->0 as int, d);
    }
}

/// The index of child number `k` of node `i`.
pub open spec fn kid(nodes: Seq<FsNode>, i: int, k: int) -> int {
    kids(nodes[i])[k].1 as int
}

impl Disk {
    /// The first node is a directory, every directory above a node is a
    /// directory that comes before it, and every child of a node comes
    /// after it.
    pub open spec fn wf(&self) -> bool {
        let nodes = self.nodes@;
        &&& nodes.len() >= 1
        &&& nodes[0] is Dir
        &&& forall|i: int|
            0 <= i < nodes.len() && (#[trigger] above(nodes[i])) is Some ==> above(nodes[i])->0 < i
                && nodes[above(nodes[i])->0 as int] is Dir
        &&& forall|i: int, k: int|
            0 <= i < nodes.len() && 0 <= k < kids(nodes[i]).len() ==> i < #[trigger] kid(
                nodes,
                i,
                k,
            ) < nodes.len()
    }

    /// A disk with nothing but its root.
    pub fn new() -> (disk: Disk)
        ensures
            disk.wf(),
            disk.nodes@.len() == 1,
            above(disk.nodes@[0]) is None,
            kids(disk.nodes@[0]).len() == 0,
            kept(disk.nodes@[0]) == 0,
    {
        let mut nodes: Vec<FsNode> = Vec::new();
        nodes.push(FsNode::new_dir(None));
        Disk { nodes }
    }

    /// The disk is `before` with one node more, put into directory `cwd`
    /// under the given name.
    pub open spec fn grown_from(&self, before: &Disk, cwd: int, name: Seq<char>) -> bool {
        let index = before.nodes@.len();
        &&& self.nodes@.len() == index + 1
        &&& kids(self.nodes@[index as int]).len() == 0
        &&& forall|i: int|
            0 <= i < index ==> above(#[trigger] self.nodes@[i]) == above(before.nodes@[i]) && (
            self.nodes@[i] is Dir <==> before.nodes@[i] is Dir)
        &&& forall|i: int|
            0 <= i < index && i != cwd ==> kids(#[trigger] self.nodes@[i]) == kids(
                before.nodes@[i],
            )
        &&& entries(kids(self.nodes@[cwd])) == with_kid(kids(before.nodes@[cwd]), name, index as usize)
    }

    /// Makes an empty directory in directory `cwd` under the given name.
    pub fn add_subdir(&mut self, cwd: usize, name: &str) -> (index: usize)
        requires
            old(self).wf(),
            cwd < old(self).nodes@.len(),
            old(self).nodes@[cwd as int] is Dir,
            old(self).nodes@.len() < usize::MAX,
        ensures
            final(self).wf(),
            index == old(self).nodes@.len(),
            final(self).grown_from(old(self), cwd as int, name@),
            above(final(self).nodes@[index as int]) == Some(cwd),
            final(self).nodes@[index as int] is Dir,
            forall|i: int|
                0 <= i < old(self).nodes@.len() ==> kept(#[trigger] final(self).nodes@[i]) == kept(
                    old(self).nodes@[i],
                ),
            kept(final(self).nodes@[index as int]) == 0,
    {
        let index = self.nodes.len();
        let ghost before = self.nodes@;
        self.nodes.push(FsNode::new_dir(Some(cwd)));
        self.nodes[cwd].add_subdir(name, index);
        proof {
            lemma_kids_in_order(before, self.nodes@, cwd as int, name@, index);
        }
        index
    }

    /// Makes a file of the given size in directory `cwd` under the given
    /// name, and adds its size to that of `cwd` and of every directory
    /// above it.
    pub fn add_file(&mut self, cwd: usize, name: &str, size: u64) -> (index: usize)
        requires
            old(self).wf(),
            cwd < old(self).nodes@.len(),
            old(self).nodes@[cwd as int] is Dir,
            old(self).nodes@.len() < usize::MAX,
            forall|i: int|
                0 <= i < old(self).nodes@.len() ==> kept(#[trigger] old(self).nodes@[i]) + size
                    <= u64::MAX,
        ensures
            final(self).wf(),
            index == old(self).nodes@.len(),
            final(self).grown_from(old(self), cwd as int, name@),
            final(self).nodes@[index as int] == FsNode::File(size),
            forall|i: int|
                0 <= i < old(self).nodes@.len() ==> kept(#[trigger] final(self).nodes@[i]) == kept(
                    old(self).nodes@[i],
                ) + if on_path(ups(old(self).nodes@), cwd as int, i) {
                    size as int
                } else {
                    0
                },
    {
        let index = self.nodes.len();
        let ghost before = self.nodes@;
        let ghost way = ups(before);
        self.nodes.push(FsNode::File(size));
        self.nodes[cwd].add_file(name, size, index);
        proof {
            lemma_kids_in_order(before, self.nodes@, cwd as int, name@, index);
        }
        let ghost first = self.nodes@;
        let mut cur_dir: Option<usize> = match &self.nodes[cwd] {
            FsNode::Dir(up, _, _) => *up,
            FsNode::File(_) => None,
        };
        let ghost mut low: int = cwd as int;
        proof {
            assert forall|i: int| 0 <= i < index implies kept(#[trigger] self.nodes@[i]) == kept(
                before[i],
            ) + if on_path(way, cwd as int, i) && i >= low {
                size as int
            } else {
                0
            } by {
                if on_path(way, cwd as int, i) {
                    lemma_path_goes_up(way, cwd as int, i);
                }
            }
        }
        loop
            invariant
                self.wf(),
                self.nodes@.len() == index + 1,
                index == before.len(),
                before == old(self).nodes@,
                first.len() == index + 1,
                kids(first[index as int]).len() == 0,
                entries(kids(first[cwd as int])) == with_kid(kids(before[cwd as int]), name@, index),
                forall|i: int|
                    0 <= i < index && i != cwd ==> kids(#[trigger] first[i]) == kids(before[i]),
                way == ups(before),
                0 <= low <= cwd < index,
                on_path(way, cwd as int, low),
                cur_dir == way[low],
                self.nodes@[index as int] == FsNode::File(size),
                forall|i: int|
                    0 <= i < index ==> above(#[trigger] self.nodes@[i]) == above(before[i]) && (
                    self.nodes@[i] is Dir <==> before[i] is Dir),
                forall|i: int| 0 <= i <= index ==> kids(#[trigger] self.nodes@[i]) == kids(first[i]),
                forall|i: int|
                    0 <= i < index ==> kept(#[trigger] before[i]) + size <= u64::MAX,
                forall|i: int|
                    0 <= i < index ==> kept(#[trigger] self.nodes@[i]) == kept(before[i]) + if on_path(
                        way,
                        cwd as int,
                        i,
                    ) && i >= low {
                        size as int
                    } else {
                        0
                    },
            decreases low,
        {
            match cur_dir {
                None => {
                    proof {
                        assert forall|i: int| 0 <= i < index && on_path(way, cwd as int, i) implies i
                            >= low by {
                            lemma_path_ends(way, cwd as int, low, i);
                        }
                    }
                    return index;
                },
                Some(p) => {
                    assert(above(before[low]) == Some(p));
                    assert(above(self.nodes@[low]) == Some(p));
                    let ghost mid = self.nodes@;
                    self.nodes[p].grow(size);
                    let next = match &self.nodes[p] {
                        FsNode::Dir(up, _, _) => *up,
                        FsNode::File(_) => None,
                    };
                    proof {
                        lemma_path_step(way, cwd as int, low, p);
                        assert forall|i: int| 0 <= i < index implies kept(#[trigger] self.nodes@[i])
                            == kept(before[i]) + if on_path(way, cwd as int, i) && i >= p {
                            size as int
                        } else {
                            0
                        } by {
                            assert(kept(mid[i]) == kept(before[i]) + if on_path(way, cwd as int, i)
                                && i >= low {
                                size as int
                            } else {
                                0
                            });
                            if on_path(way, cwd as int, i) {
                                lemma_path_gap(way, cwd as int, low, i);
                            }
                        }
                        assert forall|i: int, k: int|
                            0 <= i < self.nodes@.len() && 0 <= k < kids(self.nodes@[i]).len() implies i
                            < #[trigger] kid(self.nodes@, i, k) < self.nodes@.len() by {
                            assert(kid(self.nodes@, i, k) == kid(mid, i, k));
                        }
                        low = p as int;
                    }
                    cur_dir = next;
                },
            }
        }
    }
}

/// The way up from `from` goes on from every directory on it: what lies
/// above a directory on the way lies on the way.
pub proof fn lemma_path_step(ups: Seq<Option<usize>>, from: int, low: int, p: usize)
    requires
        on_path(ups, from, low),
        0 <= low < ups.len(),
        ups[low] == Some(p),
        p < low,
    ensures
        on_path(ups, from, p as int),
    decreases from,
{
    if low == from {
        assert(on_path(ups, p as int, p as int));
    } else {
        lemma_path_step(ups, ups[from]->0 as int, low, p);
    }
}

/// Between a directory on the way up and the directory above it no
/// directory lies on the way.
pub proof fn lemma_path_gap(ups: Seq<Option<usize>>, from: int, low: int, i: int)
    requires
        on_path(ups, from, low),
        on_path(ups, from, i),
        0 <= low < ups.len(),
        ups[low] is Some,
    ensures
        i <= ups[low]->0 || i >= low,
    decreases from,
{
    if from == low {
        if i != from {
            lemma_path_goes_up(ups, ups[from]->0 as int, i);
        }
    } else if from == i {
        lemma_path_goes_up(ups, from, low);
    } else {
        lemma_path_gap(ups, ups[from]->0 as int, low, i);
    }
}

/// The way up ends at the directory that has none above it.
pub proof fn lemma_path_ends(ups: Seq<Option<usize>>, from: int, low: int, i: int)
    requires
        on_path(ups, from, low),
        on_path(ups, from, i),
        0 <= low < ups.len(),
        ups[low] is None,
    ensures
        i >= low,
    decreases from,
{
    if from == low {
    } else if from == i {
        lemma_path_goes_up(ups, from, low);
    } else {
        lemma_path_ends(ups, ups[from]->0 as int, low, i);
    }
}

/// A child more in one directory leaves the children after their
/// parents.
pub proof fn lemma_kids_in_order(
    before: Seq<FsNode>,
    after: Seq<FsNode>,
    cwd: int,
    name: Seq<char>,
    index: usize,
)
    requires
        index == before.len(),
        after.len() == before.len() + 1,
        0 <= cwd < before.len(),
        kids(after[index as int]).len() == 0,
        forall|i: int, k: int|
            0 <= i < before.len() && 0 <= k < kids(before[i]).len() ==> i < #[trigger] kid(
                before,
                i,
                k,
            ) < before.len(),
        forall|i: int|
            0 <= i < before.len() && i != cwd ==> kids(#[trigger] after[i]) == kids(before[i]),
        entries(kids(after[cwd])) == with_kid(kids(before[cwd]), name, index),
    ensures
        forall|i: int, k: int|
            0 <= i < after.len() && 0 <= k < kids(after[i]).len() ==> i < #[trigger] kid(after, i, k)
                < after.len(),
{
    assert forall|i: int, k: int| 0 <= i < after.len() && 0 <= k < kids(after[i]).len() implies i
        < #[trigger] kid(after, i, k) < after.len() by {
        if i == cwd {
            let old_kids = kids(before[cwd]);
            let new_entries = entries(kids(after[cwd]));
            assert(new_entries.len() == kids(after[cwd]).len());
            assert(new_entries[k].1 == kids(after[cwd])[k].1);
            let at = kid_place(old_kids, name, 0);
            if 0 <= at < old_kids.len() {
                if k != at {
                    assert(new_entries[k] == entries(old_kids)[k]);
                    assert(kid(before, i, k) == old_kids[k].1);
                }
            } else {
                if k < old_kids.len() {
                    assert(new_entries[k] == entries(old_kids)[k]);
                    assert(kid(before, i, k) == old_kids[k].1);
                }
            }
        } else if i < before.len() {
            assert(kid(after, i, k) == kid(before, i, k));
        }
    }
}

/// The sizes of the directories from node `i` down that are 100000 at
/// most, added up.
pub open spec fn small_total(nodes: Seq<FsNode>, i: int) -> nat
    decreases nodes.len() - i, 1int, 0int,
{
    match nodes[i] {
        FsNode::File(_) => 0,
        FsNode::Dir(_, children, size) => small_of_kids(nodes, i, children@.len()) + if size
            <= 100000 {
            size as nat
        } else {
            0
        },
    }
}

/// The small totals of the first `count` children of node `i`, added up.
pub open spec fn small_of_kids(nodes: Seq<FsNode>, i: int, count: nat) -> nat
    decreases nodes.len() - i, 0int, count,
{
    if count == 0 {
        0
    } else {
        let c = kid(nodes, i, count - 1);
        small_of_kids(nodes, i, (count - 1) as nat) + if i < c < nodes.len() {
            small_total(nodes, c)
        } else {
            0
        }
    }
}

/// More children add up to no less.
pub proof fn lemma_small_grows(nodes: Seq<FsNode>, i: int, a: nat, b: nat)
    requires
        a <= b,
    ensures
        small_of_kids(nodes, i, a) <= small_of_kids(nodes, i, b),
    decreases b - a,
{
    if a < b {
        lemma_small_grows(nodes, i, a, (b - 1) as nat);
    }
}

/// The sizes of the directories from `node` down that are 100000 at most,
/// added up.
pub fn sum_small_dirs(disk: &Disk, node: usize) -> (sum: u64)
    requires
        disk.wf(),
        node < disk.nodes@.len(),
        small_total(disk.nodes@, node as int) <= u64::MAX,
    ensures
        sum == small_total(disk.nodes@, node as int),
    decreases disk.nodes@.len() - node,
{
    let ghost nodes = disk.nodes@;
    match &disk.nodes[node] {
        FsNode::File(_) => 0,
        FsNode::Dir(_, children, size) => {
            let mut sum: u64 = 0;
            let mut k: usize = 0;
            while k < children.len()
                invariant
                    k <= children@.len(),
                    disk.wf(),
                    nodes == disk.nodes@,
                    node < nodes.len(),
                    children@ == kids(nodes[node as int]),
                    small_of_kids(nodes, node as int, children@.len()) <= u64::MAX,
                    sum == small_of_kids(nodes, node as int, k as nat),
                decreases children@.len() - k,
            {
                proof {
                    lemma_small_grows(nodes, node as int, (k + 1) as nat, children@.len());
                    assert(node < kid(nodes, node as int, k as int) < nodes.len());
                }
                sum = sum + sum_small_dirs(disk, children[k].1);
                k += 1;
            }
            if *size <= 100000 {
                sum = sum + *size;
            }
            sum
        },
    }
}

/// The least of `cur` and the sizes, not below `threshold`, of the
/// directories from node `i` down; `None` for a file.
pub open spec fn least_above(nodes: Seq<FsNode>, i: int, threshold: u64, cur: u64) -> Option<u64>
    decreases nodes.len() - i, 1int, 0int,
{
    match nodes[i] {
        FsNode::File(_) => None,
        FsNode::Dir(_, children, size) => Some(
            least_of_kids(
                nodes,
                i,
                threshold,
                if size < cur && size >= threshold {
                    size
                } else {
                    cur
                },
                children@.len(),
            ),
        ),
    }
}

/// The least of `cur` and the sizes, not below `threshold`, of the
/// directories from the first `count` children of node `i` down.
pub open spec fn least_of_kids(nodes: Seq<FsNode>, i: int, threshold: u64, cur: u64, count: nat) -> u64
    decreases nodes.len() - i, 0int, count,
{
    if count == 0 {
        cur
    } else {
        let before = least_of_kids(nodes, i, threshold, cur, (count - 1) as nat);
        let c = kid(nodes, i, count - 1);
        if i < c < nodes.len() {
            match least_above(nodes, c, threshold, before) {
                Some(s) => if s < before && s >= threshold {
                    s
                } else {
                    before
                },
                None => before,
            }
        } else {
            before
        }
    }
}

/// The least of `cur_smallest` and the sizes, not below `threshold`, of
/// the directories from `node` down.
pub fn smallest_dir_above_threshold(disk: &Disk, node: usize, threshold: u64, cur_smallest: u64) -> (
    smallest: Option<u64>)
    requires
        disk.wf(),
        node < disk.nodes@.len(),
    ensures
        smallest == least_above(disk.nodes@, node as int, threshold, cur_smallest),
    decreases disk.nodes@.len() - node,
{
    let ghost nodes = disk.nodes@;
    match &disk.nodes[node] {
        FsNode::File(_) => None,
        FsNode::Dir(_, children, size) => {
            let start = if *size < cur_smallest && *size >= threshold {
                *size
            } else {
                cur_smallest
            };
            let mut new_smallest = start;
            let mut k: usize = 0;
            while k < children.len()
                invariant
                    k <= children@.len(),
                    disk.wf(),
                    nodes == disk.nodes@,
                    node < nodes.len(),
                    children@ == kids(nodes[node as int]),
                    new_smallest == least_of_kids(nodes, node as int, threshold, start, k as nat),
                decreases children@.len() - k,
            {
                proof {
                    assert(node < kid(nodes, node as int, k as int) < nodes.len());
                }
                match smallest_dir_above_threshold(disk, children[k].1, threshold, new_smallest) {
                    Some(s) => {
                        if s < new_smallest && s >= threshold {
                            new_smallest = s;
                        }
                    },
                    None => {},
                }
                k += 1;
            }
            Some(new_smallest)
        },
    }
}

} // verus!
