//! A tree of directories and files, kept as a list of nodes that name
//! their children by index, and the sizes of its directories.

use std::collections::HashMap;
use vstd::prelude::*;

pub mod eager;
pub mod session;

verus! {

broadcast use vstd::std_specs::hash::group_hash_axioms;

/// A directory, with the index of the directory it lies in and its
/// children by name, or a file with its size.
#[derive(Debug)]
pub enum FsNode {
    Dir(Option<usize>, Vec<(String, usize)>),
    File(u64),
}

#[derive(Debug)]
pub struct FsTree {
    pub nodes: Vec<FsNode>,
    pub dir_size_cache: HashMap<usize, u64>,
}

/// The children of a node: those of a directory, none of a file.
pub open spec fn children_of(node: FsNode) -> Seq<(String, usize)> {
    match node {
        FsNode::Dir(_, children) => children@,
        FsNode::File(_) => Seq::empty(),
    }
}

/// The index of child number `k` of node `i`.
pub open spec fn child(nodes: Seq<FsNode>, i: int, k: int) -> int {
    children_of(nodes[i])[k].1 as int
}

/// The first node is a directory, and every child of a node comes after it
/// in the list.
pub open spec fn shape_ok(nodes: Seq<FsNode>) -> bool {
    &&& nodes.len() >= 1
    &&& nodes[0] is Dir
    &&& forall|i: int, k: int|
        0 <= i < nodes.len() && 0 <= k < children_of(nodes[i]).len() ==> i < #[trigger] child(
            nodes,
            i,
            k,
        ) < nodes.len()
}

/// The size of node `i`: that of a file, or the sizes of the children of a
/// directory added up.
pub open spec fn size_of(nodes: Seq<FsNode>, i: int) -> nat
    decreases nodes.len() - i, 1int, 0int,
{
    match nodes[i] {
        FsNode::File(size) => size as nat,
        FsNode::Dir(_, children) => sum_children(nodes, i, children@.len()),
    }
}

/// The sizes of the first `count` children of node `i` added up.
pub open spec fn sum_children(nodes: Seq<FsNode>, i: int, count: nat) -> nat
    decreases nodes.len() - i, 0int, count,
{
    if count == 0 {
        0
    } else {
        let c = child(nodes, i, count - 1);
        sum_children(nodes, i, (count - 1) as nat) + if i < c < nodes.len() {
            size_of(nodes, c)
        } else {
            0
        }
    }
}

/// Whether node `i` is node `top` or lies below it: it is a child of
/// `top`, or a child of a child, and so on.
pub open spec fn within(nodes: Seq<FsNode>, top: int, i: int) -> bool
    decreases nodes.len() - top,
{
    i == top || exists|k: int|
        0 <= k < children_of(nodes[top]).len() && top < #[trigger] child(nodes, top, k)
            < nodes.len() && within(nodes, child(nodes, top, k), i)
}

/// The sizes of more children add up to no less.
pub proof fn lemma_sum_grows(nodes: Seq<FsNode>, i: int, a: nat, b: nat)
    requires
        a <= b,
    ensures
        sum_children(nodes, i, a) <= sum_children(nodes, i, b),
    decreases b - a,
{
    if a < b {
        lemma_sum_grows(nodes, i, a, (b - 1) as nat);
    }
}

impl FsTree {
    /// The tree is well shaped, what the cache holds are sizes of
    /// directories of the tree, and with a directory it holds the
    /// directories in it.
    pub open spec fn wf(&self) -> bool {
        &&& shape_ok(self.nodes@)
        &&& forall|k: usize| #[trigger]
            self.dir_size_cache@.contains_key(k) ==> k < self.nodes@.len() && self.nodes@[k as int] is Dir
                && self.dir_size_cache@[k] == size_of(self.nodes@, k as int)
        &&& forall|i: usize, k: int|
            self.dir_size_cache@.contains_key(i) && 0 <= k < children_of(self.nodes@[i as int]).len()
                && self.nodes@[#[trigger] child(self.nodes@, i as int, k)] is Dir
                ==> self.dir_size_cache@.contains_key(child(self.nodes@, i as int, k) as usize)
    }

    /// A tree of one empty directory.
    pub fn new() -> (tree: FsTree)
        ensures
            tree.wf(),
            tree.nodes@.len() == 1,
            tree.nodes@[0] matches FsNode::Dir(None, children) && children@.len() == 0,
            tree.dir_size_cache@.len() == 0,
    {
        let mut nodes: Vec<FsNode> = Vec::new();
        nodes.push(FsNode::Dir(None, Vec::new()));
        let tree = FsTree { nodes, dir_size_cache: HashMap::new() };
        assert(tree.dir_size_cache@ =~= Map::empty());
        tree
    }

    /// The number of children of node `i`.
    pub fn child_count(&self, i: usize) -> (count: usize)
        requires
            i < self.nodes@.len(),
        ensures
            count == children_of(self.nodes@[i as int]).len(),
    {
        match &self.nodes[i] {
            FsNode::Dir(_, children) => children.len(),
            FsNode::File(_) => 0,
        }
    }

    /// The index of child number `k` of node `i`.
    pub fn child_index(&self, i: usize, k: usize) -> (c: usize)
        requires
            i < self.nodes@.len(),
            k < children_of(self.nodes@[i as int]).len(),
        ensures
            c == child(self.nodes@, i as int, k as int),
    {
        match &self.nodes[i] {
            FsNode::Dir(_, children) => children[k].1,
            FsNode::File(_) => 0,
        }
    }

    /// The index of the child of node `i` with the given name, if it has
    /// one: the first in its list.
    pub fn find_child(&self, i: usize, name: &String) -> (found: Option<usize>)
        requires
            i < self.nodes@.len(),
        ensures
            match found {
                Some(c) => exists|k: int|
                    0 <= k < children_of(self.nodes@[i as int]).len() && children_of(
                        self.nodes@[i as int],
                    )[k].0@ == name@ && c == #[trigger] child(self.nodes@, i as int, k),
                None => forall|k: int|
                    0 <= k < children_of(self.nodes@[i as int]).len() ==> (#[trigger] children_of(
                        self.nodes@[i as int],
                    )[k]).0@ != name@,
            },
    {
        match &self.nodes[i] {
            FsNode::Dir(_, children) => {
                let mut k: usize = 0;
                while k < children.len()
                    invariant
                        k <= children@.len(),
                        children@ == children_of(self.nodes@[i as int]),
                        forall|j: int| 0 <= j < k ==> (#[trigger] children@[j]).0@ != name@,
                    decreases children@.len() - k,
                {
                    if children[k].0 == *name {
                        assert(children[k as int].1 == child(self.nodes@, i as int, k as int));
                        return Some(children[k].1);
                    }
                    k += 1;
                }
                None
            },
            FsNode::File(_) => None,
        }
    }

    /// The directory that directory `cwd` lies in.
    pub fn parent(&self, cwd: usize) -> (p: usize)
        requires
            cwd < self.nodes@.len(),
            self.nodes@[cwd as int] matches FsNode::Dir(Some(_), _),
        ensures
            self.nodes@[cwd as int] matches FsNode::Dir(Some(up), _) && up == p,
    {
        match &self.nodes[cwd] {
            FsNode::Dir(Some(parent), _) => *parent,
            _ => 0,
        }
    }

    /// Whether node `i` has a child with the given name.
    pub open spec fn has_child(&self, i: int, name: Seq<char>) -> bool {
        exists|k: int|
            0 <= k < children_of(self.nodes@[i]).len() && (#[trigger] children_of(
                self.nodes@[i],
            )[k]).0@ == name
    }

    /// The tree is `before` with one node more, made the last child of
    /// directory `parent` under the given name.
    pub open spec fn grown_from(&self, before: &FsTree, parent: int, name: Seq<char>) -> bool {
        let index = before.nodes@.len() as int;
        &&& self.nodes@.len() == index + 1
        &&& forall|i: int|
            0 <= i < index && i != parent ==> #[trigger] self.nodes@[i] == before.nodes@[i]
        &&& self.nodes@[parent] is Dir
        &&& self.nodes@[parent]->Dir_0 == before.nodes@[parent]->Dir_0
        &&& children_of(self.nodes@[parent]).len() == children_of(before.nodes@[parent]).len() + 1
        &&& forall|k: int|
            0 <= k < children_of(before.nodes@[parent]).len() ==> #[trigger] children_of(
                self.nodes@[parent],
            )[k] == children_of(before.nodes@[parent])[k]
        &&& children_of(self.nodes@[parent]).last().0@ == name
        &&& children_of(self.nodes@[parent]).last().1 == index
    }

    /// The child of directory `parent_index` with the given name: the one
    /// it has, or a new node that `create_node` makes. The cache of sizes
    /// is left as it is: it stays right where no node is made, and where
    /// it is empty and the node made has no children.
    pub fn add_child<F: Fn() -> FsNode>(&mut self, parent_index: usize, name: &str, create_node: F) -> (index:
        usize)
        requires
            parent_index < old(self).nodes@.len(),
            old(self).nodes@[parent_index as int] is Dir,
            old(self).nodes@.len() < usize::MAX,
            call_requires(create_node, ()),
        ensures
            final(self).dir_size_cache@ == old(self).dir_size_cache@,
            old(self).has_child(parent_index as int, name@) ==> final(self).nodes@ == old(self).nodes@ && exists|k: int|
                0 <= k < children_of(old(self).nodes@[parent_index as int]).len() && children_of(
                    old(self).nodes@[parent_index as int],
                )[k].0@ == name@ && index == #[trigger] child(
                    old(self).nodes@,
                    parent_index as int,
                    k,
                ),
            !old(self).has_child(parent_index as int, name@) ==> index == old(self).nodes@.len()
                && final(self).grown_from(old(self), parent_index as int, name@) && call_ensures(
                create_node,
                (),
                final(self).nodes@[index as int],
            ),
            old(self).wf() && old(self).has_child(parent_index as int, name@) ==> final(self).wf(),
            old(self).wf() && old(self).dir_size_cache@.dom() =~= Set::empty() && children_of(
                final(self).nodes@[final(self).nodes@.len() - 1],
            ).len() == 0 ==> final(self).wf(),
    {
        let owned = name.to_owned();
        if let Some(c) = self.find_child(parent_index, &owned) {
            return c;
        }
        let new_index = self.nodes.len();
        let node = create_node();
        let ghost before = self.nodes@;
        self.nodes.push(node);
        match &mut self.nodes[parent_index] {
            FsNode::Dir(_, children) => {
                children.push((owned, new_index));
            },
            FsNode::File(_) => {},
        }
        proof {
            let after = self.nodes@;
            if old(self).wf() && old(self).dir_size_cache@.dom() =~= Set::empty() && children_of(
                after[new_index as int],
            ).len() == 0 {
                assert forall|i: int, k: int|
                    0 <= i < after.len() && 0 <= k < children_of(after[i]).len() implies i
                    < #[trigger] child(after, i, k) < after.len() by {
                    if i == parent_index {
                        if k < children_of(before[i]).len() {
                            assert(child(after, i, k) == child(before, i, k));
                        }
                    } else if i < new_index {
                        assert(after[i] == before[i]);
                        assert(child(after, i, k) == child(before, i, k));
                    }
                }
            }
        }
        new_index
    }

    /// The directory with the given name in directory `parent_index`, made
    /// if it is not there.
    pub fn dir(&mut self, parent_index: usize, name: &str) -> (index: usize)
        requires
            parent_index < old(self).nodes@.len(),
            old(self).nodes@[parent_index as int] is Dir,
            old(self).nodes@.len() < usize::MAX,
        ensures
            final(self).dir_size_cache@ == old(self).dir_size_cache@,
            old(self).has_child(parent_index as int, name@) ==> final(self).nodes@ == old(self).nodes@ && exists|k: int|
                0 <= k < children_of(old(self).nodes@[parent_index as int]).len() && children_of(
                    old(self).nodes@[parent_index as int],
                )[k].0@ == name@ && index == #[trigger] child(
                    old(self).nodes@,
                    parent_index as int,
                    k,
                ),
            !old(self).has_child(parent_index as int, name@) ==> index == old(self).nodes@.len()
                && final(self).grown_from(old(self), parent_index as int, name@) && (final(
                self
            ).nodes@[index as int] matches FsNode::Dir(Some(up), children) && up == parent_index
                && children@.len() == 0),
            old(self).wf() && (old(self).has_child(parent_index as int, name@) || old(
                self
            ).dir_size_cache@.dom() =~= Set::empty()) ==> final(self).wf() && index < final(
                self
            ).nodes@.len(),
    {
        let make = || -> (n: FsNode)
            ensures
                n matches FsNode::Dir(Some(up), children) && up == parent_index && children@.len()
                    == 0,
            { FsNode::Dir(Some(parent_index), Vec::new()) };
        self.add_child(parent_index, name, make)
    }

    /// The file with the given name in directory `parent_index`, made with
    /// the given size if it is not there.
    pub fn file(&mut self, parent_index: usize, name: &str, size: u64) -> (index: usize)
        requires
            parent_index < old(self).nodes@.len(),
            old(self).nodes@[parent_index as int] is Dir,
            old(self).nodes@.len() < usize::MAX,
        ensures
            final(self).dir_size_cache@ == old(self).dir_size_cache@,
            old(self).has_child(parent_index as int, name@) ==> final(self).nodes@ == old(self).nodes@ && exists|k: int|
                0 <= k < children_of(old(self).nodes@[parent_index as int]).len() && children_of(
                    old(self).nodes@[parent_index as int],
                )[k].0@ == name@ && index == #[trigger] child(
                    old(self).nodes@,
                    parent_index as int,
                    k,
                ),
            !old(self).has_child(parent_index as int, name@) ==> index == old(self).nodes@.len()
                && final(self).grown_from(old(self), parent_index as int, name@) && final(
                self
            ).nodes@[index as int] == FsNode::File(size),
            old(self).wf() && (old(self).has_child(parent_index as int, name@) || old(
                self
            ).dir_size_cache@.dom() =~= Set::empty()) ==> final(self).wf() && index < final(
                self
            ).nodes@.len(),
    {
        let make = || -> (n: FsNode)
            ensures
                n == FsNode::File(size),
            { FsNode::File(size) };
        self.add_child(parent_index, name, make)
    }

    /// The size of node `i` if it is a file.
    pub fn file_size(&self, i: usize) -> (size: Option<u64>)
        requires
            i < self.nodes@.len(),
        ensures
            size == match self.nodes@[i as int] {
                FsNode::File(s) => Some(s),
                FsNode::Dir(_, _) => None,
            },
    {
        match &self.nodes[i] {
            FsNode::File(s) => Some(*s),
            FsNode::Dir(_, _) => None,
        }
    }

    /// The size of directory `dir_index`: the sizes of all files in it and
    /// in the directories in it. Remembers the size of every directory it
    /// works out.
    pub fn calc_dir_size(&mut self, dir_index: usize) -> (size: u64)
        requires
            old(self).wf(),
            dir_index < old(self).nodes@.len(),
            old(self).nodes@[dir_index as int] is Dir,
            size_of(old(self).nodes@, dir_index as int) <= u64::MAX,
        ensures
            final(self).wf(),
            final(self).nodes@ == old(self).nodes@,
            size == size_of(old(self).nodes@, dir_index as int),
            final(self).dir_size_cache@.contains_key(dir_index),
            forall|k: usize|
                old(self).dir_size_cache@.contains_key(k) ==> #[trigger] final(
                    self
                ).dir_size_cache@.contains_key(k),
            forall|k: usize| #[trigger]
                final(self).dir_size_cache@.contains_key(k) ==> old(
                    self
                ).dir_size_cache@.contains_key(k) || within(
                    old(self).nodes@,
                    dir_index as int,
                    k as int,
                ),
        decreases old(self).nodes@.len() - dir_index,
    {
        match self.dir_size_cache.get(&dir_index) {
            Some(size) => {
                return *size;
            },
            None => {},
        }
        let ghost nodes = self.nodes@;
        let count = self.child_count(dir_index);
        let mut size: u64 = 0;
        let mut k: usize = 0;
        while k < count
            invariant
                k <= count,
                count == children_of(nodes[dir_index as int]).len(),
                self.wf(),
                self.nodes@ == nodes,
                nodes == old(self).nodes@,
                dir_index < nodes.len(),
                nodes[dir_index as int] is Dir,
                size_of(nodes, dir_index as int) <= u64::MAX,
                size == sum_children(nodes, dir_index as int, k as nat),
                forall|j: usize|
                    old(self).dir_size_cache@.contains_key(j) ==> #[trigger] self.dir_size_cache@.contains_key(
                        j,
                    ),
                forall|j: usize| #[trigger]
                    self.dir_size_cache@.contains_key(j) ==> old(self).dir_size_cache@.contains_key(
                        j,
                    ) || within(nodes, dir_index as int, j as int),
                forall|j: int|
                    0 <= j < k && nodes[#[trigger] child(nodes, dir_index as int, j)] is Dir
                        ==> self.dir_size_cache@.contains_key(
                        child(nodes, dir_index as int, j) as usize,
                    ),
            decreases count - k,
        {
            let c = self.child_index(dir_index, k);
            proof {
                lemma_sum_grows(nodes, dir_index as int, (k + 1) as nat, count as nat);
                assert(dir_index < child(nodes, dir_index as int, k as int) < nodes.len());
            }
            let ghost cached = self.dir_size_cache@;
            let child_size = match self.file_size(c) {
                Some(s) => s,
                None => self.calc_dir_size(c),
            };
            proof {
                assert(child_size == size_of(nodes, c as int));
                assert(c == child(nodes, dir_index as int, (k + 1) - 1));
                assert(sum_children(nodes, dir_index as int, (k + 1) as nat) == sum_children(
                    nodes,
                    dir_index as int,
                    k as nat,
                ) + size_of(nodes, c as int));
            }
            size = size + child_size;
            proof {
                assert forall|j: usize| #[trigger]
                    self.dir_size_cache@.contains_key(j) implies old(self).dir_size_cache@.contains_key(
                    j,
                ) || within(nodes, dir_index as int, j as int) by {
                    if !cached.contains_key(j) {
                        assert(within(nodes, c as int, j as int));
                        assert(c == child(nodes, dir_index as int, k as int));
                    }
                }
            }
            k += 1;
        }
        self.dir_size_cache.insert(dir_index, size);
        proof {
            assert forall|i: usize, j: int|
                self.dir_size_cache@.contains_key(i) && 0 <= j < children_of(nodes[i as int]).len()
                    && nodes[#[trigger] child(nodes, i as int, j)] is Dir implies self.dir_size_cache@.contains_key(
                child(nodes, i as int, j) as usize,
            ) by {}
        }
        size
    }

    /// The sizes that the cache holds for the first `n` nodes and that are
    /// not more than `limit`, added up.
    pub open spec fn small_sum(&self, limit: u64, n: nat) -> nat
        decreases n,
    {
        if n == 0 {
            0
        } else {
            let i = (n - 1) as usize;
            self.small_sum(limit, (n - 1) as nat) + if self.dir_size_cache@.contains_key(i)
                && self.dir_size_cache@[i] <= limit {
                self.dir_size_cache@[i] as nat
            } else {
                0
            }
        }
    }

    /// The sizes of the directories that are not larger than `limit`,
    /// added up.
    pub fn sum_of_dirs_not_more_than(&self, limit: u64) -> (sum: u64)
        requires
            self.small_sum(limit, self.nodes@.len()) <= u64::MAX,
        ensures
            sum == self.small_sum(limit, self.nodes@.len()),
    {
        let mut sum: u64 = 0;
        let mut i: usize = 0;
        while i < self.nodes.len()
            invariant
                i <= self.nodes@.len(),
                sum == self.small_sum(limit, i as nat),
                self.small_sum(limit, self.nodes@.len()) <= u64::MAX,
            decreases self.nodes@.len() - i,
        {
            proof {
                self.lemma_small_sum_grows(limit, (i + 1) as nat, self.nodes@.len());
            }
            match self.dir_size_cache.get(&i) {
                Some(s) => {
                    if *s <= limit {
                        sum = sum + *s;
                    }
                },
                None => {},
            }
            i += 1;
        }
        sum
    }

    /// More nodes add up to no less.
    pub proof fn lemma_small_sum_grows(&self, limit: u64, a: nat, b: nat)
        requires
            a <= b,
        ensures
            self.small_sum(limit, a) <= self.small_sum(limit, b),
        decreases b - a,
    {
        if a < b {
            self.lemma_small_sum_grows(limit, a, (b - 1) as nat);
        }
    }

    /// The size of the smallest directory whose removal leaves `target`
    /// free of the 70000000 that the whole disk holds.
    pub fn smallest_directory_freeing_up_to(&self, target: u64) -> (smallest: u64)
        requires
            self.wf(),
            self.dir_size_cache@.contains_key(0),
            self.dir_size_cache@[0] <= 70000000,
            target >= 70000000 - self.dir_size_cache@[0],
            exists|k: usize| #[trigger]
                self.dir_size_cache@.contains_key(k) && self.dir_size_cache@[k] >= target - (70000000
                    - self.dir_size_cache@[0]),
        ensures
            exists|k: usize| #[trigger]
                self.dir_size_cache@.contains_key(k) && self.dir_size_cache@[k] == smallest,
            smallest >= target - (70000000 - self.dir_size_cache@[0]),
            forall|k: usize| #[trigger]
                self.dir_size_cache@.contains_key(k) && self.dir_size_cache@[k] >= target - (70000000
                    - self.dir_size_cache@[0]) ==> smallest <= self.dir_size_cache@[k],
    {
        let total_size: u64 = 70000000;
        let root_size = match self.dir_size_cache.get(&0) {
            Some(s) => *s,
            None => 0,
        };
        let cur_free = total_size - root_size;
        let min_dir_size = target - cur_free;
        let mut best: Option<u64> = None;
        let mut i: usize = 0;
        while i < self.nodes.len()
            invariant
                i <= self.nodes@.len(),
                self.wf(),
                match best {
                    Some(b) => b >= min_dir_size && (exists|k: usize| #[trigger]
                        self.dir_size_cache@.contains_key(k) && self.dir_size_cache@[k] == b),
                    None => true,
                },
                forall|k: usize| #[trigger]
                    self.dir_size_cache@.contains_key(k) && k < i && self.dir_size_cache@[k]
                        >= min_dir_size ==> best is Some && best->0 <= self.dir_size_cache@[k],
            decreases self.nodes@.len() - i,
        {
            match self.dir_size_cache.get(&i) {
                Some(s) => {
                    if *s >= min_dir_size {
                        best = match best {
                            Some(b) => if b <= *s {
                                Some(b)
                            } else {
                                Some(*s)
                            },
                            None => Some(*s),
                        };
                    }
                },
                None => {},
            }
            i += 1;
        }
        match best {
            Some(b) => b,
            None => {
                proof {
                    let k = choose|k: usize| #[trigger]
                        self.dir_size_cache@.contains_key(k) && self.dir_size_cache@[k]
                            >= min_dir_size;
                    assert(k < self.nodes@.len());
                }
                0
            },
        }
    }
}

} // verus!
