//! The fixed-depth seven-way tree that holds one value per addressed cell.
//!
//! A tree spans the resolutions from that of its root cell to that of its
//! leaves. A key is read by its digits: the digit of level 0 selects a child
//! of the root, the digit of level 1 a child of that child, and so on down
//! to the leaves; every digit from there on must be zero.

use crate::index::{digit_at, digits_of, truncated, Index, LEVELS, MAX_RESOLUTION};
use vstd::prelude::*;

verus! {

/// A node of the tree: a leaf with its value, or an inner node with a value
/// of its own and seven children, one per child digit.
pub enum TreeNode<T> {
    Leaf(T),
    Node(T, [Box<TreeNode<T>>; 7]),
}

/// Why a key names no leaf of a tree.
#[derive(Clone, Copy, Debug, PartialEq, Eq)]
pub enum H3TreeErrorKind {
    /// A digit from the depth of the tree on is not zero, or a digit on the
    /// way down is no child digit.
    OutOfRange,
    /// The tree does not have the shape that its depth promises: the way
    /// down meets a leaf before the depth is reached, or an inner node when
    /// it is. A complete tree never gives this.
    StructuralMismatch,
}

/// The failure of an operation on a tree.
#[derive(Clone, Copy, Debug)]
pub struct H3TreeError {
    pub kind: H3TreeErrorKind,
}

/// A seven-way tree below one cell of the grid. As built by
/// [`H3Tree::empty`] it is complete: every leaf lies exactly
/// `leaf_resolution - root_resolution` steps below the root.
pub struct H3Tree<T> {
    pub address: Index,
    pub root: TreeNode<T>,
    pub root_resolution: u8,
    pub leaf_resolution: u8,
}

/// Whether every digit of `path` is a child digit.
pub open spec fn is_path(path: Seq<u8>) -> bool {
    forall|i: int| 0 <= i < path.len() ==> #[trigger] path[i] < 7
}

/// The path that `key` names in a tree of `depth` levels: its digits at the
/// levels below `depth`, if each of them is a child digit and every digit
/// from `depth` on is zero.
pub open spec fn key_path(key: u64, depth: nat) -> Option<Seq<u8>> {
    let digits = digits_of(key);
    if is_path(digits.take(depth as int)) && (forall|l: int| depth <= l < 15 ==> digits[l] == 0) {
        Some(digits.take(depth as int))
    } else {
        None
    }
}

impl<T: Copy> TreeNode<T> {
    /// Whether every leaf below this node lies exactly `depth` steps down.
    pub open spec fn is_complete(self, depth: nat) -> bool
        decreases depth,
    {
        match self {
            TreeNode::Leaf(_) => depth == 0,
            TreeNode::Node(_, children) => depth > 0 && forall|i: int|
                0 <= i < 7 ==> (#[trigger] children[i]).is_complete((depth - 1) as nat),
        }
    }

    /// Whether the node is a complete tree of `depth` levels in which every
    /// node, inner or leaf, holds `value`.
    pub open spec fn is_uniform(self, depth: nat, value: T) -> bool
        decreases depth,
    {
        match self {
            TreeNode::Leaf(v) => depth == 0 && v == value,
            TreeNode::Node(v, children) => depth > 0 && v == value && forall|i: int|
                0 <= i < 7 ==> (#[trigger] children[i]).is_uniform((depth - 1) as nat, value),
        }
    }

    /// The node reached by following `path` from this node, one child digit
    /// per step, if the path stays inside the tree.
    pub open spec fn descend(self, path: Seq<u8>) -> Option<TreeNode<T>>
        decreases path.len(),
    {
        if path.len() == 0 {
            Some(self)
        } else {
            match self {
                TreeNode::Leaf(_) => None,
                TreeNode::Node(_, children) => if path[0] >= 7 {
                    None
                } else {
                    children[path[0] as int].descend(path.skip(1))
                },
            }
        }
    }

    /// The value of the leaf reached by following `path` from this node, if
    /// the path ends exactly at a leaf.
    pub open spec fn lookup(self, path: Seq<u8>) -> Option<T> {
        match self.descend(path) {
            Some(TreeNode::Leaf(v)) => Some(v),
            _ => None,
        }
    }

    /// Why `path` leads to no leaf from this node, if it leads to none. The
    /// way down is followed step by step, and the first obstacle decides: a
    /// node of the wrong kind is a mismatch of structure, a digit that is no
    /// child digit is out of range.
    pub open spec fn refusal(self, path: Seq<u8>) -> Option<H3TreeErrorKind>
        decreases path.len(),
    {
        match self {
            TreeNode::Leaf(_) => if path.len() == 0 {
                None
            } else {
                Some(H3TreeErrorKind::StructuralMismatch)
            },
            TreeNode::Node(_, children) => if path.len() == 0 {
                Some(H3TreeErrorKind::StructuralMismatch)
            } else if path[0] >= 7 {
                Some(H3TreeErrorKind::OutOfRange)
            } else {
                children[path[0] as int].refusal(path.skip(1))
            },
        }
    }

    /// Whether this node is `before` with the leaf at `path` holding `value`
    /// and nothing else changed.
    pub open spec fn is_update_of(self, before: TreeNode<T>, path: Seq<u8>, value: T) -> bool
        decreases path.len(),
    {
        match (before, self) {
            (TreeNode::Leaf(_), TreeNode::Leaf(v)) => path.len() == 0 && v == value,
            (TreeNode::Node(b, old_children), TreeNode::Node(a, new_children)) => {
                &&& path.len() > 0
                &&& path[0] < 7
                &&& a == b
                &&& forall|i: int|
                    0 <= i < 7 ==> if i == path[0] {
                        (#[trigger] new_children[i]).is_update_of(
                            *old_children[i],
                            path.skip(1),
                            value,
                        )
                    } else {
                        new_children[i] == old_children[i]
                    }
            },
            _ => false,
        }
    }

    /// Builds the tree of `level` levels, one level per call.
    fn implementation(level: u8, default: T) -> (r: TreeNode<T>)
        ensures
            r.is_uniform(level as nat, default),
        decreases level,
    {
        if level == 0 {
            TreeNode::Leaf(default)
        } else {
            TreeNode::Node(
                default,
                [
                    Box::new(Self::implementation(level - 1, default)),
                    Box::new(Self::implementation(level - 1, default)),
                    Box::new(Self::implementation(level - 1, default)),
                    Box::new(Self::implementation(level - 1, default)),
                    Box::new(Self::implementation(level - 1, default)),
                    Box::new(Self::implementation(level - 1, default)),
                    Box::new(Self::implementation(level - 1, default)),
                ],
            )
        }
    }

    /// Builds a complete tree of `depth` levels with `default` in every node.
    pub fn empty(depth: u8, default: T) -> (r: TreeNode<T>)
        ensures
            r.is_uniform(depth as nat, default),
            r.is_complete(depth as nat),
    {
        let node = TreeNode::implementation(depth, default);
        proof {
            lemma_uniform_is_complete(node, depth as nat, default);
        }
        node
    }

    /// The seven children of an inner node; a leaf has none.
    pub fn children(&self) -> (r: Option<&[Box<TreeNode<T>>; 7]>)
        ensures
            match *self {
                TreeNode::Leaf(_) => r is None,
                TreeNode::Node(_, children) => r == Some(&children),
            },
    {
        match self {
            TreeNode::Leaf(_) => None,
            TreeNode::Node(_, children) => Some(children),
        }
    }

    /// The seven children of an inner node, to be changed in place; a leaf
    /// has none.
    fn mut_children(&mut self) -> (r: Option<&mut [Box<TreeNode<T>>; 7]>)
        ensures
            match *old(self) {
                TreeNode::Leaf(_) => r is None && *final(self) == *old(self),
                TreeNode::Node(v, children) => {
                    &&& r matches Some(c)
                    &&& *c == children
                    &&& *final(self) == TreeNode::Node(v, *final(c))
                },
            },
    {
        match self {
            TreeNode::Leaf(_) => None,
            TreeNode::Node(_, children) => Some(children),
        }
    }

    /// Writes `value` to the leaf that the digits from `level` up to `depth`
    /// lead to from this node. Where they lead to no leaf, nothing is
    /// written and the reason is returned.
    fn set_below(&mut self, digits: &[u8; 15], level: usize, depth: usize, value: T) -> (r: Result<
        (),
        H3TreeErrorKind,
    >)
        requires
            level <= depth <= 15,
        ensures
            r == match old(self).refusal(digits@.subrange(level as int, depth as int)) {
                Some(kind) => Err::<(), H3TreeErrorKind>(kind),
                None => Ok(()),
            },
            r is Ok ==> final(self).is_update_of(
                *old(self),
                digits@.subrange(level as int, depth as int),
                value,
            ),
            r is Err ==> *final(self) == *old(self),
        decreases depth - level,
    {
        let ghost path = digits@.subrange(level as int, depth as int);
        if level == depth {
            match self {
                TreeNode::Leaf(leaf) => {
                    *leaf = value;
                    Ok(())
                },
                TreeNode::Node(_, _) => Err(H3TreeErrorKind::StructuralMismatch),
            }
        } else {
            let digit: usize = digits[level] as usize;
            proof {
                assert(path[0] == digits@[level as int]);
                assert(path.skip(1) =~= digits@.subrange(level + 1, depth as int));
            }
            match self.mut_children() {
                Some(children) => {
                    if digit >= 7 {
                        return Err(H3TreeErrorKind::OutOfRange);
                    }
                    let ghost before = *children;
                    let r = (&mut *children[digit]).set_below(digits, level + 1, depth, value);
                    assert(r is Err ==> *children =~= before);
                    r
                },
                None => Err(H3TreeErrorKind::StructuralMismatch),
            }
        }
    }
}

impl<T: Copy> View for H3Tree<T> {
    type V = Map<Seq<u8>, T>;

    /// The tree as a map from the paths of its leaves to their values. A
    /// path is one child digit per level, coarsest first; only the leaves
    /// that lie as deep as the tree is said to be are in the map.
    open spec fn view(&self) -> Map<Seq<u8>, T> {
        Map::new(
            |path: Seq<u8>| path.len() == self.spec_depth() && self.root.lookup(path) is Some,
            |path: Seq<u8>| self.root.lookup(path).unwrap(),
        )
    }
}

impl<T: Copy> H3Tree<T> {
    /// The number of levels between the root and the leaves.
    pub open spec fn spec_depth(self) -> nat {
        (self.leaf_resolution - self.root_resolution) as nat
    }

    /// Whether the resolutions of root and leaves are in order and in range.
    pub open spec fn spans_resolutions(self) -> bool {
        self.root_resolution <= self.leaf_resolution <= MAX_RESOLUTION
    }

    /// The invariant of a tree as it is built: its resolutions are in order
    /// and in range, and every leaf lies exactly `spec_depth` steps below the
    /// root.
    pub open spec fn wf(self) -> bool {
        &&& self.spans_resolutions()
        &&& self.root.is_complete(self.spec_depth())
    }

    /// What a read of `key` gives: the value of the leaf at the path that the
    /// key names, if it names a path and a leaf lies there.
    pub open spec fn spec_get(self, key: u64) -> Option<T> {
        match key_path(key, self.spec_depth()) {
            Some(path) => if self@.dom().contains(path) {
                Some(self@[path])
            } else {
                None
            },
            None => None,
        }
    }

    /// Why `key` names no leaf of the tree, if it names none: a digit other
    /// than zero from the depth on puts it out of range; else the way down
    /// from the root decides.
    pub open spec fn spec_refusal(self, key: u64) -> Option<H3TreeErrorKind> {
        let digits = digits_of(key);
        if exists|l: int| self.spec_depth() <= l < 15 && digits[l] != 0 {
            Some(H3TreeErrorKind::OutOfRange)
        } else {
            self.root.refusal(digits.take(self.spec_depth() as int))
        }
    }

    /// Whether `index` lies in the root cell: it has the base cell of the
    /// root address and the same digit at every level below the root
    /// resolution.
    pub open spec fn spec_contains(self, index: Index) -> bool {
        &&& self.address.spec_base_hex() == index.spec_base_hex()
        &&& forall|level: u8|
            level < LEVELS && level < self.root_resolution ==> digit_at(self.address.index, level)
                == digit_at(index.index, level)
    }

    /// Builds the tree below `root_address` with leaves at `leaf_res`, every
    /// one of them holding `t`.
    pub fn empty(root_res: u8, leaf_res: u8, root_address: Index, t: T) -> (r: H3Tree<T>)
        requires
            root_res <= leaf_res <= MAX_RESOLUTION,
        ensures
            r.wf(),
            r.address == root_address,
            r.root_resolution == root_res,
            r.leaf_resolution == leaf_res,
            r.root.is_uniform((leaf_res - root_res) as nat, t),
            forall|path: Seq<u8>|
                r@.dom().contains(path) <==> path.len() == leaf_res - root_res && is_path(path),
            forall|path: Seq<u8>| r@.dom().contains(path) ==> r@[path] == t,
    {
        let root = TreeNode::empty(leaf_res - root_res, t);
        proof {
            let depth = (leaf_res - root_res) as nat;
            assert forall|path: Seq<u8>| path.len() == depth implies (root.lookup(path) is Some
                <==> is_path(path)) && (is_path(path) ==> root.lookup(path) == Some(t)) by {
                if is_path(path) {
                    lemma_uniform_lookup(root, depth, t, path);
                }
                lemma_refusal(root, path);
            }
        }
        H3Tree { address: root_address, root, root_resolution: root_res, leaf_resolution: leaf_res }
    }

    /// The number of levels between the root and the leaves.
    pub fn depth(&self) -> (r: u8)
        requires
            self.root_resolution <= self.leaf_resolution,
        ensures
            r == self.spec_depth(),
    {
        self.leaf_resolution - self.root_resolution
    }

    /// Reads the value at `index`. The digits of the key at the levels below
    /// the depth are the path. Nothing is found where a digit from the depth
    /// on is not zero, where a digit of the path is no child digit, or where
    /// the path does not end at a leaf; in a complete tree the last does not
    /// happen.
    #[verifier::loop_isolation(false)]
    pub fn get_u64(&self, index: u64) -> (r: Option<&T>)
        requires
            self.spans_resolutions(),
        ensures
            match self.spec_get(index) {
                Some(v) => r == Some(&v),
                None => r is None,
            },
            r is None <==> self.spec_refusal(index) is Some,
            self.wf() ==> (r is Some <==> key_path(index, self.spec_depth()) is Some),
    {
        let u8indices: [u8; 15] = Index::to_u8_indices(index);
        let depth: usize = self.depth() as usize;
        let ghost path = u8indices@.take(depth as int);
        proof {
            lemma_refusal(self.root, path);
            if self.wf() {
                lemma_refusal_of_complete(self.root, depth as nat, path);
            }
        }

        let mut i: usize = depth;
        while i < 15
            invariant
                depth <= i <= 15,
                forall|l: int| depth <= l < i ==> u8indices@[l] == 0,
            decreases 15 - i,
        {
            if u8indices[i] != 0 {
                return None;
            }
            i = i + 1;
        }

        let mut current_node: &TreeNode<T> = &self.root;
        let mut level: usize = 0;
        proof {
            assert(path.skip(0) =~= path);
        }
        while level < depth
            invariant
                level <= depth <= 15,
                self.root.lookup(path) == current_node.lookup(path.skip(level as int)),
            decreases depth - level,
        {
            let digit: usize = u8indices[level] as usize;
            proof {
                let rest = path.skip(level as int);
                assert(rest[0] == u8indices@[level as int]);
                assert(rest.skip(1) =~= path.skip(level + 1));
            }
            match current_node.children() {
                Some(children) => {
                    if digit >= 7 {
                        return None;
                    }
                    current_node = &*children[digit];
                },
                None => {
                    return None;
                },
            }
            level = level + 1;
        }
        match current_node {
            TreeNode::Leaf(data) => Some(data),
            TreeNode::Node(_, _) => None,
        }
    }

    /// Writes `value` at `index`. A key that a read finds nothing at is
    /// refused, with the reason, and leaves the tree as it was. In a complete
    /// tree the one reason is a key out of range: a digit other than zero
    /// from the depth on, or a digit of the path that is no child digit.
    #[verifier::loop_isolation(false)]
    pub fn set_u64(&mut self, index: u64, value: T) -> (r: Result<(), H3TreeError>)
        requires
            old(self).spans_resolutions(),
        ensures
            final(self).address == old(self).address,
            final(self).root_resolution == old(self).root_resolution,
            final(self).leaf_resolution == old(self).leaf_resolution,
            match old(self).spec_refusal(index) {
                None => {
                    &&& r is Ok
                    &&& key_path(index, old(self).spec_depth()) matches Some(path)
                    &&& final(self).root.is_update_of(old(self).root, path, value)
                    &&& final(self)@ == old(self)@.insert(path, value)
                },
                Some(kind) => r matches Err(e) && e.kind == kind && *final(self) == *old(self),
            },
            r is Ok <==> old(self).spec_get(index) is Some,
            old(self).wf() ==> final(self).wf() && (r is Ok <==> key_path(
                index,
                old(self).spec_depth(),
            ) is Some) && (r matches Err(e) ==> e.kind == H3TreeErrorKind::OutOfRange),
    {
        let u8indices: [u8; 15] = Index::to_u8_indices(index);
        let tree_depth: usize = self.depth() as usize;
        let ghost path = u8indices@.take(tree_depth as int);
        let ghost before = self.root;
        proof {
            lemma_refusal(before, path);
            if self.wf() {
                lemma_refusal_of_complete(before, tree_depth as nat, path);
            }
        }

        let mut i: usize = tree_depth;
        while i < 15
            invariant
                tree_depth <= i <= 15,
                forall|l: int| tree_depth <= l < i ==> u8indices@[l] == 0,
            decreases 15 - i,
        {
            if u8indices[i] != 0 {
                return Err(H3TreeError { kind: H3TreeErrorKind::OutOfRange });
            }
            i = i + 1;
        }

        proof {
            assert(u8indices@.subrange(0, tree_depth as int) =~= path);
        }
        match self.root.set_below(&u8indices, 0, tree_depth, value) {
            Ok(()) => {
                proof {
                    assert forall|other: Seq<u8>| self.root.lookup(other) == if other == path {
                        Some(value)
                    } else {
                        before.lookup(other)
                    } by {
                        lemma_update_lookup(self.root, before, path, value, other);
                    }
                    assert(self@ =~= old(self)@.insert(path, value));
                    if old(self).wf() {
                        lemma_update_is_complete(self.root, before, path, value);
                    }
                }
                Ok(())
            },
            Err(kind) => Err(H3TreeError { kind }),
        }
    }

    /// Tests whether `index` lies in the root cell of the tree: the root
    /// address, truncated to the root resolution, contains it.
    pub fn contains(&self, index: Index) -> (r: bool)
        requires
            self.root_resolution <= MAX_RESOLUTION,
        ensures
            r == (Index {
                index: truncated(self.address.index, self.root_resolution),
            }).spec_contains(index),
            r == self.spec_contains(index),
    {
        self.address.truncate_to_resolution(self.root_resolution).contains(index)
    }
}

/// The shape of a complete tree: a path of child digits no longer than the
/// depth stays inside the tree, and the node it reaches is a complete tree of
/// the depth that is left. So the node is a leaf exactly when the path has
/// the full depth, and an inner node with seven children before that.
pub proof fn lemma_complete_descend<T: Copy>(node: TreeNode<T>, depth: nat, path: Seq<u8>)
    requires
        node.is_complete(depth),
        is_path(path),
        path.len() <= depth,
    ensures
        node.descend(path) matches Some(reached) && reached.is_complete(
            (depth - path.len()) as nat,
        ),
        path.len() == depth ==> node.descend(path).unwrap() is Leaf && node.lookup(path) is Some,
        path.len() < depth ==> node.descend(path).unwrap() is Node && node.lookup(path) is None,
    decreases path.len(),
{
    if path.len() > 0 {
        match node {
            TreeNode::Leaf(_) => {},
            TreeNode::Node(_, children) => {
                lemma_path_by_steps(path);
                lemma_complete_descend(
                    *children[path[0] as int],
                    (depth - 1) as nat,
                    path.skip(1),
                );
            },
        }
    }
}

/// A path is refused exactly when it leads to no leaf, and a path that
/// leads to a leaf is made of child digits.
pub proof fn lemma_refusal<T: Copy>(node: TreeNode<T>, path: Seq<u8>)
    ensures
        node.refusal(path) is None <==> node.lookup(path) is Some,
        node.lookup(path) is Some ==> is_path(path),
    decreases path.len(),
{
    if path.len() > 0 {
        match node {
            TreeNode::Leaf(_) => {},
            TreeNode::Node(_, children) => {
                if path[0] < 7 {
                    lemma_refusal(*children[path[0] as int], path.skip(1));
                    lemma_path_by_steps(path);
                }
            },
        }
    }
}

/// In a complete tree a path as long as the tree is deep is refused only for
/// a digit that is no child digit, and then as out of range.
pub proof fn lemma_refusal_of_complete<T: Copy>(node: TreeNode<T>, depth: nat, path: Seq<u8>)
    requires
        node.is_complete(depth),
        path.len() == depth,
    ensures
        node.refusal(path) == if is_path(path) {
            None
        } else {
            Some(H3TreeErrorKind::OutOfRange)
        },
    decreases depth,
{
    match node {
        TreeNode::Leaf(_) => {},
        TreeNode::Node(_, children) => {
            lemma_path_by_steps(path);
            if path[0] < 7 {
                lemma_refusal_of_complete(
                    *children[path[0] as int],
                    (depth - 1) as nat,
                    path.skip(1),
                );
            }
        },
    }
}

/// A key is refused exactly when a read of it finds nothing.
pub proof fn lemma_refused_or_found<T: Copy>(tree: H3Tree<T>, key: u64)
    requires
        tree.spans_resolutions(),
    ensures
        tree.spec_refusal(key) is None <==> tree.spec_get(key) is Some,
{
    lemma_refusal(tree.root, digits_of(key).take(tree.spec_depth() as int));
}

/// A key with a digit of seven at a level below the depth, or with a digit
/// other than zero at a level from the depth on, names no path: a read of it
/// finds nothing and a write of it is refused, in a complete tree as out of
/// range.
pub proof fn lemma_key_out_of_range<T: Copy>(tree: H3Tree<T>, key: u64, level: u8)
    requires
        tree.spans_resolutions(),
        level < LEVELS,
        if level < tree.spec_depth() {
            digit_at(key, level) >= 7
        } else {
            digit_at(key, level) != 0
        },
    ensures
        key_path(key, tree.spec_depth()) is None,
        tree.spec_get(key) is None,
        tree.spec_refusal(key) is Some,
        tree.wf() ==> tree.spec_refusal(key) == Some(H3TreeErrorKind::OutOfRange),
{
    let digits = digits_of(key);
    let path = digits.take(tree.spec_depth() as int);
    assert(digits[level as int] == digit_at(key, level));
    if level < tree.spec_depth() {
        assert(path[level as int] == digits[level as int]);
    }
    lemma_refusal(tree.root, path);
    if tree.wf() {
        lemma_refusal_of_complete(tree.root, tree.spec_depth(), path);
    }
}

/// In a complete tree the leaves are exactly the paths of child digits that
/// are as long as the tree is deep, so a read finds a value exactly for the
/// keys that name such a path.
pub proof fn lemma_leaves_of_complete<T: Copy>(tree: H3Tree<T>)
    requires
        tree.wf(),
    ensures
        forall|path: Seq<u8>|
            tree@.dom().contains(path) <==> path.len() == tree.spec_depth() && is_path(path),
        forall|key: u64|
            #[trigger] tree.spec_get(key) is Some <==> key_path(key, tree.spec_depth()) is Some,
{
    assert forall|path: Seq<u8>| path.len() == tree.spec_depth() implies (tree.root.lookup(
        path,
    ) is Some <==> is_path(path)) by {
        if is_path(path) {
            lemma_complete_descend(tree.root, tree.spec_depth(), path);
        }
        lemma_refusal(tree.root, path);
    }
}

/// In a tree as it was built, every key that names a path reads as the value
/// the tree was built with.
pub proof fn lemma_get_of_fresh<T: Copy>(tree: H3Tree<T>, value: T, key: u64)
    requires
        tree.spans_resolutions(),
        tree.root.is_uniform(tree.spec_depth(), value),
        key_path(key, tree.spec_depth()) is Some,
    ensures
        tree.spec_get(key) == Some(value),
{
    lemma_uniform_lookup(
        tree.root,
        tree.spec_depth(),
        value,
        key_path(key, tree.spec_depth()).unwrap(),
    );
}

/// After a write, the written key reads as the new value, and a key that
/// names another path, or none, reads as it did before.
pub proof fn lemma_get_after_set<T: Copy>(
    before: H3Tree<T>,
    after: H3Tree<T>,
    key: u64,
    value: T,
    other: u64,
)
    requires
        after.spec_depth() == before.spec_depth(),
        key_path(key, before.spec_depth()) matches Some(path) && after@ == before@.insert(
            path,
            value,
        ),
    ensures
        after.spec_get(key) == Some(value),
        key_path(other, before.spec_depth()) != key_path(key, before.spec_depth())
            ==> after.spec_get(other) == before.spec_get(other),
{
}

/// A path that is not empty is made of child digits exactly when its first
/// digit is one and the rest is made of them.
pub proof fn lemma_path_by_steps(path: Seq<u8>)
    requires
        path.len() > 0,
    ensures
        is_path(path) <==> path[0] < 7 && is_path(path.skip(1)),
{
    if is_path(path) {
        assert forall|i: int| 0 <= i < path.skip(1).len() implies #[trigger] path.skip(1)[i]
            < 7 by {
            assert(path.skip(1)[i] == path[i + 1]);
        }
    }
    if path[0] < 7 && is_path(path.skip(1)) {
        assert forall|i: int| 0 <= i < path.len() implies #[trigger] path[i] < 7 by {
            if i > 0 {
                assert(path[i] == path.skip(1)[i - 1]);
            }
        }
    }
}

/// A tree with one value in every node is complete.
pub proof fn lemma_uniform_is_complete<T: Copy>(node: TreeNode<T>, depth: nat, value: T)
    requires
        node.is_uniform(depth, value),
    ensures
        node.is_complete(depth),
    decreases depth,
{
    match node {
        TreeNode::Leaf(_) => {},
        TreeNode::Node(_, children) => {
            assert forall|i: int| 0 <= i < 7 implies (#[trigger] children[i]).is_complete(
                (depth - 1) as nat,
            ) by {
                lemma_uniform_is_complete(*children[i], (depth - 1) as nat, value);
            }
        },
    }
}

/// In a tree with one value in every node, every path of child digits that
/// is as long as the tree is deep leads to that value.
pub proof fn lemma_uniform_lookup<T: Copy>(node: TreeNode<T>, depth: nat, value: T, path: Seq<u8>)
    requires
        node.is_uniform(depth, value),
        path.len() == depth,
        is_path(path),
    ensures
        node.lookup(path) == Some(value),
    decreases depth,
{
    match node {
        TreeNode::Leaf(_) => {},
        TreeNode::Node(_, children) => {
            lemma_path_by_steps(path);
            lemma_uniform_lookup(
                *children[path[0] as int],
                (depth - 1) as nat,
                value,
                path.skip(1),
            );
        },
    }
}

/// Writing one leaf keeps a complete tree complete.
pub proof fn lemma_update_is_complete<T: Copy>(
    after: TreeNode<T>,
    before: TreeNode<T>,
    path: Seq<u8>,
    value: T,
)
    requires
        after.is_update_of(before, path, value),
        before.is_complete(path.len()),
    ensures
        after.is_complete(path.len()),
    decreases path.len(),
{
    match (before, after) {
        (TreeNode::Node(_, old_children), TreeNode::Node(_, new_children)) => {
            assert forall|i: int| 0 <= i < 7 implies (#[trigger] new_children[i]).is_complete(
                (path.len() - 1) as nat,
            ) by {
                assert(old_children[i].is_complete((path.len() - 1) as nat));
                if i == path[0] {
                    assert(new_children[i].is_update_of(*old_children[i], path.skip(1), value));
                    lemma_update_is_complete(
                        *new_children[i],
                        *old_children[i],
                        path.skip(1),
                        value,
                    );
                }
            }
        },
        _ => {},
    }
}

/// After one leaf was written, its path leads to the new value and every
/// other path leads where it led before.
pub proof fn lemma_update_lookup<T: Copy>(
    after: TreeNode<T>,
    before: TreeNode<T>,
    path: Seq<u8>,
    value: T,
    other: Seq<u8>,
)
    requires
        after.is_update_of(before, path, value),
    ensures
        after.lookup(other) == if other == path {
            Some(value)
        } else {
            before.lookup(other)
        },
    decreases path.len(),
{
    match (before, after) {
        (TreeNode::Leaf(_), TreeNode::Leaf(_)) => {
            if other.len() == 0 {
                assert(other =~= path);
            }
        },
        (TreeNode::Node(_, old_children), TreeNode::Node(_, new_children)) => {
            if other.len() > 0 && other[0] < 7 {
                if other[0] == path[0] {
                    let i = path[0] as int;
                    assert(new_children[i].is_update_of(*old_children[i], path.skip(1), value));
                    lemma_update_lookup(
                        *new_children[i],
                        *old_children[i],
                        path.skip(1),
                        value,
                        other.skip(1),
                    );
                    if other.skip(1) == path.skip(1) {
                        assert(other =~= path) by {
                            assert(other.len() == other.skip(1).len() + 1);
                            assert(path.len() == path.skip(1).len() + 1);
                            assert forall|k: int| 0 <= k < other.len() implies other[k]
                                == path[k] by {
                                if k > 0 {
                                    assert(other[k] == other.skip(1)[k - 1]);
                                    assert(path[k] == path.skip(1)[k - 1]);
                                }
                            }
                        }
                    }
                } else {
                    let i = other[0] as int;
                    assert(new_children[i] == old_children[i]);
                }
            }
        },
        _ => {},
    }
}

} // verus!
