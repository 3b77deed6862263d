//! The tree itself: nodes, the in-order model, the ordering invariant and the
//! operations that keep it.
use vstd::prelude::*;

use crate::laws::{lemma_ordered_sorted, sorted};
use crate::render::{decimal, joined, lemma_spaced_concat, lemma_spaced_single, lemma_spaced_is_joined, pop_char, push_char, push_decimal, spaced};

verus! {

broadcast use
    vstd::seq_lib::group_to_multiset_ensures,
    vstd::seq_lib::lemma_multiset_commutative,
    vstd::seq_lib::group_seq_properties,
;

/// One node: a key and two exclusively owned, optional subtrees.
pub struct Node {
    pub value: i32,
    pub left: Option<Box<Node>>,
    pub right: Option<Box<Node>>,
}

/// The keys of a subtree, visited left, node, right.
pub open spec fn in_order(t: Option<Box<Node>>) -> Seq<i32>
    decreases t,
{
    match t {
        None => Seq::empty(),
        Some(n) => in_order(n.left) + seq![n.value] + in_order(n.right),
    }
}

/// Every key of `s` is strictly below `v`.
pub open spec fn all_below(s: Seq<i32>, v: i32) -> bool {
    forall|x: i32| #[trigger] s.contains(x) ==> x < v
}

/// Every key of `s` is at least `v`.
pub open spec fn all_at_least(s: Seq<i32>, v: i32) -> bool {
    forall|x: i32| #[trigger] s.contains(x) ==> v <= x
}

/// `m` is a key of `s` and no key of `s` is smaller.
pub open spec fn is_min(s: Seq<i32>, m: i32) -> bool {
    s.contains(m) && all_at_least(s, m)
}

/// The search-tree ordering: at every node, the left subtree holds only
/// smaller keys and the right subtree only keys at least as large.
pub open spec fn ordered(t: Option<Box<Node>>) -> bool
    decreases t,
{
    match t {
        None => true,
        Some(n) => {
            &&& all_below(in_order(n.left), n.value)
            &&& all_at_least(in_order(n.right), n.value)
            &&& ordered(n.left)
            &&& ordered(n.right)
        },
    }
}

/// A sequence whose keys are those of `s` and one more `a` holds no key
/// outside `s` but `a`.
proof fn lemma_insert_keeps_bound(s: Seq<i32>, t: Seq<i32>, a: i32)
    requires
        t.to_multiset() == s.to_multiset().insert(a),
    ensures
        forall|x: i32| #[trigger] t.contains(x) ==> s.contains(x) || x == a,
{
    assert forall|x: i32| #[trigger] t.contains(x) implies s.contains(x) || x == a by {
        assert(t.to_multiset().count(x) > 0);
    }
}

/// A sequence whose keys are those of `s` less one `a` holds no key outside
/// `s`.
proof fn lemma_remove_keeps_bound(s: Seq<i32>, t: Seq<i32>, a: i32)
    requires
        t.to_multiset() == s.to_multiset().remove(a),
    ensures
        forall|x: i32| #[trigger] t.contains(x) ==> s.contains(x),
{
    assert forall|x: i32| #[trigger] t.contains(x) implies s.contains(x) by {
        assert(t.to_multiset().count(x) > 0);
    }
}

/// Every key of `s` lies in `[lo, hi)`.
pub open spec fn in_range(s: Seq<i32>, lo: int, hi: int) -> bool {
    forall|x: i32| #[trigger] s.contains(x) ==> lo <= x < hi
}

/// Whether the subtree `t` is ordered and holds only keys in `[lo, hi)`.
fn ordered_in_range(t: &Option<Box<Node>>, lo: i64, hi: i64) -> (r: bool)
    ensures
        r == (ordered(*t) && in_range(in_order(*t), lo as int, hi as int)),
    decreases *t,
{
    match t {
        None => true,
        Some(n) => {
            let v: i32 = n.value;
            let inside = lo <= v as i64 && (v as i64) < hi;
            let left_ok = ordered_in_range(&n.left, lo, v as i64);
            let right_ok = ordered_in_range(&n.right, v as i64, hi);
            proof {
                let l = in_order(n.left);
                let rt = in_order(n.right);
                assert(in_order(*t) == l + seq![v] + rt);
                assert(in_order(*t).contains(v));
                if !left_ok && ordered(n.left) {
                    let x = choose|x: i32| l.contains(x) && !(lo <= x < v);
                    assert(in_order(*t).contains(x));
                }
                if !right_ok && ordered(n.right) {
                    let x = choose|x: i32| rt.contains(x) && !(v <= x < hi);
                    assert(in_order(*t).contains(x));
                }
                if inside && left_ok && right_ok {
                    assert forall|x: i32| #[trigger] in_order(*t).contains(x) implies lo <= x < hi by {
                        if l.contains(x) {
                        } else if rt.contains(x) {
                        } else {
                            assert(x == v);
                        }
                    }
                }
            }
            inside && left_ok && right_ok
        },
    }
}

/// The smallest key of a non-empty ordered subtree: the key of its leftmost
/// node.
fn min_of(node: &Box<Node>) -> (m: i32)
    requires
        ordered(Some(*node)),
    ensures
        is_min(in_order(Some(*node)), m),
    decreases node,
{
    match &node.left {
        None => node.value,
        Some(l) => min_of(l),
    }
}

impl Node {
    /// A node with no children.
    pub fn new(value: i32) -> (n: Node)
        ensures
            n.value == value,
            n.left.is_none(),
            n.right.is_none(),
    {
        Node { value, left: None, right: None }
    }
}

/// A binary search tree, with an optional count of insertions.
pub struct BST {
    root: Option<Box<Node>>,
    len: Option<i32>,
}

impl View for BST {
    type V = Seq<i32>;

    /// The keys in ascending order, one entry per node.
    closed spec fn view(&self) -> Seq<i32> {
        in_order(self.root)
    }
}

impl BST {
    /// The tree keeps the search-tree ordering.
    pub closed spec fn wf(&self) -> bool {
        ordered(self.root)
    }

    /// The insertion count, where one is kept.
    pub closed spec fn count(&self) -> Option<i32> {
        self.len
    }

    /// An empty tree with a count of zero.
    pub fn new() -> (t: BST)
        ensures
            t.wf(),
            t@ == Seq::<i32>::empty(),
            t.count() == Some(0i32),
    {
        BST { root: None, len: Some(0) }
    }

    /// A tree of the given shape, with the given count (or none).
    pub fn from_root(root: Option<Box<Node>>, len: Option<i32>) -> (t: BST)
        requires
            ordered(root),
        ensures
            t.wf(),
            t@ == in_order(root),
            t.count() == len,
    {
        BST { root, len }
    }

    /// A well-formed tree, which every insertion and removal keeps
    /// well-formed, lists its keys in non-decreasing order.
    pub proof fn law_in_order_sorted(&self)
        requires
            self.wf(),
        ensures
            sorted(self@),
    {
        lemma_ordered_sorted(self.root);
    }

    /// Whether a shape keeps the search-tree ordering, as
    /// [`BST::from_root`] needs.
    pub fn is_search_tree(root: &Option<Box<Node>>) -> (r: bool)
        ensures
            r == ordered(*root),
    {
        ordered_in_range(root, i32::MIN as i64, i32::MAX as i64 + 1)
    }

    /// The insertion count, where one is kept.
    pub fn len(&self) -> (r: Option<i32>)
        ensures
            r == self.count(),
    {
        self.len
    }

    /// Appends to `sb` each key of the subtree `root` in order, each followed
    /// by one space.
    pub fn in_order_traversal(&self, sb: &mut String, root: &Option<Box<Node>>)
        ensures
            final(sb)@ == old(sb)@ + spaced(in_order(*root)),
        decreases *root,
    {
        if let Some(node) = root {
            self.in_order_traversal(sb, &node.left);
            let ghost s1 = sb@;
            push_decimal(sb, node.value);
            push_char(sb, ' ');
            let ghost s2 = sb@;
            self.in_order_traversal(sb, &node.right);
            proof {
                let l = in_order(node.left);
                let r = in_order(node.right);
                lemma_spaced_concat(l, seq![node.value]);
                lemma_spaced_concat(l + seq![node.value], r);
                lemma_spaced_single(node.value);
                assert(in_order(*root) == l + seq![node.value] + r);
                assert(spaced(in_order(*root)) == spaced(l) + (decimal(node.value as int) + seq![' '])
                    + spaced(r));
                assert(s1 == old(sb)@ + spaced(l));
                assert(s2 =~= s1 + (decimal(node.value as int) + seq![' ']));
                assert(sb@ == s2 + spaced(r));
                assert(sb@ =~= old(sb)@ + spaced(in_order(*root)));
            }
        } else {
            assert(sb@ =~= old(sb)@ + spaced(in_order(*root)));
        }
    }

    /// The keys in ascending order as decimal text, separated by single
    /// spaces; the empty tree gives the empty string.
    pub fn to_string(&self) -> (s: String)
        ensures
            s@ == joined(self@),
    {
        let mut sb = String::new();
        self.in_order_traversal(&mut sb, &self.root);
        let _ = pop_char(&mut sb);
        proof {
            if self@.len() > 0 {
                lemma_spaced_is_joined(self@);
                assert(sb@ =~= joined(self@));
            } else {
                assert(sb@ =~= joined(self@));
            }
        }
        sb
    }

    /// Inserts `value` (equal keys go to the right) and counts the insertion
    /// where a count is kept.
    pub fn add(&mut self, value: i32)
        requires
            old(self).wf(),
            old(self).count() != Some(i32::MAX),
        ensures
            final(self).wf(),
            final(self)@.to_multiset() == old(self)@.to_multiset().insert(value),
            final(self).count() == match old(self).count() {
                Some(n) => Some((n + 1) as i32),
                None => None::<i32>,
            },
    {
        let root = self.root.take();
        self.root = self.add_by_node(root, value);
        if let Some(n) = self.len {
            self.len = Some(n + 1);
        }
    }

    /// Looks `value` up: the node that holds it and `true`, or `None` and
    /// `false`.
    pub fn search(&self, value: i32) -> (r: (Option<&Node>, bool))
        requires
            self.wf(),
        ensures
            r.1 == self@.contains(value),
            r.0.is_some() == r.1,
            r.0 matches Some(n) ==> n.value == value,
    {
        self.search_by_node(&self.root, value)
    }

    /// Looks `value` up in the subtree `root`, going left on smaller keys and
    /// right on larger ones.
    pub fn search_by_node<'a>(&self, root: &'a Option<Box<Node>>, value: i32) -> (r: (
        Option<&'a Node>,
        bool,
    ))
        requires
            ordered(*root),
        ensures
            r.1 == in_order(*root).contains(value),
            r.0.is_some() == r.1,
            r.0 matches Some(n) ==> n.value == value,
        decreases *root,
    {
        match root {
            Some(node) => {
                if value == node.value {
                    (Some(&**node), true)
                } else if value < node.value {
                    self.search_by_node(&node.left, value)
                } else {
                    self.search_by_node(&node.right, value)
                }
            },
            None => (None, false),
        }
    }

    /// Removes one occurrence of `value`; a key that is not there leaves the
    /// tree as it was. The count is left as it is.
    pub fn remove(&mut self, value: i32)
        requires
            old(self).wf(),
        ensures
            final(self).wf(),
            old(self)@.contains(value) ==> final(self)@.to_multiset() == old(
                self,
            )@.to_multiset().remove(value),
            !old(self)@.contains(value) ==> final(self)@ == old(self)@,
            final(self).count() == old(self).count(),
    {
        let root = self.root.take();
        self.root = self.remove_by_node(root, value);
    }
}

impl BST {
    /// Inserts `value` into the subtree `root` and hands back the new subtree:
    /// smaller keys go left, equal and larger keys go right.
    pub fn add_by_node(&self, root: Option<Box<Node>>, value: i32) -> (r: Option<Box<Node>>)
        requires
            ordered(root),
        ensures
            ordered(r),
            r.is_some(),
            in_order(r).to_multiset() == in_order(root).to_multiset().insert(value),
        decreases root,
    {
        match root {
            Some(node) => {
                let mut node = node;
                if value < node.value {
                    let ghost before = in_order(node.left);
                    let old_left = node.left.take();
                    let new_left = self.add_by_node(old_left, value);
                    node.left = new_left;
                    proof {
                        lemma_insert_keeps_bound(before, in_order(node.left), value);
                    }
                } else {
                    let ghost before = in_order(node.right);
                    let old_right = node.right.take();
                    node.right = self.add_by_node(old_right, value);
                    proof {
                        lemma_insert_keeps_bound(before, in_order(node.right), value);
                    }
                }
                Some(node)
            },
            None => Some(Box::new(Node { value, left: None, right: None })),
        }
    }
}

impl BST {
    /// Removes one occurrence of `value` from the subtree `root` and hands back
    /// the new subtree. A node with two children takes the smallest key of its
    /// right subtree, which is then removed from there instead.
    pub fn remove_by_node(&self, root: Option<Box<Node>>, value: i32) -> (r: Option<Box<Node>>)
        requires
            ordered(root),
        ensures
            ordered(r),
            in_order(root).contains(value) ==> in_order(r).to_multiset() == in_order(
                root,
            ).to_multiset().remove(value),
            !in_order(root).contains(value) ==> in_order(r) == in_order(root),
            match root {
                Some(n) => n.value == value && n.left.is_some() && n.right.is_some() ==> {
                    &&& r.is_some()
                    &&& is_min(in_order(n.right), r.unwrap().value)
                },
                None => true,
            },
        decreases root,
    {
        match root {
            None => None,
            Some(node) => {
                let mut node = node;
                if value < node.value {
                    let ghost before = in_order(node.left);
                    let old_left = node.left.take();
                    node.left = self.remove_by_node(old_left, value);
                    proof {
                        if before.contains(value) {
                            lemma_remove_keeps_bound(before, in_order(node.left), value);
                        }
                    }
                    Some(node)
                } else if value > node.value {
                    let ghost before = in_order(node.right);
                    let old_right = node.right.take();
                    node.right = self.remove_by_node(old_right, value);
                    proof {
                        if before.contains(value) {
                            lemma_remove_keeps_bound(before, in_order(node.right), value);
                        }
                    }
                    Some(node)
                } else {
                    let Node { value: v, left, right } = *node;
                    match (left, right) {
                        (None, right) => right,
                        (left, None) => left,
                        (Some(l), Some(rt)) => {
                            let m = min_of(&rt);
                            let ghost before = in_order(Some(rt));
                            let new_right = self.remove_by_node(Some(rt), m);
                            proof {
                                lemma_remove_keeps_bound(before, in_order(new_right), m);
                            }
                            Some(Box::new(Node { value: m, left: Some(l), right: new_right }))
                        },
                    }
                }
            },
        }
    }
}

} // verus!
