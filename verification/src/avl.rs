//! A height-balanced (AVL) binary search tree of price keys.
//!
//! Each side of the order book keeps its price levels in one of these trees.
//! Insertions and removals rebalance the tree with single and double rotations
//! and report how many rebalancing steps they performed.
use vstd::prelude::*;
use vstd::arithmetic::power2::{pow2, lemma_pow2_unfold, lemma_pow2_strictly_increases};

verus! {

/// One node of the tree: a price key, the cached height of the subtree rooted
/// here, and the two children.
pub struct Node {
    pub key: i128,
    pub height: i32,
    pub left: Option<Box<Node>>,
    pub right: Option<Box<Node>>,
}

/// The keys stored in a subtree.
pub open spec fn keys(l: Option<Box<Node>>) -> Set<i128>
    decreases l,
{
    match l {
        None => Set::empty(),
        Some(n) => keys(n.left).union(keys(n.right)).insert(n.key),
    }
}

/// The real height of a subtree (an empty subtree has height 0).
pub open spec fn ht(l: Option<Box<Node>>) -> nat
    decreases l,
{
    match l {
        None => 0,
        Some(n) => 1 + vstd::math::max(ht(n.left) as int, ht(n.right) as int) as nat,
    }
}

/// The number of nodes of a subtree.
pub open spec fn size(l: Option<Box<Node>>) -> nat
    decreases l,
{
    match l {
        None => 0,
        Some(n) => 1 + size(n.left) + size(n.right),
    }
}

/// The keys of a subtree in ascending order.
pub open spec fn asc(l: Option<Box<Node>>) -> Seq<i128>
    decreases l,
{
    match l {
        None => Seq::empty(),
        Some(n) => asc(n.left) + seq![n.key] + asc(n.right),
    }
}

/// The keys of a subtree in descending order.
pub open spec fn desc(l: Option<Box<Node>>) -> Seq<i128>
    decreases l,
{
    match l {
        None => Seq::empty(),
        Some(n) => desc(n.right) + seq![n.key] + desc(n.left),
    }
}

/// Every key of `l` is below `k`.
pub open spec fn all_below(l: Option<Box<Node>>, k: i128) -> bool {
    forall|x: i128| #[trigger] keys(l).contains(x) ==> x < k
}

/// Every key of `l` is above `k`.
pub open spec fn all_above(l: Option<Box<Node>>, k: i128) -> bool {
    forall|x: i128| #[trigger] keys(l).contains(x) ==> k < x
}

/// A well-formed subtree: ordered keys, correct cached heights and children
/// whose heights differ by at most one at every node.
pub open spec fn wf(l: Option<Box<Node>>) -> bool
    decreases l,
{
    match l {
        None => true,
        Some(n) => {
            &&& wf(n.left)
            &&& wf(n.right)
            &&& n.height as int == ht(l)
            &&& -1 <= ht(n.left) - ht(n.right) <= 1
            &&& all_below(n.left, n.key)
            &&& all_above(n.right, n.key)
        },
    }
}

/// The subtree hanging left of the largest key (empty for an empty tree).
pub open spec fn left_of_max(l: Option<Box<Node>>) -> Option<Box<Node>>
    decreases l,
{
    match l {
        None => None,
        Some(n) => if n.right is None {
            n.left
        } else {
            left_of_max(n.right)
        },
    }
}

/// The subtree hanging right of the smallest key (empty for an empty tree).
pub open spec fn right_of_min(l: Option<Box<Node>>) -> Option<Box<Node>>
    decreases l,
{
    match l {
        None => None,
        Some(n) => if n.left is None {
            n.right
        } else {
            right_of_min(n.left)
        },
    }
}

/// Heights never exceed the number of nodes.
pub proof fn lemma_ht_le_size(l: Option<Box<Node>>)
    ensures
        ht(l) <= size(l),
    decreases l,
{
    if let Some(n) = l {
        lemma_ht_le_size(n.left);
        lemma_ht_le_size(n.right);
    }
}

/// The ascending and descending listings hold exactly the keys, in order,
/// and without repetition.
pub proof fn lemma_listing(l: Option<Box<Node>>)
    requires
        wf(l),
    ensures
        asc(l).len() == size(l),
        desc(l).len() == size(l),
        asc(l).to_set() == keys(l),
        desc(l).to_set() == keys(l),
        forall|i: int, j: int| 0 <= i < j < asc(l).len() ==> asc(l)[i] < asc(l)[j],
        forall|i: int, j: int| 0 <= i < j < desc(l).len() ==> desc(l)[i] > desc(l)[j],
        keys(l).finite(),
        keys(l).len() == size(l),
    decreases l,
{
    if let Some(n) = l {
        lemma_listing(n.left);
        lemma_listing(n.right);
        let a = asc(n.left);
        let b = asc(n.right);
        let s = a + seq![n.key] + b;
        assert(asc(l) == s);
        assert forall|x: i128| s.to_set().contains(x) <==> keys(l).contains(x) by {
            if s.to_set().contains(x) {
                let i = choose|i: int| 0 <= i < s.len() && s[i] == x;
                if i < a.len() {
                    assert(a.to_set().contains(a[i]));
                } else if i > a.len() {
                    assert(b.to_set().contains(b[i - a.len() - 1]));
                }
            }
            if keys(l).contains(x) {
                if keys(n.left).contains(x) {
                    let i = choose|i: int| 0 <= i < a.len() && a[i] == x;
                    assert(s[i] == x);
                } else if keys(n.right).contains(x) {
                    let i = choose|i: int| 0 <= i < b.len() && b[i] == x;
                    assert(s[i + a.len() + 1] == x);
                } else {
                    assert(s[a.len() as int] == x);
                }
            }
        }
        assert(s.to_set() =~= keys(l));
        assert forall|i: int, j: int| 0 <= i < j < s.len() implies s[i] < s[j] by {
            if j < a.len() {
            } else if j == a.len() {
                assert(a.to_set().contains(a[i]));
            } else if i < a.len() {
                assert(a.to_set().contains(a[i]));
                assert(b.to_set().contains(b[j - a.len() - 1]));
            } else if i == a.len() {
                assert(b.to_set().contains(b[j - a.len() - 1]));
            }
        }
        let c = desc(n.left);
        let d = desc(n.right);
        let t = d + seq![n.key] + c;
        assert(desc(l) == t);
        assert forall|x: i128| t.to_set().contains(x) <==> keys(l).contains(x) by {
            if t.to_set().contains(x) {
                let i = choose|i: int| 0 <= i < t.len() && t[i] == x;
                if i < d.len() {
                    assert(d.to_set().contains(d[i]));
                } else if i > d.len() {
                    assert(c.to_set().contains(c[i - d.len() - 1]));
                }
            }
            if keys(l).contains(x) {
                if keys(n.right).contains(x) {
                    let i = choose|i: int| 0 <= i < d.len() && d[i] == x;
                    assert(t[i] == x);
                } else if keys(n.left).contains(x) {
                    let i = choose|i: int| 0 <= i < c.len() && c[i] == x;
                    assert(t[i + d.len() + 1] == x);
                } else {
                    assert(t[d.len() as int] == x);
                }
            }
        }
        assert(t.to_set() =~= keys(l));
        assert forall|i: int, j: int| 0 <= i < j < t.len() implies t[i] > t[j] by {
            if j < d.len() {
            } else if j == d.len() {
                assert(d.to_set().contains(d[i]));
            } else if i < d.len() {
                assert(d.to_set().contains(d[i]));
                assert(c.to_set().contains(c[j - d.len() - 1]));
            } else if i == d.len() {
                assert(c.to_set().contains(c[j - d.len() - 1]));
            }
        }
        assert(!keys(n.left).contains(n.key));
        assert(!keys(n.right).contains(n.key));
        assert(keys(n.left).disjoint(keys(n.right))) by {
            assert forall|x: i128| keys(n.left).contains(x) implies !keys(n.right).contains(x) by {
            }
        }
        vstd::set_lib::lemma_set_disjoint_lens(keys(n.left), keys(n.right));
    } else {
        assert(asc(l).to_set() =~= Set::<i128>::empty());
        assert(desc(l).to_set() =~= Set::<i128>::empty());
    }
}

/// The cached height of a subtree.
pub fn height(l: &Option<Box<Node>>) -> (h: i32)
    requires
        wf(*l),
    ensures
        h as int == ht(*l),
{
    match l {
        None => 0,
        Some(n) => n.height,
    }
}

/// The height cached at the root of a subtree, without any well-formedness
/// assumption.
pub open spec fn cached(l: Option<Box<Node>>) -> int {
    match l {
        None => 0,
        Some(n) => n.height as int,
    }
}

/// The keys of a node are its own key and those of its children.
pub proof fn lemma_keys_node(n: Box<Node>)
    ensures
        keys(Some(n)) == keys(n.left).union(keys(n.right)).insert(n.key),
        size(Some(n)) == 1 + size(n.left) + size(n.right),
{
}

/// In a well-formed subtree the cached height is the real height.
pub proof fn lemma_cached(l: Option<Box<Node>>)
    requires
        wf(l),
    ensures
        cached(l) == ht(l),
{
}

/// The height cached at the root of a subtree.
fn cached_height(l: &Option<Box<Node>>) -> (h: i32)
    ensures
        h as int == cached(*l),
{
    match l {
        None => 0,
        Some(n) => n.height,
    }
}

fn max_i32(a: i32, b: i32) -> (m: i32)
    ensures
        m as int == vstd::math::max(a as int, b as int),
{
    if a >= b {
        a
    } else {
        b
    }
}

/// `n` with a new left child.
pub open spec fn with_left(n: Box<Node>, l: Option<Box<Node>>) -> Box<Node> {
    Box::new(Node { key: n.key, height: n.height, left: l, right: n.right })
}

/// `n` with a new right child.
pub open spec fn with_right(n: Box<Node>, r: Option<Box<Node>>) -> Box<Node> {
    Box::new(Node { key: n.key, height: n.height, left: n.left, right: r })
}

/// `n` with its height recomputed from the heights of its children.
pub open spec fn with_height(n: Box<Node>) -> Box<Node> {
    Box::new(
        Node {
            key: n.key,
            height: (1 + vstd::math::max(ht(n.left) as int, ht(n.right) as int)) as i32,
            left: n.left,
            right: n.right,
        },
    )
}

/// A right rotation at `n`: its left child becomes the root and `n` that
/// child's right child, both with heights recomputed from the cached ones.
pub open spec fn rot_right(n: Box<Node>) -> Box<Node> {
    let l = n.left.unwrap();
    let r = Box::new(
        Node {
            key: n.key,
            height: (1 + vstd::math::max(cached(l.right), cached(n.right))) as i32,
            left: l.right,
            right: n.right,
        },
    );
    Box::new(
        Node {
            key: l.key,
            height: (1 + vstd::math::max(cached(l.left), r.height as int)) as i32,
            left: l.left,
            right: Some(r),
        },
    )
}

/// A left rotation at `n`: its right child becomes the root and `n` that
/// child's left child, both with heights recomputed from the cached ones.
pub open spec fn rot_left(n: Box<Node>) -> Box<Node> {
    let r = n.right.unwrap();
    let l = Box::new(
        Node {
            key: n.key,
            height: (1 + vstd::math::max(cached(n.left), cached(r.left))) as i32,
            left: n.left,
            right: r.left,
        },
    );
    Box::new(
        Node {
            key: r.key,
            height: (1 + vstd::math::max(l.height as int, cached(r.right))) as i32,
            left: Some(l),
            right: r.right,
        },
    )
}

/// Rebalancing a node whose children differ in height by at most two: a
/// single or double rotation toward the lower side (counted as one step)
/// when they differ by two, else only the height is recomputed. A left
/// child leaning left, or balanced, gets a single right rotation; one
/// leaning right a double rotation; symmetrically on the right, where a
/// balanced child gets a single left rotation.
pub open spec fn rebalanced_node(n: Box<Node>) -> (Box<Node>, nat) {
    if ht(n.left) - ht(n.right) >= 2 {
        let l = n.left.unwrap();
        if ht(l.left) >= ht(l.right) {
            (rot_right(n), 1)
        } else {
            (rot_right(with_left(n, Some(rot_left(l)))), 1)
        }
    } else if ht(n.right) - ht(n.left) >= 2 {
        let r = n.right.unwrap();
        if ht(r.left) > ht(r.right) {
            (rot_left(with_right(n, Some(rot_right(r)))), 1)
        } else {
            (rot_left(n), 1)
        }
    } else {
        (with_height(n), 0)
    }
}

/// AVL insertion of `key` into `link`: down to the empty spot, a new leaf
/// there, and each node on the way back up rebalanced. Returns the new
/// subtree and the number of rebalancing steps; a key already present
/// leaves the subtree as it is.
pub open spec fn avl_insert(link: Option<Box<Node>>, key: i128) -> (Box<Node>, nat)
    decreases link,
{
    match link {
        None => (Box::new(Node { key, height: 1, left: None, right: None }), 0),
        Some(n) => if key < n.key {
            let (c, r) = avl_insert(n.left, key);
            let (m, r2) = rebalanced_node(with_left(n, Some(c)));
            (m, r + r2)
        } else if key > n.key {
            let (c, r) = avl_insert(n.right, key);
            let (m, r2) = rebalanced_node(with_right(n, Some(c)));
            (m, r + r2)
        } else {
            (n, 0)
        },
    }
}

/// Taking out the smallest key of a non-empty subtree: the leftmost node
/// gives way to its right child and each node on the way back up is
/// rebalanced. Returns the key, the new subtree and the number of
/// rebalancing steps.
pub open spec fn avl_remove_min(n: Box<Node>) -> (i128, Option<Box<Node>>, nat)
    decreases n,
{
    match n.left {
        None => (n.key, n.right, 0),
        Some(l) => {
            let (k, l2, r) = avl_remove_min(l);
            let (m, r2) = rebalanced_node(with_left(n, l2));
            (k, Some(m), r + r2)
        },
    }
}

/// AVL deletion of `key` from `link`: a node with at most one child gives
/// way to that child; one with two children takes the key of its in-order
/// successor, which leaves the right subtree; each node on the way back up
/// is rebalanced. Returns the new subtree and the number of rebalancing
/// steps; an absent key leaves the subtree as it is.
pub open spec fn avl_delete(link: Option<Box<Node>>, key: i128) -> (Option<Box<Node>>, nat)
    decreases link,
{
    match link {
        None => (None, 0),
        Some(n) => if key < n.key {
            let (c, r) = avl_delete(n.left, key);
            let (m, r2) = rebalanced_node(with_left(n, c));
            (Some(m), r + r2)
        } else if key > n.key {
            let (c, r) = avl_delete(n.right, key);
            let (m, r2) = rebalanced_node(with_right(n, c));
            (Some(m), r + r2)
        } else if n.left is None {
            (n.right, 0)
        } else if n.right is None {
            (n.left, 0)
        } else {
            let (succ, r2, rot) = avl_remove_min(n.right.unwrap());
            let (m, r3) = rebalanced_node(
                Box::new(Node { key: succ, height: n.height, left: n.left, right: r2 }),
            );
            (Some(m), rot + r3)
        },
    }
}

/// Rotates the subtree rooted at `node` to the right: its left child becomes
/// the new root and `node` becomes that child's right child.
fn rotate_right(node: Box<Node>) -> (res: Box<Node>)
    requires
        node.left is Some,
        0 <= cached(node.left.unwrap().left) < i32::MAX,
        0 <= cached(node.left.unwrap().right) < i32::MAX - 1,
        0 <= cached(node.right) < i32::MAX - 1,
    ensures
        res.key == node.left.unwrap().key,
        res.left == node.left.unwrap().left,
        res.right is Some,
        res.right.unwrap().key == node.key,
        res.right.unwrap().left == node.left.unwrap().right,
        res.right.unwrap().right == node.right,
        res.right.unwrap().height as int == 1 + vstd::math::max(
            cached(node.left.unwrap().right),
            cached(node.right),
        ),
        res.height as int == 1 + vstd::math::max(
            cached(node.left.unwrap().left),
            cached(res.right),
        ),
        res == rot_right(node),
{
    let mut node = node;
    let mut l = node.left.take().unwrap();
    node.left = l.right.take();
    node.height = 1 + max_i32(cached_height(&node.left), cached_height(&node.right));
    l.right = Some(node);
    l.height = 1 + max_i32(cached_height(&l.left), cached_height(&l.right));
    l
}

/// Rotates the subtree rooted at `node` to the left: its right child becomes
/// the new root and `node` becomes that child's left child.
fn rotate_left(node: Box<Node>) -> (res: Box<Node>)
    requires
        node.right is Some,
        0 <= cached(node.right.unwrap().right) < i32::MAX,
        0 <= cached(node.right.unwrap().left) < i32::MAX - 1,
        0 <= cached(node.left) < i32::MAX - 1,
    ensures
        res.key == node.right.unwrap().key,
        res.right == node.right.unwrap().right,
        res.left is Some,
        res.left.unwrap().key == node.key,
        res.left.unwrap().right == node.right.unwrap().left,
        res.left.unwrap().left == node.left,
        res.left.unwrap().height as int == 1 + vstd::math::max(
            cached(node.left),
            cached(node.right.unwrap().left),
        ),
        res.height as int == 1 + vstd::math::max(
            cached(res.left),
            cached(node.right.unwrap().right),
        ),
        res == rot_left(node),
{
    let mut node = node;
    let mut r = node.right.take().unwrap();
    node.right = r.left.take();
    node.height = 1 + max_i32(cached_height(&node.left), cached_height(&node.right));
    r.left = Some(node);
    r.height = 1 + max_i32(cached_height(&r.left), cached_height(&r.right));
    r
}

/// Preconditions of rebalancing: both children are well-formed, ordered
/// around the key, and their heights differ by at most two.
pub open spec fn rebalance_ready(n: Box<Node>) -> bool {
    &&& wf(n.left)
    &&& wf(n.right)
    &&& all_below(n.left, n.key)
    &&& all_above(n.right, n.key)
    &&& -2 <= ht(n.left) - ht(n.right) <= 2
    &&& size(Some(n)) < i32::MAX
}

/// What a rebalancing step guarantees of its result `r` for the input `n`.
pub open spec fn rebalanced(n: Box<Node>, r: Box<Node>) -> bool {
    &&& wf(Some(r))
    &&& keys(Some(r)) == keys(Some(n))
    &&& size(Some(r)) == size(Some(n))
    &&& vstd::math::max(ht(n.left) as int, ht(n.right) as int) <= ht(Some(r))
    &&& ht(Some(r)) <= 1 + vstd::math::max(ht(n.left) as int, ht(n.right) as int)
}

proof fn lemma_bounds(node: Box<Node>)
    requires
        rebalance_ready(node),
    ensures
        ht(node.left) <= size(node.left) < i32::MAX,
        ht(node.right) <= size(node.right) < i32::MAX,
        cached(node.left) == ht(node.left),
        cached(node.right) == ht(node.right),
        keys(Some(node)) == keys(node.left).union(keys(node.right)).insert(node.key),
        size(Some(node)) == 1 + size(node.left) + size(node.right),
{
    lemma_ht_le_size(node.left);
    lemma_ht_le_size(node.right);
    lemma_cached(node.left);
    lemma_cached(node.right);
}

proof fn lemma_child_bounds(n: Box<Node>, bound: int)
    requires
        wf(Some(n)),
        size(Some(n)) <= bound,
    ensures
        ht(n.left) <= size(n.left) < bound,
        ht(n.right) <= size(n.right) < bound,
        cached(n.left) == ht(n.left),
        cached(n.right) == ht(n.right),
        keys(Some(n)) == keys(n.left).union(keys(n.right)).insert(n.key),
        size(Some(n)) == 1 + size(n.left) + size(n.right),
        wf(n.left),
        wf(n.right),
        all_below(n.left, n.key),
        all_above(n.right, n.key),
        n.height as int == ht(Some(n)),
        -1 <= ht(n.left) - ht(n.right) <= 1,
{
    lemma_ht_le_size(n.left);
    lemma_ht_le_size(n.right);
    lemma_cached(n.left);
    lemma_cached(n.right);
}

/// Single right rotation for a left-heavy node whose left child is not
/// right-heavy.
#[verifier::spinoff_prover]
fn fix_left_left(node: Box<Node>) -> (res: Box<Node>)
    requires
        rebalance_ready(node),
        ht(node.left) - ht(node.right) == 2,
        node.left is Some,
        ht(node.left.unwrap().left) >= ht(node.left.unwrap().right),
    ensures
        rebalanced(node, res),
        ht(node.left.unwrap().left) > ht(node.left.unwrap().right) ==> ht(Some(res)) == ht(node.left),
        res == rot_right(node),
{
    let ghost l = node.left.unwrap();
    proof {
        lemma_bounds(node);
        lemma_child_bounds(l, size(Some(node)) as int);
    }
    let res = rotate_right(node);
    proof {
        let nr = res.right.unwrap();
        lemma_keys_node(res);
        lemma_keys_node(nr);
        assert(all_below(nr.left, nr.key)) by {
            assert forall|x: i128| #[trigger] keys(nr.left).contains(x) implies x < nr.key by {
                assert(keys(Some(l)).contains(x));
            }
        }
        assert(wf(res.right));
        assert(keys(Some(l)).contains(res.key));
        assert(all_above(res.right, res.key)) by {
            assert forall|x: i128| #[trigger] keys(res.right).contains(x) implies res.key < x by {
                if keys(nr.left).contains(x) {
                } else if keys(nr.right).contains(x) {
                } else {
                }
            }
        }
        assert(keys(Some(res)) =~= keys(Some(node)));
    }
    res
}

/// Single left rotation for a right-heavy node whose right child is not
/// left-heavy.
#[verifier::spinoff_prover]
fn fix_right_right(node: Box<Node>) -> (res: Box<Node>)
    requires
        rebalance_ready(node),
        ht(node.right) - ht(node.left) == 2,
        node.right is Some,
        ht(node.right.unwrap().right) >= ht(node.right.unwrap().left),
    ensures
        rebalanced(node, res),
        ht(node.right.unwrap().right) > ht(node.right.unwrap().left) ==> ht(Some(res)) == ht(node.right),
        res == rot_left(node),
{
    let ghost r = node.right.unwrap();
    proof {
        lemma_bounds(node);
        lemma_child_bounds(r, size(Some(node)) as int);
    }
    let res = rotate_left(node);
    proof {
        let nl = res.left.unwrap();
        lemma_keys_node(res);
        lemma_keys_node(nl);
        assert(all_above(nl.right, nl.key)) by {
            assert forall|x: i128| #[trigger] keys(nl.right).contains(x) implies nl.key < x by {
                assert(keys(Some(r)).contains(x));
            }
        }
        assert(wf(res.left));
        assert(keys(Some(r)).contains(res.key));
        assert(all_below(res.left, res.key)) by {
            assert forall|x: i128| #[trigger] keys(res.left).contains(x) implies x < res.key by {
                if keys(nl.left).contains(x) {
                } else if keys(nl.right).contains(x) {
                } else {
                }
            }
        }
        assert(keys(Some(res)) =~= keys(Some(node)));
    }
    res
}

/// Double rotation (left child left, then node right) for a left-heavy node
/// whose left child is right-heavy.
#[verifier::spinoff_prover]
fn fix_left_right(node: Box<Node>) -> (res: Box<Node>)
    requires
        rebalance_ready(node),
        ht(node.left) - ht(node.right) == 2,
        node.left is Some,
        ht(node.left.unwrap().left) < ht(node.left.unwrap().right),
    ensures
        rebalanced(node, res),
        ht(Some(res)) == ht(node.left),
        res == rot_right(with_left(node, Some(rot_left(node.left.unwrap())))),
{
    let mut node = node;
    let ghost node0 = node;
    let ghost l = node.left.unwrap();
    proof {
        lemma_bounds(node);
        lemma_child_bounds(l, size(Some(node)) as int);
    }
    let ghost lr = l.right.unwrap();
    proof {
        lemma_child_bounds(lr, size(Some(l)) as int);
    }
    let l = node.left.take().unwrap();
    let l2 = rotate_left(l);
    node.left = Some(l2);
    let res = rotate_right(node);
    proof {
        let a = res.left.unwrap();
        let b = res.right.unwrap();
        lemma_keys_node(res);
        lemma_keys_node(a);
        lemma_keys_node(b);
        assert(keys(Some(l)).contains(lr.key));
        assert(all_below(a.left, a.key)) by {
            assert forall|x: i128| #[trigger] keys(a.left).contains(x) implies x < a.key by {
            }
        }
        assert(all_above(a.right, a.key)) by {
            assert forall|x: i128| #[trigger] keys(a.right).contains(x) implies a.key < x by {
                assert(keys(l.right).contains(x));
            }
        }
        assert(wf(res.left));
        assert(all_below(b.left, b.key)) by {
            assert forall|x: i128| #[trigger] keys(b.left).contains(x) implies x < b.key by {
                assert(keys(l.right).contains(x));
                assert(keys(Some(l)).contains(x));
            }
        }
        assert(wf(res.right));
        assert(all_below(res.left, res.key)) by {
            assert forall|x: i128| #[trigger] keys(res.left).contains(x) implies x < res.key by {
                if keys(a.left).contains(x) {
                } else if keys(a.right).contains(x) {
                } else {
                }
            }
        }
        assert(all_above(res.right, res.key)) by {
            assert forall|x: i128| #[trigger] keys(res.right).contains(x) implies res.key < x by {
                if keys(b.left).contains(x) {
                } else if keys(b.right).contains(x) {
                    assert(keys(Some(node0)).contains(x));
                } else {
                }
            }
        }
        assert(keys(Some(res)) =~= keys(Some(node0)));
    }
    res
}

/// Double rotation (right child right, then node left) for a right-heavy node
/// whose right child is left-heavy.
#[verifier::spinoff_prover]
fn fix_right_left(node: Box<Node>) -> (res: Box<Node>)
    requires
        rebalance_ready(node),
        ht(node.right) - ht(node.left) == 2,
        node.right is Some,
        ht(node.right.unwrap().right) < ht(node.right.unwrap().left),
    ensures
        rebalanced(node, res),
        ht(Some(res)) == ht(node.right),
        res == rot_left(with_right(node, Some(rot_right(node.right.unwrap())))),
{
    let mut node = node;
    let ghost node0 = node;
    let ghost r = node.right.unwrap();
    proof {
        lemma_bounds(node);
        lemma_child_bounds(r, size(Some(node)) as int);
    }
    let ghost rl = r.left.unwrap();
    proof {
        lemma_child_bounds(rl, size(Some(r)) as int);
    }
    let r = node.right.take().unwrap();
    let r2 = rotate_right(r);
    node.right = Some(r2);
    let res = rotate_left(node);
    proof {
        let a = res.left.unwrap();
        let b = res.right.unwrap();
        lemma_keys_node(res);
        lemma_keys_node(a);
        lemma_keys_node(b);
        assert(keys(Some(r)).contains(rl.key));
        assert(all_above(b.right, b.key)) by {
            assert forall|x: i128| #[trigger] keys(b.right).contains(x) implies b.key < x by {
            }
        }
        assert(all_below(b.left, b.key)) by {
            assert forall|x: i128| #[trigger] keys(b.left).contains(x) implies x < b.key by {
                assert(keys(r.left).contains(x));
            }
        }
        assert(wf(res.right));
        assert(all_above(a.right, a.key)) by {
            assert forall|x: i128| #[trigger] keys(a.right).contains(x) implies a.key < x by {
                assert(keys(r.left).contains(x));
                assert(keys(Some(r)).contains(x));
            }
        }
        assert(wf(res.left));
        assert(all_above(res.right, res.key)) by {
            assert forall|x: i128| #[trigger] keys(res.right).contains(x) implies res.key < x by {
                if keys(b.left).contains(x) {
                } else if keys(b.right).contains(x) {
                } else {
                }
            }
        }
        assert(all_below(res.left, res.key)) by {
            assert forall|x: i128| #[trigger] keys(res.left).contains(x) implies x < res.key by {
                if keys(a.left).contains(x) {
                } else if keys(a.right).contains(x) {
                    assert(keys(Some(node0)).contains(x));
                } else {
                }
            }
        }
        assert(keys(Some(res)) =~= keys(Some(node0)));
    }
    res
}

/// Restores the height balance at `node`, whose children are well-formed
/// and differ in height by at most two. Returns the new subtree root and the
/// number of rebalancing steps (0 or 1; a double rotation counts as one).
fn rebalance(node: Box<Node>) -> (res: (Box<Node>, u64))
    requires
        rebalance_ready(node),
    ensures
        rebalanced(node, res.0),
        -1 <= ht(node.left) - ht(node.right) <= 1 ==> res.1 == 0 && ht(Some(res.0)) == 1
            + vstd::math::max(ht(node.left) as int, ht(node.right) as int) && res.0.left == node.left
            && res.0.right == node.right,
        ht(node.left) - ht(node.right) == 2 && ht(node.left.unwrap().left) != ht(node.left.unwrap().right) ==> res.1
            == 1 && ht(Some(res.0)) == ht(node.left),
        ht(node.right) - ht(node.left) == 2 && ht(node.right.unwrap().left) != ht(node.right.unwrap().right) ==> res.1
            == 1 && ht(Some(res.0)) == ht(node.right),
        res.1 <= 1,
        (res.0, res.1 as nat) == rebalanced_node(node),
{
    let mut node = node;
    proof {
        lemma_bounds(node);
    }
    let hl = height(&node.left);
    let hr = height(&node.right);
    if hl - hr >= 2 {
        proof {
            lemma_child_bounds(node.left.unwrap(), size(Some(node)) as int);
        }
        let hll = height(&node.left.as_ref().unwrap().left);
        let hlr = height(&node.left.as_ref().unwrap().right);
        if hll >= hlr {
            (fix_left_left(node), 1)
        } else {
            (fix_left_right(node), 1)
        }
    } else if hr - hl >= 2 {
        proof {
            lemma_child_bounds(node.right.unwrap(), size(Some(node)) as int);
        }
        let hrl = height(&node.right.as_ref().unwrap().left);
        let hrr = height(&node.right.as_ref().unwrap().right);
        if hrl > hrr {
            (fix_right_left(node), 1)
        } else {
            (fix_right_right(node), 1)
        }
    } else {
        node.height = 1 + max_i32(hl, hr);
        proof {
            lemma_keys_node(node);
        }
        (node, 0)
    }
}

/// Inserts `key` into the subtree `link`, rebalancing on the way back up.
/// Returns the new subtree root and the number of rebalancing steps.
pub fn insert_recursive(link: Option<Box<Node>>, key: i128) -> (res: (Box<Node>, u64))
    requires
        wf(link),
        size(link) + 1 < i32::MAX,
    ensures
        wf(Some(res.0)),
        keys(Some(res.0)) == keys(link).insert(key),
        size(Some(res.0)) == if keys(link).contains(key) {
            size(link)
        } else {
            size(link) + 1
        },
        ht(link) <= ht(Some(res.0)) <= ht(link) + 1,
        res.1 <= 1,
        res.1 <= ht(link),
        keys(link).contains(key) ==> res.1 == 0 && ht(Some(res.0)) == ht(link),
        res.1 == 1 ==> ht(Some(res.0)) == ht(link),
        link is Some && ht(Some(res.0)) == ht(link) + 1 ==> ht(res.0.left) != ht(res.0.right),
        (res.0, res.1 as nat) == avl_insert(link, key),
    decreases link,
{
    match link {
        None => {
            let n = Box::new(Node { key, height: 1, left: None, right: None });
            proof {
                lemma_keys_node(n);
                assert(keys(n.left) =~= Set::<i128>::empty());
                assert(keys(n.right) =~= Set::<i128>::empty());
                assert(keys(Some(n)) =~= Set::<i128>::empty().insert(key));
            }
            (n, 0)
        },
        Some(n) => {
            let mut n = n;
            let ghost n0 = n;
            proof {
                lemma_child_bounds(n0, size(Some(n0)) as int);
            }
            if key < n.key {
                let (c, r) = insert_recursive(n.left.take(), key);
                n.left = Some(c);
                proof {
                    assert(all_below(n.left, n.key)) by {
                        assert forall|x: i128| #[trigger] keys(n.left).contains(x) implies x < n.key by {
                            if x != key {
                                assert(keys(n0.left).contains(x));
                            }
                        }
                    }
                    lemma_keys_node(n);
                }
                let (m, r2) = rebalance(n);
                proof {
                    assert(keys(Some(m)) =~= keys(link).insert(key));
                }
                (m, r + r2)
            } else if key > n.key {
                let (c, r) = insert_recursive(n.right.take(), key);
                n.right = Some(c);
                proof {
                    assert(all_above(n.right, n.key)) by {
                        assert forall|x: i128| #[trigger] keys(n.right).contains(x) implies n.key < x by {
                            if x != key {
                                assert(keys(n0.right).contains(x));
                            }
                        }
                    }
                    lemma_keys_node(n);
                }
                let (m, r2) = rebalance(n);
                proof {
                    assert(keys(Some(m)) =~= keys(link).insert(key));
                }
                (m, r + r2)
            } else {
                proof {
                    assert(keys(Some(n)) =~= keys(link).insert(key));
                }
                (n, 0)
            }
        },
    }
}

/// Removes the smallest key of the non-empty subtree rooted at `n`.
/// Returns that key, the remaining subtree and the number of rebalancing
/// steps.
fn remove_min(n: Box<Node>) -> (res: (i128, Option<Box<Node>>, u64))
    requires
        wf(Some(n)),
        size(Some(n)) < i32::MAX,
    ensures
        keys(Some(n)).contains(res.0),
        forall|x: i128| #[trigger] keys(Some(n)).contains(x) ==> res.0 <= x,
        wf(res.1),
        keys(res.1) == keys(Some(n)).remove(res.0),
        size(res.1) + 1 == size(Some(n)),
        ht(Some(n)) - 1 <= ht(res.1) <= ht(Some(n)),
        res.2 <= ht(Some(n)),
        (res.0, res.1, res.2 as nat) == avl_remove_min(n),
    decreases n,
{
    let mut n = n;
    let ghost n0 = n;
    proof {
        lemma_child_bounds(n0, size(Some(n0)) as int);
    }
    if n.left.is_none() {
        let r = n.right.take();
        proof {
            assert(keys(r) =~= keys(Some(n0)).remove(n0.key));
        }
        (n.key, r, 0)
    } else {
        let l = n.left.take().unwrap();
        let (k, l2, rot) = remove_min(l);
        n.left = l2;
        proof {
            assert(all_below(n.left, n.key)) by {
                assert forall|x: i128| #[trigger] keys(n.left).contains(x) implies x < n.key by {
                    assert(keys(n0.left).contains(x));
                }
            }
            lemma_keys_node(n);
        }
        let (m, r2) = rebalance(n);
        proof {
            assert(keys(Some(m)) =~= keys(Some(n0)).remove(k));
            assert forall|x: i128| #[trigger] keys(Some(n0)).contains(x) implies k <= x by {
                if keys(n0.left).contains(x) {
                } else if keys(n0.right).contains(x) {
                    assert(keys(n0.left).contains(k));
                } else {
                    assert(keys(n0.left).contains(k));
                }
            }
        }
        (k, Some(m), rot + r2)
    }
}

/// Removes `key` from the subtree `link` (if present), replacing a node with
/// two children by its in-order successor and rebalancing on the way back
/// up. Returns the new subtree and the number of rebalancing steps.
pub fn delete_limit(link: Option<Box<Node>>, key: i128) -> (res: (Option<Box<Node>>, u64))
    requires
        wf(link),
        size(link) < i32::MAX,
    ensures
        wf(res.0),
        keys(res.0) == keys(link).remove(key),
        size(res.0) == if keys(link).contains(key) {
            size(link) - 1
        } else {
            size(link) as int
        },
        ht(link) - 1 <= ht(res.0) <= ht(link),
        res.1 <= ht(link),
        (res.0, res.1 as nat) == avl_delete(link, key),
    decreases link,
{
    match link {
        None => {
            proof {
                assert(keys(link) =~= keys(link).remove(key));
            }
            (None, 0)
        },
        Some(n) => {
            let mut n = n;
            let ghost n0 = n;
            proof {
                lemma_child_bounds(n0, size(Some(n0)) as int);
            }
            if key < n.key {
                let (c, r) = delete_limit(n.left.take(), key);
                n.left = c;
                proof {
                    assert(all_below(n.left, n.key)) by {
                        assert forall|x: i128| #[trigger] keys(n.left).contains(x) implies x < n.key by {
                            assert(keys(n0.left).contains(x));
                        }
                    }
                    lemma_keys_node(n);
                }
                let (m, r2) = rebalance(n);
                proof {
                    assert(keys(Some(m)) =~= keys(link).remove(key));
                }
                (Some(m), r + r2)
            } else if key > n.key {
                let (c, r) = delete_limit(n.right.take(), key);
                n.right = c;
                proof {
                    assert(all_above(n.right, n.key)) by {
                        assert forall|x: i128| #[trigger] keys(n.right).contains(x) implies n.key < x by {
                            assert(keys(n0.right).contains(x));
                        }
                    }
                    lemma_keys_node(n);
                }
                let (m, r2) = rebalance(n);
                proof {
                    assert(keys(Some(m)) =~= keys(link).remove(key));
                }
                (Some(m), r + r2)
            } else if n.left.is_none() {
                proof {
                    assert(keys(n0.right) =~= keys(link).remove(key));
                }
                (n.right.take(), 0)
            } else if n.right.is_none() {
                proof {
                    assert(keys(n0.left) =~= keys(link).remove(key));
                }
                (n.left.take(), 0)
            } else {
                let r = n.right.take().unwrap();
                let (succ, r2, rot) = remove_min(r);
                n.key = succ;
                n.right = r2;
                proof {
                    assert(all_below(n.left, n.key)) by {
                        assert forall|x: i128| #[trigger] keys(n.left).contains(x) implies x < n.key by {
                        }
                    }
                    assert(all_above(n.right, n.key)) by {
                        assert forall|x: i128| #[trigger] keys(n.right).contains(x) implies n.key < x by {
                            assert(keys(n0.right).contains(x));
                        }
                    }
                    lemma_keys_node(n);
                }
                let (m, r3) = rebalance(n);
                proof {
                    assert(keys(Some(m)) =~= keys(link).remove(key));
                }
                (Some(m), rot + r3)
            }
        },
    }
}

/// The first `m` elements of `s` (all of `s` when it is shorter, none when
/// `m` is not positive).
pub open spec fn prefix(s: Seq<i128>, m: int) -> Seq<i128> {
    if m <= 0 {
        Seq::empty()
    } else if m >= s.len() {
        s
    } else {
        s.take(m)
    }
}

/// The largest key followed by the keys of the subtree hanging left of it,
/// in descending order: what a descending walk started at the largest key
/// visits.
pub open spec fn best_desc(l: Option<Box<Node>>) -> Seq<i128>
    decreases l,
{
    match l {
        None => Seq::empty(),
        Some(n) => if n.right is None {
            seq![n.key] + desc(n.left)
        } else {
            best_desc(n.right)
        },
    }
}

/// The smallest key followed by the keys of the subtree hanging right of it,
/// in ascending order: what an ascending walk started at the smallest key
/// visits.
pub open spec fn best_asc(l: Option<Box<Node>>) -> Seq<i128>
    decreases l,
{
    match l {
        None => Seq::empty(),
        Some(n) => if n.left is None {
            seq![n.key] + asc(n.right)
        } else {
            best_asc(n.left)
        },
    }
}

/// The largest key of a non-empty subtree is the first one in descending
/// order and lies above every other key.
fn max_key(link: &Option<Box<Node>>) -> (r: Option<i128>)
    requires
        wf(*link),
    ensures
        r is None <==> link is None,
        r matches Some(k) ==> keys(*link).contains(k) && desc(*link)[0] == k && (forall|x: i128|
            #[trigger] keys(*link).contains(x) ==> x <= k),
    decreases link,
{
    match link {
        None => None,
        Some(n) => {
            proof {
                lemma_child_bounds(*n, size(*link) as int + 1);
            }
            if n.right.is_none() {
                proof {
                    assert(desc(n.right) =~= Seq::<i128>::empty());
                    assert(desc(*link)[0] == n.key);
                }
                Some(n.key)
            } else {
                let r = max_key(&n.right);
                proof {
                    let k = r.unwrap();
                    assert(desc(*link)[0] == desc(n.right)[0]);
                    assert forall|x: i128| #[trigger] keys(*link).contains(x) implies x <= k by {
                        if keys(n.left).contains(x) {
                        } else if keys(n.right).contains(x) {
                        } else {
                        }
                    }
                }
                r
            }
        },
    }
}

/// The smallest key of a non-empty subtree is the first one in ascending
/// order and lies below every other key.
fn min_key(link: &Option<Box<Node>>) -> (r: Option<i128>)
    requires
        wf(*link),
    ensures
        r is None <==> link is None,
        r matches Some(k) ==> keys(*link).contains(k) && asc(*link)[0] == k && (forall|x: i128|
            #[trigger] keys(*link).contains(x) ==> k <= x),
    decreases link,
{
    match link {
        None => None,
        Some(n) => {
            proof {
                lemma_child_bounds(*n, size(*link) as int + 1);
            }
            if n.left.is_none() {
                proof {
                    assert(asc(n.left) =~= Seq::<i128>::empty());
                    assert(asc(*link)[0] == n.key);
                }
                Some(n.key)
            } else {
                let r = min_key(&n.left);
                proof {
                    let k = r.unwrap();
                    assert(asc(*link)[0] == asc(n.left)[0]);
                    assert forall|x: i128| #[trigger] keys(*link).contains(x) implies k <= x by {
                        if keys(n.left).contains(x) {
                        } else if keys(n.right).contains(x) {
                        } else {
                        }
                    }
                }
                r
            }
        },
    }
}

/// Appends keys of `link` in descending order to `out` until `out` holds `n`
/// keys.
fn collect_desc(link: &Option<Box<Node>>, n: usize, out: &mut Vec<i128>)
    ensures
        final(out)@ == old(out)@ + prefix(desc(*link), n - old(out)@.len()),
    decreases link,
{
    if out.len() >= n {
        proof {
            assert(final(out)@ =~= old(out)@ + prefix(desc(*link), n - old(out)@.len()));
        }
        return;
    }
    match link {
        None => {
            proof {
                assert(final(out)@ =~= old(out)@ + prefix(desc(*link), n - old(out)@.len()));
            }
        },
        Some(node) => {
            collect_desc(&node.right, n, out);
            if out.len() < n {
                out.push(node.key);
            }
            collect_desc(&node.left, n, out);
            proof {
                let m = n - old(out)@.len();
                let dr = desc(node.right);
                let dl = desc(node.left);
                assert(desc(*link) == dr + seq![node.key] + dl);
                assert(final(out)@ =~= old(out)@ + prefix(desc(*link), m));
            }
        },
    }
}

/// Appends keys of `link` in ascending order to `out` until `out` holds `n`
/// keys.
fn collect_asc(link: &Option<Box<Node>>, n: usize, out: &mut Vec<i128>)
    ensures
        final(out)@ == old(out)@ + prefix(asc(*link), n - old(out)@.len()),
    decreases link,
{
    if out.len() >= n {
        proof {
            assert(final(out)@ =~= old(out)@ + prefix(asc(*link), n - old(out)@.len()));
        }
        return;
    }
    match link {
        None => {
            proof {
                assert(final(out)@ =~= old(out)@ + prefix(asc(*link), n - old(out)@.len()));
            }
        },
        Some(node) => {
            collect_asc(&node.left, n, out);
            if out.len() < n {
                out.push(node.key);
            }
            collect_asc(&node.right, n, out);
            proof {
                let m = n - old(out)@.len();
                let dl = asc(node.left);
                let dr = asc(node.right);
                assert(asc(*link) == dl + seq![node.key] + dr);
                assert(final(out)@ =~= old(out)@ + prefix(asc(*link), m));
            }
        },
    }
}

/// Walks to the largest key and appends it, then the keys hanging left of
/// it in descending order, until `out` holds `n` keys.
fn collect_best_desc(link: &Option<Box<Node>>, n: usize, out: &mut Vec<i128>)
    ensures
        final(out)@ == old(out)@ + prefix(best_desc(*link), n - old(out)@.len()),
    decreases link,
{
    match link {
        None => {
            proof {
                assert(final(out)@ =~= old(out)@ + prefix(best_desc(*link), n - old(out)@.len()));
            }
        },
        Some(node) => {
            if node.right.is_some() {
                collect_best_desc(&node.right, n, out);
            } else {
                if out.len() < n {
                    out.push(node.key);
                }
                collect_desc(&node.left, n, out);
                proof {
                    let m = n - old(out)@.len();
                    assert(best_desc(*link) == seq![node.key] + desc(node.left));
                    assert(final(out)@ =~= old(out)@ + prefix(best_desc(*link), m));
                }
            }
        },
    }
}

/// Walks to the smallest key and appends it, then the keys hanging right of
/// it in ascending order, until `out` holds `n` keys.
fn collect_best_asc(link: &Option<Box<Node>>, n: usize, out: &mut Vec<i128>)
    ensures
        final(out)@ == old(out)@ + prefix(best_asc(*link), n - old(out)@.len()),
    decreases link,
{
    match link {
        None => {
            proof {
                assert(final(out)@ =~= old(out)@ + prefix(best_asc(*link), n - old(out)@.len()));
            }
        },
        Some(node) => {
            if node.left.is_some() {
                collect_best_asc(&node.left, n, out);
            } else {
                if out.len() < n {
                    out.push(node.key);
                }
                collect_asc(&node.right, n, out);
                proof {
                    let m = n - old(out)@.len();
                    assert(best_asc(*link) == seq![node.key] + asc(node.right));
                    assert(final(out)@ =~= old(out)@ + prefix(best_asc(*link), m));
                }
            }
        },
    }
}

/// The walk started at the largest key visits a prefix of the descending
/// listing, and in a well-formed tree it holds the largest key and at most
/// one more.
pub proof fn lemma_best_desc(l: Option<Box<Node>>)
    requires
        wf(l),
    ensures
        best_desc(l) == desc(l).take(best_desc(l).len() as int),
        best_desc(l).len() <= desc(l).len(),
        l is Some ==> 1 <= best_desc(l).len() <= 2,
        l is None ==> best_desc(l).len() == 0,
    decreases l,
{
    if let Some(n) = l {
        lemma_child_bounds(n, size(l) as int + 1);
        if n.right is None {
            assert(desc(n.right) =~= Seq::<i128>::empty());
            lemma_listing(n.left);
            if let Some(c) = n.left {
                lemma_child_bounds(c, size(n.left) as int + 1);
                assert(size(c.left) == 0 && size(c.right) == 0) by {
                    lemma_ht_le_size(c.left);
                    lemma_ht_le_size(c.right);
                    if c.left is Some {
                        assert(ht(c.left) >= 1);
                    }
                    if c.right is Some {
                        assert(ht(c.right) >= 1);
                    }
                }
                lemma_listing(c.left);
                lemma_listing(c.right);
            }
            assert(best_desc(l) =~= desc(l).take(best_desc(l).len() as int));
        } else {
            lemma_best_desc(n.right);
            lemma_listing(n.right);
            assert(best_desc(l) =~= desc(l).take(best_desc(l).len() as int));
        }
    }
}

/// The walk started at the smallest key visits a prefix of the ascending
/// listing, and in a well-formed tree it holds the smallest key and at most
/// one more.
pub proof fn lemma_best_asc(l: Option<Box<Node>>)
    requires
        wf(l),
    ensures
        best_asc(l) == asc(l).take(best_asc(l).len() as int),
        best_asc(l).len() <= asc(l).len(),
        l is Some ==> 1 <= best_asc(l).len() <= 2,
        l is None ==> best_asc(l).len() == 0,
    decreases l,
{
    if let Some(n) = l {
        lemma_child_bounds(n, size(l) as int + 1);
        if n.left is None {
            assert(asc(n.left) =~= Seq::<i128>::empty());
            lemma_listing(n.right);
            if let Some(c) = n.right {
                lemma_child_bounds(c, size(n.right) as int + 1);
                assert(size(c.left) == 0 && size(c.right) == 0) by {
                    lemma_ht_le_size(c.left);
                    lemma_ht_le_size(c.right);
                    if c.left is Some {
                        assert(ht(c.left) >= 1);
                    }
                    if c.right is Some {
                        assert(ht(c.right) >= 1);
                    }
                }
                lemma_listing(c.left);
                lemma_listing(c.right);
            }
            assert(best_asc(l) =~= asc(l).take(best_asc(l).len() as int));
        } else {
            lemma_best_asc(n.left);
            lemma_listing(n.left);
            assert(best_asc(l) =~= asc(l).take(best_asc(l).len() as int));
        }
    }
}

/// The first key in ascending order is the smallest key, the first in
/// descending order the largest.
pub proof fn lemma_extremes(l: Option<Box<Node>>)
    requires
        wf(l),
        l is Some,
    ensures
        keys(l).contains(asc(l)[0]),
        forall|x: i128| #[trigger] keys(l).contains(x) ==> asc(l)[0] <= x,
        keys(l).contains(desc(l)[0]),
        forall|x: i128| #[trigger] keys(l).contains(x) ==> x <= desc(l)[0],
{
    lemma_listing(l);
    assert(asc(l).len() > 0) by {
        lemma_child_bounds(l.unwrap(), size(l) as int + 1);
    }
    assert(asc(l).to_set().contains(asc(l)[0]));
    assert(desc(l).to_set().contains(desc(l)[0]));
    assert forall|x: i128| #[trigger] keys(l).contains(x) implies asc(l)[0] <= x && x <= desc(l)[0] by {
        assert(asc(l).to_set().contains(x));
        assert(desc(l).to_set().contains(x));
        let i = choose|i: int| 0 <= i < asc(l).len() && asc(l)[i] == x;
        let j = choose|j: int| 0 <= j < desc(l).len() && desc(l)[j] == x;
        if i > 0 {
        }
        if j > 0 {
        }
    }
}

/// A balanced tree of height `h` holds at least `2^(h/2) - 1` keys: its
/// height grows at most logarithmically with its size.
pub proof fn law_height_logarithmic(l: Option<Box<Node>>)
    requires
        wf(l),
    ensures
        pow2((ht(l) / 2) as nat) <= size(l) + 1,
    decreases l,
{
    let h = ht(l);
    if h <= 1 {
        assert(pow2(0) == 1) by {
            vstd::arithmetic::power2::lemma2_to64();
        }
        assert((h / 2) as nat == 0);
    } else {
        let n = l.unwrap();
        lemma_child_bounds(n, size(l) as int + 1);
        law_height_logarithmic(n.left);
        law_height_logarithmic(n.right);
        let k = (h / 2) as nat;
        assert(k >= 1);
        lemma_pow2_unfold(k);
        let km = (k - 1) as nat;
        // both children have height at least h - 2, so both hold 2^(k-1) - 1 keys
        assert(pow2(km) <= size(n.left) + 1) by {
            let e = (ht(n.left) / 2) as nat;
            assert(e >= km);
            if e > km {
                lemma_pow2_strictly_increases(km, e);
            }
        }
        assert(pow2(km) <= size(n.right) + 1) by {
            let e = (ht(n.right) / 2) as nat;
            assert(e >= km);
            if e > km {
                lemma_pow2_strictly_increases(km, e);
            }
        }
    }
}

/// A set of price keys kept in a height-balanced binary search tree.
pub struct AvlTree {
    root: Option<Box<Node>>,
}

impl AvlTree {
    /// The root of the tree.
    pub closed spec fn link(&self) -> Option<Box<Node>> {
        self.root
    }

    /// The tree is ordered, balanced and its cached heights are exact.
    pub open spec fn inv(&self) -> bool {
        wf(self.link())
    }

    /// The keys held by the tree.
    pub open spec fn key_set(&self) -> Set<i128> {
        keys(self.link())
    }

    /// An empty tree.
    pub fn new() -> (t: Self)
        ensures
            t.inv(),
            t.link() is None,
            t.key_set() == Set::<i128>::empty(),
    {
        AvlTree { root: None }
    }

    /// Inserts a key. Returns the number of rebalancing steps performed.
    pub fn insert(&mut self, key: i128) -> (rotations: u64)
        requires
            old(self).inv(),
            size(old(self).link()) + 1 < i32::MAX,
        ensures
            final(self).inv(),
            final(self).key_set() == old(self).key_set().insert(key),
            size(final(self).link()) == if old(self).key_set().contains(key) {
                size(old(self).link())
            } else {
                size(old(self).link()) + 1
            },
            rotations <= ht(old(self).link()),
            rotations <= 1,
            (final(self).link(), rotations as nat) == (Some(avl_insert(old(self).link(), key).0), avl_insert(
                old(self).link(),
                key,
            ).1),
    {
        let root = self.root.take();
        let (r, rot) = insert_recursive(root, key);
        self.root = Some(r);
        rot
    }

    /// Removes a key (if present). Returns the number of rebalancing steps
    /// performed.
    pub fn remove(&mut self, key: i128) -> (rotations: u64)
        requires
            old(self).inv(),
            size(old(self).link()) < i32::MAX,
        ensures
            final(self).inv(),
            final(self).key_set() == old(self).key_set().remove(key),
            size(final(self).link()) == if old(self).key_set().contains(key) {
                size(old(self).link()) - 1
            } else {
                size(old(self).link()) as int
            },
            rotations <= ht(old(self).link()),
            (final(self).link(), rotations as nat) == avl_delete(old(self).link(), key),
    {
        let root = self.root.take();
        let (r, rot) = delete_limit(root, key);
        self.root = r;
        rot
    }

    /// The largest key, if any.
    pub fn max(&self) -> (r: Option<i128>)
        requires
            self.inv(),
        ensures
            r is None <==> self.key_set().is_empty(),
            r matches Some(k) ==> self.key_set().contains(k) && desc(self.link())[0] == k && (
            forall|x: i128| #[trigger] self.key_set().contains(x) ==> x <= k),
    {
        proof {
            lemma_listing(self.root);
            if self.root is Some {
                assert(self.key_set().contains(self.root.unwrap().key));
            }
        }
        max_key(&self.root)
    }

    /// The smallest key, if any.
    pub fn min(&self) -> (r: Option<i128>)
        requires
            self.inv(),
        ensures
            r is None <==> self.key_set().is_empty(),
            r matches Some(k) ==> self.key_set().contains(k) && asc(self.link())[0] == k && (
            forall|x: i128| #[trigger] self.key_set().contains(x) ==> k <= x),
    {
        proof {
            if self.root is Some {
                assert(self.key_set().contains(self.root.unwrap().key));
            }
        }
        min_key(&self.root)
    }

    /// The `n` largest keys in descending order (fewer if the tree is
    /// smaller).
    pub fn top_desc(&self, n: usize) -> (r: Vec<i128>)
        ensures
            r@ == prefix(desc(self.link()), n as int),
    {
        let mut out = Vec::new();
        collect_desc(&self.root, n, &mut out);
        proof {
            assert(out@ =~= prefix(desc(self.link()), n as int));
        }
        out
    }

    /// The `n` smallest keys in ascending order (fewer if the tree is
    /// smaller).
    pub fn top_asc(&self, n: usize) -> (r: Vec<i128>)
        ensures
            r@ == prefix(asc(self.link()), n as int),
    {
        let mut out = Vec::new();
        collect_asc(&self.root, n, &mut out);
        proof {
            assert(out@ =~= prefix(asc(self.link()), n as int));
        }
        out
    }

    /// Up to `n` keys of the walk that starts at the largest key.
    pub fn best_desc(&self, n: usize) -> (r: Vec<i128>)
        ensures
            r@ == prefix(best_desc(self.link()), n as int),
    {
        let mut out = Vec::new();
        collect_best_desc(&self.root, n, &mut out);
        proof {
            assert(out@ =~= prefix(best_desc(self.link()), n as int));
        }
        out
    }

    /// Up to `n` keys of the walk that starts at the smallest key.
    pub fn best_asc(&self, n: usize) -> (r: Vec<i128>)
        ensures
            r@ == prefix(best_asc(self.link()), n as int),
    {
        let mut out = Vec::new();
        collect_best_asc(&self.root, n, &mut out);
        proof {
            assert(out@ =~= prefix(best_asc(self.link()), n as int));
        }
        out
    }
}

} // verus!
