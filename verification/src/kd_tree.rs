//! The index itself: a store of keyed nodes, searched from the root and
//! relinked in place when a leaf leaves.

use vstd::prelude::*;
use vstd::hash_map::StringHashMap;
use vstd::pervasive::unreached;
use crate::error::KdError;
use crate::growth::{
    grown_from, lemma_grown_distinct, lemma_grown_inner, lemma_grown_keys, lemma_grown_leaves,
    lemma_grown_partitioned, splits, stably_sorted,
};
use crate::input::{
    copy_range, distinct_names, fresh_keys, key_in, keys_fresh, lemma_halves,
    lemma_keys_fresh_narrow, lemma_rearranged, lemma_sides_apart, lists, names, names_distinct,
};
use crate::keys::{drawn, gen_key};
use crate::node::{clone_key, InternalNode, Node};
use crate::point::{key_view, LeafNode, Point};
use crate::search::{
    get_closer, get_sides, is_inside, leaf_view, lemma_found_admits, lemma_found_nearest,
    should_check_bad_side,
};
use crate::shape::{
    lemma_children_are_keys, lemma_frame, lemma_leaf_keys, lemma_name_is_key,
    lemma_parent_link, lemma_preorder_keys, lemma_reachable, lemma_relinked, lemma_single_leaf, lemma_without_leaves,
    reaches, relinked, represents, Shape,
};
use crate::sorting::sort_by_axis;

verus! {

/// The views of keys.
pub open spec fn key_views(keys: Seq<String>) -> Seq<Seq<char>> {
    keys.map_values(|k: String| k@)
}

/// A store of leaves and internal nodes under string keys, with the key of
/// the root.
pub struct KdTree {
    k: u8,
    tree: StringHashMap<Node>,
    root: Option<String>,
    shape: Ghost<Option<Shape>>,
}

impl View for KdTree {
    type V = Option<Shape>;

    /// The tree that the store holds; `None` when it is empty.
    closed spec fn view(&self) -> Option<Shape> {
        self.shape@
    }
}

impl KdTree {
    /// The stored nodes by key.
    pub closed spec fn store(&self) -> Map<Seq<char>, Node> {
        self.tree@
    }

    /// The key of the root, if there is one.
    pub closed spec fn root_key(&self) -> Option<Seq<char>> {
        match self.root {
            Some(r) => Some(r@),
            None => None,
        }
    }

    /// The number of axes.
    pub closed spec fn dims(&self) -> int {
        self.k as int
    }

    /// Whether the index holds the leaf `name` at `(x, y)`.
    pub open spec fn has_leaf(&self, name: Seq<char>, x: int, y: int) -> bool {
        match self@ {
            Some(s) => s.has_leaf(name, x, y),
            None => false,
        }
    }

    /// Whether the index holds a leaf called `name`.
    pub open spec fn has_name(&self, name: Seq<char>) -> bool {
        match self@ {
            Some(s) => s.has_name(name),
            None => false,
        }
    }

    /// The number of leaves.
    pub open spec fn size(&self) -> nat {
        match self@ {
            Some(s) => s.size(),
            None => 0,
        }
    }

    /// The store is a binary tree: it holds exactly the nodes of `self@`,
    /// linked as `self@` says, under keys that are all different; it is empty
    /// exactly when there is no root.
    pub open spec fn wf(&self) -> bool {
        &&& self.dims() == 2
        &&& match self@ {
            None => self.root_key() is None && self.store() == Map::<Seq<char>, Node>::empty(),
            Some(s) => {
                &&& self.root_key() == Some(s.key())
                &&& s.distinct()
                &&& represents(self.store(), s, None)
                &&& forall|k: Seq<char>| #[trigger] self.store().contains_key(k) <==> s.has_key(k)
            },
        }
    }

    /// An empty index over `k` axes.
    pub fn new(k: u8) -> (kd: Self)
        requires
            k == 2,
        ensures
            kd.wf(),
            kd@ is None,
    {
        Self { k: k, tree: StringHashMap::new(), root: None, shape: Ghost(None) }
    }

    /// The axis on which the level below splits: the axes take turns.
    fn next_axis(&self, axis: usize) -> (next: usize)
        requires
            self.k == 2,
            axis < 2,
        ensures
            next == 1 - axis,
    {
        (axis + 1) % (self.k as usize)
    }

    /// Stores the tree that `arr` grows into below `parent`, splitting on
    /// `axis` first, and returns the key of its top node. More than one point
    /// is sorted in place on `axis`; the halves are grown from copies.
    fn insert(
        &mut self,
        arr: &mut Vec<Point>,
        parent: Option<String>,
        axis: usize,
        keys: &Vec<String>,
        base: usize,
    ) -> (res: (String, Ghost<Shape>))
        requires
            old(self).k == 2,
            old(arr).len() >= 1,
            axis < 2,
            base + old(arr).len() <= usize::MAX,
            names_distinct(old(arr)@),
            keys_fresh(keys@, base as int, base + old(arr).len() - 1, old(arr)@),
            forall|k: Seq<char>|
                names(old(arr)@, k) || key_in(keys@, base as int, base + old(arr).len() - 1, k)
                    ==> !#[trigger] old(self).tree@.contains_key(k),
        ensures
            res.0@ == res.1@.key(),
            grown_from(res.1@, old(arr)@, keys@, base as int, axis as int),
            represents(final(self).tree@, res.1@, key_view(parent)),
            forall|k: Seq<char>| #[trigger]
                final(self).tree@.contains_key(k) <==> old(self).tree@.contains_key(k)
                    || res.1@.has_key(k),
            forall|k: Seq<char>| #[trigger]
                old(self).tree@.contains_key(k) ==> final(self).tree@[k] == old(self).tree@[k],
            final(self).k == old(self).k,
            final(self).root == old(self).root,
            final(self).shape == old(self).shape,
            old(arr).len() == 1 ==> final(arr)@ == old(arr)@,
            old(arr).len() > 1 ==> stably_sorted(old(arr)@, final(arr)@, axis as int),
        decreases old(arr).len(),
    {
        let n = arr.len();
        let ghost arr0 = arr@;
        let ghost m0 = self.tree@;
        if n == 1 {
            let name = arr[0].name.clone();
            let mut node = LeafNode::new(name.clone(), arr[0].p[0], arr[0].p[1]);
            node.parent = parent;
            self.tree.insert(name.clone(), Node::Leaf(node));
            let ghost s = Shape::Leaf {
                name: name@,
                x: arr0[0].p[0] as int,
                y: arr0[0].p[1] as int,
            };
            proof {
                assert(names(arr0, name@)) by {
                    assert(arr0[0].name@ == name@);
                }
                assert(grown_from(s, arr0, keys@, base as int, axis as int));
            }
            return (name, Ghost(s));
        }
        sort_by_axis(arr, axis);
        let ghost sorted = arr@;
        let mid = n / 2;
        let ghost left0 = sorted.subrange(0, mid as int);
        let ghost right0 = sorted.subrange(mid as int, n as int);
        proof {
            lemma_rearranged(arr0, sorted);
            assert(sorted.len() == n);
            assert(base + n - 1 <= keys@.len());
            lemma_halves(sorted, mid as int);
            lemma_keys_fresh_narrow(
                keys@,
                base as int,
                base + n - 1,
                arr0,
                base as int,
                base + n - 1,
                sorted,
            );
            assert forall|k: Seq<char>| #[trigger] names(left0, k) implies names(sorted, k) by {
                assert(names(sorted, k) <==> names(left0, k) || names(right0, k));
            }
            assert forall|k: Seq<char>| #[trigger] names(right0, k) implies names(sorted, k) by {
                assert(names(sorted, k) <==> names(left0, k) || names(right0, k));
            }
            lemma_keys_fresh_narrow(
                keys@,
                base as int,
                base + n - 1,
                sorted,
                base + 1,
                base + mid,
                left0,
            );
            lemma_keys_fresh_narrow(
                keys@,
                base as int,
                base + n - 1,
                sorted,
                base + mid,
                base + n - 1,
                right0,
            );
            lemma_sides_apart(keys@, base as int, sorted, mid as int);
            assert forall|k: Seq<char>|
                names(left0, k) || key_in(keys@, base + 1, base + mid, k) implies !m0.contains_key(
                k,
            ) by {
                assert(names(sorted, k) <==> names(arr0, k));
            }
        }
        let node_key = keys[base].clone();
        let div: i64 = arr[mid - 1].p[axis] as i64 + arr[mid].p[axis] as i64;
        let mut left = copy_range(arr, 0, mid);
        let mut right = copy_range(arr, mid, n);
        let below = self.next_axis(axis);
        let (left_key, Ghost(ls)) = self.insert(
            &mut left,
            Some(node_key.clone()),
            below,
            keys,
            base + 1,
        );
        let ghost m1 = self.tree@;
        proof {
            lemma_grown_keys(ls, left0, keys@, base + 1, 1 - axis);
            assert forall|k: Seq<char>|
                names(right0, k) || key_in(
                    keys@,
                    base + mid,
                    base + n - 1,
                    k,
                ) implies !m1.contains_key(k) by {
                assert(names(sorted, k) <==> names(arr0, k));
                assert(!m0.contains_key(k));
                assert(!((names(left0, k) || key_in(keys@, base + 1, base + mid, k)) && (names(
                    right0,
                    k,
                ) || key_in(keys@, base + mid, base + n - 1, k))));
                assert(!ls.has_key(k));
            }
        }
        let (right_key, Ghost(rs)) = self.insert(
            &mut right,
            Some(node_key.clone()),
            below,
            keys,
            base + mid,
        );
        let ghost m2 = self.tree@;
        self.tree.insert(
            node_key.clone(),
            Node::Internal(InternalNode { div: div, less: left_key, more: right_key, parent: parent }),
        );
        let ghost s = Shape::Inner {
            key: node_key@,
            div: div as int,
            less: Box::new(ls),
            more: Box::new(rs),
        };
        proof {
            let m3 = self.tree@;
            lemma_grown_keys(rs, right0, keys@, base + mid, 1 - axis);
            assert(key_in(keys@, base as int, base + n - 1, node_key@)) by {
                assert(keys@[base as int]@ == node_key@);
            }
            assert(!m0.contains_key(node_key@));
            assert(!ls.has_key(node_key@));
            assert(!rs.has_key(node_key@));
            assert forall|k: Seq<char>| #[trigger] ls.has_key(k) implies m3.contains_key(k)
                && m3[k]@ == m1[k]@ by {
                assert(m1.contains_key(k));
                assert(m2[k] == m1[k]);
            }
            lemma_frame(m1, m3, ls, Some(node_key@));
            assert forall|k: Seq<char>| #[trigger] rs.has_key(k) implies m3.contains_key(k)
                && m3[k]@ == m2[k]@ by {
                assert(m2.contains_key(k));
            }
            lemma_frame(m2, m3, rs, Some(node_key@));
            assert(splits(node_key@, div as int, arr0, keys@, base as int, axis as int, sorted));
            assert(arr0.len() as int / 2 == mid as int);
            assert(grown_from(ls, sorted.subrange(0, arr0.len() as int / 2), keys@, base + 1, 1 - axis));
            assert(grown_from(
                rs,
                sorted.subrange(arr0.len() as int / 2, arr0.len() as int),
                keys@,
                base + arr0.len() as int / 2,
                1 - axis,
            ));
            lemma_grown_inner(s, arr0, keys@, base as int, axis as int, sorted);
            assert forall|k: Seq<char>| #[trigger]
                m3.contains_key(k) <==> m0.contains_key(k) || s.has_key(k) by {
                assert(m2.contains_key(k) <==> m1.contains_key(k) || rs.has_key(k));
                assert(m1.contains_key(k) <==> m0.contains_key(k) || ls.has_key(k));
            }
            assert forall|k: Seq<char>| #[trigger] m0.contains_key(k) implies m3[k] == m0[k] by {
                assert(m1.contains_key(k));
                assert(m2[k] == m1[k]);
                assert(m1[k] == m0[k]);
            }
        }
        (node_key, Ghost(s))
    }

    /// Fills an empty index from `arr`, with `keys` for the internal nodes:
    /// `arr.len() - 1` of them are used, in the order in which the nodes are
    /// met from the root down, lower side first. The index then holds the
    /// tree that `arr` grows into, splitting on axis 0 first: every point is
    /// a leaf, once, and every divider separates its two sides. More than
    /// one point is left sorted on axis 0. No points, or a name used twice,
    /// are refused as malformed; after that, keys that are too few, repeat
    /// or are the name of a point are refused. A refusal changes nothing.
    pub fn build_with_keys(&mut self, arr: &mut Vec<Point>, keys: &Vec<String>) -> (res: Result<
        (),
        KdError,
    >)
        requires
            old(self).wf(),
            old(self)@ is None,
        ensures
            final(self).wf(),
            res is Ok <==> old(arr).len() >= 1 && names_distinct(old(arr)@) && keys_fresh(
                keys@,
                0,
                old(arr).len() - 1,
                old(arr)@,
            ),
            match res {
                Ok(_) => {
                    &&& final(self)@ is Some
                    &&& grown_from(final(self)@->0, old(arr)@, keys@, 0, 0)
                    &&& final(self)@->0.partitioned(0)
                    &&& final(self)@->0.size() == old(arr).len()
                    &&& forall|n: Seq<char>, x: int, y: int| #[trigger]
                        final(self)@->0.has_leaf(n, x, y) <==> lists(old(arr)@, n, x, y)
                    &&& forall|k: Seq<char>| #[trigger]
                        final(self)@->0.has_name(k) <==> names(old(arr)@, k)
                    &&& old(arr).len() == 1 ==> final(arr)@ == old(arr)@
                    &&& old(arr).len() > 1 ==> stably_sorted(old(arr)@, final(arr)@, 0)
                },
                Err(e) => {
                    &&& final(self)@ is None
                    &&& final(arr)@ == old(arr)@
                    &&& e == (if old(arr).len() == 0 || !names_distinct(old(arr)@) {
                        KdError::MalformedInput
                    } else {
                        KdError::BadKeys
                    })
                    &&& e == KdError::BadKeys ==> !keys_fresh(
                        keys@,
                        0,
                        old(arr).len() - 1,
                        old(arr)@,
                    )
                },
            },
    {
        if arr.len() == 0 {
            return Err(KdError::MalformedInput);
        }
        let seen = match distinct_names(arr) {
            None => {
                return Err(KdError::MalformedInput);
            },
            Some(seen) => seen,
        };
        if !fresh_keys(seen, keys, arr.len() - 1) {
            return Err(KdError::BadKeys);
        }
        let ghost arr0 = arr@;
        let (root_key, Ghost(s)) = self.insert(arr, None, 0, keys, 0);
        self.root = Some(root_key);
        self.shape = Ghost(Some(s));
        proof {
            lemma_grown_distinct(s, arr0, keys@, 0, 0);
            lemma_grown_leaves(s, arr0, keys@, 0, 0);
            lemma_grown_partitioned(s, arr0, keys@, 0, 0);
        }
        Ok(())
    }

    /// Fills an empty index from `arr`, drawing the keys of the internal
    /// nodes at random. What holds after `build_with_keys` holds here for the
    /// keys that were drawn. No points, or a name used twice, are refused as
    /// malformed. A draw that repeats a key or hits a name is refused as
    /// well, which cannot happen to a single point. A refusal changes
    /// nothing.
    pub fn build(&mut self, arr: &mut Vec<Point>) -> (res: Result<(), KdError>)
        requires
            old(self).wf(),
            old(self)@ is None,
        ensures
            final(self).wf(),
            match res {
                Ok(_) => {
                    &&& old(arr).len() >= 1
                    &&& names_distinct(old(arr)@)
                    &&& final(self)@ is Some
                    &&& exists|keys: Seq<String>|
                        drawn(keys, old(arr).len() - 1) && #[trigger] grown_from(
                            final(self)@->0,
                            old(arr)@,
                            keys,
                            0,
                            0,
                        )
                    &&& final(self)@->0.partitioned(0)
                    &&& final(self)@->0.size() == old(arr).len()
                    &&& forall|n: Seq<char>, x: int, y: int| #[trigger]
                        final(self)@->0.has_leaf(n, x, y) <==> lists(old(arr)@, n, x, y)
                    &&& forall|k: Seq<char>| #[trigger]
                        final(self)@->0.has_name(k) <==> names(old(arr)@, k)
                    &&& old(arr).len() == 1 ==> final(arr)@ == old(arr)@
                    &&& old(arr).len() > 1 ==> stably_sorted(old(arr)@, final(arr)@, 0)
                },
                Err(e) => {
                    &&& final(self)@ is None
                    &&& final(arr)@ == old(arr)@
                    &&& e == (if old(arr).len() == 0 || !names_distinct(old(arr)@) {
                        KdError::MalformedInput
                    } else {
                        KdError::BadKeys
                    })
                    &&& e == KdError::BadKeys ==> old(arr).len() >= 2
                },
            },
    {
        let mut keys: Vec<String> = Vec::new();
        let mut i: usize = 1;
        while i < arr.len()
            invariant
                1 <= i,
                arr.len() >= 1 ==> i <= arr.len(),
                drawn(keys@, i - 1),
            decreases arr.len() - i,
        {
            keys.push(gen_key());
            i += 1;
        }
        let res = self.build_with_keys(arr, &keys);
        proof {
            if res is Ok {
                assert(drawn(keys@, old(arr).len() - 1));
                assert(grown_from(self@->0, old(arr)@, keys@, 0, 0));
            }
        }
        res
    }

    /// The leaf that the pruned walk below `curr` finds for `point`.
    fn walk(
        &self,
        point: &LeafNode,
        curr: &str,
        axis: usize,
        Ghost(s): Ghost<Shape>,
        Ghost(parent): Ghost<Option<Seq<char>>>,
    ) -> (res: Option<&LeafNode>)
        requires
            self.k == 2,
            represents(self.tree@, s, parent),
            s.key() == curr@,
            axis < 2,
        ensures
            leaf_view(res) == s.found(parent, point@.x, point@.y, axis as int),
        decreases s,
    {
        let node = self.tree.get(curr);
        proof {
            match s {
                Shape::Leaf { .. } => {
                    assert(self.tree@[curr@]@ is Leaf);
                },
                Shape::Inner { .. } => {
                    assert(self.tree@[curr@]@ is Internal);
                },
            }
        }
        match node {
            None => None,
            Some(Node::Leaf(leaf)) => {
                if point.contains(leaf) {
                    Some(leaf)
                } else {
                    None
                }
            },
            Some(Node::Internal(in_node)) => {
                let ghost good = if axis == 0 {
                    *s->less
                } else {
                    *s->more
                };
                let ghost bad = if axis == 0 {
                    *s->more
                } else {
                    *s->less
                };
                let (good_side, bad_side) = get_sides(in_node, axis);
                let below = self.next_axis(axis);
                if is_inside(point, in_node.div, axis) {
                    return self.walk(
                        point,
                        bad_side.as_str(),
                        below,
                        Ghost(bad),
                        Ghost(Some(curr@)),
                    );
                }
                let mut closest = self.walk(
                    point,
                    good_side.as_str(),
                    below,
                    Ghost(good),
                    Ghost(Some(curr@)),
                );
                if should_check_bad_side(closest, point, in_node.div, axis) {
                    let closest_bad_side = self.walk(
                        point,
                        bad_side.as_str(),
                        below,
                        Ghost(bad),
                        Ghost(Some(curr@)),
                    );
                    closest = get_closer(closest, closest_bad_side, point);
                }
                closest
            },
        }
    }

    /// The cataloged point that the walk from the root finds for `(x, y)`;
    /// nothing on an empty index. What is found is always a leaf that
    /// `(x, y)` dominates. While the dividers still separate their sides, as
    /// they do after `build`, it is a nearest such leaf, and absent only if
    /// there is none.
    pub fn search(&self, x: i32, y: i32) -> (res: Option<&LeafNode>)
        requires
            self.wf(),
        ensures
            match self@ {
                None => res is None,
                Some(s) => {
                    &&& leaf_view(res) == s.found(None, x as int, y as int, 0)
                    &&& s.admits(x as int, y as int, leaf_view(res))
                    &&& s.partitioned(0) ==> s.nearest(x as int, y as int, leaf_view(res))
                },
            },
    {
        match &self.root {
            None => None,
            Some(r) => {
                proof {
                    lemma_found_admits(self.shape@->0, None, x as int, y as int, 0);
                    if self.shape@->0.partitioned(0) {
                        lemma_found_nearest(self.shape@->0, None, x as int, y as int, 0);
                    }
                }
                let point = LeafNode::new("new".to_owned(), x, y);
                self.walk(&point, r.as_str(), 0, Ghost(self.shape@->0), Ghost(None))
            },
        }
    }

    /// Adds the keys below and at `curr` to `out`, from the top down.
    fn collect(
        &self,
        curr: &str,
        out: &mut Vec<String>,
        Ghost(s): Ghost<Shape>,
        Ghost(parent): Ghost<Option<Seq<char>>>,
    )
        requires
            represents(self.tree@, s, parent),
            s.key() == curr@,
        ensures
            key_views(final(out)@) == key_views(old(out)@) + s.preorder(),
        decreases s,
    {
        let ghost before = out@;
        out.push(curr.to_owned());
        proof {
            assert(key_views(out@) =~= key_views(before) + seq![curr@]);
        }
        match self.tree.get(curr) {
            Some(Node::Internal(in_node)) => {
                proof {
                    assert(s is Inner);
                }
                self.collect(in_node.less.as_str(), out, Ghost(*s->less), Ghost(Some(curr@)));
                self.collect(in_node.more.as_str(), out, Ghost(*s->more), Ghost(Some(curr@)));
                proof {
                    assert(key_views(out@) =~= key_views(before) + s.preorder());
                }
            },
            _ => {
                proof {
                    assert(s is Leaf);
                    assert(key_views(out@) =~= key_views(before) + s.preorder());
                }
            },
        }
    }

    /// The keys of all stored nodes, from the root down: a node, then what
    /// hangs on its `less` side, then what hangs on its `more` side.
    pub fn keys(&self) -> (res: Vec<String>)
        requires
            self.wf(),
        ensures
            key_views(res@) == (match self@ {
                Some(s) => s.preorder(),
                None => Seq::<Seq<char>>::empty(),
            }),
            forall|k: Seq<char>| key_views(res@).contains(k) <==> #[trigger] self.store().contains_key(k),
    {
        let mut res: Vec<String> = Vec::new();
        proof {
            assert(key_views(res@) =~= Seq::<Seq<char>>::empty());
        }
        match &self.root {
            None => {},
            Some(r) => {
                self.collect(r.as_str(), &mut res, Ghost(self.shape@->0), Ghost(None));
                proof {
                    assert(key_views(res@) =~= self.shape@->0.preorder());
                    assert forall|k: Seq<char>|
                        key_views(res@).contains(k) <==> #[trigger] self.store().contains_key(
                            k,
                        ) by {
                        lemma_preorder_keys(self.shape@->0, k);
                    }
                }
            },
        }
        res
    }

    /// The key of the root, if the index is not empty.
    pub fn root(&self) -> (r: Option<&String>)
        ensures
            match r {
                Some(k) => self.root_key() == Some(k@),
                None => self.root_key() is None,
            },
    {
        self.root.as_ref()
    }

    /// The node stored under `key`, if there is one.
    pub fn get(&self, key: &str) -> (n: Option<&Node>)
        ensures
            match n {
                Some(v) => self.store().contains_key(key@) && *v == self.store()[key@],
                None => !self.store().contains_key(key@),
            },
    {
        self.tree.get(key)
    }

    /// The number of stored nodes, leaves and internal nodes together.
    pub fn len(&self) -> (n: usize)
        ensures
            n == self.store().len(),
    {
        self.tree.len()
    }

    /// Every stored node is met on a way down from the root.
    pub proof fn lemma_all_reachable(&self, k: Seq<char>)
        requires
            self.wf(),
            self.store().contains_key(k),
        ensures
            self@ is Some,
            self.root_key() == Some(self@->0.key()),
            reaches(self.store(), self@->0.key(), k, self@->0.height()),
    {
        lemma_reachable(self.store(), self@->0, None, k);
    }

    /// Takes the leaf `name` out. A leaf that is the whole tree leaves the
    /// index empty. Otherwise its sibling takes the place of their parent:
    /// under the grandparent, in the slot that named the parent, or as the
    /// new root; leaf and parent leave the store, and no divider changes.
    /// A name under which no leaf is stored is refused and nothing changes.
    pub fn remove(&mut self, name: &str) -> (res: Result<(), KdError>)
        requires
            old(self).wf(),
        ensures
            final(self).wf(),
            res is Ok <==> old(self).has_name(name@),
            match res {
                Ok(_) => {
                    &&& old(self)@ is Some
                    &&& final(self)@ == (if old(self)@->0 is Leaf {
                        None::<Shape>
                    } else {
                        Some(old(self)@->0.without(name@))
                    })
                    &&& final(self)@ is None <==> old(self).size() == 1
                    &&& final(self).size() == old(self).size() - 1
                    &&& forall|n: Seq<char>, x: int, y: int| #[trigger]
                        final(self).has_leaf(n, x, y) <==> old(self).has_leaf(n, x, y) && n
                            != name@
                },
                Err(e) => {
                    &&& e == KdError::NotFound
                    &&& final(self)@ == old(self)@
                    &&& final(self).store() == old(self).store()
                    &&& final(self).root_key() == old(self).root_key()
                },
            },
    {
        let ghost m = self.tree@;
        proof {
            if self.shape@ is Some {
                let s = self.shape@->0;
                if s.has_name(name@) {
                    lemma_name_is_key(s, name@);
                }
                if s.has_key(name@) {
                    lemma_leaf_keys(m, s, None, name@);
                }
            }
        }
        let parent_key: Option<String> = match self.tree.get(name) {
            None => {
                return Err(KdError::NotFound);
            },
            Some(Node::Internal(_)) => {
                return Err(KdError::NotFound);
            },
            Some(Node::Leaf(l)) => clone_key(&l.parent),
        };
        let ghost s = self.shape@->0;
        proof {
            lemma_parent_link(m, s, None, name@);
            lemma_single_leaf(s);
            if s is Inner {
                lemma_without_leaves(s, name@);
            }
        }
        match parent_key {
            None => {
                self.root = None;
                self.tree.remove(name);
                self.shape = Ghost(None);
                proof {
                    assert(s is Leaf);
                    assert(self.tree@ =~= Map::<Seq<char>, Node>::empty());
                }
                Ok(())
            },
            Some(pk) => {
                proof {
                    lemma_parent_link(m, s, None, pk@);
                    lemma_children_are_keys(m, s, None, pk@);
                }
                let name_owned = name.to_owned();
                let (replacement, grand): (String, Option<String>) = match self.tree.get(
                    pk.as_str(),
                ) {
                    Some(Node::Internal(p)) => {
                        let r = if name_owned == p.less {
                            p.more.clone()
                        } else {
                            p.less.clone()
                        };
                        (r, clone_key(&p.parent))
                    },
                    _ => unreached(),
                };
                let mut replacement_node = match self.tree.get(replacement.as_str()) {
                    Some(n) => n.duplicate(),
                    None => unreached(),
                };
                replacement_node.set_parent(clone_key(&grand));
                match grand {
                    None => {
                        self.root = Some(replacement.clone());
                        self.tree.insert(replacement.clone(), replacement_node);
                    },
                    Some(g) => {
                        let mut parent_parent = match self.tree.get(g.as_str()) {
                            Some(n) => n.duplicate(),
                            None => unreached(),
                        };
                        let parent_parent_in = parent_parent.internal_mut();
                        if pk == parent_parent_in.less {
                            parent_parent_in.less = replacement.clone();
                        } else {
                            parent_parent_in.more = replacement.clone();
                        }
                        self.tree.insert(replacement.clone(), replacement_node);
                        self.tree.insert(g, parent_parent);
                    },
                }
                self.tree.remove(name);
                self.tree.remove(pk.as_str());
                proof {
                    assert(relinked(m, self.tree@, name@, pk@, replacement@));
                    lemma_relinked(m, self.tree@, s, None, name@, pk@, replacement@);
                }
                self.shape = Ghost(Some(s.without(name@)));
                Ok(())
            },
        }
    }
}

} // verus!
