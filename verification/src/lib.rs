//! A character-indexed prefix tree (trie) over Unicode text.
//!
//! Keys are non-empty sequences of characters; each key carries a value.
//! The trie is the engine behind two tokenizers (see [`tokenizer`]): a
//! forward-maximum-match scanner and an all-match scanner.

use vstd::prelude::*;

pub mod tokenizer;

verus! {

use crate::tokenizer::all_next;
use crate::tokenizer::max_next;
use crate::tokenizer::AllTokenizer;
use crate::tokenizer::MaxFrontTokenizer;

pub type Tokenizer<'a, T> = crate::tokenizer::Tokenizer<'a, T>;

/// Number of slots of the dense child store: one per codepoint of the
/// Basic Multilingual Plane.
pub const BMP_SLOTS: usize = 65536;

/// Terminal status of a trie node.
///
/// `Not`: no key ends here. `End`: a key ends here and the node has
/// children. `LastEnd`: a key ends here and the node has no children.
#[derive(Clone, Copy, Debug, PartialEq, Eq, Structural)]
pub(crate) enum Status {
    Not,
    End,
    LastEnd,
}

/// Child collection of a node, under one of two storage strategies:
/// `Big` is a dense, codepoint-indexed array spanning the Basic
/// Multilingual Plane; `Small` is a compact list kept sorted by symbol
/// and searched by binary search.
#[derive(Debug)]
pub enum Leafs<T> {
    Big(Vec<Option<Trie<T>>>),
    Small(Vec<Trie<T>>),
}

/// A trie vertex: the character it stands for, its terminal status, the
/// value of the key ending here (if one does), and its children.
#[derive(Debug)]
pub struct Trie<T> {
    c: char,
    status: Status,
    value: Option<T>,
    leafs: Leafs<T>,
}

impl<T> Leafs<T> {
    /// Number of slots in the backing vector.
    pub closed spec fn spec_len(self) -> int {
        match self {
            Leafs::Big(v) => v@.len() as int,
            Leafs::Small(v) => v@.len() as int,
        }
    }

    /// Whether index `i` holds a child node.
    pub closed spec fn valid_idx(self, i: int) -> bool {
        match self {
            Leafs::Big(v) => 0 <= i < v@.len() && v@[i] is Some,
            Leafs::Small(v) => 0 <= i < v@.len(),
        }
    }

    /// The child node stored at index `i`.
    pub closed spec fn node_at(self, i: int) -> Trie<T>
        recommends
            self.valid_idx(i),
    {
        match self {
            Leafs::Big(v) => v@[i]->Some_0,
            Leafs::Small(v) => v@[i],
        }
    }

    /// The child node whose symbol is `c`, if one is stored.
    pub closed spec fn spec_child(self, c: char) -> Option<Trie<T>> {
        if exists|i: int| self.valid_idx(i) && self.node_at(i).c == c {
            Some(self.node_at(choose|i: int| self.valid_idx(i) && self.node_at(i).c == c))
        } else {
            None
        }
    }

    /// Whether the store reports itself childless. The dense store never
    /// does, whatever its slots hold.
    pub closed spec fn spec_is_empty(self) -> bool {
        match self {
            Leafs::Big(_) => false,
            Leafs::Small(v) => v@.len() == 0,
        }
    }

    /// Shape of the store alone: the dense array spans the whole plane and
    /// every occupied slot agrees with its node's symbol; the sparse list
    /// is strictly sorted by symbol.
    pub closed spec fn shape_wf(self) -> bool {
        match self {
            Leafs::Big(v) => v@.len() == BMP_SLOTS as int && (forall|i: int|
                0 <= i < v@.len() && #[trigger] v@[i] is Some ==> v@[i]->Some_0.c as int == i),
            Leafs::Small(v) => forall|i: int, j: int|
                0 <= i < j < v@.len() ==> ((#[trigger] v@[i]).c as u32) < ((#[trigger] v@[j]).c as u32),
        }
    }

    /// Full well-formedness: a sound shape, and every stored child is
    /// itself well-formed and sparse (only a root may be dense).
    pub closed spec fn wf(self) -> bool
        decreases self,
    {
        self.shape_wf() && match self {
            Leafs::Big(v) => forall|i: int|
                0 <= i < v@.len() && #[trigger] v@[i] is Some ==> (v@[i]->Some_0.wf()
                    && !v@[i]->Some_0.is_big()),
            Leafs::Small(v) => forall|i: int|
                0 <= i < v@.len() ==> ((#[trigger] v@[i]).wf() && !v@[i].is_big()),
        }
    }
}

impl<T> Trie<T> {
    /// Node well-formedness: a value is stored iff the node is terminal,
    /// a terminal leaf has no children, a terminal with children has some,
    /// and the child store is well-formed.
    pub closed spec fn wf(self) -> bool
        decreases self,
    {
        &&& (self.value is Some <==> !(self.status is Not))
        &&& (self.status is LastEnd ==> self.leafs.spec_is_empty())
        &&& (self.status is End ==> !self.leafs.spec_is_empty())
        &&& self.leafs.wf()
    }

    /// The child of this node for character `c`, if any.
    pub closed spec fn spec_child(self, c: char) -> Option<Trie<T>> {
        self.leafs.spec_child(c)
    }

    /// The node reached from `self` by walking `key` one character at a
    /// time, if the whole walk succeeds.
    pub closed spec fn subtrie(self, key: Seq<char>) -> Option<Trie<T>>
        decreases key.len(),
    {
        if key.len() <= 0 {
            Some(self)
        } else {
            match self.spec_child(key[0]) {
                Some(child) => child.subtrie(key.skip(1)),
                None => None,
            }
        }
    }

    /// The value stored for `key`: present iff the walk reaches a node
    /// where some key ends. No partial-prefix value is ever produced.
    pub closed spec fn spec_get(self, key: Seq<char>) -> Option<T> {
        match self.subtrie(key) {
            Some(node) => if node.status is Not {
                None
            } else {
                node.value
            },
            None => None,
        }
    }

    /// The dictionary this trie stores, as a map from key to value.
    pub closed spec fn as_map(self) -> Map<Seq<char>, T> {
        Map::new(|k: Seq<char>| self.spec_get(k) is Some, |k: Seq<char>| self.spec_get(k)->Some_0)
    }

    /// Whether the root's child store is the dense variant.
    pub closed spec fn is_big(self) -> bool {
        self.leafs is Big
    }

    /// No value sits on the root itself (keys are non-empty).
    pub closed spec fn root_plain(self) -> bool {
        self.status is Not
    }

    /// Invariant of every trie reachable through the public constructors:
    /// well-formed with a bare root.
    pub open spec fn inv(self) -> bool {
        self.wf() && self.root_plain()
    }

    /// Keys a trie can accept on insertion: a dense root stores its
    /// children by codepoint, so the first character must fall inside the
    /// dense array's range.
    pub open spec fn key_fits(self, key: Seq<char>) -> bool {
        self.is_big() ==> (key.len() > 0 ==> (key[0] as int) < BMP_SLOTS as int)
    }
}

impl<T> View for Trie<T> {
    type V = Map<Seq<char>, T>;

    open spec fn view(&self) -> Map<Seq<char>, T> {
        self.as_map()
    }
}

impl<T> Leafs<T> {
    /// Where a child for `c` would have to be inserted so that lookups
    /// keep working: the codepoint itself for the dense store, the sorted
    /// position for the sparse one.
    pub closed spec fn ins_pt(self, i: int, c: char) -> bool {
        match self {
            Leafs::Big(v) => i == c as int,
            Leafs::Small(v) => 0 <= i <= v@.len() && (forall|j: int|
                0 <= j < i ==> ((#[trigger] v@[j]).c as u32) < (c as u32)) && (forall|j: int|
                i <= j < v@.len() ==> ((#[trigger] v@[j]).c as u32) > (c as u32)),
        }
    }

    /// Under a well-shaped store each symbol occupies at most one slot.
    proof fn lemma_idx_unique(self, i: int, j: int)
        requires
            self.shape_wf(),
            self.valid_idx(i),
            self.valid_idx(j),
            self.node_at(i).c == self.node_at(j).c,
        ensures
            i == j,
    {
        match self {
            Leafs::Big(v) => {
                assert(v@[i]->Some_0.c as int == i);
                assert(v@[j]->Some_0.c as int == j);
            },
            Leafs::Small(v) => {
                if i < j {
                    assert(((v@[i]).c as u32) < ((v@[j]).c as u32));
                } else if j < i {
                    assert(((v@[j]).c as u32) < ((v@[i]).c as u32));
                }
            },
        }
    }

    /// The stored child at slot `i` is exactly what lookup by its symbol
    /// finds.
    proof fn lemma_spec_child_at(self, i: int)
        requires
            self.shape_wf(),
            self.valid_idx(i),
        ensures
            self.spec_child(self.node_at(i).c) == Some(self.node_at(i)),
    {
        let c = self.node_at(i).c;
        assert(self.valid_idx(i) && self.node_at(i).c == c);
        let w = choose|j: int| self.valid_idx(j) && self.node_at(j).c == c;
        self.lemma_idx_unique(i, w);
    }

    /// Index of the child for `c`, or the insertion point for a new one.
    fn binary_search(&self, c: char) -> (r: Result<usize, usize>)
        requires
            self.shape_wf(),
        ensures
            match r {
                Ok(i) => self.valid_idx(i as int) && self.node_at(i as int).c == c
                    && self.spec_child(c) == Some(self.node_at(i as int)),
                Err(i) => self.spec_child(c) is None && self.ins_pt(i as int, c),
            },
    {
        match self {
            Leafs::Big(v) => {
                let index = (c as u32) as usize;
                if index < v.len() && v[index].is_some() {
                    proof {
                        self.lemma_spec_child_at(index as int);
                    }
                    Ok(index)
                } else {
                    proof {
                        assert forall|j: int|
                            self.valid_idx(j) implies self.node_at(j).c != c by {
                            assert(v@[j]->Some_0.c as int == j);
                        }
                    }
                    Err(index)
                }
            },
            Leafs::Small(v) => {
                let mut lo: usize = 0;
                let mut hi: usize = v.len();
                while lo < hi
                    invariant
                        lo <= hi <= v@.len(),
                        self.shape_wf(),
                        *self == Leafs::Small(*v),
                        forall|j: int| 0 <= j < lo ==> ((#[trigger] v@[j]).c as u32) < (c as u32),
                        forall|j: int|
                            hi <= j < v@.len() ==> ((#[trigger] v@[j]).c as u32) > (c as u32),
                    decreases hi - lo,
                {
                    let mid = lo + (hi - lo) / 2;
                    let mc = v[mid].c;
                    if mc == c {
                        proof {
                            self.lemma_spec_child_at(mid as int);
                        }
                        return Ok(mid);
                    }
                    if (mc as u32) < (c as u32) {
                        lo = mid + 1;
                    } else {
                        hi = mid;
                    }
                }
                Err(lo)
            },
        }
    }

    /// Whether no child is stored.
    fn is_empty(&self) -> (r: bool)
        ensures
            r == self.spec_is_empty(),
    {
        match self {
            Leafs::Big(_) => false,
            Leafs::Small(v) => v.len() == 0,
        }
    }

    /// Mutable access to the child at `index`; every other slot keeps its
    /// node.
    fn get_mut(&mut self, index: usize) -> (r: &mut Trie<T>)
        requires
            old(self).valid_idx(index as int),
        ensures
            *r == old(self).node_at(index as int),
            (*final(self) is Big <==> *old(self) is Big),
            final(self).spec_len() == old(self).spec_len(),
            forall|j: int| #[trigger] final(self).valid_idx(j) <==> old(self).valid_idx(j),
            forall|j: int|
                old(self).valid_idx(j) && j != index as int ==> #[trigger] final(self).node_at(j)
                    == old(self).node_at(j),
            final(self).node_at(index as int) == *final(r),
    {
        match self {
            Leafs::Big(v) => match &mut v[index] {
                Some(node) => node,
                None => vstd::pervasive::unreached(),
            },
            Leafs::Small(v) => &mut v[index],
        }
    }

    /// A sparse store stays sorted and gains exactly the fresh symbol when
    /// a node is inserted at its insertion point.
    proof fn lemma_small_insert(l1: Leafs<T>, l2: Leafs<T>, index: int, node: Trie<T>)
        requires
            l1 is Small,
            l2 is Small,
            l1.wf(),
            node.wf(),
            !node.is_big(),
            l1.ins_pt(index, node.c),
            l2->Small_0@ == l1->Small_0@.insert(index, node),
        ensures
            l2.wf(),
            !l2.spec_is_empty(),
            l2.valid_idx(index),
            l2.node_at(index) == node,
            forall|d: char| #[trigger] l2.spec_child(d) == (if d == node.c {
                Some(node)
            } else {
                l1.spec_child(d)
            }),
    {
        let s1 = l1->Small_0@;
        let s2 = l2->Small_0@;
        s1.insert_ensures(index, node);
        assert forall|i: int, j: int|
            0 <= i < j < s2.len() implies ((#[trigger] s2[i]).c as u32) < ((
        #[trigger] s2[j]).c as u32) by {
            if j < index {
                assert(s2[i] == s1[i] && s2[j] == s1[j]);
            } else if i > index {
                assert(s2[i] == s1[i - 1] && s2[j] == s1[j - 1]);
            } else if i < index && j > index {
                assert(s2[i] == s1[i] && s2[j] == s1[j - 1]);
            } else if i == index {
                assert(s2[j] == s1[j - 1]);
            } else if j == index {
                assert(s2[i] == s1[i]);
            }
        }
        assert forall|i: int| 0 <= i < s2.len() implies (#[trigger] s2[i]).wf() && !s2[i].is_big() by {
            if i < index {
                assert(s2[i] == s1[i]);
            } else if i > index {
                assert(s2[i] == s1[i - 1]);
            }
        }
        assert(l2.wf());
        assert forall|d: char| #[trigger] l2.spec_child(d) == (if d == node.c {
            Some(node)
        } else {
            l1.spec_child(d)
        }) by {
            l2.lemma_spec_child_at(index);
            if d != node.c {
                if exists|i: int| l1.valid_idx(i) && l1.node_at(i).c == d {
                    let i = choose|i: int| l1.valid_idx(i) && l1.node_at(i).c == d;
                    let i2 = if i < index {
                        i
                    } else {
                        i + 1
                    };
                    assert(l2.valid_idx(i2) && l2.node_at(i2) == l1.node_at(i));
                    l2.lemma_spec_child_at(i2);
                } else if exists|i: int| l2.valid_idx(i) && l2.node_at(i).c == d {
                    let i = choose|i: int| l2.valid_idx(i) && l2.node_at(i).c == d;
                    let i1 = if i < index {
                        i
                    } else {
                        i - 1
                    };
                    assert(l1.valid_idx(i1) && l1.node_at(i1) == l2.node_at(i));
                }
            }
        }
    }

    /// The dense store gains exactly the fresh symbol when its slot is
    /// filled.
    proof fn lemma_big_insert(l1: Leafs<T>, l2: Leafs<T>, index: int, node: Trie<T>)
        requires
            l1 is Big,
            l2 is Big,
            l1.wf(),
            node.wf(),
            !node.is_big(),
            index == node.c as int,
            0 <= index < l1->Big_0@.len(),
            l2->Big_0@ == l1->Big_0@.update(index, Some(node)),
        ensures
            l2.wf(),
            !l2.spec_is_empty(),
            l2.valid_idx(index),
            l2.node_at(index) == node,
            forall|d: char| #[trigger] l2.spec_child(d) == (if d == node.c {
                Some(node)
            } else {
                l1.spec_child(d)
            }),
    {
        assert(l2.wf());
        assert forall|d: char| #[trigger] l2.spec_child(d) == (if d == node.c {
            Some(node)
        } else {
            l1.spec_child(d)
        }) by {
            l2.lemma_spec_child_at(index);
            if d != node.c {
                if exists|i: int| l1.valid_idx(i) && l1.node_at(i).c == d {
                    let i = choose|i: int| l1.valid_idx(i) && l1.node_at(i).c == d;
                    assert(l2.valid_idx(i) && l2.node_at(i) == l1.node_at(i));
                    l2.lemma_spec_child_at(i);
                } else if exists|i: int| l2.valid_idx(i) && l2.node_at(i).c == d {
                    let i = choose|i: int| l2.valid_idx(i) && l2.node_at(i).c == d;
                    assert(l1.valid_idx(i) && l1.node_at(i) == l2.node_at(i));
                }
            }
        }
    }

    /// Store a fresh child node at `index`, the insertion point for its
    /// symbol; every other child stays where lookup finds it.
    fn insert(&mut self, index: usize, node: Trie<T>)
        requires
            old(self).wf(),
            node.wf(),
            !node.is_big(),
            old(self).ins_pt(index as int, node.c),
            *old(self) is Big ==> (index as int) < old(self).spec_len(),
        ensures
            final(self).wf(),
            (*final(self) is Big <==> *old(self) is Big),
            !final(self).spec_is_empty(),
            final(self).valid_idx(index as int),
            final(self).node_at(index as int) == node,
            forall|d: char| #[trigger] final(self).spec_child(d) == (if d == node.c {
                Some(node)
            } else {
                old(self).spec_child(d)
            }),
    {
        let ghost l1 = *self;
        match self {
            Leafs::Big(v) => {
                let slot = &mut v[index];
                *slot = Some(node);
            },
            Leafs::Small(v) => {
                v.insert(index, node);
            },
        }
        proof {
            if l1 is Big {
                Self::lemma_big_insert(l1, *self, index as int, node);
            } else {
                Self::lemma_small_insert(l1, *self, index as int, node);
            }
        }
    }

    /// A well-formed store holds only well-formed, sparse children.
    proof fn lemma_wf_node_at(self, i: int)
        requires
            self.wf(),
            self.valid_idx(i),
        ensures
            self.node_at(i).wf(),
            !self.node_at(i).is_big(),
    {
    }

    /// The child that lookup finds is well-formed and carries the symbol
    /// it was found under.
    proof fn lemma_wf_spec_child(self, c: char)
        requires
            self.wf(),
            self.spec_child(c) is Some,
        ensures
            self.spec_child(c)->Some_0.wf(),
            !self.spec_child(c)->Some_0.is_big(),
            self.spec_child(c)->Some_0.c == c,
    {
        let i = choose|i: int| self.valid_idx(i) && self.node_at(i).c == c;
        self.lemma_wf_node_at(i);
    }

    /// Replacing the child at one slot by a node of the same symbol
    /// changes lookup for that symbol alone.
    proof fn lemma_update(l1: Leafs<T>, l2: Leafs<T>, index: int)
        requires
            l1.wf(),
            l1.valid_idx(index),
            (l2 is Big <==> l1 is Big),
            l2.spec_len() == l1.spec_len(),
            forall|j: int| #[trigger] l2.valid_idx(j) <==> l1.valid_idx(j),
            forall|j: int|
                l1.valid_idx(j) && j != index ==> #[trigger] l2.node_at(j) == l1.node_at(j),
            l2.node_at(index).c == l1.node_at(index).c,
            l2.node_at(index).wf(),
            !l2.node_at(index).is_big(),
        ensures
            l2.wf(),
            l2.spec_is_empty() == l1.spec_is_empty(),
            forall|d: char| #[trigger] l2.spec_child(d) == (if d == l1.node_at(index).c {
                Some(l2.node_at(index))
            } else {
                l1.spec_child(d)
            }),
    {
        match (l1, l2) {
            (Leafs::Small(v1), Leafs::Small(v2)) => {
                assert(v2@.len() == v1@.len());
                assert forall|i: int| 0 <= i < v2@.len() && i != index implies v2@[i] == v1@[i] by {
                    assert(l1.valid_idx(i));
                    assert(l2.node_at(i) == l1.node_at(i));
                }
                assert(v2@[index].c == v1@[index].c);
                assert forall|i: int, j: int|
                    0 <= i < j < v2@.len() implies ((#[trigger] v2@[i]).c as u32) < ((
                #[trigger] v2@[j]).c as u32) by {
                    assert(((v1@[i]).c as u32) < ((v1@[j]).c as u32));
                }
                assert forall|i: int|
                    0 <= i < v2@.len() implies (#[trigger] v2@[i]).wf() && !v2@[i].is_big() by {
                    if i != index {
                        assert(v2@[i] == v1@[i]);
                        assert(v1@[i].wf() && !v1@[i].is_big());
                    }
                }
            },
            (Leafs::Big(v1), Leafs::Big(v2)) => {
                assert(v2@.len() == v1@.len());
                assert forall|i: int|
                    0 <= i < v2@.len() && #[trigger] v2@[i] is Some implies v2@[i]->Some_0.c as int
                    == i && v2@[i]->Some_0.wf() && !v2@[i]->Some_0.is_big() by {
                    assert(l2 == Leafs::Big(v2));
                    assert(l2.valid_idx(i));
                    assert(l1.valid_idx(i));
                    assert(v1@[i] is Some);
                    if i != index {
                        assert(l2.node_at(i) == l1.node_at(i));
                        assert(v1@[i]->Some_0.c as int == i);
                        assert(v1@[i]->Some_0.wf() && !v1@[i]->Some_0.is_big());
                    }
                }
            },
            _ => {},
        }
        assert(l2.wf());
        let c = l1.node_at(index).c;
        assert forall|d: char| #[trigger] l2.spec_child(d) == (if d == c {
            Some(l2.node_at(index))
        } else {
            l1.spec_child(d)
        }) by {
            l2.lemma_spec_child_at(index);
            if d != c {
                if exists|i: int| l1.valid_idx(i) && l1.node_at(i).c == d {
                    let i = choose|i: int| l1.valid_idx(i) && l1.node_at(i).c == d;
                    assert(l2.valid_idx(i) && l2.node_at(i) == l1.node_at(i));
                    l2.lemma_spec_child_at(i);
                } else if exists|i: int| l2.valid_idx(i) && l2.node_at(i).c == d {
                    let i = choose|i: int| l2.valid_idx(i) && l2.node_at(i).c == d;
                    assert(l1.valid_idx(i) && l1.node_at(i) == l2.node_at(i));
                }
            }
        }
    }

    /// The child at `index`, if that slot holds one.
    pub fn get(&self, index: usize) -> (r: Option<&Trie<T>>)
        ensures
            match r {
                Some(node) => self.valid_idx(index as int) && *node == self.node_at(index as int),
                None => !self.valid_idx(index as int),
            },
    {
        match self {
            Leafs::Big(v) => if index < v.len() {
                v[index].as_ref()
            } else {
                None
            },
            Leafs::Small(v) => if index < v.len() {
                Some(&v[index])
            } else {
                None
            },
        }
    }

    /// The child at `index`; the slot must hold one.
    pub fn get_uncheck(&self, index: usize) -> (r: &Trie<T>)
        requires
            self.valid_idx(index as int),
        ensures
            *r == self.node_at(index as int),
    {
        match self {
            Leafs::Big(v) => v[index].as_ref().unwrap(),
            Leafs::Small(v) => &v[index],
        }
    }
}

impl<T> Trie<T> {
    /// A fresh node for character `c`: not terminal, no value, no children.
    fn new(c: char) -> (r: Self)
        ensures
            r.wf(),
            !r.is_big(),
            r.c == c,
            r.status is Not,
            r.leafs.spec_is_empty(),
            forall|k: Seq<char>| #[trigger] r.spec_get(k) is None,
    {
        let r = Trie { c, status: Status::Not, value: None, leafs: Leafs::Small(Vec::new()) };
        proof {
            assert forall|k: Seq<char>| #[trigger] r.spec_get(k) is None by {
                if k.len() > 0 {
                    assert(forall|i: int| !r.leafs.valid_idx(i));
                    assert(r.spec_child(k[0]) is None);
                }
            }
        }
        r
    }

    /// One step of the walk: looking up a non-empty key goes through the
    /// child for its first character.
    proof fn lemma_spec_get_step(self, k: Seq<char>)
        requires
            k.len() > 0,
        ensures
            self.spec_get(k) == (match self.spec_child(k[0]) {
                Some(child) => child.spec_get(k.skip(1)),
                None => None::<T>,
            }),
    {
    }

    /// The child a well-formed node hands out is well-formed.
    proof fn lemma_child_wf(self, c: char)
        requires
            self.wf(),
            self.spec_child(c) is Some,
        ensures
            self.spec_child(c)->Some_0.wf(),
            !self.spec_child(c)->Some_0.is_big(),
            self.spec_child(c)->Some_0.c == c,
    {
        self.leafs.lemma_wf_spec_child(c);
    }

    /// Single-level lookup: the child of this node for character `c`.
    /// Building block for the tokenizers, which walk the text character by
    /// character against successive trie positions.
    pub fn char_get(&self, c: char) -> (r: Option<&Self>)
        requires
            self.wf(),
        ensures
            match r {
                Some(node) => self.spec_child(c) == Some(*node),
                None => self.spec_child(c) is None,
            },
    {
        match self.leafs.binary_search(c) {
            Ok(index) => self.leafs.get(index),
            Err(_) => None,
        }
    }

    /// A new trie with the dense root store: every slot of the Basic
    /// Multilingual Plane allocated up front. Bulk loading of a very large
    /// dictionary is fast at the price of a fixed memory footprint, and
    /// keys must start with a character of that plane.
    pub fn new_big() -> (r: Self)
        ensures
            r.inv(),
            r.is_big(),
            r@ == Map::<Seq<char>, T>::empty(),
    {
        let mut slots: Vec<Option<Trie<T>>> = Vec::new();
        while slots.len() < BMP_SLOTS
            invariant
                slots@.len() <= BMP_SLOTS as int,
                forall|i: int| 0 <= i < slots@.len() ==> (#[trigger] slots@[i]) is None,
            decreases BMP_SLOTS as int - slots@.len(),
        {
            slots.push(None);
        }
        let r = Trie { c: '\0', status: Status::Not, value: None, leafs: Leafs::Big(slots) };
        proof {
            assert forall|k: Seq<char>| #[trigger] r.spec_get(k) is None by {
                if k.len() > 0 {
                    assert(forall|i: int| !r.leafs.valid_idx(i));
                    assert(r.spec_child(k[0]) is None);
                }
            }
            assert(r.as_map() =~= Map::<Seq<char>, T>::empty());
        }
        r
    }

    /// Two non-empty keys that start alike and continue alike are alike.
    proof fn lemma_seq_head_tail(a: Seq<char>, b: Seq<char>)
        requires
            a.len() > 0,
            b.len() > 0,
            a[0] == b[0],
            a.skip(1) == b.skip(1),
        ensures
            a == b,
    {
        assert(a.skip(1).len() == a.len() - 1);
        assert(b.skip(1).len() == b.len() - 1);
        assert(a.len() == b.len());
        assert forall|j: int| 0 <= j < a.len() implies a[j] == b[j] by {
            if j > 0 {
                assert(a.skip(1)[j - 1] == a[j]);
                assert(b.skip(1)[j - 1] == b[j]);
            }
        }
        assert(a =~= b);
    }

    /// Walk `key` from character `i` on, creating missing nodes, promoting
    /// a terminal leaf the walk passes through (it is about to gain a
    /// child), and storing `value` on the final node. The stored mapping
    /// gains exactly the key's remaining suffix.
    fn inner_insert(&mut self, key: &str, i: usize, value: T)
        requires
            old(self).wf(),
            i <= key@.len(),
            old(self).is_big() ==> (i < key@.len() ==> (key@[i as int] as int) < BMP_SLOTS as int),
        ensures
            final(self).wf(),
            final(self).c == old(self).c,
            (final(self).is_big() <==> old(self).is_big()),
            (old(self).status is Not && i < key@.len()) ==> final(self).status is Not,
            forall|k: Seq<char>| #[trigger] final(self).spec_get(k) == (if k == key@.skip(i as int) {
                Some(value)
            } else {
                old(self).spec_get(k)
            }),
        decreases key@.len() - i,
    {
        let ghost t0 = *self;
        let len = key.unicode_len();
        if self.status == Status::LastEnd && i < len {
            self.status = Status::End;
        }
        if i == len {
            self.value = Some(value);
            if self.leafs.is_empty() {
                self.status = Status::LastEnd;
            } else {
                self.status = Status::End;
            }
            proof {
                let ghost suffix = key@.skip(i as int);
                assert(suffix =~= Seq::<char>::empty());
                assert(self.leafs == t0.leafs);
                assert forall|k: Seq<char>| #[trigger] self.spec_get(k) == (if k == suffix {
                    Some(value)
                } else {
                    t0.spec_get(k)
                }) by {
                    if k.len() == 0 {
                        assert(k =~= suffix);
                        assert(self.subtrie(k) == Some(*self));
                        assert(self.spec_get(k) == Some(value));
                    } else {
                        assert(k != suffix);
                        self.lemma_spec_get_step(k);
                        t0.lemma_spec_get_step(k);
                        assert(self.spec_child(k[0]) == t0.spec_child(k[0]));
                    }
                }
            }
        } else {
            let ghost suffix = key@.skip(i as int);
            let c = key.get_char(i);
            let ghost t1 = *self;
            let ghost mut fresh_spec: Trie<T> = vstd::pervasive::arbitrary();
            let ghost mut was_found: bool = false;
            let idx: usize;
            match self.leafs.binary_search(c) {
                Ok(j) => {
                    idx = j;
                    proof {
                        was_found = true;
                        fresh_spec = t1.leafs.node_at(j as int);
                    }
                },
                Err(j) => {
                    idx = j;
                    let fresh = Trie::new(c);
                    proof {
                        was_found = false;
                        fresh_spec = fresh;
                    }
                    self.leafs.insert(j, fresh);
                },
            }
            let ghost t2 = *self;
            proof {
                if was_found {
                    t2.leafs.lemma_wf_node_at(idx as int);
                }
                assert(t2.leafs.valid_idx(idx as int));
                assert(t2.leafs.node_at(idx as int) == fresh_spec);
                assert(fresh_spec.wf() && !fresh_spec.is_big() && fresh_spec.c == c);
            }
            let child = self.leafs.get_mut(idx);
            child.inner_insert(key, i + 1, value);
            proof {
                assert(self.status == t1.status && self.value == t1.value && self.c == t1.c);
                assert(!(t1.status is LastEnd));
                assert((t1.status is Not) <==> (t0.status is Not));
                assert(t1.value == t0.value && t1.leafs == t0.leafs && t1.c == t0.c);
                Leafs::lemma_update(t2.leafs, self.leafs, idx as int);
                assert(self.leafs.valid_idx(idx as int));
                assert(!self.leafs.spec_is_empty());
                assert(self.wf());
                let tail = key@.skip(i as int + 1);
                let ghost cf = self.leafs.node_at(idx as int);
                assert(suffix[0] == c);
                assert(suffix.skip(1) =~= tail);
                assert(suffix.len() > 0);
                assert forall|k: Seq<char>| #[trigger] self.spec_get(k) == (if k == suffix {
                    Some(value)
                } else {
                    t0.spec_get(k)
                }) by {
                    if k.len() == 0 {
                        assert(self.subtrie(k) == Some(*self));
                        assert(t0.subtrie(k) == Some(t0));
                        assert(self.spec_get(k) == t0.spec_get(k));
                    } else {
                        self.lemma_spec_get_step(k);
                        t0.lemma_spec_get_step(k);
                        if k[0] == c {
                            assert(self.spec_child(c) == Some(cf));
                            assert(cf.spec_get(k.skip(1)) == (if k.skip(1) == tail {
                                Some(value)
                            } else {
                                fresh_spec.spec_get(k.skip(1))
                            }));
                            if k == suffix {
                                assert(k.skip(1) =~= tail);
                            } else {
                                assert(k.skip(1) != tail) by {
                                    if k.skip(1) == tail {
                                        Self::lemma_seq_head_tail(k, suffix);
                                    }
                                }
                                if was_found {
                                    assert(t0.spec_child(c) == Some(fresh_spec));
                                } else {
                                    assert(t0.spec_child(c) is None);
                                    assert(fresh_spec.spec_get(k.skip(1)) is None);
                                }
                            }
                        } else {
                            assert(k != suffix);
                            assert(self.leafs.spec_child(k[0]) == t2.leafs.spec_child(k[0]));
                            assert(t2.leafs.spec_child(k[0]) == t1.leafs.spec_child(k[0]));
                            assert(self.spec_child(k[0]) == t0.spec_child(k[0]));
                        }
                    }
                }
            }
        }
    }

    /// Extending a walk by one character goes through the reached node's
    /// child for it.
    pub(crate) proof fn lemma_subtrie_extend(self, k: Seq<char>, c: char)
        ensures
            self.subtrie(k.push(c)) == (match self.subtrie(k) {
                Some(node) => node.spec_child(c),
                None => None::<Trie<T>>,
            }),
        decreases k.len(),
    {
        if k.len() == 0 {
            assert(k.push(c)[0] == c);
            assert(k.push(c).skip(1) =~= Seq::<char>::empty());
            match self.spec_child(c) {
                Some(child) => {
                    assert(child.subtrie(k.push(c).skip(1)) == Some(child));
                },
                None => {},
            }
        } else {
            assert(k.push(c)[0] == k[0]);
            assert(k.push(c).skip(1) =~= k.skip(1).push(c));
            match self.spec_child(k[0]) {
                Some(child) => {
                    child.lemma_subtrie_extend(k.skip(1), c);
                },
                None => {},
            }
        }
    }

    /// A walk along a concatenation is the two walks one after the other.
    pub(crate) proof fn lemma_subtrie_concat(self, k1: Seq<char>, k2: Seq<char>)
        ensures
            self.subtrie(k1 + k2) == (match self.subtrie(k1) {
                Some(node) => node.subtrie(k2),
                None => None::<Trie<T>>,
            }),
        decreases k1.len(),
    {
        if k1.len() == 0 {
            assert(k1 + k2 =~= k2);
        } else {
            assert((k1 + k2)[0] == k1[0]);
            assert((k1 + k2).skip(1) =~= k1.skip(1) + k2);
            match self.spec_child(k1[0]) {
                Some(child) => {
                    child.lemma_subtrie_concat(k1.skip(1), k2);
                },
                None => {},
            }
        }
    }

    /// Once a walk has died on a prefix, every extension dies too.
    pub(crate) proof fn lemma_subtrie_dead(self, k1: Seq<char>, k2: Seq<char>)
        requires
            self.subtrie(k1) is None,
            k1.is_prefix_of(k2),
        ensures
            self.subtrie(k2) is None,
    {
        assert(k2 =~= k1 + k2.skip(k1.len() as int));
        self.lemma_subtrie_concat(k1, k2.skip(k1.len() as int));
    }

    /// Every node a walk from a well-formed node reaches is well-formed.
    pub(crate) proof fn lemma_subtrie_wf(self, k: Seq<char>)
        requires
            self.wf(),
            self.subtrie(k) is Some,
        ensures
            self.subtrie(k)->Some_0.wf(),
        decreases k.len(),
    {
        if k.len() > 0 {
            self.lemma_child_wf(k[0]);
            self.spec_child(k[0])->Some_0.lemma_subtrie_wf(k.skip(1));
        }
    }

    /// Below a childless node no key is stored: a walk that would go
    /// further dies.
    pub(crate) proof fn lemma_leaf_dead(self, k1: Seq<char>, k2: Seq<char>)
        requires
            self.subtrie(k1) is Some,
            self.subtrie(k1)->Some_0.leafs.spec_is_empty(),
            k1.is_prefix_of(k2),
            k1.len() < k2.len(),
        ensures
            self.subtrie(k2) is None,
    {
        let rest = k2.skip(k1.len() as int);
        assert(k2 =~= k1 + rest);
        self.lemma_subtrie_concat(k1, rest);
        let node = self.subtrie(k1)->Some_0;
        assert(rest.len() > 0);
        assert(forall|i: int| !node.leafs.valid_idx(i));
        assert(node.spec_child(rest[0]) is None);
    }

    /// The empty walk stays put.
    pub(crate) proof fn lemma_subtrie_empty(self, k: Seq<char>)
        requires
            k.len() == 0,
        ensures
            self.subtrie(k) == Some(self),
    {
    }

    /// What the walk shows is what the dictionary stores: the node a key
    /// reaches decides membership, and its value is the entry's value.
    pub(crate) proof fn lemma_map_at(self, k: Seq<char>, node: Trie<T>)
        requires
            self.wf(),
            self.subtrie(k) == Some(node),
        ensures
            self.as_map().contains_key(k) <==> !(node.status is Not),
            !(node.status is Not) ==> node.value is Some && self.as_map()[k] == node.value->Some_0,
    {
        self.lemma_subtrie_wf(k);
    }

    /// No key extends a prefix on which the walk has died.
    pub(crate) proof fn lemma_no_key_beyond_dead(self, k1: Seq<char>, k2: Seq<char>)
        requires
            self.subtrie(k1) is None,
            k1.is_prefix_of(k2),
        ensures
            !self.as_map().contains_key(k2),
    {
        self.lemma_subtrie_dead(k1, k2);
    }

    /// No key extends past a terminal leaf: it has no children to walk
    /// into.
    pub(crate) proof fn lemma_no_key_beyond_leaf(self, k1: Seq<char>, k2: Seq<char>, node: Trie<T>)
        requires
            self.wf(),
            self.subtrie(k1) == Some(node),
            node.status is LastEnd,
            k1.is_prefix_of(k2),
            k1.len() < k2.len(),
        ensures
            !self.as_map().contains_key(k2),
    {
        self.lemma_subtrie_wf(k1);
        self.lemma_leaf_dead(k1, k2);
    }

    /// Walk all of `key` from this node: the node reached, if the walk
    /// stays inside the tree.
    fn inner_get(&self, key: &str) -> (r: Option<&Self>)
        requires
            self.wf(),
        ensures
            match r {
                Some(node) => self.subtrie(key@) == Some(*node),
                None => self.subtrie(key@) is None,
            },
    {
        let len = key.unicode_len();
        let mut node = self;
        let mut i: usize = 0;
        while i < len
            invariant
                self.wf(),
                i <= len,
                len == key@.len(),
                self.subtrie(key@.subrange(0, i as int)) == Some(*node),
                node.wf(),
            decreases len - i,
    {
            let c = key.get_char(i);
            let ghost pre = key@.subrange(0, i as int);
            match node.leafs.binary_search(c) {
                Ok(index) => {
                    proof {
                        assert(pre.push(c) =~= key@.subrange(0, i as int + 1));
                        self.lemma_subtrie_extend(pre, c);
                        node.lemma_child_wf(c);
                    }
                    node = node.leafs.get_uncheck(index);
                    i += 1;
                },
                Err(_) => {
                    proof {
                        assert(pre.push(c) =~= key@.subrange(0, i as int + 1));
                        self.lemma_subtrie_extend(pre, c);
                        assert(key@.subrange(0, i as int + 1).is_prefix_of(key@));
                        self.lemma_subtrie_dead(key@.subrange(0, i as int + 1), key@);
                    }
                    return None;
                },
            }
        }
        proof {
            assert(key@.subrange(0, len as int) =~= key@);
        }
        Some(node)
    }

    /// Look `key` up: its stored value exactly when the key is in the
    /// dictionary; `None` for an empty key, a missing key, or a bare
    /// prefix of inserted keys.
    pub fn get(&self, key: &str) -> (r: Option<&T>)
        requires
            self.inv(),
        ensures
            match r {
                Some(v) => self@.contains_key(key@) && *v == self@[key@],
                None => !self@.contains_key(key@),
            },
    {
        if key.is_empty() {
            proof {
                assert(self.subtrie(key@) == Some(*self));
            }
            return None;
        }
        match self.inner_get(key) {
            Some(node) => {
                proof {
                    self.lemma_subtrie_wf(key@);
                }
                if node.status == Status::End || node.status == Status::LastEnd {
                    proof {
                        assert(self.spec_get(key@) == node.value);
                        assert(self@.contains_key(key@));
                        assert(self@[key@] == node.value->Some_0);
                    }
                    node.value.as_ref()
                } else {
                    None
                }
            },
            None => None,
        }
    }

    /// Insert `key` with `value`: the stored dictionary gains exactly that
    /// entry, overwriting the value of a repeated key. An empty key is a
    /// no-op.
    pub fn insert(&mut self, key: &str, value: T)
        requires
            old(self).inv(),
            old(self).key_fits(key@),
        ensures
            final(self).inv(),
            final(self).is_big() == old(self).is_big(),
            key@.len() == 0 ==> *final(self) == *old(self),
            key@.len() > 0 ==> final(self)@ == old(self)@.insert(key@, value),
    {
        if key.is_empty() {
            return ;
        }
        self.inner_insert(key, 0, value);
        proof {
            assert(key@.skip(0) =~= key@);
            assert(self.as_map() =~= old(self).as_map().insert(key@, value));
        }
    }

    /// Scan `text` under the all-match policy: every dictionary entry
    /// found in it, overlapping and nested ones included.
    pub fn iter_all<'a>(&'a self, text: &'a str) -> (r: AllTokenizer<'a, T>)
        requires
            self.inv(),
        ensures
            r.wf(),
            r.dict() == self.as_map(),
            r.text_view() == text@,
            r.anchor() == 0,
            r.scan_end() == 0,
    {
        AllTokenizer::new(self, text)
    }

    /// Scan `text` under the forward-maximum-match policy: at each
    /// position the longest entry starting there, without overlaps.
    pub fn iter_max<'a>(&'a self, text: &'a str) -> (r: MaxFrontTokenizer<'a, T>)
        requires
            self.inv(),
        ensures
            r.wf(),
            r.dict() == self.as_map(),
            r.text_view() == text@,
            r.cursor() == 0,
    {
        MaxFrontTokenizer::new(self, text)
    }
}

/// Round trip: inserting a key makes the dictionary map it to the new
/// value and leaves every other key exactly as it was — present with its
/// old value, or absent. With [`Trie::insert`] and [`Trie::get`] both
/// stated over the dictionary map, a `get` right after an `insert`
/// returns the inserted value, and a key never inserted stays unfound.
pub proof fn lemma_round_trip<T>(m: Map<Seq<char>, T>, key: Seq<char>, value: T, other: Seq<char>)
    ensures
        m.insert(key, value).contains_key(key),
        m.insert(key, value)[key] == value,
        other != key ==> (m.insert(key, value).contains_key(other) <==> m.contains_key(other)),
        other != key && m.contains_key(other) ==> m.insert(key, value)[other] == m[other],
{
}

/// Prefix non-leakage: inserting a key never turns a bare proper prefix
/// of it into a dictionary entry; a prefix is found only if it was
/// inserted on its own.
pub proof fn lemma_prefix_non_leakage<T>(
    m: Map<Seq<char>, T>,
    key: Seq<char>,
    value: T,
    prefix: Seq<char>,
)
    requires
        prefix.len() < key.len(),
    ensures
        m.insert(key, value).contains_key(prefix) <==> m.contains_key(prefix),
{
}

/// Promotion: inserting a longer key that extends an already stored one
/// keeps the shorter entry intact, and both are found afterwards.
pub proof fn lemma_promotion<T>(
    m: Map<Seq<char>, T>,
    shorter: Seq<char>,
    longer: Seq<char>,
    v1: T,
    v2: T,
)
    requires
        shorter.len() < longer.len(),
    ensures
        m.insert(shorter, v1).insert(longer, v2).contains_key(shorter),
        m.insert(shorter, v1).insert(longer, v2)[shorter] == v1,
        m.insert(shorter, v1).insert(longer, v2).contains_key(longer),
        m.insert(shorter, v1).insert(longer, v2)[longer] == v2,
{
}

/// Dense and sparse storage are interchangeable: `get` and both token
/// streams are stated over the stored dictionary alone, so two tries
/// holding the same entries — whichever store backs their roots — agree
/// on every lookup and on every token either scanner produces.
pub proof fn lemma_store_equivalence<T>(a: Trie<T>, b: Trie<T>, text: Seq<char>, s: int, e: int)
    requires
        a.as_map() == b.as_map(),
    ensures
        forall|k: Seq<char>| #[trigger] a.as_map().contains_key(k) <==> b.as_map().contains_key(k),
        forall|k: Seq<char>|
            a.as_map().contains_key(k) ==> #[trigger] a.as_map()[k] == b.as_map()[k],
        max_next(a.as_map(), text, s) == max_next(b.as_map(), text, s),
        all_next(a.as_map(), text, s, e) == all_next(b.as_map(), text, s, e),
{
}

impl<T> Default for Trie<T> {
    /// An empty trie with the space-efficient sparse root.
    fn default() -> (r: Self)
        ensures
            r.inv(),
            !r.is_big(),
            r@ == Map::<Seq<char>, T>::empty(),
    {
        let r = Trie::new('\0');
        proof {
            assert(r.as_map() =~= Map::<Seq<char>, T>::empty());
        }
        r
    }
}

} // verus!
