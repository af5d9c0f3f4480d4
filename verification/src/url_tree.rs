//! A trie over URL path segments with a wildcard token, supporting
//! longest-match lookup with wildcard fallback.
//!
//! Insertion splits a path on `'/'` and turns every empty piece into the
//! wildcard segment `*`, so a trailing slash binds the value to a wildcard
//! child that matches any suffix. Lookup splits the query without that
//! substitution, follows children by exact segment first and by `*` second,
//! and returns the deepest value found along the way.

use vstd::prelude::*;
use crate::text::{spec_split, str_eq, split_char};

verus! {

/// One trie node: its fixed segment, an optional stored value, and children.
pub struct Node<T> {
    pub path: String,
    pub data: Option<T>,
    pub next: Vec<Node<T>>,
}

/// An insert segment: empty pieces of a split path become the wildcard.
pub open spec fn subst_seg(s: Seq<char>) -> Seq<char> {
    if s.len() == 0 {
        "*"@
    } else {
        s
    }
}

/// Insert segments for a list of query segments.
pub open spec fn subst_segs(qs: Seq<Seq<char>>) -> Seq<Seq<char>> {
    qs.map_values(|s: Seq<char>| subst_seg(s))
}

/// The segment list an insert walks for a non-empty path.
pub open spec fn spec_insert_segs(p: Seq<char>) -> Seq<Seq<char>> {
    subst_segs(spec_split(p, '/'))
}

/// The views of a reversed segment vector, in walk order. The executable
/// functions take their segments reversed and pop from the back, so the
/// walk order is the reverse of the vector.
pub open spec fn rev_views(ps: Seq<&str>) -> Seq<Seq<char>> {
    Seq::new(ps.len(), |i: int| ps[ps.len() - 1 - i]@)
}

impl<T> Node<T> {
    /// The index of the first child whose segment is `seg`, or `-1`.
    pub open spec fn spec_child_index(children: Seq<Node<T>>, seg: Seq<char>) -> int
        decreases children.len(),
    {
        if children.len() == 0 {
            -1
        } else if children[0].path@ == seg {
            0
        } else {
            let r = Self::spec_child_index(children.drop_first(), seg);
            if r < 0 {
                -1
            } else {
                r + 1
            }
        }
    }

    pub proof fn lemma_child_index_props(children: Seq<Node<T>>, seg: Seq<char>)
        ensures
            ({
                let i = Self::spec_child_index(children, seg);
                &&& i >= 0 ==> i < children.len() && children[i].path@ == seg && (forall|j: int|
                    0 <= j < i ==> children[j].path@ != seg)
                &&& i < 0 ==> (forall|j: int| 0 <= j < children.len() ==> children[j].path@ != seg)
            }),
        decreases children.len(),
    {
        if children.len() > 0 && children[0].path@ != seg {
            Self::lemma_child_index_props(children.drop_first(), seg);
            assert(forall|j: int| 1 <= j < children.len() ==> children[j]
                == children.drop_first()[j - 1]);
        }
    }

    /// A witness at `j`, with everything before it missing, pins the index.
    pub proof fn lemma_child_index_at(children: Seq<Node<T>>, seg: Seq<char>, j: int)
        requires
            0 <= j < children.len(),
            children[j].path@ == seg,
            forall|m: int| 0 <= m < j ==> children[m].path@ != seg,
        ensures
            Self::spec_child_index(children, seg) == j,
    {
        Self::lemma_child_index_props(children, seg);
    }

    pub proof fn lemma_child_index_none(children: Seq<Node<T>>, seg: Seq<char>)
        requires
            forall|m: int| 0 <= m < children.len() ==> children[m].path@ != seg,
        ensures
            Self::spec_child_index(children, seg) == -1,
    {
        Self::lemma_child_index_props(children, seg);
    }

    /// What a lookup returns: the walk consumes `qs` from the front; a node
    /// whose segment is `*` matches any query segment, otherwise the
    /// segments must be equal or the node's own value answers. Descent
    /// prefers the exactly-named child and falls back to the `*` child; a
    /// value found deeper wins over this node's value.
    pub open spec fn spec_find(self, qs: Seq<Seq<char>>) -> Option<T>
        decreases qs.len(),
    {
        if qs.len() == 0 {
            None
        } else if self.path@ == "*"@ || qs.first() == self.path@ {
            let rest = qs.drop_first();
            let deeper = if rest.len() > 0 {
                let i = Self::spec_child_index(self.next@, rest.first());
                if i >= 0 {
                    self.next@[i].spec_find(rest)
                } else {
                    let w = Self::spec_child_index(self.next@, "*"@);
                    if w >= 0 {
                        self.next@[w].spec_find(rest)
                    } else {
                        None
                    }
                }
            } else {
                None
            };
            if deeper is Some {
                deeper
            } else {
                self.data
            }
        } else {
            self.data
        }
    }

    /// An insert fails only at its first segment, when the node's segment is
    /// already fixed to something else.
    pub open spec fn spec_conflicts(self, segs: Seq<Seq<char>>) -> bool {
        segs.len() > 0 && self.path@.len() > 0 && self.path@ != segs.first()
    }

    /// The branch a successful insert builds below a freshly created child.
    pub open spec fn is_fresh_chain(segs: Seq<Seq<char>>, data: T, node: Node<T>) -> bool
        decreases segs.len(),
    {
        &&& segs.len() > 0
        &&& node.path@ == segs.first()
        &&& if segs.len() == 1 {
            node.data == Some(data) && node.next@.len() == 0
        } else {
            node.data is None && node.next@.len() == 1 && Self::is_fresh_chain(
                segs.drop_first(),
                data,
                node.next@[0],
            )
        }
    }

    /// How a successful insert of `segs` relates the tree before and after:
    /// the walked nodes keep everything but the updated slot, the terminal
    /// node receives the value, and a missing child grows a fresh branch at
    /// the end of its parent's child list.
    pub open spec fn is_inserted(pre: Node<T>, segs: Seq<Seq<char>>, data: T, post: Node<T>) -> bool
        decreases segs.len(),
    {
        if segs.len() == 0 {
            post == pre
        } else {
            let s0 = segs.first();
            &&& (pre.path@.len() == 0 || pre.path@ == s0)
            &&& post.path@ == s0
            &&& if segs.len() == 1 {
                post.data == Some(data) && post.next == pre.next
            } else {
                let nq = segs[1];
                let i = Self::spec_child_index(pre.next@, nq);
                &&& post.data == pre.data
                &&& if i >= 0 {
                    &&& post.next@.len() == pre.next@.len()
                    &&& (forall|j: int|
                        0 <= j < pre.next@.len() && j != i ==> post.next@[j] == pre.next@[j])
                    &&& Self::is_inserted(pre.next@[i], segs.drop_first(), data, post.next@[i])
                } else {
                    &&& post.next@.len() == pre.next@.len() + 1
                    &&& (forall|j: int|
                        0 <= j < pre.next@.len() ==> post.next@[j] == pre.next@[j])
                    &&& Self::is_fresh_chain(segs.drop_first(), data, post.next@[
                        pre.next@.len() as int
                    ])
                }
            }
        }
    }

    /// An insert into a blank node always succeeds and builds a fresh branch.
    proof fn lemma_inserted_into_blank(pre: Node<T>, segs: Seq<Seq<char>>, data: T, post: Node<T>)
        requires
            pre.path@.len() == 0,
            pre.data is None,
            pre.next@.len() == 0,
            segs.len() > 0,
            Self::is_inserted(pre, segs, data, post),
        ensures
            Self::is_fresh_chain(segs, data, post),
    {
        if segs.len() > 1 {
            assert(Self::spec_child_index(pre.next@, segs[1]) == -1);
        }
    }

    /// A node with no segment, no value and no children.
    pub fn empty() -> (n: Node<T>)
        ensures
            n.path@.len() == 0,
            n.data is None,
            n.next@.len() == 0,
            n.clean(),
    {
        Node { path: String::new(), data: None, next: Vec::new() }
    }

    /// The first child carrying `seg`, by linear search.
    fn child_search(&self, seg: &str) -> (r: Option<usize>)
        ensures
            match r {
                Some(j) => j < self.next@.len() && Self::spec_child_index(self.next@, seg@)
                    == j as int,
                None => Self::spec_child_index(self.next@, seg@) == -1,
            },
    {
        let mut j: usize = 0;
        while j < self.next.len()
            invariant
                0 <= j <= self.next@.len(),
                forall|m: int| 0 <= m < j ==> self.next@[m].path@ != seg@,
            decreases self.next@.len() - j,
        {
            if str_eq(self.next[j].path.as_str(), seg) {
                proof {
                    Self::lemma_child_index_at(self.next@, seg@, j as int);
                }
                return Some(j);
            }
            j += 1;
        }
        proof {
            Self::lemma_child_index_none(self.next@, seg@);
        }
        None
    }

    /// Installs `data` at the end of the reversed segment walk `ps`,
    /// creating nodes as needed. Returns false, leaving the tree unchanged,
    /// exactly when the first segment contradicts this node's fixed segment.
    pub fn insert(&mut self, ps: Vec<&str>, data: T) -> (ok: bool)
        ensures
            ok == !old(self).spec_conflicts(rev_views(ps@)),
            ok ==> Self::is_inserted(*old(self), rev_views(ps@), data, *final(self)),
            !ok ==> *final(self) == *old(self),
        decreases ps@.len(),
    {
        let ghost segs = rev_views(ps@);
        let mut ps = ps;
        let seg = match ps.pop() {
            None => {
                return true;
            },
            Some(s) => s,
        };
        proof {
            assert(segs.first() == seg@);
        }
        if self.path.as_str().is_empty() {
            self.path = seg.to_owned();
        } else if str_eq(self.path.as_str(), seg) {
        } else {
            return false;
        }
        if ps.len() == 0 {
            self.data = Some(data);
            return true;
        }
        proof {
            assert(rev_views(ps@) =~= segs.drop_first());
            assert(segs[1] == ps@[ps@.len() - 1]@);
        }
        let nxt = ps[ps.len() - 1];
        match self.child_search(nxt) {
            Some(j) => {
                let ghost pre_next = self.next@;
                proof {
                    Self::lemma_child_index_props(pre_next, nxt@);
                }
                let mut child = self.next.remove(j);
                let child_ok = child.insert(ps, data);
                self.next.insert(j, child);
                proof {
                    assert(child_ok);
                    assert(self.next@ =~= pre_next.update(j as int, child));
                }
                true
            },
            None => {
                let mut child = Node::empty();
                let ghost blank = child;
                let child_ok = child.insert(ps, data);
                proof {
                    assert(child_ok);
                    Self::lemma_inserted_into_blank(blank, segs.drop_first(), data, child);
                }
                self.next.push(child);
                true
            },
        }
    }

    /// The lookup over a reversed segment walk; see `spec_find`.
    pub fn find(&self, ps: Vec<&str>) -> (r: Option<&T>)
        ensures
            (match r {
                Some(v) => self.spec_find(rev_views(ps@)) == Some(*v),
                None => self.spec_find(rev_views(ps@)) is None,
            }),
        decreases ps@.len(),
    {
        let ghost qs = rev_views(ps@);
        let mut ps = ps;
        let seg = match ps.pop() {
            None => {
                return None;
            },
            Some(s) => s,
        };
        proof {
            assert(qs.first() == seg@);
        }
        if str_eq(self.path.as_str(), "*") {
        } else if !str_eq(seg, self.path.as_str()) {
            return self.data.as_ref();
        }
        proof {
            assert(rev_views(ps@) =~= qs.drop_first());
        }
        if ps.len() > 0 {
            proof {
                assert(qs.drop_first().first() == ps@[ps@.len() - 1]@);
            }
            let nxt = ps[ps.len() - 1];
            match self.child_search(nxt) {
                Some(j) => {
                    let res = self.next[j].find(ps);
                    if res.is_some() {
                        return res;
                    }
                },
                None => {
                    match self.child_search("*") {
                        Some(w) => {
                            let res = self.next[w].find(ps);
                            if res.is_some() {
                                return res;
                            }
                        },
                        None => {},
                    }
                },
            }
        }
        self.data.as_ref()
    }

    /// Splits `path` on `'/'`, turns empty pieces into `*`, and installs
    /// `data` at the end of that walk. The empty path stores the value at
    /// this node itself. Returns false, leaving the tree unchanged, exactly
    /// when the first segment contradicts this node's fixed segment.
    pub fn insert_path(&mut self, path: &str, data: T) -> (ok: bool)
        ensures
            path@.len() == 0 ==> ok && final(self).path == old(self).path && final(self).data
                == Some(data) && final(self).next == old(self).next,
            path@.len() > 0 ==> ok == !old(self).spec_conflicts(spec_insert_segs(path@)),
            path@.len() > 0 && ok ==> Self::is_inserted(
                *old(self),
                spec_insert_segs(path@),
                data,
                *final(self),
            ),
            !ok ==> *final(self) == *old(self),
    {
        if path.is_empty() {
            self.data = Some(data);
            return true;
        }
        let pieces = split_char(path, '/');
        let mut ps: Vec<&str> = Vec::new();
        let mut k = pieces.len();
        while k > 0
            invariant
                k <= pieces@.len(),
                ps@.len() == pieces@.len() - k,
                forall|m: int| 0 <= m < ps@.len() ==> ps@[m]@ == subst_seg(
                    pieces@[pieces@.len() - 1 - m]@,
                ),
            decreases k,
    {
            k -= 1;
            let piece = pieces[k];
            if piece.is_empty() {
                ps.push("*");
            } else {
                ps.push(piece);
            }
        }
        proof {
            assert(rev_views(ps@) =~= spec_insert_segs(path@));
        }
        self.insert(ps, data)
    }

    /// Splits `path` on `'/'` without substitution and looks the walk up.
    pub fn find_by_path(&self, path: &str) -> (r: Option<&T>)
        ensures
            (match r {
                Some(v) => self.spec_find(spec_split(path@, '/')) == Some(*v),
                None => self.spec_find(spec_split(path@, '/')) is None,
            }),
    {
        let pieces = split_char(path, '/');
        let mut ps: Vec<&str> = Vec::new();
        let mut k = pieces.len();
        while k > 0
            invariant
                k <= pieces@.len(),
                ps@.len() == pieces@.len() - k,
                forall|m: int| 0 <= m < ps@.len() ==> ps@[m]@ == pieces@[pieces@.len() - 1 - m]@,
            decreases k,
        {
            k -= 1;
            let piece = pieces[k];
            ps.push(piece);
        }
        proof {
            assert(rev_views(ps@) =~= spec_split(path@, '/'));
        }
        self.find(ps)
    }
}

impl<T> Node<T> {
    /// No node along the walk of `qs` has a child with an empty segment.
    /// Inserted segments are never empty, but a raw query can contain empty
    /// pieces; this keeps the lookup's exact-child step from being captured
    /// by an empty-segment child where the insert used the wildcard.
    pub open spec fn admits_path(self, qs: Seq<Seq<char>>) -> bool
        decreases qs.len(),
    {
        if qs.len() <= 1 {
            true
        } else {
            let nq = qs[1];
            let i = Self::spec_child_index(self.next@, subst_seg(nq));
            &&& (nq.len() == 0 ==> Self::spec_child_index(self.next@, Seq::<char>::empty()) < 0)
            &&& (i >= 0 ==> self.next@[i].admits_path(qs.drop_first()))
        }
    }

    /// Along the walk of `qs` (whose last segment is empty), nothing shades
    /// a lookup that continues past the walk with a first extra segment
    /// `e0`: inner empty segments meet no empty-segment child, at the walk's
    /// last branch no child is named `e0`, and the terminal node, if it
    /// already exists, has no children of its own.
    pub open spec fn suffix_clear(self, qs: Seq<Seq<char>>, e0: Seq<char>) -> bool
        decreases qs.len(),
    {
        if qs.len() <= 1 {
            self.next@.len() == 0
        } else {
            let nq = qs[1];
            let i = Self::spec_child_index(self.next@, subst_seg(nq));
            &&& (qs.len() == 2 ==> e0 == "*"@ || Self::spec_child_index(self.next@, e0) < 0)
            &&& (qs.len() > 2 && nq.len() == 0 ==> Self::spec_child_index(
                self.next@,
                Seq::<char>::empty(),
            ) < 0)
            &&& (i >= 0 ==> self.next@[i].suffix_clear(qs.drop_first(), e0))
        }
    }

    /// A lookup in a fresh branch follows it to its value.
    proof fn lemma_fresh_find(node: Node<T>, qs: Seq<Seq<char>>, data: T)
        requires
            qs.len() > 0,
            Self::is_fresh_chain(subst_segs(qs), data, node),
        ensures
            node.spec_find(qs) == Some(data),
        decreases qs.len(),
    {
        reveal_strlit("*");
        let segs = subst_segs(qs);
        assert(segs[0] == subst_seg(qs[0]));
        if qs[0].len() == 0 {
            assert(node.path@ == "*"@);
        } else {
            assert(qs.first() == node.path@);
        }
        if qs.len() > 1 {
            let rest = qs.drop_first();
            let child = node.next@[0];
            assert(Self::is_fresh_chain(segs.drop_first(), data, child));
            assert(subst_segs(rest) =~= segs.drop_first());
            assert(child.path@ == segs.drop_first().first());
            assert(segs.drop_first().first() == subst_seg(qs[1]));
            let nq = rest.first();
            assert(nq == qs[1]);
            if nq.len() == 0 {
                assert(child.path@ == "*"@);
                assert(child.path@.len() == 1);
                Self::lemma_child_index_none(node.next@, nq);
                Self::lemma_child_index_at(node.next@, "*"@, 0);
            } else {
                assert(child.path@ == nq);
                Self::lemma_child_index_at(node.next@, nq, 0);
            }
            Self::lemma_fresh_find(child, rest, data);
        }
    }

    /// A value inserted along `qs` is found again by the very same query,
    /// provided no empty-segment child shades the walk.
    pub proof fn lemma_find_after_insert(pre: Node<T>, post: Node<T>, qs: Seq<Seq<char>>, data: T)
        requires
            qs.len() > 0,
            Self::is_inserted(pre, subst_segs(qs), data, post),
            pre.admits_path(qs),
        ensures
            post.spec_find(qs) == Some(data),
        decreases qs.len(),
    {
        reveal_strlit("*");
        let segs = subst_segs(qs);
        assert(segs[0] == subst_seg(qs[0]));
        if qs[0].len() == 0 {
            assert(post.path@ == "*"@);
        } else {
            assert(qs.first() == post.path@);
        }
        if qs.len() > 1 {
            let rest = qs.drop_first();
            let nq = rest.first();
            assert(nq == qs[1]);
            assert(segs[1] == subst_seg(nq));
            let iseg = subst_seg(nq);
            let i = Self::spec_child_index(pre.next@, iseg);
            Self::lemma_child_index_props(pre.next@, iseg);
            assert(subst_segs(rest) =~= segs.drop_first());
            assert(segs.drop_first().first() == iseg);
            let t: int = if i >= 0 {
                i
            } else {
                pre.next@.len() as int
            };
            if i >= 0 {
                assert(Self::is_inserted(pre.next@[i], segs.drop_first(), data, post.next@[i]));
                assert(post.next@[t].path@ == iseg);
            } else {
                assert(Self::is_fresh_chain(segs.drop_first(), data, post.next@[t]));
                assert(post.next@[t].path@ == iseg);
            }
            if nq.len() == 0 {
                assert(nq =~= Seq::<char>::empty());
                assert(iseg == "*"@);
                assert(iseg.len() == 1);
                assert(Self::spec_child_index(pre.next@, Seq::<char>::empty()) < 0);
                Self::lemma_child_index_props(pre.next@, Seq::<char>::empty());
                assert(forall|m: int| 0 <= m < post.next@.len() ==> post.next@[m].path@
                    != Seq::<char>::empty());
                Self::lemma_child_index_none(post.next@, nq);
                Self::lemma_child_index_at(post.next@, "*"@, t);
            } else {
                assert(iseg == nq);
                Self::lemma_child_index_at(post.next@, nq, t);
            }
            if i >= 0 {
                Self::lemma_find_after_insert(pre.next@[i], post.next@[i], rest, data);
            } else {
                Self::lemma_fresh_find(post.next@[t], rest, data);
            }
        }
    }

    /// A node holding a value with no children answers every query.
    proof fn lemma_terminal_find(node: Node<T>, qs: Seq<Seq<char>>, data: T)
        requires
            qs.len() > 0,
            node.data == Some(data),
            node.next@.len() == 0,
        ensures
            node.spec_find(qs) == Some(data),
    {
    }

    /// A lookup that follows a fresh branch ending in the wildcard and then
    /// continues with any further segments still reads the branch's value.
    proof fn lemma_fresh_find_suffix(
        node: Node<T>,
        qs: Seq<Seq<char>>,
        extra: Seq<Seq<char>>,
        data: T,
    )
        requires
            qs.len() >= 1,
            qs.last().len() == 0,
            extra.len() > 0,
            Self::is_fresh_chain(subst_segs(qs), data, node),
        ensures
            node.spec_find(qs.drop_last().add(extra)) == Some(data),
        decreases qs.len(),
    {
        reveal_strlit("*");
        let q = qs.drop_last().add(extra);
        let segs = subst_segs(qs);
        if qs.len() == 1 {
            assert(q =~= extra);
            assert(node.path@ == "*"@);
            Self::lemma_terminal_find(node, extra, data);
        } else {
            assert(q.first() == qs[0]);
            assert(segs[0] == subst_seg(qs[0]));
            if qs[0].len() == 0 {
                assert(node.path@ == "*"@);
            } else {
                assert(q.first() == node.path@);
            }
            let rest = q.drop_first();
            assert(rest =~= qs.drop_first().drop_last().add(extra));
            let child = node.next@[0];
            assert(Self::is_fresh_chain(segs.drop_first(), data, child));
            assert(subst_segs(qs.drop_first()) =~= segs.drop_first());
            assert(child.path@ == segs.drop_first().first());
            assert(child.path@ == subst_seg(qs[1]));
            let nq = rest.first();
            if qs.len() == 2 {
                assert(nq == extra.first());
                assert(qs[1] == qs.last());
                assert(child.path@ == "*"@);
                assert(child.path@.len() == 1);
            } else {
                assert(nq == qs[1]);
            }
            if child.path@ == nq {
                Self::lemma_child_index_at(node.next@, nq, 0);
            } else {
                Self::lemma_child_index_none(node.next@, nq);
                Self::lemma_child_index_at(node.next@, "*"@, 0);
            }
            Self::lemma_fresh_find_suffix(child, qs.drop_first(), extra, data);
        }
    }

    /// A value inserted along `qs` ending in the wildcard is found by any
    /// query that extends the walk, provided nothing shades the extension.
    pub proof fn lemma_find_after_insert_suffix(
        pre: Node<T>,
        post: Node<T>,
        qs: Seq<Seq<char>>,
        extra: Seq<Seq<char>>,
        data: T,
    )
        requires
            qs.len() >= 2,
            qs.last().len() == 0,
            extra.len() > 0,
            Self::is_inserted(pre, subst_segs(qs), data, post),
            pre.suffix_clear(qs, extra.first()),
        ensures
            post.spec_find(qs.drop_last().add(extra)) == Some(data),
        decreases qs.len(),
    {
        reveal_strlit("*");
        let q = qs.drop_last().add(extra);
        let segs = subst_segs(qs);
        let e0 = extra.first();
        assert(q.first() == qs[0]);
        assert(segs[0] == subst_seg(qs[0]));
        if qs[0].len() == 0 {
            assert(post.path@ == "*"@);
        } else {
            assert(q.first() == post.path@);
        }
        let rest = q.drop_first();
        assert(rest =~= qs.drop_first().drop_last().add(extra));
        let nq = rest.first();
        assert(segs[1] == subst_seg(qs[1]));
        let iseg = subst_seg(qs[1]);
        let i = Self::spec_child_index(pre.next@, iseg);
        Self::lemma_child_index_props(pre.next@, iseg);
        assert(subst_segs(qs.drop_first()) =~= segs.drop_first());
        assert(segs.drop_first().first() == iseg);
        let t: int = if i >= 0 {
            i
        } else {
            pre.next@.len() as int
        };
        if i >= 0 {
            assert(Self::is_inserted(pre.next@[i], segs.drop_first(), data, post.next@[i]));
            assert(post.next@[t].path@ == iseg);
        } else {
            assert(Self::is_fresh_chain(segs.drop_first(), data, post.next@[t]));
            assert(post.next@[t].path@ == iseg);
        }
        if qs.len() == 2 {
            assert(nq == e0);
            assert(qs[1] == qs.last());
            assert(iseg == "*"@);
            if e0 == "*"@ {
                Self::lemma_child_index_at(post.next@, "*"@, t);
            } else {
                assert(Self::spec_child_index(pre.next@, e0) < 0);
                Self::lemma_child_index_props(pre.next@, e0);
                Self::lemma_child_index_none(post.next@, e0);
                Self::lemma_child_index_at(post.next@, "*"@, t);
            }
        } else {
            assert(nq == qs[1]);
            if nq.len() == 0 {
                assert(nq =~= Seq::<char>::empty());
                assert(iseg == "*"@);
                assert(iseg.len() == 1);
                assert(Self::spec_child_index(pre.next@, Seq::<char>::empty()) < 0);
                Self::lemma_child_index_props(pre.next@, Seq::<char>::empty());
                Self::lemma_child_index_none(post.next@, nq);
                Self::lemma_child_index_at(post.next@, "*"@, t);
            } else {
                assert(iseg == nq);
                Self::lemma_child_index_at(post.next@, nq, t);
            }
        }
        if i >= 0 {
            if qs.len() == 2 {
                assert(rest =~= extra);
                assert(post.next@[t].data == Some(data));
                assert(pre.next@[i].suffix_clear(qs.drop_first(), e0));
                assert(post.next@[t].next == pre.next@[i].next);
                Self::lemma_terminal_find(post.next@[t], extra, data);
            } else {
                Self::lemma_find_after_insert_suffix(
                    pre.next@[i],
                    post.next@[i],
                    qs.drop_first(),
                    extra,
                    data,
                );
            }
        } else {
            Self::lemma_fresh_find_suffix(post.next@[t], qs.drop_first(), extra, data);
        }
    }

    /// Law: a value inserted at a non-empty path is found again by a lookup
    /// of that same path, unless an empty-segment child shades the walk.
    pub proof fn lemma_insert_then_find(pre: Node<T>, post: Node<T>, p: Seq<char>, data: T)
        requires
            p.len() > 0,
            Self::is_inserted(pre, spec_insert_segs(p), data, post),
            pre.admits_path(spec_split(p, '/')),
        ensures
            post.spec_find(spec_split(p, '/')) == Some(data),
    {
        crate::text::lemma_split_nonempty(p, '/');
        Self::lemma_find_after_insert(pre, post, spec_split(p, '/'), data);
    }

    /// Law: a value stored at the node itself is read by the empty query.
    pub proof fn lemma_find_empty_path(node: Node<T>, data: T)
        requires
            node.data == Some(data),
        ensures
            node.spec_find(spec_split(Seq::<char>::empty(), '/')) == Some(data),
    {
        assert(spec_split(Seq::<char>::empty(), '/') =~= seq![Seq::<char>::empty()]);
    }

    /// Law: a value stored at a childless node answers every query, which is
    /// wildcard propagation for the empty path.
    pub proof fn lemma_root_value_found(node: Node<T>, s: Seq<char>, data: T)
        requires
            node.data == Some(data),
            node.next@.len() == 0,
        ensures
            node.spec_find(spec_split(s, '/')) == Some(data),
    {
        crate::text::lemma_split_nonempty(s, '/');
        Self::lemma_terminal_find(node, spec_split(s, '/'), data);
    }

    /// Law: a value inserted at a path ending in `'/'` is found by that path
    /// followed by any suffix, unless something shades the extension.
    pub proof fn lemma_wildcard_suffix(
        pre: Node<T>,
        post: Node<T>,
        p: Seq<char>,
        s: Seq<char>,
        data: T,
    )
        requires
            p.len() > 0,
            p.last() == '/',
            Self::is_inserted(pre, spec_insert_segs(p), data, post),
            pre.suffix_clear(spec_split(p, '/'), spec_split(s, '/').first()),
        ensures
            post.spec_find(spec_split(p.add(s), '/')) == Some(data),
    {
        crate::text::lemma_split_ends_sep(p, '/');
        crate::text::lemma_split_concat(p, s, '/');
        crate::text::lemma_split_nonempty(s, '/');
        Self::lemma_find_after_insert_suffix(pre, post, spec_split(p, '/'), spec_split(s, '/'), data);
    }
}

/// Every segment an insert walks is non-empty: empty pieces became `*`.
pub proof fn lemma_insert_segs_nonempty(p: Seq<char>)
    ensures
        forall|k: int| 0 <= k < spec_insert_segs(p).len() ==> (#[trigger] spec_insert_segs(
            p,
        )[k]).len() > 0,
{
    reveal_strlit("*");
    assert forall|k: int| 0 <= k < spec_insert_segs(p).len() implies (#[trigger] spec_insert_segs(
        p,
    )[k]).len() > 0 by {
        assert(spec_insert_segs(p)[k] == subst_seg(spec_split(p, '/')[k]));
    }
}

impl<T> Node<T> {
    /// No child anywhere carries an empty segment. Trees grown by
    /// `insert_path` alone stay this way, since empty path pieces become
    /// the wildcard before they are walked.
    pub open spec fn clean(self) -> bool
        decreases self,
    {
        forall|i: int| 0 <= i < self.next@.len() ==> ((#[trigger] self.next@[i]).path@.len() > 0
            && self.next@[i].clean())
    }

    /// A clean tree admits every walk: no empty-segment child can capture
    /// a lookup's exact-child step.
    pub proof fn lemma_clean_admits(self, qs: Seq<Seq<char>>)
        requires
            self.clean(),
        ensures
            self.admits_path(qs),
        decreases qs.len(),
    {
        if qs.len() > 1 {
            let nq = qs[1];
            assert forall|m: int| 0 <= m < self.next@.len() implies self.next@[m].path@
                != Seq::<char>::empty() by {
                assert(self.next@[m].path@.len() > 0);
            }
            Self::lemma_child_index_none(self.next@, Seq::<char>::empty());
            let i = Self::spec_child_index(self.next@, subst_seg(nq));
            Self::lemma_child_index_props(self.next@, subst_seg(nq));
            if i >= 0 {
                assert(self.next@[i].clean());
                self.next@[i].lemma_clean_admits(qs.drop_first());
            }
        }
    }

    proof fn lemma_fresh_chain_clean(segs: Seq<Seq<char>>, data: T, node: Node<T>)
        requires
            forall|k: int| 0 <= k < segs.len() ==> (#[trigger] segs[k]).len() > 0,
            Self::is_fresh_chain(segs, data, node),
        ensures
            node.clean(),
            node.path@.len() > 0,
        decreases segs.len(),
    {
        if segs.len() > 1 {
            assert(forall|k: int| 0 <= k < segs.drop_first().len() ==> segs.drop_first()[k]
                == segs[k + 1]);
            Self::lemma_fresh_chain_clean(segs.drop_first(), data, node.next@[0]);
        }
    }

    /// A successful insert of never-empty segments keeps a tree clean.
    pub proof fn lemma_insert_preserves_clean(
        pre: Node<T>,
        segs: Seq<Seq<char>>,
        data: T,
        post: Node<T>,
    )
        requires
            pre.clean(),
            forall|k: int| 0 <= k < segs.len() ==> (#[trigger] segs[k]).len() > 0,
            Self::is_inserted(pre, segs, data, post),
        ensures
            post.clean(),
        decreases segs.len(),
    {
        if segs.len() == 1 {
            assert forall|m: int| 0 <= m < post.next@.len() implies ((#[trigger] post.next@[
                m
            ]).path@.len() > 0 && post.next@[m].clean()) by {
                assert(post.next@[m] == pre.next@[m]);
            }
        } else if segs.len() > 1 {
            let i = Self::spec_child_index(pre.next@, segs[1]);
            Self::lemma_child_index_props(pre.next@, segs[1]);
            assert(forall|k: int| 0 <= k < segs.drop_first().len() ==> segs.drop_first()[k]
                == segs[k + 1]);
            let t: int = if i >= 0 {
                i
            } else {
                pre.next@.len() as int
            };
            if i >= 0 {
                assert(pre.next@[i].clean());
                assert(Self::is_inserted(pre.next@[i], segs.drop_first(), data, post.next@[i]));
                Self::lemma_insert_preserves_clean(
                    pre.next@[i],
                    segs.drop_first(),
                    data,
                    post.next@[i],
                );
                assert(post.next@[i].path@ == segs.drop_first().first());
                assert(segs.drop_first().first() == segs[1]);
            } else {
                Self::lemma_fresh_chain_clean(segs.drop_first(), data, post.next@[t]);
            }
            assert forall|m: int| 0 <= m < post.next@.len() implies ((#[trigger] post.next@[
                m
            ]).path@.len() > 0 && post.next@[m].clean()) by {
                if m != t {
                    assert(post.next@[m] == pre.next@[m]);
                }
            }
        }
    }

    /// Cleanliness lives in the children alone, so a node that keeps its
    /// children keeps it; storing a value at a node does.
    pub proof fn lemma_clean_same_children(a: Node<T>, b: Node<T>)
        requires
            a.clean(),
            a.next == b.next,
        ensures
            b.clean(),
    {
        assert forall|m: int| 0 <= m < b.next@.len() implies ((#[trigger] b.next@[m]).path@.len()
            > 0 && b.next@[m].clean()) by {
            assert(b.next@[m] == a.next@[m]);
        }
    }

    /// Law: on a clean tree, a value inserted at a non-empty path is found
    /// again by that very path, and the tree stays clean; this holds of
    /// every tree grown by `insert_path` alone.
    pub proof fn lemma_insert_path_then_find(pre: Node<T>, post: Node<T>, p: Seq<char>, data: T)
        requires
            p.len() > 0,
            pre.clean(),
            Self::is_inserted(pre, spec_insert_segs(p), data, post),
        ensures
            post.spec_find(spec_split(p, '/')) == Some(data),
            post.clean(),
    {
        crate::text::lemma_split_nonempty(p, '/');
        pre.lemma_clean_admits(spec_split(p, '/'));
        Self::lemma_find_after_insert(pre, post, spec_split(p, '/'), data);
        lemma_insert_segs_nonempty(p);
        Self::lemma_insert_preserves_clean(pre, spec_insert_segs(p), data, post);
    }
}

impl<T> Node<T> {
    /// The two trees read the same: same segments, same stored values, and
    /// children that read the same, position by position.
    pub open spec fn equiv(self, other: Node<T>) -> bool
        decreases self,
    {
        &&& self.path@ == other.path@
        &&& self.data == other.data
        &&& self.next@.len() == other.next@.len()
        &&& (forall|i: int| 0 <= i < self.next@.len() ==> (#[trigger] self.next@[i]).equiv(
            other.next@[i],
        ))
    }

    proof fn lemma_equiv_child_index(a: Seq<Node<T>>, b: Seq<Node<T>>, seg: Seq<char>)
        requires
            a.len() == b.len(),
            forall|i: int| 0 <= i < a.len() ==> (#[trigger] a[i]).path@ == b[i].path@,
        ensures
            Self::spec_child_index(a, seg) == Self::spec_child_index(b, seg),
        decreases a.len(),
    {
        if a.len() > 0 && a[0].path@ != seg {
            assert(forall|i: int| 0 <= i < a.drop_first().len() ==> a.drop_first()[i] == a[i
                + 1]);
            assert(forall|i: int| 0 <= i < b.drop_first().len() ==> b.drop_first()[i] == b[i
                + 1]);
            Self::lemma_equiv_child_index(a.drop_first(), b.drop_first(), seg);
        }
    }

    /// Law: trees that read the same answer every query the same, so a deep
    /// copy of a routing tree routes exactly as its source does.
    pub proof fn lemma_equiv_find(a: Node<T>, b: Node<T>, qs: Seq<Seq<char>>)
        requires
            a.equiv(b),
        ensures
            a.spec_find(qs) == b.spec_find(qs),
        decreases qs.len(),
    {
        if qs.len() > 0 && (a.path@ == "*"@ || qs.first() == a.path@) {
            let rest = qs.drop_first();
            if rest.len() > 0 {
                assert forall|i: int| 0 <= i < a.next@.len() implies (#[trigger] a.next@[i]).path@
                    == b.next@[i].path@ by {
                    assert(a.next@[i].equiv(b.next@[i]));
                }
                Self::lemma_equiv_child_index(a.next@, b.next@, rest.first());
                Self::lemma_equiv_child_index(a.next@, b.next@, "*"@);
                Self::lemma_child_index_props(a.next@, rest.first());
                Self::lemma_child_index_props(a.next@, "*"@);
                let i = Self::spec_child_index(a.next@, rest.first());
                if i >= 0 {
                    assert(a.next@[i].equiv(b.next@[i]));
                    Self::lemma_equiv_find(a.next@[i], b.next@[i], rest);
                } else {
                    let w = Self::spec_child_index(a.next@, "*"@);
                    if w >= 0 {
                        assert(a.next@[w].equiv(b.next@[w]));
                        Self::lemma_equiv_find(a.next@[w], b.next@[w], rest);
                    }
                }
            }
        }
    }
}

impl<T> Default for Node<T> {
    /// A blank node, as `empty` builds it.
    fn default() -> (n: Self)
        ensures
            n.path@.len() == 0,
            n.data is None,
            n.next@.len() == 0,
            n.clean(),
    {
        Node::empty()
    }
}

} // verus!
