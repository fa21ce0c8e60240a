//! A tree of path components, kept ordered by name.

use vstd::prelude::*;
use crate::text::{
    name_lt, same_text, text_lt, lemma_name_lt_irreflexive, lemma_name_lt_total,
    lemma_name_lt_transitive,
};

verus! {

/// A node in a tree of file paths. Each full path is a chain of nodes from
/// the root down; a file and a directory are both plain nodes.
pub struct FileNode {
    pub name: String,
    /// The children, in strictly increasing order of name.
    pub children: Vec<FileNode>,
}

/// Names strictly increase along the sequence (so no two are equal).
pub open spec fn names_sorted(ch: Seq<FileNode>) -> bool {
    forall|i: int, j: int|
        0 <= i < j < ch.len() ==> name_lt(#[trigger] ch[i].name@, #[trigger] ch[j].name@)
}

/// No two nodes of the sequence carry the same name.
pub open spec fn names_distinct(ch: Seq<FileNode>) -> bool {
    forall|i: int, j: int|
        0 <= i < ch.len() && 0 <= j < ch.len() && i != j ==> #[trigger] ch[i].name@
            != #[trigger] ch[j].name@
}

/// The names held by a sequence of strings.
pub open spec fn names_of(p: Seq<String>) -> Seq<Seq<char>> {
    p.map_values(|s: String| s@)
}

/// `p` is a prefix of `q`.
pub open spec fn is_prefix_of(p: Seq<Seq<char>>, q: Seq<Seq<char>>) -> bool {
    p.len() <= q.len() && p == q.subrange(0, p.len() as int)
}

impl FileNode {
    /// Well-formed: at every node the children are ordered by name.
    pub open spec fn wf(self) -> bool
        decreases self,
    {
        &&& names_sorted(self.children@)
        &&& forall|i: int|
            0 <= i < self.children@.len() ==> (#[trigger] self.children@[i]).wf()
    }

    /// Following the names of `p` from this node, one child per step, never
    /// gets stuck. The empty path is always present.
    pub open spec fn has_path(self, p: Seq<Seq<char>>) -> bool
        decreases p.len(),
    {
        p.len() == 0 || exists|i: int|
            0 <= i < self.children@.len() && (#[trigger] self.children@[i]).name@ == p[0]
                && self.children@[i].has_path(p.drop_first())
    }
}

proof fn lemma_sorted_distinct(ch: Seq<FileNode>)
    requires
        names_sorted(ch),
    ensures
        names_distinct(ch),
{
    assert forall|i: int, j: int|
        0 <= i < ch.len() && 0 <= j < ch.len() && i != j implies #[trigger] ch[i].name@
        != #[trigger] ch[j].name@ by {
        if i < j {
            lemma_name_lt_irreflexive(ch[i].name@);
        } else {
            lemma_name_lt_irreflexive(ch[j].name@);
        }
    }
}

/// Where the first name of `p` is the name of child `k`, the path goes
/// through that child.
proof fn lemma_path_through(t: FileNode, k: int, p: Seq<Seq<char>>)
    requires
        names_distinct(t.children@),
        0 <= k < t.children@.len(),
        p.len() > 0,
        t.children@[k].name@ == p[0],
    ensures
        t.has_path(p) == t.children@[k].has_path(p.drop_first()),
{
    if t.has_path(p) {
        let i = choose|i: int|
            0 <= i < t.children@.len() && (#[trigger] t.children@[i]).name@ == p[0]
                && t.children@[i].has_path(p.drop_first());
        assert(i == k);
    }
}

/// Where no child carries the first name of `p`, the path is absent.
proof fn lemma_path_absent(t: FileNode, p: Seq<Seq<char>>)
    requires
        p.len() > 0,
        forall|i: int| 0 <= i < t.children@.len() ==> (#[trigger] t.children@[i]).name@ != p[0],
    ensures
        !t.has_path(p),
{
}

proof fn lemma_prefix_step(p: Seq<Seq<char>>, q: Seq<Seq<char>>)
    requires
        p.len() > 0,
        q.len() > 0,
    ensures
        is_prefix_of(p, q) == (p[0] == q[0] && is_prefix_of(p.drop_first(), q.drop_first())),
{
    if is_prefix_of(p, q) {
        assert(p[0] == q.subrange(0, p.len() as int)[0]);
        assert(p.drop_first() =~= q.drop_first().subrange(0, p.len() - 1));
    }
    if p[0] == q[0] && is_prefix_of(p.drop_first(), q.drop_first()) {
        assert forall|i: int| 0 <= i < p.len() implies p[i] == q[i] by {
            if i > 0 {
                assert(p[i] == p.drop_first()[i - 1]);
                assert(q[i] == q.drop_first()[i - 1]);
            }
        }
        assert(p =~= q.subrange(0, p.len() as int));
    }
}

impl FileNode {
    /// A node with the given name and no children.
    pub fn new(name: &str) -> (r: FileNode)
        ensures
            r.name@ == name@,
            r.children@.len() == 0,
            r.wf(),
    {
        FileNode { name: name.to_owned(), children: Vec::new() }
    }

    /// Adds the chain of nodes named by `path_components` below this node,
    /// reusing the children that already carry those names. An empty
    /// sequence changes nothing.
    pub fn insert(&mut self, path_components: &[String])
        requires
            old(self).wf(),
        ensures
            final(self).wf(),
            final(self).name == old(self).name,
            inserted(*old(self), names_of(path_components@), *final(self)),
    {
        self.insert_from(path_components, 0);
        assert(names_of(path_components@).subrange(0, path_components@.len() as int)
            =~= names_of(path_components@));
    }

    fn insert_from(&mut self, comps: &[String], start: usize)
        requires
            old(self).wf(),
            start <= comps@.len(),
        ensures
            final(self).wf(),
            final(self).name == old(self).name,
            forall|p: Seq<Seq<char>>|
                #[trigger] final(self).has_path(p) <==> old(self).has_path(p) || is_prefix_of(
                    p,
                    names_of(comps@).subrange(start as int, comps@.len() as int),
                ),
        decreases comps@.len() - start,
    {
        let ghost q = names_of(comps@).subrange(start as int, comps@.len() as int);
        if start == comps.len() {
            return;
        }
        let first = &comps[start];
        assert(q[0] == first@);
        assert(q.drop_first() =~= names_of(comps@).subrange(start + 1, comps@.len() as int));
        let mut k: usize = 0;
        while k < self.children.len() && text_lt(self.children[k].name.as_str(), first.as_str())
            invariant
                self.wf(),
                k <= self.children@.len(),
                forall|i: int| 0 <= i < k ==> name_lt(#[trigger] self.children@[i].name@, first@),
            decreases self.children@.len() - k,
        {
            k = k + 1;
        }
        let ghost old_ch = self.children@;
        proof {
            lemma_sorted_distinct(old_ch);
        }
        if k < self.children.len() && same_text(self.children[k].name.as_str(), first.as_str()) {
            let mut child = self.children.remove(k);
            let ghost c0 = child;
            assert(c0 == old_ch[k as int]);
            child.insert_from(comps, start + 1);
            let ghost c1 = child;
            self.children.insert(k, child);
            proof {
                let new_ch = self.children@;
                assert(new_ch =~= old_ch.update(k as int, c1));
                assert(names_sorted(new_ch));
                assert(names_distinct(new_ch));
                assert forall|p: Seq<Seq<char>>|
                    #[trigger] self.has_path(p) <==> old(self).has_path(p) || is_prefix_of(p, q) by {
                    if p.len() > 0 {
                        lemma_prefix_step(p, q);
                        if p[0] == q[0] {
                            lemma_path_through(*self, k as int, p);
                            lemma_path_through(*old(self), k as int, p);
                        } else {
                            if self.has_path(p) {
                                let i = choose|i: int|
                                    0 <= i < new_ch.len() && (#[trigger] new_ch[i]).name@ == p[0]
                                        && new_ch[i].has_path(p.drop_first());
                                assert(old_ch[i] == new_ch[i]);
                            }
                            if old(self).has_path(p) {
                                let i = choose|i: int|
                                    0 <= i < old_ch.len() && (#[trigger] old_ch[i]).name@ == p[0]
                                        && old_ch[i].has_path(p.drop_first());
                                assert(old_ch[i] == new_ch[i]);
                            }
                        }
                    }
                }
            }
        } else {
            proof {
                assert forall|j: int| k <= j < old_ch.len() implies name_lt(
                    first@,
                    #[trigger] old_ch[j].name@,
                ) by {
                    lemma_name_lt_total(old_ch[k as int].name@, first@);
                    if j > k {
                        lemma_name_lt_transitive(first@, old_ch[k as int].name@, old_ch[j].name@);
                    }
                }
                assert forall|i: int| 0 <= i < old_ch.len() implies (#[trigger] old_ch[i]).name@
                    != first@ by {
                    lemma_name_lt_irreflexive(first@);
                }
            }
            let mut child = FileNode::new(first.as_str());
            let ghost c0 = child;
            child.insert_from(comps, start + 1);
            let ghost c1 = child;
            self.children.insert(k, child);
            proof {
                let new_ch = self.children@;
                assert(new_ch =~= old_ch.insert(k as int, c1));
                assert forall|i: int, j: int| 0 <= i < j < new_ch.len() implies name_lt(
                    #[trigger] new_ch[i].name@,
                    #[trigger] new_ch[j].name@,
                ) by {
                    if j == k {
                    } else if i == k {
                    } else if i < k && j > k {
                        lemma_name_lt_transitive(new_ch[i].name@, first@, new_ch[j].name@);
                    }
                }
                assert(names_sorted(new_ch));
                lemma_sorted_distinct(new_ch);
                assert forall|p: Seq<Seq<char>>|
                    #[trigger] self.has_path(p) <==> old(self).has_path(p) || is_prefix_of(p, q) by {
                    if p.len() > 0 {
                        lemma_prefix_step(p, q);
                        if p[0] == q[0] {
                            assert(new_ch[k as int] == c1);
                            lemma_path_through(*self, k as int, p);
                            lemma_path_absent(*old(self), p);
                            if p.drop_first().len() > 0 {
                                lemma_path_absent(c0, p.drop_first());
                            } else {
                                assert(p.drop_first() =~= q.drop_first().subrange(0, 0));
                            }
                        } else {
                            if self.has_path(p) {
                                let i = choose|i: int|
                                    0 <= i < new_ch.len() && (#[trigger] new_ch[i]).name@ == p[0]
                                        && new_ch[i].has_path(p.drop_first());
                                if i < k {
                                    assert(old_ch[i] == new_ch[i]);
                                } else if i > k {
                                    assert(old_ch[i - 1] == new_ch[i]);
                                } else {
                                    assert(new_ch[i].name@ == first@);
                                }
                            }
                            if old(self).has_path(p) {
                                let i = choose|i: int|
                                    0 <= i < old_ch.len() && (#[trigger] old_ch[i]).name@ == p[0]
                                        && old_ch[i].has_path(p.drop_first());
                                if i < k {
                                    assert(old_ch[i] == new_ch[i]);
                                } else {
                                    assert(old_ch[i] == new_ch[i + 1]);
                                }
                            }
                        }
                    }
                }
            }
        }
    }
}

/// `n` units of indentation, two spaces each.
pub open spec fn indent(n: nat) -> Seq<char>
    decreases n,
{
    if n == 0 {
        Seq::empty()
    } else {
        indent((n - 1) as nat) + "  "@
    }
}

/// The lines that printing `t` at `level` writes: its own line unless `level`
/// is 0, indented by `level - 1` units, then the lines of its children, in
/// order, one level deeper.
pub open spec fn outline(t: FileNode, level: nat) -> Seq<Seq<char>>
    decreases t,
{
    let own = if level > 0 {
        seq![indent((level - 1) as nat) + t.name@]
    } else {
        Seq::empty()
    };
    own + outline_all(t.children@, level + 1)
}

/// The lines of a sequence of sibling nodes printed at `level`, one after the other.
pub open spec fn outline_all(s: Seq<FileNode>, level: nat) -> Seq<Seq<char>>
    decreases s,
{
    if s.len() == 0 {
        Seq::empty()
    } else {
        outline_all(s.drop_last(), level) + outline(s.last(), level)
    }
}

/// The number of nodes in the tree, its root included.
pub open spec fn node_count(t: FileNode) -> nat
    decreases t,
{
    1 + count_all(t.children@)
}

/// The number of nodes in a sequence of trees.
pub open spec fn count_all(s: Seq<FileNode>) -> nat
    decreases s,
{
    if s.len() == 0 {
        0
    } else {
        count_all(s.drop_last()) + node_count(s.last())
    }
}

impl FileNode {
    /// No path below this node is longer than `h` names.
    pub open spec fn depth_within(self, h: nat) -> bool
        decreases h,
    {
        self.children@.len() == 0 || (h > 0 && forall|i: int|
            0 <= i < self.children@.len() ==> (#[trigger] self.children@[i]).depth_within(
                (h - 1) as nat,
            ))
    }
}

/// The views of a sequence of strings.
pub open spec fn texts_of(v: Seq<String>) -> Seq<Seq<char>> {
    v.map_values(|s: String| s@)
}

/// `depth` units of indentation followed by `name`.
fn indented(depth: usize, name: &str) -> (r: String)
    ensures
        r@ == indent(depth as nat) + name@,
{
    let mut s = String::new();
    let mut i: usize = 0;
    while i < depth
        invariant
            i <= depth,
            s@ == indent(i as nat),
        decreases depth - i,
    {
        s.append("  ");
        i = i + 1;
    }
    s.append(name);
    s
}

impl FileNode {
    /// The lines that printing this node at `level` writes, in order: the
    /// node's own name unless `level` is 0 (the root is not shown), indented
    /// by `level - 1` units of two spaces, then each child's lines at
    /// `level + 1`, children in order of name.
    pub fn print_lines(&self, level: usize) -> (r: Vec<String>)
        requires
            self.depth_within((usize::MAX - level) as nat),
        ensures
            texts_of(r@) == outline(*self, level as nat),
        decreases usize::MAX - level,
    {
        let mut out: Vec<String> = Vec::new();
        if level > 0 {
            out.push(indented(level - 1, self.name.as_str()));
        }
        let ghost own = if level > 0 {
            seq![indent((level - 1) as nat) + self.name@]
        } else {
            Seq::<Seq<char>>::empty()
        };
        assert(texts_of(out@) =~= own);
        let mut i: usize = 0;
        while i < self.children.len()
            invariant
                i <= self.children@.len(),
                self.depth_within((usize::MAX - level) as nat),
                texts_of(out@) == own + outline_all(
                    self.children@.take(i as int),
                    (level + 1) as nat,
                ),
            decreases self.children@.len() - i,
        {
            let mut sub = self.children[i].print_lines(level + 1);
            let ghost before = out@;
            let ghost added = sub@;
            out.append(&mut sub);
            proof {
                let t = self.children@.take(i + 1);
                assert(t.drop_last() =~= self.children@.take(i as int));
                assert(t.last() == self.children@[i as int]);
                assert(texts_of(out@) =~= texts_of(before) + texts_of(added));
            }
            i = i + 1;
        }
        assert(self.children@.take(i as int) =~= self.children@);
        out
    }
}

proof fn lemma_outline_len(t: FileNode, level: nat)
    ensures
        outline(t, level).len() + (if level == 0 {
            1nat
        } else {
            0nat
        }) == node_count(t),
    decreases t,
{
    lemma_outline_all_len(t.children@, level + 1);
}

proof fn lemma_outline_all_len(s: Seq<FileNode>, level: nat)
    requires
        level > 0,
    ensures
        outline_all(s, level).len() == count_all(s),
    decreases s,
{
    if s.len() > 0 {
        lemma_outline_all_len(s.drop_last(), level);
        lemma_outline_len(s.last(), level);
    }
}

/// Printing a tree from its root (level 0) writes no line for the root itself
/// and exactly one line for every other node; a node shown at `level` gets
/// `level - 1` units of indentation and its children one unit more.
pub proof fn lemma_print_skips_root(t: FileNode, level: nat)
    ensures
        outline(t, 0) == outline_all(t.children@, 1),
        outline(t, 0).len() == node_count(t) - 1,
        level > 0 ==> outline(t, level) == seq![indent((level - 1) as nat) + t.name@]
            + outline_all(t.children@, level + 1),
        level > 0 ==> outline(t, level).len() == node_count(t),
{
    lemma_outline_len(t, 0);
    lemma_outline_len(t, level);
    assert(outline(t, 0) =~= outline_all(t.children@, 1));
}

/// `after` holds the paths of `before` and every prefix of `p`, and no
/// others: what inserting `p` into `before` gives.
pub open spec fn inserted(before: FileNode, p: Seq<Seq<char>>, after: FileNode) -> bool {
    forall|q: Seq<Seq<char>>| #[trigger] after.has_path(q) <==> before.has_path(q) || is_prefix_of(q, p)
}

/// Inserting two paths in either order gives trees with the same paths and
/// the same shape.
pub proof fn lemma_insert_order_irrelevant(
    t: FileNode,
    a: Seq<Seq<char>>,
    b: Seq<Seq<char>>,
    ta: FileNode,
    tab: FileNode,
    tb: FileNode,
    tba: FileNode,
)
    requires
        inserted(t, a, ta),
        inserted(ta, b, tab),
        inserted(t, b, tb),
        inserted(tb, a, tba),
        tab.wf(),
        tba.wf(),
        tab.name@ == t.name@,
        tba.name@ == t.name@,
    ensures
        forall|q: Seq<Seq<char>>| #[trigger] tab.has_path(q) <==> tba.has_path(q),
        same_shape(tab, tba),
{
    assert forall|q: Seq<Seq<char>>| #[trigger] tab.has_path(q) <==> tba.has_path(q) by {
        assert(tab.has_path(q) == (ta.has_path(q) || is_prefix_of(q, b)));
        assert(tba.has_path(q) == (tb.has_path(q) || is_prefix_of(q, a)));
        assert(ta.has_path(q) == (t.has_path(q) || is_prefix_of(q, a)));
        assert(tb.has_path(q) == (t.has_path(q) || is_prefix_of(q, b)));
    }
    lemma_paths_determine_shape(tab, tba);
}

/// The two trees have the same names at the same places.
pub open spec fn same_shape(x: FileNode, y: FileNode) -> bool
    decreases x,
{
    &&& x.name@ == y.name@
    &&& x.children@.len() == y.children@.len()
    &&& forall|i: int|
        0 <= i < x.children@.len() ==> same_shape(#[trigger] x.children@[i], y.children@[i])
}

/// The names of the children, in order.
pub open spec fn child_names(t: FileNode) -> Seq<Seq<char>> {
    t.children@.map_values(|c: FileNode| c.name@)
}

spec fn strictly_increasing(a: Seq<Seq<char>>) -> bool {
    forall|i: int, j: int| 0 <= i < j < a.len() ==> name_lt(#[trigger] a[i], #[trigger] a[j])
}

proof fn lemma_increasing_unique(a: Seq<Seq<char>>, b: Seq<Seq<char>>)
    requires
        strictly_increasing(a),
        strictly_increasing(b),
        forall|x: Seq<char>| a.contains(x) <==> b.contains(x),
    ensures
        a == b,
    decreases a.len(),
{
    if a.len() == 0 {
        if b.len() > 0 {
            assert(b.contains(b[0]));
        }
        assert(a =~= b);
    } else {
        assert(a.contains(a[0]));
        let j = choose|j: int| 0 <= j < b.len() && b[j] == a[0];
        assert(b.contains(b[0]));
        let i = choose|i: int| 0 <= i < a.len() && a[i] == b[0];
        if i > 0 && j > 0 {
            lemma_name_lt_total(a[0], b[0]);
        }
        assert(a[0] == b[0]);
        let a1 = a.drop_first();
        let b1 = b.drop_first();
        assert forall|x: Seq<char>| a1.contains(x) <==> b1.contains(x) by {
            if a1.contains(x) {
                let k = choose|k: int| 0 <= k < a1.len() && a1[k] == x;
                assert(a[k + 1] == x);
                lemma_name_lt_irreflexive(x);
                assert(b.contains(x));
                let m = choose|m: int| 0 <= m < b.len() && b[m] == x;
                assert(m != 0);
                assert(b1[m - 1] == x);
            }
            if b1.contains(x) {
                let k = choose|k: int| 0 <= k < b1.len() && b1[k] == x;
                assert(b[k + 1] == x);
                lemma_name_lt_irreflexive(x);
                assert(a.contains(x));
                let m = choose|m: int| 0 <= m < a.len() && a[m] == x;
                assert(m != 0);
                assert(a1[m - 1] == x);
            }
        }
        assert forall|p: int, q: int| 0 <= p < q < a1.len() implies name_lt(
            #[trigger] a1[p],
            #[trigger] a1[q],
        ) by {
            assert(a1[p] == a[p + 1] && a1[q] == a[q + 1]);
        }
        assert forall|p: int, q: int| 0 <= p < q < b1.len() implies name_lt(
            #[trigger] b1[p],
            #[trigger] b1[q],
        ) by {
            assert(b1[p] == b[p + 1] && b1[q] == b[q + 1]);
        }
        lemma_increasing_unique(a1, b1);
        assert(a =~= seq![a[0]] + a1);
        assert(b =~= seq![b[0]] + b1);
    }
}

/// Two well-formed trees with the same root name and the same paths have the
/// same shape: a tree is determined by its paths, whatever order they were
/// inserted in.
pub proof fn lemma_paths_determine_shape(x: FileNode, y: FileNode)
    requires
        x.wf(),
        y.wf(),
        x.name@ == y.name@,
        forall|q: Seq<Seq<char>>| #[trigger] x.has_path(q) <==> y.has_path(q),
    ensures
        same_shape(x, y),
    decreases x,
{
    let xs = child_names(x);
    let ys = child_names(y);
    lemma_sorted_distinct(x.children@);
    lemma_sorted_distinct(y.children@);
    assert forall|n: Seq<char>| xs.contains(n) <==> ys.contains(n) by {
        let q = seq![n];
        assert(q.drop_first() =~= Seq::<Seq<char>>::empty());
        if xs.contains(n) {
            let i = choose|i: int| 0 <= i < xs.len() && xs[i] == n;
            assert(x.children@[i].has_path(q.drop_first()));
            assert(x.has_path(q));
            assert(y.has_path(q));
            let j = choose|j: int|
                0 <= j < y.children@.len() && (#[trigger] y.children@[j]).name@ == q[0]
                    && y.children@[j].has_path(q.drop_first());
            assert(ys[j] == n);
        }
        if ys.contains(n) {
            let i = choose|i: int| 0 <= i < ys.len() && ys[i] == n;
            assert(y.children@[i].has_path(q.drop_first()));
            assert(y.has_path(q));
            assert(x.has_path(q));
            let j = choose|j: int|
                0 <= j < x.children@.len() && (#[trigger] x.children@[j]).name@ == q[0]
                    && x.children@[j].has_path(q.drop_first());
            assert(xs[j] == n);
        }
    }
    assert forall|i: int, j: int| 0 <= i < j < xs.len() implies name_lt(
        #[trigger] xs[i],
        #[trigger] xs[j],
    ) by {
        assert(name_lt(x.children@[i].name@, x.children@[j].name@));
    }
    assert forall|i: int, j: int| 0 <= i < j < ys.len() implies name_lt(
        #[trigger] ys[i],
        #[trigger] ys[j],
    ) by {
        assert(name_lt(y.children@[i].name@, y.children@[j].name@));
    }
    lemma_increasing_unique(xs, ys);
    assert forall|i: int| 0 <= i < x.children@.len() implies same_shape(
        #[trigger] x.children@[i],
        y.children@[i],
    ) by {
        let cx = x.children@[i];
        let cy = y.children@[i];
        assert(xs[i] == ys[i]);
        assert forall|q: Seq<Seq<char>>| #[trigger] cx.has_path(q) <==> cy.has_path(q) by {
            let full = seq![cx.name@] + q;
            assert(full.drop_first() =~= q);
            lemma_path_through(x, i, full);
            lemma_path_through(y, i, full);
        }
        lemma_paths_determine_shape(cx, cy);
    }
}

} // verus!
