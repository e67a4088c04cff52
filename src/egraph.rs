use vstd::prelude::*;
use crate::language::{ENode, Id, Language, Meta, make_spec, meta_normal, lemma_make_normal};

verus! {

/// The representative reached from `i` by following parent links; every
/// link points to a smaller index, so the walk ends.
pub open spec fn root_of(p: Seq<usize>, i: int) -> int
    decreases i,
{
    if 0 <= i < p.len() && (p[i] as int) < i {
        root_of(p, p[i] as int)
    } else {
        i
    }
}

/// How many of the first `k` entries are representatives.
pub open spec fn count_roots(p: Seq<usize>, k: int) -> nat
    decreases k,
{
    if k <= 0 {
        0
    } else {
        count_roots(p, k - 1) + if (p[k - 1] as int) < k - 1 {
            0nat
        } else {
            1nat
        }
    }
}

/// Parent links that only point downwards (or at the entry itself).
pub open spec fn links_down(p: Seq<usize>) -> bool {
    forall|i: int| 0 <= i < p.len() ==> #[trigger] p[i] <= i
}

pub proof fn lemma_root_bounds(p: Seq<usize>, i: int)
    requires
        links_down(p),
        0 <= i < p.len(),
    ensures
        0 <= root_of(p, i) <= i,
        p[root_of(p, i)] == root_of(p, i),
        root_of(p, root_of(p, i)) == root_of(p, i),
    decreases i,
{
    if (p[i] as int) < i {
        lemma_root_bounds(p, p[i] as int);
    }
}

pub proof fn lemma_root_push(p: Seq<usize>, i: int)
    requires
        links_down(p),
        0 <= i < p.len(),
    ensures
        root_of(p.push(p.len() as usize), i) == root_of(p, i),
    decreases i,
{
    if (p[i] as int) < i {
        lemma_root_push(p, p[i] as int);
    }
}

pub proof fn lemma_root_link(p: Seq<usize>, lo: int, hi: int, i: int)
    requires
        links_down(p),
        0 <= lo < hi < p.len(),
        p[lo] == lo,
        p[hi] == hi,
        0 <= i < p.len(),
    ensures
        root_of(p.update(hi, lo as usize), i) == if root_of(p, i) == hi {
            lo
        } else {
            root_of(p, i)
        },
    decreases i,
{
    let q = p.update(hi, lo as usize);
    if i == hi {
        assert(root_of(q, lo) == lo);
    } else if (p[i] as int) < i {
        lemma_root_link(p, lo, hi, p[i] as int);
    }
}

pub proof fn lemma_root_compress(p: Seq<usize>, x: int, i: int)
    requires
        links_down(p),
        0 <= x < p.len(),
        0 <= i < p.len(),
    ensures
        root_of(p.update(x, root_of(p, x) as usize), i) == root_of(p, i),
    decreases i,
{
    lemma_root_bounds(p, x);
    let q = p.update(x, root_of(p, x) as usize);
    if i == x {
        let r = root_of(p, x);
        if r < x {
            assert(q[r] == p[r]);
            assert(root_of(q, r) == r);
        }
    } else if (p[i] as int) < i {
        lemma_root_compress(p, x, p[i] as int);
    }
}

pub proof fn lemma_count_relink(p: Seq<usize>, x: int, v: usize, k: int)
    requires
        0 <= x < p.len(),
        (p[x] as int) < x,
        (v as int) < x,
        0 <= k <= p.len(),
    ensures
        count_roots(p.update(x, v), k) == count_roots(p, k),
    decreases k,
{
    if k > 0 {
        lemma_count_relink(p, x, v, k - 1);
    }
}

pub proof fn lemma_count_link(p: Seq<usize>, lo: int, hi: int, k: int)
    requires
        0 <= lo < hi < p.len(),
        p[hi] == hi,
        0 <= k <= p.len(),
    ensures
        count_roots(p.update(hi, lo as usize), k) + (if hi < k {
            1nat
        } else {
            0nat
        }) == count_roots(p, k),
    decreases k,
{
    if k > 0 {
        lemma_count_link(p, lo, hi, k - 1);
    }
}

pub proof fn lemma_count_bound(p: Seq<usize>, k: int)
    requires
        0 <= k <= p.len(),
    ensures
        count_roots(p, k) <= k,
    decreases k,
{
    if k > 0 {
        lemma_count_bound(p, k - 1);
    }
}

pub proof fn lemma_push_contains<A>(s: Seq<A>, v: A)
    ensures
        forall|x: A| #[trigger] s.push(v).contains(x) <==> s.contains(x) || x == v,
        !s.contains(v) && s.no_duplicates() ==> s.push(v).no_duplicates(),
{
    assert forall|x: A| #[trigger] s.push(v).contains(x) <==> s.contains(x) || x == v by {
        if s.contains(x) {
            let k = choose|k: int| 0 <= k < s.len() && s[k] == x;
            assert(s.push(v)[k] == x);
        }
        if x == v {
            assert(s.push(v)[s.len() as int] == x);
        }
        if s.push(v).contains(x) {
            let k = choose|k: int| 0 <= k < s.len() + 1 && s.push(v)[k] == x;
            if k < s.len() {
                assert(s[k] == x);
            }
        }
    }
    if !s.contains(v) && s.no_duplicates() {
        assert forall|a: int, b: int| 0 <= a < b < s.len() + 1 implies s.push(v)[a] != s.push(v)[b] by {
            if b == s.len() {
                assert(s[a] == s.push(v)[a]);
            }
        }
    }
}

/// The reason an operation on the graph could not go on.
#[derive(Debug)]
pub enum EGraphError {
    /// A node whose children do not fit its operator.
    Malformed { op: Language },
    /// Two eclasses with different analysis values were to be merged.
    Inconsistent { eclass: Id, left: Meta, right: Meta },
    /// The graph holds as many nodes as an index can count.
    Full,
}

/// An e-graph: hash-consed term nodes, partitioned into eclasses by a
/// union-find, with an analysis value per eclass.
///
/// Every node has its own id, its index; an eclass is named by the id of its
/// representative. Nodes are never removed.
pub struct EGraph {
    nodes: Vec<ENode>,
    parents: Vec<usize>,
    metas: Vec<Meta>,
}

impl EGraph {
    pub closed spec fn spec_nodes(&self) -> Seq<ENode> {
        self.nodes@
    }

    pub closed spec fn spec_parents(&self) -> Seq<usize> {
        self.parents@
    }

    pub closed spec fn spec_metas(&self) -> Seq<Meta> {
        self.metas@
    }

    pub open spec fn spec_len(&self) -> nat {
        self.spec_nodes().len()
    }

    pub open spec fn spec_op(&self, i: int) -> Language {
        self.spec_nodes()[i].op
    }

    pub open spec fn spec_children(&self, i: int) -> Seq<Id> {
        self.spec_nodes()[i].children@
    }

    /// The representative of the eclass of `i`.
    pub open spec fn root(&self, i: int) -> int {
        root_of(self.spec_parents(), i)
    }

    pub open spec fn equiv(&self, i: int, j: int) -> bool {
        self.root(i) == self.root(j)
    }

    /// The analysis value of the eclass of `i`.
    pub open spec fn class_meta(&self, i: int) -> Meta {
        self.spec_metas()[self.root(i)]
    }

    /// The analysis values of the eclasses of `ch`, in order.
    pub open spec fn metas_of(&self, ch: Seq<Id>) -> Seq<Meta> {
        Seq::new(ch.len(), |k: int| self.class_meta(ch[k] as int))
    }

    pub open spec fn num_classes(&self) -> nat {
        count_roots(self.spec_parents(), self.spec_len() as int)
    }

    pub open spec fn valid_ids(&self, ch: Seq<Id>) -> bool {
        forall|k: int| 0 <= k < ch.len() ==> #[trigger] ch[k] < self.spec_len()
    }

    /// The invariant: parent links point down, children are older nodes, and
    /// every node, analysed on its own, agrees with the value of its eclass.
    pub open spec fn wf(&self) -> bool {
        &&& self.spec_parents().len() == self.spec_len()
        &&& self.spec_metas().len() == self.spec_len()
        &&& links_down(self.spec_parents())
        &&& forall|i: int, k: int|
            0 <= i < self.spec_len() && 0 <= k < self.spec_children(i).len() ==> #[trigger] self.spec_children(i)[k] < i
        &&& forall|i: int|
            0 <= i < self.spec_len() ==> make_spec(self.spec_op(i), self.metas_of(self.spec_children(i)))
                == Some(#[trigger] self.class_meta(i))
        &&& forall|i: int| 0 <= i < self.spec_len() ==> meta_normal(#[trigger] self.class_meta(i))
    }

    /// Node `j` has operator `op` and children equivalent to `ch`, one by one.
    pub open spec fn node_matches(&self, j: int, op: Language, ch: Seq<Id>) -> bool {
        &&& self.spec_op(j) == op
        &&& self.spec_children(j).len() == ch.len()
        &&& forall|k: int|
            0 <= k < ch.len() ==> self.root(#[trigger] self.spec_children(j)[k] as int) == self.root(
                ch[k] as int,
            )
    }

    pub open spec fn has_match(&self, op: Language, ch: Seq<Id>) -> bool {
        exists|j: int| 0 <= j < self.spec_len() && self.node_matches(j, op, ch)
    }

    pub open spec fn is_first_match(&self, j: int, op: Language, ch: Seq<Id>) -> bool {
        &&& 0 <= j < self.spec_len()
        &&& self.node_matches(j, op, ch)
        &&& forall|j2: int| 0 <= j2 < j ==> !self.node_matches(j2, op, ch)
    }

    /// `post` is `self` with one more node, `op` over the representatives
    /// of `ch`, alone in a new eclass whose value `make` gives.
    pub open spec fn appended(&self, post: EGraph, op: Language, ch: Seq<Id>) -> bool {
        let n = self.spec_len() as int;
        &&& n < usize::MAX
        &&& post.spec_len() == n + 1
        &&& forall|i: int| 0 <= i < n ==> post.spec_nodes()[i] == self.spec_nodes()[i]
        &&& post.spec_op(n) == op
        &&& post.spec_children(n) == Seq::new(ch.len(), |k: int| self.root(ch[k] as int) as usize)
        &&& post.spec_parents() == self.spec_parents().push(n as usize)
        &&& post.spec_metas() == self.spec_metas().push(make_spec(op, self.metas_of(ch))->Some_0)
    }

    /// Hash-consing: interning `op` over `ch` in `self` gave `post` and the
    /// eclass `id`. Where a matching node exists nothing changes and its
    /// eclass is returned; else the node is appended as a new eclass.
    pub open spec fn interned(&self, post: EGraph, op: Language, ch: Seq<Id>, id: Id) -> bool {
        if self.has_match(op, ch) {
            post == *self && exists|j: int| self.is_first_match(j, op, ch) && self.root(j) == id
        } else {
            id == self.spec_len() && self.appended(post, op, ch)
        }
    }

    /// `post` has the same nodes, every two nodes equivalent in `self` are
    /// equivalent in `post`, and no node's eclass changed its value.
    pub open spec fn coarsens(&self, post: EGraph) -> bool {
        &&& post.spec_nodes() == self.spec_nodes()
        &&& forall|i: int, j: int|
            0 <= i < self.spec_len() && 0 <= j < self.spec_len() && self.root(i) == self.root(j)
                ==> #[trigger] post.root(i) == #[trigger] post.root(j)
        &&& forall|i: int| 0 <= i < self.spec_len() ==> #[trigger] post.class_meta(i) == self.class_meta(i)
    }

    /// Nodes `i` and `j` have one operator and pairwise equivalent children.
    pub open spec fn congruent(&self, i: int, j: int) -> bool {
        self.node_matches(j, self.spec_op(i), self.spec_children(i))
    }

    /// Congruence closure: congruent nodes are in one eclass.
    pub open spec fn is_closed(&self) -> bool {
        forall|i: int, j: int|
            0 <= i < self.spec_len() && 0 <= j < self.spec_len() && #[trigger] self.congruent(i, j)
                ==> self.root(i) == self.root(j)
    }

    pub proof fn lemma_root(&self, i: int)
        requires
            self.wf(),
            0 <= i < self.spec_len(),
        ensures
            0 <= self.root(i) <= i,
            self.spec_parents()[self.root(i)] == self.root(i),
            self.root(self.root(i)) == self.root(i),
    {
        lemma_root_bounds(self.spec_parents(), i);
    }

    /// An empty graph.
    pub fn new() -> (r: EGraph)
        ensures
            r.wf(),
            r.spec_len() == 0,
    {
        EGraph { nodes: Vec::new(), parents: Vec::new(), metas: Vec::new() }
    }

    /// The number of nodes.
    pub fn total_size(&self) -> (r: usize)
        ensures
            r == self.spec_len(),
    {
        self.nodes.len()
    }

    /// The number of eclasses.
    pub fn number_of_classes(&self) -> (r: usize)
        requires
            self.wf(),
        ensures
            r == self.num_classes(),
    {
        let n = self.parents.len();
        let mut count: usize = 0;
        let mut i: usize = 0;
        while i < n
            invariant
                self.wf(),
                n == self.spec_len(),
                i <= n,
                count == count_roots(self.parents@, i as int),
            decreases n - i,
        {
            proof {
                lemma_count_bound(self.parents@, i as int);
            }
            if self.parents[i] == i {
                count = count + 1;
            }
            i = i + 1;
        }
        count
    }

    /// The representative of the eclass of `i`.
    pub fn find(&self, i: Id) -> (r: Id)
        requires
            self.wf(),
            i < self.spec_len(),
        ensures
            r == self.root(i as int),
            r <= i,
            self.spec_parents()[r as int] == r,
    {
        proof {
            self.lemma_root(i as int);
        }
        let mut x = i;
        while self.parents[x] < x
            invariant
                self.wf(),
                x < self.spec_len(),
                self.root(x as int) == self.root(i as int),
                x <= i,
            decreases x,
        {
            x = self.parents[x];
        }
        x
    }

    /// Node `i`.
    pub fn node(&self, i: Id) -> (r: &ENode)
        requires
            i < self.spec_len(),
        ensures
            *r == self.spec_nodes()[i as int],
    {
        &self.nodes[i]
    }

    /// The analysis value of the eclass of `i`.
    pub fn meta(&self, i: Id) -> (r: &Meta)
        requires
            self.wf(),
            i < self.spec_len(),
        ensures
            *r == self.class_meta(i as int),
    {
        let c = self.find(i);
        &self.metas[c]
    }

    /// The nodes of the eclass of `c`, in id order.
    pub fn members(&self, c: Id) -> (r: Vec<Id>)
        requires
            self.wf(),
            c < self.spec_len(),
        ensures
            forall|x: Id| r@.contains(x) <==> x < self.spec_len() && self.equiv(x as int, c as int),
            r@.no_duplicates(),
    {
        let rc = self.find(c);
        let mut out: Vec<Id> = Vec::new();
        let mut i: usize = 0;
        while i < self.nodes.len()
            invariant
                self.wf(),
                i <= self.spec_len(),
                rc == self.root(c as int),
                forall|x: Id| out@.contains(x) <==> x < i && self.equiv(x as int, c as int),
                forall|k: int| 0 <= k < out@.len() ==> out@[k] < i,
                out@.no_duplicates(),
            decreases self.spec_len() - i,
        {
            if self.find(i) == rc {
                proof {
                    lemma_push_contains(out@, i);
                }
                out.push(i);
            }
            i = i + 1;
        }
        out
    }

    /// Whether node `j` matches `op` over `ch`.
    fn node_matches_exec(&self, j: Id, op: Language, ch: &Vec<Id>) -> (r: bool)
        requires
            self.wf(),
            j < self.spec_len(),
            self.valid_ids(ch@),
        ensures
            r == self.node_matches(j as int, op, ch@),
    {
        let nj = &self.nodes[j];
        if nj.op != op || nj.children.len() != ch.len() {
            return false;
        }
        let mut k: usize = 0;
        while k < ch.len()
            invariant
                self.wf(),
                j < self.spec_len(),
                self.valid_ids(ch@),
                *nj == self.spec_nodes()[j as int],
                nj.children@.len() == ch@.len(),
                k <= ch@.len(),
                forall|k2: int|
                    0 <= k2 < k ==> self.root(#[trigger] nj.children@[k2] as int) == self.root(
                        ch@[k2] as int,
                    ),
            decreases ch@.len() - k,
        {
            assert(self.spec_children(j as int)[k as int] < j);
            if self.find(nj.children[k]) != self.find(ch[k]) {
                return false;
            }
            k = k + 1;
        }
        true
    }

    /// The eclass of the first node with operator `op` and children
    /// equivalent to `ch`, if there is one.
    pub fn lookup(&self, op: Language, ch: &Vec<Id>) -> (r: Option<Id>)
        requires
            self.wf(),
            self.valid_ids(ch@),
        ensures
            r is None <==> !self.has_match(op, ch@),
            r matches Some(id) ==> exists|j: int| self.is_first_match(j, op, ch@) && self.root(j) == id,
    {
        let mut j: usize = 0;
        while j < self.nodes.len()
            invariant
                self.wf(),
                self.valid_ids(ch@),
                j <= self.spec_len(),
                forall|j2: int| 0 <= j2 < j ==> !self.node_matches(j2, op, ch@),
            decreases self.spec_len() - j,
        {
            if self.node_matches_exec(j, op, ch) {
                let r = self.find(j);
                assert(self.is_first_match(j as int, op, ch@));
                return Some(r);
            }
            j = j + 1;
        }
        None
    }

    /// `post` is `self` with the eclasses of `x` and `y` (representatives)
    /// joined under the smaller of the two; the values stay as they were.
    pub open spec fn linked(&self, post: EGraph, x: int, y: int) -> bool {
        let lo = if x < y { x } else { y };
        let hi = if x < y { y } else { x };
        &&& post.spec_nodes() == self.spec_nodes()
        &&& forall|i: int| 0 <= i < self.spec_len() ==> #[trigger] post.root(i) == if self.root(i) == hi {
            lo
        } else {
            self.root(i)
        }
        &&& forall|i: int| 0 <= i < self.spec_len() ==> #[trigger] post.class_meta(i) == self.class_meta(i)
        &&& post.num_classes() + (if x != y { 1nat } else { 0nat }) == self.num_classes()
    }

    proof fn lemma_appended(&self, post: EGraph, op: Language, ch: Seq<Id>)
        requires
            self.wf(),
            self.valid_ids(ch),
            make_spec(op, self.metas_of(ch)) is Some,
            self.appended(post, op, ch),
        ensures
            post.wf(),
            forall|x: int| 0 <= x < self.spec_len() ==> #[trigger] post.root(x) == self.root(x),
            forall|x: int| 0 <= x < self.spec_len() ==> #[trigger] post.class_meta(x) == self.class_meta(x),
            post.root(self.spec_len() as int) == self.spec_len(),
    {
        let n = self.spec_len() as int;
        assert forall|x: int| 0 <= x < n implies #[trigger] post.root(x) == self.root(x)
            && post.class_meta(x) == self.class_meta(x) by {
            lemma_root_push(self.spec_parents(), x);
            self.lemma_root(x);
        }
        assert(post.spec_parents()[n] == n as usize);
        assert(post.root(n) == n);
        assert forall|i: int, k: int|
            0 <= i < post.spec_len() && 0 <= k < post.spec_children(i).len() implies #[trigger] post.spec_children(i)[k] < i by {
            if i == n {
                self.lemma_root(ch[k] as int);
            } else {
                assert(post.spec_nodes()[i] == self.spec_nodes()[i]);
                assert(self.spec_children(i)[k] < i);
            }
        }
        assert forall|i: int| 0 <= i < post.spec_len() implies make_spec(post.spec_op(i), post.metas_of(post.spec_children(i)))
            == Some(#[trigger] post.class_meta(i)) by {
            if i == n {
                assert forall|k: int| 0 <= k < ch.len() implies post.class_meta(post.spec_children(n)[k] as int)
                    == self.class_meta(ch[k] as int) by {
                    self.lemma_root(ch[k] as int);
                }
                assert(post.metas_of(post.spec_children(n)) =~= self.metas_of(ch));
                assert forall|k: int| 0 <= k < self.metas_of(ch).len() implies meta_normal(#[trigger] self.metas_of(ch)[k]) by {
                    assert(meta_normal(self.class_meta(ch[k] as int)));
                }
                lemma_make_normal(op, self.metas_of(ch));
            } else {
                assert(post.spec_nodes()[i] == self.spec_nodes()[i]);
                assert forall|k: int| 0 <= k < self.spec_children(i).len() implies #[trigger] self.spec_children(i)[k] < i by {
                }
                assert(post.metas_of(post.spec_children(i)) =~= self.metas_of(self.spec_children(i)));
            }
        }
    }

    /// Hash-consing: once a node is interned, interning it again returns the
    /// same eclass and leaves the graph as it is.
    pub proof fn lemma_intern_twice(&self, post: EGraph, op: Language, ch: Seq<Id>, id: Id)
        requires
            self.wf(),
            self.valid_ids(ch),
            self.interned(post, op, ch, id),
            self.has_match(op, ch) || make_spec(op, self.metas_of(ch)) is Some,
        ensures
            post.wf(),
            post.has_match(op, ch),
            post.interned(post, op, ch, id),
    {
        if !self.has_match(op, ch) {
            let n = self.spec_len() as int;
            self.lemma_appended(post, op, ch);
            assert forall|k: int| 0 <= k < ch.len() implies post.root(#[trigger] post.spec_children(n)[k] as int)
                == post.root(ch[k] as int) by {
                self.lemma_root(ch[k] as int);
            }
            assert(post.node_matches(n, op, ch));
            assert forall|j2: int| 0 <= j2 < n implies !post.node_matches(j2, op, ch) by {
                assert(post.spec_nodes()[j2] == self.spec_nodes()[j2]);
                if post.node_matches(j2, op, ch) {
                    assert forall|k: int| 0 <= k < ch.len() implies self.root(#[trigger] self.spec_children(j2)[k] as int)
                        == self.root(ch[k] as int) by {
                        assert(self.spec_children(j2)[k] < j2);
                        assert(post.root(post.spec_children(j2)[k] as int) == post.root(ch[k] as int));
                    }
                    assert(self.node_matches(j2, op, ch));
                }
            }
            assert(post.is_first_match(n, op, ch));
        }
    }

    /// Interns `node`: returns the eclass of an existing node with the same
    /// operator and equivalent children, or else adds the node, over the
    /// representatives of its children, as a new eclass whose value `make`
    /// computes. An ill-formed node is refused.
    pub fn add(&mut self, node: ENode) -> (r: Result<Id, EGraphError>)
        requires
            old(self).wf(),
            old(self).valid_ids(node.children@),
        ensures
            final(self).wf(),
            r matches Ok(id) ==> old(self).interned(*final(self), node.op, node.children@, id),
            r is Err <==> !old(self).has_match(node.op, node.children@) && (make_spec(
                node.op,
                old(self).metas_of(node.children@),
            ) is None || old(self).spec_len() == usize::MAX),
            r is Err ==> *final(self) == *old(self),
            r matches Err(e) ==> (e is Malformed || e is Full),
            r matches Err(e) ==> (e is Full <==> old(self).spec_len() == usize::MAX),
    {
        match self.lookup(node.op, &node.children) {
            Some(id) => {
                return Ok(id);
            },
            None => {},
        }
        let n = self.nodes.len();
        if n == usize::MAX {
            return Err(EGraphError::Full);
        }
        let mut canon: Vec<Id> = Vec::new();
        let mut vals: Vec<Meta> = Vec::new();
        let mut k: usize = 0;
        while k < node.children.len()
            invariant
                *self == *old(self),
                self.wf(),
                self.valid_ids(node.children@),
                k <= node.children@.len(),
                canon@.len() == k,
                vals@.len() == k,
                forall|k2: int|
                    0 <= k2 < k ==> canon@[k2] == self.root(node.children@[k2] as int) as usize,
                forall|k2: int|
                    0 <= k2 < k ==> vals@[k2] == self.class_meta(node.children@[k2] as int),
            decreases node.children@.len() - k,
        {
            let c = self.find(node.children[k]);
            canon.push(c);
            vals.push(self.metas[c].duplicate());
            k = k + 1;
        }
        assert(vals@ =~= self.metas_of(node.children@));
        assert(canon@ =~= Seq::new(
            node.children@.len(),
            |k: int| self.root(node.children@[k] as int) as usize,
        ));
        match Meta::make(node.op, &vals) {
            None => Err(EGraphError::Malformed { op: node.op }),
            Some(m) => {
                let ghost before = *self;
                self.nodes.push(ENode { op: node.op, children: canon });
                self.parents.push(n);
                self.metas.push(m);
                proof {
                    assert(before.appended(*self, node.op, node.children@));
                    before.lemma_appended(*self, node.op, node.children@);
                }
                Ok(n)
            },
        }
    }

    /// Merges the eclasses of `a` and `b` under the smaller representative,
    /// then compresses the paths from `a` and `b`. Their values must agree:
    /// a difference is reported as an inconsistency and changes nothing.
    pub fn union(&mut self, a: Id, b: Id) -> (r: Result<Id, EGraphError>)
        requires
            old(self).wf(),
            a < old(self).spec_len(),
            b < old(self).spec_len(),
        ensures
            final(self).wf(),
            r is Err <==> old(self).class_meta(a as int) != old(self).class_meta(b as int),
            r is Err ==> *final(self) == *old(self),
            r matches Err(e) ==> e is Inconsistent,
            r matches Ok(id) ==> {
                let x = old(self).root(a as int);
                let y = old(self).root(b as int);
                &&& id == if x < y { x } else { y }
                &&& old(self).linked(*final(self), x, y)
            },
    {
        let ra = self.find(a);
        let rb = self.find(b);
        if ra == rb {
            return Ok(ra);
        }
        match self.metas[ra].merge(&self.metas[rb]) {
            None => Err(
                EGraphError::Inconsistent {
                    eclass: ra,
                    left: self.metas[ra].duplicate(),
                    right: self.metas[rb].duplicate(),
                },
            ),
            Some(m) => {
                let ghost before = *self;
                let lo = if ra < rb { ra } else { rb };
                let hi = if ra < rb { rb } else { ra };
                self.parents.set(hi, lo);
                self.metas.set(lo, m);
                proof {
                    assert(self.metas@ =~= before.metas@);
                    let n = before.spec_len() as int;
                    assert(links_down(self.parents@));
                    assert(self.spec_parents().len() == self.spec_len());
                    assert(self.spec_metas().len() == self.spec_len());
                    assert forall|i: int| 0 <= i < n implies #[trigger] self.root(i) == if before.root(i)
                        == hi as int {
                        lo as int
                    } else {
                        before.root(i)
                    } && self.class_meta(i) == before.class_meta(i) by {
                        lemma_root_link(before.parents@, lo as int, hi as int, i);
                        before.lemma_root(i);
                    }
                    lemma_count_link(before.parents@, lo as int, hi as int, n);
                    assert forall|i: int| 0 <= i < n implies make_spec(self.spec_op(i), self.metas_of(self.spec_children(i)))
                        == Some(#[trigger] self.class_meta(i)) by {
                        assert forall|k: int| 0 <= k < self.spec_children(i).len() implies #[trigger] self.spec_children(i)[k] < i by {
                        }
                        assert(self.metas_of(self.spec_children(i)) =~= before.metas_of(before.spec_children(i)));
                    }
                    assert(self.spec_nodes() == before.spec_nodes());
                    assert forall|i: int, k: int|
                        0 <= i < self.spec_len() && 0 <= k < self.spec_children(i).len() implies #[trigger] self.spec_children(i)[k] < i by {
                        assert(before.spec_children(i)[k] < i);
                    }
                    assert(before.linked(*self, ra as int, rb as int));
                }
                let ghost mid = *self;
                self.find_mut(a);
                self.find_mut(b);
                proof {
                    assert forall|i: int| 0 <= i < before.spec_len() implies #[trigger] self.root(i) == mid.root(i)
                        && self.class_meta(i) == mid.class_meta(i) by {
                    }
                }
                Ok(lo)
            },
        }
    }

    pub proof fn lemma_coarsens_refl(&self)
        ensures
            self.coarsens(*self),
    {
    }

    pub proof fn lemma_coarsens_trans(&self, mid: EGraph, post: EGraph)
        requires
            self.coarsens(mid),
            mid.coarsens(post),
        ensures
            self.coarsens(post),
    {
        assert forall|i: int, j: int|
            0 <= i < self.spec_len() && 0 <= j < self.spec_len() && self.root(i) == self.root(j)
                implies #[trigger] post.root(i) == #[trigger] post.root(j) by {
            assert(mid.root(i) == mid.root(j));
        }
        assert forall|i: int| 0 <= i < self.spec_len() implies #[trigger] post.class_meta(i) == self.class_meta(i) by {
            assert(mid.class_meta(i) == self.class_meta(i));
        }
    }

    pub proof fn lemma_linked_coarsens(&self, post: EGraph, x: int, y: int)
        requires
            self.linked(post, x, y),
        ensures
            self.coarsens(post),
    {
        assert forall|i: int, j: int|
            0 <= i < self.spec_len() && 0 <= j < self.spec_len() && self.root(i) == self.root(j)
                implies #[trigger] post.root(i) == #[trigger] post.root(j) by {
        }
    }

    /// Congruent nodes have one analysis value.
    pub proof fn lemma_congruent_meta(&self, i: int, j: int)
        requires
            self.wf(),
            0 <= i < self.spec_len(),
            0 <= j < self.spec_len(),
            self.congruent(i, j),
        ensures
            self.class_meta(i) == self.class_meta(j),
            self.congruent(j, i),
    {
        assert(self.metas_of(self.spec_children(i)) =~= self.metas_of(self.spec_children(j)));
        assert forall|k: int| 0 <= k < self.spec_children(i).len() implies self.root(
            #[trigger] self.spec_children(i)[k] as int,
        ) == self.root(self.spec_children(j)[k] as int) by {
            assert(self.root(self.spec_children(j)[k] as int) == self.root(self.spec_children(i)[k] as int));
        }
    }

    /// Whether nodes `i` and `j` are congruent.
    fn congruent_exec(&self, i: Id, j: Id) -> (r: bool)
        requires
            self.wf(),
            i < self.spec_len(),
            j < self.spec_len(),
        ensures
            r == self.congruent(i as int, j as int),
    {
        let ni = &self.nodes[i];
        assert forall|k: int| 0 <= k < ni.children@.len() implies #[trigger] ni.children@[k] < self.spec_len() by {
            assert(self.spec_children(i as int)[k] < i);
        }
        self.node_matches_exec(j, ni.op, &ni.children)
    }

    /// One pass over all pairs of nodes, joining the eclasses of congruent
    /// ones; tells whether it joined any.
    fn rebuild_pass(&mut self) -> (changed: bool)
        requires
            old(self).wf(),
        ensures
            final(self).wf(),
            old(self).coarsens(*final(self)),
            !changed ==> *final(self) == *old(self) && final(self).is_closed(),
            changed ==> final(self).num_classes() < old(self).num_classes(),
            old(self).is_closed() ==> !changed,
            forall|h: EGraph| #[trigger] old(self).closed_above(h) ==> final(self).refines(h),
    {
        let ghost start = *self;
        let n = self.nodes.len();
        let mut changed = false;
        let mut i: usize = 0;
        proof {
            start.lemma_coarsens_refl();
        }
        while i < n
            invariant
                self.wf(),
                start.wf(),
                n == start.spec_len(),
                i <= n,
                start.coarsens(*self),
                self.num_classes() <= start.num_classes(),
                changed ==> self.num_classes() < start.num_classes(),
                !changed ==> *self == start,
                start.is_closed() ==> !changed,
                forall|h: EGraph| #[trigger] start.closed_above(h) ==> self.refines(h),
                !changed ==> forall|i2: int, j2: int|
                    0 <= j2 < i2 < i && #[trigger] self.congruent(i2, j2) ==> self.root(i2) == self.root(j2),
            decreases n - i,
        {
            let mut j: usize = 0;
            while j < i
                invariant
                    self.wf(),
                    start.wf(),
                    n == start.spec_len(),
                    j <= i < n,
                    start.coarsens(*self),
                    self.num_classes() <= start.num_classes(),
                    changed ==> self.num_classes() < start.num_classes(),
                    !changed ==> *self == start,
                    start.is_closed() ==> !changed,
                    forall|h: EGraph| #[trigger] start.closed_above(h) ==> self.refines(h),
                    !changed ==> forall|i2: int, j2: int|
                        0 <= j2 < i2 < i && #[trigger] self.congruent(i2, j2) ==> self.root(i2) == self.root(j2),
                    !changed ==> forall|j2: int|
                        0 <= j2 < j && #[trigger] self.congruent(i as int, j2) ==> self.root(i as int) == self.root(j2),
                decreases i - j,
            {
                if self.congruent_exec(i, j) && self.find(i) != self.find(j) {
                    proof {
                        self.lemma_congruent_meta(i as int, j as int);
                    }
                    let ghost before = *self;
                    let res = self.union(i, j);
                    proof {
                        before.lemma_linked_coarsens(*self, before.root(i as int), before.root(j as int));
                        start.lemma_coarsens_trans(before, *self);
                        assert forall|h: EGraph| #[trigger] start.closed_above(h) implies self.refines(h) by {
                            assert(before.closed_above(h));
                            before.lemma_link_forced(*self, i as int, j as int, h);
                        }
                    }
                    changed = true;
                }
                j = j + 1;
            }
            i = i + 1;
        }
        proof {
            if !changed {
                assert forall|a: int, b: int|
                    0 <= a < self.spec_len() && 0 <= b < self.spec_len() && #[trigger] self.congruent(a, b)
                        implies self.root(a) == self.root(b) by {
                    if b < a {
                    } else if a < b {
                        self.lemma_congruent_meta(a, b);
                        assert(self.congruent(b, a));
                    }
                }
            }
        }
        changed
    }

    /// Restores congruence closure after unions: repeats passes over the
    /// nodes, joining congruent ones, until a pass joins nothing. Congruent
    /// nodes always agree on their value, so this never meets an
    /// inconsistency. A graph that is already closed is left as it is.
    /// Every join is forced by congruence: any closed partition of the same
    /// nodes that joins what the old graph joined joins all that the result
    /// joins.
    pub fn rebuild(&mut self)
        requires
            old(self).wf(),
        ensures
            final(self).wf(),
            old(self).coarsens(*final(self)),
            final(self).is_closed(),
            old(self).is_closed() ==> *final(self) == *old(self),
            forall|h: EGraph| #[trigger] old(self).closed_above(h) ==> final(self).refines(h),
    {
        proof {
            self.lemma_coarsens_refl();
        }
        loop
            invariant
                self.wf(),
                old(self).coarsens(*self),
                old(self).is_closed() ==> *self == *old(self),
                forall|h: EGraph| #[trigger] old(self).closed_above(h) ==> self.refines(h),
            ensures
                self.wf(),
                old(self).coarsens(*self),
                self.is_closed(),
                old(self).is_closed() ==> *self == *old(self),
                forall|h: EGraph| #[trigger] old(self).closed_above(h) ==> self.refines(h),
            decreases self.num_classes(),
        {
            let ghost before = *self;
            let changed = self.rebuild_pass();
            proof {
                old(self).lemma_coarsens_trans(before, *self);
                assert forall|h: EGraph| #[trigger] old(self).closed_above(h) implies self.refines(h) by {
                    assert(before.refines(h));
                    assert(before.closed_above(h));
                }
            }
            if !changed {
                break;
            }
        }
    }

    /// `post` keeps every node of `self` and every equivalence between them,
    /// and no node's eclass changed its value; it may hold more nodes.
    pub open spec fn grows_to(&self, post: EGraph) -> bool {
        &&& post.spec_len() >= self.spec_len()
        &&& forall|i: int| 0 <= i < self.spec_len() ==> #[trigger] post.spec_nodes()[i] == self.spec_nodes()[i]
        &&& forall|i: int, j: int|
            0 <= i < self.spec_len() && 0 <= j < self.spec_len() && self.root(i) == self.root(j)
                ==> #[trigger] post.root(i) == #[trigger] post.root(j)
        &&& forall|i: int| 0 <= i < self.spec_len() ==> #[trigger] post.class_meta(i) == self.class_meta(i)
    }

    pub proof fn lemma_grows_refl(&self)
        ensures
            self.grows_to(*self),
    {
    }

    pub proof fn lemma_grows_trans(&self, mid: EGraph, post: EGraph)
        requires
            self.grows_to(mid),
            mid.grows_to(post),
        ensures
            self.grows_to(post),
    {
        assert forall|i: int, j: int|
            0 <= i < self.spec_len() && 0 <= j < self.spec_len() && self.root(i) == self.root(j)
                implies #[trigger] post.root(i) == #[trigger] post.root(j) by {
            assert(mid.root(i) == mid.root(j));
        }
        assert forall|i: int| 0 <= i < self.spec_len() implies #[trigger] post.class_meta(i) == self.class_meta(i) by {
            assert(mid.class_meta(i) == self.class_meta(i));
        }
        assert forall|i: int| 0 <= i < self.spec_len() implies #[trigger] post.spec_nodes()[i] == self.spec_nodes()[i] by {
            assert(mid.spec_nodes()[i] == self.spec_nodes()[i]);
        }
    }

    pub proof fn lemma_coarsens_grows(&self, post: EGraph)
        requires
            self.coarsens(post),
        ensures
            self.grows_to(post),
    {
    }

    /// A matching node stays matching as the graph grows, and matching
    /// depends on the children only up to equivalence.
    pub proof fn lemma_match_grows(&self, post: EGraph, op: Language, ch: Seq<Id>, ch2: Seq<Id>)
        requires
            self.wf(),
            self.grows_to(post),
            self.valid_ids(ch),
            self.has_match(op, ch),
            ch2.len() == ch.len(),
            forall|k: int| 0 <= k < ch.len() ==> post.root(#[trigger] ch[k] as int) == post.root(ch2[k] as int),
        ensures
            post.has_match(op, ch2),
            exists|j: int| 0 <= j < self.spec_len() && post.node_matches(j, op, ch2),
    {
        let j = choose|j: int| 0 <= j < self.spec_len() && self.node_matches(j, op, ch);
        assert(post.spec_nodes()[j] == self.spec_nodes()[j]);
        assert forall|k: int| 0 <= k < ch2.len() implies post.root(#[trigger] post.spec_children(j)[k] as int)
            == post.root(ch2[k] as int) by {
            assert(self.spec_children(j)[k] < j);
            assert(self.root(self.spec_children(j)[k] as int) == self.root(ch[k] as int));
            assert(post.root(self.spec_children(j)[k] as int) == post.root(ch[k] as int));
        }
        assert(post.node_matches(j, op, ch2));
    }

    /// What interning leaves behind: a node matching the request in the
    /// returned eclass, in a graph that grew from the old one.
    pub proof fn lemma_interned_found(&self, post: EGraph, op: Language, ch: Seq<Id>, id: Id)
        requires
            self.wf(),
            post.wf(),
            self.valid_ids(ch),
            self.interned(post, op, ch, id),
            self.has_match(op, ch) || make_spec(op, self.metas_of(ch)) is Some,
        ensures
            self.grows_to(post),
            exists|j: int| 0 <= j < post.spec_len() && post.node_matches(j, op, ch) && post.root(j) == id,
            id < post.spec_len(),
    {
        self.lemma_intern_twice(post, op, ch, id);
        if !self.has_match(op, ch) {
            self.lemma_appended(post, op, ch);
        }
        let j = choose|j: int| post.is_first_match(j, op, ch) && post.root(j) == id;
        post.lemma_root(j);
    }

    pub proof fn lemma_linked_grows(&self, post: EGraph, x: int, y: int)
        requires
            self.linked(post, x, y),
        ensures
            self.grows_to(post),
    {
        self.lemma_linked_coarsens(post, x, y);
    }

    /// Congruence: when `a` and `b` are in one eclass and the graph is then
    /// rebuilt (which leaves it closed, with the same nodes and no eclass
    /// split), the nodes `f(a)` and `f(b)` end up in one eclass too.
    pub proof fn lemma_rebuild_congruence(&self, post: EGraph, a: Id, b: Id, fa: int, fb: int)
        requires
            self.wf(),
            self.coarsens(post),
            post.is_closed(),
            a < self.spec_len(),
            b < self.spec_len(),
            self.equiv(a as int, b as int),
            0 <= fa < self.spec_len(),
            0 <= fb < self.spec_len(),
            self.spec_op(fa) == self.spec_op(fb),
            self.spec_children(fa) == seq![a],
            self.spec_children(fb) == seq![b],
        ensures
            post.equiv(fa, fb),
    {
        assert(post.root(a as int) == post.root(b as int));
        assert(post.spec_children(fa)[0] == a);
        assert(post.spec_children(fb)[0] == b);
        assert(post.congruent(fa, fb));
    }

    /// `find` with path compression: every node on the path from `i` is
    /// linked straight to the representative. No eclass changes.
    pub fn find_mut(&mut self, i: Id) -> (r: Id)
        requires
            old(self).wf(),
            i < old(self).spec_len(),
        ensures
            r == old(self).root(i as int),
            final(self).wf(),
            final(self).spec_nodes() == old(self).spec_nodes(),
            final(self).spec_metas() == old(self).spec_metas(),
            forall|x: int| 0 <= x < old(self).spec_len() ==> #[trigger] final(self).root(x) == old(self).root(x),
            old(self).coarsens(*final(self)),
            final(self).num_classes() == old(self).num_classes(),
    {
        let r = self.find(i);
        let mut x = i;
        while self.parents[x] < x
            invariant
                self.wf(),
                x < self.spec_len(),
                self.root(x as int) == r,
                self.spec_nodes() == old(self).spec_nodes(),
                self.spec_metas() == old(self).spec_metas(),
                forall|y: int| 0 <= y < old(self).spec_len() ==> #[trigger] self.root(y) == old(self).root(y),
                self.num_classes() == old(self).num_classes(),
            decreases x,
        {
            let next = self.parents[x];
            let ghost before = *self;
            proof {
                before.lemma_root(x as int);
                lemma_count_relink(before.parents@, x as int, r, before.spec_len() as int);
            }
            self.parents.set(x, r);
            proof {
                let n = before.spec_len() as int;
                assert(self.parents@ == before.parents@.update(x as int, root_of(before.parents@, x as int) as usize));
                assert forall|y: int| 0 <= y < n implies #[trigger] self.root(y) == before.root(y) by {
                    lemma_root_compress(before.parents@, x as int, y);
                }
                assert(links_down(self.parents@));
                assert forall|y: int| 0 <= y < n implies #[trigger] self.class_meta(y) == before.class_meta(y) by {
                    assert(self.root(y) == before.root(y));
                }
                assert forall|y: int| 0 <= y < n implies make_spec(self.spec_op(y), self.metas_of(self.spec_children(y)))
                    == Some(#[trigger] self.class_meta(y)) by {
                    assert forall|k: int| 0 <= k < self.spec_children(y).len() implies #[trigger] self.spec_children(y)[k] < y by {
                        assert(before.spec_children(y)[k] < y);
                    }
                    assert(self.metas_of(self.spec_children(y)) =~= before.metas_of(before.spec_children(y)));
                    assert(make_spec(before.spec_op(y), before.metas_of(before.spec_children(y))) == Some(before.class_meta(y)));
                }
                assert forall|y: int, k: int|
                    0 <= y < n && 0 <= k < self.spec_children(y).len() implies #[trigger] self.spec_children(y)[k] < y by {
                    assert(before.spec_children(y)[k] < y);
                }
                assert forall|y: int| 0 <= y < n implies meta_normal(#[trigger] self.class_meta(y)) by {
                    assert(before.class_meta(y) == self.class_meta(y));
                }
            }
            x = next;
        }
        proof {
            assert forall|a: int, b: int|
                0 <= a < old(self).spec_len() && 0 <= b < old(self).spec_len() && old(self).root(a) == old(self).root(b)
                    implies #[trigger] self.root(a) == #[trigger] self.root(b) by {
            }
        }
        r
    }

    /// `post` is `self` with nodes appended and nothing else: every old node
    /// keeps its eclass and value, and every new node is alone in its own.
    pub open spec fn appends_only(&self, post: EGraph) -> bool {
        &&& self.grows_to(post)
        &&& forall|i: int| 0 <= i < self.spec_len() ==> #[trigger] post.root(i) == self.root(i)
        &&& forall|i: int| self.spec_len() <= i < post.spec_len() ==> #[trigger] post.root(i) == i
    }

    pub proof fn lemma_appends_refl(&self)
        ensures
            self.appends_only(*self),
    {
    }

    pub proof fn lemma_appends_trans(&self, mid: EGraph, post: EGraph)
        requires
            self.appends_only(mid),
            mid.appends_only(post),
        ensures
            self.appends_only(post),
    {
        self.lemma_grows_trans(mid, post);
        assert forall|i: int| 0 <= i < self.spec_len() implies #[trigger] post.root(i) == self.root(i) by {
            assert(mid.root(i) == self.root(i));
        }
        assert forall|i: int| self.spec_len() <= i < post.spec_len() implies #[trigger] post.root(i) == i by {
            if i < mid.spec_len() {
                assert(mid.root(i) == i);
            }
        }
    }

    /// Interning into a closed graph joins nothing and keeps it closed: a
    /// new node has no congruent partner, or it would have been found.
    pub proof fn lemma_interned_closed(&self, post: EGraph, op: Language, ch: Seq<Id>, id: Id)
        requires
            self.wf(),
            post.wf(),
            self.is_closed(),
            self.valid_ids(ch),
            self.interned(post, op, ch, id),
            self.has_match(op, ch) || make_spec(op, self.metas_of(ch)) is Some,
        ensures
            self.appends_only(post),
            post.is_closed(),
    {
        self.lemma_interned_found(post, op, ch, id);
        if !self.has_match(op, ch) {
            let n = self.spec_len() as int;
            self.lemma_appended(post, op, ch);
            assert forall|a: int| 0 <= a < n && post.congruent(n, a) implies false by {
                assert(post.spec_nodes()[a] == self.spec_nodes()[a]);
                assert forall|k: int| 0 <= k < ch.len() implies self.root(#[trigger] self.spec_children(a)[k] as int)
                    == self.root(ch[k] as int) by {
                    assert(self.spec_children(a)[k] < a);
                    self.lemma_root(ch[k] as int);
                    assert(post.root(post.spec_children(n)[k] as int) == post.root(post.spec_children(a)[k] as int));
                }
                assert(self.node_matches(a, op, ch));
            }
            assert forall|a: int, b: int|
                0 <= a < post.spec_len() && 0 <= b < post.spec_len() && #[trigger] post.congruent(a, b)
                    implies post.root(a) == post.root(b) by {
                if a < n && b < n {
                    assert(post.spec_nodes()[a] == self.spec_nodes()[a]);
                    assert(post.spec_nodes()[b] == self.spec_nodes()[b]);
                    assert forall|k: int| 0 <= k < self.spec_children(a).len() implies self.root(
                        #[trigger] self.spec_children(b)[k] as int,
                    ) == self.root(self.spec_children(a)[k] as int) by {
                        assert(self.spec_children(a)[k] < a);
                        assert(self.spec_children(b)[k] < b);
                        assert(post.root(post.spec_children(b)[k] as int) == post.root(post.spec_children(a)[k] as int));
                    }
                    assert(self.congruent(a, b));
                } else if a == n && b < n {
                } else if b == n && a < n {
                    post.lemma_congruent_meta(a, b);
                }
            }
        } else {
            self.lemma_appends_refl();
        }
    }

    /// Interning adds at most the one node asked for.
    pub proof fn lemma_interned_adds(&self, post: EGraph, op: Language, ch: Seq<Id>, id: Id)
        requires
            self.interned(post, op, ch, id),
        ensures
            post.spec_len() <= self.spec_len() + 1,
            forall|i: int| self.spec_len() <= i < post.spec_len() ==> #[trigger] post.spec_op(i) == op,
    {
    }

    /// A node that interning appends matches what was asked for.
    pub proof fn lemma_interned_new_node(&self, post: EGraph, op: Language, ch: Seq<Id>, id: Id)
        requires
            self.wf(),
            self.valid_ids(ch),
            self.interned(post, op, ch, id),
            self.has_match(op, ch) || make_spec(op, self.metas_of(ch)) is Some,
        ensures
            forall|i: int| self.spec_len() <= i < post.spec_len() ==> #[trigger] post.node_matches(i, op, ch),
    {
        if !self.has_match(op, ch) {
            let n = self.spec_len() as int;
            self.lemma_appended(post, op, ch);
            assert forall|k: int| 0 <= k < ch.len() implies post.root(#[trigger] post.spec_children(n)[k] as int)
                == post.root(ch[k] as int) by {
                self.lemma_root(ch[k] as int);
            }
            assert(post.node_matches(n, op, ch));
        }
    }

    /// Every two nodes equivalent in `self` are equivalent in `h`.
    pub open spec fn refines(&self, h: EGraph) -> bool {
        forall|i: int, j: int|
            0 <= i < self.spec_len() && 0 <= j < self.spec_len() && self.root(i) == self.root(j)
                ==> #[trigger] h.root(i) == #[trigger] h.root(j)
    }

    /// `h` holds the nodes of `self` at the same ids, and maybe more.
    pub open spec fn extends_nodes(&self, h: EGraph) -> bool {
        &&& h.spec_len() >= self.spec_len()
        &&& forall|i: int| 0 <= i < self.spec_len() ==> #[trigger] h.spec_nodes()[i] == self.spec_nodes()[i]
    }

    /// `h` holds the nodes of `self`, is closed, and joins everything that
    /// `self` joins: a candidate result of rebuilding `self`.
    pub open spec fn closed_above(&self, h: EGraph) -> bool {
        &&& self.extends_nodes(h)
        &&& self.refines(h)
        &&& h.is_closed()
    }

    /// Joining two eclasses that `h` already joins keeps `h` above.
    pub proof fn lemma_link_refines(&self, post: EGraph, i: int, j: int, h: EGraph)
        requires
            self.wf(),
            0 <= i < self.spec_len(),
            0 <= j < self.spec_len(),
            self.linked(post, self.root(i), self.root(j)),
            self.refines(h),
            h.root(i) == h.root(j),
        ensures
            post.refines(h),
    {
        self.lemma_root(i);
        self.lemma_root(j);
        assert forall|a: int, b: int|
            0 <= a < post.spec_len() && 0 <= b < post.spec_len() && post.root(a) == post.root(b)
                implies #[trigger] h.root(a) == #[trigger] h.root(b) by {
            if self.root(a) == self.root(i) {
                assert(h.root(a) == h.root(i));
            }
            if self.root(a) == self.root(j) {
                assert(h.root(a) == h.root(j));
            }
            if self.root(b) == self.root(i) {
                assert(h.root(b) == h.root(i));
            }
            if self.root(b) == self.root(j) {
                assert(h.root(b) == h.root(j));
            }
        }
    }

    /// Appending nodes keeps `h` above.
    pub proof fn lemma_appends_refines(&self, post: EGraph, h: EGraph)
        requires
            self.wf(),
            self.appends_only(post),
            self.refines(h),
        ensures
            post.refines(h),
    {
        assert forall|a: int, b: int|
            0 <= a < post.spec_len() && 0 <= b < post.spec_len() && post.root(a) == post.root(b)
                implies #[trigger] h.root(a) == #[trigger] h.root(b) by {
            if a < self.spec_len() {
                self.lemma_root(a);
            }
            if b < self.spec_len() {
                self.lemma_root(b);
            }
        }
    }

    /// A join of congruent eclasses is forced in any closed partition above.
    proof fn lemma_link_forced(&self, post: EGraph, i: int, j: int, h: EGraph)
        requires
            self.wf(),
            0 <= i < self.spec_len(),
            0 <= j < self.spec_len(),
            self.congruent(i, j),
            self.linked(post, self.root(i), self.root(j)),
            self.closed_above(h),
        ensures
            post.refines(h),
    {
        assert(h.spec_nodes()[i] == self.spec_nodes()[i]);
        assert(h.spec_nodes()[j] == self.spec_nodes()[j]);
        assert forall|k: int| 0 <= k < self.spec_children(i).len() implies h.root(
            #[trigger] h.spec_children(j)[k] as int,
        ) == h.root(h.spec_children(i)[k] as int) by {
            assert(self.spec_children(i)[k] < i);
            assert(self.spec_children(j)[k] < j);
            assert(self.root(self.spec_children(j)[k] as int) == self.root(self.spec_children(i)[k] as int));
        }
        assert(h.congruent(i, j));
        assert(h.root(i) == h.root(j));
        self.lemma_link_refines(post, i, j, h);
    }

    /// Interning never joins eclasses: it appends one node, or nothing.
    pub proof fn lemma_interned_appends(&self, post: EGraph, op: Language, ch: Seq<Id>, id: Id)
        requires
            self.wf(),
            post.wf(),
            self.valid_ids(ch),
            self.interned(post, op, ch, id),
            self.has_match(op, ch) || make_spec(op, self.metas_of(ch)) is Some,
        ensures
            self.appends_only(post),
    {
        self.lemma_interned_found(post, op, ch, id);
        if !self.has_match(op, ch) {
            self.lemma_appended(post, op, ch);
        }
    }
}

} // verus!
