use vstd::prelude::*;
use itertools::Itertools;
use crate::domain::{Domain, DomainId, TopOrBottom};
use crate::egraph::{EGraph, lemma_push_contains};
use crate::language::{Id, Language, Meta, Value};

verus! {

/// Every pair of an item of `a` with an item of `b`: `a` outer, `b` inner.
pub open spec fn product(a: Seq<Id>, b: Seq<Id>) -> Seq<(Id, Id)>
    decreases a.len(),
{
    if a.len() == 0 {
        seq![]
    } else {
        product(a.drop_last(), b) + b.map_values(|y: Id| (a.last(), y))
    }
}

pub proof fn lemma_product_contains(a: Seq<Id>, b: Seq<Id>)
    ensures
        forall|x: Id, y: Id| #[trigger] product(a, b).contains((x, y)) <==> a.contains(x) && b.contains(y),
    decreases a.len(),
{
    if a.len() > 0 {
        lemma_product_contains(a.drop_last(), b);
        let p = product(a.drop_last(), b);
        let q = b.map_values(|y: Id| (a.last(), y));
        assert forall|x: Id, y: Id| #[trigger] product(a, b).contains((x, y)) <==> a.contains(x) && b.contains(y) by {
            if product(a, b).contains((x, y)) {
                let k = choose|k: int| 0 <= k < product(a, b).len() && product(a, b)[k] == (x, y);
                if k < p.len() {
                    assert(p[k] == (x, y));
                    assert(p.contains((x, y)));
                    let i = choose|i: int| 0 <= i < a.drop_last().len() && a.drop_last()[i] == x;
                    assert(a[i] == x);
                } else {
                    assert(q[k - p.len()] == (x, y));
                    assert(b[k - p.len()] == y);
                    assert(a[a.len() - 1] == x);
                }
            }
            if a.contains(x) && b.contains(y) {
                let i = choose|i: int| 0 <= i < a.len() && a[i] == x;
                let j = choose|j: int| 0 <= j < b.len() && b[j] == y;
                if i < a.len() - 1 {
                    assert(a.drop_last()[i] == x);
                    assert(a.drop_last().contains(x));
                    assert(p.contains((x, y)));
                    let k = choose|k: int| 0 <= k < p.len() && p[k] == (x, y);
                    assert(product(a, b)[k] == (x, y));
                } else {
                    assert(q[j] == (x, y));
                    assert(product(a, b)[p.len() + j] == (x, y));
                }
            }
        }
    }
}

/// Relies on `Itertools::cartesian_product`: it yields every pair of an item
/// of the first iterator with an item of the second, the first outer.
#[verifier::external_body]
fn cartesian_product(a: &Vec<Id>, b: &Vec<Id>) -> (r: Vec<(Id, Id)>)
    ensures
        r@ == product(a@, b@),
{
    a.iter().copied().cartesian_product(b.iter().copied()).collect()
}

/// A binding found by a search: the eclass where the match stands and two
/// further eclasses whose meaning depends on the rule.
#[derive(Debug, Clone, Copy, PartialEq, Eq, Structural)]
pub struct Subst {
    pub eclass: Id,
    pub left: Id,
    pub right: Id,
}

/// Node `p` is in eclass `c`, has operator `op`, and its child `k` is in
/// eclass `x`.
pub open spec fn edge_witness(g: EGraph, c: int, op: Language, k: int, x: int, p: int) -> bool {
    &&& 0 <= p < g.spec_len()
    &&& g.root(p) == c
    &&& g.spec_op(p) == op
    &&& 0 <= k < g.spec_children(p).len()
    &&& g.root(g.spec_children(p)[k] as int) == x
}

/// Eclass `c` holds a node with operator `op` whose child `k` is in eclass `x`.
pub open spec fn child_edge(g: EGraph, c: int, op: Language, k: int, x: int) -> bool {
    exists|p: int| #[trigger] edge_witness(g, c, op, k, x, p)
}

/// Eclass `c` holds a node with operator `op`.
pub open spec fn has_node(g: EGraph, c: int, op: Language) -> bool {
    exists|p: int| 0 <= p < g.spec_len() && g.root(p) == c && #[trigger] g.spec_op(p) == op
}

fn push_unique_id(v: &mut Vec<Id>, x: Id)
    ensures
        forall|y: Id| final(v)@.contains(y) <==> old(v)@.contains(y) || y == x,
        old(v)@.no_duplicates() ==> final(v)@.no_duplicates(),
{
    let mut i: usize = 0;
    while i < v.len()
        invariant
            i <= v@.len(),
            forall|j: int| 0 <= j < i ==> v@[j] != x,
        decreases v@.len() - i,
    {
        if v[i] == x {
            assert(v@[i as int] == x);
            return;
        }
        i = i + 1;
    }
    proof {
        lemma_push_contains(v@, x);
    }
    v.push(x);
}

fn push_unique_subst(v: &mut Vec<Subst>, x: Subst)
    ensures
        forall|y: Subst| final(v)@.contains(y) <==> old(v)@.contains(y) || y == x,
        old(v)@.no_duplicates() ==> final(v)@.no_duplicates(),
{
    let mut i: usize = 0;
    while i < v.len()
        invariant
            i <= v@.len(),
            forall|j: int| 0 <= j < i ==> v@[j] != x,
        decreases v@.len() - i,
    {
        if v[i] == x {
            assert(v@[i as int] == x);
            return;
        }
        i = i + 1;
    }
    proof {
        lemma_push_contains(v@, x);
    }
    v.push(x);
}

/// The eclasses of child `k` of the nodes with operator `op` in eclass `c`.
pub fn child_classes(g: &EGraph, c: Id, op: Language, k: usize) -> (r: Vec<Id>)
    requires
        g.wf(),
        c < g.spec_len(),
    ensures
        forall|x: Id| r@.contains(x) <==> child_edge(*g, c as int, op, k as int, x as int),
        forall|t: int| 0 <= t < r@.len() ==> r@[t] < g.spec_len(),
        r@.no_duplicates(),
{
    let n = g.total_size();
    let mut out: Vec<Id> = Vec::new();
    let mut p: usize = 0;
    while p < n
        invariant
            g.wf(),
            n == g.spec_len(),
            p <= n,
            c < n,
            forall|x: Id|
                out@.contains(x) <==> exists|pb: int| 0 <= pb < p && #[trigger] edge_witness(*g, c as int, op, k as int, x as int, pb),
            forall|t: int| 0 <= t < out@.len() ==> out@[t] < n,
            out@.no_duplicates(),
        decreases n - p,
    {
        let node = g.node(p);
        if node.op == op && k < node.children.len() && g.find(p) == c {
            assert(g.spec_children(p as int)[k as int] < p);
            let x = g.find(node.children[k]);
            let ghost before = out@;
            push_unique_id(&mut out, x);
            assert(edge_witness(*g, c as int, op, k as int, x as int, p as int));
            assert forall|y: Id|
                out@.contains(y) <==> exists|pb: int| 0 <= pb < p + 1 && #[trigger] edge_witness(*g, c as int, op, k as int, y as int, pb) by {
                if exists|pb: int| 0 <= pb < p + 1 && #[trigger] edge_witness(*g, c as int, op, k as int, y as int, pb) {
                    let pb = choose|pb: int| 0 <= pb < p + 1 && #[trigger] edge_witness(*g, c as int, op, k as int, y as int, pb);
                    if pb == p {
                        assert(y == x);
                    }
                }
            }
            assert forall|t: int| 0 <= t < out@.len() implies out@[t] < n by {
                assert(out@.contains(out@[t]));
            }
        } else {
            assert forall|y: Id|
                out@.contains(y) <==> exists|pb: int| 0 <= pb < p + 1 && #[trigger] edge_witness(*g, c as int, op, k as int, y as int, pb) by {
                if exists|pb: int| 0 <= pb < p + 1 && #[trigger] edge_witness(*g, c as int, op, k as int, y as int, pb) {
                    let pb = choose|pb: int| 0 <= pb < p + 1 && #[trigger] edge_witness(*g, c as int, op, k as int, y as int, pb);
                    if pb == p {
                        g.lemma_root(p as int);
                    }
                }
            }
        }
        p = p + 1;
    }
    out
}

/// Node `i` is `complement(x)` where the eclass of `x` holds
/// `complement(left)`, and `s` stands at the eclass of `i`.
pub open spec fn complement_witness(g: EGraph, s: Subst, i: int) -> bool {
    &&& 0 <= i < g.spec_len()
    &&& g.spec_op(i) == Language::Complement
    &&& g.spec_children(i).len() == 1
    &&& s.eclass == g.root(i)
    &&& s.left == s.right
    &&& child_edge(g, g.root(g.spec_children(i)[0] as int), Language::Complement, 0, s.left as int)
}

/// `s` binds the pattern `complement(complement(?a))`: `eclass` is where it
/// stands and `left` (= `right`) is the eclass of `?a`.
pub open spec fn double_complement_match(g: EGraph, s: Subst) -> bool {
    exists|i: int| #[trigger] complement_witness(g, s, i)
}

/// Every binding of `complement(complement(?a))` in the graph, once each.
pub fn search_double_complement(g: &EGraph) -> (r: Vec<Subst>)
    requires
        g.wf(),
    ensures
        forall|s: Subst| r@.contains(s) <==> double_complement_match(*g, s),
        r@.no_duplicates(),
{
    let n = g.total_size();
    let mut out: Vec<Subst> = Vec::new();
    let mut i: usize = 0;
    while i < n
        invariant
            g.wf(),
            n == g.spec_len(),
            i <= n,
            forall|s: Subst| out@.contains(s) <==> exists|i2: int| 0 <= i2 < i && #[trigger] complement_witness(*g, s, i2),
            out@.no_duplicates(),
        decreases n - i,
    {
        let node = g.node(i);
        if node.op == Language::Complement && node.children.len() == 1 {
            let c = g.find(i);
            assert(g.spec_children(i as int)[0] < i);
            let mid = g.find(node.children[0]);
            let inner = child_classes(g, mid, Language::Complement, 0);
            let mut t: usize = 0;
            while t < inner.len()
                invariant
                    g.wf(),
                    n == g.spec_len(),
                    i < n,
                    t <= inner@.len(),
                    forall|s: Subst|
                        out@.contains(s) <==> (exists|i2: int| 0 <= i2 < i && #[trigger] complement_witness(*g, s, i2)) || (
                        s.eclass == c && s.left == s.right && exists|t2: int| 0 <= t2 < t && inner@[t2] == s.left),
                    out@.no_duplicates(),
                decreases inner@.len() - t,
            {
                let x = inner[t];
                push_unique_subst(&mut out, Subst { eclass: c, left: x, right: x });
                assert forall|s: Subst|
                    out@.contains(s) <==> (exists|i2: int| 0 <= i2 < i && #[trigger] complement_witness(*g, s, i2)) || (
                    s.eclass == c && s.left == s.right && exists|t2: int| 0 <= t2 < t + 1 && inner@[t2] == s.left) by {
                    if s.eclass == c && s.left == s.right && s.left == x {
                        assert(inner@[t as int] == s.left);
                    }
                }
                t = t + 1;
            }
            assert forall|s: Subst|
                out@.contains(s) <==> exists|i2: int| 0 <= i2 < i + 1 && #[trigger] complement_witness(*g, s, i2) by {
                if complement_witness(*g, s, i as int) {
                    assert(inner@.contains(s.left));
                }
                if s.eclass == c && s.left == s.right && exists|t2: int| 0 <= t2 < inner@.len() && inner@[t2] == s.left {
                    assert(inner@.contains(s.left));
                    assert(complement_witness(*g, s, i as int));
                }
            }
        } else {
            assert forall|s: Subst|
                out@.contains(s) <==> exists|i2: int| 0 <= i2 < i + 1 && #[trigger] complement_witness(*g, s, i2) by {
                if complement_witness(*g, s, i as int) {
                }
            }
        }
        i = i + 1;
    }
    out
}

pub open spec fn plain_toehold(v: u32) -> Meta {
    Meta { value: Some(Value::StrandCellValue(Domain::Toehold(DomainId::DomainId(v)))) }
}

pub open spec fn complement_toehold(v: u32) -> Meta {
    Meta {
        value: Some(Value::StrandCellValue(Domain::Toehold(DomainId::Complement(Box::new(DomainId::DomainId(v)))))),
    }
}

/// Eclass `c` holds a strand cell of direction `tb` headed by toehold `v`.
pub open spec fn toehold_head(g: EGraph, tb: TopOrBottom, c: int, v: u32) -> bool {
    has_node(g, c, Language::spec_strand_cell(tb)) && g.class_meta(c) == plain_toehold(v)
}

/// Eclass `c` holds a strand cell of the direction opposite to `tb`, headed
/// by the complement of toehold `v`.
pub open spec fn toehold_partner(g: EGraph, tb: TopOrBottom, c: int, v: u32) -> bool {
    has_node(g, c, Language::spec_strand_cell(tb.spec_other())) && g.class_meta(c) == complement_toehold(v)
}

/// `s` pairs a strand cell headed by a toehold (`eclass`, = `left`) with a
/// cell of the other direction headed by its complement (`right`).
pub open spec fn toehold_match(g: EGraph, tb: TopOrBottom, s: Subst) -> bool {
    s.left == s.eclass && exists|v: u32| toehold_head(g, tb, s.eclass as int, v) && #[trigger] toehold_partner(
        g,
        tb,
        s.right as int,
        v,
    )
}

/// The eclasses that hold a node with operator `op` and have value `m`.
pub fn classes_with_meta(g: &EGraph, op: Language, m: &Meta) -> (r: Vec<Id>)
    requires
        g.wf(),
    ensures
        forall|c: Id| r@.contains(c) <==> has_node(*g, c as int, op) && g.class_meta(c as int) == *m,
        r@.no_duplicates(),
{
    let n = g.total_size();
    let mut out: Vec<Id> = Vec::new();
    let mut p: usize = 0;
    while p < n
        invariant
            g.wf(),
            n == g.spec_len(),
            p <= n,
            forall|c: Id|
                out@.contains(c) <==> (exists|pb: int| 0 <= pb < p && g.root(pb) == c && #[trigger] g.spec_op(pb) == op)
                    && g.class_meta(c as int) == *m,
            out@.no_duplicates(),
        decreases n - p,
    {
        if g.node(p).op == op && g.meta(p).same(m) {
            let c = g.find(p);
            proof {
                g.lemma_root(p as int);
            }
            push_unique_id(&mut out, c);
        }
        assert forall|c: Id|
            out@.contains(c) <==> (exists|pb: int| 0 <= pb < p + 1 && g.root(pb) == c && #[trigger] g.spec_op(pb) == op)
                && g.class_meta(c as int) == *m by {
            if g.root(p as int) == c && g.spec_op(p as int) == op {
                g.lemma_root(p as int);
            }
        }
        p = p + 1;
    }
    out
}

/// The eclasses that hold a strand cell of direction `tb` headed by a plain
/// toehold, each with the toehold's number.
fn toehold_heads(g: &EGraph, tb: TopOrBottom) -> (r: Vec<(Id, u32)>)
    requires
        g.wf(),
    ensures
        forall|c: Id, v: u32| r@.contains((c, v)) <==> toehold_head(*g, tb, c as int, v),
        forall|t: int| 0 <= t < r@.len() ==> r@[t].0 < g.spec_len(),
{
    let n = g.total_size();
    let op = Language::strand_cell(tb);
    let mut out: Vec<(Id, u32)> = Vec::new();
    let mut p: usize = 0;
    while p < n
        invariant
            g.wf(),
            n == g.spec_len(),
            p <= n,
            op == Language::spec_strand_cell(tb),
            forall|c: Id, v: u32|
                out@.contains((c, v)) <==> (exists|pb: int| 0 <= pb < p && g.root(pb) == c && #[trigger] g.spec_op(pb) == op)
                    && g.class_meta(c as int) == plain_toehold(v),
            forall|t: int| 0 <= t < out@.len() ==> out@[t].0 < n,
        decreases n - p,
    {
        let ghost before = out@;
        if g.node(p).op == op {
            let c = g.find(p);
            proof {
                g.lemma_root(p as int);
            }
            match &g.meta(p).value {
                Some(Value::StrandCellValue(Domain::Toehold(DomainId::DomainId(v)))) => {
                    let v = *v;
                    proof {
                        lemma_push_contains(out@, (c, v));
                    }
                    out.push((c, v));
                    assert forall|t: int| 0 <= t < out@.len() implies out@[t].0 < n by {
                        if t < before.len() {
                            assert(out@[t] == before[t]);
                        }
                    }
                },
                _ => {},
            }
        }
        assert forall|c: Id, v: u32|
            out@.contains((c, v)) <==> (exists|pb: int| 0 <= pb < p + 1 && g.root(pb) == c && #[trigger] g.spec_op(pb) == op)
                && g.class_meta(c as int) == plain_toehold(v) by {
            if g.root(p as int) == c && g.spec_op(p as int) == op {
                g.lemma_root(p as int);
            }
        }
        p = p + 1;
    }
    out
}

/// The toehold search, a correlated search in two steps: find the strand
/// cells of direction `tb` headed by a plain toehold, read the toehold's
/// number from the analysis, and with it search the whole graph for cells
/// of the other direction headed by its complement. Each head is paired
/// with every such cell; a head without one gives no binding.
pub fn search_toehold_bind(g: &EGraph, tb: TopOrBottom) -> (r: Vec<Subst>)
    requires
        g.wf(),
    ensures
        forall|s: Subst| r@.contains(s) <==> toehold_match(*g, tb, s),
        r@.no_duplicates(),
{
    let heads = toehold_heads(g, tb);
    let other = Language::strand_cell(tb.other());
    let mut out: Vec<Subst> = Vec::new();
    let mut h: usize = 0;
    while h < heads.len()
        invariant
            g.wf(),
            h <= heads@.len(),
            other == Language::spec_strand_cell(tb.spec_other()),
            forall|c: Id, v: u32| heads@.contains((c, v)) <==> toehold_head(*g, tb, c as int, v),
            forall|s: Subst|
                out@.contains(s) <==> exists|h2: int|
                    0 <= h2 < h && s.eclass == (#[trigger] heads@[h2]).0 && s.left == s.eclass && toehold_partner(
                        *g,
                        tb,
                        s.right as int,
                        heads@[h2].1,
                    ),
            out@.no_duplicates(),
        decreases heads@.len() - h,
    {
        let (c, v) = heads[h];
        let m = Meta {
            value: Some(Value::StrandCellValue(Domain::Toehold(DomainId::Complement(Box::new(DomainId::DomainId(v)))))),
        };
        let partners = classes_with_meta(g, other, &m);
        let mut q: usize = 0;
        while q < partners.len()
            invariant
                g.wf(),
                h < heads@.len(),
                heads@[h as int] == (c, v),
                q <= partners@.len(),
                m == complement_toehold(v),
                forall|y: Id| partners@.contains(y) <==> has_node(*g, y as int, other) && g.class_meta(y as int) == m,
                forall|s: Subst|
                    out@.contains(s) <==> (exists|h2: int|
                        0 <= h2 < h && s.eclass == (#[trigger] heads@[h2]).0 && s.left == s.eclass && toehold_partner(
                            *g,
                            tb,
                            s.right as int,
                            heads@[h2].1,
                        )) || (s.eclass == c && s.left == c && exists|q2: int| 0 <= q2 < q && partners@[q2] == s.right),
                out@.no_duplicates(),
            decreases partners@.len() - q,
        {
            let y = partners[q];
            push_unique_subst(&mut out, Subst { eclass: c, left: c, right: y });
            assert forall|s: Subst|
                out@.contains(s) <==> (exists|h2: int|
                    0 <= h2 < h && s.eclass == (#[trigger] heads@[h2]).0 && s.left == s.eclass && toehold_partner(
                        *g,
                        tb,
                        s.right as int,
                        heads@[h2].1,
                    )) || (s.eclass == c && s.left == c && exists|q2: int| 0 <= q2 < q + 1 && partners@[q2] == s.right) by {
                if s.eclass == c && s.left == c && s.right == y {
                    assert(partners@[q as int] == s.right);
                }
            }
            q = q + 1;
        }
        assert forall|s: Subst|
            out@.contains(s) <==> exists|h2: int|
                0 <= h2 < h + 1 && s.eclass == (#[trigger] heads@[h2]).0 && s.left == s.eclass && toehold_partner(
                    *g,
                    tb,
                    s.right as int,
                    heads@[h2].1,
                ) by {
            if s.eclass == c && s.left == c && toehold_partner(*g, tb, s.right as int, v) {
                assert(partners@.contains(s.right));
            }
            if s.eclass == c && s.left == c && exists|q2: int| 0 <= q2 < partners@.len() && partners@[q2] == s.right {
                assert(partners@.contains(s.right));
            }
        }
        h = h + 1;
    }
    assert forall|s: Subst| out@.contains(s) <==> toehold_match(*g, tb, s) by {
        if toehold_match(*g, tb, s) {
            let v = choose|v: u32| toehold_head(*g, tb, s.eclass as int, v) && #[trigger] toehold_partner(
                *g,
                tb,
                s.right as int,
                v,
            );
            assert(heads@.contains((s.eclass, v)));
            let h2 = choose|h2: int| 0 <= h2 < heads@.len() && heads@[h2] == (s.eclass, v);
            assert(s.eclass == heads@[h2].0);
        }
        if out@.contains(s) {
            let h2 = choose|h2: int|
                0 <= h2 < heads@.len() && s.eclass == (#[trigger] heads@[h2]).0 && s.left == s.eclass && toehold_partner(
                    *g,
                    tb,
                    s.right as int,
                    heads@[h2].1,
                );
            assert(heads@.contains(heads@[h2]));
        }
    }
    out
}

/// The eclasses `x` and `y` hold strand cells whose head domains pair.
pub open spec fn heads_pair(g: EGraph, x: int, y: int) -> bool {
    match (g.class_meta(x).value, g.class_meta(y).value) {
        (Some(Value::StrandCellValue(a)), Some(Value::StrandCellValue(b))) => a.spec_complementary(b),
        _ => false,
    }
}

fn heads_pair_exec(g: &EGraph, x: Id, y: Id) -> (r: bool)
    requires
        g.wf(),
        x < g.spec_len(),
        y < g.spec_len(),
    ensures
        r == heads_pair(*g, x as int, y as int),
{
    match (&g.meta(x).value, &g.meta(y).value) {
        (Some(Value::StrandCellValue(a)), Some(Value::StrandCellValue(b))) => a.complementary(b),
        _ => false,
    }
}

/// Node `d` is a bound region of direction `tb` over a bottom and a top
/// cell; `left` is the next cell after the first and `right` the next cell
/// after the second, and their heads pair.
pub open spec fn bind_witness(g: EGraph, tb: TopOrBottom, s: Subst, d: int) -> bool {
    &&& 0 <= d < g.spec_len()
    &&& g.spec_op(d) == Language::spec_double_strand_cell(tb)
    &&& g.spec_children(d).len() == 3
    &&& s.eclass == g.root(d)
    &&& child_edge(g, g.root(g.spec_children(d)[0] as int), Language::spec_strand_cell(tb), 1, s.left as int)
    &&& child_edge(
        g,
        g.root(g.spec_children(d)[1] as int),
        Language::spec_strand_cell(tb.spec_other()),
        1,
        s.right as int,
    )
    &&& heads_pair(g, s.left as int, s.right as int)
}

/// `s` extends a bound region (`eclass`) by the next two cells (`left`,
/// `right`) of its strands, whose heads pair.
pub open spec fn bind_match(g: EGraph, tb: TopOrBottom, s: Subst) -> bool {
    exists|d: int| #[trigger] bind_witness(g, tb, s, d)
}

/// Every way to extend a bound region of direction `tb` by one pair of
/// complementary domains, once each.
pub fn search_bind(g: &EGraph, tb: TopOrBottom) -> (r: Vec<Subst>)
    requires
        g.wf(),
    ensures
        forall|s: Subst| r@.contains(s) <==> bind_match(*g, tb, s),
        r@.no_duplicates(),
{
    let n = g.total_size();
    let dop = Language::double_strand_cell(tb);
    let bop = Language::strand_cell(tb);
    let top = Language::strand_cell(tb.other());
    let mut out: Vec<Subst> = Vec::new();
    let mut d: usize = 0;
    while d < n
        invariant
            g.wf(),
            n == g.spec_len(),
            d <= n,
            dop == Language::spec_double_strand_cell(tb),
            bop == Language::spec_strand_cell(tb),
            top == Language::spec_strand_cell(tb.spec_other()),
            forall|s: Subst| out@.contains(s) <==> exists|d2: int| 0 <= d2 < d && #[trigger] bind_witness(*g, tb, s, d2),
            out@.no_duplicates(),
        decreases n - d,
    {
        let node = g.node(d);
        if node.op == dop && node.children.len() == 3 {
            let c = g.find(d);
            assert(g.spec_children(d as int)[0] < d);
            assert(g.spec_children(d as int)[1] < d);
            let b0 = g.find(node.children[0]);
            let t0 = g.find(node.children[1]);
            let nbs = child_classes(g, b0, bop, 1);
            let nts = child_classes(g, t0, top, 1);
            let pairs = cartesian_product(&nbs, &nts);
            proof {
                lemma_product_contains(nbs@, nts@);
            }
            let mut t: usize = 0;
            while t < pairs.len()
                invariant
                    g.wf(),
                    n == g.spec_len(),
                    d < n,
                    t <= pairs@.len(),
                    pairs@ == product(nbs@, nts@),
                    forall|x: Id, y: Id| #[trigger] product(nbs@, nts@).contains((x, y)) <==> nbs@.contains(x) && nts@.contains(y),
                    forall|i: int| 0 <= i < nbs@.len() ==> nbs@[i] < n,
                    forall|i: int| 0 <= i < nts@.len() ==> nts@[i] < n,
                    forall|s: Subst|
                        out@.contains(s) <==> (exists|d2: int| 0 <= d2 < d && #[trigger] bind_witness(*g, tb, s, d2)) || (
                        s.eclass == c && heads_pair(*g, s.left as int, s.right as int) && exists|t2: int|
                            0 <= t2 < t && pairs@[t2] == (s.left, s.right)),
                    out@.no_duplicates(),
                decreases pairs@.len() - t,
            {
                let (x, y) = pairs[t];
                assert(pairs@.contains((x, y)));
                proof {
                    let ix = choose|ix: int| 0 <= ix < nbs@.len() && nbs@[ix] == x;
                    let iy = choose|iy: int| 0 <= iy < nts@.len() && nts@[iy] == y;
                    assert(x < n && y < n);
                }
                if heads_pair_exec(g, x, y) {
                    push_unique_subst(&mut out, Subst { eclass: c, left: x, right: y });
                }
                assert forall|s: Subst|
                    out@.contains(s) <==> (exists|d2: int| 0 <= d2 < d && #[trigger] bind_witness(*g, tb, s, d2)) || (
                    s.eclass == c && heads_pair(*g, s.left as int, s.right as int) && exists|t2: int|
                        0 <= t2 < t + 1 && pairs@[t2] == (s.left, s.right)) by {
                    if s.eclass == c && s.left == x && s.right == y {
                        assert(pairs@[t as int] == (s.left, s.right));
                    }
                }
                t = t + 1;
            }
            assert forall|s: Subst|
                out@.contains(s) <==> exists|d2: int| 0 <= d2 < d + 1 && #[trigger] bind_witness(*g, tb, s, d2) by {
                if bind_witness(*g, tb, s, d as int) {
                    assert(nbs@.contains(s.left));
                    assert(nts@.contains(s.right));
                    assert(product(nbs@, nts@).contains((s.left, s.right)));
                }
                if s.eclass == c && heads_pair(*g, s.left as int, s.right as int) && exists|t2: int|
                    0 <= t2 < pairs@.len() && pairs@[t2] == (s.left, s.right) {
                    assert(pairs@.contains((s.left, s.right)));
                    assert(nbs@.contains(s.left));
                    assert(nts@.contains(s.right));
                    assert(bind_witness(*g, tb, s, d as int));
                }
            }
        } else {
            assert forall|s: Subst|
                out@.contains(s) <==> exists|d2: int| 0 <= d2 < d + 1 && #[trigger] bind_witness(*g, tb, s, d2) by {
                if bind_witness(*g, tb, s, d as int) {
                }
            }
        }
        d = d + 1;
    }
    out
}

} // verus!
