use vstd::prelude::*;
use crate::domain::{TopOrBottom, lemma_complement_involution};
use crate::egraph::{EGraph, EGraphError, lemma_push_contains};
use crate::language::{
    ENode, Id, Language, Value, make_spec, meta_normal, is_double_strand_cell_or_nil,
};
use crate::search::{
    Subst, bind_match, double_complement_match, search_bind, search_double_complement,
    search_toehold_bind, toehold_match, child_edge, edge_witness, complement_witness, bind_witness,
    has_node, heads_pair, plain_toehold, complement_toehold, toehold_head, toehold_partner,
};

verus! {

/// The closed set of rule shapes.
#[derive(Debug, Clone, Copy, PartialEq, Eq, Structural)]
pub enum Rule {
    /// `complement(complement(?a))` is `?a`.
    SimplifyDoubleComplement,
    /// Binds a toehold to a complementary toehold found anywhere in the graph.
    ToeholdBind(TopOrBottom),
    /// Extends a bound region by the next pair of complementary domains.
    Bind(TopOrBottom),
}

/// A named rewrite rule.
#[derive(Debug, Clone, Copy)]
pub struct Rewrite {
    pub rule: Rule,
}

impl Rewrite {
    /// The rule's name.
    pub fn name(&self) -> (r: &'static str)
        ensures
            self.rule is SimplifyDoubleComplement ==> r@ == "simplify-double-complement"@,
            self.rule is ToeholdBind ==> r@ == "toehold-bind"@,
            self.rule is Bind ==> r@ == "bind"@,
    {
        match self.rule {
            Rule::SimplifyDoubleComplement => "simplify-double-complement",
            Rule::ToeholdBind(_) => "toehold-bind",
            Rule::Bind(_) => "bind",
        }
    }
}

/// The cancellation rule `complement(complement(?a)) => ?a`.
pub fn simplify_double_complement() -> (r: Rewrite)
    ensures
        r.rule == Rule::SimplifyDoubleComplement,
{
    Rewrite { rule: Rule::SimplifyDoubleComplement }
}

/// Binds toeholds: pairs each strand cell of direction `top_or_bottom`
/// headed by a toehold with every cell of the other direction headed by its
/// complement, under a new double-strand cell.
pub fn toehold_bind(top_or_bottom: TopOrBottom) -> (r: Rewrite)
    ensures
        r.rule == Rule::ToeholdBind(top_or_bottom),
{
    Rewrite { rule: Rule::ToeholdBind(top_or_bottom) }
}

/// Binds complementary domains next to an already bound region.
pub fn bind(top_or_bottom: TopOrBottom) -> (r: Rewrite)
    ensures
        r.rule == Rule::Bind(top_or_bottom),
{
    Rewrite { rule: Rule::Bind(top_or_bottom) }
}

/// The bindings of `rule` in `g`.
pub open spec fn rule_matches(g: EGraph, rule: Rule, s: Subst) -> bool {
    match rule {
        Rule::SimplifyDoubleComplement => double_complement_match(g, s),
        Rule::ToeholdBind(tb) => toehold_match(g, tb, s),
        Rule::Bind(tb) => bind_match(g, tb, s),
    }
}

/// What applying `rule` at `s` leaves in `g`: the two eclasses joined, or a
/// double-strand cell over the bound cells.
pub open spec fn rule_applied(g: EGraph, rule: Rule, s: Subst) -> bool {
    match rule {
        Rule::SimplifyDoubleComplement => g.equiv(s.eclass as int, s.left as int),
        Rule::ToeholdBind(tb) => exists|z: int|
            0 <= z < g.spec_len() && g.spec_op(z) == Language::Nil && #[trigger] g.has_match(
                Language::spec_double_strand_cell(tb),
                triple(s.left, s.right, z as usize),
            ),
        Rule::Bind(tb) => g.has_match(
            Language::spec_double_strand_cell(tb),
            triple(s.left, s.right, s.eclass),
        ),
    }
}

pub open spec fn triple(a: Id, b: Id, c: Id) -> Seq<Id> {
    seq![a, b, c]
}

pub open spec fn subst_valid(g: EGraph, s: Subst) -> bool {
    s.eclass < g.spec_len() && s.left < g.spec_len() && s.right < g.spec_len()
}

proof fn lemma_edge_valid(g: EGraph, c: int, op: Language, k: int, x: int)
    requires
        g.wf(),
        child_edge(g, c, op, k, x),
    ensures
        0 <= x < g.spec_len(),
        0 <= c < g.spec_len(),
{
    let p = choose|p: int| #[trigger] edge_witness(g, c, op, k, x, p);
    assert(g.spec_children(p)[k] < p);
    g.lemma_root(g.spec_children(p)[k] as int);
    g.lemma_root(p);
}

proof fn lemma_has_node_valid(g: EGraph, c: int, op: Language)
    requires
        g.wf(),
        has_node(g, c, op),
    ensures
        0 <= c < g.spec_len(),
{
    let p = choose|p: int| 0 <= p < g.spec_len() && g.root(p) == c && #[trigger] g.spec_op(p) == op;
    g.lemma_root(p);
}

/// A binding names eclasses of the graph it was found in.
pub proof fn lemma_match_valid(g: EGraph, rule: Rule, s: Subst)
    requires
        g.wf(),
        rule_matches(g, rule, s),
    ensures
        subst_valid(g, s),
{
    match rule {
        Rule::SimplifyDoubleComplement => {
            let i = choose|i: int| #[trigger] complement_witness(g, s, i);
            g.lemma_root(i);
            lemma_edge_valid(g, g.root(g.spec_children(i)[0] as int), Language::Complement, 0, s.left as int);
        },
        Rule::ToeholdBind(tb) => {
            lemma_has_node_valid(g, s.eclass as int, Language::spec_strand_cell(tb));
            let v = choose|v: u32| crate::search::toehold_head(g, tb, s.eclass as int, v)
                && #[trigger] crate::search::toehold_partner(g, tb, s.right as int, v);
            lemma_has_node_valid(g, s.right as int, Language::spec_strand_cell(tb.spec_other()));
        },
        Rule::Bind(tb) => {
            let d = choose|d: int| #[trigger] bind_witness(g, tb, s, d);
            g.lemma_root(d);
            lemma_edge_valid(
                g,
                g.root(g.spec_children(d)[0] as int),
                Language::spec_strand_cell(tb),
                1,
                s.left as int,
            );
            lemma_edge_valid(
                g,
                g.root(g.spec_children(d)[1] as int),
                Language::spec_strand_cell(tb.spec_other()),
                1,
                s.right as int,
            );
        },
    }
}

/// The effect of a rule survives the growth of the graph.
pub proof fn lemma_applied_grows(g: EGraph, post: EGraph, rule: Rule, s: Subst)
    requires
        g.wf(),
        g.grows_to(post),
        subst_valid(g, s),
        rule_applied(g, rule, s),
    ensures
        rule_applied(post, rule, s),
{
    match rule {
        Rule::SimplifyDoubleComplement => {},
        Rule::ToeholdBind(tb) => {
            let z = choose|z: int|
                0 <= z < g.spec_len() && g.spec_op(z) == Language::Nil && #[trigger] g.has_match(
                    Language::spec_double_strand_cell(tb),
                    triple(s.left, s.right, z as usize),
                );
            let ch = triple(s.left, s.right, z as usize);
            assert(post.spec_nodes()[z] == g.spec_nodes()[z]);
            g.lemma_match_grows(post, Language::spec_double_strand_cell(tb), ch, ch);
            assert(post.spec_op(z) == Language::Nil);
        },
        Rule::Bind(tb) => {
            let ch = triple(s.left, s.right, s.eclass);
            g.lemma_match_grows(post, Language::spec_double_strand_cell(tb), ch, ch);
        },
    }
}

/// What applying `rule` at `s` needs of the values of the eclasses: it
/// holds of every binding a search returns, and survives the growth of the
/// graph, so a binding found at the start of a round can still be applied
/// after others were.
pub open spec fn rule_ready(g: EGraph, rule: Rule, s: Subst) -> bool {
    &&& subst_valid(g, s)
    &&& match rule {
        Rule::SimplifyDoubleComplement => g.class_meta(s.eclass as int) == g.class_meta(s.left as int),
        Rule::ToeholdBind(_) => exists|v: u32|
            g.class_meta(s.left as int) == plain_toehold(v) && #[trigger] g.class_meta(s.right as int)
                == complement_toehold(v),
        Rule::Bind(_) => heads_pair(g, s.left as int, s.right as int) && is_double_strand_cell_or_nil(
            g.class_meta(s.eclass as int),
        ),
    }
}

pub proof fn lemma_match_ready(g: EGraph, rule: Rule, s: Subst)
    requires
        g.wf(),
        rule_matches(g, rule, s),
    ensures
        rule_ready(g, rule, s),
{
    lemma_match_valid(g, rule, s);
    match rule {
        Rule::SimplifyDoubleComplement => {
            let i = choose|i: int| #[trigger] complement_witness(g, s, i);
            let m0 = g.spec_children(i)[0] as int;
            assert(m0 < i);
            let p = choose|p: int| #[trigger] edge_witness(g, g.root(m0), Language::Complement, 0, s.left as int, p);
            let pc = g.spec_children(p)[0] as int;
            assert(pc < p);
            g.lemma_root(i);
            g.lemma_root(m0);
            g.lemma_root(p);
            g.lemma_root(pc);
            assert(g.metas_of(g.spec_children(p)) =~= seq![g.class_meta(pc)]);
            assert(g.metas_of(g.spec_children(i)) =~= seq![g.class_meta(m0)]);
            assert(make_spec(Language::Complement, g.metas_of(g.spec_children(p))) == Some(g.class_meta(p)));
            assert(make_spec(Language::Complement, g.metas_of(g.spec_children(i))) == Some(g.class_meta(i)));
            assert(g.class_meta(pc) == g.class_meta(s.left as int));
            assert(g.class_meta(p) == g.class_meta(m0));
            assert(meta_normal(g.class_meta(s.left as int)));
            match g.class_meta(s.left as int).value {
                Some(Value::DomainIdValue(d)) => {
                    lemma_complement_involution(d);
                },
                _ => {},
            }
            assert(g.class_meta(s.eclass as int) == g.class_meta(i));
        },
        Rule::ToeholdBind(tb) => {
            let v = choose|v: u32| toehold_head(g, tb, s.eclass as int, v) && #[trigger] toehold_partner(
                g,
                tb,
                s.right as int,
                v,
            );
            assert(g.class_meta(s.right as int) == complement_toehold(v));
        },
        Rule::Bind(tb) => {
            let d = choose|d: int| #[trigger] bind_witness(g, tb, s, d);
            g.lemma_root(d);
            assert(make_spec(Language::spec_double_strand_cell(tb), g.metas_of(g.spec_children(d))) == Some(
                g.class_meta(d),
            ));
            assert(g.class_meta(s.eclass as int) == g.class_meta(d));
        },
    }
}

pub proof fn lemma_ready_grows(g: EGraph, post: EGraph, rule: Rule, s: Subst)
    requires
        g.grows_to(post),
        rule_ready(g, rule, s),
    ensures
        rule_ready(post, rule, s),
{
    assert(post.class_meta(s.eclass as int) == g.class_meta(s.eclass as int));
    assert(post.class_meta(s.left as int) == g.class_meta(s.left as int));
    assert(post.class_meta(s.right as int) == g.class_meta(s.right as int));
    match rule {
        Rule::ToeholdBind(_) => {
            let v = choose|v: u32|
                g.class_meta(s.left as int) == plain_toehold(v) && #[trigger] g.class_meta(s.right as int)
                    == complement_toehold(v);
            assert(post.class_meta(s.right as int) == complement_toehold(v));
        },
        _ => {},
    }
}

/// The bindings of `rule` in `g`, once each.
pub fn search(g: &EGraph, rule: &Rule) -> (r: Vec<Subst>)
    requires
        g.wf(),
    ensures
        forall|s: Subst| r@.contains(s) <==> rule_matches(*g, *rule, s),
        r@.no_duplicates(),
{
    match rule {
        Rule::SimplifyDoubleComplement => search_double_complement(g),
        Rule::ToeholdBind(tb) => search_toehold_bind(g, *tb),
        Rule::Bind(tb) => search_bind(g, *tb),
    }
}

/// The bindings of `rule` that stand at the eclass of `eclass`, once each.
pub fn search_eclass(g: &EGraph, rule: &Rule, eclass: Id) -> (r: Vec<Subst>)
    requires
        g.wf(),
        eclass < g.spec_len(),
    ensures
        forall|s: Subst| r@.contains(s) <==> rule_matches(*g, *rule, s) && s.eclass == g.root(eclass as int),
        r@.no_duplicates(),
{
    let c = g.find(eclass);
    let all = search(g, rule);
    let mut out: Vec<Subst> = Vec::new();
    let mut t: usize = 0;
    while t < all.len()
        invariant
            c == g.root(eclass as int),
            t <= all@.len(),
            all@.no_duplicates(),
            forall|s: Subst| out@.contains(s) <==> exists|t2: int| 0 <= t2 < t && all@[t2] == s && s.eclass == c,
            forall|k: int| 0 <= k < out@.len() ==> exists|t2: int| 0 <= t2 < t && all@[t2] == #[trigger] out@[k],
            out@.no_duplicates(),
        decreases all@.len() - t,
    {
        let s = all[t];
        if s.eclass == c {
            proof {
                lemma_push_contains(out@, s);
                assert forall|k: int| 0 <= k < out@.len() implies out@[k] != s by {
                    let t2 = choose|t2: int| 0 <= t2 < t && all@[t2] == #[trigger] out@[k];
                }
            }
            out.push(s);
        }
        t = t + 1;
    }
    proof {
        assert forall|s: Subst| out@.contains(s) <==> rule_matches(*g, *rule, s) && s.eclass == g.root(
            eclass as int,
        ) by {
            if rule_matches(*g, *rule, s) && s.eclass == c {
                let t2 = choose|t2: int| 0 <= t2 < all@.len() && all@[t2] == s;
            }
            if out@.contains(s) {
                let t2 = choose|t2: int| 0 <= t2 < all@.len() && all@[t2] == s && s.eclass == c;
                assert(all@.contains(s));
            }
        }
    }
    out
}

/// Joins the eclass of `complement(complement(?a))` with that of `?a`.
fn apply_double_complement(g: &mut EGraph, s: Subst) -> (r: Result<(), EGraphError>)
    requires
        old(g).wf(),
        rule_ready(*old(g), Rule::SimplifyDoubleComplement, s),
    ensures
        final(g).wf(),
        old(g).grows_to(*final(g)),
        r is Ok,
        rule_applied(*final(g), Rule::SimplifyDoubleComplement, s),
        final(g).spec_nodes() == old(g).spec_nodes(),
        old(g).linked(*final(g), old(g).root(s.eclass as int), old(g).root(s.left as int)),
{
    let ghost g0 = *g;
    let res = g.union(s.eclass, s.left);
    match res {
        Ok(_) => {
            proof {
                g0.lemma_linked_grows(*g, g0.root(s.eclass as int), g0.root(s.left as int));
            }
            Ok(())
        },
        Err(e) => {
            proof {
                g0.lemma_grows_refl();
            }
            Err(e)
        },
    }
}

proof fn lemma_toehold_effect(g1: EGraph, g2: EGraph, tb: TopOrBottom, s: Subst, z: Id, j: int)
    requires
        g1.wf(),
        g1.grows_to(g2),
        subst_valid(g1, s),
        0 <= j < g1.spec_len(),
        g1.spec_len() <= usize::MAX,
        g1.spec_op(j) == Language::Nil,
        g1.root(j) == z,
        g2.has_match(Language::spec_double_strand_cell(tb), triple(s.left, s.right, z)),
    ensures
        rule_applied(g2, Rule::ToeholdBind(tb), s),
{
    let dop = Language::spec_double_strand_cell(tb);
    let chs = triple(s.left, s.right, z);
    g1.lemma_root(j);
    let chj = triple(s.left, s.right, j as usize);
    assert(g2.root(z as int) == g2.root(j));
    let d = choose|d: int| 0 <= d < g2.spec_len() && g2.node_matches(d, dop, chs);
    assert forall|k: int| 0 <= k < chj.len() implies g2.root(#[trigger] g2.spec_children(d)[k] as int) == g2.root(
        chj[k] as int,
    ) by {
        assert(g2.root(g2.spec_children(d)[k] as int) == g2.root(chs[k] as int));
    }
    assert(g2.node_matches(d, dop, chj));
    assert(g2.spec_nodes()[j] == g1.spec_nodes()[j]);
    assert(g2.has_match(dop, chj));
}

proof fn lemma_toehold_makes(g1: EGraph, tb: TopOrBottom, s: Subst, z: Id, j: int)
    requires
        g1.wf(),
        rule_ready(g1, Rule::ToeholdBind(tb), s),
        0 <= j < g1.spec_len(),
        g1.node_matches(j, Language::Nil, Seq::empty()),
        g1.root(j) == z,
    ensures
        make_spec(Language::spec_double_strand_cell(tb), g1.metas_of(triple(s.left, s.right, z))) is Some,
{
    g1.lemma_root(j);
    assert(g1.metas_of(g1.spec_children(j)) =~= Seq::empty());
    assert(g1.class_meta(z as int) == g1.class_meta(j));
    let v = choose|v: u32|
        g1.class_meta(s.left as int) == plain_toehold(v) && #[trigger] g1.class_meta(s.right as int)
            == complement_toehold(v);
    assert(g1.metas_of(triple(s.left, s.right, z)) =~= seq![
        g1.class_meta(s.left as int),
        g1.class_meta(s.right as int),
        g1.class_meta(z as int),
    ]);
}

/// Adds `(double-strand-cell left right nil)`.
#[verifier::rlimit(60)]
#[verifier::spinoff_prover]
fn apply_toehold_bind(g: &mut EGraph, tb: TopOrBottom, s: Subst) -> (r: Result<(), EGraphError>)
    requires
        old(g).wf(),
        rule_ready(*old(g), Rule::ToeholdBind(tb), s),
    ensures
        final(g).wf(),
        old(g).grows_to(*final(g)),
        r is Ok ==> rule_applied(*final(g), Rule::ToeholdBind(tb), s),
        r matches Err(e) ==> e is Full && final(g).spec_len() == usize::MAX,
        final(g).spec_len() <= old(g).spec_len() + 2,
        forall|i: int|
            old(g).spec_len() <= i < final(g).spec_len() ==> #[trigger] final(g).spec_op(i)
                == Language::spec_double_strand_cell(tb) || final(g).spec_op(i) == Language::Nil,
        old(g).appends_only(*final(g)),
        old(g).is_closed() ==> final(g).is_closed(),
        forall|i: int|
            old(g).spec_len() <= i < final(g).spec_len() ==> final(g).spec_op(i) == Language::Nil
                || #[trigger] applied_node(*final(g), Rule::ToeholdBind(tb), s, i),
{
    let ghost g0 = *g;
    let nil_node = ENode::leaf(Language::Nil);
    let ghost nil_ch = nil_node.children@;
    let res = g.add(nil_node);
    let z = match res {
        Ok(z) => z,
        Err(e) => {
            proof {
                g0.lemma_grows_refl();
                g0.lemma_appends_refl();
            }
            return Err(e);
        },
    };
    let _ = g.total_size();
    let ghost g1 = *g;
    proof {
        g0.lemma_interned_found(g1, Language::Nil, nil_ch, z);
        g0.lemma_interned_adds(g1, Language::Nil, nil_ch, z);
        g0.lemma_interned_appends(g1, Language::Nil, nil_ch, z);
        if g0.is_closed() {
            g0.lemma_interned_closed(g1, Language::Nil, nil_ch, z);
        }
    }
    let dop = Language::double_strand_cell(tb);
    let ch = vec![s.left, s.right, z];
    let ghost chs = ch@;
    proof {
        assert(chs == triple(s.left, s.right, z));
        let j = choose|j: int|
            0 <= j < g1.spec_len() && g1.node_matches(j, Language::Nil, nil_ch) && g1.root(j) == z;
        lemma_ready_grows(g0, g1, Rule::ToeholdBind(tb), s);
        lemma_toehold_makes(g1, tb, s, z, j);
    }
    let res2 = g.add(ENode::new(dop, ch));
    match res2 {
        Ok(d) => {
            proof {
                g1.lemma_interned_found(*g, dop, chs, d);
                g0.lemma_grows_trans(g1, *g);
                g1.lemma_interned_adds(*g, dop, chs, d);
                g1.lemma_interned_appends(*g, dop, chs, d);
                g0.lemma_appends_trans(g1, *g);
                if g0.is_closed() {
                    g1.lemma_interned_closed(*g, dop, chs, d);
                }
                g1.lemma_interned_new_node(*g, dop, chs, d);
                let g2 = *g;
                let j0 = choose|j: int|
                    0 <= j < g1.spec_len() && g1.node_matches(j, Language::Nil, nil_ch) && g1.root(j) == z;
                g1.lemma_root(j0);
                assert(g2.spec_nodes()[j0] == g1.spec_nodes()[j0]);
                assert forall|i: int|
                    g0.spec_len() <= i < g2.spec_len() implies g2.spec_op(i) == Language::Nil
                        || #[trigger] applied_node(g2, Rule::ToeholdBind(tb), s, i) by {
                    if i >= g1.spec_len() {
                        let chj = triple(s.left, s.right, j0 as usize);
                        assert(g2.node_matches(i, dop, chs));
                        assert(g2.root(z as int) == g2.root(j0));
                        assert forall|k: int| 0 <= k < 3 implies g2.root(#[trigger] g2.spec_children(i)[k] as int)
                            == g2.root(chj[k] as int) by {
                            assert(g2.root(g2.spec_children(i)[k] as int) == g2.root(chs[k] as int));
                        }
                        assert(g2.node_matches(i, dop, chj));
                    } else {
                        assert(g2.spec_nodes()[i] == g1.spec_nodes()[i]);
                    }
                }
                let j = choose|j: int|
                    0 <= j < g1.spec_len() && g1.node_matches(j, Language::Nil, nil_ch) && g1.root(j) == z;
                lemma_toehold_effect(g1, *g, tb, s, z, j);
            }
            Ok(())
        },
        Err(e) => {
            proof {
                g0.lemma_grows_trans(g1, *g);
            }
            Err(e)
        },
    }
}

/// Adds `(double-strand-cell left right eclass)`.
fn apply_bind(g: &mut EGraph, tb: TopOrBottom, s: Subst) -> (r: Result<(), EGraphError>)
    requires
        old(g).wf(),
        rule_ready(*old(g), Rule::Bind(tb), s),
    ensures
        final(g).wf(),
        old(g).grows_to(*final(g)),
        r is Ok ==> rule_applied(*final(g), Rule::Bind(tb), s),
        r matches Err(e) ==> e is Full && final(g).spec_len() == usize::MAX,
        final(g).spec_len() <= old(g).spec_len() + 1,
        forall|i: int|
            old(g).spec_len() <= i < final(g).spec_len() ==> #[trigger] final(g).spec_op(i)
                == Language::spec_double_strand_cell(tb),
        old(g).appends_only(*final(g)),
        old(g).is_closed() ==> final(g).is_closed(),
        forall|i: int|
            old(g).spec_len() <= i < final(g).spec_len() ==> #[trigger] applied_node(*final(g), Rule::Bind(tb), s, i),
{
    let ghost g0 = *g;
    let dop = Language::double_strand_cell(tb);
    let ch = vec![s.left, s.right, s.eclass];
    let ghost chs = ch@;
    proof {
        assert(chs == triple(s.left, s.right, s.eclass));
        assert(g0.metas_of(chs) =~= seq![
            g0.class_meta(s.left as int),
            g0.class_meta(s.right as int),
            g0.class_meta(s.eclass as int),
        ]);
    }
    let res = g.add(ENode::new(dop, ch));
    match res {
        Ok(d) => {
            proof {
                g0.lemma_interned_found(*g, dop, chs, d);
                g0.lemma_interned_adds(*g, dop, chs, d);
                g0.lemma_interned_appends(*g, dop, chs, d);
                if g0.is_closed() {
                    g0.lemma_interned_closed(*g, dop, chs, d);
                }
                g0.lemma_interned_new_node(*g, dop, chs, d);
            }
            Ok(())
        },
        Err(e) => {
            proof {
                g0.lemma_grows_refl();
                g0.lemma_appends_refl();
            }
            Err(e)
        },
    }
}

/// Applies `rule` at one binding: joins the two eclasses, or adds the
/// double-strand cell over the bound cells.
fn apply_one(g: &mut EGraph, rule: &Rule, s: Subst) -> (r: Result<(), EGraphError>)
    requires
        old(g).wf(),
        rule_ready(*old(g), *rule, s),
    ensures
        final(g).wf(),
        old(g).grows_to(*final(g)),
        r is Ok ==> rule_applied(*final(g), *rule, s),
        r matches Err(e) ==> e is Full && final(g).spec_len() == usize::MAX,
        *rule is SimplifyDoubleComplement ==> final(g).spec_nodes() == old(g).spec_nodes(),
        !(*rule is SimplifyDoubleComplement) ==> old(g).appends_only(*final(g)),
        !(*rule is SimplifyDoubleComplement) && old(g).is_closed() ==> final(g).is_closed(),
        *rule is SimplifyDoubleComplement ==> r is Ok && old(g).linked(
            *final(g),
            old(g).root(s.eclass as int),
            old(g).root(s.left as int),
        ),
        forall|i: int|
            old(g).spec_len() <= i < final(g).spec_len() ==> final(g).spec_op(i) == Language::Nil
                || #[trigger] applied_node(*final(g), *rule, s, i),
{
    match rule {
        Rule::SimplifyDoubleComplement => apply_double_complement(g, s),
        Rule::ToeholdBind(tb) => apply_toehold_bind(g, *tb, s),
        Rule::Bind(tb) => apply_bind(g, *tb, s),
    }
}

/// Node `i` is the node that applying `rule` at `s` adds.
pub open spec fn applied_node(g: EGraph, rule: Rule, s: Subst, i: int) -> bool {
    match rule {
        Rule::SimplifyDoubleComplement => false,
        Rule::ToeholdBind(tb) => exists|z: int|
            0 <= z < g.spec_len() && g.spec_op(z) == Language::Nil && #[trigger] g.node_matches(
                i,
                Language::spec_double_strand_cell(tb),
                triple(s.left, s.right, z as usize),
            ),
        Rule::Bind(tb) => g.node_matches(i, Language::spec_double_strand_cell(tb), triple(s.left, s.right, s.eclass)),
    }
}

/// No rule is the cancellation rule: none joins eclasses.
pub open spec fn no_cancellation(rules: Seq<Rewrite>) -> bool {
    forall|i: int| 0 <= i < rules.len() ==> !(#[trigger] rules[i].rule is SimplifyDoubleComplement)
}

/// Every node of `post` beyond those of `pre` is a `nil`, or the node that
/// one of `rules` adds at one of its bindings in `pre`.
pub open spec fn adds_only_bindings(pre: EGraph, rules: Seq<Rewrite>, post: EGraph) -> bool {
    forall|i: int|
        pre.spec_len() <= i < post.spec_len() ==> post.spec_op(i) == Language::Nil || exists|r: int, s: Subst|
            0 <= r < rules.len() && rule_matches(pre, rules[r].rule, s) && #[trigger] applied_node(
                post,
                rules[r].rule,
                s,
                i,
            )
}

/// Every rule is the cancellation rule, which joins eclasses but adds no node.
pub open spec fn only_cancellation(rules: Seq<Rewrite>) -> bool {
    forall|i: int| 0 <= i < rules.len() ==> #[trigger] rules[i].rule == Rule::SimplifyDoubleComplement
}

/// In `h`, node `i` is `complement(x)` and node `p`, in the eclass of `x`,
/// is a complement too.
pub open spec fn cancels(h: EGraph, i: int, p: int) -> bool {
    &&& 0 <= i < h.spec_len()
    &&& 0 <= p < h.spec_len()
    &&& h.spec_op(i) == Language::Complement
    &&& h.spec_children(i).len() == 1
    &&& h.spec_op(p) == Language::Complement
    &&& h.spec_children(p).len() >= 1
    &&& h.root(p) == h.root(h.spec_children(i)[0] as int)
}

/// `h` is closed under the cancellation rule: every double complement is in
/// the eclass of what it complements twice.
pub open spec fn cancel_closed(h: EGraph) -> bool {
    forall|i: int, p: int| #[trigger] cancels(h, i, p) ==> h.root(i) == h.root(h.spec_children(p)[0] as int)
}

/// `h` is a closed partition of the nodes of `post` (and maybe more) that
/// joins all that `pre` joins and, where `rules` cancel, is closed under
/// cancellation: any graph the rules and congruence could settle in.
pub open spec fn forced_above(pre: EGraph, post: EGraph, rules: Seq<Rewrite>, h: EGraph) -> bool {
    &&& h.wf()
    &&& post.extends_nodes(h)
    &&& pre.refines(h)
    &&& h.is_closed()
    &&& !no_cancellation(rules) ==> cancel_closed(h)
}

/// A cancellation binding of `snap` joins eclasses that every cancellation
/// closed partition above `snap` joins too.
pub proof fn lemma_cancel_forced(snap: EGraph, h: EGraph, s: Subst)
    requires
        snap.wf(),
        snap.extends_nodes(h),
        snap.refines(h),
        cancel_closed(h),
        double_complement_match(snap, s),
    ensures
        h.root(s.eclass as int) == h.root(s.left as int),
{
    let i = choose|i: int| #[trigger] complement_witness(snap, s, i);
    let m0 = snap.spec_children(i)[0] as int;
    assert(m0 < i);
    let p = choose|p: int| #[trigger] edge_witness(snap, snap.root(m0), Language::Complement, 0, s.left as int, p);
    let pc = snap.spec_children(p)[0] as int;
    assert(pc < p);
    snap.lemma_root(i);
    snap.lemma_root(m0);
    snap.lemma_root(p);
    snap.lemma_root(pc);
    assert(h.spec_nodes()[i] == snap.spec_nodes()[i]);
    assert(h.spec_nodes()[p] == snap.spec_nodes()[p]);
    assert(h.root(p) == h.root(m0));
    assert(cancels(h, i, p));
    assert(h.root(i) == h.root(pc));
    assert(h.root(snap.root(i)) == h.root(i));
    assert(h.root(snap.root(pc)) == h.root(pc));
}

/// Every binding that the rules have in `pre` has been applied in `post`.
pub open spec fn round_done(pre: EGraph, rules: Seq<Rewrite>, post: EGraph) -> bool {
    forall|i: int, s: Subst|
        0 <= i < rules.len() && #[trigger] rule_matches(pre, rules[i].rule, s) ==> rule_applied(
            post,
            rules[i].rule,
            s,
        )
}

/// One round of saturation. Every rule searches the graph as it stands,
/// before anything changes; then each rule, in list order, is applied at
/// each of its bindings; then the graph is rebuilt.
pub fn run_one(egraph: &mut EGraph, rules: &Vec<Rewrite>) -> (r: Result<(), EGraphError>)
    requires
        old(egraph).wf(),
    ensures
        final(egraph).wf(),
        old(egraph).grows_to(*final(egraph)),
        r is Ok ==> final(egraph).is_closed() && round_done(*old(egraph), rules@, *final(egraph)),
        r matches Err(e) ==> e is Full && final(egraph).spec_len() == usize::MAX,
        only_cancellation(rules@) ==> final(egraph).spec_nodes() == old(egraph).spec_nodes(),
        no_cancellation(rules@) && old(egraph).is_closed() ==> old(egraph).appends_only(*final(egraph)),
        adds_only_bindings(*old(egraph), rules@, *final(egraph)),
        only_cancellation(rules@) ==> r is Ok,
        r is Ok ==> forall|h: EGraph|
            #[trigger] forced_above(*old(egraph), *final(egraph), rules@, h) ==> final(egraph).refines(h),
{
    let ghost snap = *egraph;
    let mut found: Vec<Vec<Subst>> = Vec::new();
    let mut i: usize = 0;
    while i < rules.len()
        invariant
            egraph.wf(),
            *egraph == snap,
            i <= rules@.len(),
            found@.len() == i,
            forall|i2: int, s: Subst|
                0 <= i2 < i ==> (found@[i2]@.contains(s) <==> rule_matches(snap, rules@[i2].rule, s)),
        decreases rules@.len() - i,
    {
        let ms = search(egraph, &rules[i].rule);
        found.push(ms);
        i = i + 1;
    }
    proof {
        snap.lemma_grows_refl();
    }
    let mut i: usize = 0;
    while i < rules.len()
        invariant
            egraph.wf(),
            snap.wf(),
            snap == *old(egraph),
            snap.grows_to(*egraph),
            only_cancellation(rules@) ==> egraph.spec_nodes() == snap.spec_nodes(),
            no_cancellation(rules@) && snap.is_closed() ==> snap.appends_only(*egraph) && egraph.is_closed(),
            adds_only_bindings(snap, rules@, *egraph),
            forall|h: EGraph| #[trigger] forced_above(snap, *egraph, rules@, h) ==> egraph.refines(h),
            i <= rules@.len(),
            found@.len() == rules@.len(),
            forall|i2: int, s: Subst|
                0 <= i2 < rules@.len() ==> (found@[i2]@.contains(s) <==> rule_matches(snap, rules@[i2].rule, s)),
            forall|i2: int, s: Subst|
                0 <= i2 < i && #[trigger] rule_matches(snap, rules@[i2].rule, s) ==> rule_applied(
                    *egraph,
                    rules@[i2].rule,
                    s,
                ),
        decreases rules@.len() - i,
    {
        let ms = &found[i];
        let rule = rules[i].rule;
        let mut t: usize = 0;
        while t < ms.len()
            invariant
                egraph.wf(),
                snap.wf(),
                snap == *old(egraph),
                snap.grows_to(*egraph),
                only_cancellation(rules@) ==> egraph.spec_nodes() == snap.spec_nodes(),
                no_cancellation(rules@) && snap.is_closed() ==> snap.appends_only(*egraph) && egraph.is_closed(),
                adds_only_bindings(snap, rules@, *egraph),
                forall|h: EGraph| #[trigger] forced_above(snap, *egraph, rules@, h) ==> egraph.refines(h),
                i < rules@.len(),
                rule == rules@[i as int].rule,
                *ms == found@[i as int],
                t <= ms@.len(),
                found@.len() == rules@.len(),
                forall|i2: int, s: Subst|
                    0 <= i2 < rules@.len() ==> (found@[i2]@.contains(s) <==> rule_matches(snap, rules@[i2].rule, s)),
                forall|i2: int, s: Subst|
                    0 <= i2 < i && #[trigger] rule_matches(snap, rules@[i2].rule, s) ==> rule_applied(
                        *egraph,
                        rules@[i2].rule,
                        s,
                    ),
                forall|t2: int| 0 <= t2 < t ==> rule_applied(*egraph, rule, #[trigger] ms@[t2]),
            decreases ms@.len() - t,
        {
            let s = ms[t];
            proof {
                assert(found@[i as int]@.contains(s));
                lemma_match_ready(snap, rule, s);
                lemma_ready_grows(snap, *egraph, rule, s);
            }
            let ghost before = *egraph;
            let res = apply_one(egraph, &rule, s);
            proof {
                snap.lemma_grows_trans(before, *egraph);
            }
            proof {
                if no_cancellation(rules@) && snap.is_closed() {
                    assert(!(rules@[i as int].rule is SimplifyDoubleComplement));
                    snap.lemma_appends_trans(before, *egraph);
                }
                assert forall|n: int| snap.spec_len() <= n < egraph.spec_len() implies egraph.spec_op(n)
                    == Language::Nil || exists|r2: int, s2: Subst|
                    0 <= r2 < rules@.len() && rule_matches(snap, rules@[r2].rule, s2) && #[trigger] applied_node(
                        *egraph,
                        rules@[r2].rule,
                        s2,
                        n,
                    ) by {
                    if n >= before.spec_len() {
                        if egraph.spec_op(n) != Language::Nil {
                            assert(applied_node(*egraph, rules@[i as int].rule, s, n));
                        }
                    } else {
                        assert(egraph.spec_nodes()[n] == before.spec_nodes()[n]);
                        if before.spec_op(n) != Language::Nil {
                            let (r2, s2) = choose|r2: int, s2: Subst|
                                0 <= r2 < rules@.len() && rule_matches(snap, rules@[r2].rule, s2) && #[trigger] applied_node(
                                    before,
                                    rules@[r2].rule,
                                    s2,
                                    n,
                                );
                            lemma_match_valid(snap, rules@[r2].rule, s2);
                            lemma_applied_node_grows(before, *egraph, rules@[r2].rule, s2, n);
                        }
                    }
                }
            }
            if let Err(e) = res {
                return Err(e);
            }
            proof {
                assert forall|h: EGraph| #[trigger] forced_above(snap, *egraph, rules@, h) implies egraph.refines(h) by {
                    assert(forced_above(snap, before, rules@, h));
                    if rule is SimplifyDoubleComplement {
                        assert(!no_cancellation(rules@));
                        lemma_cancel_forced(snap, h, s);
                        lemma_match_valid(snap, rule, s);
                        before.lemma_link_refines(*egraph, s.eclass as int, s.left as int, h);
                    } else {
                        before.lemma_appends_refines(*egraph, h);
                    }
                }
                assert forall|i2: int, s2: Subst|
                    0 <= i2 < i && #[trigger] rule_matches(snap, rules@[i2].rule, s2) implies rule_applied(
                        *egraph,
                        rules@[i2].rule,
                        s2,
                    ) by {
                    lemma_match_valid(snap, rules@[i2].rule, s2);
                    lemma_applied_grows(before, *egraph, rules@[i2].rule, s2);
                }
                assert forall|t2: int| 0 <= t2 < t + 1 implies rule_applied(*egraph, rule, #[trigger] ms@[t2]) by {
                    if t2 < t {
                        assert(found@[i as int]@.contains(ms@[t2]));
                        lemma_match_valid(snap, rule, ms@[t2]);
                        lemma_applied_grows(before, *egraph, rule, ms@[t2]);
                    }
                }
            }
            t = t + 1;
        }
        proof {
            assert forall|i2: int, s2: Subst|
                0 <= i2 < i + 1 && #[trigger] rule_matches(snap, rules@[i2].rule, s2) implies rule_applied(
                    *egraph,
                    rules@[i2].rule,
                    s2,
                ) by {
                if i2 == i {
                    assert(ms@.contains(s2));
                    let t2 = choose|t2: int| 0 <= t2 < ms@.len() && ms@[t2] == s2;
                    assert(rule_applied(*egraph, rule, ms@[t2]));
                }
            }
        }
        i = i + 1;
    }
    let ghost before = *egraph;
    egraph.rebuild();
    proof {
        before.lemma_coarsens_grows(*egraph);
        snap.lemma_grows_trans(before, *egraph);
        assert forall|h: EGraph| #[trigger] forced_above(snap, *egraph, rules@, h) implies egraph.refines(h) by {
            assert(forced_above(snap, before, rules@, h));
            assert(before.closed_above(h));
        }
        assert forall|n: int| snap.spec_len() <= n < egraph.spec_len() implies egraph.spec_op(n)
            == Language::Nil || exists|r2: int, s2: Subst|
            0 <= r2 < rules@.len() && rule_matches(snap, rules@[r2].rule, s2) && #[trigger] applied_node(
                *egraph,
                rules@[r2].rule,
                s2,
                n,
            ) by {
            if before.spec_op(n) != Language::Nil {
                let (r2, s2) = choose|r2: int, s2: Subst|
                    0 <= r2 < rules@.len() && rule_matches(snap, rules@[r2].rule, s2) && #[trigger] applied_node(
                        before,
                        rules@[r2].rule,
                        s2,
                        n,
                    );
                lemma_match_valid(snap, rules@[r2].rule, s2);
                lemma_applied_node_grows(before, *egraph, rules@[r2].rule, s2, n);
            }
        }
        assert forall|i2: int, s2: Subst|
            0 <= i2 < rules@.len() && #[trigger] rule_matches(snap, rules@[i2].rule, s2) implies rule_applied(
                *egraph,
                rules@[i2].rule,
                s2,
            ) by {
            lemma_match_valid(snap, rules@[i2].rule, s2);
            lemma_applied_grows(before, *egraph, rules@[i2].rule, s2);
        }
    }
    Ok(())
}

pub proof fn lemma_applied_node_grows(g: EGraph, post: EGraph, rule: Rule, s: Subst, i: int)
    requires
        g.wf(),
        g.grows_to(post),
        subst_valid(g, s),
        0 <= i < g.spec_len(),
        applied_node(g, rule, s, i),
    ensures
        applied_node(post, rule, s, i),
{
    let dop = match rule {
        Rule::ToeholdBind(tb) => Language::spec_double_strand_cell(tb),
        Rule::Bind(tb) => Language::spec_double_strand_cell(tb),
        _ => Language::Nil,
    };
    let ch = match rule {
        Rule::ToeholdBind(tb) => {
            let z = choose|z: int|
                0 <= z < g.spec_len() && g.spec_op(z) == Language::Nil && #[trigger] g.node_matches(
                    i,
                    Language::spec_double_strand_cell(tb),
                    triple(s.left, s.right, z as usize),
                );
            assert(post.spec_nodes()[z] == g.spec_nodes()[z]);
            triple(s.left, s.right, z as usize)
        },
        _ => triple(s.left, s.right, s.eclass),
    };
    if !(rule is SimplifyDoubleComplement) {
        assert(post.spec_nodes()[i] == g.spec_nodes()[i]);
        assert forall|k: int| 0 <= k < ch.len() implies post.root(#[trigger] post.spec_children(i)[k] as int)
            == post.root(ch[k] as int) by {
            assert(g.spec_children(i)[k] < i);
            assert(g.root(g.spec_children(i)[k] as int) == g.root(ch[k] as int));
        }
        assert(post.node_matches(i, dop, ch));
    }
}

/// Round results survive the growth of the graph.
pub proof fn lemma_round_done_grows(pre: EGraph, mid: EGraph, post: EGraph, rules: Seq<Rewrite>)
    requires
        pre.wf(),
        mid.wf(),
        pre.grows_to(mid),
        mid.grows_to(post),
        round_done(pre, rules, mid),
    ensures
        round_done(pre, rules, post),
{
    assert forall|i: int, s: Subst|
        0 <= i < rules.len() && #[trigger] rule_matches(pre, rules[i].rule, s) implies rule_applied(
            post,
            rules[i].rule,
            s,
        ) by {
        lemma_match_valid(pre, rules[i].rule, s);
        lemma_applied_grows(mid, post, rules[i].rule, s);
    }
}

/// What a saturation run reports.
#[derive(Debug, Clone, Copy)]
pub struct SaturationReport {
    /// Rounds run.
    pub rounds: usize,
    /// Nodes in the graph at the end.
    pub final_node_count: usize,
    /// Eclasses in the graph at the end.
    pub final_class_count: usize,
    /// Whether the last round added no node (a fixed point), rather than the
    /// round limit being reached.
    pub saturated: bool,
}

/// Saturates: rebuilds, then runs rounds until one adds no node or
/// `max_rounds` rounds have run. The graph only grows.
pub fn run(egraph: &mut EGraph, rules: &Vec<Rewrite>, max_rounds: usize) -> (r: Result<
    SaturationReport,
    EGraphError,
>)
    requires
        old(egraph).wf(),
    ensures
        final(egraph).wf(),
        old(egraph).grows_to(*final(egraph)),
        r matches Err(e) ==> e is Full && final(egraph).spec_len() == usize::MAX,
        only_cancellation(rules@) ==> r is Ok,
        r matches Ok(rep) ==> {
            &&& final(egraph).is_closed()
            &&& rep.rounds <= max_rounds
            &&& rep.final_node_count == final(egraph).spec_len()
            &&& rep.final_class_count == final(egraph).num_classes()
            &&& !rep.saturated ==> rep.rounds == max_rounds
            &&& only_cancellation(rules@) && max_rounds >= 1 ==> rep.saturated && rep.rounds == 1
            &&& final(egraph).spec_len() + (if rep.saturated { 1int } else { 0int }) >= old(egraph).spec_len()
                + rep.rounds
            &&& rep.rounds >= 1 && old(egraph).is_closed() ==> round_done(*old(egraph), rules@, *final(egraph))
            &&& no_cancellation(rules@) && old(egraph).is_closed() ==> old(egraph).appends_only(*final(egraph))
            &&& forall|h: EGraph|
                #[trigger] forced_above(*old(egraph), *final(egraph), rules@, h) ==> final(egraph).refines(h)
            &&& rep.saturated ==> rep.rounds >= 1 && exists|pre: EGraph|
                pre.wf() && old(egraph).grows_to(pre) && pre.is_closed() && pre.grows_to(*final(egraph))
                    && pre.spec_len() == final(egraph).spec_len() && #[trigger] round_done(pre, rules@, *final(egraph))
        },
{
    let ghost start = *egraph;
    egraph.rebuild();
    proof {
        start.lemma_coarsens_grows(*egraph);
        start.lemma_appends_refl();
        assert forall|h: EGraph| #[trigger] forced_above(start, *egraph, rules@, h) implies egraph.refines(h) by {
            assert(start.closed_above(h));
        }
    }
    let mut rounds: usize = 0;
    let mut saturated = false;
    loop
        invariant_except_break
            !saturated,
            only_cancellation(rules@) ==> rounds == 0,
            egraph.spec_len() >= start.spec_len() + rounds,
        invariant
            egraph.wf(),
            start == *old(egraph),
            start.wf(),
            start.grows_to(*egraph),
            egraph.is_closed(),
            rounds <= max_rounds,
            rounds == 0 && start.is_closed() ==> *egraph == start,
            rounds >= 1 && start.is_closed() ==> round_done(start, rules@, *egraph),
            no_cancellation(rules@) && start.is_closed() ==> start.appends_only(*egraph),
            forall|h: EGraph| #[trigger] forced_above(start, *egraph, rules@, h) ==> egraph.refines(h),
        ensures
            egraph.wf(),
            start.grows_to(*egraph),
            egraph.is_closed(),
            rounds <= max_rounds,
            !saturated ==> rounds == max_rounds,
            only_cancellation(rules@) && max_rounds >= 1 ==> saturated && rounds == 1,
            egraph.spec_len() + (if saturated { 1int } else { 0int }) >= start.spec_len() + rounds,
            rounds >= 1 && start.is_closed() ==> round_done(start, rules@, *egraph),
            no_cancellation(rules@) && start.is_closed() ==> start.appends_only(*egraph),
            forall|h: EGraph| #[trigger] forced_above(start, *egraph, rules@, h) ==> egraph.refines(h),
            saturated ==> rounds >= 1 && exists|pre: EGraph|
                pre.wf() && start.grows_to(pre) && pre.is_closed() && pre.grows_to(*egraph)
                    && pre.spec_len() == egraph.spec_len() && #[trigger] round_done(pre, rules@, *egraph),
        decreases max_rounds - rounds,
    {
        if rounds == max_rounds {
            break;
        }
        let size_before = egraph.total_size();
        let ghost pre = *egraph;
        let res = run_one(egraph, rules);
        proof {
            start.lemma_grows_trans(pre, *egraph);
            if res is Ok && start.is_closed() && rounds >= 1 {
                lemma_round_done_grows(start, pre, *egraph, rules@);
            }
            if res is Ok && start.is_closed() && no_cancellation(rules@) {
                start.lemma_appends_trans(pre, *egraph);
            }
        }
        if let Err(e) = res {
            return Err(e);
        }
        proof {
            assert forall|h: EGraph| #[trigger] forced_above(start, *egraph, rules@, h) implies egraph.refines(h) by {
                assert forall|i: int| 0 <= i < pre.spec_len() implies #[trigger] h.spec_nodes()[i] == pre.spec_nodes()[i] by {
                    assert(egraph.spec_nodes()[i] == pre.spec_nodes()[i]);
                    assert(h.spec_nodes()[i] == egraph.spec_nodes()[i]);
                }
                assert(forced_above(start, pre, rules@, h));
                assert(forced_above(pre, *egraph, rules@, h));
            }
        }
        rounds = rounds + 1;
        if egraph.total_size() == size_before {
            saturated = true;
            assert(pre.wf() && start.grows_to(pre) && pre.is_closed() && pre.grows_to(*egraph)
                && pre.spec_len() == egraph.spec_len() && round_done(pre, rules@, *egraph));
            break;
        }
    }
    let final_node_count = egraph.total_size();
    let final_class_count = egraph.number_of_classes();
    Ok(SaturationReport { rounds, final_node_count, final_class_count, saturated })
}

} // verus!
