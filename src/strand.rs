use vstd::prelude::*;
use crate::domain::{Domain, DomainId, TopOrBottom};
use crate::egraph::{EGraph, EGraphError};
use crate::search::{Subst, has_node, toehold_head, toehold_match, toehold_partner};
use crate::language::{ENode, Id, Language, Meta, Value, is_strand_cell_or_nil, make_spec};

verus! {

pub open spec fn one(x: Id) -> Seq<Id> {
    seq![x]
}

pub open spec fn pair(x: Id, y: Id) -> Seq<Id> {
    seq![x, y]
}

/// Eclass `c` holds a node with operator `op` over children equivalent to `ch`.
pub open spec fn holds(g: EGraph, c: int, op: Language, ch: Seq<Id>) -> bool {
    exists|j: int| 0 <= j < g.spec_len() && g.root(j) == g.root(c) && #[trigger] g.node_matches(j, op, ch)
}

/// Eclass `c` holds the term of the domain identifier `id`:
/// `(domain-id (v))`, or `(complement <id>)`.
pub open spec fn represents_id(g: EGraph, c: int, id: DomainId) -> bool
    decreases id,
{
    match id {
        DomainId::DomainId(v) => exists|x: Id|
            x < g.spec_len() && holds(g, x as int, Language::DomainIdValue(v), seq![]) && #[trigger] holds(
                g,
                c,
                Language::DomainId,
                one(x),
            ),
        DomainId::Complement(inner) => exists|x: Id|
            x < g.spec_len() && represents_id(g, x as int, *inner) && #[trigger] holds(
                g,
                c,
                Language::Complement,
                one(x),
            ),
    }
}

/// Eclass `c` holds the term of domain `d`: `(toehold-domain <id>)` or
/// `(long-domain <id>)`.
pub open spec fn represents_domain(g: EGraph, c: int, d: Domain) -> bool {
    match d {
        Domain::Toehold(id) => exists|x: Id|
            x < g.spec_len() && represents_id(g, x as int, id) && #[trigger] holds(
                g,
                c,
                Language::ToeholdDomain,
                one(x),
            ),
        Domain::Long(id) => exists|x: Id|
            x < g.spec_len() && represents_id(g, x as int, id) && #[trigger] holds(
                g,
                c,
                Language::LongDomain,
                one(x),
            ),
    }
}

/// Eclass `c` holds the chain of strand cells of direction `tb` over the
/// domains `doms`, first to last, ended by `nil`.
pub open spec fn represents_strand(g: EGraph, c: int, tb: TopOrBottom, doms: Seq<Domain>) -> bool
    decreases doms.len(),
{
    if doms.len() == 0 {
        holds(g, c, Language::Nil, seq![])
    } else {
        exists|x: Id, y: Id|
            x < g.spec_len() && y < g.spec_len() && represents_domain(g, x as int, doms[0])
                && represents_strand(g, y as int, tb, doms.drop_first()) && #[trigger] holds(
                g,
                c,
                Language::spec_strand_cell(tb),
                pair(x, y),
            )
    }
}

pub proof fn lemma_holds_grows(g: EGraph, post: EGraph, c: int, op: Language, ch: Seq<Id>)
    requires
        g.wf(),
        g.grows_to(post),
        0 <= c < g.spec_len(),
        g.valid_ids(ch),
        holds(g, c, op, ch),
    ensures
        holds(post, c, op, ch),
{
    let j = choose|j: int| 0 <= j < g.spec_len() && g.root(j) == g.root(c) && #[trigger] g.node_matches(j, op, ch);
    assert(post.spec_nodes()[j] == g.spec_nodes()[j]);
    assert forall|k: int| 0 <= k < ch.len() implies post.root(#[trigger] post.spec_children(j)[k] as int)
        == post.root(ch[k] as int) by {
        assert(g.spec_children(j)[k] < j);
        assert(g.root(g.spec_children(j)[k] as int) == g.root(ch[k] as int));
    }
    assert(post.node_matches(j, op, ch));
    assert(post.root(j) == post.root(c));
}

pub proof fn lemma_represents_id_grows(g: EGraph, post: EGraph, c: int, id: DomainId)
    requires
        g.wf(),
        g.grows_to(post),
        0 <= c < g.spec_len(),
        represents_id(g, c, id),
    ensures
        represents_id(post, c, id),
    decreases id,
{
    match id {
        DomainId::DomainId(v) => {
            let x = choose|x: Id|
                x < g.spec_len() && holds(g, x as int, Language::DomainIdValue(v), seq![]) && #[trigger] holds(
                    g,
                    c,
                    Language::DomainId,
                    one(x),
                );
            lemma_holds_grows(g, post, x as int, Language::DomainIdValue(v), seq![]);
            lemma_holds_grows(g, post, c, Language::DomainId, one(x));
        },
        DomainId::Complement(inner) => {
            let x = choose|x: Id|
                x < g.spec_len() && represents_id(g, x as int, *inner) && #[trigger] holds(
                    g,
                    c,
                    Language::Complement,
                    one(x),
                );
            lemma_represents_id_grows(g, post, x as int, *inner);
            lemma_holds_grows(g, post, c, Language::Complement, one(x));
        },
    }
}

pub proof fn lemma_represents_domain_grows(g: EGraph, post: EGraph, c: int, d: Domain)
    requires
        g.wf(),
        g.grows_to(post),
        0 <= c < g.spec_len(),
        represents_domain(g, c, d),
    ensures
        represents_domain(post, c, d),
{
    let op = match d {
        Domain::Toehold(_) => Language::ToeholdDomain,
        Domain::Long(_) => Language::LongDomain,
    };
    let id = d.spec_id();
    let x = choose|x: Id| x < g.spec_len() && represents_id(g, x as int, id) && #[trigger] holds(g, c, op, one(x));
    lemma_represents_id_grows(g, post, x as int, id);
    lemma_holds_grows(g, post, c, op, one(x));
}

pub proof fn lemma_represents_strand_grows(g: EGraph, post: EGraph, c: int, tb: TopOrBottom, doms: Seq<Domain>)
    requires
        g.wf(),
        g.grows_to(post),
        0 <= c < g.spec_len(),
        represents_strand(g, c, tb, doms),
    ensures
        represents_strand(post, c, tb, doms),
    decreases doms.len(),
{
    if doms.len() == 0 {
        lemma_holds_grows(g, post, c, Language::Nil, seq![]);
    } else {
        let (x, y) = choose|x: Id, y: Id|
            x < g.spec_len() && y < g.spec_len() && represents_domain(g, x as int, doms[0])
                && represents_strand(g, y as int, tb, doms.drop_first()) && #[trigger] holds(
                g,
                c,
                Language::spec_strand_cell(tb),
                pair(x, y),
            );
        lemma_represents_domain_grows(g, post, x as int, doms[0]);
        lemma_represents_strand_grows(g, post, y as int, tb, doms.drop_first());
        lemma_holds_grows(g, post, c, Language::spec_strand_cell(tb), pair(x, y));
    }
}

/// The analysis value of the term of a domain identifier: complement
/// markers cancel in pairs.
pub open spec fn id_value(id: DomainId) -> DomainId
    decreases id,
{
    match id {
        DomainId::DomainId(v) => DomainId::DomainId(v),
        DomainId::Complement(inner) => id_value(*inner).spec_complement(),
    }
}

/// The analysis value of the term of a domain.
pub open spec fn domain_value(d: Domain) -> Domain {
    match d {
        Domain::Toehold(id) => Domain::Toehold(id_value(id)),
        Domain::Long(id) => Domain::Long(id_value(id)),
    }
}

/// The value of an eclass that holds a node is what `make` gives for it.
pub proof fn lemma_holds_meta(g: EGraph, c: int, op: Language, ch: Seq<Id>)
    requires
        g.wf(),
        0 <= c < g.spec_len(),
        g.valid_ids(ch),
        holds(g, c, op, ch),
    ensures
        make_spec(op, g.metas_of(ch)) == Some(g.class_meta(c)),
{
    let j = choose|j: int| 0 <= j < g.spec_len() && g.root(j) == g.root(c) && #[trigger] g.node_matches(j, op, ch);
    g.lemma_root(j);
    g.lemma_root(c);
    assert forall|k: int| 0 <= k < ch.len() implies g.class_meta(#[trigger] g.spec_children(j)[k] as int)
        == g.class_meta(ch[k] as int) by {
        assert(g.spec_children(j)[k] < j);
    }
    assert(g.metas_of(g.spec_children(j)) =~= g.metas_of(ch));
    assert(make_spec(g.spec_op(j), g.metas_of(g.spec_children(j))) == Some(g.class_meta(j)));
    assert(g.class_meta(j) == g.class_meta(c));
}

pub proof fn lemma_represents_id_meta(g: EGraph, c: int, id: DomainId)
    requires
        g.wf(),
        0 <= c < g.spec_len(),
        represents_id(g, c, id),
    ensures
        g.class_meta(c) == (Meta { value: Some(Value::DomainIdValue(id_value(id))) }),
    decreases id,
{
    match id {
        DomainId::DomainId(v) => {
            let x = choose|x: Id|
                x < g.spec_len() && holds(g, x as int, Language::DomainIdValue(v), seq![]) && #[trigger] holds(
                    g,
                    c,
                    Language::DomainId,
                    one(x),
                );
            lemma_holds_meta(g, x as int, Language::DomainIdValue(v), seq![]);
            assert(g.metas_of(seq![]) =~= Seq::<Meta>::empty());
            lemma_holds_meta(g, c, Language::DomainId, one(x));
            assert(g.metas_of(one(x)) =~= seq![g.class_meta(x as int)]);
        },
        DomainId::Complement(inner) => {
            let x = choose|x: Id|
                x < g.spec_len() && represents_id(g, x as int, *inner) && #[trigger] holds(
                    g,
                    c,
                    Language::Complement,
                    one(x),
                );
            lemma_represents_id_meta(g, x as int, *inner);
            lemma_holds_meta(g, c, Language::Complement, one(x));
            assert(g.metas_of(one(x)) =~= seq![g.class_meta(x as int)]);
        },
    }
}

pub proof fn lemma_represents_domain_meta(g: EGraph, c: int, d: Domain)
    requires
        g.wf(),
        0 <= c < g.spec_len(),
        represents_domain(g, c, d),
    ensures
        g.class_meta(c) == (Meta { value: Some(Value::DomainValue(domain_value(d))) }),
{
    let op = match d {
        Domain::Toehold(_) => Language::ToeholdDomain,
        Domain::Long(_) => Language::LongDomain,
    };
    let id = d.spec_id();
    let x = choose|x: Id| x < g.spec_len() && represents_id(g, x as int, id) && #[trigger] holds(g, c, op, one(x));
    lemma_represents_id_meta(g, x as int, id);
    lemma_holds_meta(g, c, op, one(x));
    assert(g.metas_of(one(x)) =~= seq![g.class_meta(x as int)]);
}

pub proof fn lemma_represents_strand_meta(g: EGraph, c: int, tb: TopOrBottom, doms: Seq<Domain>)
    requires
        g.wf(),
        0 <= c < g.spec_len(),
        represents_strand(g, c, tb, doms),
    ensures
        is_strand_cell_or_nil(g.class_meta(c)),
        doms.len() > 0 ==> g.class_meta(c) == (Meta { value: Some(Value::StrandCellValue(domain_value(doms[0]))) }),
    decreases doms.len(),
{
    if doms.len() == 0 {
        lemma_holds_meta(g, c, Language::Nil, seq![]);
        assert(g.metas_of(seq![]) =~= Seq::<Meta>::empty());
    } else {
        let (x, y) = choose|x: Id, y: Id|
            x < g.spec_len() && y < g.spec_len() && represents_domain(g, x as int, doms[0])
                && represents_strand(g, y as int, tb, doms.drop_first()) && #[trigger] holds(
                g,
                c,
                Language::spec_strand_cell(tb),
                pair(x, y),
            );
        lemma_represents_domain_meta(g, x as int, doms[0]);
        lemma_represents_strand_meta(g, y as int, tb, doms.drop_first());
        lemma_holds_meta(g, c, Language::spec_strand_cell(tb), pair(x, y));
        assert(g.metas_of(pair(x, y)) =~= seq![g.class_meta(x as int), g.class_meta(y as int)]);
    }
}

/// The operators of the nodes of a domain's term.
pub open spec fn is_domain_op(op: Language) -> bool {
    match op {
        Language::DomainIdValue(_) | Language::DomainId | Language::Complement | Language::ToeholdDomain
        | Language::LongDomain => true,
        _ => false,
    }
}

/// The nodes that `post` has beyond `pre` are all parts of domain terms.
pub open spec fn adds_domain_nodes(pre: EGraph, post: EGraph) -> bool {
    forall|i: int| pre.spec_len() <= i < post.spec_len() ==> is_domain_op(#[trigger] post.spec_op(i))
}

/// On a closed graph, `post` only appends to `pre` and stays closed.
#[verifier::opaque]
pub open spec fn appends_when_closed(pre: EGraph, post: EGraph) -> bool {
    pre.is_closed() ==> pre.appends_only(post) && post.is_closed()
}

proof fn lemma_appends_chain(g0: EGraph, g1: EGraph, g2: EGraph)
    requires
        appends_when_closed(g0, g1),
        appends_when_closed(g1, g2),
    ensures
        appends_when_closed(g0, g2),
{
    reveal(appends_when_closed);
    if g0.is_closed() {
        g0.lemma_appends_trans(g1, g2);
    }
}

proof fn lemma_domain_nodes_chain(g0: EGraph, g1: EGraph, g2: EGraph)
    requires
        g0.grows_to(g1),
        g1.grows_to(g2),
        adds_domain_nodes(g0, g1),
        adds_domain_nodes(g1, g2),
    ensures
        adds_domain_nodes(g0, g2),
{
    assert forall|i: int| g0.spec_len() <= i < g2.spec_len() implies is_domain_op(#[trigger] g2.spec_op(i)) by {
        if i < g1.spec_len() {
            assert(g2.spec_nodes()[i] == g1.spec_nodes()[i]);
            assert(is_domain_op(g1.spec_op(i)));
        } else {
            assert(is_domain_op(g2.spec_op(i)));
        }
    }
}

/// In a closed graph, two eclasses holding one operator over equivalent
/// children are one eclass.
pub proof fn lemma_holds_unique(g: EGraph, c1: int, c2: int, op: Language, ch1: Seq<Id>, ch2: Seq<Id>)
    requires
        g.wf(),
        g.is_closed(),
        0 <= c1 < g.spec_len(),
        0 <= c2 < g.spec_len(),
        g.valid_ids(ch1),
        g.valid_ids(ch2),
        ch1.len() == ch2.len(),
        forall|k: int| 0 <= k < ch1.len() ==> g.root(#[trigger] ch1[k] as int) == g.root(ch2[k] as int),
        holds(g, c1, op, ch1),
        holds(g, c2, op, ch2),
    ensures
        g.root(c1) == g.root(c2),
{
    let j1 = choose|j: int| 0 <= j < g.spec_len() && g.root(j) == g.root(c1) && #[trigger] g.node_matches(j, op, ch1);
    let j2 = choose|j: int| 0 <= j < g.spec_len() && g.root(j) == g.root(c2) && #[trigger] g.node_matches(j, op, ch2);
    assert forall|k: int| 0 <= k < ch1.len() implies g.root(#[trigger] g.spec_children(j2)[k] as int) == g.root(
        g.spec_children(j1)[k] as int,
    ) by {
        assert(g.root(g.spec_children(j2)[k] as int) == g.root(ch2[k] as int));
        assert(g.root(g.spec_children(j1)[k] as int) == g.root(ch1[k] as int));
    }
    assert(g.congruent(j1, j2));
}

pub proof fn lemma_id_unique(g: EGraph, c1: int, c2: int, id: DomainId)
    requires
        g.wf(),
        g.is_closed(),
        0 <= c1 < g.spec_len(),
        0 <= c2 < g.spec_len(),
        represents_id(g, c1, id),
        represents_id(g, c2, id),
    ensures
        g.root(c1) == g.root(c2),
    decreases id,
{
    match id {
        DomainId::DomainId(v) => {
            let x1 = choose|x: Id|
                x < g.spec_len() && holds(g, x as int, Language::DomainIdValue(v), seq![]) && #[trigger] holds(
                    g,
                    c1,
                    Language::DomainId,
                    one(x),
                );
            let x2 = choose|x: Id|
                x < g.spec_len() && holds(g, x as int, Language::DomainIdValue(v), seq![]) && #[trigger] holds(
                    g,
                    c2,
                    Language::DomainId,
                    one(x),
                );
            lemma_holds_unique(g, x1 as int, x2 as int, Language::DomainIdValue(v), seq![], seq![]);
            lemma_holds_unique(g, c1, c2, Language::DomainId, one(x1), one(x2));
        },
        DomainId::Complement(inner) => {
            let x1 = choose|x: Id|
                x < g.spec_len() && represents_id(g, x as int, *inner) && #[trigger] holds(
                    g,
                    c1,
                    Language::Complement,
                    one(x),
                );
            let x2 = choose|x: Id|
                x < g.spec_len() && represents_id(g, x as int, *inner) && #[trigger] holds(
                    g,
                    c2,
                    Language::Complement,
                    one(x),
                );
            lemma_id_unique(g, x1 as int, x2 as int, *inner);
            lemma_holds_unique(g, c1, c2, Language::Complement, one(x1), one(x2));
        },
    }
}

pub proof fn lemma_domain_unique(g: EGraph, c1: int, c2: int, d: Domain)
    requires
        g.wf(),
        g.is_closed(),
        0 <= c1 < g.spec_len(),
        0 <= c2 < g.spec_len(),
        represents_domain(g, c1, d),
        represents_domain(g, c2, d),
    ensures
        g.root(c1) == g.root(c2),
{
    let op = match d {
        Domain::Toehold(_) => Language::ToeholdDomain,
        Domain::Long(_) => Language::LongDomain,
    };
    let id = d.spec_id();
    let x1 = choose|x: Id| x < g.spec_len() && represents_id(g, x as int, id) && #[trigger] holds(g, c1, op, one(x));
    let x2 = choose|x: Id| x < g.spec_len() && represents_id(g, x as int, id) && #[trigger] holds(g, c2, op, one(x));
    lemma_id_unique(g, x1 as int, x2 as int, id);
    lemma_holds_unique(g, c1, c2, op, one(x1), one(x2));
}

/// An eclass holding the node makes it present for interning.
pub proof fn lemma_match_from_holds(g: EGraph, c: int, op: Language, ch0: Seq<Id>, ch: Seq<Id>)
    requires
        holds(g, c, op, ch0),
        ch0.len() == ch.len(),
        forall|k: int| 0 <= k < ch.len() ==> g.root(#[trigger] ch0[k] as int) == g.root(ch[k] as int),
    ensures
        g.has_match(op, ch),
{
    let j = choose|j: int| 0 <= j < g.spec_len() && g.root(j) == g.root(c) && #[trigger] g.node_matches(j, op, ch0);
    assert forall|k: int| 0 <= k < ch.len() implies g.root(#[trigger] g.spec_children(j)[k] as int) == g.root(
        ch[k] as int,
    ) by {
        assert(g.root(g.spec_children(j)[k] as int) == g.root(ch0[k] as int));
    }
    assert(g.node_matches(j, op, ch));
}

/// How many nodes the term of a domain identifier has at most.
pub open spec fn id_size(id: DomainId) -> nat
    decreases id,
{
    match id {
        DomainId::DomainId(_) => 2,
        DomainId::Complement(inner) => id_size(*inner) + 1,
    }
}

/// How many nodes the term of a domain has at most.
pub open spec fn domain_size(d: Domain) -> nat {
    id_size(d.spec_id()) + 1
}

/// How many nodes the cells of a strand and their domains have at most.
pub open spec fn cells_size(doms: Seq<Domain>) -> nat
    decreases doms.len(),
{
    if doms.len() == 0 {
        0
    } else {
        domain_size(doms[0]) + 1 + cells_size(doms.drop_first())
    }
}

/// How many nodes adding a strand of direction-free cells adds at most:
/// its cells, their domains, and `nil`.
pub open spec fn strand_size(doms: Seq<Domain>) -> nat {
    cells_size(doms) + 1
}

proof fn lemma_cells_size_step(doms: Seq<Domain>, k: int)
    requires
        0 <= k < doms.len(),
    ensures
        cells_size(doms.subrange(k, doms.len() as int)) == domain_size(doms[k]) + 1 + cells_size(
            doms.subrange(k + 1, doms.len() as int),
        ),
{
    let here = doms.subrange(k, doms.len() as int);
    assert(here.drop_first() =~= doms.subrange(k + 1, doms.len() as int));
    assert(here[0] == doms[k]);
}

proof fn lemma_cells_size_suffix(doms: Seq<Domain>, k: int)
    requires
        0 <= k <= doms.len(),
    ensures
        cells_size(doms.subrange(k, doms.len() as int)) <= cells_size(doms),
    decreases k,
{
    if k == 0 {
        assert(doms.subrange(0, doms.len() as int) =~= doms);
    } else {
        lemma_cells_size_suffix(doms, k - 1);
        lemma_cells_size_step(doms, k - 1);
    }
}

/// Interns the leaf `op`; on success the returned eclass holds it.
fn intern_leaf(g: &mut EGraph, op: Language) -> (r: Result<Id, EGraphError>)
    requires
        old(g).wf(),
    ensures
        final(g).wf(),
        old(g).grows_to(*final(g)),
        r matches Ok(c) ==> c < final(g).spec_len() && holds(*final(g), c as int, op, seq![]),
        r matches Err(e) ==> (e is Full && final(g).spec_len() == usize::MAX) || make_spec(op, Seq::empty()) is None,
        final(g).spec_len() <= old(g).spec_len() + 1,
        appends_when_closed(*old(g), *final(g)),
        forall|i: int| old(g).spec_len() <= i < final(g).spec_len() ==> #[trigger] final(g).spec_op(i) == op,
        old(g).has_match(op, seq![]) ==> *final(g) == *old(g) && r is Ok,
        r matches Ok(c) ==> final(g).root(c as int) == c,
{
    proof {
        reveal(appends_when_closed);
    }
    let ch: Vec<Id> = Vec::new();
    proof {
        assert(ch@ =~= seq![]);
        assert(g.metas_of(ch@) =~= Seq::<Meta>::empty());
    }
    intern(g, op, ch)
}

/// Interns `op` over `ch`; on success the returned eclass holds it.
fn intern(g: &mut EGraph, op: Language, ch: Vec<Id>) -> (r: Result<Id, EGraphError>)
    requires
        old(g).wf(),
        old(g).valid_ids(ch@),
    ensures
        final(g).wf(),
        old(g).grows_to(*final(g)),
        r matches Ok(c) ==> c < final(g).spec_len() && holds(*final(g), c as int, op, ch@),
        r matches Err(e) ==> (e is Full && final(g).spec_len() == usize::MAX) || make_spec(op, old(g).metas_of(ch@)) is None,
        appends_when_closed(*old(g), *final(g)),
        final(g).spec_len() <= old(g).spec_len() + 1,
        forall|i: int| old(g).spec_len() <= i < final(g).spec_len() ==> #[trigger] final(g).spec_op(i) == op,
        r matches Ok(c) ==> (final(g).spec_len() > old(g).spec_len() ==> c == old(g).spec_len()),
        r matches Ok(c) ==> final(g).root(c as int) == c,
        old(g).has_match(op, ch@) ==> *final(g) == *old(g) && r is Ok,
{
    reveal(appends_when_closed);
    let ghost g0 = *g;
    let ghost chs = ch@;
    let res = g.add(ENode::new(op, ch));
    match res {
        Ok(c) => {
            proof {
                g0.lemma_interned_found(*g, op, chs, c);
                g0.lemma_interned_adds(*g, op, chs, c);
                if g0.is_closed() {
                    g0.lemma_interned_closed(*g, op, chs, c);
                }
                let j = choose|j: int| 0 <= j < g.spec_len() && g.node_matches(j, op, chs) && g.root(j) == c;
                g.lemma_root(j);
                assert(g.root(j) == g.root(c as int));
            }
            Ok(c)
        },
        Err(e) => {
            proof {
                g0.lemma_grows_refl();
                g0.lemma_appends_refl();
            }
            Err(e)
        },
    }
}

/// Adds the term of a domain identifier, innermost part first.
pub fn add_domain_id_to_egraph(g: &mut EGraph, id: &DomainId) -> (r: Result<Id, EGraphError>)
    requires
        old(g).wf(),
    ensures
        final(g).wf(),
        old(g).grows_to(*final(g)),
        r matches Ok(c) ==> c < final(g).spec_len() && represents_id(*final(g), c as int, *id),
        r matches Err(e) ==> e is Full && final(g).spec_len() == usize::MAX,
        appends_when_closed(*old(g), *final(g)),
        adds_domain_nodes(*old(g), *final(g)),
        final(g).spec_len() <= old(g).spec_len() + id_size(*id),
        old(g).is_closed() && (exists|c: Id| c < old(g).spec_len() && #[trigger] represents_id(*old(g), c as int, *id))
            ==> *final(g) == *old(g),
    decreases id,
{
    let ghost g0 = *g;
    let ghost present = g0.is_closed() && exists|c: Id| c < g0.spec_len() && #[trigger] represents_id(g0, c as int, *id);
    let ghost c0: Id = if present {
        choose|c: Id| c < g0.spec_len() && #[trigger] represents_id(g0, c as int, *id)
    } else {
        0
    };
    match id {
        DomainId::DomainId(v) => {
            let ghost x0: Id = if present {
                choose|x: Id|
                    x < g0.spec_len() && holds(g0, x as int, Language::DomainIdValue(*v), seq![]) && #[trigger] holds(
                        g0,
                        c0 as int,
                        Language::DomainId,
                        one(x),
                    )
            } else {
                0
            };
            proof {
                if present {
                    lemma_match_from_holds(g0, x0 as int, Language::DomainIdValue(*v), seq![], seq![]);
                }
            }
            let x = match intern_leaf(g, Language::DomainIdValue(*v)) {
                Ok(x) => x,
                Err(e) => return Err(e),
            };
            let ghost g1 = *g;
            let ch = vec![x];
            proof {
                assert(ch@ =~= one(x));
                lemma_holds_meta(g1, x as int, Language::DomainIdValue(*v), seq![]);
                assert(g1.metas_of(seq![]) =~= Seq::<Meta>::empty());
                assert(g1.metas_of(one(x)) =~= seq![g1.class_meta(x as int)]);
                if present {
                    lemma_holds_unique(g1, x0 as int, x as int, Language::DomainIdValue(*v), seq![], seq![]);
                    lemma_match_from_holds(g1, c0 as int, Language::DomainId, one(x0), one(x));
                }
            }
            let c = match intern(g, Language::DomainId, ch) {
                Ok(c) => c,
                Err(e) => {
                    proof {
                        g0.lemma_grows_trans(g1, *g);
                        lemma_appends_chain(g0, g1, *g);
                        lemma_domain_nodes_chain(g0, g1, *g);
                    }
                    return Err(e);
                },
            };
            proof {
                g0.lemma_grows_trans(g1, *g);
                        lemma_appends_chain(g0, g1, *g);
                        lemma_domain_nodes_chain(g0, g1, *g);
                lemma_holds_grows(g1, *g, x as int, Language::DomainIdValue(*v), seq![]);
                assert(holds(*g, c as int, Language::DomainId, one(x)));
            }
            Ok(c)
        },
        DomainId::Complement(inner) => {
            let ghost x0: Id = if present {
                choose|x: Id|
                    x < g0.spec_len() && represents_id(g0, x as int, **inner) && #[trigger] holds(
                        g0,
                        c0 as int,
                        Language::Complement,
                        one(x),
                    )
            } else {
                0
            };
            proof {
                if present {
                    assert(represents_id(g0, x0 as int, **inner));
                }
            }
            let x = match add_domain_id_to_egraph(g, inner) {
                Ok(x) => x,
                Err(e) => return Err(e),
            };
            let ghost g1 = *g;
            let ch = vec![x];
            proof {
                assert(ch@ =~= one(x));
                lemma_represents_id_meta(g1, x as int, **inner);
                assert(g1.metas_of(one(x)) =~= seq![g1.class_meta(x as int)]);
                if present {
                    lemma_id_unique(g1, x0 as int, x as int, **inner);
                    lemma_match_from_holds(g1, c0 as int, Language::Complement, one(x0), one(x));
                }
            }
            let c = match intern(g, Language::Complement, ch) {
                Ok(c) => c,
                Err(e) => {
                    proof {
                        g0.lemma_grows_trans(g1, *g);
                        lemma_appends_chain(g0, g1, *g);
                        lemma_domain_nodes_chain(g0, g1, *g);
                    }
                    return Err(e);
                },
            };
            proof {
                g0.lemma_grows_trans(g1, *g);
                        lemma_appends_chain(g0, g1, *g);
                        lemma_domain_nodes_chain(g0, g1, *g);
                lemma_represents_id_grows(g1, *g, x as int, **inner);
                assert(holds(*g, c as int, Language::Complement, one(x)));
            }
            Ok(c)
        },
    }
}

/// Adds the term of a domain.
pub fn add_domain_to_egraph(g: &mut EGraph, d: &Domain) -> (r: Result<Id, EGraphError>)
    requires
        old(g).wf(),
    ensures
        final(g).wf(),
        old(g).grows_to(*final(g)),
        r matches Ok(c) ==> c < final(g).spec_len() && represents_domain(*final(g), c as int, *d),
        r matches Err(e) ==> e is Full && final(g).spec_len() == usize::MAX,
        appends_when_closed(*old(g), *final(g)),
        adds_domain_nodes(*old(g), *final(g)),
        final(g).spec_len() <= old(g).spec_len() + domain_size(*d),
        old(g).is_closed() && (exists|c: Id| c < old(g).spec_len() && #[trigger] represents_domain(*old(g), c as int, *d))
            ==> *final(g) == *old(g),
{
    let ghost g0 = *g;
    let (op, id) = match d {
        Domain::Toehold(id) => (Language::ToeholdDomain, id),
        Domain::Long(id) => (Language::LongDomain, id),
    };
    let ghost present = g0.is_closed() && exists|c: Id| c < g0.spec_len() && #[trigger] represents_domain(g0, c as int, *d);
    let ghost c0: Id = if present {
        choose|c: Id| c < g0.spec_len() && #[trigger] represents_domain(g0, c as int, *d)
    } else {
        0
    };
    let ghost x0: Id = if present {
        choose|x: Id| x < g0.spec_len() && represents_id(g0, x as int, *id) && #[trigger] holds(g0, c0 as int, op, one(x))
    } else {
        0
    };
    proof {
        if present {
            assert(represents_id(g0, x0 as int, *id));
        }
    }
    let x = match add_domain_id_to_egraph(g, id) {
        Ok(x) => x,
        Err(e) => return Err(e),
    };
    let ghost g1 = *g;
    let ch = vec![x];
    proof {
        assert(ch@ =~= one(x));
        lemma_represents_id_meta(g1, x as int, *id);
        assert(g1.metas_of(one(x)) =~= seq![g1.class_meta(x as int)]);
        if present {
            lemma_id_unique(g1, x0 as int, x as int, *id);
            lemma_match_from_holds(g1, c0 as int, op, one(x0), one(x));
        }
    }
    let c = match intern(g, op, ch) {
        Ok(c) => c,
        Err(e) => {
            proof {
                g0.lemma_grows_trans(g1, *g);
                        lemma_appends_chain(g0, g1, *g);
                        lemma_domain_nodes_chain(g0, g1, *g);
            }
            return Err(e);
        },
    };
    proof {
        g0.lemma_grows_trans(g1, *g);
                        lemma_appends_chain(g0, g1, *g);
                        lemma_domain_nodes_chain(g0, g1, *g);
        lemma_represents_id_grows(g1, *g, x as int, *id);
        assert(holds(*g, c as int, op, one(x)));
    }
    Ok(c)
}

/// Node `i` is part of the term of a strand of direction `tb` over `doms`:
/// a node of a domain's term, `nil`, or a cell that begins a suffix of the
/// strand.
pub open spec fn strand_part(g: EGraph, i: int, tb: TopOrBottom, doms: Seq<Domain>) -> bool {
    ||| is_domain_op(g.spec_op(i))
    ||| g.spec_op(i) == Language::Nil
    ||| g.spec_op(i) == Language::spec_strand_cell(tb) && exists|k: int|
        0 <= k < doms.len() && #[trigger] represents_strand(g, i, tb, doms.subrange(k, doms.len() as int))
}

/// The nodes that `post` has beyond `pre` are all parts of the strand's term.
#[verifier::opaque]
pub open spec fn adds_strand_nodes(pre: EGraph, post: EGraph, tb: TopOrBottom, doms: Seq<Domain>) -> bool {
    forall|i: int| pre.spec_len() <= i < post.spec_len() ==> #[trigger] strand_part(post, i, tb, doms)
}

proof fn lemma_strand_nodes_grow(g0: EGraph, g1: EGraph, g2: EGraph, tb: TopOrBottom, doms: Seq<Domain>)
    requires
        g1.wf(),
        g0.grows_to(g1),
        g1.grows_to(g2),
        adds_strand_nodes(g0, g1, tb, doms),
    ensures
        forall|i: int| g0.spec_len() <= i < g1.spec_len() ==> #[trigger] strand_part(g2, i, tb, doms),
{
    reveal(adds_strand_nodes);
    assert forall|i: int| g0.spec_len() <= i < g1.spec_len() implies #[trigger] strand_part(g2, i, tb, doms) by {
        assert(strand_part(g1, i, tb, doms));
        assert(g2.spec_nodes()[i] == g1.spec_nodes()[i]);
        if g1.spec_op(i) == Language::spec_strand_cell(tb) && !is_domain_op(g1.spec_op(i)) && g1.spec_op(i)
            != Language::Nil {
            let k = choose|k: int|
                0 <= k < doms.len() && #[trigger] represents_strand(g1, i, tb, doms.subrange(k, doms.len() as int));
            lemma_represents_strand_grows(g1, g2, i, tb, doms.subrange(k, doms.len() as int));
        }
    }
}

proof fn lemma_strand_step(
    g0: EGraph,
    ga: EGraph,
    gb: EGraph,
    gc: EGraph,
    tb: TopOrBottom,
    doms: Seq<Domain>,
    k: int,
    c: int,
)
    requires
        ga.wf(),
        gb.wf(),
        g0.grows_to(ga),
        ga.grows_to(gb),
        gb.grows_to(gc),
        adds_strand_nodes(g0, ga, tb, doms),
        appends_when_closed(g0, ga),
        appends_when_closed(ga, gb),
        appends_when_closed(gb, gc),
        adds_domain_nodes(ga, gb),
        forall|i: int| gb.spec_len() <= i < gc.spec_len() ==> #[trigger] gc.spec_op(i) == Language::spec_strand_cell(tb) && i == c,
        0 <= k < doms.len(),
        represents_strand(gc, c, tb, doms.subrange(k, doms.len() as int)),
    ensures
        adds_strand_nodes(g0, gc, tb, doms),
        appends_when_closed(g0, gc),
{
    reveal(adds_strand_nodes);
    lemma_appends_chain(g0, ga, gb);
    lemma_appends_chain(g0, gb, gc);
    ga.lemma_grows_trans(gb, gc);
    lemma_strand_nodes_grow(g0, ga, gc, tb, doms);
    assert forall|i: int| g0.spec_len() <= i < gc.spec_len() implies #[trigger] strand_part(gc, i, tb, doms) by {
        if ga.spec_len() <= i < gb.spec_len() {
            assert(is_domain_op(gb.spec_op(i)));
            assert(gc.spec_nodes()[i] == gb.spec_nodes()[i]);
        } else if gb.spec_len() <= i {
            assert(gc.spec_op(i) == Language::spec_strand_cell(tb));
            assert(i == c);
        }
    }
}

/// Puts the cell over domain `d` and `cell` in front, once the domain's
/// term is in the graph.
#[verifier::rlimit(60)]
#[verifier::spinoff_prover]
fn attach_cell(
    egraph: &mut EGraph,
    top_or_bottom: TopOrBottom,
    strand_values: &Vec<Domain>,
    k: usize,
    d: Id,
    cell: Id,
    Ghost(g0): Ghost<EGraph>,
    Ghost(ga): Ghost<EGraph>,
) -> (r: Result<Id, EGraphError>)
    requires
        ga.wf(),
        old(egraph).wf(),
        g0.grows_to(ga),
        ga.grows_to(*old(egraph)),
        appends_when_closed(g0, ga),
        appends_when_closed(ga, *old(egraph)),
        adds_strand_nodes(g0, ga, top_or_bottom, strand_values@),
        adds_domain_nodes(ga, *old(egraph)),
        k < strand_values@.len(),
        d < old(egraph).spec_len(),
        represents_domain(*old(egraph), d as int, strand_values@[k as int]),
        cell < ga.spec_len(),
        represents_strand(
            ga,
            cell as int,
            top_or_bottom,
            strand_values@.subrange(k as int + 1, strand_values@.len() as int),
        ),
    ensures
        final(egraph).wf(),
        g0.grows_to(*final(egraph)),
        r matches Err(e) ==> e is Full && final(egraph).spec_len() == usize::MAX,
        final(egraph).spec_len() <= old(egraph).spec_len() + 1,
        r matches Ok(c) ==> {
            &&& c < final(egraph).spec_len()
            &&& represents_strand(
                *final(egraph),
                c as int,
                top_or_bottom,
                strand_values@.subrange(k as int, strand_values@.len() as int),
            )
            &&& appends_when_closed(g0, *final(egraph))
            &&& adds_strand_nodes(g0, *final(egraph), top_or_bottom, strand_values@)
        },
{
    let cell_op = Language::strand_cell(top_or_bottom);
    let ghost gb = *egraph;
    let ch = vec![d, cell];
    proof {
        assert(ch@ =~= pair(d, cell));
        let rest = strand_values@.subrange(k as int + 1, strand_values@.len() as int);
        lemma_represents_strand_grows(ga, gb, cell as int, top_or_bottom, rest);
        lemma_represents_strand_meta(gb, cell as int, top_or_bottom, rest);
        lemma_represents_domain_meta(gb, d as int, strand_values@[k as int]);
        assert(gb.metas_of(pair(d, cell)) =~= seq![gb.class_meta(d as int), gb.class_meta(cell as int)]);
    }
    let c = match intern(egraph, cell_op, ch) {
        Ok(c) => c,
        Err(e) => {
            proof {
                g0.lemma_grows_trans(ga, gb);
                g0.lemma_grows_trans(gb, *egraph);
            }
            return Err(e);
        },
    };
    proof {
        g0.lemma_grows_trans(ga, gb);
        g0.lemma_grows_trans(gb, *egraph);
        ga.lemma_grows_trans(gb, *egraph);
        let rest = strand_values@.subrange(k as int + 1, strand_values@.len() as int);
        let here = strand_values@.subrange(k as int, strand_values@.len() as int);
        assert(here.drop_first() =~= rest);
        assert(here[0] == strand_values@[k as int]);
        lemma_represents_strand_grows(ga, *egraph, cell as int, top_or_bottom, rest);
        lemma_represents_domain_grows(gb, *egraph, d as int, strand_values@[k as int]);
        assert(holds(*egraph, c as int, cell_op, pair(d, cell)));
        lemma_strand_step(g0, ga, gb, *egraph, top_or_bottom, strand_values@, k as int, c as int);
    }
    Ok(c)
}

/// Puts a cell over domain `k` in front of `cell`, the chain of the rest.
fn add_cell(
    egraph: &mut EGraph,
    top_or_bottom: TopOrBottom,
    strand_values: &Vec<Domain>,
    k: usize,
    cell: Id,
    Ghost(g0): Ghost<EGraph>,
) -> (r: Result<Id, EGraphError>)
    requires
        old(egraph).wf(),
        g0.grows_to(*old(egraph)),
        appends_when_closed(g0, *old(egraph)),
        adds_strand_nodes(g0, *old(egraph), top_or_bottom, strand_values@),
        k < strand_values@.len(),
        cell < old(egraph).spec_len(),
        represents_strand(
            *old(egraph),
            cell as int,
            top_or_bottom,
            strand_values@.subrange(k as int + 1, strand_values@.len() as int),
        ),
    ensures
        final(egraph).wf(),
        g0.grows_to(*final(egraph)),
        r matches Err(e) ==> e is Full && final(egraph).spec_len() == usize::MAX,
        final(egraph).spec_len() <= old(egraph).spec_len() + domain_size(strand_values@[k as int]) + 1,
        r matches Ok(c) ==> {
            &&& c < final(egraph).spec_len()
            &&& represents_strand(
                *final(egraph),
                c as int,
                top_or_bottom,
                strand_values@.subrange(k as int, strand_values@.len() as int),
            )
            &&& appends_when_closed(g0, *final(egraph))
            &&& adds_strand_nodes(g0, *final(egraph), top_or_bottom, strand_values@)
        },
{
    let ghost ga = *egraph;
    let d = match add_domain_to_egraph(egraph, &strand_values[k]) {
        Ok(d) => d,
        Err(e) => {
            proof {
                g0.lemma_grows_trans(ga, *egraph);
            }
            return Err(e);
        },
    };
    attach_cell(egraph, top_or_bottom, strand_values, k, d, cell, Ghost(g0), Ghost(ga))
}

/// Adds a strand as a chain of cells of direction `top_or_bottom`, built
/// back to front so that each cell points at the rest of the strand, then
/// rebuilds. Returns the eclass of the first cell (of `nil` for an empty
/// strand).
pub fn add_directional_strand_to_egraph(
    egraph: &mut EGraph,
    top_or_bottom: TopOrBottom,
    strand_values: &Vec<Domain>,
) -> (r: Result<Id, EGraphError>)
    requires
        old(egraph).wf(),
    ensures
        final(egraph).wf(),
        old(egraph).grows_to(*final(egraph)),
        r matches Err(e) ==> e is Full && final(egraph).spec_len() == usize::MAX,
        final(egraph).spec_len() <= old(egraph).spec_len() + strand_size(strand_values@),
        r is Err ==> old(egraph).spec_len() + strand_size(strand_values@) >= usize::MAX,
        r matches Ok(c) ==> {
            &&& c < final(egraph).spec_len()
            &&& represents_strand(*final(egraph), c as int, top_or_bottom, strand_values@)
            &&& final(egraph).is_closed()
            &&& appends_when_closed(*old(egraph), *final(egraph))
            &&& adds_strand_nodes(*old(egraph), *final(egraph), top_or_bottom, strand_values@)
        },
{
    let ghost g0 = *egraph;
    let nil = match intern_leaf(egraph, Language::Nil) {
        Ok(x) => x,
        Err(e) => return Err(e),
    };
    proof {
        lemma_cells_size_suffix(strand_values@, strand_values@.len() as int);
    }
    let cell_op = Language::strand_cell(top_or_bottom);
    let mut cell = nil;
    let mut k = strand_values.len();
    proof {
        assert(strand_values@.subrange(k as int, k as int) =~= Seq::<Domain>::empty());
        reveal(adds_strand_nodes);
        assert forall|i: int| g0.spec_len() <= i < egraph.spec_len() implies #[trigger] strand_part(
            *egraph,
            i,
            top_or_bottom,
            strand_values@,
        ) by {
            assert(egraph.spec_op(i) == Language::Nil);
        }
    }
    while k > 0
        invariant
            egraph.wf(),
            g0 == *old(egraph),
            g0.grows_to(*egraph),
            appends_when_closed(g0, *egraph),
            adds_strand_nodes(g0, *egraph, top_or_bottom, strand_values@),
            k <= strand_values@.len(),
            egraph.spec_len() <= g0.spec_len() + 1 + cells_size(
                strand_values@.subrange(k as int, strand_values@.len() as int),
            ),
            cell < egraph.spec_len(),
            cell_op == Language::spec_strand_cell(top_or_bottom),
            represents_strand(
                *egraph,
                cell as int,
                top_or_bottom,
                strand_values@.subrange(k as int, strand_values@.len() as int),
            ),
        decreases k,
    {
        k = k - 1;
        proof {
            lemma_cells_size_step(strand_values@, k as int);
            lemma_cells_size_suffix(strand_values@, k as int);
        }
        let c = match add_cell(egraph, top_or_bottom, strand_values, k, cell, Ghost(g0)) {
            Ok(c) => c,
            Err(e) => return Err(e),
        };
        cell = c;
    }
    proof {
        assert(strand_values@.subrange(0, strand_values@.len() as int) =~= strand_values@);
        lemma_cells_size_suffix(strand_values@, 0);
    }
    let ghost gc = *egraph;
    egraph.rebuild();
    proof {
        reveal(appends_when_closed);
        gc.lemma_coarsens_grows(*egraph);
        g0.lemma_grows_trans(gc, *egraph);
        lemma_strand_nodes_grow(g0, gc, *egraph, top_or_bottom, strand_values@);
        reveal(adds_strand_nodes);
        lemma_represents_strand_grows(gc, *egraph, cell as int, top_or_bottom, strand_values@);
    }
    Ok(cell)
}

/// The nodes that `post` has beyond `pre` are parts of the strand's term,
/// its strand id, or the strand node.
#[verifier::opaque]
pub open spec fn adds_named_strand_nodes(
    pre: EGraph,
    post: EGraph,
    tb: TopOrBottom,
    doms: Seq<Domain>,
    strand_id: u32,
) -> bool {
    forall|i: int|
        pre.spec_len() <= i < post.spec_len() ==> #[trigger] strand_part(post, i, tb, doms) || post.spec_op(i)
            == Language::StrandId(strand_id) || post.spec_op(i) == Language::Strand
}

proof fn lemma_named_strand_nodes(
    g0: EGraph,
    g1: EGraph,
    g2: EGraph,
    g3: EGraph,
    gf: EGraph,
    tb: TopOrBottom,
    doms: Seq<Domain>,
    strand_id: u32,
)
    requires
        g1.wf(),
        g0.grows_to(g1),
        g1.grows_to(g2),
        g2.grows_to(g3),
        g3.grows_to(gf),
        gf.spec_nodes() == g3.spec_nodes(),
        adds_strand_nodes(g0, g1, tb, doms),
        forall|i: int| g1.spec_len() <= i < g2.spec_len() ==> #[trigger] g2.spec_op(i) == Language::StrandId(strand_id),
        forall|i: int| g2.spec_len() <= i < g3.spec_len() ==> #[trigger] g3.spec_op(i) == Language::Strand,
    ensures
        adds_named_strand_nodes(g0, gf, tb, doms, strand_id),
{
    reveal(adds_named_strand_nodes);
    g1.lemma_grows_trans(g2, g3);
    g1.lemma_grows_trans(g3, gf);
    lemma_strand_nodes_grow(g0, g1, gf, tb, doms);
    assert forall|i: int| g1.spec_len() <= i < gf.spec_len() implies gf.spec_op(i) == Language::StrandId(strand_id)
        || gf.spec_op(i) == Language::Strand by {
        if i < g2.spec_len() {
            assert(g3.spec_nodes()[i] == g2.spec_nodes()[i]);
            assert(g2.spec_op(i) == Language::StrandId(strand_id));
        } else {
            assert(g3.spec_op(i) == Language::Strand);
        }
    }
}

/// Names the strand whose first cell is `first`: adds its strand id and the
/// strand node, then rebuilds.
#[verifier::rlimit(60)]
#[verifier::spinoff_prover]
fn name_strand(
    egraph: &mut EGraph,
    top_or_bottom: TopOrBottom,
    strand_id: u32,
    strand_values: &Vec<Domain>,
    first: Id,
    Ghost(g0): Ghost<EGraph>,
) -> (r: Result<Id, EGraphError>)
    requires
        old(egraph).wf(),
        g0.wf(),
        g0.grows_to(*old(egraph)),
        first < old(egraph).spec_len(),
        represents_strand(*old(egraph), first as int, top_or_bottom, strand_values@),
        appends_when_closed(g0, *old(egraph)),
        adds_strand_nodes(g0, *old(egraph), top_or_bottom, strand_values@),
        old(egraph).spec_len() <= g0.spec_len() + strand_size(strand_values@),
    ensures
        final(egraph).wf(),
        g0.grows_to(*final(egraph)),
        r matches Err(e) ==> e is Full && final(egraph).spec_len() == usize::MAX,
        final(egraph).spec_len() <= g0.spec_len() + strand_size(strand_values@) + 2,
        r is Err ==> g0.spec_len() + strand_size(strand_values@) + 2 >= usize::MAX,
        r matches Ok(c) ==> {
            &&& c < final(egraph).spec_len()
            &&& final(egraph).is_closed()
            &&& exists|x: Id, y: Id|
                x < final(egraph).spec_len() && y < final(egraph).spec_len() && holds(
                    *final(egraph),
                    x as int,
                    Language::StrandId(strand_id),
                    seq![],
                ) && represents_strand(*final(egraph), y as int, top_or_bottom, strand_values@)
                    && #[trigger] holds(*final(egraph), c as int, Language::Strand, pair(x, y))
            &&& appends_when_closed(g0, *final(egraph))
            &&& adds_named_strand_nodes(g0, *final(egraph), top_or_bottom, strand_values@, strand_id)
        },
{
    let ghost g1 = *egraph;
    let sid = match intern_leaf(egraph, Language::StrandId(strand_id)) {
        Ok(x) => x,
        Err(e) => {
            proof {
                g0.lemma_grows_trans(g1, *egraph);
            }
            return Err(e);
        },
    };
    let ghost g2 = *egraph;
    let ch = vec![sid, first];
    proof {
        assert(ch@ =~= pair(sid, first));
        lemma_represents_strand_grows(g1, g2, first as int, top_or_bottom, strand_values@);
        lemma_represents_strand_meta(g2, first as int, top_or_bottom, strand_values@);
        assert(g2.metas_of(seq![]) =~= Seq::<Meta>::empty());
        lemma_holds_meta(g2, sid as int, Language::StrandId(strand_id), seq![]);
        assert(g2.metas_of(pair(sid, first)) =~= seq![g2.class_meta(sid as int), g2.class_meta(first as int)]);
    }
    let out = match intern(egraph, Language::Strand, ch) {
        Ok(x) => x,
        Err(e) => {
            proof {
                g0.lemma_grows_trans(g1, g2);
                g0.lemma_grows_trans(g2, *egraph);
            }
            return Err(e);
        },
    };
    let ghost g3 = *egraph;
    egraph.rebuild();
    proof {
        lemma_named_strand_nodes(g0, g1, g2, g3, *egraph, top_or_bottom, strand_values@, strand_id);
        lemma_appends_chain(g0, g1, g2);
        lemma_appends_chain(g0, g2, g3);
        reveal(appends_when_closed);
        g0.lemma_grows_trans(g1, g2);
        g0.lemma_grows_trans(g2, g3);
        g3.lemma_coarsens_grows(*egraph);
        g0.lemma_grows_trans(g3, *egraph);
        g1.lemma_grows_trans(g2, g3);
        g1.lemma_grows_trans(g3, *egraph);
        g2.lemma_grows_trans(g3, *egraph);
        lemma_represents_strand_grows(g1, *egraph, first as int, top_or_bottom, strand_values@);
        lemma_holds_grows(g2, *egraph, sid as int, Language::StrandId(strand_id), seq![]);
        lemma_holds_grows(g3, *egraph, out as int, Language::Strand, pair(sid, first));
    }
    Ok(out)
}

/// Adds a strand as `(strand (strand-id strand_id) <cells>)`, its cells of
/// direction `top_or_bottom`; returns the eclass of the strand node.
pub fn add_strand_to_egraph(
    egraph: &mut EGraph,
    top_or_bottom: TopOrBottom,
    strand_id: u32,
    strand_values: &Vec<Domain>,
) -> (r: Result<Id, EGraphError>)
    requires
        old(egraph).wf(),
    ensures
        final(egraph).wf(),
        old(egraph).grows_to(*final(egraph)),
        r matches Err(e) ==> e is Full && final(egraph).spec_len() == usize::MAX,
        final(egraph).spec_len() <= old(egraph).spec_len() + strand_size(strand_values@) + 2,
        r is Err ==> old(egraph).spec_len() + strand_size(strand_values@) + 2 >= usize::MAX,
        r matches Ok(c) ==> {
            &&& c < final(egraph).spec_len()
            &&& final(egraph).is_closed()
            &&& exists|x: Id, y: Id|
                x < final(egraph).spec_len() && y < final(egraph).spec_len() && holds(
                    *final(egraph),
                    x as int,
                    Language::StrandId(strand_id),
                    seq![],
                ) && represents_strand(*final(egraph), y as int, top_or_bottom, strand_values@)
                    && #[trigger] holds(*final(egraph), c as int, Language::Strand, pair(x, y))
            &&& appends_when_closed(*old(egraph), *final(egraph))
            &&& adds_named_strand_nodes(*old(egraph), *final(egraph), top_or_bottom, strand_values@, strand_id)
        },
{
    let ghost g0 = *egraph;
    let first = match add_directional_strand_to_egraph(egraph, top_or_bottom, strand_values) {
        Ok(c) => c,
        Err(e) => return Err(e),
    };
    name_strand(egraph, top_or_bottom, strand_id, strand_values, first, Ghost(g0))
}

/// The toehold search finds what strands hold: wherever the graph holds a
/// bottom strand headed by toehold `v` and a top strand headed by its
/// complement, the search pairs the eclasses of their first cells.
pub proof fn lemma_toehold_pairs_strands(
    g: EGraph,
    a: Id,
    b: Id,
    v: u32,
    bottom: Seq<Domain>,
    top: Seq<Domain>,
)
    requires
        g.wf(),
        a < g.spec_len(),
        b < g.spec_len(),
        bottom.len() > 0,
        top.len() > 0,
        bottom[0] == Domain::Toehold(DomainId::DomainId(v)),
        top[0] == Domain::Toehold(DomainId::Complement(Box::new(DomainId::DomainId(v)))),
        represents_strand(g, a as int, TopOrBottom::Bottom, bottom),
        represents_strand(g, b as int, TopOrBottom::Top, top),
    ensures
        toehold_match(
            g,
            TopOrBottom::Bottom,
            Subst { eclass: g.root(a as int) as usize, left: g.root(a as int) as usize, right: g.root(b as int) as usize },
        ),
{
    g.lemma_root(a as int);
    g.lemma_root(b as int);
    lemma_represents_strand_meta(g, a as int, TopOrBottom::Bottom, bottom);
    lemma_represents_strand_meta(g, b as int, TopOrBottom::Top, top);
    let (xa, ya) = choose|x: Id, y: Id|
        x < g.spec_len() && y < g.spec_len() && represents_domain(g, x as int, bottom[0])
            && represents_strand(g, y as int, TopOrBottom::Bottom, bottom.drop_first()) && #[trigger] holds(
            g,
            a as int,
            Language::spec_strand_cell(TopOrBottom::Bottom),
            pair(x, y),
        );
    let (xb, yb) = choose|x: Id, y: Id|
        x < g.spec_len() && y < g.spec_len() && represents_domain(g, x as int, top[0])
            && represents_strand(g, y as int, TopOrBottom::Top, top.drop_first()) && #[trigger] holds(
            g,
            b as int,
            Language::spec_strand_cell(TopOrBottom::Top),
            pair(x, y),
        );
    let ja = choose|j: int|
        0 <= j < g.spec_len() && g.root(j) == g.root(a as int) && #[trigger] g.node_matches(
            j,
            Language::spec_strand_cell(TopOrBottom::Bottom),
            pair(xa, ya),
        );
    let jb = choose|j: int|
        0 <= j < g.spec_len() && g.root(j) == g.root(b as int) && #[trigger] g.node_matches(
            j,
            Language::spec_strand_cell(TopOrBottom::Top),
            pair(xb, yb),
        );
    assert(has_node(g, g.root(a as int), Language::spec_strand_cell(TopOrBottom::Bottom)));
    assert(has_node(g, g.root(b as int), Language::spec_strand_cell(TopOrBottom::Top)));
    assert(g.class_meta(g.root(a as int)) == g.class_meta(a as int));
    assert(g.class_meta(g.root(b as int)) == g.class_meta(b as int));
    let s = Subst { eclass: g.root(a as int) as usize, left: g.root(a as int) as usize, right: g.root(b as int) as usize };
    assert(s.eclass as int == g.root(a as int));
    assert(s.right as int == g.root(b as int));
    assert(toehold_head(g, TopOrBottom::Bottom, s.eclass as int, v));
    assert(toehold_partner(g, TopOrBottom::Bottom, s.right as int, v));
}

} // verus!
