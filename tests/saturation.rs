use egg_dsd::domain::{Domain, DomainId, TopOrBottom};
use egg_dsd::egraph::EGraph;
use egg_dsd::language::{ENode, Language};
use egg_dsd::rewrites;
use egg_dsd::rewrites::{bind, run, run_one, simplify_double_complement, Rewrite};
use egg_dsd::search::{search_bind, search_double_complement, search_toehold_bind};
use egg_dsd::strand::{add_directional_strand_to_egraph, add_strand_to_egraph};

fn id(v: u32) -> DomainId {
    DomainId::DomainId(v)
}

fn comp(v: u32) -> DomainId {
    DomainId::Complement(Box::new(DomainId::DomainId(v)))
}

fn strand_a() -> Vec<Domain> {
    vec![
        Domain::Toehold(id(0)),
        Domain::Long(id(1)),
        Domain::Long(id(2)),
        Domain::Long(id(3)),
    ]
}

fn strand_b() -> Vec<Domain> {
    vec![
        Domain::Toehold(comp(0)),
        Domain::Long(comp(1)),
        Domain::Long(comp(2)),
        Domain::Long(id(4)),
    ]
}

/// The cell chain of `first`: the eclass of each cell, first to last.
fn cells(g: &EGraph, first: usize, op: Language) -> Vec<usize> {
    let mut out = vec![];
    let mut c = g.find(first);
    loop {
        let members = g.members(c);
        let next = members
            .iter()
            .map(|m| g.node(*m))
            .find(|n| n.op == op)
            .map(|n| n.children[1]);
        match next {
            Some(rest) => {
                out.push(c);
                c = g.find(rest);
            }
            None => return out,
        }
    }
}

/// Nodes with operator `op` whose three children are in the eclasses of
/// `a`, `b` and `c`.
fn has_triple(g: &EGraph, op: Language, a: usize, b: usize, c: usize) -> bool {
    g.lookup(op, &vec![a, b, c]).is_some()
}

/// Eclasses holding a double-strand cell of `op` that ends a chain of
/// `depth` of them, the innermost over `nil`.
fn chains(g: &EGraph, op: Language, depth: usize) -> usize {
    let nil = g.lookup(Language::Nil, &vec![]);
    let mut count = 0;
    for i in 0..g.total_size() {
        let mut c = i;
        let mut ok = true;
        for _ in 0..depth {
            let n = g.node(c);
            if n.op != op {
                ok = false;
                break;
            }
            c = n.children[2];
        }
        if ok && Some(g.find(c)) == nil.map(|x| g.find(x)) {
            count += 1;
        }
    }
    count
}

fn two_strands() -> (EGraph, usize, usize) {
    let mut egraph = EGraph::new();
    let a = add_directional_strand_to_egraph(&mut egraph, TopOrBottom::Bottom, &strand_a()).unwrap();
    let b = add_directional_strand_to_egraph(&mut egraph, TopOrBottom::Top, &strand_b()).unwrap();
    (egraph, a, b)
}

fn double_complement_graph() -> (EGraph, usize, usize) {
    let mut egraph = EGraph::new();
    let leaf = egraph.add(ENode::leaf(Language::DomainIdValue(0))).unwrap();
    let once = egraph.add(ENode::new(Language::Complement, vec![leaf])).unwrap();
    let twice = egraph.add(ENode::new(Language::Complement, vec![once])).unwrap();
    (egraph, leaf, twice)
}

fn holds_op(g: &EGraph, c: usize, op: Language) -> bool {
    g.members(c).iter().any(|m| g.node(*m).op == op)
}

#[test]
fn attempt3_simplify_double_complement() {
    let (mut egraph, _leaf, enode_id) = double_complement_graph();
    assert!(!holds_op(&egraph, enode_id, Language::DomainIdValue(0)));
    run(&mut egraph, &vec![simplify_double_complement()], 10).unwrap();
    assert!(holds_op(&egraph, enode_id, Language::DomainIdValue(0)));
}

#[test]
fn rewrites_simplify_double_complement() {
    let (mut egraph, leaf, enode_id) = double_complement_graph();
    assert!(!holds_op(&egraph, enode_id, Language::DomainIdValue(0)));
    let report = run(&mut egraph, &vec![simplify_double_complement()], 10).unwrap();
    assert!(report.saturated);
    assert_eq!(report.rounds, 1);
    assert_eq!(egraph.find(enode_id), egraph.find(leaf));
    assert_eq!(report.final_node_count, 3);
    assert_eq!(report.final_class_count, 2);
}

#[test]
fn double_complement_of_domain_id() {
    let mut egraph = EGraph::new();
    let leaf = egraph.add(ENode::leaf(Language::DomainIdValue(5))).unwrap();
    let five = egraph.add(ENode::new(Language::DomainId, vec![leaf])).unwrap();
    let once = egraph.add(ENode::new(Language::Complement, vec![five])).unwrap();
    let twice = egraph.add(ENode::new(Language::Complement, vec![once])).unwrap();
    assert_ne!(egraph.find(twice), egraph.find(five));
    run(&mut egraph, &vec![simplify_double_complement()], 10).unwrap();
    assert!(holds_op(&egraph, twice, Language::DomainId));
    assert_eq!(egraph.find(twice), egraph.find(five));
    assert_ne!(egraph.find(once), egraph.find(five));
}

#[test]
fn double_complement_search_binds_inner() {
    let (egraph, leaf, twice) = double_complement_graph();
    let found = search_double_complement(&egraph);
    assert_eq!(found.len(), 1);
    assert_eq!(found[0].eclass, egraph.find(twice));
    assert_eq!(found[0].left, egraph.find(leaf));
}

#[test]
fn toehold_bind() {
    let mut egraph = EGraph::new();
    add_strand_to_egraph(&mut egraph, TopOrBottom::Bottom, 0, &strand_a()).unwrap();
    add_strand_to_egraph(&mut egraph, TopOrBottom::Top, 1, &strand_b()).unwrap();
    run(&mut egraph, &vec![rewrites::toehold_bind(TopOrBottom::Bottom)], 10).unwrap();
    let found = (0..egraph.total_size()).any(|i| egraph.node(i).op == Language::BottomDoubleStrandCell);
    assert!(found);
}

#[test]
fn toehold_search_pairs_complementary_heads() {
    let (egraph, a, b) = two_strands();
    let found = search_toehold_bind(&egraph, TopOrBottom::Bottom);
    assert_eq!(found.len(), 1);
    assert_eq!(found[0].eclass, egraph.find(a));
    assert_eq!(found[0].left, egraph.find(a));
    assert_eq!(found[0].right, egraph.find(b));
    // Seen from the top strand, the toehold is the complemented one: no head.
    assert_eq!(search_toehold_bind(&egraph, TopOrBottom::Top).len(), 0);
}

#[test]
fn toehold_search_without_partner_is_empty() {
    let mut egraph = EGraph::new();
    add_directional_strand_to_egraph(&mut egraph, TopOrBottom::Bottom, &strand_a()).unwrap();
    add_directional_strand_to_egraph(
        &mut egraph,
        TopOrBottom::Top,
        &vec![Domain::Toehold(comp(7)), Domain::Long(comp(1))],
    )
    .unwrap();
    assert_eq!(search_toehold_bind(&egraph, TopOrBottom::Bottom).len(), 0);
}

#[test]
fn toehold_search_pairs_every_partner() {
    let (mut egraph, a, b) = two_strands();
    let c = add_directional_strand_to_egraph(
        &mut egraph,
        TopOrBottom::Top,
        &vec![Domain::Toehold(comp(0)), Domain::Long(id(9))],
    )
    .unwrap();
    let found = search_toehold_bind(&egraph, TopOrBottom::Bottom);
    assert_eq!(found.len(), 2);
    assert!(found.iter().all(|s| s.eclass == egraph.find(a)));
    assert!(found.iter().any(|s| s.right == egraph.find(b)));
    assert!(found.iter().any(|s| s.right == egraph.find(c)));
}

#[test]
fn rewrites_toehold_bind_and_bind() {
    let (mut egraph, _a, _b) = two_strands();
    run(
        &mut egraph,
        &vec![rewrites::toehold_bind(TopOrBottom::Bottom), bind(TopOrBottom::Bottom)],
        100,
    )
    .unwrap();
    assert_eq!(chains(&egraph, Language::BottomDoubleStrandCell, 3), 1);
}

#[test]
fn end_to_end_binds_three_pairs() {
    let (mut egraph, a, b) = two_strands();
    let rules: Vec<Rewrite> = vec![
        rewrites::toehold_bind(TopOrBottom::Bottom),
        bind(TopOrBottom::Bottom),
        simplify_double_complement(),
    ];
    let report = run(&mut egraph, &rules, 100).unwrap();
    assert!(report.saturated);
    let dsc = Language::BottomDoubleStrandCell;
    assert_eq!(chains(&egraph, dsc, 3), 1);
    assert_eq!(chains(&egraph, dsc, 4), 0);
    let ca = cells(&egraph, a, Language::BottomStrandCell);
    let cb = cells(&egraph, b, Language::TopStrandCell);
    assert_eq!(ca.len(), 4);
    assert_eq!(cb.len(), 4);
    let nil = egraph.lookup(Language::Nil, &vec![]).unwrap();
    let d0 = egraph.lookup(dsc, &vec![ca[0], cb[0], nil]).unwrap();
    let d1 = egraph.lookup(dsc, &vec![ca[1], cb[1], d0]).unwrap();
    let d2 = egraph.lookup(dsc, &vec![ca[2], cb[2], d1]).unwrap();
    // domain 3 and domain 4 do not pair
    assert!(!has_triple(&egraph, dsc, ca[3], cb[3], d2));
    let total = (0..egraph.total_size()).filter(|i| egraph.node(*i).op == dsc).count();
    assert_eq!(total, 3);
}

#[test]
fn bind_search_needs_a_bound_region() {
    let (mut egraph, _a, _b) = two_strands();
    assert_eq!(search_bind(&egraph, TopOrBottom::Bottom).len(), 0);
    run_one(&mut egraph, &vec![rewrites::toehold_bind(TopOrBottom::Bottom)]).unwrap();
    let found = search_bind(&egraph, TopOrBottom::Bottom);
    assert_eq!(found.len(), 1);
    assert_ne!(found[0].left, found[0].right);
}

#[test]
fn saturation_grows_and_stops() {
    let (mut egraph, _a, _b) = two_strands();
    let rules = vec![rewrites::toehold_bind(TopOrBottom::Bottom), bind(TopOrBottom::Bottom)];
    let mut sizes = vec![egraph.total_size()];
    for _ in 0..6 {
        run_one(&mut egraph, &rules).unwrap();
        sizes.push(egraph.total_size());
    }
    assert!(sizes.windows(2).all(|w| w[0] <= w[1]));
    assert_eq!(sizes[5], sizes[6]);
    let before = egraph.total_size();
    let report = run(&mut egraph, &rules, 10).unwrap();
    assert!(report.saturated);
    assert_eq!(report.rounds, 1);
    assert_eq!(report.final_node_count, before);
}

#[test]
fn round_limit_stops_early() {
    let (mut egraph, _a, _b) = two_strands();
    let rules = vec![rewrites::toehold_bind(TopOrBottom::Bottom), bind(TopOrBottom::Bottom)];
    let report = run(&mut egraph, &rules, 1).unwrap();
    assert!(!report.saturated);
    assert_eq!(report.rounds, 1);
    assert_eq!(chains(&egraph, Language::BottomDoubleStrandCell, 1), 1);
    assert_eq!(chains(&egraph, Language::BottomDoubleStrandCell, 2), 0);
}

#[test]
fn rule_names() {
    assert_eq!(simplify_double_complement().name(), "simplify-double-complement");
    assert_eq!(rewrites::toehold_bind(TopOrBottom::Top).name(), "toehold-bind");
    assert_eq!(bind(TopOrBottom::Top).name(), "bind");
}

#[test]
fn search_restricted_to_one_eclass() {
    let (egraph, a, b) = two_strands();
    let rule = rewrites::toehold_bind(TopOrBottom::Bottom).rule;
    let at_a = rewrites::search_eclass(&egraph, &rule, a);
    assert_eq!(at_a.len(), 1);
    assert_eq!(at_a[0].right, egraph.find(b));
    assert_eq!(rewrites::search_eclass(&egraph, &rule, b).len(), 0);
    assert_eq!(rewrites::search(&egraph, &rule).len(), 1);
}
