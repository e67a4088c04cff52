use egg_dsd::domain::{Domain, DomainId, TopOrBottom};
use egg_dsd::egraph::EGraph;
use egg_dsd::language::{Language, Meta, Value};
use egg_dsd::search::classes_with_meta;
use egg_dsd::strand::{add_directional_strand_to_egraph, add_strand_to_egraph};

fn id(v: u32) -> DomainId {
    DomainId::DomainId(v)
}

fn comp(v: u32) -> DomainId {
    DomainId::Complement(Box::new(DomainId::DomainId(v)))
}

fn sample_strand() -> Vec<Domain> {
    vec![
        Domain::Toehold(id(0)),
        Domain::Long(id(1)),
        Domain::Long(id(2)),
        Domain::Long(comp(2)),
        Domain::Long(id(3)),
    ]
}

/// Looks up `op` over `children`, panicking where no such node exists.
fn expect(g: &EGraph, op: Language, children: Vec<usize>) -> usize {
    g.lookup(op, &children).expect("node is present")
}

fn expect_domain_id(g: &EGraph, d: &DomainId) -> usize {
    match d {
        DomainId::DomainId(v) => {
            let leaf = expect(g, Language::DomainIdValue(*v), vec![]);
            expect(g, Language::DomainId, vec![leaf])
        }
        DomainId::Complement(inner) => {
            let x = expect_domain_id(g, inner);
            expect(g, Language::Complement, vec![x])
        }
    }
}

fn expect_domain(g: &EGraph, d: &Domain) -> usize {
    match d {
        Domain::Toehold(i) => {
            let x = expect_domain_id(g, i);
            expect(g, Language::ToeholdDomain, vec![x])
        }
        Domain::Long(i) => {
            let x = expect_domain_id(g, i);
            expect(g, Language::LongDomain, vec![x])
        }
    }
}

fn expect_strand(g: &EGraph, tb: TopOrBottom, doms: &[Domain]) -> usize {
    let cell = match tb {
        TopOrBottom::Bottom => Language::BottomStrandCell,
        TopOrBottom::Top => Language::TopStrandCell,
    };
    let mut rest = expect(g, Language::Nil, vec![]);
    for d in doms.iter().rev() {
        let x = expect_domain(g, d);
        rest = expect(g, cell, vec![x, rest]);
    }
    rest
}

fn head_toehold(v: u32) -> Meta {
    Meta {
        value: Some(Value::StrandCellValue(Domain::Toehold(id(v)))),
    }
}

#[test]
fn attempt3_add_to_egraph() {
    let mut egraph = EGraph::new();
    let out = add_strand_to_egraph(&mut egraph, TopOrBottom::Bottom, 0, &sample_strand()).unwrap();
    let first = expect_strand(&egraph, TopOrBottom::Bottom, &sample_strand());
    let sid = expect(&egraph, Language::StrandId(0), vec![]);
    assert_eq!(expect(&egraph, Language::Strand, vec![sid, first]), out);
}

#[test]
fn attempt3_search() {
    let mut egraph = EGraph::new();
    add_strand_to_egraph(&mut egraph, TopOrBottom::Bottom, 0, &sample_strand()).unwrap();
    add_strand_to_egraph(
        &mut egraph,
        TopOrBottom::Top,
        0,
        &vec![
            Domain::Toehold(id(0)),
            Domain::Long(id(1)),
            Domain::Long(id(2)),
            Domain::Long(id(4)),
        ],
    )
    .unwrap();
    let bottom_matches = classes_with_meta(&egraph, Language::BottomStrandCell, &head_toehold(0));
    assert_eq!(bottom_matches.len(), 1);
    let top_matches = classes_with_meta(&egraph, Language::TopStrandCell, &head_toehold(0));
    assert_eq!(top_matches.len(), 1);
}

#[test]
fn mod_add_to_egraph() {
    let mut egraph = EGraph::new();
    let first =
        add_directional_strand_to_egraph(&mut egraph, TopOrBottom::Bottom, &sample_strand()).unwrap();
    assert_eq!(expect_strand(&egraph, TopOrBottom::Bottom, &sample_strand()), first);
    // nil, five cells, five domains, one complement, four domain-ids over four values
    assert_eq!(egraph.total_size(), 20);
    match &egraph.meta(first).value {
        Some(Value::StrandCellValue(d)) => assert!(d.same(&Domain::Toehold(id(0)))),
        _ => panic!("a strand cell carries its head domain"),
    }
}

#[test]
fn mod_search() {
    let mut egraph = EGraph::new();
    add_directional_strand_to_egraph(&mut egraph, TopOrBottom::Bottom, &sample_strand()).unwrap();
    add_directional_strand_to_egraph(
        &mut egraph,
        TopOrBottom::Top,
        &vec![
            Domain::Toehold(id(0)),
            Domain::Long(id(1)),
            Domain::Long(id(2)),
            Domain::Long(id(4)),
        ],
    )
    .unwrap();
    let bottom_matches = classes_with_meta(&egraph, Language::BottomStrandCell, &head_toehold(0));
    assert_eq!(bottom_matches.len(), 1);
    let top_matches = classes_with_meta(&egraph, Language::TopStrandCell, &head_toehold(0));
    assert_eq!(top_matches.len(), 1);
    assert_ne!(bottom_matches[0], top_matches[0]);
}

#[test]
fn empty_strand_is_nil() {
    let mut egraph = EGraph::new();
    let first = add_directional_strand_to_egraph(&mut egraph, TopOrBottom::Top, &vec![]).unwrap();
    assert_eq!(expect(&egraph, Language::Nil, vec![]), first);
    assert_eq!(egraph.total_size(), 1);
}

#[test]
fn shared_suffixes_are_shared_nodes() {
    let mut egraph = EGraph::new();
    add_directional_strand_to_egraph(
        &mut egraph,
        TopOrBottom::Bottom,
        &vec![Domain::Long(id(1)), Domain::Long(id(2))],
    )
    .unwrap();
    let size = egraph.total_size();
    let again = add_directional_strand_to_egraph(
        &mut egraph,
        TopOrBottom::Bottom,
        &vec![Domain::Long(id(2))],
    )
    .unwrap();
    assert_eq!(egraph.total_size(), size);
    let tail = expect_strand(&egraph, TopOrBottom::Bottom, &[Domain::Long(id(2))]);
    assert_eq!(tail, again);
}

#[test]
fn readding_a_strand_changes_nothing() {
    let mut egraph = EGraph::new();
    let first =
        add_directional_strand_to_egraph(&mut egraph, TopOrBottom::Bottom, &sample_strand()).unwrap();
    let size = egraph.total_size();
    let classes = egraph.number_of_classes();
    let again =
        add_directional_strand_to_egraph(&mut egraph, TopOrBottom::Bottom, &sample_strand()).unwrap();
    assert_eq!(first, again);
    assert_eq!(egraph.total_size(), size);
    assert_eq!(egraph.number_of_classes(), classes);
}

#[test]
fn strand_ids_keep_strands_apart() {
    let mut egraph = EGraph::new();
    let a = add_strand_to_egraph(&mut egraph, TopOrBottom::Bottom, 0, &sample_strand()).unwrap();
    let classes = egraph.number_of_classes();
    let b = add_strand_to_egraph(&mut egraph, TopOrBottom::Bottom, 1, &sample_strand()).unwrap();
    assert_ne!(egraph.find(a), egraph.find(b));
    // only the new strand id and the new strand node were added
    assert_eq!(egraph.number_of_classes(), classes + 2);
}
