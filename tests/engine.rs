use egg_dsd::domain::{Domain, DomainId};
use egg_dsd::egraph::{EGraph, EGraphError};
use egg_dsd::language::{ENode, Language, Meta, Value};

fn leaf(g: &mut EGraph, v: u32) -> usize {
    g.add(ENode::leaf(Language::DomainIdValue(v))).unwrap()
}

#[test]
fn hash_consing_returns_same_class() {
    let mut g = EGraph::new();
    let a = leaf(&mut g, 1);
    let b = leaf(&mut g, 1);
    assert_eq!(a, b);
    let x = g.add(ENode::new(Language::DomainId, vec![a])).unwrap();
    let size = g.total_size();
    let y = g.add(ENode::new(Language::DomainId, vec![b])).unwrap();
    assert_eq!(x, y);
    assert_eq!(g.total_size(), size);
    assert_eq!(g.total_size(), 2);
    let c = leaf(&mut g, 2);
    assert_ne!(a, c);
    assert_eq!(g.total_size(), 3);
}

#[test]
fn interning_up_to_equivalence() {
    let mut g = EGraph::new();
    let five = leaf(&mut g, 5);
    let five_id = g.add(ENode::new(Language::DomainId, vec![five])).unwrap();
    let once = g.add(ENode::new(Language::Complement, vec![five_id])).unwrap();
    let twice = g.add(ENode::new(Language::Complement, vec![once])).unwrap();
    let joined = g.union(twice, five_id).unwrap();
    assert_eq!(joined, five_id.min(twice));
    // complement over the joined class is the existing `once`
    let size = g.total_size();
    let again = g.add(ENode::new(Language::Complement, vec![twice])).unwrap();
    assert_eq!(g.find(again), g.find(once));
    assert_eq!(g.total_size(), size);
}

#[test]
fn union_of_equal_values_merges() {
    let mut g = EGraph::new();
    let five = leaf(&mut g, 5);
    let five_id = g.add(ENode::new(Language::DomainId, vec![five])).unwrap();
    let before = g.meta(five).same(g.meta(five_id));
    assert!(before);
    assert_eq!(g.number_of_classes(), 2);
    let r = g.union(five, five_id).unwrap();
    assert_eq!(r, five);
    assert_eq!(g.find(five_id), five);
    assert_eq!(g.number_of_classes(), 1);
    match &g.meta(five_id).value {
        Some(Value::DomainIdValue(d)) => assert!(d.same(&DomainId::DomainId(5))),
        _ => panic!("the merged class keeps its value"),
    }
    let members = g.members(five_id);
    assert_eq!(members, vec![five, five_id]);
    // joining a class with itself changes nothing
    assert_eq!(g.union(five, five).unwrap(), five);
    assert_eq!(g.number_of_classes(), 1);
}

#[test]
fn union_of_different_domains_is_inconsistent() {
    let mut g = EGraph::new();
    let one = leaf(&mut g, 1);
    let two = leaf(&mut g, 2);
    match g.union(one, two) {
        Err(EGraphError::Inconsistent { eclass, left, right }) => {
            assert_eq!(eclass, one);
            assert!(!left.same(&right));
        }
        other => panic!("expected an inconsistency, got {:?}", other),
    }
    assert_ne!(g.find(one), g.find(two));
    assert_eq!(g.number_of_classes(), 2);
}

#[test]
fn malformed_nodes_are_refused() {
    let mut g = EGraph::new();
    let one = leaf(&mut g, 1);
    let nil = g.add(ENode::leaf(Language::Nil)).unwrap();
    assert!(matches!(
        g.add(ENode::new(Language::Complement, vec![nil])),
        Err(EGraphError::Malformed { op: Language::Complement })
    ));
    assert!(matches!(
        g.add(ENode::new(Language::LongDomain, vec![one, one])),
        Err(EGraphError::Malformed { .. })
    ));
    assert_eq!(g.total_size(), 2);
}

#[test]
fn double_strand_needs_complementary_heads() {
    let mut g = EGraph::new();
    let nil = g.add(ENode::leaf(Language::Nil)).unwrap();
    let mut cell = |g: &mut EGraph, v: u32, complemented: bool| {
        let l = leaf(g, v);
        let mut d = g.add(ENode::new(Language::DomainId, vec![l])).unwrap();
        if complemented {
            d = g.add(ENode::new(Language::Complement, vec![d])).unwrap();
        }
        let dom = g.add(ENode::new(Language::LongDomain, vec![d])).unwrap();
        g.add(ENode::new(Language::BottomStrandCell, vec![dom, nil])).unwrap()
    };
    let a = cell(&mut g, 1, false);
    let b = cell(&mut g, 1, true);
    let c = cell(&mut g, 2, true);
    assert!(g.add(ENode::new(Language::BottomDoubleStrandCell, vec![a, b, nil])).is_ok());
    assert!(g.add(ENode::new(Language::BottomDoubleStrandCell, vec![a, c, nil])).is_err());
}

#[test]
fn rebuild_restores_congruence() {
    let mut g = EGraph::new();
    let five = leaf(&mut g, 5);
    let a = g.add(ENode::new(Language::DomainId, vec![five])).unwrap();
    let once = g.add(ENode::new(Language::Complement, vec![a])).unwrap();
    let b = g.add(ENode::new(Language::Complement, vec![once])).unwrap();
    let fa = g.add(ENode::new(Language::LongDomain, vec![a])).unwrap();
    let fb = g.add(ENode::new(Language::LongDomain, vec![b])).unwrap();
    assert_ne!(g.find(fa), g.find(fb));
    g.union(a, b).unwrap();
    g.rebuild();
    assert_eq!(g.find(fa), g.find(fb));
    assert_eq!(g.find(a), g.find(b));
    assert_ne!(g.find(fa), g.find(a));
}

#[test]
fn analysis_values() {
    let vals = vec![Meta { value: Some(Value::DomainIdValue(DomainId::DomainId(3))) }];
    let c = Meta::make(Language::Complement, &vals).unwrap();
    match &c.value {
        Some(Value::DomainIdValue(d)) => {
            assert!(d.same(&DomainId::Complement(Box::new(DomainId::DomainId(3)))))
        }
        _ => panic!("complement of an identifier is an identifier"),
    }
    let cc = Meta::make(Language::Complement, &vec![c]).unwrap();
    assert!(cc.same(&vals[0]));
    let t = Meta::make(Language::ToeholdDomain, &vals).unwrap();
    match &t.value {
        Some(Value::DomainValue(d)) => assert!(d.same(&Domain::Toehold(DomainId::DomainId(3)))),
        _ => panic!("a toehold domain carries its domain"),
    }
    assert!(Meta::make(Language::Nil, &vals).is_none());
    assert!(Meta::make(Language::DomainIdValue(4), &vec![]).unwrap().same(&Meta {
        value: Some(Value::DomainIdValue(DomainId::DomainId(4)))
    }));
}

#[test]
fn merge_needs_equal_values() {
    let a = Meta { value: Some(Value::DomainIdValue(DomainId::DomainId(3))) };
    let b = Meta { value: Some(Value::DomainIdValue(DomainId::DomainId(3))) };
    let c = Meta { value: Some(Value::DomainIdValue(DomainId::DomainId(4))) };
    let m = a.merge(&b).unwrap();
    assert!(m.same(&a) && m.same(&b));
    assert!(a.merge(&c).is_none());
    assert!(c.merge(&a).is_none());
    let none = Meta { value: None };
    assert!(none.merge(&Meta { value: None }).is_some());
    assert!(none.merge(&a).is_none());
}

#[test]
fn complement_is_an_involution() {
    let d = DomainId::DomainId(8);
    let c = d.complement();
    assert!(c.same(&DomainId::Complement(Box::new(DomainId::DomainId(8)))));
    assert!(c.complement().same(&d));
    assert!(Domain::Long(d.duplicate()).complementary(&Domain::Long(c.duplicate())));
    assert!(!Domain::Toehold(d.duplicate()).complementary(&Domain::Long(c.duplicate())));
    assert!(!Domain::Long(d.duplicate()).complementary(&Domain::Long(d.duplicate())));
}

#[test]
fn path_compression_keeps_classes() {
    let mut g = EGraph::new();
    let five = leaf(&mut g, 5);
    let a = g.add(ENode::new(Language::DomainId, vec![five])).unwrap();
    let once = g.add(ENode::new(Language::Complement, vec![a])).unwrap();
    let b = g.add(ENode::new(Language::Complement, vec![once])).unwrap();
    let c = g.add(ENode::new(Language::DomainId, vec![b])).unwrap();
    g.union(a, b).unwrap();
    g.union(five, c).unwrap();
    g.union(five, a).unwrap();
    let classes = g.number_of_classes();
    let before: Vec<usize> = (0..g.total_size()).map(|i| g.find(i)).collect();
    assert_eq!(g.find_mut(c), g.find(five));
    assert_eq!(g.find_mut(b), five);
    let after: Vec<usize> = (0..g.total_size()).map(|i| g.find(i)).collect();
    assert_eq!(before, after);
    assert_eq!(g.number_of_classes(), classes);
    assert_eq!(classes, 2);
}

#[test]
fn lookup_finds_only_existing_nodes() {
    let mut g = EGraph::new();
    let one = leaf(&mut g, 1);
    assert_eq!(g.lookup(Language::DomainIdValue(1), &vec![]), Some(one));
    assert_eq!(g.lookup(Language::DomainIdValue(2), &vec![]), None);
    assert_eq!(g.lookup(Language::DomainId, &vec![one]), None);
    let x = g.add(ENode::new(Language::DomainId, vec![one])).unwrap();
    assert_eq!(g.lookup(Language::DomainId, &vec![one]), Some(x));
    assert_eq!(g.node(x).op, Language::DomainId);
    assert_eq!(g.node(x).children, vec![one]);
}
