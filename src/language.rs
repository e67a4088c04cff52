use vstd::prelude::*;
use crate::domain::{Domain, DomainId, DomainIdValue, TopOrBottom, lemma_complement_involution};

verus! {

/// Identity of an eclass: the index of one of its nodes.
pub type Id = usize;

/// Operators of the term language.
///
/// A strand is a chain of cells, each holding a domain and the rest of the
/// strand: `(bottom-strand-cell <domain> <rest>)`, ended by `nil`. A bound
/// region is `(bottom-double-strand-cell <bottom-cell> <top-cell> <previous>)`,
/// where `<previous>` is `nil` or the bound region before it.
#[derive(Debug, Clone, Copy, PartialEq, Eq, Structural)]
pub enum Language {
    BottomDoubleStrandCell,
    TopDoubleStrandCell,
    Strand,
    BottomStrandCell,
    TopStrandCell,
    LongDomain,
    ToeholdDomain,
    Complement,
    DomainId,
    DomainIdValue(DomainIdValue),
    Nil,
    StrandId(u32),
}

impl Language {
    pub open spec fn spec_strand_cell(tb: TopOrBottom) -> Language {
        match tb {
            TopOrBottom::Bottom => Language::BottomStrandCell,
            TopOrBottom::Top => Language::TopStrandCell,
        }
    }

    pub open spec fn spec_double_strand_cell(tb: TopOrBottom) -> Language {
        match tb {
            TopOrBottom::Bottom => Language::BottomDoubleStrandCell,
            TopOrBottom::Top => Language::TopDoubleStrandCell,
        }
    }

    /// The strand-cell operator of the given direction.
    pub fn strand_cell(tb: TopOrBottom) -> (r: Language)
        ensures
            r == Language::spec_strand_cell(tb),
    {
        match tb {
            TopOrBottom::Bottom => Language::BottomStrandCell,
            TopOrBottom::Top => Language::TopStrandCell,
        }
    }

    /// The double-strand-cell operator of the given direction.
    pub fn double_strand_cell(tb: TopOrBottom) -> (r: Language)
        ensures
            r == Language::spec_double_strand_cell(tb),
    {
        match tb {
            TopOrBottom::Bottom => Language::BottomDoubleStrandCell,
            TopOrBottom::Top => Language::TopDoubleStrandCell,
        }
    }
}

/// A term node: an operator and the eclasses of its children, in order.
#[derive(Debug)]
pub struct ENode {
    pub op: Language,
    pub children: Vec<Id>,
}

impl ENode {
    pub fn new(op: Language, children: Vec<Id>) -> (r: ENode)
        ensures
            r.op == op,
            r.children@ == children@,
    {
        ENode { op, children }
    }

    pub fn leaf(op: Language) -> (r: ENode)
        ensures
            r.op == op,
            r.children@.len() == 0,
    {
        ENode { op, children: Vec::new() }
    }
}

/// The semantic value of an eclass.
#[derive(Debug)]
pub enum Value {
    /// The value of a domain-id, domain-id-value or complement node.
    DomainIdValue(DomainId),
    /// The value of a long-domain or toehold-domain node.
    DomainValue(Domain),
    /// The value of a strand cell: the domain at its head, not the whole
    /// sequence of domains from it on. A cell that aggregated its sequence
    /// would make every suffix a distinct value and tie the pairing check of
    /// a double-strand cell to whole suffixes; here strands pair cell by
    /// cell, head to head, and binding zips forward one pair at a time, so
    /// the head is all that a double-strand cell and the searches read.
    StrandCellValue(Domain),
    /// The value of a double-strand cell: the domain at the head of its
    /// bottom cell; the top cell's head is its complement.
    DoubleStrandCellValue(Domain),
}

/// The analysis value attached to each eclass; `None` for structural nodes
/// (`nil`, strand ids, whole strands).
#[derive(Debug)]
pub struct Meta {
    pub value: Option<Value>,
}

pub open spec fn is_strand_cell_or_nil(m: Meta) -> bool {
    match m.value {
        None => true,
        Some(Value::StrandCellValue(_)) => true,
        _ => false,
    }
}

pub open spec fn is_double_strand_cell_or_nil(m: Meta) -> bool {
    match m.value {
        None => true,
        Some(Value::DoubleStrandCellValue(_)) => true,
        _ => false,
    }
}

/// What `make` computes for a node from its operator and the values of its
/// children; `None` where the node is ill-formed (wrong arity, or children of
/// the wrong sort, or a double strand whose heads do not pair).
pub open spec fn make_spec(op: Language, vals: Seq<Meta>) -> Option<Meta> {
    match op {
        Language::DomainIdValue(v) => if vals.len() == 0 {
            Some(Meta { value: Some(Value::DomainIdValue(DomainId::DomainId(v))) })
        } else {
            None
        },
        Language::Nil | Language::StrandId(_) => if vals.len() == 0 {
            Some(Meta { value: None })
        } else {
            None
        },
        Language::DomainId => if vals.len() == 1 {
            match vals[0].value {
                Some(Value::DomainIdValue(d)) => Some(Meta { value: Some(Value::DomainIdValue(d)) }),
                _ => None,
            }
        } else {
            None
        },
        Language::Complement => if vals.len() == 1 {
            match vals[0].value {
                Some(Value::DomainIdValue(d)) => Some(
                    Meta { value: Some(Value::DomainIdValue(d.spec_complement())) },
                ),
                _ => None,
            }
        } else {
            None
        },
        Language::LongDomain => if vals.len() == 1 {
            match vals[0].value {
                Some(Value::DomainIdValue(d)) => Some(
                    Meta { value: Some(Value::DomainValue(Domain::Long(d))) },
                ),
                _ => None,
            }
        } else {
            None
        },
        Language::ToeholdDomain => if vals.len() == 1 {
            match vals[0].value {
                Some(Value::DomainIdValue(d)) => Some(
                    Meta { value: Some(Value::DomainValue(Domain::Toehold(d))) },
                ),
                _ => None,
            }
        } else {
            None
        },
        Language::BottomStrandCell | Language::TopStrandCell => if vals.len() == 2
            && is_strand_cell_or_nil(vals[1]) {
            match vals[0].value {
                Some(Value::DomainValue(d)) => Some(
                    Meta { value: Some(Value::StrandCellValue(d)) },
                ),
                _ => None,
            }
        } else {
            None
        },
        Language::BottomDoubleStrandCell | Language::TopDoubleStrandCell => if vals.len() == 3
            && is_double_strand_cell_or_nil(vals[2]) {
            match (vals[0].value, vals[1].value) {
                (Some(Value::StrandCellValue(a)), Some(Value::StrandCellValue(b))) => if a.spec_complementary(b) {
                    Some(Meta { value: Some(Value::DoubleStrandCellValue(a)) })
                } else {
                    None
                },
                _ => None,
            }
        } else {
            None
        },
        Language::Strand => if vals.len() == 2 && vals[0].value is None
            && is_strand_cell_or_nil(vals[1]) {
            Some(Meta { value: None })
        } else {
            None
        },
    }
}

impl Value {
    pub fn duplicate(&self) -> (r: Value)
        ensures
            r == *self,
    {
        match self {
            Value::DomainIdValue(d) => Value::DomainIdValue(d.duplicate()),
            Value::DomainValue(d) => Value::DomainValue(d.duplicate()),
            Value::StrandCellValue(d) => Value::StrandCellValue(d.duplicate()),
            Value::DoubleStrandCellValue(d) => Value::DoubleStrandCellValue(d.duplicate()),
        }
    }

    pub fn same(&self, other: &Value) -> (r: bool)
        ensures
            r == (*self == *other),
    {
        match (self, other) {
            (Value::DomainIdValue(a), Value::DomainIdValue(b)) => a.same(b),
            (Value::DomainValue(a), Value::DomainValue(b)) => a.same(b),
            (Value::StrandCellValue(a), Value::StrandCellValue(b)) => a.same(b),
            (Value::DoubleStrandCellValue(a), Value::DoubleStrandCellValue(b)) => a.same(b),
            _ => false,
        }
    }
}

impl Meta {
    pub fn duplicate(&self) -> (r: Meta)
        ensures
            r == *self,
    {
        match &self.value {
            None => Meta { value: None },
            Some(v) => Meta { value: Some(v.duplicate()) },
        }
    }

    pub fn same(&self, other: &Meta) -> (r: bool)
        ensures
            r == (*self == *other),
    {
        match (&self.value, &other.value) {
            (None, None) => true,
            (Some(a), Some(b)) => a.same(b),
            _ => false,
        }
    }

    /// The value of a node with operator `op` whose children's eclasses hold
    /// `vals`; `None` for an ill-formed node.
    pub fn make(op: Language, vals: &Vec<Meta>) -> (r: Option<Meta>)
        ensures
            r == make_spec(op, vals@),
    {
        match op {
            Language::DomainIdValue(v) => if vals.len() == 0 {
                Some(Meta { value: Some(Value::DomainIdValue(DomainId::DomainId(v))) })
            } else {
                None
            },
            Language::Nil | Language::StrandId(_) => if vals.len() == 0 {
                Some(Meta { value: None })
            } else {
                None
            },
            Language::DomainId => if vals.len() == 1 {
                match &vals[0].value {
                    Some(Value::DomainIdValue(d)) => Some(
                        Meta { value: Some(Value::DomainIdValue(d.duplicate())) },
                    ),
                    _ => None,
                }
            } else {
                None
            },
            Language::Complement => if vals.len() == 1 {
                match &vals[0].value {
                    Some(Value::DomainIdValue(d)) => Some(
                        Meta { value: Some(Value::DomainIdValue(d.complement())) },
                    ),
                    _ => None,
                }
            } else {
                None
            },
            Language::LongDomain => if vals.len() == 1 {
                match &vals[0].value {
                    Some(Value::DomainIdValue(d)) => Some(
                        Meta { value: Some(Value::DomainValue(Domain::Long(d.duplicate()))) },
                    ),
                    _ => None,
                }
            } else {
                None
            },
            Language::ToeholdDomain => if vals.len() == 1 {
                match &vals[0].value {
                    Some(Value::DomainIdValue(d)) => Some(
                        Meta { value: Some(Value::DomainValue(Domain::Toehold(d.duplicate()))) },
                    ),
                    _ => None,
                }
            } else {
                None
            },
            Language::BottomStrandCell | Language::TopStrandCell => {
                if vals.len() != 2 {
                    return None;
                }
                let rest_ok = match &vals[1].value {
                    None => true,
                    Some(Value::StrandCellValue(_)) => true,
                    _ => false,
                };
                if !rest_ok {
                    return None;
                }
                match &vals[0].value {
                    Some(Value::DomainValue(d)) => Some(
                        Meta { value: Some(Value::StrandCellValue(d.duplicate())) },
                    ),
                    _ => None,
                }
            },
            Language::BottomDoubleStrandCell | Language::TopDoubleStrandCell => {
                if vals.len() != 3 {
                    return None;
                }
                let previous_ok = match &vals[2].value {
                    None => true,
                    Some(Value::DoubleStrandCellValue(_)) => true,
                    _ => false,
                };
                if !previous_ok {
                    return None;
                }
                match (&vals[0].value, &vals[1].value) {
                    (Some(Value::StrandCellValue(a)), Some(Value::StrandCellValue(b))) => {
                        if a.complementary(b) {
                            Some(Meta { value: Some(Value::DoubleStrandCellValue(a.duplicate())) })
                        } else {
                            None
                        }
                    },
                    _ => None,
                }
            },
            Language::Strand => {
                if vals.len() != 2 {
                    return None;
                }
                let rest_ok = match &vals[1].value {
                    None => true,
                    Some(Value::StrandCellValue(_)) => true,
                    _ => false,
                };
                if rest_ok && vals[0].value.is_none() {
                    Some(Meta { value: None })
                } else {
                    None
                }
            },
        }
    }

    /// The value of the union of two eclasses: defined only where the two
    /// values are equal; any difference is a contradiction in the model.
    pub fn merge(&self, other: &Meta) -> (r: Option<Meta>)
        ensures
            r is Some <==> *self == *other,
            r matches Some(m) ==> m == *self && m == *other,
    {
        if self.same(other) {
            Some(self.duplicate())
        } else {
            None
        }
    }
}

/// Every domain identifier in the value carries at most one complement
/// marker.
pub open spec fn meta_normal(m: Meta) -> bool {
    match m.value {
        None => true,
        Some(Value::DomainIdValue(d)) => d.is_normal(),
        Some(Value::DomainValue(d)) => d.spec_id().is_normal(),
        Some(Value::StrandCellValue(d)) => d.spec_id().is_normal(),
        Some(Value::DoubleStrandCellValue(d)) => d.spec_id().is_normal(),
    }
}

/// `make` keeps values normal: complementing a normal identifier cancels
/// a marker instead of nesting one.
pub proof fn lemma_make_normal(op: Language, vals: Seq<Meta>)
    requires
        forall|k: int| 0 <= k < vals.len() ==> meta_normal(#[trigger] vals[k]),
        make_spec(op, vals) is Some,
    ensures
        meta_normal(make_spec(op, vals)->Some_0),
{
    if vals.len() > 0 {
        assert(meta_normal(vals[0]));
    }
    match op {
        Language::Complement => {
            match vals[0].value {
                Some(Value::DomainIdValue(d)) => lemma_complement_involution(d),
                _ => {},
            }
        },
        _ => {},
    }
}

} // verus!
