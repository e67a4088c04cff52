use vstd::prelude::*;

verus! {

/// The raw number that names a domain.
pub type DomainIdValue = u32;

/// A domain identifier, possibly wrapped in complement markers.
#[derive(Debug)]
pub enum DomainId {
    Complement(Box<DomainId>),
    DomainId(DomainIdValue),
}

/// A domain of a strand: a short toehold or a long domain.
#[derive(Debug)]
pub enum Domain {
    Toehold(DomainId),
    Long(DomainId),
}

/// Which of the two strands of a duplex a chain of cells belongs to.
#[derive(Debug, Clone, Copy, PartialEq, Eq, Structural)]
pub enum TopOrBottom {
    Top,
    Bottom,
}

impl TopOrBottom {
    pub open spec fn spec_other(self) -> TopOrBottom {
        match self {
            TopOrBottom::Top => TopOrBottom::Bottom,
            TopOrBottom::Bottom => TopOrBottom::Top,
        }
    }

    /// The opposite strand direction.
    pub fn other(&self) -> (r: TopOrBottom)
        ensures
            r == self.spec_other(),
    {
        match self {
            TopOrBottom::Top => TopOrBottom::Bottom,
            TopOrBottom::Bottom => TopOrBottom::Top,
        }
    }
}

impl DomainId {
    /// Complement as an involution: a complemented identifier loses its marker,
    /// a plain one gains one.
    pub open spec fn spec_complement(self) -> DomainId {
        match self {
            DomainId::Complement(inner) => *inner,
            DomainId::DomainId(v) => DomainId::Complement(Box::new(DomainId::DomainId(v))),
        }
    }

    /// At most one complement marker, around a plain identifier.
    pub open spec fn is_normal(self) -> bool {
        match self {
            DomainId::Complement(inner) => (*inner) is DomainId,
            DomainId::DomainId(_) => true,
        }
    }

    pub fn complement(&self) -> (r: DomainId)
        ensures
            r == self.spec_complement(),
    {
        match self {
            DomainId::Complement(inner) => (**inner).duplicate(),
            DomainId::DomainId(v) => DomainId::Complement(Box::new(DomainId::DomainId(*v))),
        }
    }

    /// A structurally equal copy.
    pub fn duplicate(&self) -> (r: DomainId)
        ensures
            r == *self,
        decreases self,
    {
        match self {
            DomainId::Complement(inner) => {
                let c = (**inner).duplicate();
                DomainId::Complement(Box::new(c))
            },
            DomainId::DomainId(v) => DomainId::DomainId(*v),
        }
    }

    /// Structural equality.
    pub fn same(&self, other: &DomainId) -> (r: bool)
        ensures
            r == (*self == *other),
        decreases self,
    {
        match (self, other) {
            (DomainId::Complement(a), DomainId::Complement(b)) => (**a).same(&**b),
            (DomainId::DomainId(a), DomainId::DomainId(b)) => *a == *b,
            _ => false,
        }
    }
}

impl Domain {
    pub open spec fn spec_id(self) -> DomainId {
        match self {
            Domain::Toehold(id) => id,
            Domain::Long(id) => id,
        }
    }

    /// Two domains pair when they are of the same kind and the second's
    /// identifier is the complement of the first's.
    pub open spec fn spec_complementary(self, other: Domain) -> bool {
        match (self, other) {
            (Domain::Toehold(a), Domain::Toehold(b)) => b == a.spec_complement(),
            (Domain::Long(a), Domain::Long(b)) => b == a.spec_complement(),
            _ => false,
        }
    }

    pub fn complementary(&self, other: &Domain) -> (r: bool)
        ensures
            r == self.spec_complementary(*other),
    {
        match (self, other) {
            (Domain::Toehold(a), Domain::Toehold(b)) => b.same(&a.complement()),
            (Domain::Long(a), Domain::Long(b)) => b.same(&a.complement()),
            _ => false,
        }
    }

    pub fn duplicate(&self) -> (r: Domain)
        ensures
            r == *self,
    {
        match self {
            Domain::Toehold(id) => Domain::Toehold(id.duplicate()),
            Domain::Long(id) => Domain::Long(id.duplicate()),
        }
    }

    pub fn same(&self, other: &Domain) -> (r: bool)
        ensures
            r == (*self == *other),
    {
        match (self, other) {
            (Domain::Toehold(a), Domain::Toehold(b)) => a.same(b),
            (Domain::Long(a), Domain::Long(b)) => a.same(b),
            _ => false,
        }
    }
}

/// Complementing twice gives back a normal identifier.
pub proof fn lemma_complement_involution(d: DomainId)
    requires
        d.is_normal(),
    ensures
        d.spec_complement().spec_complement() == d,
        d.spec_complement().is_normal(),
{
}

} // verus!
