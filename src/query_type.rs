use vstd::prelude::*;

verus! {

/// A record type code: the common ones by name, any other kept as its
/// number.
#[derive(Debug, Clone, Copy, PartialEq, Eq, Hash, Structural)]
pub enum QueryType {
    Unknown(u16),
    A,
    NS,
    CNAME,
    MX,
    AAAA,
}

impl QueryType {
    /// The numeric code of a type.
    pub open spec fn spec_to_num(self) -> u16 {
        match self {
            QueryType::Unknown(n) => n,
            QueryType::A => 1,
            QueryType::NS => 2,
            QueryType::CNAME => 5,
            QueryType::MX => 15,
            QueryType::AAAA => 28,
        }
    }

    /// The type of a numeric code.
    pub open spec fn spec_from_num(num: u16) -> QueryType {
        if num == 1 {
            QueryType::A
        } else if num == 2 {
            QueryType::NS
        } else if num == 5 {
            QueryType::CNAME
        } else if num == 15 {
            QueryType::MX
        } else if num == 28 {
            QueryType::AAAA
        } else {
            QueryType::Unknown(num)
        }
    }

    /// Whether the type is in the form decoding gives: an unknown type never
    /// carries the code of a named one.
    pub open spec fn well_formed(self) -> bool {
        QueryType::spec_from_num(self.spec_to_num()) == self
    }

    pub fn to_num(&self) -> (r: u16)
        ensures
            r == self.spec_to_num(),
    {
        match self {
            QueryType::Unknown(n) => *n,
            QueryType::A => 1,
            QueryType::NS => 2,
            QueryType::CNAME => 5,
            QueryType::MX => 15,
            QueryType::AAAA => 28,
        }
    }

    pub fn from_num(num: u16) -> (r: QueryType)
        ensures
            r == QueryType::spec_from_num(num),
    {
        match num {
            1 => QueryType::A,
            2 => QueryType::NS,
            5 => QueryType::CNAME,
            15 => QueryType::MX,
            28 => QueryType::AAAA,
            _ => QueryType::Unknown(num),
        }
    }
}

/// Every code comes back from its type unchanged, unknown codes included.
pub proof fn lemma_code_round_trip(num: u16)
    ensures
        QueryType::spec_from_num(num).spec_to_num() == num,
        QueryType::spec_from_num(num).well_formed(),
{
}

} // verus!
