//! The 16-bit record-type codes the codec models.

use vstd::prelude::*;

verus! {

/// Record types with a modelled payload; every other code is carried
/// through `UNKNOWN` with its raw value.
#[derive(Clone, Copy, Debug, PartialEq, Eq, Structural)]
pub enum QueryType {
    UNKNOWN(u16),
    A,
    NS,
    CNAME,
    SOA,
    MX,
    TXT,
    AAAA,
}

impl QueryType {
    /// The wire code of a query type.
    pub open spec fn spec_to_num(self) -> u16 {
        match self {
            QueryType::UNKNOWN(x) => x,
            QueryType::A => 1,
            QueryType::NS => 2,
            QueryType::CNAME => 5,
            QueryType::SOA => 6,
            QueryType::MX => 15,
            QueryType::TXT => 16,
            QueryType::AAAA => 28,
        }
    }

    /// The query type a wire code decodes to.
    pub open spec fn spec_from_num(num: u16) -> QueryType {
        if num == 1 {
            QueryType::A
        } else if num == 2 {
            QueryType::NS
        } else if num == 5 {
            QueryType::CNAME
        } else if num == 6 {
            QueryType::SOA
        } else if num == 15 {
            QueryType::MX
        } else if num == 16 {
            QueryType::TXT
        } else if num == 28 {
            QueryType::AAAA
        } else {
            QueryType::UNKNOWN(num)
        }
    }

    /// An `UNKNOWN` value may not shadow a modelled code; with that, the
    /// wire code determines the query type and vice versa.
    pub open spec fn wf(self) -> bool {
        match self {
            QueryType::UNKNOWN(x) => QueryType::spec_from_num(x) == QueryType::UNKNOWN(x),
            _ => true,
        }
    }

    pub fn to_num(self) -> (r: u16)
        ensures
            r == self.spec_to_num(),
    {
        match self {
            QueryType::UNKNOWN(x) => x,
            QueryType::A => 1,
            QueryType::NS => 2,
            QueryType::CNAME => 5,
            QueryType::SOA => 6,
            QueryType::MX => 15,
            QueryType::TXT => 16,
            QueryType::AAAA => 28,
        }
    }

    pub fn from_num(num: u16) -> (r: QueryType)
        ensures
            r == QueryType::spec_from_num(num),
    {
        match num {
            1 => QueryType::A,
            2 => QueryType::NS,
            5 => QueryType::CNAME,
            6 => QueryType::SOA,
            15 => QueryType::MX,
            16 => QueryType::TXT,
            28 => QueryType::AAAA,
            _ => QueryType::UNKNOWN(num),
        }
    }
}

/// Decoding inverts encoding for every well-formed query type.
pub proof fn lemma_query_type_round_trip(qt: QueryType)
    requires
        qt.wf(),
    ensures
        QueryType::spec_from_num(qt.spec_to_num()) == qt,
{
}

} // verus!
