use vstd::prelude::*;

verus! {

/// The type of a record or of a query. A code without a name of its own is
/// kept as it is in `UNKNOWN`.
#[derive(Copy, Clone, Debug, PartialEq, Eq, Hash, Structural)]
pub enum QueryType {
    UNKNOWN(u16),
    A,
    NS,
    CNAME,
    MX,
    AAAA,
}

impl QueryType {
    /// The type that stands for the code `num`.
    pub open spec fn of_num(num: u16) -> QueryType {
        match num {
            1 => QueryType::A,
            2 => QueryType::NS,
            5 => QueryType::CNAME,
            15 => QueryType::MX,
            28 => QueryType::AAAA,
            _ => QueryType::UNKNOWN(num),
        }
    }

    /// The code of the type.
    pub open spec fn num(self) -> u16 {
        match self {
            QueryType::UNKNOWN(x) => x,
            QueryType::A => 1,
            QueryType::NS => 2,
            QueryType::CNAME => 5,
            QueryType::MX => 15,
            QueryType::AAAA => 28,
        }
    }

    /// Does `UNKNOWN` here hold a code that has no name of its own? Every
    /// type that `of_num` gives is of this kind.
    pub open spec fn is_canonical(self) -> bool {
        self matches QueryType::UNKNOWN(x) ==> x != 1 && x != 2 && x != 5 && x != 15 && x != 28
    }

    /// The code of the type.
    pub fn to_num(&self) -> (num: u16)
        ensures
            num == self.num(),
    {
        match *self {
            QueryType::UNKNOWN(x) => x,
            QueryType::A => 1,
            QueryType::NS => 2,
            QueryType::CNAME => 5,
            QueryType::MX => 15,
            QueryType::AAAA => 28,
        }
    }

    /// The type that stands for the code `num`.
    pub fn from_num(num: u16) -> (qtype: QueryType)
        ensures
            qtype == QueryType::of_num(num),
    {
        match num {
            1 => QueryType::A,
            2 => QueryType::NS,
            5 => QueryType::CNAME,
            15 => QueryType::MX,
            28 => QueryType::AAAA,
            _ => QueryType::UNKNOWN(num),
        }
    }

    /// Every code comes back from its type, and every type from its code
    /// unless it is an `UNKNOWN` that holds the code of a named type.
    pub proof fn lemma_num_round_trip(num: u16, qtype: QueryType)
        ensures
            QueryType::of_num(num).num() == num,
            QueryType::of_num(num).is_canonical(),
            qtype.is_canonical() <==> QueryType::of_num(qtype.num()) == qtype,
    {
    }
}

} // verus!
