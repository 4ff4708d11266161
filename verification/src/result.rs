use vstd::prelude::*;

verus! {

/// The response code of a message: the low four bits of the second flag byte.
#[derive(Copy, Clone, Debug, PartialEq, Eq, Structural)]
pub enum ResultCode {
    NOERROR,
    FORMERR,
    SERVFAIL,
    NXDOMAIN,
    NOTIMP,
    REFUSED,
}

impl ResultCode {
    /// The code that stands for `num`; a number without a code of its own
    /// counts as `NOERROR`.
    pub open spec fn of_num(num: u8) -> ResultCode {
        match num {
            1 => ResultCode::FORMERR,
            2 => ResultCode::SERVFAIL,
            3 => ResultCode::NXDOMAIN,
            4 => ResultCode::NOTIMP,
            5 => ResultCode::REFUSED,
            _ => ResultCode::NOERROR,
        }
    }

    /// The number of the code, 0 to 5.
    pub open spec fn num(self) -> u8 {
        match self {
            ResultCode::NOERROR => 0,
            ResultCode::FORMERR => 1,
            ResultCode::SERVFAIL => 2,
            ResultCode::NXDOMAIN => 3,
            ResultCode::NOTIMP => 4,
            ResultCode::REFUSED => 5,
        }
    }

    /// The code that stands for `num`.
    pub fn from_num(num: u8) -> (code: ResultCode)
        ensures
            code == ResultCode::of_num(num),
    {
        match num {
            1 => ResultCode::FORMERR,
            2 => ResultCode::SERVFAIL,
            3 => ResultCode::NXDOMAIN,
            4 => ResultCode::NOTIMP,
            5 => ResultCode::REFUSED,
            _ => ResultCode::NOERROR,
        }
    }

    /// The number of the code.
    pub fn to_num(self) -> (num: u8)
        ensures
            num == self.num(),
    {
        match self {
            ResultCode::NOERROR => 0,
            ResultCode::FORMERR => 1,
            ResultCode::SERVFAIL => 2,
            ResultCode::NXDOMAIN => 3,
            ResultCode::NOTIMP => 4,
            ResultCode::REFUSED => 5,
        }
    }

    /// Every code comes back from its number, and every number up to 5
    /// from its code.
    pub proof fn lemma_num_round_trip(code: ResultCode, num: u8)
        ensures
            ResultCode::of_num(code.num()) == code,
            code.num() <= 5,
            num <= 5 ==> ResultCode::of_num(num).num() == num,
    {
    }
}

} // verus!
