use vstd::prelude::*;

verus! {

/// Every message type the bus can carry. The bus never looks at it: it is for publishers
/// and subscribers. `as_u8` gives the number that goes on the wire.
#[derive(Debug, Clone, Copy, PartialEq, Eq, Structural)]
pub enum MsgType {
    PriceTick,
    OrderBookDelta,
    Signal,
    ExecutionReport,
    RiskBreach,
    Heartbeat,
}

impl MsgType {
    /// The number of this type on the wire.
    pub open spec fn number(self) -> u8 {
        match self {
            MsgType::PriceTick => 1,
            MsgType::OrderBookDelta => 2,
            MsgType::Signal => 3,
            MsgType::ExecutionReport => 4,
            MsgType::RiskBreach => 5,
            MsgType::Heartbeat => 6,
        }
    }

    /// The number of this type on the wire.
    pub fn as_u8(self) -> (v: u8)
        ensures
            v == self.number(),
    {
        match self {
            MsgType::PriceTick => 1,
            MsgType::OrderBookDelta => 2,
            MsgType::Signal => 3,
            MsgType::ExecutionReport => 4,
            MsgType::RiskBreach => 5,
            MsgType::Heartbeat => 6,
        }
    }

    /// The type with number `v`, if there is one.
    pub fn from_u8(v: u8) -> (t: Option<Self>)
        ensures
            match t {
                Some(t) => t.number() == v,
                None => v < 1 || v > 6,
            },
    {
        match v {
            1 => Some(MsgType::PriceTick),
            2 => Some(MsgType::OrderBookDelta),
            3 => Some(MsgType::Signal),
            4 => Some(MsgType::ExecutionReport),
            5 => Some(MsgType::RiskBreach),
            6 => Some(MsgType::Heartbeat),
            _ => None,
        }
    }
}

/// Message types have distinct numbers, from 1 to 6. None has number 0, which marks the
/// control message of a subscriber.
pub proof fn law_type_numbers_are_distinct(a: MsgType, b: MsgType)
    ensures
        1 <= a.number() <= 6,
        a.number() == b.number() ==> a == b,
{
}

/// The numbers that publishers and subscribers have agreed on.
pub proof fn law_type_numbers_are_agreed(t: MsgType, v: u8)
    requires
        call_ensures(MsgType::as_u8, (t,), v),
    ensures
        v == t.number(),
        v == 1 <==> t == MsgType::PriceTick,
        v == 2 <==> t == MsgType::OrderBookDelta,
        v == 3 <==> t == MsgType::Signal,
        v == 4 <==> t == MsgType::ExecutionReport,
        v == 5 <==> t == MsgType::RiskBreach,
        v == 6 <==> t == MsgType::Heartbeat,
{
}

/// A number is that of a type exactly if it lies between 1 and 6, and a type that is read
/// from its number is the one that was written.
pub proof fn law_type_is_read_back(t: MsgType, v: u8, read: Option<MsgType>)
    requires
        call_ensures(MsgType::from_u8, (v,), read),
    ensures
        read is Some <==> 1 <= v <= 6,
        call_ensures(MsgType::as_u8, (t,), v) ==> read == Some(t),
{
}

} // verus!
