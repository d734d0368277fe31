use vstd::prelude::*;

use crate::codec::Message;
use crate::numeral::Decimal;

verus! {

/// The value of the first generated reading.
pub const FIRST_VALUE: i64 = 20;

/// Seconds between two generated readings.
pub const SEND_PERIOD_SECS: u64 = 5;

/// How many outbound messages a connection's queue holds before a producer
/// has to wait.
pub const QUEUE_CAPACITY: usize = 32;

/// The key of every generated reading.
pub open spec fn temperature_key() -> Seq<char> {
    "temperature"@
}

/// Produces the synthetic temperature readings sent on a connection: the
/// first is 20, and each next one is one more.
pub struct Generator {
    next: i64,
}

impl Generator {
    /// The value of the reading that comes next.
    pub closed spec fn next_value(&self) -> int {
        self.next as int
    }

    pub fn new() -> (r: Generator)
        ensures
            r.next_value() == FIRST_VALUE,
    {
        Generator { next: FIRST_VALUE }
    }

    /// Whether another reading can be made without leaving the range of `i64`.
    pub fn has_next(&self) -> (r: bool)
        ensures
            r == (self.next_value() < i64::MAX),
    {
        self.next < i64::MAX
    }

    /// The next reading; the one after it is one greater.
    pub fn next_message(&mut self) -> (m: Message)
        requires
            old(self).next_value() < i64::MAX,
        ensures
            m.key@ == temperature_key(),
            m.value == (Decimal { units: old(self).next_value() as i64, scale: 0 }),
            final(self).next_value() == old(self).next_value() + 1,
    {
        let value = self.next;
        self.next = self.next + 1;
        Message { key: String::from_str("temperature"), value: Decimal { units: value, scale: 0 } }
    }
}

} // verus!
