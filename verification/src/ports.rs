//! The ports that a server may be asked to listen on.

use vstd::prelude::*;
use vstd::string::StrSliceExecFns;

use crate::text::{self, parse_u16};

verus! {

/// Ports from `low` to `high`, both included. There are none where `low` is the
/// greater.
#[derive(Clone, Copy, PartialEq, Eq, Structural)]
pub struct PortRange {
    pub low: u16,
    pub high: u16,
}

/// The port that a text writes.
pub open spec fn port(s: Seq<char>) -> Option<u16> {
    match text::unsigned(s) {
        Some(v) => if v <= u16::MAX {
            Some(v as u16)
        } else {
            None
        },
        None => None,
    }
}

/// The ports that a text asks for: one port, or two with a colon between them.
pub open spec fn port_range(s: Seq<char>) -> Option<PortRange> {
    if s.contains(':') {
        let i = s.index_of_first(':')->0;
        match (port(s.take(i)), port(s.skip(i + 1))) {
            (Some(low), Some(high)) => Some(PortRange { low, high }),
            _ => None,
        }
    } else {
        match port(s) {
            Some(p) => Some(PortRange { low: p, high: p }),
            None => None,
        }
    }
}

/// The ports that a text asks for, if it makes sense.
pub fn parse_port_range(s: &str) -> (r: Option<PortRange>)
    ensures
        r == port_range(s@),
{
    let n: usize = s.unicode_len();
    let mut i: usize = 0;
    while i < n
        invariant
            n == s@.len(),
            i <= n,
            forall|j: int| 0 <= j < i ==> s@[j] != ':',
        decreases n - i,
    {
        if s.get_char(i) == ':' {
            proof {
                assert(s@.contains(':'));
                s@.index_of_first_ensures(':');
            }
            let low_text = s.substring_char(0, i);
            let high_text = s.substring_char(i + 1, n);
            assert(low_text@ =~= s@.take(i as int));
            assert(high_text@ =~= s@.skip(i + 1));
            let low: u16 = match parse_u16(low_text) {
                Some(low) => low,
                None => return None,
            };
            let high: u16 = match parse_u16(high_text) {
                Some(high) => high,
                None => return None,
            };
            return Some(PortRange { low, high });
        }
        i = i + 1;
    }
    match parse_u16(s) {
        Some(port) => Some(PortRange { low: port, high: port }),
        None => None,
    }
}

impl PortRange {
    /// The ports of the range, in order.
    pub open spec fn ports(self) -> Seq<u16> {
        Seq::new(
            if self.low <= self.high {
                (self.high - self.low + 1) as nat
            } else {
                0
            },
            |i: int| (self.low + i) as u16,
        )
    }

    /// The port to try first, and the range of those to try after it.
    pub fn next(self) -> (r: Option<(u16, Option<PortRange>)>)
        ensures
            r is Some == (self.ports().len() > 0),
            r matches Some((first, rest)) ==> self.ports() == seq![first] + match rest {
                Some(more) => more.ports(),
                None => Seq::empty(),
            },
    {
        if self.low > self.high {
            return None;
        }
        let rest = if self.low == self.high {
            None
        } else {
            Some(PortRange { low: self.low + 1, high: self.high })
        };
        proof {
            let more = match rest {
                Some(more) => more.ports(),
                None => Seq::empty(),
            };
            assert(self.ports() =~= seq![self.low] + more);
        }
        Some((self.low, rest))
    }
}

} // verus!
