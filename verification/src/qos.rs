//! Quality-of-service levels.

use vstd::prelude::*;

verus! {

/// Quality of service of a publish or a subscription.
///
/// The broker supports levels 0 and 1; level 2 is accepted on the wire
/// but downgraded to 1 when a packet is decoded.
#[derive(Clone, Copy, Debug, PartialEq, Eq, Structural)]
pub enum QoSLevel {
    QoSLevel0,
    QoSLevel1,
}

/// The numeric value of a level: 0 or 1.
pub open spec fn spec_qos_value(q: QoSLevel) -> u8 {
    match q {
        QoSLevel::QoSLevel0 => 0,
        QoSLevel::QoSLevel1 => 1,
    }
}

/// The smaller of two levels, by numeric value.
pub open spec fn spec_qos_min(a: QoSLevel, b: QoSLevel) -> QoSLevel {
    if spec_qos_value(a) <= spec_qos_value(b) {
        a
    } else {
        b
    }
}

impl QoSLevel {
    /// The numeric value of this level.
    pub fn value(&self) -> (r: u8)
        ensures
            r == spec_qos_value(*self),
    {
        match self {
            QoSLevel::QoSLevel0 => 0,
            QoSLevel::QoSLevel1 => 1,
        }
    }

    /// The smaller of `self` and `other`, by numeric value.
    pub fn min(self, other: QoSLevel) -> (r: QoSLevel)
        ensures
            r == spec_qos_min(self, other),
    {
        if self.value() <= other.value() {
            self
        } else {
            other
        }
    }
}

} // verus!
