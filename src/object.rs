//! Typed sensor readings, held as fixed-point integers.
use vstd::prelude::*;

verus! {

/// One reading. Each variant fixes its own unit and scale:
/// `Battery` in percent; `Temperature` in hundredths of a degree Celsius;
/// `Humidity` in hundredths of a percent; `Voltage` in millivolts;
/// `Power` as on or off; `Rssi` in dBm.
#[derive(Clone, Copy, Debug)]
pub enum Object {
    Battery(u8),
    Temperature(i16),
    Humidity(u16),
    Voltage(u16),
    Power(bool),
    Rssi(i16),
}

/// The kind of a reading, independent of its magnitude.
#[derive(Clone, Copy, Debug, PartialEq, Eq, Structural)]
pub enum Kind {
    Battery,
    Temperature,
    Humidity,
    Voltage,
    Power,
    Rssi,
}

pub open spec fn kind_of(o: Object) -> Kind {
    match o {
        Object::Battery(_) => Kind::Battery,
        Object::Temperature(_) => Kind::Temperature,
        Object::Humidity(_) => Kind::Humidity,
        Object::Voltage(_) => Kind::Voltage,
        Object::Power(_) => Kind::Power,
        Object::Rssi(_) => Kind::Rssi,
    }
}

impl View for Object {
    type V = Object;

    open spec fn view(&self) -> Object {
        *self
    }
}

impl PartialEq for Object {
    fn eq(&self, other: &Object) -> (r: bool) {
        match (self, other) {
            (Object::Battery(a), Object::Battery(b)) => *a == *b,
            (Object::Temperature(a), Object::Temperature(b)) => *a == *b,
            (Object::Humidity(a), Object::Humidity(b)) => *a == *b,
            (Object::Voltage(a), Object::Voltage(b)) => *a == *b,
            (Object::Power(a), Object::Power(b)) => *a == *b,
            (Object::Rssi(a), Object::Rssi(b)) => *a == *b,
            _ => false,
        }
    }
}

impl vstd::std_specs::cmp::PartialEqSpecImpl for Object {
    open spec fn obeys_eq_spec() -> bool {
        true
    }

    open spec fn eq_spec(&self, other: &Object) -> bool {
        *self == *other
    }
}

impl Object {
    /// The kind of this reading.
    pub fn kind(&self) -> (k: Kind)
        ensures
            k == kind_of(*self),
    {
        match self {
            Object::Battery(_) => Kind::Battery,
            Object::Temperature(_) => Kind::Temperature,
            Object::Humidity(_) => Kind::Humidity,
            Object::Voltage(_) => Kind::Voltage,
            Object::Power(_) => Kind::Power,
            Object::Rssi(_) => Kind::Rssi,
        }
    }

    /// Whether two readings are of the same kind.
    pub fn same_kind(&self, other: &Object) -> (r: bool)
        ensures
            r == (kind_of(*self) == kind_of(*other)),
    {
        self.kind() == other.kind()
    }
}

} // verus!
