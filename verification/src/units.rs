//! Units of measure with exact rational conversion factors, and
//! quantities convertible between them.

use vstd::prelude::*;

verus! {

use crate::rat::Rat;
use crate::rat::add_n;
use crate::rat::div_n;
use crate::rat::lemma_norm_pos;
use crate::rat::mul_n;
use crate::rat::q_norm;
use crate::rat::sub_n;

/// A unit of measure: a positive factor to the base unit, and an offset
/// applied before the factor.
pub trait Unit: Sized + Copy {
    spec fn factor_spec(&self) -> (int, int);

    spec fn offset_spec(&self) -> (int, int);

    fn multiplier_to_base(&self) -> (r: Rat)
        ensures
            r.wf(),
            r@ == self.factor_spec(),
            r@.0 >= 1,
    ;

    fn offset_from_base(&self) -> (r: Rat)
        ensures
            r.wf(),
            r@ == self.offset_spec(),
    ;
}

/// Mirror of `convert`: to the base unit by offset and factor, then to
/// the target unit by its factor and offset.
pub open spec fn convert_n(
    a: (int, int),
    ou: (int, int),
    fu: (int, int),
    ft: (int, int),
    ot: (int, int),
) -> Option<(int, int)> {
    match add_n(a, ou) {
        None => None,
        Some(s) => match mul_n(s, fu) {
            None => None,
            Some(b) => match div_n(b, ft) {
                None => None,
                Some(q) => sub_n(q, ot),
            },
        },
    }
}

/// An amount of some unit.
pub struct Quantity<U: Unit> {
    pub amount: Rat,
    pub units: U,
}

/// Conversion between units of the same dimension.
pub trait Convertable<U: Unit>: Sized {
    spec fn convert_req(&self, to: U) -> bool;

    spec fn convert_spec(&self, to: U, r: Self) -> bool;

    fn convert(&self, to: U) -> (r: Self)
        requires
            self.convert_req(to),
        ensures
            self.convert_spec(to, r),
    ;
}

impl<U: Unit> Convertable<U> for Quantity<U> {
    /// The exact conversion value must be representable.
    open spec fn convert_req(&self, to: U) -> bool {
        self.amount.wf() && convert_n(
            self.amount@,
            self.units.offset_spec(),
            self.units.factor_spec(),
            to.factor_spec(),
            to.offset_spec(),
        ) is Some
    }

    open spec fn convert_spec(&self, to: U, r: Self) -> bool {
        r.units == to && r.amount.wf() && Some(r.amount@) == convert_n(
            self.amount@,
            self.units.offset_spec(),
            self.units.factor_spec(),
            to.factor_spec(),
            to.offset_spec(),
        )
    }

    fn convert(&self, to: U) -> (r: Quantity<U>) {
        let ou = self.units.offset_from_base();
        let fu = self.units.multiplier_to_base();
        let ft = to.multiplier_to_base();
        let ot = to.offset_from_base();
        let s = match self.amount.add(&ou) {
            Some(v) => v,
            None => {
                proof {
                    assert(false);
                }
                Rat::zero()
            },
        };
        let b = match s.mul(&fu) {
            Some(v) => v,
            None => {
                proof {
                    assert(false);
                }
                Rat::zero()
            },
        };
        let q = match b.div(&ft) {
            Some(v) => v,
            None => {
                proof {
                    assert(false);
                }
                Rat::zero()
            },
        };
        let out = match q.sub(&ot) {
            Some(v) => v,
            None => {
                proof {
                    assert(false);
                }
                Rat::zero()
            },
        };
        Quantity { amount: out, units: to }
    }
}

impl<U: Unit> Quantity<U> {
    pub open spec fn wf(self) -> bool {
        self.amount.wf()
    }

    /// The quantity scaled by a scalar.
    pub fn mul(&self, rhs: &Rat) -> (r: Option<Quantity<U>>)
        requires
            self.wf(),
            rhs.wf(),
        ensures
            r matches Some(q) ==> q.wf() && q.units == self.units && Some(q.amount@) == mul_n(
                self.amount@,
                rhs@,
            ),
            r is Some <==> mul_n(self.amount@, rhs@) is Some,
    {
        match self.amount.mul(rhs) {
            Some(v) => Some(Quantity { amount: v, units: self.units }),
            None => None,
        }
    }

    /// The quantity divided by a scalar.
    pub fn div(&self, rhs: &Rat) -> (r: Option<Quantity<U>>)
        requires
            self.wf(),
            rhs.wf(),
        ensures
            r matches Some(q) ==> q.wf() && q.units == self.units && Some(q.amount@) == div_n(
                self.amount@,
                rhs@,
            ),
            r is Some <==> div_n(self.amount@, rhs@) is Some,
    {
        match self.amount.div(rhs) {
            Some(v) => Some(Quantity { amount: v, units: self.units }),
            None => None,
        }
    }

    /// The sum, with the right operand first converted to the left
    /// operand's unit.
    pub fn add(&self, rhs: &Quantity<U>) -> (r: Quantity<U>)
        requires
            self.wf(),
            rhs.convert_req(self.units),
            add_n(
                self.amount@,
                convert_n(
                    rhs.amount@,
                    rhs.units.offset_spec(),
                    rhs.units.factor_spec(),
                    self.units.factor_spec(),
                    self.units.offset_spec(),
                ).unwrap(),
            ) is Some,
        ensures
            r.wf(),
            r.units == self.units,
            Some(r.amount@) == add_n(
                self.amount@,
                convert_n(
                    rhs.amount@,
                    rhs.units.offset_spec(),
                    rhs.units.factor_spec(),
                    self.units.factor_spec(),
                    self.units.offset_spec(),
                ).unwrap(),
            ),
    {
        let c = rhs.convert(self.units);
        let v = match self.amount.add(&c.amount) {
            Some(v) => v,
            None => {
                proof {
                    assert(false);
                }
                Rat::zero()
            },
        };
        Quantity { amount: v, units: self.units }
    }

    /// The difference, with the right operand first converted to the left
    /// operand's unit.
    pub fn sub(&self, rhs: &Quantity<U>) -> (r: Quantity<U>)
        requires
            self.wf(),
            rhs.convert_req(self.units),
            sub_n(
                self.amount@,
                convert_n(
                    rhs.amount@,
                    rhs.units.offset_spec(),
                    rhs.units.factor_spec(),
                    self.units.factor_spec(),
                    self.units.offset_spec(),
                ).unwrap(),
            ) is Some,
        ensures
            r.wf(),
            r.units == self.units,
            Some(r.amount@) == sub_n(
                self.amount@,
                convert_n(
                    rhs.amount@,
                    rhs.units.offset_spec(),
                    rhs.units.factor_spec(),
                    self.units.factor_spec(),
                    self.units.offset_spec(),
                ).unwrap(),
            ),
    {
        let c = rhs.convert(self.units);
        let v = match self.amount.sub(&c.amount) {
            Some(v) => v,
            None => {
                proof {
                    assert(false);
                }
                Rat::zero()
            },
        };
        Quantity { amount: v, units: self.units }
    }
}

// ---------------------------------------------------------------------------
// The units themselves.
// ---------------------------------------------------------------------------

#[derive(Debug, PartialEq, Eq, Clone, Copy)]
pub enum Distance {
    Centimeters,
    Inches,
    Miles,
    Yards,
    Feet,
    Kilometers,
    Meters,
    NauticalMiles,
    Millimeters,
}

impl Unit for Distance {
    open spec fn factor_spec(&self) -> (int, int) {
        match self {
            Distance::Meters => q_norm((1, 1)),
            Distance::Kilometers => q_norm((1000, 1)),
            Distance::Centimeters => q_norm((1, 100)),
            Distance::Millimeters => q_norm((1, 1000)),
            Distance::Inches => q_norm((254, 10000)),
            Distance::Feet => q_norm((3048, 10000)),
            Distance::Yards => q_norm((9144, 10000)),
            Distance::Miles => q_norm((1609344, 1000)),
            Distance::NauticalMiles => q_norm((1852, 1)),
        }
    }

    open spec fn offset_spec(&self) -> (int, int) {
        (0int, 1int)
    }

    fn multiplier_to_base(&self) -> (r: Rat) {
        match self {
            Distance::Meters => {
                proof {
                    lemma_norm_pos((1, 1));
                }
                Rat::new(1, 1)
            },
            Distance::Kilometers => {
                proof {
                    lemma_norm_pos((1000, 1));
                }
                Rat::new(1000, 1)
            },
            Distance::Centimeters => {
                proof {
                    lemma_norm_pos((1, 100));
                }
                Rat::new(1, 100)
            },
            Distance::Millimeters => {
                proof {
                    lemma_norm_pos((1, 1000));
                }
                Rat::new(1, 1000)
            },
            Distance::Inches => {
                proof {
                    lemma_norm_pos((254, 10000));
                }
                Rat::new(254, 10000)
            },
            Distance::Feet => {
                proof {
                    lemma_norm_pos((3048, 10000));
                }
                Rat::new(3048, 10000)
            },
            Distance::Yards => {
                proof {
                    lemma_norm_pos((9144, 10000));
                }
                Rat::new(9144, 10000)
            },
            Distance::Miles => {
                proof {
                    lemma_norm_pos((1609344, 1000));
                }
                Rat::new(1609344, 1000)
            },
            Distance::NauticalMiles => {
                proof {
                    lemma_norm_pos((1852, 1));
                }
                Rat::new(1852, 1)
            },
        }
    }

    fn offset_from_base(&self) -> (r: Rat) {
        Rat::zero()
    }
}

#[derive(Debug, PartialEq, Eq, Clone, Copy)]
pub enum Temperature {
    Fahrenheit,
    Celsius,
}

impl Unit for Temperature {
    open spec fn factor_spec(&self) -> (int, int) {
        match self {
            Temperature::Fahrenheit => q_norm((5, 9)),
            Temperature::Celsius => q_norm((1, 1)),
        }
    }

    open spec fn offset_spec(&self) -> (int, int) {
        match self {
            Temperature::Fahrenheit => q_norm((-32, 1)),
            Temperature::Celsius => (0int, 1int),
        }
    }

    fn multiplier_to_base(&self) -> (r: Rat) {
        match self {
            Temperature::Fahrenheit => {
                proof {
                    lemma_norm_pos((5, 9));
                }
                Rat::new(5, 9)
            },
            Temperature::Celsius => {
                proof {
                    lemma_norm_pos((1, 1));
                }
                Rat::new(1, 1)
            },
        }
    }

    fn offset_from_base(&self) -> (r: Rat) {
        match self {
            Temperature::Fahrenheit => Rat::new(-32, 1),
            Temperature::Celsius => Rat::zero(),
        }
    }
}

#[derive(Debug, PartialEq, Eq, Clone, Copy)]
pub enum Time {
    Milliseconds,
    Seconds,
    Minutes,
    Hours,
    Days,
}

impl Unit for Time {
    open spec fn factor_spec(&self) -> (int, int) {
        match self {
            Time::Milliseconds => q_norm((1, 1000)),
            Time::Seconds => q_norm((1, 1)),
            Time::Minutes => q_norm((60, 1)),
            Time::Hours => q_norm((3600, 1)),
            Time::Days => q_norm((86400, 1)),
        }
    }

    open spec fn offset_spec(&self) -> (int, int) {
        (0int, 1int)
    }

    fn multiplier_to_base(&self) -> (r: Rat) {
        match self {
            Time::Milliseconds => {
                proof {
                    lemma_norm_pos((1, 1000));
                }
                Rat::new(1, 1000)
            },
            Time::Seconds => {
                proof {
                    lemma_norm_pos((1, 1));
                }
                Rat::new(1, 1)
            },
            Time::Minutes => {
                proof {
                    lemma_norm_pos((60, 1));
                }
                Rat::new(60, 1)
            },
            Time::Hours => {
                proof {
                    lemma_norm_pos((3600, 1));
                }
                Rat::new(3600, 1)
            },
            Time::Days => {
                proof {
                    lemma_norm_pos((86400, 1));
                }
                Rat::new(86400, 1)
            },
        }
    }

    fn offset_from_base(&self) -> (r: Rat) {
        Rat::zero()
    }
}

#[derive(Debug, PartialEq, Eq, Clone, Copy)]
pub enum Weight {
    Pounds,
    Ounces,
    Kilograms,
    Grams,
}

impl Unit for Weight {
    open spec fn factor_spec(&self) -> (int, int) {
        match self {
            Weight::Pounds => q_norm((453592, 1000)),
            Weight::Ounces => q_norm((283495, 10000)),
            Weight::Kilograms => q_norm((1000, 1)),
            Weight::Grams => q_norm((1, 1)),
        }
    }

    open spec fn offset_spec(&self) -> (int, int) {
        (0int, 1int)
    }

    fn multiplier_to_base(&self) -> (r: Rat) {
        match self {
            Weight::Pounds => {
                proof {
                    lemma_norm_pos((453592, 1000));
                }
                Rat::new(453592, 1000)
            },
            Weight::Ounces => {
                proof {
                    lemma_norm_pos((283495, 10000));
                }
                Rat::new(283495, 10000)
            },
            Weight::Kilograms => {
                proof {
                    lemma_norm_pos((1000, 1));
                }
                Rat::new(1000, 1)
            },
            Weight::Grams => {
                proof {
                    lemma_norm_pos((1, 1));
                }
                Rat::new(1, 1)
            },
        }
    }

    fn offset_from_base(&self) -> (r: Rat) {
        Rat::zero()
    }
}

#[derive(Debug, PartialEq, Eq, Clone, Copy)]
pub enum Pressure {
    Hectopascals,
    Millibars,
    InchesHg,
    PoundsPerSquareInch,
    MillimetersHg,
    Pascals,
    Bars,
    Atmospheres,
}

impl Unit for Pressure {
    open spec fn factor_spec(&self) -> (int, int) {
        match self {
            Pressure::Pascals => q_norm((1, 1)),
            Pressure::Hectopascals => q_norm((100, 1)),
            Pressure::Bars => q_norm((100000, 1)),
            Pressure::Millibars => q_norm((100, 1)),
            Pressure::InchesHg => q_norm((3386389, 1000)),
            Pressure::PoundsPerSquareInch => q_norm((6894757, 1000)),
            Pressure::MillimetersHg => q_norm((133322, 1000)),
            Pressure::Atmospheres => q_norm((101325, 1)),
        }
    }

    open spec fn offset_spec(&self) -> (int, int) {
        (0int, 1int)
    }

    fn multiplier_to_base(&self) -> (r: Rat) {
        match self {
            Pressure::Pascals => {
                proof {
                    lemma_norm_pos((1, 1));
                }
                Rat::new(1, 1)
            },
            Pressure::Hectopascals => {
                proof {
                    lemma_norm_pos((100, 1));
                }
                Rat::new(100, 1)
            },
            Pressure::Bars => {
                proof {
                    lemma_norm_pos((100000, 1));
                }
                Rat::new(100000, 1)
            },
            Pressure::Millibars => {
                proof {
                    lemma_norm_pos((100, 1));
                }
                Rat::new(100, 1)
            },
            Pressure::InchesHg => {
                proof {
                    lemma_norm_pos((3386389, 1000));
                }
                Rat::new(3386389, 1000)
            },
            Pressure::PoundsPerSquareInch => {
                proof {
                    lemma_norm_pos((6894757, 1000));
                }
                Rat::new(6894757, 1000)
            },
            Pressure::MillimetersHg => {
                proof {
                    lemma_norm_pos((133322, 1000));
                }
                Rat::new(133322, 1000)
            },
            Pressure::Atmospheres => {
                proof {
                    lemma_norm_pos((101325, 1));
                }
                Rat::new(101325, 1)
            },
        }
    }

    fn offset_from_base(&self) -> (r: Rat) {
        Rat::zero()
    }
}

#[derive(Debug, PartialEq, Eq, Clone, Copy)]
pub enum Volume {
    Liters,
    Milliliter,
    USCups,
    USPints,
    USQuarts,
    USOunces,
    USGallons,
    ImperialCups,
    ImperialPints,
    ImperialQuarts,
    ImperialOunces,
    ImperialGallons,
    USTeaspoons,
    USTablespoons,
    ImperialTeaspoons,
    ImperialTablespoons,
}

impl Unit for Volume {
    open spec fn factor_spec(&self) -> (int, int) {
        match self {
            Volume::Liters => q_norm((1, 1)),
            Volume::Milliliter => q_norm((1, 1000)),
            Volume::USCups => q_norm((236588, 1000000)),
            Volume::USPints => q_norm((473176, 1000000)),
            Volume::USQuarts => q_norm((946353, 1000000)),
            Volume::USOunces => q_norm((295735, 10000000)),
            Volume::USGallons => q_norm((378541, 100000)),
            Volume::ImperialCups => q_norm((284131, 1000000)),
            Volume::ImperialPints => q_norm((568261, 1000000)),
            Volume::ImperialQuarts => q_norm((113652, 100000)),
            Volume::ImperialOunces => q_norm((284131, 10000000)),
            Volume::ImperialGallons => q_norm((454609, 100000)),
            Volume::USTeaspoons => q_norm((4928922, 1000000000)),
            Volume::USTablespoons => q_norm((14786765, 1000000000)),
            Volume::ImperialTeaspoons => q_norm((591939, 100000000)),
            Volume::ImperialTablespoons => q_norm((177582, 10000000)),
        }
    }

    open spec fn offset_spec(&self) -> (int, int) {
        (0int, 1int)
    }

    fn multiplier_to_base(&self) -> (r: Rat) {
        match self {
            Volume::Liters => {
                proof {
                    lemma_norm_pos((1, 1));
                }
                Rat::new(1, 1)
            },
            Volume::Milliliter => {
                proof {
                    lemma_norm_pos((1, 1000));
                }
                Rat::new(1, 1000)
            },
            Volume::USCups => {
                proof {
                    lemma_norm_pos((236588, 1000000));
                }
                Rat::new(236588, 1000000)
            },
            Volume::USPints => {
                proof {
                    lemma_norm_pos((473176, 1000000));
                }
                Rat::new(473176, 1000000)
            },
            Volume::USQuarts => {
                proof {
                    lemma_norm_pos((946353, 1000000));
                }
                Rat::new(946353, 1000000)
            },
            Volume::USOunces => {
                proof {
                    lemma_norm_pos((295735, 10000000));
                }
                Rat::new(295735, 10000000)
            },
            Volume::USGallons => {
                proof {
                    lemma_norm_pos((378541, 100000));
                }
                Rat::new(378541, 100000)
            },
            Volume::ImperialCups => {
                proof {
                    lemma_norm_pos((284131, 1000000));
                }
                Rat::new(284131, 1000000)
            },
            Volume::ImperialPints => {
                proof {
                    lemma_norm_pos((568261, 1000000));
                }
                Rat::new(568261, 1000000)
            },
            Volume::ImperialQuarts => {
                proof {
                    lemma_norm_pos((113652, 100000));
                }
                Rat::new(113652, 100000)
            },
            Volume::ImperialOunces => {
                proof {
                    lemma_norm_pos((284131, 10000000));
                }
                Rat::new(284131, 10000000)
            },
            Volume::ImperialGallons => {
                proof {
                    lemma_norm_pos((454609, 100000));
                }
                Rat::new(454609, 100000)
            },
            Volume::USTeaspoons => {
                proof {
                    lemma_norm_pos((4928922, 1000000000));
                }
                Rat::new(4928922, 1000000000)
            },
            Volume::USTablespoons => {
                proof {
                    lemma_norm_pos((14786765, 1000000000));
                }
                Rat::new(14786765, 1000000000)
            },
            Volume::ImperialTeaspoons => {
                proof {
                    lemma_norm_pos((591939, 100000000));
                }
                Rat::new(591939, 100000000)
            },
            Volume::ImperialTablespoons => {
                proof {
                    lemma_norm_pos((177582, 10000000));
                }
                Rat::new(177582, 10000000)
            },
        }
    }

    fn offset_from_base(&self) -> (r: Rat) {
        Rat::zero()
    }
}

#[derive(Debug, PartialEq, Eq, Clone, Copy)]
pub enum Angle {
    Radians,
    Degrees,
}

impl Angle {
    /// An angle quantity in degrees.
    pub fn degrees(value: Rat) -> (r: Quantity<Angle>)
        requires
            value.wf(),
        ensures
            r.wf(),
            r.amount@ == value@,
            r.units == Angle::Degrees,
    {
        Quantity { amount: value, units: Angle::Degrees }
    }
}

impl Unit for Angle {
    open spec fn factor_spec(&self) -> (int, int) {
        match self {
            Angle::Radians => q_norm((1, 1)),
            Angle::Degrees => q_norm((17453292, 1000000000)),
        }
    }

    open spec fn offset_spec(&self) -> (int, int) {
        (0int, 1int)
    }

    fn multiplier_to_base(&self) -> (r: Rat) {
        match self {
            Angle::Radians => {
                proof {
                    lemma_norm_pos((1, 1));
                }
                Rat::new(1, 1)
            },
            Angle::Degrees => {
                proof {
                    lemma_norm_pos((17453292, 1000000000));
                }
                Rat::new(17453292, 1000000000)
            },
        }
    }

    fn offset_from_base(&self) -> (r: Rat) {
        Rat::zero()
    }
}

#[derive(Debug, PartialEq, Eq, Clone, Copy)]
pub enum CompassDirection {
    North,
    NorthEast,
    East,
    SouthEast,
    South,
    SouthWest,
    West,
    NorthWest,
}

impl CompassDirection {
    /// The direction's azimuth in whole degrees.
    pub open spec fn azimuth_spec(&self) -> int {
        match self {
            CompassDirection::North => 0,
            CompassDirection::NorthEast => 45,
            CompassDirection::East => 90,
            CompassDirection::SouthEast => 135,
            CompassDirection::South => 180,
            CompassDirection::SouthWest => 225,
            CompassDirection::West => 270,
            CompassDirection::NorthWest => 315,
        }
    }

    pub fn azimuth(&self) -> (r: Rat)
        ensures
            r.wf(),
            r@ == (self.azimuth_spec(), 1int),
    {
        match self {
            CompassDirection::North => Rat::from_int(0),
            CompassDirection::NorthEast => Rat::from_int(45),
            CompassDirection::East => Rat::from_int(90),
            CompassDirection::SouthEast => Rat::from_int(135),
            CompassDirection::South => Rat::from_int(180),
            CompassDirection::SouthWest => Rat::from_int(225),
            CompassDirection::West => Rat::from_int(270),
            CompassDirection::NorthWest => Rat::from_int(315),
        }
    }
}

} // verus!
