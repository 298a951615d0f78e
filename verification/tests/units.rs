use mathkit::rat::Rat;
use mathkit::units::Angle;
use mathkit::units::CompassDirection;
use mathkit::units::Convertable;
use mathkit::units::Distance;
use mathkit::units::Pressure;
use mathkit::units::Quantity;
use mathkit::units::Temperature;
use mathkit::units::Time;
use mathkit::units::Volume;
use mathkit::units::Weight;

fn amount_f64<U: mathkit::units::Unit>(q: &Quantity<U>) -> f64 {
    q.amount.num() as f64 / q.amount.den() as f64
}

fn ur(n: i64) -> Rat {
    Rat::from_int(n)
}

#[test]
fn can_convert_between_distance_units() {
    let cases: Vec<(i64, Distance, Distance, f64)> = vec![
        (1, Distance::Meters, Distance::Meters, 1.0),
        (1, Distance::Meters, Distance::Kilometers, 0.001),
        (1, Distance::Meters, Distance::Miles, 0.000621371),
        (1, Distance::Meters, Distance::Feet, 3.28084),
        (1, Distance::Kilometers, Distance::Meters, 1000.0),
        (1, Distance::Miles, Distance::Meters, 1609.344),
        (1, Distance::NauticalMiles, Distance::Meters, 1852.0),
        (1, Distance::Feet, Distance::Inches, 12.0),
        (1, Distance::Yards, Distance::Feet, 3.0),
        (1, Distance::Miles, Distance::Feet, 5280.0),
        (1, Distance::Centimeters, Distance::Meters, 0.01),
        (1, Distance::Millimeters, Distance::Meters, 0.001),
    ];
    for (amount, from, to, expected) in cases {
        let q = Quantity { amount: ur(amount), units: from };
        let out = q.convert(to);
        assert!((amount_f64(&out) - expected).abs() <= 1e-4);
        assert_eq!(out.units, to);
    }
}

#[test]
fn can_convert_between_temperature_units() {
    let cases: Vec<(i64, Temperature, Temperature, f64)> = vec![
        (1, Temperature::Celsius, Temperature::Celsius, 1.0),
        (1, Temperature::Celsius, Temperature::Fahrenheit, 33.8),
        (1, Temperature::Fahrenheit, Temperature::Fahrenheit, 1.0),
        (-40, Temperature::Fahrenheit, Temperature::Celsius, -40.0),
        (-40, Temperature::Celsius, Temperature::Fahrenheit, -40.0),
    ];
    for (amount, from, to, expected) in cases {
        let q = Quantity { amount: ur(amount), units: from };
        let out = q.convert(to);
        assert!((amount_f64(&out) - expected).abs() <= 1e-4);
        assert_eq!(out.units, to);
    }
}

#[test]
fn can_convert_between_time_units() {
    let cases: Vec<(i64, Time, Time, f64)> = vec![
        (1, Time::Seconds, Time::Milliseconds, 1000.0),
        (1, Time::Minutes, Time::Seconds, 60.0),
        (1, Time::Hours, Time::Seconds, 3600.0),
        (1, Time::Days, Time::Seconds, 86400.0),
        (86400, Time::Seconds, Time::Days, 1.0),
        (24, Time::Hours, Time::Days, 1.0),
        (1, Time::Minutes, Time::Milliseconds, 60000.0),
    ];
    for (amount, from, to, expected) in cases {
        let q = Quantity { amount: ur(amount), units: from };
        let out = q.convert(to);
        assert!((amount_f64(&out) - expected).abs() <= 1e-2);
        assert_eq!(out.units, to);
    }
}

#[test]
fn can_convert_between_weight_units() {
    let cases: Vec<(i64, Weight, Weight, f64)> = vec![
        (2, Weight::Pounds, Weight::Kilograms, 0.907184),
        (3, Weight::Kilograms, Weight::Grams, 3000.0),
        (4, Weight::Ounces, Weight::Pounds, 0.25),
        (4, Weight::Grams, Weight::Ounces, 0.141096),
    ];
    for (amount, from, to, expected) in cases {
        let q = Quantity { amount: ur(amount), units: from };
        let out = q.convert(to);
        assert!((amount_f64(&out) - expected).abs() <= 1e-2);
        assert_eq!(out.units, to);
    }
}

#[test]
fn can_convert_between_volume_units() {
    let cases: Vec<(i64, Volume, Volume, f64)> = vec![
        (2, Volume::Liters, Volume::USGallons, 0.528344),
        (3, Volume::USGallons, Volume::Liters, 11.3562),
        (4, Volume::USPints, Volume::USQuarts, 2.0),
        (1, Volume::ImperialQuarts, Volume::Milliliter, 1136.52),
        (1, Volume::USTablespoons, Volume::USTeaspoons, 3.0),
        (1, Volume::ImperialTablespoons, Volume::ImperialTeaspoons, 3.0),
    ];
    for (amount, from, to, expected) in cases {
        let q = Quantity { amount: ur(amount), units: from };
        let out = q.convert(to);
        assert!((amount_f64(&out) - expected).abs() <= 1e-2);
        assert_eq!(out.units, to);
    }
}

#[test]
fn can_convert_between_pressure_units() {
    let cases: Vec<(i64, Pressure, Pressure, f64)> = vec![
        (1, Pressure::Pascals, Pressure::Hectopascals, 0.01),
        (1, Pressure::Bars, Pressure::Pascals, 100000.0),
        (1, Pressure::InchesHg, Pressure::Pascals, 3386.389),
        (1, Pressure::Atmospheres, Pressure::Pascals, 101325.0),
        (1, Pressure::Millibars, Pressure::Hectopascals, 1.0),
        (1, Pressure::Atmospheres, Pressure::Bars, 1.01325),
    ];
    for (amount, from, to, expected) in cases {
        let q = Quantity { amount: ur(amount), units: from };
        let out = q.convert(to);
        assert!((amount_f64(&out) - expected).abs() <= 1e-4);
        assert_eq!(out.units, to);
    }
}

#[test]
fn can_convert_between_angle_units() {
    let q = Angle::degrees(ur(180));
    let out = q.convert(Angle::Radians);
    assert!((amount_f64(&out) - 3.14159).abs() <= 1e-4);
    let q = Quantity { amount: ur(1), units: Angle::Radians };
    let out = q.convert(Angle::Degrees);
    assert!((amount_f64(&out) - 57.29578).abs() <= 1e-3);
}

#[test]
fn test_compass_azimuths() {
    let cases: Vec<(CompassDirection, i64)> = vec![
        (CompassDirection::North, 0),
        (CompassDirection::NorthEast, 45),
        (CompassDirection::East, 90),
        (CompassDirection::SouthEast, 135),
        (CompassDirection::South, 180),
        (CompassDirection::SouthWest, 225),
        (CompassDirection::West, 270),
        (CompassDirection::NorthWest, 315),
    ];
    for (dir, expected) in cases {
        assert_eq!(dir.azimuth().num(), expected);
        assert_eq!(dir.azimuth().den(), 1);
    }
}

#[test]
fn test_quantity_mul_f64() {
    let q = Quantity { amount: ur(10), units: Time::Seconds };
    let out = q.mul(&ur(2)).unwrap();
    assert!(out.amount.eqv(&ur(20)));
    assert_eq!(out.units, Time::Seconds);
}

#[test]
fn test_f64_mul_quantity() {
    let q = Quantity { amount: ur(10), units: Time::Seconds };
    let out = q.mul(&ur(2)).unwrap();
    assert!(out.amount.eqv(&ur(20)));
    assert_eq!(out.units, Time::Seconds);
}

#[test]
fn test_quantity_div_f64() {
    let q = Quantity { amount: ur(10), units: Time::Seconds };
    let out = q.div(&ur(2)).unwrap();
    assert!(out.amount.eqv(&ur(5)));
    assert_eq!(out.units, Time::Seconds);
}

#[test]
fn test_quantity_add() {
    let q1 = Quantity { amount: ur(10), units: Time::Seconds };
    let q2 = Quantity { amount: ur(20), units: Time::Seconds };
    let out = q1.add(&q2);
    assert!(out.amount.eqv(&ur(30)));
    assert_eq!(out.units, Time::Seconds);
}

#[test]
fn test_quantity_add_different_units() {
    let q1 = Quantity { amount: ur(10), units: Time::Minutes };
    let q2 = Quantity { amount: ur(20), units: Time::Minutes };
    let out = q1.add(&q2);
    assert!(out.amount.eqv(&ur(30)));
    assert_eq!(out.units, Time::Minutes);
}

#[test]
fn test_quantity_sub() {
    let q1 = Quantity { amount: ur(30), units: Time::Seconds };
    let q2 = Quantity { amount: ur(20), units: Time::Seconds };
    let out = q1.sub(&q2);
    assert!(out.amount.eqv(&ur(10)));
    assert_eq!(out.units, Time::Seconds);
}

#[test]
fn test_quantity_sub_different_units() {
    let q1 = Quantity { amount: ur(30), units: Time::Minutes };
    let q2 = Quantity { amount: ur(20), units: Time::Minutes };
    let out = q1.sub(&q2);
    assert!(out.amount.eqv(&ur(10)));
    assert_eq!(out.units, Time::Minutes);
}
