//! Helpers on single trip records: time of day, zones, rounding, validation.
use crate::error::ProcessingError;
use crate::models::TaxiTrip;
use vstd::prelude::*;
use vstd::string::*;

verus! {

/// Hour of day (0 to 23) of a UTC timestamp.
pub open spec fn hour_of(timestamp: i64) -> int {
    (timestamp as int % 86_400) / 3_600
}

/// Day of week of a UTC timestamp, counted from Monday (0) to Sunday (6).
/// The first day of 1970 was a Thursday.
pub open spec fn weekday_of(timestamp: i64) -> int {
    (timestamp as int / 86_400 + 3) % 7
}

/// Whole minutes from `pickup` to `dropoff`, rounded toward zero.
pub open spec fn minutes_between(pickup: i64, dropoff: i64) -> int {
    if dropoff >= pickup {
        (dropoff - pickup) / 60
    } else {
        -((pickup - dropoff) / 60)
    }
}

/// Hour of day (0 to 23) of a UTC timestamp.
pub fn hour_of_day(timestamp: i64) -> (hour: u32)
    ensures
        hour == hour_of(timestamp),
        hour < 24,
{
    let within_day: i64 = timestamp % 86_400;
    let seconds: i64 = if within_day < 0 {
        within_day + 86_400
    } else {
        within_day
    };
    (seconds / 3_600) as u32
}

/// Hour of day of a trip's pickup time.
pub fn get_hour_of_day(trip: &TaxiTrip) -> (r: Result<u8, ProcessingError>)
    ensures
        r is Ok,
        r->Ok_0 == hour_of(trip.pickup_datetime),
        r->Ok_0 < 24,
{
    Ok(hour_of_day(trip.pickup_datetime) as u8)
}

/// Day of week of a trip's pickup time, counted from Monday (0).
pub fn get_day_of_week(trip: &TaxiTrip) -> (r: Result<u8, ProcessingError>)
    ensures
        r is Ok,
        r->Ok_0 == weekday_of(trip.pickup_datetime),
        r->Ok_0 < 7,
{
    let whole: i64 = trip.pickup_datetime / 86_400;
    let days: i64 = if trip.pickup_datetime % 86_400 < 0 {
        whole - 1
    } else {
        whole
    };
    let shifted: i64 = (days + 3) % 7;
    let weekday: i64 = if shifted < 0 {
        shifted + 7
    } else {
        shifted
    };
    Ok(weekday as u8)
}

/// Duration of a trip in whole minutes, negative where the dropoff
/// precedes the pickup.
pub fn calculate_trip_duration(trip: &TaxiTrip) -> (r: Result<i64, ProcessingError>)
    ensures
        r is Ok,
        r->Ok_0 == minutes_between(trip.pickup_datetime, trip.dropoff_datetime),
{
    Ok(trip_minutes(trip.pickup_datetime, trip.dropoff_datetime))
}

/// Whole minutes from `pickup` to `dropoff`, rounded toward zero.
pub fn trip_minutes(pickup: i64, dropoff: i64) -> (minutes: i64)
    ensures
        minutes == minutes_between(pickup, dropoff),
{
    let from: i128 = pickup as i128;
    let to: i128 = dropoff as i128;
    if to >= from {
        ((to - from) / 60) as i64
    } else {
        (-((from - to) / 60)) as i64
    }
}

/// A named region of the city, in the order in which the regions are tested.
#[derive(Debug, Clone, Copy, PartialEq, Eq, Structural)]
pub enum Zone {
    JfkAirport,
    LaGuardiaAirport,
    Manhattan,
    Bronx,
    Brooklyn,
    Queens,
    StatenIsland,
    NycOther,
    Unknown,
}

/// Number of zones.
pub const ZONE_COUNT: usize = 9;

impl Zone {
    /// Name of the zone as it appears in reports.
    pub open spec fn name_spec(self) -> Seq<char> {
        match self {
            Zone::JfkAirport => "JFK_Airport"@,
            Zone::LaGuardiaAirport => "LaGuardia_Airport"@,
            Zone::Manhattan => "Manhattan"@,
            Zone::Bronx => "Bronx"@,
            Zone::Brooklyn => "Brooklyn"@,
            Zone::Queens => "Queens"@,
            Zone::StatenIsland => "Staten_Island"@,
            Zone::NycOther => "NYC_Other"@,
            Zone::Unknown => "Unknown"@,
        }
    }

    /// Position of the zone in the order of testing.
    pub open spec fn index_spec(self) -> int {
        match self {
            Zone::JfkAirport => 0,
            Zone::LaGuardiaAirport => 1,
            Zone::Manhattan => 2,
            Zone::Bronx => 3,
            Zone::Brooklyn => 4,
            Zone::Queens => 5,
            Zone::StatenIsland => 6,
            Zone::NycOther => 7,
            Zone::Unknown => 8,
        }
    }

    /// The zone at a position; positions past the last give `Unknown`.
    pub open spec fn at_spec(index: int) -> Zone {
        if index == 0 {
            Zone::JfkAirport
        } else if index == 1 {
            Zone::LaGuardiaAirport
        } else if index == 2 {
            Zone::Manhattan
        } else if index == 3 {
            Zone::Bronx
        } else if index == 4 {
            Zone::Brooklyn
        } else if index == 5 {
            Zone::Queens
        } else if index == 6 {
            Zone::StatenIsland
        } else if index == 7 {
            Zone::NycOther
        } else {
            Zone::Unknown
        }
    }

    /// Name of the zone as it appears in reports.
    pub fn name(self) -> (text: String)
        ensures
            text@ == self.name_spec(),
    {
        match self {
            Zone::JfkAirport => String::from_str("JFK_Airport"),
            Zone::LaGuardiaAirport => String::from_str("LaGuardia_Airport"),
            Zone::Manhattan => String::from_str("Manhattan"),
            Zone::Bronx => String::from_str("Bronx"),
            Zone::Brooklyn => String::from_str("Brooklyn"),
            Zone::Queens => String::from_str("Queens"),
            Zone::StatenIsland => String::from_str("Staten_Island"),
            Zone::NycOther => String::from_str("NYC_Other"),
            Zone::Unknown => String::from_str("Unknown"),
        }
    }

    /// Position of the zone in the order of testing.
    pub fn index(self) -> (position: usize)
        ensures
            position == self.index_spec(),
            position < ZONE_COUNT,
            Zone::at_spec(position as int) == self,
    {
        match self {
            Zone::JfkAirport => 0,
            Zone::LaGuardiaAirport => 1,
            Zone::Manhattan => 2,
            Zone::Bronx => 3,
            Zone::Brooklyn => 4,
            Zone::Queens => 5,
            Zone::StatenIsland => 6,
            Zone::NycOther => 7,
            Zone::Unknown => 8,
        }
    }

    /// The zone at a position; positions past the last give `Unknown`.
    pub fn at(index: usize) -> (zone: Zone)
        ensures
            zone == Zone::at_spec(index as int),
            index < ZONE_COUNT ==> zone.index_spec() == index,
    {
        if index == 0 {
            Zone::JfkAirport
        } else if index == 1 {
            Zone::LaGuardiaAirport
        } else if index == 2 {
            Zone::Manhattan
        } else if index == 3 {
            Zone::Bronx
        } else if index == 4 {
            Zone::Brooklyn
        } else if index == 5 {
            Zone::Queens
        } else if index == 6 {
            Zone::StatenIsland
        } else if index == 7 {
            Zone::NycOther
        } else {
            Zone::Unknown
        }
    }
}

/// Whether a point lies in a box given by its bounds, which belong to it.
pub open spec fn in_box(lat: i64, lng: i64, south: int, north: int, west: int, east: int) -> bool {
    south <= lat <= north && west <= lng <= east
}

/// The zone of a point given in millionths of a degree.
///
/// A zero coordinate, or a point outside the coarse box around the city, is
/// `Unknown`. Otherwise the first named box that holds the point decides;
/// the boxes overlap, and the airports come before the boroughs. Every
/// other point of the coarse box is `NycOther`.
pub open spec fn zone_of(lat: i64, lng: i64) -> Zone {
    if lat == 0 || lng == 0 || !in_box(lat, lng, 40_000_000, 41_500_000, -75_000_000, -73_000_000) {
        Zone::Unknown
    } else if in_box(lat, lng, 40_635_000, 40_655_000, -73_795_000, -73_755_000) {
        Zone::JfkAirport
    } else if in_box(lat, lng, 40_755_000, 40_785_000, -73_895_000, -73_855_000) {
        Zone::LaGuardiaAirport
    } else if in_box(lat, lng, 40_695_000, 40_805_000, -74_025_000, -73_895_000) {
        Zone::Manhattan
    } else if in_box(lat, lng, 40_785_000, 40_925_000, -73_935_000, -73_755_000) {
        Zone::Bronx
    } else if in_box(lat, lng, 40_565_000, 40_745_000, -74_045_000, -73_825_000) {
        Zone::Brooklyn
    } else if in_box(lat, lng, 40_535_000, 40_805_000, -73_850_000, -73_695_000) {
        Zone::Queens
    } else if in_box(lat, lng, 40_475_000, 40_655_000, -74_265_000, -74_045_000) {
        Zone::StatenIsland
    } else {
        Zone::NycOther
    }
}

/// Whether a point lies in a box given by its bounds, which belong to it.
fn within(lat: i64, lng: i64, south: i64, north: i64, west: i64, east: i64) -> (inside: bool)
    ensures
        inside == in_box(lat, lng, south as int, north as int, west as int, east as int),
{
    south <= lat && lat <= north && west <= lng && lng <= east
}

/// The zone of a point given in millionths of a degree.
pub fn classify_zone(lat: i64, lng: i64) -> (zone: Zone)
    ensures
        zone == zone_of(lat, lng),
{
    if lat == 0 || lng == 0 || !within(lat, lng, 40_000_000, 41_500_000, -75_000_000, -73_000_000) {
        return Zone::Unknown;
    }
    if within(lat, lng, 40_635_000, 40_655_000, -73_795_000, -73_755_000) {
        return Zone::JfkAirport;
    }
    if within(lat, lng, 40_755_000, 40_785_000, -73_895_000, -73_855_000) {
        return Zone::LaGuardiaAirport;
    }
    if within(lat, lng, 40_695_000, 40_805_000, -74_025_000, -73_895_000) {
        return Zone::Manhattan;
    }
    if within(lat, lng, 40_785_000, 40_925_000, -73_935_000, -73_755_000) {
        return Zone::Bronx;
    }
    if within(lat, lng, 40_565_000, 40_745_000, -74_045_000, -73_825_000) {
        return Zone::Brooklyn;
    }
    if within(lat, lng, 40_535_000, 40_805_000, -73_850_000, -73_695_000) {
        return Zone::Queens;
    }
    if within(lat, lng, 40_475_000, 40_655_000, -74_265_000, -74_045_000) {
        return Zone::StatenIsland;
    }
    Zone::NycOther
}

/// Name of the zone of a point given in millionths of a degree.
pub fn get_zone_id(lat: i64, lng: i64) -> (name: String)
    ensures
        name@ == zone_of(lat, lng).name_spec(),
{
    classify_zone(lat, lng).name()
}

/// The multiple of one `unit` nearest to `value`, counted in units; a value
/// halfway between two multiples goes to the one farther from zero.
pub open spec fn round_half_away(value: int, unit: int) -> int {
    let size = if value >= 0 {
        value
    } else {
        -value
    };
    let whole = size / unit;
    let nearest = if 2 * (size % unit) >= unit {
        whole + 1
    } else {
        whole
    };
    if value >= 0 {
        nearest
    } else {
        -nearest
    }
}

/// Rounding a quotient never gives more than the value that was divided.
pub proof fn lemma_round_within(value: int, unit: int)
    requires
        unit > 0,
    ensures
        value >= 0 ==> 0 <= round_half_away(value, unit) <= value,
        value < 0 ==> value <= round_half_away(value, unit) <= 0,
{
    let size = if value >= 0 {
        value
    } else {
        -value
    };
    let whole = size / unit;
    let rest = size % unit;
    assert(size == unit * whole + rest) by {
        vstd::arithmetic::div_mod::lemma_fundamental_div_mod(size, unit);
    }
    assert(0 <= whole && unit * whole >= whole) by (nonlinear_arith)
        requires
            unit > 0,
            size >= 0,
            whole == size / unit,
    ;
}

/// Size of a number, without its sign.
pub fn magnitude(value: i128) -> (size: u128)
    ensures
        size == if value >= 0 {
            value as int
        } else {
            -(value as int)
        },
{
    if value >= 0 {
        value as u128
    } else {
        (-(value + 1)) as u128 + 1
    }
}

/// Divides a size by a unit and rounds to the nearest whole, halves upward.
pub fn round_size(size: u128, unit: u128) -> (nearest: u128)
    requires
        unit > 0,
    ensures
        nearest == round_half_away(size as int, unit as int),
        nearest <= size,
{
    let whole: u128 = size / unit;
    let rest: u128 = size % unit;
    proof {
        assert(size == unit * whole + rest) by (nonlinear_arith)
            requires
                whole == size / unit,
                rest == size % unit,
                unit > 0,
        ;
        assert(rest > 0 ==> unit * whole + rest >= whole + 1) by (nonlinear_arith)
            requires
                unit > 0,
                rest < unit,
        ;
        assert(unit * whole >= whole) by (nonlinear_arith)
            requires
                unit > 0,
        ;
    }
    if rest >= unit - rest {
        whole + 1
    } else {
        whole
    }
}

/// Largest scale that `rounded_ratio` takes.
pub const SCALE_LIMIT: u128 = 10_000;

/// Largest unit that `rounded_ratio` takes.
pub const UNIT_LIMIT: u128 = 0x1_0000_0000_0000_0000_0000;

/// Largest quotient that `rounded_ratio` takes.
pub const QUOTIENT_LIMIT: u128 = 0x1_0000_0000_0000_0000;

/// Scaling a size before dividing moves the whole part out of the rounding.
pub proof fn lemma_round_scaled(size: int, scale: int, unit: int)
    requires
        size >= 0,
        scale > 0,
        unit > 0,
    ensures
        round_half_away(scale * size, unit) == scale * (size / unit) + round_half_away(
            scale * (size % unit),
            unit,
        ),
{
    let whole = size / unit;
    let rest = size % unit;
    let scaled = scale * rest;
    assert(size == unit * whole + rest) by {
        vstd::arithmetic::div_mod::lemma_fundamental_div_mod(size, unit);
    }
    assert(scaled >= 0) by (nonlinear_arith)
        requires
            scaled == scale * rest,
            scale > 0,
            rest >= 0,
    ;
    assert(scaled == unit * (scaled / unit) + scaled % unit) by {
        vstd::arithmetic::div_mod::lemma_fundamental_div_mod(scaled, unit);
    }
    let quotient = scale * whole + scaled / unit;
    assert(scale * size == quotient * unit + scaled % unit) by (nonlinear_arith)
        requires
            size == unit * whole + rest,
            scaled == scale * rest,
            scaled == unit * (scaled / unit) + scaled % unit,
            quotient == scale * whole + scaled / unit,
    ;
    assert(scale * size >= 0) by (nonlinear_arith)
        requires
            scale > 0,
            size >= 0,
    ;
    vstd::arithmetic::div_mod::lemma_fundamental_div_mod_converse(
        scale * size,
        unit,
        quotient,
        scaled % unit,
    );
}

/// `scale * total / unit`, rounded to the nearest whole, halves away from zero.
/// The scale, the unit and the quotient are limited so that no step leaves
/// the range of 128 bits.
pub fn rounded_ratio(total: i128, scale: u128, unit: u128) -> (ratio: i128)
    requires
        0 < scale <= SCALE_LIMIT,
        0 < unit <= UNIT_LIMIT,
        -(QUOTIENT_LIMIT * unit) <= total <= QUOTIENT_LIMIT * unit,
    ensures
        ratio == round_half_away(scale * total, unit as int),
{
    let size: u128 = magnitude(total);
    let whole: u128 = size / unit;
    let rest: u128 = size % unit;
    proof {
        assert(whole <= QUOTIENT_LIMIT) by (nonlinear_arith)
            requires
                whole == size / unit,
                unit > 0,
                size <= QUOTIENT_LIMIT * unit,
        ;
        assert(scale * rest <= SCALE_LIMIT * UNIT_LIMIT) by (nonlinear_arith)
            requires
                scale <= SCALE_LIMIT,
                rest < unit,
                unit <= UNIT_LIMIT,
        ;
        assert(scale * whole <= SCALE_LIMIT * QUOTIENT_LIMIT) by (nonlinear_arith)
            requires
                scale <= SCALE_LIMIT,
                whole <= QUOTIENT_LIMIT,
        ;
        lemma_round_scaled(size as int, scale as int, unit as int);
    }
    let part: u128 = round_size(scale * rest, unit);
    let nearest: u128 = scale * whole + part;
    proof {
        let value: int = scale * total;
        let scaled_size: int = scale * size;
        assert(nearest == round_half_away(scaled_size, unit as int));
        if total < 0 {
            assert(value == -scaled_size && scaled_size > 0) by (nonlinear_arith)
                requires
                    value == scale * total,
                    scaled_size == scale * size,
                    size == -total,
                    total < 0,
                    scale > 0,
            ;
        } else {
            assert(value == scaled_size && value >= 0) by (nonlinear_arith)
                requires
                    value == scale * total,
                    scaled_size == scale * size,
                    size == total,
                    total >= 0,
                    scale > 0,
            ;
        }
    }
    if total >= 0 {
        nearest as i128
    } else {
        -(nearest as i128)
    }
}

/// A sum over `trips` 64-bit values can be averaged by `rounded_ratio`,
/// with any divisor that is a multiple of the number of trips.
pub proof fn lemma_average_in_range(sum: int, trips: nat)
    requires
        crate::tally::within_limit(sum, trips),
        0 < trips <= usize::MAX,
    ensures
        -(QUOTIENT_LIMIT * trips) <= sum <= QUOTIENT_LIMIT * trips,
        -(QUOTIENT_LIMIT * (10_000 * trips)) <= sum <= QUOTIENT_LIMIT * (10_000 * trips),
        10_000 * trips <= UNIT_LIMIT,
{
    assert(trips * crate::tally::VALUE_LIMIT <= QUOTIENT_LIMIT * trips) by (nonlinear_arith);
    assert(QUOTIENT_LIMIT * trips <= QUOTIENT_LIMIT * (10_000 * trips)) by (nonlinear_arith);
}

/// `total / unit`, rounded to the nearest whole, halves away from zero.
pub fn rounded_quotient(total: i128, unit: u128) -> (quotient: i128)
    requires
        unit > 0,
    ensures
        quotient == round_half_away(total as int, unit as int),
{
    let nearest: u128 = round_size(magnitude(total), unit);
    if total >= 0 {
        nearest as i128
    } else if nearest > i128::MAX as u128 {
        i128::MIN
    } else {
        -(nearest as i128)
    }
}

/// Rounds a value given in millionths to hundredths, halves away from zero.
pub fn round_to_2_decimals(value: i64) -> (rounded: i64)
    ensures
        rounded == round_half_away(value as int, 10_000),
{
    rounded_quotient(value as i128, 10_000) as i64
}

/// The items in the opposite order.
pub fn reversed<T>(items: Vec<T>) -> (turned: Vec<T>)
    ensures
        turned@.len() == items@.len(),
        forall|i: int| 0 <= i < items@.len() ==> turned@[i] == items@[items@.len() - 1 - i],
{
    let ghost all = items@;
    let mut rest = items;
    let mut turned: Vec<T> = Vec::new();
    while rest.len() > 0
        invariant
            rest@.len() + turned@.len() == all.len(),
            forall|i: int| 0 <= i < rest@.len() ==> rest@[i] == all[i],
            forall|i: int| 0 <= i < turned@.len() ==> turned@[i] == all[all.len() - 1 - i],
        decreases rest@.len(),
    {
        match rest.pop() {
            Some(item) => {
                turned.push(item);
            },
            None => {},
        }
    }
    turned
}

/// The character of a decimal digit.
pub open spec fn digit_char(digit: int) -> char {
    if digit == 0 {
        '0'
    } else if digit == 1 {
        '1'
    } else if digit == 2 {
        '2'
    } else if digit == 3 {
        '3'
    } else if digit == 4 {
        '4'
    } else if digit == 5 {
        '5'
    } else if digit == 6 {
        '6'
    } else if digit == 7 {
        '7'
    } else if digit == 8 {
        '8'
    } else {
        '9'
    }
}

/// The decimal digits of a number, without leading zeros.
pub open spec fn decimal_digits(value: nat) -> Seq<char>
    decreases value,
{
    if value < 10 {
        seq![digit_char(value as int)]
    } else {
        decimal_digits(value / 10).push(digit_char((value % 10) as int))
    }
}

/// A number written in decimal, with a minus sign where it is negative.
pub open spec fn decimal_text(value: int) -> Seq<char> {
    if value < 0 {
        seq!['-'] + decimal_digits((-value) as nat)
    } else {
        decimal_digits(value as nat)
    }
}

/// A decimal digit as text.
fn digit_text(digit: u32) -> (text: &'static str)
    requires
        digit < 10,
    ensures
        text@ == seq![digit_char(digit as int)],
{
    proof {
        reveal_strlit("0");
        reveal_strlit("1");
        reveal_strlit("2");
        reveal_strlit("3");
        reveal_strlit("4");
        reveal_strlit("5");
        reveal_strlit("6");
        reveal_strlit("7");
        reveal_strlit("8");
        reveal_strlit("9");
    }
    let text = if digit == 0 {
        "0"
    } else if digit == 1 {
        "1"
    } else if digit == 2 {
        "2"
    } else if digit == 3 {
        "3"
    } else if digit == 4 {
        "4"
    } else if digit == 5 {
        "5"
    } else if digit == 6 {
        "6"
    } else if digit == 7 {
        "7"
    } else if digit == 8 {
        "8"
    } else {
        "9"
    };
    assert(text@ =~= seq![digit_char(digit as int)]);
    text
}

/// The decimal digits of a number, without leading zeros.
fn digits(value: u32) -> (text: String)
    ensures
        text@ == decimal_digits(value as nat),
    decreases value,
{
    if value < 10 {
        String::from_str(digit_text(value))
    } else {
        let text = digits(value / 10).concat(digit_text(value % 10));
        assert(text@ =~= decimal_digits(value as nat));
        text
    }
}

/// Writes a number in decimal, with a minus sign where it is negative.
pub fn decimal(value: i32) -> (text: String)
    ensures
        text@ == decimal_text(value as int),
{
    if value < 0 {
        proof {
            reveal_strlit("-");
        }
        let size: u32 = (-(value as i64)) as u32;
        let text = String::from_str("-").concat(digits(size).as_str());
        assert(text@ =~= decimal_text(value as int));
        text
    } else {
        digits(value as u32)
    }
}

/// Whether a record passes validation: a known vendor, and neither a
/// negative distance nor a negative total.
pub open spec fn is_valid_trip(trip: TaxiTrip) -> bool {
    trip.trip_distance >= 0 && (trip.vendor_id == 1 || trip.vendor_id == 2) && trip.total_amount
        >= 0
}

/// What validation reports for a record that it rejects: the first rule
/// broken, in the order distance, vendor, total.
pub open spec fn is_rejection(trip: TaxiTrip, error: ProcessingError) -> bool {
    &&& error is Validation
    &&& if trip.trip_distance < 0 {
        error.detail() == "Trip distance cannot be negative"@
    } else if !(trip.vendor_id == 1 || trip.vendor_id == 2) {
        error.detail() == "Invalid vendor ID: "@ + decimal_text(trip.vendor_id as int)
    } else {
        error.detail() == "Total amount cannot be negative"@
    }
}

/// Checks a record against the domain rules.
pub fn validate_trip(trip: &TaxiTrip) -> (r: Result<(), ProcessingError>)
    ensures
        r is Ok <==> is_valid_trip(*trip),
        r is Err ==> is_rejection(*trip, r->Err_0),
{
    if trip.trip_distance < 0 {
        return Err(
            ProcessingError::Validation {
                message: String::from_str("Trip distance cannot be negative"),
            },
        );
    }
    if !(trip.vendor_id == 1 || trip.vendor_id == 2) {
        return Err(
            ProcessingError::Validation {
                message: String::from_str("Invalid vendor ID: ").concat(
                    decimal(trip.vendor_id).as_str(),
                ),
            },
        );
    }
    if trip.total_amount < 0 {
        return Err(
            ProcessingError::Validation {
                message: String::from_str("Total amount cannot be negative"),
            },
        );
    }
    Ok(())
}

/// What a text holds when read as a date and time in a given format: the
/// seconds since 1970-01-01 00:00:00 UTC, or nothing where it does not parse.
pub uninterp spec fn parsed_timestamp(text: Seq<char>, format: Seq<char>) -> Option<i64>;

/// Calls `chrono::NaiveDateTime::parse_from_str` and takes the result as a
/// UTC timestamp (`and_utc().timestamp()`). Nothing is proved of the parser:
/// the contract only names what it returns for a text and a format.
#[verifier::external_body]
fn read_timestamp(text: &str, format: &str) -> (parsed: Option<i64>)
    ensures
        parsed == parsed_timestamp(text@, format@),
{
    match chrono::NaiveDateTime::parse_from_str(text, format) {
        Ok(moment) => Some(moment.and_utc().timestamp()),
        Err(_) => None,
    }
}

/// What parsing a text yields, given what the parser made of it.
pub open spec fn is_datetime_outcome(
    parsed: Option<i64>,
    text: Seq<char>,
    r: Result<i64, ProcessingError>,
) -> bool {
    match parsed {
        Some(timestamp) => r is Ok && r->Ok_0 == timestamp,
        None => r is Err && r->Err_0 is Validation && r->Err_0.detail()
            == "Invalid datetime format: "@ + text,
    }
}

/// Turns what the parser made of a text into the library's result.
pub fn datetime_outcome(parsed: Option<i64>, text: &str) -> (r: Result<i64, ProcessingError>)
    ensures
        is_datetime_outcome(parsed, text@, r),
{
    match parsed {
        Some(timestamp) => Ok(timestamp),
        None => Err(
            ProcessingError::Validation {
                message: String::from_str("Invalid datetime format: ").concat(text),
            },
        ),
    }
}

/// Parses a date and time written as `YYYY-MM-DD HH:MM:SS`.
pub fn parse_datetime(datetime_str: &str) -> (r: Result<i64, ProcessingError>)
    ensures
        is_datetime_outcome(
            parsed_timestamp(datetime_str@, "%Y-%m-%d %H:%M:%S"@),
            datetime_str@,
            r,
        ),
{
    datetime_outcome(read_timestamp(datetime_str, "%Y-%m-%d %H:%M:%S"), datetime_str)
}

/// Whether an hour of day falls into the morning or evening rush.
pub fn is_peak_hour(hour: u8) -> (peak: bool)
    ensures
        peak <==> (7 <= hour <= 9 || 17 <= hour <= 19),
{
    (7 <= hour && hour <= 9) || (17 <= hour && hour <= 19)
}

} // verus!
