//! The records of a timetable feed, and how each is read from the fields of
//! one line of its file.

use crate::models::time::clock_of;
use crate::models::CSTime;
use crate::outside::{date_of, field_at, read_date, record_fields};
use crate::text::{number_of, parse_number, same_text};
use vstd::pervasive::unreached;
use csv::StringRecord;
use vstd::prelude::*;

verus! {

/// Why a line could not be read as a record.
#[derive(Debug, Clone, Copy, PartialEq, Eq, Structural)]
pub enum RecordError {
    /// The line has no field at this index.
    MissingField(usize),
    /// The field at this index does not hold what the record needs there.
    InvalidField(usize),
}

/// Whether a calendar date adds a service or takes it away.
#[derive(Debug, Clone, Copy, PartialEq, Eq, Structural)]
pub enum ExceptionType {
    ADDED,
    REMOVED,
}

/// A day of the calendar.
#[derive(Debug, Clone, Copy, PartialEq, Eq, Structural)]
pub struct Date {
    pub year: i32,
    pub month: u32,
    pub day: u32,
}

/// One exception of the service calendar: on this date the service runs, or
/// does not run.
#[derive(Debug, Clone, PartialEq, Eq)]
pub struct CalendarDate {
    pub service_id: String,
    pub date: Date,
    pub exception_type: ExceptionType,
}

/// The kind of vehicle that serves a route.
#[derive(Debug, Clone, Copy, PartialEq, Eq, Structural)]
pub enum RouteType {
    TRAM,
    METRO,
    RAIL,
    BUS,
    FERRY,
    CABLETRAM,
    AERIALLIFT,
    FUNICULAR,
    TROLLEYBUS,
    MONORAIL,
}

/// A line of service that trips run on.
#[derive(Debug, Clone, PartialEq, Eq)]
pub struct Route {
    pub id: String,
    pub agency_id: String,
    pub route_short_name: String,
    pub route_long_name: String,
    pub route_type: RouteType,
}

/// One call of a trip at a stop.
#[derive(Debug, Clone, PartialEq, Eq)]
pub struct StopTime {
    pub trip_id: String,
    pub stop_sequence: usize,
    pub stop_id: String,
    pub arrival_time: CSTime,
    pub departure_time: CSTime,
}

/// What kind of place a stop record describes.
#[derive(Debug, Clone, Copy, PartialEq, Eq, Structural)]
pub enum LocationType {
    STOP,
    STATION,
    ENTRANCE,
    GENERIC,
    BOARDINGAREA,
}

/// A place where vehicles call: one platform of a station. Platforms of one
/// station share their name.
#[derive(Debug, Clone, PartialEq, Eq)]
pub struct Stop {
    pub id: String,
    pub stop_name: String,
    pub location_type: LocationType,
    pub parent_station: String,
    pub platform_code: String,
}

/// How a traveller may change between two stops.
#[derive(Debug, Clone, Copy, PartialEq, Eq, Structural)]
pub enum TransferType {
    RECOMMENDED,
    TIMED,
    MINIMUMTIME,
    NONE,
    INSEAT,
    REBOARD,
}

/// The stops in walking reach of one stop.
#[derive(Debug, Clone, PartialEq, Eq)]
pub struct Transfer {
    pub from_stop: String,
    pub to_stops: Vec<String>,
}

/// One run of a vehicle along a route.
#[derive(Debug, Clone, PartialEq, Eq)]
pub struct Trip {
    pub id: String,
    pub route_id: String,
    pub service_id: String,
    pub trip_headsign: String,
    pub trip_short_name: String,
    pub trip_long_name: String,
}

/// What a [`CalendarDate`] holds.
pub struct CalendarDateData {
    pub service_id: Seq<char>,
    pub date: Date,
    pub exception_type: ExceptionType,
}

/// What a [`Route`] holds.
pub struct RouteData {
    pub id: Seq<char>,
    pub agency_id: Seq<char>,
    pub route_short_name: Seq<char>,
    pub route_long_name: Seq<char>,
    pub route_type: RouteType,
}

/// What a [`StopTime`] holds.
pub struct StopTimeData {
    pub trip_id: Seq<char>,
    pub stop_sequence: usize,
    pub stop_id: Seq<char>,
    pub arrival_time: CSTime,
    pub departure_time: CSTime,
}

/// What a [`Transfer`] holds.
pub struct TransferData {
    pub from_stop: Seq<char>,
    pub to_stops: Seq<Seq<char>>,
}

/// What a [`Stop`] holds.
pub struct StopData {
    pub id: Seq<char>,
    pub stop_name: Seq<char>,
    pub location_type: LocationType,
    pub parent_station: Seq<char>,
    pub platform_code: Seq<char>,
}

/// What a [`Trip`] holds.
pub struct TripData {
    pub id: Seq<char>,
    pub route_id: Seq<char>,
    pub service_id: Seq<char>,
    pub trip_headsign: Seq<char>,
    pub trip_short_name: Seq<char>,
    pub trip_long_name: Seq<char>,
}

impl View for CalendarDate {
    type V = CalendarDateData;

    open spec fn view(&self) -> CalendarDateData {
        CalendarDateData {
            service_id: self.service_id@,
            date: self.date,
            exception_type: self.exception_type,
        }
    }
}

impl View for Route {
    type V = RouteData;

    open spec fn view(&self) -> RouteData {
        RouteData {
            id: self.id@,
            agency_id: self.agency_id@,
            route_short_name: self.route_short_name@,
            route_long_name: self.route_long_name@,
            route_type: self.route_type,
        }
    }
}

impl View for Stop {
    type V = StopData;

    open spec fn view(&self) -> StopData {
        StopData {
            id: self.id@,
            stop_name: self.stop_name@,
            location_type: self.location_type,
            parent_station: self.parent_station@,
            platform_code: self.platform_code@,
        }
    }
}

impl View for StopTime {
    type V = StopTimeData;

    open spec fn view(&self) -> StopTimeData {
        StopTimeData {
            trip_id: self.trip_id@,
            stop_sequence: self.stop_sequence,
            stop_id: self.stop_id@,
            arrival_time: self.arrival_time,
            departure_time: self.departure_time,
        }
    }
}

impl View for Transfer {
    type V = TransferData;

    open spec fn view(&self) -> TransferData {
        TransferData {
            from_stop: self.from_stop@,
            to_stops: Seq::new(self.to_stops@.len(), |i: int| self.to_stops@[i]@),
        }
    }
}

impl View for Trip {
    type V = TripData;

    open spec fn view(&self) -> TripData {
        TripData {
            id: self.id@,
            route_id: self.route_id@,
            service_id: self.service_id@,
            trip_headsign: self.trip_headsign@,
            trip_short_name: self.trip_short_name@,
            trip_long_name: self.trip_long_name@,
        }
    }
}

/// The field at index `i`, or the report that the line has none.
pub open spec fn text_at(fields: Seq<Seq<char>>, i: usize) -> Result<Seq<char>, RecordError> {
    if i < fields.len() {
        Ok(fields[i as int])
    } else {
        Err(RecordError::MissingField(i))
    }
}

/// The identifier in the field at index `i`: the text of the field, whatever
/// it is.
pub open spec fn id_at(fields: Seq<Seq<char>>, i: usize) -> Result<Seq<char>, RecordError> {
    text_at(fields, i)
}

/// The count that the field at index `i` spells as a decimal number.
pub open spec fn count_at(fields: Seq<Seq<char>>, i: usize) -> Result<usize, RecordError> {
    match text_at(fields, i) {
        Err(e) => Err(e),
        Ok(text) => match number_of(text, usize::MAX as nat) {
            Some(value) => Ok(value as usize),
            None => Err(RecordError::InvalidField(i)),
        },
    }
}

/// The clock reading that the field at index `i` spells.
pub open spec fn time_at(fields: Seq<Seq<char>>, i: usize) -> Result<CSTime, RecordError> {
    match text_at(fields, i) {
        Err(e) => Err(e),
        Ok(text) => match clock_of(text) {
            Some(time) => Ok(time),
            None => Err(RecordError::InvalidField(i)),
        },
    }
}

/// The exception type that a code of the feed stands for.
pub open spec fn exception_type_of(code: Seq<char>) -> Option<ExceptionType> {
    if code == seq!['1'] {
        Some(ExceptionType::ADDED)
    } else if code == seq!['2'] {
        Some(ExceptionType::REMOVED)
    } else {
        None
    }
}

/// The route type that a code of the feed stands for.
pub open spec fn route_type_of(code: Seq<char>) -> Option<RouteType> {
    if code == seq!['0'] {
        Some(RouteType::TRAM)
    } else if code == seq!['1'] {
        Some(RouteType::METRO)
    } else if code == seq!['2'] {
        Some(RouteType::RAIL)
    } else if code == seq!['3'] {
        Some(RouteType::BUS)
    } else if code == seq!['4'] {
        Some(RouteType::FERRY)
    } else if code == seq!['5'] {
        Some(RouteType::CABLETRAM)
    } else if code == seq!['6'] {
        Some(RouteType::AERIALLIFT)
    } else if code == seq!['7'] {
        Some(RouteType::FUNICULAR)
    } else if code == seq!['1', '1'] {
        Some(RouteType::TROLLEYBUS)
    } else if code == seq!['1', '2'] {
        Some(RouteType::MONORAIL)
    } else {
        None
    }
}

/// The location type that a code of the feed stands for.
pub open spec fn location_type_of(code: Seq<char>) -> Option<LocationType> {
    if code == seq!['0'] {
        Some(LocationType::STOP)
    } else if code == seq!['1'] {
        Some(LocationType::STATION)
    } else if code == seq!['2'] {
        Some(LocationType::ENTRANCE)
    } else if code == seq!['3'] {
        Some(LocationType::GENERIC)
    } else if code == seq!['4'] {
        Some(LocationType::BOARDINGAREA)
    } else {
        None
    }
}

/// The transfer type that a code of the feed stands for.
pub open spec fn transfer_type_of(code: Seq<char>) -> Option<TransferType> {
    if code == seq!['0'] {
        Some(TransferType::RECOMMENDED)
    } else if code == seq!['1'] {
        Some(TransferType::TIMED)
    } else if code == seq!['2'] {
        Some(TransferType::MINIMUMTIME)
    } else if code == seq!['3'] {
        Some(TransferType::NONE)
    } else if code == seq!['4'] {
        Some(TransferType::INSEAT)
    } else if code == seq!['5'] {
        Some(TransferType::REBOARD)
    } else {
        None
    }
}

/// The calendar date that is made of a service name, of what was read as
/// its date, and of the code of its exception type. The date is field 1 of
/// the line, the code field 2.
pub open spec fn calendar_date_from(
    service_id: Seq<char>,
    date: Option<(i32, u32, u32)>,
    code: Seq<char>,
) -> Result<CalendarDateData, RecordError> {
    match date {
        None => Err(RecordError::InvalidField(1)),
        Some(parts) => match exception_type_of(code) {
            None => Err(RecordError::InvalidField(2)),
            Some(exception_type) => Ok(
                CalendarDateData {
                    service_id,
                    date: Date { year: parts.0, month: parts.1, day: parts.2 },
                    exception_type,
                },
            ),
        },
    }
}

/// The form in which the feed writes a date: year, month and day in digits.
pub open spec fn date_form() -> Seq<char> {
    "%Y%m%d"@
}

/// The calendar date that a line spells: the service in field 0, the date
/// in field 1, the exception type in field 2.
pub open spec fn calendar_date_of(fields: Seq<Seq<char>>) -> Result<
    CalendarDateData,
    RecordError,
> {
    if text_at(fields, 0) is Err {
        Err(text_at(fields, 0)->Err_0)
    } else if text_at(fields, 1) is Err {
        Err(text_at(fields, 1)->Err_0)
    } else if text_at(fields, 2) is Err {
        Err(text_at(fields, 2)->Err_0)
    } else {
        calendar_date_from(fields[0], date_of(fields[1], date_form()), fields[2])
    }
}

/// The route that a line spells: its identifier in field 0, the agency in
/// field 1, the short and the long name in fields 2 and 3, the type in
/// field 5.
pub open spec fn route_of(fields: Seq<Seq<char>>) -> Result<RouteData, RecordError> {
    if id_at(fields, 0) is Err {
        Err(id_at(fields, 0)->Err_0)
    } else if text_at(fields, 1) is Err {
        Err(text_at(fields, 1)->Err_0)
    } else if text_at(fields, 2) is Err {
        Err(text_at(fields, 2)->Err_0)
    } else if text_at(fields, 3) is Err {
        Err(text_at(fields, 3)->Err_0)
    } else if text_at(fields, 5) is Err {
        Err(text_at(fields, 5)->Err_0)
    } else if route_type_of(fields[5]) is None {
        Err(RecordError::InvalidField(5))
    } else {
        Ok(
            RouteData {
                id: id_at(fields, 0)->Ok_0,
                agency_id: fields[1],
                route_short_name: fields[2],
                route_long_name: fields[3],
                route_type: route_type_of(fields[5])->0,
            },
        )
    }
}

/// The call that a line spells: the trip in field 0, the place in the
/// trip's order in field 1, the stop in field 2, arrival and departure in
/// fields 4 and 5.
pub open spec fn stop_time_of(fields: Seq<Seq<char>>) -> Result<StopTimeData, RecordError> {
    if id_at(fields, 0) is Err {
        Err(id_at(fields, 0)->Err_0)
    } else if count_at(fields, 1) is Err {
        Err(count_at(fields, 1)->Err_0)
    } else if id_at(fields, 2) is Err {
        Err(id_at(fields, 2)->Err_0)
    } else if time_at(fields, 4) is Err {
        Err(time_at(fields, 4)->Err_0)
    } else if time_at(fields, 5) is Err {
        Err(time_at(fields, 5)->Err_0)
    } else {
        Ok(
            StopTimeData {
                trip_id: id_at(fields, 0)->Ok_0,
                stop_sequence: count_at(fields, 1)->Ok_0,
                stop_id: id_at(fields, 2)->Ok_0,
                arrival_time: time_at(fields, 4)->Ok_0,
                departure_time: time_at(fields, 5)->Ok_0,
            },
        )
    }
}

/// The stop that a line spells: its identifier in field 0, its name in
/// field 2, the location type in field 5, the station it belongs to in
/// field 6, the platform in field 9.
pub open spec fn stop_of(fields: Seq<Seq<char>>) -> Result<StopData, RecordError> {
    if id_at(fields, 0) is Err {
        Err(id_at(fields, 0)->Err_0)
    } else if text_at(fields, 2) is Err {
        Err(text_at(fields, 2)->Err_0)
    } else if text_at(fields, 5) is Err {
        Err(text_at(fields, 5)->Err_0)
    } else if location_type_of(fields[5]) is None {
        Err(RecordError::InvalidField(5))
    } else if text_at(fields, 6) is Err {
        Err(text_at(fields, 6)->Err_0)
    } else if text_at(fields, 9) is Err {
        Err(text_at(fields, 9)->Err_0)
    } else {
        Ok(
            StopData {
                id: id_at(fields, 0)->Ok_0,
                stop_name: fields[2],
                location_type: location_type_of(fields[5])->0,
                parent_station: fields[6],
                platform_code: fields[9],
            },
        )
    }
}

/// The trip that a line spells: its identifier in field 2, the route in
/// field 0, the service in field 1, headsign, short and long name in fields
/// 4, 5 and 6.
pub open spec fn trip_of(fields: Seq<Seq<char>>) -> Result<TripData, RecordError> {
    if id_at(fields, 2) is Err {
        Err(id_at(fields, 2)->Err_0)
    } else if id_at(fields, 0) is Err {
        Err(id_at(fields, 0)->Err_0)
    } else if text_at(fields, 1) is Err {
        Err(text_at(fields, 1)->Err_0)
    } else if text_at(fields, 4) is Err {
        Err(text_at(fields, 4)->Err_0)
    } else if text_at(fields, 5) is Err {
        Err(text_at(fields, 5)->Err_0)
    } else if text_at(fields, 6) is Err {
        Err(text_at(fields, 6)->Err_0)
    } else {
        Ok(
            TripData {
                id: id_at(fields, 2)->Ok_0,
                route_id: id_at(fields, 0)->Ok_0,
                service_id: fields[1],
                trip_headsign: fields[4],
                trip_short_name: fields[5],
                trip_long_name: fields[6],
            },
        )
    }
}

/// Gives the field of `source` at index `i`.
pub fn text_field<'a>(source: &'a StringRecord, i: usize) -> (r: Result<&'a str, RecordError>)
    ensures
        match text_at(record_fields(*source), i) {
            Ok(text) => r is Ok && r->Ok_0@ == text,
            Err(e) => r == Err::<&str, RecordError>(e),
        },
{
    match field_at(source, i) {
        Some(text) => Ok(text),
        None => Err(RecordError::MissingField(i)),
    }
}

/// Takes the field of `source` at index `i` as an identifier.
pub fn id_field(source: &StringRecord, i: usize) -> (r: Result<String, RecordError>)
    ensures
        match id_at(record_fields(*source), i) {
            Ok(text) => r is Ok && r->Ok_0@ == text,
            Err(e) => r == Err::<String, RecordError>(e),
        },
{
    let text = text_field(source, i)?;
    Ok(text.to_owned())
}

/// Reads the field of `source` at index `i` as a count.
pub fn count_field(source: &StringRecord, i: usize) -> (r: Result<usize, RecordError>)
    ensures
        r == count_at(record_fields(*source), i),
{
    let text = text_field(source, i)?;
    match parse_number(text, usize::MAX as u64) {
        Some(value) => Ok(value as usize),
        None => Err(RecordError::InvalidField(i)),
    }
}

/// Reads the field of `source` at index `i` as a clock reading.
pub fn time_field(source: &StringRecord, i: usize) -> (r: Result<CSTime, RecordError>)
    ensures
        r == time_at(record_fields(*source), i),
{
    let text = text_field(source, i)?;
    match CSTime::parse_from_str(text) {
        Ok(time) => Ok(time),
        Err(_) => Err(RecordError::InvalidField(i)),
    }
}

impl ExceptionType {
    /// Reads the code that the feed uses for an exception type.
    pub fn from_code(code: &str) -> (r: Option<ExceptionType>)
        ensures
            r == exception_type_of(code@),
    {
        proof {
            reveal_strlit("1");
            reveal_strlit("2");
            assert("1"@ =~= seq!['1']);
            assert("2"@ =~= seq!['2']);
        }
        if same_text(code, "1") {
            Some(ExceptionType::ADDED)
        } else if same_text(code, "2") {
            Some(ExceptionType::REMOVED)
        } else {
            None
        }
    }
}

impl RouteType {
    /// Reads the code that the feed uses for a route type.
    pub fn from_code(code: &str) -> (r: Option<RouteType>)
        ensures
            r == route_type_of(code@),
    {
        proof {
            reveal_strlit("0");
            reveal_strlit("1");
            reveal_strlit("2");
            reveal_strlit("3");
            reveal_strlit("4");
            reveal_strlit("5");
            reveal_strlit("6");
            reveal_strlit("7");
            reveal_strlit("11");
            reveal_strlit("12");
            assert("0"@ =~= seq!['0']);
            assert("1"@ =~= seq!['1']);
            assert("2"@ =~= seq!['2']);
            assert("3"@ =~= seq!['3']);
            assert("4"@ =~= seq!['4']);
            assert("5"@ =~= seq!['5']);
            assert("6"@ =~= seq!['6']);
            assert("7"@ =~= seq!['7']);
            assert("11"@ =~= seq!['1', '1']);
            assert("12"@ =~= seq!['1', '2']);
        }
        if same_text(code, "0") {
            Some(RouteType::TRAM)
        } else if same_text(code, "1") {
            Some(RouteType::METRO)
        } else if same_text(code, "2") {
            Some(RouteType::RAIL)
        } else if same_text(code, "3") {
            Some(RouteType::BUS)
        } else if same_text(code, "4") {
            Some(RouteType::FERRY)
        } else if same_text(code, "5") {
            Some(RouteType::CABLETRAM)
        } else if same_text(code, "6") {
            Some(RouteType::AERIALLIFT)
        } else if same_text(code, "7") {
            Some(RouteType::FUNICULAR)
        } else if same_text(code, "11") {
            Some(RouteType::TROLLEYBUS)
        } else if same_text(code, "12") {
            Some(RouteType::MONORAIL)
        } else {
            None
        }
    }
}

impl LocationType {
    /// Reads the code that the feed uses for a location type.
    pub fn from_code(code: &str) -> (r: Option<LocationType>)
        ensures
            r == location_type_of(code@),
    {
        proof {
            reveal_strlit("0");
            reveal_strlit("1");
            reveal_strlit("2");
            reveal_strlit("3");
            reveal_strlit("4");
            assert("0"@ =~= seq!['0']);
            assert("1"@ =~= seq!['1']);
            assert("2"@ =~= seq!['2']);
            assert("3"@ =~= seq!['3']);
            assert("4"@ =~= seq!['4']);
        }
        if same_text(code, "0") {
            Some(LocationType::STOP)
        } else if same_text(code, "1") {
            Some(LocationType::STATION)
        } else if same_text(code, "2") {
            Some(LocationType::ENTRANCE)
        } else if same_text(code, "3") {
            Some(LocationType::GENERIC)
        } else if same_text(code, "4") {
            Some(LocationType::BOARDINGAREA)
        } else {
            None
        }
    }
}

impl TransferType {
    /// Reads the code that the feed uses for a transfer type.
    pub fn from_code(code: &str) -> (r: Option<TransferType>)
        ensures
            r == transfer_type_of(code@),
    {
        proof {
            reveal_strlit("0");
            reveal_strlit("1");
            reveal_strlit("2");
            reveal_strlit("3");
            reveal_strlit("4");
            reveal_strlit("5");
            assert("0"@ =~= seq!['0']);
            assert("1"@ =~= seq!['1']);
            assert("2"@ =~= seq!['2']);
            assert("3"@ =~= seq!['3']);
            assert("4"@ =~= seq!['4']);
            assert("5"@ =~= seq!['5']);
        }
        if same_text(code, "0") {
            Some(TransferType::RECOMMENDED)
        } else if same_text(code, "1") {
            Some(TransferType::TIMED)
        } else if same_text(code, "2") {
            Some(TransferType::MINIMUMTIME)
        } else if same_text(code, "3") {
            Some(TransferType::NONE)
        } else if same_text(code, "4") {
            Some(TransferType::INSEAT)
        } else if same_text(code, "5") {
            Some(TransferType::REBOARD)
        } else {
            None
        }
    }
}

impl CalendarDate {
    /// Makes a calendar date of a service name, of what was read as its
    /// date, and of the code of its exception type.
    pub fn from_parts(service_id: &str, date: Option<(i32, u32, u32)>, code: &str) -> (r: Result<
        CalendarDate,
        RecordError,
    >)
        ensures
            match calendar_date_from(service_id@, date, code@) {
                Ok(data) => r is Ok && r->Ok_0@ == data,
                Err(e) => r == Err::<CalendarDate, RecordError>(e),
            },
    {
        let (year, month, day) = match date {
            Some(parts) => parts,
            None => {
                return Err(RecordError::InvalidField(1));
            },
        };
        let exception_type = match ExceptionType::from_code(code) {
            Some(exception_type) => exception_type,
            None => {
                return Err(RecordError::InvalidField(2));
            },
        };
        Ok(
            CalendarDate {
                service_id: service_id.to_owned(),
                date: Date { year, month, day },
                exception_type,
            },
        )
    }

    /// Reads a calendar date from the fields of a line that spells one.
    pub fn new(source: StringRecord) -> (date: CalendarDate)
        requires
            calendar_date_of(record_fields(source)) is Ok,
        ensures
            date@ == calendar_date_of(record_fields(source))->Ok_0,
    {
        let read = match (text_field(&source, 0), text_field(&source, 1), text_field(&source, 2)) {
            (Ok(service_id), Ok(date), Ok(code)) => CalendarDate::from_parts(
                service_id,
                read_date(date, "%Y%m%d"),
                code,
            ),
            _ => unreached(),
        };
        match read {
            Ok(date) => date,
            Err(_) => unreached(),
        }
    }

    /// Reads a calendar date from the fields of any line, and says which
    /// field is missing or cannot be read if the line spells none.
    pub fn new_checked(source: StringRecord) -> (r: Result<CalendarDate, RecordError>)
        ensures
            match calendar_date_of(record_fields(source)) {
                Ok(data) => r is Ok && r->Ok_0@ == data,
                Err(e) => r == Err::<CalendarDate, RecordError>(e),
            },
    {
        text_field(&source, 0)?;
        let date = text_field(&source, 1)?;
        let code = text_field(&source, 2)?;
        if read_date(date, "%Y%m%d").is_none() {
            return Err(RecordError::InvalidField(1));
        }
        if ExceptionType::from_code(code).is_none() {
            return Err(RecordError::InvalidField(2));
        }
        Ok(CalendarDate::new(source))
    }
}

impl Route {
    /// Reads a route from the fields of a line that spells one.
    pub fn new(source: StringRecord) -> (route: Route)
        requires
            route_of(record_fields(source)) is Ok,
        ensures
            route@ == route_of(record_fields(source))->Ok_0,
    {
        match Route::new_checked(source) {
            Ok(route) => route,
            Err(_) => unreached(),
        }
    }

    /// Reads a route from the fields of any line, and says which field is
    /// missing or cannot be read if the line spells none.
    pub fn new_checked(source: StringRecord) -> (r: Result<Route, RecordError>)
        ensures
            match route_of(record_fields(source)) {
                Ok(data) => r is Ok && r->Ok_0@ == data,
                Err(e) => r == Err::<Route, RecordError>(e),
            },
    {
        let id = id_field(&source, 0)?;
        let agency_id = text_field(&source, 1)?;
        let route_short_name = text_field(&source, 2)?;
        let route_long_name = text_field(&source, 3)?;
        let code = text_field(&source, 5)?;
        let route_type = match RouteType::from_code(code) {
            Some(route_type) => route_type,
            None => {
                return Err(RecordError::InvalidField(5));
            },
        };
        Ok(
            Route {
                id,
                agency_id: agency_id.to_owned(),
                route_short_name: route_short_name.to_owned(),
                route_long_name: route_long_name.to_owned(),
                route_type,
            },
        )
    }
}

impl StopTime {
    /// Reads a call of a trip at a stop from the fields of a line that
    /// spells one.
    pub fn new(source: StringRecord) -> (call: StopTime)
        requires
            stop_time_of(record_fields(source)) is Ok,
        ensures
            call@ == stop_time_of(record_fields(source))->Ok_0,
    {
        match StopTime::new_checked(source) {
            Ok(call) => call,
            Err(_) => unreached(),
        }
    }

    /// Reads a call of a trip at a stop from the fields of any line, and
    /// says which field is missing or cannot be read if the line spells none.
    pub fn new_checked(source: StringRecord) -> (r: Result<StopTime, RecordError>)
        ensures
            match stop_time_of(record_fields(source)) {
                Ok(data) => r is Ok && r->Ok_0@ == data,
                Err(e) => r == Err::<StopTime, RecordError>(e),
            },
    {
        let trip_id = id_field(&source, 0)?;
        let stop_sequence = count_field(&source, 1)?;
        let stop_id = id_field(&source, 2)?;
        let arrival_time = time_field(&source, 4)?;
        let departure_time = time_field(&source, 5)?;
        Ok(StopTime { trip_id, stop_sequence, stop_id, arrival_time, departure_time })
    }
}

impl Stop {
    /// Reads a stop from the fields of a line that spells one.
    pub fn new(source: StringRecord) -> (stop: Stop)
        requires
            stop_of(record_fields(source)) is Ok,
        ensures
            stop@ == stop_of(record_fields(source))->Ok_0,
    {
        match Stop::new_checked(source) {
            Ok(stop) => stop,
            Err(_) => unreached(),
        }
    }

    /// Reads a stop from the fields of any line, and says which field is
    /// missing or cannot be read if the line spells none.
    pub fn new_checked(source: StringRecord) -> (r: Result<Stop, RecordError>)
        ensures
            match stop_of(record_fields(source)) {
                Ok(data) => r is Ok && r->Ok_0@ == data,
                Err(e) => r == Err::<Stop, RecordError>(e),
            },
    {
        let id = id_field(&source, 0)?;
        let stop_name = text_field(&source, 2)?;
        let code = text_field(&source, 5)?;
        let location_type = match LocationType::from_code(code) {
            Some(location_type) => location_type,
            None => {
                return Err(RecordError::InvalidField(5));
            },
        };
        let parent_station = text_field(&source, 6)?;
        let platform_code = text_field(&source, 9)?;
        Ok(
            Stop {
                id,
                stop_name: stop_name.to_owned(),
                location_type,
                parent_station: parent_station.to_owned(),
                platform_code: platform_code.to_owned(),
            },
        )
    }
}

impl Trip {
    /// Reads a trip from the fields of a line that spells one.
    pub fn new(source: StringRecord) -> (trip: Trip)
        requires
            trip_of(record_fields(source)) is Ok,
        ensures
            trip@ == trip_of(record_fields(source))->Ok_0,
    {
        match Trip::new_checked(source) {
            Ok(trip) => trip,
            Err(_) => unreached(),
        }
    }

    /// Reads a trip from the fields of any line, and says which field is
    /// missing if the line spells none.
    pub fn new_checked(source: StringRecord) -> (r: Result<Trip, RecordError>)
        ensures
            match trip_of(record_fields(source)) {
                Ok(data) => r is Ok && r->Ok_0@ == data,
                Err(e) => r == Err::<Trip, RecordError>(e),
            },
    {
        let id = id_field(&source, 2)?;
        let route_id = id_field(&source, 0)?;
        let service_id = text_field(&source, 1)?;
        let trip_headsign = text_field(&source, 4)?;
        let trip_short_name = text_field(&source, 5)?;
        let trip_long_name = text_field(&source, 6)?;
        Ok(
            Trip {
                id,
                route_id,
                service_id: service_id.to_owned(),
                trip_headsign: trip_headsign.to_owned(),
                trip_short_name: trip_short_name.to_owned(),
                trip_long_name: trip_long_name.to_owned(),
            },
        )
    }
}

} // verus!
