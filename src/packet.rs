use vstd::prelude::*;

verus! {

/// A decimal reading as written: its sign, the ASCII digits before the point
/// and those after it (none when no point was written).
#[derive(Debug, Clone, PartialEq)]
pub struct Decimal {
    pub negative: bool,
    pub whole: Vec<u8>,
    pub fraction: Vec<u8>,
}

/// Store a Location, with latitude, longitude, and optional altitude.
#[derive(Debug, Clone, PartialEq)]
pub struct Location {
    pub latlng: Option<(Decimal, Decimal)>,
    pub alt: Option<Decimal>,
}

/// Store a Wind Speed, with speed and optional bearing.
#[derive(Debug, Clone, PartialEq)]
pub struct WindSpeed {
    pub speed: Option<Decimal>,
    pub bearing: Option<Decimal>,
}

/// Store one of any of the data types.
#[derive(Debug, Clone, PartialEq)]
pub enum DataField {
    Temperature(Vec<Decimal>),
    Voltage(Vec<Decimal>),
    Current(Vec<Decimal>),
    Humidity(Vec<Decimal>),
    Pressure(Vec<Decimal>),
    Sun(Vec<Decimal>),
    Rssi(Vec<Decimal>),
    Count(Vec<Decimal>),
    Custom(Vec<Decimal>),
    Location(Location),
    WindSpeed(WindSpeed),
    Zombie(u8),
}

/// Store a whole packet.
#[derive(Debug, Clone, PartialEq)]
pub struct Packet {
    pub repeat: u8,
    pub sequence: char,
    pub data: Vec<DataField>,
    pub comment: Option<String>,
    pub path: Vec<String>,
}

/// The model of a `Decimal`.
pub struct DecimalV {
    pub negative: bool,
    pub whole: Seq<u8>,
    pub fraction: Seq<u8>,
}

/// The kinds of field that carry a list of readings.
#[derive(Debug, Clone, Copy, PartialEq, Eq, Structural)]
pub enum Reading {
    Voltage,
    Current,
    Temperature,
    Humidity,
    Pressure,
    Custom,
    Sun,
    Rssi,
    Count,
}

/// The model of a `DataField`.
pub enum FieldV {
    Readings(Reading, Seq<DecimalV>),
    Location(Option<(DecimalV, DecimalV)>, Option<DecimalV>),
    WindSpeed(Option<DecimalV>, Option<DecimalV>),
    Zombie(u8),
}

/// The model of a `Packet`.
pub struct PacketV {
    pub repeat: u8,
    pub sequence: char,
    pub data: Seq<FieldV>,
    pub comment: Option<Seq<char>>,
    pub path: Seq<Seq<char>>,
}

impl View for Decimal {
    type V = DecimalV;

    open spec fn view(&self) -> DecimalV {
        DecimalV { negative: self.negative, whole: self.whole@, fraction: self.fraction@ }
    }
}

pub open spec fn decimals_view(v: Seq<Decimal>) -> Seq<DecimalV> {
    v.map_values(|d: Decimal| d@)
}

pub open spec fn opt_decimal_view(o: Option<Decimal>) -> Option<DecimalV> {
    match o {
        Some(d) => Some(d@),
        None => None,
    }
}

pub open spec fn opt_pair_view(o: Option<(Decimal, Decimal)>) -> Option<(DecimalV, DecimalV)> {
    match o {
        Some(p) => Some((p.0@, p.1@)),
        None => None,
    }
}

impl View for DataField {
    type V = FieldV;

    open spec fn view(&self) -> FieldV {
        match self {
            DataField::Temperature(v) => FieldV::Readings(Reading::Temperature, decimals_view(v@)),
            DataField::Voltage(v) => FieldV::Readings(Reading::Voltage, decimals_view(v@)),
            DataField::Current(v) => FieldV::Readings(Reading::Current, decimals_view(v@)),
            DataField::Humidity(v) => FieldV::Readings(Reading::Humidity, decimals_view(v@)),
            DataField::Pressure(v) => FieldV::Readings(Reading::Pressure, decimals_view(v@)),
            DataField::Sun(v) => FieldV::Readings(Reading::Sun, decimals_view(v@)),
            DataField::Rssi(v) => FieldV::Readings(Reading::Rssi, decimals_view(v@)),
            DataField::Count(v) => FieldV::Readings(Reading::Count, decimals_view(v@)),
            DataField::Custom(v) => FieldV::Readings(Reading::Custom, decimals_view(v@)),
            DataField::Location(l) => FieldV::Location(opt_pair_view(l.latlng), opt_decimal_view(l.alt)),
            DataField::WindSpeed(w) => FieldV::WindSpeed(
                opt_decimal_view(w.speed),
                opt_decimal_view(w.bearing),
            ),
            DataField::Zombie(z) => FieldV::Zombie(*z),
        }
    }
}

pub open spec fn fields_view(v: Seq<DataField>) -> Seq<FieldV> {
    v.map_values(|f: DataField| f@)
}

pub open spec fn opt_string_view(o: Option<String>) -> Option<Seq<char>> {
    match o {
        Some(s) => Some(s@),
        None => None,
    }
}

impl View for Packet {
    type V = PacketV;

    open spec fn view(&self) -> PacketV {
        PacketV {
            repeat: self.repeat,
            sequence: self.sequence,
            data: fields_view(self.data@),
            comment: opt_string_view(self.comment),
            path: self.path@.map_values(|s: String| s@),
        }
    }
}

impl DataField {
    /// The field of kind `kind` with the readings `v`.
    pub fn from_readings(kind: Reading, v: Vec<Decimal>) -> (r: DataField)
        ensures
            r@ == FieldV::Readings(kind, decimals_view(v@)),
    {
        match kind {
            Reading::Voltage => DataField::Voltage(v),
            Reading::Current => DataField::Current(v),
            Reading::Temperature => DataField::Temperature(v),
            Reading::Humidity => DataField::Humidity(v),
            Reading::Pressure => DataField::Pressure(v),
            Reading::Custom => DataField::Custom(v),
            Reading::Sun => DataField::Sun(v),
            Reading::Rssi => DataField::Rssi(v),
            Reading::Count => DataField::Count(v),
        }
    }
}

} // verus!
