//! The packed weather codes that climate fields carry, and their names.
//!
//! A climate word packs six weather states, four bits each, lowest
//! nibble first.

use vstd::prelude::*;

verus! {

/// One weather state.
#[derive(Copy, Clone, Debug, PartialEq, Eq, Structural)]
pub enum Weather {
    Sun,
    Cloudy,
    Rain,
    HeavyRain,
    Snow,
    HeavySnow,
    ThunderStorm,
    ThunderRain,
    BlueSkyRain,
}

/// The weather state a code names, if it names one.
pub open spec fn spec_weather_of(code: u64) -> Option<Weather> {
    if code == 0 {
        Some(Weather::Sun)
    } else if code == 1 {
        Some(Weather::Cloudy)
    } else if code == 2 {
        Some(Weather::Rain)
    } else if code == 3 {
        Some(Weather::HeavyRain)
    } else if code == 4 {
        Some(Weather::Snow)
    } else if code == 5 {
        Some(Weather::HeavySnow)
    } else if code == 6 {
        Some(Weather::ThunderStorm)
    } else if code == 7 {
        Some(Weather::ThunderRain)
    } else if code == 8 {
        Some(Weather::BlueSkyRain)
    } else {
        None
    }
}

/// The display name of a weather state.
pub open spec fn spec_weather_name(w: Weather) -> Seq<char> {
    match w {
        Weather::Sun => "sun"@,
        Weather::Cloudy => "cloudy"@,
        Weather::Rain => "rain"@,
        Weather::HeavyRain => "heavy_rain"@,
        Weather::Snow => "snow"@,
        Weather::HeavySnow => "heavy_snow"@,
        Weather::ThunderStorm => "thunder_storm"@,
        Weather::ThunderRain => "thunder_rain"@,
        Weather::BlueSkyRain => "blue_sky_rain"@,
    }
}

/// The six weather codes packed into one climate word, lowest nibble
/// first.
pub open spec fn spec_weather_codes(value: u64) -> Seq<u64> {
    seq![
        value & 0xf,
        (value >> 4) & 0xf,
        (value >> 8) & 0xf,
        (value >> 12) & 0xf,
        (value >> 16) & 0xf,
        (value >> 20) & 0xf,
    ]
}

impl Weather {
    /// Decodes one 4-bit weather code; codes past the last state name
    /// no weather.
    pub fn from_code(code: u64) -> (r: Option<Weather>)
        ensures
            r == spec_weather_of(code),
    {
        match code {
            0 => Some(Weather::Sun),
            1 => Some(Weather::Cloudy),
            2 => Some(Weather::Rain),
            3 => Some(Weather::HeavyRain),
            4 => Some(Weather::Snow),
            5 => Some(Weather::HeavySnow),
            6 => Some(Weather::ThunderStorm),
            7 => Some(Weather::ThunderRain),
            8 => Some(Weather::BlueSkyRain),
            _ => None,
        }
    }

    /// The display name of this weather state.
    pub fn name(&self) -> (r: &'static str)
        ensures
            r@ == spec_weather_name(*self),
    {
        match self {
            Weather::Sun => "sun",
            Weather::Cloudy => "cloudy",
            Weather::Rain => "rain",
            Weather::HeavyRain => "heavy_rain",
            Weather::Snow => "snow",
            Weather::HeavySnow => "heavy_snow",
            Weather::ThunderStorm => "thunder_storm",
            Weather::ThunderRain => "thunder_rain",
            Weather::BlueSkyRain => "blue_sky_rain",
        }
    }

    /// Unpacks the six weather codes of one climate word.
    pub fn unpack(value: u64) -> (r: Vec<u64>)
        ensures
            r@ == spec_weather_codes(value),
    {
        let mut v: Vec<u64> = Vec::new();
        v.push(value & 0xf);
        v.push((value >> 4) & 0xf);
        v.push((value >> 8) & 0xf);
        v.push((value >> 12) & 0xf);
        v.push((value >> 16) & 0xf);
        v.push((value >> 20) & 0xf);
        proof {
            assert(v@ =~= spec_weather_codes(value));
        }
        v
    }
}

} // verus!
