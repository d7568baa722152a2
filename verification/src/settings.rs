//! The settings that the program is started with.

use crate::error::MyError;
use crate::text::{parse_u64, u64_parsed};
use vstd::prelude::*;

verus! {

/// How many channels to follow, how many of them one session takes, and
/// how many seconds lie between two passes of reconciliation.
#[derive(Debug, Clone, Copy, PartialEq, Eq)]
pub struct Settings {
    pub max_channels: u64,
    pub channels_per_controller: u64,
    pub refresh_interval: u64,
}

/// The number that a setting holds.
pub open spec fn setting_value(value: Option<String>) -> Option<u64> {
    match value {
        Some(text) => u64_parsed(text@),
        None => None,
    }
}

/// Reads one setting: absent, it is named in an error of the
/// environment; present but no number, in an error of decoding.
fn read_setting(name: &'static str, value: &Option<String>) -> (r: Result<u64, MyError>)
    ensures
        match *value {
            Some(text) => match u64_parsed(text@) {
                Some(v) => r == Ok::<u64, MyError>(v),
                None => r == Err::<u64, MyError>(MyError::Parse(name)),
            },
            None => r matches Err(MyError::DotEnv(n)) && n@ == name@,
        },
{
    match value {
        Some(text) => match parse_u64(text.as_str()) {
            Some(v) => Ok(v),
            None => Err(MyError::Parse(name)),
        },
        None => Err(MyError::DotEnv(name.to_owned())),
    }
}

impl Settings {
    /// The settings from the values of `MAX_CHANNELS`,
    /// `CHANNELS_PER_CONTROLLER` and `REFRESH_INTERVAL`, each a number in
    /// decimal. The first of them, in this order, that is absent or no
    /// number is named in the error.
    pub fn from_values(
        max_channels: Option<String>,
        channels_per_controller: Option<String>,
        refresh_interval: Option<String>,
    ) -> (r: Result<Settings, MyError>)
        ensures
            r is Ok <==> setting_value(max_channels) is Some && setting_value(
                channels_per_controller,
            ) is Some && setting_value(refresh_interval) is Some,
            r matches Ok(s) ==> s == (Settings {
                max_channels: setting_value(max_channels).unwrap(),
                channels_per_controller: setting_value(channels_per_controller).unwrap(),
                refresh_interval: setting_value(refresh_interval).unwrap(),
            }),
            r matches Err(e) ==> {
                let (name, value) = if setting_value(max_channels) is None {
                    ("MAX_CHANNELS"@, max_channels)
                } else if setting_value(channels_per_controller) is None {
                    ("CHANNELS_PER_CONTROLLER"@, channels_per_controller)
                } else {
                    ("REFRESH_INTERVAL"@, refresh_interval)
                };
                match value {
                    Some(_) => e matches MyError::Parse(n) && n@ == name,
                    None => e matches MyError::DotEnv(n) && n@ == name,
                }
            },
    {
        let max = match read_setting("MAX_CHANNELS", &max_channels) {
            Ok(v) => v,
            Err(e) => { return Err(e); },
        };
        let per = match read_setting("CHANNELS_PER_CONTROLLER", &channels_per_controller) {
            Ok(v) => v,
            Err(e) => { return Err(e); },
        };
        let interval = match read_setting("REFRESH_INTERVAL", &refresh_interval) {
            Ok(v) => v,
            Err(e) => { return Err(e); },
        };
        Ok(Settings { max_channels: max, channels_per_controller: per, refresh_interval: interval })
    }
}

} // verus!
