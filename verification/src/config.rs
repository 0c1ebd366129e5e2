//! The service's settings, as they follow from the values of its two
//! variables: the connection string of the backing store and the port.

use crate::text::chars_of;
use vstd::prelude::*;

verus! {

/// The port that is used where none is given.
pub const DEFAULT_PORT: u16 = 3003;

/// Why the settings could not be made.
#[derive(Clone, Copy, Debug, PartialEq, Eq, Structural)]
pub enum ConfigError {
    /// No connection string was given.
    MissingDatabaseUrl,
    /// The port given is not a decimal number that fits in 16 bits.
    InvalidPort,
}

impl ConfigError {
    /// The text reported for this error.
    pub open spec fn message_text(self) -> Seq<char> {
        match self {
            ConfigError::MissingDatabaseUrl => "DATABASE_URL environment variable is not set"@,
            ConfigError::InvalidPort => "PORT environment variable is not a valid number"@,
        }
    }

    /// The text reported for this error.
    pub fn message(&self) -> (text: String)
        ensures
            text@ == self.message_text(),
    {
        match self {
            ConfigError::MissingDatabaseUrl => {
                "DATABASE_URL environment variable is not set".to_owned()
            },
            ConfigError::InvalidPort => "PORT environment variable is not a valid number".to_owned(),
        }
    }
}

/// The settings of the service.
#[derive(Clone, Debug, PartialEq, Eq)]
pub struct Config {
    pub database_url: String,
    pub port: u16,
}

/// Whether `c` is one of the ten decimal digits.
pub open spec fn is_digit(c: char) -> bool {
    '0' <= c <= '9'
}

/// The number that a decimal digit stands for.
pub open spec fn digit_value(c: char) -> nat {
    (c as int - '0' as int) as nat
}

/// The number that a run of decimal digits stands for.
pub open spec fn decimal_value(digits: Seq<char>) -> nat
    decreases digits.len(),
{
    if digits.len() == 0 {
        0
    } else {
        decimal_value(digits.drop_last()) * 10 + digit_value(digits.last())
    }
}

/// Whether every character of `s` is a decimal digit.
pub open spec fn all_digits(s: Seq<char>) -> bool {
    forall|i: int| 0 <= i < s.len() ==> is_digit(#[trigger] s[i])
}

/// What is left of `text` without a leading plus sign.
pub open spec fn unsigned_part(text: Seq<char>) -> Seq<char> {
    if text.len() > 0 && text[0] == '+' {
        text.skip(1)
    } else {
        text
    }
}

/// The port that `text` stands for: an optional plus sign, then one or more
/// decimal digits whose value fits in 16 bits. Anything else stands for none.
pub open spec fn port_of(text: Seq<char>) -> Option<u16> {
    let digits = unsigned_part(text);
    if digits.len() > 0 && all_digits(digits) && decimal_value(digits) <= u16::MAX {
        Some(decimal_value(digits) as u16)
    } else {
        None
    }
}

/// The port in force where the port variable holds `port`, or is unset.
pub open spec fn port_setting(port: Option<Seq<char>>) -> Option<u16> {
    match port {
        Some(text) => port_of(text),
        None => Some(DEFAULT_PORT),
    }
}

/// A run of digits is worth at least as much as any of its beginnings.
pub proof fn lemma_decimal_value_grows(digits: Seq<char>, k: int)
    requires
        0 <= k <= digits.len(),
    ensures
        decimal_value(digits.take(k)) <= decimal_value(digits),
    decreases digits.len(),
{
    if k == digits.len() {
        assert(digits.take(k) =~= digits);
    } else {
        lemma_decimal_value_grows(digits.drop_last(), k);
        assert(digits.drop_last().take(k) =~= digits.take(k));
    }
}

/// Reads a port number.
pub fn parse_port(text: &str) -> (port: Option<u16>)
    ensures
        port == port_of(text@),
{
    let chars = chars_of(text);
    let n = chars.len();
    let start: usize = if n > 0 && chars[0] == '+' {
        1
    } else {
        0
    };
    if start == n {
        return None;
    }
    let ghost digits = unsigned_part(text@);
    let mut value: u32 = 0;
    let mut i: usize = start;
    proof {
        assert(digits =~= chars@.skip(start as int));
        assert(digits.take(0) =~= Seq::<char>::empty());
    }
    while i < n
        invariant
            start <= i <= n,
            n == chars.len(),
            digits == chars@.skip(start as int),
            digits == unsigned_part(text@),
            all_digits(digits.take(i - start)),
            value == decimal_value(digits.take(i - start)),
            value <= u16::MAX,
        decreases n - i,
    {
        let c = chars[i];
        if c < '0' || c > '9' {
            assert(!is_digit(digits[i - start]));
            return None;
        }
        let digit: u32 = c as u32 - '0' as u32;
        proof {
            let so_far = digits.take(i - start + 1);
            assert(so_far.drop_last() =~= digits.take(i - start));
            assert(so_far.last() == c);
            assert forall|k: int| 0 <= k < so_far.len() implies is_digit(#[trigger] so_far[k]) by {
                if k < i - start {
                    assert(so_far[k] == digits.take(i - start)[k]);
                }
            }
        }
        value = value * 10 + digit;
        if value > 65535 {
            proof {
                lemma_decimal_value_grows(digits, i - start + 1);
            }
            return None;
        }
        i += 1;
    }
    proof {
        assert(digits.take(n - start) =~= digits);
    }
    Some(value as u16)
}

impl Config {
    /// The settings that follow from the two variables, each of which may be
    /// unset. A missing connection string is reported before a bad port.
    pub fn from_vars(database_url: Option<String>, port: Option<String>) -> (r: Result<
        Config,
        ConfigError,
    >)
        ensures
            match r {
                Ok(config) => database_url == Some(config.database_url) && port_setting(
                    match port {
                        Some(text) => Some(text@),
                        None => None,
                    },
                ) == Some(config.port),
                Err(ConfigError::MissingDatabaseUrl) => database_url is None,
                Err(ConfigError::InvalidPort) => {
                    &&& database_url is Some
                    &&& port matches Some(text)
                    &&& port_of(text@) is None
                },
            },
    {
        let database_url = match database_url {
            Some(url) => url,
            None => {
                return Err(ConfigError::MissingDatabaseUrl);
            },
        };
        let port = match port {
            Some(text) => match parse_port(text.as_str()) {
                Some(port) => port,
                None => {
                    return Err(ConfigError::InvalidPort);
                },
            },
            None => DEFAULT_PORT,
        };
        Ok(Config { database_url, port })
    }
}

} // verus!
