//! The two settings of the service: how large an upload may be, and the port
//! to listen on. Both arrive as text, or not at all.

use vstd::prelude::*;
use vstd::std_specs::iter::IteratorSpec;

verus! {

/// The body limit, in megabytes, where none is set.
pub const DEFAULT_BODY_LIMIT_MB: usize = 5;

/// The port where none is set.
pub const DEFAULT_PORT: u16 = 5020;

/// Bytes in a megabyte.
pub const MEGABYTE: usize = 1_048_576;

/// Which setting is no good.
#[derive(Clone, Copy, Debug, PartialEq, Eq, Structural)]
pub enum ConfigError {
    /// The body limit is no whole number, or more megabytes than can be
    /// counted in bytes.
    BodyLimit,
    /// The port is no whole number from 0 to 65535.
    Port,
}

impl ConfigError {
    /// The words in which the failure is reported.
    pub fn message(&self) -> (text: String)
        ensures
            text@ == match *self {
                ConfigError::BodyLimit => "BODY_LIMIT_MB must be a valid integer"@,
                ConfigError::Port => "PORT must be a valid number between 0 and 65535"@,
            },
    {
        match self {
            ConfigError::BodyLimit => "BODY_LIMIT_MB must be a valid integer".to_owned(),
            ConfigError::Port => "PORT must be a valid number between 0 and 65535".to_owned(),
        }
    }
}

/// The character is one of the ten digits.
pub open spec fn is_digit(c: char) -> bool {
    '0' <= c <= '9'
}

/// The number that a string of digits writes in base ten.
pub open spec fn digits_value(digits: Seq<char>) -> nat
    decreases digits.len(),
{
    if digits.len() == 0 {
        0
    } else {
        10 * digits_value(digits.drop_last()) + (digits.last() as nat - '0' as nat) as nat
    }
}

/// The digits of a number as it may be written: the text itself, or what
/// follows a plus sign at its front.
pub open spec fn digits_of(text: Seq<char>) -> Seq<char> {
    if text.len() > 0 && text[0] == '+' {
        text.skip(1)
    } else {
        text
    }
}

/// The whole number that the text writes: one digit or more, with or
/// without a plus sign in front, and nothing else. `None` for any other
/// text.
pub open spec fn number_of(text: Seq<char>) -> Option<nat> {
    let digits = digits_of(text);
    if digits.len() > 0 && (forall|i: int| 0 <= i < digits.len() ==> is_digit(digits[i])) {
        Some(digits_value(digits))
    } else {
        None
    }
}

/// The settings that the two texts give, each standing back for its default
/// where it is missing.
pub open spec fn settings_of(body_limit_mb: Option<Seq<char>>, port: Option<Seq<char>>) -> Result<
    (nat, nat),
    ConfigError,
> {
    let megabytes = match body_limit_mb {
        Some(text) => number_of(text),
        None => Some(DEFAULT_BODY_LIMIT_MB as nat),
    };
    let port_number = match port {
        Some(text) => number_of(text),
        None => Some(DEFAULT_PORT as nat),
    };
    if megabytes is None || megabytes->0 * MEGABYTE > usize::MAX {
        Err(ConfigError::BodyLimit)
    } else if port_number is None || port_number->0 > u16::MAX {
        Err(ConfigError::Port)
    } else {
        Ok((megabytes->0 * MEGABYTE as nat, port_number->0))
    }
}

/// Reads a whole number of at most `limit` out of the text.
pub fn parse_number(text: &str, limit: u64) -> (r: Option<u64>)
    requires
        limit <= u64::MAX / 10 - 1,
    ensures
        r is Some <==> number_of(text@) is Some && number_of(text@)->0 <= limit,
        r matches Some(value) ==> number_of(text@) == Some(value as nat),
{
    let total: usize = text.unicode_len();
    let ghost all = text@;
    let ghost digits = digits_of(all);
    let mut chars = text.chars();
    let mut index: usize = 0;
    let mut seen: usize = 0;
    let mut value: u64 = 0;
    let mut over: bool = false;
    let mut clean: bool = true;
    proof {
        assert(all.skip(0) =~= all);
        assert(digits.take(0) =~= Seq::<char>::empty());
    }
    while index < total
        invariant
            all == text@,
            digits == digits_of(all),
            total == all.len(),
            0 <= index <= total,
            limit <= u64::MAX / 10 - 1,
            chars.remaining() == all.skip(index as int),
            0 <= seen <= digits.len(),
            seen == if index == 0 {
                0
            } else {
                index - (all.len() - digits.len())
            },
            clean <==> forall|i: int| 0 <= i < seen ==> is_digit(digits[i]),
            !over ==> value <= limit,
            clean && !over ==> value == digits_value(digits.take(seen as int)),
            clean && over ==> digits_value(digits.take(seen as int)) > limit,
        decreases total - index,
    {
        let next = chars.next();
        assert(all.skip(index as int)[0] == all[index as int]);
        assert(all.skip(index as int).drop_first() =~= all.skip(index + 1));
        // The text has `total` characters, so the iterator still has one.
        let c: char = match next {
            Some(c) => c,
            None => '+',
        };
        assert(c == all[index as int]);
        if index == 0 && c == '+' {
            assert(seen == 0);
        } else {
            assert(digits[seen as int] == c);
            proof {
                let longer = digits.take(seen + 1);
                assert(longer.drop_last() =~= digits.take(seen as int));
                assert(longer.last() == c);
            }
            if c >= '0' && c <= '9' {
                let digit: u64 = (c as u32 - '0' as u32) as u64;
                if !over {
                    value = value * 10 + digit;
                    if value > limit {
                        over = true;
                    }
                }
            } else {
                clean = false;
            }
            seen = seen + 1;
        }
        index = index + 1;
    }
    proof {
        assert(seen == digits.len());
        assert(digits.take(seen as int) =~= digits);
    }
    if clean && seen > 0 && !over {
        Some(value)
    } else {
        None
    }
}

/// The two settings: the largest upload in bytes, which is the body limit
/// in megabytes times 1048576, and the port. A setting that is missing takes
/// its default, five megabytes and port 5020.
pub fn get_env(body_limit_mb: Option<&str>, port: Option<&str>) -> (r: Result<
    (usize, u16),
    ConfigError,
>)
    ensures
        match settings_of(
            match body_limit_mb {
                Some(text) => Some(text@),
                None => None,
            },
            match port {
                Some(text) => Some(text@),
                None => None,
            },
        ) {
            Ok(settings) => r matches Ok(got) && got.0 == settings.0 && got.1 == settings.1,
            Err(error) => r == Err::<(usize, u16), ConfigError>(error),
        },
{
    let most: u64 = (usize::MAX / MEGABYTE) as u64;
    let megabytes: usize = match body_limit_mb {
        None => DEFAULT_BODY_LIMIT_MB,
        Some(text) => match parse_number(text, most) {
            Some(value) => value as usize,
            None => {
                return Err(ConfigError::BodyLimit);
            },
        },
    };
    let port_number: u16 = match port {
        None => DEFAULT_PORT,
        Some(text) => match parse_number(text, 65_535) {
            Some(value) => value as u16,
            None => {
                return Err(ConfigError::Port);
            },
        },
    };
    Ok((megabytes * MEGABYTE, port_number))
}

} // verus!
