//! Application configuration with its defaults and the values that the
//! environment variables may override.

use vstd::prelude::*;

use crate::text::{
    all_digits, decimal_text, decimal_value, digit_value, is_digit, lemma_decimal_round_trip, lemma_decimal_value_prefix,
    lemma_decimal_value_step,
};

verus! {

/// Application configuration.
#[derive(Debug, Clone)]
pub struct Config {
    pub port: u16,
    pub db_path: String,
    pub data_dir: String,
}

pub open spec fn spec_default_port() -> u16 {
    3000
}

/// The port used when none is configured.
pub fn default_port() -> (p: u16)
    ensures
        p == spec_default_port(),
{
    3000
}

/// The database file used when none is configured.
pub fn default_db_path() -> (s: String)
    ensures
        s@ == "./massflowcal.db"@,
{
    String::from_str("./massflowcal.db")
}

/// The data directory used when none is configured.
pub fn default_data_dir() -> (s: String)
    ensures
        s@ == "data"@,
{
    String::from_str("data")
}

impl Default for Config {
    fn default() -> (c: Self)
        ensures
            c.port == spec_default_port(),
            c.db_path@ == "./massflowcal.db"@,
            c.data_dir@ == "data"@,
    {
        Config { port: default_port(), db_path: default_db_path(), data_dir: default_data_dir() }
    }
}

/// The digits of a port number: its text without one leading `+`.
pub open spec fn port_digits(s: Seq<char>) -> Seq<char> {
    if s.len() > 0 && s[0] == '+' {
        s.drop_first()
    } else {
        s
    }
}

/// The port number that a text denotes: an optional `+` and at least one
/// decimal digit, of a value that fits in 16 bits (the grammar of `u16`'s
/// `FromStr`).
pub open spec fn port_number(s: Seq<char>) -> Option<u16> {
    let d = port_digits(s);
    if d.len() > 0 && all_digits(d) && decimal_value(d) <= u16::MAX {
        Some(decimal_value(d) as u16)
    } else {
        None
    }
}

/// Reads a port number from its text; `None` where the text is not one.
pub fn parse_port(s: &str) -> (r: Option<u16>)
    ensures
        r == port_number(s@),
{
    let n = s.unicode_len();
    let start: usize = if n > 0 && s.get_char(0) == '+' { 1 } else { 0 };
    let ghost d = port_digits(s@);
    assert(d =~= s@.subrange(start as int, n as int));
    if start == n {
        return None;
    }
    let mut val: u32 = 0;
    let mut i: usize = start;
    while i < n
        invariant
            start <= i <= n,
            n == s@.len(),
            start < n,
            d =~= s@.subrange(start as int, n as int),
            d == port_digits(s@),
            all_digits(d.take(i - start)),
            val == decimal_value(d.take(i - start)),
            val <= u16::MAX,
        decreases n - i,
    {
        let c = s.get_char(i);
        proof {
            lemma_decimal_value_step(d, i - start);
        }
        if !('0' <= c && c <= '9') {
            assert(!is_digit(d[i - start]));
            return None;
        }
        let dv = (c as u32) - ('0' as u32);
        assert(d.take(i + 1 - start) =~= d.take(i - start).push(c));
        val = val * 10 + dv;
        if val > 65535 {
            proof {
                if all_digits(d) {
                    lemma_decimal_value_prefix(d, i + 1 - start);
                }
            }
            return None;
        }
        i = i + 1;
    }
    assert(d.take(n - start) =~= d);
    Some(val as u16)
}

/// The decimal text of a port number reads back as that port number.
pub proof fn lemma_port_text_round_trip(port: u16)
    ensures
        port_number(decimal_text(port as nat)) == Some(port),
{
    lemma_decimal_round_trip(port as nat);
    let t = decimal_text(port as nat);
    assert(is_digit(t[0]));
    assert(port_digits(t) == t);
}

impl Config {
    /// The configuration from the values of the environment variables for the port,
    /// the database path and the data directory (`None` where one is unset):
    /// an unset or unreadable port, and an unset path, fall back to the
    /// defaults.
    pub fn from_values(port: Option<String>, db_path: Option<String>, data_dir: Option<String>) -> (c: Self)
        ensures
            c.port == (match port {
                Some(p) => match port_number(p@) {
                    Some(v) => v,
                    None => spec_default_port(),
                },
                None => spec_default_port(),
            }),
            c.db_path@ == (match db_path {
                Some(p) => p@,
                None => "./massflowcal.db"@,
            }),
            c.data_dir@ == (match data_dir {
                Some(p) => p@,
                None => "data"@,
            }),
    {
        let port = match port {
            Some(p) => match parse_port(p.as_str()) {
                Some(v) => v,
                None => 3000,
            },
            None => 3000,
        };
        let db_path = match db_path {
            Some(p) => p,
            None => default_db_path(),
        };
        let data_dir = match data_dir {
            Some(p) => p,
            None => default_data_dir(),
        };
        Config { port, db_path, data_dir }
    }
}

} // verus!
