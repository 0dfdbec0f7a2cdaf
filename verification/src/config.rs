//! Application configuration: merging command-line arguments with
//! environment values and defaults.
//!
//! The process boundary reads the environment and parses the command
//! line; the merge itself — flag wins over environment wins over default —
//! and the decimal handling of the port are verified here.

use vstd::prelude::*;
use vstd::string::StringExecFns;
use crate::naming::all_digits;
use crate::naming::dec_value;
use crate::naming::is_digit;

verus! {

/// The four knobs of the server.
#[derive(Debug)]
pub struct AppConfig {
    /// Interface to bind.
    pub host: String,
    /// Port to bind.
    pub port: u16,
    /// Root directory of the payload tree.
    pub storage_dir: String,
    /// Connection string of the metadata store.
    pub database_url: String,
}

/// The command line: each knob optional, plus the migration switch.
#[derive(Debug)]
pub struct Args {
    /// Host to bind to; overrides the environment.
    pub host: Option<String>,
    /// Port to bind to; overrides the environment.
    pub port: Option<u16>,
    /// Directory where objects are stored; overrides the environment.
    pub storage_dir: Option<String>,
    /// Database URL; overrides the environment.
    pub database_url: Option<String>,
    /// Run migrations and exit.
    pub migrate: bool,
}

/// The decimal digit character of a value below ten.
pub open spec fn digit_char(d: int) -> char {
    if d == 0 {
        '0'
    } else if d == 1 {
        '1'
    } else if d == 2 {
        '2'
    } else if d == 3 {
        '3'
    } else if d == 4 {
        '4'
    } else if d == 5 {
        '5'
    } else if d == 6 {
        '6'
    } else if d == 7 {
        '7'
    } else if d == 8 {
        '8'
    } else {
        '9'
    }
}

/// The decimal rendering of a non-negative number, most significant digit
/// first.
pub open spec fn dec_digits(n: int) -> Seq<char>
    decreases n,
{
    if n < 10 {
        seq![digit_char(n)]
    } else {
        dec_digits(n / 10).push(digit_char(n % 10))
    }
}

/// One decimal digit as a string.
fn digit_str(d: u16) -> (r: &'static str)
    requires
        d < 10,
    ensures
        r@ == seq![digit_char(d as int)],
{
    proof {
        reveal_strlit("0");
        reveal_strlit("1");
        reveal_strlit("2");
        reveal_strlit("3");
        reveal_strlit("4");
        reveal_strlit("5");
        reveal_strlit("6");
        reveal_strlit("7");
        reveal_strlit("8");
        reveal_strlit("9");
    }
    match d {
        0 => "0",
        1 => "1",
        2 => "2",
        3 => "3",
        4 => "4",
        5 => "5",
        6 => "6",
        7 => "7",
        8 => "8",
        _ => "9",
    }
}

/// Render a number in decimal.
pub fn u16_dec(n: u16) -> (r: String)
    ensures
        r@ == dec_digits(n as int),
    decreases n,
{
    if n < 10 {
        String::from_str(digit_str(n))
    } else {
        let mut s = u16_dec(n / 10);
        s.append(digit_str(n % 10));
        proof {
            assert(s@ =~= dec_digits((n / 10) as int).push(digit_char((n % 10) as int)));
        }
        s
    }
}

impl AppConfig {
    /// The bind address: `host:port`.
    pub fn addr(&self) -> (r: String)
        ensures
            r@ == self.host@ + seq![':'] + dec_digits(self.port as int),
    {
        proof {
            reveal_strlit(":");
        }
        let mut s = self.host.clone();
        s.append(":");
        let p = u16_dec(self.port);
        s.append(p.as_str());
        proof {
            assert(s@ =~= self.host@ + seq![':'] + dec_digits(self.port as int));
        }
        s
    }

    /// Merge the command line with the environment: a flag wins over the
    /// environment, and each knob has its default.
    pub fn resolve(
        args: Args,
        env_host: Option<String>,
        env_port: Option<u16>,
        env_storage: Option<String>,
        env_db: Option<String>,
    ) -> (r: (AppConfig, bool))
        ensures
            r.0.host@ == (match args.host {
                Some(v) => v@,
                None => match env_host {
                    Some(v) => v@,
                    None => "0.0.0.0"@,
                },
            }),
            r.0.port == (match args.port {
                Some(v) => v,
                None => match env_port {
                    Some(v) => v,
                    None => 3000u16,
                },
            }),
            r.0.storage_dir@ == (match args.storage_dir {
                Some(v) => v@,
                None => match env_storage {
                    Some(v) => v@,
                    None => "./data/objects"@,
                },
            }),
            r.0.database_url@ == (match args.database_url {
                Some(v) => v@,
                None => match env_db {
                    Some(v) => v@,
                    None => "sqlite://./data/meta/object_store.db"@,
                },
            }),
            r.1 == args.migrate,
    {
        let host = match args.host {
            Some(v) => v,
            None => match env_host {
                Some(v) => v,
                None => String::from_str("0.0.0.0"),
            },
        };
        let port = match args.port {
            Some(v) => v,
            None => match env_port {
                Some(v) => v,
                None => 3000,
            },
        };
        let storage_dir = match args.storage_dir {
            Some(v) => v,
            None => match env_storage {
                Some(v) => v,
                None => String::from_str("./data/objects"),
            },
        };
        let database_url = match args.database_url {
            Some(v) => v,
            None => match env_db {
                Some(v) => v,
                None => String::from_str("sqlite://./data/meta/object_store.db"),
            },
        };
        (AppConfig { host, port, storage_dir, database_url }, args.migrate)
    }
}

/// The digits of a port value, after an optional leading plus sign.
pub open spec fn port_digits(s: Seq<u8>) -> Seq<u8> {
    if s.len() > 0 && s[0] == 0x2b {
        s.skip(1)
    } else {
        s
    }
}

/// A byte string parses as a port: an optional `+`, then digits, valuing
/// at most 65535.
pub open spec fn parses_as_port(s: Seq<u8>) -> bool {
    all_digits(port_digits(s)) && dec_value(port_digits(s)) <= 65535
}

/// The value never shrinks as digits arrive.
proof fn lemma_dec_value_grows(s: Seq<u8>, i: int)
    requires
        0 <= i <= s.len(),
        forall|j: int| 0 <= j < s.len() ==> is_digit(#[trigger] s[j]),
    ensures
        dec_value(s.take(i)) >= 0,
        dec_value(s) >= dec_value(s.take(i)),
    decreases s.len(),
{
    if s.len() == 0 {
        assert(s.take(i) =~= s);
    } else if i == s.len() {
        assert(s.take(i) =~= s);
        lemma_dec_value_grows(s.drop_last(), i - 1);
        assert(s.drop_last().take(i - 1) =~= s.drop_last());
    } else {
        assert(s.drop_last().take(i) =~= s.take(i));
        assert(forall|j: int| 0 <= j < s.drop_last().len() ==> is_digit(#[trigger] s.drop_last()[j]));
        lemma_dec_value_grows(s.drop_last(), i);
        assert(dec_value(s) == dec_value(s.drop_last()) * 10 + (s.last() - 0x30));
    }
}

/// Parse a decimal port value, as the environment supplies it.
pub fn parse_port(s: &[u8]) -> (r: Option<u16>)
    ensures
        match r {
            Some(v) => parses_as_port(s@) && v == dec_value(port_digits(s@)),
            None => !parses_as_port(s@),
        },
{
    let slen = s.len();
    let start: usize = if slen > 0 && s[0] == 0x2b {
        1
    } else {
        0
    };
    let ghost ds = port_digits(s@);
    proof {
        assert(ds =~= s@.skip(start as int));
    }
    if slen == start {
        proof {
            assert(!all_digits(ds));
        }
        return None;
    }
    let mut v: u32 = 0;
    let mut i: usize = start;
    while i < slen
        invariant
            start <= i <= slen,
            slen == s@.len(),
            ds == s@.skip(start as int),
            ds == port_digits(s@),
            ds.len() == slen - start,
            v <= 65535,
            v == dec_value(ds.take(i - start)),
            forall|j: int| 0 <= j < i - start ==> is_digit(#[trigger] ds[j]),
        decreases slen - i,
    {
        let b = s[i];
        if b < 0x30 || b > 0x39 {
            proof {
                assert(ds[i - start] == s@[i as int]);
                assert(!all_digits(ds));
            }
            return None;
        }
        proof {
            assert(ds.take(i - start + 1).drop_last() =~= ds.take(i - start));
            assert(ds.take(i - start + 1).last() == s@[i as int]);
        }
        let next = v * 10 + (b - 0x30) as u32;
        if next > 65535 {
            proof {
                assert(all_digits(ds) ==> dec_value(ds) > 65535) by {
                    if all_digits(ds) {
                        lemma_dec_value_grows(ds, i - start + 1);
                    }
                }
            }
            return None;
        }
        v = next;
        i = i + 1;
    }
    proof {
        assert(ds.take(slen - start) =~= ds);
        assert(all_digits(ds));
    }
    Some(v as u16)
}

} // verus!
