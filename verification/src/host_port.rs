//! Reading a host and port from text.

use crate::error::Error;
use crate::error::Malformed;
use crate::metainfo::HostPort;
use crate::metainfo::HostPortView;
use crate::urls::host_normal_form;
use crate::urls::host_parse;
use vstd::prelude::*;
use vstd::string::StrSliceExecFns;

verus! {

/// `c` is an ASCII digit.
pub open spec fn is_digit(c: char) -> bool {
    '0' <= c <= '9'
}

/// Every character of `s` is an ASCII digit.
pub open spec fn all_digits(s: Seq<char>) -> bool {
    forall|i: int| 0 <= i < s.len() ==> is_digit(#[trigger] s[i])
}

/// The number that the digits `s` stand for.
pub open spec fn digits_value(s: Seq<char>) -> nat
    decreases s.len(),
{
    if s.len() == 0 {
        0
    } else {
        digits_value(s.drop_last()) * 10 + (s.last() as u32 - 48) as nat
    }
}

/// The position of the last `c` among the first `n` characters of `s`, or
/// -1 where there is none.
pub open spec fn last_index(s: Seq<char>, c: char, n: int) -> int
    decreases n,
{
    if n <= 0 {
        -1
    } else if s[n - 1] == c {
        n - 1
    } else {
        last_index(s, c, n - 1)
    }
}

/// Where `text` parts into host and port: at its last colon, if digits
/// follow it to the end, and at least one.
pub open spec fn port_colon(text: Seq<char>) -> Option<int> {
    let colon = last_index(text, ':', text.len() as int);
    let port = text.subrange(colon + 1, text.len() as int);
    if colon < 0 || port.len() == 0 || !all_digits(port) {
        None
    } else {
        Some(colon)
    }
}

/// The host and port made of the host `host`, if the host could be read,
/// and the port `port`: the host is looked at first, then the port must be
/// below 65536.
pub open spec fn host_port_from(host: Option<Seq<char>>, port: nat) -> Result<HostPortView, Error> {
    match host {
        None => Err(Error::CliParse { what: Malformed::Host }),
        Some(h) => if port > 65535 {
            Err(Error::CliParse { what: Malformed::Port })
        } else {
            Ok(HostPortView { host: h, port: port as u16 })
        },
    }
}

/// The host and port that `text` stands for. The port is what follows the
/// last colon, in decimal digits, and the host what comes before it. Without
/// a colon followed by digits to the end the port is missing.
pub open spec fn host_port_of(text: Seq<char>) -> Result<HostPortView, Error> {
    match port_colon(text) {
        None => Err(Error::CliParse { what: Malformed::PortMissing }),
        Some(colon) => host_port_from(
            host_normal_form(text.subrange(0, colon)),
            digits_value(text.subrange(colon + 1, text.len() as int)),
        ),
    }
}

/// A port number as read from digits: the number itself, or that it is
/// 65536 or more.
#[derive(Clone, Copy, Debug, PartialEq, Eq, Structural)]
pub enum PortText {
    InRange(u16),
    TooLarge,
}

/// The text of a host and the port behind it.
pub struct HostAndPort<'a> {
    pub host: &'a str,
    pub port: PortText,
}

/// Parts `text` at its last colon into the text of a host and a port
/// number, if digits follow that colon to the end, and at least one.
pub fn split_host_port<'a>(text: &'a str) -> (r: Option<HostAndPort<'a>>)
    ensures
        r is Some <==> port_colon(text@) is Some,
        r matches Some(parts) ==> {
            let colon = port_colon(text@)->Some_0;
            let port = digits_value(text@.subrange(colon + 1, text@.len() as int));
            &&& parts.host@ == text@.subrange(0, colon)
            &&& parts.port == (if port > 65535 {
                PortText::TooLarge
            } else {
                PortText::InRange(port as u16)
            })
        },
{
    let n = text.unicode_len();
    let mut colon: usize = n;
    let mut found = false;
    while !found && colon > 0
        invariant
            colon <= n,
            n == text@.len(),
            found ==> colon < n && text@[colon as int] == ':' && last_index(text@, ':', n as int)
                == colon,
            !found ==> last_index(text@, ':', n as int) == last_index(text@, ':', colon as int),
        decreases colon + (if found { 0int } else { 1int }),
    {
        colon = colon - 1;
        if text.get_char(colon) == ':' {
            found = true;
        }
    }
    if !found {
        return None;
    }
    let ghost port = text@.subrange(colon + 1, n as int);
    if colon + 1 == n {
        return None;
    }
    let mut value: u32 = 0;
    let mut in_range = true;
    let mut i: usize = colon + 1;
    assert(port.take(0) =~= Seq::<char>::empty());
    while i < n
        invariant
            colon + 1 <= i <= n,
            colon + 1 < n,
            n == text@.len(),
            last_index(text@, ':', n as int) == colon,
            port == text@.subrange(colon + 1, n as int),
            all_digits(port.take(i - colon - 1)),
            in_range ==> value == digits_value(port.take(i - colon - 1)) && value <= 65535,
            !in_range ==> digits_value(port.take(i - colon - 1)) > 65535,
        decreases n - i,
    {
        let c = text.get_char(i);
        let ghost k = i - colon - 1;
        assert(port[k] == c);
        assert(port.take(k + 1).drop_last() =~= port.take(k));
        if !(c >= '0' && c <= '9') {
            assert(!is_digit(port[k]));
            return None;
        }
        assert forall|j: int| 0 <= j < k + 1 implies is_digit(#[trigger] port.take(k + 1)[j]) by {
            if j < k {
                assert(port.take(k + 1)[j] == port.take(k)[j]);
            }
        }
        if in_range {
            value = value * 10 + (c as u32 - 48);
            if value > 65535 {
                in_range = false;
            }
        }
        i += 1;
    }
    assert(port.take(n - colon - 1) =~= port);
    let host = text.substring_char(0, colon);
    let port = if in_range {
        PortText::InRange(value as u16)
    } else {
        PortText::TooLarge
    };
    Some(HostAndPort { host, port })
}

impl HostPort {
    /// The host and port made of the host `host`, if the host could be
    /// read, and the port `port`.
    pub fn from_parts(host: Option<String>, port: PortText) -> (r: Result<HostPort, Error>)
        ensures
            r is Ok <==> host is Some && port is InRange,
            r matches Ok(node) ==> node.host@ == host->Some_0@ && node.port == port->InRange_0,
            r matches Err(e) ==> e == (if host is None {
                Error::CliParse { what: Malformed::Host }
            } else {
                Error::CliParse { what: Malformed::Port }
            }),
    {
        match host {
            None => Err(Error::CliParse { what: Malformed::Host }),
            Some(host) => match port {
                PortText::InRange(port) => Ok(HostPort { host, port }),
                PortText::TooLarge => Err(Error::CliParse { what: Malformed::Port }),
            },
        }
    }

    /// Reads a host and port of the form `HOST:PORT`.
    pub fn parse(text: &str) -> (r: Result<HostPort, Error>)
        ensures
            match host_port_of(text@) {
                Ok(view) => r matches Ok(node) && node@ == view,
                Err(e) => r == Err::<HostPort, Error>(e),
            },
    {
        match split_host_port(text) {
            None => Err(Error::CliParse { what: Malformed::PortMissing }),
            Some(parts) => {
                let host = match host_parse(parts.host) {
                    Ok(host) => Some(host),
                    Err(_) => None,
                };
                HostPort::from_parts(host, parts.port)
            },
        }
    }
}

} // verus!
