//! The status line: protocol version, numeric status code and reason phrase.
use vstd::prelude::*;

verus! {

/// The HTTP version that a response line names.
#[derive(Clone, Copy, Debug, PartialEq, Eq, Structural)]
pub enum HttpVersion {
    Http09,
    Http10,
    Http11,
    Http20,
}

/// The numeric status code and the reason phrase, as the server sent them.
#[derive(Clone, Debug)]
pub struct RawStatus {
    pub code: u16,
    pub reason: Vec<u8>,
}

/// A status code of the closed set that this library knows: 100 to 599.
#[derive(Clone, Copy, Debug, PartialEq, Eq, Structural)]
pub struct StatusCode {
    code: u16,
}

pub open spec fn is_known_status(code: u16) -> bool {
    100 <= code <= 599
}

impl StatusCode {
    pub closed spec fn view(&self) -> u16 {
        self.code
    }

    /// The status that `code` stands for, if it is a known one.
    pub fn from_u16(code: u16) -> (r: Option<StatusCode>)
        ensures
            r.is_some() <==> is_known_status(code),
            r matches Some(s) ==> s@ == code,
    {
        if 100 <= code && code <= 599 {
            Some(StatusCode { code })
        } else {
            None
        }
    }

    /// The numeric code.
    pub fn to_u16(&self) -> (r: u16)
        ensures
            r == self@,
    {
        self.code
    }
}

pub open spec fn is_digit(b: u8) -> bool {
    0x30 <= b <= 0x39
}

pub open spec fn digit_value(b: u8) -> nat {
    (b - 0x30) as nat
}

/// The version named by the digits `major.minor`, if it is one of the known versions.
pub open spec fn version_of(major: u8, minor: u8) -> Option<HttpVersion> {
    if major == 0x30 && minor == 0x39 {
        Some(HttpVersion::Http09)
    } else if major == 0x31 && minor == 0x30 {
        Some(HttpVersion::Http10)
    } else if major == 0x31 && minor == 0x31 {
        Some(HttpVersion::Http11)
    } else if major == 0x32 && minor == 0x30 {
        Some(HttpVersion::Http20)
    } else {
        None
    }
}

/// A line without its final carriage return, if it has one.
pub open spec fn strip_cr(l: Seq<u8>) -> Seq<u8> {
    if l.len() > 0 && l.last() == 0x0d {
        l.drop_last()
    } else {
        l
    }
}

/// The prefix `HTTP/` of every status line.
pub open spec fn http_prefix() -> Seq<u8> {
    seq![0x48u8, 0x54, 0x54, 0x50, 0x2f]
}

/// What a status line `HTTP/<d>.<d> <ddd>[ <reason>]` (optionally ending in a
/// carriage return) holds: the version, the three-digit code and the reason.
pub open spec fn parse_status_spec(line: Seq<u8>) -> Option<(HttpVersion, u16, Seq<u8>)> {
    let b = strip_cr(line);
    if b.len() >= 12 && b.take(5) == http_prefix() && b[6] == 0x2e && b[8] == 0x20
        && is_digit(b[9]) && is_digit(b[10]) && is_digit(b[11]) && (b.len() == 12 || b[12]
        == 0x20) && version_of(b[5], b[7]).is_some() {
        let code = digit_value(b[9]) * 100 + digit_value(b[10]) * 10 + digit_value(b[11]);
        let reason = if b.len() == 12 {
            Seq::<u8>::empty()
        } else {
            b.subrange(13, b.len() as int)
        };
        Some((version_of(b[5], b[7]).unwrap(), code as u16, reason))
    } else {
        None
    }
}

fn version_from_digits(major: u8, minor: u8) -> (r: Option<HttpVersion>)
    ensures
        r == version_of(major, minor),
{
    if major == 0x30 && minor == 0x39 {
        Some(HttpVersion::Http09)
    } else if major == 0x31 && minor == 0x30 {
        Some(HttpVersion::Http10)
    } else if major == 0x31 && minor == 0x31 {
        Some(HttpVersion::Http11)
    } else if major == 0x32 && minor == 0x30 {
        Some(HttpVersion::Http20)
    } else {
        None
    }
}

/// Parses a status line (the bytes before its line feed).
pub fn parse_status_line(line: &Vec<u8>) -> (r: Option<(HttpVersion, RawStatus)>)
    ensures
        match parse_status_spec(line@) {
            Some((v, code, reason)) => r matches Some((rv, rs)) && rv == v && rs.code == code
                && rs.reason@ == reason,
            None => r is None,
        },
{
    let n: usize = if line.len() > 0 && line[line.len() - 1] == 0x0d {
        line.len() - 1
    } else {
        line.len()
    };
    let ghost b = strip_cr(line@);
    assert(b =~= line@.take(n as int));
    if n < 12 {
        return None;
    }
    if !(line[0] == 0x48 && line[1] == 0x54 && line[2] == 0x54 && line[3] == 0x50 && line[4]
        == 0x2f) {
        assert(b.take(5)[0] != http_prefix()[0] || b.take(5)[1] != http_prefix()[1] || b.take(
            5,
        )[2] != http_prefix()[2] || b.take(5)[3] != http_prefix()[3] || b.take(5)[4]
            != http_prefix()[4]);
        return None;
    }
    assert(b.take(5) =~= http_prefix());
    if !(line[6] == 0x2e && line[8] == 0x20) {
        return None;
    }
    let d0 = line[9];
    let d1 = line[10];
    let d2 = line[11];
    if !(0x30 <= d0 && d0 <= 0x39 && 0x30 <= d1 && d1 <= 0x39 && 0x30 <= d2 && d2 <= 0x39) {
        return None;
    }
    if !(n == 12 || line[12] == 0x20) {
        return None;
    }
    let version = match version_from_digits(line[5], line[7]) {
        Some(v) => v,
        None => return None,
    };
    let code: u16 = ((d0 - 0x30) as u16) * 100 + ((d1 - 0x30) as u16) * 10 + ((d2 - 0x30) as u16);
    let mut reason: Vec<u8> = Vec::new();
    if n > 12 {
        let mut i: usize = 13;
        while i < n
            invariant
                13 <= i <= n <= line.len(),
                reason@ == line@.subrange(13, i as int),
            decreases n - i,
        {
            reason.push(line[i]);
            i = i + 1;
            assert(reason@ =~= line@.subrange(13, i as int));
        }
        assert(reason@ =~= b.subrange(13, b.len() as int));
    } else {
        assert(reason@ =~= Seq::<u8>::empty());
    }
    Some((version, RawStatus { code, reason }))
}

} // verus!
