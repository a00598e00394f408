//! Transport-protocol naming for extended socket addresses, with the
//! errors of the address-string parsers.

use vstd::prelude::*;
use vstd::string::StringSliceAdditionalSpecFns;

verus! {

/// The address form in use cannot carry an onion address: only IPv4 or
/// IPv6 work with it.
#[derive(Clone, Copy, Debug, PartialEq, Eq, PartialOrd, Ord, Hash, Structural)]
pub struct NoOnionSupportError;

/// Errors during address string parsing.
#[derive(Clone, Debug, PartialEq, Eq, PartialOrd, Ord, Hash)]
pub enum AddrParseError {
    /// Wrong port number; must be a 16-bit unsigned integer number.
    WrongPortNumber,
    /// Can't recognize an IPv4, IPv6 or onion address in the string.
    WrongAddrFormat(String),
    /// Wrong format of socket address string; the expected form is an
    /// internet address with an optional port.
    WrongSocketFormat(String),
    /// Wrong format of extended socket address string; the expected form
    /// is a transport, `://`, and a socket address.
    WrongSocketExtFormat(String),
    /// Unknown transport protocol name.
    UnknownProtocolError(String),
    /// Onion addresses are not supported by this build.
    NeedsTorFeature,
}

/// ASCII upper-case letters folded to lower case; all else unchanged.
pub open spec fn ascii_lower(c: u8) -> u8 {
    if 65 <= c <= 90 {
        (c + 32) as u8
    } else {
        c
    }
}

/// A byte string folded to ASCII lower case.
pub open spec fn lower_bytes(s: Seq<u8>) -> Seq<u8> {
    s.map_values(|c: u8| ascii_lower(c))
}

/// Transport protocols that may be part of an extended socket address.
#[derive(Clone, Copy, Debug, PartialEq, Eq, PartialOrd, Ord, Hash, Structural)]
pub enum Transport {
    /// Normal TCP.
    Tcp,
    /// Normal UDP.
    Udp,
    /// Multipath TCP version.
    Mtcp,
    /// More efficient UDP version under development by Google and a
    /// consortium of other companies.
    Quic,
}

/// The lower-case ASCII name of each transport.
pub open spec fn transport_name(t: Transport) -> Seq<u8> {
    match t {
        Transport::Tcp => seq![116u8, 99u8, 112u8],
        Transport::Udp => seq![117u8, 100u8, 112u8],
        Transport::Mtcp => seq![109u8, 116u8, 99u8, 112u8],
        Transport::Quic => seq![113u8, 117u8, 105u8, 99u8],
    }
}

impl Default for Transport {
    /// TCP is the default transport.
    fn default() -> (r: Self)
        ensures
            r == Transport::Tcp,
    {
        Transport::Tcp
    }
}

/// Folds one byte to ASCII lower case.
fn lower_byte(c: u8) -> (r: u8)
    ensures
        r == ascii_lower(c),
{
    if 65 <= c && c <= 90 {
        c + 32
    } else {
        c
    }
}

impl Transport {
    /// The transport's lower-case name.
    pub fn to_str(&self) -> (r: &'static str)
        ensures
            match *self {
                Transport::Tcp => r@ == "tcp"@,
                Transport::Udp => r@ == "udp"@,
                Transport::Mtcp => r@ == "mtcp"@,
                Transport::Quic => r@ == "quic"@,
            },
    {
        match self {
            Transport::Tcp => "tcp",
            Transport::Udp => "udp",
            Transport::Mtcp => "mtcp",
            Transport::Quic => "quic",
        }
    }

    /// Parses a transport name, ignoring ASCII case: exactly the strings
    /// whose lower-case form is a transport's name are accepted, and any
    /// other string is reported back inside the error.
    pub fn from_str(s: &str) -> (r: Result<Transport, AddrParseError>)
        ensures
            match r {
                Ok(t) => lower_bytes(s.spec_bytes()) == transport_name(t),
                Err(e) => {
                    &&& forall|t: Transport|
                        lower_bytes(s.spec_bytes()) != #[trigger] transport_name(t)
                    &&& e matches AddrParseError::UnknownProtocolError(m) && m@ == s@
                },
            },
    {
        let b = s.as_bytes();
        let ghost lb = lower_bytes(s.spec_bytes());
        proof {
            assert(lb.len() == b@.len());
            assert(forall|i: int| 0 <= i < b@.len() ==> lb[i] == ascii_lower(b@[i]));
        }
        let n = b.len();
        if n == 3 {
            let c0 = lower_byte(b[0]);
            let c1 = lower_byte(b[1]);
            let c2 = lower_byte(b[2]);
            if c0 == 116 && c1 == 99 && c2 == 112 {
                proof {
                    assert(lb =~= transport_name(Transport::Tcp));
                }
                return Ok(Transport::Tcp);
            }
            if c0 == 117 && c1 == 100 && c2 == 112 {
                proof {
                    assert(lb =~= transport_name(Transport::Udp));
                }
                return Ok(Transport::Udp);
            }
        } else if n == 4 {
            let c0 = lower_byte(b[0]);
            let c1 = lower_byte(b[1]);
            let c2 = lower_byte(b[2]);
            let c3 = lower_byte(b[3]);
            if c0 == 109 && c1 == 116 && c2 == 99 && c3 == 112 {
                proof {
                    assert(lb =~= transport_name(Transport::Mtcp));
                }
                return Ok(Transport::Mtcp);
            }
            if c0 == 113 && c1 == 117 && c2 == 105 && c3 == 99 {
                proof {
                    assert(lb =~= transport_name(Transport::Quic));
                }
                return Ok(Transport::Quic);
            }
        }
        proof {
            assert forall|t: Transport| lb != #[trigger] transport_name(t) by {
                match t {
                    Transport::Tcp => {
                        if lb == transport_name(Transport::Tcp) {
                            assert(lb[0] == 116 && lb[1] == 99 && lb[2] == 112);
                        }
                    },
                    Transport::Udp => {
                        if lb == transport_name(Transport::Udp) {
                            assert(lb[0] == 117 && lb[1] == 100 && lb[2] == 112);
                        }
                    },
                    Transport::Mtcp => {
                        if lb == transport_name(Transport::Mtcp) {
                            assert(lb[0] == 109 && lb[1] == 116 && lb[2] == 99 && lb[3] == 112);
                        }
                    },
                    Transport::Quic => {
                        if lb == transport_name(Transport::Quic) {
                            assert(lb[0] == 113 && lb[1] == 117 && lb[2] == 105 && lb[3] == 99);
                        }
                    },
                }
            }
        }
        Err(AddrParseError::UnknownProtocolError(s.to_owned()))
    }
}

} // verus!
