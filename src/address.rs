use vstd::prelude::*;
use crate::ip::{lemma_text_has_no_colon, Ipv4Address};
use crate::ip6::{lemma_text_has_colon, lemma_text_injective, Ipv6Address};

verus! {

/// An IP address of either family.
#[derive(Clone, Copy, Debug, PartialEq, Eq)]
pub enum IpAddress {
    V4(Ipv4Address),
    V6(Ipv6Address),
}

impl IpAddress {
    /// The canonical text of the address.
    pub open spec fn text(self) -> Seq<char> {
        match self {
            IpAddress::V4(a) => a.text(),
            IpAddress::V6(a) => a.text(),
        }
    }

    /// Formats the address in its canonical text.
    pub fn to_text(&self) -> (r: String)
        ensures
            r@ == self.text(),
    {
        match self {
            IpAddress::V4(a) => a.to_text(),
            IpAddress::V6(a) => a.to_text(),
        }
    }

    /// Whether `s` is a literal for the address: the dotted-decimal text of
    /// an IPv4 address, or any spelling of an IPv6 address.
    pub open spec fn denoted_by(self, s: Seq<char>) -> bool {
        match self {
            IpAddress::V4(a) => a.text() == s,
            IpAddress::V6(a) => crate::ip6_parse::denotes(s, a),
        }
    }

    /// Parses an IP address literal of either family: it returns the
    /// address that `s` is a literal for, and `None` where there is none.
    pub fn parse(s: &str) -> (r: Option<IpAddress>)
        ensures
            r matches Some(ip) ==> ip.denoted_by(s@),
            forall|a: IpAddress| a.denoted_by(s@) ==> r == Some(a),
    {
        match Ipv4Address::parse(s) {
            Some(v4) => {
                proof {
                    assert forall|a: IpAddress| a.denoted_by(s@) implies Some(IpAddress::V4(v4)) == Some(a) by {
                        match a {
                            IpAddress::V4(w) => {
                                crate::ip::lemma_parse_format_round_trip(s@, v4);
                            },
                            IpAddress::V6(w) => {
                                crate::ip6_parse::lemma_literal_has_colon(s@, w);
                                lemma_text_has_no_colon(v4);
                            },
                        }
                    }
                }
                Some(IpAddress::V4(v4))
            },
            None => match Ipv6Address::parse(s) {
                Some(v6) => Some(IpAddress::V6(v6)),
                None => None,
            },
        }
    }
}

/// Parsing a literal and formatting the address it names gives the
/// canonical text of that address, which is itself a literal for it, so
/// that parsing it again gives the same address; no other address has
/// that canonical text.
pub proof fn lemma_parse_format_round_trip(s: Seq<char>, ip: IpAddress)
    requires
        ip.denoted_by(s),
    ensures
        ip.denoted_by(ip.text()),
        forall|other: IpAddress| other.text() == ip.text() ==> other == ip,
{
    let t = ip.text();
    if let IpAddress::V6(a) = ip {
        crate::ip6_parse::lemma_text_denotes(a);
    }
    assert forall|other: IpAddress| other.text() == t implies other == ip by {
        match (ip, other) {
            (IpAddress::V4(a), IpAddress::V4(b)) => {
                crate::ip::lemma_parse_format_round_trip(t, a);
            },
            (IpAddress::V6(a), IpAddress::V6(b)) => {
                lemma_text_injective(a, b);
            },
            (IpAddress::V4(a), IpAddress::V6(b)) => {
                lemma_text_has_colon(b);
                lemma_text_has_no_colon(a);
            },
            (IpAddress::V6(a), IpAddress::V4(b)) => {
                lemma_text_has_colon(a);
                lemma_text_has_no_colon(b);
            },
        }
    }
}

} // verus!
