use vstd::prelude::*;
use vstd::string::*;
use vstd::utf8::{decode_utf8, valid_utf8};
use crate::address::IpAddress;
use crate::ip::Ipv4Address;
use crate::text::{push_char, utf8_to_string};

verus! {

/// The public recursive resolver that is asked for the nameserver's address.
pub const PUBLIC_RESOLVER: &'static str = "8.8.8.8:53";

/// The nameserver that reports the address a query came from.
pub const NAMESERVER_NAME: &'static str = "ns1.google.com";

/// The name whose TXT record holds the requester's address, as asked of the
/// nameserver directly over the DNS protocol.
pub const WAN_IP_TXT_NAME: &'static str = "o-o.myaddr.1.google.com";

/// The name whose TXT record holds the requester's address, as asked
/// through the `dig` lookup utility.
pub const DIG_TXT_NAME: &'static str = "o-o.myaddr.l.google.com";

/// One resource record of a DNS answer section, as far as address
/// discovery reads it.
#[derive(Debug)]
pub enum DnsAnswer {
    /// An A record and its address.
    A(Ipv4Address),
    /// A TXT record and its character strings, in order.
    Txt(Vec<Vec<u8>>),
    /// A record of any other type.
    Other,
}

/// The record type asked for by a query.
#[derive(Clone, Copy, Debug, PartialEq, Eq, Structural)]
pub enum QueryKind {
    /// An IPv4 address record.
    A,
    /// A text record.
    Txt,
}

#[verifier::external_type_specification]
#[verifier::external_body]
pub struct ExMessage(rustdns::Message);

/// The questions of a message: each name, as stored, with its record type.
pub uninterp spec fn questions_of(m: rustdns::Message) -> Seq<(Seq<char>, QueryKind)>;

/// The answer section of a message, record by record.
pub uninterp spec fn answers_of(m: rustdns::Message) -> Seq<DnsAnswer>;

/// Relies on `rustdns::Message::default` and `Message::add_question`: a
/// query with a fresh random id and one Internet-class question, whose name
/// `add_question` stores normalised with a trailing dot. The names asked for
/// here are lowercase ASCII domain names, which normalising leaves as they
/// are and on which `add_question` does not panic.
#[verifier::external_body]
fn new_query(name: &str, kind: QueryKind) -> (m: rustdns::Message)
    requires
        name@ == NAMESERVER_NAME@ || name@ == WAN_IP_TXT_NAME@,
    ensures
        questions_of(m) == seq![(name@ + seq!['.'], kind)],
{
    let t = match kind {
        QueryKind::A => rustdns::Type::A,
        QueryKind::Txt => rustdns::Type::TXT,
    };
    let mut m = rustdns::Message::default();
    m.add_question(name, t, rustdns::Class::Internet);
    m
}

/// Relies on the `answers` of a decoded `rustdns::Message`: each record of
/// the answer section, in order, with its A address or its TXT strings.
#[verifier::external_body]
fn answer_section(m: &rustdns::Message) -> (r: Vec<DnsAnswer>)
    ensures
        r@ == answers_of(*m),
{
    m.answers.iter().map(|rec| match &rec.resource {
        rustdns::Resource::A(ip) => {
            let o = ip.octets();
            DnsAnswer::A(Ipv4Address { a: o[0], b: o[1], c: o[2], d: o[3] })
        },
        rustdns::Resource::TXT(t) => DnsAnswer::Txt(t.0.clone()),
        _ => DnsAnswer::Other,
    }).collect()
}

/// Why the WAN address could not be found.
#[derive(Clone, Copy, Debug, PartialEq, Eq, Structural)]
pub enum ResolveError {
    /// The resolver's answer held no A record for the nameserver.
    NoAddressRecord,
    /// The nameserver's answer held no TXT record with UTF-8 text.
    NoTextRecord,
    /// The lookup utility's output was not UTF-8 text.
    NotText,
    /// The text found is not an IP address literal.
    NotAnAddress,
}

/// The text of a TXT record: its last character string, when that is UTF-8.
pub open spec fn txt_text(chunks: Seq<Vec<u8>>) -> Option<Seq<char>> {
    if chunks.len() == 0 {
        None
    } else if valid_utf8(chunks.last()@) {
        Some(decode_utf8(chunks.last()@))
    } else {
        None
    }
}

/// The address of the first A record at index `i` or later.
pub open spec fn first_a_from(answers: Seq<DnsAnswer>, i: int) -> Option<Ipv4Address>
    decreases answers.len() - i,
{
    if i < 0 || i >= answers.len() {
        None
    } else {
        match answers[i] {
            DnsAnswer::A(ip) => Some(ip),
            _ => first_a_from(answers, i + 1),
        }
    }
}

/// The text of the first TXT record at index `i` or later; `None` where
/// there is no TXT record or the first one has no UTF-8 text.
pub open spec fn first_txt_from(answers: Seq<DnsAnswer>, i: int) -> Option<Seq<char>>
    decreases answers.len() - i,
{
    if i < 0 || i >= answers.len() {
        None
    } else {
        match answers[i] {
            DnsAnswer::Txt(chunks) => txt_text(chunks@),
            _ => first_txt_from(answers, i + 1),
        }
    }
}

/// The address of the first A record of an answer section.
pub fn first_a_record(answers: &Vec<DnsAnswer>) -> (r: Option<Ipv4Address>)
    ensures
        r == first_a_from(answers@, 0),
{
    let mut i: usize = 0;
    while i < answers.len()
        invariant
            i <= answers@.len(),
            first_a_from(answers@, 0) == first_a_from(answers@, i as int),
        decreases answers@.len() - i,
    {
        match &answers[i] {
            DnsAnswer::A(ip) => {
                return Some(*ip);
            },
            _ => {},
        }
        i = i + 1;
    }
    None
}

/// The text of a TXT record's last character string, when that is UTF-8.
pub fn txt_record_text(chunks: &Vec<Vec<u8>>) -> (r: Option<String>)
    ensures
        r matches Some(s) ==> txt_text(chunks@) == Some(s@),
        r is None ==> txt_text(chunks@) is None,
{
    let n = chunks.len();
    if n == 0 {
        return None;
    }
    let last = chunks[n - 1].clone();
    proof {
        assert(last@ == chunks@.last()@);
    }
    utf8_to_string(last)
}

/// The text of the first TXT record of an answer section, when its last
/// string is UTF-8.
pub fn first_txt_record_text(answers: &Vec<DnsAnswer>) -> (r: Option<String>)
    ensures
        r matches Some(s) ==> first_txt_from(answers@, 0) == Some(s@),
        r is None ==> first_txt_from(answers@, 0) is None,
{
    let mut i: usize = 0;
    while i < answers.len()
        invariant
            i <= answers@.len(),
            first_txt_from(answers@, 0) == first_txt_from(answers@, i as int),
        decreases answers@.len() - i,
    {
        match &answers[i] {
            DnsAnswer::Txt(chunks) => {
                return txt_record_text(chunks);
            },
            _ => {},
        }
        i = i + 1;
    }
    None
}

/// The outcome of reading an address from text: the address it is written
/// as, or `NotAnAddress`.
pub open spec fn address_of(t: Seq<char>) -> Result<IpAddress, ResolveError> {
    if exists|ip: IpAddress| ip.denoted_by(t) {
        Ok(choose|ip: IpAddress| ip.denoted_by(t))
    } else {
        Err(ResolveError::NotAnAddress)
    }
}

/// Parses text as an address, failing with `NotAnAddress`.
pub fn parse_address(t: &str) -> (r: Result<IpAddress, ResolveError>)
    ensures
        r == address_of(t@),
{
    match IpAddress::parse(t) {
        Some(ip) => Ok(ip),
        None => Err(ResolveError::NotAnAddress),
    }
}

/// The nameserver's address, from the public resolver's answer to the A
/// query for the nameserver's name: the first A record.
pub fn nameserver_address(answers: &Vec<DnsAnswer>) -> (r: Result<Ipv4Address, ResolveError>)
    ensures
        r == (match first_a_from(answers@, 0) {
            Some(ip) => Ok(ip),
            None => Err(ResolveError::NoAddressRecord),
        }),
{
    match first_a_record(answers) {
        Some(ip) => Ok(ip),
        None => Err(ResolveError::NoAddressRecord),
    }
}

/// The socket address `<ip>:53` at which a nameserver is asked.
pub fn nameserver_endpoint(ip: &Ipv4Address) -> (r: String)
    ensures
        r@ == ip.text() + seq![':', '5', '3'],
{
    let mut s = ip.to_text();
    push_char(&mut s, ':');
    push_char(&mut s, '5');
    push_char(&mut s, '3');
    s
}

/// The WAN address, from the nameserver's answer to the TXT query: the text
/// of the first TXT record, read as an address.
pub fn wan_ip_from_answers(answers: &Vec<DnsAnswer>) -> (r: Result<IpAddress, ResolveError>)
    ensures
        r == (match first_txt_from(answers@, 0) {
            Some(t) => address_of(t),
            None => Err(ResolveError::NoTextRecord),
        }),
{
    match first_txt_record_text(answers) {
        Some(t) => parse_address(t.as_str()),
        None => Err(ResolveError::NoTextRecord),
    }
}

/// The query sent to the public resolver: the A record of the nameserver.
pub fn nameserver_query() -> (m: rustdns::Message)
    ensures
        questions_of(m) == seq![(NAMESERVER_NAME@ + seq!['.'], QueryKind::A)],
{
    new_query(NAMESERVER_NAME, QueryKind::A)
}

/// The query sent to the nameserver: the TXT record that holds the
/// requester's address.
pub fn wan_ip_query() -> (m: rustdns::Message)
    ensures
        questions_of(m) == seq![(WAN_IP_TXT_NAME@ + seq!['.'], QueryKind::Txt)],
{
    new_query(WAN_IP_TXT_NAME, QueryKind::Txt)
}

/// The nameserver's address, read from the public resolver's response: the
/// address of its first A answer, or `NoAddressRecord`.
pub fn nameserver_from_response(m: &rustdns::Message) -> (r: Result<Ipv4Address, ResolveError>)
    ensures
        r == (match first_a_from(answers_of(*m), 0) {
            Some(ip) => Ok(ip),
            None => Err(ResolveError::NoAddressRecord),
        }),
{
    let answers = answer_section(m);
    nameserver_address(&answers)
}

/// The WAN address, read from the nameserver's response: the first TXT
/// answer, read as an address.
pub fn wan_ip_from_response(m: &rustdns::Message) -> (r: Result<IpAddress, ResolveError>)
    ensures
        r == (match first_txt_from(answers_of(*m), 0) {
            Some(t) => address_of(t),
            None => Err(ResolveError::NoTextRecord),
        }),
{
    let answers = answer_section(m);
    wan_ip_from_answers(&answers)
}

/// The text that the lookup utility printed, without its line end and the
/// quotes round a TXT string: one trailing newline, then one leading and one
/// trailing double quote, each only where present.
pub open spec fn dig_text(out: Seq<char>) -> Seq<char> {
    let t = if out.len() > 0 && out.last() == '\n' {
        out.drop_last()
    } else {
        out
    };
    let u = if t.len() > 0 && t[0] == '"' {
        t.drop_first()
    } else {
        t
    };
    if u.len() > 0 && u.last() == '"' {
        u.drop_last()
    } else {
        u
    }
}

/// The WAN address from what the lookup utility wrote on its standard
/// output: `NotText` where that is not UTF-8, else the address that
/// `dig_text` of it reads as.
pub fn wan_ip_from_dig_output(stdout: Vec<u8>) -> (r: Result<IpAddress, ResolveError>)
    ensures
        r == (if valid_utf8(stdout@) {
            address_of(dig_text(decode_utf8(stdout@)))
        } else {
            Err(ResolveError::NotText)
        }),
{
    let out = match utf8_to_string(stdout) {
        Some(s) => s,
        None => return Err(ResolveError::NotText),
    };
    let s = out.as_str();
    let mut from: usize = 0;
    let mut to: usize = s.unicode_len();
    if to > 0 && s.get_char(to - 1) == '\n' {
        to = to - 1;
    }
    if from < to && s.get_char(from) == '"' {
        from = from + 1;
    }
    if from < to && s.get_char(to - 1) == '"' {
        to = to - 1;
    }
    let inner = s.substring_char(from, to);
    proof {
        assert(inner@ =~= dig_text(s@));
    }
    parse_address(inner)
}

} // verus!
