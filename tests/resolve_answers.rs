use std::time::Duration;
use wan_ddns::address::IpAddress;
use wan_ddns::ip::Ipv4Address;
use wan_ddns::ip6::Ipv6Address;
use wan_ddns::resolve::{
    first_a_record, first_txt_record_text, nameserver_address, nameserver_endpoint,
    nameserver_from_response, nameserver_query, txt_record_text, wan_ip_from_answers,
    wan_ip_from_dig_output, wan_ip_from_response, wan_ip_query, DnsAnswer, ResolveError,
};

fn addr(a: u8, b: u8, c: u8, d: u8) -> Ipv4Address {
    Ipv4Address { a, b, c, d }
}

fn v4(a: u8, b: u8, c: u8, d: u8) -> IpAddress {
    IpAddress::V4(addr(a, b, c, d))
}

fn txt(chunks: &[&[u8]]) -> DnsAnswer {
    DnsAnswer::Txt(chunks.iter().map(|c| c.to_vec()).collect())
}

#[test]
fn first_a_record_is_taken() {
    let answers = vec![DnsAnswer::Other, DnsAnswer::A(addr(216, 239, 32, 10)), DnsAnswer::A(addr(1, 1, 1, 1))];
    assert_eq!(first_a_record(&answers), Some(addr(216, 239, 32, 10)));
    assert_eq!(nameserver_address(&answers), Ok(addr(216, 239, 32, 10)));
}

#[test]
fn no_a_record_is_an_error() {
    let answers = vec![DnsAnswer::Other, txt(&[b"1.2.3.4"])];
    assert_eq!(first_a_record(&answers), None);
    assert_eq!(nameserver_address(&answers), Err(ResolveError::NoAddressRecord));
    assert_eq!(nameserver_address(&vec![]), Err(ResolveError::NoAddressRecord));
}

#[test]
fn txt_text_is_the_last_string() {
    let chunks = vec![b"first".to_vec(), b"203.0.113.7".to_vec()];
    assert_eq!(txt_record_text(&chunks), Some("203.0.113.7".to_string()));
    assert_eq!(txt_record_text(&vec![]), None);
    assert_eq!(txt_record_text(&vec![vec![0xff, 0xfe]]), None);
}

#[test]
fn only_the_first_txt_record_is_read() {
    let answers = vec![DnsAnswer::A(addr(1, 2, 3, 4)), txt(&[&[0xc3, 0x28]]), txt(&[b"x", b"203.0.113.7"])];
    assert_eq!(first_txt_record_text(&answers), None);
    assert_eq!(wan_ip_from_answers(&answers), Err(ResolveError::NoTextRecord));
    let answers = vec![DnsAnswer::Other, txt(&[b"x", b"203.0.113.7"]), txt(&[b"198.51.100.1"])];
    assert_eq!(first_txt_record_text(&answers), Some("203.0.113.7".to_string()));
    assert_eq!(wan_ip_from_answers(&answers), Ok(v4(203, 0, 113, 7)));
}

#[test]
fn wan_ip_may_be_ipv6() {
    let answers = vec![txt(&[b"2001:db8::7"])];
    let expected = IpAddress::V6(Ipv6Address { segments: [0x2001, 0xdb8, 0, 0, 0, 0, 0, 7] });
    assert_eq!(wan_ip_from_answers(&answers), Ok(expected));
    assert_eq!(wan_ip_from_dig_output(b"\"2001:db8::7\"\n".to_vec()), Ok(expected));
    let long = vec![txt(&[b"2001:db8:0:0:0:0:0:7"])];
    assert_eq!(wan_ip_from_answers(&long), Ok(expected));
    assert_eq!(wan_ip_from_answers(&vec![txt(&[b"2001:DB8::7"])]), Ok(expected));
}

#[test]
fn wan_ip_errors() {
    assert_eq!(wan_ip_from_answers(&vec![DnsAnswer::Other]), Err(ResolveError::NoTextRecord));
    assert_eq!(wan_ip_from_answers(&vec![txt(&[b"not an ip"])]), Err(ResolveError::NotAnAddress));
}

#[test]
fn endpoint_is_port_53() {
    assert_eq!(nameserver_endpoint(&addr(216, 239, 32, 10)), "216.239.32.10:53");
}

#[test]
fn dig_output_is_unquoted_and_parsed() {
    assert_eq!(wan_ip_from_dig_output(b"\"203.0.113.7\"\n".to_vec()), Ok(v4(203, 0, 113, 7)));
    assert_eq!(wan_ip_from_dig_output(b"203.0.113.7\n".to_vec()), Ok(v4(203, 0, 113, 7)));
    assert_eq!(wan_ip_from_dig_output(b"\"203.0.113.7\"".to_vec()), Ok(v4(203, 0, 113, 7)));
}

#[test]
fn dig_output_errors() {
    assert_eq!(wan_ip_from_dig_output(vec![0xff, 0x31]), Err(ResolveError::NotText));
    assert_eq!(wan_ip_from_dig_output(b"\";; connection timed out\"\n".to_vec()), Err(ResolveError::NotAnAddress));
    assert_eq!(wan_ip_from_dig_output(b"\"1.2.3.4\"\n\n".to_vec()), Err(ResolveError::NotAnAddress));
    assert_eq!(wan_ip_from_dig_output(vec![]), Err(ResolveError::NotAnAddress));
    assert_eq!(wan_ip_from_dig_output(b"\"2001:db8::1::\"\n".to_vec()), Err(ResolveError::NotAnAddress));
}

#[test]
fn queries_ask_one_question() {
    let mut expected = rustdns::Message::default();
    expected.add_question("ns1.google.com", rustdns::Type::A, rustdns::Class::Internet);
    let q = nameserver_query();
    assert_eq!(q.questions, expected.questions);
    assert_eq!(q.questions[0].name, "ns1.google.com.");
    let mut expected = rustdns::Message::default();
    expected.add_question("o-o.myaddr.1.google.com", rustdns::Type::TXT, rustdns::Class::Internet);
    let q = wan_ip_query();
    assert_eq!(q.questions, expected.questions);
    assert_eq!(q.questions[0].name, "o-o.myaddr.1.google.com.");
}

fn response(resources: Vec<rustdns::Resource>) -> rustdns::Message {
    let mut m = rustdns::Message::default();
    for r in resources {
        m.answers.push(rustdns::Record::new("example.", rustdns::Class::Internet, Duration::from_secs(60), r));
    }
    m
}

#[test]
fn responses_are_read() {
    let m = response(vec![
        rustdns::Resource::TXT(rustdns::TXT(vec![b"x".to_vec()])),
        rustdns::Resource::A(rustdns::A::new(216, 239, 32, 10)),
    ]);
    assert_eq!(nameserver_from_response(&m), Ok(addr(216, 239, 32, 10)));
    let m = response(vec![rustdns::Resource::TXT(rustdns::TXT(vec![b"203.0.113.7".to_vec()]))]);
    assert_eq!(wan_ip_from_response(&m), Ok(v4(203, 0, 113, 7)));
    assert_eq!(nameserver_from_response(&m), Err(ResolveError::NoAddressRecord));
    let m = response(vec![]);
    assert_eq!(wan_ip_from_response(&m), Err(ResolveError::NoTextRecord));
}
