mod text;
pub mod ip;
pub mod ip6;
pub mod ip6_parse;
pub mod address;
pub mod resolve;
pub mod ddns;
