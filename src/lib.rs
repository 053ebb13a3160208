//! A codec for the DNS wire message format: a bounded byte cursor, and the
//! header, question, record and packet codecs built on it.

pub mod error;
pub mod name;
pub mod byte_packet_buffer;
pub mod query_type;
pub mod dns_header;
pub mod dns_question;
pub mod dns_record;
pub mod dns_packet;
pub mod round_trip;
