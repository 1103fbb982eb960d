//! Parser for UKHASnet telemetry packets: a grammar over the packet text,
//! a parser proved to follow it, and a report of where and why a packet that
//! does not follow it failed.
use vstd::prelude::*;

pub mod diagnostics;
pub mod grammar;
pub mod packet;
pub mod parser;
pub mod text;
pub mod tokens;

pub use diagnostics::{Rule, Failures, ParserError};
pub use packet::{Decimal, Location, WindSpeed, DataField, Packet, Reading};
pub use parser::{parse_bytes, recognize};
pub use tokens::Token;

use diagnostics::Diag;
use grammar::parse_result;
use packet::PacketV;
use parser::reports;

verus! {

/// Parses a packet from its text, read as UTF-8 bytes.
pub fn parse(packet: &String) -> (r: Result<Packet, ParserError>)
    ensures
        match r {
            Ok(p) => parse_result(vstd::utf8::encode_utf8(packet@)) == Ok::<PacketV, Diag>(p@),
            Err(e) => parse_result(vstd::utf8::encode_utf8(packet@)) is Err && reports(
                e,
                parse_result(vstd::utf8::encode_utf8(packet@))->Err_0,
            ),
        },
{
    parse_bytes(packet.as_str().as_bytes())
}

} // verus!
