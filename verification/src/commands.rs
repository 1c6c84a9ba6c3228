//! The commands that the client writes to the feed.

use crate::framing::DELIMITER;
use vstd::prelude::*;
use vstd::slice::slice_to_vec;
use vstd::string::*;
use vstd::utf8::encode_utf8;

verus! {

/// The protocol-negotiation command, written once on connect: the text
/// `S,SET PROTOCOL,6.2` and the delimiter.
pub open spec fn handshake_bytes() -> Seq<u8> {
    seq![
        0x53u8, 0x2C, 0x53, 0x45, 0x54, 0x20, 0x50, 0x52, 0x4F, 0x54, 0x4F, 0x43, 0x4F, 0x4C,
        0x2C, 0x36, 0x2E, 0x32, DELIMITER,
    ]
}

/// The subscribe command for `symbol`: the letter `w`, the symbol's UTF-8
/// bytes, and the delimiter.
pub open spec fn watch_bytes(symbol: Seq<char>) -> Seq<u8> {
    seq![0x77u8] + encode_utf8(symbol) + seq![DELIMITER]
}

/// `text` in upper case, as `str::to_uppercase` gives it.
pub uninterp spec fn uppercase(text: Seq<char>) -> Seq<char>;

/// `str::to_uppercase`: the upper-case equivalent of `text` as a new string.
/// It depends on `text` alone.
#[verifier::external_body]
pub(crate) fn to_uppercase(text: &str) -> (upper: String)
    ensures
        upper@ == uppercase(text@),
{
    text.to_uppercase()
}

/// The protocol-negotiation command.
pub fn handshake() -> (command: Vec<u8>)
    ensures
        command@ == handshake_bytes(),
{
    let text = "S,SET PROTOCOL,6.2\n";
    proof {
        reveal_strlit("S,SET PROTOCOL,6.2\n");
        is_ascii_spec_bytes(text);
    }
    assert(text.spec_bytes() =~= handshake_bytes());
    slice_to_vec(text.as_bytes())
}

/// The subscribe command for a symbol that is written as it is to be sent.
pub fn watch_command(symbol: &str) -> (command: Vec<u8>)
    ensures
        command@ == watch_bytes(symbol@),
{
    let mut command: Vec<u8> = Vec::new();
    command.push(0x77);
    let mut name = slice_to_vec(symbol.as_bytes());
    command.append(&mut name);
    command.push(DELIMITER);
    command
}

} // verus!
