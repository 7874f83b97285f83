use usb2snes::Error;
use usb2snes::codec::{Command, Opcode, Space, Flag, encode, decode_reply};
use usb2snes::hex::{parse_hex, format_hex};

fn cmd(opcode: Opcode, space: Space, flags: Vec<Flag>, operands: Vec<&[u8]>) -> Command {
    Command { opcode, space, flags, operands: operands.into_iter().map(|o| o.to_vec()).collect() }
}

#[test]
fn encode_get_address_envelope() {
    let c = cmd(Opcode::GetAddress, Space::Snes, vec![], vec![b"7E0000", b"10"]);
    let f = encode(&c).unwrap();
    assert_eq!(
        f,
        b"{\"Opcode\":\"GET_ADDRESS\",\"Space\":\"SNES\",\"Flags\":[],\"Operands\":[\"7E0000\",\"10\"]}"
            .to_vec()
    );
}

#[test]
fn encode_with_flag_and_no_operands() {
    let c = cmd(Opcode::Menu, Space::NoSpace, vec![Flag::NoResponse], vec![]);
    let f = encode(&c).unwrap();
    assert_eq!(
        f,
        b"{\"Opcode\":\"MENU\",\"Space\":\"NONE\",\"Flags\":[\"NORESP\"],\"Operands\":[]}".to_vec()
    );
}

#[test]
fn encode_rejects_wrong_arity() {
    let c = cmd(Opcode::GetAddress, Space::Snes, vec![], vec![b"7E0000"]);
    assert_eq!(encode(&c), Err(Error::CallerError));
}

#[test]
fn encode_rejects_unclean_operand() {
    let c = cmd(Opcode::Boot, Space::NoSpace, vec![], vec![b"/games/\"odd\".sfc"]);
    assert_eq!(encode(&c), Err(Error::CallerError));
    let c = cmd(Opcode::Boot, Space::NoSpace, vec![], vec![b"/games/a\\b.sfc"]);
    assert_eq!(encode(&c), Err(Error::CallerError));
    let c = cmd(Opcode::Boot, Space::NoSpace, vec![], vec![b"/games/a\nb.sfc"]);
    assert_eq!(encode(&c), Err(Error::CallerError));
}

#[test]
fn decode_single_result() {
    let r = decode_reply(b"{\"Results\":[\"1.0\"]}").unwrap();
    assert_eq!(r, vec![b"1.0".to_vec()]);
}

#[test]
fn decode_several_results() {
    let r = decode_reply(b"{\"Results\":[\"a\",\"bb\",\"\"]}").unwrap();
    assert_eq!(r, vec![b"a".to_vec(), b"bb".to_vec(), b"".to_vec()]);
}

#[test]
fn decode_empty_list() {
    let r = decode_reply(b"{\"Results\":[]}").unwrap();
    assert!(r.is_empty());
}

#[test]
fn decode_rejects_malformed_frames() {
    assert_eq!(decode_reply(b""), Err(Error::MalformedReply));
    assert_eq!(decode_reply(b"{\"Results\":[\"a\"]"), Err(Error::MalformedReply));
    assert_eq!(decode_reply(b"{\"Result\":[\"a\"]}"), Err(Error::MalformedReply));
    assert_eq!(decode_reply(b"{\"Results\":[\"a\",]}"), Err(Error::MalformedReply));
    assert_eq!(decode_reply(b"{\"Results\":[\"a\\\"b\"]}"), Err(Error::MalformedReply));
    assert_eq!(decode_reply(b"{\"Results\":[42]}"), Err(Error::MalformedReply));
}

#[test]
fn decode_round_trips_what_a_reply_carries() {
    let frame = b"{\"Results\":[\"SD2SNES\",\"1.11.0\",\"/games/m.sfc\"]}";
    let r = decode_reply(frame).unwrap();
    assert_eq!(r, vec![b"SD2SNES".to_vec(), b"1.11.0".to_vec(), b"/games/m.sfc".to_vec()]);
}

#[test]
fn parse_hex_boundary_values() {
    assert_eq!(parse_hex(b"0"), Ok(0));
    assert_eq!(parse_hex(b"1"), Ok(1));
    assert_eq!(parse_hex(b"2000"), Ok(0x2000));
    assert_eq!(parse_hex(b"FFFFFFFF"), Ok(u32::MAX));
    assert_eq!(parse_hex(b"ff"), Ok(255));
}

#[test]
fn parse_hex_rejects_bad_fields() {
    assert_eq!(parse_hex(b""), Err(Error::InvalidSize));
    assert_eq!(parse_hex(b"xyz"), Err(Error::InvalidSize));
    assert_eq!(parse_hex(b"12G4"), Err(Error::InvalidSize));
    assert_eq!(parse_hex(b"123456789"), Err(Error::InvalidSize));
}

#[test]
fn format_hex_is_minimal_uppercase() {
    assert_eq!(format_hex(0), b"0".to_vec());
    assert_eq!(format_hex(16), b"10".to_vec());
    assert_eq!(format_hex(255), b"FF".to_vec());
    assert_eq!(format_hex(0x7E0000), b"7E0000".to_vec());
}

#[test]
fn hex_round_trip() {
    for n in [0u32, 1, 15, 16, 1024, 2500, 0xABCDEF, u32::MAX] {
        assert_eq!(parse_hex(&format_hex(n)), Ok(n));
    }
}
