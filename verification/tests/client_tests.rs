use usb2snes::{Error, Frame};
use usb2snes::channel::Channel;
use usb2snes::client::{SyncClient, FileType};

fn text(s: &[u8]) -> Frame {
    Frame::Text(s.to_vec())
}

fn binary(b: &[u8]) -> Frame {
    Frame::Binary(b.to_vec())
}

fn reply(items: &[&[u8]]) -> Frame {
    let mut f = b"{\"Results\":[".to_vec();
    for (i, item) in items.iter().enumerate() {
        if i > 0 {
            f.push(b',');
        }
        f.push(b'"');
        f.extend_from_slice(item);
        f.push(b'"');
    }
    f.extend_from_slice(b"]}");
    Frame::Text(f)
}

#[test]
fn scenario_connect_attach_info_read_ls() {
    let payload: Vec<u8> = (0u8..16).collect();
    let mut ch = Channel::new(vec![
        reply(&[b"emu1"]),
        reply(&[b"1.0", b"SD2SNES", b"/games/m.sfc"]),
        binary(&payload),
        reply(&[b"1", b"a.sfc", b"0", b"sub"]),
    ]);
    let mut cl = SyncClient::new();

    let devices = cl.list_device(&mut ch).unwrap();
    assert_eq!(devices, vec![b"emu1".to_vec()]);

    cl.attach(&mut ch, b"emu1").unwrap();

    let info = cl.info(&mut ch).unwrap();
    assert_eq!(info.version, b"1.0".to_vec());
    assert_eq!(info.dev_type, b"SD2SNES".to_vec());
    assert_eq!(info.game, b"/games/m.sfc".to_vec());
    assert!(info.flags.is_empty());

    let data = cl.get_address(&mut ch, 0x7E0000, 16).unwrap();
    assert_eq!(data, payload);

    let entries = cl.ls(&mut ch, b"/games").unwrap();
    assert_eq!(entries.len(), 2);
    assert_eq!(entries[0].name, b"a.sfc".to_vec());
    assert_eq!(entries[0].file_type, FileType::File);
    assert_eq!(entries[1].name, b"sub".to_vec());
    assert_eq!(entries[1].file_type, FileType::Dir);
}

#[test]
fn get_address_is_fragmentation_independent() {
    let payload: Vec<u8> = (0u8..10).collect();
    let whole = vec![binary(&payload)];
    let bytewise: Vec<Frame> = payload.iter().map(|b| binary(&[*b])).collect();
    let mixed = vec![binary(&payload[..3]), binary(&payload[3..6]), binary(&payload[6..])];
    for script in [whole, bytewise, mixed] {
        let mut ch = Channel::new(script);
        let mut cl = SyncClient::new();
        let data = cl.get_address(&mut ch, 0x1000, 10).unwrap();
        assert_eq!(data, payload);
    }
}

#[test]
fn get_address_takes_only_its_bytes_from_an_oversized_frame() {
    let mut ch = Channel::new(vec![binary(b"abcdef")]);
    let mut cl = SyncClient::new();
    let data = cl.get_address(&mut ch, 0, 4).unwrap();
    assert_eq!(data, b"abcd".to_vec());
}

#[test]
fn get_address_zero_size_is_a_caller_error() {
    let mut ch = Channel::new(vec![]);
    let mut cl = SyncClient::new();
    assert_eq!(cl.get_address(&mut ch, 0, 0), Err(Error::CallerError));
    assert!(ch.sent.is_empty());
}

#[test]
fn short_read_poisons_the_session() {
    let mut ch = Channel::new(vec![binary(b"abc")]);
    let mut cl = SyncClient::new();
    assert_eq!(cl.get_address(&mut ch, 0, 8), Err(Error::ShortRead));
    // later calls fail fast: the byte alignment cannot be trusted
    assert_eq!(cl.app_version(&mut ch), Err(Error::Connection));
}

#[test]
fn text_frame_inside_a_transfer_is_malformed() {
    let mut ch = Channel::new(vec![binary(b"ab"), reply(&[b"oops"])]);
    let mut cl = SyncClient::new();
    assert_eq!(cl.get_address(&mut ch, 0, 8), Err(Error::MalformedReply));
}

#[test]
fn upload_emits_command_then_exact_chunks() {
    let data: Vec<u8> = (0..2500u32).map(|i| (i % 241) as u8).collect();
    let mut ch = Channel::new(vec![]);
    let mut cl = SyncClient::new();
    cl.send_file(&mut ch, b"/games/new.sfc", &data).unwrap();
    assert_eq!(ch.sent.len(), 1 + 3);
    match &ch.sent[0] {
        Frame::Text(t) => assert_eq!(
            t,
            &b"{\"Opcode\":\"PUT_FILE\",\"Space\":\"FILE\",\"Flags\":[],\"Operands\":[\"/games/new.sfc\",\"9C4\"]}"
                .to_vec()
        ),
        Frame::Binary(_) => panic!("expected the command frame first"),
    }
    let mut rebuilt: Vec<u8> = Vec::new();
    for f in &ch.sent[1..] {
        match f {
            Frame::Binary(b) => rebuilt.extend_from_slice(b),
            Frame::Text(_) => panic!("payload must be binary frames"),
        }
    }
    assert_eq!(rebuilt, data);
    match &ch.sent[3] {
        Frame::Binary(b) => assert_eq!(b.len(), 2500 % 1024),
        Frame::Text(_) => panic!(),
    }
}

#[test]
fn upload_then_download_round_trips() {
    for len in [0usize, 1, 1023, 1024, 1025, 2500] {
        let data: Vec<u8> = (0..len as u32).map(|i| (i % 199) as u8).collect();
        let mut up = Channel::new(vec![]);
        let mut cl = SyncClient::new();
        cl.send_file(&mut up, b"/games/x.sfc", &data).unwrap();

        // feed what the upload emitted back as a download script
        let mut script = vec![text(
            format!("{{\"Results\":[\"{:X}\"]}}", len).as_bytes(),
        )];
        script.extend(up.sent.into_iter().skip(1));
        let mut down = Channel::new(script);
        let got = cl.get_file(&mut down, b"/games/x.sfc").unwrap();
        assert_eq!(got, data);
    }
}

#[test]
fn get_file_empty_file_ends_after_size_reply() {
    let mut ch = Channel::new(vec![reply(&[b"0"])]);
    let mut cl = SyncClient::new();
    let got = cl.get_file(&mut ch, b"/empty").unwrap();
    assert!(got.is_empty());
    assert_eq!(ch.cursor, 1);
}

#[test]
fn get_file_parses_size_boundaries() {
    let one = vec![reply(&[b"1"]), binary(b"z")];
    let mut ch = Channel::new(one);
    let mut cl = SyncClient::new();
    assert_eq!(cl.get_file(&mut ch, b"/one").unwrap(), b"z".to_vec());

    let big: Vec<u8> = (0..0x2000u32).map(|i| (i % 250) as u8).collect();
    let mut ch = Channel::new(vec![reply(&[b"2000"]), binary(&big[..1000]), binary(&big[1000..])]);
    assert_eq!(cl.get_file(&mut ch, b"/big").unwrap(), big);
}

#[test]
fn get_file_rejects_non_hexadecimal_size() {
    let mut ch = Channel::new(vec![reply(&[b"xyz"])]);
    let mut cl = SyncClient::new();
    assert_eq!(cl.get_file(&mut ch, b"/f"), Err(Error::InvalidSize));
}

#[test]
fn get_file_wrong_arity_is_malformed() {
    let mut ch = Channel::new(vec![reply(&[b"10", b"extra"])]);
    let mut cl = SyncClient::new();
    assert_eq!(cl.get_file(&mut ch, b"/f"), Err(Error::MalformedReply));
}

fn client_with_flags(ch: &mut Channel, flags: &[&[u8]]) -> SyncClient {
    let mut items: Vec<&[u8]> = vec![b"1.0", b"SD2SNES", b"/m.sfc"];
    items.extend_from_slice(flags);
    ch.incoming.insert(0, reply(&items));
    let mut cl = SyncClient::new();
    cl.info(ch).unwrap();
    cl
}

#[test]
fn file_commands_gate_sends_nothing() {
    let mut ch = Channel::new(vec![]);
    let mut cl = client_with_flags(&mut ch, &[b"NO_FILE_CMD"]);
    let sent_before = ch.sent.len();
    assert_eq!(cl.ls(&mut ch, b"/games"), Err(Error::Unsupported));
    assert_eq!(cl.get_file(&mut ch, b"/games/a.sfc"), Err(Error::Unsupported));
    assert_eq!(cl.send_file(&mut ch, b"/games/a.sfc", b"xy"), Err(Error::Unsupported));
    assert_eq!(cl.remove_path(&mut ch, b"/games/a.sfc"), Err(Error::Unsupported));
    assert_eq!(ch.sent.len(), sent_before);
    // memory reads have no such gate
    ch.incoming.push(binary(b"ab"));
    assert_eq!(cl.get_address(&mut ch, 0, 2).unwrap(), b"ab".to_vec());
}

#[test]
fn control_commands_gate_sends_nothing() {
    let mut ch = Channel::new(vec![]);
    let mut cl = client_with_flags(&mut ch, &[b"NO_CONTROL_CMD"]);
    let sent_before = ch.sent.len();
    assert_eq!(cl.menu(&mut ch), Err(Error::Unsupported));
    assert_eq!(cl.reset(&mut ch), Err(Error::Unsupported));
    assert_eq!(cl.boot(&mut ch, b"/games/a.sfc"), Err(Error::Unsupported));
    assert_eq!(ch.sent.len(), sent_before);
}

#[test]
fn unrecognized_flags_are_ignored() {
    let mut ch = Channel::new(vec![]);
    let mut cl = client_with_flags(&mut ch, &[b"SOME_FUTURE_FLAG"]);
    assert!(cl.menu(&mut ch).is_ok());
    assert!(cl.remove_path(&mut ch, b"/games/a.sfc").is_ok());
}

#[test]
fn ls_preserves_target_order_and_tags() {
    let mut ch = Channel::new(vec![reply(&[
        b"0", b"sub2", b"1", b"b.sfc", b"0", b"sub1", b"2", b"a.bin",
    ])]);
    let mut cl = SyncClient::new();
    let entries = cl.ls(&mut ch, b"/").unwrap();
    let names: Vec<&[u8]> = entries.iter().map(|e| e.name.as_slice()).collect();
    assert_eq!(names, vec![&b"sub2"[..], b"b.sfc", b"sub1", b"a.bin"]);
    let kinds: Vec<FileType> = entries.iter().map(|e| e.file_type).collect();
    assert_eq!(kinds, vec![FileType::Dir, FileType::File, FileType::Dir, FileType::File]);
}

#[test]
fn ls_odd_reply_is_malformed() {
    let mut ch = Channel::new(vec![reply(&[b"0", b"sub", b"1"])]);
    let mut cl = SyncClient::new();
    assert_eq!(cl.ls(&mut ch, b"/"), Err(Error::MalformedReply));
}

#[test]
fn attach_rejects_empty_descriptor() {
    let mut ch = Channel::new(vec![]);
    let mut cl = SyncClient::new();
    assert_eq!(cl.attach(&mut ch, b""), Err(Error::CallerError));
    assert!(ch.sent.is_empty());
}

#[test]
fn attach_replaces_previous_attachment() {
    let mut ch = Channel::new(vec![]);
    let mut cl = SyncClient::new();
    cl.attach(&mut ch, b"emu1").unwrap();
    assert_eq!(cl.attached, Some(b"emu1".to_vec()));
    cl.attach(&mut ch, b"sd2snes").unwrap();
    assert_eq!(cl.attached, Some(b"sd2snes".to_vec()));
    assert_eq!(ch.sent.len(), 2);
}

#[test]
fn set_name_is_fire_and_forget() {
    let mut ch = Channel::new(vec![]);
    let mut cl = SyncClient::new();
    cl.set_name(&mut ch, b"usb2snes-cli").unwrap();
    assert_eq!(cl.client_name, Some(b"usb2snes-cli".to_vec()));
    assert_eq!(ch.sent.len(), 1);
    assert_eq!(ch.cursor, 0);
}

#[test]
fn app_version_returns_single_result() {
    let mut ch = Channel::new(vec![reply(&[b"1.11.0"])]);
    let mut cl = SyncClient::new();
    assert_eq!(cl.app_version(&mut ch).unwrap(), b"1.11.0".to_vec());
}

#[test]
fn app_version_on_closed_channel_poisons() {
    let mut ch = Channel::new(vec![]);
    let mut cl = SyncClient::new();
    assert_eq!(cl.app_version(&mut ch), Err(Error::Connection));
    assert!(cl.poisoned);
}

#[test]
fn binary_frame_where_reply_expected_is_desync() {
    let mut ch = Channel::new(vec![binary(b"stray")]);
    let mut cl = SyncClient::new();
    assert_eq!(cl.list_device(&mut ch), Err(Error::MalformedReply));
    assert!(cl.poisoned);
    assert_eq!(cl.info(&mut ch), Err(Error::Connection));
}

#[test]
fn unparseable_reply_leaves_session_usable() {
    let mut ch = Channel::new(vec![text(b"not json"), reply(&[b"1.0"])]);
    let mut cl = SyncClient::new();
    assert_eq!(cl.app_version(&mut ch), Err(Error::MalformedReply));
    assert!(!cl.poisoned);
    assert_eq!(cl.app_version(&mut ch).unwrap(), b"1.0".to_vec());
}

#[test]
fn list_device_keeps_order_and_duplicates() {
    let mut ch = Channel::new(vec![reply(&[b"emu2", b"emu1", b"emu2"])]);
    let mut cl = SyncClient::new();
    let d = cl.list_device(&mut ch).unwrap();
    assert_eq!(d, vec![b"emu2".to_vec(), b"emu1".to_vec(), b"emu2".to_vec()]);
}

#[test]
fn devel_session_behaves_the_same() {
    let mut ch = Channel::new(vec![reply(&[b"1.0"])]);
    let mut cl = SyncClient::new_with_devel();
    assert!(cl.devel);
    assert!(!cl.poisoned);
    assert_eq!(cl.app_version(&mut ch).unwrap(), b"1.0".to_vec());
}

#[test]
fn set_name_frame_is_fully_specified() {
    let mut ch = Channel::new(vec![]);
    let mut cl = SyncClient::new();
    cl.set_name(&mut ch, b"usb2snes-cli").unwrap();
    assert_eq!(
        ch.sent,
        vec![Frame::Text(
            b"{\"Opcode\":\"NAME\",\"Space\":\"NONE\",\"Flags\":[\"NORESP\"],\"Operands\":[\"usb2snes-cli\"]}"
                .to_vec()
        )]
    );
}
