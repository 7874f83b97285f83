//! The synchronous client: one blocking operation per logical command, a
//! session holding the attached device, the announced name and the cached
//! device information, and the capability gates that reject unsupported
//! operations before anything is sent.
//!
//! Each operation borrows the channel exclusively for its whole duration
//! and consumes its complete reply or payload before returning, so a second
//! operation cannot start while a transfer is underway. A failed transfer
//! poisons the session: the channel's byte alignment can no longer be
//! trusted, and every later operation fails fast with `Connection`.

use vstd::prelude::*;
use vstd::string::StringSliceAdditionalSpecFns;
use crate::{Error, Frame};
use crate::codec::{Opcode, Space, Flag, Command, spec_envelope, spec_encode, opcode_name,
    space_name, flag_name, clean_seq, clean_byte, spec_command_ok, sp_reply, encode};
use crate::channel::{Channel, pushed_text, recv_exact, frames_for};
use crate::transfer::{bin_prefix_bytes, bin_prefix_ends_at_text, spec_chunks, frames_are_chunks,
    chunk_bytes, DEFAULT_CHUNK_SIZE};
use crate::hex::{spec_parse_hex, spec_hex, format_hex, parse_hex};

verus! {

/// What a device reports about itself.
#[derive(Clone, Debug, PartialEq, Eq)]
pub struct DeviceInfo {
    pub dev_type: Vec<u8>,
    pub version: Vec<u8>,
    pub game: Vec<u8>,
    pub flags: Vec<Vec<u8>>,
}

/// The kind of a directory entry.
#[derive(Clone, Copy, Debug, PartialEq, Eq, Structural)]
pub enum FileType {
    File,
    Dir,
}

/// One entry of a remote directory listing.
#[derive(Debug, PartialEq, Eq)]
pub struct DirEntry {
    pub name: Vec<u8>,
    pub file_type: FileType,
}

/// A capability flag is present in a reported flag list.
pub open spec fn has_flag(flags: Seq<Seq<u8>>, name: Seq<u8>) -> bool {
    exists|i: int| 0 <= i < flags.len() && flags[i] == name
}

/// The session of one connection: the attached device, the announced
/// client name, the last seen device information, and whether a failed
/// transfer has made the channel unusable.
pub struct SyncClient {
    pub attached: Option<Vec<u8>>,
    pub client_name: Option<Vec<u8>>,
    pub cached_info: Option<DeviceInfo>,
    pub poisoned: bool,
    pub devel: bool,
}

/// `b` is `a` with the session poisoned and nothing else changed.
pub open spec fn poisoned_version(a: SyncClient, b: SyncClient) -> bool {
    &&& b.attached == a.attached
    &&& b.client_name == a.client_name
    &&& b.cached_info == a.cached_info
    &&& b.devel == a.devel
    &&& b.poisoned
}

/// The structured reply at the head of the channel, if a text frame
/// holding a well-formed reply comes next.
pub open spec fn reply_items(tail: Seq<Frame>) -> Option<Seq<Seq<u8>>> {
    if tail.len() > 0 {
        match tail[0] {
            Frame::Text(t) => sp_reply(t@),
            Frame::Binary(_) => None,
        }
    } else {
        None
    }
}

/// How a structured-reply operation fails at the channel: a closed channel
/// poisons the session and surfaces `Connection`; a stray binary frame
/// poisons it and surfaces `MalformedReply`; a text frame that is no
/// well-formed reply surfaces `MalformedReply` with the session unchanged.
pub open spec fn reply_failure(
    tail: Seq<Frame>,
    e: Error,
    before: SyncClient,
    after: SyncClient,
) -> bool {
    match e {
        Error::Connection => tail.len() == 0 && poisoned_version(before, after),
        Error::MalformedReply => tail.len() > 0 && {
            ||| (tail[0] is Binary && poisoned_version(before, after))
            ||| (tail[0] is Text && reply_items(tail) is None && after == before)
        },
        _ => false,
    }
}

/// As `reply_failure`, or a well-formed reply with fewer results than the
/// operation expects, which leaves the session usable.
pub open spec fn reply_shape_failure(
    tail: Seq<Frame>,
    e: Error,
    before: SyncClient,
    after: SyncClient,
    min: int,
) -> bool {
    ||| reply_failure(tail, e, before, after)
    ||| (e == Error::MalformedReply && (reply_items(tail) matches Some(items) && items.len() < min)
        && after == before)
}

/// Frame bodies of the commands, one spec function per operation.
pub open spec fn app_version_frame() -> Seq<u8> {
    spec_envelope(
        opcode_name(Opcode::AppVersion),
        space_name(Space::NoSpace),
        Seq::empty(),
        Seq::empty(),
    )
}

pub open spec fn list_device_frame() -> Seq<u8> {
    spec_envelope(
        opcode_name(Opcode::ListDevice),
        space_name(Space::NoSpace),
        Seq::empty(),
        Seq::empty(),
    )
}

pub open spec fn info_frame() -> Seq<u8> {
    spec_envelope(opcode_name(Opcode::Info), space_name(Space::NoSpace), Seq::empty(), Seq::empty())
}

pub open spec fn set_name_frame(name: Seq<u8>) -> Seq<u8> {
    spec_envelope(
        opcode_name(Opcode::Name),
        space_name(Space::NoSpace),
        seq![flag_name(Flag::NoResponse)],
        seq![name],
    )
}

pub open spec fn attach_frame(device: Seq<u8>) -> Seq<u8> {
    spec_envelope(
        opcode_name(Opcode::Attach),
        space_name(Space::NoSpace),
        seq![flag_name(Flag::NoResponse)],
        seq![device],
    )
}

pub open spec fn menu_frame() -> Seq<u8> {
    spec_envelope(
        opcode_name(Opcode::Menu),
        space_name(Space::NoSpace),
        seq![flag_name(Flag::NoResponse)],
        Seq::empty(),
    )
}

pub open spec fn reset_frame() -> Seq<u8> {
    spec_envelope(
        opcode_name(Opcode::Reset),
        space_name(Space::NoSpace),
        seq![flag_name(Flag::NoResponse)],
        Seq::empty(),
    )
}

pub open spec fn boot_frame(path: Seq<u8>) -> Seq<u8> {
    spec_envelope(
        opcode_name(Opcode::Boot),
        space_name(Space::NoSpace),
        seq![flag_name(Flag::NoResponse)],
        seq![path],
    )
}

pub open spec fn remove_frame(path: Seq<u8>) -> Seq<u8> {
    spec_envelope(
        opcode_name(Opcode::Remove),
        space_name(Space::Fs),
        seq![flag_name(Flag::NoResponse)],
        seq![path],
    )
}

pub open spec fn ls_frame(path: Seq<u8>) -> Seq<u8> {
    spec_envelope(opcode_name(Opcode::Ls), space_name(Space::Fs), Seq::empty(), seq![path])
}

pub open spec fn get_file_frame(path: Seq<u8>) -> Seq<u8> {
    spec_envelope(opcode_name(Opcode::GetFile), space_name(Space::Fs), Seq::empty(), seq![path])
}

pub open spec fn put_file_frame(path: Seq<u8>, size: nat) -> Seq<u8> {
    spec_envelope(
        opcode_name(Opcode::PutFile),
        space_name(Space::Fs),
        Seq::empty(),
        seq![path, crate::hex::spec_hex(size)],
    )
}

pub open spec fn get_address_frame(address: u32, size: u32) -> Seq<u8> {
    spec_envelope(
        opcode_name(Opcode::GetAddress),
        space_name(Space::Snes),
        Seq::empty(),
        seq![crate::hex::spec_hex(address as nat), crate::hex::spec_hex(size as nat)],
    )
}

/// Byte-for-byte equality of two slices.
pub fn bytes_eq(a: &[u8], b: &[u8]) -> (r: bool)
    ensures
        r == (a@ == b@),
{
    let n = a.len();
    if n != b.len() {
        return false;
    }
    let mut i: usize = 0;
    while i < n
        invariant
            0 <= i <= n,
            n == a@.len(),
            n == b@.len(),
            forall|j: int| 0 <= j < i ==> a@[j] == b@[j],
        decreases n - i,
    {
        if a[i] != b[i] {
            return false;
        }
        i = i + 1;
    }
    proof {
        assert(a@ =~= b@);
    }
    true
}

/// Copy a byte string.
fn copy_bytes(s: &[u8]) -> (r: Vec<u8>)
    ensures
        r@ == s@,
{
    vstd::slice::slice_to_vec(s)
}

/// Whether a reported flag list contains a given capability flag.
fn flags_contain(flags: &Vec<Vec<u8>>, name: &[u8]) -> (r: bool)
    ensures
        r == has_flag(flags@.map_values(|f: Vec<u8>| f@), name@),
{
    let n = flags.len();
    let mut i: usize = 0;
    while i < n
        invariant
            0 <= i <= n,
            n == flags@.len(),
            forall|j: int| 0 <= j < i ==> (#[trigger] flags@[j])@ != name@,
        decreases n - i,
    {
        if bytes_eq(flags[i].as_slice(), name) {
            proof {
                assert(flags@.map_values(|f: Vec<u8>| f@)[i as int] == name@);
            }
            return true;
        }
        i = i + 1;
    }
    proof {
        let m = flags@.map_values(|f: Vec<u8>| f@);
        assert(!has_flag(m, name@)) by {
            if has_flag(m, name@) {
                let w = choose|j: int| 0 <= j < m.len() && m[j] == name@;
                assert(m[w] == flags@[w]@);
            }
        };
    }
    false
}

/// Encode a command and send it as one text frame; on a malformed command
/// nothing is sent.
fn send_command(ch: &mut Channel, c: Command) -> (r: Result<(), Error>)
    requires
        old(ch).wf(),
    ensures
        final(ch).wf(),
        old(ch).same_incoming(*final(ch)),
        match r {
            Ok(_) => spec_command_ok(c) && pushed_text(
                old(ch).sent@,
                final(ch).sent@,
                spec_encode(c),
            ),
            Err(e) => !spec_command_ok(c) && e == Error::CallerError && final(ch).sent@ == old(ch).sent@,
        },
{
    match encode(&c) {
        Ok(f) => {
            ch.send(Frame::Text(f));
            proof {
                assert(final(ch).sent@.take(old(ch).sent@.len() as int) =~= old(ch).sent@);
            }
            Ok(())
        },
        Err(e) => Err(e),
    }
}


/// Hexadecimal digit strings frame losslessly.
proof fn lemma_hex_clean(n: nat)
    ensures
        clean_seq(spec_hex(n)),
{
    crate::hex::lemma_hex_form(n);
    let s = spec_hex(n);
    assert forall|i: int| 0 <= i < s.len() implies clean_byte(#[trigger] s[i]) by {
        assert(crate::hex::hex_digit_val(s[i]) is Some);
    };
}

/// Build a `DeviceInfo` out of an info reply's results.
fn build_info(items: &Vec<Vec<u8>>) -> (r: DeviceInfo)
    requires
        items@.len() >= 3,
    ensures
        ({
            let iv = items@.map_values(|x: Vec<u8>| x@);
            &&& r.version@ == iv[0]
            &&& r.dev_type@ == iv[1]
            &&& r.game@ == iv[2]
            &&& r.flags@.map_values(|f: Vec<u8>| f@) == iv.skip(3)
        }),
{
    let ghost iv = items@.map_values(|x: Vec<u8>| x@);
    let version = copy_bytes(items[0].as_slice());
    let dev_type = copy_bytes(items[1].as_slice());
    let game = copy_bytes(items[2].as_slice());
    let mut flags: Vec<Vec<u8>> = Vec::new();
    let n = items.len();
    let mut i: usize = 3;
    while i < n
        invariant
            3 <= i <= n,
            n == items@.len(),
            iv == items@.map_values(|x: Vec<u8>| x@),
            flags@.len() == i - 3,
            forall|j: int| 0 <= j < flags@.len() ==> (#[trigger] flags@[j])@ == iv[3 + j],
        decreases n - i,
    {
        flags.push(copy_bytes(items[i].as_slice()));
        proof {
            assert(iv[i as int] == items@[i as int]@);
        }
        i = i + 1;
    }
    proof {
        let m = flags@.map_values(|f: Vec<u8>| f@);
        assert forall|j: int| 0 <= j < m.len() implies m[j] == iv.skip(3)[j] by {
            assert(m[j] == flags@[j]@);
        }
        assert(m =~= iv.skip(3));
        assert(iv[0] == items@[0]@);
        assert(iv[1] == items@[1]@);
        assert(iv[2] == items@[2]@);
    }
    DeviceInfo { dev_type, version, game, flags }
}

/// The payload a memory read returns depends only on the byte stream the
/// target delivers, not on how the stream is cut into frames: two scripts
/// whose binary prefixes carry the same bytes yield the same payload.
pub proof fn lemma_payload_fragmentation_independent(fs1: Seq<Frame>, fs2: Seq<Frame>, size: int)
    requires
        bin_prefix_bytes(fs1) == bin_prefix_bytes(fs2),
    ensures
        bin_prefix_bytes(fs1).take(size) == bin_prefix_bytes(fs2).take(size),
{
}

/// Upload followed by download round-trips: the frames an upload emits
/// carry, concatenated, exactly the uploaded bytes; there are
/// ceil(len / chunk) of them; the last is len mod chunk bytes (or a full
/// chunk); and the size operand parses back to the length.
pub proof fn lemma_upload_download_round_trip(data: Seq<u8>, fs: Seq<Frame>)
    requires
        data.len() <= 0xFFFF_FFFF,
        frames_are_chunks(fs, data, DEFAULT_CHUNK_SIZE as int),
    ensures
        spec_parse_hex(spec_hex(data.len() as nat)) == Some((data.len() as u32)),
        bin_prefix_bytes(fs) == data,
        fs.len() == (data.len() as int + DEFAULT_CHUNK_SIZE - 1) / (DEFAULT_CHUNK_SIZE as int),
        data.len() > 0 ==> (fs.last() matches Frame::Binary(b) && b@.len() == (
        if data.len() as int % (DEFAULT_CHUNK_SIZE as int) == 0 {
            DEFAULT_CHUNK_SIZE as int
        } else {
            data.len() as int % (DEFAULT_CHUNK_SIZE as int)
        })),
{
    crate::hex::lemma_hex_roundtrip(data.len() as u32);
    crate::transfer::lemma_chunk_frames_round_trip(data, DEFAULT_CHUNK_SIZE as int, fs);
    crate::transfer::lemma_chunks_count(data, DEFAULT_CHUNK_SIZE as int);
    if data.len() > 0 {
        crate::transfer::lemma_chunks_shape(data, DEFAULT_CHUNK_SIZE as int);
        let cs = spec_chunks(data, DEFAULT_CHUNK_SIZE as int);
        assert(cs.len() > 0);
        assert(fs[fs.len() - 1] matches Frame::Binary(b) && b@ == cs[fs.len() - 1]);
    }
}

impl SyncClient {
    /// The device reported that filesystem commands are unavailable.
    pub open spec fn no_file_cmd(self) -> bool {
        self.cached_info matches Some(i) && has_flag(
            i.flags@.map_values(|f: Vec<u8>| f@),
            "NO_FILE_CMD".spec_bytes(),
        )
    }

    /// The device reported that control commands are unavailable.
    pub open spec fn no_control_cmd(self) -> bool {
        self.cached_info matches Some(i) && has_flag(
            i.flags@.map_values(|f: Vec<u8>| f@),
            "NO_CONTROL_CMD".spec_bytes(),
        )
    }

    /// A fresh session: nothing attached, nothing cached, usable.
    pub fn new() -> (c: SyncClient)
        ensures
            c.attached is None,
            c.client_name is None,
            c.cached_info is None,
            !c.poisoned,
            !c.devel,
    {
        SyncClient {
            attached: None,
            client_name: None,
            cached_info: None,
            poisoned: false,
            devel: false,
        }
    }

    /// A fresh session with frame tracing requested of the caller;
    /// diagnostic only, no protocol effect.
    pub fn new_with_devel() -> (c: SyncClient)
        ensures
            c.attached is None,
            c.client_name is None,
            c.cached_info is None,
            !c.poisoned,
            c.devel,
    {
        SyncClient {
            attached: None,
            client_name: None,
            cached_info: None,
            poisoned: false,
            devel: true,
        }
    }

    /// Exec view of the file-command gate.
    fn file_commands_blocked(&self) -> (r: bool)
        ensures
            r == self.no_file_cmd(),
    {
        match &self.cached_info {
            None => false,
            Some(i) => flags_contain(&i.flags, "NO_FILE_CMD".as_bytes()),
        }
    }

    /// Exec view of the control-command gate.
    fn control_commands_blocked(&self) -> (r: bool)
        ensures
            r == self.no_control_cmd(),
    {
        match &self.cached_info {
            None => false,
            Some(i) => flags_contain(&i.flags, "NO_CONTROL_CMD".as_bytes()),
        }
    }

    /// Receive one structured reply. A closed channel or a stray binary
    /// frame poisons the session (the framing can no longer be trusted); a
    /// text frame that is not a well-formed reply leaves it usable.
    fn read_reply(&mut self, ch: &mut Channel) -> (r: Result<Vec<Vec<u8>>, Error>)
        requires
            old(ch).wf(),
            !old(self).poisoned,
        ensures
            final(ch).wf(),
            final(ch).incoming@ == old(ch).incoming@,
            final(ch).sent@ == old(ch).sent@,
            match r {
                Ok(v) => {
                    &&& old(ch).remaining().len() > 0
                    &&& old(ch).remaining()[0] matches Frame::Text(t) && sp_reply(t@) == Some(
                        v@.map_values(|x: Vec<u8>| x@),
                    )
                    &&& final(ch).cursor == old(ch).cursor + 1
                    &&& *final(self) == *old(self)
                },
                Err(e) => match e {
                    Error::Connection => old(ch).remaining().len() == 0 && poisoned_version(
                        *old(self),
                        *final(self),
                    ),
                    Error::MalformedReply => old(ch).remaining().len() > 0 && {
                        ||| (old(ch).remaining()[0] is Binary && poisoned_version(
                            *old(self),
                            *final(self),
                        ))
                        ||| (old(ch).remaining()[0] matches Frame::Text(t) && sp_reply(t@) is None
                            && *final(self) == *old(self))
                    },
                    _ => false,
                },
            },
    {
        let next = ch.receive();
        match next {
            None => {
                self.poisoned = true;
                Err(Error::Connection)
            },
            Some(Frame::Binary(_)) => {
                self.poisoned = true;
                Err(Error::MalformedReply)
            },
            Some(Frame::Text(t)) => crate::codec::decode_reply(t.as_slice()),
        }
    }

    /// Announce the client's identity; fire-and-forget, no reply is
    /// awaited. On success the name is recorded in the session.
    pub fn set_name(&mut self, ch: &mut Channel, name: &[u8]) -> (r: Result<(), Error>)
        requires
            old(ch).wf(),
        ensures
            final(ch).wf(),
            old(ch).same_incoming(*final(ch)),
            old(self).poisoned ==> r == Err::<(), Error>(Error::Connection) && *final(self) == *old(self) && final(ch).sent@ == old(ch).sent@,
            !old(self).poisoned ==> match r {
                Ok(_) => {
                    &&& clean_seq(name@)
                    &&& pushed_text(old(ch).sent@, final(ch).sent@, set_name_frame(name@))
                    &&& final(self).client_name matches Some(n) && n@ == name@
                    &&& final(self).attached == old(self).attached
                    &&& final(self).cached_info == old(self).cached_info
                    &&& final(self).poisoned == old(self).poisoned
                    &&& final(self).devel == old(self).devel
                },
                Err(e) => {
                    &&& e == Error::CallerError
                    &&& !clean_seq(name@)
                    &&& *final(self) == *old(self)
                    &&& final(ch).sent@ == old(ch).sent@
                },
            },
    {
        if self.poisoned {
            return Err(Error::Connection);
        }
        let mut flags: Vec<Flag> = Vec::new();
        flags.push(Flag::NoResponse);
        let mut operands: Vec<Vec<u8>> = Vec::new();
        operands.push(copy_bytes(name));
        let c = Command { opcode: Opcode::Name, space: Space::NoSpace, flags, operands };
        let ghost gc = c;
        match send_command(ch, c) {
            Ok(_) => {
                proof {
                    assert(gc.flags@.map_values(|f: Flag| flag_name(f)) =~= seq![
                        flag_name(Flag::NoResponse),
                    ]);
                    assert(gc.operands@.map_values(|o: Vec<u8>| o@) =~= seq![name@]);
                    assert(spec_encode(gc) == set_name_frame(name@));
                    assert(clean_seq(gc.operands@[0]@));
                }
                self.client_name = Some(copy_bytes(name));
                Ok(())
            },
            Err(e) => {
                proof {
                    assert(gc.operands@.len() == 1);
                    assert(gc.operands@[0]@ == name@);
                }
                Err(e)
            },
        }
    }

    /// Select the device that later commands implicitly target; an empty
    /// descriptor is a caller error. Sends the attach command
    /// fire-and-forget and records the attachment, replacing any previous
    /// one.
    pub fn attach(&mut self, ch: &mut Channel, device: &[u8]) -> (r: Result<(), Error>)
        requires
            old(ch).wf(),
        ensures
            final(ch).wf(),
            old(ch).same_incoming(*final(ch)),
            old(self).poisoned ==> r == Err::<(), Error>(Error::Connection) && *final(self) == *old(self) && final(ch).sent@ == old(ch).sent@,
            !old(self).poisoned ==> match r {
                Ok(_) => {
                    &&& device@.len() > 0 && clean_seq(device@)
                    &&& pushed_text(old(ch).sent@, final(ch).sent@, attach_frame(device@))
                    &&& final(self).attached matches Some(d) && d@ == device@
                    &&& final(self).client_name == old(self).client_name
                    &&& final(self).cached_info == old(self).cached_info
                    &&& final(self).poisoned == old(self).poisoned
                    &&& final(self).devel == old(self).devel
                },
                Err(e) => {
                    &&& e == Error::CallerError
                    &&& (device@.len() == 0 || !clean_seq(device@))
                    &&& *final(self) == *old(self)
                    &&& final(ch).sent@ == old(ch).sent@
                },
            },
    {
        if self.poisoned {
            return Err(Error::Connection);
        }
        if device.len() == 0 {
            return Err(Error::CallerError);
        }
        let mut flags: Vec<Flag> = Vec::new();
        flags.push(Flag::NoResponse);
        let mut operands: Vec<Vec<u8>> = Vec::new();
        operands.push(copy_bytes(device));
        let c = Command { opcode: Opcode::Attach, space: Space::NoSpace, flags, operands };
        let ghost gc = c;
        match send_command(ch, c) {
            Ok(_) => {
                proof {
                    assert(gc.flags@.map_values(|f: Flag| flag_name(f)) =~= seq![
                        flag_name(Flag::NoResponse),
                    ]);
                    assert(gc.operands@.map_values(|o: Vec<u8>| o@) =~= seq![device@]);
                    assert(spec_encode(gc) == attach_frame(device@));
                    assert(clean_seq(gc.operands@[0]@));
                }
                self.attached = Some(copy_bytes(device));
                Ok(())
            },
            Err(e) => {
                proof {
                    assert(gc.operands@.len() == 1);
                    assert(gc.operands@[0]@ == device@);
                }
                Err(e)
            },
        }
    }

    /// Ask the server for its version; the reply's sole expected result.
    pub fn app_version(&mut self, ch: &mut Channel) -> (r: Result<Vec<u8>, Error>)
        requires
            old(ch).wf(),
        ensures
            final(ch).wf(),
            final(ch).incoming@ == old(ch).incoming@,
            old(self).poisoned ==> r == Err::<Vec<u8>, Error>(Error::Connection) && *final(self)
                == *old(self) && final(ch).sent@ == old(ch).sent@,
            !old(self).poisoned ==> {
                &&& pushed_text(old(ch).sent@, final(ch).sent@, app_version_frame())
                &&& match r {
                    Ok(v) => {
                        &&& reply_items(old(ch).remaining()) matches Some(items) && items.len()
                            >= 1 && v@ == items[0]
                        &&& final(ch).cursor == old(ch).cursor + 1
                        &&& *final(self) == *old(self)
                    },
                    Err(e) => reply_shape_failure(
                        old(ch).remaining(),
                        e,
                        *old(self),
                        *final(self),
                        1,
                    ),
                }
            },
    {
        if self.poisoned {
            return Err(Error::Connection);
        }
        let c = Command {
            opcode: Opcode::AppVersion,
            space: Space::NoSpace,
            flags: Vec::new(),
            operands: Vec::new(),
        };
        let ghost gc = c;
        let sent = send_command(ch, c);
        proof {
            assert(gc.flags@.map_values(|f: Flag| flag_name(f)) =~= Seq::<Seq<u8>>::empty());
            assert(gc.operands@.map_values(|o: Vec<u8>| o@) =~= Seq::<Seq<u8>>::empty());
            assert(spec_encode(gc) == app_version_frame());
        }
        match sent {
            Ok(_) => {},
            Err(_) => {
                // a command with no unclean operand always encodes
                proof {
                    assert(false);
                }
                return Err(Error::CallerError);
            },
        }
        let items = match self.read_reply(ch) {
            Ok(items) => items,
            Err(e) => {
                return Err(e);
            },
        };
        if items.len() < 1 {
            return Err(Error::MalformedReply);
        }
        Ok(copy_bytes(items[0].as_slice()))
    }

    /// Enumerate attachable devices: the reply's results in target order,
    /// not deduplicated.
    pub fn list_device(&mut self, ch: &mut Channel) -> (r: Result<Vec<Vec<u8>>, Error>)
        requires
            old(ch).wf(),
        ensures
            final(ch).wf(),
            final(ch).incoming@ == old(ch).incoming@,
            old(self).poisoned ==> r == Err::<Vec<Vec<u8>>, Error>(Error::Connection) && *final(self) == *old(self) && final(ch).sent@ == old(ch).sent@,
            !old(self).poisoned ==> {
                &&& pushed_text(old(ch).sent@, final(ch).sent@, list_device_frame())
                &&& match r {
                    Ok(v) => {
                        &&& reply_items(old(ch).remaining()) == Some(
                            v@.map_values(|x: Vec<u8>| x@),
                        )
                        &&& final(ch).cursor == old(ch).cursor + 1
                        &&& *final(self) == *old(self)
                    },
                    Err(e) => reply_failure(old(ch).remaining(), e, *old(self), *final(self)),
                }
            },
    {
        if self.poisoned {
            return Err(Error::Connection);
        }
        let c = Command {
            opcode: Opcode::ListDevice,
            space: Space::NoSpace,
            flags: Vec::new(),
            operands: Vec::new(),
        };
        let ghost gc = c;
        let sent = send_command(ch, c);
        proof {
            assert(gc.flags@.map_values(|f: Flag| flag_name(f)) =~= Seq::<Seq<u8>>::empty());
            assert(gc.operands@.map_values(|o: Vec<u8>| o@) =~= Seq::<Seq<u8>>::empty());
            assert(spec_encode(gc) == list_device_frame());
        }
        match sent {
            Ok(_) => {},
            Err(_) => {
                // a command with no unclean operand always encodes
                proof {
                    assert(false);
                }
                return Err(Error::CallerError);
            },
        }
        self.read_reply(ch)
    }

    /// Fetch what the device reports about itself; the reply carries the
    /// firmware version, the device type, the running game and then the
    /// capability flags. The result is cached for the capability gates.
    pub fn info(&mut self, ch: &mut Channel) -> (r: Result<DeviceInfo, Error>)
        requires
            old(ch).wf(),
        ensures
            final(ch).wf(),
            final(ch).incoming@ == old(ch).incoming@,
            old(self).poisoned ==> r == Err::<DeviceInfo, Error>(Error::Connection) && *final(self)
                == *old(self) && final(ch).sent@ == old(ch).sent@,
            !old(self).poisoned ==> {
                &&& pushed_text(old(ch).sent@, final(ch).sent@, info_frame())
                &&& match r {
                    Ok(info) => {
                        &&& reply_items(old(ch).remaining()) matches Some(items) && {
                            &&& items.len() >= 3
                            &&& info.version@ == items[0]
                            &&& info.dev_type@ == items[1]
                            &&& info.game@ == items[2]
                            &&& info.flags@.map_values(|f: Vec<u8>| f@) == items.skip(3)
                            &&& final(self).cached_info matches Some(ci) && ci.flags@.map_values(
                                |f: Vec<u8>| f@,
                            ) == items.skip(3)
                        }
                        &&& final(ch).cursor == old(ch).cursor + 1
                        &&& final(self).attached == old(self).attached
                        &&& final(self).client_name == old(self).client_name
                        &&& final(self).poisoned == old(self).poisoned
                        &&& final(self).devel == old(self).devel
                    },
                    Err(e) => reply_shape_failure(
                        old(ch).remaining(),
                        e,
                        *old(self),
                        *final(self),
                        3,
                    ),
                }
            },
    {
        if self.poisoned {
            return Err(Error::Connection);
        }
        let c = Command {
            opcode: Opcode::Info,
            space: Space::NoSpace,
            flags: Vec::new(),
            operands: Vec::new(),
        };
        let ghost gc = c;
        let sent = send_command(ch, c);
        proof {
            assert(gc.flags@.map_values(|f: Flag| flag_name(f)) =~= Seq::<Seq<u8>>::empty());
            assert(gc.operands@.map_values(|o: Vec<u8>| o@) =~= Seq::<Seq<u8>>::empty());
            assert(spec_encode(gc) == info_frame());
        }
        match sent {
            Ok(_) => {},
            Err(_) => {
                // a command with no unclean operand always encodes
                proof {
                    assert(false);
                }
                return Err(Error::CallerError);
            },
        }
        let items = match self.read_reply(ch) {
            Ok(items) => items,
            Err(e) => {
                return Err(e);
            },
        };
        if items.len() < 3 {
            return Err(Error::MalformedReply);
        }
        let returned = build_info(&items);
        let cached = build_info(&items);
        self.cached_info = Some(cached);
        Ok(returned)
    }

    /// Bring the device back to its menu; fire-and-forget, gated by the
    /// control-command capability.
    pub fn menu(&mut self, ch: &mut Channel) -> (r: Result<(), Error>)
        requires
            old(ch).wf(),
        ensures
            final(ch).wf(),
            old(ch).same_incoming(*final(ch)),
            *final(self) == *old(self),
            old(self).poisoned ==> r == Err::<(), Error>(Error::Connection) && final(ch).sent@
                == old(ch).sent@,
            !old(self).poisoned && old(self).no_control_cmd() ==> r == Err::<(), Error>(
                Error::Unsupported,
            ) && final(ch).sent@ == old(ch).sent@,
            !old(self).poisoned && !old(self).no_control_cmd() ==> r is Ok && pushed_text(
                old(ch).sent@,
                final(ch).sent@,
                menu_frame(),
            ),
    {
        if self.poisoned {
            return Err(Error::Connection);
        }
        if self.control_commands_blocked() {
            return Err(Error::Unsupported);
        }
        let mut flags: Vec<Flag> = Vec::new();
        flags.push(Flag::NoResponse);
        let c = Command { opcode: Opcode::Menu, space: Space::NoSpace, flags, operands: Vec::new() };
        let ghost gc = c;
        let sent = send_command(ch, c);
        proof {
            assert(gc.flags@.map_values(|f: Flag| flag_name(f)) =~= seq![
                flag_name(Flag::NoResponse),
            ]);
            assert(gc.operands@.map_values(|o: Vec<u8>| o@) =~= Seq::<Seq<u8>>::empty());
            assert(spec_encode(gc) == menu_frame());
        }
        match sent {
            Ok(_) => Ok(()),
            Err(_) => {
                // a command with no unclean operand always encodes
                proof {
                    assert(false);
                }
                Err(Error::CallerError)
            },
        }
    }

    /// Reset the running game; fire-and-forget, gated by the
    /// control-command capability.
    pub fn reset(&mut self, ch: &mut Channel) -> (r: Result<(), Error>)
        requires
            old(ch).wf(),
        ensures
            final(ch).wf(),
            old(ch).same_incoming(*final(ch)),
            *final(self) == *old(self),
            old(self).poisoned ==> r == Err::<(), Error>(Error::Connection) && final(ch).sent@
                == old(ch).sent@,
            !old(self).poisoned && old(self).no_control_cmd() ==> r == Err::<(), Error>(
                Error::Unsupported,
            ) && final(ch).sent@ == old(ch).sent@,
            !old(self).poisoned && !old(self).no_control_cmd() ==> r is Ok && pushed_text(
                old(ch).sent@,
                final(ch).sent@,
                reset_frame(),
            ),
    {
        if self.poisoned {
            return Err(Error::Connection);
        }
        if self.control_commands_blocked() {
            return Err(Error::Unsupported);
        }
        let mut flags: Vec<Flag> = Vec::new();
        flags.push(Flag::NoResponse);
        let c = Command {
            opcode: Opcode::Reset,
            space: Space::NoSpace,
            flags,
            operands: Vec::new(),
        };
        let ghost gc = c;
        let sent = send_command(ch, c);
        proof {
            assert(gc.flags@.map_values(|f: Flag| flag_name(f)) =~= seq![
                flag_name(Flag::NoResponse),
            ]);
            assert(gc.operands@.map_values(|o: Vec<u8>| o@) =~= Seq::<Seq<u8>>::empty());
            assert(spec_encode(gc) == reset_frame());
        }
        match sent {
            Ok(_) => Ok(()),
            Err(_) => {
                // a command with no unclean operand always encodes
                proof {
                    assert(false);
                }
                Err(Error::CallerError)
            },
        }
    }

    /// Boot the given file on the device; fire-and-forget, gated by the
    /// control-command capability.
    pub fn boot(&mut self, ch: &mut Channel, path: &[u8]) -> (r: Result<(), Error>)
        requires
            old(ch).wf(),
        ensures
            final(ch).wf(),
            old(ch).same_incoming(*final(ch)),
            *final(self) == *old(self),
            old(self).poisoned ==> r == Err::<(), Error>(Error::Connection) && final(ch).sent@
                == old(ch).sent@,
            !old(self).poisoned && old(self).no_control_cmd() ==> r == Err::<(), Error>(
                Error::Unsupported,
            ) && final(ch).sent@ == old(ch).sent@,
            !old(self).poisoned && !old(self).no_control_cmd() ==> match r {
                Ok(_) => clean_seq(path@) && pushed_text(
                    old(ch).sent@,
                    final(ch).sent@,
                    boot_frame(path@),
                ),
                Err(e) => e == Error::CallerError && !clean_seq(path@) && final(ch).sent@ == old(ch).sent@,
            },
    {
        if self.poisoned {
            return Err(Error::Connection);
        }
        if self.control_commands_blocked() {
            return Err(Error::Unsupported);
        }
        let mut flags: Vec<Flag> = Vec::new();
        flags.push(Flag::NoResponse);
        let mut operands: Vec<Vec<u8>> = Vec::new();
        operands.push(copy_bytes(path));
        let c = Command { opcode: Opcode::Boot, space: Space::NoSpace, flags, operands };
        let ghost gc = c;
        let sent = send_command(ch, c);
        proof {
            assert(gc.flags@.map_values(|f: Flag| flag_name(f)) =~= seq![
                flag_name(Flag::NoResponse),
            ]);
            assert(gc.operands@.map_values(|o: Vec<u8>| o@) =~= seq![path@]);
            assert(gc.operands@[0]@ == path@);
            if spec_command_ok(gc) {
                assert(spec_encode(gc) == boot_frame(path@));
                assert(clean_seq(gc.operands@[0]@));
            }
        }
        match sent {
            Ok(_) => Ok(()),
            Err(e) => Err(e),
        }
    }

    /// Delete a remote file; fire-and-forget, gated by the file-command
    /// capability.
    pub fn remove_path(&mut self, ch: &mut Channel, path: &[u8]) -> (r: Result<(), Error>)
        requires
            old(ch).wf(),
        ensures
            final(ch).wf(),
            old(ch).same_incoming(*final(ch)),
            *final(self) == *old(self),
            old(self).poisoned ==> r == Err::<(), Error>(Error::Connection) && final(ch).sent@
                == old(ch).sent@,
            !old(self).poisoned && old(self).no_file_cmd() ==> r == Err::<(), Error>(
                Error::Unsupported,
            ) && final(ch).sent@ == old(ch).sent@,
            !old(self).poisoned && !old(self).no_file_cmd() ==> match r {
                Ok(_) => clean_seq(path@) && pushed_text(
                    old(ch).sent@,
                    final(ch).sent@,
                    remove_frame(path@),
                ),
                Err(e) => e == Error::CallerError && !clean_seq(path@) && final(ch).sent@ == old(ch).sent@,
            },
    {
        if self.poisoned {
            return Err(Error::Connection);
        }
        if self.file_commands_blocked() {
            return Err(Error::Unsupported);
        }
        let mut flags: Vec<Flag> = Vec::new();
        flags.push(Flag::NoResponse);
        let mut operands: Vec<Vec<u8>> = Vec::new();
        operands.push(copy_bytes(path));
        let c = Command { opcode: Opcode::Remove, space: Space::Fs, flags, operands };
        let ghost gc = c;
        let sent = send_command(ch, c);
        proof {
            assert(gc.flags@.map_values(|f: Flag| flag_name(f)) =~= seq![
                flag_name(Flag::NoResponse),
            ]);
            assert(gc.operands@.map_values(|o: Vec<u8>| o@) =~= seq![path@]);
            assert(gc.operands@[0]@ == path@);
            if spec_command_ok(gc) {
                assert(spec_encode(gc) == remove_frame(path@));
                assert(clean_seq(gc.operands@[0]@));
            }
        }
        match sent {
            Ok(_) => Ok(()),
            Err(e) => Err(e),
        }
    }

    /// List a remote directory: the reply groups entries as (type marker,
    /// name) pairs, in target order; marker "0" tags a directory, any other
    /// marker a file. Gated by the file-command capability.
    pub fn ls(&mut self, ch: &mut Channel, path: &[u8]) -> (r: Result<Vec<DirEntry>, Error>)
        requires
            old(ch).wf(),
        ensures
            final(ch).wf(),
            final(ch).incoming@ == old(ch).incoming@,
            old(self).poisoned ==> r == Err::<Vec<DirEntry>, Error>(Error::Connection) && *final(self) == *old(self) && final(ch).sent@ == old(ch).sent@,
            !old(self).poisoned && old(self).no_file_cmd() ==> r == Err::<Vec<DirEntry>, Error>(
                Error::Unsupported,
            ) && *final(self) == *old(self) && final(ch).sent@ == old(ch).sent@,
            !old(self).poisoned && !old(self).no_file_cmd() && !clean_seq(path@) ==> r == Err::<
                Vec<DirEntry>,
                Error,
            >(Error::CallerError) && *final(self) == *old(self) && final(ch).sent@ == old(ch).sent@,
            !old(self).poisoned && !old(self).no_file_cmd() && clean_seq(path@) ==> {
                &&& pushed_text(old(ch).sent@, final(ch).sent@, ls_frame(path@))
                &&& match r {
                    Ok(entries) => {
                        &&& reply_items(old(ch).remaining()) matches Some(items) && {
                            &&& items.len() % 2 == 0
                            &&& entries@.len() == items.len() / 2
                            &&& forall|k: int|
                                0 <= k < entries@.len() ==> {
                                    &&& (#[trigger] entries@[k]).name@ == items[2 * k + 1]
                                    &&& (entries@[k].file_type == FileType::Dir <==> items[2 * k]
                                        == "0".spec_bytes())
                                }
                        }
                        &&& final(ch).cursor == old(ch).cursor + 1
                        &&& *final(self) == *old(self)
                    },
                    Err(e) => {
                        ||| reply_failure(old(ch).remaining(), e, *old(self), *final(self))
                        ||| (e == Error::MalformedReply && (reply_items(
                            old(ch).remaining(),
                        ) matches Some(items) && items.len() % 2 == 1) && *final(self) == *old(self))
                    },
                }
            },
    {
        if self.poisoned {
            return Err(Error::Connection);
        }
        if self.file_commands_blocked() {
            return Err(Error::Unsupported);
        }
        let mut operands: Vec<Vec<u8>> = Vec::new();
        operands.push(copy_bytes(path));
        let c = Command { opcode: Opcode::Ls, space: Space::Fs, flags: Vec::new(), operands };
        let ghost gc = c;
        let sent = send_command(ch, c);
        proof {
            assert(gc.flags@.map_values(|f: Flag| flag_name(f)) =~= Seq::<Seq<u8>>::empty());
            assert(gc.operands@.map_values(|o: Vec<u8>| o@) =~= seq![path@]);
            assert(gc.operands@[0]@ == path@);
            if spec_command_ok(gc) {
                assert(spec_encode(gc) == ls_frame(path@));
                assert(clean_seq(gc.operands@[0]@));
            }
        }
        match sent {
            Ok(_) => {},
            Err(e) => {
                return Err(e);
            },
        }
        let items = match self.read_reply(ch) {
            Ok(items) => items,
            Err(e) => {
                return Err(e);
            },
        };
        let n = items.len();
        if n % 2 != 0 {
            return Err(Error::MalformedReply);
        }
        let ghost iv = items@.map_values(|x: Vec<u8>| x@);
        let mut entries: Vec<DirEntry> = Vec::new();
        let mut i: usize = 0;
        while i < n
            invariant
                0 <= i <= n,
                i % 2 == 0,
                n % 2 == 0,
                n == items@.len(),
                iv == items@.map_values(|x: Vec<u8>| x@),
                entries@.len() == i / 2,
                forall|k: int|
                    0 <= k < entries@.len() ==> {
                        &&& (#[trigger] entries@[k]).name@ == iv[2 * k + 1]
                        &&& (entries@[k].file_type == FileType::Dir <==> iv[2 * k]
                            == "0".spec_bytes())
                    },
            decreases n - i,
    {
            let is_dir = bytes_eq(items[i].as_slice(), "0".as_bytes());
            let entry = DirEntry {
                name: copy_bytes(items[i + 1].as_slice()),
                file_type: if is_dir {
                    FileType::Dir
                } else {
                    FileType::File
                },
            };
            entries.push(entry);
            proof {
                assert(iv[i as int] == items@[i as int]@);
                assert(iv[i + 1] == items@[i + 1]@);
            }
            i = i + 2;
        }
        Ok(entries)
    }

    /// Read `size` bytes of memory at `address`: the command goes out, and
    /// the payload is accumulated out of however many binary frames the
    /// target sends. A short or interrupted payload poisons the session.
    pub fn get_address(&mut self, ch: &mut Channel, address: u32, size: usize) -> (r: Result<
        Vec<u8>,
        Error,
    >)
        requires
            old(ch).wf(),
        ensures
            final(ch).wf(),
            final(ch).incoming@ == old(ch).incoming@,
            old(self).poisoned ==> r == Err::<Vec<u8>, Error>(Error::Connection) && *final(self)
                == *old(self) && final(ch).sent@ == old(ch).sent@,
            !old(self).poisoned && (size == 0 || size > 0xFFFF_FFFFusize) ==> r == Err::<
                Vec<u8>,
                Error,
            >(Error::CallerError) && *final(self) == *old(self) && final(ch).sent@ == old(ch).sent@,
            !old(self).poisoned && 0 < size <= 0xFFFF_FFFFusize ==> {
                &&& pushed_text(
                    old(ch).sent@,
                    final(ch).sent@,
                    get_address_frame(address, size as u32),
                )
                &&& match r {
                    Ok(data) => {
                        &&& bin_prefix_bytes(old(ch).remaining()).len() >= size
                        &&& data@.len() == size
                        &&& data@ == bin_prefix_bytes(old(ch).remaining()).take(size as int)
                        &&& final(ch).cursor == old(ch).cursor + frames_for(
                            old(ch).remaining(),
                            size as int,
                        )
                        &&& *final(self) == *old(self)
                    },
                    Err(e) => {
                        &&& bin_prefix_bytes(old(ch).remaining()).len() < size
                        &&& e == (if bin_prefix_ends_at_text(old(ch).remaining()) {
                            Error::MalformedReply
                        } else {
                            Error::ShortRead
                        })
                        &&& poisoned_version(*old(self), *final(self))
                    },
                }
            },
    {
        if self.poisoned {
            return Err(Error::Connection);
        }
        if size == 0 || size > 0xFFFF_FFFFusize {
            return Err(Error::CallerError);
        }
        let mut operands: Vec<Vec<u8>> = Vec::new();
        operands.push(format_hex(address));
        operands.push(format_hex(size as u32));
        let c = Command { opcode: Opcode::GetAddress, space: Space::Snes, flags: Vec::new(), operands };
        let ghost gc = c;
        let sent = send_command(ch, c);
        proof {
            assert(gc.flags@.map_values(|f: Flag| flag_name(f)) =~= Seq::<Seq<u8>>::empty());
            assert(gc.operands@.map_values(|o: Vec<u8>| o@) =~= seq![
                spec_hex(address as nat),
                spec_hex((size as u32) as nat),
            ]);
            assert((size as u32) as nat == size as nat);
            crate::hex::lemma_hex_form(address as nat);
            crate::hex::lemma_hex_form(size as nat);
            lemma_hex_clean(address as nat);
            lemma_hex_clean(size as nat);
            assert(spec_command_ok(gc));
            assert(spec_encode(gc) == get_address_frame(address, size as u32));
        }
        match sent {
            Ok(_) => {},
            Err(_) => {
                // a command with no unclean operand always encodes
                proof {
                    assert(false);
                }
                return Err(Error::CallerError);
            },
        }
        match recv_exact(ch, size) {
            Ok(data) => Ok(data),
            Err(e) => {
                self.poisoned = true;
                Err(e)
            },
        }
    }

    /// Download a remote file. The target first replies with the total
    /// size as a hexadecimal string; the payload is then accumulated out
    /// of binary frames until exactly that many bytes have arrived.
    /// Zero-length files are legal and need no payload frame. Gated by the
    /// file-command capability.
    pub fn get_file(&mut self, ch: &mut Channel, path: &[u8]) -> (r: Result<Vec<u8>, Error>)
        requires
            old(ch).wf(),
        ensures
            final(ch).wf(),
            final(ch).incoming@ == old(ch).incoming@,
            old(self).poisoned ==> r == Err::<Vec<u8>, Error>(Error::Connection) && *final(self)
                == *old(self) && final(ch).sent@ == old(ch).sent@,
            !old(self).poisoned && old(self).no_file_cmd() ==> r == Err::<Vec<u8>, Error>(
                Error::Unsupported,
            ) && *final(self) == *old(self) && final(ch).sent@ == old(ch).sent@,
            !old(self).poisoned && !old(self).no_file_cmd() && !clean_seq(path@) ==> r == Err::<
                Vec<u8>,
                Error,
            >(Error::CallerError) && *final(self) == *old(self) && final(ch).sent@ == old(ch).sent@,
            !old(self).poisoned && !old(self).no_file_cmd() && clean_seq(path@) ==> {
                &&& pushed_text(old(ch).sent@, final(ch).sent@, get_file_frame(path@))
                &&& match r {
                    Ok(data) => {
                        &&& reply_items(old(ch).remaining()) matches Some(items) && {
                            &&& items.len() == 1
                            &&& spec_parse_hex(items[0]) matches Some(sz) && {
                                &&& data@.len() == sz
                                &&& data@ == bin_prefix_bytes(old(ch).remaining().skip(1)).take(
                                    sz as int,
                                )
                                &&& final(ch).cursor == old(ch).cursor + 1 + frames_for(
                                    old(ch).remaining().skip(1),
                                    sz as int,
                                )
                            }
                        }
                        &&& *final(self) == *old(self)
                    },
                    Err(e) => {
                        ||| reply_failure(old(ch).remaining(), e, *old(self), *final(self))
                        ||| (e == Error::MalformedReply && (reply_items(
                            old(ch).remaining(),
                        ) matches Some(items) && items.len() != 1) && *final(self) == *old(self))
                        ||| (e == Error::InvalidSize && (reply_items(
                            old(ch).remaining(),
                        ) matches Some(items) && items.len() == 1 && spec_parse_hex(items[0]) is None)
                            && *final(self) == *old(self))
                        ||| ((reply_items(old(ch).remaining()) matches Some(items) && {
                            &&& items.len() == 1
                            &&& spec_parse_hex(items[0]) matches Some(sz) && {
                                &&& bin_prefix_bytes(old(ch).remaining().skip(1)).len() < sz
                                &&& e == (if bin_prefix_ends_at_text(
                                    old(ch).remaining().skip(1),
                                ) {
                                    Error::MalformedReply
                                } else {
                                    Error::ShortRead
                                })
                            }
                        }) && poisoned_version(*old(self), *final(self)))
                    },
                }
            },
    {
        if self.poisoned {
            return Err(Error::Connection);
        }
        if self.file_commands_blocked() {
            return Err(Error::Unsupported);
        }
        let mut operands: Vec<Vec<u8>> = Vec::new();
        operands.push(copy_bytes(path));
        let c = Command { opcode: Opcode::GetFile, space: Space::Fs, flags: Vec::new(), operands };
        let ghost gc = c;
        let sent = send_command(ch, c);
        proof {
            assert(gc.flags@.map_values(|f: Flag| flag_name(f)) =~= Seq::<Seq<u8>>::empty());
            assert(gc.operands@.map_values(|o: Vec<u8>| o@) =~= seq![path@]);
            assert(gc.operands@[0]@ == path@);
            if spec_command_ok(gc) {
                assert(spec_encode(gc) == get_file_frame(path@));
                assert(clean_seq(gc.operands@[0]@));
            }
        }
        match sent {
            Ok(_) => {},
            Err(e) => {
                return Err(e);
            },
        }
        let items = match self.read_reply(ch) {
            Ok(items) => items,
            Err(e) => {
                return Err(e);
            },
        };
        if items.len() != 1 {
            return Err(Error::MalformedReply);
        }
        let size32 = match parse_hex(items[0].as_slice()) {
            Ok(v) => v,
            Err(e) => {
                return Err(e);
            },
        };
        let size: usize = size32 as usize;
        proof {
            assert(ch.remaining() =~= old(ch).remaining().skip(1));
        }
        match recv_exact(ch, size) {
            Ok(data) => Ok(data),
            Err(e) => {
                self.poisoned = true;
                Err(e)
            },
        }
    }

    /// Upload a file: the command announces the destination and the total
    /// size as a hexadecimal operand, and the content follows split into
    /// chunks of at most `DEFAULT_CHUNK_SIZE` bytes, in order, with no
    /// acknowledgment awaited. Gated by the file-command capability.
    pub fn send_file(&mut self, ch: &mut Channel, path: &[u8], data: &[u8]) -> (r: Result<
        (),
        Error,
    >)
        requires
            old(ch).wf(),
        ensures
            final(ch).wf(),
            old(ch).same_incoming(*final(ch)),
            *final(self) == *old(self),
            old(self).poisoned ==> r == Err::<(), Error>(Error::Connection) && final(ch).sent@
                == old(ch).sent@,
            !old(self).poisoned && old(self).no_file_cmd() ==> r == Err::<(), Error>(
                Error::Unsupported,
            ) && final(ch).sent@ == old(ch).sent@,
            !old(self).poisoned && !old(self).no_file_cmd() ==> match r {
                Ok(_) => {
                    &&& clean_seq(path@) && data@.len() <= 0xFFFF_FFFF
                    &&& final(ch).sent@.len() == old(ch).sent@.len() + 1 + spec_chunks(
                        data@,
                        DEFAULT_CHUNK_SIZE as int,
                    ).len()
                    &&& final(ch).sent@.take(old(ch).sent@.len() as int) == old(ch).sent@
                    &&& final(ch).sent@[old(ch).sent@.len() as int] matches Frame::Text(t) && t@
                        == put_file_frame(path@, data@.len() as nat)
                    &&& frames_are_chunks(
                        final(ch).sent@.skip(old(ch).sent@.len() as int + 1),
                        data@,
                        DEFAULT_CHUNK_SIZE as int,
                    )
                },
                Err(e) => {
                    &&& e == Error::CallerError
                    &&& (!clean_seq(path@) || data@.len() > 0xFFFF_FFFF)
                    &&& final(ch).sent@ == old(ch).sent@
                },
            },
    {
        if self.poisoned {
            return Err(Error::Connection);
        }
        if self.file_commands_blocked() {
            return Err(Error::Unsupported);
        }
        if data.len() > 0xFFFF_FFFFusize {
            return Err(Error::CallerError);
        }
        let len32: u32 = data.len() as u32;
        let mut operands: Vec<Vec<u8>> = Vec::new();
        operands.push(copy_bytes(path));
        operands.push(format_hex(len32));
        let c = Command { opcode: Opcode::PutFile, space: Space::Fs, flags: Vec::new(), operands };
        let ghost gc = c;
        let sent = send_command(ch, c);
        proof {
            assert(gc.flags@.map_values(|f: Flag| flag_name(f)) =~= Seq::<Seq<u8>>::empty());
            assert(gc.operands@.map_values(|o: Vec<u8>| o@) =~= seq![
                path@,
                spec_hex(len32 as nat),
            ]);
            assert(len32 as nat == data@.len());
            assert(gc.operands@[0]@ == path@);
            assert(gc.operands@[1]@ == spec_hex(len32 as nat));
            lemma_hex_clean(len32 as nat);
            assert(clean_seq(path@) ==> spec_command_ok(gc));
            if spec_command_ok(gc) {
                assert(spec_encode(gc) == put_file_frame(path@, data@.len() as nat));
                assert(clean_seq(gc.operands@[0]@));
            }
        }
        match sent {
            Ok(_) => {},
            Err(e) => {
                return Err(e);
            },
        }
        let ghost base = old(ch).sent@.len() as int;
        let ghost mid_sent = ch.sent@;
        let ghost cspec = spec_chunks(data@, DEFAULT_CHUNK_SIZE as int);
        let chunks = chunk_bytes(data, DEFAULT_CHUNK_SIZE);
        let n = chunks.len();
        let mut i: usize = 0;
        while i < n
            invariant
                0 <= i <= n,
                n == chunks@.len(),
                chunks@.map_values(|x: Vec<u8>| x@) == cspec,
                cspec == spec_chunks(data@, DEFAULT_CHUNK_SIZE as int),
                mid_sent.len() == base + 1,
                ch.sent@.len() == base + 1 + i,
                ch.sent@.take(base + 1) == mid_sent,
                forall|k: int|
                    0 <= k < i ==> ((#[trigger] ch.sent@[base + 1 + k]) matches Frame::Binary(b)
                        && b@ == cspec[k]),
                ch.incoming@ == old(ch).incoming@,
                ch.cursor == old(ch).cursor,
            decreases n - i,
        {
            let piece = copy_bytes(chunks[i].as_slice());
            proof {
                assert(chunks@.map_values(|x: Vec<u8>| x@)[i as int] == chunks@[i as int]@);
            }
            ch.send(Frame::Binary(piece));
            proof {
                assert(ch.sent@.take(base + 1) =~= mid_sent);
            }
            i = i + 1;
        }
        proof {
            assert(ch.sent@.take(base) =~= old(ch).sent@);
            let tail_frames = ch.sent@.skip(base + 1);
            assert(tail_frames.len() == cspec.len());
            assert(forall|k: int|
                0 <= k < tail_frames.len() ==> #[trigger] tail_frames[k] == ch.sent@[base + 1
                    + k]);
            assert(frames_are_chunks(tail_frames, data@, DEFAULT_CHUNK_SIZE as int));
            assert(ch.sent@[base] == mid_sent[base]);
        }
        Ok(())
    }
}

} // verus!
