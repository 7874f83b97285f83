//! The command codec: builds outgoing command envelopes as JSON-shaped text
//! frames, and parses incoming structured replies, which carry an ordered
//! list of string results wrapped as `{"Results":["..","..."]}`.
//!
//! The codec handles exactly the JSON subset the protocol uses: strings of
//! printable bytes without escape sequences, in compact form. A reply that
//! departs from that shape is `MalformedReply`; an operand that could not be
//! framed losslessly (a quote, a backslash, a control byte) is rejected as
//! `CallerError` before anything is sent.

use vstd::prelude::*;
use vstd::string::StringSliceAdditionalSpecFns;
use crate::Error;

verus! {

pub const QUOTE: u8 = 34;
pub const COMMA: u8 = 44;
pub const COLON: u8 = 58;
pub const LBRACKET: u8 = 91;
pub const BACKSLASH: u8 = 92;
pub const RBRACKET: u8 = 93;
pub const LBRACE: u8 = 123;
pub const RBRACE: u8 = 125;

/// The fixed operation codes of the protocol.
#[derive(Clone, Copy, Debug, PartialEq, Eq, Structural)]
pub enum Opcode {
    AppVersion,
    Name,
    ListDevice,
    Attach,
    Info,
    Menu,
    Reset,
    Boot,
    GetAddress,
    Ls,
    GetFile,
    PutFile,
    Remove,
}

/// The target space a command addresses.
#[derive(Clone, Copy, Debug, PartialEq, Eq, Structural)]
pub enum Space {
    NoSpace,
    Snes,
    Fs,
}

/// Optional envelope flags.
#[derive(Clone, Copy, Debug, PartialEq, Eq, Structural)]
pub enum Flag {
    /// The target is not expected to reply to this command.
    NoResponse,
}

/// A command envelope: one per logical call, immutable once built.
#[derive(Debug)]
pub struct Command {
    pub opcode: Opcode,
    pub space: Space,
    pub flags: Vec<Flag>,
    pub operands: Vec<Vec<u8>>,
}

/// Wire name of an opcode.
pub open spec fn opcode_name(op: Opcode) -> Seq<u8> {
    match op {
        Opcode::AppVersion => "APP_VERSION".spec_bytes(),
        Opcode::Name => "NAME".spec_bytes(),
        Opcode::ListDevice => "LIST_DEVICE".spec_bytes(),
        Opcode::Attach => "ATTACH".spec_bytes(),
        Opcode::Info => "INFO".spec_bytes(),
        Opcode::Menu => "MENU".spec_bytes(),
        Opcode::Reset => "RESET".spec_bytes(),
        Opcode::Boot => "BOOT".spec_bytes(),
        Opcode::GetAddress => "GET_ADDRESS".spec_bytes(),
        Opcode::Ls => "LS".spec_bytes(),
        Opcode::GetFile => "GET_FILE".spec_bytes(),
        Opcode::PutFile => "PUT_FILE".spec_bytes(),
        Opcode::Remove => "REMOVE".spec_bytes(),
    }
}

/// Wire name of a space.
pub open spec fn space_name(sp: Space) -> Seq<u8> {
    match sp {
        Space::NoSpace => "NONE".spec_bytes(),
        Space::Snes => "SNES".spec_bytes(),
        Space::Fs => "FILE".spec_bytes(),
    }
}

/// Wire name of a flag.
pub open spec fn flag_name(f: Flag) -> Seq<u8> {
    match f {
        Flag::NoResponse => "NORESP".spec_bytes(),
    }
}

/// A byte that may stand inside a framed string: printable, no quote, no
/// backslash.
pub open spec fn clean_byte(c: u8) -> bool {
    c != QUOTE && c != BACKSLASH && c >= 32
}

/// A string of clean bytes: it frames losslessly, without escapes.
pub open spec fn clean_seq(s: Seq<u8>) -> bool {
    forall|i: int| 0 <= i < s.len() ==> clean_byte(#[trigger] s[i])
}

/// `"s"`: a string in its frame quotes.
pub open spec fn spec_quote(s: Seq<u8>) -> Seq<u8> {
    seq![QUOTE] + s + seq![QUOTE]
}

/// `"a","b",...`: quoted strings joined by commas.
pub open spec fn spec_join(items: Seq<Seq<u8>>) -> Seq<u8>
    decreases items.len(),
{
    if items.len() == 0 {
        Seq::empty()
    } else if items.len() == 1 {
        spec_quote(items[0])
    } else {
        spec_quote(items[0]) + seq![COMMA] + spec_join(items.drop_first())
    }
}

/// `"key":[`: an opening list field.
pub open spec fn spec_list_open(key: Seq<u8>) -> Seq<u8> {
    spec_quote(key) + seq![COLON, LBRACKET]
}

/// An envelope: opcode, space, flag and operand fields in fixed order,
/// compact.
pub open spec fn spec_envelope(
    opname: Seq<u8>,
    spname: Seq<u8>,
    flagnames: Seq<Seq<u8>>,
    operands: Seq<Seq<u8>>,
) -> Seq<u8> {
    seq![LBRACE] + spec_quote("Opcode".spec_bytes()) + seq![COLON] + spec_quote(opname)
        + seq![COMMA] + spec_quote("Space".spec_bytes()) + seq![COLON] + spec_quote(spname)
        + seq![COMMA] + spec_list_open("Flags".spec_bytes()) + spec_join(flagnames)
        + seq![RBRACKET, COMMA] + spec_list_open("Operands".spec_bytes()) + spec_join(operands)
        + seq![RBRACKET, RBRACE]
}

/// The envelope of a command: its four fields in fixed order, compact.
pub open spec fn spec_encode(c: Command) -> Seq<u8> {
    spec_envelope(
        opcode_name(c.opcode),
        space_name(c.space),
        c.flags@.map_values(|f: Flag| flag_name(f)),
        c.operands@.map_values(|o: Vec<u8>| o@),
    )
}

/// How many operands each opcode takes.
pub open spec fn spec_arity(op: Opcode) -> int {
    match op {
        Opcode::AppVersion => 0,
        Opcode::Name => 1,
        Opcode::ListDevice => 0,
        Opcode::Attach => 1,
        Opcode::Info => 0,
        Opcode::Menu => 0,
        Opcode::Reset => 0,
        Opcode::Boot => 1,
        Opcode::GetAddress => 2,
        Opcode::Ls => 1,
        Opcode::GetFile => 1,
        Opcode::PutFile => 2,
        Opcode::Remove => 1,
    }
}

/// A command is well-formed when its operand count matches its opcode and
/// every operand frames losslessly.
pub open spec fn spec_command_ok(c: Command) -> bool {
    &&& c.operands@.len() == spec_arity(c.opcode)
    &&& forall|i: int| 0 <= i < c.operands@.len() ==> clean_seq((#[trigger] c.operands@[i])@)
}

/// Append a slice to a byte vector.
fn push_bytes(v: &mut Vec<u8>, s: &[u8])
    ensures
        final(v)@ == old(v)@ + s@,
{
    let mut i: usize = 0;
    let n = s.len();
    while i < n
        invariant
            0 <= i <= n,
            n == s@.len(),
            v@ == old(v)@ + s@.take(i as int),
        decreases n - i,
    {
        v.push(s[i]);
        proof {
            assert(old(v)@ + s@.take(i + 1) =~= (old(v)@ + s@.take(i as int)).push(s@[i as int]));
        }
        i = i + 1;
    }
    proof {
        assert(s@.take(n as int) =~= s@);
    }
}

/// Append a quoted string.
fn push_quoted(v: &mut Vec<u8>, s: &[u8])
    ensures
        final(v)@ == old(v)@ + spec_quote(s@),
{
    v.push(QUOTE);
    push_bytes(v, s);
    v.push(QUOTE);
    proof {
        assert(final(v)@ =~= old(v)@ + spec_quote(s@));
    }
}

/// Exec wire name of an opcode.
fn opcode_name_bytes(op: Opcode) -> (r: &'static [u8])
    ensures
        r@ == opcode_name(op),
{
    match op {
        Opcode::AppVersion => "APP_VERSION".as_bytes(),
        Opcode::Name => "NAME".as_bytes(),
        Opcode::ListDevice => "LIST_DEVICE".as_bytes(),
        Opcode::Attach => "ATTACH".as_bytes(),
        Opcode::Info => "INFO".as_bytes(),
        Opcode::Menu => "MENU".as_bytes(),
        Opcode::Reset => "RESET".as_bytes(),
        Opcode::Boot => "BOOT".as_bytes(),
        Opcode::GetAddress => "GET_ADDRESS".as_bytes(),
        Opcode::Ls => "LS".as_bytes(),
        Opcode::GetFile => "GET_FILE".as_bytes(),
        Opcode::PutFile => "PUT_FILE".as_bytes(),
        Opcode::Remove => "REMOVE".as_bytes(),
    }
}

/// Exec wire name of a space.
fn space_name_bytes(sp: Space) -> (r: &'static [u8])
    ensures
        r@ == space_name(sp),
{
    match sp {
        Space::NoSpace => "NONE".as_bytes(),
        Space::Snes => "SNES".as_bytes(),
        Space::Fs => "FILE".as_bytes(),
    }
}

/// Exec wire name of a flag.
fn flag_name_bytes(f: Flag) -> (r: &'static [u8])
    ensures
        r@ == flag_name(f),
{
    match f {
        Flag::NoResponse => "NORESP".as_bytes(),
    }
}

/// Whether every byte of `s` frames losslessly.
pub fn is_clean(s: &[u8]) -> (r: bool)
    ensures
        r == clean_seq(s@),
{
    let mut i: usize = 0;
    let n = s.len();
    while i < n
        invariant
            0 <= i <= n,
            n == s@.len(),
            forall|j: int| 0 <= j < i ==> clean_byte(#[trigger] s@[j]),
        decreases n - i,
    {
        let c = s[i];
        if c == QUOTE || c == BACKSLASH || c < 32 {
            return false;
        }
        i = i + 1;
    }
    true
}

/// Append `"a","b",...` for a list of strings.
fn push_join(v: &mut Vec<u8>, items: &Vec<Vec<u8>>)
    ensures
        final(v)@ == old(v)@ + spec_join(items@.map_values(|o: Vec<u8>| o@)),
{
    let n = items.len();
    let mut i: usize = 0;
    while i < n
        invariant
            0 <= i <= n,
            n == items@.len(),
            v@ == old(v)@ + spec_join_prefix(items@.map_values(|o: Vec<u8>| o@), i as int),
        decreases n - i,
    {
        if i > 0 {
            v.push(COMMA);
        }
        push_quoted(v, items[i].as_slice());
        proof {
            lemma_join_prefix_step(items@.map_values(|o: Vec<u8>| o@), i as int);
        }
        i = i + 1;
    }
    proof {
        lemma_join_prefix_all(items@.map_values(|o: Vec<u8>| o@));
    }
}

/// The join of the first k items, as already emitted by the joining loop.
pub open spec fn spec_join_prefix(items: Seq<Seq<u8>>, k: int) -> Seq<u8>
    decreases k,
{
    if k <= 0 {
        Seq::empty()
    } else if k == 1 {
        spec_quote(items[0])
    } else {
        spec_join_prefix(items, k - 1) + seq![COMMA] + spec_quote(items[k - 1])
    }
}

/// Emitting one more item extends the emitted join as the loop does.
proof fn lemma_join_prefix_step(items: Seq<Seq<u8>>, k: int)
    requires
        0 <= k < items.len(),
    ensures
        spec_join_prefix(items, k + 1) == if k == 0 {
            spec_join_prefix(items, k) + spec_quote(items[k])
        } else {
            spec_join_prefix(items, k) + seq![COMMA] + spec_quote(items[k])
        },
{
    if k == 0 {
        assert(spec_join_prefix(items, 1) == spec_quote(items[0]));
        assert(spec_join_prefix(items, 0) + spec_quote(items[0]) =~= spec_quote(items[0]));
    }
}

/// The full emitted join is the join.
proof fn lemma_join_prefix_all(items: Seq<Seq<u8>>)
    ensures
        spec_join_prefix(items, items.len() as int) == spec_join(items),
    decreases items.len(),
{
    let n = items.len() as int;
    if n == 0 {
    } else if n == 1 {
    } else {
        let rest = items.drop_first();
        lemma_join_prefix_all(rest);
        assert(spec_join(items) == spec_quote(items[0]) + seq![COMMA] + spec_join(rest));
        lemma_join_prefix_shift(items, n);
        assert(spec_join_prefix(rest, n - 1) == spec_join(rest));
    }
}

/// A join prefix of the tail, shifted by one item.
proof fn lemma_join_prefix_shift(items: Seq<Seq<u8>>, k: int)
    requires
        2 <= k <= items.len(),
    ensures
        spec_join_prefix(items, k) == spec_quote(items[0]) + seq![COMMA] + spec_join_prefix(
            items.drop_first(),
            k - 1,
        ),
    decreases k,
{
    let rest = items.drop_first();
    if k == 2 {
        assert(spec_join_prefix(items, 2) == spec_join_prefix(items, 1) + seq![COMMA]
            + spec_quote(items[1]));
        assert(spec_join_prefix(rest, 1) == spec_quote(rest[0]));
        assert(rest[0] == items[1]);
        assert(spec_join_prefix(items, 1) + seq![COMMA] + spec_quote(items[1]) =~= spec_quote(
            items[0],
        ) + seq![COMMA] + spec_quote(rest[0]));
    } else {
        lemma_join_prefix_shift(items, k - 1);
        assert(rest[k - 2] == items[k - 1]);
        assert((spec_quote(items[0]) + seq![COMMA] + spec_join_prefix(rest, k - 2)) + seq![COMMA]
            + spec_quote(rest[k - 2]) =~= spec_quote(items[0]) + seq![COMMA] + (spec_join_prefix(
            rest,
            k - 2,
        ) + seq![COMMA] + spec_quote(rest[k - 2])));
    }
}

/// Build the text frame for a command. Succeeds exactly when the command is
/// well-formed: operand count matching the opcode, every operand clean.
#[verifier::rlimit(50)]
pub fn encode(c: &Command) -> (r: Result<Vec<u8>, Error>)
    ensures
        match r {
            Ok(f) => spec_command_ok(*c) && f@ == spec_encode(*c),
            Err(e) => !spec_command_ok(*c) && e == Error::CallerError,
        },
{
    let arity: usize = match c.opcode {
        Opcode::AppVersion => 0,
        Opcode::Name => 1,
        Opcode::ListDevice => 0,
        Opcode::Attach => 1,
        Opcode::Info => 0,
        Opcode::Menu => 0,
        Opcode::Reset => 0,
        Opcode::Boot => 1,
        Opcode::GetAddress => 2,
        Opcode::Ls => 1,
        Opcode::GetFile => 1,
        Opcode::PutFile => 2,
        Opcode::Remove => 1,
    };
    if c.operands.len() != arity {
        return Err(Error::CallerError);
    }
    let mut i: usize = 0;
    let n = c.operands.len();
    while i < n
        invariant
            0 <= i <= n,
            n == c.operands@.len(),
            forall|j: int| 0 <= j < i ==> clean_seq((#[trigger] c.operands@[j])@),
        decreases n - i,
    {
        if !is_clean(c.operands[i].as_slice()) {
            return Err(Error::CallerError);
        }
        i = i + 1;
    }
    let mut f: Vec<u8> = Vec::new();
    f.push(LBRACE);
    push_quoted(&mut f, "Opcode".as_bytes());
    f.push(COLON);
    push_quoted(&mut f, opcode_name_bytes(c.opcode));
    f.push(COMMA);
    push_quoted(&mut f, "Space".as_bytes());
    f.push(COLON);
    push_quoted(&mut f, space_name_bytes(c.space));
    f.push(COMMA);
    push_quoted(&mut f, "Flags".as_bytes());
    f.push(COLON);
    f.push(LBRACKET);
    push_flag_join(&mut f, &c.flags);
    f.push(RBRACKET);
    f.push(COMMA);
    push_quoted(&mut f, "Operands".as_bytes());
    f.push(COLON);
    f.push(LBRACKET);
    push_join(&mut f, &c.operands);
    f.push(RBRACKET);
    f.push(RBRACE);
    proof {
        assert(f@ =~= spec_encode(*c));
    }
    Ok(f)
}

/// Append `"FLAG1","FLAG2",...` for the flag list.
fn push_flag_join(v: &mut Vec<u8>, flags: &Vec<Flag>)
    ensures
        final(v)@ == old(v)@ + spec_join(flags@.map_values(|f: Flag| flag_name(f))),
{
    let n = flags.len();
    let mut i: usize = 0;
    while i < n
        invariant
            0 <= i <= n,
            n == flags@.len(),
            v@ == old(v)@ + spec_join_prefix(flags@.map_values(|f: Flag| flag_name(f)), i as int),
        decreases n - i,
    {
        if i > 0 {
            v.push(COMMA);
        }
        push_quoted(v, flag_name_bytes(flags[i]));
        proof {
            lemma_join_prefix_step(flags@.map_values(|f: Flag| flag_name(f)), i as int);
        }
        i = i + 1;
    }
    proof {
        lemma_join_prefix_all(flags@.map_values(|f: Flag| flag_name(f)));
    }
}


/// First quote at or after position i, provided every byte before it is
/// clean; `None` when a byte that cannot stand in a string comes first, or
/// the quote never comes.
pub open spec fn sp_scan(s: Seq<u8>, i: int) -> Option<int>
    decreases s.len() - i,
{
    if !(0 <= i < s.len()) {
        None
    } else if s[i] == QUOTE {
        Some(i)
    } else if !clean_byte(s[i]) {
        None
    } else {
        sp_scan(s, i + 1)
    }
}

/// The scan finds a quote that clean bytes lead to.
pub proof fn lemma_sp_scan_finds(s: Seq<u8>, i: int, j: int)
    requires
        0 <= i <= j < s.len(),
        s[j] == QUOTE,
        forall|k: int| i <= k < j ==> clean_byte(#[trigger] s[k]),
    ensures
        sp_scan(s, i) == Some(j),
    decreases j - i,
{
    if i < j {
        lemma_sp_scan_finds(s, i + 1, j);
    }
}

/// Parse a nonempty comma-separated list of quoted strings filling `s`
/// completely; `None` when `s` is not exactly such a list.
pub open spec fn sp_items(s: Seq<u8>) -> Option<Seq<Seq<u8>>>
    decreases s.len(),
{
    if s.len() == 0 {
        None
    } else if s[0] != QUOTE {
        None
    } else {
        match sp_scan(s, 1) {
            Option::None => None,
            Option::Some(j) => if !(1 <= j < s.len()) {
                None
            } else {
                let item = s.subrange(1, j);
                if j + 1 == s.len() {
                    Some(seq![item])
                } else if s[j + 1] == COMMA {
                    match sp_items(s.skip(j + 2)) {
                        Option::None => None,
                        Option::Some(rest) => Some(seq![item] + rest),
                    }
                } else {
                    None
                }
            },
        }
    }
}

/// `{"Results":[`
pub open spec fn reply_prefix() -> Seq<u8> {
    seq![LBRACE] + spec_quote("Results".spec_bytes()) + seq![COLON, LBRACKET]
}

/// `]}`
pub open spec fn reply_suffix() -> Seq<u8> {
    seq![RBRACKET, RBRACE]
}

/// The canonical frame of a structured reply carrying `items`.
pub open spec fn spec_reply(items: Seq<Seq<u8>>) -> Seq<u8> {
    reply_prefix() + spec_join(items) + reply_suffix()
}

/// Parse a structured reply frame: the wrapper, then the result list;
/// `None` when the frame is not exactly such a reply.
pub open spec fn sp_reply(s: Seq<u8>) -> Option<Seq<Seq<u8>>> {
    let p = reply_prefix();
    let q = reply_suffix();
    if s.len() < p.len() + q.len() {
        None
    } else if s.take(p.len() as int) != p {
        None
    } else if s.skip(s.len() - q.len()) != q {
        None
    } else if s.len() == p.len() + q.len() {
        Some(Seq::empty())
    } else {
        sp_items(s.subrange(p.len() as int, s.len() - q.len()))
    }
}

/// Find the closing quote of a string begun before `from`.
fn scan_quote(s: &[u8], from: usize) -> (r: Result<usize, Error>)
    requires
        1 <= from <= s@.len(),
    ensures
        match r {
            Ok(j) => sp_scan(s@, from as int) == Some(j as int) && from <= j < s@.len(),
            Err(e) => sp_scan(s@, from as int) is None && e == Error::MalformedReply,
        },
{
    let n = s.len();
    let mut j = from;
    while j < n
        invariant
            from <= j <= n,
            n == s@.len(),
            sp_scan(s@, from as int) == sp_scan(s@, j as int),
        decreases n - j,
    {
        let c = s[j];
        if c == QUOTE {
            return Ok(j);
        }
        if c == BACKSLASH || c < 32 {
            return Err(Error::MalformedReply);
        }
        j = j + 1;
    }
    Err(Error::MalformedReply)
}

/// Parse a nonempty result list filling `s` completely.
fn parse_items(s: &[u8]) -> (r: Result<Vec<Vec<u8>>, Error>)
    ensures
        match r {
            Ok(v) => sp_items(s@) == Some(v@.map_values(|x: Vec<u8>| x@)),
            Err(e) => sp_items(s@) is None && e == Error::MalformedReply,
        },
    decreases s@.len(),
{
    let n = s.len();
    if n == 0 {
        return Err(Error::MalformedReply);
    }
    if s[0] != QUOTE {
        return Err(Error::MalformedReply);
    }
    let j = match scan_quote(s, 1) {
        Ok(j) => j,
        Err(e) => {
            return Err(e);
        },
    };
    let item = vstd::slice::slice_to_vec(vstd::slice::slice_subrange(s, 1, j));
    if j + 1 == n {
        let mut v: Vec<Vec<u8>> = Vec::new();
        v.push(item);
        proof {
            assert(v@.map_values(|x: Vec<u8>| x@) =~= seq![s@.subrange(1, j as int)]);
        }
        return Ok(v);
    }
    if s[j + 1] == COMMA {
        let rest = match parse_items(vstd::slice::slice_subrange(s, j + 2, n)) {
            Ok(rest) => rest,
            Err(e) => {
                proof {
                    assert(s@.subrange(j + 2, n as int) =~= s@.skip(j + 2));
                }
                return Err(e);
            },
        };
        let mut v: Vec<Vec<u8>> = Vec::new();
        v.push(item);
        let ghost rest_view = rest@.map_values(|x: Vec<u8>| x@);
        let mut rest = rest;
        v.append(&mut rest);
        proof {
            assert(s@.subrange(j + 2, n as int) =~= s@.skip(j + 2));
            assert(v@.map_values(|x: Vec<u8>| x@) =~= seq![s@.subrange(1, j as int)] + rest_view);
        }
        return Ok(v);
    }
    Err(Error::MalformedReply)
}

/// The reply wrapper's opening bytes.
fn reply_prefix_bytes() -> (r: Vec<u8>)
    ensures
        r@ == reply_prefix(),
{
    let mut v: Vec<u8> = Vec::new();
    v.push(LBRACE);
    push_quoted(&mut v, "Results".as_bytes());
    v.push(COLON);
    v.push(LBRACKET);
    proof {
        assert(v@ =~= reply_prefix());
    }
    v
}

/// Parse a structured reply frame into its ordered list of string results.
/// Fails with `MalformedReply` exactly when the frame is not a well-formed
/// reply.
pub fn decode_reply(frame: &[u8]) -> (r: Result<Vec<Vec<u8>>, Error>)
    ensures
        match r {
            Ok(v) => sp_reply(frame@) == Some(v@.map_values(|x: Vec<u8>| x@)),
            Err(e) => sp_reply(frame@) is None && e == Error::MalformedReply,
        },
{
    let p = reply_prefix_bytes();
    let plen = p.len();
    let n = frame.len();
    if n < 2 || n - 2 < plen {
        return Err(Error::MalformedReply);
    }
    let mut k: usize = 0;
    while k < plen
        invariant
            0 <= k <= plen,
            plen == reply_prefix().len(),
            p@ == reply_prefix(),
            n == frame@.len(),
            n >= plen + 2,
            forall|t: int| 0 <= t < k ==> frame@[t] == reply_prefix()[t],
        decreases plen - k,
    {
        if frame[k] != p[k] {
            proof {
                assert(frame@.take(plen as int)[k as int] != reply_prefix()[k as int]);
            }
            return Err(Error::MalformedReply);
        }
        k = k + 1;
    }
    proof {
        assert(frame@.take(plen as int) =~= reply_prefix());
    }
    if frame[n - 2] != RBRACKET || frame[n - 1] != RBRACE {
        proof {
            if frame@.skip(n - 2) == reply_suffix() {
                assert(frame@.skip(n - 2)[0] == RBRACKET);
                assert(frame@.skip(n - 2)[1] == RBRACE);
            }
        }
        return Err(Error::MalformedReply);
    }
    proof {
        assert(frame@.skip(n - 2) =~= reply_suffix());
    }
    if n == plen + 2 {
        let v: Vec<Vec<u8>> = Vec::new();
        proof {
            assert(v@.map_values(|x: Vec<u8>| x@) =~= Seq::<Seq<u8>>::empty());
        }
        return Ok(v);
    }
    parse_items(vstd::slice::slice_subrange(frame, plen, n - 2))
}

/// A canonical reply parses back to exactly the items it carries: the
/// decoder is a left inverse of the reply framing, for every list of clean
/// results.
pub proof fn lemma_reply_round_trip(items: Seq<Seq<u8>>)
    requires
        forall|i: int| 0 <= i < items.len() ==> clean_seq(#[trigger] items[i]),
    ensures
        sp_reply(spec_reply(items)) == Some(items),
{
    let p = reply_prefix();
    let q = reply_suffix();
    let s = spec_reply(items);
    assert(s.len() == p.len() + spec_join(items).len() + q.len());
    assert(s.take(p.len() as int) =~= p);
    assert(s.skip(s.len() - q.len()) =~= q);
    if items.len() == 0 {
        assert(spec_join(items).len() == 0);
    } else {
        lemma_join_len_pos(items);
        assert(s.subrange(p.len() as int, s.len() - q.len()) =~= spec_join(items));
        lemma_sp_items_join(items);
    }
}

/// A nonempty join is nonempty.
proof fn lemma_join_len_pos(items: Seq<Seq<u8>>)
    requires
        items.len() >= 1,
    ensures
        spec_join(items).len() >= 2,
{
}

/// The item parser undoes the join, for clean items.
proof fn lemma_sp_items_join(items: Seq<Seq<u8>>)
    requires
        items.len() >= 1,
        forall|i: int| 0 <= i < items.len() ==> clean_seq(#[trigger] items[i]),
    ensures
        sp_items(spec_join(items)) == Some(items),
    decreases items.len(),
{
    let s = spec_join(items);
    let x = items[0];
    let j = 1 + x.len() as int;
    if items.len() == 1 {
        assert(s == spec_quote(x));
        assert(s.len() == x.len() + 2);
        assert(s[0] == QUOTE);
        assert(s[j] == QUOTE);
        assert(forall|k: int| 1 <= k < j ==> s[k] == x[k - 1] && clean_byte(#[trigger] s[k]));
        lemma_sp_scan_finds(s, 1, j);
        assert(s.subrange(1, j) =~= x);
        assert(sp_items(s) == Some(seq![x]));
        assert(seq![x] =~= items);
    } else {
        let rest = items.drop_first();
        assert(forall|i: int| 0 <= i < rest.len() ==> clean_seq(#[trigger] rest[i])) by {
            assert(forall|i: int| 0 <= i < rest.len() ==> rest[i] == items[i + 1]);
        };
        lemma_sp_items_join(rest);
        assert(s == spec_quote(x) + seq![COMMA] + spec_join(rest));
        lemma_join_len_pos(rest);
        assert(s[0] == QUOTE);
        assert(s[j] == QUOTE);
        assert(forall|k: int| 1 <= k < j ==> s[k] == x[k - 1] && clean_byte(#[trigger] s[k]));
        lemma_sp_scan_finds(s, 1, j);
        assert(j + 1 < s.len());
        assert(s[j + 1] == COMMA);
        assert(s.skip(j + 2) =~= spec_join(rest));
        assert(s.subrange(1, j) =~= x);
        assert(sp_items(s) == Some(seq![x] + rest));
        assert(seq![x] + rest =~= items);
    }
}


/// What a found quote position means: it lies in range, carries a quote,
/// and only clean non-quote bytes come before it.
proof fn lemma_sp_scan_some(s: Seq<u8>, i: int)
    requires
        0 <= i <= s.len(),
        sp_scan(s, i) is Some,
    ensures
        i <= sp_scan(s, i).unwrap() < s.len(),
        s[sp_scan(s, i).unwrap()] == QUOTE,
        forall|k: int|
            i <= k < sp_scan(s, i).unwrap() ==> clean_byte(#[trigger] s[k]) && s[k] != QUOTE,
    decreases s.len() - i,
{
    if i < s.len() && s[i] != QUOTE && clean_byte(s[i]) {
        lemma_sp_scan_some(s, i + 1);
    }
}

/// The item parser accepts only the exact join of some clean items: what
/// it returns, re-framed, is the input byte for byte.
pub proof fn lemma_sp_items_sound(s: Seq<u8>)
    requires
        sp_items(s) is Some,
    ensures
        ({
            let items = sp_items(s).unwrap();
            &&& items.len() >= 1
            &&& forall|i: int| 0 <= i < items.len() ==> clean_seq(#[trigger] items[i])
            &&& s == spec_join(items)
        }),
    decreases s.len(),
{
    let items = sp_items(s).unwrap();
    let j = sp_scan(s, 1).unwrap();
    lemma_sp_scan_some(s, 1);
    let x = s.subrange(1, j);
    assert(clean_seq(x)) by {
        assert(forall|k: int| 0 <= k < x.len() ==> x[k] == s[1 + k]);
    };
    if j + 1 == s.len() {
        assert(items == seq![x]);
        assert(s =~= spec_quote(x));
        assert(spec_join(items) == spec_quote(x));
    } else {
        let tail = s.skip(j + 2);
        lemma_sp_items_sound(tail);
        let rest = sp_items(tail).unwrap();
        assert(items == seq![x] + rest);
        assert(items.len() >= 2);
        assert(items[0] == x);
        assert(items.drop_first() =~= rest);
        assert(spec_join(items) == spec_quote(x) + seq![COMMA] + spec_join(rest));
        assert(tail == spec_join(rest));
        assert(s =~= spec_quote(x) + seq![COMMA] + tail);
        assert(forall|i: int| 0 <= i < items.len() ==> clean_seq(#[trigger] items[i])) by {
            assert(forall|i: int| 1 <= i < items.len() ==> items[i] == rest[i - 1]);
        };
    }
}

/// The reply parser accepts only canonical reply frames: together with
/// `lemma_reply_round_trip`, decoding succeeds exactly on the frame that
/// re-framing its results would produce.
pub proof fn lemma_reply_parser_sound(s: Seq<u8>)
    requires
        sp_reply(s) is Some,
    ensures
        ({
            let items = sp_reply(s).unwrap();
            &&& s == spec_reply(items)
            &&& forall|i: int| 0 <= i < items.len() ==> clean_seq(#[trigger] items[i])
        }),
{
    let p = reply_prefix();
    let q = reply_suffix();
    let items = sp_reply(s).unwrap();
    assert(s.take(p.len() as int) == p);
    assert(s.skip(s.len() - q.len()) == q);
    if s.len() == p.len() + q.len() {
        assert(items =~= Seq::<Seq<u8>>::empty());
        assert(spec_join(items).len() == 0);
        assert(s =~= p + spec_join(items) + q);
    } else {
        let mid = s.subrange(p.len() as int, s.len() - q.len());
        lemma_sp_items_sound(mid);
        assert(mid == spec_join(items));
        assert(s =~= p + spec_join(items) + q);
    }
}

} // verus!
