//! The record codec: one command to one frame and back.
//!
//! A command is packed as a MessagePack array of three fields (a tag, the
//! key and the value) and the packed bytes are escaped into a frame. Before
//! a frame is handed out, the packed bytes are read back: a command is
//! encoded exactly where its bytes unpack to the same three fields.

use crate::framing::{escape, frame_of, payload_of, separator_free, unescape};
use vstd::prelude::*;

verus! {

/// A command of the log.
#[derive(Debug, PartialEq, Eq)]
pub enum KvsCommand {
    /// Set `key` to `value`.
    Put { key: String, value: String },
    /// Remove `key`.
    Rm { key: String },
}

/// What a command says, as plain text values.
pub enum CommandView {
    Put { key: Seq<char>, value: Seq<char> },
    Rm { key: Seq<char> },
}

impl View for KvsCommand {
    type V = CommandView;

    open spec fn view(&self) -> CommandView {
        match self {
            KvsCommand::Put { key, value } => CommandView::Put { key: key@, value: value@ },
            KvsCommand::Rm { key } => CommandView::Rm { key: key@ },
        }
    }
}

/// Tag of a packed `Put` command.
pub const TAG_PUT: u8 = 0;

/// Tag of a packed `Rm` command.
pub const TAG_RM: u8 = 1;

/// The bytes that `rmp_serde::to_vec` gives for the triple of a tag, a key
/// and a value.
pub uninterp spec fn packed(tag: u8, key: Seq<char>, value: Seq<char>) -> Seq<u8>;

/// What `rmp_serde::from_slice` reads from bytes as a triple of a tag, a key
/// and a value; `None` where it reports an error.
pub uninterp spec fn unpacked(bytes: Seq<u8>) -> Option<(u8, Seq<char>, Seq<char>)>;

/// Calls `rmp_serde::to_vec` on the triple `(tag, key, value)` and takes
/// the bytes out of its result. On such a triple the call reports an error
/// only where no memory can be had for the bytes; the program then ends, as
/// it does wherever memory runs out. The contract claims that the bytes
/// depend on the triple alone.
#[verifier::external_body]
fn pack(tag: u8, key: &String, value: &String) -> (b: Vec<u8>)
    ensures
        b@ == packed(tag, key@, value@),
{
    rmp_serde::to_vec(&(tag, key, value)).unwrap()
}

/// Calls `rmp_serde::from_slice` for a triple `(u8, String, String)`; an
/// error becomes `None`. The contract claims that the result depends on the
/// bytes alone.
#[verifier::external_body]
fn unpack(bytes: &[u8]) -> (r: Option<(u8, String, String)>)
    ensures
        match r {
            Some((tag, key, value)) => unpacked(bytes@) == Some((tag, key@, value@)),
            None => unpacked(bytes@) is None,
        },
{
    rmp_serde::from_slice::<(u8, String, String)>(bytes).ok()
}

/// The three fields that a command is packed as. A removal has an empty value.
pub open spec fn fields_of(cmd: CommandView) -> (u8, Seq<char>, Seq<char>) {
    match cmd {
        CommandView::Put { key, value } => (TAG_PUT, key, value),
        CommandView::Rm { key } => (TAG_RM, key, Seq::empty()),
    }
}

/// The command that three fields stand for, if any: the tag must be known,
/// and a removal must have an empty value.
pub open spec fn command_of_fields(tag: u8, key: Seq<char>, value: Seq<char>) -> Option<
    CommandView,
> {
    if tag == TAG_PUT {
        Some(CommandView::Put { key, value })
    } else if tag == TAG_RM && value.len() == 0 {
        Some(CommandView::Rm { key })
    } else {
        None
    }
}

/// The frame of a command: its packed fields, escaped.
pub open spec fn record_of(cmd: CommandView) -> Seq<u8> {
    let (tag, key, value) = fields_of(cmd);
    frame_of(packed(tag, key, value))
}

/// The frame of the command that sets `key` to `value`.
pub open spec fn put_record(key: Seq<char>, value: Seq<char>) -> Seq<u8> {
    record_of(CommandView::Put { key, value })
}

/// The frame of the command that removes `key`.
pub open spec fn rm_record(key: Seq<char>) -> Seq<u8> {
    record_of(CommandView::Rm { key })
}

/// The frame stands for a command that sets `key`.
pub open spec fn sets_key(frame: Seq<u8>, key: Seq<char>) -> bool {
    match command_of(frame) {
        Some(CommandView::Put { key: k, value }) => k == key,
        _ => false,
    }
}

/// The frame stands for the command that removes `key`.
pub open spec fn removes_key(frame: Seq<u8>, key: Seq<char>) -> bool {
    command_of(frame) == Some(CommandView::Rm { key })
}

/// The value that the command of the frame sets; empty where the frame
/// stands for no such command.
pub open spec fn value_set_by(frame: Seq<u8>) -> Seq<char> {
    match command_of(frame) {
        Some(CommandView::Put { key, value }) => value,
        _ => Seq::empty(),
    }
}

/// The command that a frame stands for: the frame is unescaped, the payload
/// unpacked, and the fields read as a command. `None` where a step fails.
pub open spec fn command_of(frame: Seq<u8>) -> Option<CommandView> {
    match payload_of(frame) {
        None => None,
        Some(payload) => match unpacked(payload) {
            None => None,
            Some((tag, key, value)) => command_of_fields(tag, key, value),
        },
    }
}

/// Reads three unpacked fields as a command.
pub fn command_from_fields(tag: u8, key: String, value: String) -> (r: Option<KvsCommand>)
    ensures
        match r {
            Some(cmd) => command_of_fields(tag, key@, value@) == Some(cmd@),
            None => command_of_fields(tag, key@, value@) is None,
        },
{
    if tag == TAG_PUT {
        Some(KvsCommand::Put { key, value })
    } else if tag == TAG_RM && value.as_str().is_empty() {
        Some(KvsCommand::Rm { key })
    } else {
        None
    }
}

/// Whether what was read back from packed bytes is the three fields of the
/// command.
pub fn confirms(cmd: &KvsCommand, read_back: &Option<(u8, String, String)>) -> (same: bool)
    ensures
        same == (match read_back {
            Some((tag, key, value)) => (*tag, key@, value@) == fields_of(cmd@),
            None => false,
        }),
{
    match read_back {
        None => false,
        Some((tag, key, value)) => match cmd {
            KvsCommand::Put { key: k, value: v } => *tag == TAG_PUT && *key == *k && *value == *v,
            KvsCommand::Rm { key: k } => {
                proof {
                    if value@.len() == 0 {
                        assert(value@ =~= Seq::<char>::empty());
                    }
                }
                *tag == TAG_RM && *key == *k && value.as_str().is_empty()
            },
        },
    }
}

/// Encodes a command as a frame. The command is packed and the packed
/// bytes are read back. Where they give the fields of the command, the frame
/// comes back: it is the record of the command, holds no separator, and
/// decodes to the command. Where they do not, no frame comes back.
pub fn encode(cmd: &KvsCommand) -> (frame: Option<Vec<u8>>)
    ensures
        frame_view(frame) == sealed(cmd@, packed_fields(cmd@), unpacked(packed_fields(cmd@))),
        frame is Some <==> reads_back(cmd@),
        frame matches Some(f) ==> {
            &&& f@ == record_of(cmd@)
            &&& command_of(f@) == Some(cmd@)
            &&& separator_free(f@)
        },
{
    let payload = match cmd {
        KvsCommand::Put { key, value } => pack(TAG_PUT, key, value),
        KvsCommand::Rm { key } => {
            let empty = String::new();
            pack(TAG_RM, key, &empty)
        },
    };
    let read_back = unpack(payload.as_slice());
    seal(cmd, payload, read_back)
}

/// Decodes a frame into the command it stands for.
pub fn decode(frame: &[u8]) -> (r: Option<KvsCommand>)
    ensures
        match r {
            Some(cmd) => command_of(frame@) == Some(cmd@),
            None => command_of(frame@) is None,
        },
{
    match unescape(frame) {
        None => None,
        Some(payload) => match unpack(payload.as_slice()) {
            None => None,
            Some((tag, key, value)) => command_from_fields(tag, key, value),
        },
    }
}

/// The packed bytes of a command: what `rmp_serde::to_vec` gives for its
/// three fields.
pub open spec fn packed_fields(cmd: CommandView) -> Seq<u8> {
    packed(fields_of(cmd).0, fields_of(cmd).1, fields_of(cmd).2)
}

/// The packed bytes of the command unpack to its own three fields.
pub open spec fn reads_back(cmd: CommandView) -> bool {
    unpacked(packed_fields(cmd)) == Some(fields_of(cmd))
}

/// The command that sets `key` to `value`.
pub open spec fn put_command(key: Seq<char>, value: Seq<char>) -> CommandView {
    CommandView::Put { key, value }
}

/// The command that removes `key`.
pub open spec fn rm_command(key: Seq<char>) -> CommandView {
    CommandView::Rm { key }
}

/// A frame that may be missing, as plain values.
pub open spec fn frame_view(frame: Option<Vec<u8>>) -> Option<Seq<u8>> {
    match frame {
        Some(bytes) => Some(bytes@),
        None => None,
    }
}

/// What was read back, as plain values.
pub open spec fn read_back_view(read_back: Option<(u8, String, String)>) -> Option<
    (u8, Seq<char>, Seq<char>),
> {
    match read_back {
        Some((tag, key, value)) => Some((tag, key@, value@)),
        None => None,
    }
}

/// The frame that is handed out for a command, given its packed bytes and
/// what was read back from them: the packed bytes, escaped, where the
/// fields of the command were read back; otherwise none.
pub open spec fn sealed(
    cmd: CommandView,
    payload: Seq<u8>,
    read_back: Option<(u8, Seq<char>, Seq<char>)>,
) -> Option<Seq<u8>> {
    if read_back == Some(fields_of(cmd)) {
        Some(frame_of(payload))
    } else {
        None
    }
}

/// Decides what `encode` hands out, given the packed bytes and what was
/// read back from them: the frame of the packed bytes where the fields of
/// the command were read back, and nothing in every other case.
pub fn seal(cmd: &KvsCommand, payload: Vec<u8>, read_back: Option<(u8, String, String)>) -> (frame:
    Option<Vec<u8>>)
    ensures
        frame_view(frame) == sealed(cmd@, payload@, read_back_view(read_back)),
        frame matches Some(f) ==> payload_of(f@) == Some(payload@) && separator_free(f@),
{
    if confirms(cmd, &read_back) {
        Some(escape(payload.as_slice()))
    } else {
        None
    }
}

} // verus!
