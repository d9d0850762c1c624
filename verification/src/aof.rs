//! The append-only-file record format.
//!
//! Every write to a persistent database is appended to the file as one
//! record. A SET record is the byte `0`, the key and the value each as a
//! big-endian `u32` length followed by the bytes, then `1` and a big-endian
//! `u64` expiration in seconds since the Unix epoch, or `0` when the item does
//! not expire. A DELETE record is the byte `1` and the key in the same form.
//! Replaying a file parses the records in order.

use crate::buffer::{
    be32, be64, bytes_copy, bytes_slice, bytes_mut_new, bytes_mut_put, bytes_mut_put_u32, bytes_mut_put_u64,
    bytes_mut_put_u8, bytes_mut_to_vec, bytes_mut_view, bytes_view,
};
use crate::error::{unexpected_eof_io_error, SpatioError};
use crate::types::{SetOptions, NANOS_PER_SEC};
use bytes::Bytes;
use vstd::prelude::*;
use vstd::slice::slice_subrange;

verus! {

/// A command recorded in the append-only file.
#[derive(Debug)]
pub enum AOFCommand {
    /// Set `key` to `value`, with an expiration in seconds since the Unix epoch.
    SetItem { key: Bytes, value: Bytes, expires_at: Option<u64> },
    /// Delete `key`.
    Delete { key: Bytes },
}

/// What a command says, with its buffers taken by their bytes.
pub enum CommandView {
    SetItem { key: Seq<u8>, value: Seq<u8>, expires_at: Option<u64> },
    Delete { key: Seq<u8> },
}

impl View for AOFCommand {
    type V = CommandView;

    open spec fn view(&self) -> CommandView {
        match self {
            AOFCommand::SetItem { key, value, expires_at } => CommandView::SetItem {
                key: bytes_view(*key),
                value: bytes_view(*value),
                expires_at: *expires_at,
            },
            AOFCommand::Delete { key } => CommandView::Delete { key: bytes_view(*key) },
        }
    }
}

/// The views of a sequence of commands.
pub open spec fn command_views(cs: Seq<AOFCommand>) -> Seq<CommandView> {
    cs.map_values(|c: AOFCommand| c@)
}

/// A length-prefixed byte field. A length beyond `u32::MAX` is written
/// truncated to 32 bits, as the record format has no room for more.
pub open spec fn encode_field(b: Seq<u8>) -> Seq<u8> {
    be32(b.len() as u32) + b
}

/// The bytes of one record.
pub open spec fn encode_command(c: CommandView) -> Seq<u8> {
    match c {
        CommandView::SetItem { key, value, expires_at } => seq![0u8] + encode_field(key) + encode_field(
            value,
        ) + match expires_at {
            Some(t) => seq![1u8] + be64(t),
            None => seq![0u8],
        },
        CommandView::Delete { key } => seq![1u8] + encode_field(key),
    }
}

/// The bytes of a sequence of records, one after the other.
pub open spec fn encode_log(cs: Seq<CommandView>) -> Seq<u8>
    decreases cs.len(),
{
    if cs.len() == 0 {
        Seq::empty()
    } else {
        encode_command(cs[0]) + encode_log(cs.drop_first())
    }
}

/// Every key and value of the commands has a length that fits in 32 bits.
pub open spec fn fields_fit(c: CommandView) -> bool {
    match c {
        CommandView::SetItem { key, value, .. } => key.len() <= u32::MAX && value.len() <= u32::MAX,
        CommandView::Delete { key } => key.len() <= u32::MAX,
    }
}

/// The big-endian `u32` at byte `i` of `s`.
pub open spec fn be32_at(s: Seq<u8>, i: int) -> u32 {
    ((s[i] as u32) << 24u32) | ((s[i + 1] as u32) << 16u32) | ((s[i + 2] as u32) << 8u32) | (s[i
        + 3] as u32)
}

/// The big-endian `u64` at byte `i` of `s`.
pub open spec fn be64_at(s: Seq<u8>, i: int) -> u64 {
    ((s[i] as u64) << 56u64) | ((s[i + 1] as u64) << 48u64) | ((s[i + 2] as u64) << 40u64) | ((s[i
        + 3] as u64) << 32u64) | ((s[i + 4] as u64) << 24u64) | ((s[i + 5] as u64) << 16u64) | ((s[i
        + 6] as u64) << 8u64) | (s[i + 7] as u64)
}

/// The length-prefixed field that starts at byte `i` of `s`, with the
/// position just after it, or `None` when `s` ends before the field does.
pub open spec fn field_at(s: Seq<u8>, i: int) -> Option<(Seq<u8>, int)> {
    if i + 4 > s.len() {
        None
    } else {
        let n = be32_at(s, i) as int;
        if i + 4 + n > s.len() {
            None
        } else {
            Some((s.subrange(i + 4, i + 4 + n), i + 4 + n))
        }
    }
}

/// The outcome of reading one record.
pub enum ParseStep {
    /// A whole record, and the position just after it.
    Parsed(CommandView, int),
    /// The input ends inside the record.
    Truncated,
    /// The record starts with a byte that names no command.
    UnknownTag,
}

/// Reading the record that starts at byte `pos` of `s`, where `pos < s.len()`.
pub open spec fn parse_command_at(s: Seq<u8>, pos: int) -> ParseStep {
    if s[pos] == 0 {
        match field_at(s, pos + 1) {
            None => ParseStep::Truncated,
            Some((key, p1)) => match field_at(s, p1) {
                None => ParseStep::Truncated,
                Some((value, p2)) => if p2 + 1 > s.len() {
                    ParseStep::Truncated
                } else if s[p2] != 0 {
                    if p2 + 9 > s.len() {
                        ParseStep::Truncated
                    } else {
                        ParseStep::Parsed(
                            CommandView::SetItem { key, value, expires_at: Some(be64_at(s, p2 + 1)) },
                            p2 + 9,
                        )
                    }
                } else {
                    ParseStep::Parsed(CommandView::SetItem { key, value, expires_at: None }, p2 + 1)
                },
            },
        }
    } else if s[pos] == 1 {
        match field_at(s, pos + 1) {
            None => ParseStep::Truncated,
            Some((key, p1)) => ParseStep::Parsed(CommandView::Delete { key }, p1),
        }
    } else {
        ParseStep::UnknownTag
    }
}

/// Why a replay fails.
pub enum ReplayError {
    /// The file ends inside a record.
    Truncated,
    /// A record starts with a byte that names no command.
    InvalidFormat,
}

/// Replaying the records of `s` from byte `pos` to the end.
pub open spec fn replay_from(s: Seq<u8>, pos: int) -> core::result::Result<
    Seq<CommandView>,
    ReplayError,
>
    decreases s.len() - pos,
{
    if pos < 0 || pos >= s.len() {
        Ok(Seq::empty())
    } else {
        match parse_command_at(s, pos) {
            ParseStep::Parsed(c, next) => if pos < next <= s.len() {
                match replay_from(s, next) {
                    Ok(rest) => Ok(seq![c] + rest),
                    Err(e) => Err(e),
                }
            } else {
                Err(ReplayError::Truncated)
            },
            ParseStep::Truncated => Err(ReplayError::Truncated),
            ParseStep::UnknownTag => Err(ReplayError::InvalidFormat),
        }
    }
}

/// Replaying a whole file.
pub open spec fn replay_spec(s: Seq<u8>) -> core::result::Result<Seq<CommandView>, ReplayError> {
    replay_from(s, 0)
}

proof fn lemma_be32_roundtrip(n: u32)
    ensures
        ((((n >> 24u32) as u8) as u32) << 24u32) | ((((n >> 16u32) as u8) as u32) << 16u32) | (((
        (n >> 8u32) as u8) as u32) << 8u32) | ((n as u8) as u32) == n,
{
    assert(((((n >> 24u32) as u8) as u32) << 24u32) | ((((n >> 16u32) as u8) as u32) << 16u32) | (((
    (n >> 8u32) as u8) as u32) << 8u32) | ((n as u8) as u32) == n) by (bit_vector);
}

proof fn lemma_be64_roundtrip(n: u64)
    ensures
        ((((n >> 56u64) as u8) as u64) << 56u64) | ((((n >> 48u64) as u8) as u64) << 48u64) | (((
        (n >> 40u64) as u8) as u64) << 40u64) | ((((n >> 32u64) as u8) as u64) << 32u64) | ((((n
            >> 24u64) as u8) as u64) << 24u64) | ((((n >> 16u64) as u8) as u64) << 16u64) | ((((n
            >> 8u64) as u8) as u64) << 8u64) | ((n as u8) as u64) == n,
{
    assert(((((n >> 56u64) as u8) as u64) << 56u64) | ((((n >> 48u64) as u8) as u64) << 48u64) | (((
    (n >> 40u64) as u8) as u64) << 40u64) | ((((n >> 32u64) as u8) as u64) << 32u64) | ((((n
        >> 24u64) as u8) as u64) << 24u64) | ((((n >> 16u64) as u8) as u64) << 16u64) | ((((n
        >> 8u64) as u8) as u64) << 8u64) | ((n as u8) as u64) == n) by (bit_vector);
}

/// A field written at byte `i` is read back whole.
proof fn lemma_field_roundtrip(s: Seq<u8>, i: int, b: Seq<u8>)
    requires
        0 <= i,
        b.len() <= u32::MAX,
        i + encode_field(b).len() <= s.len(),
        s.subrange(i, i + encode_field(b).len()) == encode_field(b),
    ensures
        field_at(s, i) == Some((b, i + 4 + b.len())),
{
    let e = encode_field(b);
    let n = b.len() as u32;
    assert(s[i] == e[0] && s[i + 1] == e[1] && s[i + 2] == e[2] && s[i + 3] == e[3]) by {
        assert(s.subrange(i, i + e.len())[0] == s[i]);
        assert(s.subrange(i, i + e.len())[1] == s[i + 1]);
        assert(s.subrange(i, i + e.len())[2] == s[i + 2]);
        assert(s.subrange(i, i + e.len())[3] == s[i + 3]);
    }
    lemma_be32_roundtrip(n);
    assert(be32_at(s, i) == n);
    assert(s.subrange(i + 4, i + 4 + b.len()) =~= b) by {
        assert forall|k: int| 0 <= k < b.len() implies s.subrange(i + 4, i + 4 + b.len())[k]
            == b[k] by {
            assert(s.subrange(i, i + e.len())[4 + k] == s[i + 4 + k]);
            assert(e[4 + k] == b[k]);
        }
    }
}

/// The record of a command, written at byte `pos`, is read back as that command.
pub proof fn lemma_parse_encoded(s: Seq<u8>, pos: int, c: CommandView)
    requires
        0 <= pos,
        fields_fit(c),
        pos + encode_command(c).len() <= s.len(),
        s.subrange(pos, pos + encode_command(c).len()) == encode_command(c),
    ensures
        parse_command_at(s, pos) == ParseStep::Parsed(c, pos + encode_command(c).len()),
{
    let e = encode_command(c);
    assert(s[pos] == e[0]) by {
        assert(s.subrange(pos, pos + e.len())[0] == s[pos]);
    }
    match c {
        CommandView::SetItem { key, value, expires_at } => {
            let fk = encode_field(key);
            let fv = encode_field(value);
            let tail = match expires_at {
                Some(t) => seq![1u8] + be64(t),
                None => seq![0u8],
            };
            assert(e =~= seq![0u8] + fk + fv + tail);
            let p1 = pos + 1;
            assert(s.subrange(p1, p1 + fk.len()) =~= fk) by {
                assert forall|k: int| 0 <= k < fk.len() implies s.subrange(p1, p1 + fk.len())[k]
                    == fk[k] by {
                    assert(s.subrange(pos, pos + e.len())[1 + k] == s[p1 + k]);
                    assert(e[1 + k] == fk[k]);
                }
            }
            lemma_field_roundtrip(s, p1, key);
            let p2 = p1 + fk.len();
            assert(s.subrange(p2, p2 + fv.len()) =~= fv) by {
                assert forall|k: int| 0 <= k < fv.len() implies s.subrange(p2, p2 + fv.len())[k]
                    == fv[k] by {
                    assert(s.subrange(pos, pos + e.len())[1 + fk.len() + k] == s[p2 + k]);
                    assert(e[1 + fk.len() + k] == fv[k]);
                }
            }
            lemma_field_roundtrip(s, p2, value);
            let p3 = p2 + fv.len();
            assert forall|k: int| 0 <= k < tail.len() implies s[p3 + k] == tail[k] by {
                assert(s.subrange(pos, pos + e.len())[1 + fk.len() + fv.len() + k] == s[p3 + k]);
                assert(e[1 + fk.len() + fv.len() + k] == tail[k]);
            }
            match expires_at {
                Some(t) => {
                    assert(tail[0] == 1u8);
                    assert(s[p3 + 0] == tail[0]);
                    assert(s[p3 + 1] == tail[1]);
                    assert(s[p3 + 2] == tail[2]);
                    assert(s[p3 + 3] == tail[3]);
                    assert(s[p3 + 4] == tail[4]);
                    assert(s[p3 + 5] == tail[5]);
                    assert(s[p3 + 6] == tail[6]);
                    assert(s[p3 + 7] == tail[7]);
                    assert(s[p3 + 8] == tail[8]);
                    lemma_be64_roundtrip(t);
                    assert(be64_at(s, p3 + 1) == t);
                },
                None => {
                    assert(tail[0] == 0u8);
                    assert(s[p3 + 0] == tail[0]);
                },
            }
        },
        CommandView::Delete { key } => {
            let fk = encode_field(key);
            assert(e =~= seq![1u8] + fk);
            let p1 = pos + 1;
            assert(s.subrange(p1, p1 + fk.len()) =~= fk) by {
                assert forall|k: int| 0 <= k < fk.len() implies s.subrange(p1, p1 + fk.len())[k]
                    == fk[k] by {
                    assert(s.subrange(pos, pos + e.len())[1 + k] == s[p1 + k]);
                    assert(e[1 + k] == fk[k]);
                }
            }
            lemma_field_roundtrip(s, p1, key);
        },
    }
}


proof fn lemma_encode_command_nonempty(c: CommandView)
    ensures
        encode_command(c).len() >= 1,
{
}

proof fn lemma_replay_from_encoded(s: Seq<u8>, pos: int, cs: Seq<CommandView>)
    requires
        0 <= pos <= s.len(),
        forall|i: int| 0 <= i < cs.len() ==> fields_fit(#[trigger] cs[i]),
        s.subrange(pos, s.len() as int) == encode_log(cs),
    ensures
        replay_from(s, pos) == Ok::<Seq<CommandView>, ReplayError>(cs),
    decreases cs.len(),
{
    if cs.len() == 0 {
        assert(s.subrange(pos, s.len() as int).len() == 0);
        assert(cs =~= Seq::<CommandView>::empty());
    } else {
        let c = cs[0];
        let e = encode_command(c);
        let rest = cs.drop_first();
        lemma_encode_command_nonempty(c);
        assert(fields_fit(cs[0]));
        assert(encode_log(cs) == e + encode_log(rest));
        assert(s.subrange(pos, pos + e.len()) =~= e) by {
            assert forall|k: int| 0 <= k < e.len() implies s.subrange(pos, pos + e.len())[k]
                == e[k] by {
                assert(s.subrange(pos, s.len() as int)[k] == s[pos + k]);
                assert((e + encode_log(rest))[k] == e[k]);
            }
        }
        lemma_parse_encoded(s, pos, c);
        let next = pos + e.len();
        assert(s.subrange(next, s.len() as int) =~= encode_log(rest)) by {
            assert forall|k: int| 0 <= k < encode_log(rest).len() implies s.subrange(
                next,
                s.len() as int,
            )[k] == encode_log(rest)[k] by {
                assert(s.subrange(pos, s.len() as int)[e.len() + k] == s[next + k]);
                assert((e + encode_log(rest))[e.len() + k] == encode_log(rest)[k]);
            }
        }
        assert forall|i: int| 0 <= i < rest.len() implies fields_fit(#[trigger] rest[i]) by {
            assert(rest[i] == cs[i + 1]);
        }
        lemma_replay_from_encoded(s, next, rest);
        assert(cs =~= seq![c] + rest);
    }
}

/// Replaying the records written for a sequence of commands gives back exactly
/// those commands, in order, whenever every key and value fits the record format.
pub proof fn lemma_replay_encoded_log(cs: Seq<CommandView>)
    requires
        forall|i: int| 0 <= i < cs.len() ==> fields_fit(#[trigger] cs[i]),
    ensures
        replay_spec(encode_log(cs)) == Ok::<Seq<CommandView>, ReplayError>(cs),
{
    let s = encode_log(cs);
    assert(s.subrange(0, s.len() as int) =~= s);
    lemma_replay_from_encoded(s, 0, cs);
}

/// Appending the record of one more command to a file of records gives the
/// file of records of the longer sequence.
pub proof fn lemma_encode_log_push(cs: Seq<CommandView>, c: CommandView)
    ensures
        encode_log(cs.push(c)) == encode_log(cs) + encode_command(c),
    decreases cs.len(),
{
    if cs.len() == 0 {
        assert(cs.push(c).drop_first() =~= Seq::<CommandView>::empty());
        assert(cs.push(c)[0] == c);
        assert(encode_log(Seq::<CommandView>::empty()) == Seq::<u8>::empty());
        assert(encode_log(cs.push(c).drop_first()) == Seq::<u8>::empty());
        assert(encode_log(cs.push(c)) =~= encode_command(c) + Seq::<u8>::empty());
        assert(encode_log(cs) =~= Seq::<u8>::empty());
        assert(encode_log(cs.push(c)) =~= encode_log(cs) + encode_command(c));
    } else {
        lemma_encode_log_push(cs.drop_first(), c);
        assert(cs.push(c).drop_first() =~= cs.drop_first().push(c));
        assert(cs.push(c)[0] == cs[0]);
        assert(encode_log(cs.push(c)) =~= encode_log(cs) + encode_command(c));
    }
}

fn read_be32(bytes: &[u8], i: usize) -> (r: u32)
    requires
        i + 4 <= bytes@.len(),
    ensures
        r == be32_at(bytes@, i as int),
{
    ((bytes[i] as u32) << 24u32) | ((bytes[i + 1] as u32) << 16u32) | ((bytes[i + 2] as u32)
        << 8u32) | (bytes[i + 3] as u32)
}

fn read_be64(bytes: &[u8], i: usize) -> (r: u64)
    requires
        i + 8 <= bytes@.len(),
    ensures
        r == be64_at(bytes@, i as int),
{
    ((bytes[i] as u64) << 56u64) | ((bytes[i + 1] as u64) << 48u64) | ((bytes[i + 2] as u64)
        << 40u64) | ((bytes[i + 3] as u64) << 32u64) | ((bytes[i + 4] as u64) << 24u64) | ((bytes[i
        + 5] as u64) << 16u64) | ((bytes[i + 6] as u64) << 8u64) | (bytes[i + 7] as u64)
}

/// Reads the length-prefixed field at byte `i`.
fn read_field(bytes: &[u8], i: usize) -> (r: Option<(Bytes, usize)>)
    requires
        i <= bytes@.len(),
    ensures
        match (r, field_at(bytes@, i as int)) {
            (Some((b, e)), Some((fb, fe))) => bytes_view(b) == fb && e == fe,
            (None, None) => true,
            _ => false,
        },
{
    if bytes.len() - i < 4 {
        return None;
    }
    let n = read_be32(bytes, i) as usize;
    let start = i + 4;
    if bytes.len() - start < n {
        return None;
    }
    let field = bytes_copy(slice_subrange(bytes, start, start + n));
    Some((field, start + n))
}

/// Reads the record that starts at byte `pos`, giving the command and the
/// position just after it. At the end of the input the error is
/// `UnexpectedEof`; a record cut short gives an I/O error of kind
/// `UnexpectedEof`, and an unknown record type gives `InvalidFormat`.
pub fn deserialize_command(bytes: &[u8], pos: usize) -> (r: Result<(AOFCommand, usize), SpatioError>)
    requires
        pos <= bytes@.len(),
    ensures
        pos == bytes@.len() <==> r matches Err(SpatioError::UnexpectedEof),
        pos < bytes@.len() ==> match (r, parse_command_at(bytes@, pos as int)) {
            (Ok((c, next)), ParseStep::Parsed(cv, n)) => c@ == cv && next == n,
            (Err(SpatioError::Io(_)), ParseStep::Truncated) => true,
            (Err(SpatioError::InvalidFormat), ParseStep::UnknownTag) => true,
            _ => false,
        },
{
    if pos == bytes.len() {
        return Err(SpatioError::UnexpectedEof);
    }
    let tag = bytes[pos];
    if tag == 0 {
        let (key, p1) = match read_field(bytes, pos + 1) {
            Some(f) => f,
            None => return Err(SpatioError::Io(unexpected_eof_io_error())),
        };
        let (value, p2) = match read_field(bytes, p1) {
            Some(f) => f,
            None => return Err(SpatioError::Io(unexpected_eof_io_error())),
        };
        if bytes.len() - p2 < 1 {
            return Err(SpatioError::Io(unexpected_eof_io_error()));
        }
        if bytes[p2] != 0 {
            if bytes.len() - p2 < 9 {
                return Err(SpatioError::Io(unexpected_eof_io_error()));
            }
            let t = read_be64(bytes, p2 + 1);
            Ok((AOFCommand::SetItem { key, value, expires_at: Some(t) }, p2 + 9))
        } else {
            Ok((AOFCommand::SetItem { key, value, expires_at: None }, p2 + 1))
        }
    } else if tag == 1 {
        let (key, p1) = match read_field(bytes, pos + 1) {
            Some(f) => f,
            None => return Err(SpatioError::Io(unexpected_eof_io_error())),
        };
        Ok((AOFCommand::Delete { key }, p1))
    } else {
        Err(SpatioError::InvalidFormat)
    }
}

/// The outcome of a replay of all `done` commands followed by `rest`.
pub open spec fn after_prefix(
    done: Seq<CommandView>,
    rest: core::result::Result<Seq<CommandView>, ReplayError>,
) -> core::result::Result<Seq<CommandView>, ReplayError> {
    match rest {
        Ok(r) => Ok(done + r),
        Err(e) => Err(e),
    }
}

/// Parses every record of a file, in order.
pub fn replay_commands(bytes: &[u8]) -> (r: Result<Vec<AOFCommand>, SpatioError>)
    ensures
        match (r, replay_spec(bytes@)) {
            (Ok(v), Ok(cs)) => command_views(v@) == cs,
            (Err(SpatioError::Io(_)), Err(ReplayError::Truncated)) => true,
            (Err(SpatioError::InvalidFormat), Err(ReplayError::InvalidFormat)) => true,
            _ => false,
        },
{
    let mut commands: Vec<AOFCommand> = Vec::new();
    let mut pos: usize = 0;
    assert(command_views(commands@) =~= Seq::<CommandView>::empty());
    assert(after_prefix(Seq::empty(), replay_from(bytes@, 0)) == replay_from(bytes@, 0)) by {
        match replay_from(bytes@, 0) {
            Ok(r) => {
                assert(Seq::<CommandView>::empty() + r =~= r);
            },
            Err(_) => {},
        }
    }
    while pos < bytes.len()
        invariant
            pos <= bytes@.len(),
            replay_spec(bytes@) == after_prefix(command_views(commands@), replay_from(bytes@, pos as int)),
        decreases bytes@.len() - pos,
    {
        match deserialize_command(bytes, pos) {
            Ok((c, next)) => {
                let ghost done = command_views(commands@);
                let ghost cv = c@;
                commands.push(c);
                proof {
                    assert(command_views(commands@) =~= done.push(cv));
                    match replay_from(bytes@, next as int) {
                        Ok(r) => {
                            assert(done.push(cv) + r =~= done + (seq![cv] + r));
                        },
                        Err(_) => {},
                    }
                }
                pos = next;
            },
            Err(e) => {
                return Err(e);
            },
        }
    }
    proof {
        assert(command_views(commands@) + Seq::<CommandView>::empty() =~= command_views(commands@));
    }
    Ok(commands)
}

/// The record of a command is at most `isize::MAX` bytes long.
pub open spec fn command_fits(c: CommandView) -> bool {
    match c {
        CommandView::SetItem { key, value, .. } => key.len() + value.len() + 18 <= isize::MAX,
        CommandView::Delete { key } => key.len() + 5 <= isize::MAX,
    }
}

/// The bytes of the record of a command.
pub fn serialize_command(command: &AOFCommand) -> (bytes: Vec<u8>)
    requires
        command_fits(command@),
    ensures
        bytes@ == encode_command(command@),
{
    let mut buf = bytes_mut_new();
    match command {
        AOFCommand::SetItem { key, value, expires_at } => {
            let k = bytes_slice(key);
            let v = bytes_slice(value);
            bytes_mut_put_u8(&mut buf, 0);
            bytes_mut_put_u32(&mut buf, k.len() as u32);
            bytes_mut_put(&mut buf, k);
            bytes_mut_put_u32(&mut buf, v.len() as u32);
            bytes_mut_put(&mut buf, v);
            match expires_at {
                Some(t) => {
                    bytes_mut_put_u8(&mut buf, 1);
                    bytes_mut_put_u64(&mut buf, *t);
                },
                None => {
                    bytes_mut_put_u8(&mut buf, 0);
                },
            }
            assert(bytes_mut_view(buf) =~= encode_command(command@));
        },
        AOFCommand::Delete { key } => {
            let k = bytes_slice(key);
            bytes_mut_put_u8(&mut buf, 1);
            bytes_mut_put_u32(&mut buf, k.len() as u32);
            bytes_mut_put(&mut buf, k);
            assert(bytes_mut_view(buf) =~= encode_command(command@));
        },
    }
    bytes_mut_to_vec(&buf)
}

/// The expiration that a record keeps of an absolute expiration in
/// nanoseconds: the whole seconds. (A time whose seconds do not fit in a
/// `u64` is past what a system clock can read, and keeps its low 64 bits.)
pub open spec fn recorded_expiry(expires_at: Option<u128>) -> Option<u64> {
    match expires_at {
        Some(t) => Some((t / NANOS_PER_SEC) as u64),
        None => None,
    }
}

/// The whole seconds of a time in nanoseconds, as a record keeps them.
fn record_seconds(expires_at: Option<u128>) -> (r: Option<u64>)
    ensures
        r == recorded_expiry(expires_at),
{
    match expires_at {
        Some(t) => Some((t / NANOS_PER_SEC) as u64),
        None => None,
    }
}

/// The command that records a write of `value` under `key`. Only an absolute
/// expiration in the options is recorded, in whole seconds since the Unix
/// epoch; a TTL alone is not.
pub fn set_command(key: &[u8], value: &[u8], options: Option<&SetOptions>) -> (c: AOFCommand)
    ensures
        c@ == (CommandView::SetItem {
            key: key@,
            value: value@,
            expires_at: recorded_expiry(
                match options {
                    Some(o) => o.expires_at,
                    None => None,
                },
            ),
        }),
{
    let expires_at = match options {
        Some(opts) => record_seconds(opts.expires_at),
        None => None,
    };
    AOFCommand::SetItem { key: bytes_copy(key), value: bytes_copy(value), expires_at }
}

/// The command that records a write of `value` under `key` made with the
/// clock reading `now`: the expiration that the write gives the item, an
/// absolute one or one a TTL sets from `now`, is recorded in whole seconds
/// since the Unix epoch.
pub fn write_command(key: &[u8], value: &[u8], options: Option<&SetOptions>, now: u128) -> (c: AOFCommand)
    ensures
        c@ == (CommandView::SetItem {
            key: key@,
            value: value@,
            expires_at: recorded_expiry(
                match options {
                    Some(o) => o.expiry_at(now),
                    None => None,
                },
            ),
        }),
{
    let expires_at = match options {
        Some(opts) => record_seconds(opts.effective_expires_at_from(now)),
        None => None,
    };
    AOFCommand::SetItem { key: bytes_copy(key), value: bytes_copy(value), expires_at }
}

/// The command that records the deletion of `key`.
pub fn delete_command(key: &[u8]) -> (c: AOFCommand)
    ensures
        c@ == (CommandView::Delete { key: key@ }),
{
    AOFCommand::Delete { key: bytes_copy(key) }
}

/// AOF configuration for rewriting
#[derive(Debug, Clone, Copy)]
pub struct AOFConfig {
    /// Trigger rewrite when file size exceeds this many bytes
    pub rewrite_size_threshold: u64,
}

impl Default for AOFConfig {
    fn default() -> (c: Self)
        ensures
            c.rewrite_size_threshold == 64 * 1024 * 1024,
    {
        AOFConfig { rewrite_size_threshold: 64 * 1024 * 1024 }
    }
}

/// The bookkeeping of an append-only file: its size, the size after the
/// last rewrite, and whether a rewrite is under way.
#[derive(Debug, Clone, Copy)]
pub struct AofState {
    pub size: u64,
    pub config: AOFConfig,
    pub last_rewrite_size: u64,
    pub rewrite_in_progress: bool,
}

impl AofState {
    /// The state of a file just opened, `size` bytes long.
    pub fn open(size: u64, config: AOFConfig) -> (s: Self)
        ensures
            s == (AofState { size, config, last_rewrite_size: size, rewrite_in_progress: false }),
    {
        AofState { size, config, last_rewrite_size: size, rewrite_in_progress: false }
    }

    /// The current size of the file.
    pub fn size(&self) -> (n: u64)
        ensures
            n == self.size,
    {
        self.size
    }

    /// A write is refused while a rewrite is under way.
    pub fn check_write(&self) -> (r: Result<(), SpatioError>)
        ensures
            r is Ok <==> !self.rewrite_in_progress,
            match r {
                Ok(()) => true,
                Err(SpatioError::RewriteInProgress) => true,
                Err(_) => false,
            },
    {
        if self.rewrite_in_progress {
            Err(SpatioError::RewriteInProgress)
        } else {
            Ok(())
        }
    }

    /// Counts `len` bytes appended to the file.
    pub fn record_write(&mut self, len: usize)
        requires
            old(self).size + len <= u64::MAX,
        ensures
            *final(self) == (AofState { size: (old(self).size + len) as u64, ..*old(self) }),
    {
        self.size = self.size + len as u64;
    }

    /// The file has reached the size at which it is rewritten, and no
    /// rewrite is under way.
    pub fn should_rewrite(&self) -> (b: bool)
        ensures
            b == (!self.rewrite_in_progress && self.size >= self.config.rewrite_size_threshold),
    {
        !self.rewrite_in_progress && self.size >= self.config.rewrite_size_threshold
    }

    /// Marks a rewrite as under way; refused when one already is.
    pub fn begin_rewrite(&mut self) -> (r: Result<(), SpatioError>)
        ensures
            r is Ok <==> !old(self).rewrite_in_progress,
            match r {
                Ok(()) => *final(self) == (AofState { rewrite_in_progress: true, ..*old(self) }),
                Err(e) => *final(self) == *old(self) && e is RewriteInProgress,
            },
    {
        if self.rewrite_in_progress {
            return Err(SpatioError::RewriteInProgress);
        }
        self.rewrite_in_progress = true;
        Ok(())
    }

    /// Ends a rewrite. When it produced a new file of `new_size` bytes, that
    /// is the size now and the size of the last rewrite.
    pub fn finish_rewrite(&mut self, new_size: Option<u64>)
        ensures
            final(self).rewrite_in_progress == false,
            final(self).config == old(self).config,
            match new_size {
                Some(n) => final(self).size == n && final(self).last_rewrite_size == n,
                None => final(self).size == old(self).size && final(self).last_rewrite_size == old(self).last_rewrite_size,
            },
    {
        self.rewrite_in_progress = false;
        match new_size {
            Some(n) => {
                self.size = n;
                self.last_rewrite_size = n;
            },
            None => {},
        }
    }
}

} // verus!
