use vstd::prelude::*;

use crate::codec::{
    copy_range, i32_to_decimal, dec_int, parse_i32_field, parse_u64_field, spec_parse_i32,
};
use crate::clock::timestamp_wf;
use crate::errors::StoreError;
use crate::store::CounterStore;

verus! {

// ---------------------------------------------------------------------------
// Trimming: whitespace for the keyword, whitespace and NUL for the fields
// ---------------------------------------------------------------------------

/// An ASCII whitespace byte, as string trimming treats bytes. The command
/// keyword is trimmed on these alone: a NUL-padded keyword stays
/// unrecognized.
pub open spec fn is_ws(b: u8) -> bool {
    b == 32 || b == 9 || b == 10 || b == 11 || b == 12 || b == 13
}

/// A whitespace or NUL byte, as the wire transports trim their fixed-width
/// numeric fields.
pub open spec fn is_field_pad(b: u8) -> bool {
    is_ws(b) || b == 0
}

/// `s` with trailing whitespace dropped.
pub open spec fn trim_ws_end(s: Seq<u8>) -> Seq<u8>
    decreases s.len(),
{
    if s.len() > 0 && is_ws(s.last()) {
        trim_ws_end(s.drop_last())
    } else {
        s
    }
}

/// `s` with leading whitespace dropped.
pub open spec fn trim_ws_start(s: Seq<u8>) -> Seq<u8>
    decreases s.len(),
{
    if s.len() > 0 && is_ws(s.first()) {
        trim_ws_start(s.drop_first())
    } else {
        s
    }
}

/// `s` trimmed of whitespace at both ends.
pub open spec fn trim_ws(s: Seq<u8>) -> Seq<u8> {
    trim_ws_start(trim_ws_end(s))
}

/// `s` with trailing whitespace and NUL dropped.
pub open spec fn trim_field_end(s: Seq<u8>) -> Seq<u8>
    decreases s.len(),
{
    if s.len() > 0 && is_field_pad(s.last()) {
        trim_field_end(s.drop_last())
    } else {
        s
    }
}

/// `s` with leading whitespace and NUL dropped.
pub open spec fn trim_field_start(s: Seq<u8>) -> Seq<u8>
    decreases s.len(),
{
    if s.len() > 0 && is_field_pad(s.first()) {
        trim_field_start(s.drop_first())
    } else {
        s
    }
}

/// `s` trimmed of whitespace and NUL at both ends.
pub open spec fn trim_field(s: Seq<u8>) -> Seq<u8> {
    trim_field_start(trim_field_end(s))
}

/// Whether keyword trimming drops this byte.
fn is_ws_byte(b: u8) -> (r: bool)
    ensures
        r == is_ws(b),
{
    b == 32 || b == 9 || b == 10 || b == 11 || b == 12 || b == 13
}

/// Whether numeric-field trimming drops this byte.
fn is_field_pad_byte(b: u8) -> (r: bool)
    ensures
        r == is_field_pad(b),
{
    b == 32 || b == 9 || b == 10 || b == 11 || b == 12 || b == 13 || b == 0
}

/// The window of `s[start..end]` left once whitespace is dropped from both
/// ends — how the command keyword is trimmed.
fn trim_ws_range(s: &[u8], start: usize, end: usize) -> (r: (usize, usize))
    requires
        start <= end <= s@.len(),
    ensures
        start <= r.0 <= r.1 <= end,
        s@.subrange(r.0 as int, r.1 as int) == trim_ws(s@.subrange(start as int, end as int)),
{
    let mut e: usize = end;
    while e > start && is_ws_byte(s[e - 1])
        invariant
            start <= e <= end <= s@.len(),
            trim_ws_end(s@.subrange(start as int, e as int)) == trim_ws_end(
                s@.subrange(start as int, end as int),
            ),
        decreases e,
    {
        assert(s@.subrange(start as int, e as int - 1) =~= s@.subrange(
            start as int,
            e as int,
        ).drop_last());
        e = e - 1;
    }
    assert(trim_ws_end(s@.subrange(start as int, e as int)) == s@.subrange(
        start as int,
        e as int,
    ));
    let mut b: usize = start;
    while b < e && is_ws_byte(s[b])
        invariant
            start <= b <= e <= s@.len(),
            trim_ws_start(s@.subrange(b as int, e as int)) == trim_ws_start(
                s@.subrange(start as int, e as int),
            ),
        decreases e - b,
    {
        assert(s@.subrange(b as int + 1, e as int) =~= s@.subrange(
            b as int,
            e as int,
        ).drop_first());
        b = b + 1;
    }
    assert(trim_ws_start(s@.subrange(b as int, e as int)) == s@.subrange(b as int, e as int));
    (b, e)
}

/// The window of `s[start..end]` left once whitespace and NUL are dropped
/// from both ends — how the numeric fields are trimmed.
fn trim_field_range(s: &[u8], start: usize, end: usize) -> (r: (usize, usize))
    requires
        start <= end <= s@.len(),
    ensures
        start <= r.0 <= r.1 <= end,
        s@.subrange(r.0 as int, r.1 as int) == trim_field(s@.subrange(start as int, end as int)),
{
    let mut e: usize = end;
    while e > start && is_field_pad_byte(s[e - 1])
        invariant
            start <= e <= end <= s@.len(),
            trim_field_end(s@.subrange(start as int, e as int)) == trim_field_end(
                s@.subrange(start as int, end as int),
            ),
        decreases e,
    {
        assert(s@.subrange(start as int, e as int - 1) =~= s@.subrange(
            start as int,
            e as int,
        ).drop_last());
        e = e - 1;
    }
    assert(trim_field_end(s@.subrange(start as int, e as int)) == s@.subrange(
        start as int,
        e as int,
    ));
    let mut b: usize = start;
    while b < e && is_field_pad_byte(s[b])
        invariant
            start <= b <= e <= s@.len(),
            trim_field_start(s@.subrange(b as int, e as int)) == trim_field_start(
                s@.subrange(start as int, e as int),
            ),
        decreases e - b,
    {
        assert(s@.subrange(b as int + 1, e as int) =~= s@.subrange(
            b as int,
            e as int,
        ).drop_first());
        b = b + 1;
    }
    assert(trim_field_start(s@.subrange(b as int, e as int)) == s@.subrange(b as int, e as int));
    (b, e)
}

/// Parses `s[start..end]` as a decimal `i32` after trimming whitespace and
/// NUL from both ends — how every numeric field of a wire frame is read.
pub fn parse_num(slice: &[u8]) -> (r: Option<i32>)
    ensures
        r == spec_parse_i32(trim_field(slice@)),
{
    let n = slice.len();
    let (b, e) = trim_field_range(slice, 0, n);
    proof {
        assert(slice@.subrange(0, n as int) =~= slice@);
    }
    parse_i32_field(slice, b, e)
}

/// What a numeric field holds once bounded to `usize`.
pub open spec fn spec_parse_usize(s: Seq<u8>) -> Option<usize> {
    match crate::codec::parse_int(s) {
        Some(v) => if 0 <= v <= usize::MAX {
            Some(v as usize)
        } else {
            None
        },
        None => None,
    }
}

/// Parses `s[start..end]` as a decimal `usize` after trimming whitespace
/// and NUL from both ends — how a frame's record-width field is read.
pub fn parse_num_usize(slice: &[u8]) -> (r: Option<usize>)
    ensures
        r == spec_parse_usize(trim_field(slice@)),
{
    let n = slice.len();
    let (b, e) = trim_field_range(slice, 0, n);
    proof {
        assert(slice@.subrange(0, n as int) =~= slice@);
    }
    match parse_u64_field(slice, b, e) {
        Some(v) => {
            if v <= usize::MAX as u64 {
                Some(v as usize)
            } else {
                None
            }
        },
        None => None,
    }
}

// ---------------------------------------------------------------------------
// Frames
// ---------------------------------------------------------------------------

/// The `CREATE` keyword bytes.
pub open spec fn cmd_create() -> Seq<u8> {
    seq![67u8, 82u8, 69u8, 65u8, 84u8, 69u8]
}

/// The `MUTATE` keyword bytes.
pub open spec fn cmd_mutate() -> Seq<u8> {
    seq![77u8, 85u8, 84u8, 65u8, 84u8, 69u8]
}

/// The `GET` keyword bytes.
pub open spec fn cmd_get() -> Seq<u8> {
    seq![71u8, 69u8, 84u8]
}

/// A frame's command keyword: bytes `[0, 9)`, trimmed.
pub open spec fn spec_keyword(frame: Seq<u8>) -> Seq<u8> {
    trim_ws(frame.subrange(0, 9))
}

/// The index of the first NUL of `s` at or after `from`, or `s.len()` if
/// there is none.
pub open spec fn first_nul(s: Seq<u8>, from: int) -> int
    decreases s.len() - from,
{
    if from < 0 || from >= s.len() {
        s.len() as int
    } else if s[from] == 0 {
        from
    } else {
        first_nul(s, from + 1)
    }
}

/// Scans `s` for the first NUL at or after `from`.
fn find_nul(s: &[u8], from: usize) -> (r: usize)
    requires
        from <= s@.len(),
    ensures
        r as int == first_nul(s@, from as int),
        from <= r <= s@.len(),
{
    let mut i: usize = from;
    while i < s.len() && s[i] != 0
        invariant
            from <= i <= s@.len(),
            first_nul(s@, from as int) == first_nul(s@, i as int),
        decreases s@.len() - i,
    {
        assert(first_nul(s@, i as int) == first_nul(s@, i as int + 1));
        i = i + 1;
    }
    assert(first_nul(s@, i as int) == i);
    i
}

/// A mutation's payload: the field bytes up to the first NUL or the frame
/// boundary.
pub open spec fn spec_wire_payload(data: Seq<u8>) -> Seq<u8> {
    data.skip(18).take(first_nul(data.skip(18), 0))
}

/// One decoded wire command.
#[derive(Debug)]
pub enum WireCommand {
    Create { id: i32, min_value: i32, log_size: usize },
    Mutate { atomic_id: i32, delta: i32, payload: Vec<u8> },
    Get { atomic_id: i32 },
}

/// What decoding a 256-byte frame yields. The keyword is bytes `[0, 9)`
/// trimmed; the fields live in the data region from byte 18 on, at the
/// fixed offsets of each command. An unrecognized keyword is
/// `UnknownCommand`; a recognized keyword whose numeric field fails to
/// parse is `DecodeError` — the frame is fatally malformed.
pub open spec fn frame_post(frame: Seq<u8>, r: Result<WireCommand, StoreError>) -> bool {
    let kw = spec_keyword(frame);
    let data = frame.skip(18);
    if kw == cmd_create() {
        match (
            spec_parse_i32(trim_field(data.subrange(0, 8))),
            spec_parse_i32(trim_field(data.subrange(8, 18))),
            spec_parse_usize(trim_field(data.subrange(18, 28))),
        ) {
            (Some(id), Some(min_value), Some(log_size)) => r matches Ok(
                WireCommand::Create { id: i, min_value: m, log_size: l },
            ) && i == id && m == min_value && l == log_size,
            _ => r == Err::<WireCommand, StoreError>(StoreError::DecodeError),
        }
    } else if kw == cmd_mutate() {
        match (
            spec_parse_i32(trim_field(data.subrange(0, 8))),
            spec_parse_i32(trim_field(data.subrange(8, 18))),
        ) {
            (Some(id), Some(delta)) => r matches Ok(
                WireCommand::Mutate { atomic_id: a, delta: d, payload: p },
            ) && a == id && d == delta && p@ == spec_wire_payload(data),
            _ => r == Err::<WireCommand, StoreError>(StoreError::DecodeError),
        }
    } else if kw == cmd_get() {
        match spec_parse_i32(trim_field(data.subrange(0, 8))) {
            Some(id) => r matches Ok(WireCommand::Get { atomic_id: a }) && a == id,
            None => r == Err::<WireCommand, StoreError>(StoreError::DecodeError),
        }
    } else {
        r == Err::<WireCommand, StoreError>(StoreError::UnknownCommand)
    }
}

/// Decodes one fixed-size 256-byte command frame.
pub fn decode_frame(frame: &[u8]) -> (r: Result<WireCommand, StoreError>)
    requires
        frame@.len() == 256,
    ensures
        frame_post(frame@, r),
{
    let ghost data = frame@.skip(18);
    let (kb, ke) = trim_ws_range(frame, 0, 9);
    proof {
        assert(frame@.subrange(0, 9) =~= frame@.subrange(0int, 9int));
    }
    let klen = ke - kb;
    let ghost kw = spec_keyword(frame@);
    let is_create = klen == 6 && frame[kb] == 67 && frame[kb + 1] == 82 && frame[kb + 2] == 69
        && frame[kb + 3] == 65 && frame[kb + 4] == 84 && frame[kb + 5] == 69;
    let is_mutate = klen == 6 && frame[kb] == 77 && frame[kb + 1] == 85 && frame[kb + 2] == 84
        && frame[kb + 3] == 65 && frame[kb + 4] == 84 && frame[kb + 5] == 69;
    let is_get = klen == 3 && frame[kb] == 71 && frame[kb + 1] == 69 && frame[kb + 2] == 84;
    proof {
        assert(kw == frame@.subrange(kb as int, ke as int));
        assert(kw.len() == ke - kb);
        assert(cmd_create().len() == 6 && cmd_create()[0] == 67 && cmd_create()[1] == 82
            && cmd_create()[2] == 69 && cmd_create()[3] == 65 && cmd_create()[4] == 84
            && cmd_create()[5] == 69);
        assert(cmd_mutate().len() == 6 && cmd_mutate()[0] == 77 && cmd_mutate()[1] == 85
            && cmd_mutate()[2] == 84 && cmd_mutate()[3] == 65 && cmd_mutate()[4] == 84
            && cmd_mutate()[5] == 69);
        assert(cmd_get().len() == 3 && cmd_get()[0] == 71 && cmd_get()[1] == 69 && cmd_get()[2]
            == 84);
        if is_create {
            assert(kw =~= cmd_create());
        } else {
            assert(kw != cmd_create());
        }
        if is_mutate {
            assert(kw =~= cmd_mutate());
        } else {
            assert(kw != cmd_mutate());
        }
        if is_get {
            assert(kw =~= cmd_get());
        } else {
            assert(kw != cmd_get());
        }
        assert(data.subrange(0, 8) =~= frame@.subrange(18, 26));
        assert(data.subrange(8, 18) =~= frame@.subrange(26, 36));
        assert(data.subrange(18, 28) =~= frame@.subrange(36, 46));
    }
    if is_create {
        let (b0, e0) = trim_field_range(frame, 18, 26);
        let (b1, e1) = trim_field_range(frame, 26, 36);
        let (b2, e2) = trim_field_range(frame, 36, 46);
        let id = parse_i32_field(frame, b0, e0);
        let min_value = parse_i32_field(frame, b1, e1);
        let log_size = match parse_u64_field(frame, b2, e2) {
            Some(v) => if v <= usize::MAX as u64 {
                Some(v as usize)
            } else {
                None
            },
            None => None,
        };
        match (id, min_value, log_size) {
            (Some(id), Some(min_value), Some(log_size)) => Ok(
                WireCommand::Create { id, min_value, log_size },
            ),
            _ => Err(StoreError::DecodeError),
        }
    } else if is_mutate {
        let (b0, e0) = trim_field_range(frame, 18, 26);
        let (b1, e1) = trim_field_range(frame, 26, 36);
        let id = parse_i32_field(frame, b0, e0);
        let delta = parse_i32_field(frame, b1, e1);
        let praw = copy_range(frame, 36, 256);
        proof {
            assert(praw@ =~= data.skip(18));
        }
        let p_end = find_nul(praw.as_slice(), 0);
        let payload = copy_range(praw.as_slice(), 0, p_end);
        proof {
            assert(payload@ =~= spec_wire_payload(data));
        }
        match (id, delta) {
            (Some(atomic_id), Some(delta)) => Ok(
                WireCommand::Mutate { atomic_id, delta, payload },
            ),
            _ => Err(StoreError::DecodeError),
        }
    } else if is_get {
        let (b0, e0) = trim_field_range(frame, 18, 26);
        match parse_i32_field(frame, b0, e0) {
            Some(atomic_id) => Ok(WireCommand::Get { atomic_id }),
            None => Err(StoreError::DecodeError),
        }
    } else {
        Err(StoreError::UnknownCommand)
    }
}

/// The correlation token a datagram transport echoes back: bytes `[9, 18)`
/// of the frame.
pub fn frame_token(frame: &[u8]) -> (r: Vec<u8>)
    requires
        frame@.len() == 256,
    ensures
        r@ == frame@.subrange(9, 18),
{
    copy_range(frame, 9, 18)
}

// ---------------------------------------------------------------------------
// Running a frame against the store
// ---------------------------------------------------------------------------

/// What handling one frame does to the store and answers. A frame whose
/// keyword is unrecognized answers an empty body and changes nothing. A
/// fatally malformed frame — a numeric field that fails to parse, or a
/// mutation the machine cannot represent — answers `None`: the transport
/// drops the datagram or closes the connection. Otherwise the frame's
/// operation runs against the store: a successful mutate or get answers the
/// decimal text of the value, every other outcome an empty body.
pub open spec fn handle_post(
    pre: CounterStore,
    post: CounterStore,
    frame: Seq<u8>,
    r: Option<Seq<u8>>,
) -> bool {
    let kw = spec_keyword(frame);
    let data = frame.skip(18);
    if kw == cmd_create() {
        match (
            spec_parse_i32(trim_field(data.subrange(0, 8))),
            spec_parse_i32(trim_field(data.subrange(8, 18))),
            spec_parse_usize(trim_field(data.subrange(18, 28))),
        ) {
            (Some(id), Some(min_value), Some(log_size)) => r == Some(Seq::<u8>::empty()) && if !pre
                .spec_has(id as int) {
                CounterStore::create_post(pre, post, id, min_value, log_size)
            } else {
                post == pre
            },
            _ => r is None && post == pre,
        }
    } else if kw == cmd_mutate() {
        match (
            spec_parse_i32(trim_field(data.subrange(0, 8))),
            spec_parse_i32(trim_field(data.subrange(8, 18))),
        ) {
            (Some(id), Some(delta)) => {
                let payload = spec_wire_payload(data);
                if pre.next_tx_id < u64::MAX && (pre.spec_has(id as int) ==> pre.entry_of(
                    id as int,
                ).atomic.value + delta <= i32::MAX) {
                    exists|ts: Seq<u8>, res: Result<i32, StoreError>|
                        timestamp_wf(ts) && ts.len() <= 30 && #[trigger] CounterStore::mutate_post(
                            pre,
                            post,
                            id,
                            delta,
                            ts,
                            payload,
                            res,
                        ) && r == (match res {
                            Ok(u) => Some(dec_int(u as int)),
                            Err(_) => Some(Seq::<u8>::empty()),
                        })
                } else {
                    r is None && post == pre
                }
            },
            _ => r is None && post == pre,
        }
    } else if kw == cmd_get() {
        match spec_parse_i32(trim_field(data.subrange(0, 8))) {
            Some(id) => post == pre && r == (if pre.spec_has(id as int) {
                Some(dec_int(pre.entry_of(id as int).atomic.value as int))
            } else {
                Some(Seq::<u8>::empty())
            }),
            None => r is None && post == pre,
        }
    } else {
        post == pre && r == Some(Seq::<u8>::empty())
    }
}

/// Decodes one frame and runs it against the store, producing the response
/// body to send back; `None` means no response — the frame is dropped.
pub fn handle_frame(store: &mut CounterStore, frame: &[u8]) -> (r: Option<Vec<u8>>)
    requires
        old(store).wf(),
        frame@.len() == 256,
    ensures
        final(store).wf(),
        handle_post(
            *old(store),
            *final(store),
            frame@,
            match r {
                Some(v) => Some(v@),
                None => None::<Seq<u8>>,
            },
        ),
{
    match decode_frame(frame) {
        Ok(WireCommand::Create { id, min_value, log_size }) => {
            let _ = store.create(id, min_value, log_size);
            Some(Vec::new())
        },
        Ok(WireCommand::Mutate { atomic_id, delta, payload }) => {
            if store.next_tx_id == u64::MAX {
                return None;
            }
            match store.get(atomic_id) {
                Ok((value, _)) => {
                    if delta > 0 && value > i32::MAX - delta {
                        return None;
                    }
                },
                Err(_) => {},
            }
            let res = store.mutate(atomic_id, delta, payload);
            match res {
                Ok(updated) => Some(i32_to_decimal(updated)),
                Err(_) => Some(Vec::new()),
            }
        },
        Ok(WireCommand::Get { atomic_id }) => {
            match store.get(atomic_id) {
                Ok((value, _)) => Some(i32_to_decimal(value)),
                Err(_) => Some(Vec::new()),
            }
        },
        Err(StoreError::UnknownCommand) => Some(Vec::new()),
        Err(_) => None,
    }
}

} // verus!
