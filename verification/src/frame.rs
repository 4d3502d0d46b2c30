//! The frame codec: every logical message travels as
//! `DELIMITER ++ payload ++ DELIMITER`, where the delimiter is the single
//! reserved NUL byte and the payload never contains it.

use vstd::prelude::*;

use crate::BusError;

verus! {

/// The single reserved byte that opens and closes every frame.
pub const DELIMITER: u8 = 0;

/// The bytes of the frame that carries `payload`.
pub open spec fn frame_of(payload: Seq<u8>) -> Seq<u8> {
    seq![DELIMITER] + payload + seq![DELIMITER]
}

/// A payload may travel in a frame only if the delimiter byte never occurs
/// inside it.
pub open spec fn framable(payload: Seq<u8>) -> bool {
    forall|i: int| 0 <= i < payload.len() ==> payload[i] != DELIMITER
}

/// The smallest position `j` with `i <= j < b.len()` and `b[j] == DELIMITER`,
/// or `b.len()` if the delimiter does not occur at or after `i`.
pub open spec fn first_delimiter_from(b: Seq<u8>, i: int) -> int
    decreases b.len() - i when 0 <= i <= b.len()
{
    if i >= b.len() {
        b.len() as int
    } else if b[i] == DELIMITER {
        i
    } else {
        first_delimiter_from(b, i + 1)
    }
}

proof fn lemma_first_delimiter_from(b: Seq<u8>, i: int)
    requires
        0 <= i <= b.len(),
    ensures
        i <= first_delimiter_from(b, i) <= b.len(),
        forall|k: int| i <= k < first_delimiter_from(b, i) ==> b[k] != DELIMITER,
        first_delimiter_from(b, i) < b.len() ==> b[first_delimiter_from(b, i)] == DELIMITER,
    decreases b.len() - i,
{
    if i < b.len() && b[i] != DELIMITER {
        lemma_first_delimiter_from(b, i + 1);
    }
}

/// What reading one frame from `b` yields: the payload between the two
/// delimiters, or the framing failure the read runs into.  A stream that
/// ends before a complete frame was seen is an `UnexpectedEof`; a byte that
/// stands where a delimiter belongs is `CorruptData`.
pub open spec fn unframe_spec(b: Seq<u8>) -> Result<Seq<u8>, BusError> {
    if b.len() == 0 {
        Err(BusError::UnexpectedEof)
    } else if b[0] != DELIMITER {
        Err(BusError::CorruptData)
    } else {
        let j = first_delimiter_from(b, 1);
        if j >= b.len() {
            Err(BusError::UnexpectedEof)
        } else if j != b.len() - 1 {
            Err(BusError::CorruptData)
        } else {
            Ok(b.subrange(1, j))
        }
    }
}

/// Wrap `payload` in the two frame delimiters.
pub fn frame(payload: &[u8]) -> (r: Vec<u8>)
    ensures
        r@ == frame_of(payload@),
{
    let mut out: Vec<u8> = Vec::new();
    out.push(DELIMITER);
    let mut i: usize = 0;
    while i < payload.len()
        invariant
            i <= payload.len(),
            out@ == seq![DELIMITER] + payload@.subrange(0, i as int),
        decreases payload.len() - i,
    {
        out.push(payload[i]);
        i = i + 1;
        proof {
            assert(payload@.subrange(0, i as int)
                == payload@.subrange(0, i as int - 1) + seq![payload@[i as int - 1]]);
        }
    }
    out.push(DELIMITER);
    proof {
        assert(payload@.subrange(0, payload@.len() as int) == payload@);
        assert(out@ == frame_of(payload@));
    }
    out
}

/// Undo `frame`: check the leading delimiter, take the payload up to (but
/// not including) the closing delimiter, and check that the closing
/// delimiter ends the buffer.
pub fn unframe(b: &[u8]) -> (r: Result<Vec<u8>, BusError>)
    ensures
        match r {
            Ok(p) => unframe_spec(b@) == Ok::<Seq<u8>, BusError>(p@),
            Err(e) => unframe_spec(b@) == Err::<Seq<u8>, BusError>(e),
        },
{
    if b.len() == 0 {
        return Err(BusError::UnexpectedEof);
    }
    if b[0] != DELIMITER {
        return Err(BusError::CorruptData);
    }
    let mut payload: Vec<u8> = Vec::new();
    let mut i: usize = 1;
    while i < b.len() && b[i] != DELIMITER
        invariant
            1 <= i <= b.len(),
            forall|k: int| 1 <= k < i ==> b@[k] != DELIMITER,
            payload@ == b@.subrange(1, i as int),
        decreases b.len() - i,
    {
        payload.push(b[i]);
        i = i + 1;
        proof {
            assert(b@.subrange(1, i as int)
                == b@.subrange(1, i as int - 1) + seq![b@[i as int - 1]]);
        }
    }
    proof {
        assert(first_delimiter_from(b@, 1) == i as int) by {
            lemma_first_delimiter_from(b@, 1);
            if first_delimiter_from(b@, 1) < i as int {
                assert(b@[first_delimiter_from(b@, 1)] != DELIMITER);
            }
            if first_delimiter_from(b@, 1) > i as int {
                assert(i < b@.len() && b@[i as int] == DELIMITER);
            }
        }
    }
    if i >= b.len() {
        return Err(BusError::UnexpectedEof);
    }
    if i != b.len() - 1 {
        return Err(BusError::CorruptData);
    }
    Ok(payload)
}

/// The framing round trip: a frame built around any framable payload reads
/// back as exactly that payload.
pub proof fn lemma_frame_round_trip(payload: Seq<u8>)
    requires
        framable(payload),
    ensures
        unframe_spec(frame_of(payload)) == Ok::<Seq<u8>, BusError>(payload),
{
    let f = frame_of(payload);
    assert(f.len() == payload.len() + 2);
    assert(f[0] == DELIMITER);
    assert(forall|k: int| 1 <= k < payload.len() + 1 ==> f[k] == payload[k - 1]);
    assert(f[payload.len() as int + 1] == DELIMITER);
    lemma_first_delimiter_from(f, 1);
    let j = first_delimiter_from(f, 1);
    assert(j == payload.len() + 1) by {
        if j < payload.len() + 1 {
            assert(f[j] == payload[j - 1]);
        }
    }
    assert(f.subrange(1, j) == payload);
}

/// A successful unframing is sound: the input was exactly the frame around
/// the returned payload, and that payload is framable.
pub proof fn lemma_unframe_sound(b: Seq<u8>, payload: Seq<u8>)
    requires
        unframe_spec(b) == Ok::<Seq<u8>, BusError>(payload),
    ensures
        b == frame_of(payload),
        framable(payload),
    {
    lemma_first_delimiter_from(b, 1);
    let j = first_delimiter_from(b, 1);
    assert(payload == b.subrange(1, j));
    assert(b == frame_of(payload)) by {
        assert(frame_of(payload).len() == b.len());
        assert(forall|k: int| 0 <= k < b.len() ==> frame_of(payload)[k] == b[k]);
        assert(b =~= frame_of(payload));
    }
}

} // verus!
