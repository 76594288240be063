//! Separator-safe framing of record payloads.
//!
//! A segment is a run of frames, each followed by one separator byte. A
//! payload may hold any byte, so it is escaped before it is written: the
//! separator and the escape byte are each replaced by a two-byte sequence
//! that starts with the escape byte. A frame therefore never holds the
//! separator, and unescaping a frame gives the payload back.

use vstd::prelude::*;

verus! {

/// The byte that ends every frame in a segment.
pub const SEPARATOR: u8 = 0x0A;

/// The byte that introduces a two-byte escape sequence inside a frame.
pub const ESCAPE: u8 = 0x5C;

/// Second byte of the sequence that stands for the separator.
pub const ESCAPED_SEPARATOR: u8 = 0x6E;

/// The frame bytes that stand for one payload byte.
pub open spec fn escape_byte(b: u8) -> Seq<u8> {
    if b == SEPARATOR {
        seq![ESCAPE, ESCAPED_SEPARATOR]
    } else if b == ESCAPE {
        seq![ESCAPE, ESCAPE]
    } else {
        seq![b]
    }
}

/// The frame that stands for a payload: its bytes escaped one by one.
pub open spec fn frame_of(payload: Seq<u8>) -> Seq<u8>
    decreases payload.len(),
{
    if payload.len() == 0 {
        Seq::empty()
    } else {
        escape_byte(payload[0]) + frame_of(payload.skip(1))
    }
}

/// The payload that a frame stands for, or `None` where the bytes are no
/// frame: they hold a raw separator, an escape byte at the very end, or an
/// escape byte followed by anything but the two bytes allowed there.
pub open spec fn payload_of(frame: Seq<u8>) -> Option<Seq<u8>>
    decreases frame.len(),
{
    if frame.len() == 0 {
        Some(Seq::empty())
    } else if frame[0] == SEPARATOR {
        None
    } else if frame[0] == ESCAPE {
        if frame.len() >= 2 && (frame[1] == ESCAPED_SEPARATOR || frame[1] == ESCAPE) {
            let b = if frame[1] == ESCAPE {
                ESCAPE
            } else {
                SEPARATOR
            };
            match payload_of(frame.skip(2)) {
                Some(rest) => Some(seq![b] + rest),
                None => None,
            }
        } else {
            None
        }
    } else {
        match payload_of(frame.skip(1)) {
            Some(rest) => Some(seq![frame[0]] + rest),
            None => None,
        }
    }
}

/// No byte of `bytes` is the separator.
pub open spec fn separator_free(bytes: Seq<u8>) -> bool {
    forall|i: int| 0 <= i < bytes.len() ==> bytes[i] != SEPARATOR
}

/// Unescaping the frame of a payload gives the payload back.
pub proof fn lemma_frame_round_trip(payload: Seq<u8>)
    ensures
        payload_of(frame_of(payload)) == Some(payload),
    decreases payload.len(),
{
    if payload.len() > 0 {
        let rest = payload.skip(1);
        let f = frame_of(payload);
        lemma_frame_round_trip(rest);
        if payload[0] == SEPARATOR || payload[0] == ESCAPE {
            assert(f.skip(2) =~= frame_of(rest));
        } else {
            assert(f.skip(1) =~= frame_of(rest));
        }
        assert(seq![payload[0]] + rest =~= payload);
    }
}

/// The frame of a payload holds no separator and is at most twice as long.
pub proof fn lemma_frame_shape(payload: Seq<u8>)
    ensures
        separator_free(frame_of(payload)),
        payload.len() <= frame_of(payload).len() <= 2 * payload.len(),
    decreases payload.len(),
{
    if payload.len() > 0 {
        lemma_frame_shape(payload.skip(1));
    }
}

/// Bytes that unescape to a payload hold no separator.
pub proof fn lemma_payload_means_separator_free(frame: Seq<u8>)
    requires
        payload_of(frame) is Some,
    ensures
        separator_free(frame),
    decreases frame.len(),
{
    if frame.len() > 0 {
        if frame[0] == ESCAPE {
            lemma_payload_means_separator_free(frame.skip(2));
            assert forall|i: int| 0 <= i < frame.len() implies frame[i] != SEPARATOR by {
                if i >= 2 {
                    assert(frame.skip(2)[i - 2] == frame[i]);
                }
            }
        } else {
            lemma_payload_means_separator_free(frame.skip(1));
            assert forall|i: int| 0 <= i < frame.len() implies frame[i] != SEPARATOR by {
                if i >= 1 {
                    assert(frame.skip(1)[i - 1] == frame[i]);
                }
            }
        }
    }
}

/// Escapes a payload into a frame.
pub fn escape(payload: &[u8]) -> (frame: Vec<u8>)
    ensures
        frame@ == frame_of(payload@),
        payload_of(frame@) == Some(payload@),
        separator_free(frame@),
{
    let mut out: Vec<u8> = Vec::new();
    let mut i: usize = 0;
    proof {
        assert(payload@.skip(0) =~= payload@);
    }
    while i < payload.len()
        invariant
            i <= payload@.len(),
            frame_of(payload@) == out@ + frame_of(payload@.skip(i as int)),
        decreases payload@.len() - i,
    {
        let b = payload[i];
        let ghost before = out@;
        if b == SEPARATOR {
            out.push(ESCAPE);
            out.push(ESCAPED_SEPARATOR);
        } else if b == ESCAPE {
            out.push(ESCAPE);
            out.push(ESCAPE);
        } else {
            out.push(b);
        }
        proof {
            let rest = payload@.skip(i as int);
            assert(rest[0] == b);
            assert(rest.skip(1) =~= payload@.skip(i + 1));
            assert(out@ =~= before + escape_byte(b));
            assert(before + (escape_byte(b) + frame_of(rest.skip(1))) =~= (before + escape_byte(
                b,
            )) + frame_of(rest.skip(1)));
        }
        i += 1;
    }
    proof {
        assert(out@ + Seq::<u8>::empty() =~= out@);
        lemma_frame_round_trip(payload@);
        lemma_frame_shape(payload@);
    }
    out
}

/// Unescapes a frame into its payload; `None` where the bytes are no frame.
pub fn unescape(frame: &[u8]) -> (payload: Option<Vec<u8>>)
    ensures
        match payload {
            Some(p) => payload_of(frame@) == Some(p@),
            None => payload_of(frame@) is None,
        },
{
    let mut out: Vec<u8> = Vec::new();
    let mut i: usize = 0;
    proof {
        assert(frame@.skip(0) =~= frame@);
    }
    while i < frame.len()
        invariant
            i <= frame@.len(),
            payload_of(frame@) == match payload_of(frame@.skip(i as int)) {
                Some(rest) => Some(out@ + rest),
                None => None::<Seq<u8>>,
            },
        decreases frame@.len() - i,
    {
        let b = frame[i];
        let ghost before = out@;
        let ghost here = frame@.skip(i as int);
        proof {
            assert(here[0] == b);
            assert(here.skip(1) =~= frame@.skip(i + 1));
        }
        if b == SEPARATOR {
            return None;
        } else if b == ESCAPE {
            if i + 1 >= frame.len() {
                return None;
            }
            let c = frame[i + 1];
            proof {
                assert(here[1] == c);
                assert(here.skip(2) =~= frame@.skip(i + 2));
            }
            if c == ESCAPE {
                out.push(ESCAPE);
            } else if c == ESCAPED_SEPARATOR {
                out.push(SEPARATOR);
            } else {
                return None;
            }
            proof {
                let byte = if c == ESCAPE {
                    ESCAPE
                } else {
                    SEPARATOR
                };
                if let Some(rest) = payload_of(here.skip(2)) {
                    assert(before + (seq![byte] + rest) =~= out@ + rest);
                }
            }
            i += 2;
        } else {
            out.push(b);
            proof {
                if let Some(rest) = payload_of(here.skip(1)) {
                    assert(before + (seq![b] + rest) =~= out@ + rest);
                }
            }
            i += 1;
        }
    }
    proof {
        assert(out@ + Seq::<u8>::empty() =~= out@);
    }
    Some(out)
}

} // verus!
