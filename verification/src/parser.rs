//! The frame parser: turns one fixed-size read window into a validated
//! `SerialData` record or a typed rejection.
//!
//! A frame is ASCII text `opcode(2 digits) size(1 digit) payload(digits)`
//! with an optional trailing carriage-return/newline terminator; the window
//! may carry zero-fill after the frame, which is not part of the frame.
//! A record is produced only when the declared size equals the measured
//! payload length plus one (the terminator allowance).

#![verifier::loop_isolation(false)]

use crate::digits::all_digits;
use crate::digits::dec_val;
use crate::digits::is_digit;
use crate::digits::lemma_dec_val_nonneg;
use crate::digits::parse_dec_bounded;
use crate::wire::FrameError;
use crate::wire::OpCode;
use crate::wire::SerialData;
use crate::wire::op_of;
use vstd::prelude::*;

verus! {

/// Length of the window's content once trailing zero-fill is stripped.
pub open spec fn content_len(w: Seq<u8>) -> int
    decreases w.len(),
{
    if w.len() == 0 {
        0
    } else if w.last() == 0u8 {
        content_len(w.drop_last())
    } else {
        w.len() as int
    }
}

/// The window's content: everything before the trailing zero-fill.
pub open spec fn content(w: Seq<u8>) -> Seq<u8> {
    w.take(content_len(w))
}

pub proof fn lemma_content_len_bounds(w: Seq<u8>)
    ensures
        0 <= content_len(w) <= w.len(),
    decreases w.len(),
{
    if w.len() > 0 && w.last() == 0u8 {
        lemma_content_len_bounds(w.drop_last());
    }
}

/// Index of the first carriage-return/newline pair in `s`, or `s.len()`
/// when there is none.
pub open spec fn find_crlf(s: Seq<u8>) -> int
    decreases s.len(),
{
    if s.len() < 2 {
        s.len() as int
    } else if s[0] == 13u8 && s[1] == 10u8 {
        0
    } else {
        1 + find_crlf(s.skip(1))
    }
}

/// The payload field of a frame's content: the bytes after the first three,
/// up to the first terminator pair if one occurs.
pub open spec fn payload_field(c: Seq<u8>) -> Seq<u8> {
    c.skip(3).take(find_crlf(c.skip(3)))
}

/// `find_crlf` lands on the first terminator pair, or on the end when no
/// pair occurs.
pub proof fn lemma_find_crlf(s: Seq<u8>)
    ensures
        0 <= find_crlf(s) <= s.len(),
        find_crlf(s) < s.len() ==> find_crlf(s) + 2 <= s.len() && s[find_crlf(s)] == 13u8 && s[
            find_crlf(s) + 1
        ] == 10u8,
        forall|k: int|
            0 <= k < find_crlf(s) && k + 1 < s.len() ==> !(#[trigger] s[k] == 13u8 && s[k + 1]
                == 10u8),
    decreases s.len(),
{
    if s.len() < 2 {
    } else if s[0] == 13u8 && s[1] == 10u8 {
    } else {
        lemma_find_crlf(s.skip(1));
        assert forall|k: int|
            0 <= k < find_crlf(s) && k + 1 < s.len() implies !(#[trigger] s[k] == 13u8 && s[k + 1]
            == 10u8) by {
            if k > 0 {
                assert(s.skip(1)[k - 1] == s[k]);
                assert(s.skip(1)[k] == s[k + 1]);
            }
        }
    }
}

/// The characterization in `lemma_find_crlf` pins `find_crlf` down: any
/// index with those properties is it.
pub proof fn lemma_find_crlf_unique(s: Seq<u8>, n: int)
    requires
        0 <= n <= s.len(),
        n < s.len() ==> n + 2 <= s.len() && s[n] == 13u8 && s[n + 1] == 10u8,
        forall|k: int|
            0 <= k < n && k + 1 < s.len() ==> !(#[trigger] s[k] == 13u8 && s[k + 1] == 10u8),
    ensures
        find_crlf(s) == n,
{
    lemma_find_crlf(s);
    let m = find_crlf(s);
    if m < n {
        assert(s[m] == 13u8 && s[m + 1] == 10u8);
        assert(false);
    } else if n < m {
        assert(s[n] == 13u8 && s[n + 1] == 10u8);
        assert(false);
    }
}

/// Plain text here means plain ASCII: every content byte below 0x80.
pub open spec fn ascii_only(s: Seq<u8>) -> bool {
    forall|i: int| 0 <= i < s.len() ==> #[trigger] s[i] < 0x80
}

/// Value of the two-digit opcode field of a content sequence.
pub open spec fn opcode_value(c: Seq<u8>) -> u8 {
    (((c[0] - 0x30) * 10 + (c[1] - 0x30))) as u8
}

/// Declared payload size: the one-digit size field of a content sequence.
pub open spec fn size_value(c: Seq<u8>) -> u8 {
    (c[2] - 0x30) as u8
}

/// What parsing one window yields, checked in this order: the content must
/// be text, the opcode field two digits, the size field one digit, the
/// payload a decimal number within 16 bits, and the measured payload length
/// plus one must equal the declared size.
pub open spec fn spec_parse(w: Seq<u8>) -> Result<SerialData, FrameError> {
    let c = content(w);
    if !ascii_only(c) {
        Err(FrameError::NotText)
    } else if !(c.len() >= 2 && is_digit(c[0]) && is_digit(c[1])) {
        Err(FrameError::BadOpcode)
    } else if !(c.len() >= 3 && is_digit(c[2])) {
        Err(FrameError::BadSize)
    } else {
        let p = payload_field(c);
        if !(p.len() > 0 && all_digits(p) && dec_val(p) <= 65535) {
            Err(FrameError::BadPayload)
        } else if p.len() + 1 != size_value(c) {
            Err(FrameError::LengthMismatch)
        } else {
            Ok(
                SerialData {
                    opcode: op_of(opcode_value(c)),
                    size: size_value(c),
                    data: dec_val(p) as u16,
                },
            )
        }
    }
}

/// Parses one read window: the first two content bytes are the opcode
/// field, the third is the declared size, the rest up to the first
/// terminator pair is the payload.
#[verifier::rlimit(50)]
pub fn parse_serial(bytes: &[u8]) -> (r: Result<SerialData, FrameError>)
    ensures
        r == spec_parse(bytes@),
{
    // Strip the trailing zero-fill left in the window by the caller.
    let mut end: usize = bytes.len();
    proof {
        assert(bytes@.take(bytes@.len() as int) =~= bytes@);
    }
    while end > 0 && bytes[end - 1] == 0
        invariant
            0 <= end <= bytes@.len(),
            content_len(bytes@) == content_len(bytes@.take(end as int)),
        decreases end,
    {
        proof {
            assert(bytes@.take(end as int).last() == bytes@[end - 1]);
            assert(bytes@.take(end as int).drop_last() =~= bytes@.take(end as int - 1));
        }
        end = end - 1;
    }
    proof {
        if end > 0 {
            assert(bytes@.take(end as int).last() == bytes@[end as int - 1]);
        }
        assert(content_len(bytes@) == end as int);
        assert(content(bytes@) == bytes@.take(end as int));
    }
    let ghost c = content(bytes@);

    // The content must be plain text.
    let mut i: usize = 0;
    while i < end
        invariant
            0 <= i <= end <= bytes@.len(),
            content(bytes@) == bytes@.take(end as int),
            forall|j: int| 0 <= j < i ==> #[trigger] bytes@[j] < 0x80,
        decreases end - i,
    {
        if bytes[i] >= 0x80 {
            proof {
                assert(c[i as int] == bytes@[i as int]);
                assert(!ascii_only(c));
            }
            return Err(FrameError::NotText);
        }
        i = i + 1;
    }
    proof {
        assert forall|j: int| 0 <= j < c.len() implies #[trigger] c[j] < 0x80 by {
            assert(c[j] == bytes@[j]);
        }
        assert(ascii_only(c));
    }

    // Opcode field: exactly two decimal digits.
    if end < 2 || bytes[0] < 0x30 || bytes[0] > 0x39 || bytes[1] < 0x30 || bytes[1] > 0x39 {
        proof {
            if end >= 2 {
                assert(c[0] == bytes@[0]);
                assert(c[1] == bytes@[1]);
            }
        }
        return Err(FrameError::BadOpcode);
    }
    proof {
        assert(c[0] == bytes@[0]);
        assert(c[1] == bytes@[1]);
    }

    // Size field: exactly one decimal digit.
    if end < 3 || bytes[2] < 0x30 || bytes[2] > 0x39 {
        proof {
            if end >= 3 {
                assert(c[2] == bytes@[2]);
            }
        }
        return Err(FrameError::BadSize);
    }
    proof {
        assert(c[2] == bytes@[2]);
    }

    // Payload field: from index 3 up to the first terminator pair.
    let mut j: usize = 3;
    while j < end - 1 && !(bytes[j] == 13 && bytes[j + 1] == 10)
        invariant
            3 <= j <= end,
            forall|k: int|
                3 <= k < j && k + 1 < end ==> !(#[trigger] bytes@[k] == 13u8 && bytes@[k + 1]
                    == 10u8),
        decreases end - j,
    {
        j = j + 1;
    }
    let pend: usize = if j < end - 1 {
        j
    } else {
        end
    };
    proof {
        let s = c.skip(3);
        assert forall|k: int| 0 <= k < s.len() implies #[trigger] s[k] == bytes@[k + 3] by {
            assert(s[k] == c[k + 3]);
        }
        if j + 1 < end {
            // The loop stopped on a terminator pair at index j.
            lemma_find_crlf_unique(s, j - 3);
        } else {
            // No terminator pair anywhere in the payload region.
            lemma_find_crlf_unique(s, s.len() as int);
        }
        assert(find_crlf(s) == pend - 3);
        assert(payload_field(c) =~= bytes@.subrange(3, pend as int));
    }

    let payload = &bytes[3..pend];
    let ghost p = payload_field(c);

    let parsed = parse_dec_bounded(payload, 65535);
    let data: u16 = match parsed {
        Some(v) => {
            proof {
                lemma_dec_val_nonneg(p);
            }
            v as u16
        },
        None => {
            return Err(FrameError::BadPayload);
        },
    };

    // Length accounting: measured payload length plus one for the
    // terminator allowance must equal the declared size.
    let declared = bytes[2] - 0x30;
    if pend - 3 + 1 != declared as usize {
        return Err(FrameError::LengthMismatch);
    }

    let opv = (bytes[0] - 0x30) * 10 + (bytes[1] - 0x30);
    proof {
        assert(opv == opcode_value(c));
    }
    let opcode = match OpCode::from_u8(opv) {
        Ok(op) => Some(op),
        Err(_) => None,
    };
    Ok(SerialData { opcode, size: declared, data })
}

/// A run of zero-fill bytes, as the read loop leaves them in the window.
pub open spec fn zeros(n: nat) -> Seq<u8> {
    Seq::new(n, |i: int| 0u8)
}

/// A frame laid out on the wire: opcode digits, size digit, payload, and
/// optionally the terminator pair.
pub open spec fn frame(o1: u8, o2: u8, szd: u8, p: Seq<u8>, term: bool) -> Seq<u8> {
    seq![o1, o2, szd] + p + (if term {
        seq![13u8, 10u8]
    } else {
        Seq::<u8>::empty()
    })
}

/// Zero-fill after a frame is not part of the content.
pub proof fn lemma_content_pad(s: Seq<u8>, pad: nat)
    requires
        s.len() > 0,
        s.last() != 0u8,
    ensures
        content(s + zeros(pad)) == s,
    decreases pad,
{
    if pad == 0 {
        assert(s + zeros(0) =~= s);
        assert(content(s) =~= s);
    } else {
        assert((s + zeros(pad)).last() == 0u8);
        assert((s + zeros(pad)).drop_last() =~= s + zeros((pad - 1) as nat));
        lemma_content_pad(s, (pad - 1) as nat);
        lemma_content_len_bounds(s + zeros((pad - 1) as nat));
        assert((s + zeros(pad)).take(content_len(s + zeros((pad - 1) as nat))) =~= (s + zeros(
            (pad - 1) as nat,
        )).take(content_len(s + zeros((pad - 1) as nat))));
    }
}

/// How the parser reads a frame laid out on the wire, with any amount of
/// zero-fill after it: the content is the frame, the three leading bytes
/// are the opcode and size fields, and the payload field is the payload.
proof fn lemma_frame_fields(o1: u8, o2: u8, szd: u8, p: Seq<u8>, term: bool, pad: nat)
    requires
        is_digit(o1),
        is_digit(o2),
        is_digit(szd),
        p.len() >= 1,
        all_digits(p),
    ensures
        ({
            let f = frame(o1, o2, szd, p, term);
            content(f + zeros(pad)) == f && f.len() >= 4 && f[0] == o1 && f[1] == o2 && f[2] == szd
                && ascii_only(f) && payload_field(f) == p
        }),
{
    let f = frame(o1, o2, szd, p, term);
    if term {
        assert(f.last() == 10u8);
    } else {
        assert(f.last() == p[p.len() - 1]);
        assert(is_digit(p[p.len() - 1]));
    }
    lemma_content_pad(f, pad);
    assert(f[0] == o1);
    assert(f[1] == o2);
    assert(f[2] == szd);
    assert forall|i: int| 0 <= i < f.len() implies #[trigger] f[i] < 0x80 by {
        if 3 <= i < 3 + p.len() {
            assert(f[i] == p[i - 3]);
            assert(is_digit(p[i - 3]));
        }
    }
    let s = f.skip(3);
    let tail: Seq<u8> = if term {
        seq![13u8, 10u8]
    } else {
        Seq::<u8>::empty()
    };
    assert(s =~= p + tail);
    assert forall|k: int| 0 <= k < p.len() && k + 1 < s.len() implies !(#[trigger] s[k] == 13u8
        && s[k + 1] == 10u8) by {
        assert(s[k] == p[k]);
        assert(is_digit(p[k]));
    }
    if term {
        assert(s[p.len() as int] == 13u8);
        assert(s[p.len() as int + 1] == 10u8);
        lemma_find_crlf_unique(s, p.len() as int);
    } else {
        lemma_find_crlf_unique(s, s.len() as int);
    }
    assert(payload_field(f) =~= p);
}

/// A well-formed frame parses to a record whose fields are exactly the
/// frame's fields: the mapped opcode, the declared size, and the payload
/// value. Well-formed means all fields are decimal digits, the payload
/// value fits in 16 bits, and the measured payload length plus one equals
/// the declared size.
pub proof fn lemma_parse_well_formed(o1: u8, o2: u8, szd: u8, p: Seq<u8>, term: bool, pad: nat)
    requires
        is_digit(o1),
        is_digit(o2),
        is_digit(szd),
        p.len() >= 1,
        all_digits(p),
        dec_val(p) <= 65535,
        p.len() + 1 == szd - 0x30,
    ensures
        spec_parse(frame(o1, o2, szd, p, term) + zeros(pad)) == Ok::<SerialData, FrameError>(
            SerialData {
                opcode: op_of(((o1 - 0x30) * 10 + (o2 - 0x30)) as u8),
                size: (szd - 0x30) as u8,
                data: dec_val(p) as u16,
            },
        ),
{
    lemma_frame_fields(o1, o2, szd, p, term, pad);
    lemma_dec_val_nonneg(p);
}

/// A frame whose measured payload length plus one differs from the
/// declared size is rejected with `LengthMismatch`, and never yields a
/// record, even though every field on its own is valid.
pub proof fn lemma_parse_length_mismatch(o1: u8, o2: u8, szd: u8, p: Seq<u8>, term: bool, pad: nat)
    requires
        is_digit(o1),
        is_digit(o2),
        is_digit(szd),
        p.len() >= 1,
        all_digits(p),
        dec_val(p) <= 65535,
        p.len() + 1 != szd - 0x30,
    ensures
        spec_parse(frame(o1, o2, szd, p, term) + zeros(pad)) == Err::<SerialData, FrameError>(
            FrameError::LengthMismatch,
        ),
{
    lemma_frame_fields(o1, o2, szd, p, term, pad);
    lemma_dec_val_nonneg(p);
}

/// Whenever parsing yields a record at all, its declared size equals the
/// measured payload length plus one: length accounting is an invariant of
/// every record, not just of the frames built above.
pub proof fn lemma_record_length_accounting(w: Seq<u8>)
    ensures
        ({
            let r = spec_parse(w);
            r matches Ok(rec) ==> rec.size == payload_field(content(w)).len() + 1
        }),
{
}

/// Opcode validity and frame validity are independent: a well-formed frame
/// whose opcode value is outside the mapped set still parses to a record,
/// marked with an unknown opcode.
pub proof fn lemma_parse_unknown_opcode(o1: u8, o2: u8, szd: u8, p: Seq<u8>, term: bool, pad: nat)
    requires
        is_digit(o1),
        is_digit(o2),
        is_digit(szd),
        p.len() >= 1,
        all_digits(p),
        dec_val(p) <= 65535,
        p.len() + 1 == szd - 0x30,
        !(55 <= (o1 - 0x30) * 10 + (o2 - 0x30) <= 59),
    ensures
        spec_parse(frame(o1, o2, szd, p, term) + zeros(pad)) == Ok::<SerialData, FrameError>(
            SerialData {
                opcode: None,
                size: (szd - 0x30) as u8,
                data: dec_val(p) as u16,
            },
        ),
{
    lemma_parse_well_formed(o1, o2, szd, p, term, pad);
}

} // verus!
