//! The incremental decoding state machine, as a mathematical object.
//!
//! A builder is modelled by a [`BuilderState`]: the bytes accepted so far
//! (those of the current incomplete character among them), how many bytes of
//! that incomplete character have been seen (`pending`), and how many its
//! lead byte declared in total (`expected`). Feeding one byte is [`step`];
//! feeding a byte sequence is [`run`], the fold of `step` that stops at the
//! first rejected byte. Every ingestion operation of the builder is
//! specified against `step` and `run`.

use vstd::prelude::*;
use vstd::utf8::*;

use crate::widths::width_of;

verus! {

/// The abstract state of a builder.
#[verifier::ext_equal]
pub ghost struct BuilderState {
    /// Every byte accepted so far, the bytes of the current incomplete
    /// character at the end.
    pub bytes: Seq<u8>,
    /// How many bytes of the current incomplete character have been seen;
    /// 0 means no character is in progress.
    pub pending: nat,
    /// Total length the current incomplete character's lead byte declared;
    /// 0 when no character is in progress.
    pub expected: nat,
}

/// A state with no character in progress over the given bytes.
pub open spec fn complete(bytes: Seq<u8>) -> BuilderState {
    BuilderState { bytes, pending: 0, expected: 0 }
}

/// Well-formedness: a character in progress has seen fewer bytes than its
/// lead byte declared, and no lead byte declares more than four.
pub open spec fn wf_state(s: BuilderState) -> bool {
    if s.pending == 0 {
        s.expected == 0
    } else {
        s.pending < s.expected <= 4
    }
}

/// One byte of input. With no character in progress the byte is classified
/// by the lead-byte table: rejected at width 0, accepted as a whole
/// character at width 1, and opening a multi-byte character otherwise. With
/// a character in progress the byte is accepted unconditionally as its next
/// continuation byte (the range of continuation bytes is deliberately not
/// checked, matching the loose convention this builder commits to), closing
/// the character when it is the last one owed.
pub open spec fn step(s: BuilderState, b: u8) -> Option<BuilderState> {
    if s.pending == 0 {
        let w = width_of(b);
        if w == 0 {
            None
        } else if w == 1 {
            Some(complete(s.bytes.push(b)))
        } else {
            Some(BuilderState { bytes: s.bytes.push(b), pending: 1, expected: w })
        }
    } else if s.pending + 1 == s.expected {
        Some(complete(s.bytes.push(b)))
    } else {
        Some(BuilderState { bytes: s.bytes.push(b), pending: s.pending + 1, expected: s.expected })
    }
}

/// A whole byte sequence of input: `step`, folded from the left, stopping at
/// the first rejected byte. Returns the state reached and whether every byte
/// was accepted; on rejection the state is the one in force just before the
/// rejected byte, which is how the builder itself is left (no rollback).
pub open spec fn run(s: BuilderState, bytes: Seq<u8>) -> (BuilderState, bool)
    decreases bytes.len(),
{
    if bytes.len() == 0 {
        (s, true)
    } else {
        match step(s, bytes[0]) {
            Some(t) => run(t, bytes.drop_first()),
            None => (s, false),
        }
    }
}

/// `step` preserves well-formedness.
pub proof fn lemma_step_wf(s: BuilderState, b: u8)
    requires
        wf_state(s),
    ensures
        (match step(s, b) {
            Some(t) => wf_state(t),
            None => true,
        }),
{
}

/// `run` preserves well-formedness.
pub proof fn lemma_run_wf(s: BuilderState, bytes: Seq<u8>)
    requires
        wf_state(s),
    ensures
        wf_state(run(s, bytes).0),
    decreases bytes.len(),
{
    if bytes.len() > 0 {
        match step(s, bytes[0]) {
            Some(t) => {
                lemma_step_wf(s, bytes[0]);
                lemma_run_wf(t, bytes.drop_first());
            },
            None => {},
        }
    }
}

/// Chunk-boundary independence: running a concatenation equals running the
/// two parts in order, the second from the state the first one reached, and a
/// rejection in the first part rejects the whole. Hence any way of splitting
/// an input into consecutive chunks leads to the same final state.
pub proof fn lemma_run_app(s: BuilderState, a: Seq<u8>, b: Seq<u8>)
    ensures
        run(s, a + b) == (if run(s, a).1 {
            run(run(s, a).0, b)
        } else {
            run(s, a)
        }),
    decreases a.len(),
{
    if a.len() == 0 {
        assert(a + b =~= b);
    } else {
        assert((a + b)[0] == a[0]);
        match step(s, a[0]) {
            Some(t) => {
                assert((a + b).drop_first() =~= a.drop_first() + b);
                lemma_run_app(t, a.drop_first(), b);
            },
            None => {
                assert((a + b).len() > 0);
            },
        }
    }
}

/// Running continuation bytes into a state with a character in progress:
/// too few of them only grow `pending`; enough of them close the character
/// after exactly the owed count and the rest of the input is run from the
/// resulting state.
pub proof fn lemma_run_fill(s: BuilderState, c: Seq<u8>)
    requires
        wf_state(s),
        s.pending > 0,
    ensures
        c.len() < s.expected - s.pending ==> run(s, c) == (
        (BuilderState {
            bytes: s.bytes + c,
            pending: (s.pending + c.len()) as nat,
            expected: s.expected,
        }, true)),
        c.len() >= s.expected - s.pending ==> run(s, c) == run(
            complete(s.bytes + c.take(s.expected - s.pending)),
            c.skip(s.expected - s.pending),
        ),
    decreases c.len(),
{
    let rem = s.expected - s.pending;
    if c.len() == 0 {
        assert(s.bytes + c =~= s.bytes);
        assert((BuilderState {
            bytes: s.bytes + c,
            pending: (s.pending + c.len()) as nat,
            expected: s.expected,
        }) =~= s);
    } else {
        let b0 = c[0];
        if s.pending + 1 == s.expected {
            assert(step(s, b0) == Some(complete(s.bytes.push(b0))));
            assert(c.take(1) =~= seq![b0]);
            assert(s.bytes + c.take(1) =~= s.bytes.push(b0));
            assert(c.skip(1) =~= c.drop_first());
        } else {
            let t = BuilderState {
                bytes: s.bytes.push(b0),
                pending: s.pending + 1,
                expected: s.expected,
            };
            assert(step(s, b0) == Some(t));
            lemma_run_fill(t, c.drop_first());
            if c.len() < rem {
                assert(t.bytes + c.drop_first() =~= s.bytes + c);
                assert((BuilderState {
                    bytes: t.bytes + c.drop_first(),
                    pending: (t.pending + c.drop_first().len()) as nat,
                    expected: t.expected,
                }) =~= (BuilderState {
                    bytes: s.bytes + c,
                    pending: (s.pending + c.len()) as nat,
                    expected: s.expected,
                }));
            } else {
                assert(t.bytes + c.drop_first().take(rem - 1) =~= s.bytes + c.take(rem));
                assert(c.drop_first().skip(rem - 1) =~= c.skip(rem));
            }
        }
    }
}

/// Running input from a state with no character in progress, whose first
/// byte the table accepts: with the whole character present it is consumed
/// and the rest is run from the state it leaves; with the input shorter than
/// the character, everything is consumed and that character is in progress.
pub proof fn lemma_run_lead(s: BuilderState, c: Seq<u8>)
    requires
        s.pending == 0,
        s.expected == 0,
        c.len() > 0,
        width_of(c[0]) > 0,
    ensures
        c.len() >= width_of(c[0]) ==> run(s, c) == run(
            complete(s.bytes + c.take(width_of(c[0]) as int)),
            c.skip(width_of(c[0]) as int),
        ),
        c.len() < width_of(c[0]) ==> run(s, c) == (
        (BuilderState { bytes: s.bytes + c, pending: c.len(), expected: width_of(c[0]) }, true)),
{
    let b0 = c[0];
    let w = width_of(b0);
    if w == 1 {
        assert(step(s, b0) == Some(complete(s.bytes.push(b0))));
        assert(c.take(1) =~= seq![b0]);
        assert(s.bytes + c.take(1) =~= s.bytes.push(b0));
        assert(c.skip(1) =~= c.drop_first());
    } else {
        let t = BuilderState { bytes: s.bytes.push(b0), pending: 1, expected: w };
        assert(step(s, b0) == Some(t));
        lemma_run_fill(t, c.drop_first());
        if c.len() < w {
            assert(t.bytes + c.drop_first() =~= s.bytes + c);
            assert((BuilderState {
                bytes: t.bytes + c.drop_first(),
                pending: (t.pending + c.drop_first().len()) as nat,
                expected: t.expected,
            }) =~= (BuilderState { bytes: s.bytes + c, pending: c.len(), expected: w }));
        } else {
            assert(t.bytes + c.drop_first().take(w - 1) =~= s.bytes + c.take(w as int));
            assert(c.drop_first().skip(w - 1) =~= c.skip(w as int));
        }
    }
}

proof fn lemma_lead_byte_1(v: u32)
    by (bit_vector)
    requires
        v <= 0x7F,
    ensures
        ((v & 0x7F) as u8) <= 0x7F,
{
}

proof fn lemma_lead_byte_2(v: u32)
    by (bit_vector)
    requires
        0x80 <= v,
        v <= 0x7FF,
    ensures
        0xC2 <= (0xC0 | (((v >> 6) & 0x1F) as u8)),
        (0xC0 | (((v >> 6) & 0x1F) as u8)) <= 0xDF,
{
}

proof fn lemma_lead_byte_3(v: u32)
    by (bit_vector)
    requires
        0x800 <= v,
        v <= 0xFFFF,
    ensures
        0xE0 <= (0xE0 | (((v >> 12) & 0x0F) as u8)),
        (0xE0 | (((v >> 12) & 0x0F) as u8)) <= 0xEF,
{
}

proof fn lemma_lead_byte_4(v: u32)
    by (bit_vector)
    requires
        0x10000 <= v,
        v <= 0x10FFFF,
    ensures
        0xF0 <= (0xF0 | (((v >> 18) & 0x7) as u8)),
        (0xF0 | (((v >> 18) & 0x7) as u8)) <= 0xF4,
{
}

/// The encoding of a Unicode scalar opens with a byte whose declared width is
/// exactly the encoding's length: the lead-byte table accepts every encoded
/// character.
pub proof fn lemma_encode_scalar_width(v: u32)
    requires
        is_scalar(v),
    ensures
        1 <= encode_scalar(v).len() <= 4,
        width_of(encode_scalar(v)[0]) == encode_scalar(v).len(),
{
    if has_width_1_encoding(v) {
        lemma_lead_byte_1(v);
    } else if has_width_2_encoding(v) {
        lemma_lead_byte_2(v);
    } else if has_width_3_encoding(v) {
        lemma_lead_byte_3(v);
    } else {
        lemma_lead_byte_4(v);
    }
}

/// Round trip, the accepting half: from a state with no character in
/// progress, the UTF-8 encoding of any character sequence is accepted whole,
/// appended to the bytes verbatim, and leaves no character in progress. With
/// [`lemma_run_app`] this extends to the encoding arriving in chunks split
/// anywhere, and with `vstd::utf8::encode_utf8_decode_utf8` the bytes decode
/// back to the original characters.
pub proof fn lemma_run_encoding(s: BuilderState, cs: Seq<char>)
    requires
        s.pending == 0,
        s.expected == 0,
    ensures
        run(s, encode_utf8(cs)) == (complete(s.bytes + encode_utf8(cs)), true),
    decreases cs.len(),
{
    let enc = encode_utf8(cs);
    if cs.len() == 0 {
        assert(s.bytes + enc =~= s.bytes);
        assert(complete(s.bytes + enc) =~= s);
    } else {
        let v = cs[0] as u32;
        char_is_scalar(cs[0]);
        let e0 = encode_scalar(v);
        lemma_encode_scalar_width(v);
        let rest = encode_utf8(cs.drop_first());
        assert(enc == e0 + rest);
        assert(enc[0] == e0[0]);
        let w = e0.len() as int;
        assert(enc.len() >= w);
        lemma_run_lead(s, enc);
        assert(enc.take(w) =~= e0);
        assert(enc.skip(w) =~= rest);
        lemma_run_encoding(complete(s.bytes + e0), cs.drop_first());
        assert((s.bytes + e0) + rest =~= s.bytes + enc);
    }
}

/// Running a sequence of chunks in order, each from the state the previous
/// one reached, stopping at the first chunk with a rejected byte: exactly
/// what consecutive `push_chunk` calls do.
pub open spec fn run_chunks(s: BuilderState, chunks: Seq<Seq<u8>>) -> (BuilderState, bool)
    decreases chunks.len(),
{
    if chunks.len() == 0 {
        (s, true)
    } else if run(s, chunks.first()).1 {
        run_chunks(run(s, chunks.first()).0, chunks.drop_first())
    } else {
        run(s, chunks.first())
    }
}

/// Chunk-boundary independence over whole partitions: running chunks in
/// order is running their concatenation, so how an input is split into
/// consecutive chunks does not matter at all.
pub proof fn lemma_run_chunks_flatten(s: BuilderState, chunks: Seq<Seq<u8>>)
    ensures
        run_chunks(s, chunks) == run(s, chunks.flatten()),
    decreases chunks.len(),
{
    if chunks.len() == 0 {
        assert(chunks.flatten() =~= Seq::<u8>::empty());
    } else {
        lemma_run_app(s, chunks.first(), chunks.drop_first().flatten());
        if run(s, chunks.first()).1 {
            lemma_run_chunks_flatten(run(s, chunks.first()).0, chunks.drop_first());
        }
    }
}

/// The encoding of a text with one more character appends that character's
/// encoding, so repeated `push_char` calls assemble `encode_utf8` of the
/// whole text.
pub proof fn lemma_encode_push_char(cs: Seq<char>, c: char)
    ensures
        encode_utf8(cs.push(c)) == encode_utf8(cs) + encode_scalar(c as u32),
    decreases cs.len(),
{
    if cs.len() == 0 {
        assert(cs.push(c).drop_first() =~= Seq::<char>::empty());
        assert(cs.push(c)[0] == c);
        assert(encode_utf8(cs.push(c)) == encode_scalar(c as u32) + encode_utf8(
            Seq::<char>::empty(),
        ));
        assert(encode_scalar(c as u32) + encode_utf8(Seq::<char>::empty()) =~= encode_utf8(cs)
            + encode_scalar(c as u32));
    } else {
        lemma_encode_push_char(cs.drop_first(), c);
        assert(cs.push(c).drop_first() =~= cs.drop_first().push(c));
        assert(cs.push(c)[0] == cs[0]);
        assert(encode_utf8(cs.push(c)) == encode_scalar(cs[0] as u32) + (encode_utf8(
            cs.drop_first(),
        ) + encode_scalar(c as u32)));
        assert(encode_scalar(cs[0] as u32) + (encode_utf8(cs.drop_first()) + encode_scalar(
            c as u32,
        )) =~= (encode_scalar(cs[0] as u32) + encode_utf8(cs.drop_first())) + encode_scalar(
            c as u32,
        ));
    }
}

/// Early rejection: with no character in progress, a standalone continuation
/// byte (`0x80..=0xBF`) or an invalid lead byte (`0xC0`, `0xC1`,
/// `0xF5..=0xFF`) is rejected at once — the machine does not wait for more
/// input, and the state is left exactly as it was.
pub proof fn lemma_early_rejection(s: BuilderState, b: u8)
    requires
        s.pending == 0,
        (0x80 <= b <= 0xBF) || b == 0xC0 || b == 0xC1 || 0xF5 <= b,
    ensures
        step(s, b) is None,
{
}

/// Truncation rejection: a lead byte declaring a width of two or more,
/// followed by fewer further bytes than it is owed, is accepted in full but
/// leaves the character in progress — the state is not valid, so finalizing
/// there fails.
pub proof fn lemma_truncation(s: BuilderState, lead: u8, tail: Seq<u8>)
    requires
        s.pending == 0,
        s.expected == 0,
        2 <= width_of(lead),
        tail.len() < width_of(lead) - 1,
    ensures
        run(s, seq![lead] + tail) == ((BuilderState {
            bytes: s.bytes + (seq![lead] + tail),
            pending: 1 + tail.len(),
            expected: width_of(lead),
        }, true)),
        run(s, seq![lead] + tail).0.pending != 0,
{
    let c = seq![lead] + tail;
    assert(c[0] == lead);
    lemma_run_lead(s, c);
}

/// Round trip: a fresh builder fed the UTF-8 encoding of any character
/// sequence — in one chunk, or split anywhere by [`lemma_run_app`] —
/// accepts every byte, ends with no character in progress, and holds exactly
/// those bytes, which decode back to the original characters; finalizing
/// there therefore returns the original text.
pub proof fn lemma_round_trip(cs: Seq<char>)
    ensures
        run(complete(Seq::<u8>::empty()), encode_utf8(cs)) == (complete(encode_utf8(cs)), true),
        valid_utf8(encode_utf8(cs)),
        decode_utf8(encode_utf8(cs)) == cs,
{
    lemma_run_encoding(complete(Seq::<u8>::empty()), cs);
    assert(Seq::<u8>::empty() + encode_utf8(cs) =~= encode_utf8(cs));
    encode_utf8_valid_utf8(cs);
    encode_utf8_decode_utf8(cs);
}

/// Round trip over any partition: for any text and any way of splitting its
/// encoding into consecutive chunks, the chunks fed in order are all
/// accepted, leave no character in progress, and assemble exactly the
/// encoding — so `push_chunk` over the partition, then `finalize`,
/// reproduces the text.
pub proof fn lemma_chunked_round_trip(cs: Seq<char>, chunks: Seq<Seq<u8>>)
    requires
        chunks.flatten() == encode_utf8(cs),
    ensures
        run_chunks(complete(Seq::<u8>::empty()), chunks) == (complete(encode_utf8(cs)), true),
        valid_utf8(encode_utf8(cs)),
        decode_utf8(encode_utf8(cs)) == cs,
{
    lemma_run_chunks_flatten(complete(Seq::<u8>::empty()), chunks);
    lemma_round_trip(cs);
}

} // verus!
