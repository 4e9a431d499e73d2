//! Incremental UTF-8 builder.
//!
//! Validates and assembles a byte stream into a UTF-8 text buffer without
//! requiring the caller to present the stream as a single complete unit.
//! Input may arrive as single bytes, whole strings, single characters, or
//! byte chunks of any size — chunks may split a multi-byte character
//! anywhere. The builder tracks how many bytes of the current incomplete
//! character have been seen and resumes when the next fragment arrives;
//! a byte that cannot begin a character is rejected as early as possible.
//!
//! Every operation is specified against the state machine of
//! [`machine::step`] and [`machine::run`], and the laws proved there give the
//! round trip: the encoding of any text, fed in any fragmentation, is
//! accepted whole and finalizes to that text.

mod error;
pub mod machine;
pub mod widths;

pub use error::Utf8Error;

use vstd::prelude::*;
use vstd::string::StringSliceAdditionalSpecFns;
use vstd::utf8::char_is_scalar;
use vstd::utf8::decode_utf8;
use vstd::utf8::encode_scalar;
use vstd::utf8::encode_utf8;
use vstd::utf8::valid_utf8;

use crate::machine::BuilderState;
use crate::machine::complete;
use crate::machine::lemma_run_fill;
use crate::machine::lemma_run_lead;
use crate::machine::run;
use crate::machine::step;
use crate::machine::wf_state;

verus! {

/// A builder that assembles and validates UTF-8 data from fragments.
#[derive(Debug, Clone)]
pub struct Utf8Builder {
    /// Every byte accepted so far, the bytes of the current incomplete
    /// character at the end.
    buffer: Vec<u8>,
    /// How many bytes of the current incomplete character have been seen;
    /// 0 means no character is in progress.
    sl: u8,
    /// Total length the current incomplete character's lead byte declared;
    /// meaningful only while `sl > 0`.
    sel: u8,
}

impl View for Utf8Builder {
    type V = BuilderState;

    closed spec fn view(&self) -> BuilderState {
        BuilderState {
            bytes: self.buffer@,
            pending: self.sl as nat,
            expected: if self.sl == 0 {
                0
            } else {
                self.sel as nat
            },
        }
    }
}

/// Appends `s[from..to]` to `buf`.
fn append_range(buf: &mut Vec<u8>, s: &[u8], from: usize, to: usize)
    requires
        from <= to <= s@.len(),
    ensures
        final(buf)@ == old(buf)@ + s@.subrange(from as int, to as int),
{
    let mut i: usize = from;
    while i < to
        invariant
            from <= i <= to <= s@.len(),
            buf@ == old(buf)@ + s@.subrange(from as int, i as int),
        decreases to - i,
    {
        let b = s[i];
        buf.push(b);
        assert(buf@ =~= old(buf)@ + s@.subrange(from as int, i + 1));
        i = i + 1;
    }
}

/// Relies on String::from_utf8: it succeeds exactly when the bytes are
/// well-formed UTF-8, and then returns the string of those very bytes.
#[verifier::external_body]
fn bytes_into_string(v: Vec<u8>) -> (r: Option<String>)
    ensures
        r is Some <==> valid_utf8(v@),
        r is Some ==> r->Some_0@ == decode_utf8(v@),
{
    String::from_utf8(v).ok()
}

impl Utf8Builder {
    /// Well-formedness of the internal counters; every constructor
    /// establishes it and every method preserves it.
    pub open spec fn wf(&self) -> bool {
        wf_state(self@)
    }

    /// Constructs a new, empty builder.
    pub fn new() -> (b: Utf8Builder)
        ensures
            b.wf(),
            b@ == complete(Seq::<u8>::empty()),
    {
        Utf8Builder { buffer: Vec::new(), sl: 0, sel: 0 }
    }

    /// Constructs a new, empty builder whose buffer starts with the given
    /// capacity. Capacity is a pure optimization hint: the abstract state is
    /// exactly that of a fresh builder.
    pub fn with_capacity(capacity: usize) -> (b: Utf8Builder)
        ensures
            b.wf(),
            b@ == complete(Seq::<u8>::empty()),
    {
        Utf8Builder { buffer: Vec::with_capacity(capacity), sl: 0, sel: 0 }
    }

    /// Constructs a builder pre-seeded with the bytes of a string already
    /// known to be valid; no character is in progress afterwards.
    pub fn from_str(s: &str) -> (b: Utf8Builder)
        ensures
            b.wf(),
            b@ == complete(encode_utf8(s@)),
    {
        let bytes = s.as_bytes();
        let mut buffer: Vec<u8> = Vec::new();
        append_range(&mut buffer, bytes, 0, bytes.len());
        assert(buffer@ =~= encode_utf8(s@));
        Utf8Builder { buffer, sl: 0, sel: 0 }
    }

    /// Constructs a builder pre-seeded with the bytes of an owned string; no
    /// character is in progress afterwards.
    pub fn from_string(s: String) -> (b: Utf8Builder)
        ensures
            b.wf(),
            b@ == complete(encode_utf8(s@)),
    {
        Utf8Builder::from_str(s.as_str())
    }

    /// Reserves capacity for at least `additional` more bytes. A pure
    /// optimization hint: the abstract state does not change.
    pub fn reserve(&mut self, additional: usize)
        requires
            old(self).wf(),
        ensures
            final(self).wf(),
            final(self)@ == old(self)@,
    {
        self.buffer.reserve(additional);
    }

    /// The number of bytes accepted so far, those of the current incomplete
    /// character counted in.
    pub fn len(&self) -> (n: usize)
        ensures
            n == self@.bytes.len(),
    {
        self.buffer.len()
    }

    /// True when no byte has been accepted yet.
    pub fn is_empty(&self) -> (r: bool)
        ensures
            r == (self@.bytes.len() == 0),
    {
        self.buffer.is_empty()
    }

    /// True when no character is in progress: every byte accepted so far
    /// belongs to a completed character.
    pub fn is_valid(&self) -> (r: bool)
        ensures
            r == (self@.pending == 0),
    {
        self.sl == 0
    }

    /// Pushes one byte: exactly one transition of the state machine. A byte
    /// that can begin or continue a character is accepted; one that can do
    /// neither is rejected with the state left untouched.
    pub fn push(&mut self, b: u8) -> (r: Result<(), Utf8Error>)
        requires
            old(self).wf(),
        ensures
            final(self).wf(),
            (match step(old(self)@, b) {
                Some(t) => r is Ok && final(self)@ == t,
                None => r is Err && final(self)@ == old(self)@,
            }),
    {
        if self.sl == 0 {
            let w = utf8_width::get_width(b);
            if w == 0 {
                return Err(Utf8Error);
            }
            self.buffer.push(b);
            if w > 1 {
                self.sl = 1;
                self.sel = w as u8;
            }
            Ok(())
        } else if self.sl + 1 == self.sel {
            self.buffer.push(b);
            self.sl = 0;
            Ok(())
        } else {
            self.buffer.push(b);
            self.sl = self.sl + 1;
            Ok(())
        }
    }

    /// Pushes a string already known to be valid UTF-8. Allowed only while no
    /// character is in progress — appending trusted text in the middle of an
    /// incomplete character would corrupt it — and then appends the string's
    /// bytes verbatim; otherwise it fails and changes nothing.
    pub fn push_str(&mut self, s: &str) -> (r: Result<(), Utf8Error>)
        requires
            old(self).wf(),
        ensures
            final(self).wf(),
            old(self)@.pending == 0 ==> r is Ok && final(self)@ == complete(
                old(self)@.bytes + encode_utf8(s@),
            ),
            old(self)@.pending != 0 ==> r is Err && final(self)@ == old(self)@,
    {
        if self.sl == 0 {
            let bytes = s.as_bytes();
            append_range(&mut self.buffer, bytes, 0, bytes.len());
            assert(self.buffer@ =~= old(self)@.bytes + encode_utf8(s@));
            Ok(())
        } else {
            Err(Utf8Error)
        }
    }

    /// Pushes one character, as its 1–4 byte UTF-8 encoding. Allowed only
    /// while no character is in progress, like `push_str`; then it always
    /// succeeds, since a Unicode scalar value has no invalid encoding.
    /// Otherwise it fails and changes nothing.
    pub fn push_char(&mut self, c: char) -> (r: Result<(), Utf8Error>)
        requires
            old(self).wf(),
        ensures
            final(self).wf(),
            old(self)@.pending == 0 ==> r is Ok && final(self)@ == complete(
                old(self)@.bytes + encode_scalar(c as u32),
            ),
            old(self)@.pending != 0 ==> r is Err && final(self)@ == old(self)@,
    {
        if self.sl != 0 {
            return Err(Utf8Error);
        }
        proof {
            char_is_scalar(c);
        }
        let v = c as u32;
        if v < 0x80 {
            self.buffer.push((v & 0x7F) as u8);
        } else if v < 0x800 {
            self.buffer.push(0xC0 | (((v >> 6) & 0x1F) as u8));
            self.buffer.push(0x80 | ((v & 0x3F) as u8));
        } else if v < 0x10000 {
            self.buffer.push(0xE0 | (((v >> 12) & 0x0F) as u8));
            self.buffer.push(0x80 | (((v >> 6) & 0x3F) as u8));
            self.buffer.push(0x80 | ((v & 0x3F) as u8));
        } else {
            self.buffer.push(0xF0 | (((v >> 18) & 0x7) as u8));
            self.buffer.push(0x80 | (((v >> 12) & 0x3F) as u8));
            self.buffer.push(0x80 | (((v >> 6) & 0x3F) as u8));
            self.buffer.push(0x80 | ((v & 0x3F) as u8));
        }
        assert(self.buffer@ =~= old(self)@.bytes + encode_scalar(c as u32));
        Ok(())
    }

    /// Pushes an arbitrary, possibly empty, byte chunk: exactly the state
    /// machine run over the chunk's bytes, so feeding an input in chunks —
    /// however it is split, even inside a multi-byte character — is the same
    /// as feeding it byte by byte. First, a character left in progress is
    /// resumed with the bytes it is owed; then whole characters are consumed
    /// until the chunk ends, possibly leaving a final character in progress.
    /// A byte that cannot begin a character is rejected, with everything
    /// before it kept: there is no rollback, as the run's stopping state
    /// says precisely.
    pub fn push_chunk(&mut self, chunk: &[u8]) -> (r: Result<(), Utf8Error>)
        requires
            old(self).wf(),
        ensures
            final(self).wf(),
            final(self)@ == run(old(self)@, chunk@).0,
            (r is Ok) == run(old(self)@, chunk@).1,
    {
        let chunk_size = chunk.len();
        if chunk_size == 0 {
            return Ok(());
        }
        let mut e: usize = 0;
        if self.sl > 0 {
            let rem = (self.sel - self.sl) as usize;
            proof {
                lemma_run_fill(old(self)@, chunk@);
            }
            if chunk_size < rem {
                append_range(&mut self.buffer, chunk, 0, chunk_size);
                self.sl = self.sl + (chunk_size as u8);
                assert(chunk@.subrange(0, chunk_size as int) =~= chunk@);
                assert(self@ =~= run(old(self)@, chunk@).0);
                return Ok(());
            }
            append_range(&mut self.buffer, chunk, 0, rem);
            self.sl = 0;
            e = rem;
            assert(chunk@.subrange(0, rem as int) =~= chunk@.take(rem as int));
            assert(self@ =~= complete(old(self)@.bytes + chunk@.take(rem as int)));
            if e == chunk_size {
                assert(chunk@.skip(e as int) =~= Seq::<u8>::empty());
                return Ok(());
            }
        } else {
            assert(chunk@.skip(0) =~= chunk@);
        }
        loop
            invariant
                self.wf(),
                self@.pending == 0,
                self@.expected == 0,
                e < chunk_size,
                chunk_size == chunk@.len(),
                run(old(self)@, chunk@) == run(self@, chunk@.skip(e as int)),
            decreases chunk_size - e,
        {
            let w = utf8_width::get_width(chunk[e]);
            if w == 0 {
                proof {
                    assert(chunk@.skip(e as int)[0] == chunk@[e as int]);
                    assert(run(self@, chunk@.skip(e as int)) == (self@, false));
                }
                return Err(Utf8Error);
            }
            let avail = chunk_size - e;
            proof {
                assert(chunk@.skip(e as int)[0] == chunk@[e as int]);
                lemma_run_lead(self@, chunk@.skip(e as int));
            }
            if avail >= w {
                let ghost pre = self@;
                append_range(&mut self.buffer, chunk, e, e + w);
                proof {
                    assert(chunk@.subrange(e as int, e + w) =~= chunk@.skip(e as int).take(
                        w as int,
                    ));
                    assert(self@ =~= complete(pre.bytes + chunk@.skip(e as int).take(w as int)));
                    assert(chunk@.skip(e as int).skip(w as int) =~= chunk@.skip(e + w));
                }
                e = e + w;
                if e == chunk_size {
                    assert(chunk@.skip(e as int) =~= Seq::<u8>::empty());
                    return Ok(());
                }
            } else {
                let ghost pre = self@;
                append_range(&mut self.buffer, chunk, e, chunk_size);
                self.sl = avail as u8;
                self.sel = w as u8;
                proof {
                    assert(chunk@.subrange(e as int, chunk_size as int) =~= chunk@.skip(e as int));
                    assert(self@ =~= (BuilderState {
                        bytes: pre.bytes + chunk@.skip(e as int),
                        pending: chunk@.skip(e as int).len(),
                        expected: crate::widths::width_of(chunk@[e as int]),
                    }));
                }
                return Ok(());
            }
        }
    }

    /// Consumes the builder and returns the accumulated text. Succeeds
    /// exactly when no character is in progress and the accumulated bytes are
    /// well-formed UTF-8; the returned string holds those very bytes. (The
    /// loose convention of `push` never range-checks continuation bytes, so a
    /// stray byte accepted in place of a continuation byte is caught here.)
    pub fn finalize(self) -> (r: Result<String, Utf8Error>)
        requires
            self.wf(),
        ensures
            self@.pending == 0 && valid_utf8(self@.bytes) ==> r is Ok && r->Ok_0@ == decode_utf8(
                self@.bytes,
            ),
            !(self@.pending == 0 && valid_utf8(self@.bytes)) ==> r is Err,
    {
        if self.sl == 0 {
            match bytes_into_string(self.buffer) {
                Some(t) => Ok(t),
                None => Err(Utf8Error),
            }
        } else {
            Err(Utf8Error)
        }
    }
}

impl Default for Utf8Builder {
    /// A fresh, empty builder, as `new` constructs it.
    fn default() -> (b: Utf8Builder)
        ensures
            b.wf(),
            b@ == complete(Seq::<u8>::empty()),
    {
        Utf8Builder::new()
    }
}

} // verus!
