//! Writing text into a byte buffer of fixed size.
use vstd::prelude::*;
use vstd::string::StringSliceAdditionalSpecFns;
use vstd::utf8::{encode_utf8_valid_utf8, valid_utf8, valid_utf8_concat};

verus! {

/// The text does not fit in what is left of the buffer.
#[derive(Debug, Clone, Copy, PartialEq, Eq, Structural)]
pub struct WriteError;

/// Writes text to the front of a borrowed byte buffer and keeps count of
/// what was written.
pub struct SliceWriter<'s> {
    slice: &'s mut [u8],
    len: usize,
}

impl<'s> SliceWriter<'s> {
    /// No more is written than the buffer holds, and what is written is
    /// text.
    #[verifier::type_invariant]
    pub closed spec fn wf(&self) -> bool {
        &&& self.len <= self.slice@.len()
        &&& valid_utf8(self.slice@.take(self.len as int))
    }

    /// The bytes written so far.
    pub closed spec fn written(&self) -> Seq<u8> {
        self.slice@.take(self.len as int)
    }

    /// The size of the buffer.
    pub closed spec fn spec_capacity(&self) -> nat {
        self.slice@.len()
    }

    /// A writer at the start of `slice`.
    pub fn new(slice: &'s mut [u8]) -> (w: SliceWriter<'s>)
        ensures
            w.written() == Seq::<u8>::empty(),
            w.spec_capacity() == old(slice)@.len(),
    {
        assert(slice@.take(0) =~= Seq::<u8>::empty());
        SliceWriter { slice, len: 0 }
    }

    /// Whether nothing was written yet.
    pub fn is_empty(&self) -> (b: bool)
        ensures
            b == (self.written().len() == 0),
    {
        proof {
            use_type_invariant(self);
        }
        self.len == 0
    }

    /// The number of bytes written.
    pub fn len(&self) -> (n: usize)
        ensures
            n == self.written().len(),
    {
        proof {
            use_type_invariant(self);
        }
        self.len
    }

    /// The size of the buffer.
    pub fn capacity(&self) -> (n: usize)
        ensures
            n == self.spec_capacity(),
    {
        self.slice.len()
    }

    /// The number of bytes that still fit.
    pub fn remaining(&self) -> (n: usize)
        ensures
            n == self.spec_capacity() - self.written().len(),
    {
        proof {
            use_type_invariant(self);
        }
        self.capacity() - self.len()
    }

    /// The text written, borrowed from the buffer.
    pub fn into_str(self) -> (text: &'s str)
        ensures
            text.spec_bytes() == self.written(),
    {
        proof {
            use_type_invariant(&self);
        }
        let SliceWriter { slice, len } = self;
        let bytes = slice_prefix(slice, len);
        match str_from_utf8(bytes) {
            Some(text) => text,
            None => {
                assert(false);
                ""
            },
        }
    }

    /// Writes `s` after what was written, or nothing at all where `s`
    /// does not fit in what is left of the buffer.
    pub fn write_str(&mut self, s: &str) -> (r: Result<(), WriteError>)
        ensures
            final(self).wf(),
            final(self).spec_capacity() == old(self).spec_capacity(),
            r is Ok <==> s.spec_bytes().len() <= old(self).spec_capacity() - old(self).written().len(),
            r is Ok ==> final(self).written() == old(self).written() + s.spec_bytes(),
            r is Err ==> final(self).written() == old(self).written(),
    {
        proof {
            use_type_invariant(&*self);
        }
        let bytes = s.as_bytes();
        if bytes.len() > self.remaining() {
            return Err(WriteError);
        }
        let start = self.len;
        assert(self.slice@.len() == self.slice.len());
        let end = start + bytes.len();
        let ghost before = self.slice@;
        let mut i: usize = 0;
        while i < bytes.len()
            invariant
                i <= bytes@.len(),
                start == self.len,
                end == start + bytes@.len(),
                end <= self.slice@.len(),
                self.slice@.len() == before.len(),
                self.slice@.take(start as int) == before.take(start as int),
                self.slice@.subrange(start as int, start + i) == bytes@.take(i as int),
                valid_utf8(before.take(start as int)),
            decreases bytes.len() - i,
        {
            let ghost current = self.slice@;
            let byte = bytes[i];
            assert(current.update(start + i, byte).take(start as int) =~= current.take(start as int));
            self.slice[start + i] = byte;
            proof {
                assert(self.slice@.take(start as int) =~= current.take(start as int));
                assert(self.slice@.subrange(start as int, start + i + 1) =~= bytes@.take(i + 1));
            }
            i += 1;
        }
        proof {
            let old_part = before.take(start as int);
            assert(bytes@.take(bytes@.len() as int) =~= bytes@);
            assert(self.slice@.take(end as int) =~= old_part + bytes@);
            encode_utf8_valid_utf8(s@);
            valid_utf8_concat(old_part, bytes@);
        }
        self.len = end;
        Ok(())
    }
}

/// The first `len` elements of `slice`.
fn slice_prefix<'a>(slice: &'a mut [u8], len: usize) -> (prefix: &'a [u8])
    requires
        len <= old(slice)@.len(),
    ensures
        prefix@ == old(slice)@.take(len as int),
{
    let whole: &'a [u8] = slice;
    let (prefix, _) = whole.split_at(len);
    assert(prefix@ =~= whole@.take(len as int));
    prefix
}

/// Reads `bytes` as text. This is `std::str::from_utf8`, which vstd leaves
/// unspecified: valid UTF-8 gives the text of exactly these bytes, anything
/// else is refused.
#[verifier::external_body]
fn str_from_utf8<'a>(bytes: &'a [u8]) -> (r: Option<&'a str>)
    ensures
        match r {
            Some(text) => text.spec_bytes() == bytes@,
            None => !valid_utf8(bytes@),
        },
{
    std::str::from_utf8(bytes).ok()
}

} // verus!
