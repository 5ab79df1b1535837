use vstd::prelude::*;
use crate::error::DeserializationError;

verus! {

/// A read position over an input buffer, with a stack of table origins.
///
/// Offsets are measured from the origin of the innermost enclosing table,
/// which is the top of the stack.
pub struct ReaderContext {
    /// The bytes being read.
    pub input: Vec<u8>,
    /// The current read position.
    pub ptr: usize,
    /// Origins of the enclosing tables, innermost last.
    pub top_of_table_stack: Vec<usize>,
}

impl ReaderContext {
    /// The stack of table origins, innermost last.
    pub open spec fn origins(&self) -> Seq<usize> {
        self.top_of_table_stack@
    }

    /// There is always an enclosing table.
    pub open spec fn wf(&self) -> bool {
        self.origins().len() >= 1
    }

    /// Origin of the innermost enclosing table.
    pub open spec fn origin(&self) -> usize {
        self.origins().last()
    }

    /// A reader at the start of `input`, whose outermost table starts there.
    pub fn new(input: Vec<u8>) -> (r: Self)
        ensures
            r.wf(),
            r.input@ == input@,
            r.ptr == 0,
            r.origins() == seq![0usize],
    {
        ReaderContext { input, ptr: 0, top_of_table_stack: vec![0] }
    }

    /// Whether `bytes` more bytes can be read at the current position.
    pub open spec fn has(&self, bytes: int) -> bool {
        self.ptr + bytes <= self.input@.len()
    }

    fn consume_or_peek(&mut self, bytes: usize, consume: bool) -> (r: Result<
        Vec<u8>,
        DeserializationError,
    >)
        ensures
            final(self).input@ == old(self).input@,
            final(self).origins() == old(self).origins(),
            old(self).has(bytes as int) ==> r is Ok && r->Ok_0@ == old(self).input@.subrange(
                old(self).ptr as int,
                old(self).ptr + bytes,
            ) && final(self).ptr == if consume {
                old(self).ptr + bytes
            } else {
                old(self).ptr as int
            },
            !old(self).has(bytes as int) ==> r == Err::<Vec<u8>, _>(
                DeserializationError::UnexpectedEof,
            ) && final(self).ptr == old(self).ptr,
    {
        let len = self.input.len();
        if bytes > len || self.ptr > len - bytes {
            return Err(DeserializationError::UnexpectedEof);
        }
        let start = self.ptr;
        let mut out: Vec<u8> = Vec::with_capacity(bytes);
        let mut i: usize = 0;
        while i < bytes
            invariant
                start + bytes <= self.input.len(),
                i <= bytes,
                out@ == self.input@.subrange(start as int, start + i),
            decreases bytes - i,
        {
            out.push(self.input[start + i]);
            i = i + 1;
        }
        if consume {
            self.ptr = start + bytes;
        }
        Ok(out)
    }

    /// Reads the next `bytes` bytes and moves past them; fails with
    /// `UnexpectedEof`, and does not move, if fewer remain.
    pub fn consume(&mut self, bytes: usize) -> (r: Result<Vec<u8>, DeserializationError>)
        ensures
            final(self).input@ == old(self).input@,
            final(self).origins() == old(self).origins(),
            old(self).has(bytes as int) ==> r is Ok && r->Ok_0@ == old(self).input@.subrange(
                old(self).ptr as int,
                old(self).ptr + bytes,
            ) && final(self).ptr == old(self).ptr + bytes,
            !old(self).has(bytes as int) ==> r == Err::<Vec<u8>, _>(
                DeserializationError::UnexpectedEof,
            ) && final(self).ptr == old(self).ptr,
    {
        self.consume_or_peek(bytes, true)
    }

    /// Reads the next `bytes` bytes without moving; fails with
    /// `UnexpectedEof` if fewer remain.
    pub fn peek(&mut self, bytes: usize) -> (r: Result<Vec<u8>, DeserializationError>)
        ensures
            final(self).input@ == old(self).input@,
            final(self).ptr == old(self).ptr,
            final(self).origins() == old(self).origins(),
            old(self).has(bytes as int) ==> r is Ok && r->Ok_0@ == old(self).input@.subrange(
                old(self).ptr as int,
                old(self).ptr + bytes,
            ),
            !old(self).has(bytes as int) ==> r == Err::<Vec<u8>, _>(
                DeserializationError::UnexpectedEof,
            ),
    {
        self.consume_or_peek(bytes, false)
    }

    /// Enters a table that starts at the current position.
    pub fn push(&mut self)
        ensures
            final(self).input@ == old(self).input@,
            final(self).ptr == old(self).ptr,
            final(self).origins() == old(self).origins().push(old(self).ptr),
    {
        self.top_of_table_stack.push(self.ptr);
    }

    /// Leaves the innermost table; the outermost one is never left.
    pub fn pop(&mut self)
        requires
            old(self).origins().len() >= 2,
        ensures
            final(self).input@ == old(self).input@,
            final(self).ptr == old(self).ptr,
            final(self).origins() == old(self).origins().drop_last(),
    {
        self.top_of_table_stack.pop();
    }

    /// Start of the innermost enclosing table.
    pub fn top_of_table(&self) -> (r: usize)
        requires
            self.wf(),
        ensures
            r == self.origin(),
    {
        self.top_of_table_stack[self.top_of_table_stack.len() - 1]
    }

    /// Moves the read position forward by `bytes`.
    pub fn skip(&mut self, bytes: usize)
        requires
            old(self).ptr + bytes <= usize::MAX,
        ensures
            final(self).input@ == old(self).input@,
            final(self).origins() == old(self).origins(),
            final(self).ptr == old(self).ptr + bytes,
    {
        self.ptr = self.ptr + bytes;
    }

    /// Moves the read position to `offset` bytes past the innermost table's
    /// origin. A destination past the end of the input fails with
    /// `OffsetOutOfRange` and leaves the position as it was.
    pub fn follow_offset(&mut self, offset: u16) -> (r: Result<(), DeserializationError>)
        requires
            old(self).wf(),
        ensures
            final(self).input@ == old(self).input@,
            final(self).origins() == old(self).origins(),
            old(self).origin() + offset <= old(self).input@.len() ==> r is Ok && final(self).ptr
                == old(self).origin() + offset,
            old(self).origin() + offset > old(self).input@.len() ==> r == Err::<(), _>(
                DeserializationError::OffsetOutOfRange,
            ) && final(self).ptr == old(self).ptr,
    {
        let top = self.top_of_table();
        let len = self.input.len();
        let off = offset as usize;
        if off > len || top > len - off {
            return Err(DeserializationError::OffsetOutOfRange);
        }
        self.ptr = top + off;
        Ok(())
    }
}

} // verus!
