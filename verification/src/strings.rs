//! Strings at the cursor: of a given length in bytes, or ended by a zero byte.
use crate::error::{BinaryParserError, IoErrorKind};
use crate::model::ParserView;
use crate::parser::BinaryParser;
use crate::text::{lemma_through_ends_with_delimiter, null_terminated, text_of, through};
use vstd::prelude::*;
use vstd::utf8::{decode_utf8, encode_utf8, valid_utf8};

verus! {

impl ParserView {
    /// Whether a zero byte lies between the cursor and the end of the buffer.
    pub open spec fn has_terminator(self) -> bool {
        self.avail().contains(0u8)
    }

    /// The bytes of the null-terminated string at the cursor: those before
    /// the next zero byte.
    pub open spec fn null_string_here(self) -> Seq<u8>
        recommends
            self.has_terminator(),
    {
        null_terminated(self.avail())
    }

    /// The parser after a read of a null-terminated string: the cursor is
    /// behind the zero byte, or, where the buffer ends before one, at the
    /// end of the buffer.
    pub open spec fn after_null_string(self) -> ParserView {
        self.at(self.pos + through(self.avail(), 0u8).len())
    }
}

impl BinaryParser {
    /// Reads the bytes up to the next zero byte as UTF-8 text and moves
    /// behind the zero byte. The cursor moves whether or not the bytes
    /// decode.
    ///
    /// Where the buffer ends before a zero byte, the read has run past the
    /// end: it fails, and the cursor goes to the end of the buffer.
    pub fn read_null_string(&mut self) -> (r: Result<String, BinaryParserError>)
        ensures
            final(self)@ == old(self)@.after_null_string(),
            match r {
                Ok(text) => {
                    &&& old(self)@.has_terminator()
                    &&& valid_utf8(old(self)@.null_string_here())
                    &&& text@ == decode_utf8(old(self)@.null_string_here())
                },
                Err(BinaryParserError::Utf8(_)) => {
                    &&& old(self)@.has_terminator()
                    &&& !valid_utf8(old(self)@.null_string_here())
                },
                Err(BinaryParserError::Io(kind)) => {
                    &&& !old(self)@.has_terminator()
                    &&& kind == IoErrorKind::UnexpectedEof
                },
            },
    {
        proof {
            lemma_through_ends_with_delimiter(self@.avail(), 0u8);
        }
        let mut bytes = self.read_until(0);
        let count = bytes.len();
        if count == 0 || bytes[count - 1] != 0 {
            return Err(BinaryParserError::Io(IoErrorKind::UnexpectedEof));
        }
        bytes.pop();
        match text_of(bytes.as_slice()) {
            Ok(text) => Ok(text),
            Err(e) => Err(BinaryParserError::Utf8(e)),
        }
    }

    /// Reads `length` bytes as UTF-8 text and moves behind them, whether or
    /// not they decode. Where fewer bytes are left the read fails and the
    /// cursor goes to the end of the buffer.
    pub fn read_string(&mut self, length: usize) -> (r: Result<String, BinaryParserError>)
        ensures
            final(self)@ == old(self)@.after_read(length as nat),
            match r {
                Ok(text) => {
                    &&& old(self)@.can_read(length as nat)
                    &&& valid_utf8(old(self)@.peek(length as nat))
                    &&& text@ == decode_utf8(old(self)@.peek(length as nat))
                },
                Err(BinaryParserError::Utf8(_)) => {
                    &&& old(self)@.can_read(length as nat)
                    &&& !valid_utf8(old(self)@.peek(length as nat))
                },
                Err(BinaryParserError::Io(kind)) => {
                    &&& !old(self)@.can_read(length as nat)
                    &&& kind == IoErrorKind::UnexpectedEof
                },
            },
    {
        match self.read_buf(length) {
            Ok(bytes) => match text_of(bytes.as_slice()) {
                Ok(text) => Ok(text),
                Err(e) => Err(BinaryParserError::Utf8(e)),
            },
            Err(e) => Err(e),
        }
    }

    /// Writes the UTF-8 bytes of `data`, with nothing after them.
    pub fn write_string(&mut self, data: &str) -> (r: Result<(), BinaryParserError>)
        ensures
            final(self)@ == old(self)@.write(encode_utf8(data@)).state,
            r == old(self)@.write(encode_utf8(data@)).result(),
    {
        self.write_buf(data.as_bytes())
    }

    /// Writes the UTF-8 bytes of `data` and then one zero byte.
    pub fn write_null_string(&mut self, data: &str) -> (r: Result<(), BinaryParserError>)
        ensures
            final(self)@ == old(self)@.write_terminated(encode_utf8(data@)).state,
            r == old(self)@.write_terminated(encode_utf8(data@)).result(),
    {
        match self.write_buf(data.as_bytes()) {
            Ok(()) => {},
            Err(e) => {
                return Err(e);
            },
        }
        proof {
            crate::codec::lemma_single_byte(0u8, self@.big_endian);
        }
        self.write_u8(0)
    }
}

} // verus!
