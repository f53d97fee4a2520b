//! One loaded source text, and where it sits among all loaded sources.

use crate::location::Offset;
use crate::text::byte_len;
use core::cmp::Ordering;
use vstd::prelude::*;
use vstd::string::*;
use vstd::utf8::*;

verus! {

/// What a source is: the offset it was given, if any, its name and its text.
pub struct SourceView {
    pub offset: Option<nat>,
    pub name: Seq<char>,
    pub text: Seq<char>,
}

/// Why a byte buffer cannot become a source.
#[derive(Debug, Clone, Copy, PartialEq, Eq, Structural)]
pub enum SourceError {
    /// The bytes are not valid UTF-8.
    InvalidUtf8,
}

/// Calls `String::from_utf8`, which accepts exactly the byte buffers that are
/// valid UTF-8, and then holds the characters that they encode.
#[verifier::external_body]
fn utf8_string(bytes: Vec<u8>) -> (r: Option<String>)
    ensures
        r is Some <==> valid_utf8(bytes@),
        r matches Some(s) ==> s@ == decode_utf8(bytes@),
{
    match String::from_utf8(bytes) {
        Ok(s) => Some(s),
        Err(_) => None,
    }
}

/// A named source text. Its offset is set when a manager takes it in.
#[derive(Debug)]
pub struct Source {
    offset: Option<Offset>,
    name: String,
    text: String,
}

impl View for Source {
    type V = SourceView;

    closed spec fn view(&self) -> SourceView {
        SourceView {
            offset: match self.offset {
                Some(o) => Some(o.0 as nat),
                None => None,
            },
            name: self.name@,
            text: self.text@,
        }
    }
}

impl Source {
    #[verifier::type_invariant]
    spec fn fits(self) -> bool {
        &&& byte_len(self.text@) <= u32::MAX
        &&& self.offset matches Some(o) ==> o.0 + byte_len(self.text@) <= u32::MAX
    }

    /// The source named `name` whose text is the UTF-8 in `bytes`.
    pub fn new(name: &str, bytes: Vec<u8>) -> (r: Result<Source, SourceError>)
        requires
            bytes@.len() <= u32::MAX,
        ensures
            r is Ok <==> valid_utf8(bytes@),
            r matches Ok(s) ==> s@ == (SourceView {
                offset: None,
                name: name@,
                text: decode_utf8(bytes@),
            }),
            r matches Ok(s) ==> encode_utf8(s@.text) == bytes@,
            r matches Err(e) ==> e == SourceError::InvalidUtf8,
    {
        let ghost b = bytes@;
        match utf8_string(bytes) {
            Some(text) => {
                proof {
                    decode_utf8_encode_utf8(b);
                }
                Ok(Source { offset: None, name: name.to_owned(), text })
            },
            None => Err(SourceError::InvalidUtf8),
        }
    }

    /// Bytes in the text, and that they fit the offsets of this source.
    pub fn byte_count(&self) -> (r: u32)
        ensures
            r == byte_len(self@.text),
            self@.offset matches Some(o) ==> o + r <= u32::MAX,
    {
        proof {
            use_type_invariant(self);
        }
        let n = self.text.as_str().len();
        n as u32
    }

    /// Whether a manager has given the source its offset.
    pub fn has_offset(&self) -> (r: bool)
        ensures
            r == self@.offset is Some,
    {
        self.offset.is_some()
    }

    /// The offset of the source's first byte.
    pub fn get_offset(&self) -> (r: Offset)
        requires
            self@.offset is Some,
        ensures
            r.0 == self@.offset->0,
    {
        match self.offset {
            Some(offset) => offset,
            None => Offset(0),
        }
    }

    /// The offset one past the source's last byte.
    pub fn get_end_offset(&self) -> (r: Offset)
        requires
            self@.offset is Some,
        ensures
            r.0 == self@.offset->0 + byte_len(self@.text),
    {
        let len = self.byte_count();
        self.get_offset().advanced_by(len)
    }

    /// The name the source was given.
    pub fn get_name(&self) -> (r: &str)
        ensures
            r@ == self@.name,
    {
        self.name.as_str()
    }

    /// The text of the source.
    pub fn get_source(&self) -> (r: &str)
        ensures
            r@ == self@.text,
            r.spec_bytes() == encode_utf8(self@.text),
    {
        self.text.as_str()
    }

    /// Places the source at `offset`.
    pub(crate) fn patch_offset(&mut self, offset: Offset)
        requires
            offset.0 + byte_len(old(self)@.text) <= u32::MAX,
        ensures
            final(self)@ == (SourceView { offset: Some(offset.0 as nat), ..old(self)@ }),
    {
        self.offset = Some(offset);
    }

    /// Whether the byte at `offset` belongs to this source.
    pub fn contains(&self, offset: Offset) -> (r: bool)
        requires
            self@.offset is Some,
        ensures
            r == (self@.offset->0 <= offset.0 < self@.offset->0 + byte_len(self@.text)),
    {
        self.get_offset().0 <= offset.0 && offset.0 < self.get_end_offset().0
    }

    /// Where the source lies relative to the byte at `offset`: `Greater` when
    /// it starts after it, `Less` when it ends at or before it, `Equal` when
    /// it holds it.
    pub fn compare_to(&self, offset: Offset) -> (r: Ordering)
        requires
            self@.offset is Some,
        ensures
            r == (if self@.offset->0 > offset.0 {
                Ordering::Greater
            } else if self@.offset->0 + byte_len(self@.text) <= offset.0 {
                Ordering::Less
            } else {
                Ordering::Equal
            }),
    {
        if self.get_offset().0 > offset.0 {
            Ordering::Greater
        } else if self.get_end_offset().0 <= offset.0 {
            Ordering::Less
        } else {
            Ordering::Equal
        }
    }
}

} // verus!
