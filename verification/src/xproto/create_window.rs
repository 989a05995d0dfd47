//! The request that creates a window.

use crate::error::{Error, ValidationError};
use crate::protocol::ReplyKind;
use crate::value_list::ValueList;
use crate::wire::{put_u16, put_u32, put_u8, u16_bytes, u32_bytes, Endianness};
use vstd::prelude::*;

verus! {

/// The opcode of the request.
pub const OPCODE: u8 = 1;

/// The window class of the parent, whatever it is.
pub const CLASS_COPY_FROM_PARENT: u16 = 0;

/// The window class that is painted and takes input.
pub const CLASS_INPUT_OUTPUT: u16 = 1;

/// The window class that takes input and is never painted.
pub const CLASS_INPUT_ONLY: u16 = 2;

/// The optional attributes of a window, named by their bit in the value-mask.
#[derive(Clone, Copy, Debug, PartialEq, Eq, Structural)]
pub enum WindowAttribute {
    BackgroundPixmap,
    BackgroundPixel,
    BorderPixmap,
    BorderPixel,
    BitGravity,
    WinGravity,
    BackingStore,
    BackingPlanes,
    BackingPixel,
    OverrideRedirect,
    SaveUnder,
    EventMask,
    DoNotPropagateMask,
    Colormap,
    Cursor,
}

impl WindowAttribute {
    /// The bit position of the attribute in the value-mask.
    pub open spec fn position(self) -> u8 {
        match self {
            WindowAttribute::BackgroundPixmap => 0,
            WindowAttribute::BackgroundPixel => 1,
            WindowAttribute::BorderPixmap => 2,
            WindowAttribute::BorderPixel => 3,
            WindowAttribute::BitGravity => 4,
            WindowAttribute::WinGravity => 5,
            WindowAttribute::BackingStore => 6,
            WindowAttribute::BackingPlanes => 7,
            WindowAttribute::BackingPixel => 8,
            WindowAttribute::OverrideRedirect => 9,
            WindowAttribute::SaveUnder => 10,
            WindowAttribute::EventMask => 11,
            WindowAttribute::DoNotPropagateMask => 12,
            WindowAttribute::Colormap => 13,
            WindowAttribute::Cursor => 14,
        }
    }

    /// The bit position of the attribute in the value-mask.
    pub fn bit(self) -> (b: u8)
        ensures
            b == self.position(),
            b < 15,
    {
        match self {
            WindowAttribute::BackgroundPixmap => 0,
            WindowAttribute::BackgroundPixel => 1,
            WindowAttribute::BorderPixmap => 2,
            WindowAttribute::BorderPixel => 3,
            WindowAttribute::BitGravity => 4,
            WindowAttribute::WinGravity => 5,
            WindowAttribute::BackingStore => 6,
            WindowAttribute::BackingPlanes => 7,
            WindowAttribute::BackingPixel => 8,
            WindowAttribute::OverrideRedirect => 9,
            WindowAttribute::SaveUnder => 10,
            WindowAttribute::EventMask => 11,
            WindowAttribute::DoNotPropagateMask => 12,
            WindowAttribute::Colormap => 13,
            WindowAttribute::Cursor => 14,
        }
    }
}

/// Whether an input-only window may carry the attribute at this bit position:
/// win-gravity, override-redirect, event-mask, do-not-propagate-mask and cursor.
pub open spec fn input_only_allows(bit: int) -> bool {
    bit == 5 || bit == 9 || bit == 11 || bit == 12 || bit == 14
}

/// Executable form of [`input_only_allows`].
pub fn input_only_permits(bit: u8) -> (b: bool)
    ensures
        b == input_only_allows(bit as int),
{
    bit == 5 || bit == 9 || bit == 11 || bit == 12 || bit == 14
}

/// A request to create a window.
#[derive(Clone, Copy, Debug)]
pub struct CreateWindow {
    /// The window resource id.
    pub wid: u32,
    /// The window parent.
    pub parent: u32,
    /// The window class.
    pub class: u16,
    /// Window bit depth.
    pub depth: u8,
    /// Window visual.
    pub visual: u32,
    /// Window x coordinate on parent.
    pub x: u16,
    /// Window y coordinate on parent.
    pub y: u16,
    /// Window width.
    pub width: u16,
    /// Window height.
    pub height: u16,
    /// The window border width.
    pub border_width: u16,
    /// The optional attributes, from which value-mask and value-list are derived.
    pub values: ValueList,
}

impl CreateWindow {
    /// Why the request is refused, if it is. Only an input-only window can be
    /// inconsistent: it has no depth, no border and none of the attributes of
    /// a painted window. The first of these that is violated is reported.
    pub open spec fn validation_error(&self) -> Option<ValidationError> {
        if self.class != CLASS_INPUT_ONLY {
            None
        } else if self.depth != 0 {
            Some(ValidationError::InputOnlyDepth)
        } else if self.border_width != 0 {
            Some(ValidationError::InputOnlyBorderWidth)
        } else if exists|bit: int|
            0 <= bit < 32 && (#[trigger] self.values@[bit]) is Some && !input_only_allows(bit) {
            Some(ValidationError::InputOnlyAttribute)
        } else {
            None
        }
    }

    /// Everything after the 4-byte header: the fixed fields in protocol order,
    /// then the value-mask and the value-list.
    pub open spec fn body_image(&self, order: Endianness) -> Seq<u8> {
        u32_bytes(order, self.wid) + u32_bytes(order, self.parent) + u16_bytes(order, self.x)
            + u16_bytes(order, self.y) + u16_bytes(order, self.width) + u16_bytes(
            order,
            self.height,
        ) + u16_bytes(order, self.border_width) + u16_bytes(order, self.class) + u32_bytes(
            order,
            self.visual,
        ) + self.values.image(order)
    }

    /// The length field: the size of header and body together, in 4-byte units.
    pub open spec fn length_units(&self, order: Endianness) -> nat {
        (4 + self.body_image(order).len()) / 4
    }

    /// The whole request on the wire: opcode, depth, length, body.
    pub open spec fn wire_image(&self, order: Endianness) -> Seq<u8> {
        seq![OPCODE, self.depth] + u16_bytes(order, self.length_units(order) as u16)
            + self.body_image(order)
    }

    /// The body is 28 bytes of fixed fields and mask, and 4 bytes per value.
    pub proof fn lemma_body_len(&self, order: Endianness)
        ensures
            self.body_image(order).len() == 28 + 4 * self.values.list().len(),
            self.values.list().len() <= 32,
    {
        self.values.lemma_shape();
        assert(u16_bytes(order, self.x).len() == 2);
        assert(u32_bytes(order, self.wid).len() == 4);
    }

    /// The length field counts the whole message: the image is a whole number
    /// of 4-byte units, the field holds that number, and the number always
    /// fits the field's 16 bits.
    pub proof fn lemma_length_field_counts_words(&self, order: Endianness)
        ensures
            self.wire_image(order).len() % 4 == 0,
            self.wire_image(order).len() / 4 <= u16::MAX,
            self.wire_image(order).subrange(2, 4) == u16_bytes(
                order,
                (self.wire_image(order).len() / 4) as u16,
            ),
            self.wire_image(order).len() == 32 + 4 * self.values.list().len(),
    {
        self.lemma_body_len(order);
        let units = self.length_units(order);
        assert(u16_bytes(order, units as u16).len() == 2);
        assert(self.wire_image(order).len() == 4 + self.body_image(order).len());
        assert(self.wire_image(order).subrange(2, 4) =~= u16_bytes(order, units as u16));
    }

    /// The reply contract of the request: creating a window has no wire reply.
    pub fn reply_kind(&self) -> (kind: ReplyKind)
        ensures
            kind == ReplyKind::Implicit,
    {
        ReplyKind::Implicit
    }

    /// Sets one optional attribute.
    pub fn set_attribute(&mut self, attribute: WindowAttribute, value: u32)
        ensures
            final(self).values@ == old(self).values@.update(
                attribute.position() as int,
                Some(value),
            ),
            final(self).wid == old(self).wid,
            final(self).parent == old(self).parent,
            final(self).class == old(self).class,
            final(self).depth == old(self).depth,
            final(self).visual == old(self).visual,
            final(self).x == old(self).x,
            final(self).y == old(self).y,
            final(self).width == old(self).width,
            final(self).height == old(self).height,
            final(self).border_width == old(self).border_width,
    {
        let bit: u8 = attribute.bit();
        let _ = self.values.set(bit, value);
    }

    /// Checks the request before anything is encoded.
    pub fn validate(&self) -> (r: Result<(), ValidationError>)
        ensures
            r == match self.validation_error() {
                Some(e) => Err::<(), ValidationError>(e),
                None => Ok::<(), ValidationError>(()),
            },
    {
        if self.class != CLASS_INPUT_ONLY {
            return Ok(());
        }
        if self.depth != 0 {
            return Err(ValidationError::InputOnlyDepth);
        }
        if self.border_width != 0 {
            return Err(ValidationError::InputOnlyBorderWidth);
        }
        proof {
            self.values.lemma_shape();
        }
        let mut bit: u8 = 0;
        while bit < 32
            invariant
                bit <= 32,
                self.values@.len() == 32,
                self.class == CLASS_INPUT_ONLY,
                self.depth == 0,
                self.border_width == 0,
                forall|b: int|
                    0 <= b < bit && (#[trigger] self.values@[b]) is Some ==> input_only_allows(b),
            decreases 32 - bit,
        {
            if self.values.get(bit).is_some() && !input_only_permits(bit) {
                assert(self.values@[bit as int] is Some && !input_only_allows(bit as int));
                return Err(ValidationError::InputOnlyAttribute);
            }
            bit = bit + 1;
        }
        Ok(())
    }

    /// The number of bytes the request takes on the wire.
    pub fn wire_len(&self) -> (n: usize)
        ensures
            n == self.wire_image(Endianness::Big).len(),
            n == self.wire_image(Endianness::Little).len(),
            n == 32 + 4 * self.values.list().len(),
    {
        proof {
            self.lemma_length_field_counts_words(Endianness::Big);
            self.lemma_length_field_counts_words(Endianness::Little);
        }
        32 + 4 * self.values.len()
    }

    /// Appends the request to `buf` if it is valid, and leaves `buf` untouched
    /// if it is not. The body is built first and the length field is computed
    /// from it.
    pub fn encode_into(&self, order: Endianness, buf: &mut Vec<u8>) -> (r: Result<
        (),
        ValidationError,
    >)
        ensures
            r == match self.validation_error() {
                Some(e) => Err::<(), ValidationError>(e),
                None => Ok::<(), ValidationError>(()),
            },
            r is Ok ==> final(buf)@ == old(buf)@ + self.wire_image(order),
            r is Err ==> final(buf)@ == old(buf)@,
    {
        match self.validate() {
            Err(e) => {
                return Err(e);
            },
            Ok(()) => {},
        }
        let mut body: Vec<u8> = Vec::new();
        put_u32(&mut body, order, self.wid);
        put_u32(&mut body, order, self.parent);
        put_u16(&mut body, order, self.x);
        put_u16(&mut body, order, self.y);
        put_u16(&mut body, order, self.width);
        put_u16(&mut body, order, self.height);
        put_u16(&mut body, order, self.border_width);
        put_u16(&mut body, order, self.class);
        put_u32(&mut body, order, self.visual);
        self.values.write_to(order, &mut body);
        proof {
            self.lemma_body_len(order);
            assert(body@ =~= self.body_image(order));
        }
        let units: usize = (4 + body.len()) / 4;
        put_u8(buf, OPCODE);
        put_u8(buf, self.depth);
        put_u16(buf, order, units as u16);
        buf.append(&mut body);
        proof {
            assert(buf@ =~= old(buf)@ + self.wire_image(order));
        }
        Ok(())
    }

    /// Encodes the request into a fresh buffer. An invalid request is refused
    /// with the reason; a valid one yields exactly its wire image, unless the
    /// buffer cannot be obtained.
    pub fn encode(&self, order: Endianness) -> (r: Result<Vec<u8>, Error>)
        ensures
            match r {
                Ok(bytes) => self.validation_error() is None && bytes@ == self.wire_image(order),
                Err(Error::Validation(e)) => self.validation_error() == Some(e),
                Err(Error::Encoding) => self.validation_error() is None,
                Err(_) => false,
            },
            r matches Ok(bytes) ==> bytes@.len() % 4 == 0 && bytes@.len() / 4 <= u16::MAX
                && bytes@.subrange(2, 4) == u16_bytes(order, (bytes@.len() / 4) as u16),
    {
        proof {
            self.lemma_length_field_counts_words(order);
        }
        match self.validate() {
            Err(e) => {
                return Err(Error::Validation(e));
            },
            Ok(()) => {},
        }
        let mut buf: Vec<u8> = Vec::new();
        let needed: usize = self.wire_len();
        if buf.try_reserve(needed).is_err() {
            return Err(Error::Encoding);
        }
        let _ = self.encode_into(order, &mut buf);
        Ok(buf)
    }
}

} // verus!
