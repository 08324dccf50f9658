//! Bit fields of an 8-bit device register.
use vstd::prelude::*;

verus! {

/// The mask of `width` low bits.
pub open spec fn low_mask(width: u8) -> u8 {
    if width >= 8 {
        0xff
    } else {
        ((1u8 << width) - 1) as u8
    }
}

/// A bit field of an 8-bit register: `width` bits starting at bit `offset`.
#[derive(Clone, Copy, Debug)]
pub struct RegisterField {
    pub width: u8,
    pub offset: u8,
}

impl RegisterField {
    /// The field lies within the register.
    pub open spec fn wf(&self) -> bool {
        self.offset + self.width <= 8
    }

    /// The field's bits in their place in the register.
    pub open spec fn mask_spec(&self) -> u8 {
        if self.offset >= 8 {
            0
        } else {
            low_mask(self.width) << self.offset
        }
    }

    pub fn new(width: u8, offset: u8) -> (r: Self)
        requires
            offset + width <= 8,
        ensures
            r.width == width,
            r.offset == offset,
            r.wf(),
    {
        RegisterField { width, offset }
    }

    /// The field's mask, unshifted.
    pub fn low_mask(&self) -> (r: u8)
        requires
            self.wf(),
        ensures
            r == low_mask(self.width),
    {
        if self.width >= 8 {
            0xff
        } else {
            let w = self.width;
            assert(1u8 << w >= 1) by (bit_vector)
                requires
                    w < 8,
            ;
            (1u8 << w) - 1
        }
    }

    /// The field's bits in their place in the register.
    pub fn mask(&self) -> (r: u8)
        requires
            self.wf(),
        ensures
            r == self.mask_spec(),
    {
        if self.offset >= 8 {
            0
        } else {
            self.low_mask() << self.offset
        }
    }

    /// The bit the field starts at.
    pub fn shift(&self) -> (r: u8)
        ensures
            r == self.offset,
    {
        self.offset
    }
}

/// The bits of `byte` that `field` covers, moved down to bit zero.
pub open spec fn field_of(byte: u8, field: RegisterField) -> u8 {
    if field.offset >= 8 {
        0
    } else {
        (byte >> field.offset) & low_mask(field.width)
    }
}

/// A value for a bit field, held in its low bits.
#[derive(Clone, Copy, Debug)]
pub struct RegisterFieldValue {
    pub field: RegisterField,
    pub value: u8,
}

impl RegisterFieldValue {
    /// The field lies within the register and the value fits the field.
    pub open spec fn wf(&self) -> bool {
        self.field.wf() && self.value & low_mask(self.field.width) == self.value
    }

    /// The value in its place in the register.
    pub open spec fn raw_spec(&self) -> u8 {
        if self.field.offset >= 8 {
            0
        } else {
            self.value << self.field.offset
        }
    }

    /// The value for `field` given by the low bits of `value`; higher bits are dropped.
    pub fn new(field: RegisterField, value: u8) -> (r: Self)
        requires
            field.wf(),
        ensures
            r.field == field,
            r.value == value & low_mask(field.width),
            r.wf(),
    {
        let m = field.low_mask();
        let v = value & m;
        assert(v & m == v) by (bit_vector)
            requires
                v == value & m,
        ;
        RegisterFieldValue { field, value: v }
    }

    /// The value, in the low bits.
    pub fn value(&self) -> (r: u8)
        ensures
            r == self.value,
    {
        self.value
    }

    /// The value in its place in the register.
    pub fn raw_value(&self) -> (r: u8)
        requires
            self.wf(),
        ensures
            r == self.raw_spec(),
    {
        if self.field.offset >= 8 {
            0
        } else {
            self.value << self.field.offset
        }
    }

    /// The field's bits in their place in the register.
    pub fn mask(&self) -> (r: u8)
        requires
            self.wf(),
        ensures
            r == self.field.mask_spec(),
    {
        self.field.mask()
    }
}

/// `byte` with the bits of `v`'s field replaced by `v`'s value.
pub open spec fn merge_field(byte: u8, v: RegisterFieldValue) -> u8 {
    (byte & !v.field.mask_spec()) | v.raw_spec()
}

/// The register byte `byte` with the field of `v` set to its value, the other bits kept.
pub fn merge(byte: u8, v: &RegisterFieldValue) -> (r: u8)
    requires
        v.wf(),
    ensures
        r == merge_field(byte, *v),
{
    (byte & !v.mask()) | v.raw_value()
}

/// Writing a field changes only that field: the merged byte keeps every bit outside the
/// field's mask as it was, and the field then reads back as the value written.
pub proof fn lemma_merge_field(byte: u8, v: RegisterFieldValue)
    requires
        v.wf(),
    ensures
        merge_field(byte, v) & !v.field.mask_spec() == byte & !v.field.mask_spec(),
        field_of(merge_field(byte, v), v.field) == v.value,
{
    let w = v.field.width;
    let o = v.field.offset;
    let x = v.value;
    let m = low_mask(w);
    if o >= 8 {
        assert(m == 0) by (bit_vector)
            requires
                w == 0,
                m == ((1u8 << w) - 1) as u8,
        ;
        assert(x == 0) by (bit_vector)
            requires
                x & m == x,
                m == 0,
        ;
        assert(byte & !0u8 == byte) by (bit_vector);
        assert(byte | 0u8 == byte) by (bit_vector);
    } else {
        assert((m << o) >> o == m) by {
            if w >= 8 {
                assert(o == 0);
                assert((0xffu8 << 0u8) >> 0u8 == 0xffu8) by (bit_vector);
            } else {
                assert((((1u8 << w) - 1) as u8) << o >> o == ((1u8 << w) - 1) as u8) by (bit_vector)
                    requires
                        w < 8,
                        o < 8,
                        w + o <= 8,
                ;
            }
        }
        let mm = m << o;
        let r = (byte & !mm) | (x << o);
        assert(r & !mm == byte & !mm && (r >> o) & m == x) by (bit_vector)
            requires
                x & m == x,
                (m << o) >> o == m,
                mm == m << o,
                r == (byte & !mm) | (x << o),
                o < 8,
        ;
    }
}

} // verus!
