//! Typed values of one, two, four or eight bytes, their little-endian byte
//! encoding, and the errors of a memory access.
use vstd::prelude::*;

verus! {

/// A value moved by one access.
#[derive(Debug, Clone, Copy, PartialEq, Eq, Structural)]
pub enum DataType {
    Byte(u8),
    Halfword(u16),
    Word(u32),
    DoubleWord(u64),
}

/// The width of an access.
#[derive(Debug, Clone, Copy, PartialEq, Eq, Structural)]
pub enum DataTypeSize {
    Byte,
    Halfword,
    Word,
    DoubleWord,
}

/// Why an access failed. `NotFound` is a cache miss: an expected outcome
/// that the hierarchy resolves before it returns.
#[derive(Debug, Clone, Copy, PartialEq, Eq, Structural)]
pub enum MemoryError {
    OutOfBounds,
    NotAligned,
    NotFound,
    NotCompatible,
}

impl From<u8> for DataType {
    fn from(v: u8) -> (r: DataType)
        ensures
            r == DataType::Byte(v),
    {
        DataType::Byte(v)
    }
}

impl vstd::std_specs::convert::FromSpecImpl<u8> for DataType {
    open spec fn obeys_from_spec() -> bool {
        true
    }

    open spec fn from_spec(v: u8) -> DataType {
        DataType::Byte(v)
    }
}

impl From<u16> for DataType {
    fn from(v: u16) -> (r: DataType)
        ensures
            r == DataType::Halfword(v),
    {
        DataType::Halfword(v)
    }
}

impl vstd::std_specs::convert::FromSpecImpl<u16> for DataType {
    open spec fn obeys_from_spec() -> bool {
        true
    }

    open spec fn from_spec(v: u16) -> DataType {
        DataType::Halfword(v)
    }
}

impl From<u32> for DataType {
    fn from(v: u32) -> (r: DataType)
        ensures
            r == DataType::Word(v),
    {
        DataType::Word(v)
    }
}

impl vstd::std_specs::convert::FromSpecImpl<u32> for DataType {
    open spec fn obeys_from_spec() -> bool {
        true
    }

    open spec fn from_spec(v: u32) -> DataType {
        DataType::Word(v)
    }
}

impl From<u64> for DataType {
    fn from(v: u64) -> (r: DataType)
        ensures
            r == DataType::DoubleWord(v),
    {
        DataType::DoubleWord(v)
    }
}

impl vstd::std_specs::convert::FromSpecImpl<u64> for DataType {
    open spec fn obeys_from_spec() -> bool {
        true
    }

    open spec fn from_spec(v: u64) -> DataType {
        DataType::DoubleWord(v)
    }
}

impl DataTypeSize {
    /// Number of bytes of an access of this width.
    pub open spec fn width(self) -> nat {
        match self {
            DataTypeSize::Byte => 1,
            DataTypeSize::Halfword => 2,
            DataTypeSize::Word => 4,
            DataTypeSize::DoubleWord => 8,
        }
    }

    pub fn size(self) -> (r: usize)
        ensures
            r == self.width(),
    {
        match self {
            DataTypeSize::Byte => 1,
            DataTypeSize::Halfword => 2,
            DataTypeSize::Word => 4,
            DataTypeSize::DoubleWord => 8,
        }
    }

    pub fn get_size(size: DataTypeSize) -> (r: usize)
        ensures
            r == size.width(),
    {
        size.size()
    }
}

impl DataType {
    /// The width class of a value.
    pub open spec fn size_class(self) -> DataTypeSize {
        match self {
            DataType::Byte(_) => DataTypeSize::Byte,
            DataType::Halfword(_) => DataTypeSize::Halfword,
            DataType::Word(_) => DataTypeSize::Word,
            DataType::DoubleWord(_) => DataTypeSize::DoubleWord,
        }
    }

    pub fn payload_size(&self) -> (r: usize)
        ensures
            r == self.size_class().width(),
    {
        match self {
            DataType::Byte(_) => 1,
            DataType::Halfword(_) => 2,
            DataType::Word(_) => 4,
            DataType::DoubleWord(_) => 8,
        }
    }

    pub fn size_class_of(&self) -> (r: DataTypeSize)
        ensures
            r == self.size_class(),
    {
        match self {
            DataType::Byte(_) => DataTypeSize::Byte,
            DataType::Halfword(_) => DataTypeSize::Halfword,
            DataType::Word(_) => DataTypeSize::Word,
            DataType::DoubleWord(_) => DataTypeSize::DoubleWord,
        }
    }

    /// The little-endian bytes of the value.
    pub fn to_le_bytes(&self) -> (r: Vec<u8>)
        ensures
            r@ == le_bytes(*self),
    {
        let mut v: Vec<u8> = Vec::new();
        match *self {
            DataType::Byte(b) => {
                v.push(b);
            },
            DataType::Halfword(h) => {
                v.push(h as u8);
                v.push((h >> 8u16) as u8);
            },
            DataType::Word(w) => {
                v.push(w as u8);
                v.push((w >> 8u32) as u8);
                v.push((w >> 16u32) as u8);
                v.push((w >> 24u32) as u8);
            },
            DataType::DoubleWord(x) => {
                v.push(x as u8);
                v.push((x >> 8u64) as u8);
                v.push((x >> 16u64) as u8);
                v.push((x >> 24u64) as u8);
                v.push((x >> 32u64) as u8);
                v.push((x >> 40u64) as u8);
                v.push((x >> 48u64) as u8);
                v.push((x >> 56u64) as u8);
            },
        }
        assert(v@ =~= le_bytes(*self));
        v
    }

    /// Decodes `size.width()` little-endian bytes of `bytes` starting at `at`.
    pub fn from_le_bytes(size: DataTypeSize, bytes: &Vec<u8>, at: usize) -> (r: DataType)
        requires
            at + size.width() <= bytes.len(),
        ensures
            r == from_le(size, bytes@.subrange(at as int, at + size.width())),
    {
        let ghost s = bytes@.subrange(at as int, at + size.width());
        match size {
            DataTypeSize::Byte => DataType::Byte(bytes[at]),
            DataTypeSize::Halfword => {
                let b0 = bytes[at] as u16;
                let b1 = bytes[at + 1] as u16;
                assert(b0 == s[0] as u16 && b1 == s[1] as u16 && b1 <= 255);
                DataType::Halfword(b0 | (b1 << 8u16))
            },
            DataTypeSize::Word => {
                let b0 = bytes[at] as u32;
                let b1 = bytes[at + 1] as u32;
                let b2 = bytes[at + 2] as u32;
                let b3 = bytes[at + 3] as u32;
                assert(b0 == s[0] as u32 && b1 == s[1] as u32 && b2 == s[2] as u32 && b3 == s[3]
                    as u32);
                assert(b1 <= 255 && b2 <= 255 && b3 <= 255);
                DataType::Word(b0 | (b1 << 8u32) | (b2 << 16u32) | (b3 << 24u32))
            },
            DataTypeSize::DoubleWord => {
                let b0 = bytes[at] as u64;
                let b1 = bytes[at + 1] as u64;
                let b2 = bytes[at + 2] as u64;
                let b3 = bytes[at + 3] as u64;
                let b4 = bytes[at + 4] as u64;
                let b5 = bytes[at + 5] as u64;
                let b6 = bytes[at + 6] as u64;
                let b7 = bytes[at + 7] as u64;
                assert(b0 == s[0] as u64 && b1 == s[1] as u64 && b2 == s[2] as u64 && b3 == s[3]
                    as u64);
                assert(b4 == s[4] as u64 && b5 == s[5] as u64 && b6 == s[6] as u64 && b7 == s[7]
                    as u64);
                assert(b1 <= 255 && b2 <= 255 && b3 <= 255 && b4 <= 255 && b5 <= 255 && b6 <= 255
                    && b7 <= 255);
                DataType::DoubleWord(
                    b0 | (b1 << 8u64) | (b2 << 16u64) | (b3 << 24u64) | (b4 << 32u64) | (b5
                        << 40u64) | (b6 << 48u64) | (b7 << 56u64),
                )
            },
        }
    }
}

/// Why an access of `width` bytes at `a` into `capacity` bytes fails: out of
/// bounds, or not a multiple of its width.
pub open spec fn access_error(capacity: int, a: int, width: int) -> Option<MemoryError> {
    if a >= capacity {
        Some(MemoryError::OutOfBounds)
    } else if a % width != 0 {
        Some(MemoryError::NotAligned)
    } else if a + width > capacity {
        Some(MemoryError::OutOfBounds)
    } else {
        None
    }
}

/// Checks an access of `width` bytes at `addr` into `capacity` bytes.
pub fn check_access(capacity: usize, addr: usize, width: usize) -> (r: Option<MemoryError>)
    requires
        width >= 1,
    ensures
        r == access_error(capacity as int, addr as int, width as int),
{
    if addr >= capacity {
        Some(MemoryError::OutOfBounds)
    } else if addr % width != 0 {
        Some(MemoryError::NotAligned)
    } else if width > capacity || addr > capacity - width {
        Some(MemoryError::OutOfBounds)
    } else {
        None
    }
}

/// The little-endian encoding of a value: least significant byte first.
pub open spec fn le_bytes(d: DataType) -> Seq<u8> {
    match d {
        DataType::Byte(b) => seq![b],
        DataType::Halfword(h) => seq![h as u8, (h >> 8u16) as u8],
        DataType::Word(w) => seq![w as u8, (w >> 8u32) as u8, (w >> 16u32) as u8, (w >> 24u32) as u8],
        DataType::DoubleWord(x) => seq![
            x as u8,
            (x >> 8u64) as u8,
            (x >> 16u64) as u8,
            (x >> 24u64) as u8,
            (x >> 32u64) as u8,
            (x >> 40u64) as u8,
            (x >> 48u64) as u8,
            (x >> 56u64) as u8,
        ],
    }
}

/// The value of the given width whose little-endian encoding starts `s`.
pub open spec fn from_le(size: DataTypeSize, s: Seq<u8>) -> DataType {
    match size {
        DataTypeSize::Byte => DataType::Byte(s[0]),
        DataTypeSize::Halfword => DataType::Halfword((s[0] as u16) | ((s[1] as u16) << 8u16)),
        DataTypeSize::Word => DataType::Word(
            (s[0] as u32) | ((s[1] as u32) << 8u32) | ((s[2] as u32) << 16u32) | ((s[3] as u32)
                << 24u32),
        ),
        DataTypeSize::DoubleWord => DataType::DoubleWord(
            (s[0] as u64) | ((s[1] as u64) << 8u64) | ((s[2] as u64) << 16u64) | ((s[3] as u64)
                << 24u64) | ((s[4] as u64) << 32u64) | ((s[5] as u64) << 40u64) | ((s[6] as u64)
                << 48u64) | ((s[7] as u64) << 56u64),
        ),
    }
}

/// Decoding the little-endian bytes of a value gives the value back.
pub proof fn lemma_le_round_trip(d: DataType)
    ensures
        le_bytes(d).len() == d.size_class().width(),
        from_le(d.size_class(), le_bytes(d)) == d,
{
    match d {
        DataType::Byte(b) => {},
        DataType::Halfword(h) => {
            assert(((h as u8) as u16) | ((((h >> 8u16) as u8) as u16) << 8u16) == h) by (bit_vector);
        },
        DataType::Word(w) => {
            assert(((w as u8) as u32) | ((((w >> 8u32) as u8) as u32) << 8u32) | ((((w >> 16u32)
                as u8) as u32) << 16u32) | ((((w >> 24u32) as u8) as u32) << 24u32) == w)
                by (bit_vector);
        },
        DataType::DoubleWord(x) => {
            assert(((x as u8) as u64) | ((((x >> 8u64) as u8) as u64) << 8u64) | ((((x >> 16u64)
                as u8) as u64) << 16u64) | ((((x >> 24u64) as u8) as u64) << 24u64) | ((((x
                >> 32u64) as u8) as u64) << 32u64) | ((((x >> 40u64) as u8) as u64) << 40u64) | ((((x
                >> 48u64) as u8) as u64) << 48u64) | ((((x >> 56u64) as u8) as u64) << 56u64) == x)
                by (bit_vector);
        },
    }
}

} // verus!
