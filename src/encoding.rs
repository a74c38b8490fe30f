use vstd::prelude::*;

pub mod read;
pub mod write;

verus! {

/// The codec kinds of the compression header's encoding tables.
#[derive(Clone, Copy, Debug, PartialEq, Eq, Structural)]
pub enum Kind {
    Null,
    External,
    Golomb,
    Huffman,
    ByteArrayLength,
    ByteArrayStop,
    Beta,
    Subexp,
    GolombRice,
    Gamma,
    VarintUnsigned,
    VarintSigned,
    ConstByte,
    ConstInt,
}

/// The code of each kind on the wire.
pub open spec fn kind_code(k: Kind) -> int {
    match k {
        Kind::Null => 0,
        Kind::External => 1,
        Kind::Golomb => 2,
        Kind::Huffman => 3,
        Kind::ByteArrayLength => 4,
        Kind::ByteArrayStop => 5,
        Kind::Beta => 6,
        Kind::Subexp => 7,
        Kind::GolombRice => 8,
        Kind::Gamma => 9,
        Kind::VarintUnsigned => 41,
        Kind::VarintSigned => 42,
        Kind::ConstByte => 43,
        Kind::ConstInt => 44,
    }
}

/// The kind with wire code `n`, if any.
pub open spec fn kind_of_code(n: int) -> Option<Kind> {
    if n == 0 {
        Some(Kind::Null)
    } else if n == 1 {
        Some(Kind::External)
    } else if n == 2 {
        Some(Kind::Golomb)
    } else if n == 3 {
        Some(Kind::Huffman)
    } else if n == 4 {
        Some(Kind::ByteArrayLength)
    } else if n == 5 {
        Some(Kind::ByteArrayStop)
    } else if n == 6 {
        Some(Kind::Beta)
    } else if n == 7 {
        Some(Kind::Subexp)
    } else if n == 8 {
        Some(Kind::GolombRice)
    } else if n == 9 {
        Some(Kind::Gamma)
    } else if n == 41 {
        Some(Kind::VarintUnsigned)
    } else if n == 42 {
        Some(Kind::VarintSigned)
    } else if n == 43 {
        Some(Kind::ConstByte)
    } else if n == 44 {
        Some(Kind::ConstInt)
    } else {
        None
    }
}

/// The kinds that only CRAM 4.0 and later know.
pub open spec fn is_v4_kind(k: Kind) -> bool {
    k == Kind::VarintUnsigned || k == Kind::VarintSigned || k == Kind::ConstByte || k
        == Kind::ConstInt
}

/// Codecs of integer data series.
#[derive(Clone, Debug, PartialEq, Eq)]
pub enum Integer {
    External { block_content_id: i32 },
    Golomb { offset: i32, m: i32 },
    Huffman { alphabet: Vec<i32>, bit_lens: Vec<u32> },
    Beta { offset: i32, len: u32 },
    Subexp { offset: i32, k: i32 },
    GolombRice { offset: i32, log2_m: i32 },
    Gamma { offset: i32 },
    VarintUnsigned { block_content_id: i32, offset: i64 },
    VarintSigned { block_content_id: i32, offset: i64 },
    ConstInt { value: i32 },
}

/// Codecs of byte data series.
#[derive(Clone, Debug, PartialEq, Eq)]
pub enum Byte {
    External { block_content_id: i32 },
    Huffman { alphabet: Vec<i32>, bit_lens: Vec<u32> },
    Constant { value: u8 },
}

/// Codecs of byte-array data series.
#[derive(Clone, Debug, PartialEq, Eq)]
pub enum ByteArray {
    ByteArrayLength { len_encoding: Encoding<Integer>, value_encoding: Encoding<Byte> },
    ByteArrayStop { stop_byte: u8, block_content_id: i32 },
}

/// An encoding: the codec a data series is written with.
#[derive(Clone, Debug, PartialEq, Eq)]
pub struct Encoding<C> {
    pub codec: C,
}

impl<C> Encoding<C> {
    pub fn new(codec: C) -> (r: Encoding<C>)
        ensures
            r.codec == codec,
    {
        Encoding { codec }
    }

    pub fn get(&self) -> (r: &C)
        ensures
            *r == self.codec,
    {
        &self.codec
    }
}

/// The mathematical content of an integer codec.
pub enum IntegerModel {
    External(int),
    Golomb(int, int),
    Huffman(Seq<i32>, Seq<u32>),
    Beta(int, int),
    Subexp(int, int),
    GolombRice(int, int),
    Gamma(int),
    VarintUnsigned(int, int),
    VarintSigned(int, int),
    ConstInt(int),
}

/// The mathematical content of a byte codec.
pub enum ByteModel {
    External(int),
    Huffman(Seq<i32>, Seq<u32>),
    Constant(u8),
}

/// The mathematical content of a byte-array codec.
pub enum ByteArrayModel {
    ByteArrayLength(IntegerModel, ByteModel),
    ByteArrayStop(u8, int),
}

impl View for Integer {
    type V = IntegerModel;

    open spec fn view(&self) -> IntegerModel {
        match self {
            Integer::External { block_content_id } => IntegerModel::External(
                *block_content_id as int,
            ),
            Integer::Golomb { offset, m } => IntegerModel::Golomb(*offset as int, *m as int),
            Integer::Huffman { alphabet, bit_lens } => IntegerModel::Huffman(alphabet@, bit_lens@),
            Integer::Beta { offset, len } => IntegerModel::Beta(*offset as int, *len as int),
            Integer::Subexp { offset, k } => IntegerModel::Subexp(*offset as int, *k as int),
            Integer::GolombRice { offset, log2_m } => IntegerModel::GolombRice(
                *offset as int,
                *log2_m as int,
            ),
            Integer::Gamma { offset } => IntegerModel::Gamma(*offset as int),
            Integer::VarintUnsigned { block_content_id, offset } => IntegerModel::VarintUnsigned(
                *block_content_id as int,
                *offset as int,
            ),
            Integer::VarintSigned { block_content_id, offset } => IntegerModel::VarintSigned(
                *block_content_id as int,
                *offset as int,
            ),
            Integer::ConstInt { value } => IntegerModel::ConstInt(*value as int),
        }
    }
}

impl View for Byte {
    type V = ByteModel;

    open spec fn view(&self) -> ByteModel {
        match self {
            Byte::External { block_content_id } => ByteModel::External(*block_content_id as int),
            Byte::Huffman { alphabet, bit_lens } => ByteModel::Huffman(alphabet@, bit_lens@),
            Byte::Constant { value } => ByteModel::Constant(*value),
        }
    }
}

impl View for ByteArray {
    type V = ByteArrayModel;

    open spec fn view(&self) -> ByteArrayModel {
        match self {
            ByteArray::ByteArrayLength { len_encoding, value_encoding } => {
                ByteArrayModel::ByteArrayLength(len_encoding.codec@, value_encoding.codec@)
            },
            ByteArray::ByteArrayStop { stop_byte, block_content_id } => ByteArrayModel::ByteArrayStop(
                *stop_byte,
                *block_content_id as int,
            ),
        }
    }
}

impl Integer {
    /// A Huffman codec over `alphabet` with the given code lengths.
    pub fn huffman(alphabet: Vec<i32>, bit_lens: Vec<u32>) -> (r: Integer)
        ensures
            r@ == IntegerModel::Huffman(alphabet@, bit_lens@),
    {
        Integer::Huffman { alphabet, bit_lens }
    }
}

impl Byte {
    /// A Huffman codec over `alphabet` with the given code lengths.
    pub fn huffman(alphabet: Vec<i32>, bit_lens: Vec<u32>) -> (r: Byte)
        ensures
            r@ == ByteModel::Huffman(alphabet@, bit_lens@),
    {
        Byte::Huffman { alphabet, bit_lens }
    }
}

} // verus!
