//! The errors of packing and unpacking, each a kind with a message.

use vstd::prelude::*;
use vstd::string::StringExecFns;

verus! {

/// Why a value could not be packed.
#[derive(Debug)]
pub enum CompressError {
    /// The value's magnitude is above the declared bound.
    Overflow(String),
    /// Anything else.
    Unknown(String),
    /// An odd number was given to a packer of even numbers.
    NotEven(String),
    /// A number could not be written as a numeral.
    EncodeErr(String),
    /// The type has no packing of the kind that was asked for.
    DataNoSupported(String),
}

/// The kind of a [`CompressError`], without its message.
#[derive(Debug, Clone, Copy, PartialEq, Eq, Structural)]
pub enum CompressErrorKind {
    /// The value's magnitude is above the declared bound.
    Overflow,
    /// Anything else.
    Unknown,
    /// An odd number was given to a packer of even numbers.
    NotEven,
    /// A number could not be written as a numeral.
    EncodeErr,
    /// The type has no packing of the kind that was asked for.
    DataNoSupported,
}

impl CompressError {
    /// The kind of this error.
    pub open spec fn spec_kind(&self) -> CompressErrorKind {
        match self {
            CompressError::Overflow(_) => CompressErrorKind::Overflow,
            CompressError::Unknown(_) => CompressErrorKind::Unknown,
            CompressError::NotEven(_) => CompressErrorKind::NotEven,
            CompressError::EncodeErr(_) => CompressErrorKind::EncodeErr,
            CompressError::DataNoSupported(_) => CompressErrorKind::DataNoSupported,
        }
    }

    /// The message of this error.
    pub open spec fn spec_message(&self) -> Seq<char> {
        match self {
            CompressError::Overflow(s) => s@,
            CompressError::Unknown(s) => s@,
            CompressError::NotEven(s) => s@,
            CompressError::EncodeErr(s) => s@,
            CompressError::DataNoSupported(s) => s@,
        }
    }

    /// The message that [`CompressError::create`] gives an error of this kind
    /// whose detail is `detail`.
    pub open spec fn full_message(kind: CompressErrorKind, detail: Seq<char>) -> Seq<char> {
        match kind {
            CompressErrorKind::Overflow => "Compress Error; Number overflow; "@ + detail,
            CompressErrorKind::NotEven => "Compress Error; Number is not even; given:"@ + detail,
            CompressErrorKind::EncodeErr => detail,
            CompressErrorKind::Unknown => detail,
            CompressErrorKind::DataNoSupported =>
                "Primitive data type is not supported for using this function"@,
        }
    }

    /// The kind of this error.
    #[verifier::when_used_as_spec(spec_kind)]
    pub fn kind(&self) -> (k: CompressErrorKind)
        ensures
            k == self.spec_kind(),
    {
        match self {
            CompressError::Overflow(_) => CompressErrorKind::Overflow,
            CompressError::Unknown(_) => CompressErrorKind::Unknown,
            CompressError::NotEven(_) => CompressErrorKind::NotEven,
            CompressError::EncodeErr(_) => CompressErrorKind::EncodeErr,
            CompressError::DataNoSupported(_) => CompressErrorKind::DataNoSupported,
        }
    }

    /// The message of this error.
    pub fn message(&self) -> (m: String)
        ensures
            m@ == self.spec_message(),
    {
        match self {
            CompressError::Overflow(s) => s.clone(),
            CompressError::Unknown(s) => s.clone(),
            CompressError::NotEven(s) => s.clone(),
            CompressError::EncodeErr(s) => s.clone(),
            CompressError::DataNoSupported(s) => s.clone(),
        }
    }

    /// Completes an error that holds only a detail: the kind stays, and the
    /// message becomes the kind's heading followed by the detail.
    pub fn create(self) -> (r: Self)
        ensures
            r.spec_kind() == self.spec_kind(),
            r.spec_message() == Self::full_message(self.spec_kind(), self.spec_message()),
    {
        match self {
            CompressError::Overflow(s) => {
                let mut m = String::from_str("Compress Error; Number overflow; ");
                m.append(s.as_str());
                CompressError::Overflow(m)
            },
            CompressError::NotEven(s) => {
                let mut m = String::from_str("Compress Error; Number is not even; given:");
                m.append(s.as_str());
                CompressError::NotEven(m)
            },
            CompressError::EncodeErr(s) => CompressError::EncodeErr(s),
            CompressError::Unknown(s) => CompressError::Unknown(s),
            CompressError::DataNoSupported(_) => CompressError::DataNoSupported(
                String::from_str("Primitive data type is not supported for using this function"),
            ),
        }
    }
}

impl CompressError {
    /// The error of a value above its bound: `given` names the value and
    /// `max_num` the bound.
    pub fn overflow(given: &str, max_num: &str) -> (e: Self)
        ensures
            e.spec_kind() == CompressErrorKind::Overflow,
            e.spec_message() == Self::full_message(
                CompressErrorKind::Overflow,
                "given: "@ + given@ + ", max-num: "@ + max_num@,
            ),
    {
        let mut detail = String::from_str("given: ");
        detail.append(given);
        detail.append(", max-num: ");
        detail.append(max_num);
        CompressError::create(CompressError::Overflow(detail))
    }

    /// The error of an odd number where an even one is asked for.
    pub fn not_even(given: &str) -> (e: Self)
        ensures
            e.spec_kind() == CompressErrorKind::NotEven,
            e.spec_message() == Self::full_message(CompressErrorKind::NotEven, given@),
    {
        CompressError::create(CompressError::NotEven(String::from_str(given)))
    }

    /// The error of a type that has no packing of the kind asked for.
    pub fn not_supported() -> (e: Self)
        ensures
            e.spec_kind() == CompressErrorKind::DataNoSupported,
            e.spec_message() == Self::full_message(
                CompressErrorKind::DataNoSupported,
                Seq::empty(),
            ),
    {
        CompressError::create(CompressError::DataNoSupported(String::new()))
    }
}

/// Why a bit stream could not be unpacked.
#[derive(Debug)]
pub enum DecompressError {
    /// Fewer bits or bytes are left than a width or a length prefix asks for.
    WrongBytesLength(String),
    /// A group of bits does not denote a number of the target type.
    BinariesToIntErr(String),
    /// Anything else.
    Unknown(String),
    /// The bytes of a blob are not what the byte compressor wrote.
    FromBytesErr(String),
    /// A sign or continuation marker is neither 0 nor 1.
    FromBinariesErr(String),
    /// The type cannot be unpacked without a description of its layout.
    PrimitiveDataErr(String),
}

/// The kind of a [`DecompressError`], without its message.
#[derive(Debug, Clone, Copy, PartialEq, Eq, Structural)]
pub enum DecompressErrorKind {
    /// Fewer bits or bytes are left than a width or a length prefix asks for.
    WrongBytesLength,
    /// A group of bits does not denote a number of the target type.
    BinariesToIntErr,
    /// Anything else.
    Unknown,
    /// The bytes of a blob are not what the byte compressor wrote.
    FromBytesErr,
    /// A sign or continuation marker is neither 0 nor 1.
    FromBinariesErr,
    /// The type cannot be unpacked without a description of its layout.
    PrimitiveDataErr,
}

impl DecompressError {
    /// The kind of this error.
    pub open spec fn spec_kind(&self) -> DecompressErrorKind {
        match self {
            DecompressError::WrongBytesLength(_) => DecompressErrorKind::WrongBytesLength,
            DecompressError::BinariesToIntErr(_) => DecompressErrorKind::BinariesToIntErr,
            DecompressError::Unknown(_) => DecompressErrorKind::Unknown,
            DecompressError::FromBytesErr(_) => DecompressErrorKind::FromBytesErr,
            DecompressError::FromBinariesErr(_) => DecompressErrorKind::FromBinariesErr,
            DecompressError::PrimitiveDataErr(_) => DecompressErrorKind::PrimitiveDataErr,
        }
    }

    /// The message of this error.
    pub open spec fn spec_message(&self) -> Seq<char> {
        match self {
            DecompressError::WrongBytesLength(s) => s@,
            DecompressError::BinariesToIntErr(s) => s@,
            DecompressError::Unknown(s) => s@,
            DecompressError::FromBytesErr(s) => s@,
            DecompressError::FromBinariesErr(s) => s@,
            DecompressError::PrimitiveDataErr(s) => s@,
        }
    }

    /// The message that [`DecompressError::create`] gives an error of this
    /// kind whose detail is `detail`.
    pub open spec fn full_message(kind: DecompressErrorKind, detail: Seq<char>) -> Seq<char> {
        match kind {
            DecompressErrorKind::WrongBytesLength => "Decompress Error; Wrong bytes length; "@
                + detail,
            DecompressErrorKind::BinariesToIntErr =>
                "Decompress Error; Error parsing the binaries given to integer; "@ + detail,
            DecompressErrorKind::FromBytesErr =>
                "Parsing err: the vector given cannot be parse into a Compressed Bytes"@,
            DecompressErrorKind::FromBinariesErr =>
                "Parsin err: the vector given cannot be parsed into a Compressed Binaries"@,
            DecompressErrorKind::Unknown => detail,
            DecompressErrorKind::PrimitiveDataErr =>
                "Primitive data type is not supported for using this function"@,
        }
    }

    /// The kind of this error.
    #[verifier::when_used_as_spec(spec_kind)]
    pub fn kind(&self) -> (k: DecompressErrorKind)
        ensures
            k == self.spec_kind(),
    {
        match self {
            DecompressError::WrongBytesLength(_) => DecompressErrorKind::WrongBytesLength,
            DecompressError::BinariesToIntErr(_) => DecompressErrorKind::BinariesToIntErr,
            DecompressError::Unknown(_) => DecompressErrorKind::Unknown,
            DecompressError::FromBytesErr(_) => DecompressErrorKind::FromBytesErr,
            DecompressError::FromBinariesErr(_) => DecompressErrorKind::FromBinariesErr,
            DecompressError::PrimitiveDataErr(_) => DecompressErrorKind::PrimitiveDataErr,
        }
    }

    /// The message of this error.
    pub fn message(&self) -> (m: String)
        ensures
            m@ == self.spec_message(),
    {
        match self {
            DecompressError::WrongBytesLength(s) => s.clone(),
            DecompressError::BinariesToIntErr(s) => s.clone(),
            DecompressError::Unknown(s) => s.clone(),
            DecompressError::FromBytesErr(s) => s.clone(),
            DecompressError::FromBinariesErr(s) => s.clone(),
            DecompressError::PrimitiveDataErr(s) => s.clone(),
        }
    }

    /// Completes an error that holds only a detail: the kind stays, and the
    /// message becomes the kind's heading followed by the detail.
    pub fn create(self) -> (r: Self)
        ensures
            r.spec_kind() == self.spec_kind(),
            r.spec_message() == Self::full_message(self.spec_kind(), self.spec_message()),
    {
        match self {
            DecompressError::WrongBytesLength(s) => {
                let mut m = String::from_str("Decompress Error; Wrong bytes length; ");
                m.append(s.as_str());
                DecompressError::WrongBytesLength(m)
            },
            DecompressError::BinariesToIntErr(s) => {
                let mut m = String::from_str(
                    "Decompress Error; Error parsing the binaries given to integer; ",
                );
                m.append(s.as_str());
                DecompressError::BinariesToIntErr(m)
            },
            DecompressError::FromBytesErr(_) => DecompressError::FromBytesErr(
                String::from_str(
                    "Parsing err: the vector given cannot be parse into a Compressed Bytes",
                ),
            ),
            DecompressError::FromBinariesErr(_) => DecompressError::FromBinariesErr(
                String::from_str(
                    "Parsin err: the vector given cannot be parsed into a Compressed Binaries",
                ),
            ),
            DecompressError::Unknown(s) => DecompressError::Unknown(s),
            DecompressError::PrimitiveDataErr(_) => DecompressError::PrimitiveDataErr(
                String::from_str("Primitive data type is not supported for using this function"),
            ),
        }
    }
}

impl DecompressError {
    /// The error of too few bits or bytes, with `detail` as its detail.
    pub fn wrong_length(detail: &str) -> (e: Self)
        ensures
            e.spec_kind() == DecompressErrorKind::WrongBytesLength,
            e.spec_message() == Self::full_message(DecompressErrorKind::WrongBytesLength, detail@),
    {
        DecompressError::create(DecompressError::WrongBytesLength(String::from_str(detail)))
    }

    /// The error of a group of bits that denotes no number of the target
    /// type: `given` shows the group.
    pub fn not_a_number(given: &str) -> (e: Self)
        ensures
            e.spec_kind() == DecompressErrorKind::BinariesToIntErr,
            e.spec_message() == Self::full_message(
                DecompressErrorKind::BinariesToIntErr,
                "Binaries given: "@ + given@,
            ),
    {
        let mut detail = String::from_str("Binaries given: ");
        detail.append(given);
        DecompressError::create(DecompressError::BinariesToIntErr(detail))
    }

    /// The error of a sign or continuation marker that is neither 0 nor 1.
    pub fn bad_marker() -> (e: Self)
        ensures
            e.spec_kind() == DecompressErrorKind::FromBinariesErr,
            e.spec_message() == Self::full_message(
                DecompressErrorKind::FromBinariesErr,
                Seq::empty(),
            ),
    {
        DecompressError::create(DecompressError::FromBinariesErr(String::new()))
    }

    /// The error of a type that cannot be unpacked without a description of
    /// its layout.
    pub fn not_supported() -> (e: Self)
        ensures
            e.spec_kind() == DecompressErrorKind::PrimitiveDataErr,
            e.spec_message() == Self::full_message(
                DecompressErrorKind::PrimitiveDataErr,
                Seq::empty(),
            ),
    {
        DecompressError::create(DecompressError::PrimitiveDataErr(String::new()))
    }
}

} // verus!
