//! Element types of the tensors carried by the protocol.
use vstd::prelude::*;

verus! {

/// Why a message could not be built or read.
#[derive(Debug, Clone, Copy, PartialEq, Eq, Structural)]
pub enum ProtocolError {
    /// The element type on the wire is not one the schema knows.
    UnknownDtype,
    /// A route entry is not the encoding of a peer.
    InvalidPeerId,
    /// The bytes are not a well-formed message.
    Malformed,
    /// A list is too long for its length field.
    TooLarge,
}

/// Element type of a tensor.
#[derive(Debug, Clone, Copy, PartialEq, Eq, Structural)]
pub enum Dtype {
    F16,
    BF16,
    F32,
}

/// The element-type enumeration as the message schema numbers it.
#[derive(Debug, Clone, Copy, PartialEq, Eq, Structural)]
pub enum SchemaDtype {
    F16,
    Bf16,
    F32,
}

/// The number the schema gives each element type.
pub open spec fn schema_code(d: SchemaDtype) -> u16 {
    match d {
        SchemaDtype::F16 => 0,
        SchemaDtype::Bf16 => 1,
        SchemaDtype::F32 => 2,
    }
}

/// The element type a schema number stands for, or the number itself when
/// the schema has none.
pub open spec fn schema_from_code(code: u16) -> Result<SchemaDtype, u16> {
    if code == 0 {
        Ok(SchemaDtype::F16)
    } else if code == 1 {
        Ok(SchemaDtype::Bf16)
    } else if code == 2 {
        Ok(SchemaDtype::F32)
    } else {
        Err(code)
    }
}

/// The schema type of a tensor element type.
pub open spec fn spec_to_schema(d: Dtype) -> SchemaDtype {
    match d {
        Dtype::F16 => SchemaDtype::F16,
        Dtype::BF16 => SchemaDtype::Bf16,
        Dtype::F32 => SchemaDtype::F32,
    }
}

/// The tensor element type of a schema type.
pub open spec fn spec_from_schema(d: SchemaDtype) -> Dtype {
    match d {
        SchemaDtype::F16 => Dtype::F16,
        SchemaDtype::Bf16 => Dtype::BF16,
        SchemaDtype::F32 => Dtype::F32,
    }
}

/// The element type whose wire number is `code`, if there is one.
pub open spec fn dtype_of_code(code: u16) -> Option<Dtype> {
    match schema_from_code(code) {
        Ok(d) => Some(spec_from_schema(d)),
        Err(_) => None,
    }
}

/// The wire number of an element type.
pub open spec fn code_of_dtype(d: Dtype) -> u16 {
    schema_code(spec_to_schema(d))
}

/// Bytes per element.
pub open spec fn spec_element_size(d: Dtype) -> usize {
    match d {
        Dtype::F16 | Dtype::BF16 => 2,
        Dtype::F32 => 4,
    }
}

impl SchemaDtype {
    /// The number of this type on the wire.
    pub fn code(self) -> (r: u16)
        ensures
            r == schema_code(self),
    {
        match self {
            SchemaDtype::F16 => 0,
            SchemaDtype::Bf16 => 1,
            SchemaDtype::F32 => 2,
        }
    }

    /// The type numbered `code`, or `Err(code)` when the schema has none.
    pub fn from_code(code: u16) -> (r: Result<SchemaDtype, u16>)
        ensures
            r == schema_from_code(code),
    {
        if code == 0 {
            Ok(SchemaDtype::F16)
        } else if code == 1 {
            Ok(SchemaDtype::Bf16)
        } else if code == 2 {
            Ok(SchemaDtype::F32)
        } else {
            Err(code)
        }
    }
}

impl Dtype {
    pub fn to_capnp(self) -> (r: SchemaDtype)
        ensures
            r == spec_to_schema(self),
    {
        match self {
            Dtype::F16 => SchemaDtype::F16,
            Dtype::BF16 => SchemaDtype::Bf16,
            Dtype::F32 => SchemaDtype::F32,
        }
    }

    pub fn from_capnp(cd: SchemaDtype) -> (r: Dtype)
        ensures
            r == spec_from_schema(cd),
    {
        match cd {
            SchemaDtype::F16 => Dtype::F16,
            SchemaDtype::Bf16 => Dtype::BF16,
            SchemaDtype::F32 => Dtype::F32,
        }
    }

    /// The element type read off the wire; a number outside the schema is
    /// `UnknownDtype`.
    pub fn from_capnp_res(cd: Result<SchemaDtype, u16>) -> (r: Result<Dtype, ProtocolError>)
        ensures
            match cd {
                Ok(d) => r == Ok::<Dtype, ProtocolError>(spec_from_schema(d)),
                Err(_) => r == Err::<Dtype, ProtocolError>(ProtocolError::UnknownDtype),
            },
    {
        match cd {
            Ok(d) => Ok(Self::from_capnp(d)),
            Err(_) => Err(ProtocolError::UnknownDtype),
        }
    }

    pub fn element_size(&self) -> (r: usize)
        ensures
            r == spec_element_size(*self),
    {
        match self {
            Dtype::F16 | Dtype::BF16 => 2,
            Dtype::F32 => 4,
        }
    }

    /// The element type whose wire number is `code`.
    pub fn from_code(code: u16) -> (r: Result<Dtype, ProtocolError>)
        ensures
            match dtype_of_code(code) {
                Some(d) => r == Ok::<Dtype, ProtocolError>(d),
                None => r == Err::<Dtype, ProtocolError>(ProtocolError::UnknownDtype),
            },
    {
        Self::from_capnp_res(SchemaDtype::from_code(code))
    }

    /// The wire number of this element type.
    pub fn code(self) -> (r: u16)
        ensures
            r == code_of_dtype(self),
    {
        self.to_capnp().code()
    }
}

/// Converting to the schema and back gives the element type again, and the
/// wire number of every element type reads back as that type.
pub proof fn lemma_dtype_schema_roundtrip(d: Dtype)
    ensures
        spec_from_schema(spec_to_schema(d)) == d,
        dtype_of_code(code_of_dtype(d)) == Some(d),
{
}

/// Converting from the schema and back gives the schema type again.
pub proof fn lemma_schema_dtype_roundtrip(s: SchemaDtype)
    ensures
        spec_to_schema(spec_from_schema(s)) == s,
        schema_from_code(schema_code(s)) == Ok::<SchemaDtype, u16>(s),
{
}

} // verus!
