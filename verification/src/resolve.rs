//! Type mapping resolver: from a column's declared schema to the buffer
//! layout the transcoding engine allocates for it.
//!
//! The mapping is a closed table; every combination outside it is a
//! configuration error reported before any row moves, never a panic
//! mid-batch.

use vstd::prelude::*;

verus! {

/// The declared semantic type of a column.
#[derive(Clone, Copy, Debug, PartialEq, Eq, Structural)]
pub enum LogicalKind {
    NoLogical,
    Utf8,
    MapType,
    MapKeyValue,
    List,
    Enumeration,
    Decimal,
    Date,
    TimeMillis,
    TimeMicros,
    TimestampMillis,
    TimestampMicros,
    Uint8,
    Uint16,
    Uint32,
    Uint64,
    Int8,
    Int16,
    Int32,
    Int64,
    Json,
    Bson,
    Interval,
}

/// The physical storage type of a column.
#[derive(Clone, Copy, Debug, PartialEq, Eq, Structural)]
pub enum PhysicalKind {
    Boolean,
    Int32,
    Int64,
    Int96,
    Float,
    Double,
    ByteArray,
    FixedLenByteArray,
}

/// One column of the source or target schema.
#[derive(Clone, Debug)]
pub struct ColumnDescriptor {
    pub name: String,
    pub primitive: bool,
    pub nullable: bool,
    pub logical: LogicalKind,
    pub physical: PhysicalKind,
    pub type_length: i32,
    pub precision: i32,
    pub scale: i32,
}

/// The slot a column's values occupy in the batch buffer.
#[derive(Clone, Copy, Debug, PartialEq, Eq, Structural)]
pub enum SlotKind {
    Bit,
    I32,
    I64,
    F32,
    F64,
    FixedText { max_len: usize },
    FixedBinary { len: usize },
}

/// Derived buffer layout of one column: immutable for the whole job.
#[derive(Clone, Copy, Debug, PartialEq, Eq, Structural)]
pub struct BufferLayout {
    pub slot_kind: SlotKind,
    pub nullable: bool,
}

/// A schema that cannot be resolved; surfaced before any row is read.
#[derive(Clone, Copy, Debug, PartialEq, Eq, Structural)]
pub enum ConfigError {
    /// The column is not a primitive type.
    UnsupportedType,
    /// The pair of logical and physical type is outside the closed table.
    UnexpectedCombination,
    /// A fixed-length column declares a negative length.
    InvalidLength,
    /// The combination is in the table but not implemented yet.
    NotYetSupported(LogicalKind),
}

/// Default capacity for variable-length text when no length is declared.
pub open spec fn spec_default_text_len() -> nat {
    128
}

/// The closed mapping table: what layout a column resolves to, or which
/// configuration error it raises.
pub open spec fn spec_resolve(c: ColumnDescriptor) -> Result<BufferLayout, ConfigError> {
    if !c.primitive {
        Err(ConfigError::UnsupportedType)
    } else if c.logical == LogicalKind::Utf8 && c.physical == PhysicalKind::ByteArray {
        Ok(
            BufferLayout {
                slot_kind: SlotKind::FixedText { max_len: spec_default_text_len() as usize },
                nullable: c.nullable,
            },
        )
    } else if c.logical == LogicalKind::Utf8 && c.physical == PhysicalKind::FixedLenByteArray {
        if c.type_length < 0 {
            Err(ConfigError::InvalidLength)
        } else {
            Ok(
                BufferLayout {
                    slot_kind: SlotKind::FixedText { max_len: c.type_length as usize },
                    nullable: c.nullable,
                },
            )
        }
    } else if c.logical == LogicalKind::Utf8 {
        Err(ConfigError::UnexpectedCombination)
    } else if c.logical == LogicalKind::Int64 && c.physical == PhysicalKind::Int64 {
        Ok(BufferLayout { slot_kind: SlotKind::I64, nullable: c.nullable })
    } else {
        Err(ConfigError::NotYetSupported(c.logical))
    }
}

/// Resolves one column against the closed mapping table.
pub fn parquet_type_to_odbc_buffer_desc(c: &ColumnDescriptor) -> (r: Result<
    BufferLayout,
    ConfigError,
>)
    ensures
        r == spec_resolve(*c),
{
    if !c.primitive {
        return Err(ConfigError::UnsupportedType);
    }
    match (c.logical, c.physical) {
        (LogicalKind::Utf8, PhysicalKind::ByteArray) => Ok(
            BufferLayout { slot_kind: SlotKind::FixedText { max_len: 128 }, nullable: c.nullable },
        ),
        (LogicalKind::Utf8, PhysicalKind::FixedLenByteArray) => {
            if c.type_length < 0 {
                Err(ConfigError::InvalidLength)
            } else {
                Ok(
                    BufferLayout {
                        slot_kind: SlotKind::FixedText { max_len: c.type_length as usize },
                        nullable: c.nullable,
                    },
                )
            }
        },
        (LogicalKind::Utf8, _) => Err(ConfigError::UnexpectedCombination),
        (LogicalKind::Int64, PhysicalKind::Int64) => Ok(
            BufferLayout { slot_kind: SlotKind::I64, nullable: c.nullable },
        ),
        _ => Err(ConfigError::NotYetSupported(c.logical)),
    }
}

/// Resolves a whole schema up front, so a job fails on an unsupported
/// column before it opens any output or reads any row. On failure, reports
/// the first offending column's index together with its error.
pub fn resolve_schema(schema: &Vec<ColumnDescriptor>) -> (r: Result<
    Vec<BufferLayout>,
    (usize, ConfigError),
>)
    ensures
        r is Ok <==> (forall|i: int|
            0 <= i < schema@.len() ==> (#[trigger] spec_resolve(schema@[i])) is Ok),
        (match r {
            Ok(layouts) => layouts@.len() == schema@.len() && forall|i: int|
                0 <= i < schema@.len() ==> #[trigger] layouts@[i] == spec_resolve(
                    schema@[i],
                ).unwrap(),
            Err((at, e)) => at < schema@.len() && spec_resolve(schema@[at as int]) == Err::<
                BufferLayout,
                ConfigError,
            >(e) && forall|i: int| 0 <= i < at ==> (#[trigger] spec_resolve(schema@[i])) is Ok,
        }),
{
    let mut layouts: Vec<BufferLayout> = Vec::new();
    let mut i: usize = 0;
    while i < schema.len()
        invariant
            i <= schema@.len(),
            layouts@.len() == i,
            forall|j: int| 0 <= j < i ==> (#[trigger] spec_resolve(schema@[j])) is Ok,
            forall|j: int|
                0 <= j < i ==> #[trigger] layouts@[j] == spec_resolve(schema@[j]).unwrap(),
        decreases schema@.len() - i,
    {
        match parquet_type_to_odbc_buffer_desc(&schema[i]) {
            Ok(layout) => {
                layouts.push(layout);
            },
            Err(e) => {
                return Err((i, e));
            },
        }
        i = i + 1;
    }
    Ok(layouts)
}

/// Resolution is a pure function of the descriptor: the same column always
/// yields the same buffer layout, so resolving twice changes nothing.
pub proof fn lemma_resolve_idempotent(c1: ColumnDescriptor, c2: ColumnDescriptor)
    requires
        c1 == c2,
    ensures
        spec_resolve(c1) == spec_resolve(c2),
{
}

} // verus!
