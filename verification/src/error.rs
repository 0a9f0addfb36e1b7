//! Error types.

use vstd::prelude::*;
use vstd::string::StringExecFns;
use crate::text::{decimal, push_decimal, push_signed_decimal, signed_decimal};

verus! {

/// The fatal errors of a burn: an invalid grid or buffer. Everything else
/// is reported per geometry in the result's notes.
#[derive(Clone, Debug, PartialEq, Eq)]
pub enum BurnError {
    /// `ncol` or `nrow` is zero, or the extent is empty or inverted.
    InvalidGrid(String),
    /// `materialize` was given a buffer of the wrong length or invalid dimensions.
    InvalidBuffer(String),
    /// `materialize` saw a geometry id beyond the supplied values.
    IdOutOfRange { id: i32, values: usize },
}

/// A WKB parse failure.
#[derive(Clone, Copy, Debug, PartialEq, Eq, Structural)]
pub enum WkbError {
    /// Fewer than the five bytes of a header.
    TooShort,
    /// A byte-order flag other than 0 or 1.
    BadByteOrder(u8),
    /// The data ended while a read needed more; `at` is the read position.
    Truncated { at: usize },
    /// A part of a multi-geometry has the wrong base type.
    MismatchedPart { found: u32 },
    /// Base type 7.
    GeometryCollection,
    /// Any other base type.
    Unsupported { type_code: u32 },
}

/// A geometry collection, which has no place in the output tables.
#[derive(Clone, Copy, Debug, PartialEq, Eq, Structural)]
pub struct GeometryCollectionError;

/// The text of a WKB error.
pub open spec fn wkb_message(e: WkbError) -> Seq<char> {
    match e {
        WkbError::TooShort => "WKB too short"@,
        WkbError::BadByteOrder(_) => "WKB invalid byte order flag"@,
        WkbError::Truncated { at } => "WKB truncated at byte "@ + decimal(at as nat),
        WkbError::MismatchedPart { found } => "WKB multi-geometry contains mismatched part type "@ + decimal(
            found as nat,
        ),
        WkbError::GeometryCollection =>
            "GeometryCollection is not supported (mixed dimensions break weight semantics); split into homogeneous groups"@,
        WkbError::Unsupported { type_code } => "WKB unsupported geometry type "@ + decimal(type_code as nat)
            + " (curved types must be linearised upstream)"@,
    }
}

/// The text of a burn error.
pub open spec fn burn_message(e: BurnError) -> Seq<char> {
    match e {
        BurnError::InvalidGrid(m) => "invalid grid: "@ + m@,
        BurnError::InvalidBuffer(m) => "materialize: "@ + m@,
        BurnError::IdOutOfRange { id, values } => "materialize: geometry id "@ + signed_decimal(id as int)
            + " exceeds values size "@ + decimal(values as nat),
    }
}

impl WkbError {
    /// The message text of the error.
    pub fn message(&self) -> (s: String)
        ensures
            s@ == wkb_message(*self),
    {
        match self {
            WkbError::TooShort => "WKB too short".to_owned(),
            WkbError::BadByteOrder(_) => "WKB invalid byte order flag".to_owned(),
            WkbError::Truncated { at } => {
                let mut s = "WKB truncated at byte ".to_owned();
                push_decimal(&mut s, *at as u64);
                s
            },
            WkbError::MismatchedPart { found } => {
                let mut s = "WKB multi-geometry contains mismatched part type ".to_owned();
                push_decimal(&mut s, *found as u64);
                s
            },
            WkbError::GeometryCollection => {
                "GeometryCollection is not supported (mixed dimensions break weight semantics); split into homogeneous groups".to_owned()
            },
            WkbError::Unsupported { type_code } => {
                let mut s = "WKB unsupported geometry type ".to_owned();
                push_decimal(&mut s, *type_code as u64);
                s.append(" (curved types must be linearised upstream)");
                s
            },
        }
    }
}

impl BurnError {
    /// The message text of the error.
    pub fn message(&self) -> (s: String)
        ensures
            s@ == burn_message(*self),
    {
        match self {
            BurnError::InvalidGrid(m) => {
                let mut s = "invalid grid: ".to_owned();
                s.append(m.as_str());
                s
            },
            BurnError::InvalidBuffer(m) => {
                let mut s = "materialize: ".to_owned();
                s.append(m.as_str());
                s
            },
            BurnError::IdOutOfRange { id, values } => {
                let mut s = "materialize: geometry id ".to_owned();
                push_signed_decimal(&mut s, *id as i64);
                s.append(" exceeds values size ");
                push_decimal(&mut s, *values as u64);
                s
            },
        }
    }
}

impl GeometryCollectionError {
    /// The message text of the error.
    pub fn message(&self) -> (s: String)
        ensures
            s@ == "GeometryCollection is not supported; split into homogeneous groups"@,
    {
        "GeometryCollection is not supported; split into homogeneous groups".to_owned()
    }
}

} // verus!
