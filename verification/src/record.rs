//! The typed outcome of classifying one line of a mapping file, and the
//! mathematical models that the contracts speak of.

use vstd::prelude::*;

use crate::LineMapping;

verus! {

/// Model of a method record: every token as the byte sequence it covers.
pub struct MethodModel {
    /// Return type of the method.
    pub ty: Seq<u8>,
    /// Original (unqualified) name of the method.
    pub original: Seq<u8>,
    /// Obfuscated name of the method.
    pub obfuscated: Seq<u8>,
    /// Raw comma-joined argument text between the parentheses.
    pub arguments: Seq<u8>,
    /// Original class of a foreign inlined method.
    pub original_class: Option<Seq<u8>>,
    /// Line mapping, present exactly when the line carried a leading
    /// range with a positive start.
    pub line_mapping: Option<LineMapping>,
}

/// Model of one classified line.
pub enum RecordModel {
    /// A header line.
    Header { key: Seq<u8>, value: Option<Seq<u8>> },
    /// A class mapping line.
    Class { original: Seq<u8>, obfuscated: Seq<u8> },
    /// A field mapping line.
    Field { ty: Seq<u8>, original: Seq<u8>, obfuscated: Seq<u8> },
    /// A method mapping line.
    Method(MethodModel),
}

/// A record parsed from one line of a mapping file.
///
/// Every byte field borrows from the line it was parsed from.
#[derive(Debug, PartialEq, Eq, Clone, Copy)]
pub enum MappingRecord<'s> {
    /// A header.
    Header {
        /// The key of the header.
        key: &'s [u8],
        /// Optional value if the header is a key-value pair.
        value: Option<&'s [u8]>,
    },
    /// A class mapping.
    Class {
        /// Original name of the class.
        original: &'s [u8],
        /// Obfuscated name of the class.
        obfuscated: &'s [u8],
    },
    /// A field mapping.
    Field {
        /// Type of the field.
        ty: &'s [u8],
        /// Original name of the field.
        original: &'s [u8],
        /// Obfuscated name of the field.
        obfuscated: &'s [u8],
    },
    /// A method mapping.
    Method {
        /// Return type of the method.
        ty: &'s [u8],
        /// Original name of the method.
        original: &'s [u8],
        /// Obfuscated name of the method.
        obfuscated: &'s [u8],
        /// Arguments of the method as raw comma-joined text.
        arguments: &'s [u8],
        /// Original class of a foreign inlined method.
        original_class: Option<&'s [u8]>,
        /// Optional line mapping of the method.
        line_mapping: Option<LineMapping>,
    },
}

impl<'s> View for MappingRecord<'s> {
    type V = RecordModel;

    open spec fn view(&self) -> RecordModel {
        match *self {
            MappingRecord::Header { key, value } => RecordModel::Header {
                key: key@,
                value: match value {
                    Some(v) => Some(v@),
                    None => None,
                },
            },
            MappingRecord::Class { original, obfuscated } => RecordModel::Class {
                original: original@,
                obfuscated: obfuscated@,
            },
            MappingRecord::Field { ty, original, obfuscated } => RecordModel::Field {
                ty: ty@,
                original: original@,
                obfuscated: obfuscated@,
            },
            MappingRecord::Method { ty, original, obfuscated, arguments, original_class, line_mapping } => RecordModel::Method(
                MethodModel {
                    ty: ty@,
                    original: original@,
                    obfuscated: obfuscated@,
                    arguments: arguments@,
                    original_class: match original_class {
                        Some(c) => Some(c@),
                        None => None,
                    },
                    line_mapping,
                },
            ),
        }
    }
}

} // verus!
