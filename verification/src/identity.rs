//! Document identity: a deterministic 128-bit identifier derived from the
//! document's bytes, used for cache keys and display, never for parsing.

use vstd::prelude::*;

use uuid::Uuid;

use crate::lookup::MappingView;
use crate::stream::ProguardMapping;

verus! {

#[verifier::external_type_specification]
#[verifier::external_body]
pub struct ExUuid(Uuid);

/// The identifier that the two-stage name-based derivation assigns to a
/// document: a function of the document's bytes alone.
pub uninterp spec fn document_uuid_of(bytes: Seq<u8>) -> Uuid;

/// Relies on `uuid::Uuid::new_v5`, the name-based SHA-1 UUID of RFC 9562:
/// the result is a pure function of the namespace and the name bytes, so the
/// derived identifier depends on the document's bytes alone. The first stage
/// names the mapping format's organisational domain; the second hashes the
/// document under that namespace.
#[verifier::external_body]
fn derive_document_uuid(source: &[u8]) -> (r: Uuid)
    ensures
        r == document_uuid_of(source@),
{
    let namespace = Uuid::new_v5(&Uuid::NAMESPACE_DNS, b"guardsquare.com");
    Uuid::new_v5(&namespace, source)
}

impl<'s> ProguardMapping<'s> {
    /// Calculates the identifying UUID of the mapping file.
    pub fn uuid(&self) -> (r: Uuid)
        ensures
            r == document_uuid_of(self@),
    {
        derive_document_uuid(self.source_slice())
    }
}

impl<'a> MappingView<'a> {
    /// Returns the identifying UUID of the mapping file.
    pub fn uuid(&self) -> (r: Uuid)
        ensures
            r == document_uuid_of(self@),
    {
        derive_document_uuid(self.source_slice())
    }
}

} // verus!
