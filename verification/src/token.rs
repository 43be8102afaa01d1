//! The token: a UUID, of which the codec reads and writes the sixteen bytes.

use uuid::Uuid;
use vstd::prelude::*;

verus! {

/// `uuid::Uuid`, carried through as an opaque value.
#[verifier::external_type_specification]
#[verifier::external_body]
pub struct ExUuid(uuid::Uuid);

/// `uuid::Error`, carried through as an opaque value.
#[verifier::external_type_specification]
#[verifier::external_body]
pub struct ExUuidError(uuid::Error);

/// The sixteen bytes that a UUID holds, in order.
pub uninterp spec fn uuid_octets(uuid: Uuid) -> Seq<u8>;

/// `Uuid::as_bytes` hands out the array that the UUID holds: its bytes are
/// the octets of the UUID.
pub assume_specification[ Uuid::as_bytes ](uuid: &Uuid) -> (bytes: &uuid::Bytes)
    ensures
        bytes@ == uuid_octets(*uuid),
;

/// `Uuid::from_slice` accepts a slice of exactly sixteen bytes, and the UUID
/// that it makes holds these bytes; any other length is an error.
pub assume_specification[ Uuid::from_slice ](b: &[u8]) -> (made: Result<Uuid, uuid::Error>)
    ensures
        made is Ok <==> b@.len() == 16,
        made is Ok ==> uuid_octets(made->Ok_0) == b@,
;

/// `Uuid::new_v4` makes a random UUID; nothing is claimed of its value. It
/// draws from the random source of the operating system and panics if that
/// source fails, which no condition on the caller can rule out.
pub assume_specification[ Uuid::new_v4 ]() -> (uuid: Uuid)
;

} // verus!
