//! A small record type identified by a string id, for use as a node state.

use uuid::Uuid;
use vstd::prelude::*;

verus! {

/// The text of a version 4 UUID as `Uuid`'s `Display` writes it: 36
/// characters, hyphens at 8, 13, 18 and 23, the version digit `4` at 14, and
/// lowercase hexadecimal digits elsewhere.
pub open spec fn is_uuid_v4_text(text: Seq<char>) -> bool {
    &&& text.len() == 36
    &&& text[8] == '-' && text[13] == '-' && text[18] == '-' && text[23] == '-'
    &&& text[14] == '4'
    &&& forall|i: int|
        0 <= i < 36 && i != 8 && i != 13 && i != 18 && i != 23 ==> (('0' <= #[trigger] text[i]
            && text[i] <= '9') || ('a' <= text[i] && text[i] <= 'f'))
}

/// `Uuid::new_v4`, written out by `ToString`: a fresh random UUID as text.
/// Claimed: the text has the hyphenated lowercase shape of a version 4 UUID.
/// Which UUID comes out is random and not stated.
#[verifier::external_body]
fn random_uuid_text() -> (text: String)
    ensures
        is_uuid_v4_text(text@),
{
    Uuid::new_v4().to_string()
}

/// A record identified by `id`.
#[derive(PartialOrd, Ord, Eq, PartialEq, Hash, Clone, Debug)]
pub struct TestStruct {
    pub id: String,
}

impl TestStruct {
    /// A record with the given id.
    pub fn new(id: String) -> (test_struct: Self)
        ensures
            test_struct.id@ == id@,
    {
        TestStruct { id }
    }

    /// A record whose id is a fresh random version 4 UUID.
    pub fn new_random() -> (test_struct: Self)
        ensures
            is_uuid_v4_text(test_struct.id@),
    {
        TestStruct { id: random_uuid_text() }
    }
}

} // verus!
