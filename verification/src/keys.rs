//! Keys for internal nodes.

use vstd::prelude::*;
use rand::distributions::Alphanumeric;
use rand::Rng;

verus! {

/// An ASCII letter or digit.
pub open spec fn is_alphanumeric(c: char) -> bool {
    ('0' <= c && c <= '9') || ('A' <= c && c <= 'Z') || ('a' <= c && c <= 'z')
}

/// `keys` are `count` keys as they are drawn: ten letters or digits each.
pub open spec fn drawn(keys: Seq<String>, count: int) -> bool {
    &&& keys.len() == count
    &&& forall|j: int|
        0 <= j < keys.len() ==> {
            &&& (#[trigger] keys[j])@.len() == 10
            &&& forall|i: int| 0 <= i < 10 ==> is_alphanumeric(#[trigger] keys[j]@[i])
        }
}

/// A key drawn at random: ten characters sampled by `rand`'s `Alphanumeric`
/// from the thread-local generator `thread_rng`. Not proved here, but taken
/// from that crate: there are ten characters, each an ASCII letter or digit.
/// Which ones is left open, and two draws may well agree. The generator
/// panics if the system gives it no seed.
#[verifier::external_body]
pub(crate) fn gen_key() -> (key: String)
    ensures
        key@.len() == 10,
        forall|i: int| 0 <= i < 10 ==> is_alphanumeric(#[trigger] key@[i]),
{
    rand::thread_rng().sample_iter(&Alphanumeric).take(10).map(char::from).collect::<String>()
}

} // verus!
