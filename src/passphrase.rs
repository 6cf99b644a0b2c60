use vstd::prelude::*;
use vstd::string::StringExecFns;

verus! {

/// A secret byte string: a passphrase, or a buffer that holds one.
///
/// It cannot be cloned. `release` overwrites the bytes with zeros before the buffer is
/// freed, so every path that finishes with a secret should end in `release`.
pub struct Passphrase {
    bytes: Vec<u8>,
}

impl Passphrase {
    pub closed spec fn view(&self) -> Seq<u8> {
        self.bytes@
    }

    /// Takes ownership of `bytes` as a secret.
    pub fn new(bytes: Vec<u8>) -> (r: Passphrase)
        ensures
            r@ == bytes@,
    {
        Passphrase { bytes }
    }

    pub fn as_bytes(&self) -> (r: &[u8])
        ensures
            r@ == self@,
    {
        self.bytes.as_slice()
    }

    /// Overwrites every byte of the secret with zero, keeping its length.
    pub fn scrub(&mut self)
        ensures
            final(self)@ == Seq::new(old(self)@.len(), |_i: int| 0u8),
    {
        zeroize_bytes(self.bytes.as_mut_slice());
    }

    /// Scrubs the secret and frees it.
    pub fn release(self) {
        let mut s = self;
        s.scrub();
    }
}

/// Relies on zeroize's `Zeroize` impl for `[u8]`: it writes zero to every element with
/// volatile writes, so the compiler cannot drop them, and keeps the length.
#[verifier::external_body]
fn zeroize_bytes(b: &mut [u8])
    ensures
        final(b)@ == Seq::new(old(b)@.len(), |_i: int| 0u8),
{
    zeroize::Zeroize::zeroize(b)
}

/// The hyphenated lower-case text of a UUID.
pub uninterp spec fn hyphenated(id: u128) -> Seq<char>;

/// Relies on uuid's `Uuid::from_u128` and its `Display`, which writes the hyphenated
/// lower-case form: 36 characters.
#[verifier::external_body]
fn uuid_text(id: u128) -> (r: String)
    ensures
        r@ == hyphenated(id),
        r@.len() == 36,
{
    uuid::Uuid::from_u128(id).to_string()
}

pub open spec fn prompt_spec(name: Seq<char>) -> Seq<char> {
    "Enter passphrase for "@ + name + ": "@
}

/// The prompt shown to the operator for the filesystem written as `name`.
pub fn prompt_text(name: &str) -> (r: String)
    ensures
        r@ == prompt_spec(name@),
{
    let mut s = String::from_str("Enter passphrase for ");
    s.append(name);
    s.append(": ");
    s
}

/// The prompt shown to the operator for the filesystem `id`.
pub fn passphrase_prompt(id: u128) -> (r: String)
    ensures
        r@ == prompt_spec(hyphenated(id)),
{
    let name = uuid_text(id);
    prompt_text(name.as_str())
}

} // verus!
