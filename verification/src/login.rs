use vstd::prelude::*;

use vstd::string::StringExecFns;

verus! {

/// What the hex-encoded SHA-256 digest of a byte sequence is.  The value
/// depends on the bytes alone; nothing in this crate states what it is.
pub uninterp spec fn sha256_hex_of(data: Seq<u8>) -> Seq<char>;

/// The credential check's reference value: the hex SHA-256 digest of the
/// UTF-8 bytes of password ∥ salt.
pub open spec fn salted_digest(password: Seq<char>, salt: Seq<char>) -> Seq<char> {
    sha256_hex_of(vstd::utf8::encode_utf8(password + salt))
}

/// Relies on crypto_hash::hex_digest with Algorithm::SHA256: the
/// hex-encoded SHA-256 digest of the bytes, 64 hex characters determined by
/// the bytes alone.
#[verifier::external_body]
fn sha256_hex(data: &[u8]) -> (r: String)
    ensures
        r@ == sha256_hex_of(data@),
        r@.len() == 64,
{
    crypto_hash::hex_digest(crypto_hash::Algorithm::SHA256, data)
}

/// One credential: a salt and the hex SHA-256 digest of password ∥ salt.
pub struct Login {
    pub salt: String,
    pub digest: String,
}

impl Login {
    pub fn new(salt: String, digest: String) -> (l: Login)
        ensures
            l.salt == salt,
            l.digest == digest,
    {
        Login { salt, digest }
    }

    /// Whether the password matches this credential: its salted digest
    /// equals the stored one.
    pub fn verify(&self, password: &str) -> (r: bool)
        ensures
            r == (salted_digest(password@, self.salt@) == self.digest@),
    {
        let combined = password.to_owned().concat(self.salt.as_str());
        let bytes: &[u8] = combined.as_str().as_bytes();
        let hex = sha256_hex(bytes);
        hex == self.digest
    }
}

/// The first credential stored under the login name, if any.
pub open spec fn spec_lookup(entries: Seq<(String, Login)>, name: Seq<char>) -> Option<Login>
    decreases entries.len(),
{
    if entries.len() == 0 {
        None
    } else if entries[0].0@ == name {
        Some(entries[0].1)
    } else {
        spec_lookup(entries.drop_first(), name)
    }
}

/// When the first `i` entries miss the name, the lookup result is decided
/// by the rest.
proof fn lemma_lookup_skip(entries: Seq<(String, Login)>, name: Seq<char>, i: int)
    requires
        0 <= i <= entries.len(),
        forall|j: int| 0 <= j < i ==> #[trigger] entries[j].0@ != name,
    ensures
        spec_lookup(entries, name) == spec_lookup(entries.skip(i), name),
    decreases i,
{
    if i > 0 {
        assert(entries.skip(i - 1).drop_first() =~= entries.skip(i));
        assert(entries.skip(i - 1)[0] == entries[i - 1]);
        lemma_lookup_skip(entries, name, i - 1);
    } else {
        assert(entries.skip(0) =~= entries);
    }
}

/// Whether the password matches the credential stored under the login
/// name; false for an unknown name.
pub open spec fn login_ok(
    entries: Seq<(String, Login)>,
    login: Seq<char>,
    password: Seq<char>,
) -> bool {
    match spec_lookup(entries, login) {
        Some(l) => salted_digest(password, l.salt@) == l.digest@,
        None => false,
    }
}

/// The credential store: login names and their credentials, in the order
/// the store listed them; a lookup takes the first match.
pub struct Logins {
    logins: Vec<(String, Login)>,
}

impl Logins {
    /// The stored entries.
    pub closed spec fn entries(&self) -> Seq<(String, Login)> {
        self.logins@
    }

    pub fn new(logins: Vec<(String, Login)>) -> (r: Logins)
        ensures
            r.entries() == logins@,
    {
        Logins { logins }
    }

    /// Whether the password matches the credential stored under the login
    /// name; false for an unknown name.
    pub fn verify_login(&self, login: &str, password: &str) -> (r: bool)
        ensures
            r == login_ok(self.entries(), login@, password@),
    {
        let n = self.logins.len();
        let mut i: usize = 0;
        while i < n
            invariant
                n == self.entries().len(),
                i <= n,
                forall|j: int| 0 <= j < i ==> #[trigger] self.entries()[j].0@ != login@,
            decreases n - i,
        {
            let name: &String = &self.logins[i].0;
            if *name == login.to_owned() {
                proof {
                    lemma_lookup_skip(self.entries(), login@, i as int);
                    assert(self.entries().skip(i as int)[0] == self.entries()[i as int]);
                }
                return self.logins[i].1.verify(password);
            }
            i += 1;
        }
        proof {
            lemma_lookup_skip(self.entries(), login@, n as int);
            assert(self.entries().skip(n as int) =~= Seq::<(String, Login)>::empty());
        }
        false
    }
}

} // verus!
