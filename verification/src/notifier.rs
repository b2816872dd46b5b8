use vstd::prelude::*;

verus! {

/// The bytes a kill request writes into the lock file: the ASCII letters of
/// the word "kill".
pub open spec fn spec_kill_sentinel() -> Seq<u8> {
    seq![107u8, 105u8, 108u8, 108u8]
}

/// Builds the kill sentinel.  No session token has this shape (tokens are
/// 16 bytes), so after it is written every polling notifier instance
/// observes a mismatch and exits.
pub fn kill_sentinel() -> (r: Vec<u8>)
    ensures
        r@ == spec_kill_sentinel(),
{
    let mut v: Vec<u8> = Vec::new();
    v.push(107);
    v.push(105);
    v.push(108);
    v.push(108);
    proof {
        assert(v@ =~= spec_kill_sentinel());
    }
    v
}

/// Relies on `uuid::Uuid::new_v4` and `Uuid::as_bytes`: a fresh version-4
/// UUID is 16 bytes drawn from a random source, so only its length is
/// promised.
#[verifier::external_body]
fn fresh_uuid_bytes() -> (r: Vec<u8>)
    ensures
        r@.len() == 16,
{
    uuid::Uuid::new_v4().as_bytes().to_vec()
}

/// Mints the session token a freshly spawned notifier instance writes into
/// the lock file and is handed along: 16 random bytes.
pub fn generate_token() -> (r: Vec<u8>)
    ensures
        r@.len() == 16,
{
    fresh_uuid_bytes()
}

/// The lock file's contents as the polling loop sees them: `None` when the
/// file does not exist.
pub open spec fn contents_view(c: Option<Vec<u8>>) -> Option<Seq<u8>> {
    match c {
        Some(bytes) => Some(bytes@),
        None => None,
    }
}

/// The polling loop's hand-off decision: an instance exits as soon as the
/// lock file exists with contents other than its own token (last writer
/// wins); a missing lock file keeps it polling.
pub open spec fn spec_should_exit(lock_contents: Option<Seq<u8>>, token: Seq<u8>) -> bool {
    match lock_contents {
        Some(bytes) => bytes != token,
        None => false,
    }
}

/// Byte-for-byte equality of two byte vectors.
fn bytes_equal(a: &Vec<u8>, b: &Vec<u8>) -> (r: bool)
    ensures
        r == (a@ == b@),
{
    if a.len() != b.len() {
        return false;
    }
    let n = a.len();
    let mut i: usize = 0;
    while i < n
        invariant
            i <= n,
            n == a@.len(),
            n == b@.len(),
            forall|k: int| 0 <= k < i ==> a@[k] == b@[k],
        decreases n - i,
    {
        if a[i] != b[i] {
            return false;
        }
        i += 1;
    }
    proof {
        assert(a@ =~= b@);
    }
    true
}

/// Whether a notifier instance holding `token` must exit, given what it
/// read from the lock file (`None` when the file does not exist).
pub fn notifier_should_exit(lock_contents: &Option<Vec<u8>>, token: &Vec<u8>) -> (r: bool)
    ensures
        r == spec_should_exit(contents_view(*lock_contents), token@),
{
    match lock_contents {
        Some(bytes) => !bytes_equal(bytes, token),
        None => false,
    }
}

/// A kill always supersedes: the sentinel differs from every session token
/// (4 bytes against 16), so an instance that reads it exits.
pub proof fn lemma_kill_sentinel_supersedes(token: Seq<u8>)
    requires
        token.len() == 16,
    ensures
        spec_should_exit(Some(spec_kill_sentinel()), token),
{
    assert(spec_kill_sentinel().len() == 4);
}

} // verus!
