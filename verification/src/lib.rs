use vstd::prelude::*;

pub mod addr;
pub mod b64;
pub mod healthcheck;
pub mod ledger;
pub mod path_check;
pub mod presence;
pub mod provider;
pub mod score;
pub mod store;
pub mod topology;

verus! {

/// Number of characters in a stored-message filename inside a mailbox
/// directory.
pub const STORED_MESSAGE_FILENAME_LENGTH: usize = 16;

/// Greatest number of stored messages handed back by one retrieval request.
pub const MESSAGE_RETRIEVAL_LIMIT: usize = 5;

/// Copies a byte vector.
pub fn bytes_dup(v: &Vec<u8>) -> (r: Vec<u8>)
    ensures
        r@ == v@,
{
    let mut r: Vec<u8> = Vec::new();
    let mut i: usize = 0;
    while i < v.len()
        invariant
            i <= v@.len(),
            r@ == v@.take(i as int),
        decreases v@.len() - i,
    {
        r.push(v[i]);
        i = i + 1;
        assert(r@ =~= v@.take(i as int));
    }
    proof {
        assert(v@.take(v@.len() as int) =~= v@);
    }
    r
}

/// The client banner: the name art with the version line filled in.
pub fn banner(version: &str) -> (r: String)
    ensures
        r@ == "\n\n      _ __  _   _ _ __ ___\n     | '_ \\| | | | '_ \\ _ \\\n     | | | | |_| | | | | | |\n     |_| |_|\\__, |_| |_| |_|\n            |___/\n\n             (client - version "@
            + version@ + ")\n\n    "@,
{
    let mut s = String::new();
    s.append(
        "\n\n      _ __  _   _ _ __ ___\n     | '_ \\| | | | '_ \\ _ \\\n     | | | | |_| | | | | | |\n     |_| |_|\\__, |_| |_| |_|\n            |___/\n\n             (client - version ",
    );
    s.append(version);
    s.append(")\n\n    ");
    s
}

/// The banner followed by a short usage hint.
pub fn usage(version: &str) -> (r: String)
    ensures
        r@ == "\n\n      _ __  _   _ _ __ ___\n     | '_ \\| | | | '_ \\ _ \\\n     | | | | |_| | | | | | |\n     |_| |_|\\__, |_| |_| |_|\n            |___/\n\n             (client - version "@
            + version@ + ")\n\n    "@ + "usage: --help to see available options.\n\n"@,
{
    let mut s = banner(version);
    s.append("usage: --help to see available options.\n\n");
    s
}

/// Whether two byte vectors hold the same bytes.
pub fn bytes_eq(a: &Vec<u8>, b: &Vec<u8>) -> (r: bool)
    ensures
        r == (a@ == b@),
{
    if a.len() != b.len() {
        return false;
    }
    let mut i: usize = 0;
    while i < a.len()
        invariant
            i <= a@.len(),
            a@.len() == b@.len(),
            forall|j: int| 0 <= j < i ==> a@[j] == b@[j],
        decreases a@.len() - i,
    {
        if a[i] != b[i] {
            return false;
        }
        i = i + 1;
    }
    proof {
        assert(a@ =~= b@);
    }
    true
}

} // verus!
