//! The registered-client ledger: an authentication token per client
//! destination, consulted on retrieval and published with the provider's
//! presence.

use vstd::prelude::*;
use crate::{bytes_dup, bytes_eq};
use crate::b64::{b64url_encode, b64url_of};
use crate::presence::{MixProviderClient, RegisteredClientV};
use crate::topology::{seq_views, lemma_seq_views_push};

verus! {

/// An opaque bearer credential binding a client to its mailbox.  The
/// provider derives it deterministically from its secret key and the
/// client's key; to the ledger it is plain bytes.
pub struct AuthToken {
    bytes: Vec<u8>,
}

impl View for AuthToken {
    type V = Seq<u8>;

    closed spec fn view(&self) -> Seq<u8> {
        self.bytes@
    }
}

impl AuthToken {
    /// Wraps token bytes.
    pub fn from_bytes(bytes: Vec<u8>) -> (r: AuthToken)
        ensures
            r@ == bytes@,
    {
        AuthToken { bytes }
    }

    /// The token's bytes.
    pub fn as_bytes(&self) -> (r: &Vec<u8>)
        ensures
            r@ == self@,
    {
        &self.bytes
    }

    /// A structural copy of the token.
    pub fn duplicate(&self) -> (r: AuthToken)
        ensures
            r@ == self@,
    {
        AuthToken { bytes: bytes_dup(&self.bytes) }
    }

    /// Whether two tokens hold the same bytes.
    pub fn eq_token(&self, other: &AuthToken) -> (r: bool)
        ensures
            r == (self@ == other@),
    {
        bytes_eq(&self.bytes, &other.bytes)
    }
}

/// The index of the first ledger entry bearing the given token.
pub open spec fn token_index(s: Seq<(Seq<u8>, Seq<u8>)>, token: Seq<u8>) -> Option<int>
    decreases s.len(),
{
    if s.len() == 0 {
        None
    } else if s.first().0 == token {
        Some(0)
    } else {
        match token_index(s.drop_first(), token) {
            Some(i) => Some(i + 1),
            None => None,
        }
    }
}

/// The index of the first ledger entry for the given destination.
pub open spec fn destination_index(s: Seq<(Seq<u8>, Seq<u8>)>, dest: Seq<u8>) -> Option<int>
    decreases s.len(),
{
    if s.len() == 0 {
        None
    } else if s.first().1 == dest {
        Some(0)
    } else {
        match destination_index(s.drop_first(), dest) {
            Some(i) => Some(i + 1),
            None => None,
        }
    }
}

/// What `token_index` finds: the first entry with that token, or none.
pub proof fn lemma_token_index(s: Seq<(Seq<u8>, Seq<u8>)>, token: Seq<u8>)
    ensures
        match token_index(s, token) {
            None => forall|j: int| 0 <= j < s.len() ==> (#[trigger] s[j]).0 != token,
            Some(i) => 0 <= i < s.len() && s[i].0 == token && (forall|j: int|
                0 <= j < i ==> (#[trigger] s[j]).0 != token),
        },
    decreases s.len(),
{
    if s.len() > 0 && s.first().0 != token {
        lemma_token_index(s.drop_first(), token);
        assert forall|j: int| 1 <= j < s.len() implies s.drop_first()[j - 1] == s[j] by {}
    }
}

/// What `destination_index` finds.
pub proof fn lemma_destination_index(s: Seq<(Seq<u8>, Seq<u8>)>, dest: Seq<u8>)
    ensures
        match destination_index(s, dest) {
            None => forall|j: int| 0 <= j < s.len() ==> (#[trigger] s[j]).1 != dest,
            Some(i) => 0 <= i < s.len() && s[i].1 == dest && (forall|j: int|
                0 <= j < i ==> (#[trigger] s[j]).1 != dest),
        },
    decreases s.len(),
{
    if s.len() > 0 && s.first().1 != dest {
        lemma_destination_index(s.drop_first(), dest);
        assert forall|j: int| 1 <= j < s.len() implies s.drop_first()[j - 1] == s[j] by {}
    }
}

/// Derives the bearer token a registering client is granted: a value
/// deterministic in the provider's secret and the client's address, here
/// their bytewise exclusive-or.  The deployment derivation is an
/// identity-keyed construction of an outside cryptography library; the
/// ledger's guarantees rest only on the determinism, which this stand-in
/// shares.
pub fn derive_token(secret: &Vec<u8>, client_address: &Vec<u8>) -> (r: AuthToken)
    requires
        secret@.len() == 32,
        client_address@.len() == 32,
    ensures
        r@ == Seq::new(32, |i: int| secret@[i] ^ client_address@[i]),
{
    let mut bytes: Vec<u8> = Vec::new();
    let mut i: usize = 0;
    while i < 32
        invariant
            i <= 32,
            secret@.len() == 32,
            client_address@.len() == 32,
            bytes@.len() == i,
            forall|j: int| 0 <= j < i ==> bytes@[j] == (secret@[j] ^ client_address@[j]),
        decreases 32 - i,
    {
        bytes.push(secret[i] ^ client_address[i]);
        i = i + 1;
    }
    proof {
        assert(bytes@ =~= Seq::new(32, |i: int| secret@[i] ^ client_address@[i]));
    }
    AuthToken::from_bytes(bytes)
}

/// Registering is idempotent per destination: once a destination is in the
/// ledger under a token, any later registration of it finds that entry and
/// gets the same token back, whatever token it offers.
pub proof fn lemma_register_idempotent(l0: Seq<(Seq<u8>, Seq<u8>)>, dest: Seq<u8>, token: Seq<u8>)
    requires
        destination_index(l0, dest) is None,
    ensures
        destination_index(l0.push((token, dest)), dest) == Some(l0.len() as int),
        l0.push((token, dest))[l0.len() as int].0 == token,
    decreases l0.len(),
{
    lemma_destination_index(l0, dest);
    let l1 = l0.push((token, dest));
    if l0.len() == 0 {
        assert(l1.first().1 == dest);
    } else {
        assert(l1.first() == l0.first());
        assert(l0.first().1 != dest);
        assert(l1.drop_first() =~= l0.drop_first().push((token, dest)));
        assert(destination_index(l0.drop_first(), dest) is None) by {
            lemma_destination_index(l0.drop_first(), dest);
            let di = destination_index(l0.drop_first(), dest);
            if di is Some {
                let i = di->Some_0;
                assert(l0.drop_first()[i] == l0[i + 1]);
                lemma_destination_index(l0, dest);
            }
        }
        lemma_register_idempotent(l0.drop_first(), dest, token);
    }
}

/// The ledger: a sequence of `(token, destination)` pairs, in registration
/// order.  Entries are created on registration and never removed during a
/// process lifetime.
pub struct ClientLedger {
    entries: Vec<(AuthToken, Vec<u8>)>,
}

impl View for ClientLedger {
    type V = Seq<(Seq<u8>, Seq<u8>)>;

    closed spec fn view(&self) -> Seq<(Seq<u8>, Seq<u8>)> {
        self.entries@.map_values(|e: (AuthToken, Vec<u8>)| (e.0@, e.1@))
    }
}

impl ClientLedger {
    /// An empty ledger.
    pub fn new() -> (r: ClientLedger)
        ensures
            r@ == Seq::<(Seq<u8>, Seq<u8>)>::empty(),
    {
        let r = ClientLedger { entries: Vec::new() };
        proof {
            assert(r@ =~= Seq::<(Seq<u8>, Seq<u8>)>::empty());
        }
        r
    }

    /// Whether some entry bears the given token.
    pub fn has_token(&self, auth_token: &AuthToken) -> (r: bool)
        ensures
            r == (token_index(self@, auth_token@) is Some),
    {
        proof {
            lemma_token_index(self@, auth_token@);
        }
        let mut j: usize = 0;
        while j < self.entries.len()
            invariant
                j <= self.entries@.len(),
                forall|q: int| 0 <= q < j ==> (#[trigger] self@[q]).0 != auth_token@,
            decreases self.entries@.len() - j,
        {
            if self.entries[j].0.eq_token(auth_token) {
                proof {
                    assert(self@[j as int].0 == auth_token@);
                    lemma_token_index(self@, auth_token@);
                }
                return true;
            }
            proof {
                assert(self@[j as int] == (self.entries@[j as int].0@, self.entries@[j as int].1@));
            }
            j = j + 1;
        }
        proof {
            lemma_token_index(self@, auth_token@);
        }
        false
    }

    /// The destination registered under the given token.
    pub fn lookup_token(&self, auth_token: &AuthToken) -> (r: Option<Vec<u8>>)
        ensures
            match token_index(self@, auth_token@) {
                None => r is None,
                Some(i) => r matches Some(d) && d@ == self@[i].1,
            },
    {
        proof {
            lemma_token_index(self@, auth_token@);
        }
        let mut j: usize = 0;
        while j < self.entries.len()
            invariant
                j <= self.entries@.len(),
                forall|q: int| 0 <= q < j ==> (#[trigger] self@[q]).0 != auth_token@,
            decreases self.entries@.len() - j,
        {
            if self.entries[j].0.eq_token(auth_token) {
                proof {
                    assert(self@[j as int].0 == auth_token@);
                    lemma_token_index(self@, auth_token@);
                    let i = token_index(self@, auth_token@)->Some_0;
                    if i < j {
                        assert(self@[i].0 != auth_token@);
                    }
                    assert(i == j);
                }
                return Some(bytes_dup(&self.entries[j].1));
            }
            proof {
                assert(self@[j as int] == (self.entries@[j as int].0@, self.entries@[j as int].1@));
            }
            j = j + 1;
        }
        proof {
            lemma_token_index(self@, auth_token@);
        }
        None
    }

    /// Records a destination under a token, as a map insertion keyed by the
    /// token: an entry already bearing the token is overwritten and its old
    /// destination returned.
    pub fn insert_token(&mut self, auth_token: AuthToken, client_address: Vec<u8>) -> (r: Option<
        Vec<u8>,
    >)
        ensures
            match token_index(old(self)@, auth_token@) {
                None => final(self)@ == old(self)@.push((auth_token@, client_address@)) && r
                    is None,
                Some(i) => final(self)@ == old(self)@.update(i, (auth_token@, client_address@))
                    && (r matches Some(d) && d@ == old(self)@[i].1),
            },
    {
        proof {
            lemma_token_index(self@, auth_token@);
        }
        let mut j: usize = 0;
        while j < self.entries.len()
            invariant
                j <= self.entries@.len(),
                *self == *old(self),
                forall|q: int| 0 <= q < j ==> (#[trigger] self@[q]).0 != auth_token@,
            decreases self.entries@.len() - j,
        {
            if self.entries[j].0.eq_token(&auth_token) {
                proof {
                    assert(self@[j as int].0 == auth_token@);
                    lemma_token_index(self@, auth_token@);
                    let i = token_index(self@, auth_token@)->Some_0;
                    if i < j {
                        assert(self@[i].0 != auth_token@);
                    }
                    assert(i == j);
                }
                let previous = self.entries.remove(j);
                self.entries.insert(j, (auth_token, client_address));
                proof {
                    assert(self.entries@ =~= old(self).entries@.update(
                        j as int,
                        self.entries@[j as int],
                    ));
                    assert(self@ =~= old(self)@.update(
                        j as int,
                        (auth_token@, client_address@),
                    ));
                }
                return Some(previous.1);
            }
            proof {
                assert(self@[j as int] == (self.entries@[j as int].0@, self.entries@[j as int].1@));
            }
            j = j + 1;
        }
        proof {
            lemma_token_index(self@, auth_token@);
        }
        self.entries.push((auth_token, client_address));
        proof {
            assert(self@ =~= old(self)@.push(
                (self.entries@.last().0@, self.entries@.last().1@),
            ));
        }
        None
    }

    /// Registers a client destination: a destination already registered
    /// keeps its ledger entry and gets its original token back, so
    /// registering twice returns the same token; a new destination is
    /// recorded under the offered token.
    pub fn register_client(&mut self, client_address: Vec<u8>, token: AuthToken) -> (r: AuthToken)
        ensures
            match destination_index(old(self)@, client_address@) {
                Some(i) => final(self)@ == old(self)@ && r@ == old(self)@[i].0,
                None => final(self)@ == old(self)@.push((token@, client_address@)) && r@
                    == token@,
            },
    {
        proof {
            lemma_destination_index(self@, client_address@);
        }
        let mut j: usize = 0;
        while j < self.entries.len()
            invariant
                j <= self.entries@.len(),
                *self == *old(self),
                forall|q: int| 0 <= q < j ==> (#[trigger] self@[q]).1 != client_address@,
            decreases self.entries@.len() - j,
        {
            if bytes_eq(&self.entries[j].1, &client_address) {
                proof {
                    assert(self@[j as int].1 == client_address@);
                    lemma_destination_index(self@, client_address@);
                    let i = destination_index(self@, client_address@)->Some_0;
                    if i < j {
                        assert(self@[i].1 != client_address@);
                    }
                    assert(i == j);
                }
                return self.entries[j].0.duplicate();
            }
            proof {
                assert(self@[j as int] == (self.entries@[j as int].0@, self.entries@[j as int].1@));
            }
            j = j + 1;
        }
        proof {
            lemma_destination_index(self@, client_address@);
        }
        let r = token.duplicate();
        self.entries.push((token, client_address));
        proof {
            assert(self@ =~= old(self)@.push(
                (self.entries@.last().0@, self.entries@.last().1@),
            ));
        }
        r
    }

    /// One presence record per registered destination, in ledger order,
    /// each carrying the destination key base64-url encoded.
    pub fn current_clients(&self) -> (r: Vec<MixProviderClient>)
        ensures
            seq_views(r@) == self@.map_values(
                |e: (Seq<u8>, Seq<u8>)| RegisteredClientV { pub_key: b64url_of(e.1) },
            ),
    {
        let mut r: Vec<MixProviderClient> = Vec::new();
        let mut j: usize = 0;
        while j < self.entries.len()
            invariant
                j <= self.entries@.len(),
                seq_views(r@) == self@.take(j as int).map_values(
                    |e: (Seq<u8>, Seq<u8>)| RegisteredClientV { pub_key: b64url_of(e.1) },
                ),
            decreases self.entries@.len() - j,
        {
            let ghost pre = r@;
            let c = MixProviderClient { pub_key: b64url_encode(&self.entries[j].1) };
            let ghost cg = c;
            proof {
                assert(self@[j as int] == (self.entries@[j as int].0@, self.entries@[j as int].1@));
            }
            r.push(c);
            j = j + 1;
            proof {
                lemma_seq_views_push(pre, cg);
                assert(seq_views(r@) =~= self@.take(j as int).map_values(
                    |e: (Seq<u8>, Seq<u8>)| RegisteredClientV { pub_key: b64url_of(e.1) },
                ));
            }
        }
        proof {
            assert(self@.take(self@.len() as int) =~= self@);
        }
        r
    }
}

} // verus!
