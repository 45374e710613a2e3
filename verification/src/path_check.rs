//! The path checker's bookkeeping: test packets are tagged by a path key,
//! the concatenated identity bytes of every hop on the route, and each key
//! moves from pending to healthy when its probe comes back, to unresolved
//! when the resolution window closes first, or to malformed when it could
//! not even be sent.  Building, sending and fetching the packets is
//! input/output around this state.

use vstd::prelude::*;
use crate::{bytes_dup, bytes_eq};
use crate::b64::{b64url_decode, b64url_decode_of};
use crate::topology::{PathHop, PathHopV, seq_views, lemma_seq_views_push};

verus! {

/// What became of one probed route.
#[derive(Clone, Copy, Debug, PartialEq, Eq, Structural)]
pub enum PathStatus {
    /// Sent, not yet seen back.
    Pending,
    /// Its probe was recovered from the provider.
    Healthy,
    /// Still pending when the resolution window closed.
    Unresolved,
    /// Could not be sent at all.
    Malformed,
}

/// The key that tags a route: every hop's identity bytes, concatenated, the
/// provider's included; nothing when some hop's identity is not base64.
pub open spec fn path_key_of(hops: Seq<PathHopV>) -> Option<Seq<u8>>
    decreases hops.len(),
{
    if hops.len() == 0 {
        Some(Seq::empty())
    } else {
        match (path_key_of(hops.drop_last()), b64url_decode_of(hops.last().pub_key)) {
            (Some(pre), Some(k)) => Some(pre + k),
            _ => None,
        }
    }
}

/// A key that fails on a prefix fails on the whole route.
proof fn lemma_path_key_prefix_none(hops: Seq<PathHopV>, i: int)
    requires
        0 <= i <= hops.len(),
        path_key_of(hops.take(i)) is None,
    ensures
        path_key_of(hops) is None,
    decreases hops.len() - i,
{
    if i == hops.len() {
        assert(hops.take(i) =~= hops);
    } else {
        assert(hops.take(i + 1).drop_last() =~= hops.take(i));
        lemma_path_key_prefix_none(hops, i + 1);
    }
}

/// Builds the key that tags a route.
pub fn path_to_key(path: &Vec<PathHop>) -> (r: Option<Vec<u8>>)
    ensures
        match path_key_of(seq_views(path@)) {
            Some(k) => r matches Some(v) && v@ == k,
            None => r is None,
        },
{
    let mut acc: Vec<u8> = Vec::new();
    let mut i: usize = 0;
    proof {
        assert(seq_views(path@).take(0) =~= Seq::<PathHopV>::empty());
        assert(acc@ =~= Seq::<u8>::empty());
    }
    while i < path.len()
        invariant
            i <= path@.len(),
            path_key_of(seq_views(path@).take(i as int)) == Some(acc@),
        decreases path@.len() - i,
    {
        proof {
            assert(seq_views(path@).take(i + 1).drop_last() =~= seq_views(path@).take(i as int));
            assert(seq_views(path@).take(i + 1).last() == path@[i as int]@);
        }
        match b64url_decode(&path[i].pub_key) {
            Some(k) => {
                let mut t: usize = 0;
                let ghost accpre = acc@;
                while t < k.len()
                    invariant
                        t <= k@.len(),
                        acc@ == accpre + k@.take(t as int),
                    decreases k@.len() - t,
                {
                    acc.push(k[t]);
                    t = t + 1;
                    assert(acc@ =~= accpre + k@.take(t as int));
                }
                proof {
                    assert(k@.take(k@.len() as int) =~= k@);
                }
            },
            None => {
                proof {
                    lemma_path_key_prefix_none(seq_views(path@), i + 1);
                }
                return None;
            },
        }
        i = i + 1;
    }
    proof {
        assert(seq_views(path@).take(path@.len() as int) =~= seq_views(path@));
    }
    Some(acc)
}

/// The index of the entry bearing the given path key.
pub open spec fn status_index(s: Seq<(Seq<u8>, PathStatus)>, k: Seq<u8>) -> Option<int>
    decreases s.len(),
{
    if s.len() == 0 {
        None
    } else if s.first().0 == k {
        Some(0)
    } else {
        match status_index(s.drop_first(), k) {
            Some(i) => Some(i + 1),
            None => None,
        }
    }
}

/// What `status_index` finds.
pub proof fn lemma_status_index(s: Seq<(Seq<u8>, PathStatus)>, k: Seq<u8>)
    ensures
        match status_index(s, k) {
            None => forall|j: int| 0 <= j < s.len() ==> (#[trigger] s[j]).0 != k,
            Some(i) => 0 <= i < s.len() && s[i].0 == k && (forall|j: int|
                0 <= j < i ==> (#[trigger] s[j]).0 != k),
        },
    decreases s.len(),
{
    if s.len() > 0 && s.first().0 != k {
        lemma_status_index(s.drop_first(), k);
        assert forall|j: int| 1 <= j < s.len() implies s.drop_first()[j - 1] == s[j] by {}
    }
}

/// Sets or records one key's status.
pub open spec fn with_status(s: Seq<(Seq<u8>, PathStatus)>, k: Seq<u8>, st: PathStatus)
    -> Seq<(Seq<u8>, PathStatus)>
{
    match status_index(s, k) {
        None => s.push((k, st)),
        Some(i) => s.update(i, (k, st)),
    }
}

/// Every found key marked healthy, in order.
pub open spec fn mark_found(s: Seq<(Seq<u8>, PathStatus)>, keys: Seq<Seq<u8>>)
    -> Seq<(Seq<u8>, PathStatus)>
    decreases keys.len(),
{
    if keys.len() == 0 {
        s
    } else {
        with_status(mark_found(s, keys.drop_last()), keys.last(), PathStatus::Healthy)
    }
}

/// What closing the resolution window leaves: every still-pending key
/// becomes unresolved.
pub open spec fn close_window(s: Seq<(Seq<u8>, PathStatus)>) -> Seq<(Seq<u8>, PathStatus)> {
    s.map_values(
        |e: (Seq<u8>, PathStatus)|
            if e.1 == PathStatus::Pending {
                (e.0, PathStatus::Unresolved)
            } else {
                e
            },
    )
}

/// The keys of the routes that came back healthy, in order.
pub open spec fn healthy_keys_of(s: Seq<(Seq<u8>, PathStatus)>) -> Seq<Seq<u8>>
    decreases s.len(),
{
    if s.len() == 0 {
        Seq::empty()
    } else {
        let rest = healthy_keys_of(s.drop_last());
        if s.last().1 == PathStatus::Healthy {
            rest.push(s.last().0)
        } else {
            rest
        }
    }
}

/// The per-route outcomes of one health-check run, keyed by path key.
pub struct PathChecker {
    statuses: Vec<(Vec<u8>, PathStatus)>,
}

impl View for PathChecker {
    type V = Seq<(Seq<u8>, PathStatus)>;

    closed spec fn view(&self) -> Seq<(Seq<u8>, PathStatus)> {
        self.statuses@.map_values(|e: (Vec<u8>, PathStatus)| (e.0@, e.1))
    }
}

impl PathChecker {
    /// A checker with nothing probed yet.
    pub fn new() -> (r: PathChecker)
        ensures
            r@ == Seq::<(Seq<u8>, PathStatus)>::empty(),
    {
        let r = PathChecker { statuses: Vec::new() };
        proof {
            assert(r@ =~= Seq::<(Seq<u8>, PathStatus)>::empty());
        }
        r
    }

    fn set_status(&mut self, key: Vec<u8>, st: PathStatus)
        ensures
            final(self)@ == with_status(old(self)@, key@, st),
    {
        proof {
            lemma_status_index(self@, key@);
        }
        let mut j: usize = 0;
        while j < self.statuses.len()
            invariant
                j <= self.statuses@.len(),
                *self == *old(self),
                forall|q: int| 0 <= q < j ==> (#[trigger] self@[q]).0 != key@,
            decreases self.statuses@.len() - j,
        {
            proof {
                assert(self@[j as int] == (self.statuses@[j as int].0@, self.statuses@[
                j as int].1));
            }
            if bytes_eq(&self.statuses[j].0, &key) {
                proof {
                    lemma_status_index(self@, key@);
                    let i = status_index(self@, key@)->Some_0;
                    if i < j {
                        assert(self@[i].0 != key@);
                    }
                    assert(i == j);
                }
                let _ = self.statuses.remove(j);
                self.statuses.insert(j, (key, st));
                proof {
                    assert(self.statuses@ =~= old(self).statuses@.update(
                        j as int,
                        self.statuses@[j as int],
                    ));
                    assert(self@ =~= old(self)@.update(j as int, (key@, st)));
                }
                return;
            }
            j = j + 1;
        }
        proof {
            lemma_status_index(self@, key@);
        }
        self.statuses.push((key, st));
        proof {
            assert(self@ =~= old(self)@.push(
                (self.statuses@.last().0@, self.statuses@.last().1),
            ));
        }
    }

    /// Records a probe as sent and awaiting its return.
    pub fn register_pending(&mut self, key: Vec<u8>)
        ensures
            final(self)@ == with_status(old(self)@, key@, PathStatus::Pending),
    {
        self.set_status(key, PathStatus::Pending)
    }

    /// Records a probe that could not be sent; it counts toward nothing.
    pub fn mark_malformed(&mut self, key: Vec<u8>)
        ensures
            final(self)@ == with_status(old(self)@, key@, PathStatus::Malformed),
    {
        self.set_status(key, PathStatus::Malformed)
    }

    /// Ends the resolution window: every recovered key is marked healthy,
    /// in order, and whatever is still pending afterwards becomes
    /// unresolved.
    pub fn resolve_pending_checks(&mut self, found: &Vec<Vec<u8>>)
        ensures
            final(self)@ == close_window(mark_found(old(self)@, seq_views(found@))),
    {
        let mut i: usize = 0;
        while i < found.len()
            invariant
                i <= found@.len(),
                self@ == mark_found(old(self)@, seq_views(found@).take(i as int)),
            decreases found@.len() - i,
        {
            proof {
                assert(seq_views(found@).take(i + 1).drop_last() =~= seq_views(found@).take(
                    i as int,
                ));
                assert(seq_views(found@).take(i + 1).last() == found@[i as int]@);
            }
            self.set_status(bytes_dup(&found[i]), PathStatus::Healthy);
            i = i + 1;
        }
        proof {
            assert(seq_views(found@).take(found@.len() as int) =~= seq_views(found@));
        }
        let ghost marked = self@;
        let mut j: usize = 0;
        while j < self.statuses.len()
            invariant
                j <= self.statuses@.len(),
                self@.len() == marked.len(),
                forall|q: int| 0 <= q < j ==> self@[q] == close_window(marked)[q],
                forall|q: int| j <= q < marked.len() ==> self@[q] == marked[q],
            decreases self.statuses@.len() - j,
        {
            proof {
                assert(self@[j as int] == (self.statuses@[j as int].0@, self.statuses@[
                j as int].1));
            }
            if self.statuses[j].1 == PathStatus::Pending {
                let ghost pre = self@;
                let entry = self.statuses.remove(j);
                self.statuses.insert(j, (entry.0, PathStatus::Unresolved));
                proof {
                    assert(self@ =~= pre.update(
                        j as int,
                        (pre[j as int].0, PathStatus::Unresolved),
                    ));
                }
            }
            j = j + 1;
        }
        proof {
            assert(self@ =~= close_window(marked));
        }
    }

    /// Every route's outcome, keyed by its path key, in recording order.
    pub fn get_all_statuses(&self) -> (r: Vec<(Vec<u8>, PathStatus)>)
        ensures
            r@.map_values(|e: (Vec<u8>, PathStatus)| (e.0@, e.1)) == self@,
    {
        let mut out: Vec<(Vec<u8>, PathStatus)> = Vec::new();
        let mut j: usize = 0;
        while j < self.statuses.len()
            invariant
                j <= self.statuses@.len(),
                out@.map_values(|e: (Vec<u8>, PathStatus)| (e.0@, e.1)) == self@.take(j as int),
            decreases self.statuses@.len() - j,
        {
            proof {
                assert(self@[j as int] == (self.statuses@[j as int].0@, self.statuses@[
                j as int].1));
            }
            let ghost pre = out@;
            let e = (bytes_dup(&self.statuses[j].0), self.statuses[j].1);
            let ghost eg = e;
            out.push(e);
            j = j + 1;
            proof {
                crate::topology::lemma_map_values_push(
                    pre,
                    eg,
                    |e: (Vec<u8>, PathStatus)| (e.0@, e.1),
                );
                assert(out@.map_values(|e: (Vec<u8>, PathStatus)| (e.0@, e.1)) =~= self@.take(
                    j as int,
                ));
            }
        }
        proof {
            assert(self@.take(self@.len() as int) =~= self@);
        }
        out
    }

    /// The keys of the healthy routes, in order, ready for the scorer.
    pub fn healthy_keys(&self) -> (r: Vec<Vec<u8>>)
        ensures
            seq_views(r@) == healthy_keys_of(self@),
    {
        let mut out: Vec<Vec<u8>> = Vec::new();
        let mut j: usize = 0;
        proof {
            assert(seq_views(out@) =~= healthy_keys_of(self@.take(0)));
        }
        while j < self.statuses.len()
            invariant
                j <= self.statuses@.len(),
                seq_views(out@) == healthy_keys_of(self@.take(j as int)),
            decreases self.statuses@.len() - j,
        {
            proof {
                assert(self@[j as int] == (self.statuses@[j as int].0@, self.statuses@[
                j as int].1));
                assert(self@.take(j + 1).drop_last() =~= self@.take(j as int));
                assert(self@.take(j + 1).last() == self@[j as int]);
            }
            if self.statuses[j].1 == PathStatus::Healthy {
                let ghost pre = out@;
                let k = bytes_dup(&self.statuses[j].0);
                let ghost kg = k;
                out.push(k);
                proof {
                    lemma_seq_views_push(pre, kg);
                }
            }
            j = j + 1;
            assert(seq_views(out@) =~= healthy_keys_of(self@.take(j as int)));
        }
        proof {
            assert(self@.take(self@.len() as int) =~= self@);
        }
        out
    }
}

} // verus!
