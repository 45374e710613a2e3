//! The mailbox store: per-destination collections of opaque message blobs,
//! created when a packet is stored and consumed on successful retrieval.
//!
//! On disk each message is a file of `STORED_MESSAGE_FILENAME_LENGTH`
//! random characters under the destination's directory; this model keeps
//! the messages themselves, in storage order, and leaves naming and file
//! input/output to the caller.

use vstd::prelude::*;
use crate::{bytes_dup, bytes_eq, MESSAGE_RETRIEVAL_LIMIT};
use crate::topology::seq_views;

verus! {

/// The index of the mailbox belonging to a destination.
pub open spec fn box_index(s: Seq<(Seq<u8>, Seq<Seq<u8>>)>, dest: Seq<u8>) -> Option<int>
    decreases s.len(),
{
    if s.len() == 0 {
        None
    } else if s.first().0 == dest {
        Some(0)
    } else {
        match box_index(s.drop_first(), dest) {
            Some(i) => Some(i + 1),
            None => None,
        }
    }
}

/// What `box_index` finds: the first mailbox of that destination, or none.
pub proof fn lemma_box_index(s: Seq<(Seq<u8>, Seq<Seq<u8>>)>, dest: Seq<u8>)
    ensures
        match box_index(s, dest) {
            None => forall|j: int| 0 <= j < s.len() ==> (#[trigger] s[j]).0 != dest,
            Some(i) => 0 <= i < s.len() && s[i].0 == dest && (forall|j: int|
                0 <= j < i ==> (#[trigger] s[j]).0 != dest),
        },
    decreases s.len(),
{
    if s.len() > 0 && s.first().0 != dest {
        lemma_box_index(s.drop_first(), dest);
        assert forall|j: int| 1 <= j < s.len() implies s.drop_first()[j - 1] == s[j] by {}
    }
}

/// All mailboxes, one per destination that ever stored a message.
pub struct MessageStore {
    boxes: Vec<(Vec<u8>, Vec<Vec<u8>>)>,
}

impl View for MessageStore {
    type V = Seq<(Seq<u8>, Seq<Seq<u8>>)>;

    closed spec fn view(&self) -> Seq<(Seq<u8>, Seq<Seq<u8>>)> {
        self.boxes@.map_values(|e: (Vec<u8>, Vec<Vec<u8>>)| (e.0@, seq_views(e.1@)))
    }
}

/// Every message a store holds fits a 32-bit length prefix, so a retrieval
/// response can frame it.
pub open spec fn store_wf(s: Seq<(Seq<u8>, Seq<Seq<u8>>)>) -> bool {
    forall|i: int, j: int|
        0 <= i < s.len() && 0 <= j < s[i].1.len() ==> (#[trigger] s[i].1[j]).len() <= u32::MAX
}

/// One message of a well-formed store is within the length bound.
pub proof fn lemma_store_wf_index(s: Seq<(Seq<u8>, Seq<Seq<u8>>)>, i: int, j: int)
    requires
        store_wf(s),
        0 <= i < s.len(),
        0 <= j < s[i].1.len(),
    ensures
        s[i].1[j].len() <= u32::MAX,
{
}

impl MessageStore {
    /// An empty store.
    pub fn new() -> (r: MessageStore)
        ensures
            r@ == Seq::<(Seq<u8>, Seq<Seq<u8>>)>::empty(),
            store_wf(r@),
    {
        let r = MessageStore { boxes: Vec::new() };
        proof {
            assert(r@ =~= Seq::<(Seq<u8>, Seq<Seq<u8>>)>::empty());
        }
        r
    }

    /// Appends a message to the destination's mailbox, creating the mailbox
    /// on its first message.
    pub fn store_message(&mut self, dest: &Vec<u8>, msg: Vec<u8>)
        requires
            msg@.len() <= u32::MAX,
            store_wf(old(self)@),
        ensures
            store_wf(final(self)@),
            match box_index(old(self)@, dest@) {
                None => final(self)@ == old(self)@.push((dest@, seq![msg@])),
                Some(i) => final(self)@ == old(self)@.update(
                    i,
                    (dest@, old(self)@[i].1.push(msg@)),
                ),
            },
    {
        proof {
            lemma_box_index(self@, dest@);
        }
        let mut j: usize = 0;
        while j < self.boxes.len()
            invariant
                j <= self.boxes@.len(),
                *self == *old(self),
                store_wf(old(self)@),
                msg@.len() <= u32::MAX,
                forall|q: int| 0 <= q < j ==> (#[trigger] self@[q]).0 != dest@,
            decreases self.boxes@.len() - j,
        {
            proof {
                assert(self@[j as int] == (self.boxes@[j as int].0@, seq_views(
                    self.boxes@[j as int].1@,
                )));
            }
            if bytes_eq(&self.boxes[j].0, dest) {
                proof {
                    lemma_box_index(self@, dest@);
                    let i = box_index(self@, dest@)->Some_0;
                    if i < j {
                        assert(self@[i].0 != dest@);
                    }
                    assert(i == j);
                }
                let ghost msgv = msg@;
                let mut entry = self.boxes.remove(j);
                let ghost boxpre = seq_views(entry.1@);
                entry.1.push(msg);
                proof {
                    crate::topology::lemma_seq_views_push(
                        old(self).boxes@[j as int].1@,
                        entry.1@.last(),
                    );
                }
                self.boxes.insert(j, entry);
                proof {
                    assert(self.boxes@ =~= old(self).boxes@.update(
                        j as int,
                        self.boxes@[j as int],
                    ));
                    assert(self@ =~~= old(self)@.update(
                        j as int,
                        (dest@, old(self)@[j as int].1.push(msgv)),
                    ));
                    assert forall|a: int, b: int|
                        0 <= a < self@.len() && 0 <= b < self@[a].1.len() implies (#[trigger] self@[
                        a].1[b]).len() <= u32::MAX by {
                        if a != j {
                            assert(self@[a] == old(self)@[a]);
                            assert(self@[a].1[b] == old(self)@[a].1[b]);
                            lemma_store_wf_index(old(self)@, a, b);
                        } else {
                            assert(self@[a].1 == old(self)@[a].1.push(msgv));
                            if b < old(self)@[a].1.len() {
                                assert(self@[a].1[b] == old(self)@[a].1[b]);
                                lemma_store_wf_index(old(self)@, a, b);
                            } else {
                                assert(self@[a].1[b] == msgv);
                            }
                        }
                    }
                }
                return;
            }
            j = j + 1;
        }
        proof {
            lemma_box_index(self@, dest@);
        }
        let mut msgs: Vec<Vec<u8>> = Vec::new();
        let ghost msgv = msg@;
        msgs.push(msg);
        proof {
            assert(seq_views(msgs@) =~= seq![msgv]);
        }
        self.boxes.push((bytes_dup(dest), msgs));
        proof {
            assert(self@ =~~= old(self)@.push((dest@, seq![msgv])));
            assert forall|a: int, b: int|
                0 <= a < self@.len() && 0 <= b < self@[a].1.len() implies (#[trigger] self@[a].1[
                b]).len() <= u32::MAX by {
                if a < self@.len() - 1 {
                    assert(self@[a] == old(self)@[a]);
                    assert(self@[a].1[b] == old(self)@[a].1[b]);
                    lemma_store_wf_index(old(self)@, a, b);
                } else {
                    assert(self@[a].1[b] == msgv);
                }
            }
        }
    }

    /// Puts a message back at the head of the destination's mailbox: the
    /// undoing of a retrieval whose response could not be sent, so the
    /// restored message is again the oldest and leaves first next time.
    pub fn restore_message(&mut self, dest: &Vec<u8>, msg: Vec<u8>)
        requires
            msg@.len() <= u32::MAX,
            store_wf(old(self)@),
        ensures
            store_wf(final(self)@),
            match box_index(old(self)@, dest@) {
                None => final(self)@ == old(self)@.push((dest@, seq![msg@])),
                Some(i) => final(self)@ == old(self)@.update(
                    i,
                    (dest@, seq![msg@] + old(self)@[i].1),
                ),
            },
    {
        proof {
            lemma_box_index(self@, dest@);
        }
        let mut j: usize = 0;
        while j < self.boxes.len()
            invariant
                j <= self.boxes@.len(),
                *self == *old(self),
                store_wf(old(self)@),
                msg@.len() <= u32::MAX,
                forall|q: int| 0 <= q < j ==> (#[trigger] self@[q]).0 != dest@,
            decreases self.boxes@.len() - j,
        {
            proof {
                assert(self@[j as int] == (self.boxes@[j as int].0@, seq_views(
                    self.boxes@[j as int].1@,
                )));
            }
            if bytes_eq(&self.boxes[j].0, dest) {
                proof {
                    lemma_box_index(self@, dest@);
                    let i = box_index(self@, dest@)->Some_0;
                    if i < j {
                        assert(self@[i].0 != dest@);
                    }
                    assert(i == j);
                }
                let ghost msgv = msg@;
                let mut entry = self.boxes.remove(j);
                entry.1.insert(0, msg);
                proof {
                    assert(seq_views(entry.1@) =~= seq![msgv] + seq_views(
                        old(self).boxes@[j as int].1@,
                    ));
                }
                self.boxes.insert(j, entry);
                proof {
                    assert(self.boxes@ =~= old(self).boxes@.update(
                        j as int,
                        self.boxes@[j as int],
                    ));
                    assert(self@ =~~= old(self)@.update(
                        j as int,
                        (dest@, seq![msgv] + old(self)@[j as int].1),
                    ));
                    assert forall|a: int, b: int|
                        0 <= a < self@.len() && 0 <= b < self@[a].1.len() implies (#[trigger] self@[
                        a].1[b]).len() <= u32::MAX by {
                        if a != j {
                            assert(self@[a] == old(self)@[a]);
                            assert(self@[a].1[b] == old(self)@[a].1[b]);
                            lemma_store_wf_index(old(self)@, a, b);
                        } else {
                            assert(self@[a].1 == seq![msgv] + old(self)@[a].1);
                            if b == 0 {
                                assert(self@[a].1[b] == msgv);
                            } else {
                                assert(self@[a].1[b] == old(self)@[a].1[b - 1]);
                                lemma_store_wf_index(old(self)@, a, b - 1);
                            }
                        }
                    }
                }
                return;
            }
            j = j + 1;
        }
        proof {
            lemma_box_index(self@, dest@);
        }
        let mut msgs: Vec<Vec<u8>> = Vec::new();
        let ghost msgv = msg@;
        msgs.push(msg);
        proof {
            assert(seq_views(msgs@) =~= seq![msgv]);
        }
        self.boxes.push((bytes_dup(dest), msgs));
        proof {
            assert(self@ =~~= old(self)@.push((dest@, seq![msgv])));
            assert forall|a: int, b: int|
                0 <= a < self@.len() && 0 <= b < self@[a].1.len() implies (#[trigger] self@[a].1[
                b]).len() <= u32::MAX by {
                if a < self@.len() - 1 {
                    assert(self@[a] == old(self)@[a]);
                    assert(self@[a].1[b] == old(self)@[a].1[b]);
                    lemma_store_wf_index(old(self)@, a, b);
                } else {
                    assert(self@[a].1[b] == msgv);
                }
            }
        }
    }

    /// How many messages the destination's mailbox holds.
    pub fn message_count(&self, dest: &Vec<u8>) -> (r: usize)
        ensures
            r == match box_index(self@, dest@) {
                None => 0int,
                Some(i) => self@[i].1.len() as int,
            },
    {
        proof {
            lemma_box_index(self@, dest@);
        }
        let mut j: usize = 0;
        while j < self.boxes.len()
            invariant
                j <= self.boxes@.len(),
                forall|q: int| 0 <= q < j ==> (#[trigger] self@[q]).0 != dest@,
            decreases self.boxes@.len() - j,
        {
            proof {
                assert(self@[j as int] == (self.boxes@[j as int].0@, seq_views(
                    self.boxes@[j as int].1@,
                )));
            }
            if bytes_eq(&self.boxes[j].0, dest) {
                proof {
                    lemma_box_index(self@, dest@);
                    let i = box_index(self@, dest@)->Some_0;
                    if i < j {
                        assert(self@[i].0 != dest@);
                    }
                    assert(i == j);
                }
                return self.boxes[j].1.len();
            }
            j = j + 1;
        }
        proof {
            lemma_box_index(self@, dest@);
        }
        0
    }

    /// Takes at most `MESSAGE_RETRIEVAL_LIMIT` messages out of the
    /// destination's mailbox: the oldest stored ones, which the mailbox no
    /// longer holds afterwards.  An unknown destination yields no messages.
    pub fn retrieve_messages(&mut self, dest: &Vec<u8>) -> (r: Vec<Vec<u8>>)
        requires
            store_wf(old(self)@),
        ensures
            store_wf(final(self)@),
            match box_index(old(self)@, dest@) {
                None => final(self)@ == old(self)@ && r@.len() == 0,
                Some(i) => {
                    let msgs = old(self)@[i].1;
                    let k = if msgs.len() <= MESSAGE_RETRIEVAL_LIMIT {
                        msgs.len() as int
                    } else {
                        MESSAGE_RETRIEVAL_LIMIT as int
                    };
                    &&& seq_views(r@) == msgs.take(k)
                    &&& final(self)@ == old(self)@.update(i, (dest@, msgs.skip(k)))
                },
            },
            forall|j: int| 0 <= j < r@.len() ==> (#[trigger] r@[j]@).len() <= u32::MAX,
    {
        proof {
            lemma_box_index(self@, dest@);
        }
        let mut j: usize = 0;
        while j < self.boxes.len()
            invariant
                j <= self.boxes@.len(),
                *self == *old(self),
                store_wf(old(self)@),
                forall|q: int| 0 <= q < j ==> (#[trigger] self@[q]).0 != dest@,
            decreases self.boxes@.len() - j,
        {
            proof {
                assert(self@[j as int] == (self.boxes@[j as int].0@, seq_views(
                    self.boxes@[j as int].1@,
                )));
            }
            if bytes_eq(&self.boxes[j].0, dest) {
                proof {
                    lemma_box_index(self@, dest@);
                    let i = box_index(self@, dest@)->Some_0;
                    if i < j {
                        assert(self@[i].0 != dest@);
                    }
                    assert(i == j);
                }
                let mut entry = self.boxes.remove(j);
                let ghost msgs = seq_views(entry.1@);
                let k = if entry.1.len() <= MESSAGE_RETRIEVAL_LIMIT {
                    entry.1.len()
                } else {
                    MESSAGE_RETRIEVAL_LIMIT
                };
                let mut taken: Vec<Vec<u8>> = Vec::new();
                let mut t: usize = 0;
                proof {
                    assert(msgs.skip(0) =~= msgs);
                    assert(seq_views(taken@) =~= msgs.take(0));
                }
                while t < k
                    invariant
                        t <= k,
                        entry.0@ == dest@,
                        seq_views(entry.1@) == msgs.skip(t as int),
                        seq_views(taken@) == msgs.take(t as int),
                        k <= msgs.len(),
                    decreases k - t,
                {
                    proof {
                        assert(entry.1@.len() == msgs.skip(t as int).len());
                    }
                    let ghost takenpre = taken@;
                    let ghost entrypre = entry.1@;
                    let m = entry.1.remove(0);
                    let ghost mg = m;
                    taken.push(m);
                    t = t + 1;
                    proof {
                        crate::topology::lemma_seq_views_remove(entrypre, 0);
                        crate::topology::lemma_seq_views_push(takenpre, mg);
                        assert(mg@ == seq_views(entrypre)[0]);
                        assert(seq_views(entrypre)[0] == msgs[t - 1]);
                        assert(seq_views(entry.1@) =~= msgs.skip(t as int));
                        assert(seq_views(taken@) =~= msgs.take(t as int));
                    }
                }
                proof {
                    assert(seq_views(entry.1@) == msgs.skip(k as int));
                    assert(entry.0@ == dest@);
                }
                self.boxes.insert(j, entry);
                proof {
                    assert(self.boxes@ =~= old(self).boxes@.update(
                        j as int,
                        self.boxes@[j as int],
                    ));
                    assert(self@[j as int] == (dest@, msgs.skip(k as int)));
                    assert forall|a: int| 0 <= a < self@.len() && a != j implies self@[a]
                        == old(self)@[a] by {
                        assert(self.boxes@[a] == old(self).boxes@[a]);
                    }
                    assert(self@ =~~= old(self)@.update(j as int, (dest@, msgs.skip(k as int))));
                    assert forall|a: int, b: int|
                        0 <= a < self@.len() && 0 <= b < self@[a].1.len() implies (#[trigger] self@[
                        a].1[b]).len() <= u32::MAX by {
                        if a != j {
                            assert(self@[a] == old(self)@[a]);
                            assert(self@[a].1[b] == old(self)@[a].1[b]);
                            lemma_store_wf_index(old(self)@, a, b);
                        } else {
                            assert(self@[a].1[b] == msgs[b + k]);
                            assert(old(self)@[a].1[b + k] == msgs[b + k]);
                            lemma_store_wf_index(old(self)@, a, b + k);
                        }
                    }
                    assert forall|b: int| 0 <= b < taken@.len() implies (#[trigger] taken@[
                    b]@).len() <= u32::MAX by {
                        assert(taken@[b]@ == seq_views(taken@)[b]);
                        assert(seq_views(taken@)[b] == msgs[b]);
                        lemma_store_wf_index(old(self)@, j as int, b);
                        assert(old(self)@[j as int].1[b] == msgs[b]);
                    }
                }
                return taken;
            }
            j = j + 1;
        }
        proof {
            lemma_box_index(self@, dest@);
        }
        Vec::new()
    }
}

/// Two successive retrievals hand out messages from disjoint positions of
/// the mailbox: together they are exactly the oldest `k1 + k2` messages,
/// and when the mailbox held no duplicate blobs, the two sets share
/// nothing.
pub proof fn lemma_retrievals_disjoint(msgs: Seq<Seq<u8>>, k1: int, k2: int)
    requires
        0 <= k1,
        0 <= k2,
        k1 + k2 <= msgs.len(),
    ensures
        msgs.take(k1) + msgs.skip(k1).take(k2) == msgs.take(k1 + k2),
        (forall|a: int, b: int| 0 <= a < b < msgs.len() ==> msgs[a] != msgs[b])
            ==> msgs.take(k1).to_set().disjoint(msgs.skip(k1).take(k2).to_set()),
{
    assert(msgs.take(k1) + msgs.skip(k1).take(k2) =~= msgs.take(k1 + k2));
    if forall|a: int, b: int| 0 <= a < b < msgs.len() ==> msgs[a] != msgs[b] {
        let s1 = msgs.take(k1).to_set();
        let s2 = msgs.skip(k1).take(k2).to_set();
        assert forall|x: Seq<u8>| s1.contains(x) implies !s2.contains(x) by {
            let a = choose|a: int| 0 <= a < msgs.take(k1).len() && msgs.take(k1)[a] == x;
            if s2.contains(x) {
                let b = choose|b: int|
                    0 <= b < msgs.skip(k1).take(k2).len() && msgs.skip(k1).take(k2)[b] == x;
                assert(msgs[a] == x);
                assert(msgs[k1 + b] == x);
            }
        }
    }
}

} // verus!
