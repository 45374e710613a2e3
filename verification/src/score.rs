//! Per-node probe counters and the derived score order.
//!
//! A node's score is `received / sent` (zero while nothing was sent).
//! Scores are compared as exact rationals by cross-multiplication, so no
//! floating point enters the library; a filtering threshold is likewise a
//! rational, or one of the two infinities.

use vstd::prelude::*;
use crate::bytes_dup;
use crate::b64::b64url_decode_of;
use crate::topology::{MixNodeV, MixProviderNodeV};

verus! {

/// Probe counters of one mix or provider node within a health-check run.
pub struct NodeScore {
    pub_key: Vec<u8>,
    sent: u32,
    received: u32,
}

pub struct NodeScoreV {
    pub pub_key: Seq<u8>,
    pub sent: u32,
    pub received: u32,
}

impl View for NodeScore {
    type V = NodeScoreV;

    closed spec fn view(&self) -> NodeScoreV {
        NodeScoreV { pub_key: self.pub_key@, sent: self.sent, received: self.received }
    }
}

/// A node is never credited more deliveries than probes sent.
pub open spec fn score_wf(s: NodeScoreV) -> bool {
    s.received <= s.sent
}

/// The zero score of a node identity.
pub open spec fn zero_score_of(key: Seq<u8>) -> NodeScoreV {
    NodeScoreV { pub_key: key, sent: 0, received: 0 }
}

/// One more probe sent; the counter stops at its greatest value rather than
/// wrap.
pub open spec fn inc_sent(s: NodeScoreV) -> NodeScoreV {
    NodeScoreV {
        pub_key: s.pub_key,
        sent: if s.sent < u32::MAX {
            (s.sent + 1) as u32
        } else {
            s.sent
        },
        received: s.received,
    }
}

/// One more probe answered; a node is never credited beyond what was sent
/// to it, so the count stays bounded by `sent`.
pub open spec fn inc_received(s: NodeScoreV) -> NodeScoreV {
    NodeScoreV {
        pub_key: s.pub_key,
        sent: s.sent,
        received: if s.received < s.sent {
            (s.received + 1) as u32
        } else {
            s.received
        },
    }
}

/// Numerator of the derived score, treating an unprobed node as `0 / 1`.
pub open spec fn score_num(s: NodeScoreV) -> int {
    if s.sent == 0 {
        0
    } else {
        s.received as int
    }
}

/// Denominator of the derived score, treating an unprobed node as `0 / 1`.
pub open spec fn score_den(s: NodeScoreV) -> int {
    if s.sent == 0 {
        1
    } else {
        s.sent as int
    }
}

/// The score of `a` is at most the score of `b`, compared as exact
/// rationals by cross-multiplication.
pub open spec fn score_le(a: NodeScoreV, b: NodeScoreV) -> bool {
    score_num(a) * score_den(b) <= score_num(b) * score_den(a)
}

/// The score order is total.
pub proof fn lemma_score_le_total(a: NodeScoreV, b: NodeScoreV)
    ensures
        score_le(a, b) || score_le(b, a),
{
}

/// The score order is transitive.
pub proof fn lemma_score_le_trans(a: NodeScoreV, b: NodeScoreV, c: NodeScoreV)
    requires
        score_le(a, b),
        score_le(b, c),
    ensures
        score_le(a, c),
{
    let na = score_num(a);
    let da = score_den(a);
    let nb = score_num(b);
    let db = score_den(b);
    let nc = score_num(c);
    let dc = score_den(c);
    assert(da > 0 && db > 0 && dc > 0);
    assert(na * dc <= nc * da) by (nonlinear_arith)
        requires
            na * db <= nb * da,
            nb * dc <= nc * db,
            da > 0,
            db > 0,
            dc > 0,
    ;
}

/// A threshold a node's score is held against when filtering a topology.
#[derive(Clone, Copy, Debug, PartialEq, Eq, Structural)]
pub enum ScoreThreshold {
    /// Below every score: every scored node passes.
    NegativeInfinity,
    /// The exact rational `num / den`; `den` must be positive.
    Finite { num: i64, den: u32 },
    /// Above every score: no node passes.
    PositiveInfinity,
}

/// Whether a threshold value is well formed.
pub open spec fn threshold_wf(t: ScoreThreshold) -> bool {
    match t {
        ScoreThreshold::Finite { num, den } => den > 0,
        _ => true,
    }
}

/// The score of `s` lies strictly above the threshold.
pub open spec fn score_above(s: NodeScoreV, t: ScoreThreshold) -> bool {
    match t {
        ScoreThreshold::NegativeInfinity => true,
        ScoreThreshold::PositiveInfinity => false,
        ScoreThreshold::Finite { num, den } => score_num(s) * den > num * score_den(s),
    }
}

impl NodeScore {
    #[verifier::type_invariant]
    closed spec fn type_inv(self) -> bool {
        score_wf(self@)
    }

    /// Every score value keeps its deliveries within its probes: for any
    /// score a caller holds, `0 <= received <= sent`.
    pub fn check_bounds(&self) -> (r: (u32, u32))
        ensures
            r.0 == self@.received,
            r.1 == self@.sent,
            score_wf(self@),
    {
        proof {
            use_type_invariant(self);
        }
        (self.received, self.sent)
    }

    /// A fresh all-zero score for the node with the given identity bytes.
    pub fn new(pub_key: Vec<u8>) -> (r: NodeScore)
        ensures
            r@ == zero_score_of(pub_key@),
    {
        NodeScore { pub_key, sent: 0, received: 0 }
    }

    /// The node's identity bytes.
    pub fn pub_key_bytes(&self) -> (r: Vec<u8>)
        ensures
            r@ == self@.pub_key,
    {
        bytes_dup(&self.pub_key)
    }

    /// Whether this score belongs to the node with the given identity.
    pub fn has_key(&self, key: &Vec<u8>) -> (r: bool)
        ensures
            r == (self@.pub_key == key@),
    {
        crate::bytes_eq(&self.pub_key, key)
    }

    /// Probes sent to the node.
    pub fn sent_count(&self) -> (r: u32)
        ensures
            r == self@.sent,
    {
        self.sent
    }

    /// Probes that came back for the node.
    pub fn received_count(&self) -> (r: u32)
        ensures
            r == self@.received,
    {
        self.received
    }

    /// A structural copy of the score.
    pub fn duplicate(&self) -> (r: NodeScore)
        ensures
            r@ == self@,
    {
        proof {
            use_type_invariant(self);
        }
        NodeScore { pub_key: bytes_dup(&self.pub_key), sent: self.sent, received: self.received }
    }

    /// Counts one more probe sent to the node.
    pub fn increase_sent_packet_count(&mut self)
        ensures
            final(self)@ == inc_sent(old(self)@),
    {
        proof {
            use_type_invariant(&*self);
        }
        if self.sent < u32::MAX {
            self.sent = self.sent + 1;
        }
    }

    /// Counts one more probe that came back from the node.
    pub fn increase_received_packet_count(&mut self)
        ensures
            final(self)@ == inc_received(old(self)@),
    {
        proof {
            use_type_invariant(&*self);
        }
        if self.received < self.sent {
            self.received = self.received + 1;
        }
    }

    /// Whether this node's score is at most the other's.
    pub fn le(&self, other: &NodeScore) -> (r: bool)
        ensures
            r == score_le(self@, other@),
    {
        let na: u64 = if self.sent == 0 {
            0
        } else {
            self.received as u64
        };
        let da: u64 = if self.sent == 0 {
            1
        } else {
            self.sent as u64
        };
        let nb: u64 = if other.sent == 0 {
            0
        } else {
            other.received as u64
        };
        let db: u64 = if other.sent == 0 {
            1
        } else {
            other.sent as u64
        };
        proof {
            assert(na * db <= 0xffff_ffff * 0xffff_ffff && nb * da <= 0xffff_ffff * 0xffff_ffff)
                by (nonlinear_arith)
                requires
                    0 <= na <= 0xffff_ffff,
                    0 <= db <= 0xffff_ffff,
                    0 <= nb <= 0xffff_ffff,
                    0 <= da <= 0xffff_ffff,
            ;
        }
        na * db <= nb * da
    }

    /// Whether this node's score lies strictly above the threshold.
    pub fn above_threshold(&self, t: &ScoreThreshold) -> (r: bool)
        requires
            threshold_wf(*t),
        ensures
            r == score_above(self@, *t),
    {
        match t {
            ScoreThreshold::NegativeInfinity => true,
            ScoreThreshold::PositiveInfinity => false,
            ScoreThreshold::Finite { num, den } => {
                let n: u64 = if self.sent == 0 {
                    0
                } else {
                    self.received as u64
                };
                let d: u64 = if self.sent == 0 {
                    1
                } else {
                    self.sent as u64
                };
                proof {
                    assert((n as int) * (*den as int) <= 0xffff_ffff * 0xffff_ffff && (n as int) * (
                    *den as int) >= 0 && (*num as int) * (d as int) <= 0x7fff_ffff_ffff_ffff
                        * 0xffff_ffff && (*num as int) * (d as int) >= -0x8000_0000_0000_0000
                        * 0xffff_ffff) by (nonlinear_arith)
                        requires
                            0 <= n <= 0xffff_ffff,
                            0 < *den <= 0xffff_ffff,
                            -0x8000_0000_0000_0000 <= *num <= 0x7fff_ffff_ffff_ffff,
                            0 < d <= 0xffff_ffff,
                    ;
                }
                let lhs: i128 = (n as i128) * (*den as i128);
                let rhs: i128 = (*num as i128) * (d as i128);
                lhs > rhs
            },
        }
    }

    /// The zero score of a mix node, keyed by its decoded identity; nothing
    /// when its key is not base64.
    pub fn from_mixnode(n: &crate::topology::MixNode) -> (r: Option<NodeScore>)
        ensures
            match b64url_decode_of(n.pub_key@) {
                Some(k) => r matches Some(s) && s@ == zero_score_of(k),
                None => r is None,
            },
    {
        match crate::b64::b64url_decode(&n.pub_key) {
            Some(k) => Some(NodeScore::new(k)),
            None => None,
        }
    }

    /// The zero score of a provider, keyed by its decoded identity; nothing
    /// when its key is not base64.
    pub fn from_provider(n: &crate::topology::MixProviderNode) -> (r: Option<NodeScore>)
        ensures
            match b64url_decode_of(n.pub_key@) {
                Some(k) => r matches Some(s) && s@ == zero_score_of(k),
                None => r is None,
            },
    {
        match crate::b64::b64url_decode(&n.pub_key) {
            Some(k) => Some(NodeScore::new(k)),
            None => None,
        }
    }
}

/// Whether some score entry already bears the given identity.
pub open spec fn has_score_key(s: Seq<NodeScoreV>, k: Seq<u8>) -> bool {
    exists|i: int| 0 <= i < s.len() && (#[trigger] s[i]).pub_key == k
}

/// No two score entries bear the same identity.
pub open spec fn distinct_keys(s: Seq<NodeScoreV>) -> bool {
    forall|i: int, j: int|
        0 <= i < j < s.len() ==> (#[trigger] s[i]).pub_key != (#[trigger] s[j]).pub_key
}

/// The zero scores accumulated over mix records: one entry per distinct
/// decoded identity, in first-appearance order; a record whose identity is
/// already scored, or does not decode, adds nothing.
pub open spec fn zero_mix_scores_from(acc: Seq<NodeScoreV>, mixes: Seq<MixNodeV>)
    -> Seq<NodeScoreV>
    decreases mixes.len(),
{
    if mixes.len() == 0 {
        acc
    } else {
        let pre = zero_mix_scores_from(acc, mixes.drop_last());
        match b64url_decode_of(mixes.last().pub_key) {
            Some(k) => if has_score_key(pre, k) {
                pre
            } else {
                pre.push(zero_score_of(k))
            },
            None => pre,
        }
    }
}

/// As `zero_mix_scores_from`, over provider records.
pub open spec fn zero_provider_scores_from(acc: Seq<NodeScoreV>, providers: Seq<MixProviderNodeV>)
    -> Seq<NodeScoreV>
    decreases providers.len(),
{
    if providers.len() == 0 {
        acc
    } else {
        let pre = zero_provider_scores_from(acc, providers.drop_last());
        match b64url_decode_of(providers.last().pub_key) {
            Some(k) => if has_score_key(pre, k) {
                pre
            } else {
                pre.push(zero_score_of(k))
            },
            None => pre,
        }
    }
}

/// The zero scores of the given mix nodes and providers: one entry per
/// distinct decoded identity, mixes first, as a map keyed by the identity
/// bytes would hold them.
pub open spec fn zero_scores_of(mixes: Seq<MixNodeV>, providers: Seq<MixProviderNodeV>)
    -> Seq<NodeScoreV>
{
    zero_provider_scores_from(zero_mix_scores_from(Seq::empty(), mixes), providers)
}

} // verus!
