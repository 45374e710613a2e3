//! The health-check engine: aggregates per-node probe counters over every
//! route of a topology, reports them ordered by score, and filters a
//! topology by a score threshold.

use vstd::prelude::*;
use crate::score::{
    NodeScore, NodeScoreV, score_le, score_wf, inc_sent, inc_received, zero_scores_of,
    zero_mix_scores_from, zero_provider_scores_from, has_score_key, distinct_keys, ScoreThreshold,
    threshold_wf, score_above,
};
use crate::topology::{
    MixNode, MixProviderNode, MixNodeV, MixProviderNodeV, PathHop, PathHopV, seq_views,
    lemma_seq_views_push, mixes_of_layer, paths_product, paths_views, all_paths_from_nodes,
};
use crate::b64::{b64url_decode, b64url_decode_of};
use crate::presence::{
    Topology, resolved_mixes, mix_wire_of, provider_wire_of, coco_model_of, provider_record_wf,
};
use crate::addr::HostAddress;

verus! {

/// Failures of the health-check engine.
#[derive(Clone, Copy, Debug, PartialEq, Eq, Structural)]
pub enum HealthCheckError {
    /// More probe rounds were asked for than the one-byte tag can tell
    /// apart.
    TooManyIterations,
}

/// The index of the first score keyed by the given identity bytes.
pub open spec fn first_score_index(s: Seq<NodeScoreV>, k: Seq<u8>) -> Option<int>
    decreases s.len(),
{
    if s.len() == 0 {
        None
    } else if s.first().pub_key == k {
        Some(0)
    } else {
        match first_score_index(s.drop_first(), k) {
            Some(i) => Some(i + 1),
            None => None,
        }
    }
}

/// What `first_score_index` finds: the first matching entry, or none when
/// no entry matches.
pub proof fn lemma_first_score_index(s: Seq<NodeScoreV>, k: Seq<u8>)
    ensures
        match first_score_index(s, k) {
            None => forall|j: int| 0 <= j < s.len() ==> s[j].pub_key != k,
            Some(i) => 0 <= i < s.len() && s[i].pub_key == k && (forall|j: int|
                0 <= j < i ==> s[j].pub_key != k),
        },
    decreases s.len(),
{
    if s.len() > 0 && s.first().pub_key != k {
        lemma_first_score_index(s.drop_first(), k);
        match first_score_index(s.drop_first(), k) {
            None => {
                assert forall|j: int| 0 <= j < s.len() implies s[j].pub_key != k by {
                    if j == 0 {
                        assert(s[0] == s.first());
                    } else {
                        assert(s.drop_first()[j - 1] == s[j]);
                    }
                }
            },
            Some(i0) => {
                assert(s.drop_first()[i0] == s[i0 + 1]);
                assert forall|j: int| 0 <= j < i0 + 1 implies s[j].pub_key != k by {
                    if j == 0 {
                        assert(s[0] == s.first());
                    } else {
                        assert(s.drop_first()[j - 1] == s[j]);
                    }
                }
            },
        }
    }
}

/// A score sequence is sorted ascending by the derived score.
pub open spec fn sorted_scores(s: Seq<NodeScoreV>) -> bool {
    forall|i: int, j: int| 0 <= i <= j < s.len() ==> score_le(s[i], s[j])
}

/// Inserting an element anywhere adds exactly it to the multiset.
proof fn lemma_to_multiset_insert<A>(s: Seq<A>, p: int, x: A)
    requires
        0 <= p <= s.len(),
    ensures
        s.insert(p, x).to_multiset() == s.to_multiset().insert(x),
{
    broadcast use vstd::seq_lib::group_to_multiset_ensures;

    let s2 = s.insert(p, x);
    assert(s2.remove(p) =~= s);
    assert(s2[p] == x);
    assert(s2.remove(p).to_multiset() =~= s2.to_multiset().remove(x));
    assert(s2.contains(x));
    assert(s2.to_multiset().count(x) > 0);
    assert(s2.to_multiset() =~= s.to_multiset().insert(x));
}

/// The result of one health-check run: one score per probed node.
pub struct HealthCheckResult {
    scores: Vec<NodeScore>,
}

impl View for HealthCheckResult {
    type V = Seq<NodeScoreV>;

    closed spec fn view(&self) -> Seq<NodeScoreV> {
        seq_views(self.scores@)
    }
}

/// Where a fresh score slots into a sorted run: the first position whose
/// score exceeds the new one.
fn insert_position(out: &Vec<NodeScore>, x: &NodeScore) -> (p: usize)
    ensures
        p <= out@.len(),
        forall|q: int| 0 <= q < p ==> score_le(#[trigger] out@[q]@, x@),
        p < out@.len() ==> !score_le(out@[p as int]@, x@),
{
    let mut p: usize = 0;
    while p < out.len() && out[p].le(x)
        invariant
            p <= out@.len(),
            forall|q: int| 0 <= q < p ==> score_le(#[trigger] out@[q]@, x@),
        decreases out@.len() - p,
    {
        p = p + 1;
    }
    p
}

impl HealthCheckResult {
    /// Wraps a vector of node scores as a run's result.
    pub fn from_scores(scores: Vec<NodeScore>) -> (r: HealthCheckResult)
        ensures
            r@ == seq_views(scores@),
    {
        HealthCheckResult { scores }
    }

    /// The scores, in their current order.
    pub fn scores(&self) -> (r: &Vec<NodeScore>)
        ensures
            seq_views(r@) == self@,
    {
        &self.scores
    }

    /// Reorders the scores ascending by derived score; the collection of
    /// scores itself is unchanged.
    pub fn sort_scores(&mut self)
        ensures
            sorted_scores(final(self)@),
            final(self)@.to_multiset() == old(self)@.to_multiset(),
    {
        broadcast use vstd::seq_lib::group_to_multiset_ensures;

        let mut out: Vec<NodeScore> = Vec::new();
        let mut i: usize = 0;
        while i < self.scores.len()
            invariant
                i <= self.scores@.len(),
                sorted_scores(seq_views(out@)),
                seq_views(out@).to_multiset() == seq_views(self.scores@).take(
                    i as int,
                ).to_multiset(),
            decreases self.scores@.len() - i,
        {
            let x = self.scores[i].duplicate();
            let ghost xv = x@;
            let p = insert_position(&out, &x);
            let ghost outpre = seq_views(out@);
            out.insert(p, x);
            i = i + 1;
            proof {
                assert(seq_views(out@) =~= outpre.insert(p as int, xv));
                lemma_to_multiset_insert(outpre, p as int, xv);
                assert(seq_views(self.scores@).take(i as int).drop_last() =~= seq_views(
                    self.scores@,
                ).take(i - 1));
                assert(seq_views(self.scores@).take(i as int).last() == xv);
                assert(seq_views(self.scores@).take(i as int) =~= seq_views(self.scores@).take(
                    i - 1,
                ).push(xv));
                (seq_views(self.scores@).take(i - 1)).to_multiset_ensures();
                assert(seq_views(self.scores@).take(i - 1).push(xv).to_multiset() == seq_views(
                    self.scores@,
                ).take(i - 1).to_multiset().insert(xv));
                assert forall|a: int, b: int|
                    0 <= a <= b < seq_views(out@).len() implies score_le(
                    seq_views(out@)[a],
                    seq_views(out@)[b],
                ) by {
                    let so = seq_views(out@);
                    if a < p && b < p {
                        assert(so[a] == outpre[a] && so[b] == outpre[b]);
                    } else if a < p && b == p {
                        assert(so[a] == outpre[a] && so[b] == xv);
                    } else if a < p && b > p {
                        assert(so[a] == outpre[a] && so[b] == outpre[b - 1]);
                    } else if a == p && b == p {
                        crate::score::lemma_score_le_total(xv, xv);
                    } else if a == p && b > p {
                        assert(so[a] == xv && so[b] == outpre[b - 1]);
                        assert(p < outpre.len() && !score_le(outpre[p as int], xv));
                        crate::score::lemma_score_le_total(outpre[p as int], xv);
                        assert(score_le(xv, outpre[p as int]));
                        assert(score_le(outpre[p as int], outpre[b - 1]));
                        crate::score::lemma_score_le_trans(xv, outpre[p as int], outpre[b - 1]);
                    } else {
                        assert(a > p && b > p);
                        assert(so[a] == outpre[a - 1] && so[b] == outpre[b - 1]);
                    }
                }
            }
        }
        proof {
            assert(seq_views(self.scores@).take(self.scores@.len() as int) =~= seq_views(
                self.scores@,
            ));
        }
        self.scores = out;
    }

    /// The probe counters recorded for the node with the given identity:
    /// `(received, sent)`, or nothing when the node was never scored.
    pub fn node_score(&self, key: &Vec<u8>) -> (r: Option<(u32, u32)>)
        ensures
            match first_score_index(self@, key@) {
                None => r is None,
                Some(i) => r matches Some(c) && c.0 == self@[i].received && c.1 == self@[i].sent
                    && score_wf(self@[i]),
            },
    {
        proof {
            lemma_first_score_index(self@, key@);
        }
        let mut j: usize = 0;
        while j < self.scores.len()
            invariant
                j <= self.scores@.len(),
                forall|q: int| 0 <= q < j ==> seq_views(self.scores@)[q].pub_key != key@,
            decreases self.scores@.len() - j,
        {
            if self.scores[j].has_key(key) {
                let (received, sent) = self.scores[j].check_bounds();
                proof {
                    lemma_first_score_index(self@, key@);
                    assert(self@[j as int].pub_key == key@);
                    let i = first_score_index(self@, key@)->Some_0;
                    assert(i == j);
                }
                return Some((received, sent));
            }
            j = j + 1;
        }
        None
    }
}

/// One more probe counted as sent for the node with the given identity;
/// unknown identities leave the scores unchanged.
pub open spec fn bump_sent_bytes(s: Seq<NodeScoreV>, k: Seq<u8>) -> Seq<NodeScoreV> {
    match first_score_index(s, k) {
        None => s,
        Some(i) => s.update(i, inc_sent(s[i])),
    }
}

/// As `bump_sent_bytes`, keyed by the base64 text of the identity.
pub open spec fn bump_sent_hop(s: Seq<NodeScoreV>, key_text: Seq<char>) -> Seq<NodeScoreV> {
    match b64url_decode_of(key_text) {
        None => s,
        Some(k) => bump_sent_bytes(s, k),
    }
}

/// One probe sent along a route: every hop's node is credited, in order.
pub open spec fn bump_sent_path(s: Seq<NodeScoreV>, path: Seq<PathHopV>) -> Seq<NodeScoreV>
    decreases path.len(),
{
    if path.len() == 0 {
        s
    } else {
        bump_sent_hop(bump_sent_path(s, path.drop_last()), path.last().pub_key)
    }
}

/// One probe sent along every route, in order.
pub open spec fn bump_sent_paths(s: Seq<NodeScoreV>, paths: Seq<Seq<PathHopV>>)
    -> Seq<NodeScoreV>
    decreases paths.len(),
{
    if paths.len() == 0 {
        s
    } else {
        bump_sent_path(bump_sent_paths(s, paths.drop_last()), paths.last())
    }
}

/// The given number of probe rounds, each sending along every route.
pub open spec fn bump_sent_rounds(s: Seq<NodeScoreV>, paths: Seq<Seq<PathHopV>>, rounds: nat)
    -> Seq<NodeScoreV>
    decreases rounds,
{
    if rounds == 0 {
        s
    } else {
        bump_sent_paths(bump_sent_rounds(s, paths, (rounds - 1) as nat), paths)
    }
}

/// One more probe counted as answered for the node with the given identity.
pub open spec fn bump_received_bytes(s: Seq<NodeScoreV>, k: Seq<u8>) -> Seq<NodeScoreV> {
    match first_score_index(s, k) {
        None => s,
        Some(i) => s.update(i, inc_received(s[i])),
    }
}

/// A path key split into its hops' identities: consecutive 32-byte chunks.
pub open spec fn key_chunks(k: Seq<u8>) -> Seq<Seq<u8>> {
    Seq::new(k.len() / 32, |i: int| k.subrange(32 * i, 32 * i + 32))
}

/// One answered probe along a path key: every hop's node is credited.
pub open spec fn bump_received_chunks(s: Seq<NodeScoreV>, chunks: Seq<Seq<u8>>)
    -> Seq<NodeScoreV>
    decreases chunks.len(),
{
    if chunks.len() == 0 {
        s
    } else {
        bump_received_bytes(bump_received_chunks(s, chunks.drop_last()), chunks.last())
    }
}

/// Every healthy path key credited, in order.
pub open spec fn bump_received_keys(s: Seq<NodeScoreV>, keys: Seq<Seq<u8>>) -> Seq<NodeScoreV>
    decreases keys.len(),
{
    if keys.len() == 0 {
        s
    } else {
        bump_received_chunks(bump_received_keys(s, keys.drop_last()), key_chunks(keys.last()))
    }
}

fn bump_sent_in(scores: &mut Vec<NodeScore>, k: &Vec<u8>)
    ensures
        seq_views(final(scores)@) == bump_sent_bytes(seq_views(old(scores)@), k@),
{
    proof {
        lemma_first_score_index(seq_views(scores@), k@);
    }
    let mut j: usize = 0;
    while j < scores.len()
        invariant
            j <= scores@.len(),
            *scores == *old(scores),
            forall|q: int| 0 <= q < j ==> seq_views(scores@)[q].pub_key != k@,
        decreases scores@.len() - j,
    {
        if scores[j].has_key(k) {
            proof {
                lemma_first_score_index(seq_views(scores@), k@);
                assert(seq_views(scores@)[j as int] == scores@[j as int]@);
                assert(seq_views(scores@)[j as int].pub_key == k@);
                let fsi = first_score_index(seq_views(scores@), k@);
                assert(fsi is Some);
                let i = fsi->Some_0;
                if i < j {
                    assert(seq_views(scores@)[i].pub_key != k@);
                }
                assert(fsi == Some(j as int));
            }
            let mut x = scores.remove(j);
            x.increase_sent_packet_count();
            scores.insert(j, x);
            proof {
                assert(scores@ =~= old(scores)@.update(j as int, scores@[j as int]));
                assert(seq_views(scores@) =~= bump_sent_bytes(seq_views(old(scores)@), k@));
            }
            return;
        }
        j = j + 1;
    }
    proof {
        lemma_first_score_index(seq_views(scores@), k@);
    }
}

fn bump_received_in(scores: &mut Vec<NodeScore>, k: &Vec<u8>)
    ensures
        seq_views(final(scores)@) == bump_received_bytes(seq_views(old(scores)@), k@),
{
    proof {
        lemma_first_score_index(seq_views(scores@), k@);
    }
    let mut j: usize = 0;
    while j < scores.len()
        invariant
            j <= scores@.len(),
            *scores == *old(scores),
            forall|q: int| 0 <= q < j ==> seq_views(scores@)[q].pub_key != k@,
        decreases scores@.len() - j,
    {
        if scores[j].has_key(k) {
            proof {
                lemma_first_score_index(seq_views(scores@), k@);
                assert(seq_views(scores@)[j as int] == scores@[j as int]@);
                assert(seq_views(scores@)[j as int].pub_key == k@);
                let fsi = first_score_index(seq_views(scores@), k@);
                assert(fsi is Some);
                let i = fsi->Some_0;
                if i < j {
                    assert(seq_views(scores@)[i].pub_key != k@);
                }
                assert(fsi == Some(j as int));
            }
            let mut x = scores.remove(j);
            x.increase_received_packet_count();
            scores.insert(j, x);
            proof {
                assert(scores@ =~= old(scores)@.update(j as int, scores@[j as int]));
                assert(seq_views(scores@) =~= bump_received_bytes(seq_views(old(scores)@), k@));
            }
            return;
        }
        j = j + 1;
    }
    proof {
        lemma_first_score_index(seq_views(scores@), k@);
    }
}

/// Splits a path key into its hops' 32-byte identities; a trailing shorter
/// remainder identifies no node and is ignored.
pub fn path_key_to_node_keys(k: &Vec<u8>) -> (r: Vec<Vec<u8>>)
    ensures
        seq_views(r@) == key_chunks(k@),
{
    proof {
        vstd::arithmetic::div_mod::lemma_fundamental_div_mod(k@.len() as int, 32);
    }
    let klen = k.len();
    let total = klen / 32;
    let mut r: Vec<Vec<u8>> = Vec::new();
    let mut c: usize = 0;
    while c < total
        invariant
            c <= total,
            klen == k@.len(),
            total == k@.len() / 32,
            32 * total <= k@.len(),
            seq_views(r@) == key_chunks(k@).take(c as int),
        decreases total - c,
    {
        let mut chunk: Vec<u8> = Vec::new();
        let mut t: usize = 0;
        proof {
            assert(32 * (c + 1) <= 32 * total);
        }
        while t < 32
            invariant
                t <= 32,
                c < total,
                klen == k@.len(),
                32 * total <= k@.len(),
                32 * c + 32 <= k@.len(),
                chunk@ == k@.subrange(32 * c as int, 32 * c + t as int),
            decreases 32 - t,
        {
            chunk.push(k[32 * c + t]);
            t = t + 1;
            assert(chunk@ =~= k@.subrange(32 * c as int, 32 * c + t as int));
        }
        let ghost pre = r@;
        let ghost cg = chunk;
        r.push(chunk);
        c = c + 1;
        proof {
            lemma_seq_views_push(pre, cg);
            assert(seq_views(r@) =~= key_chunks(k@).take(c as int));
        }
    }
    proof {
        assert(key_chunks(k@).take(total as int) =~= key_chunks(k@));
    }
    r
}

/// Whether some entry of the vector already bears the given identity.
fn scores_contain(scores: &Vec<NodeScore>, k: &Vec<u8>) -> (r: bool)
    ensures
        r == has_score_key(seq_views(scores@), k@),
{
    let mut j: usize = 0;
    while j < scores.len()
        invariant
            j <= scores@.len(),
            forall|q: int| 0 <= q < j ==> (#[trigger] seq_views(scores@)[q]).pub_key != k@,
        decreases scores@.len() - j,
    {
        if scores[j].has_key(k) {
            proof {
                assert(seq_views(scores@)[j as int].pub_key == k@);
            }
            return true;
        }
        proof {
            assert(seq_views(scores@)[j as int] == scores@[j as int]@);
        }
        j = j + 1;
    }
    false
}

fn init_scores(mixes: &Vec<MixNode>, providers: &Vec<MixProviderNode>) -> (r: Vec<NodeScore>)
    ensures
        seq_views(r@) == zero_scores_of(seq_views(mixes@), seq_views(providers@)),
{
    let mut r: Vec<NodeScore> = Vec::new();
    let mut i: usize = 0;
    proof {
        assert(seq_views(r@) =~= Seq::<NodeScoreV>::empty());
    }
    while i < mixes.len()
        invariant
            i <= mixes@.len(),
            seq_views(r@) == zero_mix_scores_from(
                Seq::empty(),
                seq_views(mixes@).take(i as int),
            ),
        decreases mixes@.len() - i,
    {
        proof {
            assert(seq_views(mixes@).take(i + 1).drop_last() =~= seq_views(mixes@).take(i as int));
            assert(seq_views(mixes@).take(i + 1).last() == mixes@[i as int]@);
        }
        match b64url_decode(&mixes[i].pub_key) {
            Some(k) => {
                if !scores_contain(&r, &k) {
                    let ghost pre = r@;
                    let s = NodeScore::new(k);
                    let ghost sg = s;
                    r.push(s);
                    proof {
                        lemma_seq_views_push(pre, sg);
                    }
                }
            },
            None => {},
        }
        i = i + 1;
        assert(seq_views(r@) =~= zero_mix_scores_from(
            Seq::empty(),
            seq_views(mixes@).take(i as int),
        ));
    }
    proof {
        assert(seq_views(mixes@).take(mixes@.len() as int) =~= seq_views(mixes@));
    }
    let ghost base = zero_mix_scores_from(Seq::empty(), seq_views(mixes@));
    let mut j: usize = 0;
    while j < providers.len()
        invariant
            j <= providers@.len(),
            base == zero_mix_scores_from(Seq::empty(), seq_views(mixes@)),
            seq_views(r@) == zero_provider_scores_from(
                base,
                seq_views(providers@).take(j as int),
            ),
        decreases providers@.len() - j,
    {
        proof {
            assert(seq_views(providers@).take(j + 1).drop_last() =~= seq_views(providers@).take(
                j as int,
            ));
            assert(seq_views(providers@).take(j + 1).last() == providers@[j as int]@);
        }
        match b64url_decode(&providers[j].pub_key) {
            Some(k) => {
                if !scores_contain(&r, &k) {
                    let ghost pre = r@;
                    let s = NodeScore::new(k);
                    let ghost sg = s;
                    r.push(s);
                    proof {
                        lemma_seq_views_push(pre, sg);
                    }
                }
            },
            None => {},
        }
        j = j + 1;
        assert(seq_views(r@) =~= zero_provider_scores_from(
            base,
            seq_views(providers@).take(j as int),
        ));
    }
    proof {
        assert(seq_views(providers@).take(providers@.len() as int) =~= seq_views(providers@));
    }
    r
}

impl HealthCheckResult {
    /// The all-zero result over the given nodes: the network was unhealthy
    /// and nothing could be probed.  One score entry stands per distinct
    /// decoded identity, in first-appearance order, mixes before providers,
    /// as a map keyed by the identity bytes would hold them.
    pub fn zero_score(mixes: &Vec<MixNode>, providers: &Vec<MixProviderNode>) -> (r:
        HealthCheckResult)
        ensures
            r@ == zero_scores_of(seq_views(mixes@), seq_views(providers@)),
    {
        HealthCheckResult { scores: init_scores(mixes, providers) }
    }

    /// One whole health-check run over already-converted nodes.
    ///
    /// The caller sends one probe per route and round (the library
    /// enumerates the routes; sending is input/output) and hands back the
    /// path keys it could resolve as healthy.  The result counts, per node,
    /// every probe sent through it and every healthy route through it.  At
    /// most 255 rounds fit the one-byte probe tag: more are refused.  When
    /// no route exists, every node scores zero.  One counting entry stands
    /// per distinct node identity, however many records carry it.
    pub fn calculate(
        mixes: &Vec<MixNode>,
        providers: &Vec<MixProviderNode>,
        iterations: usize,
        healthy_path_keys: &Vec<Vec<u8>>,
    ) -> (r: Result<HealthCheckResult, HealthCheckError>)
        ensures
            ({
                let ms = seq_views(mixes@);
                let ps = seq_views(providers@);
                let l1 = mixes_of_layer(ms, 1);
                let l2 = mixes_of_layer(ms, 2);
                let l3 = mixes_of_layer(ms, 3);
                let empty = l1.len() == 0 || l2.len() == 0 || l3.len() == 0 || ps.len() == 0;
                &&& (r is Err <==> iterations > 255)
                &&& (r matches Err(e) ==> e == HealthCheckError::TooManyIterations)
                &&& (iterations <= 255 && empty ==> (r matches Ok(h) && h@ == zero_scores_of(
                    ms,
                    ps,
                )))
                &&& (iterations <= 255 && !empty ==> (r matches Ok(h) && h@ == bump_received_keys(
                    bump_sent_rounds(
                        zero_scores_of(ms, ps),
                        paths_product(l1, l2, l3, ps),
                        iterations as nat,
                    ),
                    seq_views(healthy_path_keys@),
                )))
            }),
    {
        if iterations > 255 {
            return Err(HealthCheckError::TooManyIterations);
        }
        let paths = match all_paths_from_nodes(mixes, providers) {
            Ok(p) => p,
            Err(_) => {
                return Ok(HealthCheckResult::zero_score(mixes, providers));
            },
        };
        let mut scores = init_scores(mixes, providers);
        let ghost z = seq_views(scores@);
        let ghost gpaths = paths_views(paths@);
        let mut it: usize = 0;
        while it < iterations
            invariant
                it <= iterations,
                gpaths == paths_views(paths@),
                seq_views(scores@) == bump_sent_rounds(z, gpaths, it as nat),
            decreases iterations - it,
        {
            let mut pi: usize = 0;
            while pi < paths.len()
                invariant
                    pi <= paths@.len(),
                    gpaths == paths_views(paths@),
                    seq_views(scores@) == bump_sent_paths(
                        bump_sent_rounds(z, gpaths, it as nat),
                        gpaths.take(pi as int),
                    ),
                decreases paths@.len() - pi,
            {
                let ghost round = bump_sent_rounds(z, gpaths, it as nat);
                let mut h: usize = 0;
                while h < paths[pi].len()
                    invariant
                        pi < paths@.len(),
                        h <= paths@[pi as int]@.len(),
                        gpaths == paths_views(paths@),
                        round == bump_sent_rounds(z, gpaths, it as nat),
                        seq_views(scores@) == bump_sent_path(
                            bump_sent_paths(round, gpaths.take(pi as int)),
                            gpaths[pi as int].take(h as int),
                        ),
                    decreases paths@[pi as int]@.len() - h,
                {
                    proof {
                        assert(gpaths[pi as int] == seq_views(paths@[pi as int]@));
                        assert(gpaths[pi as int].take(h + 1).drop_last() =~= gpaths[pi as int].take(
                            h as int,
                        ));
                        assert(gpaths[pi as int].take(h + 1).last() == gpaths[pi as int][h as int]);
                    }
                    match b64url_decode(&paths[pi][h].pub_key) {
                        Some(kb) => {
                            bump_sent_in(&mut scores, &kb);
                        },
                        None => {},
                    }
                    h = h + 1;
                }
                pi = pi + 1;
                proof {
                    assert(gpaths[pi - 1].take(gpaths[pi - 1].len() as int) =~= gpaths[pi - 1]);
                    assert(gpaths.take(pi as int).drop_last() =~= gpaths.take(pi - 1));
                    assert(gpaths.take(pi as int).last() == gpaths[pi - 1]);
                }
            }
            it = it + 1;
            proof {
                assert(gpaths.take(gpaths.len() as int) =~= gpaths);
            }
        }
        let ghost after_sent = bump_sent_rounds(z, gpaths, iterations as nat);
        let mut ki: usize = 0;
        while ki < healthy_path_keys.len()
            invariant
                ki <= healthy_path_keys@.len(),
                after_sent == bump_sent_rounds(z, gpaths, iterations as nat),
                seq_views(scores@) == bump_received_keys(
                    after_sent,
                    seq_views(healthy_path_keys@).take(ki as int),
                ),
            decreases healthy_path_keys@.len() - ki,
        {
            let ghost sofar = bump_received_keys(
                after_sent,
                seq_views(healthy_path_keys@).take(ki as int),
            );
            let chunks = path_key_to_node_keys(&healthy_path_keys[ki]);
            let mut ci: usize = 0;
            while ci < chunks.len()
                invariant
                    ci <= chunks@.len(),
                    ki < healthy_path_keys@.len(),
                    seq_views(chunks@) == key_chunks(healthy_path_keys@[ki as int]@),
                    sofar == bump_received_keys(
                        after_sent,
                        seq_views(healthy_path_keys@).take(ki as int),
                    ),
                    seq_views(scores@) == bump_received_chunks(
                        sofar,
                        seq_views(chunks@).take(ci as int),
                    ),
                decreases chunks@.len() - ci,
            {
                proof {
                    assert(seq_views(chunks@).take(ci + 1).drop_last() =~= seq_views(chunks@).take(
                        ci as int,
                    ));
                    assert(seq_views(chunks@).take(ci + 1).last() == seq_views(
                        chunks@,
                    )[ci as int]);
                }
                bump_received_in(&mut scores, &chunks[ci]);
                ci = ci + 1;
            }
            ki = ki + 1;
            proof {
                assert(seq_views(chunks@).take(chunks@.len() as int) =~= seq_views(chunks@));
                assert(seq_views(healthy_path_keys@).take(ki as int).drop_last() =~= seq_views(
                    healthy_path_keys@,
                ).take(ki - 1));
                assert(seq_views(healthy_path_keys@).take(ki as int).last() == healthy_path_keys@[
                    ki - 1]@);
            }
        }
        proof {
            assert(seq_views(healthy_path_keys@).take(healthy_path_keys@.len() as int)
                =~= seq_views(healthy_path_keys@));
        }
        Ok(HealthCheckResult { scores })
    }
}

/// Whether a mix node survives filtering: its identity decodes, it was
/// scored, and its score lies strictly above the threshold.
pub open spec fn mix_kept(scores: Seq<NodeScoreV>, n: MixNodeV, t: ScoreThreshold) -> bool {
    match b64url_decode_of(n.pub_key) {
        None => false,
        Some(k) => match first_score_index(scores, k) {
            None => false,
            Some(i) => score_above(scores[i], t),
        },
    }
}

/// Whether a provider survives filtering, as for mix nodes.
pub open spec fn provider_kept(
    scores: Seq<NodeScoreV>,
    n: MixProviderNodeV,
    t: ScoreThreshold,
) -> bool {
    match b64url_decode_of(n.pub_key) {
        None => false,
        Some(k) => match first_score_index(scores, k) {
            None => false,
            Some(i) => score_above(scores[i], t),
        },
    }
}

/// The mix nodes that survive filtering, in order.
pub open spec fn filter_mixes(scores: Seq<NodeScoreV>, ms: Seq<MixNodeV>, t: ScoreThreshold)
    -> Seq<MixNodeV>
    decreases ms.len(),
{
    if ms.len() == 0 {
        Seq::empty()
    } else {
        let rest = filter_mixes(scores, ms.drop_last(), t);
        if mix_kept(scores, ms.last(), t) {
            rest.push(ms.last())
        } else {
            rest
        }
    }
}

/// The providers that survive filtering, in order.
pub open spec fn filter_providers(
    scores: Seq<NodeScoreV>,
    ps: Seq<MixProviderNodeV>,
    t: ScoreThreshold,
) -> Seq<MixProviderNodeV>
    decreases ps.len(),
{
    if ps.len() == 0 {
        Seq::empty()
    } else {
        let rest = filter_providers(scores, ps.drop_last(), t);
        if provider_kept(scores, ps.last(), t) {
            rest.push(ps.last())
        } else {
            rest
        }
    }
}

fn counts_above(received: u32, sent: u32, t: &ScoreThreshold) -> (r: bool)
    requires
        threshold_wf(*t),
    ensures
        forall|s: NodeScoreV|
            s.received == received && s.sent == sent ==> r == score_above(s, *t),
{
    match t {
        ScoreThreshold::NegativeInfinity => true,
        ScoreThreshold::PositiveInfinity => false,
        ScoreThreshold::Finite { num, den } => {
            let n: u64 = if sent == 0 {
                0
            } else {
                received as u64
            };
            let d: u64 = if sent == 0 {
                1
            } else {
                sent as u64
            };
            proof {
                assert((n as int) * (*den as int) <= 0xffff_ffff * 0xffff_ffff && (n as int) * (
                *den as int) >= 0 && (*num as int) * (d as int) <= 0x7fff_ffff_ffff_ffff
                    * 0xffff_ffff && (*num as int) * (d as int) >= -0x8000_0000_0000_0000
                    * 0xffff_ffff) by (nonlinear_arith)
                    requires
                        0 <= n <= 0xffff_ffff,
                        0 < *den <= 0xffff_ffff,
                        -0x8000_0000_0000_0000 <= *num <= 0x7fff_ffff_ffff_ffff,
                        0 < d <= 0xffff_ffff,
                ;
            }
            let lhs: i128 = (n as i128) * (*den as i128);
            let rhs: i128 = (*num as i128) * (d as i128);
            lhs > rhs
        },
    }
}

impl HealthCheckResult {
    /// A topology thinned to the mix and provider nodes whose score lies
    /// strictly above the threshold; unknown or unscored nodes are dropped,
    /// coco nodes pass through untouched.  A filtered topology is owed
    /// whenever every provider record of the snapshot is well formed;
    /// one malformed record refuses the whole snapshot.
    #[verifier::rlimit(40)]
    pub fn filter_topology_by_score(
        &self,
        topology: &Topology,
        resolved: &Vec<Option<HostAddress>>,
        score_threshold: &ScoreThreshold,
    ) -> (r: Option<Topology>)
        requires
            threshold_wf(*score_threshold),
            resolved@.len() == topology.mix_nodes@.len(),
        ensures
            r is Some <==> (forall|i: int|
                0 <= i < topology.mix_provider_nodes@.len() ==> provider_record_wf(
                    #[trigger] topology.mix_provider_nodes@[i]@,
                )),
            r matches Some(out) ==> ({
                let kept = filter_mixes(
                    self@,
                    resolved_mixes(seq_views(topology.mix_nodes@), resolved@),
                    *score_threshold,
                );
                &&& seq_views(out.mix_nodes@) == kept.map_values(
                    |n: MixNodeV| mix_wire_of(n),
                )
                &&& seq_views(out.coco_nodes@) == seq_views(topology.coco_nodes@)
                &&& exists|ps: Seq<MixProviderNodeV>|
                    {
                        &&& #[trigger] ps.len() == topology.mix_provider_nodes@.len()
                        &&& (forall|i: int|
                            0 <= i < ps.len() ==> provider_wire_of(#[trigger] ps[i])
                                == topology.mix_provider_nodes@[i]@)
                        &&& seq_views(out.mix_provider_nodes@) == filter_providers(
                            self@,
                            ps,
                            *score_threshold,
                        ).map_values(|n: MixProviderNodeV| provider_wire_of(n))
                    }
            }),
    {
        let mixes = topology.get_mix_nodes(resolved);
        let providers = match topology.get_mix_provider_nodes() {
            Some(p) => p,
            None => {
                return None;
            },
        };
        let mut kept_mixes: Vec<MixNode> = Vec::new();
        let mut i: usize = 0;
        while i < mixes.len()
            invariant
                i <= mixes@.len(),
                threshold_wf(*score_threshold),
                seq_views(kept_mixes@) == filter_mixes(
                    self@,
                    seq_views(mixes@).take(i as int),
                    *score_threshold,
                ),
            decreases mixes@.len() - i,
        {
            proof {
                assert(seq_views(mixes@).take(i + 1).drop_last() =~= seq_views(mixes@).take(
                    i as int,
                ));
                assert(seq_views(mixes@).take(i + 1).last() == mixes@[i as int]@);
            }
            match b64url_decode(&mixes[i].pub_key) {
                None => {},
                Some(kb) => {
                    match self.node_score(&kb) {
                        None => {
                            proof {
                                lemma_first_score_index(self@, kb@);
                            }
                        },
                        Some((received, sent)) => {
                            if counts_above(received, sent, score_threshold) {
                                let ghost pre = kept_mixes@;
                                let m = mixes[i].duplicate();
                                let ghost mg = m;
                                kept_mixes.push(m);
                                proof {
                                    lemma_seq_views_push(pre, mg);
                                }
                            }
                        },
                    }
                },
            }
            i = i + 1;
            assert(seq_views(kept_mixes@) =~= filter_mixes(
                self@,
                seq_views(mixes@).take(i as int),
                *score_threshold,
            ));
        }
        let mut kept_providers: Vec<MixProviderNode> = Vec::new();
        let mut j: usize = 0;
        while j < providers.len()
            invariant
                j <= providers@.len(),
                threshold_wf(*score_threshold),
                seq_views(kept_providers@) == filter_providers(
                    self@,
                    seq_views(providers@).take(j as int),
                    *score_threshold,
                ),
            decreases providers@.len() - j,
        {
            proof {
                assert(seq_views(providers@).take(j + 1).drop_last() =~= seq_views(
                    providers@,
                ).take(j as int));
                assert(seq_views(providers@).take(j + 1).last() == providers@[j as int]@);
            }
            match b64url_decode(&providers[j].pub_key) {
                None => {},
                Some(kb) => {
                    match self.node_score(&kb) {
                        None => {
                            proof {
                                lemma_first_score_index(self@, kb@);
                            }
                        },
                        Some((received, sent)) => {
                            if counts_above(received, sent, score_threshold) {
                                let ghost pre = kept_providers@;
                                let p = providers[j].duplicate();
                                let ghost pg = p;
                                kept_providers.push(p);
                                proof {
                                    lemma_seq_views_push(pre, pg);
                                }
                            }
                        },
                    }
                },
            }
            j = j + 1;
            assert(seq_views(kept_providers@) =~= filter_providers(
                self@,
                seq_views(providers@).take(j as int),
                *score_threshold,
            ));
        }
        let cocos = topology.get_coco_nodes();
        let out = Topology::new_from_nodes(&kept_mixes, &kept_providers, &cocos);
        proof {
            assert(seq_views(mixes@).take(mixes@.len() as int) =~= seq_views(mixes@));
            assert(seq_views(providers@).take(providers@.len() as int) =~= seq_views(providers@));
            assert(seq_views(out.coco_nodes@) =~= seq_views(topology.coco_nodes@));
            let ps = seq_views(providers@);
            assert(ps.len() == topology.mix_provider_nodes@.len());
            assert(forall|k: int|
                0 <= k < ps.len() ==> provider_wire_of(#[trigger] ps[k])
                    == topology.mix_provider_nodes@[k]@);
        }
        Some(out)
    }
}

/// Against a threshold above every score, filtering keeps no mix node and
/// no provider.
pub proof fn lemma_filter_positive_infinity(
    scores: Seq<NodeScoreV>,
    ms: Seq<MixNodeV>,
    ps: Seq<MixProviderNodeV>,
)
    ensures
        filter_mixes(scores, ms, ScoreThreshold::PositiveInfinity) == Seq::<MixNodeV>::empty(),
        filter_providers(scores, ps, ScoreThreshold::PositiveInfinity) == Seq::<
            MixProviderNodeV,
        >::empty(),
    decreases ms.len() + ps.len(),
{
    if ms.len() > 0 {
        lemma_filter_positive_infinity(scores, ms.drop_last(), ps);
    } else if ps.len() > 0 {
        lemma_filter_positive_infinity(scores, ms, ps.drop_last());
    }
}

/// Against a threshold below every score, filtering keeps exactly the nodes
/// that were scored at all: a node whose identity decodes and appears in
/// the score list always passes.
pub proof fn lemma_filter_negative_infinity(
    scores: Seq<NodeScoreV>,
    ms: Seq<MixNodeV>,
    ps: Seq<MixProviderNodeV>,
)
    requires
        forall|i: int|
            0 <= i < ms.len() ==> mix_kept(scores, #[trigger] ms[i], ScoreThreshold::NegativeInfinity),
        forall|i: int|
            0 <= i < ps.len() ==> provider_kept(
                scores,
                #[trigger] ps[i],
                ScoreThreshold::NegativeInfinity,
            ),
    ensures
        filter_mixes(scores, ms, ScoreThreshold::NegativeInfinity) == ms,
        filter_providers(scores, ps, ScoreThreshold::NegativeInfinity) == ps,
    decreases ms.len() + ps.len(),
{
    if ms.len() > 0 {
        assert(forall|i: int| 0 <= i < ms.drop_last().len() ==> ms.drop_last()[i] == ms[i]);
        lemma_filter_negative_infinity(scores, ms.drop_last(), ps);
        assert(ms.last() == ms[ms.len() - 1]);
        assert(filter_mixes(scores, ms, ScoreThreshold::NegativeInfinity) =~= ms);
    } else if ps.len() > 0 {
        assert(forall|i: int| 0 <= i < ps.drop_last().len() ==> ps.drop_last()[i] == ps[i]);
        lemma_filter_negative_infinity(scores, ms, ps.drop_last());
        assert(ps.last() == ps[ps.len() - 1]);
        assert(filter_providers(scores, ps, ScoreThreshold::NegativeInfinity) =~= ps);
    }
}

proof fn lemma_zero_mix_scores_unprobed(acc: Seq<NodeScoreV>, ms: Seq<MixNodeV>)
    requires
        forall|i: int| 0 <= i < acc.len() ==> (#[trigger] acc[i]).sent == 0 && acc[i].received
            == 0,
    ensures
        forall|i: int|
            0 <= i < zero_mix_scores_from(acc, ms).len() ==> (#[trigger] zero_mix_scores_from(
                acc,
                ms,
            )[i]).sent == 0 && zero_mix_scores_from(acc, ms)[i].received == 0,
    decreases ms.len(),
{
    if ms.len() > 0 {
        lemma_zero_mix_scores_unprobed(acc, ms.drop_last());
        let pre = zero_mix_scores_from(acc, ms.drop_last());
        assert forall|i: int|
            0 <= i < zero_mix_scores_from(acc, ms).len() implies (#[trigger] zero_mix_scores_from(
            acc,
            ms,
        )[i]).sent == 0 && zero_mix_scores_from(acc, ms)[i].received == 0 by {
            if i < pre.len() {
                assert(zero_mix_scores_from(acc, ms)[i] == pre[i]);
            }
        }
    }
}

proof fn lemma_zero_provider_scores_unprobed(acc: Seq<NodeScoreV>, ps: Seq<MixProviderNodeV>)
    requires
        forall|i: int| 0 <= i < acc.len() ==> (#[trigger] acc[i]).sent == 0 && acc[i].received
            == 0,
    ensures
        forall|i: int|
            0 <= i < zero_provider_scores_from(acc, ps).len() ==> (
            #[trigger] zero_provider_scores_from(acc, ps)[i]).sent == 0
                && zero_provider_scores_from(acc, ps)[i].received == 0,
    decreases ps.len(),
{
    if ps.len() > 0 {
        lemma_zero_provider_scores_unprobed(acc, ps.drop_last());
        let pre = zero_provider_scores_from(acc, ps.drop_last());
        assert forall|i: int|
            0 <= i < zero_provider_scores_from(acc, ps).len() implies (
        #[trigger] zero_provider_scores_from(acc, ps)[i]).sent == 0 && zero_provider_scores_from(
            acc,
            ps,
        )[i].received == 0 by {
            if i < pre.len() {
                assert(zero_provider_scores_from(acc, ps)[i] == pre[i]);
            }
        }
    }
}

proof fn lemma_received_noop_bytes(s: Seq<NodeScoreV>, k: Seq<u8>)
    requires
        forall|i: int| 0 <= i < s.len() ==> (#[trigger] s[i]).received >= s[i].sent,
    ensures
        bump_received_bytes(s, k) == s,
{
    lemma_first_score_index(s, k);
    match first_score_index(s, k) {
        None => {},
        Some(i) => {
            assert(inc_received(s[i]) == s[i]);
            assert(s.update(i, s[i]) =~= s);
        },
    }
}

proof fn lemma_received_noop_chunks(s: Seq<NodeScoreV>, chunks: Seq<Seq<u8>>)
    requires
        forall|i: int| 0 <= i < s.len() ==> (#[trigger] s[i]).received >= s[i].sent,
    ensures
        bump_received_chunks(s, chunks) == s,
    decreases chunks.len(),
{
    if chunks.len() > 0 {
        lemma_received_noop_chunks(s, chunks.drop_last());
        lemma_received_noop_bytes(s, chunks.last());
    }
}

proof fn lemma_received_noop_keys(s: Seq<NodeScoreV>, keys: Seq<Seq<u8>>)
    requires
        forall|i: int| 0 <= i < s.len() ==> (#[trigger] s[i]).received >= s[i].sent,
    ensures
        bump_received_keys(s, keys) == s,
    decreases keys.len(),
{
    if keys.len() > 0 {
        lemma_received_noop_keys(s, keys.drop_last());
        lemma_received_noop_chunks(s, key_chunks(keys.last()));
    }
}

proof fn lemma_zero_mix_scores_distinct(acc: Seq<NodeScoreV>, ms: Seq<MixNodeV>)
    requires
        distinct_keys(acc),
    ensures
        distinct_keys(zero_mix_scores_from(acc, ms)),
    decreases ms.len(),
{
    if ms.len() > 0 {
        lemma_zero_mix_scores_distinct(acc, ms.drop_last());
        let pre = zero_mix_scores_from(acc, ms.drop_last());
        let out = zero_mix_scores_from(acc, ms);
        assert forall|i: int, j: int|
            0 <= i < j < out.len() implies (#[trigger] out[i]).pub_key != (
        #[trigger] out[j]).pub_key by {
            if j < pre.len() {
                assert(out[i] == pre[i] && out[j] == pre[j]);
            } else if out.len() > pre.len() {
                assert(out[i] == pre[i]);
                assert(!has_score_key(pre, out[j].pub_key));
            }
        }
    }
}

proof fn lemma_zero_provider_scores_distinct(acc: Seq<NodeScoreV>, ps: Seq<MixProviderNodeV>)
    requires
        distinct_keys(acc),
    ensures
        distinct_keys(zero_provider_scores_from(acc, ps)),
    decreases ps.len(),
{
    if ps.len() > 0 {
        lemma_zero_provider_scores_distinct(acc, ps.drop_last());
        let pre = zero_provider_scores_from(acc, ps.drop_last());
        let out = zero_provider_scores_from(acc, ps);
        assert forall|i: int, j: int|
            0 <= i < j < out.len() implies (#[trigger] out[i]).pub_key != (
        #[trigger] out[j]).pub_key by {
            if j < pre.len() {
                assert(out[i] == pre[i] && out[j] == pre[j]);
            } else if out.len() > pre.len() {
                assert(out[i] == pre[i]);
                assert(!has_score_key(pre, out[j].pub_key));
            }
        }
    }
}

/// The zero scores carry pairwise distinct identities: one entry per
/// distinct decoded identity among the given nodes, and nothing else.
pub proof fn lemma_zero_scores_distinct(ms: Seq<MixNodeV>, ps: Seq<MixProviderNodeV>)
    ensures
        distinct_keys(zero_scores_of(ms, ps)),
{
    lemma_zero_mix_scores_distinct(Seq::empty(), ms);
    lemma_zero_provider_scores_distinct(zero_mix_scores_from(Seq::empty(), ms), ps);
}

/// The identities of a score sequence, in order.
pub open spec fn score_keys(s: Seq<NodeScoreV>) -> Seq<Seq<u8>> {
    s.map_values(|x: NodeScoreV| x.pub_key)
}

proof fn lemma_keys_bump_sent_bytes(s: Seq<NodeScoreV>, k: Seq<u8>)
    ensures
        score_keys(bump_sent_bytes(s, k)) == score_keys(s),
{
    lemma_first_score_index(s, k);
    assert(score_keys(bump_sent_bytes(s, k)) =~= score_keys(s));
}

proof fn lemma_keys_bump_sent_hop(s: Seq<NodeScoreV>, key_text: Seq<char>)
    ensures
        score_keys(bump_sent_hop(s, key_text)) == score_keys(s),
{
    match b64url_decode_of(key_text) {
        None => {},
        Some(k) => {
            lemma_keys_bump_sent_bytes(s, k);
        },
    }
}

proof fn lemma_keys_bump_sent_path(s: Seq<NodeScoreV>, path: Seq<PathHopV>)
    ensures
        score_keys(bump_sent_path(s, path)) == score_keys(s),
    decreases path.len(),
{
    if path.len() > 0 {
        lemma_keys_bump_sent_path(s, path.drop_last());
        lemma_keys_bump_sent_hop(bump_sent_path(s, path.drop_last()), path.last().pub_key);
    }
}

proof fn lemma_keys_bump_sent_paths(s: Seq<NodeScoreV>, paths: Seq<Seq<PathHopV>>)
    ensures
        score_keys(bump_sent_paths(s, paths)) == score_keys(s),
    decreases paths.len(),
{
    if paths.len() > 0 {
        lemma_keys_bump_sent_paths(s, paths.drop_last());
        lemma_keys_bump_sent_path(bump_sent_paths(s, paths.drop_last()), paths.last());
    }
}

proof fn lemma_keys_bump_sent_rounds(s: Seq<NodeScoreV>, paths: Seq<Seq<PathHopV>>, rounds: nat)
    ensures
        score_keys(bump_sent_rounds(s, paths, rounds)) == score_keys(s),
    decreases rounds,
{
    if rounds > 0 {
        lemma_keys_bump_sent_rounds(s, paths, (rounds - 1) as nat);
        lemma_keys_bump_sent_paths(bump_sent_rounds(s, paths, (rounds - 1) as nat), paths);
    }
}

proof fn lemma_keys_bump_received_bytes(s: Seq<NodeScoreV>, k: Seq<u8>)
    ensures
        score_keys(bump_received_bytes(s, k)) == score_keys(s),
{
    lemma_first_score_index(s, k);
    assert(score_keys(bump_received_bytes(s, k)) =~= score_keys(s));
}

proof fn lemma_keys_bump_received_chunks(s: Seq<NodeScoreV>, chunks: Seq<Seq<u8>>)
    ensures
        score_keys(bump_received_chunks(s, chunks)) == score_keys(s),
    decreases chunks.len(),
{
    if chunks.len() > 0 {
        lemma_keys_bump_received_chunks(s, chunks.drop_last());
        lemma_keys_bump_received_bytes(bump_received_chunks(s, chunks.drop_last()), chunks.last());
    }
}

proof fn lemma_keys_bump_received_keys(s: Seq<NodeScoreV>, keys: Seq<Seq<u8>>)
    ensures
        score_keys(bump_received_keys(s, keys)) == score_keys(s),
    decreases keys.len(),
{
    if keys.len() > 0 {
        lemma_keys_bump_received_keys(s, keys.drop_last());
        lemma_keys_bump_received_chunks(
            bump_received_keys(s, keys.drop_last()),
            key_chunks(keys.last()),
        );
    }
}

/// A health-check run reports one entry per distinct node identity and
/// nothing else: it starts from the deduplicated zero scores, and probing
/// only updates counters in place, never adding, dropping or re-keying an
/// entry, so the reported identities are exactly the zero scores' and stay
/// pairwise distinct.
pub proof fn lemma_run_identities(
    ms: Seq<MixNodeV>,
    ps: Seq<MixProviderNodeV>,
    paths: Seq<Seq<PathHopV>>,
    rounds: nat,
    keys: Seq<Seq<u8>>,
)
    ensures
        score_keys(bump_received_keys(bump_sent_rounds(zero_scores_of(ms, ps), paths, rounds), keys))
            == score_keys(zero_scores_of(ms, ps)),
        distinct_keys(
            bump_received_keys(bump_sent_rounds(zero_scores_of(ms, ps), paths, rounds), keys),
        ),
{
    let z = zero_scores_of(ms, ps);
    lemma_keys_bump_sent_rounds(z, paths, rounds);
    lemma_keys_bump_received_keys(bump_sent_rounds(z, paths, rounds), keys);
    lemma_zero_scores_distinct(ms, ps);
    let out = bump_received_keys(bump_sent_rounds(z, paths, rounds), keys);
    assert(score_keys(out).len() == score_keys(z).len());
    assert forall|i: int, j: int|
        0 <= i < j < out.len() implies (#[trigger] out[i]).pub_key != (
    #[trigger] out[j]).pub_key by {
        assert(out[i].pub_key == score_keys(out)[i] && out[j].pub_key == score_keys(out)[j]);
        assert(score_keys(out)[i] == score_keys(z)[i] && score_keys(out)[j] == score_keys(z)[j]);
        assert(score_keys(z)[i] == z[i].pub_key && score_keys(z)[j] == z[j].pub_key);
        assert(z[i].pub_key != z[j].pub_key);
    }
}

/// With no probe rounds, nothing was sent, so nothing can be credited as
/// received: whatever path keys come back, every reported score is `0 / 0`.
pub proof fn lemma_zero_rounds_all_zero(
    ms: Seq<MixNodeV>,
    ps: Seq<MixProviderNodeV>,
    paths: Seq<Seq<PathHopV>>,
    keys: Seq<Seq<u8>>,
)
    ensures
        bump_received_keys(bump_sent_rounds(zero_scores_of(ms, ps), paths, 0), keys)
            == zero_scores_of(ms, ps),
{
    let z = zero_scores_of(ms, ps);
    lemma_zero_mix_scores_unprobed(Seq::empty(), ms);
    lemma_zero_provider_scores_unprobed(zero_mix_scores_from(Seq::empty(), ms), ps);
    lemma_received_noop_keys(z, keys);
}

} // verus!
