//! Model of the overlay's membership: node descriptors with resolved
//! addresses, and route enumeration across the three mix layers.

use vstd::prelude::*;
use crate::addr::HostAddress;

verus! {

/// Maps a sequence to the sequence of its elements' abstract views.
pub open spec fn seq_views<T: View>(s: Seq<T>) -> Seq<T::V> {
    s.map_values(|x: T| x@)
}

/// Taking views commutes with appending an element.
pub broadcast proof fn lemma_seq_views_push<T: View>(s: Seq<T>, x: T)
    ensures
        #[trigger] seq_views(s.push(x)) == seq_views(s).push(x@),
{
    assert(seq_views(s.push(x)) =~= seq_views(s).push(x@));
}

/// Taking views commutes with removing an element.
pub broadcast proof fn lemma_seq_views_remove<T: View>(s: Seq<T>, i: int)
    requires
        0 <= i < s.len(),
    ensures
        #[trigger] seq_views(s.remove(i)) == seq_views(s).remove(i),
{
    assert(seq_views(s.remove(i)) =~= seq_views(s).remove(i));
}

/// Mapping a function over a sequence commutes with appending an element.
pub broadcast proof fn lemma_map_values_push<A, B>(s: Seq<A>, x: A, f: spec_fn(A) -> B)
    ensures
        #[trigger] s.push(x).map_values(f) == s.map_values(f).push(f(x)),
{
    assert(s.push(x).map_values(f) =~= s.map_values(f).push(f(x)));
}

/// A prefix one longer is the prefix extended by the next element.
pub broadcast proof fn lemma_take_push<A>(s: Seq<A>, i: int)
    requires
        0 <= i < s.len(),
    ensures
        #[trigger] s.take(i + 1) == s.take(i).push(s[i]),
{
    assert(s.take(i + 1) =~= s.take(i).push(s[i]));
}

/// A validator-layer node, carried verbatim from the directory.
pub struct CocoNode {
    pub host: String,
    pub pub_key: String,
    pub last_seen: u64,
    pub version: String,
}

pub struct CocoNodeV {
    pub host: Seq<char>,
    pub pub_key: Seq<char>,
    pub last_seen: u64,
    pub version: Seq<char>,
}

impl View for CocoNode {
    type V = CocoNodeV;

    open spec fn view(&self) -> CocoNodeV {
        CocoNodeV {
            host: self.host@,
            pub_key: self.pub_key@,
            last_seen: self.last_seen,
            version: self.version@,
        }
    }
}

impl CocoNode {
    /// A structural copy of the node.
    pub fn duplicate(&self) -> (r: CocoNode)
        ensures
            r@ == self@,
    {
        CocoNode {
            host: self.host.clone(),
            pub_key: self.pub_key.clone(),
            last_seen: self.last_seen,
            version: self.version.clone(),
        }
    }
}

/// An interior forwarding router, at one of the three mix layers, with its
/// host already resolved to a socket address.
pub struct MixNode {
    pub host: HostAddress,
    pub pub_key: String,
    pub layer: u64,
    pub last_seen: u64,
    pub version: String,
}

pub struct MixNodeV {
    pub host: HostAddress,
    pub pub_key: Seq<char>,
    pub layer: u64,
    pub last_seen: u64,
    pub version: Seq<char>,
}

impl View for MixNode {
    type V = MixNodeV;

    open spec fn view(&self) -> MixNodeV {
        MixNodeV {
            host: self.host,
            pub_key: self.pub_key@,
            layer: self.layer,
            last_seen: self.last_seen,
            version: self.version@,
        }
    }
}

impl MixNode {
    /// A structural copy of the node.
    pub fn duplicate(&self) -> (r: MixNode)
        ensures
            r@ == self@,
    {
        MixNode {
            host: self.host,
            pub_key: self.pub_key.clone(),
            layer: self.layer,
            last_seen: self.last_seen,
            version: self.version.clone(),
        }
    }
}

/// One registered client of a provider, as the directory publishes it.
pub struct MixProviderClient {
    pub pub_key: String,
}

pub struct MixProviderClientV {
    pub pub_key: Seq<char>,
}

impl View for MixProviderClient {
    type V = MixProviderClientV;

    open spec fn view(&self) -> MixProviderClientV {
        MixProviderClientV { pub_key: self.pub_key@ }
    }
}

impl MixProviderClient {
    /// A structural copy of the record.
    pub fn duplicate(&self) -> (r: MixProviderClient)
        ensures
            r@ == self@,
    {
        MixProviderClient { pub_key: self.pub_key.clone() }
    }
}

/// A terminal store-and-forward endpoint, with both listeners resolved.
pub struct MixProviderNode {
    pub client_listener: HostAddress,
    pub mixnet_listener: HostAddress,
    pub pub_key: String,
    pub registered_clients: Vec<MixProviderClient>,
    pub last_seen: u64,
    pub version: String,
}

pub struct MixProviderNodeV {
    pub client_listener: HostAddress,
    pub mixnet_listener: HostAddress,
    pub pub_key: Seq<char>,
    pub registered_clients: Seq<MixProviderClientV>,
    pub last_seen: u64,
    pub version: Seq<char>,
}

impl View for MixProviderNode {
    type V = MixProviderNodeV;

    open spec fn view(&self) -> MixProviderNodeV {
        MixProviderNodeV {
            client_listener: self.client_listener,
            mixnet_listener: self.mixnet_listener,
            pub_key: self.pub_key@,
            registered_clients: seq_views(self.registered_clients@),
            last_seen: self.last_seen,
            version: self.version@,
        }
    }
}

impl MixProviderNode {
    /// A structural copy of the node.
    pub fn duplicate(&self) -> (r: MixProviderNode)
        ensures
            r@ == self@,
    {
        let mut clients: Vec<MixProviderClient> = Vec::new();
        let mut i: usize = 0;
        while i < self.registered_clients.len()
            invariant
                i <= self.registered_clients@.len(),
                seq_views(clients@) == seq_views(self.registered_clients@).take(i as int),
            decreases self.registered_clients@.len() - i,
        {
            let ghost pre = clients@;
            let c = self.registered_clients[i].duplicate();
            let ghost cg = c;
            clients.push(c);
            i = i + 1;
            proof {
                lemma_seq_views_push(pre, cg);
                assert(seq_views(clients@) =~= seq_views(self.registered_clients@).take(i as int));
            }
        }
        proof {
            assert(seq_views(self.registered_clients@).take(self.registered_clients@.len() as int)
                =~= seq_views(self.registered_clients@));
        }
        MixProviderNode {
            client_listener: self.client_listener,
            mixnet_listener: self.mixnet_listener,
            pub_key: self.pub_key.clone(),
            registered_clients: clients,
            last_seen: self.last_seen,
            version: self.version.clone(),
        }
    }
}

/// Failures of the topology model.
#[derive(Clone, Copy, Debug, PartialEq, Eq, Structural)]
pub enum TopologyError {
    /// A mix node's host string resolved to no socket address.
    HostUnresolvable,
    /// A layer, or the provider set, is empty: no route exists.
    InsufficientNodes,
    /// A provider record carries a listener that is not a socket address.
    MalformedProviderRecord,
}

/// One hop of a route: where to send, and the hop's public key.
pub struct PathHop {
    pub host: HostAddress,
    pub pub_key: String,
}

pub struct PathHopV {
    pub host: HostAddress,
    pub pub_key: Seq<char>,
}

impl View for PathHop {
    type V = PathHopV;

    open spec fn view(&self) -> PathHopV {
        PathHopV { host: self.host, pub_key: self.pub_key@ }
    }
}

/// The hop that routes through a mix node.
pub open spec fn hop_of_mix(m: MixNodeV) -> PathHopV {
    PathHopV { host: m.host, pub_key: m.pub_key }
}

/// The hop that ends a route at a provider's mixnet listener.
pub open spec fn hop_of_provider(p: MixProviderNodeV) -> PathHopV {
    PathHopV { host: p.mixnet_listener, pub_key: p.pub_key }
}

/// Builds the hop for a mix node.
pub fn mix_hop(m: &MixNode) -> (r: PathHop)
    ensures
        r@ == hop_of_mix(m@),
{
    PathHop { host: m.host, pub_key: m.pub_key.clone() }
}

/// Builds the final hop for a provider.
pub fn provider_hop(p: &MixProviderNode) -> (r: PathHop)
    ensures
        r@ == hop_of_provider(p@),
{
    PathHop { host: p.mixnet_listener, pub_key: p.pub_key.clone() }
}

/// The subsequence of mix nodes that sit in the given layer, in order.
pub open spec fn mixes_of_layer(s: Seq<MixNodeV>, layer: u64) -> Seq<MixNodeV>
    decreases s.len(),
{
    if s.len() == 0 {
        Seq::empty()
    } else {
        let rest = mixes_of_layer(s.drop_last(), layer);
        if s.last().layer == layer {
            rest.push(s.last())
        } else {
            rest
        }
    }
}

/// Collects the mix nodes of one layer, in the order of the input.
pub fn nodes_in_layer(mixes: &Vec<MixNode>, layer: u64) -> (r: Vec<MixNode>)
    ensures
        seq_views(r@) == mixes_of_layer(seq_views(mixes@), layer),
{
    let mut r: Vec<MixNode> = Vec::new();
    let mut i: usize = 0;
    while i < mixes.len()
        invariant
            i <= mixes@.len(),
            seq_views(r@) == mixes_of_layer(seq_views(mixes@.take(i as int)), layer),
        decreases mixes@.len() - i,
    {
        proof {
            assert(seq_views(mixes@.take(i + 1)).drop_last() =~= seq_views(mixes@.take(i as int)));
            assert(seq_views(mixes@.take(i + 1)).last() == mixes@[i as int]@);
        }
        if mixes[i].layer == layer {
            r.push(mixes[i].duplicate());
        }
        i = i + 1;
        assert(seq_views(r@) =~= mixes_of_layer(seq_views(mixes@.take(i as int)), layer));
    }
    proof {
        assert(mixes@.take(mixes@.len() as int) =~= mixes@);
    }
    r
}

/// Routes that extend the three fixed hops by every provider, in order.
pub open spec fn paths_from3(h1: PathHopV, h2: PathHopV, h3: PathHopV, ps: Seq<MixProviderNodeV>)
    -> Seq<Seq<PathHopV>>
    decreases ps.len(),
{
    if ps.len() == 0 {
        Seq::empty()
    } else {
        paths_from3(h1, h2, h3, ps.drop_last()).push(
            seq![h1, h2, h3, hop_of_provider(ps.last())],
        )
    }
}

/// Routes that extend two fixed hops by every third-layer node and provider.
pub open spec fn paths_from2(
    h1: PathHopV,
    h2: PathHopV,
    l3: Seq<MixNodeV>,
    ps: Seq<MixProviderNodeV>,
) -> Seq<Seq<PathHopV>>
    decreases l3.len(),
{
    if l3.len() == 0 {
        Seq::empty()
    } else {
        paths_from2(h1, h2, l3.drop_last(), ps) + paths_from3(
            h1,
            h2,
            hop_of_mix(l3.last()),
            ps,
        )
    }
}

/// Routes that extend one fixed hop by every choice of the later layers.
pub open spec fn paths_from1(
    h1: PathHopV,
    l2: Seq<MixNodeV>,
    l3: Seq<MixNodeV>,
    ps: Seq<MixProviderNodeV>,
) -> Seq<Seq<PathHopV>>
    decreases l2.len(),
{
    if l2.len() == 0 {
        Seq::empty()
    } else {
        paths_from1(h1, l2.drop_last(), l3, ps) + paths_from2(
            h1,
            hop_of_mix(l2.last()),
            l3,
            ps,
        )
    }
}

/// Every route through the three layers and a provider, as the Cartesian
/// product of the four sequences, enumerated in their order.
pub open spec fn paths_product(
    l1: Seq<MixNodeV>,
    l2: Seq<MixNodeV>,
    l3: Seq<MixNodeV>,
    ps: Seq<MixProviderNodeV>,
) -> Seq<Seq<PathHopV>>
    decreases l1.len(),
{
    if l1.len() == 0 {
        Seq::empty()
    } else {
        paths_product(l1.drop_last(), l2, l3, ps) + paths_from1(
            hop_of_mix(l1.last()),
            l2,
            l3,
            ps,
        )
    }
}

/// The views of a sequence of routes.
pub open spec fn paths_views(s: Seq<Vec<PathHop>>) -> Seq<Seq<PathHopV>> {
    s.map_values(|p: Vec<PathHop>| seq_views(p@))
}

/// Taking route views commutes with appending a route.
pub broadcast proof fn lemma_paths_views_push(s: Seq<Vec<PathHop>>, x: Vec<PathHop>)
    ensures
        #[trigger] paths_views(s.push(x)) == paths_views(s).push(seq_views(x@)),
{
    assert(paths_views(s.push(x)) =~= paths_views(s).push(seq_views(x@)));
}

/// Enumerates every route `(layer-1 mix, layer-2 mix, layer-3 mix,
/// provider)` over the given nodes, as a Cartesian product in the insertion
/// order of the inputs.  Two calls on the same nodes yield the same routes.
/// Fails with `InsufficientNodes` exactly when one of the three layers, or
/// the provider set, has no node.
pub fn all_paths_from_nodes(mixes: &Vec<MixNode>, providers: &Vec<MixProviderNode>) -> (r: Result<
    Vec<Vec<PathHop>>,
    TopologyError,
>)
    ensures
        ({
            let l1 = mixes_of_layer(seq_views(mixes@), 1);
            let l2 = mixes_of_layer(seq_views(mixes@), 2);
            let l3 = mixes_of_layer(seq_views(mixes@), 3);
            let ps = seq_views(providers@);
            if l1.len() == 0 || l2.len() == 0 || l3.len() == 0 || ps.len() == 0 {
                r matches Err(e) && e == TopologyError::InsufficientNodes
            } else {
                r matches Ok(v) && paths_views(v@) == paths_product(l1, l2, l3, ps)
            }
        }),
{
    let l1 = nodes_in_layer(mixes, 1);
    let l2 = nodes_in_layer(mixes, 2);
    let l3 = nodes_in_layer(mixes, 3);
    if l1.len() == 0 || l2.len() == 0 || l3.len() == 0 || providers.len() == 0 {
        return Err(TopologyError::InsufficientNodes);
    }
    let ghost gl1 = seq_views(l1@);
    let ghost gl2 = seq_views(l2@);
    let ghost gl3 = seq_views(l3@);
    let ghost gps = seq_views(providers@);
    let mut acc: Vec<Vec<PathHop>> = Vec::new();
    let mut i: usize = 0;
    while i < l1.len()
        invariant
            i <= l1@.len(),
            gl1 == seq_views(l1@),
            gl2 == seq_views(l2@),
            gl3 == seq_views(l3@),
            gps == seq_views(providers@),
            paths_views(acc@) == paths_product(gl1.take(i as int), gl2, gl3, gps),
        decreases l1@.len() - i,
    {
        let h1 = mix_hop(&l1[i]);
        let mut j: usize = 0;
        while j < l2.len()
            invariant
                i < l1@.len(),
                j <= l2@.len(),
                gl1 == seq_views(l1@),
                gl2 == seq_views(l2@),
                gl3 == seq_views(l3@),
                gps == seq_views(providers@),
                h1@ == hop_of_mix(gl1[i as int]),
                paths_views(acc@) == paths_product(gl1.take(i as int), gl2, gl3, gps)
                    + paths_from1(h1@, gl2.take(j as int), gl3, gps),
            decreases l2@.len() - j,
        {
            let h2 = mix_hop(&l2[j]);
            let mut k: usize = 0;
            while k < l3.len()
                invariant
                    i < l1@.len(),
                    j < l2@.len(),
                    k <= l3@.len(),
                    gl1 == seq_views(l1@),
                    gl2 == seq_views(l2@),
                    gl3 == seq_views(l3@),
                    gps == seq_views(providers@),
                    h1@ == hop_of_mix(gl1[i as int]),
                    h2@ == hop_of_mix(gl2[j as int]),
                    paths_views(acc@) == paths_product(gl1.take(i as int), gl2, gl3, gps)
                        + paths_from1(h1@, gl2.take(j as int), gl3, gps) + paths_from2(
                        h1@,
                        h2@,
                        gl3.take(k as int),
                        gps,
                    ),
                decreases l3@.len() - k,
            {
                let h3 = mix_hop(&l3[k]);
                let mut m: usize = 0;
                while m < providers.len()
                    invariant
                        i < l1@.len(),
                        j < l2@.len(),
                        k < l3@.len(),
                        m <= providers@.len(),
                        gl1 == seq_views(l1@),
                        gl2 == seq_views(l2@),
                        gl3 == seq_views(l3@),
                        gps == seq_views(providers@),
                        h1@ == hop_of_mix(gl1[i as int]),
                        h2@ == hop_of_mix(gl2[j as int]),
                        h3@ == hop_of_mix(gl3[k as int]),
                        paths_views(acc@) == paths_product(gl1.take(i as int), gl2, gl3, gps)
                            + paths_from1(h1@, gl2.take(j as int), gl3, gps) + paths_from2(
                            h1@,
                            h2@,
                            gl3.take(k as int),
                            gps,
                        ) + paths_from3(h1@, h2@, h3@, gps.take(m as int)),
                    decreases providers@.len() - m,
                {
                    let mut path: Vec<PathHop> = Vec::new();
                    path.push(PathHop { host: h1.host, pub_key: h1.pub_key.clone() });
                    path.push(PathHop { host: h2.host, pub_key: h2.pub_key.clone() });
                    path.push(PathHop { host: h3.host, pub_key: h3.pub_key.clone() });
                    path.push(provider_hop(&providers[m]));
                    proof {
                        assert(seq_views(path@) =~= seq![
                            h1@,
                            h2@,
                            h3@,
                            hop_of_provider(gps[m as int]),
                        ]);
                        assert(gps.take(m + 1).drop_last() =~= gps.take(m as int));
                        assert(gps.take(m + 1).last() == gps[m as int]);
                    }
                    let ghost pathg = path;
                    let ghost accpre = acc@;
                    acc.push(path);
                    m = m + 1;
                    proof {
                        lemma_paths_views_push(accpre, pathg);
                        assert(paths_from3(h1@, h2@, h3@, gps.take(m as int)) == paths_from3(
                            h1@,
                            h2@,
                            h3@,
                            gps.take(m - 1),
                        ).push(seq![h1@, h2@, h3@, hop_of_provider(gps[m - 1])]));
                        assert(paths_views(acc@) =~= paths_product(
                            gl1.take(i as int),
                            gl2,
                            gl3,
                            gps,
                        ) + paths_from1(h1@, gl2.take(j as int), gl3, gps) + paths_from2(
                            h1@,
                            h2@,
                            gl3.take(k as int),
                            gps,
                        ) + paths_from3(h1@, h2@, h3@, gps.take(m as int)));
                    }
                }
                k = k + 1;
                proof {
                    assert(gps.take(gps.len() as int) =~= gps);
                    assert(gl3.take(k as int).drop_last() =~= gl3.take(k - 1));
                    assert(gl3.take(k as int).last() == gl3[k - 1]);
                    assert(paths_views(acc@) =~= paths_product(gl1.take(i as int), gl2, gl3, gps)
                        + paths_from1(h1@, gl2.take(j as int), gl3, gps) + paths_from2(
                        h1@,
                        h2@,
                        gl3.take(k as int),
                        gps,
                    ));
                }
            }
            j = j + 1;
            proof {
                assert(gl3.take(gl3.len() as int) =~= gl3);
                assert(gl2.take(j as int).drop_last() =~= gl2.take(j - 1));
                assert(gl2.take(j as int).last() == gl2[j - 1]);
                assert(paths_views(acc@) =~= paths_product(gl1.take(i as int), gl2, gl3, gps)
                    + paths_from1(h1@, gl2.take(j as int), gl3, gps));
            }
        }
        i = i + 1;
        proof {
            assert(gl2.take(gl2.len() as int) =~= gl2);
            assert(gl1.take(i as int).drop_last() =~= gl1.take(i - 1));
            assert(gl1.take(i as int).last() == gl1[i - 1]);
            assert(paths_product(gl1.take(i as int), gl2, gl3, gps) == paths_product(
                gl1.take(i - 1),
                gl2,
                gl3,
                gps,
            ) + paths_from1(hop_of_mix(gl1[i - 1]), gl2, gl3, gps));
            assert(paths_views(acc@) =~= paths_product(gl1.take(i as int), gl2, gl3, gps));
        }
    }
    proof {
        assert(gl1.take(gl1.len() as int) =~= gl1);
    }
    Ok(acc)
}

/// Every enumerated route has one hop per layer and ends at a provider:
/// its length is the number of layers plus one, its first three hops are
/// mix nodes of layers one, two and three, and its last hop is the mixnet
/// listener of one of the given providers.
pub proof fn lemma_paths_product_shape(
    l1: Seq<MixNodeV>,
    l2: Seq<MixNodeV>,
    l3: Seq<MixNodeV>,
    ps: Seq<MixProviderNodeV>,
)
    ensures
        forall|i: int|
            0 <= i < paths_product(l1, l2, l3, ps).len() ==> {
                let path = #[trigger] paths_product(l1, l2, l3, ps)[i];
                path.len() == 4 && (exists|a: int|
                    0 <= a < l1.len() && path[0] == hop_of_mix(l1[a])) && (exists|b: int|
                    0 <= b < l2.len() && path[1] == hop_of_mix(l2[b])) && (exists|c: int|
                    0 <= c < l3.len() && path[2] == hop_of_mix(l3[c])) && (exists|d: int|
                    0 <= d < ps.len() && path[3] == hop_of_provider(ps[d]))
            },
    decreases l1.len(),
{
    if l1.len() > 0 {
        lemma_paths_product_shape(l1.drop_last(), l2, l3, ps);
        lemma_paths_from1_shape(hop_of_mix(l1.last()), l2, l3, ps);
        let pre = paths_product(l1.drop_last(), l2, l3, ps);
        let blk = paths_from1(hop_of_mix(l1.last()), l2, l3, ps);
        assert forall|i: int| 0 <= i < paths_product(l1, l2, l3, ps).len() implies {
            let path = #[trigger] paths_product(l1, l2, l3, ps)[i];
            path.len() == 4 && (exists|a: int|
                0 <= a < l1.len() && path[0] == hop_of_mix(l1[a])) && (exists|b: int|
                0 <= b < l2.len() && path[1] == hop_of_mix(l2[b])) && (exists|c: int|
                0 <= c < l3.len() && path[2] == hop_of_mix(l3[c])) && (exists|d: int|
                0 <= d < ps.len() && path[3] == hop_of_provider(ps[d]))
        } by {
            let path = paths_product(l1, l2, l3, ps)[i];
            if i < pre.len() {
                assert(path == pre[i]);
                let a0 = choose|a: int| 0 <= a < l1.drop_last().len() && pre[i][0] == hop_of_mix(
                    l1.drop_last()[a],
                );
                assert(l1.drop_last()[a0] == l1[a0]);
                assert(0 <= a0 < l1.len() && path[0] == hop_of_mix(l1[a0]));
            } else {
                assert(path == blk[i - pre.len()]);
                assert(l1.last() == l1[l1.len() - 1]);
                assert(0 <= l1.len() - 1 < l1.len() && path[0] == hop_of_mix(l1[l1.len() - 1]));
            }
        }
    }
}

proof fn lemma_paths_from1_shape(
    h1: PathHopV,
    l2: Seq<MixNodeV>,
    l3: Seq<MixNodeV>,
    ps: Seq<MixProviderNodeV>,
)
    ensures
        forall|i: int|
            0 <= i < paths_from1(h1, l2, l3, ps).len() ==> {
                let path = #[trigger] paths_from1(h1, l2, l3, ps)[i];
                path.len() == 4 && path[0] == h1 && (exists|b: int|
                    0 <= b < l2.len() && path[1] == hop_of_mix(l2[b])) && (exists|c: int|
                    0 <= c < l3.len() && path[2] == hop_of_mix(l3[c])) && (exists|d: int|
                    0 <= d < ps.len() && path[3] == hop_of_provider(ps[d]))
            },
    decreases l2.len(),
{
    if l2.len() > 0 {
        lemma_paths_from1_shape(h1, l2.drop_last(), l3, ps);
        lemma_paths_from2_shape(h1, hop_of_mix(l2.last()), l3, ps);
        let pre = paths_from1(h1, l2.drop_last(), l3, ps);
        let blk = paths_from2(h1, hop_of_mix(l2.last()), l3, ps);
        assert forall|i: int| 0 <= i < paths_from1(h1, l2, l3, ps).len() implies {
            let path = #[trigger] paths_from1(h1, l2, l3, ps)[i];
            path.len() == 4 && path[0] == h1 && (exists|b: int|
                0 <= b < l2.len() && path[1] == hop_of_mix(l2[b])) && (exists|c: int|
                0 <= c < l3.len() && path[2] == hop_of_mix(l3[c])) && (exists|d: int|
                0 <= d < ps.len() && path[3] == hop_of_provider(ps[d]))
        } by {
            let path = paths_from1(h1, l2, l3, ps)[i];
            if i < pre.len() {
                assert(path == pre[i]);
                let b0 = choose|b: int| 0 <= b < l2.drop_last().len() && pre[i][1] == hop_of_mix(
                    l2.drop_last()[b],
                );
                assert(l2.drop_last()[b0] == l2[b0]);
                assert(0 <= b0 < l2.len() && path[1] == hop_of_mix(l2[b0]));
            } else {
                assert(path == blk[i - pre.len()]);
                assert(l2.last() == l2[l2.len() - 1]);
                assert(0 <= l2.len() - 1 < l2.len() && path[1] == hop_of_mix(l2[l2.len() - 1]));
            }
        }
    }
}

proof fn lemma_paths_from2_shape(
    h1: PathHopV,
    h2: PathHopV,
    l3: Seq<MixNodeV>,
    ps: Seq<MixProviderNodeV>,
)
    ensures
        forall|i: int|
            0 <= i < paths_from2(h1, h2, l3, ps).len() ==> {
                let path = #[trigger] paths_from2(h1, h2, l3, ps)[i];
                path.len() == 4 && path[0] == h1 && path[1] == h2 && (exists|c: int|
                    0 <= c < l3.len() && path[2] == hop_of_mix(l3[c])) && (exists|d: int|
                    0 <= d < ps.len() && path[3] == hop_of_provider(ps[d]))
            },
    decreases l3.len(),
{
    if l3.len() > 0 {
        lemma_paths_from2_shape(h1, h2, l3.drop_last(), ps);
        lemma_paths_from3_shape(h1, h2, hop_of_mix(l3.last()), ps);
        let pre = paths_from2(h1, h2, l3.drop_last(), ps);
        let blk = paths_from3(h1, h2, hop_of_mix(l3.last()), ps);
        assert forall|i: int| 0 <= i < paths_from2(h1, h2, l3, ps).len() implies {
            let path = #[trigger] paths_from2(h1, h2, l3, ps)[i];
            path.len() == 4 && path[0] == h1 && path[1] == h2 && (exists|c: int|
                0 <= c < l3.len() && path[2] == hop_of_mix(l3[c])) && (exists|d: int|
                0 <= d < ps.len() && path[3] == hop_of_provider(ps[d]))
        } by {
            let path = paths_from2(h1, h2, l3, ps)[i];
            if i < pre.len() {
                assert(path == pre[i]);
                let c0 = choose|c: int| 0 <= c < l3.drop_last().len() && pre[i][2] == hop_of_mix(
                    l3.drop_last()[c],
                );
                assert(l3.drop_last()[c0] == l3[c0]);
                assert(0 <= c0 < l3.len() && path[2] == hop_of_mix(l3[c0]));
            } else {
                assert(path == blk[i - pre.len()]);
                assert(l3.last() == l3[l3.len() - 1]);
                assert(0 <= l3.len() - 1 < l3.len() && path[2] == hop_of_mix(l3[l3.len() - 1]));
            }
        }
    }
}

proof fn lemma_paths_from3_shape(
    h1: PathHopV,
    h2: PathHopV,
    h3: PathHopV,
    ps: Seq<MixProviderNodeV>,
)
    ensures
        forall|i: int|
            0 <= i < paths_from3(h1, h2, h3, ps).len() ==> {
                let path = #[trigger] paths_from3(h1, h2, h3, ps)[i];
                path.len() == 4 && path[0] == h1 && path[1] == h2 && path[2] == h3 && (exists|
                    d: int,
                |
                    0 <= d < ps.len() && path[3] == hop_of_provider(ps[d]))
            },
    decreases ps.len(),
{
    if ps.len() > 0 {
        lemma_paths_from3_shape(h1, h2, h3, ps.drop_last());
        let pre = paths_from3(h1, h2, h3, ps.drop_last());
        assert forall|i: int| 0 <= i < paths_from3(h1, h2, h3, ps).len() implies {
            let path = #[trigger] paths_from3(h1, h2, h3, ps)[i];
            path.len() == 4 && path[0] == h1 && path[1] == h2 && path[2] == h3 && (exists|d: int|
                0 <= d < ps.len() && path[3] == hop_of_provider(ps[d]))
        } by {
            let path = paths_from3(h1, h2, h3, ps)[i];
            if i < pre.len() {
                assert(path == pre[i]);
                let d0 = choose|d: int| 0 <= d < ps.drop_last().len() && pre[i][3]
                    == hop_of_provider(ps.drop_last()[d]);
                assert(ps.drop_last()[d0] == ps[d0]);
                assert(0 <= d0 < ps.len() && path[3] == hop_of_provider(ps[d0]));
            } else {
                assert(path == seq![h1, h2, h3, hop_of_provider(ps.last())]);
                assert(ps.last() == ps[ps.len() - 1]);
                assert(0 <= ps.len() - 1 < ps.len() && path[3] == hop_of_provider(
                    ps[ps.len() - 1],
                ));
            }
        }
    }
}

} // verus!
