//! Wire form of the directory's presence records, and the conversions
//! between wire records and the topology model.
//!
//! Wire records carry hosts as text and round-trip through the directory
//! untouched; converting to the model resolves or reads those strings, and
//! is the only fallible direction.  A mix node's host string is resolved by
//! the caller (name resolution is input/output); a provider's listeners are
//! read here, since they must already be literal socket addresses.

use vstd::prelude::*;
use crate::addr::{HostAddress, addr_chars, host_address_string, parse_host_address, parse_addr};
use crate::topology;
use crate::topology::{
    seq_views, lemma_seq_views_push, lemma_map_values_push, lemma_take_push, paths_views,
    paths_product, mixes_of_layer, TopologyError, PathHop, all_paths_from_nodes,
};

verus! {

/// Wire record of a validator-layer node.
pub struct CocoPresence {
    pub host: String,
    pub pub_key: String,
    pub last_seen: u64,
    pub version: String,
}

pub struct CocoPresenceV {
    pub host: Seq<char>,
    pub pub_key: Seq<char>,
    pub last_seen: u64,
    pub version: Seq<char>,
}

impl View for CocoPresence {
    type V = CocoPresenceV;

    open spec fn view(&self) -> CocoPresenceV {
        CocoPresenceV {
            host: self.host@,
            pub_key: self.pub_key@,
            last_seen: self.last_seen,
            version: self.version@,
        }
    }
}

/// Wire record of a mix node; `host` is an unresolved `"name:port"` string.
pub struct MixNodePresence {
    pub host: String,
    pub pub_key: String,
    pub layer: u64,
    pub last_seen: u64,
    pub version: String,
}

pub struct MixNodePresenceV {
    pub host: Seq<char>,
    pub pub_key: Seq<char>,
    pub layer: u64,
    pub last_seen: u64,
    pub version: Seq<char>,
}

impl View for MixNodePresence {
    type V = MixNodePresenceV;

    open spec fn view(&self) -> MixNodePresenceV {
        MixNodePresenceV {
            host: self.host@,
            pub_key: self.pub_key@,
            layer: self.layer,
            last_seen: self.last_seen,
            version: self.version@,
        }
    }
}

/// Wire record of one registered client of a provider.
pub struct MixProviderClient {
    pub pub_key: String,
}

pub struct RegisteredClientV {
    pub pub_key: Seq<char>,
}

impl View for MixProviderClient {
    type V = RegisteredClientV;

    open spec fn view(&self) -> RegisteredClientV {
        RegisteredClientV { pub_key: self.pub_key@ }
    }
}

/// Wire record of a provider; both listeners are socket-address strings in
/// canonical form (see `provider_record_wf`).
pub struct MixProviderPresence {
    pub client_listener: String,
    pub mixnet_listener: String,
    pub pub_key: String,
    pub registered_clients: Vec<MixProviderClient>,
    pub last_seen: u64,
    pub version: String,
}

pub struct MixProviderPresenceV {
    pub client_listener: Seq<char>,
    pub mixnet_listener: Seq<char>,
    pub pub_key: Seq<char>,
    pub registered_clients: Seq<RegisteredClientV>,
    pub last_seen: u64,
    pub version: Seq<char>,
}

impl View for MixProviderPresence {
    type V = MixProviderPresenceV;

    open spec fn view(&self) -> MixProviderPresenceV {
        MixProviderPresenceV {
            client_listener: self.client_listener@,
            mixnet_listener: self.mixnet_listener@,
            pub_key: self.pub_key@,
            registered_clients: seq_views(self.registered_clients@),
            last_seen: self.last_seen,
            version: self.version@,
        }
    }
}

/// A snapshot of the overall network, as the directory publishes it.
pub struct Topology {
    pub coco_nodes: Vec<CocoPresence>,
    pub mix_nodes: Vec<MixNodePresence>,
    pub mix_provider_nodes: Vec<MixProviderPresence>,
}

/// The model node carried by a coco wire record.
pub open spec fn coco_model_of(p: CocoPresenceV) -> topology::CocoNodeV {
    topology::CocoNodeV {
        host: p.host,
        pub_key: p.pub_key,
        last_seen: p.last_seen,
        version: p.version,
    }
}

/// The wire record of a model coco node.
pub open spec fn coco_wire_of(n: topology::CocoNodeV) -> CocoPresenceV {
    CocoPresenceV {
        host: n.host,
        pub_key: n.pub_key,
        last_seen: n.last_seen,
        version: n.version,
    }
}

/// The model node carried by a mix wire record, once its host resolved.
pub open spec fn mix_model_of(p: MixNodePresenceV, host: HostAddress) -> topology::MixNodeV {
    topology::MixNodeV {
        host,
        pub_key: p.pub_key,
        layer: p.layer,
        last_seen: p.last_seen,
        version: p.version,
    }
}

/// The wire record of a model mix node: the resolved host in its canonical
/// text form, every other field unchanged.
pub open spec fn mix_wire_of(n: topology::MixNodeV) -> MixNodePresenceV {
    MixNodePresenceV {
        host: addr_chars(n.host),
        pub_key: n.pub_key,
        layer: n.layer,
        last_seen: n.last_seen,
        version: n.version,
    }
}

/// The model record of a registered client, and back.
pub open spec fn client_model_of(c: RegisteredClientV) -> topology::MixProviderClientV {
    topology::MixProviderClientV { pub_key: c.pub_key }
}

pub open spec fn client_wire_of(c: topology::MixProviderClientV) -> RegisteredClientV {
    RegisteredClientV { pub_key: c.pub_key }
}

/// The wire record of a model provider: both listeners in their canonical
/// text form, every other field unchanged.
pub open spec fn provider_wire_of(n: topology::MixProviderNodeV) -> MixProviderPresenceV {
    MixProviderPresenceV {
        client_listener: addr_chars(n.client_listener),
        mixnet_listener: addr_chars(n.mixnet_listener),
        pub_key: n.pub_key,
        registered_clients: n.registered_clients.map_values(|c| client_wire_of(c)),
        last_seen: n.last_seen,
        version: n.version,
    }
}

/// A provider record is well formed when both of its listeners are the
/// canonical text of a socket address: dotted decimal, or eight full
/// lowercase hexadecimal groups in brackets, without leading zeros or
/// compression.  Only such records convert to the model; a listener in any
/// other spelling — a compressed IPv6 form among them — is refused as
/// malformed, which is what lets a well-formed record round-trip through
/// the model without a character changing.
pub open spec fn provider_record_wf(p: MixProviderPresenceV) -> bool {
    parse_addr(p.client_listener) is Some && parse_addr(p.mixnet_listener) is Some
}

/// A provider record rebuilt from any model node is well formed: both
/// rendered listeners are canonical and parse back, so the model accessors
/// of a rebuilt snapshot owe success and recover every provider.
pub proof fn lemma_rebuilt_provider_record_wf(n: topology::MixProviderNodeV)
    ensures
        provider_record_wf(provider_wire_of(n)),
{
    crate::addr::lemma_parse_canonical(n.client_listener);
    crate::addr::lemma_parse_canonical(n.mixnet_listener);
}

/// Converting a coco record to the model and back gives the record
/// unchanged: the model conversion carries every field verbatim.
pub proof fn lemma_coco_round_trip(p: CocoPresenceV)
    ensures
        coco_wire_of(coco_model_of(p)) == p,
{
}

/// Converting a mix record to the model (under any resolution of its host)
/// and back preserves every field except the host, which becomes the
/// canonical text form of the resolved address.
pub proof fn lemma_mix_round_trip(p: MixNodePresenceV, host: HostAddress)
    ensures
        mix_wire_of(mix_model_of(p, host)) == (MixNodePresenceV {
            host: addr_chars(host),
            pub_key: p.pub_key,
            layer: p.layer,
            last_seen: p.last_seen,
            version: p.version,
        }),
{
}

impl CocoPresence {
    /// The model node of this record; carried verbatim, so never fails.
    pub fn to_model(&self) -> (r: topology::CocoNode)
        ensures
            r@ == coco_model_of(self@),
    {
        topology::CocoNode {
            host: self.host.clone(),
            pub_key: self.pub_key.clone(),
            last_seen: self.last_seen,
            version: self.version.clone(),
        }
    }

    /// The wire record of a model coco node.
    pub fn from_model(n: &topology::CocoNode) -> (r: CocoPresence)
        ensures
            r@ == coco_wire_of(n@),
    {
        CocoPresence {
            host: n.host.clone(),
            pub_key: n.pub_key.clone(),
            last_seen: n.last_seen,
            version: n.version.clone(),
        }
    }
}

impl MixNodePresence {
    /// The model node of this record, given what its host string resolved
    /// to.  Name resolution is the caller's: this conversion fails with
    /// `HostUnresolvable` exactly when no address was resolved.
    pub fn to_model(&self, resolved: Option<HostAddress>) -> (r: Result<
        topology::MixNode,
        TopologyError,
    >)
        ensures
            match resolved {
                Some(host) => r matches Ok(n) && n@ == mix_model_of(self@, host),
                None => r matches Err(e) && e == TopologyError::HostUnresolvable,
            },
    {
        match resolved {
            Some(host) => Ok(
                topology::MixNode {
                    host,
                    pub_key: self.pub_key.clone(),
                    layer: self.layer,
                    last_seen: self.last_seen,
                    version: self.version.clone(),
                },
            ),
            None => Err(TopologyError::HostUnresolvable),
        }
    }

    /// The wire record of a model mix node; its host is rendered canonically.
    pub fn from_model(n: &topology::MixNode) -> (r: MixNodePresence)
        ensures
            r@ == mix_wire_of(n@),
    {
        MixNodePresence {
            host: host_address_string(&n.host),
            pub_key: n.pub_key.clone(),
            layer: n.layer,
            last_seen: n.last_seen,
            version: n.version.clone(),
        }
    }
}

impl MixProviderClient {
    /// The model record of this client entry.
    pub fn to_model(&self) -> (r: topology::MixProviderClient)
        ensures
            r@ == client_model_of(self@),
    {
        topology::MixProviderClient { pub_key: self.pub_key.clone() }
    }

    /// The wire record of a model client entry.
    pub fn from_model(c: &topology::MixProviderClient) -> (r: MixProviderClient)
        ensures
            r@ == client_wire_of(c@),
    {
        MixProviderClient { pub_key: c.pub_key.clone() }
    }
}

impl MixProviderPresence {
    /// The model node of this record: succeeds exactly when both listeners
    /// are literal socket addresses, and a returned model renders back to
    /// exactly this record, so the conversion loses nothing.
    pub fn to_model(&self) -> (r: Option<topology::MixProviderNode>)
        ensures
            r is Some <==> provider_record_wf(self@),
            r matches Some(n) ==> provider_wire_of(n@) == self@,
    {
        let client_listener = match parse_host_address(&self.client_listener) {
            Some(a) => a,
            None => {
                return None;
            },
        };
        let mixnet_listener = match parse_host_address(&self.mixnet_listener) {
            Some(a) => a,
            None => {
                return None;
            },
        };
        let mut clients: Vec<topology::MixProviderClient> = Vec::new();
        let mut i: usize = 0;
        while i < self.registered_clients.len()
            invariant
                i <= self.registered_clients@.len(),
                seq_views(clients@) == seq_views(self.registered_clients@).take(i as int)
                    .map_values(|c: RegisteredClientV| client_model_of(c)),
            decreases self.registered_clients@.len() - i,
        {
            let ghost pre = clients@;
            let c = self.registered_clients[i].to_model();
            let ghost cg = c;
            clients.push(c);
            i = i + 1;
            proof {
                lemma_seq_views_push(pre, cg);
                lemma_take_push(seq_views(self.registered_clients@), i - 1);
                lemma_map_values_push(
                    seq_views(self.registered_clients@).take(i - 1),
                    seq_views(self.registered_clients@)[i - 1],
                    |c: RegisteredClientV| client_model_of(c),
                );
            }
        }
        let r = topology::MixProviderNode {
            client_listener,
            mixnet_listener,
            pub_key: self.pub_key.clone(),
            registered_clients: clients,
            last_seen: self.last_seen,
            version: self.version.clone(),
        };
        proof {
            let full = seq_views(self.registered_clients@);
            assert(full.take(full.len() as int) =~= full);
            assert(provider_wire_of(r@).registered_clients =~= self@.registered_clients);
            assert(provider_wire_of(r@) == self@);
        }
        Some(r)
    }

    /// The wire record of a model provider; both listeners are rendered
    /// canonically, every other field carried verbatim.
    pub fn from_model(n: &topology::MixProviderNode) -> (r: MixProviderPresence)
        ensures
            r@ == provider_wire_of(n@),
    {
        let mut clients: Vec<MixProviderClient> = Vec::new();
        let mut i: usize = 0;
        while i < n.registered_clients.len()
            invariant
                i <= n.registered_clients@.len(),
                seq_views(clients@) == seq_views(n.registered_clients@).take(i as int).map_values(
                    |c: topology::MixProviderClientV| client_wire_of(c),
                ),
            decreases n.registered_clients@.len() - i,
        {
            let ghost pre = clients@;
            let c = MixProviderClient::from_model(&n.registered_clients[i]);
            let ghost cg = c;
            clients.push(c);
            i = i + 1;
            proof {
                lemma_seq_views_push(pre, cg);
                lemma_take_push(seq_views(n.registered_clients@), i - 1);
                lemma_map_values_push(
                    seq_views(n.registered_clients@).take(i - 1),
                    seq_views(n.registered_clients@)[i - 1],
                    |c: topology::MixProviderClientV| client_wire_of(c),
                );
            }
        }
        let r = MixProviderPresence {
            client_listener: host_address_string(&n.client_listener),
            mixnet_listener: host_address_string(&n.mixnet_listener),
            pub_key: n.pub_key.clone(),
            registered_clients: clients,
            last_seen: n.last_seen,
            version: n.version.clone(),
        };
        proof {
            let full = seq_views(n.registered_clients@);
            assert(full.take(full.len() as int) =~= full);
            assert(r@.registered_clients =~= provider_wire_of(n@).registered_clients);
            assert(r@ == provider_wire_of(n@));
        }
        r
    }
}

/// The mix nodes that resolved, converted in order; unresolved entries are
/// dropped, while their wire records stay in the snapshot untouched.
pub open spec fn resolved_mixes(ps: Seq<MixNodePresenceV>, rs: Seq<Option<HostAddress>>)
    -> Seq<topology::MixNodeV>
    decreases ps.len(),
{
    if ps.len() == 0 {
        Seq::empty()
    } else {
        let rest = resolved_mixes(ps.drop_last(), rs.drop_last());
        match rs.last() {
            Some(host) => rest.push(mix_model_of(ps.last(), host)),
            None => rest,
        }
    }
}

impl Topology {
    /// Rebuilds a snapshot from model nodes, rendering each back to its
    /// wire record; used to publish filtered views.
    pub fn new_from_nodes(
        mix_nodes: &Vec<topology::MixNode>,
        mix_provider_nodes: &Vec<topology::MixProviderNode>,
        coco_nodes: &Vec<topology::CocoNode>,
    ) -> (r: Topology)
        ensures
            seq_views(r.coco_nodes@) == seq_views(coco_nodes@).map_values(
                |n: topology::CocoNodeV| coco_wire_of(n),
            ),
            seq_views(r.mix_nodes@) == seq_views(mix_nodes@).map_values(
                |n: topology::MixNodeV| mix_wire_of(n),
            ),
            seq_views(r.mix_provider_nodes@) == seq_views(mix_provider_nodes@).map_values(
                |n: topology::MixProviderNodeV| provider_wire_of(n),
            ),
    {
        let mut cocos: Vec<CocoPresence> = Vec::new();
        let mut i: usize = 0;
        while i < coco_nodes.len()
            invariant
                i <= coco_nodes@.len(),
                seq_views(cocos@) == seq_views(coco_nodes@).take(i as int).map_values(
                    |n: topology::CocoNodeV| coco_wire_of(n),
                ),
            decreases coco_nodes@.len() - i,
        {
            let ghost pre = cocos@;
            let c = CocoPresence::from_model(&coco_nodes[i]);
            let ghost cg = c;
            cocos.push(c);
            i = i + 1;
            proof {
                lemma_seq_views_push(pre, cg);
                lemma_take_push(seq_views(coco_nodes@), i - 1);
                lemma_map_values_push(
                    seq_views(coco_nodes@).take(i - 1),
                    seq_views(coco_nodes@)[i - 1],
                    |n: topology::CocoNodeV| coco_wire_of(n),
                );
            }
        }
        let mut mixes: Vec<MixNodePresence> = Vec::new();
        let mut j: usize = 0;
        while j < mix_nodes.len()
            invariant
                j <= mix_nodes@.len(),
                seq_views(mixes@) == seq_views(mix_nodes@).take(j as int).map_values(
                    |n: topology::MixNodeV| mix_wire_of(n),
                ),
            decreases mix_nodes@.len() - j,
        {
            let ghost pre = mixes@;
            let m = MixNodePresence::from_model(&mix_nodes[j]);
            let ghost mg = m;
            mixes.push(m);
            j = j + 1;
            proof {
                lemma_seq_views_push(pre, mg);
                lemma_take_push(seq_views(mix_nodes@), j - 1);
                lemma_map_values_push(
                    seq_views(mix_nodes@).take(j - 1),
                    seq_views(mix_nodes@)[j - 1],
                    |n: topology::MixNodeV| mix_wire_of(n),
                );
            }
        }
        let mut providers: Vec<MixProviderPresence> = Vec::new();
        let mut k: usize = 0;
        while k < mix_provider_nodes.len()
            invariant
                k <= mix_provider_nodes@.len(),
                seq_views(providers@) == seq_views(mix_provider_nodes@).take(k as int).map_values(
                    |n: topology::MixProviderNodeV| provider_wire_of(n),
                ),
            decreases mix_provider_nodes@.len() - k,
        {
            let ghost pre = providers@;
            let p = MixProviderPresence::from_model(&mix_provider_nodes[k]);
            let ghost pg = p;
            providers.push(p);
            k = k + 1;
            proof {
                lemma_seq_views_push(pre, pg);
                lemma_take_push(seq_views(mix_provider_nodes@), k - 1);
                lemma_map_values_push(
                    seq_views(mix_provider_nodes@).take(k - 1),
                    seq_views(mix_provider_nodes@)[k - 1],
                    |n: topology::MixProviderNodeV| provider_wire_of(n),
                );
            }
        }
        proof {
            assert(seq_views(coco_nodes@).take(coco_nodes@.len() as int) =~= seq_views(
                coco_nodes@,
            ));
            assert(seq_views(mix_nodes@).take(mix_nodes@.len() as int) =~= seq_views(mix_nodes@));
            assert(seq_views(mix_provider_nodes@).take(mix_provider_nodes@.len() as int)
                =~= seq_views(mix_provider_nodes@));
        }
        Topology { coco_nodes: cocos, mix_nodes: mixes, mix_provider_nodes: providers }
    }

    /// The model mix nodes of this snapshot, given what each host string
    /// resolved to (one entry per wire record, in order).  Records whose
    /// host did not resolve are dropped from the output; the snapshot keeps
    /// them.
    pub fn get_mix_nodes(&self, resolved: &Vec<Option<HostAddress>>) -> (r: Vec<topology::MixNode>)
        requires
            resolved@.len() == self.mix_nodes@.len(),
        ensures
            seq_views(r@) == resolved_mixes(seq_views(self.mix_nodes@), resolved@),
    {
        let mut out: Vec<topology::MixNode> = Vec::new();
        let mut i: usize = 0;
        while i < self.mix_nodes.len()
            invariant
                i <= self.mix_nodes@.len(),
                resolved@.len() == self.mix_nodes@.len(),
                seq_views(out@) == resolved_mixes(
                    seq_views(self.mix_nodes@).take(i as int),
                    resolved@.take(i as int),
                ),
            decreases self.mix_nodes@.len() - i,
        {
            proof {
                assert(seq_views(self.mix_nodes@).take(i + 1).drop_last() =~= seq_views(
                    self.mix_nodes@,
                ).take(i as int));
                assert(resolved@.take(i + 1).drop_last() =~= resolved@.take(i as int));
                assert(seq_views(self.mix_nodes@).take(i + 1).last() == self.mix_nodes@[i as int]@);
                assert(resolved@.take(i + 1).last() == resolved@[i as int]);
            }
            match self.mix_nodes[i].to_model(resolved[i]) {
                Ok(n) => {
                    let ghost pre = out@;
                    let ghost ng = n;
                    out.push(n);
                    proof {
                        lemma_seq_views_push(pre, ng);
                    }
                },
                Err(_) => {},
            }
            i = i + 1;
            assert(seq_views(out@) =~= resolved_mixes(
                seq_views(self.mix_nodes@).take(i as int),
                resolved@.take(i as int),
            ));
        }
        proof {
            assert(seq_views(self.mix_nodes@).take(self.mix_nodes@.len() as int) =~= seq_views(
                self.mix_nodes@,
            ));
            assert(resolved@.take(resolved@.len() as int) =~= resolved@);
        }
        out
    }

    /// The model provider nodes of this snapshot, in order, one per wire
    /// record; each renders back to its record.  Succeeds exactly when
    /// every record is well formed: one listener that is not a literal
    /// socket address refuses the whole snapshot (the source treats such a
    /// record as fatal).
    pub fn get_mix_provider_nodes(&self) -> (r: Option<Vec<topology::MixProviderNode>>)
        ensures
            r is Some <==> (forall|i: int|
                0 <= i < self.mix_provider_nodes@.len() ==> provider_record_wf(
                    #[trigger] self.mix_provider_nodes@[i]@,
                )),
            r matches Some(v) ==> {
                &&& v@.len() == self.mix_provider_nodes@.len()
                &&& forall|i: int|
                    0 <= i < v@.len() ==> provider_wire_of(#[trigger] v@[i]@)
                        == self.mix_provider_nodes@[i]@
            },
    {
        let mut out: Vec<topology::MixProviderNode> = Vec::new();
        let mut i: usize = 0;
        while i < self.mix_provider_nodes.len()
            invariant
                i <= self.mix_provider_nodes@.len(),
                out@.len() == i,
                forall|k: int|
                    0 <= k < i ==> provider_record_wf(#[trigger] self.mix_provider_nodes@[k]@),
                forall|k: int|
                    0 <= k < i ==> provider_wire_of(#[trigger] out@[k]@)
                        == self.mix_provider_nodes@[k]@,
            decreases self.mix_provider_nodes@.len() - i,
        {
            match self.mix_provider_nodes[i].to_model() {
                Some(n) => {
                    out.push(n);
                },
                None => {
                    proof {
                        assert(!provider_record_wf(self.mix_provider_nodes@[i as int]@));
                    }
                    return None;
                },
            }
            i = i + 1;
        }
        Some(out)
    }

    /// The model coco nodes of this snapshot, carried verbatim, in order.
    pub fn get_coco_nodes(&self) -> (r: Vec<topology::CocoNode>)
        ensures
            seq_views(r@) == seq_views(self.coco_nodes@).map_values(
                |n: CocoPresenceV| coco_model_of(n),
            ),
    {
        let mut out: Vec<topology::CocoNode> = Vec::new();
        let mut i: usize = 0;
        while i < self.coco_nodes.len()
            invariant
                i <= self.coco_nodes@.len(),
                seq_views(out@) == seq_views(self.coco_nodes@).take(i as int).map_values(
                    |n: CocoPresenceV| coco_model_of(n),
                ),
            decreases self.coco_nodes@.len() - i,
        {
            let ghost pre = out@;
            let c = self.coco_nodes[i].to_model();
            let ghost cg = c;
            out.push(c);
            i = i + 1;
            proof {
                lemma_seq_views_push(pre, cg);
                lemma_take_push(seq_views(self.coco_nodes@), i - 1);
                lemma_map_values_push(
                    seq_views(self.coco_nodes@).take(i - 1),
                    seq_views(self.coco_nodes@)[i - 1],
                    |n: CocoPresenceV| coco_model_of(n),
                );
            }
        }
        proof {
            assert(seq_views(self.coco_nodes@).take(self.coco_nodes@.len() as int) =~= seq_views(
                self.coco_nodes@,
            ));
        }
        out
    }

    /// Every route through this snapshot, under the given resolutions of
    /// the mix hosts: the Cartesian product of the three layers and the
    /// provider set, each hop taken from the converted model nodes.  A
    /// malformed provider record refuses the snapshot; otherwise routes are
    /// owed unless a layer, or the provider set, is empty.
    pub fn all_paths(&self, resolved: &Vec<Option<HostAddress>>) -> (r: Result<
        Vec<Vec<PathHop>>,
        TopologyError,
    >)
        requires
            resolved@.len() == self.mix_nodes@.len(),
        ensures
            ({
                let records_wf = forall|i: int|
                    0 <= i < self.mix_provider_nodes@.len() ==> provider_record_wf(
                        #[trigger] self.mix_provider_nodes@[i]@,
                    );
                let ms = resolved_mixes(seq_views(self.mix_nodes@), resolved@);
                let routeless = mixes_of_layer(ms, 1).len() == 0 || mixes_of_layer(ms, 2).len()
                    == 0 || mixes_of_layer(ms, 3).len() == 0 || self.mix_provider_nodes@.len()
                    == 0;
                &&& ((r matches Err(e) && e == TopologyError::MalformedProviderRecord)
                    <==> !records_wf)
                &&& (records_wf ==> ((r matches Err(e) && e == TopologyError::InsufficientNodes)
                    <==> routeless))
                &&& (records_wf && !routeless ==> r is Ok)
            }),
            r matches Ok(paths) ==> exists|ps: Seq<topology::MixProviderNodeV>|
                {
                    let ms = resolved_mixes(seq_views(self.mix_nodes@), resolved@);
                    &&& #[trigger] ps.len() == self.mix_provider_nodes@.len()
                    &&& (forall|i: int|
                        0 <= i < ps.len() ==> provider_wire_of(#[trigger] ps[i])
                            == self.mix_provider_nodes@[i]@)
                    &&& paths_views(paths@) == paths_product(
                        mixes_of_layer(ms, 1),
                        mixes_of_layer(ms, 2),
                        mixes_of_layer(ms, 3),
                        ps,
                    )
                },
            r matches Err(e) ==> (e == TopologyError::InsufficientNodes || e
                == TopologyError::MalformedProviderRecord),
    {
        let mixes = self.get_mix_nodes(resolved);
        let providers = match self.get_mix_provider_nodes() {
            Some(p) => p,
            None => {
                return Err(TopologyError::MalformedProviderRecord);
            },
        };
        let r = all_paths_from_nodes(&mixes, &providers);
        proof {
            assert(seq_views(providers@).len() == self.mix_provider_nodes@.len());
            if r is Ok {
                let ps = seq_views(providers@);
                assert(forall|i: int|
                    0 <= i < ps.len() ==> provider_wire_of(#[trigger] ps[i])
                        == self.mix_provider_nodes@[i]@);
            }
        }
        r
    }
}

} // verus!
