//! Per-host routers, the route table and its update rules, and the
//! per-request lookup.
//!
//! The table maps host names to routers; the sentinel host `*` holds the
//! default router. Updates are applied to a duplicate of the table and the
//! duplicate replaces the original only when every rule was accepted, so a
//! rejected event leaves the published table untouched.

use vstd::prelude::*;
use crate::ingress::{
    IngRule, IngHost, IngressEvent, EVENT_INIT, EVENT_UPDATE, EVENT_DELETE, RULE_PREFIX,
    RULE_EXACT,
};
use crate::strmap::StrMap;
use crate::url_tree::{Node, spec_insert_segs};
use crate::text::{find_char, spec_find_char, spec_split};

verus! {

/// One resolved backend: a service name and port.
#[derive(Clone)]
pub struct RouterNode {
    pub backend: String,
    pub port: i32,
}

/// The backend a rule names.
pub open spec fn node_of(r: IngRule) -> RouterNode {
    RouterNode { backend: r.backend, port: r.port }
}

impl RouterNode {
    pub fn new(backend: String, port: i32) -> (r: RouterNode)
        ensures
            r.backend == backend,
            r.port == port,
    {
        RouterNode { backend, port }
    }

    /// A field-for-field copy, proved equal to the original.
    pub fn duplicate(&self) -> (r: RouterNode)
        ensures
            r == *self,
    {
        RouterNode { backend: self.backend.clone(), port: self.port }
    }
}

/// The routes of one host: exact paths, a prefix tree, the TLS secret name
/// and, for the sentinel host only, a default backend.
pub struct Router {
    pub sni: String,
    pub host: String,
    pub default_backend: Option<RouterNode>,
    pub exact: StrMap<RouterNode>,
    pub prefix: Node<RouterNode>,
}

/// A just-created router: no routes, no secret, no default backend.
pub open spec fn blank_router(r: Router, host: Seq<char>) -> bool {
    &&& r.host@ == host
    &&& r.sni@.len() == 0
    &&& r.default_backend is None
    &&& r.exact@ == Map::<Seq<char>, RouterNode>::empty()
    &&& r.prefix.path@.len() == 0
    &&& r.prefix.data is None
    &&& r.prefix.next@.len() == 0
}

/// One rule's effect on a prefix tree: a prefix rule inserts its backend at
/// its path (the empty path stores at the root), anything else leaves the
/// tree alone.
pub open spec fn rule_step(mid: Node<RouterNode>, r: IngRule, post: Node<RouterNode>) -> bool {
    if r.ty == RULE_PREFIX {
        if r.path@.len() == 0 {
            post == (Node { path: mid.path, data: Some(node_of(r)), next: mid.next })
        } else {
            Node::is_inserted(mid, spec_insert_segs(r.path@), node_of(r), post)
        }
    } else {
        post == mid
    }
}

/// A witness that `rules` turns `pre` into `post`: the trees after each
/// rule, each one step from the one before.
pub open spec fn prefix_chain(
    chain: Seq<Node<RouterNode>>,
    pre: Node<RouterNode>,
    rules: Seq<IngRule>,
    post: Node<RouterNode>,
) -> bool {
    &&& chain.len() == rules.len() + 1
    &&& chain.first() == pre
    &&& chain.last() == post
    &&& (forall|i: int| 0 <= i < rules.len() ==> rule_step(
        chain[i],
        rules[i],
        #[trigger] chain[i + 1],
    ))
}

/// The tree after a rule list has been applied in order.
pub open spec fn prefix_applied(
    pre: Node<RouterNode>,
    rules: Seq<IngRule>,
    post: Node<RouterNode>,
) -> bool {
    exists|chain: Seq<Node<RouterNode>>| #[trigger] prefix_chain(chain, pre, rules, post)
}

/// The root segment of a prefix tree after a rule list.
pub open spec fn root_after(path0: Seq<char>, rules: Seq<IngRule>) -> Seq<char>
    decreases rules.len(),
{
    if rules.len() == 0 {
        path0
    } else {
        let p = root_after(path0, rules.drop_last());
        let r = rules.last();
        if r.ty == RULE_PREFIX && r.path@.len() > 0 && p.len() == 0 {
            spec_insert_segs(r.path@).first()
        } else {
            p
        }
    }
}

/// Whether every prefix rule agrees with the tree's root segment as it
/// evolves; a disagreeing rule is the one invariant violation an update can
/// meet.
pub open spec fn prefix_rules_ok(path0: Seq<char>, rules: Seq<IngRule>) -> bool
    decreases rules.len(),
{
    if rules.len() == 0 {
        true
    } else {
        let r = rules.last();
        &&& prefix_rules_ok(path0, rules.drop_last())
        &&& (r.ty == RULE_PREFIX && r.path@.len() > 0 ==> {
            let p = root_after(path0, rules.drop_last());
            p.len() == 0 || p == spec_insert_segs(r.path@).first()
        })
    }
}

/// Exact rules become map entries, in order; others leave the map alone.
pub open spec fn spec_apply_exact(
    m: Map<Seq<char>, RouterNode>,
    rules: Seq<IngRule>,
) -> Map<Seq<char>, RouterNode>
    decreases rules.len(),
{
    if rules.len() == 0 {
        m
    } else {
        let prev = spec_apply_exact(m, rules.drop_last());
        let r = rules.last();
        if r.ty == RULE_EXACT {
            prev.insert(r.path@, node_of(r))
        } else {
            prev
        }
    }
}

/// How an accepted rule list relates a router before and after the update.
pub open spec fn router_updated(pre: Router, rules: Seq<IngRule>, post: Router) -> bool {
    &&& post.sni == pre.sni
    &&& post.host == pre.host
    &&& post.default_backend == pre.default_backend
    &&& post.exact.wf()
    &&& post.exact@ == spec_apply_exact(pre.exact@, rules)
    &&& prefix_applied(pre.prefix, rules, post.prefix)
}

impl Router {
    pub open spec fn wf(self) -> bool {
        self.exact.wf()
    }

    /// An empty router for a host.
    pub fn from_host(host: String) -> (r: Router)
        ensures
            r.wf(),
            blank_router(r, host@),
    {
        Router {
            sni: String::new(),
            host,
            default_backend: None,
            exact: StrMap::new(),
            prefix: Node::empty(),
        }
    }

    /// A router holding only a default backend, for the sentinel host.
    pub fn from_default_backend(ir: IngRule) -> (r: Router)
        ensures
            r.wf(),
            r.host@.len() == 0,
            r.sni@.len() == 0,
            r.default_backend == Some(node_of(ir)),
            r.exact@ == Map::<Seq<char>, RouterNode>::empty(),
            r.prefix.path@.len() == 0,
            r.prefix.data is None,
            r.prefix.next@.len() == 0,
    {
        let db = RouterNode::new(ir.backend, ir.port);
        Router {
            sni: String::new(),
            host: String::new(),
            default_backend: Some(db),
            exact: StrMap::new(),
            prefix: Node::empty(),
        }
    }

    /// Feeds a rule list in: prefix rules into the tree, exact rules into
    /// the map, others skipped. Returns false as soon as a prefix rule
    /// contradicts the tree's fixed root segment; the router is then only
    /// partially updated and must be discarded.
    pub fn update_from_ing_rule(&mut self, rules: Vec<IngRule>) -> (ok: bool)
        requires
            old(self).wf(),
        ensures
            ok == prefix_rules_ok(old(self).prefix.path@, rules@),
            final(self).sni == old(self).sni,
            final(self).host == old(self).host,
            final(self).default_backend == old(self).default_backend,
            ok ==> final(self).wf() && router_updated(*old(self), rules@, *final(self)),
            ok ==> final(self).prefix.path@ == root_after(old(self).prefix.path@, rules@),
    {
        let n = rules.len();
        let mut i: usize = 0;
        let ghost mut chain: Seq<Node<RouterNode>> = seq![old(self).prefix];
        proof {
            assert(rules@.subrange(0, 0) =~= Seq::<IngRule>::empty());
        }
        while i < n
            invariant
                0 <= i <= n,
                n == rules@.len(),
                self.wf(),
                self.sni == old(self).sni,
                self.host == old(self).host,
                self.default_backend == old(self).default_backend,
                self.exact@ == spec_apply_exact(old(self).exact@, rules@.subrange(0, i as int)),
                prefix_chain(chain, old(self).prefix, rules@.subrange(0, i as int), self.prefix),
                prefix_rules_ok(old(self).prefix.path@, rules@.subrange(0, i as int)),
                self.prefix.path@ == root_after(
                    old(self).prefix.path@,
                    rules@.subrange(0, i as int),
                ),
            decreases n - i,
        {
            let ghost sub = rules@.subrange(0, i as int);
            let ghost sub1 = rules@.subrange(0, i as int + 1);
            proof {
                assert(sub1.drop_last() =~= sub);
                assert(sub1.last() == rules@[i as int]);
            }
            let ghost tree_pre = self.prefix;
            let rule = &rules[i];
            if rule.ty == RULE_PREFIX {
                let data = RouterNode::new(rule.backend.clone(), rule.port);
                proof {
                    assert(data == node_of(rules@[i as int]));
                    if rules@[i as int].path@.len() > 0 {
                        crate::text::lemma_split_nonempty(rules@[i as int].path@, '/');
                    }
                }
                let inserted = self.prefix.insert_path(rule.path.as_str(), data);
                if !inserted {
                    proof {
                        assert(rules@[i as int].path@.len() > 0);
                        assert(tree_pre.spec_conflicts(spec_insert_segs(
                            rules@[i as int].path@,
                        )));
                        assert(root_after(old(self).prefix.path@, sub) == tree_pre.path@);
                        assert(!prefix_rules_ok(old(self).prefix.path@, sub1));
                        lemma_rules_ok_prefix_refuted(
                            old(self).prefix.path@,
                            rules@,
                            i as int,
                        );
                    }
                    return false;
                }
                proof {
                    if rules@[i as int].path@.len() > 0 {
                        assert(!tree_pre.spec_conflicts(spec_insert_segs(
                            rules@[i as int].path@,
                        )));
                        assert(Node::is_inserted(
                            tree_pre,
                            spec_insert_segs(rules@[i as int].path@),
                            data,
                            self.prefix,
                        ));
                    }
                    assert(rule_step(tree_pre, rules@[i as int], self.prefix));
                }
            } else if rule.ty == RULE_EXACT {
                let data = RouterNode::new(rule.backend.clone(), rule.port);
                let key = rule.path.clone();
                proof {
                    assert(data == node_of(rules@[i as int]));
                }
                self.exact.insert(key, data);
                proof {
                    assert(rule_step(tree_pre, rules@[i as int], self.prefix));
                }
            } else {
                proof {
                    assert(rule_step(tree_pre, rules@[i as int], self.prefix));
                }
            }
            proof {
                assert(rule_step(tree_pre, sub1.last(), self.prefix));
                chain = chain.push(self.prefix);
                assert(chain.last() == self.prefix);
                assert(forall|m: int| 0 <= m < chain.len() - 1 ==> chain[m]
                    == chain.drop_last()[m]);
                assert(prefix_chain(chain, old(self).prefix, sub1, self.prefix));
                assert(root_after(old(self).prefix.path@, sub) == tree_pre.path@);
                assert(self.prefix.path@ == root_after(old(self).prefix.path@, sub1));
                assert(prefix_rules_ok(old(self).prefix.path@, sub1));
            }
            i += 1;
        }
        proof {
            assert(rules@.subrange(0, n as int) =~= rules@);
            assert(prefix_chain(chain, old(self).prefix, rules@, self.prefix));
        }
        true
    }
}

/// A rule list already found to conflict at step `i` conflicts as a whole.
proof fn lemma_rules_ok_prefix_refuted(path0: Seq<char>, rules: Seq<IngRule>, i: int)
    requires
        0 <= i < rules.len(),
        !prefix_rules_ok(path0, rules.subrange(0, i + 1)),
    ensures
        !prefix_rules_ok(path0, rules),
    decreases rules.len(),
{
    if i + 1 < rules.len() {
        assert(rules.drop_last().subrange(0, i + 1) =~= rules.subrange(0, i + 1));
        lemma_rules_ok_prefixes(path0, rules);
        lemma_rules_ok_prefix_refuted(path0, rules.drop_last(), i);
        if prefix_rules_ok(path0, rules) {
            assert(prefix_rules_ok(path0, rules.drop_last()));
        }
    } else {
        assert(rules.subrange(0, i + 1) =~= rules);
    }
}

proof fn lemma_rules_ok_prefixes(path0: Seq<char>, rules: Seq<IngRule>)
    ensures
        prefix_rules_ok(path0, rules) ==> prefix_rules_ok(path0, rules.drop_last())
            || rules.len() == 0,
{
}

/// A router holding only a default backend, as the sentinel host gets one.
pub open spec fn is_db_router(r: Router, ir: IngRule) -> bool {
    &&& r.default_backend == Some(node_of(ir))
    &&& r.host@.len() == 0
    &&& r.sni@.len() == 0
    &&& r.exact@ == Map::<Seq<char>, RouterNode>::empty()
    &&& r.prefix.path@.len() == 0
    &&& r.prefix.data is None
    &&& r.prefix.next@.len() == 0
}

pub open spec fn db_inserted_parts(
    pre: Map<Seq<char>, Router>,
    ir: IngRule,
    r: Router,
    m1: Map<Seq<char>, Router>,
) -> bool {
    is_db_router(r, ir) && m1 == pre.insert("*"@, r)
}

/// The table after the default-backend part of an event.
pub open spec fn db_phase(
    pre: Map<Seq<char>, Router>,
    ev: IngressEvent,
    m1: Map<Seq<char>, Router>,
) -> bool {
    if ev.ty == EVENT_DELETE {
        m1 == (if ev.default_backend is Some {
            pre.remove("*"@)
        } else {
            pre
        })
    } else {
        match ev.default_backend {
            Some(ir) => exists|r: Router| #[trigger] db_inserted_parts(pre, ir, r, m1),
            None => m1 == pre,
        }
    }
}

/// One host block folded in: its rules feed the host's router, a fresh one
/// if the host was unknown.
pub open spec fn host_step_parts(
    m: Map<Seq<char>, Router>,
    h: IngHost,
    r0: Router,
    r1: Router,
    post: Map<Seq<char>, Router>,
) -> bool {
    &&& (if m.contains_key(h.host@) {
        r0 == m[h.host@]
    } else {
        blank_router(r0, h.host@)
    })
    &&& prefix_rules_ok(r0.prefix.path@, h.rules@)
    &&& router_updated(r0, h.rules@, r1)
    &&& post == m.insert(h.host@, r1)
}

pub open spec fn host_step(
    m: Map<Seq<char>, Router>,
    h: IngHost,
    post: Map<Seq<char>, Router>,
) -> bool {
    exists|r0: Router, r1: Router| #[trigger] host_step_parts(m, h, r0, r1, post)
}

/// A witness that the host blocks were folded in, in order.
pub open spec fn hosts_chain(
    ms: Seq<Map<Seq<char>, Router>>,
    pre: Map<Seq<char>, Router>,
    hosts: Seq<IngHost>,
    post: Map<Seq<char>, Router>,
) -> bool {
    &&& ms.len() == hosts.len() + 1
    &&& ms.first() == pre
    &&& ms.last() == post
    &&& (forall|i: int| 0 <= i < hosts.len() ==> host_step(ms[i], hosts[i], #[trigger] ms[i + 1]))
}

pub open spec fn hosts_applied(
    pre: Map<Seq<char>, Router>,
    hosts: Seq<IngHost>,
    post: Map<Seq<char>, Router>,
) -> bool {
    exists|ms: Seq<Map<Seq<char>, Router>>| #[trigger] hosts_chain(ms, pre, hosts, post)
}

/// The table after a delete event's host part: every named host removed.
pub open spec fn remove_hosts(
    m: Map<Seq<char>, Router>,
    hosts: Seq<IngHost>,
) -> Map<Seq<char>, Router>
    decreases hosts.len(),
{
    if hosts.len() == 0 {
        m
    } else {
        remove_hosts(m, hosts.drop_last()).remove(hosts.last().host@)
    }
}

/// The table after the SNI part: each listed host that is present gets the
/// listed secret; absent hosts are ignored. Delete events run this too.
pub open spec fn apply_sni(
    m: Map<Seq<char>, Router>,
    entries: Seq<(String, String)>,
) -> Map<Seq<char>, Router>
    decreases entries.len(),
{
    if entries.len() == 0 {
        m
    } else {
        let prev = apply_sni(m, entries.drop_last());
        let e = entries.last();
        if prev.contains_key(e.0@) {
            let r = prev[e.0@];
            prev.insert(
                e.0@,
                Router {
                    sni: e.1,
                    host: r.host,
                    default_backend: r.default_backend,
                    exact: r.exact,
                    prefix: r.prefix,
                },
            )
        } else {
            prev
        }
    }
}

pub open spec fn snapshot_parts(
    pre: Map<Seq<char>, Router>,
    ev: IngressEvent,
    m1: Map<Seq<char>, Router>,
    m2: Map<Seq<char>, Router>,
    post: Map<Seq<char>, Router>,
) -> bool {
    &&& db_phase(pre, ev, m1)
    &&& hosts_applied(m1, ev.hosts@, m2)
    &&& post == apply_sni(m2, ev.sni.sni.entries@)
}

/// How an accepted event relates the route table before and after: the
/// default backend lands under the sentinel host, host blocks feed their
/// routers (delete events remove them instead), and the SNI pairs follow.
/// An event of an unknown kind changes nothing.
pub open spec fn snapshot_applied(
    pre: Map<Seq<char>, Router>,
    ev: IngressEvent,
    post: Map<Seq<char>, Router>,
) -> bool {
    if ev.ty == EVENT_INIT || ev.ty == EVENT_UPDATE {
        exists|m1: Map<Seq<char>, Router>, m2: Map<Seq<char>, Router>|
            #[trigger] snapshot_parts(pre, ev, m1, m2, post)
    } else if ev.ty == EVENT_DELETE {
        post == apply_sni(
            remove_hosts(
                if ev.default_backend is Some {
                    pre.remove("*"@)
                } else {
                    pre
                },
                ev.hosts@,
            ),
            ev.sni.sni.entries@,
        )
    } else {
        post == pre
    }
}

/// The tree-root segments of a table's routers; all an update's acceptance
/// depends on.
pub open spec fn roots_of(m: Map<Seq<char>, Router>) -> Map<Seq<char>, Seq<char>> {
    Map::new(|k: Seq<char>| m.contains_key(k), |k: Seq<char>| m[k].prefix.path@)
}

/// The root segments after the host blocks up to a point; an unknown host
/// starts from a blank tree.
pub open spec fn roots_after(
    roots: Map<Seq<char>, Seq<char>>,
    hosts: Seq<IngHost>,
) -> Map<Seq<char>, Seq<char>>
    decreases hosts.len(),
{
    if hosts.len() == 0 {
        roots
    } else {
        let r = roots_after(roots, hosts.drop_last());
        let h = hosts.last();
        let base = if r.contains_key(h.host@) {
            r[h.host@]
        } else {
            Seq::<char>::empty()
        };
        r.insert(h.host@, root_after(base, h.rules@))
    }
}

/// Whether every host block's rules agree with its router's evolving root.
pub open spec fn hosts_ok(roots: Map<Seq<char>, Seq<char>>, hosts: Seq<IngHost>) -> bool
    decreases hosts.len(),
{
    if hosts.len() == 0 {
        true
    } else {
        let r = roots_after(roots, hosts.drop_last());
        let h = hosts.last();
        let base = if r.contains_key(h.host@) {
            r[h.host@]
        } else {
            Seq::<char>::empty()
        };
        hosts_ok(roots, hosts.drop_last()) && prefix_rules_ok(base, h.rules@)
    }
}

/// The root segments an init or update event starts its host blocks from:
/// installing a default backend first gives the sentinel host a blank tree.
pub open spec fn event_roots(
    pre: Map<Seq<char>, Router>,
    ev: IngressEvent,
) -> Map<Seq<char>, Seq<char>> {
    if ev.default_backend is Some && (ev.ty == EVENT_INIT || ev.ty == EVENT_UPDATE) {
        roots_of(pre).insert("*"@, Seq::<char>::empty())
    } else {
        roots_of(pre)
    }
}

/// When an event is accepted: always, unless an init or update carries a
/// host block whose prefix rules contradict that host's evolving tree root.
pub open spec fn event_ok(pre: Map<Seq<char>, Router>, ev: IngressEvent) -> bool {
    if ev.ty == EVENT_INIT || ev.ty == EVENT_UPDATE {
        hosts_ok(event_roots(pre, ev), ev.hosts@)
    } else {
        true
    }
}

/// A host list already found to conflict at step `i` conflicts as a whole.
proof fn lemma_hosts_ok_refuted(roots: Map<Seq<char>, Seq<char>>, hosts: Seq<IngHost>, i: int)
    requires
        0 <= i < hosts.len(),
        !hosts_ok(roots, hosts.subrange(0, i + 1)),
    ensures
        !hosts_ok(roots, hosts),
    decreases hosts.len(),
{
    if i + 1 < hosts.len() {
        assert(hosts.drop_last().subrange(0, i + 1) =~= hosts.subrange(0, i + 1));
        lemma_hosts_ok_refuted(roots, hosts.drop_last(), i);
        if hosts_ok(roots, hosts) {
            assert(hosts_ok(roots, hosts.drop_last()));
        }
    } else {
        assert(hosts.subrange(0, i + 1) =~= hosts);
    }
}

/// The host-to-router table the requests are answered from.
pub struct RouteTable {
    pub map: StrMap<Router>,
}

impl RouteTable {
    pub open spec fn wf(self) -> bool {
        &&& self.map.wf()
        &&& (forall|k: Seq<char>| #[trigger] self.map@.contains_key(k) ==> self.map@[k].wf())
    }

    pub fn new() -> (t: RouteTable)
        ensures
            t.wf(),
            t.map@ == Map::<Seq<char>, Router>::empty(),
    {
        RouteTable { map: StrMap::new() }
    }

    /// Folds one event in. Returns false exactly when an init or update
    /// event carries a host block whose prefix rules contradict that host's
    /// evolving tree root; the table is then part-written and must be
    /// discarded. Callers apply events to a scratch copy and publish it only
    /// on success, so the published table never holds a half-applied event.
    pub fn apply_event(&mut self, ev: IngressEvent) -> (ok: bool)
        requires
            old(self).wf(),
            ev.sni.sni.wf(),
        ensures
            final(self).wf(),
            ok == event_ok(old(self).map@, ev),
            ok ==> snapshot_applied(old(self).map@, ev, final(self).map@),
    {
        let ghost pre_map = self.map@;
        let IngressEvent { ty, default_backend, hosts, sni } = ev;
        if ty == EVENT_INIT || ty == EVENT_UPDATE {
            match default_backend {
                Some(db) => {
                    let ghost db_g = db;
                    let r = Router::from_default_backend(db);
                    let key = "*".to_owned();
                    self.map.insert(key, r);
                    proof {
                        assert(db_inserted_parts(pre_map, db_g, r, self.map@));
                    }
                },
                None => {},
            }
            let ghost m1 = self.map@;
            let ghost roots1 = event_roots(pre_map, ev);
            proof {
                assert(db_phase(pre_map, ev, m1));
                if ev.default_backend is Some {
                    let r = choose|r: Router|
                        db_inserted_parts(pre_map, ev.default_backend->0, r, m1);
                    assert(r.prefix.path@ =~= Seq::<char>::empty());
                    assert(roots_of(m1) =~= roots_of(pre_map).insert(
                        "*"@,
                        Seq::<char>::empty(),
                    ));
                } else {
                    assert(roots_of(m1) =~= roots_of(pre_map));
                }
                assert(roots_of(m1) == roots1);
            }
            let mut hosts = hosts;
            let ghost hosts_all = hosts@;
            let ghost mut ms: Seq<Map<Seq<char>, Router>> = seq![m1];
            let n = hosts.len();
            let mut i: usize = 0;
            while i < n
                invariant
                    0 <= i <= n,
                    n == hosts_all.len(),
                    hosts_all == ev.hosts@,
                    ev.ty == EVENT_INIT || ev.ty == EVENT_UPDATE,
                    roots1 == event_roots(old(self).map@, ev),
                    hosts@ =~= hosts_all.subrange(i as int, n as int),
                    self.wf(),
                    ms.len() == i + 1,
                    ms.first() == m1,
                    ms.last() == self.map@,
                    roots_of(self.map@) == roots_after(roots1, hosts_all.subrange(0, i as int)),
                    hosts_ok(roots1, hosts_all.subrange(0, i as int)),
                    forall|j: int| 0 <= j < i ==> host_step(ms[j], hosts_all[j], #[trigger] ms[j
                        + 1]),
                decreases n - i,
            {
                let ghost mid = self.map@;
                let ghost sub = hosts_all.subrange(0, i as int);
                let ghost sub1 = hosts_all.subrange(0, i as int + 1);
                let h = hosts.remove(0);
                let ghost h_g = h;
                proof {
                    assert(h_g == hosts_all[i as int]);
                    assert(hosts@ =~= hosts_all.subrange(i as int + 1, n as int));
                    assert(sub1.drop_last() =~= sub);
                    assert(sub1.last() == h_g);
                }
                let IngHost { host, rules } = h;
                let key = host.clone();
                let taken = self.map.take(host.as_str());
                let mut r0 = match taken {
                    Some(r) => r,
                    None => Router::from_host(host),
                };
                let ghost r0_g = r0;
                let ghost base = (if roots_after(roots1, sub).contains_key(h_g.host@) {
                    roots_after(roots1, sub)[h_g.host@]
                } else {
                    Seq::<char>::empty()
                });
                proof {
                    if mid.contains_key(h_g.host@) {
                        assert(r0_g.prefix.path@ == base);
                    } else {
                        assert(r0_g.prefix.path@ =~= Seq::<char>::empty());
                        assert(r0_g.prefix.path@ == base);
                    }
                }
                let ok1 = r0.update_from_ing_rule(rules);
                if !ok1 {
                    proof {
                        assert(!prefix_rules_ok(base, h_g.rules@));
                        assert(!hosts_ok(roots1, sub1));
                        lemma_hosts_ok_refuted(roots1, hosts_all, i as int);
                        assert(!event_ok(old(self).map@, ev));
                    }
                    return false;
                }
                self.map.insert(key, r0);
                proof {
                    assert(self.map@ =~= mid.insert(h_g.host@, r0));
                    assert(host_step_parts(mid, h_g, r0_g, r0, self.map@));
                    assert(forall|k: Seq<char>| #[trigger] self.map@.contains_key(k)
                        ==> self.map@[k].wf());
                    ms = ms.push(self.map@);
                    assert(forall|m: int| 0 <= m < ms.len() - 1 ==> ms[m] == ms.drop_last()[m]);
                    assert(r0.prefix.path@ == root_after(base, h_g.rules@));
                    assert(roots_of(self.map@) =~= roots_after(roots1, sub).insert(
                        h_g.host@,
                        root_after(base, h_g.rules@),
                    ));
                    assert(roots_of(self.map@) == roots_after(roots1, sub1));
                    assert(hosts_ok(roots1, sub1));
                }
                i += 1;
            }
            let ghost m2 = self.map@;
            proof {
                assert(hosts_all.subrange(0, n as int) =~= hosts_all);
                assert(hosts_chain(ms, m1, hosts_all, m2));
            }
            let mut entries = sni.sni.entries;
            let ghost sni_all = entries@;
            let en = entries.len();
            let mut j: usize = 0;
            proof {
                assert(sni_all.subrange(0, 0) =~= Seq::<(String, String)>::empty());
            }
            while j < en
                invariant
                    0 <= j <= en,
                    en == sni_all.len(),
                    entries@ =~= sni_all.subrange(j as int, en as int),
                    self.wf(),
                    self.map@ == apply_sni(m2, sni_all.subrange(0, j as int)),
                decreases en - j,
            {
                let ghost prev = self.map@;
                let ghost sub1 = sni_all.subrange(0, j as int + 1);
                proof {
                    assert(sub1.drop_last() =~= sni_all.subrange(0, j as int));
                    assert(sub1.last() == sni_all[j as int]);
                    assert(entries@[0] == sni_all[j as int]);
                }
                let e = entries.remove(0);
                proof {
                    assert(entries@ =~= sni_all.subrange(j as int + 1, en as int));
                }
                let (ehost, esecret) = e;
                match self.map.take(ehost.as_str()) {
                    Some(r) => {
                        let r2 = Router {
                            sni: esecret,
                            host: r.host,
                            default_backend: r.default_backend,
                            exact: r.exact,
                            prefix: r.prefix,
                        };
                        self.map.insert(ehost, r2);
                        proof {
                            assert(self.map@ =~= apply_sni(m2, sub1));
                        }
                    },
                    None => {
                        proof {
                            assert(self.map@ =~= apply_sni(m2, sub1));
                        }
                    },
                }
                j += 1;
            }
            proof {
                assert(sni_all.subrange(0, en as int) =~= sni_all);
                assert(snapshot_parts(pre_map, ev, m1, m2, self.map@));
            }
            true
        } else if ty == EVENT_DELETE {
            match &default_backend {
                Some(_) => {
                    self.map.remove("*");
                },
                None => {},
            }
            let ghost dbr = self.map@;
            proof {
                assert(dbr == (if ev.default_backend is Some {
                    pre_map.remove("*"@)
                } else {
                    pre_map
                }));
            }
            let mut hosts = hosts;
            let ghost hosts_all = hosts@;
            let n = hosts.len();
            let mut i: usize = 0;
            proof {
                assert(hosts_all.subrange(0, 0) =~= Seq::<IngHost>::empty());
            }
            while i < n
                invariant
                    0 <= i <= n,
                    n == hosts_all.len(),
                    hosts@ =~= hosts_all.subrange(i as int, n as int),
                    self.wf(),
                    self.map@ == remove_hosts(dbr, hosts_all.subrange(0, i as int)),
                decreases n - i,
            {
                let ghost sub1 = hosts_all.subrange(0, i as int + 1);
                proof {
                    assert(sub1.drop_last() =~= hosts_all.subrange(0, i as int));
                    assert(sub1.last() == hosts_all[i as int]);
                    assert(hosts@[0] == hosts_all[i as int]);
                }
                let h = hosts.remove(0);
                proof {
                    assert(hosts@ =~= hosts_all.subrange(i as int + 1, n as int));
                }
                self.map.remove(h.host.as_str());
                i += 1;
            }
            let ghost m2 = self.map@;
            proof {
                assert(hosts_all.subrange(0, n as int) =~= hosts_all);
            }
            let mut entries = sni.sni.entries;
            let ghost sni_all = entries@;
            let en = entries.len();
            let mut j: usize = 0;
            proof {
                assert(sni_all.subrange(0, 0) =~= Seq::<(String, String)>::empty());
            }
            while j < en
                invariant
                    0 <= j <= en,
                    en == sni_all.len(),
                    entries@ =~= sni_all.subrange(j as int, en as int),
                    self.wf(),
                    self.map@ == apply_sni(m2, sni_all.subrange(0, j as int)),
                decreases en - j,
            {
                let ghost sub1 = sni_all.subrange(0, j as int + 1);
                proof {
                    assert(sub1.drop_last() =~= sni_all.subrange(0, j as int));
                    assert(sub1.last() == sni_all[j as int]);
                    assert(entries@[0] == sni_all[j as int]);
                }
                let e = entries.remove(0);
                proof {
                    assert(entries@ =~= sni_all.subrange(j as int + 1, en as int));
                }
                let (ehost, esecret) = e;
                match self.map.take(ehost.as_str()) {
                    Some(r) => {
                        let r2 = Router {
                            sni: esecret,
                            host: r.host,
                            default_backend: r.default_backend,
                            exact: r.exact,
                            prefix: r.prefix,
                        };
                        self.map.insert(ehost, r2);
                        proof {
                            assert(self.map@ =~= apply_sni(m2, sub1));
                        }
                    },
                    None => {
                        proof {
                            assert(self.map@ =~= apply_sni(m2, sub1));
                        }
                    },
                }
                j += 1;
            }
            proof {
                assert(sni_all.subrange(0, en as int) =~= sni_all);
            }
            true
        } else {
            true
        }
    }
}

/// The host before the first `':'`: the port stripped off.
pub open spec fn spec_before(s: Seq<char>, c: char) -> Seq<char> {
    match spec_find_char(s, c) {
        Some(i) => s.subrange(0, i),
        None => s,
    }
}

/// The host key a request resolves to: the host itself if the table knows
/// it, else the host with its leftmost label stripped, and so on while a
/// dot remains and the step bound allows.
pub open spec fn spec_host_chain(m: Map<Seq<char>, Router>, h: Seq<char>, fuel: nat) -> Option<
    Seq<char>,
>
    decreases fuel,
{
    if m.contains_key(h) {
        Some(h)
    } else if fuel == 0 {
        None
    } else {
        match spec_find_char(h, '.') {
            None => None,
            Some(i) => spec_host_chain(m, h.subrange(i + 1, h.len() as int), (fuel - 1) as nat),
        }
    }
}

/// When no route was found, the sentinel router answers: its secret name
/// and its default backend, if the table holds one.
pub open spec fn star_fallback(m: Map<Seq<char>, Router>, sni0: Seq<char>) -> (
    Option<RouterNode>,
    Seq<char>,
) {
    if m.contains_key("*"@) {
        (m["*"@].default_backend, m["*"@].sni@)
    } else {
        (None, sni0)
    }
}

/// What a request resolves to: backend (if any) and secret name. The host
/// loses its port, falls back through parent domains, and its router is
/// asked for the exact path first and the prefix tree second; with no
/// match anywhere, the sentinel router's default backend answers.
pub open spec fn spec_route(m: Map<Seq<char>, Router>, host_raw: Seq<char>, path: Seq<char>) -> (
    Option<RouterNode>,
    Seq<char>,
) {
    let h0 = spec_before(host_raw, ':');
    match spec_host_chain(m, h0, 99) {
        Some(hk) => {
            let r = m[hk];
            let svc = if r.exact@.contains_key(path) {
                Some(r.exact@[path])
            } else {
                r.prefix.spec_find(spec_split(path, '/'))
            };
            match svc {
                Some(s) => (Some(s), r.sni@),
                None => star_fallback(m, r.sni@),
            }
        },
        None => star_fallback(m, Seq::<char>::empty()),
    }
}

/// What one request carries away from routing.
pub struct HttpProxyCtx {
    pub service: Option<RouterNode>,
    pub sni: String,
}

/// The router serving a host name, walking up the parent domains.
fn host_lookup<'a>(m: &'a StrMap<Router>, host: &'a str, fuel: usize) -> (r: Option<&'a Router>)
    requires
        m.wf(),
    ensures
        match r {
            Some(rt) => spec_host_chain(m@, host@, fuel as nat) matches Some(hk)
                && m@.contains_key(hk) && *rt == m@[hk],
            None => spec_host_chain(m@, host@, fuel as nat) is None,
        },
    decreases fuel,
{
    match m.get(host) {
        Some(r) => Some(r),
        None => {
            if fuel == 0 {
                return None;
            }
            match find_char(host, '.') {
                None => None,
                Some(i) => {
                    proof {
                        crate::text::lemma_find_char_props(host@, '.');
                    }
                    let n = host.unicode_len();
                    let rest = host.substring_char(i + 1, n);
                    host_lookup(m, rest, fuel - 1)
                },
            }
        },
    }
}

/// The sentinel router's answer when nothing matched.
fn star_ctx(table: &RouteTable, sni0: String) -> (ctx: HttpProxyCtx)
    requires
        table.wf(),
    ensures
        ({
            let r = star_fallback(table.map@, sni0@);
            &&& (match ctx.service {
                Some(s) => r.0 == Some(s),
                None => r.0 is None,
            })
            &&& ctx.sni@ == r.1
        }),
{
    match table.map.get("*") {
        Some(r) => {
            let service = match &r.default_backend {
                Some(s) => Some(s.duplicate()),
                None => None,
            };
            HttpProxyCtx { service, sni: r.sni.clone() }
        },
        None => HttpProxyCtx { service: None, sni: sni0 },
    }
}

/// Resolves one request: see `spec_route`. A context without a service
/// means no route and no default matched the request.
pub fn route_request(table: &RouteTable, host: &str, path: &str) -> (ctx: HttpProxyCtx)
    requires
        table.wf(),
    ensures
        ({
            let r = spec_route(table.map@, host@, path@);
            &&& (match ctx.service {
                Some(s) => r.0 == Some(s),
                None => r.0 is None,
            })
            &&& ctx.sni@ == r.1
        }),
{
    let stripped = match find_char(host, ':') {
        Some(i) => {
            proof {
                crate::text::lemma_find_char_props(host@, ':');
            }
            host.substring_char(0, i)
        },
        None => host,
    };
    proof {
        assert(stripped@ == spec_before(host@, ':'));
    }
    match host_lookup(&table.map, stripped, 99) {
        Some(r) => {
            let sni = r.sni.clone();
            let service: Option<RouterNode> = match r.exact.get(path) {
                Some(s) => Some(s.duplicate()),
                None => {
                    match r.prefix.find_by_path(path) {
                        Some(s) => Some(s.duplicate()),
                        None => None,
                    }
                },
            };
            match service {
                Some(s) => HttpProxyCtx { service: Some(s), sni },
                None => star_ctx(table, sni),
            }
        },
        None => star_ctx(table, String::new()),
    }
}

/// One upstream connection target.
pub struct Upstream {
    pub backend: String,
    pub port: u16,
    pub use_tls: bool,
    pub sni: String,
}

/// Builds the upstream target from a routed context: TLS is used exactly
/// when a secret name is present. Without a service there is no target and
/// the request is answered with not-found. A port outside the 16-bit range
/// is truncated, bit for bit, when narrowed to the wire type.
pub fn upstream_of(ctx: &HttpProxyCtx) -> (r: Option<Upstream>)
    ensures
        r is Some <==> ctx.service is Some,
        r is Some ==> ({
            let s = ctx.service->0;
            &&& r->0.backend == s.backend
            &&& (0 <= s.port <= 65535 ==> r->0.port == s.port as u16)
            &&& r->0.use_tls == (ctx.sni@.len() != 0)
            &&& r->0.sni == ctx.sni
        }),
{
    match &ctx.service {
        Some(s) => {
            let port = #[verifier::truncate] (s.port as u16);
            Some(
                Upstream {
                    backend: s.backend.clone(),
                    port,
                    use_tls: !ctx.sni.as_str().is_empty(),
                    sni: ctx.sni.clone(),
                },
            )
        },
        None => None,
    }
}

proof fn lemma_chain_const(chain: Seq<Node<RouterNode>>, rules: Seq<IngRule>, k: int)
    requires
        chain.len() == rules.len() + 1,
        forall|i: int| 0 <= i < rules.len() ==> rule_step(chain[i], rules[i], #[trigger] chain[i
            + 1]),
        forall|i: int| 0 <= i < rules.len() ==> rules[i].ty != RULE_PREFIX,
        0 <= k < chain.len(),
    ensures
        chain[k] == chain.first(),
    decreases k,
{
    if k > 0 {
        lemma_chain_const(chain, rules, k - 1);
        assert(rule_step(chain[k - 1], rules[k - 1], chain[(k - 1) + 1]));
    }
}

/// Law: an update carrying no prefix rules leaves the prefix tree exactly
/// as it was, so exact rules never erase installed prefix routes.
pub proof fn lemma_exact_update_keeps_prefix(pre: Router, rules: Seq<IngRule>, post: Router)
    requires
        router_updated(pre, rules, post),
        forall|i: int| 0 <= i < rules.len() ==> rules[i].ty != RULE_PREFIX,
    ensures
        post.prefix == pre.prefix,
{
    let chain = choose|chain: Seq<Node<RouterNode>>|
        #[trigger] prefix_chain(chain, pre.prefix, rules, post.prefix);
    lemma_chain_const(chain, rules, chain.len() - 1);
}

proof fn lemma_remove_hosts_gone(m: Map<Seq<char>, Router>, hosts: Seq<IngHost>, j: int)
    requires
        0 <= j < hosts.len(),
    ensures
        !remove_hosts(m, hosts).contains_key(hosts[j].host@),
    decreases hosts.len(),
{
    if j < hosts.len() - 1 {
        assert(hosts.drop_last()[j] == hosts[j]);
        lemma_remove_hosts_gone(m, hosts.drop_last(), j);
    }
}

proof fn lemma_apply_sni_no_new(
    m: Map<Seq<char>, Router>,
    entries: Seq<(String, String)>,
    k: Seq<char>,
)
    requires
        !m.contains_key(k),
    ensures
        !apply_sni(m, entries).contains_key(k),
    decreases entries.len(),
{
    if entries.len() > 0 {
        lemma_apply_sni_no_new(m, entries.drop_last(), k);
    }
}

/// Law: a delete event removes each named host's router entirely, so later
/// requests to it can only reach the sentinel default.
pub proof fn lemma_delete_removes_host(
    pre: Map<Seq<char>, Router>,
    ev: IngressEvent,
    post: Map<Seq<char>, Router>,
    j: int,
)
    requires
        ev.ty == EVENT_DELETE,
        snapshot_applied(pre, ev, post),
        0 <= j < ev.hosts@.len(),
    ensures
        !post.contains_key(ev.hosts@[j].host@),
{
    let dbr = if ev.default_backend is Some {
        pre.remove("*"@)
    } else {
        pre
    };
    lemma_remove_hosts_gone(dbr, ev.hosts@, j);
    lemma_apply_sni_no_new(remove_hosts(dbr, ev.hosts@), ev.sni.sni.entries@, ev.hosts@[j].host@);
}

impl Node<RouterNode> {
    /// A deep copy of a routing tree, node by node; the copy reads the same.
    fn duplicate(&self) -> (r: Node<RouterNode>)
        ensures
            r.equiv(*self),
        decreases *self,
    {
        let mut kids: Vec<Node<RouterNode>> = Vec::new();
        let mut i: usize = 0;
        while i < self.next.len()
            invariant
                0 <= i <= self.next@.len(),
                kids@.len() == i,
                forall|m: int| 0 <= m < i ==> (#[trigger] kids@[m]).equiv(self.next@[m]),
            decreases self.next@.len() - i,
        {
            let c = self.next[i].duplicate();
            kids.push(c);
            i += 1;
        }
        let data = match &self.data {
            Some(n) => Some(n.duplicate()),
            None => None,
        };
        let r = Node { path: self.path.clone(), data, next: kids };
        proof {
            assert(r.equiv(*self));
        }
        r
    }
}

/// The two routers answer every request the same: equal fields, and prefix
/// trees that read the same.
pub open spec fn router_equiv(a: Router, b: Router) -> bool {
    &&& a.sni == b.sni
    &&& a.host == b.host
    &&& a.default_backend == b.default_backend
    &&& a.exact@ == b.exact@
    &&& a.prefix.equiv(b.prefix)
}

impl Router {
    /// A deep copy of one router; the routes read the same.
    pub fn duplicate(&self) -> (r: Router)
        requires
            self.wf(),
        ensures
            r.wf(),
            router_equiv(r, *self),
    {
        let mut entries: Vec<(String, RouterNode)> = Vec::new();
        let n = self.exact.entries.len();
        let mut i: usize = 0;
        while i < n
            invariant
                0 <= i <= n,
                n == self.exact.entries@.len(),
                entries@.len() == i,
                forall|m: int| 0 <= m < i ==> entries@[m] == self.exact.entries@[m],
            decreases n - i,
        {
            let e = &self.exact.entries[i];
            entries.push((e.0.clone(), e.1.duplicate()));
            i += 1;
        }
        proof {
            assert(entries@ =~= self.exact.entries@);
        }
        let default_backend = match &self.default_backend {
            Some(s) => Some(s.duplicate()),
            None => None,
        };
        Router {
            sni: self.sni.clone(),
            host: self.host.clone(),
            default_backend,
            exact: StrMap { entries },
            prefix: self.prefix.duplicate(),
        }
    }
}

impl RouteTable {
    /// A deep copy of the table: the scratch copy an event is applied to
    /// while the published one stays in use.
    #[verifier::rlimit(50)]
    pub fn duplicate(&self) -> (t: RouteTable)
        requires
            self.wf(),
        ensures
            t.wf(),
            forall|k: Seq<char>| #[trigger] t.map@.contains_key(k) <==> self.map@.contains_key(k),
            forall|k: Seq<char>| #[trigger] self.map@.contains_key(k) ==> router_equiv(
                t.map@[k],
                self.map@[k],
            ),
    {
        let mut entries: Vec<(String, Router)> = Vec::new();
        let n = self.map.entries.len();
        let mut i: usize = 0;
        while i < n
            invariant
                0 <= i <= n,
                n == self.map.entries@.len(),
                self.wf(),
                entries@.len() == i,
                forall|m: int| 0 <= m < i ==> #[trigger] entries@[m].0@
                    == self.map.entries@[m].0@,
                forall|m: int| 0 <= m < i ==> (#[trigger] entries@[m].1).wf(),
                forall|m: int| 0 <= m < i ==> router_equiv(
                    (#[trigger] entries@[m]).1,
                    self.map.entries@[m].1,
                ),
            decreases n - i,
        {
            let e = &self.map.entries[i];
            proof {
                crate::strmap::lemma_map_of_at(self.map.entries@, i as int);
                assert(self.map@.contains_key(self.map.entries@[i as int].0@));
                assert(self.map@[self.map.entries@[i as int].0@].wf());
                assert(self.map.entries@[i as int].1.wf());
            }
            let ghost pre_entries = entries@;
            entries.push((e.0.clone(), e.1.duplicate()));
            proof {
                assert(entries@.last().0@ == self.map.entries@[i as int].0@);
                assert forall|m: int| 0 <= m < entries@.len() implies #[trigger] entries@[m].0@
                    == self.map.entries@[m].0@ && entries@[m].1.wf() && router_equiv(
                    entries@[m].1,
                    self.map.entries@[m].1,
                ) by {
                    if m < pre_entries.len() {
                        assert(entries@[m] == pre_entries[m]);
                        assert(pre_entries[m].0@ == self.map.entries@[m].0@);
                        assert(pre_entries[m].1.wf());
                        assert(router_equiv(pre_entries[m].1, self.map.entries@[m].1));
                    } else {
                        assert(entries@[m] == entries@.last());
                    }
                }
            }
            i += 1;
        }
        let t = RouteTable { map: StrMap { entries } };
        proof {
            assert(t.map.wf());
            assert forall|k: Seq<char>| #[trigger] t.map@.contains_key(k)
                <==> self.map@.contains_key(k) by {
                crate::strmap::lemma_map_of_key(t.map.entries@, k);
                crate::strmap::lemma_map_of_key(self.map.entries@, k);
                if t.map@.contains_key(k) {
                    let j = choose|j: int|
                        0 <= j < t.map.entries@.len() && t.map.entries@[j].0@ == k;
                    assert(self.map.entries@[j].0@ == k);
                }
                if self.map@.contains_key(k) {
                    let j = choose|j: int|
                        0 <= j < self.map.entries@.len() && self.map.entries@[j].0@ == k;
                    assert(t.map.entries@[j].0@ == k);
                }
            }
            assert forall|k: Seq<char>| #[trigger] self.map@.contains_key(k) implies t.map@[
                k
            ].wf() && router_equiv(t.map@[k], self.map@[k]) by {
                crate::strmap::lemma_map_of_key(self.map.entries@, k);
                let j = choose|j: int|
                    0 <= j < self.map.entries@.len() && self.map.entries@[j].0@ == k;
                crate::strmap::lemma_map_of_at(self.map.entries@, j);
                crate::strmap::lemma_map_of_at(t.map.entries@, j);
            }
        }
        t
    }
}

/// Paths that begin with `'/'` always walk in under the wildcard root.
proof fn lemma_slash_first_seg(p: Seq<char>)
    requires
        p.len() > 0,
        p[0] == '/',
    ensures
        spec_insert_segs(p).first() == "*"@,
        spec_insert_segs(p).len() > 0,
{
    crate::text::lemma_split_nonempty(p, '/');
    assert(spec_split(p, '/') == seq![Seq::<char>::empty()].add(
        spec_split(p.drop_first(), '/'),
    ));
    assert(spec_split(p, '/').first().len() == 0);
}

/// Law: a rule list whose prefix paths all begin with `'/'` is never
/// rejected by a router whose tree root is blank or the wildcard, and it
/// leaves the root that way; events decoded from ordinary ingress paths
/// therefore always apply.
pub proof fn lemma_slash_rules_accepted(path0: Seq<char>, rules: Seq<IngRule>)
    requires
        path0.len() == 0 || path0 == "*"@,
        forall|i: int| 0 <= i < rules.len() && rules[i].ty == RULE_PREFIX
            && (#[trigger] rules[i].path@).len() > 0 ==> rules[i].path@[0] == '/',
    ensures
        prefix_rules_ok(path0, rules),
        root_after(path0, rules).len() == 0 || root_after(path0, rules) == "*"@,
    decreases rules.len(),
{
    reveal_strlit("*");
    if rules.len() > 0 {
        assert(forall|i: int| 0 <= i < rules.drop_last().len() ==> rules.drop_last()[i]
            == rules[i]);
        lemma_slash_rules_accepted(path0, rules.drop_last());
        let r = rules.last();
        if r.ty == RULE_PREFIX && r.path@.len() > 0 {
            assert(r == rules[rules.len() - 1]);
            lemma_slash_first_seg(r.path@);
        }
    }
}

proof fn lemma_host_chain_contains(m: Map<Seq<char>, Router>, h: Seq<char>, fuel: nat)
    ensures
        match spec_host_chain(m, h, fuel) {
            Some(hk) => m.contains_key(hk),
            None => true,
        },
    decreases fuel,
{
    if !m.contains_key(h) && fuel > 0 {
        match spec_find_char(h, '.') {
            Some(i) => {
                crate::text::lemma_find_char_props(h, '.');
                lemma_host_chain_contains(m, h.subrange(i + 1, h.len() as int), (fuel - 1) as nat);
            },
            None => {},
        }
    }
}

proof fn lemma_equiv_host_chain(
    m1: Map<Seq<char>, Router>,
    m2: Map<Seq<char>, Router>,
    h: Seq<char>,
    fuel: nat,
)
    requires
        forall|k: Seq<char>| #[trigger] m1.contains_key(k) <==> m2.contains_key(k),
    ensures
        spec_host_chain(m1, h, fuel) == spec_host_chain(m2, h, fuel),
    decreases fuel,
{
    if !m1.contains_key(h) && fuel > 0 {
        match spec_find_char(h, '.') {
            Some(i) => {
                crate::text::lemma_find_char_props(h, '.');
                lemma_equiv_host_chain(m1, m2, h.subrange(i + 1, h.len() as int), (fuel - 1) as nat);
            },
            None => {},
        }
    }
}

/// Law: two tables with the same hosts and routers that read the same
/// answer every request the same; publishing a duplicate changes no route.
pub proof fn lemma_equiv_route(
    m1: Map<Seq<char>, Router>,
    m2: Map<Seq<char>, Router>,
    host_raw: Seq<char>,
    path: Seq<char>,
)
    requires
        forall|k: Seq<char>| #[trigger] m1.contains_key(k) <==> m2.contains_key(k),
        forall|k: Seq<char>| #[trigger] m1.contains_key(k) ==> router_equiv(m1[k], m2[k]),
    ensures
        spec_route(m1, host_raw, path) == spec_route(m2, host_raw, path),
{
    let h0 = spec_before(host_raw, ':');
    lemma_equiv_host_chain(m1, m2, h0, 99);
    lemma_host_chain_contains(m1, h0, 99);
    match spec_host_chain(m1, h0, 99) {
        Some(hk) => {
            assert(router_equiv(m1[hk], m2[hk]));
            Node::lemma_equiv_find(m1[hk].prefix, m2[hk].prefix, spec_split(path, '/'));
            if m1.contains_key("*"@) {
                assert(router_equiv(m1["*"@], m2["*"@]));
            }
        },
        None => {
            if m1.contains_key("*"@) {
                assert(router_equiv(m1["*"@], m2["*"@]));
            }
        },
    }
}

} // verus!
