//! The normalized ingress model and its decoding rules.
//!
//! The decoder reads a plain mirror of the cluster's ingress objects — the
//! fields the rules below consume — and produces the normalized event the
//! route-table manager applies. An ingress whose declared class is set and
//! differs from `"pingora"` contributes nothing at all.

use vstd::prelude::*;
use crate::strmap::StrMap;
use crate::text::str_eq;

verus! {

/// Event kind: a full-world replay.
pub const EVENT_INIT: u8 = 1;

/// Event kind: one object applied or updated.
pub const EVENT_UPDATE: u8 = 2;

/// Event kind: one object deleted.
pub const EVENT_DELETE: u8 = 3;

/// Rule kind: longest-prefix path match.
pub const RULE_PREFIX: u8 = 1;

/// Rule kind: exact path match.
pub const RULE_EXACT: u8 = 2;

/// Rule kind: implementation specific; skipped.
pub const RULE_SPECIFIC: u8 = 3;

/// Rule kind: anything else; skipped.
pub const RULE_UNKNOWN: u8 = 99;

/// One normalized routing rule.
#[derive(Clone, Debug)]
pub struct IngRule {
    pub path: String,
    pub ty: u8,
    pub backend: String,
    pub port: i32,
}

/// The rules one host block carries.
#[derive(Clone, Debug)]
pub struct IngHost {
    pub host: String,
    pub rules: Vec<IngRule>,
}

/// Host name to TLS secret name.
#[derive(Clone, Debug)]
pub struct IngSni {
    pub sni: StrMap<String>,
}

/// A normalized ingress change event.
#[derive(Clone, Debug)]
pub struct IngressEvent {
    pub ty: u8,
    pub default_backend: Option<IngRule>,
    pub hosts: Vec<IngHost>,
    pub sni: IngSni,
}

/// A backend service reference as a cluster ingress names it.
pub struct RawService {
    pub name: String,
    pub port: Option<i32>,
}

/// One path entry of a cluster ingress rule.
pub struct RawHttpPath {
    pub path_type: String,
    pub path: Option<String>,
    pub service: Option<RawService>,
}

/// One host rule of a cluster ingress.
pub struct RawRule {
    pub host: Option<String>,
    pub paths: Vec<RawHttpPath>,
}

/// One TLS stanza of a cluster ingress.
pub struct RawTls {
    pub hosts: Vec<String>,
    pub secret_name: Option<String>,
}

/// The fields of an ingress spec the decoder reads.
pub struct RawIngressSpec {
    pub ingress_class_name: Option<String>,
    pub default_backend: Option<RawService>,
    pub rules: Vec<RawRule>,
    pub tls: Vec<RawTls>,
}

/// A cluster ingress object, reduced to what the decoder reads.
pub struct RawIngress {
    pub spec: Option<RawIngressSpec>,
}

/// A raw watch event.
pub enum RawEvent {
    Applied(RawIngress),
    Deleted(RawIngress),
    Restarted(Vec<RawIngress>),
}

/// `a` is `b` up to ASCII case, where `b` is expected lower-case.
pub open spec fn lower_eq_char(a: char, b: char) -> bool {
    a == b || ('A' <= a <= 'Z' && (a as u32) + 32 == (b as u32))
}

pub open spec fn lower_matches(s: Seq<char>, lit: Seq<char>) -> bool {
    s.len() == lit.len() && (forall|i: int| 0 <= i < s.len() ==> lower_eq_char(s[i], lit[i]))
}

/// The rule kind a path-type string names, compared without ASCII case.
pub open spec fn spec_path_kind(s: Seq<char>) -> u8 {
    if lower_matches(s, "prefix"@) {
        RULE_PREFIX
    } else if lower_matches(s, "exact"@) {
        RULE_EXACT
    } else if lower_matches(s, "implementationspecific"@) {
        RULE_SPECIFIC
    } else {
        RULE_UNKNOWN
    }
}

/// Case-insensitive ASCII comparison against a lower-case name.
pub fn eq_ignore_case(s: &str, lit: &str) -> (r: bool)
    ensures
        r == lower_matches(s@, lit@),
{
    let n = s.unicode_len();
    if n != lit.unicode_len() {
        return false;
    }
    let mut i: usize = 0;
    while i < n
        invariant
            n == s@.len(),
            n == lit@.len(),
            0 <= i <= n,
            forall|j: int| 0 <= j < i ==> lower_eq_char(s@[j], lit@[j]),
        decreases n - i,
    {
        let c = s.get_char(i);
        let d = lit.get_char(i);
        if c != d {
            if !('A' <= c && c <= 'Z' && (c as u32) + 32 == (d as u32)) {
                return false;
            }
        }
        i += 1;
    }
    true
}

/// Maps a path-type name onto a rule kind.
pub fn path_kind(s: &str) -> (k: u8)
    ensures
        k == spec_path_kind(s@),
{
    if eq_ignore_case(s, "prefix") {
        RULE_PREFIX
    } else if eq_ignore_case(s, "exact") {
        RULE_EXACT
    } else if eq_ignore_case(s, "implementationspecific") {
        RULE_SPECIFIC
    } else {
        RULE_UNKNOWN
    }
}

/// The port a service reference resolves to; absent means 80.
pub open spec fn spec_port_of(p: Option<i32>) -> i32 {
    match p {
        Some(n) => n,
        None => 80,
    }
}

/// The rule a default-backend service decodes to: an empty prefix path.
pub open spec fn rule_matches_service(rule: IngRule, s: RawService) -> bool {
    &&& rule.path@.len() == 0
    &&& rule.ty == RULE_PREFIX
    &&& rule.backend == s.name
    &&& rule.port == spec_port_of(s.port)
}

/// The rule a path entry decodes to, when its service is present.
pub open spec fn rule_matches_path(rule: IngRule, p: RawHttpPath) -> bool {
    &&& p.service is Some
    &&& rule.backend == p.service->0.name
    &&& rule.port == spec_port_of(p.service->0.port)
    &&& rule.ty == spec_path_kind(p.path_type@)
    &&& rule.path@ == (match p.path {
        Some(q) => q@,
        None => Seq::<char>::empty(),
    })
}

/// The path entries that survive decoding: those naming a service.
pub open spec fn kept_paths(paths: Seq<RawHttpPath>) -> Seq<RawHttpPath>
    decreases paths.len(),
{
    if paths.len() == 0 {
        Seq::empty()
    } else {
        let rest = kept_paths(paths.drop_last());
        if paths.last().service is Some {
            rest.push(paths.last())
        } else {
            rest
        }
    }
}

/// The host block a raw rule decodes to.
pub open spec fn host_block_matches(h: IngHost, r: RawRule) -> bool {
    &&& h.host@ == (match r.host {
        Some(s) => s@,
        None => Seq::<char>::empty(),
    })
    &&& h.rules@.len() == kept_paths(r.paths@).len()
    &&& (forall|i: int| 0 <= i < h.rules@.len() ==> rule_matches_path(
        #[trigger] h.rules@[i],
        kept_paths(r.paths@)[i],
    ))
}

/// The raw rules that survive decoding: those with at least one kept path.
pub open spec fn kept_rules(rules: Seq<RawRule>) -> Seq<RawRule>
    decreases rules.len(),
{
    if rules.len() == 0 {
        Seq::empty()
    } else {
        let rest = kept_rules(rules.drop_last());
        if kept_paths(rules.last().paths@).len() > 0 {
            rest.push(rules.last())
        } else {
            rest
        }
    }
}

pub open spec fn hosts_match(hosts: Seq<IngHost>, rules: Seq<RawRule>) -> bool {
    &&& hosts.len() == kept_rules(rules).len()
    &&& (forall|i: int| 0 <= i < hosts.len() ==> host_block_matches(
        #[trigger] hosts[i],
        kept_rules(rules)[i],
    ))
}

/// The SNI pairs one TLS stanza list denotes, later entries overriding.
pub open spec fn spec_sni_hosts(
    m: Map<Seq<char>, Seq<char>>,
    hosts: Seq<String>,
    sec: Seq<char>,
) -> Map<Seq<char>, Seq<char>>
    decreases hosts.len(),
{
    if hosts.len() == 0 {
        m
    } else {
        spec_sni_hosts(m, hosts.drop_last(), sec).insert(hosts.last()@, sec)
    }
}

pub open spec fn spec_sni_of(tls: Seq<RawTls>) -> Map<Seq<char>, Seq<char>>
    decreases tls.len(),
{
    if tls.len() == 0 {
        Map::empty()
    } else {
        let m = spec_sni_of(tls.drop_last());
        match tls.last().secret_name {
            None => m,
            Some(sec) => spec_sni_hosts(m, tls.last().hosts@, sec@),
        }
    }
}

/// The character-level view of a string-valued entry list.
pub open spec fn sni_view_entries(entries: Seq<(String, String)>) -> Map<Seq<char>, Seq<char>> {
    Map::new(
        |k: Seq<char>| crate::strmap::spec_map_of(entries).contains_key(k),
        |k: Seq<char>| crate::strmap::spec_map_of(entries)[k]@,
    )
}

/// The character-level view of a string-valued map.
pub open spec fn sni_view(m: StrMap<String>) -> Map<Seq<char>, Seq<char>> {
    sni_view_entries(m.entries@)
}

/// Whether an ingress is dropped whole: no spec, or a foreign class.
pub open spec fn spec_dropped(ing: RawIngress) -> bool {
    ||| ing.spec is None
    ||| (ing.spec->0.ingress_class_name is Some && ing.spec->0.ingress_class_name->0@
        != "pingora"@)
}

/// What one ingress contributes: nothing when dropped, else its decoded
/// default backend, host blocks and SNI pairs.
pub open spec fn contribution_ok(
    ing: RawIngress,
    db: Option<IngRule>,
    hosts: Seq<IngHost>,
    sni_v: Map<Seq<char>, Seq<char>>,
) -> bool {
    if spec_dropped(ing) {
        db is None && hosts.len() == 0 && sni_v == Map::<Seq<char>, Seq<char>>::empty()
    } else {
        let spec0 = ing.spec->0;
        &&& (match spec0.default_backend {
            None => db is None,
            Some(s) => db is Some && rule_matches_service(db->0, s),
        })
        &&& hosts_match(hosts, spec0.rules@)
        &&& sni_v == spec_sni_of(spec0.tls@)
    }
}

impl IngSni {
    pub fn empty() -> (r: IngSni)
        ensures
            r.sni.wf(),
            sni_view(r.sni) == Map::<Seq<char>, Seq<char>>::empty(),
    {
        let r = IngSni { sni: StrMap::new() };
        proof {
            assert(sni_view(r.sni) =~= Map::<Seq<char>, Seq<char>>::empty());
        }
        r
    }

    /// Records each TLS stanza's hosts under its secret name; stanzas
    /// without a secret are skipped, later stanzas override earlier ones.
    pub fn from_ingress_tls(tls: &Vec<RawTls>) -> (r: IngSni)
        ensures
            r.sni.wf(),
            sni_view(r.sni) == spec_sni_of(tls@),
    {
        let mut out = IngSni::empty();
        let mut i: usize = 0;
        while i < tls.len()
            invariant
                0 <= i <= tls@.len(),
                out.sni.wf(),
                sni_view(out.sni) == spec_sni_of(tls@.subrange(0, i as int)),
            decreases tls@.len() - i,
        {
            proof {
                assert(tls@.subrange(0, i as int + 1).drop_last() =~= tls@.subrange(0, i as int));
                assert(tls@.subrange(0, i as int + 1).last() == tls@[i as int]);
            }
            match &tls[i].secret_name {
                None => {},
                Some(secret) => {
                    let hosts = &tls[i].hosts;
                    let mut j: usize = 0;
                    while j < hosts.len()
                        invariant
                            0 <= j <= hosts@.len(),
                            out.sni.wf(),
                            hosts@ == tls@[i as int].hosts@,
                            i < tls@.len(),
                            tls@[i as int].secret_name is Some,
                            tls@[i as int].secret_name->0@ == secret@,
                            sni_view(out.sni) == spec_sni_hosts(
                                spec_sni_of(tls@.subrange(0, i as int)),
                                hosts@.subrange(0, j as int),
                                secret@,
                            ),
                        decreases hosts@.len() - j,
                    {
                        proof {
                            assert(hosts@.subrange(0, j as int + 1).drop_last() =~= hosts@.subrange(
                                0,
                                j as int,
                            ));
                            assert(hosts@.subrange(0, j as int + 1).last() == hosts@[j as int]);
                        }
                        let ghost pre = out.sni;
                        let h = hosts[j].clone();
                        let s = secret.clone();
                        out.sni.insert(h, s);
                        proof {
                            assert(sni_view(out.sni) =~= sni_view(pre).insert(
                                hosts@[j as int]@,
                                secret@,
                            ));
                        }
                        j += 1;
                    }
                    proof {
                        assert(hosts@.subrange(0, hosts@.len() as int) =~= hosts@);
                    }
                },
            }
            i += 1;
            proof {
                assert(sni_view(out.sni) == spec_sni_of(tls@.subrange(0, i as int)));
            }
        }
        proof {
            assert(tls@.subrange(0, tls@.len() as int) =~= tls@);
        }
        out
    }

    /// Folds another SNI map in; its entries win on shared hosts.
    pub fn append(&mut self, other: IngSni)
        requires
            old(self).sni.wf(),
            other.sni.wf(),
        ensures
            final(self).sni.wf(),
            sni_view(final(self).sni) == sni_view(old(self).sni).union_prefer_right(
                sni_view(other.sni),
            ),
    {
        proof {
            assert(sni_view_entries(other.sni.entries@.subrange(0, 0)) =~= Map::<
                Seq<char>,
                Seq<char>,
            >::empty());
            assert(sni_view(self.sni).union_prefer_right(
                sni_view_entries(other.sni.entries@.subrange(0, 0)),
            ) =~= sni_view(self.sni));
        }
        let mut k: usize = 0;
        let n = other.sni.entries.len();
        while k < n
            invariant
                0 <= k <= other.sni.entries@.len(),
                n == other.sni.entries@.len(),
                self.sni.wf(),
                sni_view(self.sni) == sni_view(old(self).sni).union_prefer_right(
                    sni_view_entries(other.sni.entries@.subrange(0, k as int)),
                ),
            decreases n - k,
        {
            let ghost pre = self.sni@;
            let key = other.sni.entries[k].0.clone();
            let val = other.sni.entries[k].1.clone();
            self.sni.insert(key, val);
            proof {
                let sub1 = other.sni.entries@.subrange(0, k as int + 1);
                assert(sub1.drop_last() =~= other.sni.entries@.subrange(0, k as int));
                assert(sub1.last() == other.sni.entries@[k as int]);
                assert(sni_view_entries(sub1) =~= sni_view_entries(
                    other.sni.entries@.subrange(0, k as int),
                ).insert(other.sni.entries@[k as int].0@, other.sni.entries@[k as int].1@));
                assert(sni_view(self.sni) =~= Map::new(
                    |q: Seq<char>| pre.contains_key(q),
                    |q: Seq<char>| pre[q]@,
                ).insert(other.sni.entries@[k as int].0@, other.sni.entries@[k as int].1@));
                assert(sni_view(self.sni) =~= sni_view(old(self).sni).union_prefer_right(
                    sni_view_entries(sub1),
                ));
            }
            k += 1;
        }
        proof {
            assert(other.sni.entries@.subrange(0, n as int) =~= other.sni.entries@);
        }
    }
}

impl IngRule {
    /// Decodes a default-backend service: an empty prefix-path rule.
    pub fn from_service(s: &RawService) -> (r: IngRule)
        ensures
            rule_matches_service(r, *s),
    {
        let port = match s.port {
            Some(n) => n,
            None => 80,
        };
        IngRule { path: String::new(), ty: RULE_PREFIX, backend: s.name.clone(), port }
    }

    /// Decodes one path entry; absent services drop the entry.
    pub fn new_from_path(value: &RawHttpPath) -> (r: Option<IngRule>)
        ensures
            r is Some <==> value.service is Some,
            r is Some ==> rule_matches_path(r->0, *value),
    {
        let service = match &value.service {
            Some(s) => s,
            None => {
                return None;
            },
        };
        let ty = path_kind(value.path_type.as_str());
        let path = match &value.path {
            Some(p) => p.clone(),
            None => String::new(),
        };
        let port = match service.port {
            Some(n) => n,
            None => 80,
        };
        Some(IngRule { path, ty, backend: service.name.clone(), port })
    }
}

impl IngHost {
    /// Decodes one raw host rule: the host name, defaulting to the empty
    /// catch-all, and every path entry that names a service.
    pub fn from_rule(value: &RawRule) -> (h: IngHost)
        ensures
            host_block_matches(h, *value),
    {
        let host = match &value.host {
            Some(s) => s.clone(),
            None => String::new(),
        };
        let mut rules: Vec<IngRule> = Vec::new();
        let mut i: usize = 0;
        while i < value.paths.len()
            invariant
                0 <= i <= value.paths@.len(),
                rules@.len() == kept_paths(value.paths@.subrange(0, i as int)).len(),
                forall|m: int| 0 <= m < rules@.len() ==> rule_matches_path(
                    #[trigger] rules@[m],
                    kept_paths(value.paths@.subrange(0, i as int))[m],
                ),
            decreases value.paths@.len() - i,
        {
            proof {
                assert(value.paths@.subrange(0, i as int + 1).drop_last() =~= value.paths@.subrange(
                    0,
                    i as int,
                ));
                assert(value.paths@.subrange(0, i as int + 1).last() == value.paths@[i as int]);
            }
            match IngRule::new_from_path(&value.paths[i]) {
                Some(r) => {
                    rules.push(r);
                },
                None => {},
            }
            i += 1;
        }
        proof {
            assert(value.paths@.subrange(0, value.paths@.len() as int) =~= value.paths@);
        }
        IngHost { host, rules }
    }
}

/// Every raw host rule that a replay keeps, across its objects in order.
pub open spec fn all_kept_rules(list: Seq<RawIngress>) -> Seq<RawRule>
    decreases list.len(),
{
    if list.len() == 0 {
        Seq::empty()
    } else {
        let rest = all_kept_rules(list.drop_last());
        if spec_dropped(list.last()) {
            rest
        } else {
            rest + kept_rules(list.last().spec->0.rules@)
        }
    }
}

/// The SNI pairs a replay folds together; later objects win.
pub open spec fn all_sni(list: Seq<RawIngress>) -> Map<Seq<char>, Seq<char>>
    decreases list.len(),
{
    if list.len() == 0 {
        Map::empty()
    } else {
        let m = all_sni(list.drop_last());
        if spec_dropped(list.last()) {
            m
        } else {
            m.union_prefer_right(spec_sni_of(list.last().spec->0.tls@))
        }
    }
}

/// The default backend a replay keeps: the last one any kept object names.
pub open spec fn replay_db_ok(list: Seq<RawIngress>, db: Option<IngRule>) -> bool
    decreases list.len(),
{
    if list.len() == 0 {
        db is None
    } else {
        if spec_dropped(list.last()) || list.last().spec->0.default_backend is None {
            replay_db_ok(list.drop_last(), db)
        } else {
            db is Some && rule_matches_service(db->0, list.last().spec->0.default_backend->0)
        }
    }
}

/// What a full replay folds into: host blocks concatenate in order, later
/// SNI pairs win, and the last default backend seen is kept.
pub open spec fn restart_ok(
    list: Seq<RawIngress>,
    db: Option<IngRule>,
    hosts: Seq<IngHost>,
    sniv: Map<Seq<char>, Seq<char>>,
) -> bool {
    &&& replay_db_ok(list, db)
    &&& hosts.len() == all_kept_rules(list).len()
    &&& (forall|i: int| 0 <= i < hosts.len() ==> host_block_matches(
        #[trigger] hosts[i],
        all_kept_rules(list)[i],
    ))
    &&& sniv == all_sni(list)
}

proof fn lemma_restart_step(
    list: Seq<RawIngress>,
    i: int,
    db0: Option<IngRule>,
    h0: Seq<IngHost>,
    s0: Map<Seq<char>, Seq<char>>,
    db1: Option<IngRule>,
    h1: Seq<IngHost>,
    s1: Map<Seq<char>, Seq<char>>,
    db: Option<IngRule>,
    hosts: Seq<IngHost>,
    sniv: Map<Seq<char>, Seq<char>>,
)
    requires
        0 <= i < list.len(),
        restart_ok(list.subrange(0, i), db0, h0, s0),
        contribution_ok(list[i], db1, h1, s1),
        db == (if db1 is Some {
            db1
        } else {
            db0
        }),
        hosts == h0 + h1,
        sniv == s0.union_prefer_right(s1),
    ensures
        restart_ok(list.subrange(0, i + 1), db, hosts, sniv),
{
    let sub1 = list.subrange(0, i + 1);
    assert(sub1.drop_last() =~= list.subrange(0, i));
    assert(sub1.last() == list[i]);
    let ing = list[i];
    if spec_dropped(ing) {
        assert(all_kept_rules(sub1) == all_kept_rules(sub1.drop_last()));
        assert(hosts =~= h0);
        assert(sniv =~= s0.union_prefer_right(Map::<Seq<char>, Seq<char>>::empty()));
        assert(sniv =~= s0);
        assert(db == db0);
    } else {
        let kept1 = kept_rules(ing.spec->0.rules@);
        assert(all_kept_rules(sub1) == all_kept_rules(sub1.drop_last()) + kept1);
        assert(hosts.len() == all_kept_rules(sub1).len());
        assert forall|m: int| 0 <= m < hosts.len() implies host_block_matches(
            #[trigger] hosts[m],
            all_kept_rules(sub1)[m],
        ) by {
            if m < h0.len() {
                assert(hosts[m] == h0[m]);
                assert(all_kept_rules(sub1)[m] == all_kept_rules(sub1.drop_last())[m]);
            } else {
                assert(hosts[m] == h1[m - h0.len()]);
                assert(all_kept_rules(sub1)[m] == kept1[m - h0.len()]);
            }
        }
        assert(sniv == all_sni(sub1));
    }
}

impl IngressEvent {
    /// Decodes one ingress object's contribution; a missing spec or a
    /// foreign ingress class contributes nothing.
    pub fn ing_to_host_backend(ing: &RawIngress) -> (r: (Option<IngRule>, Vec<IngHost>, IngSni))
        ensures
            r.2.sni.wf(),
            contribution_ok(*ing, r.0, r.1@, sni_view(r.2.sni)),
    {
        let spec0 = match &ing.spec {
            Some(s) => s,
            None => {
                return (None, Vec::new(), IngSni::empty());
            },
        };
        match &spec0.ingress_class_name {
            Some(n) => {
                if !str_eq(n.as_str(), "pingora") {
                    proof {
                        reveal_strlit("pingora");
                    }
                    return (None, Vec::new(), IngSni::empty());
                }
            },
            None => {},
        }
        let default_backend = match &spec0.default_backend {
            Some(s) => Some(IngRule::from_service(s)),
            None => None,
        };
        let mut hosts: Vec<IngHost> = Vec::new();
        let mut i: usize = 0;
        while i < spec0.rules.len()
            invariant
                0 <= i <= spec0.rules@.len(),
                hosts@.len() == kept_rules(spec0.rules@.subrange(0, i as int)).len(),
                forall|m: int| 0 <= m < hosts@.len() ==> host_block_matches(
                    #[trigger] hosts@[m],
                    kept_rules(spec0.rules@.subrange(0, i as int))[m],
                ),
            decreases spec0.rules@.len() - i,
        {
            proof {
                assert(spec0.rules@.subrange(0, i as int + 1).drop_last() =~= spec0.rules@.subrange(
                    0,
                    i as int,
                ));
                assert(spec0.rules@.subrange(0, i as int + 1).last() == spec0.rules@[i as int]);
            }
            let ih = IngHost::from_rule(&spec0.rules[i]);
            if ih.rules.len() > 0 {
                hosts.push(ih);
            }
            i += 1;
        }
        proof {
            assert(spec0.rules@.subrange(0, spec0.rules@.len() as int) =~= spec0.rules@);
        }
        let sni = IngSni::from_ingress_tls(&spec0.tls);
        (default_backend, hosts, sni)
    }

    /// Normalizes one raw watch event into an ingress event.
    pub fn from_raw(ev: RawEvent) -> (e: IngressEvent)
        ensures
            e.sni.sni.wf(),
            (match ev {
                RawEvent::Applied(ing) => e.ty == EVENT_UPDATE && contribution_ok(
                    ing,
                    e.default_backend,
                    e.hosts@,
                    sni_view(e.sni.sni),
                ),
                RawEvent::Deleted(ing) => e.ty == EVENT_DELETE && contribution_ok(
                    ing,
                    e.default_backend,
                    e.hosts@,
                    sni_view(e.sni.sni),
                ),
                RawEvent::Restarted(list) => e.ty == EVENT_INIT && restart_ok(
                    list@,
                    e.default_backend,
                    e.hosts@,
                    sni_view(e.sni.sni),
                ),
            }),
    {
        match ev {
            RawEvent::Applied(ing) => {
                let (default_backend, hosts, sni) = IngressEvent::ing_to_host_backend(&ing);
                IngressEvent { ty: EVENT_UPDATE, default_backend, hosts, sni }
            },
            RawEvent::Deleted(ing) => {
                let (default_backend, hosts, sni) = IngressEvent::ing_to_host_backend(&ing);
                IngressEvent { ty: EVENT_DELETE, default_backend, hosts, sni }
            },
            RawEvent::Restarted(list) => {
                let mut db: Option<IngRule> = None;
                let mut hosts: Vec<IngHost> = Vec::new();
                let mut sni = IngSni::empty();
                let mut i: usize = 0;
                proof {
                    assert(list@.subrange(0, 0).len() == 0);
                }
                while i < list.len()
                    invariant
                        0 <= i <= list@.len(),
                        sni.sni.wf(),
                        restart_ok(list@.subrange(0, i as int), db, hosts@, sni_view(sni.sni)),
                    decreases list@.len() - i,
                {
                    let ghost db_pre = db;
                    let ghost hosts_pre = hosts@;
                    let ghost sni_pre = sni_view(sni.sni);
                    let (db1, mut hs1, is1) = IngressEvent::ing_to_host_backend(&list[i]);
                    let ghost db1_g = db1;
                    let ghost hs1_g = hs1@;
                    let ghost is1_g = sni_view(is1.sni);
                    if db1.is_some() {
                        db = db1;
                    }
                    hosts.append(&mut hs1);
                    sni.append(is1);
                    proof {
                        lemma_restart_step(
                            list@,
                            i as int,
                            db_pre,
                            hosts_pre,
                            sni_pre,
                            db1_g,
                            hs1_g,
                            is1_g,
                            db,
                            hosts@,
                            sni_view(sni.sni),
                        );
                    }
                    i += 1;
                }
                proof {
                    assert(list@.subrange(0, list@.len() as int) =~= list@);
                }
                IngressEvent { ty: EVENT_INIT, default_backend: db, hosts, sni }
            },
        }
    }
}

} // verus!
