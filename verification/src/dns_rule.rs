//! Rules by domain: each domain with rules is a node whose zone is the
//! nearest enclosing domain with rules; a name finds the node of its longest
//! suffix that has rules.
use vstd::prelude::*;
use crate::message::{Name, label_seqs};
use crate::cache::{name_key, lower_label, to_lower};
use crate::config::{DomainRule, DomainRuleV, AddressV, Domain, ConfigForDomain, ForwardRule, AddressRule, ConfigForIP,
    NFTsetConfig, SrvTarget, SrvTargetV, prefer, empty_rule, copy_nftsets};

verus! {

/// A domain's rules and the index of the node of its zone.
#[derive(Debug)]
pub struct DomainRuleTreeNode {
    pub rule: DomainRule,
    pub zone: Option<usize>,
}

impl DomainRuleTreeNode {
    pub open spec fn spec_zone(&self) -> Option<usize> {
        self.zone
    }

    /// The node of the enclosing domain with rules, if any.
    pub fn zone(&self) -> (r: Option<usize>)
        ensures
            r == self.spec_zone(),
    {
        self.zone
    }
}

/// The index of the first key equal to `k`.
pub open spec fn index_of_key(ks: Seq<Seq<Seq<u8>>>, k: Seq<Seq<u8>>) -> Option<int>
    decreases ks.len(),
{
    if ks.len() == 0 {
        None
    } else if ks[0] == k {
        Some(0)
    } else {
        match index_of_key(ks.drop_first(), k) {
            Some(i) => Some(i + 1),
            None => None,
        }
    }
}

/// The key of the longest suffix of `n`, dropping at least `j` labels.
pub open spec fn longest_suffix(ks: Seq<Seq<Seq<u8>>>, n: Seq<Seq<u8>>, j: nat) -> Option<int>
    decreases n.len() + 1 - j,
{
    if j > n.len() {
        None
    } else {
        match index_of_key(ks, n.skip(j as int)) {
            Some(i) => Some(i),
            None => longest_suffix(ks, n, j + 1),
        }
    }
}

/// The keys as label sequences.
pub open spec fn key_views(keys: Seq<Vec<Vec<u8>>>) -> Seq<Seq<Seq<u8>>> {
    keys.map_values(|k: Vec<Vec<u8>>| label_seqs(k@))
}

/// Domain rules by domain, with the zone links between them.
#[derive(Debug)]
pub struct DomainRuleMap {
    keys: Vec<Vec<Vec<u8>>>,
    nodes: Vec<DomainRuleTreeNode>,
}

/// A zone link as an index.
pub open spec fn zone_index(z: Option<int>) -> Option<usize> {
    match z {
        Some(i) => Some(i as usize),
        None => None,
    }
}

impl DomainRuleMap {
    /// The domains with rules (labels in lower case), in the order of their nodes.
    pub closed spec fn domains(&self) -> Seq<Seq<Seq<u8>>> {
        key_views(self.keys@)
    }

    pub closed spec fn spec_nodes(&self) -> Seq<DomainRuleTreeNode> {
        self.nodes@
    }

    /// The map is consistent: a node per domain, no domain twice, domains
    /// in lower case, and each node's zone is the node of the domain's
    /// longest proper suffix with rules.
    pub closed spec fn wf(&self) -> bool {
        let ks = key_views(self.keys@);
        &&& self.keys@.len() == self.nodes@.len()
        &&& forall|a: int, b: int| 0 <= a < b < ks.len() ==> #[trigger] ks[a] != #[trigger] ks[b]
        &&& forall|i: int| 0 <= i < ks.len() ==> #[trigger] name_key(ks[i]) == ks[i]
        &&& forall|i: int| 0 <= i < ks.len()
            ==> (#[trigger] self.nodes@[i]).spec_zone() == zone_index(longest_suffix(ks, ks[i], 1))
        &&& forall|i: int| 0 <= i < ks.len() ==> (#[trigger] self.nodes@[i]).spec_zone() matches Some(z) && z < i
            || self.nodes@[i].spec_zone() is None
    }

    /// The node for `name`: that of its longest suffix with rules (without
    /// regard to case).
    pub open spec fn spec_find(&self, name: Seq<Seq<u8>>) -> Option<int> {
        longest_suffix(self.domains(), name_key(name), 0)
    }

    /// A map without rules.
    pub fn empty() -> (r: DomainRuleMap)
        ensures
            r.wf(),
            r.domains().len() == 0,
            r.spec_nodes().len() == 0,
    {
        let r = DomainRuleMap { keys: Vec::new(), nodes: Vec::new() };
        assert(key_views(r.keys@) =~= Seq::<Seq<Seq<u8>>>::empty());
        r
    }

    /// The number of domains with rules.
    pub fn len(&self) -> (r: usize)
        ensures
            r == self.spec_nodes().len(),
    {
        self.nodes.len()
    }

    /// The node at `i`.
    pub fn node(&self, i: usize) -> (r: &DomainRuleTreeNode)
        requires
            i < self.spec_nodes().len(),
        ensures
            *r == self.spec_nodes()[i as int],
    {
        &self.nodes[i]
    }
}

proof fn lemma_index_push(ks: Seq<Seq<Seq<u8>>>, k: Seq<Seq<u8>>, s: Seq<Seq<u8>>)
    requires
        s != k,
    ensures
        index_of_key(ks.push(k), s) == index_of_key(ks, s),
{
    let p = ks.push(k);
    lemma_index_spec(ks, s);
    lemma_index_spec(p, s);
    match index_of_key(p, s) {
        Some(i) => {
            assert(i < ks.len()) by {
                if i == ks.len() {
                    assert(p[i] == k);
                }
            }
            assert(p[i] == ks[i]);
            match index_of_key(ks, s) {
                Some(j) => {
                    if j < i {
                        assert(p[j] == ks[j]);
                    }
                    if j > i {
                        assert(ks[i] == s);
                    }
                },
                None => {
                    assert(ks[i] == s);
                },
            }
        },
        None => {
            match index_of_key(ks, s) {
                Some(j) => {
                    assert(p[j] == ks[j]);
                },
                None => {},
            }
        },
    }
}

proof fn lemma_index_found(ks: Seq<Seq<Seq<u8>>>, k: Seq<Seq<u8>>)
    requires
        index_of_key(ks, k) is None,
    ensures
        index_of_key(ks.push(k), k) == Some(ks.len() as int),
        forall|i: int| 0 <= i < ks.len() ==> #[trigger] ks[i] != k,
    decreases ks.len(),
{
    if ks.len() == 0 {
    } else {
        assert(ks.push(k).drop_first() =~= ks.drop_first().push(k));
        lemma_index_found(ks.drop_first(), k);
        assert forall|i: int| 0 <= i < ks.len() implies #[trigger] ks[i] != k by {
            if i > 0 {
                assert(ks[i] == ks.drop_first()[i - 1]);
            }
        }
    }
}

proof fn lemma_index_spec(ks: Seq<Seq<Seq<u8>>>, k: Seq<Seq<u8>>)
    ensures
        index_of_key(ks, k) matches Some(i) ==> 0 <= i < ks.len() && ks[i] == k
            && forall|m: int| 0 <= m < i ==> #[trigger] ks[m] != k,
        index_of_key(ks, k) is None ==> forall|m: int| 0 <= m < ks.len() ==> #[trigger] ks[m] != k,
    decreases ks.len(),
{
    if ks.len() > 0 {
        lemma_index_spec(ks.drop_first(), k);
        assert forall|m: int| 1 <= m < ks.len() implies #[trigger] ks[m] == ks.drop_first()[m - 1] by {}
    }
}

proof fn lemma_longest_range(ks: Seq<Seq<Seq<u8>>>, n: Seq<Seq<u8>>, j: nat)
    ensures
        longest_suffix(ks, n, j) matches Some(i) ==> 0 <= i < ks.len(),
    decreases n.len() + 1 - j,
{
    if j <= n.len() {
        lemma_index_spec(ks, n.skip(j as int));
        lemma_longest_range(ks, n, j + 1);
    }
}

proof fn lemma_longest_spec(ks: Seq<Seq<Seq<u8>>>, n: Seq<Seq<u8>>, j: nat)
    ensures
        longest_suffix(ks, n, j) matches Some(i) ==> 0 <= i < ks.len() && exists|l: int| j <= l <= n.len()
            && ks[i] == n.skip(l) && forall|m: int, d: int| j <= m < l && 0 <= d < ks.len() ==> #[trigger] ks[d]
            != #[trigger] n.skip(m),
        longest_suffix(ks, n, j) is None ==> forall|m: int, d: int| j <= m <= n.len() && 0 <= d < ks.len()
            ==> #[trigger] ks[d] != #[trigger] n.skip(m),
    decreases n.len() + 1 - j,
{
    if j <= n.len() {
        lemma_index_spec(ks, n.skip(j as int));
        lemma_longest_spec(ks, n, j + 1);
        match index_of_key(ks, n.skip(j as int)) {
            Some(i) => {
                assert(ks[i] == n.skip(j as int));
            },
            None => {
                match longest_suffix(ks, n, j + 1) {
                    Some(i) => {
                        let l = choose|l: int| j + 1 <= l <= n.len() && ks[i] == n.skip(l) && forall|m: int, d: int|
                            j + 1 <= m < l && 0 <= d < ks.len() ==> #[trigger] ks[d] != #[trigger] n.skip(m);
                        assert forall|m: int, d: int| j <= m < l && 0 <= d < ks.len() implies #[trigger] ks[d]
                            != #[trigger] n.skip(m) by {
                            if m == j {
                            }
                        }
                    },
                    None => {
                        assert forall|m: int, d: int| j <= m <= n.len() && 0 <= d < ks.len() implies
                            #[trigger] ks[d] != #[trigger] n.skip(m) by {
                            if m == j {
                            }
                        }
                    },
                }
            },
        }
    }
}

proof fn lemma_suffix_push(ks: Seq<Seq<Seq<u8>>>, k: Seq<Seq<u8>>, n: Seq<Seq<u8>>, j: nat)
    requires
        forall|m: nat| j <= m <= n.len() ==> #[trigger] n.skip(m as int) != k,
    ensures
        longest_suffix(ks.push(k), n, j) == longest_suffix(ks, n, j),
    decreases n.len() + 1 - j,
{
    if j <= n.len() {
        lemma_index_push(ks, k, n.skip(j as int));
        lemma_suffix_push(ks, k, n, j + 1);
    }
}

/// The labels of a name in lower case.
pub fn lower_name(name: &Name) -> (r: Vec<Vec<u8>>)
    ensures
        label_seqs(r@) == name_key(name@),
{
    let mut out: Vec<Vec<u8>> = Vec::new();
    let mut i: usize = 0;
    while i < name.labels.len()
        invariant
            i <= name.labels@.len(),
            out@.len() == i,
            forall|k: int| 0 <= k < i ==> #[trigger] out@[k]@ == lower_label(name.labels@[k]@),
        decreases name.labels.len() - i,
    {
        let l = &name.labels[i];
        let mut low: Vec<u8> = Vec::new();
        let mut j: usize = 0;
        while j < l.len()
            invariant
                j <= l@.len(),
                low@ == lower_label(l@).take(j as int),
            decreases l.len() - j,
        {
            low.push(to_lower(l[j]));
            assert(low@ =~= lower_label(l@).take(j + 1));
            j = j + 1;
        }
        assert(lower_label(l@).take(l@.len() as int) =~= lower_label(l@));
        out.push(low);
        i = i + 1;
    }
    assert(label_seqs(out@) =~= name_key(name@));
    out
}

/// Whether `stored` is `key` without its first `j` labels.
fn is_suffix_key(stored: &Vec<Vec<u8>>, key: &Vec<Vec<u8>>, j: usize) -> (r: bool)
    requires
        j <= key@.len(),
    ensures
        r == (label_seqs(stored@) == label_seqs(key@).skip(j as int)),
{
    if stored.len() != key.len() - j {
        assert(label_seqs(stored@).len() != label_seqs(key@).skip(j as int).len());
        return false;
    }
    let mut i: usize = 0;
    while i < stored.len()
        invariant
            i <= stored@.len(),
            stored@.len() + j == key@.len(),
            forall|m: int| 0 <= m < i ==> #[trigger] stored@[m]@ == key@[m + j]@,
        decreases stored.len() - i,
    {
        let kl = key.len();
        assert(i + j < kl);
        let a = &stored[i];
        let b = &key[i + j];
        if a.len() != b.len() {
            assert(label_seqs(stored@)[i as int] != label_seqs(key@).skip(j as int)[i as int]);
            return false;
        }
        let mut t: usize = 0;
        while t < a.len()
            invariant
                t <= a@.len(),
                a@.len() == b@.len(),
                i < stored@.len(),
                stored@.len() + j == key@.len(),
                stored@[i as int] == a,
                key@[i + j] == b,
                forall|m: int| 0 <= m < t ==> a@[m] == b@[m],
            decreases a.len() - t,
        {
            if a[t] != b[t] {
                assert(a@[t as int] != b@[t as int]);
                assert(label_seqs(stored@)[i as int] != label_seqs(key@).skip(j as int)[i as int]);
                return false;
            }
            t = t + 1;
        }
        assert(a@ =~= b@);
        i = i + 1;
    }
    assert(label_seqs(stored@) =~= label_seqs(key@).skip(j as int));
    true
}

impl DomainRuleMap {
    /// The index of the domain that is `key` without its first `j` labels.
    fn index_of(&self, key: &Vec<Vec<u8>>, j: usize) -> (r: Option<usize>)
        requires
            j <= key@.len(),
        ensures
            zone_index(index_of_key(self.domains(), label_seqs(key@).skip(j as int))) == r,
    {
        let ghost ks = self.domains();
        let ghost s = label_seqs(key@).skip(j as int);
        proof {
            lemma_index_spec(ks, s);
        }
        let mut i: usize = 0;
        while i < self.keys.len()
            invariant
                i <= self.keys@.len(),
                ks == key_views(self.keys@),
                j <= key@.len(),
                s == label_seqs(key@).skip(j as int),
                forall|m: int| 0 <= m < i ==> #[trigger] ks[m] != s,
            decreases self.keys.len() - i,
        {
            if is_suffix_key(&self.keys[i], key, j) {
                assert(ks[i as int] == s);
                proof {
                    lemma_index_spec(ks, s);
                    match index_of_key(ks, s) {
                        Some(x) => {
                            if x < i {
                                assert(ks[x] != s);
                            }
                            if x > i {
                                assert(ks[i as int] != s);
                            }
                        },
                        None => {
                            assert(ks[i as int] != s);
                        },
                    }
                }
                return Some(i);
            }
            i = i + 1;
        }
        proof {
            lemma_index_spec(ks, s);
            match index_of_key(ks, s) {
                Some(x) => {
                    assert(ks[x] != s);
                },
                None => {},
            }
        }
        None
    }

    /// The index of the longest suffix of `key` with rules, dropping at
    /// least `start` labels.
    fn longest(&self, key: &Vec<Vec<u8>>, start: usize) -> (r: Option<usize>)
        ensures
            r == zone_index(longest_suffix(self.domains(), label_seqs(key@), start as nat)),
    {
        let ghost n = label_seqs(key@);
        let mut j: usize = start;
        while j <= key.len()
            invariant
                start <= j,
                n == label_seqs(key@),
                longest_suffix(self.domains(), n, start as nat) == longest_suffix(self.domains(), n, j as nat),
            decreases key.len() + 1 - j,
        {
            match self.index_of(key, j) {
                Some(i) => {
                    return Some(i);
                },
                None => {},
            }
            if j == key.len() {
                assert(longest_suffix(self.domains(), n, (j + 1) as nat) is None);
                return None;
            }
            j = j + 1;
        }
        None
    }

    /// The node for `name`: that of its longest suffix with rules (without
    /// regard to case).
    pub fn find(&self, name: &Name) -> (r: Option<usize>)
        ensures
            r == zone_index(self.spec_find(name@)),
    {
        let key = lower_name(name);
        self.longest(&key, 0)
    }

    /// Adds the rules of a domain (labels in lower case) that is not there
    /// yet and has no fewer labels than any domain there; its zone is the
    /// node of its longest proper suffix with rules.
    pub fn push(&mut self, key: Vec<Vec<u8>>, rule: DomainRule)
        requires
            old(self).wf(),
            name_key(label_seqs(key@)) == label_seqs(key@),
            index_of_key(old(self).domains(), label_seqs(key@)) is None,
            forall|i: int| 0 <= i < old(self).domains().len() ==> #[trigger] old(self).domains()[i].len() <= key@.len(),
        ensures
            final(self).wf(),
            final(self).domains() == old(self).domains().push(label_seqs(key@)),
            final(self).spec_nodes().len() == old(self).spec_nodes().len() + 1,
            final(self).spec_nodes().last().rule == rule,
            forall|i: int| 0 <= i < old(self).spec_nodes().len() ==> #[trigger] final(self).spec_nodes()[i] == old(self).spec_nodes()[i],
    {
        let ghost ks = self.domains();
        let ghost k = label_seqs(key@);
        let zone = self.longest(&key, 1);
        let ghost old_nodes = self.nodes@;
        self.nodes.push(DomainRuleTreeNode { rule, zone });
        self.keys.push(key);
        proof {
            let ks2 = key_views(self.keys@);
            assert(ks2 =~= ks.push(k));
            lemma_index_found(ks, k);
            assert forall|m: nat| 1 <= m <= k.len() implies #[trigger] k.skip(m as int) != k by {
                assert(k.skip(m as int).len() != k.len());
            }
            lemma_suffix_push(ks, k, k, 1);
            lemma_longest_range(ks, k, 1);
            assert forall|i: int| 0 <= i < ks2.len() implies (#[trigger] self.nodes@[i]).spec_zone() matches Some(z) && z < i
                || self.nodes@[i].spec_zone() is None by {
                if i < ks.len() {
                    assert(self.nodes@[i] == old_nodes[i]);
                }
            }
            assert forall|i: int| 0 <= i < ks2.len() implies (#[trigger] self.nodes@[i]).spec_zone()
                == zone_index(longest_suffix(ks2, ks2[i], 1)) by {
                if i < ks.len() {
                    assert(self.nodes@[i] == old_nodes[i]);
                    assert(ks2[i] == ks[i]);
                    assert forall|m: nat| 1 <= m <= ks[i].len() implies #[trigger] ks[i].skip(m as int) != k by {
                        assert(ks[i].skip(m as int).len() < k.len());
                    }
                    lemma_suffix_push(ks, k, ks[i], 1);
                }
            }
            assert forall|a: int, b: int| 0 <= a < b < ks2.len() implies #[trigger] ks2[a] != #[trigger] ks2[b] by {
                if b == ks.len() {
                    assert(ks[a] != k);
                } else {
                    assert(ks2[a] == ks[a] && ks2[b] == ks[b]);
                }
            }
            assert forall|i: int| 0 <= i < ks2.len() implies #[trigger] name_key(ks2[i]) == ks2[i] by {
                if i < ks.len() {
                    assert(ks2[i] == ks[i]);
                }
            }
        }
    }
}

/// The label sequences of names.
pub open spec fn name_views(v: Seq<Name>) -> Seq<Seq<Seq<u8>>> {
    v.map_values(|n: Name| n@)
}

/// The names a domain stands for: itself, or the members of the first set
/// of that name (none when there is no such set).
pub open spec fn expand(d: Domain, sets: Seq<(String, Vec<Name>)>) -> Seq<Seq<Seq<u8>>> {
    match d {
        Domain::Name(n) => seq![n@],
        Domain::DomainSet(s) => match first_set(sets, s@) {
            Some(i) => name_views(sets[i].1@),
            None => Seq::empty(),
        },
    }
}

/// The first set named `s`.
pub open spec fn first_set(sets: Seq<(String, Vec<Name>)>, s: Seq<char>) -> Option<int>
    decreases sets.len(),
{
    if sets.len() == 0 {
        None
    } else if sets[0].0@ == s {
        Some(0)
    } else {
        match first_set(sets.drop_first(), s) {
            Some(i) => Some(i + 1),
            None => None,
        }
    }
}

/// The names of a domain (see [`expand`]).
fn expand_domain(d: &Domain, sets: &Vec<(String, Vec<Name>)>) -> (r: Vec<Name>)
    ensures
        name_views(r@) == expand(*d, sets@),
{
    match d {
        Domain::Name(n) => {
            let mut v: Vec<Name> = Vec::new();
            v.push(n.clone());
            assert(name_views(v@) =~= seq![n@]);
            assert(expand(*d, sets@) == seq![n@]);
            v
        },
        Domain::DomainSet(s) => {
            match find_set(sets, s) {
                Some(i) => {
                    assert(first_set(sets@, s@) is Some);
                    assert(i < sets@.len());
                    let names = &sets[i].1;
                    let mut v: Vec<Name> = Vec::new();
                    let mut j: usize = 0;
                    while j < names.len()
                        invariant
                            j <= names@.len(),
                            v@.len() == j,
                            forall|m: int| 0 <= m < j ==> #[trigger] v@[m]@ == names@[m]@,
                        decreases names.len() - j,
                    {
                        v.push(names[j].clone());
                        j = j + 1;
                    }
                    assert(name_views(v@) =~= name_views(names@));
                    v
                },
                None => {
                    let v: Vec<Name> = Vec::new();
                    assert(name_views(v@) =~= Seq::<Seq<Seq<u8>>>::empty());
                    v
                },
            }
        },
    }
}

/// The first set named `name`.
fn find_set(sets: &Vec<(String, Vec<Name>)>, name: &String) -> (r: Option<usize>)
    ensures
        match first_set(sets@, name@) {
            Some(i) => r == Some(i as usize),
            None => r is None,
        },
        r matches Some(j) ==> j < sets@.len() && first_set(sets@, name@) == Some(j as int),
{
    let ghost all = sets@;
    let mut i: usize = 0;
    assert(all.skip(0) =~= all);
    while i < sets.len()
        invariant
            i <= all.len(),
            all == sets@,
            first_set(all, name@) == (match first_set(all.skip(i as int), name@) {
                Some(x) => Some(x + i),
                None => None,
            }),
        decreases sets.len() - i,
    {
        assert(all.skip(i as int)[0] == all[i as int]);
        assert(all.skip(i as int).drop_first() =~= all.skip(i + 1));
        if crate::text::str_eq(sets[i].0.as_str(), name.as_str()) {
            assert(first_set(all.skip(i as int), name@) == Some(0int));
            return Some(i);
        }
        i = i + 1;
    }
    assert(all.skip(i as int) =~= Seq::<(String, Vec<Name>)>::empty());
    None
}

/// Each option that `b` sets wins over that of `a`.
pub open spec fn merge_view(a: DomainRuleV, b: DomainRuleV) -> DomainRuleV {
    DomainRuleV {
        nameserver: prefer(b.nameserver, a.nameserver),
        address: prefer(b.address, a.address),
        no_cache: prefer(b.no_cache, a.no_cache),
        no_serve_expired: prefer(b.no_serve_expired, a.no_serve_expired),
        dualstack_ip_selection: prefer(b.dualstack_ip_selection, a.dualstack_ip_selection),
        response_mode: prefer(b.response_mode, a.response_mode),
        speed_check_mode: prefer(b.speed_check_mode, a.speed_check_mode),
        rr_ttl_min: prefer(b.rr_ttl_min, a.rr_ttl_min),
        rr_ttl_max: prefer(b.rr_ttl_max, a.rr_ttl_max),
        ipset: prefer(b.ipset, a.ipset),
        nftset: prefer(b.nftset, a.nftset),
        cname: prefer(b.cname, a.cname),
        srv: prefer(b.srv, a.srv),
        https: prefer(b.https, a.https),
    }
}

/// What a rule list does to the rule of one of its domains: merge a domain
/// rule, or set the address, the server group, the alias, the SRV record,
/// the HTTPS record or the nftables sets.
pub enum UpdateV {
    Merge(DomainRuleV),
    Address(AddressV),
    Nameserver(Seq<char>),
    Cname(Seq<Seq<u8>>),
    Srv(SrvTargetV),
    Https(Seq<u8>),
    Nftset(Seq<ConfigForIP<NFTsetConfig>>),
}

/// The rule after an update.
pub open spec fn apply_view(r: DomainRuleV, u: UpdateV) -> DomainRuleV {
    match u {
        UpdateV::Merge(o) => merge_view(r, o),
        UpdateV::Address(a) => DomainRuleV { address: Some(a), ..r },
        UpdateV::Nameserver(n) => DomainRuleV { nameserver: Some(n), ..r },
        UpdateV::Cname(n) => DomainRuleV { cname: Some(n), ..r },
        UpdateV::Srv(t) => DomainRuleV { srv: Some(t), ..r },
        UpdateV::Https(h) => DomainRuleV { https: Some(h), ..r },
        UpdateV::Nftset(v) => DomainRuleV { nftset: Some(v), ..r },
    }
}

/// The rule of key `k` after the update `u` for each of `names` whose key is `k`.
pub open spec fn apply_names(r: DomainRuleV, names: Seq<Seq<Seq<u8>>>, k: Seq<Seq<u8>>, u: UpdateV) -> DomainRuleV
    decreases names.len(),
{
    if names.len() == 0 {
        r
    } else {
        let before = apply_names(r, names.drop_last(), k, u);
        if name_key(names.last()) == k {
            apply_view(before, u)
        } else {
            before
        }
    }
}

/// The rule of the domain with key `k` after the updates, in order, each for
/// the names its domain stands for; a rule that says nothing before any.
pub open spec fn rule_for(k: Seq<Seq<u8>>, ups: Seq<(Domain, UpdateV)>, sets: Seq<(String, Vec<Name>)>) -> DomainRuleV
    decreases ups.len(),
{
    if ups.len() == 0 {
        empty_rule()
    } else {
        apply_names(rule_for(k, ups.drop_last(), sets), expand(ups.last().0, sets), k, ups.last().1)
    }
}

/// The updates of domain rules: each merges its options.
pub open spec fn rule_updates(v: Seq<ConfigForDomain<DomainRule>>) -> Seq<(Domain, UpdateV)> {
    v.map_values(|r: ConfigForDomain<DomainRule>| (r.domain, UpdateV::Merge(r.config@)))
}

/// The updates of address rules: each sets the address.
pub open spec fn address_updates(v: Seq<AddressRule>) -> Seq<(Domain, UpdateV)> {
    v.map_values(|r: AddressRule| (r.domain, UpdateV::Address(r.address@)))
}

/// The updates of server group rules: each sets the group.
pub open spec fn forward_updates(v: Seq<ForwardRule>) -> Seq<(Domain, UpdateV)> {
    v.map_values(|r: ForwardRule| (r.domain, UpdateV::Nameserver(r.nameserver@)))
}

/// The updates of nftables set rules: each sets the sets.
pub open spec fn nftset_updates(v: Seq<ConfigForDomain<Vec<ConfigForIP<NFTsetConfig>>>>) -> Seq<(Domain, UpdateV)> {
    v.map_values(|r: ConfigForDomain<Vec<ConfigForIP<NFTsetConfig>>>| (r.domain, UpdateV::Nftset(r.config@)))
}

/// The updates of alias rules: each sets the alias.
pub open spec fn cname_updates(v: Seq<ConfigForDomain<Name>>) -> Seq<(Domain, UpdateV)> {
    v.map_values(|r: ConfigForDomain<Name>| (r.domain, UpdateV::Cname(r.config@)))
}

/// The updates of SRV records: each sets the record.
pub open spec fn srv_updates(v: Seq<ConfigForDomain<SrvTarget>>) -> Seq<(Domain, UpdateV)> {
    v.map_values(|r: ConfigForDomain<SrvTarget>| (r.domain, UpdateV::Srv(r.config@)))
}

/// The updates of HTTPS records: each sets the record.
pub open spec fn https_updates(v: Seq<ConfigForDomain<Vec<u8>>>) -> Seq<(Domain, UpdateV)> {
    v.map_values(|r: ConfigForDomain<Vec<u8>>| (r.domain, UpdateV::Https(r.config@)))
}

/// All updates in the order they are applied: domain rules, addresses,
/// server groups, aliases, SRV records, HTTPS records, nftables sets.
pub open spec fn all_updates(
    domain_rules: Seq<ConfigForDomain<DomainRule>>,
    address_rules: Seq<AddressRule>,
    forward_rules: Seq<ForwardRule>,
    cnames: Seq<ConfigForDomain<Name>>,
    srv_records: Seq<ConfigForDomain<SrvTarget>>,
    https_records: Seq<ConfigForDomain<Vec<u8>>>,
    nftsets: Seq<ConfigForDomain<Vec<ConfigForIP<NFTsetConfig>>>>,
) -> Seq<(Domain, UpdateV)> {
    rule_updates(domain_rules) + address_updates(address_rules) + forward_updates(forward_rules) + cname_updates(
        cnames,
    ) + srv_updates(srv_records) + https_updates(https_records) + nftset_updates(nftsets)
}

/// The gathered rules are those the updates give their keys, and every
/// other key has a rule that says nothing.
pub open spec fn rules_follow(keys: Seq<Vec<Vec<u8>>>, rules: Seq<DomainRule>, ups: Seq<(Domain, UpdateV)>,
    sets: Seq<(String, Vec<Name>)>) -> bool {
    &&& keys.len() == rules.len()
    &&& forall|j: int| 0 <= j < keys.len() ==> (#[trigger] rules[j])@ == rule_for(key_views(keys)[j], ups, sets)
    &&& forall|k: Seq<Seq<u8>>| !key_views(keys).contains(k) ==> #[trigger] rule_for(k, ups, sets) == empty_rule()
}

/// Every option that `o` sets has `o`'s value in `r`.
pub open spec fn carries_options(r: DomainRuleV, o: DomainRuleV) -> bool {
    &&& o.nameserver is Some ==> r.nameserver == o.nameserver
    &&& o.address is Some ==> r.address == o.address
    &&& o.no_cache is Some ==> r.no_cache == o.no_cache
    &&& o.no_serve_expired is Some ==> r.no_serve_expired == o.no_serve_expired
    &&& o.dualstack_ip_selection is Some ==> r.dualstack_ip_selection == o.dualstack_ip_selection
    &&& o.response_mode is Some ==> r.response_mode == o.response_mode
    &&& o.speed_check_mode is Some ==> r.speed_check_mode == o.speed_check_mode
    &&& o.rr_ttl_min is Some ==> r.rr_ttl_min == o.rr_ttl_min
    &&& o.rr_ttl_max is Some ==> r.rr_ttl_max == o.rr_ttl_max
    &&& o.ipset is Some ==> r.ipset == o.ipset
    &&& o.nftset is Some ==> r.nftset == o.nftset
    &&& o.cname is Some ==> r.cname == o.cname
    &&& o.srv is Some ==> r.srv == o.srv
    &&& o.https is Some ==> r.https == o.https
}

/// Every option that `o` leaves unset has `a`'s value in `r`.
pub open spec fn keeps_unset_options(r: DomainRuleV, a: DomainRuleV, o: DomainRuleV) -> bool {
    &&& o.nameserver is None ==> r.nameserver == a.nameserver
    &&& o.address is None ==> r.address == a.address
    &&& o.no_cache is None ==> r.no_cache == a.no_cache
    &&& o.no_serve_expired is None ==> r.no_serve_expired == a.no_serve_expired
    &&& o.dualstack_ip_selection is None ==> r.dualstack_ip_selection == a.dualstack_ip_selection
    &&& o.response_mode is None ==> r.response_mode == a.response_mode
    &&& o.speed_check_mode is None ==> r.speed_check_mode == a.speed_check_mode
    &&& o.rr_ttl_min is None ==> r.rr_ttl_min == a.rr_ttl_min
    &&& o.rr_ttl_max is None ==> r.rr_ttl_max == a.rr_ttl_max
    &&& o.ipset is None ==> r.ipset == a.ipset
    &&& o.nftset is None ==> r.nftset == a.nftset
    &&& o.cname is None ==> r.cname == a.cname
    &&& o.srv is None ==> r.srv == a.srv
    &&& o.https is None ==> r.https == a.https
}

/// Merging a domain rule into a rule gives every option the merged rule
/// sets, with its value, and keeps every other option as it was.
pub proof fn law_merge_takes_set_options(a: DomainRuleV, o: DomainRuleV)
    ensures
        carries_options(merge_view(a, o), o),
        keeps_unset_options(merge_view(a, o), a, o),
{
}

proof fn lemma_merge_names_carry(r: DomainRuleV, names: Seq<Seq<Seq<u8>>>, k: Seq<Seq<u8>>, o: DomainRuleV)
    requires
        exists|i: int| 0 <= i < names.len() && name_key(#[trigger] names[i]) == k,
    ensures
        carries_options(apply_names(r, names, k, UpdateV::Merge(o)), o),
    decreases names.len(),
{
    let d = names.drop_last();
    if name_key(names.last()) != k {
        let i = choose|i: int| 0 <= i < names.len() && name_key(#[trigger] names[i]) == k;
        assert(i < names.len() - 1);
        assert(d[i] == names[i]);
        lemma_merge_names_carry(r, d, k, o);
    }
}

/// The options of the last domain rule for a domain hold in the domain's
/// rule: when the last update merges `o` into the rule of a name with key
/// `k`, every option `o` sets has its value in the rule of `k`.
pub proof fn law_last_domain_rule_wins(k: Seq<Seq<u8>>, ups: Seq<(Domain, UpdateV)>, sets: Seq<(String, Vec<Name>)>,
    o: DomainRuleV)
    requires
        ups.len() > 0,
        ups.last().1 == UpdateV::Merge(o),
        exists|i: int| 0 <= i < expand(ups.last().0, sets).len() && name_key(#[trigger] expand(ups.last().0, sets)[i])
            == k,
    ensures
        carries_options(rule_for(k, ups, sets), o),
{
    lemma_merge_names_carry(rule_for(k, ups.drop_last(), sets), expand(ups.last().0, sets), k, o);
}

/// A map made of one domain rule gives its domain exactly that rule: its
/// options, and nothing else.
pub proof fn law_single_domain_rule(n: Name, o: DomainRuleV, sets: Seq<(String, Vec<Name>)>)
    ensures
        rule_for(name_key(n@), seq![(Domain::Name(n), UpdateV::Merge(o))], sets) == o,
{
    let ups = seq![(Domain::Name(n), UpdateV::Merge(o))];
    assert(ups.drop_last() =~= Seq::<(Domain, UpdateV)>::empty());
    assert(ups.last() == (Domain::Name(n), UpdateV::Merge(o)));
    let names = expand(ups.last().0, sets);
    assert(names =~= seq![n@]);
    assert(names.drop_last() =~= Seq::<Seq<Seq<u8>>>::empty());
    assert(names.last() == n@);
    let k = name_key(n@);
    assert(rule_for(k, ups.drop_last(), sets) == empty_rule());
    assert(apply_names(empty_rule(), names.drop_last(), k, UpdateV::Merge(o)) == empty_rule());
    assert(apply_names(empty_rule(), names, k, UpdateV::Merge(o)) == merge_view(empty_rule(), o));
    assert(merge_view(empty_rule(), o) == o);
}

/// Merges the options of `other` into `v`: each option `other` sets wins.
#[verifier::rlimit(50)]
pub fn merge_rule(v: &mut DomainRule, other: DomainRule)
    ensures
        final(v)@ == merge_view(old(v)@, other@),
{
    let DomainRule {
        nameserver, address, no_cache, no_serve_expired, dualstack_ip_selection, response_mode,
        speed_check_mode, rr_ttl_min, rr_ttl_max, ipset, nftset, cname, srv, https,
    } = other;
    if nameserver.is_some() {
        v.nameserver = nameserver;
    }
    if address.is_some() {
        v.address = address;
    }
    if no_cache.is_some() {
        v.no_cache = no_cache;
    }
    if no_serve_expired.is_some() {
        v.no_serve_expired = no_serve_expired;
    }
    if dualstack_ip_selection.is_some() {
        v.dualstack_ip_selection = dualstack_ip_selection;
    }
    if response_mode.is_some() {
        v.response_mode = response_mode;
    }
    if speed_check_mode.is_some() {
        v.speed_check_mode = speed_check_mode;
    }
    if rr_ttl_min.is_some() {
        v.rr_ttl_min = rr_ttl_min;
    }
    if rr_ttl_max.is_some() {
        v.rr_ttl_max = rr_ttl_max;
    }
    if ipset.is_some() {
        v.ipset = ipset;
    }
    if nftset.is_some() {
        v.nftset = nftset;
    }
    if cname.is_some() {
        v.cname = cname;
    }
    if srv.is_some() {
        v.srv = srv;
    }
    if https.is_some() {
        v.https = https;
    }
}

/// What a rule list does to the rule of one of its domains.
enum Update {
    Merge(DomainRule),
    Address(crate::config::AddressRuleValue),
    Nameserver(String),
    Cname(Name),
    Srv(SrvTarget),
    Https(Vec<u8>),
    Nftset(Vec<ConfigForIP<NFTsetConfig>>),
}

/// The value of an update.
spec fn update_view(u: Update) -> UpdateV {
    match u {
        Update::Merge(o) => UpdateV::Merge(o@),
        Update::Address(a) => UpdateV::Address(a@),
        Update::Nameserver(n) => UpdateV::Nameserver(n@),
        Update::Cname(n) => UpdateV::Cname(n@),
        Update::Srv(t) => UpdateV::Srv(t@),
        Update::Https(h) => UpdateV::Https(h@),
        Update::Nftset(v) => UpdateV::Nftset(v@),
    }
}

fn apply_update(r: &mut DomainRule, u: Update)
    ensures
        final(r)@ == apply_view(old(r)@, update_view(u)),
{
    match u {
        Update::Merge(other) => merge_rule(r, other),
        Update::Address(a) => {
            r.address = Some(a);
        },
        Update::Nameserver(n) => {
            r.nameserver = Some(n);
        },
        Update::Cname(n) => {
            r.cname = Some(n);
        },
        Update::Srv(t) => {
            r.srv = Some(t);
        },
        Update::Https(h) => {
            r.https = Some(h);
        },
        Update::Nftset(s) => {
            r.nftset = Some(s);
        },
    }
}

/// Where `key` is among the keys, if it is.
fn position(keys: &Vec<Vec<Vec<u8>>>, key: &Vec<Vec<u8>>) -> (r: Option<usize>)
    ensures
        zone_index(index_of_key(key_views(keys@), label_seqs(key@))) == r,
{
    let ghost ks = key_views(keys@);
    let ghost s = label_seqs(key@);
    proof {
        lemma_index_spec(ks, s);
    }
    let mut i: usize = 0;
    while i < keys.len()
        invariant
            i <= keys@.len(),
            ks == key_views(keys@),
            s == label_seqs(key@),
            forall|m: int| 0 <= m < i ==> #[trigger] ks[m] != s,
        decreases keys.len() - i,
    {
        if is_suffix_key(&keys[i], key, 0) {
            assert(s.skip(0) =~= s);
            assert(ks[i as int] == s);
            proof {
                lemma_index_spec(ks, s);
                match index_of_key(ks, s) {
                    Some(x) => {
                        if x != i {
                            assert(ks[x] == s);
                        }
                    },
                    None => {},
                }
            }
            return Some(i);
        }
        assert(s.skip(0) =~= s);
        i = i + 1;
    }
    proof {
        lemma_index_spec(ks, s);
    }
    None
}

proof fn lemma_lower_idempotent(n: Seq<Seq<u8>>)
    ensures
        name_key(name_key(n)) == name_key(n),
{
    assert forall|j: int| 0 <= j < n.len() implies #[trigger] lower_label(lower_label(n[j])) == lower_label(n[j]) by {
        assert(lower_label(lower_label(n[j])) =~= lower_label(n[j]));
    }
    assert(name_key(name_key(n)) =~= name_key(n));
}

/// Applies `u` to the rule of `name` among the gathered ones, adding the
/// domain if it is new.
#[verifier::spinoff_prover]
fn gather(keys: &mut Vec<Vec<Vec<u8>>>, rules: &mut Vec<DomainRule>, name: &Name, u: Update)
    requires
        old(keys)@.len() == old(rules)@.len(),
        forall|a: int, b: int| 0 <= a < b < old(keys)@.len()
            ==> #[trigger] key_views(old(keys)@)[a] != #[trigger] key_views(old(keys)@)[b],
        forall|i: int| 0 <= i < old(keys)@.len() ==> #[trigger] name_key(key_views(old(keys)@)[i]) == key_views(old(keys)@)[i],
    ensures
        final(keys)@.len() == final(rules)@.len(),
        forall|a: int, b: int| 0 <= a < b < final(keys)@.len()
            ==> #[trigger] key_views(final(keys)@)[a] != #[trigger] key_views(final(keys)@)[b],
        forall|i: int| 0 <= i < final(keys)@.len() ==> #[trigger] name_key(key_views(final(keys)@)[i]) == key_views(final(keys)@)[i],
        key_views(final(keys)@).to_set() == key_views(old(keys)@).to_set().insert(name_key(name@)),
        key_views(old(keys)@).contains(name_key(name@)) ==> {
            &&& key_views(final(keys)@) == key_views(old(keys)@)
            &&& forall|j: int| 0 <= j < old(rules)@.len() ==> (#[trigger] final(rules)@[j])@ == if key_views(old(keys)@)[j]
                == name_key(name@) {
                apply_view(old(rules)@[j]@, update_view(u))
            } else {
                old(rules)@[j]@
            }
        },
        !key_views(old(keys)@).contains(name_key(name@)) ==> {
            &&& key_views(final(keys)@) == key_views(old(keys)@).push(name_key(name@))
            &&& forall|j: int| 0 <= j < old(rules)@.len() ==> #[trigger] final(rules)@[j] == old(rules)@[j]
            &&& final(rules)@[old(rules)@.len() as int]@ == apply_view(empty_rule(), update_view(u))
        },
{
    let key = lower_name(name);
    let ghost ks = key_views(keys@);
    match position(keys, &key) {
        Some(i) => {
            proof {
                lemma_index_spec(ks, label_seqs(key@));
            }
            let ghost uv = update_view(u);
            let ghost before = rules@;
            let mut r = rules[i].clone();
            apply_update(&mut r, u);
            let ghost rv = r@;
            assert(rv == apply_view(before[i as int]@, uv));
            rules.set(i, r);
            proof {
                lemma_index_spec(ks, label_seqs(key@));
                assert(ks[i as int] == label_seqs(key@));
                assert(label_seqs(key@) == name_key(name@));
                assert(rules@[i as int]@ == rv);
                assert(ks.contains(name_key(name@)));
                assert forall|j: int| 0 <= j < before.len() implies (#[trigger] rules@[j])@ == if ks[j]
                    == name_key(name@) {
                    apply_view(before[j]@, uv)
                } else {
                    before[j]@
                } by {
                    if j == i {
                        assert(rules@[j]@ == rv);
                    } else {
                        assert(rules@[j] == before[j]);
                        if j < i {
                            assert(ks[j] != ks[i as int]);
                        } else {
                            assert(ks[i as int] != ks[j]);
                        }
                    }
                }
                assert(ks.to_set() =~= ks.to_set().insert(name_key(name@)));
            }
        },
        None => {
            let mut r = DomainRule::new();
            apply_update(&mut r, u);
            let ghost kv = label_seqs(key@);
            keys.push(key);
            rules.push(r);
            proof {
                lemma_index_spec(ks, kv);
                lemma_lower_idempotent(name@);
                let ks2 = key_views(keys@);
                assert(ks2 =~= ks.push(kv));
                ks.lemma_push_to_set_commute(kv);
                assert forall|a: int, b: int| 0 <= a < b < ks2.len() implies #[trigger] ks2[a] != #[trigger] ks2[b] by {
                    if b == ks.len() {
                        assert(ks[a] != kv);
                    } else {
                        assert(ks2[a] == ks[a] && ks2[b] == ks[b]);
                    }
                }
                assert forall|i: int| 0 <= i < ks2.len() implies #[trigger] name_key(ks2[i]) == ks2[i] by {
                    if i < ks.len() {
                        assert(ks2[i] == ks[i]);
                    }
                }
            }
        },
    }
}

/// The keys of the names a domain stands for.
pub open spec fn domain_keys(d: Domain, sets: Seq<(String, Vec<Name>)>) -> Set<Seq<Seq<u8>>> {
    expand(d, sets).map_values(|n: Seq<Seq<u8>>| name_key(n)).to_set()
}

/// The keys of the names the domains stand for.
pub open spec fn domains_keys(ds: Seq<Domain>, sets: Seq<(String, Vec<Name>)>) -> Set<Seq<Seq<u8>>>
    decreases ds.len(),
{
    if ds.len() == 0 {
        Set::empty()
    } else {
        domains_keys(ds.drop_last(), sets).union(domain_keys(ds.last(), sets))
    }
}

pub open spec fn domains_of_rules(v: Seq<ConfigForDomain<DomainRule>>) -> Seq<Domain> {
    v.map_values(|r: ConfigForDomain<DomainRule>| r.domain)
}

pub open spec fn domains_of_addresses(v: Seq<AddressRule>) -> Seq<Domain> {
    v.map_values(|r: AddressRule| r.domain)
}

pub open spec fn domains_of_forwards(v: Seq<ForwardRule>) -> Seq<Domain> {
    v.map_values(|r: ForwardRule| r.domain)
}

pub open spec fn domains_of_cnames(v: Seq<ConfigForDomain<Name>>) -> Seq<Domain> {
    v.map_values(|r: ConfigForDomain<Name>| r.domain)
}

pub open spec fn domains_of_srvs(v: Seq<ConfigForDomain<SrvTarget>>) -> Seq<Domain> {
    v.map_values(|r: ConfigForDomain<SrvTarget>| r.domain)
}

pub open spec fn domains_of_https(v: Seq<ConfigForDomain<Vec<u8>>>) -> Seq<Domain> {
    v.map_values(|r: ConfigForDomain<Vec<u8>>| r.domain)
}

pub open spec fn domains_of_nftsets(v: Seq<ConfigForDomain<Vec<ConfigForIP<NFTsetConfig>>>>) -> Seq<Domain> {
    v.map_values(|r: ConfigForDomain<Vec<ConfigForIP<NFTsetConfig>>>| r.domain)
}

impl Update {
    fn duplicate(&self) -> (r: Update)
        ensures
            update_view(r) == update_view(*self),
    {
        match self {
            Update::Merge(r) => Update::Merge(r.clone()),
            Update::Address(a) => Update::Address(a.clone()),
            Update::Nameserver(n) => Update::Nameserver(n.clone()),
            Update::Cname(n) => Update::Cname(n.clone()),
            Update::Srv(t) => Update::Srv(t.clone()),
            Update::Https(h) => Update::Https(crate::message::copy_bytes(h)),
            Update::Nftset(s) => Update::Nftset(copy_nftsets(s)),
        }
    }
}

/// The gathered keys are distinct and in lower case.
pub open spec fn gathered_ok(keys: Seq<Vec<Vec<u8>>>) -> bool {
    &&& forall|a: int, b: int| 0 <= a < b < keys.len() ==> #[trigger] key_views(keys)[a] != #[trigger] key_views(keys)[b]
    &&& forall|i: int| 0 <= i < keys.len() ==> #[trigger] name_key(key_views(keys)[i]) == key_views(keys)[i]
}

/// Applies `u` to the rules of the names of `d`.
fn gather_domain(keys: &mut Vec<Vec<Vec<u8>>>, rules: &mut Vec<DomainRule>, d: &Domain,
    sets: &Vec<(String, Vec<Name>)>, u: &Update, Ghost(ups): Ghost<Seq<(Domain, UpdateV)>>)
    requires
        old(keys)@.len() == old(rules)@.len(),
        gathered_ok(old(keys)@),
        rules_follow(old(keys)@, old(rules)@, ups, sets@),
    ensures
        final(keys)@.len() == final(rules)@.len(),
        gathered_ok(final(keys)@),
        key_views(final(keys)@).to_set() == key_views(old(keys)@).to_set().union(domain_keys(*d, sets@)),
        rules_follow(final(keys)@, final(rules)@, ups.push((*d, update_view(*u))), sets@),
{
    let names = expand_domain(d, sets);
    let ghost ns = name_views(names@);
    let ghost uv = update_view(*u);
    let ghost ss = sets@;
    let mut i: usize = 0;
    assert(ns.take(0).map_values(|n: Seq<Seq<u8>>| name_key(n)).to_set() =~= Set::<Seq<Seq<u8>>>::empty());
    assert(ns.take(0) =~= Seq::<Seq<Seq<u8>>>::empty());
    while i < names.len()
        invariant
            i <= names@.len(),
            ns == name_views(names@),
            ns == expand(*d, ss),
            uv == update_view(*u),
            ss == sets@,
            keys@.len() == rules@.len(),
            gathered_ok(keys@),
            key_views(keys@).to_set() == key_views(old(keys)@).to_set().union(
                ns.take(i as int).map_values(|n: Seq<Seq<u8>>| name_key(n)).to_set()),
            forall|j: int| 0 <= j < keys@.len() ==> (#[trigger] rules@[j])@ == apply_names(
                rule_for(key_views(keys@)[j], ups, ss), ns.take(i as int), key_views(keys@)[j], uv),
            forall|k: Seq<Seq<u8>>| !key_views(keys@).contains(k) ==> #[trigger] apply_names(
                rule_for(k, ups, ss), ns.take(i as int), k, uv) == empty_rule(),
            forall|k: Seq<Seq<u8>>| !key_views(old(keys)@).contains(k) ==> #[trigger] rule_for(k, ups, ss) == empty_rule(),
        decreases names.len() - i,
    {
        let ghost before = key_views(keys@).to_set();
        let ghost kv0 = key_views(keys@);
        let ghost r0 = rules@;
        let ghost kk = name_key(names@[i as int]@);
        gather(keys, rules, &names[i], u.duplicate());
        proof {
            let t = ns.take(i + 1).map_values(|n: Seq<Seq<u8>>| name_key(n));
            let t0 = ns.take(i as int).map_values(|n: Seq<Seq<u8>>| name_key(n));
            assert(t =~= t0.push(name_key(names@[i as int]@)));
            t0.lemma_push_to_set_commute(name_key(names@[i as int]@));
            assert(key_views(keys@).to_set() =~= key_views(old(keys)@).to_set().union(t.to_set()));
            let tk = ns.take(i + 1);
            assert(tk.drop_last() =~= ns.take(i as int));
            assert(tk.last() == names@[i as int]@);
            let kv = key_views(keys@);
            assert forall|j: int| 0 <= j < keys@.len() implies (#[trigger] rules@[j])@ == apply_names(
                rule_for(kv[j], ups, ss), tk, kv[j], uv) by {
                if j < r0.len() {
                    assert(kv[j] == kv0[j]);
                    assert(r0[j]@ == apply_names(rule_for(kv0[j], ups, ss), ns.take(i as int), kv0[j], uv));
                    if !kv0.contains(kk) {
                        if kv0[j] == kk {
                            assert(kv0.contains(kk));
                        }
                    }
                } else {
                    if kv0.contains(kk) {
                        assert(kv.len() == kv0.len());
                    }
                    assert(kv == kv0.push(kk));
                    assert(kv[j] == kk);
                    assert(apply_names(rule_for(kk, ups, ss), ns.take(i as int), kk, uv) == empty_rule());
                }
            }
            assert forall|k: Seq<Seq<u8>>| !kv.contains(k) implies #[trigger] apply_names(
                rule_for(k, ups, ss), tk, k, uv) == empty_rule() by {
                assert(kv.to_set().contains(kk));
                if kv0.contains(k) {
                    assert(before.contains(k));
                    assert(kv.to_set().contains(k));
                }
                assert(apply_names(rule_for(k, ups, ss), ns.take(i as int), k, uv) == empty_rule());
            }
        }
        i = i + 1;
    }
    assert(ns.take(ns.len() as int) =~= ns);
    proof {
        let ups2 = ups.push((*d, uv));
        assert(ups2.drop_last() =~= ups);
        assert(ups2.last() == (*d, uv));
        let kv = key_views(keys@);
        assert forall|j: int| 0 <= j < keys@.len() implies (#[trigger] rules@[j])@ == rule_for(kv[j], ups2, ss) by {
            assert(rules@[j]@ == apply_names(rule_for(kv[j], ups, ss), ns.take(i as int), kv[j], uv));
        }
        assert forall|k: Seq<Seq<u8>>| !kv.contains(k) implies #[trigger] rule_for(k, ups2, ss) == empty_rule() by {
            assert(apply_names(rule_for(k, ups, ss), ns.take(i as int), k, uv) == empty_rule());
        }
    }
}

proof fn lemma_domains_keys_step(ds: Seq<Domain>, sets: Seq<(String, Vec<Name>)>, i: int)
    requires
        0 <= i < ds.len(),
    ensures
        domains_keys(ds.take(i + 1), sets) == domains_keys(ds.take(i), sets).union(domain_keys(ds[i], sets)),
{
    assert(ds.take(i + 1).drop_last() =~= ds.take(i));
}

impl DomainRuleMap {
    /// Builds the map from the rule lists: the options of domain rules
    /// (later ones winning), then addresses, server groups and nftables
    /// sets (later ones winning), for each domain or each member of a named
    /// domain set. Each node's zone is the node of the nearest enclosing
    /// domain with rules, and each node's rule is what the updates give its
    /// domain.
    pub fn create(domain_rules: &Vec<ConfigForDomain<DomainRule>>, address_rules: &Vec<AddressRule>,
        forward_rules: &Vec<ForwardRule>, domain_sets: &Vec<(String, Vec<Name>)>, cnames: &Vec<ConfigForDomain<Name>>,
        srv_records: &Vec<ConfigForDomain<SrvTarget>>, https_records: &Vec<ConfigForDomain<Vec<u8>>>,
        nftsets: &Vec<ConfigForDomain<Vec<ConfigForIP<NFTsetConfig>>>>) -> (r: DomainRuleMap)
        ensures
            r.wf(),
            r.domains().to_set() == domains_keys(domains_of_rules(domain_rules@), domain_sets@)
                .union(domains_keys(domains_of_addresses(address_rules@), domain_sets@))
                .union(domains_keys(domains_of_forwards(forward_rules@), domain_sets@))
                .union(domains_keys(domains_of_cnames(cnames@), domain_sets@))
                .union(domains_keys(domains_of_srvs(srv_records@), domain_sets@))
                .union(domains_keys(domains_of_https(https_records@), domain_sets@))
                .union(domains_keys(domains_of_nftsets(nftsets@), domain_sets@)),
            forall|i: int| 0 <= i < r.spec_nodes().len() ==> (#[trigger] r.spec_nodes()[i]).rule@ == rule_for(
                r.domains()[i],
                all_updates(domain_rules@, address_rules@, forward_rules@, cnames@, srv_records@, https_records@,
                    nftsets@),
                domain_sets@,
            ),
    {
        let mut keys: Vec<Vec<Vec<u8>>> = Vec::new();
        let mut rules: Vec<DomainRule> = Vec::new();
        let ghost sets = domain_sets@;
        let ghost d1 = domains_of_rules(domain_rules@);
        let ghost d2 = domains_of_addresses(address_rules@);
        let ghost d3 = domains_of_forwards(forward_rules@);
        let ghost d4 = domains_of_nftsets(nftsets@);
        let ghost u1 = rule_updates(domain_rules@);
        let ghost u2 = address_updates(address_rules@);
        let ghost u3 = forward_updates(forward_rules@);
        let ghost u4 = nftset_updates(nftsets@);
        assert(key_views(keys@).to_set() =~= Set::<Seq<Seq<u8>>>::empty());
        assert(key_views(keys@) =~= Seq::<Seq<Seq<u8>>>::empty());
        assert(d1.take(0) =~= Seq::<Domain>::empty());
        assert(u1.take(0) =~= Seq::<(Domain, UpdateV)>::empty());
        let mut i: usize = 0;
        while i < domain_rules.len()
            invariant
                i <= domain_rules@.len(),
                d1 == domains_of_rules(domain_rules@),
                u1 == rule_updates(domain_rules@),
                sets == domain_sets@,
                keys@.len() == rules@.len(),
                gathered_ok(keys@),
                key_views(keys@).to_set() == domains_keys(d1.take(i as int), sets),
                rules_follow(keys@, rules@, u1.take(i as int), sets),
            decreases domain_rules.len() - i,
        {
            let r = &domain_rules[i];
            let u = Update::Merge(r.config.clone());
            gather_domain(&mut keys, &mut rules, &r.domain, domain_sets, &u, Ghost(u1.take(i as int)));
            proof {
                lemma_domains_keys_step(d1, sets, i as int);
                assert(u1.take(i as int).push((r.domain, update_view(u))) =~= u1.take(i + 1));
            }
            i = i + 1;
        }
        assert(d1.take(d1.len() as int) =~= d1);
        assert(u1.take(u1.len() as int) =~= u1);
        let ghost s1 = key_views(keys@).to_set();
        assert(d2.take(0) =~= Seq::<Domain>::empty());
        assert(s1.union(Set::<Seq<Seq<u8>>>::empty()) =~= s1);
        assert(u1 + u2.take(0) =~= u1);
        let mut i: usize = 0;
        while i < address_rules.len()
            invariant
                i <= address_rules@.len(),
                d2 == domains_of_addresses(address_rules@),
                u1 == rule_updates(domain_rules@),
                u2 == address_updates(address_rules@),
                sets == domain_sets@,
                keys@.len() == rules@.len(),
                gathered_ok(keys@),
                key_views(keys@).to_set() == s1.union(domains_keys(d2.take(i as int), sets)),
                rules_follow(keys@, rules@, u1 + u2.take(i as int), sets),
            decreases address_rules.len() - i,
        {
            let r = &address_rules[i];
            let u = Update::Address(r.address.clone());
            gather_domain(&mut keys, &mut rules, &r.domain, domain_sets, &u, Ghost(u1 + u2.take(i as int)));
            proof {
                lemma_domains_keys_step(d2, sets, i as int);
                assert(key_views(keys@).to_set() =~= s1.union(domains_keys(d2.take(i + 1), sets)));
                assert((u1 + u2.take(i as int)).push((r.domain, update_view(u))) =~= u1 + u2.take(i + 1));
            }
            i = i + 1;
        }
        assert(d2.take(d2.len() as int) =~= d2);
        assert(u2.take(u2.len() as int) =~= u2);
        let ghost s2 = key_views(keys@).to_set();
        assert(d3.take(0) =~= Seq::<Domain>::empty());
        assert(s2.union(Set::<Seq<Seq<u8>>>::empty()) =~= s2);
        assert(u1 + u2 + u3.take(0) =~= u1 + u2);
        let mut i: usize = 0;
        while i < forward_rules.len()
            invariant
                i <= forward_rules@.len(),
                d3 == domains_of_forwards(forward_rules@),
                u1 == rule_updates(domain_rules@),
                u2 == address_updates(address_rules@),
                u3 == forward_updates(forward_rules@),
                sets == domain_sets@,
                keys@.len() == rules@.len(),
                gathered_ok(keys@),
                key_views(keys@).to_set() == s2.union(domains_keys(d3.take(i as int), sets)),
                rules_follow(keys@, rules@, u1 + u2 + u3.take(i as int), sets),
            decreases forward_rules.len() - i,
        {
            let r = &forward_rules[i];
            let u = Update::Nameserver(r.nameserver.clone());
            gather_domain(&mut keys, &mut rules, &r.domain, domain_sets, &u, Ghost(u1 + u2 + u3.take(i as int)));
            proof {
                lemma_domains_keys_step(d3, sets, i as int);
                assert(key_views(keys@).to_set() =~= s2.union(domains_keys(d3.take(i + 1), sets)));
                assert((u1 + u2 + u3.take(i as int)).push((r.domain, update_view(u))) =~= u1 + u2 + u3.take(i + 1));
            }
            i = i + 1;
        }
        assert(d3.take(d3.len() as int) =~= d3);
        assert(u3.take(u3.len() as int) =~= u3);
        let ghost p3 = u1 + u2 + u3;
        let ghost s3 = key_views(keys@).to_set();
        let ghost d5 = domains_of_cnames(cnames@);
        let ghost u5 = cname_updates(cnames@);
        assert(d5.take(0) =~= Seq::<Domain>::empty());
        assert(s3.union(Set::<Seq<Seq<u8>>>::empty()) =~= s3);
        assert(p3 + u5.take(0) =~= p3);
        let mut i: usize = 0;
        while i < cnames.len()
            invariant
                i <= cnames@.len(),
                d5 == domains_of_cnames(cnames@),
                u5 == cname_updates(cnames@),
                sets == domain_sets@,
                keys@.len() == rules@.len(),
                gathered_ok(keys@),
                key_views(keys@).to_set() == s3.union(domains_keys(d5.take(i as int), sets)),
                rules_follow(keys@, rules@, p3 + u5.take(i as int), sets),
            decreases cnames.len() - i,
        {
            let r = &cnames[i];
            let u = Update::Cname(r.config.clone());
            gather_domain(&mut keys, &mut rules, &r.domain, domain_sets, &u, Ghost(p3 + u5.take(i as int)));
            proof {
                lemma_domains_keys_step(d5, sets, i as int);
                assert(key_views(keys@).to_set() =~= s3.union(domains_keys(d5.take(i + 1), sets)));
                assert((p3 + u5.take(i as int)).push((r.domain, update_view(u))) =~= p3 + u5.take(i + 1));
            }
            i = i + 1;
        }
        assert(d5.take(d5.len() as int) =~= d5);
        assert(u5.take(u5.len() as int) =~= u5);
        let ghost p5 = p3 + u5;
        let ghost s5 = key_views(keys@).to_set();
        let ghost d6 = domains_of_srvs(srv_records@);
        let ghost u6 = srv_updates(srv_records@);
        assert(d6.take(0) =~= Seq::<Domain>::empty());
        assert(s5.union(Set::<Seq<Seq<u8>>>::empty()) =~= s5);
        assert(p5 + u6.take(0) =~= p5);
        let mut i: usize = 0;
        while i < srv_records.len()
            invariant
                i <= srv_records@.len(),
                d6 == domains_of_srvs(srv_records@),
                u6 == srv_updates(srv_records@),
                sets == domain_sets@,
                keys@.len() == rules@.len(),
                gathered_ok(keys@),
                key_views(keys@).to_set() == s5.union(domains_keys(d6.take(i as int), sets)),
                rules_follow(keys@, rules@, p5 + u6.take(i as int), sets),
            decreases srv_records.len() - i,
        {
            let r = &srv_records[i];
            let u = Update::Srv(r.config.clone());
            gather_domain(&mut keys, &mut rules, &r.domain, domain_sets, &u, Ghost(p5 + u6.take(i as int)));
            proof {
                lemma_domains_keys_step(d6, sets, i as int);
                assert(key_views(keys@).to_set() =~= s5.union(domains_keys(d6.take(i + 1), sets)));
                assert((p5 + u6.take(i as int)).push((r.domain, update_view(u))) =~= p5 + u6.take(i + 1));
            }
            i = i + 1;
        }
        assert(d6.take(d6.len() as int) =~= d6);
        assert(u6.take(u6.len() as int) =~= u6);
        let ghost p6 = p5 + u6;
        let ghost s6 = key_views(keys@).to_set();
        let ghost d7 = domains_of_https(https_records@);
        let ghost u7 = https_updates(https_records@);
        assert(d7.take(0) =~= Seq::<Domain>::empty());
        assert(s6.union(Set::<Seq<Seq<u8>>>::empty()) =~= s6);
        assert(p6 + u7.take(0) =~= p6);
        let mut i: usize = 0;
        while i < https_records.len()
            invariant
                i <= https_records@.len(),
                d7 == domains_of_https(https_records@),
                u7 == https_updates(https_records@),
                sets == domain_sets@,
                keys@.len() == rules@.len(),
                gathered_ok(keys@),
                key_views(keys@).to_set() == s6.union(domains_keys(d7.take(i as int), sets)),
                rules_follow(keys@, rules@, p6 + u7.take(i as int), sets),
            decreases https_records.len() - i,
        {
            let r = &https_records[i];
            let u = Update::Https(crate::message::copy_bytes(&r.config));
            gather_domain(&mut keys, &mut rules, &r.domain, domain_sets, &u, Ghost(p6 + u7.take(i as int)));
            proof {
                lemma_domains_keys_step(d7, sets, i as int);
                assert(key_views(keys@).to_set() =~= s6.union(domains_keys(d7.take(i + 1), sets)));
                assert((p6 + u7.take(i as int)).push((r.domain, update_view(u))) =~= p6 + u7.take(i + 1));
            }
            i = i + 1;
        }
        assert(d7.take(d7.len() as int) =~= d7);
        assert(u7.take(u7.len() as int) =~= u7);
        let ghost p7 = p6 + u7;
        let ghost s7 = key_views(keys@).to_set();
        assert(d4.take(0) =~= Seq::<Domain>::empty());
        assert(s7.union(Set::<Seq<Seq<u8>>>::empty()) =~= s7);
        assert(p7 + u4.take(0) =~= p7);
        let mut i: usize = 0;
        while i < nftsets.len()
            invariant
                i <= nftsets@.len(),
                d4 == domains_of_nftsets(nftsets@),
                u4 == nftset_updates(nftsets@),
                sets == domain_sets@,
                keys@.len() == rules@.len(),
                gathered_ok(keys@),
                key_views(keys@).to_set() == s7.union(domains_keys(d4.take(i as int), sets)),
                rules_follow(keys@, rules@, p7 + u4.take(i as int), sets),
            decreases nftsets.len() - i,
        {
            let r = &nftsets[i];
            let u = Update::Nftset(copy_nftsets(&r.config));
            gather_domain(&mut keys, &mut rules, &r.domain, domain_sets, &u, Ghost(p7 + u4.take(i as int)));
            proof {
                lemma_domains_keys_step(d4, sets, i as int);
                assert(key_views(keys@).to_set() =~= s7.union(domains_keys(d4.take(i + 1), sets)));
                assert((p7 + u4.take(i as int)).push((r.domain, update_view(u))) =~= p7 + u4.take(i + 1));
            }
            i = i + 1;
        }
        assert(d4.take(d4.len() as int) =~= d4);
        assert(u4.take(u4.len() as int) =~= u4);
        Self::from_gathered(&keys, &rules, Ghost(p7 + u4), Ghost(sets))
    }

    /// The map of gathered domains: parents before children.
    fn from_gathered(keys: &Vec<Vec<Vec<u8>>>, rules: &Vec<DomainRule>, Ghost(ups): Ghost<Seq<(Domain, UpdateV)>>,
        Ghost(sets): Ghost<Seq<(String, Vec<Name>)>>) -> (r: DomainRuleMap)
        requires
            keys@.len() == rules@.len(),
            gathered_ok(keys@),
            rules_follow(keys@, rules@, ups, sets),
        ensures
            r.wf(),
            r.domains().to_set() == key_views(keys@).to_set(),
            forall|i: int| 0 <= i < r.spec_nodes().len() ==> (#[trigger] r.spec_nodes()[i]).rule@ == rule_for(
                r.domains()[i], ups, sets),
    {
        let ghost ks = key_views(keys@);
        let mut longest: usize = 0;
        let mut i: usize = 0;
        while i < keys.len()
            invariant
                i <= keys@.len(),
                forall|m: int| 0 <= m < i ==> #[trigger] keys@[m]@.len() <= longest,
            decreases keys.len() - i,
        {
            if keys[i].len() > longest {
                longest = keys[i].len();
            }
            i = i + 1;
        }
        let mut map = DomainRuleMap::empty();
        let mut len: usize = 0;
        let ghost mut placed: Set<int> = Set::empty();
        assert(map.domains().to_set() =~= placed_keys(placed, ks));
        loop
            invariant_except_break
                forall|m: int| 0 <= m < keys@.len() ==> (#[trigger] placed.contains(m) <==> keys@[m]@.len() < len),
                forall|x: int| 0 <= x < map.domains().len() ==> #[trigger] map.domains()[x].len() < len,
            invariant
                len <= longest,
                map.wf(),
                rules_follow(keys@, rules@, ups, sets),
                forall|x: int| 0 <= x < map.spec_nodes().len() ==> (#[trigger] map.spec_nodes()[x]).rule@ == rule_for(
                    map.domains()[x], ups, sets),
                ks == key_views(keys@),
                gathered_ok(keys@),
                keys@.len() == rules@.len(),
                forall|m: int| 0 <= m < keys@.len() ==> #[trigger] keys@[m]@.len() <= longest,
                map.domains().to_set() == placed_keys(placed, ks),
                forall|m: int| #[trigger] placed.contains(m) ==> 0 <= m < keys@.len(),
            ensures
                map.wf(),
                forall|x: int| 0 <= x < map.spec_nodes().len() ==> (#[trigger] map.spec_nodes()[x]).rule@ == rule_for(
                    map.domains()[x], ups, sets),
                map.domains().to_set() == placed_keys(placed, ks),
                forall|m: int| 0 <= m < keys@.len() ==> #[trigger] placed.contains(m),
            decreases longest - len,
        {
            let mut j: usize = 0;
            while j < keys.len()
                invariant
                    j <= keys@.len(),
                    len <= longest,
                    map.wf(),
                    rules_follow(keys@, rules@, ups, sets),
                    forall|x: int| 0 <= x < map.spec_nodes().len() ==> (#[trigger] map.spec_nodes()[x]).rule@ == rule_for(
                        map.domains()[x], ups, sets),
                    ks == key_views(keys@),
                    gathered_ok(keys@),
                    keys@.len() == rules@.len(),
                    forall|m: int| 0 <= m < keys@.len() ==> #[trigger] keys@[m]@.len() <= longest,
                    forall|m: int| 0 <= m < keys@.len() ==> (#[trigger] placed.contains(m) <==>
                        (keys@[m]@.len() < len || (keys@[m]@.len() == len && m < j))),
                    map.domains().to_set() == placed_keys(placed, ks),
                    forall|x: int| 0 <= x < map.domains().len() ==> #[trigger] map.domains()[x].len() <= len,
                    forall|m: int| #[trigger] placed.contains(m) ==> 0 <= m < keys@.len(),
                decreases keys.len() - j,
            {
                if keys[j].len() == len {
                    let ghost doms = map.domains();
                    proof {
                        assert(ks[j as int] == label_seqs(keys@[j as int]@));
                        assert(!placed.contains(j as int));
                        lemma_index_spec(doms, ks[j as int]);
                        if index_of_key(doms, ks[j as int]) is Some {
                            let x = index_of_key(doms, ks[j as int])->0;
                            assert(doms.to_set().contains(doms[x]));
                            assert(placed_keys(placed, ks).contains(ks[j as int]));
                            let m = choose|m: int| placed.contains(m) && ks[m] == ks[j as int];
                            assert(m != j);
                            if m < j {
                                assert(ks[m] != ks[j as int]);
                            } else {
                                assert(ks[j as int] != ks[m]);
                            }
                        }
                    }
                    let ghost nodes0 = map.spec_nodes();
                    let rule = rules[j].clone();
                    map.push(crate::message::copy_byte_lists(&keys[j]), rule);
                    proof {
                        assert(rules@[j as int]@ == rule_for(ks[j as int], ups, sets));
                        assert forall|x: int| 0 <= x < map.spec_nodes().len() implies (#[trigger] map.spec_nodes()[x]).rule@
                            == rule_for(map.domains()[x], ups, sets) by {
                            if x < nodes0.len() {
                                assert(map.spec_nodes()[x] == nodes0[x]);
                                assert(map.domains()[x] == doms[x]);
                            } else {
                                assert(map.domains()[x] == ks[j as int]);
                            }
                        }
                        doms.lemma_push_to_set_commute(ks[j as int]);
                        let before = placed;
                        placed = placed.insert(j as int);
                        assert(placed_keys(placed, ks) =~= placed_keys(before, ks).insert(ks[j as int])) by {
                            assert forall|k: Seq<Seq<u8>>| #[trigger] placed_keys(placed, ks).contains(k)
                                <==> placed_keys(before, ks).insert(ks[j as int]).contains(k) by {
                                if placed_keys(placed, ks).contains(k) {
                                    let m = choose|m: int| placed.contains(m) && ks[m] == k;
                                    if m != j {
                                        assert(before.contains(m));
                                    }
                                }
                                if placed_keys(before, ks).contains(k) {
                                    let m = choose|m: int| before.contains(m) && ks[m] == k;
                                    assert(placed.contains(m));
                                }
                                if k == ks[j as int] {
                                    assert(placed.contains(j as int));
                                }
                            }
                        }
                    }
                }
                j = j + 1;
            }
            if len == longest {
                break;
            }
            len = len + 1;
        }
        assert(placed_keys(placed, ks) =~= ks.to_set()) by {
            assert forall|k: Seq<Seq<u8>>| #[trigger] ks.to_set().contains(k) <==> placed_keys(placed, ks).contains(k) by {
                if ks.to_set().contains(k) {
                    let m = choose|m: int| 0 <= m < ks.len() && ks[m] == k;
                    assert(placed.contains(m));
                }
                if placed_keys(placed, ks).contains(k) {
                    let m = choose|m: int| placed.contains(m) && ks[m] == k;
                    assert(ks.contains(k));
                }
            }
        }
        map
    }
}

/// The keys at the placed indices.
pub open spec fn placed_keys(placed: Set<int>, ks: Seq<Seq<Seq<u8>>>) -> Set<Seq<Seq<u8>>> {
    Set::new(|k: Seq<Seq<u8>>| exists|m: int| #[trigger] placed.contains(m) && ks[m] == k)
}

impl DomainRuleMap {
    /// A found node is one of the map's nodes.
    pub proof fn lemma_find_range(&self, name: Seq<Seq<u8>>)
        requires
            self.wf(),
        ensures
            self.spec_find(name) matches Some(i) ==> 0 <= i < self.spec_nodes().len(),
    {
        lemma_longest_range(self.domains(), name_key(name), 0);
    }

    /// A node's zone is the node of its domain's nearest enclosing domain
    /// with rules: the longest proper suffix of the domain that has rules.
    pub proof fn lemma_zone_is_nearest(&self, i: int)
        requires
            self.wf(),
            0 <= i < self.spec_nodes().len(),
        ensures
            self.spec_nodes()[i].zone == zone_index(longest_suffix(self.domains(), self.domains()[i], 1)),
    {
        assert(self.domains().len() == self.spec_nodes().len());
        assert(self.spec_nodes()[i].spec_zone() == self.spec_nodes()[i].zone);
    }

    /// The node found for a name is that of the longest suffix of the name
    /// (in lower case) that is a domain with rules; no name has a node
    /// when no suffix of it is such a domain.
    pub proof fn law_find_is_longest_suffix(&self, name: Seq<Seq<u8>>)
        requires
            self.wf(),
        ensures
            self.spec_find(name) matches Some(i) ==> 0 <= i < self.spec_nodes().len() && exists|j: int| 0 <= j
                <= name.len() && self.domains()[i] == name_key(name).skip(j) && forall|m: int, d: int| 0 <= m < j
                && 0 <= d < self.domains().len() ==> #[trigger] self.domains()[d] != #[trigger] name_key(name).skip(m),
            self.spec_find(name) is None ==> forall|m: int, d: int| 0 <= m <= name.len() && 0 <= d
                < self.domains().len() ==> #[trigger] self.domains()[d] != #[trigger] name_key(name).skip(m),
    {
        assert(self.domains().len() == self.spec_nodes().len());
        lemma_longest_spec(self.domains(), name_key(name), 0);
    }

    /// A zone link points to an earlier node.
    pub proof fn lemma_zone_range(&self, i: int)
        requires
            self.wf(),
            0 <= i < self.spec_nodes().len(),
        ensures
            self.spec_nodes()[i].zone matches Some(z) ==> (z as int) < i,
    {
        assert(self.domains().len() == self.spec_nodes().len());
    }
}

} // verus!
