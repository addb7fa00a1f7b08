//! The data model: jobs, hosts and their ports and banners, log records,
//! the display status, the job-creation request and the scan options.
use vstd::prelude::*;
use crate::text::{text_eq, text_less, text_lt, text_of};
use crate::text::{lemma_text_less_asymmetric, lemma_text_less_irreflexive};
use crate::text::{lemma_text_less_total, lemma_text_less_transitive};

verus! {

/// Relies on `uuid::Uuid::new_v4` and its hyphenated `Display`, which always
/// has 36 characters.
#[verifier::external_body]
pub(crate) fn fresh_uuid() -> (r: String)
    ensures
        r@.len() == 36,
{
    uuid::Uuid::new_v4().to_string()
}

/// Relies on `chrono::Utc::now` and `DateTime::to_rfc3339`: the current wall
/// time as RFC 3339 text. Every such text holds a date, `T`, a time and a
/// `+HH:MM` offset, so at least 25 characters; nothing else is promised.
#[verifier::external_body]
pub(crate) fn now_rfc3339() -> (r: String)
    ensures
        r@.len() >= 25,
{
    chrono::Utc::now().to_rfc3339()
}

/// Scheduling priority of a job; `CRITICAL` is the most urgent.
#[derive(Clone, Copy, Debug, PartialEq, Eq, Structural)]
#[allow(non_camel_case_types)]
pub enum JobPriority {
    LOW,
    NORMAL,
    HIGH,
    CRITICAL,
}

/// The rank of a priority: a larger rank is more urgent.
pub open spec fn rank(p: JobPriority) -> nat {
    match p {
        JobPriority::LOW => 0,
        JobPriority::NORMAL => 1,
        JobPriority::HIGH => 2,
        JobPriority::CRITICAL => 3,
    }
}

impl JobPriority {
    pub fn rank(&self) -> (r: u8)
        ensures
            r == rank(*self),
    {
        match self {
            JobPriority::LOW => 0,
            JobPriority::NORMAL => 1,
            JobPriority::HIGH => 2,
            JobPriority::CRITICAL => 3,
        }
    }
}

/// Reachability of a host.
#[derive(Clone, Copy, Debug, PartialEq, Eq, Structural)]
pub enum HostStatus {
    Up,
    Down,
    Unknown,
}

impl HostStatus {
    /// Human-readable form of the status.
    pub fn label(&self) -> (r: String)
        ensures
            r@ == match *self {
                HostStatus::Up => "Host Status Up"@,
                HostStatus::Down => "Host Status Down"@,
                HostStatus::Unknown => "Host Status Unknown"@,
            },
    {
        match self {
            HostStatus::Up => text_of("Host Status Up"),
            HostStatus::Down => text_of("Host Status Down"),
            HostStatus::Unknown => text_of("Host Status Unknown"),
        }
    }
}

/// An open (or otherwise observed) port of a host.
#[derive(Clone, Debug)]
pub struct Port {
    pub number: u16,
    pub protocol: String,
    pub status: String,
}

/// What a port is to the contracts: number, protocol and status as text.
pub type PortView = (u16, Seq<char>, Seq<char>);

impl View for Port {
    type V = PortView;

    open spec fn view(&self) -> PortView {
        (self.number, self.protocol@, self.status@)
    }
}

/// A service seen on a host.
#[derive(Clone, Debug)]
pub struct Service {
    pub name: String,
    pub version: Option<String>,
    pub description: Option<String>,
}

/// A weakness recorded against a host.
#[derive(Clone, Debug)]
pub struct Vulnerability {
    pub name: String,
    pub severity: Option<String>,
    pub description: Option<String>,
}

/// Order of port keys: by number, then by protocol text.
pub open spec fn key_less(a: (u16, Seq<char>), b: (u16, Seq<char>)) -> bool {
    a.0 < b.0 || (a.0 == b.0 && text_less(a.1, b.1))
}

pub open spec fn port_key(p: PortView) -> (u16, Seq<char>) {
    (p.0, p.1)
}

pub proof fn lemma_key_less_transitive(a: (u16, Seq<char>), b: (u16, Seq<char>), c: (u16, Seq<char>))
    requires
        key_less(a, b),
        key_less(b, c),
    ensures
        key_less(a, c),
{
    if a.0 == b.0 && b.0 == c.0 {
        lemma_text_less_transitive(a.1, b.1, c.1);
    }
}

pub proof fn lemma_key_less_total(a: (u16, Seq<char>), b: (u16, Seq<char>))
    ensures
        a == b || key_less(a, b) || key_less(b, a),
        !key_less(a, a),
        !(key_less(a, b) && key_less(b, a)),
{
    lemma_text_less_total(a.1, b.1);
    lemma_text_less_irreflexive(a.1);
    lemma_text_less_asymmetric(a.1, b.1);
}

/// Ports strictly ascending by `(number, protocol)`: sorted, and no key twice.
pub open spec fn ports_sorted(ports: Seq<PortView>) -> bool {
    forall|i: int, j: int|
        0 <= i < j < ports.len() ==> key_less(port_key(#[trigger] ports[i]), port_key(
            #[trigger] ports[j],
        ))
}

/// No banner text occurs twice.
pub open spec fn banners_unique(banners: Seq<Seq<char>>) -> bool {
    forall|i: int, j: int| 0 <= i < j < banners.len() ==> #[trigger] banners[i] != #[trigger] banners[j]
}

/// A host record, keyed by `ip`.
#[derive(Clone, Debug)]
pub struct Host {
    pub ip: String,
    pub ports: Vec<Port>,
    pub os: Option<String>,
    pub os_version: Option<String>,
    pub device_type: Option<String>,
    pub mac_address: Option<String>,
    pub hostname: Option<String>,
    pub status: HostStatus,
    pub last_seen: String,
    pub first_seen: String,
    pub services: Vec<Service>,
    pub vulnerabilities: Vec<Vulnerability>,
    pub banners: Vec<String>,
}

/// Whether the key `k` occurs among `ports`.
pub open spec fn has_key(ports: Seq<PortView>, k: (u16, Seq<char>)) -> bool {
    exists|j: int| 0 <= j < ports.len() && port_key(#[trigger] ports[j]) == k
}

/// The ports after recording `p`: the entry of its key takes `p`'s status, or
/// `p` is inserted where the order puts it.
pub open spec fn ports_after_add(
    before: Seq<PortView>,
    after: Seq<PortView>,
    p: PortView,
) -> bool {
    &&& ports_sorted(after)
    &&& has_key(before, port_key(p)) ==> exists|j: int|
        0 <= j < before.len() && port_key(before[j]) == port_key(p) && after == before.update(j, p)
    &&& !has_key(before, port_key(p)) ==> exists|j: int|
        0 <= j <= before.len() && after == before.insert(j, p)
}

/// The banners after recording `b`: unchanged if present, else `b` at the end.
pub open spec fn banners_after_add(before: Seq<Seq<char>>, b: Seq<char>) -> Seq<Seq<char>> {
    if before.contains(b) {
        before
    } else {
        before.push(b)
    }
}

/// Whether the port `p` (number, protocol and status) occurs in `ports`.
pub open spec fn has_entry(ports: Seq<PortView>, p: PortView) -> bool {
    exists|j: int| 0 <= j < ports.len() && ports[j] == p
}

/// The ports of a merge: sorted and unique by key; each port of `added` is
/// there, and each port of `before` whose key `added` does not hold.
pub open spec fn ports_merged(before: Seq<PortView>, added: Seq<PortView>, merged: Seq<PortView>) -> bool {
    &&& ports_sorted(merged)
    &&& forall|q: PortView|
        #[trigger] has_entry(merged, q) <==> (has_entry(added, q) || (has_entry(before, q) && !has_key(
            added,
            port_key(q),
        )))
}

/// The banners after recording each of `added` in turn.
pub open spec fn banners_merged(before: Seq<Seq<char>>, added: Seq<Seq<char>>) -> Seq<Seq<char>>
    decreases added.len(),
{
    if added.len() == 0 {
        before
    } else {
        banners_after_add(banners_merged(before, added.drop_last()), added.last())
    }
}

proof fn lemma_sorted_keys_distinct(v: Seq<PortView>, a: int, b: int)
    requires
        ports_sorted(v),
        0 <= a < v.len(),
        0 <= b < v.len(),
        a != b,
    ensures
        port_key(v[a]) != port_key(v[b]),
{
    if a < b {
        assert(key_less(port_key(v[a]), port_key(v[b])));
    } else {
        assert(key_less(port_key(v[b]), port_key(v[a])));
    }
    lemma_key_less_total(port_key(v[a]), port_key(v[b]));
}

/// What recording one port does to the set of entries: the port is there,
/// and of the others those of a different key stay.
pub proof fn lemma_add_entries(before: Seq<PortView>, after: Seq<PortView>, p: PortView, q: PortView)
    requires
        ports_sorted(before),
        ports_after_add(before, after, p),
    ensures
        has_entry(after, q) <==> (q == p || (has_entry(before, q) && port_key(q) != port_key(p))),
{
    if has_key(before, port_key(p)) {
        let j = choose|j: int|
            0 <= j < before.len() && port_key(before[j]) == port_key(p) && after == before.update(j, p);
        if has_entry(after, q) {
            let m = choose|m: int| 0 <= m < after.len() && after[m] == q;
            if m != j {
                lemma_sorted_keys_distinct(before, m, j);
                assert(before[m] == q);
            }
        }
        if q != p && has_entry(before, q) && port_key(q) != port_key(p) {
            let m = choose|m: int| 0 <= m < before.len() && before[m] == q;
            assert(after[m] == q);
        }
        if q == p {
            assert(after[j] == q);
        }
    } else {
        let j = choose|j: int| 0 <= j <= before.len() && after == before.insert(j, p);
        if has_entry(after, q) {
            let m = choose|m: int| 0 <= m < after.len() && after[m] == q;
            if m < j {
                assert(before[m] == q);
            } else if m > j {
                assert(before[m - 1] == q);
            }
            if q != p {
                if port_key(q) == port_key(p) {
                    let k = if m < j { m } else { m - 1 };
                    assert(port_key(before[k]) == port_key(p));
                }
            }
        }
        if has_entry(before, q) {
            let m = choose|m: int| 0 <= m < before.len() && before[m] == q;
            if m < j {
                assert(after[m] == q);
            } else {
                assert(after[m + 1] == q);
            }
        }
        if q == p {
            assert(after[j] == q);
        }
    }
}

impl Host {
    pub open spec fn port_views(&self) -> Seq<PortView> {
        self.ports@.map_values(|p: Port| p@)
    }

    pub open spec fn banner_views(&self) -> Seq<Seq<char>> {
        self.banners@.map_values(|b: String| b@)
    }

    /// Ports sorted and unique by key, banners unique.
    pub open spec fn wf(&self) -> bool {
        ports_sorted(self.port_views()) && banners_unique(self.banner_views())
    }

    /// The descriptive fields of `self` and `o` agree.
    pub open spec fn same_details(&self, o: &Host) -> bool {
        &&& self.ip == o.ip
        &&& self.os == o.os
        &&& self.os_version == o.os_version
        &&& self.device_type == o.device_type
        &&& self.mac_address == o.mac_address
        &&& self.hostname == o.hostname
        &&& self.status == o.status
        &&& self.first_seen == o.first_seen
        &&& self.services == o.services
        &&& self.vulnerabilities == o.vulnerabilities
    }

    /// A host seen now: no ports or banners, status unknown, first and last
    /// seen set to the same current time.
    pub fn new(ip: String) -> (h: Host)
        ensures
            h.ip@ == ip@,
            h.ports@.len() == 0,
            h.banners@.len() == 0,
            h.services@.len() == 0,
            h.vulnerabilities@.len() == 0,
            h.status == HostStatus::Unknown,
            h.os is None && h.os_version is None && h.device_type is None,
            h.mac_address is None && h.hostname is None,
            h.first_seen@ == h.last_seen@,
            h.wf(),
    {
        let now = now_rfc3339();
        let first = text_of(now.as_str());
        Host {
            ip,
            ports: Vec::new(),
            os: None,
            os_version: None,
            device_type: None,
            mac_address: None,
            hostname: None,
            status: HostStatus::Unknown,
            last_seen: now,
            first_seen: first,
            services: Vec::new(),
            vulnerabilities: Vec::new(),
            banners: Vec::new(),
        }
    }

    /// Records a port: a known `(number, protocol)` takes the new status,
    /// a new one is inserted in order.
    pub fn add_port(&mut self, number: u16, protocol: &str, status: &str)
        requires
            old(self).wf(),
        ensures
            final(self).wf(),
            final(self).same_details(old(self)),
            final(self).last_seen == old(self).last_seen,
            final(self).banners == old(self).banners,
            ports_after_add(old(self).port_views(), final(self).port_views(), (number, protocol@, status@)),
    {
        let ghost before = self.port_views();
        let ghost k = (number, protocol@);
        let ghost p: PortView = (number, protocol@, status@);
        let n = self.ports.len();
        let mut i: usize = 0;
        while i < n
            invariant
                n == self.ports@.len(),
                i <= n,
                *self == *old(self),
                self.wf(),
                p == (number, protocol@, status@),
                k == (number, protocol@),
                before == self.port_views(),
                ports_sorted(before),
                forall|j: int| 0 <= j < i ==> key_less(port_key(#[trigger] before[j]), k),
            decreases n - i,
        {
            let same_number = self.ports[i].number == number;
            if same_number && text_eq(self.ports[i].protocol.as_str(), protocol) {
                let entry = Port { number, protocol: text_of(protocol), status: text_of(status) };
                proof {
                    assert(entry.number == number);
                    assert(entry.protocol@ == protocol@);
                    assert(entry.status@ == status@);
                    assert(entry@ == p);
                }
                let ghost olds = self.ports@;
                self.ports.set(i, entry);
                proof {
                    assert(self.ports@ == olds.update(i as int, entry));
                    assert(self.port_views() =~= before.update(i as int, p));
                    assert(port_key(before[i as int]) == k);
                    assert(has_key(before, k));
                    assert forall|a: int, b: int|
                        0 <= a < b < self.port_views().len() implies key_less(
                        port_key(#[trigger] self.port_views()[a]),
                        port_key(#[trigger] self.port_views()[b]),
                    ) by {
                        assert(port_key(self.port_views()[a]) == port_key(before[a]));
                        assert(port_key(self.port_views()[b]) == port_key(before[b]));
                    }
                }
                return;
            }
            let here_less = number < self.ports[i].number || (same_number && text_lt(
                protocol,
                self.ports[i].protocol.as_str(),
            ));
            if here_less {
                let entry = Port { number, protocol: text_of(protocol), status: text_of(status) };
                self.ports.insert(i, entry);
                proof {
                    let after = self.port_views();
                    assert(after =~= before.insert(i as int, p));
                    assert(key_less(k, port_key(before[i as int])));
                    assert forall|a: int, b: int|
                        0 <= a < b < after.len() implies key_less(
                        port_key(#[trigger] after[a]),
                        port_key(#[trigger] after[b]),
                    ) by {
                        if b < i {
                        } else if b == i {
                        } else if a < i {
                            assert(key_less(port_key(before[a]), k));
                            assert(after[b] == before[b - 1]);
                            if b - 1 > i {
                                lemma_key_less_transitive(k, port_key(before[i as int]), port_key(before[b - 1]));
                            }
                            lemma_key_less_transitive(port_key(before[a]), k, port_key(before[b - 1]));
                        } else if a == i {
                            if b - 1 > i {
                                lemma_key_less_transitive(k, port_key(before[i as int]), port_key(before[b - 1]));
                            }
                        } else {
                            assert(after[a] == before[a - 1]);
                            assert(after[b] == before[b - 1]);
                        }
                    }
                    assert(!has_key(before, k)) by {
                        if has_key(before, k) {
                            let j = choose|j: int| 0 <= j < before.len() && port_key(#[trigger] before[j]) == k;
                            lemma_key_less_total(k, k);
                            if j < i {
                            } else if j > i {
                                lemma_key_less_transitive(k, port_key(before[i as int]), port_key(before[j]));
                            }
                        }
                    }
                }
                return;
            }
            proof {
                let q = port_key(before[i as int]);
                lemma_key_less_total(q, k);
                assert(q != k);
                assert(key_less(q, k));
            }
            i += 1;
        }
        let entry = Port { number, protocol: text_of(protocol), status: text_of(status) };
        self.ports.push(entry);
        proof {
            let after = self.port_views();
            assert(after =~= before.insert(n as int, p));
            assert(!has_key(before, k)) by {
                if has_key(before, k) {
                    let j = choose|j: int| 0 <= j < before.len() && port_key(#[trigger] before[j]) == k;
                    lemma_key_less_total(k, k);
                }
            }
            assert forall|a: int, b: int|
                0 <= a < b < after.len() implies key_less(
                port_key(#[trigger] after[a]),
                port_key(#[trigger] after[b]),
            ) by {
                if b == n {
                    assert(key_less(port_key(before[a]), k));
                } else {
                    assert(after[a] == before[a]);
                    assert(after[b] == before[b]);
                }
            }
        }
    }

    /// Merges `other` into this host: its ports are recorded in order (a
    /// known key takes the new status), its banners are added once each, and
    /// `last_seen` takes `other`'s.
    pub fn merge_from(&mut self, other: &Host)
        requires
            old(self).wf(),
            other.wf(),
        ensures
            final(self).wf(),
            final(self).same_details(old(self)),
            final(self).last_seen@ == other.last_seen@,
            ports_merged(old(self).port_views(), other.port_views(), final(self).port_views()),
            final(self).banner_views() == banners_merged(old(self).banner_views(), other.banner_views()),
    {
        let ghost start = *self;
        let ghost added = other.port_views();
        let n = other.ports.len();
        let mut i: usize = 0;
        proof {
            assert forall|q: PortView|
                has_entry(self.port_views(), q) <==> (has_entry(added.take(0), q) || (has_entry(
                    start.port_views(),
                    q,
                ) && !has_key(added.take(0), port_key(q)))) by {
                if has_entry(added.take(0), q) {
                    let m = choose|m: int| 0 <= m < added.take(0).len() && added.take(0)[m] == q;
                }
                if has_key(added.take(0), port_key(q)) {
                    let m = choose|m: int|
                        0 <= m < added.take(0).len() && port_key(#[trigger] added.take(0)[m]) == port_key(q);
                }
            }
        }
        while i < n
            invariant
                n == other.ports@.len(),
                i <= n,
                added == other.port_views(),
                ports_sorted(added),
                self.wf(),
                self.same_details(&start),
                self.last_seen == start.last_seen,
                self.banners == start.banners,
                forall|q: PortView|
                    #[trigger] has_entry(self.port_views(), q) <==> (has_entry(added.take(i as int), q) || (
                    has_entry(start.port_views(), q) && !has_key(added.take(i as int), port_key(q)))),
            decreases n - i,
        {
            let ghost cur = self.port_views();
            let ghost p = added[i as int];
            self.add_port(other.ports[i].number, other.ports[i].protocol.as_str(), other.ports[i].status.as_str());
            proof {
                assert(p == (other.ports@[i as int].number, other.ports@[i as int].protocol@, other.ports@[i as int].status@));
                let t0 = added.take(i as int);
                let t1 = added.take(i + 1);
                assert(t1 =~= t0.push(p));
                assert forall|q: PortView|
                    has_entry(self.port_views(), q) <==> (has_entry(t1, q) || (has_entry(
                        start.port_views(),
                        q,
                    ) && !has_key(t1, port_key(q)))) by {
                    lemma_add_entries(cur, self.port_views(), p, q);
                    if has_entry(t1, q) {
                        let m = choose|m: int| 0 <= m < t1.len() && t1[m] == q;
                        if m < i {
                            assert(t0[m] == q);
                        }
                    }
                    if has_entry(t0, q) {
                        let m = choose|m: int| 0 <= m < t0.len() && t0[m] == q;
                        assert(t1[m] == q);
                        if port_key(q) == port_key(p) {
                            lemma_sorted_keys_distinct(added, m, i as int);
                        }
                    }
                    if has_key(t1, port_key(q)) {
                        let m = choose|m: int| 0 <= m < t1.len() && port_key(#[trigger] t1[m]) == port_key(q);
                        if m < i {
                            assert(port_key(t0[m]) == port_key(q));
                        }
                    }
                    if has_key(t0, port_key(q)) {
                        let m = choose|m: int| 0 <= m < t0.len() && port_key(#[trigger] t0[m]) == port_key(q);
                        assert(port_key(t1[m]) == port_key(q));
                    }
                    if q == p {
                        assert(t1[i as int] == q);
                    }
                    if port_key(q) == port_key(p) {
                        assert(port_key(t1[i as int]) == port_key(q));
                    }
                }
            }
            i += 1;
        }
        proof {
            assert(added.take(n as int) =~= added);
            assert forall|q: PortView|
                has_entry(self.port_views(), q) <==> (has_entry(added, q) || (has_entry(
                    start.port_views(),
                    q,
                ) && !has_key(added, port_key(q)))) by {
                assert(added.take(n as int) == added);
            }
        }
        let ghost mid = self.banner_views();
        let ghost extra = other.banner_views();
        let m = other.banners.len();
        let mut k: usize = 0;
        proof {
            assert(extra.take(0) =~= Seq::<Seq<char>>::empty());
        }
        while k < m
            invariant
                m == other.banners@.len(),
                k <= m,
                extra == other.banner_views(),
                self.wf(),
                self.same_details(&start),
                self.last_seen == start.last_seen,
                ports_merged(start.port_views(), added, self.port_views()),
                self.banner_views() == banners_merged(mid, extra.take(k as int)),
                mid == start.banner_views(),
            decreases m - k,
        {
            proof {
                assert(extra.take(k + 1).drop_last() =~= extra.take(k as int));
            }
            self.add_banner(text_of(other.banners[k].as_str()));
            k += 1;
        }
        proof {
            assert(extra.take(m as int) =~= extra);
        }
        self.last_seen = text_of(other.last_seen.as_str());
    }

    /// Records a banner once: a text already present is not added again.
    pub fn add_banner(&mut self, banner: String)
        requires
            old(self).wf(),
        ensures
            final(self).wf(),
            final(self).same_details(old(self)),
            final(self).last_seen == old(self).last_seen,
            final(self).ports == old(self).ports,
            final(self).banner_views() == banners_after_add(old(self).banner_views(), banner@),
    {
        let ghost before = self.banner_views();
        let n = self.banners.len();
        let mut i: usize = 0;
        while i < n
            invariant
                n == self.banners@.len(),
                i <= n,
                *self == *old(self),
                self.wf(),
                before == self.banner_views(),
                forall|j: int| 0 <= j < i ==> before[j] != banner@,
            decreases n - i,
        {
            if text_eq(self.banners[i].as_str(), banner.as_str()) {
                proof {
                    assert(before[i as int] == banner@);
                    assert(before.contains(banner@));
                }
                return;
            }
            i += 1;
        }
        self.banners.push(banner);
        proof {
            assert(!before.contains(banner@));
            assert(self.banner_views() =~= before.push(banner@));
        }
    }

    /// Refreshes `last_seen` to `now`, the time the host was last seen.
    pub fn update_last_seen(&mut self, now: String)
        ensures
            final(self).last_seen == now,
            final(self).same_details(old(self)),
            final(self).ports == old(self).ports,
            final(self).banners == old(self).banners,
    {
        self.last_seen = now;
    }

    /// The placeholder host `0.0.0.0`.
    pub fn default() -> (h: Host)
        ensures
            h.ip@ == "0.0.0.0"@,
            h.ports@.len() == 0,
            h.banners@.len() == 0,
            h.status == HostStatus::Unknown,
            h.wf(),
    {
        Host::new(text_of("0.0.0.0"))
    }
}

/// A job as stored: what to run, how urgently, and where it stands.
#[derive(Clone, Debug)]
pub struct Job {
    pub id: String,
    pub job_type: String,
    pub priority: JobPriority,
    pub status: String,
    pub results: Option<String>,
    pub created_at: String,
    pub scheduled_at: Option<i64>,
    /// The network a discovery job scans, when the request named one.
    pub target: Option<String>,
}

/// What a job is to the contracts: id, type, priority, status, results,
/// creation time, due time and target network, with texts as character
/// sequences.
pub type JobView = (
    Seq<char>,
    Seq<char>,
    JobPriority,
    Seq<char>,
    Option<Seq<char>>,
    Seq<char>,
    Option<i64>,
    Option<Seq<char>>,
);

pub open spec fn opt_text(o: Option<String>) -> Option<Seq<char>> {
    match o {
        Some(s) => Some(s@),
        None => None,
    }
}

impl View for Job {
    type V = JobView;

    open spec fn view(&self) -> JobView {
        (
            self.id@,
            self.job_type@,
            self.priority,
            self.status@,
            opt_text(self.results),
            self.created_at@,
            self.scheduled_at,
            opt_text(self.target),
        )
    }
}

/// A copy of an optional text.
pub fn copy_opt_text(o: &Option<String>) -> (r: Option<String>)
    ensures
        opt_text(r) == opt_text(*o),
{
    match o {
        Some(s) => Some(text_of(s.as_str())),
        None => None,
    }
}

impl Job {
    /// A queued job of normal priority with a fresh 36-character identifier.
    pub fn new(job_type: String) -> (j: Job)
        ensures
            j.id@.len() == 36,
            j.job_type@ == job_type@,
            j.status@ == "queued"@,
            j.priority == JobPriority::NORMAL,
            j.results is None,
            j.created_at@.len() == 0,
            j.scheduled_at is None,
            j.target is None,
    {
        Job {
            id: fresh_uuid(),
            job_type,
            status: text_of("queued"),
            priority: JobPriority::NORMAL,
            results: None,
            created_at: String::new(),
            scheduled_at: None,
            target: None,
        }
    }

    /// A copy of the job with every field equal.
    pub fn duplicate(&self) -> (r: Job)
        ensures
            r@ == self@,
    {
        Job {
            id: text_of(self.id.as_str()),
            job_type: text_of(self.job_type.as_str()),
            priority: self.priority,
            status: text_of(self.status.as_str()),
            results: copy_opt_text(&self.results),
            created_at: text_of(self.created_at.as_str()),
            scheduled_at: self.scheduled_at,
            target: copy_opt_text(&self.target),
        }
    }

    pub fn is_running(&self) -> (r: bool)
        ensures
            r == (self.status@ == "running"@),
    {
        text_eq(self.status.as_str(), "running")
    }

    pub fn is_completed(&self) -> (r: bool)
        ensures
            r == (self.status@ == "completed"@),
    {
        text_eq(self.status.as_str(), "completed")
    }

    pub fn is_cancelled(&self) -> (r: bool)
        ensures
            r == (self.status@ == "cancelled"@),
    {
        text_eq(self.status.as_str(), "cancelled")
    }

    pub fn is_queued(&self) -> (r: bool)
        ensures
            r == (self.status@ == "queued"@),
    {
        text_eq(self.status.as_str(), "queued")
    }

    pub fn is_scheduled(&self) -> (r: bool)
        ensures
            r == (self.status@ == "scheduled"@),
    {
        text_eq(self.status.as_str(), "scheduled")
    }
}

/// A log record.
#[derive(Clone, Debug)]
pub struct Log {
    pub id: String,
    pub created_at: String,
    pub severity: String,
    pub service: String,
    pub module: Option<String>,
    pub job_id: Option<String>,
    pub content: String,
}

impl Log {
    pub fn new(
        id: String,
        created_at: String,
        severity: String,
        service: String,
        module: Option<String>,
        job_id: Option<String>,
        content: String,
    ) -> (l: Log)
        ensures
            l == (Log { id, created_at, severity, service, module, job_id, content }),
    {
        Log { id, created_at, severity, service, module, job_id, content }
    }
}

impl Log {
    /// A copy of the record with every field equal.
    pub fn duplicate(&self) -> (r: Log)
        ensures
            r.id@ == self.id@,
            r.created_at@ == self.created_at@,
            r.severity@ == self.severity@,
            r.service@ == self.service@,
            opt_text(r.module) == opt_text(self.module),
            opt_text(r.job_id) == opt_text(self.job_id),
            r.content@ == self.content@,
    {
        Log {
            id: text_of(self.id.as_str()),
            created_at: text_of(self.created_at.as_str()),
            severity: text_of(self.severity.as_str()),
            service: text_of(self.service.as_str()),
            module: copy_opt_text(&self.module),
            job_id: copy_opt_text(&self.job_id),
            content: text_of(self.content.as_str()),
        }
    }
}

/// What the auxiliary display shows, and when it last changed.
#[derive(Clone, Debug)]
pub struct DisplayStatus {
    pub status: String,
    pub last_update: String,
}

impl DisplayStatus {
    /// The display before any update: `idle`, updated `never`.
    pub fn new() -> (d: DisplayStatus)
        ensures
            d.status@ == "idle"@,
            d.last_update@ == "never"@,
    {
        DisplayStatus { status: text_of("idle"), last_update: text_of("never") }
    }

    /// Shows `status`, stamped with the current time as RFC 3339 text.
    pub fn update(&mut self, status: String)
        ensures
            final(self).status == status,
            final(self).last_update@.len() >= 25,
    {
        self.status = status;
        self.last_update = now_rfc3339();
    }
}

impl Default for DisplayStatus {
    fn default() -> (d: DisplayStatus)
        ensures
            d.status@ == "idle"@,
            d.last_update@ == "never"@,
    {
        DisplayStatus::new()
    }
}

/// A request to create a job.
#[derive(Clone, Debug)]
pub struct CreateJobRequest {
    pub job_type: String,
    pub target: Option<String>,
    pub scheduled_at: Option<i64>,
}

impl CreateJobRequest {
    /// The job a request creates: a fresh id, the requested type and
    /// `priority`, stamped with the current time as `created_at`;
    /// `scheduled` with its due time when the request names one, else
    /// `queued`.
    pub fn to_job(&self, priority: JobPriority) -> (j: Job)
        ensures
            j.id@.len() == 36,
            j.job_type@ == self.job_type@,
            j.priority == priority,
            j.status@ == if self.scheduled_at is Some {
                "scheduled"@
            } else {
                "queued"@
            },
            j.results is None,
            j.created_at@.len() >= 25,
            j.scheduled_at == self.scheduled_at,
            opt_text(j.target) == opt_text(self.target),
    {
        let status = match self.scheduled_at {
            Some(_) => text_of("scheduled"),
            None => text_of("queued"),
        };
        Job {
            id: fresh_uuid(),
            job_type: text_of(self.job_type.as_str()),
            priority,
            status,
            results: None,
            created_at: now_rfc3339(),
            scheduled_at: self.scheduled_at,
            target: copy_opt_text(&self.target),
        }
    }
}

/// The job type of a request that names none.
pub fn default_job_type() -> (r: String)
    ensures
        r@ == "discovery"@,
{
    text_of("discovery")
}

/// The recognised scan options of the configuration; an absent option falls
/// back to its default where it is read.
#[derive(Clone, Debug)]
pub struct ScanConfig {
    pub target_network: Option<String>,
    pub port_range: Option<Vec<u16>>,
}

impl ScanConfig {
    /// No option set.
    pub fn new() -> (c: ScanConfig)
        ensures
            c.target_network is None,
            c.port_range is None,
    {
        ScanConfig { target_network: None, port_range: None }
    }
}

} // verus!
