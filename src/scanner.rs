//! The computing parts of the two network workers: which addresses a CIDR
//! range holds, which ports to probe and what they are, what to send for a
//! banner and how a banner is cleaned, and what a scanned host records.
use vstd::prelude::*;
use crate::lifecycle::{kind_of, job_kind, no_hosts_error, JobKind};
use crate::models::{
    banners_merged, has_entry, lemma_add_entries, CreateJobRequest, Host, Port, PortView, ScanConfig,
};
use crate::text::{is_space, push_char, push_text, space, text_of};

verus! {

/// What `ipnetwork` reads from a text as an IPv4 network: the address and
/// the prefix length, or nothing when the text is no IPv4 CIDR.
pub uninterp spec fn cidr_of(s: Seq<char>) -> Option<(u32, u8)>;

/// Relies on `FromStr` of `ipnetwork::Ipv4Network` with `Ipv4Network::ip`
/// and `Ipv4Network::prefix`: the address as written and the prefix, which
/// `Ipv4Network::new` never lets exceed 32.
#[verifier::external_body]
fn parse_cidr(s: &str) -> (r: Option<(u32, u8)>)
    ensures
        r == cidr_of(s@),
        r is Some ==> (r->0).1 <= 32,
{
    match s.parse::<ipnetwork::Ipv4Network>() {
        Ok(net) => Some((u32::from(net.ip()), net.prefix())),
        Err(_) => None,
    }
}

pub open spec fn pow2(n: nat) -> nat
    decreases n,
{
    if n == 0 {
        1
    } else {
        2 * pow2((n - 1) as nat)
    }
}

proof fn lemma_pow2_add(a: nat, b: nat)
    ensures
        pow2(a + b) == pow2(a) * pow2(b),
    decreases a,
{
    if a > 0 {
        let a1 = (a - 1) as nat;
        lemma_pow2_add(a1, b);
        assert((a + b - 1) as nat == a1 + b);
        assert(pow2(a + b) == 2 * pow2(a1 + b));
        assert(pow2(a) == 2 * pow2(a1));
        let x = pow2(a1);
        let y = pow2(b);
        assert(pow2(a1 + b) == x * y);
        assert(pow2(a) * y == 2 * (x * y)) by (nonlinear_arith)
            requires
                pow2(a) == 2 * x,
        ;
        assert(pow2(a + b) == pow2(a) * pow2(b));
    } else {
        assert(a + b == b);
        assert(pow2(a) == 1);
    }
}

proof fn lemma_pow2_positive(n: nat)
    ensures
        pow2(n) >= 1,
    decreases n,
{
    if n > 0 {
        lemma_pow2_positive((n - 1) as nat);
    }
}

proof fn lemma_pow2_32()
    ensures
        pow2(32) == 0x1_0000_0000,
{
    reveal_with_fuel(pow2, 33);
}

/// The number of addresses in a network with prefix `p`.
pub open spec fn block_size(p: nat) -> nat {
    pow2((32 - p) as nat)
}

/// The first address of the network of `ip` with prefix `p`.
pub open spec fn network_base(ip: u32, p: nat) -> nat {
    ((ip as nat) / block_size(p)) * block_size(p)
}

/// The host addresses of a network as a first address and a count: for a
/// prefix up to 30 all but the network and broadcast addresses; for /31
/// both addresses (point-to-point links); for /32 the one address.
pub open spec fn host_span(ip: u32, p: nat) -> (nat, nat) {
    if p <= 30 {
        ((network_base(ip, p) + 1) as nat, (block_size(p) - 2) as nat)
    } else if p == 31 {
        (network_base(ip, p), 2)
    } else {
        (ip as nat, 1)
    }
}

/// A run of consecutive IPv4 addresses.
#[derive(Clone, Copy, Debug, PartialEq, Eq, Structural)]
pub struct HostRange {
    pub first: u32,
    pub count: u64,
}

impl HostRange {
    /// The run does not pass the last IPv4 address.
    pub open spec fn wf(&self) -> bool {
        self.first + self.count <= 0x1_0000_0000
    }

    /// The `i`-th address of the run.
    pub fn address(&self, i: u64) -> (a: u32)
        requires
            self.wf(),
            i < self.count,
        ensures
            a == self.first + i,
    {
        (self.first as u64 + i) as u32
    }
}

/// Unit type of the discovery worker's computing steps.
pub struct NetworkScanner;

/// The text of a CIDR refused by the discovery worker.
pub open spec fn invalid_cidr_message(v: Seq<char>) -> Seq<char> {
    "Invalid CIDR notation: "@ + v
}

impl NetworkScanner {
    /// The host addresses of an IPv4 network in CIDR notation, or
    /// `Invalid CIDR notation: <v>` for a text that is no such network.
    pub fn parse_network(network: &str) -> (r: Result<HostRange, String>)
        ensures
            cidr_of(network@) is None ==> r is Err && r->Err_0@ == invalid_cidr_message(network@),
            cidr_of(network@) is Some ==> r is Ok && {
                let (ip, p) = cidr_of(network@)->0;
                let span = host_span(ip, p as nat);
                &&& r->Ok_0.wf()
                &&& r->Ok_0.first == span.0
                &&& r->Ok_0.count == span.1
            },
    {
        match parse_cidr(network) {
            None => {
                let mut msg = text_of("Invalid CIDR notation: ");
                push_text(&mut msg, network);
                Err(msg)
            },
            Some((ip, p)) => Ok(Self::span_of(ip, p)),
        }
    }

    /// The host addresses of the network of `ip` with prefix `p`.
    pub fn span_of(ip: u32, p: u8) -> (r: HostRange)
        requires
            p <= 32,
        ensures
            r.wf(),
            r.first == host_span(ip, p as nat).0,
            r.count == host_span(ip, p as nat).1,
    {
        if p == 32 {
            return HostRange { first: ip, count: 1 };
        }
        let shift: u64 = 32 - p as u64;
        let mut size: u64 = 1;
        let mut k: u64 = 0;
        proof {
            lemma_pow2_32();
        }
        while k < shift
            invariant
                k <= shift,
                shift == 32 - p,
                size == pow2(k as nat),
                pow2(32) == 0x1_0000_0000,
            decreases shift - k,
        {
            proof {
                lemma_pow2_add((k + 1) as nat, (32 - (k + 1)) as nat);
                lemma_pow2_positive((32 - (k + 1)) as nat);
                assert(pow2((k + 1) as nat) <= pow2(32)) by (nonlinear_arith)
                    requires
                        pow2(32) == pow2((k + 1) as nat) * pow2((32 - (k + 1)) as nat),
                        pow2((32 - (k + 1)) as nat) >= 1,
                ;
                assert(pow2((k + 1) as nat) == 2 * pow2(k as nat));
            }
            size = size * 2;
            k = k + 1;
        }
        let ghost q = pow2(p as nat);
        proof {
            lemma_pow2_positive(k as nat);
            lemma_pow2_add((32 - p) as nat, p as nat);
            lemma_pow2_positive(p as nat);
            assert(size * q == 0x1_0000_0000);
            assert((ip as nat) / (size as nat) < q) by (nonlinear_arith)
                requires
                    (ip as nat) < 0x1_0000_0000,
                    size * q == 0x1_0000_0000,
                    size >= 1,
            ;
            assert(((ip as nat) / (size as nat)) * (size as nat) + (size as nat) <= 0x1_0000_0000)
                by (nonlinear_arith)
                requires
                    (ip as nat) / (size as nat) < q,
                    size * q == 0x1_0000_0000,
                    size >= 1,
            ;
            assert(((ip as nat) / (size as nat)) * (size as nat) <= ip as nat) by (nonlinear_arith)
                requires
                    size >= 1,
            ;
        }
        let base: u64 = (ip as u64 / size) * size;
        if p <= 30 {
            proof {
                assert(size >= 4) by {
                    lemma_pow2_add(2, (30 - p) as nat);
                    lemma_pow2_positive((30 - p) as nat);
                    reveal_with_fuel(pow2, 3);
                    assert(pow2((32 - p) as nat) >= 4) by (nonlinear_arith)
                        requires
                            pow2((32 - p) as nat) == pow2(2) * pow2((30 - p) as nat),
                            pow2(2) == 4,
                            pow2((30 - p) as nat) >= 1,
                    ;
                }
            }
            HostRange { first: (base + 1) as u32, count: size - 2 }
        } else {
            HostRange { first: base as u32, count: 2 }
        }
    }

    /// The ports whose TCP connect tells that a host is alive, tried in this order.
    pub fn probe_ports() -> (r: Vec<u16>)
        ensures
            r@ == seq![80u16, 443, 22, 21, 445, 3389],
    {
        vec![80, 443, 22, 21, 445, 3389]
    }

    /// The network a discovery job scans: the job's own target, else the
    /// configured `target_network`, else `192.168.68.0/24`.
    pub fn discovery_target(target: &Option<String>, config: &ScanConfig) -> (r: String)
        ensures
            target is Some ==> r@ == target->0@,
            target is None && config.target_network is Some ==> r@ == config.target_network->0@,
            target is None && config.target_network is None ==> r@ == "192.168.68.0/24"@,
    {
        match target {
            Some(t) => text_of(t.as_str()),
            None => match &config.target_network {
                Some(t) => text_of(t.as_str()),
                None => text_of("192.168.68.0/24"),
            },
        }
    }
}

/// Whether a job-creation request is refused: a discovery job needs a
/// target that is an IPv4 CIDR.
pub open spec fn request_refused(job_type: Seq<char>, target: Option<Seq<char>>) -> bool {
    kind_of(job_type) == JobKind::Discovery && (target is None || cidr_of(target->0) is None)
}

impl CreateJobRequest {
    /// Checks a job-creation request: `Err` with a message exactly when it
    /// is a discovery request without a valid CIDR target.
    pub fn validate(&self) -> (r: Result<(), String>)
        ensures
            r is Err <==> request_refused(
                self.job_type@,
                match self.target {
                    Some(t) => Some(t@),
                    None => None,
                },
            ),
    {
        if job_kind(self.job_type.as_str()) != JobKind::Discovery {
            return Ok(());
        }
        match &self.target {
            None => Err(text_of("target is required for discovery jobs")),
            Some(t) => match parse_cidr(t.as_str()) {
                Some(_) => Ok(()),
                None => {
                    let mut msg = text_of("Invalid CIDR notation: ");
                    push_text(&mut msg, t.as_str());
                    Err(msg)
                },
            },
        }
    }
}

/// The protocol name guessed from a port number.
pub open spec fn protocol_of(port: u16) -> Seq<char> {
    if port == 80 || port == 8080 || port == 8443 {
        "http"@
    } else if port == 443 {
        "https"@
    } else if port == 22 {
        "ssh"@
    } else if port == 21 || port == 20 {
        "ftp"@
    } else if port == 25 || port == 465 || port == 587 {
        "smtp"@
    } else if port == 110 || port == 995 {
        "pop3"@
    } else if port == 143 || port == 993 {
        "imap"@
    } else if port == 3306 {
        "mysql"@
    } else if port == 5432 {
        "postgresql"@
    } else if port == 1433 {
        "mssql"@
    } else if port == 27017 {
        "mongodb"@
    } else if port == 139 || port == 445 || port == 135 {
        "smb"@
    } else if port == 3389 {
        "rdp"@
    } else if port == 53 {
        "dns"@
    } else if port == 161 {
        "snmp"@
    } else if port == 1521 {
        "oracle"@
    } else if port == 6379 {
        "redis"@
    } else if port == 9200 {
        "elasticsearch"@
    } else {
        "unknown"@
    }
}

/// What a banner grab sends before it reads.
#[derive(Clone, Copy, Debug, PartialEq, Eq, Structural)]
pub enum BannerProbe {
    /// `HEAD / HTTP/1.0` and an empty line.
    HttpHead,
    /// `HELP` and a line end.
    FtpHelp,
    /// Nothing: the service speaks first.
    ReadOnly,
}

/// Unit type of the port-scan worker's computing steps.
pub struct PortScanner;

/// The ports scanned when the configuration names none.
pub open spec fn common_port_list() -> Seq<u16> {
    seq![
        80u16, 443, 8080, 8443, 22, 23, 21, 20, 25, 110, 143, 465, 587, 993, 995, 3306, 5432,
        1433, 27017, 139, 445, 135, 3389, 53, 161, 1521, 6379, 9200,
    ]
}

/// The status of an open port.
pub open spec fn open_port_view(port: u16) -> PortView {
    (port, protocol_of(port), "open"@)
}

impl PortScanner {
    /// The ports scanned when the configuration names none: web, remote
    /// shells, file transfer, mail, databases, Windows services and others.
    pub fn common_ports() -> (r: Vec<u16>)
        ensures
            r@ == common_port_list(),
    {
        let r: Vec<u16> = vec![
            80, 443, 8080, 8443, 22, 23, 21, 20, 25, 110, 143, 465, 587, 993, 995, 3306, 5432,
            1433, 27017, 139, 445, 135, 3389, 53, 161, 1521, 6379, 9200,
        ];
        proof {
            assert(r@ =~= common_port_list());
        }
        r
    }

    /// The ports to scan: the configured `port_range`, else the common ports.
    pub fn port_range(config: &ScanConfig) -> (r: Vec<u16>)
        ensures
            config.port_range is Some ==> r@ == config.port_range->0@,
            config.port_range is None ==> r@ == common_port_list(),
    {
        match &config.port_range {
            Some(ports) => {
                let mut r: Vec<u16> = Vec::new();
                let n = ports.len();
                let mut i: usize = 0;
                while i < n
                    invariant
                        n == ports@.len(),
                        i <= n,
                        r@ == ports@.take(i as int),
                    decreases n - i,
                {
                    r.push(ports[i]);
                    proof {
                        assert(ports@.take(i + 1) =~= ports@.take(i as int).push(ports@[i as int]));
                    }
                    i += 1;
                }
                proof {
                    assert(ports@.take(n as int) =~= ports@);
                }
                r
            },
            None => Self::common_ports(),
        }
    }

    /// The protocol name guessed from a port number (`unknown` when none fits).
    pub fn infer_protocol(port: u16) -> (r: String)
        ensures
            r@ == protocol_of(port),
    {
        let name = if port == 80 || port == 8080 || port == 8443 {
            "http"
        } else if port == 443 {
            "https"
        } else if port == 22 {
            "ssh"
        } else if port == 21 || port == 20 {
            "ftp"
        } else if port == 25 || port == 465 || port == 587 {
            "smtp"
        } else if port == 110 || port == 995 {
            "pop3"
        } else if port == 143 || port == 993 {
            "imap"
        } else if port == 3306 {
            "mysql"
        } else if port == 5432 {
            "postgresql"
        } else if port == 1433 {
            "mssql"
        } else if port == 27017 {
            "mongodb"
        } else if port == 139 || port == 445 || port == 135 {
            "smb"
        } else if port == 3389 {
            "rdp"
        } else if port == 53 {
            "dns"
        } else if port == 161 {
            "snmp"
        } else if port == 1521 {
            "oracle"
        } else if port == 6379 {
            "redis"
        } else if port == 9200 {
            "elasticsearch"
        } else {
            "unknown"
        };
        text_of(name)
    }

    /// What to send for a banner: an HTTP `HEAD` on 80, 443, 8000 and 8080,
    /// `HELP` on 21, nothing elsewhere.
    pub fn banner_probe(port: u16) -> (r: BannerProbe)
        ensures
            r == if port == 80 || port == 8080 || port == 8000 || port == 443 {
                BannerProbe::HttpHead
            } else if port == 21 {
                BannerProbe::FtpHelp
            } else {
                BannerProbe::ReadOnly
            },
    {
        if port == 80 || port == 8080 || port == 8000 || port == 443 {
            BannerProbe::HttpHead
        } else if port == 21 {
            BannerProbe::FtpHelp
        } else {
            BannerProbe::ReadOnly
        }
    }

    /// Cleans a raw banner: carriage returns dropped, cut into lines, each
    /// trimmed, empty lines dropped, the first four joined with ` | `.
    pub fn prettify_banner(raw: &str) -> (r: String)
        ensures
            r@ == pretty_banner(raw@),
    {
        let n = raw.unicode_len();
        let mut out = String::new();
        let mut line: Vec<char> = Vec::new();
        let mut count: usize = 0;
        let ghost mut done: Seq<Seq<char>> = seq![];
        proof {
            assert(raw@.take(0) =~= Seq::<char>::empty());
            assert(lines_of(strip_cr(raw@.take(0))) =~= done.push(line@));
        }
        let mut i: usize = 0;
        while i < n
            invariant
                n == raw@.len(),
                i <= n,
                lines_of(strip_cr(raw@.take(i as int))) == done.push(line@),
                out@ == join_bar(kept_lines(done)),
                count == kept_lines(done).len(),
                count <= 4,
            decreases n - i,
        {
            let c = raw.get_char(i);
            let ghost t = strip_cr(raw@.take(i as int));
            proof {
                assert(raw@.take(i + 1).drop_last() =~= raw@.take(i as int));
                assert(raw@.take(i + 1).last() == c);
            }
            if c == '\r' {
            } else if c == '\n' {
                proof {
                    assert(strip_cr(raw@.take(i + 1)) == t.push(c));
                    assert(t.push(c).drop_last() =~= t);
                    let next = done.push(line@);
                    assert(next.drop_last() =~= done);
                }
                count = flush_line(&mut out, &line, count, Ghost(kept_lines(done)));
                proof {
                    done = done.push(line@);
                }
                line = Vec::new();
                proof {
                    assert(lines_of(t.push(c)) =~= done.push(line@));
                }
            } else {
                let ghost before = line@;
                line.push(c);
                proof {
                    assert(strip_cr(raw@.take(i + 1)) == t.push(c));
                    assert(t.push(c).drop_last() =~= t);
                    lemma_lines_nonempty(t);
                    let l = lines_of(t);
                    assert(l.last() == before);
                    assert(l.update(l.len() - 1, l.last().push(c)) =~= done.push(line@));
                }
            }
            i += 1;
        }
        proof {
            assert(raw@.take(n as int) =~= raw@);
            lemma_kept_len(done);
            let all = done.push(line@);
            assert(all.drop_last() =~= done);
        }
        flush_line(&mut out, &line, count, Ghost(kept_lines(done)));
        out
    }

    /// The host record of a port scan of `ip`: one `open` port per number
    /// of `open` (protocol guessed), sorted, and the banners once each. The
    /// store merges it into the host it holds.
    pub fn scanned_host(ip: String, open: &Vec<u16>, banners: &Vec<String>) -> (h: Host)
        ensures
            h.wf(),
            h.ip@ == ip@,
            forall|q: PortView| #[trigger] has_entry(h.port_views(), q) <==> is_open_record(open@, q),
            h.banner_views() == banners_merged(seq![], non_empty(banners@.map_values(|b: String| b@))),
    {
        let mut h = Host::new(ip);
        let n = open.len();
        let mut i: usize = 0;
        proof {
            assert forall|q: PortView| #[trigger] has_entry(h.port_views(), q) <==> is_open_record(open@.take(0), q) by {
                if is_open_record(open@.take(0), q) {
                    let k = choose|k: int| 0 <= k < open@.take(0).len() && q == open_port_view(#[trigger] open@.take(0)[k]);
                }
            }
        }
        while i < n
            invariant
                n == open@.len(),
                i <= n,
                h.wf(),
                h.ip@ == ip@,
                h.banners@.len() == 0,
                forall|q: PortView| #[trigger] has_entry(h.port_views(), q) <==> is_open_record(open@.take(i as int), q),
            decreases n - i,
        {
            let ghost cur = h.port_views();
            let port = Self::open_port(open[i]);
            let ghost p = port@;
            h.add_port(port.number, port.protocol.as_str(), port.status.as_str());
            proof {
                let t0 = open@.take(i as int);
                let t1 = open@.take(i + 1);
                assert(t1 =~= t0.push(open@[i as int]));
                assert forall|q: PortView| #[trigger] has_entry(h.port_views(), q) <==> is_open_record(t1, q) by {
                    lemma_add_entries(cur, h.port_views(), p, q);
                    if is_open_record(t1, q) {
                        let k = choose|k: int| 0 <= k < t1.len() && q == open_port_view(#[trigger] t1[k]);
                        if k < i {
                            assert(t0[k] == t1[k]);
                            assert(is_open_record(t0, q));
                        }
                    }
                    if is_open_record(t0, q) {
                        let k = choose|k: int| 0 <= k < t0.len() && q == open_port_view(#[trigger] t0[k]);
                        assert(t1[k] == t0[k]);
                        assert(is_open_record(t1, q));
                    }
                    if q == p {
                        assert(t1[i as int] == open@[i as int]);
                        assert(is_open_record(t1, q));
                    }
                }
            }
            i += 1;
        }
        proof {
            assert(open@.take(n as int) =~= open@);
        }
        let ghost views = banners@.map_values(|b: String| b@);
        let m = banners.len();
        let mut k: usize = 0;
        proof {
            assert(h.banner_views() =~= Seq::<Seq<char>>::empty());
            assert(views.take(0) =~= Seq::<Seq<char>>::empty());
        }
        while k < m
            invariant
                m == banners@.len(),
                k <= m,
                views == banners@.map_values(|b: String| b@),
                h.wf(),
                h.ip@ == ip@,
                forall|q: PortView| #[trigger] has_entry(h.port_views(), q) <==> is_open_record(open@, q),
                h.banner_views() == banners_merged(seq![], non_empty(views.take(k as int))),
            decreases m - k,
        {
            proof {
                assert(views.take(k + 1).drop_last() =~= views.take(k as int));
                assert(views.take(k + 1).last() == banners@[k as int]@);
            }
            if banners[k].as_str().unicode_len() > 0 {
                let ghost before = non_empty(views.take(k as int));
                h.add_banner(text_of(banners[k].as_str()));
                proof {
                    assert(non_empty(views.take(k + 1)).drop_last() =~= before);
                }
            }
            k += 1;
        }
        proof {
            assert(views.take(m as int) =~= views);
        }
        h
    }

    /// The record of an open port: its number, guessed protocol, `open`.
    pub fn open_port(port: u16) -> (r: Port)
        ensures
            r@ == open_port_view(port),
    {
        Port { number: port, protocol: Self::infer_protocol(port), status: text_of("open") }
    }
}

/// `s` without its carriage returns.
pub open spec fn strip_cr(s: Seq<char>) -> Seq<char>
    decreases s.len(),
{
    if s.len() == 0 {
        s
    } else if s.last() == '\r' {
        strip_cr(s.drop_last())
    } else {
        strip_cr(s.drop_last()).push(s.last())
    }
}

/// `s` cut at each line feed: one line more than line feeds.
pub open spec fn lines_of(s: Seq<char>) -> Seq<Seq<char>>
    decreases s.len(),
{
    if s.len() == 0 {
        seq![Seq::<char>::empty()]
    } else {
        let r = lines_of(s.drop_last());
        if s.last() == '\n' {
            r.push(Seq::<char>::empty())
        } else {
            r.update(r.len() - 1, r.last().push(s.last()))
        }
    }
}

/// `s` without trailing white space.
pub open spec fn trim_end(s: Seq<char>) -> Seq<char>
    decreases s.len(),
{
    if s.len() > 0 && is_space(s.last()) {
        trim_end(s.drop_last())
    } else {
        s
    }
}

/// `s` without leading white space.
pub open spec fn trim_start(s: Seq<char>) -> Seq<char>
    decreases s.len(),
{
    if s.len() > 0 && is_space(s[0]) {
        trim_start(s.drop_first())
    } else {
        s
    }
}

pub open spec fn trim(s: Seq<char>) -> Seq<char> {
    trim_start(trim_end(s))
}

/// The kept lines after one more line: its trimmed text, if not empty and
/// fewer than four are kept.
pub open spec fn keep_line(kept: Seq<Seq<char>>, line: Seq<char>) -> Seq<Seq<char>> {
    if trim(line).len() > 0 && kept.len() < 4 {
        kept.push(trim(line))
    } else {
        kept
    }
}

/// The first four non-empty trimmed lines.
pub open spec fn kept_lines(lines: Seq<Seq<char>>) -> Seq<Seq<char>>
    decreases lines.len(),
{
    if lines.len() == 0 {
        seq![]
    } else {
        keep_line(kept_lines(lines.drop_last()), lines.last())
    }
}

/// The parts joined with ` | `.
pub open spec fn join_bar(parts: Seq<Seq<char>>) -> Seq<char>
    decreases parts.len(),
{
    if parts.len() == 0 {
        seq![]
    } else if parts.len() == 1 {
        parts[0]
    } else {
        join_bar(parts.drop_last()) + seq![' ', '|', ' '] + parts.last()
    }
}

/// A raw banner cleaned: carriage returns dropped, cut into lines, each
/// line trimmed, empty lines dropped, the first four joined with ` | `.
pub open spec fn pretty_banner(raw: Seq<char>) -> Seq<char> {
    join_bar(kept_lines(lines_of(strip_cr(raw))))
}

proof fn lemma_lines_nonempty(s: Seq<char>)
    ensures
        lines_of(s).len() >= 1,
    decreases s.len(),
{
    if s.len() > 0 {
        lemma_lines_nonempty(s.drop_last());
    }
}

proof fn lemma_kept_len(lines: Seq<Seq<char>>)
    ensures
        kept_lines(lines).len() <= 4,
    decreases lines.len(),
{
    if lines.len() > 0 {
        lemma_kept_len(lines.drop_last());
    }
}

/// The trimmed text of `line`, as the bounds `(b, e)` of a slice of it.
fn trim_bounds(line: &Vec<char>) -> (r: (usize, usize))
    ensures
        r.0 <= r.1 <= line@.len(),
        line@.subrange(r.0 as int, r.1 as int) == trim(line@),
{
    let mut e = line.len();
    proof {
        assert(line@.take(e as int) =~= line@);
    }
    while e > 0 && space(line[e - 1])
        invariant
            e <= line@.len(),
            trim_end(line@) == trim_end(line@.take(e as int)),
        decreases e,
    {
        proof {
            assert(line@.take(e as int).drop_last() =~= line@.take(e - 1));
        }
        e -= 1;
    }
    let ghost t = line@.take(e as int);
    proof {
        assert(trim_end(t) == t);
        assert(t.subrange(0, e as int) =~= t);
    }
    let mut b: usize = 0;
    while b < e && space(line[b])
        invariant
            b <= e,
            e <= line@.len(),
            t == line@.take(e as int),
            trim_start(t) == trim_start(t.subrange(b as int, e as int)),
        decreases e - b,
    {
        proof {
            assert(t.subrange(b as int, e as int).drop_first() =~= t.subrange(b + 1, e as int));
        }
        b += 1;
    }
    proof {
        assert(line@.subrange(b as int, e as int) =~= t.subrange(b as int, e as int));
    }
    (b, e)
}

/// Appends the kept form of a finished line to `out`.
fn flush_line(out: &mut String, line: &Vec<char>, count: usize, kept: Ghost<Seq<Seq<char>>>) -> (c: usize)
    requires
        old(out)@ == join_bar(kept@),
        kept@.len() == count,
        count <= 4,
    ensures
        final(out)@ == join_bar(keep_line(kept@, line@)),
        c == keep_line(kept@, line@).len(),
        c <= 4,
{
    let (b, e) = trim_bounds(line);
    if b < e && count < 4 {
        let ghost text = line@.subrange(b as int, e as int);
        if count > 0 {
            push_char(out, ' ');
            push_char(out, '|');
            push_char(out, ' ');
        }
        let ghost start = out@;
        let mut i: usize = b;
        while i < e
            invariant
                b <= i <= e,
                e <= line@.len(),
                out@ == start + line@.subrange(b as int, i as int),
            decreases e - i,
        {
            push_char(out, line[i]);
            proof {
                assert(line@.subrange(b as int, i + 1) =~= line@.subrange(b as int, i as int).push(
                    line@[i as int],
                ));
            }
            i += 1;
        }
        proof {
            let next = kept@.push(text);
            assert(next.drop_last() =~= kept@);
            if count == 0 {
                assert(join_bar(next) == next[0]);
                assert(out@ =~= text);
            } else {
                assert(out@ =~= join_bar(kept@) + seq![' ', '|', ' '] + text);
            }
        }
        count + 1
    } else {
        count
    }
}

/// The non-empty texts of `s`, in order.
pub open spec fn non_empty(s: Seq<Seq<char>>) -> Seq<Seq<char>>
    decreases s.len(),
{
    if s.len() == 0 {
        seq![]
    } else if s.last().len() == 0 {
        non_empty(s.drop_last())
    } else {
        non_empty(s.drop_last()).push(s.last())
    }
}

/// Whether `q` is the record of one of the `open` ports.
pub open spec fn is_open_record(open: Seq<u16>, q: PortView) -> bool {
    exists|k: int| 0 <= k < open.len() && q == open_port_view(#[trigger] open[k])
}

/// The IPs a port scan visits, in store order, or the failure when the
/// store holds no host.
pub fn port_scan_targets(hosts: &Vec<Host>) -> (r: Result<Vec<String>, String>)
    ensures
        hosts@.len() == 0 ==> r is Err && r->Err_0@ == "No hosts available to scan. Run discovery first."@,
        hosts@.len() > 0 ==> r is Ok && r->Ok_0@.len() == hosts@.len() && forall|i: int|
            0 <= i < hosts@.len() ==> (#[trigger] r->Ok_0@[i])@ == hosts@[i].ip@,
{
    if hosts.len() == 0 {
        return Err(no_hosts_error());
    }
    let mut r: Vec<String> = Vec::new();
    let n = hosts.len();
    let mut i: usize = 0;
    while i < n
        invariant
            n == hosts@.len(),
            i <= n,
            r@.len() == i,
            forall|k: int| 0 <= k < i ==> (#[trigger] r@[k])@ == hosts@[k].ip@,
        decreases n - i,
    {
        r.push(text_of(hosts[i].ip.as_str()));
        i += 1;
    }
    Ok(r)
}

} // verus!
