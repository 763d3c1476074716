//! The DNS53 proxy's decisions: allow, block, cache, upstream.
//!
//! Sockets, timers and the inflight limit belong to the caller. A query goes
//! through `handle_query`, which either answers it at once or hands back a
//! `PendingQuery`; the caller asks an upstream server (in the order
//! `upstream_order` gives) and passes the answer, or its absence, to
//! `finish_query`.

use vstd::prelude::*;
use vstd::utf8::*;
use hickory_proto::op::{Message, MessageType, OpCode, ResponseCode};
use crate::cache::{bytes_opt, lookup, stored, CacheKey, DnsCache, KeyView};
use crate::clock::now_unix;
use crate::config::{strs, Config};
use crate::metrics::{bump, inc, Metrics};
use crate::normalize::{is_local_bypass, is_local_bypass_spec, normalize_domain, normalize_spec};
use crate::recent::{record_effect, RecentBlocks};
use crate::text::{chars_of, string_from_chars};
use crate::trie::{bytes_equal, Allowlist, Blocklist};

verus! {

// ---------------------------------------------------------------------------
// What the proxy reads of a DNS message. Decoding is hickory-proto's.
// ---------------------------------------------------------------------------

/// One question: the name in ASCII presentation form (`Name::to_ascii`, with
/// the root dot), the record type and the class.
pub struct Question {
    pub name: String,
    pub qtype: u16,
    pub qclass: u16,
}

pub struct QuestionView {
    pub name: Seq<char>,
    pub qtype: u16,
    pub qclass: u16,
}

impl View for Question {
    type V = QuestionView;

    open spec fn view(&self) -> QuestionView {
        QuestionView { name: self.name@, qtype: self.qtype, qclass: self.qclass }
    }
}

/// The header of a message, its questions and its EDNS `DO` bit.
pub struct MessageHead {
    pub id: u16,
    /// QR: the message is a response.
    pub is_response: bool,
    /// The opcode; 0 is a standard query.
    pub opcode: u8,
    pub truncated: bool,
    pub recursion_desired: bool,
    /// The response code, joined with the EDNS extended bits.
    pub rcode: u16,
    pub dnssec_ok: bool,
    pub questions: Vec<Question>,
}

pub struct HeadView {
    pub id: u16,
    pub is_response: bool,
    pub opcode: u8,
    pub truncated: bool,
    pub recursion_desired: bool,
    pub rcode: u16,
    pub dnssec_ok: bool,
    pub questions: Seq<QuestionView>,
}

impl View for MessageHead {
    type V = HeadView;

    open spec fn view(&self) -> HeadView {
        HeadView {
            id: self.id,
            is_response: self.is_response,
            opcode: self.opcode,
            truncated: self.truncated,
            recursion_desired: self.recursion_desired,
            rcode: self.rcode,
            dnssec_ok: self.dnssec_ok,
            questions: self.questions@.map_values(|q: Question| q@),
        }
    }
}

/// The records of a message: for each answer record its CNAME target in ASCII
/// presentation form, if it is a CNAME, and the TTL of every answer, authority
/// and additional record (the EDNS OPT record is not one of them).
pub struct MessageRecords {
    pub cname_targets: Vec<Option<String>>,
    pub ttls: Vec<u32>,
}

pub struct RecordsView {
    pub cname_targets: Seq<Option<Seq<char>>>,
    pub ttls: Seq<u32>,
}

pub open spec fn opt_chars(o: Option<String>) -> Option<Seq<char>> {
    match o {
        Some(s) => Some(s@),
        None => None,
    }
}

impl View for MessageRecords {
    type V = RecordsView;

    open spec fn view(&self) -> RecordsView {
        RecordsView {
            cname_targets: self.cname_targets@.map_values(|o: Option<String>| opt_chars(o)),
            ttls: self.ttls@,
        }
    }
}

/// The head and records hickory-proto decodes from `bytes`, or `None` when it
/// refuses them.
pub uninterp spec fn decoded_message(bytes: Seq<u8>) -> Option<(HeadView, RecordsView)>;

/// The head of the decoded message.
pub open spec fn decoded_head(bytes: Seq<u8>) -> Option<HeadView> {
    match decoded_message(bytes) {
        Some(m) => Some(m.0),
        None => None,
    }
}

/// The records of the decoded message.
pub open spec fn decoded_records(bytes: Seq<u8>) -> Option<RecordsView> {
    match decoded_message(bytes) {
        Some(m) => Some(m.1),
        None => None,
    }
}

/// `Message::from_vec`, read for its header, questions and EDNS `DO` bit.
#[verifier::external_body]
fn decode_head(bytes: &[u8]) -> (r: Option<MessageHead>)
    ensures
        match r {
            Some(h) => decoded_message(bytes@) matches Some((hv, _)) && hv == h@,
            None => decoded_message(bytes@) is None,
        },
{
    let m = Message::from_vec(bytes).ok()?;
    let questions = m.queries().iter().map(|q| Question {
        name: q.name().to_ascii(), qtype: q.query_type().into(), qclass: q.query_class().into(),
    });
    Some(MessageHead {
        id: m.id(), is_response: matches!(m.message_type(), MessageType::Response),
        opcode: m.op_code().into(), truncated: m.truncated(), recursion_desired: m.recursion_desired(),
        rcode: m.response_code().into(),
        dnssec_ok: m.extensions().as_ref().is_some_and(|e| e.flags().dnssec_ok),
        questions: questions.collect(),
    })
}

/// `Message::from_vec`, read for its records: the same decoding as
/// `decode_head`, taken apart in a second, shorter conversion.
#[verifier::external_body]
fn decode_records(bytes: &[u8]) -> (r: Option<MessageRecords>)
    ensures
        match r {
            Some(x) => decoded_message(bytes@) matches Some((_, rv)) && rv == x@,
            None => decoded_message(bytes@) is None,
        },
{
    let m = Message::from_vec(bytes).ok()?;
    let cnames = m.answers().iter().map(|r| r.data().as_cname().map(|c| c.0.to_ascii()));
    let all = m.answers().iter().chain(m.name_servers()).chain(m.additionals());
    Some(MessageRecords { cname_targets: cnames.collect(), ttls: all.map(|r| r.ttl()).collect() })
}

/// The 12-byte header of a reply to a standard query with no sections: the id,
/// QR and the `RD` bit, then `RA` and the response code, then four zero counts.
pub open spec fn reply_header(id: u16, rcode: u16, rd: bool, ra: bool) -> Seq<u8> {
    seq![
        (id / 256) as u8,
        (id % 256) as u8,
        if rd { 0x81u8 } else { 0x80u8 },
        ((if ra { 0x80int } else { 0int }) + rcode % 16) as u8,
        0u8, 0u8, 0u8, 0u8, 0u8, 0u8, 0u8, 0u8
    ]
}

/// A `Message` that is a response to a standard query, with the given id,
/// response code and flags and no sections, encoded (`Message::to_vec`; an
/// encoding error gives no bytes). hickory emits the header alone, the counts
/// being those of the empty sections; for codes below 16 no EDNS record is needed.
#[verifier::external_body]
fn encode_reply(id: u16, rcode: u16, rd: bool, ra: bool) -> (r: Vec<u8>)
    ensures
        rcode < 16 ==> r@ == reply_header(id, rcode, rd, ra),
{
    let mut msg = Message::new();
    msg.set_id(id).set_message_type(MessageType::Response).set_op_code(OpCode::Query);
    let code: ResponseCode = rcode.into();
    msg.set_response_code(code);
    msg.set_recursion_available(ra).set_recursion_desired(rd);
    msg.to_vec().unwrap_or_default()
}

/// The reply `encode_question_reply` makes for `request`.
pub uninterp spec fn question_reply(request: Seq<u8>, rcode: u16, ra: bool) -> Seq<u8>;

/// Decodes `request` and encodes a response to it that carries its id, its
/// `RD` bit and its questions, with the given response code and `RA` bit
/// (`Message::to_vec`; an encoding error gives no bytes, as does a request that
/// does not decode). What hickory emits starts with the header.
#[verifier::external_body]
fn encode_question_reply(request: &[u8], rcode: u16, ra: bool) -> (r: Vec<u8>)
    ensures
        r@ == question_reply(request@, rcode, ra),
        decoded_head(request@) is None ==> r@.len() == 0,
        decoded_head(request@) matches Some(h) ==> (rcode < 16 && r@.len() > 0 ==> r@.len() >= 12
            && r@.subrange(0, 4) == reply_header(h.id, rcode, h.recursion_desired, ra).subrange(0, 4)),
{
    let req = match Message::from_vec(request) {
        Ok(m) => m,
        Err(_) => return Vec::new(),
    };
    let mut msg = Message::new();
    msg.set_id(req.id()).set_message_type(MessageType::Response).set_op_code(OpCode::Query);
    let code: ResponseCode = rcode.into();
    msg.set_response_code(code);
    msg.set_recursion_available(ra).set_recursion_desired(req.recursion_desired());
    msg.add_queries(req.queries().iter().cloned());
    msg.to_vec().unwrap_or_default()
}

// ---------------------------------------------------------------------------
// Byte-level rewrites.
// ---------------------------------------------------------------------------

/// `m` with its transaction id set to `id` (messages shorter than two bytes are kept).
pub open spec fn with_id(m: Seq<u8>, id: u16) -> Seq<u8> {
    if m.len() >= 2 {
        m.update(0, (id / 256) as u8).update(1, (id % 256) as u8)
    } else {
        m
    }
}

pub fn set_message_id(msg: &mut Vec<u8>, id: u16)
    ensures
        final(msg)@ == with_id(old(msg)@, id),
{
    if msg.len() >= 2 {
        msg.set(0, (id / 256) as u8);
        msg.set(1, (id % 256) as u8);
    }
}

/// The NXDOMAIN answer to `request`: the request with QR set, TC cleared, and
/// the fourth byte replaced by RA set, Z/AD/CD cleared and RCODE 3. Requests
/// shorter than a header are reflected unchanged.
pub open spec fn nxdomain_spec(request: Seq<u8>) -> Seq<u8> {
    if request.len() < 12 {
        request
    } else {
        request.update(2, (request[2] | 0x80u8) & 0xfdu8).update(3, 0x83u8)
    }
}

/// A blocked answer is the request with four header bits changed, so the bytes
/// are reflected rather than re-encoded; the client's EDNS OPT stays as it was.
pub fn nxdomain_reflect(request: &[u8]) -> (r: Vec<u8>)
    ensures
        r@ == nxdomain_spec(request@),
{
    let mut out: Vec<u8> = Vec::new();
    let mut i: usize = 0;
    while i < request.len()
        invariant
            i <= request@.len(),
            out@ == request@.subrange(0, i as int),
        decreases request@.len() - i,
    {
        out.push(request[i]);
        i = i + 1;
        assert(out@ =~= request@.subrange(0, i as int));
    }
    assert(request@.subrange(0, request@.len() as int) =~= request@);
    if out.len() < 12 {
        return out;
    }
    let b2 = (out[2] | 0x80u8) & 0xfdu8;
    out.set(2, b2);
    // A literal, not a mask of the request's byte: masking would carry the
    // request's AD and CD bits into the synthetic answer.
    out.set(3, 0x83u8);
    out
}

/// The least TTL of the records, `None` when there are none.
pub open spec fn min_ttl_spec(ttls: Seq<u32>) -> Option<u32>
    decreases ttls.len(),
{
    if ttls.len() == 0 {
        None
    } else {
        match min_ttl_spec(ttls.drop_last()) {
            None => Some(ttls.last()),
            Some(m) => Some(if ttls.last() < m { ttls.last() } else { m }),
        }
    }
}

pub fn min_ttl(ttls: &Vec<u32>) -> (r: Option<u32>)
    ensures
        r == min_ttl_spec(ttls@),
{
    let mut min: Option<u32> = None;
    let mut i: usize = 0;
    while i < ttls.len()
        invariant
            i <= ttls@.len(),
            min == min_ttl_spec(ttls@.subrange(0, i as int)),
        decreases ttls@.len() - i,
    {
        let t = ttls[i];
        proof {
            let s = ttls@.subrange(0, i + 1);
            assert(s.drop_last() =~= ttls@.subrange(0, i as int));
            assert(s.last() == t);
        }
        min = match min {
            None => Some(t),
            Some(m) => Some(if t < m { t } else { m }),
        };
        i = i + 1;
    }
    assert(ttls@.subrange(0, ttls@.len() as int) =~= ttls@);
    min
}

/// The least TTL is no greater than any record's and is one of them.
pub proof fn min_ttl_is_least(ttls: Seq<u32>)
    requires
        ttls.len() > 0,
    ensures
        min_ttl_spec(ttls) is Some,
        forall|i: int| 0 <= i < ttls.len() ==> min_ttl_spec(ttls)->0 <= ttls[i],
        exists|i: int| 0 <= i < ttls.len() && min_ttl_spec(ttls)->0 == ttls[i],
    decreases ttls.len(),
{
    let m = min_ttl_spec(ttls)->0;
    let n = ttls.len() as int;
    if ttls.len() == 1 {
        assert(ttls.drop_last().len() == 0);
        assert(m == ttls[0]);
    } else {
        let d = ttls.drop_last();
        min_ttl_is_least(d);
        assert forall|i: int| 0 <= i < n implies m <= ttls[i] by {
            if i < n - 1 {
                assert(d[i] == ttls[i]);
            }
        }
        if ttls.last() < min_ttl_spec(d)->0 {
            assert(m == ttls[n - 1]);
        } else {
            let j = choose|j: int| 0 <= j < d.len() && min_ttl_spec(d)->0 == d[j];
            assert(m == ttls[j]);
        }
    }
}

/// A name without its root dot, if it has one.
pub open spec fn strip_root(name: Seq<char>) -> Seq<char> {
    if name.len() > 0 && name.last() == '.' {
        name.drop_last()
    } else {
        name
    }
}

pub fn strip_root_dot(name: &str) -> (r: String)
    ensures
        r@ == strip_root(name@),
{
    let mut c = chars_of(name);
    if c.len() > 0 && c[c.len() - 1] == '.' {
        c.pop();
        assert(c@ =~= name@.drop_last());
    }
    string_from_chars(c.as_slice())
}

/// The filtering view of a question name: its normalized form, or empty.
pub open spec fn filter_name(qname: Seq<char>) -> Seq<char> {
    match normalize_spec(qname) {
        Some(n) => n,
        None => Seq::empty(),
    }
}

/// A CNAME target that the lists block: its normalized name is blocked and not allowed.
pub open spec fn target_blocked(t: Seq<char>, allow: Allowlist, block: Blocklist) -> bool {
    match normalize_spec(strip_root(t)) {
        Some(n) => !allow.allows(encode_utf8(n)) && block.blocks(encode_utf8(n)),
        None => false,
    }
}

/// Some CNAME target in the answer chain is blocked.
pub open spec fn cname_blocks(targets: Seq<Option<Seq<char>>>, allow: Allowlist, block: Blocklist) -> bool {
    block.count() > 0 && exists|i: int|
        0 <= i < targets.len() && (#[trigger] targets[i] matches Some(t) && target_blocked(
            t,
            allow,
            block,
        ))
}

/// Whether any CNAME target in the answer is blocked. Trackers hide behind
/// first-party CNAMEs, so the question name alone misses them.
pub fn cname_blocked(targets: &Vec<Option<String>>, allow: &Allowlist, block: &Blocklist) -> (r: bool)
    requires
        allow.wf(),
        block.wf(),
    ensures
        r == cname_blocks(targets@.map_values(|o: Option<String>| opt_chars(o)), *allow, *block),
{
    let ghost ts = targets@.map_values(|o: Option<String>| opt_chars(o));
    if block.is_empty() {
        return false;
    }
    let mut i: usize = 0;
    while i < targets.len()
        invariant
            allow.wf(),
            block.wf(),
            block.count() > 0,
            ts == targets@.map_values(|o: Option<String>| opt_chars(o)),
            i <= targets@.len(),
            forall|k: int|
                0 <= k < i ==> !(#[trigger] ts[k] matches Some(t) && target_blocked(
                    t,
                    *allow,
                    *block,
                )),
        decreases targets@.len() - i,
    {
        assert(ts[i as int] == opt_chars(targets@[i as int]));
        match &targets[i] {
            Some(t) => {
                let name = strip_root_dot(t.as_str());
                match normalize_domain(name.as_str()) {
                    Some(n) => {
                        if !allow.contains_normalized(n.as_str()) && block.contains_normalized(
                            n.as_str(),
                        ) {
                            return true;
                        }
                    },
                    None => {},
                }
            },
            None => {},
        }
        i = i + 1;
    }
    false
}

// ---------------------------------------------------------------------------
// Filter state and the proxy.
// ---------------------------------------------------------------------------

/// The lists the proxy filters with, and what it reports about them.
pub struct FilterState {
    pub blocklist: Blocklist,
    pub allowlist: Allowlist,
    pub domain_count: usize,
    pub list_updated_at_unix: u64,
    pub last_update_error: Option<String>,
    /// Rolling window of what was blocked, for the "why is this site broken?" view.
    pub recent: RecentBlocks,
}

impl FilterState {
    pub open spec fn wf(&self) -> bool {
        self.allowlist.wf() && self.recent.wf() && self.blocklist.wf()
    }

    pub fn new(blocklist: Blocklist, allowlist: Allowlist) -> (r: Self)
        requires
            allowlist.wf(),
            blocklist.wf(),
        ensures
            r.wf(),
            r.blocklist == blocklist,
            r.allowlist == allowlist,
            r.domain_count == blocklist.count(),
            r.list_updated_at_unix == 0,
            r.last_update_error is None,
            r.recent@.len() == 0,
    {
        let count = blocklist.len();
        FilterState {
            blocklist,
            allowlist,
            domain_count: count,
            list_updated_at_unix: 0,
            last_update_error: None,
            recent: RecentBlocks::new(),
        }
    }

    /// Puts `bl` in place, recording its size and the time `now`.
    pub fn swap_blocklist_at(&mut self, bl: Blocklist, now: u64)
        ensures
            final(self).blocklist == bl,
            final(self).domain_count == bl.count(),
            final(self).list_updated_at_unix == now,
            final(self).allowlist == old(self).allowlist,
            final(self).last_update_error == old(self).last_update_error,
            final(self).recent == old(self).recent,
    {
        self.domain_count = bl.len();
        self.list_updated_at_unix = now;
        self.blocklist = bl;
    }

    /// Puts `bl` in place, recording its size and the time.
    pub fn swap_blocklist(&mut self, bl: Blocklist)
        ensures
            final(self).blocklist == bl,
            final(self).domain_count == bl.count(),
            final(self).allowlist == old(self).allowlist,
            final(self).last_update_error == old(self).last_update_error,
            final(self).recent == old(self).recent,
    {
        self.swap_blocklist_at(bl, now_unix());
    }
}

/// The DNS proxy's state: configuration, counters, lists and answer cache.
pub struct DnsProxy {
    pub config: Config,
    pub metrics: Metrics,
    pub filter: FilterState,
    pub cache: DnsCache,
    /// Index of the upstream that answered last. Without it a silently dropped
    /// primary would cost a full timeout on every cache miss.
    pub preferred_upstream: usize,
}

/// What became of a query.
pub enum QueryStep {
    /// Not a query the proxy answers: nothing is sent back.
    Drop,
    /// Send these bytes back.
    Reply(Vec<u8>),
    /// Ask upstream, then call `finish_query`.
    Forward(PendingQuery),
}

/// A query on its way upstream.
pub struct PendingQuery {
    /// The request as received; it goes upstream unchanged.
    pub request: Vec<u8>,
    pub id: u16,
    pub key: CacheKey,
    /// The normalized question name, empty when it does not normalize.
    pub domain: String,
    /// The lists are consulted for this name: filtering is on, and the name
    /// normalizes and is not a local one.
    pub filtering: bool,
    pub allowlisted: bool,
}

/// What the proxy does with a decoded request, before the cache has a say.
pub enum Plan {
    Ignore,
    FormErr { id: u16, rd: bool },
    Block { domain: Seq<char> },
    Lookup { id: u16, key: KeyView, domain: Seq<char>, allowlisted: bool },
}

pub open spec fn head_view(h: Option<MessageHead>) -> Option<HeadView> {
    match h {
        Some(x) => Some(x@),
        None => None,
    }
}

pub open spec fn records_view(r: Option<MessageRecords>) -> Option<RecordsView> {
    match r {
        Some(x) => Some(x@),
        None => None,
    }
}

/// The filtered name is one the lists are consulted for.
pub open spec fn checked(filtering: bool, domain: Seq<char>) -> bool {
    filtering && domain.len() > 0 && !is_local_bypass_spec(domain)
}

/// Only standard queries with exactly one question are answered: the reply is
/// cached under the first question's key, so a second question would let any
/// local process poison one name with the answer to another.
pub open spec fn plan_of(head: Option<HeadView>, filtering: bool, allow: Allowlist, block: Blocklist) -> Plan {
    match head {
        None => Plan::Ignore,
        Some(h) => if h.is_response || h.opcode != 0 {
            Plan::Ignore
        } else if h.questions.len() != 1 {
            Plan::FormErr { id: h.id, rd: h.recursion_desired }
        } else {
            let q = h.questions[0];
            let qname = strip_root(q.name);
            let domain = filter_name(qname);
            let allowed = checked(filtering, domain) && allow.allows(encode_utf8(domain));
            if checked(filtering, domain) && !allowed && block.blocks(encode_utf8(domain)) {
                Plan::Block { domain }
            } else {
                Plan::Lookup {
                    id: h.id,
                    key: (qname, q.qtype, q.qclass, h.dnssec_ok),
                    domain,
                    allowlisted: allowed,
                }
            }
        },
    }
}

impl DnsProxy {
    pub open spec fn wf(&self) -> bool {
        self.filter.wf() && self.cache.wf()
    }

    pub open spec fn preferred(&self) -> usize {
        self.preferred_upstream
    }

    /// Filtering is on in both the counters and the configuration.
    pub open spec fn filtering(&self) -> bool {
        self.metrics.filtering && self.config.daemon.enabled
    }

    pub fn new(config: Config, metrics: Metrics, filter: FilterState) -> (r: Self)
        requires
            filter.wf(),
        ensures
            r.wf(),
            r.config == config,
            r.metrics == metrics,
            r.filter == filter,
            r.cache.entries().len() == 0,
            r.cache.capacity() == (if config.cache.size > 1 { config.cache.size as nat } else { 1 }),
            r.cache.nx_ttl() == config.cache.nxdomain_ttl_secs,
            r.preferred() == 0,
    {
        let cache = DnsCache::new(config.cache.size, config.cache.nxdomain_ttl_secs);
        DnsProxy { config, metrics, filter, cache, preferred_upstream: 0 }
    }
}

/// Everything but the cache, the counters and the ring of recent blocks is as it was.
pub open spec fn same_setup(o: DnsProxy, n: DnsProxy) -> bool {
    &&& n.config == o.config
    &&& n.filter.blocklist == o.filter.blocklist
    &&& n.filter.allowlist == o.filter.allowlist
    &&& n.filter.domain_count == o.filter.domain_count
    &&& n.filter.list_updated_at_unix == o.filter.list_updated_at_unix
    &&& n.filter.last_update_error == o.filter.last_update_error
    &&& n.cache.capacity() == o.cache.capacity()
    &&& n.cache.nx_ttl() == o.cache.nx_ttl()
    &&& n.preferred() == o.preferred()
    &&& n.metrics.started_at_unix == o.metrics.started_at_unix
    &&& n.metrics.filtering == o.metrics.filtering
}

/// How the proxy answers `request`, decoded as `head`: the state goes from `o`
/// to `n` and the outcome is `step`.
pub open spec fn answered(o: DnsProxy, n: DnsProxy, request: Seq<u8>, head: Option<HeadView>, step: QueryStep) -> bool {
    let plan = plan_of(head, o.filtering(), o.filter.allowlist, o.filter.blocklist);
    &&& same_setup(o, n)
    &&& n.metrics.queries == inc(o.metrics.queries)
    &&& n.metrics.upstream_ok == o.metrics.upstream_ok
    &&& n.metrics.upstream_errors == o.metrics.upstream_errors
    &&& n.metrics.consecutive_upstream_failures == o.metrics.consecutive_upstream_failures
    &&& n.metrics.blocked == (if plan is Block { inc(o.metrics.blocked) } else { o.metrics.blocked })
    &&& match plan {
        Plan::Block { domain } => exists|t: u32| #[trigger] record_effect(o.filter.recent@, domain, t) == n.filter.recent@,
        _ => n.filter.recent == o.filter.recent,
    }
    &&& match plan {
        Plan::Ignore => {
            &&& step is Drop
            &&& n.cache.entries() == o.cache.entries()
            &&& n.metrics.cache_hit == o.metrics.cache_hit
            &&& n.metrics.cache_miss == o.metrics.cache_miss
        },
        Plan::FormErr { id, rd } => {
            &&& step matches QueryStep::Reply(m) && m@ == reply_header(id, 1, rd, true)
            &&& n.cache.entries() == o.cache.entries()
            &&& n.metrics.cache_hit == o.metrics.cache_hit
            &&& n.metrics.cache_miss == o.metrics.cache_miss
        },
        Plan::Block { domain } => {
            &&& step matches QueryStep::Reply(m) && m@ == nxdomain_spec(request)
            &&& n.cache.entries() == o.cache.entries()
            &&& n.metrics.cache_hit == o.metrics.cache_hit
            &&& n.metrics.cache_miss == o.metrics.cache_miss
        },
        Plan::Lookup { id, key, domain, allowlisted } => exists|r: Option<Seq<u8>>|
            #[trigger] lookup(o.cache.entries(), o.cache.nx_ttl(), key, r, n.cache.entries()) && match r {
                Some(m) => {
                    &&& step matches QueryStep::Reply(x) && x@ == with_id(m, id)
                    &&& n.metrics.cache_hit == inc(o.metrics.cache_hit)
                    &&& n.metrics.cache_miss == o.metrics.cache_miss
                },
                None => {
                    &&& step matches QueryStep::Forward(p) && p.request@ == request && p.id == id
                        && p.key.view_key() == key && p.domain@ == domain && p.filtering
                        == checked(o.filtering(), domain) && p.allowlisted == allowlisted
                    &&& n.metrics.cache_hit == o.metrics.cache_hit
                    &&& n.metrics.cache_miss == inc(o.metrics.cache_miss)
                },
            },
    }
}

impl DnsProxy {
    /// Answers `request`, which decodes as `head`: ignore it, refuse it, block
    /// it, serve it from the cache, or send it upstream.
    pub fn answer_request(&mut self, request: &[u8], head: Option<MessageHead>) -> (step: QueryStep)
        requires
            old(self).wf(),
        ensures
            final(self).wf(),
            answered(*old(self), *final(self), request@, head_view(head), step),
    {
        let ghost o = *self;
        self.metrics.queries = bump(self.metrics.queries);
        let h = match head {
            None => return QueryStep::Drop,
            Some(h) => h,
        };
        if h.is_response || h.opcode != 0 {
            return QueryStep::Drop;
        }
        if h.questions.len() != 1 {
            return QueryStep::Reply(encode_reply(h.id, 1, h.recursion_desired, true));
        }
        let q = &h.questions[0];
        let ghost hv = h@;
        assert(head_view(head) == Some(hv));
        assert(hv.questions[0] == q@);
        let qname = strip_root_dot(q.name.as_str());
        let domain = match normalize_domain(qname.as_str()) {
            Some(d) => d,
            None => String::new(),
        };
        assert(domain@ == filter_name(qname@));
        let filtering = self.metrics.filtering && self.config.daemon.enabled
            && domain.as_str().unicode_len() > 0 && !is_local_bypass(domain.as_str());
        let mut allowlisted = false;
        if filtering {
            allowlisted = self.filter.allowlist.contains_normalized(domain.as_str());
            if !allowlisted {
                if !self.filter.blocklist.is_empty() && self.filter.blocklist.contains_normalized(
                    domain.as_str(),
                ) {
                    let ghost plan = plan_of(head_view(head), o.filtering(), o.filter.allowlist, o.filter.blocklist);
                    assert(plan == Plan::Block { domain: domain@ });
                    self.metrics.blocked = bump(self.metrics.blocked);
                    assert(self.filter.recent == o.filter.recent);
                    self.filter.recent.record(domain.as_str());
                    let ghost t = choose|t: u32| #[trigger] record_effect(o.filter.recent@, domain@, t) == self.filter.recent@;
                    assert(record_effect(o.filter.recent@, plan->Block_domain, t) == self.filter.recent@);
                    return QueryStep::Reply(nxdomain_reflect(request));
                }
            }
        }
        let key = CacheKey { name: qname, qtype: q.qtype, qclass: q.qclass, dnssec_ok: h.dnssec_ok };
        assert(plan_of(head_view(head), o.filtering(), o.filter.allowlist, o.filter.blocklist)
            == Plan::Lookup { id: h.id, key: key.view_key(), domain: domain@, allowlisted });
        let ghost plan = plan_of(head_view(head), o.filtering(), o.filter.allowlist, o.filter.blocklist);
        let ghost kv = key.view_key();
        assert(plan->Lookup_key == kv);
        let got = self.cache.get(&key);
        let ghost r = bytes_opt(got);
        assert(lookup(o.cache.entries(), o.cache.nx_ttl(), kv, r, self.cache.entries()));
        let st = match got {
            Some(mut cached) => {
                self.metrics.cache_hit = bump(self.metrics.cache_hit);
                set_message_id(&mut cached, h.id);
                QueryStep::Reply(cached)
            },
            None => {
                self.metrics.cache_miss = bump(self.metrics.cache_miss);
                QueryStep::Forward(
                    PendingQuery {
                        request: crate::cache::copy_bytes(request),
                        id: h.id,
                        key,
                        domain,
                        filtering,
                        allowlisted,
                    },
                )
            },
        };
        assert(lookup(o.cache.entries(), o.cache.nx_ttl(), plan->Lookup_key, r, self.cache.entries()));
        st
    }

    /// Answers the wire-format query `request` (see `answer_request`).
    pub fn handle_query(&mut self, request: &[u8]) -> (step: QueryStep)
        requires
            old(self).wf(),
        ensures
            final(self).wf(),
            answered(*old(self), *final(self), request@, decoded_head(request@), step),
    {
        let head = decode_head(request);
        self.answer_request(request, head)
    }
}

/// The TTL an upstream answer is cached with: its least record TTL, or 60
/// seconds when it has no records.
pub open spec fn answer_ttl(ttls: Seq<u32>) -> u32 {
    match min_ttl_spec(ttls) {
        Some(t) => t,
        None => 60,
    }
}

/// An upstream answer enters the cache only when it answers this very query
/// (its transaction id matches and QR is set) and is not truncated: a cached
/// truncation would reach every later client, and their TCP retry lands on the
/// same cache.
pub open spec fn cacheable(h: HeadView, id: u16) -> bool {
    !h.truncated && h.is_response && h.id == id
}

/// The upstream answer of `p` blocks it through its CNAME chain.
pub open spec fn cname_verdict(o: DnsProxy, p: PendingQuery, head: Option<HeadView>, recs: Option<RecordsView>) -> bool {
    &&& head is Some
    &&& recs is Some
    &&& p.filtering
    &&& !p.allowlisted
    &&& cname_blocks(recs->0.cname_targets, o.filter.allowlist, o.filter.blocklist)
}

/// How the proxy completes `p` given the upstream `answer` (none when every
/// upstream failed), decoded as `head` and `recs`: the state goes from `o` to
/// `n` and `reply` goes back to the client.
pub open spec fn completed(
    o: DnsProxy,
    n: DnsProxy,
    p: PendingQuery,
    answer: Option<Seq<u8>>,
    head: Option<HeadView>,
    recs: Option<RecordsView>,
    reply: Seq<u8>,
) -> bool {
    let key = p.key.view_key();
    &&& same_setup(o, n)
    &&& n.metrics.queries == o.metrics.queries
    &&& n.metrics.cache_hit == o.metrics.cache_hit
    &&& n.metrics.cache_miss == o.metrics.cache_miss
    &&& match answer {
        None => {
            &&& reply == question_reply(p.request@, 2, true)
            &&& n.metrics.upstream_errors == inc(o.metrics.upstream_errors)
            &&& n.metrics.consecutive_upstream_failures == inc(o.metrics.consecutive_upstream_failures)
            &&& n.metrics.upstream_ok == o.metrics.upstream_ok
            &&& n.metrics.blocked == o.metrics.blocked
            &&& n.filter.recent == o.filter.recent
            &&& n.cache.entries() == o.cache.entries()
        },
        Some(a) => {
            &&& n.metrics.upstream_ok == inc(o.metrics.upstream_ok)
            &&& n.metrics.upstream_errors == o.metrics.upstream_errors
            &&& n.metrics.consecutive_upstream_failures == 0
            &&& if cname_verdict(o, p, head, recs) {
                &&& reply == nxdomain_spec(p.request@)
                &&& n.metrics.blocked == inc(o.metrics.blocked)
                &&& exists|t: u32| #[trigger] record_effect(o.filter.recent@, p.domain@, t) == n.filter.recent@
                &&& stored(o.cache, n.cache, key, with_id(nxdomain_spec(p.request@), 0), o.cache.nx_ttl(), true)
            } else {
                &&& reply == with_id(a, p.id)
                &&& n.metrics.blocked == o.metrics.blocked
                &&& n.filter.recent == o.filter.recent
                &&& if head is Some && recs is Some && cacheable(head->0, p.id) {
                    stored(o.cache, n.cache, key, with_id(a, 0), answer_ttl(recs->0.ttls), head->0.rcode == 3)
                } else {
                    n.cache.entries() == o.cache.entries()
                }
            }
        },
    }
}

impl DnsProxy {
    /// Completes `pending` with the upstream `answer`, decoded as `head` and
    /// `records`: SERVFAIL without an answer; NXDOMAIN when a CNAME target is
    /// blocked; otherwise the answer under the client's id, cached when it may be.
    pub fn complete_query(
        &mut self,
        pending: PendingQuery,
        answer: Option<Vec<u8>>,
        head: Option<MessageHead>,
        records: Option<MessageRecords>,
    ) -> (reply: Vec<u8>)
        requires
            old(self).wf(),
            pending.request@.len() <= isize::MAX,
            answer matches Some(a) ==> a@.len() <= isize::MAX,
        ensures
            final(self).wf(),
            completed(
                *old(self),
                *final(self),
                pending,
                bytes_opt(answer),
                head_view(head),
                records_view(records),
                reply@,
            ),
    {
        let ghost o = *self;
        let ghost p = pending;
        let a = match answer {
            None => {
                self.metrics.upstream_errors = bump(self.metrics.upstream_errors);
                self.metrics.consecutive_upstream_failures = bump(
                    self.metrics.consecutive_upstream_failures,
                );
                return encode_question_reply(pending.request.as_slice(), 2, true);
            },
            Some(a) => a,
        };
        self.metrics.upstream_ok = bump(self.metrics.upstream_ok);
        self.metrics.consecutive_upstream_failures = 0;
        let ghost hv = head_view(head);
        let ghost rv = records_view(records);
        match (head, records) {
            (Some(h), Some(rs)) => {
                if pending.filtering && !pending.allowlisted && cname_blocked(
                    &rs.cname_targets,
                    &self.filter.allowlist,
                    &self.filter.blocklist,
                ) {
                    assert(cname_verdict(o, p, hv, rv));
                    self.metrics.blocked = bump(self.metrics.blocked);
                    assert(self.filter.recent == o.filter.recent);
                    self.filter.recent.record(pending.domain.as_str());
                    let ghost t = choose|t: u32| #[trigger] record_effect(o.filter.recent@, p.domain@, t) == self.filter.recent@;
                    assert(record_effect(o.filter.recent@, p.domain@, t) == self.filter.recent@);
                    let blocked = nxdomain_reflect(pending.request.as_slice());
                    let mut store = crate::cache::copy_bytes(blocked.as_slice());
                    set_message_id(&mut store, 0);
                    let nx = self.cache.nxdomain_ttl();
                    assert(self.cache == o.cache);
                    self.cache.insert(pending.key, store, nx, true);
                    return blocked;
                }
                assert(!cname_verdict(o, p, hv, rv));
                if !h.truncated && h.is_response && h.id == pending.id {
                    let ttl = match min_ttl(&rs.ttls) {
                        Some(t) => t,
                        None => 60,
                    };
                    let is_nx = h.rcode == 3;
                    let mut store = crate::cache::copy_bytes(a.as_slice());
                    set_message_id(&mut store, 0);
                    assert(self.cache == o.cache);
                    self.cache.insert(pending.key, store, ttl, is_nx);
                }
            },
            _ => {},
        }
        let mut out = a;
        set_message_id(&mut out, pending.id);
        out
    }

    /// Completes `pending` with the upstream answer, or with none when every
    /// upstream failed or no upstream slot was free.
    pub fn finish_query(&mut self, pending: PendingQuery, answer: Option<Vec<u8>>) -> (reply: Vec<u8>)
        requires
            old(self).wf(),
            pending.request@.len() <= isize::MAX,
            answer matches Some(a) ==> a@.len() <= isize::MAX,
        ensures
            final(self).wf(),
            completed(
                *old(self),
                *final(self),
                pending,
                bytes_opt(answer),
                match answer {
                    Some(a) => decoded_head(a@),
                    None => None,
                },
                match answer {
                    Some(a) => decoded_records(a@),
                    None => None,
                },
                reply@,
            ),
    {
        let (head, records) = match &answer {
            Some(a) => (decode_head(a.as_slice()), decode_records(a.as_slice())),
            None => (None, None),
        };
        self.complete_query(pending, answer, head, records)
    }
}

// ---------------------------------------------------------------------------
// Upstream selection.
// ---------------------------------------------------------------------------

/// A socket address as plain values: the family, the address bytes (4 or 16),
/// the port, and for IPv6 the flow label and scope id.
pub struct SockAddr {
    pub v6: bool,
    pub ip: Vec<u8>,
    pub port: u16,
    pub flowinfo: u32,
    pub scope_id: u32,
}

pub struct SockAddrView {
    pub v6: bool,
    pub ip: Seq<u8>,
    pub port: u16,
    pub flowinfo: u32,
    pub scope_id: u32,
}

impl View for SockAddr {
    type V = SockAddrView;

    open spec fn view(&self) -> SockAddrView {
        SockAddrView {
            v6: self.v6,
            ip: self.ip@,
            port: self.port,
            flowinfo: self.flowinfo,
            scope_id: self.scope_id,
        }
    }
}

/// The address `SocketAddr::from_str` reads from `s`, or `None` when it refuses `s`.
pub uninterp spec fn socket_addr_of(s: Seq<char>) -> Option<SockAddrView>;

/// `<SocketAddr as FromStr>::from_str`, with the address taken apart into plain values.
#[verifier::external_body]
pub(crate) fn parse_socket_addr(s: &str) -> (r: Option<SockAddr>)
    ensures
        match r {
            Some(a) => socket_addr_of(s@) == Some(a@),
            None => socket_addr_of(s@) is None,
        },
{
    match s.parse::<core::net::SocketAddr>() {
        Ok(core::net::SocketAddr::V4(a)) => Some(
            SockAddr { v6: false, ip: a.ip().octets().to_vec(), port: a.port(), flowinfo: 0, scope_id: 0 },
        ),
        Ok(core::net::SocketAddr::V6(a)) => Some(
            SockAddr { v6: true, ip: a.ip().octets().to_vec(), port: a.port(), flowinfo: a.flowinfo(), scope_id: a.scope_id() },
        ),
        Err(_) => None,
    }
}

/// Whether `s` parses as a socket address.
pub fn parses_as_socket_addr(s: &str) -> (r: bool)
    ensures
        r == (socket_addr_of(s@) is Some),
{
    parse_socket_addr(s).is_some()
}

/// Two socket addresses are the same address.
pub fn same_addr(a: &SockAddr, b: &SockAddr) -> (r: bool)
    ensures
        r == (a@ == b@),
{
    let r = a.v6 == b.v6 && a.port == b.port && a.flowinfo == b.flowinfo && a.scope_id == b.scope_id
        && bytes_equal(a.ip.as_slice(), b.ip.as_slice());
    r
}

/// `a` is the address one of the `listen` entries parses to.
pub open spec fn is_listener(a: SockAddrView, listen: Seq<Seq<char>>) -> bool {
    exists|j: int| 0 <= j < listen.len() && #[trigger] socket_addr_of(listen[j]) == Some(a)
}

/// Whether `a` is one of the daemon's own listeners.
pub fn is_own_listener(a: &SockAddr, listen: &Vec<String>) -> (r: bool)
    ensures
        r == is_listener(a@, strs(listen@)),
{
    let mut j: usize = 0;
    while j < listen.len()
        invariant
            j <= listen@.len(),
            forall|k: int| 0 <= k < j ==> socket_addr_of(#[trigger] strs(listen@)[k]) != Some(a@),
        decreases listen@.len() - j,
    {
        assert(strs(listen@)[j as int] == listen@[j as int]@);
        match parse_socket_addr(listen[j].as_str()) {
            Some(l) => {
                if same_addr(&l, a) {
                    return true;
                }
            },
            None => {},
        }
        j = j + 1;
    }
    false
}

/// An upstream is usable when it parses and is not one of the daemon's own
/// listeners: forwarding to ourselves would loop until every inflight slot is
/// pinned.
pub open spec fn upstream_usable(s: Seq<char>, listen: Seq<Seq<char>>) -> bool {
    match socket_addr_of(s) {
        Some(a) => !is_listener(a, listen),
        None => false,
    }
}

/// The usable upstreams, in configuration order.
pub open spec fn usable_upstreams(servers: Seq<Seq<char>>, listen: Seq<Seq<char>>) -> Seq<Seq<char>>
    decreases servers.len(),
{
    if servers.len() == 0 {
        Seq::empty()
    } else {
        let rest = usable_upstreams(servers.drop_last(), listen);
        if upstream_usable(servers.last(), listen) {
            rest.push(servers.last())
        } else {
            rest
        }
    }
}

/// The configured upstreams that are usable, in order.
pub fn upstream_candidates(config: &Config) -> (r: Vec<String>)
    ensures
        strs(r@) == usable_upstreams(strs(config.upstream.servers@), strs(config.daemon.listen@)),
{
    let servers = &config.upstream.servers;
    let ghost sv = strs(servers@);
    let ghost lv = strs(config.daemon.listen@);
    let mut out: Vec<String> = Vec::new();
    let mut i: usize = 0;
    while i < servers.len()
        invariant
            sv == strs(servers@),
            lv == strs(config.daemon.listen@),
            i <= servers@.len(),
            strs(out@) == usable_upstreams(sv.subrange(0, i as int), lv),
        decreases servers@.len() - i,
    {
        let s = &servers[i];
        proof {
            let sub = sv.subrange(0, i + 1);
            assert(sub.drop_last() =~= sv.subrange(0, i as int));
            assert(sub.last() == s@);
        }
        match parse_socket_addr(s.as_str()) {
            Some(a) => {
                if !is_own_listener(&a, &config.daemon.listen) {
                    let ghost prev = out@;
                    out.push(s.clone());
                    assert(strs(out@) =~= strs(prev).push(s@));
                }
            },
            None => {},
        }
        i = i + 1;
    }
    assert(sv.subrange(0, servers@.len() as int) =~= sv);
    out
}

/// The position of the `k`-th upstream to try among `n`, starting from the preferred one.
pub open spec fn try_index(preferred: usize, n: int, k: int) -> int {
    (preferred as int % n + k) % n
}

impl DnsProxy {
    /// The usable upstreams in the order to try them, each with its position:
    /// first the one that answered last, then the ones after it, wrapping.
    pub fn upstream_order(&self) -> (r: Vec<(usize, String)>)
        ensures
            ({
                let c = usable_upstreams(strs(self.config.upstream.servers@), strs(self.config.daemon.listen@));
                &&& r@.len() == c.len()
                &&& forall|k: int|
                    0 <= k < r@.len() ==> (#[trigger] r@[k]).0 == try_index(self.preferred(), c.len() as int, k)
                        && r@[k].1@ == c[r@[k].0 as int]
            }),
    {
        let cands = upstream_candidates(&self.config);
        let ghost c = strs(cands@);
        let n = cands.len();
        let mut out: Vec<(usize, String)> = Vec::new();
        if n == 0 {
            return out;
        }
        let start = self.preferred_upstream % n;
        let mut k: usize = 0;
        while k < n
            invariant
                n == cands@.len(),
                c == strs(cands@),
                n > 0,
                start == self.preferred() as int % n as int,
                k <= n,
                out@.len() == k,
                forall|q: int|
                    0 <= q < k ==> (#[trigger] out@[q]).0 == try_index(self.preferred(), n as int, q)
                        && out@[q].1@ == c[out@[q].0 as int],
            decreases n - k,
        {
            let idx = if k < n - start {
                start + k
            } else {
                k - (n - start)
            };
            assert(idx as int == (start as int + k as int) % (n as int)) by (nonlinear_arith)
                requires
                    start < n,
                    k < n,
                    idx as int == (if (k as int) < n - start { start + k } else { k - (n - start) }),
            {
                if (k as int) < n - start {
                    vstd::arithmetic::div_mod::lemma_small_mod((start + k) as nat, n as nat);
                } else {
                    vstd::arithmetic::div_mod::lemma_mod_sub_multiples_vanish((start + k) as int, n as int);
                    vstd::arithmetic::div_mod::lemma_small_mod((start + k - n) as nat, n as nat);
                }
            }
            assert(c[idx as int] == cands@[idx as int]@);
            out.push((idx, cands[idx].clone()));
            k = k + 1;
        }
        out
    }

    /// Records that the upstream at `idx`, tried `offset`-th, answered; it is
    /// tried first next time.
    pub fn upstream_answered(&mut self, idx: usize, offset: usize)
        ensures
            final(self).preferred() == (if offset != 0 { idx } else { old(self).preferred() }),
            final(self).config == old(self).config,
            final(self).metrics == old(self).metrics,
            final(self).filter == old(self).filter,
            final(self).cache == old(self).cache,
    {
        if offset != 0 {
            self.preferred_upstream = idx;
        }
    }

    /// How long to wait for one upstream: the configured timeout, at least 100 ms.
    pub fn upstream_timeout_ms(&self) -> (r: u64)
        ensures
            r == (if self.config.upstream.timeout_ms > 100 { self.config.upstream.timeout_ms } else { 100 }),
    {
        if self.config.upstream.timeout_ms > 100 {
            self.config.upstream.timeout_ms
        } else {
            100
        }
    }
}

/// How many queries may wait on upstream at once: the configured limit, at least one.
pub fn inflight_limit(config: &Config) -> (r: usize)
    ensures
        r == (if config.upstream.max_inflight > 1 { config.upstream.max_inflight } else { 1 }),
{
    if config.upstream.max_inflight > 1 {
        config.upstream.max_inflight
    } else {
        1
    }
}

// ---------------------------------------------------------------------------
// Laws.
// ---------------------------------------------------------------------------

/// The one question of a standard query, as the proxy filters it.
pub open spec fn single_question(h: HeadView) -> bool {
    !h.is_response && h.opcode == 0 && h.questions.len() == 1
}

pub open spec fn filtered_name(h: HeadView) -> Seq<char> {
    filter_name(strip_root(h.questions[0].name))
}

/// Law: with filtering on, a standard query for a name that the blocklist
/// blocks and the allowlist does not allow, and that is not local, is blocked
/// (answered with the NXDOMAIN reflection of the request).
pub proof fn blocked_names_get_nxdomain(h: HeadView, filtering: bool, allow: Allowlist, block: Blocklist)
    requires
        single_question(h),
        filtering,
        filtered_name(h).len() > 0,
        !is_local_bypass_spec(filtered_name(h)),
        !allow.allows(encode_utf8(filtered_name(h))),
        block.blocks(encode_utf8(filtered_name(h))),
    ensures
        plan_of(Some(h), filtering, allow, block) == (Plan::Block { domain: filtered_name(h) }),
{
}

/// Law: `localhost`, `*.localhost`, `local` and `*.local` are never blocked.
pub proof fn local_names_pass(h: HeadView, filtering: bool, allow: Allowlist, block: Blocklist)
    requires
        single_question(h),
        is_local_bypass_spec(filtered_name(h)),
    ensures
        !(plan_of(Some(h), filtering, allow, block) is Block),
{
}

/// Law: a query is looked up and sent upstream under its own question: the
/// name without its root dot, the record type, the class and the DNSSEC-OK
/// bit. So two queries that differ in record type (or class, or DO bit) never
/// read or write the same cache entry.
pub proof fn queries_are_keyed_by_their_question(
    o: DnsProxy,
    n: DnsProxy,
    request: Seq<u8>,
    h: HeadView,
    step: QueryStep,
    h2: HeadView,
)
    requires
        answered(o, n, request, Some(h), step),
    ensures
        plan_of(Some(h), o.filtering(), o.filter.allowlist, o.filter.blocklist) matches Plan::Lookup {
            key,
            ..
        } ==> key.0 == strip_root(h.questions[0].name) && key.1 == h.questions[0].qtype && key.2
            == h.questions[0].qclass && key.3 == h.dnssec_ok,
        step matches QueryStep::Forward(p) ==> p.key.name@ == strip_root(h.questions[0].name)
            && p.key.qtype == h.questions[0].qtype && p.key.qclass == h.questions[0].qclass
            && p.key.dnssec_ok == h.dnssec_ok,
        (plan_of(Some(h), o.filtering(), o.filter.allowlist, o.filter.blocklist) is Lookup
            && plan_of(Some(h2), o.filtering(), o.filter.allowlist, o.filter.blocklist) is Lookup
            && h.questions[0].qtype != h2.questions[0].qtype) ==> plan_of(
            Some(h),
            o.filtering(),
            o.filter.allowlist,
            o.filter.blocklist,
        )->Lookup_key != plan_of(Some(h2), o.filtering(), o.filter.allowlist, o.filter.blocklist)->Lookup_key,
{
}

/// Law: a local name sent upstream is not checked against the lists when the
/// answer comes back either, so no CNAME in the answer blocks it.
pub proof fn local_names_skip_cname_check(
    o: DnsProxy,
    n: DnsProxy,
    request: Seq<u8>,
    head: Option<HeadView>,
    step: QueryStep,
    later: DnsProxy,
    answer_head: Option<HeadView>,
    answer_recs: Option<RecordsView>,
)
    requires
        answered(o, n, request, head, step),
        step matches QueryStep::Forward(p) && is_local_bypass_spec(p.domain@),
    ensures
        !cname_verdict(later, step->Forward_0, answer_head, answer_recs),
{
}

/// Law: a name the allowlist allows (itself or a parent) is never blocked.
pub proof fn allowed_names_pass(h: HeadView, filtering: bool, allow: Allowlist, block: Blocklist)
    requires
        allow.allows(encode_utf8(filtered_name(h))),
    ensures
        !(plan_of(Some(h), filtering, allow, block) is Block),
{
}

/// Law: fail-open. An empty (missing or unreadable) blocklist blocks nothing,
/// neither a question name nor a CNAME target.
pub proof fn empty_blocklist_fails_open(
    head: Option<HeadView>,
    filtering: bool,
    allow: Allowlist,
    block: Blocklist,
    targets: Seq<Option<Seq<char>>>,
)
    requires
        block.count() == 0,
    ensures
        !(plan_of(head, filtering, allow, block) is Block),
        !cname_blocks(targets, allow, block),
{
}

/// Law: with filtering off nothing is blocked.
pub proof fn disabled_filter_blocks_nothing(head: Option<HeadView>, allow: Allowlist, block: Blocklist)
    ensures
        !(plan_of(head, false, allow, block) is Block),
{
}

/// Law: the NXDOMAIN answer is the request with only the flag bytes changed:
/// same length, same id, same question; QR and RA set, TC cleared, RCODE 3.
pub proof fn nxdomain_keeps_the_request(request: Seq<u8>)
    requires
        request.len() >= 12,
    ensures
        nxdomain_spec(request).len() == request.len(),
        forall|i: int| 0 <= i < request.len() && i != 2 && i != 3 ==> #[trigger] nxdomain_spec(request)[i]
            == request[i],
        nxdomain_spec(request)[2] & 0x80u8 == 0x80u8,
        nxdomain_spec(request)[2] & 0x02u8 == 0u8,
        nxdomain_spec(request)[3] == 0x83u8,
{
    let b = request[2];
    assert(((b | 0x80u8) & 0xfdu8) & 0x80u8 == 0x80u8) by (bit_vector);
    assert(((b | 0x80u8) & 0xfdu8) & 0x02u8 == 0u8) by (bit_vector);
}

/// Law: the proxy never forwards to one of its own listeners; every upstream
/// it tries parses as a socket address that none of the listeners has.
pub proof fn upstreams_are_not_listeners(servers: Seq<Seq<char>>, listen: Seq<Seq<char>>)
    ensures
        forall|i: int|
            0 <= i < usable_upstreams(servers, listen).len() ==> upstream_usable(
                #[trigger] usable_upstreams(servers, listen)[i],
                listen,
            ),
    decreases servers.len(),
{
    if servers.len() > 0 {
        let rest = usable_upstreams(servers.drop_last(), listen);
        upstreams_are_not_listeners(servers.drop_last(), listen);
        let u = usable_upstreams(servers, listen);
        assert forall|i: int| 0 <= i < u.len() implies upstream_usable(#[trigger] u[i], listen) by {
            if i < rest.len() {
                assert(u[i] == rest[i]);
            }
        }
    }
}

/// Law: the upstream order tries each usable upstream exactly once.
pub proof fn upstream_order_tries_each_once(preferred: usize, n: int, k1: int, k2: int)
    requires
        n > 0,
        0 <= k1 < n,
        0 <= k2 < n,
        k1 != k2,
    ensures
        0 <= try_index(preferred, n, k1) < n,
        try_index(preferred, n, k1) != try_index(preferred, n, k2),
{
    let s = preferred as int % n;
    assert(0 <= s < n) by {
        vstd::arithmetic::div_mod::lemma_mod_pos_bound(preferred as int, n);
    }
    assert(0 <= try_index(preferred, n, k1) < n) by {
        vstd::arithmetic::div_mod::lemma_mod_pos_bound(s + k1, n);
    }
    lemma_small_sum_mod(s, k1, n);
    lemma_small_sum_mod(s, k2, n);
}

proof fn lemma_small_sum_mod(s: int, k: int, n: int)
    requires
        0 <= s < n,
        0 <= k < n,
    ensures
        (s + k) % n == (if s + k < n { s + k } else { s + k - n }),
{
    if s + k < n {
        vstd::arithmetic::div_mod::lemma_small_mod((s + k) as nat, n as nat);
    } else {
        vstd::arithmetic::div_mod::lemma_mod_sub_multiples_vanish(s + k, n);
        vstd::arithmetic::div_mod::lemma_small_mod((s + k - n) as nat, n as nat);
    }
}

/// Law: an upstream answer enters the cache only when its transaction id
/// matches the question's, its QR bit is set and it is not truncated; any other
/// answer (unless a blocked CNAME turns it into a block) leaves the cache as it was.
pub proof fn unverified_answers_are_not_cached(
    o: DnsProxy,
    n: DnsProxy,
    p: PendingQuery,
    answer: Seq<u8>,
    head: HeadView,
    recs: RecordsView,
    reply: Seq<u8>,
)
    requires
        completed(o, n, p, Some(answer), Some(head), Some(recs), reply),
        !cname_verdict(o, p, Some(head), Some(recs)),
        head.truncated || !head.is_response || head.id != p.id,
    ensures
        n.cache.entries() == o.cache.entries(),
        reply == with_id(answer, p.id),
{
}

} // verus!
