use vstd::prelude::*;
use vstd::string::*;

verus! {

/// The provider's API path under which a zone's records live.
pub const API_ZONES: &'static str = "https://api.cloudflare.com/client/v4/zones/";

/// What a run needs from its configuration file.
pub struct Config {
    /// The bearer credential for the provider's API.
    pub cloudflare_api_key: String,
    /// The zone whose records are kept up to date.
    pub cloudflare_zone_id: String,
    /// The comment that marks a record as managed by this tool.
    pub ddns_comment: String,
}

/// A DNS record as the provider lists it and takes it back.
#[derive(Debug)]
pub struct DnsRecord {
    pub id: String,
    pub name: String,
    pub comment: Option<String>,
    pub content: String,
    pub proxied: bool,
    pub ttl: u32,
    pub record_type: String,
}

/// A `DnsRecord` with its text fields as character sequences.
pub struct RecordView {
    pub id: Seq<char>,
    pub name: Seq<char>,
    pub comment: Option<Seq<char>>,
    pub content: Seq<char>,
    pub proxied: bool,
    pub ttl: u32,
    pub record_type: Seq<char>,
}

impl View for DnsRecord {
    type V = RecordView;

    open spec fn view(&self) -> RecordView {
        RecordView {
            id: self.id@,
            name: self.name@,
            comment: match self.comment {
                Some(c) => Some(c@),
                None => None,
            },
            content: self.content@,
            proxied: self.proxied,
            ttl: self.ttl,
            record_type: self.record_type@,
        }
    }
}

/// The views of a sequence of records.
pub open spec fn views(s: Seq<DnsRecord>) -> Seq<RecordView> {
    s.map_values(|r: DnsRecord| r@)
}

/// Whether a record is managed by this tool: its comment is the marker.
pub open spec fn is_ddns(r: RecordView, marker: Seq<char>) -> bool {
    r.comment == Some(marker)
}

/// The records of `s` whose comment is the marker, in their order.
pub open spec fn ddns_records(s: Seq<RecordView>, marker: Seq<char>) -> Seq<RecordView> {
    s.filter(|r: RecordView| is_ddns(r, marker))
}

/// A record with its content replaced by `ip`, all else kept.
pub open spec fn with_content(r: RecordView, ip: Seq<char>) -> RecordView {
    RecordView {
        id: r.id,
        name: r.name,
        comment: r.comment,
        content: ip,
        proxied: r.proxied,
        ttl: r.ttl,
        record_type: r.record_type,
    }
}

/// Every record of `s` with its content replaced by `ip`.
pub open spec fn all_with_content(s: Seq<RecordView>, ip: Seq<char>) -> Seq<RecordView> {
    s.map_values(|r: RecordView| with_content(r, ip))
}

/// Whether the record's comment is the marker.
pub fn is_ddns_record(record: &DnsRecord, marker: &String) -> (r: bool)
    ensures
        r == is_ddns(record@, marker@),
{
    match &record.comment {
        Some(c) => c.eq(marker),
        None => false,
    }
}

/// Keeps the records whose comment is the marker, in their order; records
/// with no comment or another one are dropped.
pub fn filter_ddns_records(records: Vec<DnsRecord>, marker: &String) -> (r: Vec<DnsRecord>)
    ensures
        views(r@) == ddns_records(views(records@), marker@),
{
    let ghost orig = records@;
    let n = records.len();
    let mut rest = records;
    let mut out: Vec<DnsRecord> = Vec::new();
    let mut i: usize = 0;
    while rest.len() > 0
        invariant
            i <= orig.len(),
            orig.len() == n,
            rest@ == orig.subrange(i as int, orig.len() as int),
            views(out@) == ddns_records(views(orig.subrange(0, i as int)), marker@),
        decreases rest@.len(),
    {
        let rec = rest.remove(0);
        proof {
            let before = views(orig.subrange(0, i as int));
            let after = views(orig.subrange(0, i + 1));
            assert(rec == orig[i as int]);
            assert(after.drop_last() =~= before);
            assert(after.last() == rec@);
            reveal(Seq::filter);
            assert(ddns_records(after, marker@) == if is_ddns(rec@, marker@) {
                ddns_records(before, marker@).push(rec@)
            } else {
                ddns_records(before, marker@)
            });
            assert(rest@ =~= orig.subrange(i + 1, orig.len() as int));
        }
        if is_ddns_record(&rec, marker) {
            let ghost prev = out@;
            out.push(rec);
            proof {
                assert(views(out@) =~= views(prev).push(rec@));
            }
        }
        i = i + 1;
    }
    proof {
        assert(orig.subrange(0, i as int) =~= orig);
    }
    out
}

/// Replaces the content of every record by `ip`, keeping their order and
/// their other fields.
pub fn set_contents(records: Vec<DnsRecord>, ip: &String) -> (r: Vec<DnsRecord>)
    ensures
        views(r@) == all_with_content(views(records@), ip@),
{
    let ghost orig = records@;
    let n = records.len();
    let mut rest = records;
    let mut out: Vec<DnsRecord> = Vec::new();
    let mut i: usize = 0;
    while rest.len() > 0
        invariant
            i <= orig.len(),
            orig.len() == n,
            rest@ == orig.subrange(i as int, orig.len() as int),
            views(out@) == all_with_content(views(orig.subrange(0, i as int)), ip@),
        decreases rest@.len(),
    {
        let mut rec = rest.remove(0);
        proof {
            assert(rec == orig[i as int]);
            assert(rest@ =~= orig.subrange(i + 1, orig.len() as int));
        }
        let ghost old_rec = rec@;
        rec.content = ip.clone();
        let ghost prev = out@;
        out.push(rec);
        proof {
            assert(rec@ == with_content(old_rec, ip@));
            assert(views(out@) =~= views(prev).push(rec@));
            assert(all_with_content(views(orig.subrange(0, i + 1)), ip@) =~= all_with_content(
                views(orig.subrange(0, i as int)),
                ip@,
            ).push(rec@));
        }
        i = i + 1;
    }
    proof {
        assert(orig.subrange(0, i as int) =~= orig);
    }
    out
}

/// Every record that a run sends to the provider carries the marker as its
/// comment, and the resolved address as its content: records of the zone
/// that are not marked are never written.
pub proof fn lemma_only_marked_records_are_updated(
    listed: Seq<RecordView>,
    marker: Seq<char>,
    ip: Seq<char>,
)
    ensures
        forall|i: int|
            0 <= i < all_with_content(ddns_records(listed, marker), ip).len() ==> {
                let r = #[trigger] all_with_content(ddns_records(listed, marker), ip)[i];
                r.comment == Some(marker) && r.content == ip
            },
{
    let kept = ddns_records(listed, marker);
    assert forall|i: int| 0 <= i < kept.len() implies #[trigger] kept[i].comment == Some(marker) by {
        listed.lemma_filter_pred(|r: RecordView| is_ddns(r, marker), i);
    }
}

/// The provider URL that lists the records of a zone.
pub fn records_url(zone_id: &String) -> (r: String)
    ensures
        r@ == API_ZONES@ + zone_id@ + "/dns_records"@,
{
    let mut s = String::from_str(API_ZONES);
    s.append(zone_id.as_str());
    s.append("/dns_records");
    s
}

/// The provider URL that updates one record of a zone.
pub fn record_url(zone_id: &String, record_id: &String) -> (r: String)
    ensures
        r@ == API_ZONES@ + zone_id@ + "/dns_records/"@ + record_id@,
{
    let mut s = String::from_str(API_ZONES);
    s.append(zone_id.as_str());
    s.append("/dns_records/");
    s.append(record_id.as_str());
    s
}

/// The `Authorization` header value for an API credential.
pub fn bearer_auth(api_key: &String) -> (r: String)
    ensures
        r@ == "Bearer "@ + api_key@,
{
    let mut s = String::from_str("Bearer ");
    s.append(api_key.as_str());
    s
}

/// Whether the cached text is exactly the resolved address's text. The
/// comparison is on text, not on addresses.
pub open spec fn ip_unchanged(cached: Option<Seq<char>>, wan_ip: Seq<char>) -> bool {
    cached == Some(wan_ip)
}

/// The cached text, as a sequence of characters.
pub open spec fn cached_view(cached: Option<String>) -> Option<Seq<char>> {
    match cached {
        Some(c) => Some(c@),
        None => None,
    }
}

/// Whether the cache holds exactly the text of the resolved address.
pub fn is_unchanged(cached: &Option<String>, wan_ip: &String) -> (r: bool)
    ensures
        r == ip_unchanged(cached_view(*cached), wan_ip@),
{
    match cached {
        Some(c) => c.eq(wan_ip),
        None => false,
    }
}

/// What the caller of a run does next.
#[derive(Clone, Copy, Debug, PartialEq, Eq, Structural)]
pub enum Action {
    /// The address has not changed: stop with success, and do not contact
    /// the provider.
    ExitUnchanged,
    /// Load the configuration and list the provider's records, then call
    /// `records_listed`.
    ListRecords,
    /// Send the update of `records[i]`, then call `record_updated`.
    UpdateRecord(usize),
    /// Write the resolved address to the cache file; the run is then done.
    WriteCache,
    /// Stop with failure and leave the cache file as it is.
    ExitFailure,
}

/// One run, from the resolved address to the write of the cache file.
pub struct DdnsRun {
    /// The text of the resolved address.
    pub wan_ip: String,
    /// The managed records, their content already set to `wan_ip`.
    pub records: Vec<DnsRecord>,
    /// How many of `records` the provider has accepted so far.
    pub next: usize,
}

impl DdnsRun {
    /// Starts a run for the resolved address and what the cache file held,
    /// if it could be read. An unchanged address ends the run at once; any
    /// other case, an absent cache among them, goes on to list the records.
    pub fn start(wan_ip: String, cached: Option<String>) -> (r: (DdnsRun, Action))
        ensures
            r.0.wan_ip@ == wan_ip@,
            r.0.records@.len() == 0,
            r.0.next == 0,
            r.1 == (if ip_unchanged(cached_view(cached), wan_ip@) {
                Action::ExitUnchanged
            } else {
                Action::ListRecords
            }),
            cached is None ==> r.1 == Action::ListRecords,
    {
        let unchanged = is_unchanged(&cached, &wan_ip);
        let run = DdnsRun { wan_ip, records: Vec::new(), next: 0 };
        if unchanged {
            (run, Action::ExitUnchanged)
        } else {
            (run, Action::ListRecords)
        }
    }

    /// Takes the provider's records: keeps those whose comment is the
    /// marker, sets their content to the resolved address, and asks for the
    /// first update, or for the cache write where none is kept.
    pub fn records_listed(self, records: Vec<DnsRecord>, marker: &String) -> (r: (DdnsRun, Action))
        ensures
            r.0.wan_ip == self.wan_ip,
            views(r.0.records@) == all_with_content(
                ddns_records(views(records@), marker@),
                self.wan_ip@,
            ),
            r.0.next == 0,
            r.1 == (if r.0.records@.len() == 0 {
                Action::WriteCache
            } else {
                Action::UpdateRecord(0)
            }),
    {
        let kept = filter_ddns_records(records, marker);
        let updated = set_contents(kept, &self.wan_ip);
        let empty = updated.len() == 0;
        let run = DdnsRun { wan_ip: self.wan_ip, records: updated, next: 0 };
        if empty {
            (run, Action::WriteCache)
        } else {
            (run, Action::UpdateRecord(0))
        }
    }

    /// Takes the outcome of the update of `records[next]`. A failure ends
    /// the run, with the cache file untouched and no update undone; a
    /// success asks for the next update, or for the cache write after the
    /// last one.
    pub fn record_updated(self, ok: bool) -> (r: (DdnsRun, Action))
        requires
            self.next < self.records@.len(),
        ensures
            r.0.wan_ip == self.wan_ip,
            r.0.records == self.records,
            !ok ==> r.0.next == self.next && r.1 == Action::ExitFailure,
            ok ==> r.0.next == self.next + 1 && r.1 == (if self.next + 1 < self.records@.len() {
                Action::UpdateRecord((self.next + 1) as usize)
            } else {
                Action::WriteCache
            }),
    {
        if !ok {
            return (self, Action::ExitFailure);
        }
        let len = self.records.len();
        let next = self.next + 1;
        let more = next < len;
        let run = DdnsRun { wan_ip: self.wan_ip, records: self.records, next };
        if more {
            (run, Action::UpdateRecord(next))
        } else {
            (run, Action::WriteCache)
        }
    }
}

} // verus!
