use wan_ddns::ddns::{
    bearer_auth, filter_ddns_records, is_ddns_record, is_unchanged, record_url, records_url,
    set_contents, Action, DdnsRun, DnsRecord,
};

fn record(id: &str, comment: Option<&str>, content: &str) -> DnsRecord {
    DnsRecord {
        id: id.to_string(),
        name: format!("{}.example.com", id),
        comment: comment.map(|c| c.to_string()),
        content: content.to_string(),
        proxied: id.len() % 2 == 0,
        ttl: 300,
        record_type: "A".to_string(),
    }
}

fn ids(records: &[DnsRecord]) -> Vec<String> {
    records.iter().map(|r| r.id.clone()).collect()
}

#[test]
fn filter_keeps_only_marked_records() {
    let records = vec![
        record("one", Some("ddns record"), "1.1.1.1"),
        record("two", Some("manual"), "2.2.2.2"),
        record("three", None, "3.3.3.3"),
    ];
    let kept = filter_ddns_records(records, &"ddns record".to_string());
    assert_eq!(ids(&kept), vec!["one"]);
    assert_eq!(kept[0].content, "1.1.1.1");
    assert_eq!(kept[0].comment.as_deref(), Some("ddns record"));
}

#[test]
fn filter_keeps_order_and_exact_matches_only() {
    let records = vec![
        record("a", Some("ddns"), "x"),
        record("b", Some("ddns "), "x"),
        record("c", Some("DDNS"), "x"),
        record("d", Some("ddns"), "x"),
        record("e", Some(""), "x"),
    ];
    let kept = filter_ddns_records(records, &"ddns".to_string());
    assert_eq!(ids(&kept), vec!["a", "d"]);
    assert!(filter_ddns_records(vec![], &"ddns".to_string()).is_empty());
}

#[test]
fn marked_record_check() {
    let marker = "ddns record".to_string();
    assert!(is_ddns_record(&record("a", Some("ddns record"), "x"), &marker));
    assert!(!is_ddns_record(&record("a", Some("manual"), "x"), &marker));
    assert!(!is_ddns_record(&record("a", None, "x"), &marker));
}

#[test]
fn contents_are_replaced_and_rest_kept() {
    let records = vec![record("ab", Some("m"), "198.51.100.1"), record("c", None, "198.51.100.2")];
    let out = set_contents(records, &"203.0.113.7".to_string());
    assert_eq!(out.len(), 2);
    assert_eq!(out[0].content, "203.0.113.7");
    assert_eq!(out[1].content, "203.0.113.7");
    assert_eq!(out[0].id, "ab");
    assert_eq!(out[0].name, "ab.example.com");
    assert_eq!(out[0].comment.as_deref(), Some("m"));
    assert!(out[0].proxied);
    assert!(!out[1].proxied);
    assert_eq!(out[1].ttl, 300);
    assert_eq!(out[1].record_type, "A");
}

#[test]
fn provider_urls_and_auth() {
    let zone = "zone123".to_string();
    assert_eq!(records_url(&zone), "https://api.cloudflare.com/client/v4/zones/zone123/dns_records");
    assert_eq!(
        record_url(&zone, &"rec9".to_string()),
        "https://api.cloudflare.com/client/v4/zones/zone123/dns_records/rec9"
    );
    assert_eq!(bearer_auth(&"SECRET-REDACTED".to_string()), "Bearer SECRET-REDACTED");
}

#[test]
fn change_detection_is_textual() {
    let ip = "203.0.113.7".to_string();
    assert!(is_unchanged(&Some("203.0.113.7".to_string()), &ip));
    assert!(!is_unchanged(&Some("203.0.113.7\n".to_string()), &ip));
    assert!(!is_unchanged(&Some("198.51.100.1".to_string()), &ip));
    assert!(!is_unchanged(&None, &ip));
}

#[test]
fn unchanged_address_never_reaches_the_provider() {
    for ip in ["203.0.113.7", "0.0.0.0", ""] {
        let (_, action) = DdnsRun::start(ip.to_string(), Some(ip.to_string()));
        assert_eq!(action, Action::ExitUnchanged);
    }
}

#[test]
fn absent_cache_always_updates() {
    for ip in ["203.0.113.7", "0.0.0.0", ""] {
        let (_, action) = DdnsRun::start(ip.to_string(), None);
        assert_eq!(action, Action::ListRecords);
    }
    let (_, action) = DdnsRun::start("203.0.113.7".to_string(), Some("198.51.100.1".to_string()));
    assert_eq!(action, Action::ListRecords);
}

#[test]
fn no_marked_records_goes_to_cache_write() {
    let (run, _) = DdnsRun::start("203.0.113.7".to_string(), None);
    let (run, action) = run.records_listed(vec![record("x", Some("manual"), "1.1.1.1")], &"ddns".to_string());
    assert_eq!(action, Action::WriteCache);
    assert!(run.records.is_empty());
}

#[test]
fn failure_on_second_of_three_updates_keeps_cache() {
    let marker = "ddns record".to_string();
    let (run, action) = DdnsRun::start("203.0.113.7".to_string(), None);
    assert_eq!(action, Action::ListRecords);
    let listed = vec![
        record("r1", Some("ddns record"), "198.51.100.1"),
        record("r2", Some("ddns record"), "198.51.100.2"),
        record("r3", Some("ddns record"), "198.51.100.3"),
    ];
    let (run, action) = run.records_listed(listed, &marker);
    let mut sent: Vec<String> = Vec::new();
    assert_eq!(action, Action::UpdateRecord(0));
    sent.push(run.records[0].id.clone());
    let (run, action) = run.record_updated(true);
    assert_eq!(action, Action::UpdateRecord(1));
    sent.push(run.records[1].id.clone());
    let (run, action) = run.record_updated(false);
    assert_eq!(action, Action::ExitFailure);
    assert_eq!(sent, vec!["r1", "r2"]);
    assert_eq!(run.next, 1);
}

#[test]
fn end_to_end_two_records_then_cache_write() {
    let marker = "ddns record".to_string();
    let (run, action) = DdnsRun::start("203.0.113.7".to_string(), None);
    assert_eq!(action, Action::ListRecords);
    let listed = vec![
        record("r1", Some("ddns record"), "198.51.100.1"),
        record("r2", Some("ddns record"), "198.51.100.2"),
    ];
    let (mut run, mut action) = run.records_listed(listed, &marker);
    let mut sent: Vec<(String, String)> = Vec::new();
    let mut cache: Option<String> = None;
    loop {
        match action {
            Action::UpdateRecord(i) => {
                sent.push((run.records[i].id.clone(), run.records[i].content.clone()));
                let (r, a) = run.record_updated(true);
                run = r;
                action = a;
            }
            Action::WriteCache => {
                cache = Some(run.wan_ip.clone());
                break;
            }
            other => panic!("unexpected {:?}", other),
        }
    }
    assert_eq!(
        sent,
        vec![
            ("r1".to_string(), "203.0.113.7".to_string()),
            ("r2".to_string(), "203.0.113.7".to_string()),
        ]
    );
    assert_eq!(cache.as_deref(), Some("203.0.113.7"));
}
