use std::cell::RefCell;

use smartdns_core::dns_mw::{
    Action, DnsError, DnsMiddlewareBuilder, DnsMiddlewareHandler, DnsRequest, DnsResponse,
    Outcome, Query, RData, Record, RecordType, RuntimeConfig, ServerOpts,
};
use smartdns_core::name::WildcardName;
use smartdns_core::rule_group::{ClientRule, IpAddress, IpNetwork};

fn wn(s: &str) -> WildcardName {
    WildcardName::from_labels(s.split('.').map(|l| l.to_string()).collect())
}

trait TestMiddleware {
    fn before(&self, req: &DnsRequest) -> Outcome;
    fn after(&self, req: &DnsRequest, res: &Result<DnsResponse, DnsError>) -> Outcome;
}

fn drive<M: TestMiddleware>(h: &DnsMiddlewareHandler<M>, req: &DnsRequest, mut action: Action) -> Result<DnsResponse, DnsError> {
    loop {
        action = match action {
            Action::Done(r) => return r,
            Action::Enter(i) => {
                let out = h.middleware(i).before(req);
                h.step(req, Action::Enter(i), out)
            }
            Action::Leave(i, r) => {
                let out = h.middleware(i).after(req, &r);
                h.step(req, Action::Leave(i, r), out)
            }
        }
    }
}

fn lookup_rdata<M: TestMiddleware>(h: &DnsMiddlewareHandler<M>, name: &str, t: RecordType) -> Result<Vec<RData>, DnsError> {
    let (req, _ctx, action) = h.lookup(wn(name), t);
    drive(h, &req, action).map(|r| r.records.iter().map(|rec| rec.rdata).collect())
}

struct DnsMockMiddleware {
    answers: Vec<(WildcardName, RecordType, RData)>,
}

impl TestMiddleware for DnsMockMiddleware {
    fn before(&self, req: &DnsRequest) -> Outcome {
        for (name, t, data) in &self.answers {
            if name.same_name(&req.query.name) && *t == req.query.query_type {
                return Outcome::Reply(Ok(DnsResponse {
                    query: req.query.duplicate(),
                    records: vec![Record { name: name.duplicate(), ttl: 600, rdata: *data }],
                }));
            }
        }
        Outcome::Next
    }

    fn after(&self, _req: &DnsRequest, _res: &Result<DnsResponse, DnsError>) -> Outcome {
        Outcome::Next
    }
}

fn config() -> RuntimeConfig {
    RuntimeConfig { client_rules: vec![], rr_ttl: None }
}

fn mock_handler() -> DnsMiddlewareHandler<DnsMockMiddleware> {
    DnsMiddlewareBuilder::new()
        .with(DnsMockMiddleware { answers: vec![(wn("qq.com"), RecordType::A, RData::A(0x0105_0607))] })
        .build(config())
}

#[test]
fn test_mock_middleware_ip() {
    let mw = mock_handler();
    let res = lookup_rdata(&mw, "qq.com", RecordType::A).unwrap();
    assert_eq!(res, vec![RData::A(0x0105_0607)]);
}

#[test]
fn test_mock_middleware_soa() {
    let mw = mock_handler();
    let res = lookup_rdata(&mw, "baidu.com", RecordType::A);
    assert!(res.is_err());
    let err = res.unwrap_err();
    assert!(err.is_soa());
}

#[test]
fn default_handler_uses_configured_ttl() {
    let h: DnsMiddlewareHandler<DnsMockMiddleware> =
        DnsMiddlewareBuilder::new().build(RuntimeConfig { client_rules: vec![], rr_ttl: Some(300) });
    let (req, _ctx, action) = h.lookup(wn("example.com"), RecordType::AAAA);
    match drive(&h, &req, action) {
        Err(DnsError::NoRecordsFound { query, ttl }) => {
            assert_eq!(ttl, 300);
            assert_eq!(query.name, wn("example.com"));
            assert_eq!(query.query_type, RecordType::AAAA);
        }
        other => panic!("unexpected {:?}", other),
    }
    let h: DnsMiddlewareHandler<DnsMockMiddleware> = DnsMiddlewareBuilder::new().build(config());
    match h.default_result(&req) {
        Err(DnsError::NoRecordsFound { ttl, .. }) => assert_eq!(ttl, 0),
        other => panic!("unexpected {:?}", other),
    }
}

struct Recorder<'a> {
    id: u32,
    log: &'a RefCell<Vec<String>>,
    rewrite: Option<u32>,
}

impl<'a> TestMiddleware for Recorder<'a> {
    fn before(&self, _req: &DnsRequest) -> Outcome {
        self.log.borrow_mut().push(format!("before {}", self.id));
        Outcome::Next
    }

    fn after(&self, req: &DnsRequest, res: &Result<DnsResponse, DnsError>) -> Outcome {
        let seen = match res {
            Ok(r) => format!("ok {}", r.records.len()),
            Err(e) => format!("soa {}", e.is_soa()),
        };
        self.log.borrow_mut().push(format!("after {} saw {}", self.id, seen));
        match self.rewrite {
            Some(ip) => Outcome::Reply(Ok(DnsResponse {
                query: req.query.duplicate(),
                records: vec![Record { name: req.query.name.duplicate(), ttl: 1, rdata: RData::A(ip) }],
            })),
            None => Outcome::Next,
        }
    }
}

#[test]
fn middlewares_run_in_registration_order() {
    let log = RefCell::new(vec![]);
    let h = DnsMiddlewareBuilder::new()
        .with(Recorder { id: 1, log: &log, rewrite: None })
        .with(Recorder { id: 2, log: &log, rewrite: Some(0x0a00_0001) })
        .build(config());
    let (req, _ctx, action) = h.lookup(wn("example.com"), RecordType::A);
    let res = drive(&h, &req, action).unwrap();
    assert_eq!(res.records.len(), 1);
    assert_eq!(res.records[0].rdata, RData::A(0x0a00_0001));
    assert_eq!(
        *log.borrow(),
        vec!["before 1", "before 2", "after 2 saw soa true", "after 1 saw ok 1"]
    );
}

#[test]
fn search_sets_rule_group_and_context() {
    let cfg = RuntimeConfig {
        client_rules: vec![ClientRule { client: IpNetwork::V4(0x0a00_0000, 8), group: "internal".to_string() }],
        rr_ttl: None,
    };
    let h: DnsMiddlewareHandler<DnsMockMiddleware> = DnsMiddlewareBuilder::new().build(cfg);
    let req = DnsRequest {
        query: Query { name: wn("example.com"), query_type: RecordType::A },
        subnet: None,
        src: IpAddress::V4(0x0a01_0101),
    };
    let (ctx, action) = h.search(&req, &ServerOpts { rule_group: None });
    assert_eq!(ctx.server_opts.rule_group, Some("internal".to_string()));
    assert_eq!(ctx.name, wn("example.com"));
    assert!(matches!(action, Action::Done(Err(DnsError::NoRecordsFound { .. }))));
    let other = DnsRequest { src: IpAddress::V4(0xc000_0201), ..req };
    let (ctx, _) = h.search(&other, &ServerOpts { rule_group: None });
    assert_eq!(ctx.server_opts.rule_group, None);
}
