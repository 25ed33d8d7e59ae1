use vstd::prelude::*;

use crate::name::WildcardName;
use crate::rule_group::{client_key, is_first_match, net_contains, select_rule_group, ClientRule, ClientSubnet, IpAddress};

verus! {

/// The type of a DNS query.
#[derive(Clone, Copy, Debug, PartialEq, Eq, Structural)]
pub enum RecordType {
    A,
    AAAA,
    CNAME,
    SRV,
    SOA,
}

/// A question: a name and a record type.
#[derive(Debug, PartialEq, Eq)]
pub struct Query {
    pub name: WildcardName,
    pub query_type: RecordType,
}

impl Query {
    /// A copy of this query.
    pub fn duplicate(&self) -> (r: Query)
        ensures
            r.name@ == self.name@,
            r.query_type == self.query_type,
    {
        Query { name: self.name.duplicate(), query_type: self.query_type }
    }
}

/// The data of an answer record.
#[derive(Clone, Copy, Debug, PartialEq, Eq, Structural)]
pub enum RData {
    A(u32),
    AAAA(u128),
}

/// An answer record.
#[derive(Debug, PartialEq, Eq)]
pub struct Record {
    pub name: WildcardName,
    pub ttl: u32,
    pub rdata: RData,
}

/// A successful answer to a query.
#[derive(Debug, PartialEq, Eq)]
pub struct DnsResponse {
    pub query: Query,
    pub records: Vec<Record>,
}

/// Why a query got no answer.
#[derive(Debug, PartialEq, Eq)]
pub enum DnsError {
    /// Nothing answered: an authoritative absence, with the query and the TTL
    /// of the negative answer.
    NoRecordsFound { query: Query, ttl: u32 },
    /// A failure reported by a middleware (an upstream or transport error).
    Upstream(String),
}

impl DnsError {
    /// Whether this is an authoritative absence (an SOA-style answer).
    pub fn is_soa(&self) -> (r: bool)
        ensures
            r == (self is NoRecordsFound),
    {
        match self {
            DnsError::NoRecordsFound { .. } => true,
            DnsError::Upstream(_) => false,
        }
    }
}

/// A request as a transport received it.
#[derive(Debug)]
pub struct DnsRequest {
    pub query: Query,
    pub subnet: Option<ClientSubnet>,
    pub src: IpAddress,
}

/// The configuration shared by every request.
#[derive(Debug)]
pub struct RuntimeConfig {
    pub client_rules: Vec<ClientRule>,
    pub rr_ttl: Option<u64>,
}

/// Per-listener options, with the rule group of the request once chosen.
#[derive(Debug, PartialEq, Eq)]
pub struct ServerOpts {
    pub rule_group: Option<String>,
}

impl ServerOpts {
    /// A copy of these options.
    pub fn duplicate(&self) -> (r: ServerOpts)
        ensures
            r == *self,
    {
        ServerOpts {
            rule_group: match &self.rule_group {
                Some(g) => Some(g.clone()),
                None => None,
            },
        }
    }
}

/// What one request's middlewares work with.
#[derive(Debug)]
pub struct DnsContext {
    pub name: WildcardName,
    pub server_opts: ServerOpts,
}

/// What a middleware did with the request, or with the result of the rest
/// of the chain.
#[derive(Debug)]
pub enum Outcome {
    /// Before: run the rest of the chain. After: pass its result on unchanged.
    Next,
    /// Answer with this result.
    Reply(Result<DnsResponse, DnsError>),
}

/// What the chain asks for next.
#[derive(Debug)]
pub enum Action {
    /// Run middleware `i` on the request.
    Enter(usize),
    /// Middleware `i` called the rest of the chain, which gave this result.
    Leave(usize, Result<DnsResponse, DnsError>),
    /// The chain's result.
    Done(Result<DnsResponse, DnsError>),
}

/// The answer when no middleware answers.
pub open spec fn is_default_result(r: Result<DnsResponse, DnsError>, q: Query, rr_ttl: Option<u64>) -> bool {
    match r {
        Err(DnsError::NoRecordsFound { query, ttl }) => query.name@ == q.name@ && query.query_type
            == q.query_type && ttl == (match rr_ttl {
            Some(t) => t as u32,
            None => 0u32,
        }),
        _ => false,
    }
}

/// Hands a result back to the middleware that called the rest of the chain
/// from position `i` (the one before it), or ends the chain.
pub open spec fn unwind(i: int, r: Result<DnsResponse, DnsError>) -> Action {
    if i == 0 {
        Action::Done(r)
    } else {
        Action::Leave((i - 1) as usize, r)
    }
}

/// The action after `at` when its middleware ends with `outcome`, in a chain
/// of `n` middlewares; `None` where the default handler runs, which happens
/// when the last middleware calls the rest of the chain.
pub open spec fn chain_step(n: int, at: Action, outcome: Outcome) -> Option<Action> {
    match (at, outcome) {
        (Action::Enter(i), Outcome::Next) => if i + 1 < n {
            Some(Action::Enter((i + 1) as usize))
        } else {
            None
        },
        (Action::Enter(i), Outcome::Reply(res)) => Some(unwind(i as int, res)),
        (Action::Leave(i, res), Outcome::Next) => Some(unwind(i as int, res)),
        (Action::Leave(i, _), Outcome::Reply(res)) => Some(unwind(i as int, res)),
        (Action::Done(res), _) => Some(Action::Done(res)),
    }
}

/// Builds a handler from middlewares in the order they are added.
pub struct DnsMiddlewareBuilder<M> {
    middlewares: Vec<M>,
}

/// Runs each request through its middlewares, then the default handler.
pub struct DnsMiddlewareHandler<M> {
    cfg: RuntimeConfig,
    middlewares: Vec<M>,
}

impl<M> DnsMiddlewareBuilder<M> {
    /// The middlewares added so far, in order.
    pub closed spec fn registered(&self) -> Seq<M> {
        self.middlewares@
    }

    /// A builder with no middleware.
    pub fn new() -> (r: Self)
        ensures
            r.registered() == Seq::<M>::empty(),
    {
        DnsMiddlewareBuilder { middlewares: Vec::new() }
    }

    /// Adds `middleware` after those added before.
    pub fn with(self, middleware: M) -> (r: Self)
        ensures
            r.registered() == self.registered().push(middleware),
    {
        let mut middlewares = self.middlewares;
        middlewares.push(middleware);
        DnsMiddlewareBuilder { middlewares }
    }

    /// The handler that runs the middlewares in the order they were added.
    pub fn build(self, cfg: RuntimeConfig) -> (r: DnsMiddlewareHandler<M>)
        ensures
            r.chain() == self.registered(),
            r.config() == cfg,
    {
        DnsMiddlewareHandler { cfg, middlewares: self.middlewares }
    }
}

impl<M> DnsMiddlewareHandler<M> {
    /// The middlewares, in the order they run.
    pub closed spec fn chain(&self) -> Seq<M> {
        self.middlewares@
    }

    /// The shared configuration.
    pub closed spec fn config(&self) -> RuntimeConfig {
        self.cfg
    }

    /// The shared configuration.
    pub fn cfg(&self) -> (r: &RuntimeConfig)
        ensures
            *r == self.config(),
    {
        &self.cfg
    }

    /// Middleware `i`.
    pub fn middleware(&self, i: usize) -> (r: &M)
        requires
            i < self.chain().len(),
        ensures
            *r == self.chain()[i as int],
    {
        &self.middlewares[i]
    }

    /// The result of the default handler, which runs when no middleware
    /// answers: an authoritative absence for the query, with the configured
    /// TTL, or 0 when none is configured.
    pub fn default_result(&self, req: &DnsRequest) -> (r: Result<DnsResponse, DnsError>)
        ensures
            is_default_result(r, req.query, self.config().rr_ttl),
    {
        let ttl: u32 = match self.cfg.rr_ttl {
            Some(t) => t as u32,
            None => 0,
        };
        Err(DnsError::NoRecordsFound { query: req.query.duplicate(), ttl })
    }

    /// The action that follows `at` when the middleware it names ends with
    /// `outcome`. A middleware that answers hands its result to the one
    /// before it; one that calls the rest of the chain makes the next one run,
    /// or the default handler after the last.
    pub fn step(&self, req: &DnsRequest, at: Action, outcome: Outcome) -> (r: Action)
        ensures
            match chain_step(self.chain().len() as int, at, outcome) {
                Some(a) => r == a,
                None => at matches Action::Enter(i) && r matches Action::Leave(j, res) && j == i
                    && is_default_result(res, req.query, self.config().rr_ttl),
            },
    {
        match at {
            Action::Enter(i) => match outcome {
                Outcome::Next => {
                    if i < self.middlewares.len() && i + 1 < self.middlewares.len() {
                        Action::Enter(i + 1)
                    } else {
                        Action::Leave(i, self.default_result(req))
                    }
                },
                Outcome::Reply(res) => {
                    if i == 0 {
                        Action::Done(res)
                    } else {
                        Action::Leave(i - 1, res)
                    }
                },
            },
            Action::Leave(i, res) => {
                let res = match outcome {
                    Outcome::Next => res,
                    Outcome::Reply(other) => other,
                };
                if i == 0 {
                    Action::Done(res)
                } else {
                    Action::Leave(i - 1, res)
                }
            },
            Action::Done(res) => Action::Done(res),
        }
    }

    /// Starts a request: picks its rule group from the configured client
    /// rules (by its Client-Subnet network, else its source address), builds
    /// its context, and gives the first action: the first middleware, or the
    /// default handler's result when there is none.
    pub fn search(&self, req: &DnsRequest, server_opts: &ServerOpts) -> (r: (DnsContext, Action))
        ensures
            r.0.name@ == req.query.name@,
            match r.0.server_opts.rule_group {
                Some(g) => exists|i: int|
                    is_first_match(self.config().client_rules@, client_key(req.subnet, req.src), i)
                        && g@ == self.config().client_rules@[i].group@,
                None => forall|i: int|
                    0 <= i < self.config().client_rules@.len() ==> !net_contains(
                        self.config().client_rules@[i].client,
                        client_key(req.subnet, req.src),
                    ),
            },
            self.chain().len() > 0 ==> r.1 == Action::Enter(0),
            self.chain().len() == 0 ==> (r.1 matches Action::Done(res) && is_default_result(
                res,
                req.query,
                self.config().rr_ttl,
            )),
    {
        let rule_group = select_rule_group(&self.cfg.client_rules, req.subnet, req.src);
        let mut opts = server_opts.duplicate();
        opts.rule_group = rule_group;
        let ctx = DnsContext { name: req.query.name.duplicate(), server_opts: opts };
        if self.middlewares.len() > 0 {
            (ctx, Action::Enter(0))
        } else {
            (ctx, Action::Done(self.default_result(req)))
        }
    }

    /// Starts a query for `name` and `query_type` from no particular client,
    /// as `search` does.
    pub fn lookup(&self, name: WildcardName, query_type: RecordType) -> (r: (DnsRequest, DnsContext, Action))
        ensures
            r.0.query.name@ == name@,
            r.0.query.query_type == query_type,
            r.0.subnet is None,
            r.0.src == IpAddress::V4(0),
            r.1.name@ == name@,
            self.chain().len() > 0 ==> r.2 == Action::Enter(0),
            self.chain().len() == 0 ==> (r.2 matches Action::Done(res) && is_default_result(
                res,
                r.0.query,
                self.config().rr_ttl,
            )),
    {
        let req = DnsRequest { query: Query { name, query_type }, subnet: None, src: IpAddress::V4(0) };
        let (ctx, action) = self.search(&req, &ServerOpts { rule_group: None });
        (req, ctx, action)
    }
}

/// Middlewares run in the order they were registered: when middleware `i`
/// calls the rest of the chain, middleware `i + 1` runs next; and what
/// middleware `i + 1` answers after the rest of the chain returned is the
/// result that middleware `i` then receives (the first one's answer ends the
/// chain).
pub proof fn lemma_middleware_order(n: int, i: usize, inner: Result<DnsResponse, DnsError>, res: Result<DnsResponse, DnsError>)
    requires
        i + 1 < n <= usize::MAX,
    ensures
        chain_step(n, Action::Enter(i), Outcome::Next) == Some(Action::Enter((i + 1) as usize)),
        chain_step(n, Action::Leave((i + 1) as usize, inner), Outcome::Reply(res)) == Some(Action::Leave(i, res)),
        chain_step(n, Action::Leave(0, inner), Outcome::Reply(res)) == Some(Action::Done(res)),
{
}

} // verus!
