use vstd::prelude::*;

verus! {

/// How a received HTTP status is handled by the network sink.
#[derive(Debug, Clone, Copy, PartialEq, Eq, Structural)]
pub enum StatusClass {
    /// A 2xx status: the item was delivered.
    Success,
    /// Status 429: the endpoint asked the sender to slow down.
    TooManyRequests,
    /// Any other status: the item was refused.
    Failure,
}

/// True when `status` lies in the success range 200..=299.
pub open spec fn is_success_status(status: u16) -> bool {
    200 <= status && status <= 299
}

/// The status that an endpoint sends to signal rate limiting.
pub const TOO_MANY_REQUESTS: u16 = 429;

/// The handling class of a received status.
pub open spec fn status_class(status: u16) -> StatusClass {
    if is_success_status(status) {
        StatusClass::Success
    } else if status == TOO_MANY_REQUESTS {
        StatusClass::TooManyRequests
    } else {
        StatusClass::Failure
    }
}

/// Sorts a received status into one of the three handling classes.
pub fn classify_status(status: u16) -> (r: StatusClass)
    ensures
        r == status_class(status),
{
    if 200 <= status && status <= 299 {
        StatusClass::Success
    } else if status == TOO_MANY_REQUESTS {
        StatusClass::TooManyRequests
    } else {
        StatusClass::Failure
    }
}

/// What became of one item handed to the network sink.
#[derive(Debug, PartialEq, Eq)]
pub enum Outcome {
    /// The endpoint answered with a success status.
    Delivered,
    /// The endpoint answered 429; the item is dropped without a retry.
    Throttled,
    /// The endpoint answered with another status; its body is kept for diagnostics.
    Rejected { status: u16, body: String },
    /// The request could not be sent or its response not received.
    TransportError { reason: String },
}

/// Where the sink stands within the item it is handling.
#[derive(Debug, Clone, Copy, PartialEq, Eq, Structural)]
pub enum Phase {
    /// Waiting for the next item from upstream.
    Ready,
    /// A request is out; waiting for its response or its failure.
    Sending,
    /// A refused response came back; waiting for its body text.
    ReadingBody { status: u16 },
    /// Upstream is exhausted; the sink has completed.
    Finished,
}

/// What the driver of a sink run reports back after doing the last action.
#[derive(Debug, PartialEq, Eq)]
pub enum Event {
    /// The next item pulled from upstream, or `None` when the stream is exhausted.
    Pulled(Option<Vec<u8>>),
    /// The response to the outstanding request arrived with this status.
    Responded(u16),
    /// The outstanding request failed before a response arrived.
    TransportFailed(String),
    /// The text of the refused response (or a description of why it could not be read).
    BodyRead(String),
}

/// What the driver of a sink run must do next.
#[derive(Debug, PartialEq, Eq)]
pub enum Action {
    /// Issue one request with this body, then report `Responded` or `TransportFailed`.
    Send(Vec<u8>),
    /// Read the body of the response just received, then report `BodyRead`.
    ReadBody,
    /// The current item is settled with this outcome: record it, then pull the next item.
    Settle(Outcome),
    /// Upstream is exhausted: the sink completes successfully.
    Finish,
}

/// The abstract state of a sink run: its phase, the items pulled so far in
/// arrival order, and the outcome settled for each finished item.
pub struct RunView {
    pub phase: Phase,
    pub items: Seq<Seq<u8>>,
    pub outcomes: Seq<Outcome>,
}

impl RunView {
    /// The state before anything has been pulled.
    pub open spec fn initial() -> RunView {
        RunView { phase: Phase::Ready, items: seq![], outcomes: seq![] }
    }

    /// True while one item has been pulled but not yet settled.
    pub open spec fn in_flight(self) -> bool {
        self.phase is Sending || self.phase is ReadingBody
    }

    /// Every pulled item is settled exactly once, but the one in flight.
    pub open spec fn wf(self) -> bool {
        &&& if self.in_flight() {
            self.outcomes.len() + 1 == self.items.len()
        } else {
            self.outcomes.len() == self.items.len()
        }
        &&& self.phase is ReadingBody ==> status_class(self.phase->status) == StatusClass::Failure
    }

    /// The events that the run can take in its current phase.
    pub open spec fn accepts(self, ev: Event) -> bool {
        ||| self.phase is Ready && ev is Pulled
        ||| self.phase is Sending && (ev is Responded || ev is TransportFailed)
        ||| self.phase is ReadingBody && ev is BodyRead
    }

    /// The state after settling the current item with `o`.
    pub open spec fn settle(self, o: Outcome) -> (RunView, Action) {
        (RunView { phase: Phase::Ready, outcomes: self.outcomes.push(o), ..self }, Action::Settle(o))
    }

    /// The next state and action of the run on event `ev`.
    pub open spec fn next(self, ev: Event) -> (RunView, Action) {
        match ev {
            Event::Pulled(None) => (RunView { phase: Phase::Finished, ..self }, Action::Finish),
            Event::Pulled(Some(b)) => (
                RunView { phase: Phase::Sending, items: self.items.push(b@), ..self },
                Action::Send(b),
            ),
            Event::Responded(status) => match status_class(status) {
                StatusClass::Success => self.settle(Outcome::Delivered),
                StatusClass::TooManyRequests => self.settle(Outcome::Throttled),
                StatusClass::Failure => (
                    RunView { phase: Phase::ReadingBody { status }, ..self },
                    Action::ReadBody,
                ),
            },
            Event::TransportFailed(reason) => self.settle(Outcome::TransportError { reason }),
            Event::BodyRead(body) => self.settle(
                Outcome::Rejected { status: self.phase->status, body },
            ),
        }
    }
}

/// The per-item decisions of the network sink, one item at a time and in
/// arrival order. The driver performs each action and reports the event.
/// Every item is sent exactly once: a throttled or failed request is settled
/// and logged, never retried, so one bad item cannot stall the stream.
pub struct SinkRun {
    phase: Phase,
    items: Ghost<Seq<Seq<u8>>>,
    outcomes: Ghost<Seq<Outcome>>,
}

impl View for SinkRun {
    type V = RunView;

    closed spec fn view(&self) -> RunView {
        RunView { phase: self.phase, items: self.items@, outcomes: self.outcomes@ }
    }
}

impl SinkRun {
    /// A run that has pulled nothing yet; its driver starts by pulling.
    pub fn new() -> (r: SinkRun)
        ensures
            r@ == RunView::initial(),
    {
        SinkRun { phase: Phase::Ready, items: Ghost(Seq::empty()), outcomes: Ghost(Seq::empty()) }
    }

    /// The current phase.
    pub fn phase(&self) -> (r: Phase)
        ensures
            r == self@.phase,
    {
        self.phase
    }

    /// Whether `ev` may be reported in the current phase.
    pub fn accepts(&self, ev: &Event) -> (r: bool)
        ensures
            r == self@.accepts(*ev),
    {
        match self.phase {
            Phase::Ready => matches!(ev, Event::Pulled(_)),
            Phase::Sending => matches!(ev, Event::Responded(_) | Event::TransportFailed(_)),
            Phase::ReadingBody { .. } => matches!(ev, Event::BodyRead(_)),
            Phase::Finished => false,
        }
    }

    fn settle(&mut self, o: Outcome) -> (action: Action)
        requires
            old(self)@.in_flight(),
            old(self)@.wf(),
        ensures
            (final(self)@, action) == old(self)@.settle(o),
            final(self)@.wf(),
    {
        self.phase = Phase::Ready;
        self.outcomes = Ghost(self.outcomes@.push(o));
        Action::Settle(o)
    }

    /// Takes one event and returns what to do next.
    pub fn step(&mut self, ev: Event) -> (action: Action)
        requires
            old(self)@.wf(),
            old(self)@.accepts(ev),
        ensures
            (final(self)@, action) == old(self)@.next(ev),
            final(self)@.wf(),
    {
        match ev {
            Event::Pulled(None) => {
                self.phase = Phase::Finished;
                Action::Finish
            },
            Event::Pulled(Some(b)) => {
                self.phase = Phase::Sending;
                self.items = Ghost(self.items@.push(b@));
                Action::Send(b)
            },
            Event::Responded(status) => match classify_status(status) {
                StatusClass::Success => self.settle(Outcome::Delivered),
                StatusClass::TooManyRequests => self.settle(Outcome::Throttled),
                StatusClass::Failure => {
                    self.phase = Phase::ReadingBody { status };
                    Action::ReadBody
                },
            },
            Event::TransportFailed(reason) => self.settle(Outcome::TransportError { reason }),
            Event::BodyRead(body) => {
                let status = match self.phase {
                    Phase::ReadingBody { status } => status,
                    _ => 0,
                };
                self.settle(Outcome::Rejected { status, body })
            },
        }
    }
}

/// A run replayed over `evs` from `s`: the state it reaches and the actions it
/// returns, in order.
pub open spec fn replay(s: RunView, evs: Seq<Event>) -> (RunView, Seq<Action>)
    decreases evs.len(),
{
    if evs.len() == 0 {
        (s, seq![])
    } else {
        let (t, a) = s.next(evs[0]);
        let (u, acts) = replay(t, evs.drop_first());
        (u, seq![a] + acts)
    }
}

/// True when every event of `evs` is accepted in the state that the run has
/// reached when it comes.
pub open spec fn admissible(s: RunView, evs: Seq<Event>) -> bool
    decreases evs.len(),
{
    evs.len() == 0 || (s.accepts(evs[0]) && admissible(s.next(evs[0]).0, evs.drop_first()))
}

/// The bodies of the `Send` actions among `acts`, in order.
pub open spec fn sent_bodies(acts: Seq<Action>) -> Seq<Seq<u8>>
    decreases acts.len(),
{
    if acts.len() == 0 {
        seq![]
    } else {
        let rest = sent_bodies(acts.drop_first());
        match acts[0] {
            Action::Send(b) => seq![b@] + rest,
            _ => rest,
        }
    }
}

/// The items delivered by upstream among `evs`, in order.
pub open spec fn pulled_items(evs: Seq<Event>) -> Seq<Seq<u8>>
    decreases evs.len(),
{
    if evs.len() == 0 {
        seq![]
    } else {
        let rest = pulled_items(evs.drop_first());
        match evs[0] {
            Event::Pulled(Some(b)) => seq![b@] + rest,
            _ => rest,
        }
    }
}

/// The requests a sink run issues carry the upstream items as their bodies,
/// one request per item, in arrival order: no item is reordered, dropped or
/// sent twice.
pub proof fn lemma_bodies_follow_items(s: RunView, evs: Seq<Event>)
    requires
        admissible(s, evs),
    ensures
        sent_bodies(replay(s, evs).1) == pulled_items(evs),
    decreases evs.len(),
{
    if evs.len() > 0 {
        let (t, a) = s.next(evs[0]);
        let acts = replay(t, evs.drop_first()).1;
        lemma_bodies_follow_items(t, evs.drop_first());
        assert((seq![a] + acts).drop_first() =~= acts);
    }
}

/// A replay from a well-formed state stays well formed, and records exactly the
/// items that upstream delivered.
pub proof fn lemma_replay_wf(s: RunView, evs: Seq<Event>)
    requires
        s.wf(),
        admissible(s, evs),
    ensures
        replay(s, evs).0.wf(),
        replay(s, evs).0.items == s.items + pulled_items(evs),
    decreases evs.len(),
{
    if evs.len() == 0 {
        assert(s.items + pulled_items(evs) =~= s.items);
    } else {
        let t = s.next(evs[0]).0;
        lemma_replay_wf(t, evs.drop_first());
        match evs[0] {
            Event::Pulled(Some(b)) => {
                assert(s.items + pulled_items(evs) =~= t.items + pulled_items(evs.drop_first()));
            },
            _ => {
                assert(t.items == s.items);
            },
        }
    }
}

/// From the start, every item pulled is settled with exactly one outcome,
/// except the one still in flight.
pub proof fn lemma_one_outcome_per_item(evs: Seq<Event>)
    requires
        admissible(RunView::initial(), evs),
    ensures
        ({
            let t = replay(RunView::initial(), evs).0;
            &&& t.items == pulled_items(evs)
            &&& t.outcomes.len() == t.items.len() - (if t.in_flight() { 1int } else { 0int })
        }),
{
    lemma_replay_wf(RunView::initial(), evs);
    assert(RunView::initial().items + pulled_items(evs) =~= pulled_items(evs));
}

/// The outcome that settles an item whose request ended in `ev`; `body` is the
/// response text, read only for a refused status.
pub open spec fn outcome_of(ev: Event, body: String) -> Outcome {
    match ev {
        Event::Responded(status) => match status_class(status) {
            StatusClass::Success => Outcome::Delivered,
            StatusClass::TooManyRequests => Outcome::Throttled,
            StatusClass::Failure => Outcome::Rejected { status, body },
        },
        Event::TransportFailed(reason) => Outcome::TransportError { reason },
        _ => Outcome::Delivered,
    }
}

/// Whatever ends the request in flight (a success status, 429, another
/// status, or a transport failure), the item is settled exactly once with the
/// outcome of its category, within two steps, and the run goes back to pulling
/// the next item.
pub proof fn lemma_every_category_settles(s: RunView, ev: Event, body: String)
    requires
        s.wf(),
        s.phase is Sending,
        s.accepts(ev),
    ensures
        ({
            let (t, a) = s.next(ev);
            let (u, b) = t.next(Event::BodyRead(body));
            let (v, settled) = if a is ReadBody { (u, b) } else { (t, a) };
            &&& a is ReadBody ==> t.accepts(Event::BodyRead(body)) && t.wf()
            &&& settled == Action::Settle(outcome_of(ev, body))
            &&& v.phase is Ready
            &&& v.items == s.items
            &&& v.outcomes == s.outcomes.push(outcome_of(ev, body))
        }),
{
}

/// The HTTP method of the requests a network sink issues.
#[derive(Debug, Clone, Copy, PartialEq, Eq, Structural)]
pub enum Method {
    Get,
    Post,
    Put,
    Patch,
    Delete,
}

impl Default for Method {
    /// A sink posts its items unless told otherwise.
    fn default() -> (r: Method)
        ensures
            r == Method::Post,
    {
        Method::Post
    }
}

/// The configuration of a network sink: target URL, method, and the headers
/// applied to every request.
pub struct SinkConfig {
    pub endpoint: Seq<char>,
    pub method: Method,
    pub headers: Seq<(Seq<char>, Seq<char>)>,
}

/// The request a sink issues for one item.
pub struct RequestView {
    pub method: Method,
    pub url: Seq<char>,
    pub headers: Seq<(Seq<char>, Seq<char>)>,
    pub body: Seq<u8>,
}

/// Header pairs as character sequences.
pub open spec fn headers_view(h: Seq<(String, String)>) -> Seq<(Seq<char>, Seq<char>)> {
    h.map_values(|p: (String, String)| (p.0@, p.1@))
}

impl SinkConfig {
    /// The configuration given to the constructor; no headers when none are given.
    pub open spec fn built_from(
        endpoint: Seq<char>,
        method: Method,
        headers: Option<Seq<(Seq<char>, Seq<char>)>>,
    ) -> SinkConfig {
        SinkConfig {
            endpoint,
            method,
            headers: match headers {
                Some(h) => h,
                None => seq![],
            },
        }
    }

    /// The request issued for an item whose payload is `body`.
    pub open spec fn request_for(self, body: Seq<u8>) -> RequestView {
        RequestView { method: self.method, url: self.endpoint, headers: self.headers, body }
    }
}

/// A sink that posts each item of a stream as the body of one HTTP request.
pub struct HttpOutput {
    endpoint: String,
    method: Method,
    default_headers: Vec<(String, String)>,
}

impl View for HttpOutput {
    type V = SinkConfig;

    closed spec fn view(&self) -> SinkConfig {
        SinkConfig {
            endpoint: self.endpoint@,
            method: self.method,
            headers: headers_view(self.default_headers@),
        }
    }
}

impl HttpOutput {
    /// A sink for `endpoint` with `method`; `default_headers` go on every request.
    pub fn new(endpoint: String, method: Method, default_headers: Option<Vec<(String, String)>>) -> (r: HttpOutput)
        ensures
            r@ == SinkConfig::built_from(
                endpoint@,
                method,
                match default_headers {
                    Some(h) => Some(headers_view(h@)),
                    None => None,
                },
            ),
    {
        let default_headers = match default_headers {
            Some(h) => h,
            None => Vec::new(),
        };
        proof {
            assert(headers_view(Seq::<(String, String)>::empty()) =~= seq![]);
        }
        HttpOutput { endpoint, method, default_headers }
    }

    /// The target URL.
    pub fn endpoint(&self) -> (r: &str)
        ensures
            r@ == self@.endpoint,
    {
        self.endpoint.as_str()
    }

    /// The method of every request.
    pub fn method(&self) -> (r: Method)
        ensures
            r == self@.method,
    {
        self.method
    }

    /// The headers applied to every request, in the order given.
    pub fn default_headers(&self) -> (r: &Vec<(String, String)>)
        ensures
            headers_view(r@) == self@.headers,
    {
        &self.default_headers
    }
}

/// Two sinks built from the same endpoint, method and default headers issue
/// the same request for every item.
pub proof fn lemma_same_configuration_same_requests(
    a: HttpOutput,
    b: HttpOutput,
    endpoint: Seq<char>,
    method: Method,
    headers: Option<Seq<(Seq<char>, Seq<char>)>>,
)
    requires
        a@ == SinkConfig::built_from(endpoint, method, headers),
        b@ == SinkConfig::built_from(endpoint, method, headers),
    ensures
        a@ == b@,
        forall|body: Seq<u8>| #[trigger] a@.request_for(body) == b@.request_for(body),
{
}

} // verus!
