use vstd::prelude::*;
use vstd::string::StrSliceExecFns;
use std::collections::VecDeque;

verus! {

/// The shortest collector URL that is accepted, in characters.
pub const MIN_ENDPOINT_LEN: usize = 4;

/// The pending record bodies, oldest first.
pub struct ReportQueue {
    items: VecDeque<String>,
}

impl View for ReportQueue {
    type V = Seq<Seq<char>>;

    closed spec fn view(&self) -> Seq<Seq<char>> {
        self.items@.map_values(|s: String| s@)
    }
}

impl ReportQueue {
    /// An empty queue.
    pub fn new() -> (r: ReportQueue)
        ensures
            r@ == Seq::<Seq<char>>::empty(),
    {
        let r = ReportQueue { items: VecDeque::new() };
        assert(r@ =~= Seq::<Seq<char>>::empty());
        r
    }

    /// The number of pending bodies.
    pub fn len(&self) -> (r: usize)
        ensures
            r == self@.len(),
    {
        self.items.len()
    }

    /// Appends a body at the back; this always succeeds.
    pub fn add_report(&mut self, report: &String)
        ensures
            final(self)@ == old(self)@.push(report@),
    {
        self.items.push_back(report.clone());
        assert(final(self)@ =~= old(self)@.push(report@));
    }

    /// Takes the oldest body out of the queue, if there is one.
    pub fn next_report(&mut self) -> (r: Option<String>)
        ensures
            old(self)@.len() == 0 ==> r is None && final(self)@ == old(self)@,
            old(self)@.len() > 0 ==> (r matches Some(b) && b@ == old(self)@[0]
                && final(self)@ == old(self)@.drop_first()),
    {
        let ghost before = self.items@;
        let r = self.items.pop_front();
        proof {
            if before.len() > 0 {
                assert(before.map_values(|s: String| s@)[0] == before[0]@);
                assert(self@ =~= old(self)@.drop_first());
            }
        }
        r
    }
}

/// Why a collector endpoint was refused.
#[derive(Debug, PartialEq, Eq, Structural)]
pub enum ConfigError {
    /// No endpoint was configured.
    Missing,
    /// The endpoint has fewer than `MIN_ENDPOINT_LEN` characters.
    TooShort,
}

/// What the reporter does next.
pub enum ReporterAction {
    /// Post `body` to `url`, once; the body is not queued again whatever the outcome.
    Post { url: String, body: String },
    /// Nothing is pending: pause briefly before looking again.
    Idle,
}

/// Delivers queued bodies to one collector endpoint.
pub struct AsyncLogReporter {
    target_url: String,
}

impl AsyncLogReporter {
    /// The endpoint bodies are posted to.
    pub closed spec fn url(&self) -> Seq<char> {
        self.target_url@
    }

    /// A reporter for the configured endpoint; it must be present and hold at
    /// least `MIN_ENDPOINT_LEN` characters.
    pub fn new(endpoint: Option<String>) -> (r: Result<AsyncLogReporter, ConfigError>)
        ensures
            endpoint is None ==> r == Err::<AsyncLogReporter, ConfigError>(ConfigError::Missing),
            endpoint matches Some(u) ==> (u@.len() < MIN_ENDPOINT_LEN ==> r
                == Err::<AsyncLogReporter, ConfigError>(ConfigError::TooShort)),
            endpoint matches Some(u) ==> (u@.len() >= MIN_ENDPOINT_LEN ==> (r matches Ok(rep)
                && rep.url() == u@)),
    {
        match endpoint {
            None => Err(ConfigError::Missing),
            Some(u) => {
                if u.as_str().unicode_len() < MIN_ENDPOINT_LEN {
                    Err(ConfigError::TooShort)
                } else {
                    Ok(AsyncLogReporter { target_url: u })
                }
            },
        }
    }

    /// The endpoint bodies are posted to.
    pub fn target_url(&self) -> (r: &String)
        ensures
            r@ == self.url(),
    {
        &self.target_url
    }

    /// One step of the reporter: take the oldest pending body and post it, or
    /// idle when none is pending.
    pub fn next_action(&self, queue: &mut ReportQueue) -> (r: ReporterAction)
        ensures
            old(queue)@.len() == 0 ==> r is Idle && final(queue)@ == old(queue)@,
            old(queue)@.len() > 0 ==> (r matches ReporterAction::Post { url, body } && url@
                == self.url() && body@ == old(queue)@[0] && final(queue)@ == old(queue)@.drop_first()),
    {
        match queue.next_report() {
            Some(body) => ReporterAction::Post { url: self.target_url.clone(), body },
            None => ReporterAction::Idle,
        }
    }
}

/// The bodies that `n` reporter steps post, starting from queue contents `q`.
pub open spec fn deliveries(q: Seq<Seq<char>>, n: nat) -> Seq<Seq<char>>
    decreases n,
{
    if n == 0 || q.len() == 0 {
        Seq::empty()
    } else {
        seq![q[0]] + deliveries(q.drop_first(), (n - 1) as nat)
    }
}

/// The queue contents after `rs` are added one after the other to `q`.
pub open spec fn enqueued(q: Seq<Seq<char>>, rs: Seq<Seq<char>>) -> Seq<Seq<char>>
    decreases rs.len(),
{
    if rs.len() == 0 {
        q
    } else {
        enqueued(q, rs.drop_last()).push(rs.last())
    }
}

proof fn lemma_enqueued(q: Seq<Seq<char>>, rs: Seq<Seq<char>>)
    ensures
        enqueued(q, rs) == q + rs,
    decreases rs.len(),
{
    if rs.len() > 0 {
        lemma_enqueued(q, rs.drop_last());
        assert(q + rs =~= (q + rs.drop_last()).push(rs.last()));
    }
}

proof fn lemma_deliveries(q: Seq<Seq<char>>, n: nat)
    ensures
        deliveries(q, n) == q.take(if n <= q.len() { n as int } else { q.len() as int }),
    decreases n,
{
    if n > 0 && q.len() > 0 {
        lemma_deliveries(q.drop_first(), (n - 1) as nat);
        let m = if n <= q.len() { n as int } else { q.len() as int };
        assert(seq![q[0]] + q.drop_first().take(m - 1) =~= q.take(m));
    } else {
        assert(q.take(0) =~= Seq::<Seq<char>>::empty());
    }
}

/// Bodies added one after the other to a queue are posted in exactly that
/// order, each once, after those already pending; no outcome of a post puts a
/// body back.
pub proof fn delivery_is_fifo(q: Seq<Seq<char>>, rs: Seq<Seq<char>>)
    ensures
        deliveries(enqueued(q, rs), q.len() + rs.len()) == q + rs,
        forall|n: nat| n <= q.len() + rs.len() ==> #[trigger] deliveries(enqueued(q, rs), n)
            == (q + rs).take(n as int),
{
    lemma_enqueued(q, rs);
    lemma_deliveries(q + rs, q.len() + rs.len());
    assert((q + rs).take((q.len() + rs.len()) as int) =~= q + rs);
    assert forall|n: nat| n <= q.len() + rs.len() implies #[trigger] deliveries(enqueued(q, rs), n)
        == (q + rs).take(n as int) by {
        lemma_deliveries(q + rs, n);
    }
}

} // verus!
