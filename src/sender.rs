//! Pushing a sink's spool: the body of one request is built from files taken
//! off the queue, and the request's outcome decides whether those files are
//! deleted or put back.
use vstd::prelude::*;
use crate::spool::SpoolQueue;
use crate::text::{byte_len, chars_of, string_from_chars, strings_view};

verus! {

/// The most bytes of lines gathered into one chunk of a request body.
pub const CHUNK_SIZE: u64 = 1048576;

/// How much one request body may hold.
#[derive(Clone, Copy, Debug)]
pub struct BatchLimits {
    /// Files per request.
    pub batch_count: u64,
    /// Bytes per request.
    pub batch_size: u64,
}

/// The body of one request, as it is being read: the files it took from the
/// queue and how much it holds.
pub struct Body {
    /// The paths taken off the queue, in order.
    pub consumed: Vec<String>,
    /// Bytes of lines in the body so far.
    pub bytes_sent: u64,
    /// Files opened for the body so far.
    pub files_sent: u64,
}

/// Whether a batch may take another file.
pub open spec fn may_grow(files_sent: u64, bytes_sent: u64, limits: BatchLimits) -> bool {
    files_sent < limits.batch_count && bytes_sent < limits.batch_size
}

/// A line of a spool file as it goes into a body: blank lines are dropped,
/// and a missing final newline is added.
pub open spec fn body_line(line: Seq<char>) -> Option<Seq<char>> {
    if line.len() == 0 || line == seq!['\n'] {
        None
    } else if line.last() == '\n' {
        Some(line)
    } else {
        Some(line.push('\n'))
    }
}

/// The body form of one line read from a spool file, if it is kept.
pub fn to_body_line(line: &str) -> (r: Option<String>)
    ensures
        match r {
            Some(s) => body_line(line@) == Some(s@),
            None => body_line(line@) is None,
        },
{
    let mut s = chars_of(line);
    let n = s.len();
    if n == 0 || (n == 1 && s[0] == '\n') {
        proof {
            if n == 1 {
                assert(s@ =~= seq!['\n']);
            }
        }
        return None;
    }
    proof {
        if line@ == seq!['\n'] {
            assert(s@[0] == '\n');
        }
    }
    if s[n - 1] != '\n' {
        s.push('\n');
    }
    Some(string_from_chars(&s))
}

impl Body {
    pub open spec fn consumed(&self) -> Seq<Seq<char>> {
        strings_view(self.consumed@)
    }

    /// An empty body.
    pub fn new() -> (r: Body)
        ensures
            r.consumed() == Seq::<Seq<char>>::empty(),
            r.bytes_sent == 0,
            r.files_sent == 0,
    {
        let r = Body { consumed: Vec::new(), bytes_sent: 0, files_sent: 0 };
        assert(r.consumed() =~= Seq::<Seq<char>>::empty());
        r
    }

    /// The files taken so far, in the order they were taken.
    pub fn get_files(&self) -> (r: Vec<String>)
        ensures
            strings_view(r@) == self.consumed(),
    {
        self.consumed.clone()
    }

    /// Takes the next file for the body: the oldest queued path, while the
    /// body holds fewer files than `batch_count` and fewer bytes than
    /// `batch_size`. The path is recorded before any of it is read.
    pub fn next_file(&mut self, queue: &mut SpoolQueue, limits: BatchLimits) -> (r: Option<
        String,
    >)
        ensures
            final(self).bytes_sent == old(self).bytes_sent,
            may_grow(old(self).files_sent, old(self).bytes_sent, limits) && old(queue)@.len() > 0
                ==> (r matches Some(p) && p@ == old(queue)@[0] && final(queue)@ == old(queue)@.drop_first() && final(self).consumed() == old(self).consumed().push(p@)
                && final(self).files_sent == old(self).files_sent + 1),
            !(may_grow(old(self).files_sent, old(self).bytes_sent, limits) && old(queue)@.len()
                > 0) ==> (r is None && final(queue)@ == old(queue)@ && final(self).consumed()
                == old(self).consumed() && final(self).files_sent == old(self).files_sent),
    {
        if self.files_sent >= limits.batch_count || self.bytes_sent >= limits.batch_size {
            return None;
        }
        match queue.pop_front() {
            None => None,
            Some(p) => {
                let ghost before = self.consumed@;
                self.consumed.push(p.clone());
                assert(strings_view(self.consumed@) =~= strings_view(before).push(p@));
                self.files_sent = self.files_sent + 1;
                Some(p)
            },
        }
    }

    /// Counts a line of `len` bytes into the body.
    pub fn count_line(&mut self, len: u64)
        ensures
            final(self).consumed() == old(self).consumed(),
            final(self).files_sent == old(self).files_sent,
            final(self).bytes_sent == (if old(self).bytes_sent + len > u64::MAX {
                u64::MAX as int
            } else {
                old(self).bytes_sent + len
            }),
    {
        self.bytes_sent = self.bytes_sent.saturating_add(len);
    }
}

/// `a + b`, saturated at `u64::MAX`.
pub open spec fn sat_add(a: int, b: int) -> int {
    if a + b > u64::MAX {
        u64::MAX as int
    } else {
        a + b
    }
}

/// Lines gathered for one chunk of a request body.
pub struct Chunk {
    /// The lines, each ending with a newline.
    pub lines: Vec<String>,
    /// Their length in bytes.
    pub len: u64,
}

impl Chunk {
    pub fn new() -> (r: Chunk)
        ensures
            r.lines@.len() == 0,
            r.len == 0,
    {
        Chunk { lines: Vec::new(), len: 0 }
    }

    /// Whether the chunk has reached its size.
    pub fn is_full(&self) -> (r: bool)
        ensures
            r == (self.len >= CHUNK_SIZE),
    {
        self.len >= CHUNK_SIZE
    }

    /// Adds a line read from a spool file to the chunk and counts it into
    /// `batch`; a blank line is skipped. Returns whether it was added.
    pub fn push_line(&mut self, batch: &mut Body, line: &str) -> (added: bool)
        ensures
            final(batch).consumed() == old(batch).consumed(),
            final(batch).files_sent == old(batch).files_sent,
            added == (body_line(line@) is Some),
            added ==> strings_view(final(self).lines@) == strings_view(old(self).lines@).push(
                body_line(line@)->0,
            ),
            added ==> final(self).len == sat_add(old(self).len as int, byte_len(body_line(line@)->0))
                && final(batch).bytes_sent == sat_add(
                old(batch).bytes_sent as int,
                byte_len(body_line(line@)->0),
            ),
            !added ==> final(self).lines@ == old(self).lines@ && final(self).len == old(self).len
                && final(batch).bytes_sent == old(batch).bytes_sent,
    {
        match to_body_line(line) {
            None => false,
            Some(l) => {
                let n = l.as_str().len() as u64;
                let ghost before = self.lines@;
                self.lines.push(l);
                assert(strings_view(self.lines@) =~= strings_view(before).push(body_line(line@)->0));
                self.len = self.len.saturating_add(n);
                batch.count_line(n);
                true
            },
        }
    }
}

/// How a request ended.
#[derive(Clone, Copy, Debug, PartialEq, Eq, Structural)]
pub enum HttpOutcome {
    /// A response with this status code.
    Status(u16),
    /// The connection failed.
    TransportError,
    /// No response came in time.
    Timeout,
}

/// Whether a request succeeded: a `2xx` response.
pub open spec fn succeeded(o: HttpOutcome) -> bool {
    match o {
        HttpOutcome::Status(s) => 200 <= s && s <= 299,
        _ => false,
    }
}

/// Whether `status` is a success (`2xx`).
pub fn is_success(status: u16) -> (r: bool)
    ensures
        r == (200 <= status && status <= 299),
{
    200 <= status && status <= 299
}

/// The state of one sender.
#[derive(Clone, Copy, Debug, PartialEq, Eq, Structural)]
pub enum State {
    /// Ready to start a request.
    Idle,
    /// A request is in flight.
    Sending,
    /// The queue was empty; sleeping one short tick.
    Waiting,
    /// The last request failed; sleeping the backoff delay.
    Backoff,
}

/// What the sender asks its driver to do next.
#[derive(Clone, Copy, Debug, PartialEq, Eq, Structural)]
pub enum SenderAction {
    /// Sleep one short tick, then hand the sender `Woken`.
    Wait,
    /// Build the request body from the sender's batch and send it.
    Send,
    /// Delete the files of the batch, reset the backoff, then poll again.
    Commit,
    /// Sleep the next backoff delay, then hand the sender `Woken`.
    Retry,
    /// Poll the sender again at once.
    Poll,
}

/// What happens to a sender.
#[derive(Clone, Copy, Debug, PartialEq, Eq, Structural)]
pub enum Event {
    /// It is polled while idle.
    Ready,
    /// Its request ended.
    Done(HttpOutcome),
    /// Its sleep is over.
    Woken,
}

/// Whether `event` can happen to a sender in `state`.
pub open spec fn fits(state: State, event: Event) -> bool {
    match event {
        Event::Ready => state == State::Idle,
        Event::Done(_) => state == State::Sending,
        Event::Woken => state == State::Waiting || state == State::Backoff,
    }
}

/// One sender of a sink: it takes batches of files off the shared queue and
/// pushes them, one request at a time.
pub struct Sender {
    pub state: State,
    pub batch: Body,
    /// Failed requests so far.
    pub errors: u64,
}

impl Sender {
    pub fn new() -> (r: Sender)
        ensures
            r.state == State::Idle,
            r.batch.consumed() == Seq::<Seq<char>>::empty(),
            r.errors == 0,
    {
        Sender { state: State::Idle, batch: Body::new(), errors: 0 }
    }

    /// One step of the sender, on `event`; the event must fit the state
    /// (`Ready` when idle, `Done` while sending, `Woken` while sleeping).
    ///
    /// - `Ready`: with nothing queued, wait a tick; else start a request
    ///   with an empty body, which the body then fills from the queue.
    /// - `Done(outcome)`: on a `2xx` response the files the body took are
    ///   returned, to be deleted, and the queue is left alone; on any other
    ///   outcome they go back to the front of the queue in their order,
    ///   nothing is returned, the error count goes up and the sender backs
    ///   off.
    /// - `Woken`: the sleep is over; the sender is idle again.
    pub fn poll(&mut self, event: Event, queue: &mut SpoolQueue) -> (r: (SenderAction, Vec<String>))
        requires
            fits(old(self).state, event),
        ensures
            event == Event::Ready ==> final(queue)@ == old(queue)@ && r.1@.len() == 0
                && final(self).errors == old(self).errors && (if old(queue)@.len() == 0 {
                r.0 == SenderAction::Wait && final(self).state == State::Waiting
                    && final(self).batch.consumed() == old(self).batch.consumed()
            } else {
                r.0 == SenderAction::Send && final(self).state == State::Sending
                    && final(self).batch.consumed() == Seq::<Seq<char>>::empty()
                    && final(self).batch.bytes_sent == 0 && final(self).batch.files_sent == 0
            }),
            event matches Event::Done(o) ==> final(self).batch.consumed() == Seq::<
                Seq<char>,
            >::empty() && (if succeeded(o) {
                r.0 == SenderAction::Commit && final(self).state == State::Idle && strings_view(r.1@) == old(self).batch.consumed() && final(queue)@ == old(queue)@ && final(self).errors == old(self).errors
            } else {
                r.0 == SenderAction::Retry && final(self).state == State::Backoff && r.1@.len()
                    == 0 && final(queue)@ == old(self).batch.consumed() + old(queue)@ && final(self).errors == (if old(self).errors == u64::MAX {
                    u64::MAX as int
                } else {
                    old(self).errors + 1
                })
            }),
            event == Event::Woken ==> r.0 == SenderAction::Poll && r.1@.len() == 0
                && final(self).state == State::Idle && final(queue)@ == old(queue)@ && final(self).errors == old(self).errors && final(self).batch.consumed() == old(self).batch.consumed(),
    {
        match event {
            Event::Ready => {
                if queue.is_empty() {
                    self.state = State::Waiting;
                    (SenderAction::Wait, Vec::new())
                } else {
                    self.batch = Body::new();
                    self.state = State::Sending;
                    (SenderAction::Send, Vec::new())
                }
            },
            Event::Done(outcome) => {
                let files = self.batch.get_files();
                self.batch = Body::new();
                let ok = match outcome {
                    HttpOutcome::Status(s) => is_success(s),
                    _ => false,
                };
                if ok {
                    self.state = State::Idle;
                    (SenderAction::Commit, files)
                } else {
                    queue.push_front_all(&files);
                    self.errors = self.errors.saturating_add(1);
                    self.state = State::Backoff;
                    (SenderAction::Retry, Vec::new())
                }
            },
            Event::Woken => {
                self.state = State::Idle;
                (SenderAction::Poll, Vec::new())
            },
        }
    }
}

} // verus!
