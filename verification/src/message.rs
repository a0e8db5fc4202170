//! The message passing loop of the engine: which step follows which answer,
//! and the cookies that link responses to requests.

use vstd::prelude::*;

verus! {

/// Links a response to its request. Cookies made by the engine are
/// negative; those made by its users are positive.
#[derive(Clone, Copy, Debug, PartialEq, Eq, Structural, Hash)]
pub struct MagicCookie(pub i64);

/// A message: encoded bytes.
pub struct Message {
    pub message: Vec<u8>,
}

/// A message with the cookie that links it to a request or response.
pub struct Package {
    pub message: Message,
    pub cookie: MagicCookie,
}

/// The response channel is permanently broken.
#[derive(Clone, Copy, Debug, PartialEq, Eq, Structural)]
pub struct ResponseChannelBroken;

/// The number of cookies a generator can make before its values repeat.
pub open spec fn cookie_period() -> nat {
    0x8000_0000_0000_0000
}

/// The cookie a fresh generator makes at its `n`-th call (counting from 0),
/// for `n` below the period.
pub open spec fn nth_cookie(n: nat) -> int {
    -1 - n
}

/// Makes the cookies for responses without a request: -1, -2, and so on,
/// counting down with wrap-around.
pub struct CookieGenerator {
    next: i64,
    issued: Ghost<nat>,
}

impl CookieGenerator {
    /// The number of cookies made so far.
    pub closed spec fn issued(&self) -> nat {
        self.issued@
    }

    /// The value of the next cookie.
    pub closed spec fn next_value(&self) -> i64 {
        self.next
    }

    /// The next value follows from the number of cookies made.
    pub closed spec fn wf(&self) -> bool {
        self.issued@ < cookie_period() ==> self.next as int == nth_cookie(self.issued@)
    }

    /// A generator that has made no cookie.
    pub fn new() -> (r: CookieGenerator)
        ensures
            r.wf(),
            r.issued() == 0,
            r.next_value() == -1,
    {
        CookieGenerator { next: -1, issued: Ghost(0) }
    }
}

impl MagicCookie {
    /// Makes a cookie for a response without a request: the generator's next
    /// value, after which it counts down by one (wrapping around).
    pub fn generate_cookie(generator: &mut CookieGenerator) -> (r: MagicCookie)
        requires
            old(generator).wf(),
        ensures
            final(generator).wf(),
            r.0 == old(generator).next_value(),
            final(generator).next_value() == old(generator).next_value().wrapping_sub(1),
            final(generator).issued() == old(generator).issued() + 1,
            old(generator).issued() < cookie_period() ==> r.0 as int == nth_cookie(old(generator).issued()),
    {
        let value = generator.next;
        generator.next = generator.next.wrapping_sub(1);
        generator.issued = Ghost(generator.issued@ + 1);
        proof {
            if old(generator).issued() + 1 < cookie_period() {
                assert(value > i64::MIN);
                assert(generator.next as int == value - 1);
            }
        }
        MagicCookie(value)
    }
}

/// The cookies a generator makes before its values repeat are negative and
/// pairwise distinct.
pub proof fn lemma_generated_cookies_distinct(a: nat, b: nat)
    requires
        a < b < cookie_period(),
    ensures
        nth_cookie(a) != nth_cookie(b),
        nth_cookie(a) < 0,
        nth_cookie(b) < 0,
        nth_cookie(b) >= i64::MIN,
{
}

/// Where the message loop stands.
#[derive(Clone, Copy, Debug, PartialEq, Eq, Structural)]
pub enum LoopPhase {
    /// The system is being created from the initial message.
    Creating,
    /// Waiting for the next request.
    Waiting,
    /// A request is being handled.
    Handling,
    /// A response is being sent.
    Sending,
    /// The system is shutting down.
    ShuttingDown,
    /// The loop has ended.
    Finished,
}

/// What the outside work of the loop answered.
pub enum LoopEvent {
    /// The system was created.
    Created,
    /// Creating the system failed with this message.
    CreateFailed(Message),
    /// A request came.
    Received(Package),
    /// No more requests will come.
    Closed,
    /// The request was handled with this response (or error) message.
    Handled(Message),
    /// The response was sent.
    Sent,
    /// The response channel is broken.
    SendFailed,
    /// The system shut down with this message.
    ShutDown(Message),
}

/// What the loop asks for next.
pub enum LoopAction {
    /// Wait for the next request.
    Receive,
    /// Handle this request.
    Handle(Package),
    /// Send this response.
    Send(Package),
    /// Shut the system down.
    Shutdown,
    /// End the loop; send this last response, if any.
    Finish(Option<Package>),
}

/// The message loop.
pub struct MessageLoop {
    phase: LoopPhase,
    cookie: MagicCookie,
}

/// Whether `event` can answer the work asked for in `phase`.
pub open spec fn event_fits(phase: LoopPhase, event: LoopEvent) -> bool {
    match event {
        LoopEvent::Created | LoopEvent::CreateFailed(_) => phase == LoopPhase::Creating,
        LoopEvent::Received(_) | LoopEvent::Closed => phase == LoopPhase::Waiting,
        LoopEvent::Handled(_) => phase == LoopPhase::Handling,
        LoopEvent::Sent | LoopEvent::SendFailed => phase == LoopPhase::Sending,
        LoopEvent::ShutDown(_) => phase == LoopPhase::ShuttingDown,
    }
}

/// The next phase, the cookie of the current exchange and the next action,
/// for an event that fits the phase; `fresh` is the cookie a generator would
/// make now.
pub open spec fn transition(cookie: MagicCookie, event: LoopEvent, fresh: i64) -> (LoopPhase, MagicCookie, LoopAction) {
    match event {
        LoopEvent::Created => (LoopPhase::Waiting, cookie, LoopAction::Receive),
        LoopEvent::CreateFailed(m) => (LoopPhase::Finished, cookie, LoopAction::Finish(Some(Package { message: m, cookie }))),
        LoopEvent::Received(p) => (LoopPhase::Handling, p.cookie, LoopAction::Handle(p)),
        LoopEvent::Closed => (LoopPhase::ShuttingDown, cookie, LoopAction::Shutdown),
        LoopEvent::Handled(m) => (LoopPhase::Sending, cookie, LoopAction::Send(Package { message: m, cookie })),
        LoopEvent::Sent => (LoopPhase::Waiting, cookie, LoopAction::Receive),
        LoopEvent::SendFailed => (LoopPhase::Finished, cookie, LoopAction::Finish(None)),
        LoopEvent::ShutDown(m) => (LoopPhase::Finished, cookie, LoopAction::Finish(Some(Package { message: m, cookie: MagicCookie(fresh) }))),
    }
}

/// Whether a transition makes a new cookie.
pub open spec fn uses_fresh_cookie(event: LoopEvent) -> bool {
    event is ShutDown
}

impl MessageLoop {
    /// The phase of the loop.
    pub closed spec fn phase(&self) -> LoopPhase {
        self.phase
    }

    /// The cookie of the current exchange: the initial message's while the
    /// system is created, then the current request's.
    pub closed spec fn cookie(&self) -> MagicCookie {
        self.cookie
    }

    /// A loop that creates the system from an initial message with the
    /// cookie `cookie`.
    pub fn start(cookie: MagicCookie) -> (r: MessageLoop)
        ensures
            r.phase() == LoopPhase::Creating,
            r.cookie() == cookie,
    {
        MessageLoop { phase: LoopPhase::Creating, cookie }
    }

    /// The phase of the loop.
    pub fn current_phase(&self) -> (r: LoopPhase)
        ensures
            r == self.phase(),
    {
        self.phase
    }

    /// Whether `event` answers the work the loop asked for.
    pub fn accepts(&self, event: &LoopEvent) -> (r: bool)
        ensures
            r == event_fits(self.phase(), *event),
    {
        match event {
            LoopEvent::Created | LoopEvent::CreateFailed(_) => self.phase == LoopPhase::Creating,
            LoopEvent::Received(_) | LoopEvent::Closed => self.phase == LoopPhase::Waiting,
            LoopEvent::Handled(_) => self.phase == LoopPhase::Handling,
            LoopEvent::Sent | LoopEvent::SendFailed => self.phase == LoopPhase::Sending,
            LoopEvent::ShutDown(_) => self.phase == LoopPhase::ShuttingDown,
        }
    }

    /// Takes the answer to the last action and gives the next action.
    pub fn step(&mut self, event: LoopEvent, cookies: &mut CookieGenerator) -> (r: LoopAction)
        requires
            event_fits(old(self).phase(), event),
            old(cookies).wf(),
        ensures
            final(cookies).wf(),
            (final(self).phase(), final(self).cookie(), r) == transition(old(self).cookie(), event, old(cookies).next_value()),
            uses_fresh_cookie(event) ==> final(cookies).issued() == old(cookies).issued() + 1
                && final(cookies).next_value() == old(cookies).next_value().wrapping_sub(1),
            !uses_fresh_cookie(event) ==> *final(cookies) == *old(cookies),
    {
        match event {
            LoopEvent::Created => {
                self.phase = LoopPhase::Waiting;
                LoopAction::Receive
            },
            LoopEvent::CreateFailed(m) => {
                self.phase = LoopPhase::Finished;
                LoopAction::Finish(Some(Package { message: m, cookie: self.cookie }))
            },
            LoopEvent::Received(p) => {
                self.phase = LoopPhase::Handling;
                self.cookie = p.cookie;
                LoopAction::Handle(p)
            },
            LoopEvent::Closed => {
                self.phase = LoopPhase::ShuttingDown;
                LoopAction::Shutdown
            },
            LoopEvent::Handled(m) => {
                self.phase = LoopPhase::Sending;
                LoopAction::Send(Package { message: m, cookie: self.cookie })
            },
            LoopEvent::Sent => {
                self.phase = LoopPhase::Waiting;
                LoopAction::Receive
            },
            LoopEvent::SendFailed => {
                self.phase = LoopPhase::Finished;
                LoopAction::Finish(None)
            },
            LoopEvent::ShutDown(m) => {
                self.phase = LoopPhase::Finished;
                let cookie = MagicCookie::generate_cookie(cookies);
                LoopAction::Finish(Some(Package { message: m, cookie }))
            },
        }
    }
}

/// The last response of the loop: the one the loop ended with, or, when its
/// task was aborted, the error message made for that with a new cookie.
pub fn last_response(outcome: Result<Option<Package>, Message>, cookies: &mut CookieGenerator) -> (r: Option<Package>)
    requires
        old(cookies).wf(),
    ensures
        final(cookies).wf(),
        outcome matches Ok(p) ==> r == p && *final(cookies) == *old(cookies),
        outcome matches Err(m) ==> r == Some(Package { message: m, cookie: MagicCookie(old(cookies).next_value()) })
            && final(cookies).issued() == old(cookies).issued() + 1,
{
    match outcome {
        Ok(p) => p,
        Err(m) => {
            let cookie = MagicCookie::generate_cookie(cookies);
            Some(Package { message: m, cookie })
        },
    }
}

/// A response to a request carries the request's cookie: once a request is
/// received and handled, the loop sends the handler's message with the
/// cookie of that request.
pub proof fn lemma_response_carries_request_cookie(cookie: MagicCookie, request: Package, response: Message, fresh: i64)
    ensures
        ({
            let (p1, c1, a1) = transition(cookie, LoopEvent::Received(request), fresh);
            let (p2, c2, a2) = transition(c1, LoopEvent::Handled(response), fresh);
            p1 == LoopPhase::Handling && p2 == LoopPhase::Sending
                && a2 == LoopAction::Send(Package { message: response, cookie: request.cookie })
        }),
{
}

/// After a response is sent the loop waits for the next request, and a
/// broken channel ends it without a last response.
pub proof fn lemma_send_outcomes(cookie: MagicCookie, fresh: i64)
    ensures
        transition(cookie, LoopEvent::Sent, fresh).0 == LoopPhase::Waiting,
        transition(cookie, LoopEvent::Sent, fresh).2 is Receive,
        transition(cookie, LoopEvent::SendFailed, fresh).0 == LoopPhase::Finished,
        transition(cookie, LoopEvent::SendFailed, fresh).2 == LoopAction::Finish(None),
{
}

} // verus!
