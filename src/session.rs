//! The decisions of a live session: which lines are logged, keepalive replies, forced
//! reconnects, and the backoff between reconnect attempts.
use crate::irc::{wire, Message, MessageView};
use crate::params::{param_items, ParamList};
use crate::text::str_eq;
use vstd::prelude::*;

verus! {

/// The commands that are not logged unless filtering is off: the server's welcome and
/// numeric noise, capability acknowledgements, channel membership and keepalive lines.
pub open spec fn ignored_command(c: Seq<char>) -> bool {
    ||| c == "001"@
    ||| c == "002"@
    ||| c == "003"@
    ||| c == "004"@
    ||| c == "353"@
    ||| c == "366"@
    ||| c == "372"@
    ||| c == "375"@
    ||| c == "376"@
    ||| c == "CAP"@
    ||| c == "JOIN"@
    ||| c == "PART"@
    ||| c == "PONG"@
    ||| c == "PING"@
    ||| c == "RECONNECT"@
}

/// Whether `command` is one of the ignored commands.
pub fn is_ignored(command: &str) -> (r: bool)
    ensures
        r == ignored_command(command@),
{
    str_eq(command, "001") || str_eq(command, "002") || str_eq(command, "003") || str_eq(
        command,
        "004",
    ) || str_eq(command, "353") || str_eq(command, "366") || str_eq(command, "372") || str_eq(
        command,
        "375",
    ) || str_eq(command, "376") || str_eq(command, "CAP") || str_eq(command, "JOIN") || str_eq(
        command,
        "PART",
    ) || str_eq(
        command,
        "PONG",
    ) || str_eq(command, "PING") || str_eq(command, "RECONNECT")
}

/// Whether a message with `command` is logged.
pub fn should_log(command: &str, dont_filter: bool) -> (r: bool)
    ensures
        r == (dont_filter || !ignored_command(command@)),
{
    dont_filter || !is_ignored(command)
}

/// What the session does with one line.
#[derive(Debug)]
pub enum LineAction {
    /// Send this line back at once, the answer to a keepalive probe; then normalize and log
    /// the probe too where the flag is set.
    Reply(String, bool),
    /// The server asks for a reconnect: end the session as a recoverable failure.
    Reconnect,
    /// Not logged.
    Skip,
    /// Normalize and log it.
    Log,
}

/// The answer to a keepalive probe: a `PONG` with the probe's parameters.
pub open spec fn pong_of(m: MessageView) -> Seq<char> {
    wire(MessageView { tags: Seq::empty(), prefix: None, command: "PONG"@, params: m.params })
}

pub open spec fn line_action_spec(m: MessageView, dont_filter: bool) -> LineActionView {
    if m.command == "PING"@ {
        LineActionView::Reply(pong_of(m), dont_filter || !ignored_command(m.command))
    } else if m.command == "RECONNECT"@ {
        LineActionView::Reconnect
    } else if dont_filter || !ignored_command(m.command) {
        LineActionView::Log
    } else {
        LineActionView::Skip
    }
}

pub enum LineActionView {
    Reply(Seq<char>, bool),
    Reconnect,
    Skip,
    Log,
}

impl View for LineAction {
    type V = LineActionView;

    open spec fn view(&self) -> LineActionView {
        match self {
            LineAction::Reply(s, log) => LineActionView::Reply(s@, *log),
            LineAction::Reconnect => LineActionView::Reconnect,
            LineAction::Skip => LineActionView::Skip,
            LineAction::Log => LineActionView::Log,
        }
    }
}

fn copy_params(m: &Message) -> (r: ParamList)
    ensures
        param_items(r) == m@.params,
{
    let mut r = ParamList::new();
    let n = m.param_count();
    let mut k: usize = 0;
    while k < n
        invariant
            n == m@.params.len(),
            k <= n,
            param_items(r) == m@.params.subrange(0, k as int),
        decreases n - k,
    {
        if let Some(p) = m.param(k) {
            r.push(p.clone());
        }
        assert(param_items(r) =~= m@.params.subrange(0, k + 1));
        k = k + 1;
    }
    assert(m@.params.subrange(0, n as int) =~= m@.params);
    r
}

/// Decides what to do with a line read from the server. A keepalive probe is answered
/// before anything else is looked at; it is logged as well only when filtering is off.
pub fn line_action(m: &Message, dont_filter: bool) -> (r: LineAction)
    ensures
        r@ == line_action_spec(m@, dont_filter),
{
    let command = m.command.as_str();
    if str_eq(command, "PING") {
        let pong = Message {
            tags: Vec::new(),
            prefix: None,
            command: "PONG".to_owned(),
            params: copy_params(m),
        };
        let mut out = String::new();
        assert(crate::irc::tag_views(pong.tags@) =~= Seq::empty());
        pong.write(&mut out);
        assert(pong@ =~= MessageView {
            tags: Seq::empty(),
            prefix: None,
            command: "PONG"@,
            params: m@.params,
        });
        assert(out@ =~= pong_of(m@));
        LineAction::Reply(out, should_log(command, dont_filter))
    } else if str_eq(command, "RECONNECT") {
        LineAction::Reconnect
    } else if should_log(command, dont_filter) {
        LineAction::Log
    } else {
        LineAction::Skip
    }
}

/// What to do after a failed connection.
#[derive(Debug, PartialEq, Eq, Structural)]
pub enum Retry {
    /// Connect again after this many time units.
    After(u64),
    /// Stop: the attempts are used up.
    GiveUp,
}

/// The longest wait between attempts; once the wait would grow past it, the session gives up.
pub const BACKOFF_LIMIT: u64 = 32;

/// The backoff between reconnect attempts. The first failure retries at once; after it the
/// wait starts at 1 and doubles with each further failure, until it would pass the limit.
pub struct Backoff {
    next: Option<u64>,
}

impl View for Backoff {
    type V = Option<nat>;

    closed spec fn view(&self) -> Option<nat> {
        match self.next {
            Some(d) => Some(d as nat),
            None => None,
        }
    }
}

/// The state after one more failure, and what that failure leads to (`None`: give up).
pub open spec fn failure_step(next: Option<nat>) -> (Option<nat>, Option<nat>) {
    match next {
        None => (Some(1), Some(0)),
        Some(d) => if d > BACKOFF_LIMIT {
            (Some(d), None)
        } else {
            (Some(2 * d), Some(d))
        },
    }
}

impl Backoff {
    /// Every state the backoff can reach: none yet, or a pending wait of at most twice the
    /// limit.
    pub open spec fn wf(&self) -> bool {
        match self@ {
            Some(d) => 1 <= d <= 2 * BACKOFF_LIMIT,
            None => true,
        }
    }

    /// No failure yet.
    pub fn new() -> (r: Backoff)
        ensures
            r@ is None,
            r.wf(),
    {
        Backoff { next: None }
    }

    /// Records a failure and says how long to wait before the next attempt, if there is one.
    pub fn on_failure(&mut self) -> (r: Retry)
        requires
            old(self).wf(),
        ensures
            final(self).wf(),
            final(self)@ == failure_step(old(self)@).0,
            match failure_step(old(self)@).1 {
                Some(d) => r matches Retry::After(w) && w == d,
                None => r is GiveUp,
            },
    {
        match self.next {
            None => {
                self.next = Some(1);
                Retry::After(0)
            },
            Some(d) => if d > BACKOFF_LIMIT {
                Retry::GiveUp
            } else {
                self.next = Some(2 * d);
                Retry::After(d)
            },
        }
    }

    /// A session reached streaming: the backoff starts over.
    pub fn on_success(&mut self)
        ensures
            final(self)@ is None,
            final(self).wf(),
    {
        self.next = None;
    }
}

pub open spec fn pow2(n: nat) -> nat
    decreases n,
{
    if n == 0 {
        1
    } else {
        2 * pow2((n - 1) as nat)
    }
}

/// The backoff state after `k` failures in a row from a fresh start.
pub open spec fn after_failures(k: nat) -> Option<nat>
    decreases k,
{
    if k == 0 {
        None
    } else {
        failure_step(after_failures((k - 1) as nat)).0
    }
}

/// What the `k`-th failure in a row (counting from 0) leads to.
pub open spec fn kth_outcome(k: nat) -> Option<nat> {
    failure_step(after_failures(k)).1
}

/// Failures in a row from a fresh start wait 0, 1, 2, 4, 8, 16 and 32 time units, and the
/// eighth and every later one gives up instead of waiting 64.
pub proof fn lemma_backoff_sequence(k: nat)
    ensures
        k == 0 ==> kth_outcome(k) == Some(0nat),
        1 <= k <= 6 ==> kth_outcome(k) == Some(pow2((k - 1) as nat)),
        k >= 7 ==> kth_outcome(k) is None,
{
    lemma_after_failures(k);
    lemma_pow2_small();
}

proof fn lemma_pow2_small()
    ensures
        pow2(0) == 1,
        pow2(1) == 2,
        pow2(2) == 4,
        pow2(3) == 8,
        pow2(4) == 16,
        pow2(5) == 32,
        pow2(6) == 64,
{
    reveal_with_fuel(pow2, 7);
}

proof fn lemma_after_failures(k: nat)
    ensures
        k == 0 ==> after_failures(k) is None,
        1 <= k <= 7 ==> after_failures(k) == Some(pow2((k - 1) as nat)),
        k >= 7 ==> after_failures(k) == Some(64nat),
    decreases k,
{
    if k > 0 {
        lemma_after_failures((k - 1) as nat);
        if k >= 2 {
            assert(pow2((k - 1) as nat) == 2 * pow2((k - 2) as nat));
        }
        lemma_pow2_small();
    }
}

} // verus!
