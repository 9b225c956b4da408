use vstd::prelude::*;

verus! {

/// The resources of the one outbound share that may be active: its working
/// directory, the handle of its listening endpoint, and its ticket.
pub struct ActiveSession<H> {
    pub work_dir: String,
    pub endpoint: H,
    pub ticket: String,
}

#[derive(Debug, PartialEq, Eq)]
pub enum SessionError {
    /// A share is already active.
    SessionBusy,
    /// The listener did not shut down within its bound.
    TeardownTimeout,
    /// The listener reported an error while shutting down.
    ShutdownFailed(String),
    /// The working directory could not be removed.
    RemoveFailed(String),
}

/// How the listener's shutdown went.
#[derive(Debug, PartialEq, Eq)]
pub enum ShutdownOutcome {
    Completed,
    TimedOut,
    Failed(String),
}

pub open spec fn session_view<H>(s: ActiveSession<H>) -> (Seq<char>, Seq<char>) {
    (s.work_dir@, s.ticket@)
}

/// The ticket of the active share, if any.
pub open spec fn active_ticket(v: Option<(Seq<char>, Seq<char>)>) -> Option<Seq<char>> {
    match v {
        Some((_w, t)) => Some(t),
        None => None,
    }
}

/// The slot of the single active outbound share, owned by the
/// application's top-level state. It is either idle or holds one session.
pub struct SessionManager<H> {
    active: Option<ActiveSession<H>>,
}

impl<H> View for SessionManager<H> {
    /// The working directory and ticket of the active share, if any.
    type V = Option<(Seq<char>, Seq<char>)>;

    closed spec fn view(&self) -> Option<(Seq<char>, Seq<char>)> {
        match self.active {
            Some(s) => Some(session_view(s)),
            None => None,
        }
    }
}

impl<H> SessionManager<H> {
    pub fn new() -> (r: Self)
        ensures
            r@ is None,
    {
        SessionManager { active: None }
    }

    pub fn is_active(&self) -> (r: bool)
        ensures
            r == self@ is Some,
    {
        self.active.is_some()
    }

    /// The ticket of the active share.
    pub fn ticket(&self) -> (r: Option<&String>)
        ensures
            r is Some == self@ is Some,
            r matches Some(t) ==> active_ticket(self@) == Some(t@),
    {
        match &self.active {
            Some(s) => Some(&s.ticket),
            None => None,
        }
    }

    /// Fails with `SessionBusy` when a share is active, so that a start can
    /// be refused before any work is done.
    pub fn ensure_idle(&self) -> (r: Result<(), SessionError>)
        ensures
            self@ is None ==> r is Ok,
            self@ is Some ==> r == Err::<(), SessionError>(SessionError::SessionBusy),
    {
        if self.active.is_some() {
            Err(SessionError::SessionBusy)
        } else {
            Ok(())
        }
    }

    /// Makes `s` the active share. While another share is active this fails
    /// with `SessionBusy` and leaves that share, and its ticket, as they are.
    pub fn activate(&mut self, s: ActiveSession<H>) -> (r: Result<(), SessionError>)
        ensures
            old(self)@ is Some ==> r == Err::<(), SessionError>(SessionError::SessionBusy)
                && *final(self) == *old(self),
            old(self)@ is None ==> r is Ok && final(self)@ == Some(session_view(s)),
    {
        if self.active.is_some() {
            return Err(SessionError::SessionBusy);
        }
        self.active = Some(s);
        Ok(())
    }

    /// Takes the active share out for teardown; the slot is idle afterwards.
    /// On an idle slot this does nothing and returns `None`.
    pub fn take_active(&mut self) -> (r: Option<ActiveSession<H>>)
        ensures
            final(self)@ is None,
            r is Some == old(self)@ is Some,
            r matches Some(s) ==> old(self)@ == Some(session_view(s)),
    {
        self.active.take()
    }
}

/// The result of a teardown in which both the listener's shutdown and the
/// removal of the working directory were attempted: the shutdown's failure
/// comes first, then the removal's.
pub fn teardown_result(shutdown: ShutdownOutcome, removal: Result<(), String>) -> (r: Result<
    (),
    SessionError,
>)
    ensures
        r is Ok <==> shutdown is Completed && removal is Ok,
        shutdown is TimedOut ==> r == Err::<(), SessionError>(SessionError::TeardownTimeout),
        shutdown matches ShutdownOutcome::Failed(m) ==> r == Err::<(), SessionError>(
            SessionError::ShutdownFailed(m),
        ),
        shutdown is Completed ==> (removal matches Err(m) ==> r == Err::<(), SessionError>(
            SessionError::RemoveFailed(m),
        )),
{
    match shutdown {
        ShutdownOutcome::TimedOut => Err(SessionError::TeardownTimeout),
        ShutdownOutcome::Failed(m) => Err(SessionError::ShutdownFailed(m)),
        ShutdownOutcome::Completed => match removal {
            Ok(()) => Ok(()),
            Err(m) => Err(SessionError::RemoveFailed(m)),
        },
    }
}

} // verus!
