//! The life of a manager-protocol session: login once, then actions, then
//! a logoff when the session is torn down.

use vstd::prelude::*;
use vstd::string::*;
use crate::ami::{check_login, has_success_line, logoff_action, AmiError, AmiReader};

verus! {

#[derive(Debug, Clone, Copy, PartialEq, Eq, Structural)]
pub enum SessionState {
    /// the version line was read; the login is still to come
    Unauthenticated,
    /// the login succeeded
    Authenticated,
    /// logged off, or the login failed; no action may be issued
    Closed,
}

/// A session's reader and where the session stands.
pub struct Session {
    pub reader: AmiReader,
    pub state: SessionState,
}

impl Session {
    pub open spec fn phase(&self) -> SessionState {
        self.state
    }

    pub fn new() -> (r: Self)
        ensures
            r.phase() == SessionState::Unauthenticated,
            r.reader@ == Seq::<u8>::empty(),
            r.reader.wf(),
    {
        Session { reader: AmiReader::new(), state: SessionState::Unauthenticated }
    }

    pub fn state(&self) -> (r: SessionState)
        ensures
            r == self.phase(),
    {
        self.state
    }

    /// Whether an action may be issued now.
    pub fn may_issue(&self) -> (r: bool)
        ensures
            r == (self.phase() == SessionState::Authenticated),
    {
        self.state == SessionState::Authenticated
    }

    /// Takes the response to the login. The session is authenticated when a
    /// line of it starts with `Response: Success`; otherwise it is closed
    /// for good and the login failed.
    pub fn finish_login(&mut self, response: &str) -> (r: Result<(), AmiError>)
        requires
            old(self).phase() == SessionState::Unauthenticated,
        ensures
            final(self).reader == old(self).reader,
            r is Ok <==> has_success_line(response.spec_bytes()),
            r is Err ==> r matches Err(AmiError::LoginFailure),
            final(self).phase() == if r is Ok {
                SessionState::Authenticated
            } else {
                SessionState::Closed
            },
    {
        let r = check_login(response);
        self.state = if r.is_ok() {
            SessionState::Authenticated
        } else {
            SessionState::Closed
        };
        r
    }

    /// Closes the session. Returns the logoff action to send, unless the
    /// session was closed already.
    pub fn close(&mut self) -> (r: Option<String>)
        ensures
            final(self).reader == old(self).reader,
            final(self).phase() == SessionState::Closed,
            old(self).phase() == SessionState::Closed ==> r is None,
            old(self).phase() != SessionState::Closed ==> (r matches Some(a) && a@
                == "Action: Logoff\r\n\r\n"@),
    {
        if self.state == SessionState::Closed {
            None
        } else {
            self.state = SessionState::Closed;
            Some(logoff_action())
        }
    }
}

} // verus!
