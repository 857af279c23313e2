//! The interestingness oracle.
//!
//! A candidate script is *interesting* when the behaviour under investigation
//! still reproduces on it.  The reducers only ever consult an oracle through
//! the [`Oracle`] trait; the trait models the oracle as a fixed judgment of
//! each candidate text, which is the premise every delta-debugging search
//! rests on (an oracle that answers inconsistently voids any minimality
//! claim).  A process-spawning implementation lives outside the verified
//! library; [`SubstringOracle`] is a verified implementation used in tests.

use crate::text::contains_str;
use crate::text::is_substring_of;
use vstd::prelude::*;

verus! {

/// Why an oracle run failed.  Any of these aborts the whole reduction; none
/// of them may be read as an "interesting" or "boring" verdict.
#[derive(Clone, Copy, Debug, PartialEq, Eq, Structural)]
pub enum OracleError {
    /// The external check could not be started, or the candidate could not
    /// be written for it.
    Launch,
    /// The external check exited with a code other than 0 or 1.
    UnexpectedExit(i32),
    /// The external check was terminated by a signal.
    Signalled,
}

/// Turn the exit status of the external check into a verdict.
///
/// Exit code 0 means the candidate did not reproduce the behaviour, exit
/// code 1 means it did; every other outcome is a fatal error.
pub fn interpret_exit_code(code: Option<i32>) -> (r: Result<bool, OracleError>)
    ensures
        code == Some(0i32) ==> r == Result::<bool, OracleError>::Ok(false),
        code == Some(1i32) ==> r == Result::<bool, OracleError>::Ok(true),
        (code matches Some(c) && c != 0 && c != 1) ==> (code matches Some(c) && r
            == Result::<bool, OracleError>::Err(OracleError::UnexpectedExit(c))),
        code is None ==> r == Result::<bool, OracleError>::Err(OracleError::Signalled),
{
    match code {
        Some(0) => Ok(false),
        Some(1) => Ok(true),
        Some(c) => Err(OracleError::UnexpectedExit(c)),
        None => Err(OracleError::Signalled),
    }
}

/// A black-box judge of candidate scripts.
///
/// `judges` is the oracle's (unchanging) verdict on each candidate text;
/// `check` consults the oracle and reports that verdict, or fails.  An
/// implementation outside the library that runs an external process is
/// trusted to answer consistently; the verified searches are correct for
/// every oracle that does.
pub trait Oracle {
    /// The verdict this oracle holds of the candidate text.  The default
    /// judgment holds no candidate interesting; an implementation meant to
    /// drive a search says otherwise.
    open spec fn judges(&self, candidate: Seq<char>) -> bool {
        false
    }

    /// Ask the oracle about one candidate script.
    fn check(&self, candidate: &String) -> (r: Result<bool, OracleError>)
        ensures
            r matches Ok(b) ==> b == self.judges(candidate@),
    ;
}

/// An oracle that calls a candidate interesting exactly when it contains
/// every one of a fixed list of needles.  Used to exercise the searches
/// without an external process.
pub struct SubstringOracle {
    /// The substrings that must all be present.
    pub needles: Vec<String>,
}

impl SubstringOracle {
    /// An oracle requiring every one of `needles`.
    pub fn new(needles: Vec<String>) -> (r: SubstringOracle)
        ensures
            r.needles@ == needles@,
    {
        SubstringOracle { needles }
    }
}

impl Oracle for SubstringOracle {
    open spec fn judges(&self, candidate: Seq<char>) -> bool {
        forall|i: int|
            0 <= i < self.needles@.len() ==> is_substring_of(
                #[trigger] self.needles@[i]@,
                candidate,
            )
    }

    fn check(&self, candidate: &String) -> (r: Result<bool, OracleError>)
        ensures
            r matches Ok(b) ==> b == self.judges(candidate@),
    {
        let mut i: usize = 0;
        while i < self.needles.len()
            invariant
                i <= self.needles@.len(),
                forall|k: int|
                    0 <= k < i ==> is_substring_of(#[trigger] self.needles@[k]@, candidate@),
            decreases self.needles@.len() - i,
        {
            if !contains_str(candidate.as_str(), self.needles[i].as_str()) {
                return Ok(false);
            }
            i += 1;
        }
        Ok(true)
    }
}

} // verus!
