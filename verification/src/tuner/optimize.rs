//! What a tuning run is asked to do, and the failures it reports. The
//! optimizer itself works in floating point and runs outside the library.

use vstd::prelude::*;
use vstd::string::StringExecFns;

verus! {

/// A data, numerical, configuration, or output failure during tuning.
#[derive(Debug)]
pub struct TuneError(String);

impl TuneError {
    /// The failure described by `message`.
    pub fn new(message: String) -> (e: TuneError)
        ensures
            e.spec_message() == message@,
    {
        TuneError(message)
    }

    /// What went wrong.
    pub closed spec fn spec_message(&self) -> Seq<char> {
        self.0@
    }

    /// What went wrong.
    pub fn message(&self) -> (m: &String)
        ensures
            m@ == self.spec_message(),
    {
        &self.0
    }
}

/// Why a tuning configuration is refused, checked in order: no epochs, a
/// learning rate that is not finite and positive (`rate_ok` says whether it
/// is), no patience, no threads; `None` for a configuration that can run.
pub open spec fn config_refusal(epochs: usize, rate_ok: bool, patience: usize, threads: usize) -> Option<int> {
    if epochs == 0 {
        Some(0)
    } else if !rate_ok {
        Some(1)
    } else if patience == 0 {
        Some(2)
    } else if threads == 0 {
        Some(3)
    } else {
        None
    }
}

/// The message of a refusal (see [`config_refusal`]).
pub open spec fn refusal_message(reason: int) -> Seq<char> {
    if reason == 0 {
        "epochs must be greater than zero"@
    } else if reason == 1 {
        "learning rate must be finite and positive"@
    } else if reason == 2 {
        "patience must be greater than zero"@
    } else {
        "threads must be greater than zero"@
    }
}

/// Checks a tuning configuration's counts and whether its learning rate is
/// finite and positive (`rate_ok`; the rate itself is a float), failing with
/// the message of the first check it fails (see [`config_refusal`]).
pub fn validate_config(epochs: usize, rate_ok: bool, patience: usize, threads: usize) -> (r: Result<(), TuneError>)
    ensures
        r is Ok <==> config_refusal(epochs, rate_ok, patience, threads) is None,
        r matches Err(e) ==> e.spec_message() == refusal_message(
            config_refusal(epochs, rate_ok, patience, threads)->0,
        ),
{
    if epochs == 0 {
        return Err(TuneError::new(String::from_str("epochs must be greater than zero")));
    }
    if !rate_ok {
        return Err(TuneError::new(String::from_str("learning rate must be finite and positive")));
    }
    if patience == 0 {
        return Err(TuneError::new(String::from_str("patience must be greater than zero")));
    }
    if threads == 0 {
        return Err(TuneError::new(String::from_str("threads must be greater than zero")));
    }
    Ok(())
}

} // verus!
