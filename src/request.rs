use vstd::prelude::*;

verus! {

/// Why a server could not turn a request into a status.
#[derive(Debug, Clone, Copy, PartialEq, Eq, Structural)]
pub enum ServerError {
    /// The request text was not a request, or no response frame came back.
    RequestParse,
    /// The request named no big disk and the server's environment has none.
    BiggusDiskusNotSet,
}

/// Why a session to a remote host could not be opened.
#[derive(Debug, Clone, Copy, PartialEq, Eq, Structural)]
pub enum ConnectionError {
    /// The connection or its authentication failed.
    UnableToConnect,
    /// The connection stood, but no shell channel could be opened on it.
    UnableToStartShell,
}

/// One stage check asked of one machine. `St` is the stage, which the
/// pipeline configuration defines.
pub struct Request<St> {
    pub stage: St,
    /// Where the big disk is mounted on the machine that runs the check,
    /// where it differs from that machine's own setting.
    pub big_disk: Option<String>,
    pub run_number_list: Vec<String>,
}

/// What a server answers to a request: the status that the stage check
/// produced (`S`), or why there is none.
pub enum Response<S> {
    Success(S),
    Error(ServerError),
}

/// The arguments of the server mode: the encoded request.
pub struct ServerArgs {
    pub request_json: String,
}

} // verus!
