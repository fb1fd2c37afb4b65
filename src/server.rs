use vstd::prelude::*;
use vstd::string::StringExecFns;

use crate::request::{Request, Response, ServerError};

verus! {

/// A stage check that a server is ready to run: the request's stage and run
/// numbers, with the big disk resolved.
pub struct StageCheck<St> {
    pub stage: St,
    pub big_disk: String,
    pub run_number_list: Vec<String>,
}

/// The big disk that a server uses: the request's own, else the one from the
/// server's environment.
pub open spec fn effective_big_disk(
    requested: Option<Seq<char>>,
    from_env: Option<Seq<char>>,
) -> Option<Seq<char>> {
    match requested {
        Some(d) => Some(d),
        None => from_env,
    }
}

/// The view of an optional string.
pub open spec fn opt_view(s: Option<String>) -> Option<Seq<char>> {
    match s {
        Some(t) => Some(t@),
        None => None,
    }
}

/// Turns a decoded request (`None` where the text was no request) into the
/// check to run, given the big disk that the server's environment names.
pub fn process_request<St>(parsed: Option<Request<St>>, env_big_disk: Option<String>) -> (r: Result<
    StageCheck<St>,
    ServerError,
>)
    ensures
        parsed is None ==> r == Err::<StageCheck<St>, ServerError>(ServerError::RequestParse),
        parsed matches Some(req) ==> match effective_big_disk(
            opt_view(req.big_disk),
            opt_view(env_big_disk),
        ) {
            None => r == Err::<StageCheck<St>, ServerError>(ServerError::BiggusDiskusNotSet),
            Some(d) => r matches Ok(c) && c.big_disk@ == d && c.stage == req.stage
                && c.run_number_list@ == req.run_number_list@,
        },
{
    match parsed {
        None => Err(ServerError::RequestParse),
        Some(req) => {
            let big_disk = match req.big_disk {
                Some(d) => d,
                None => match env_big_disk {
                    Some(d) => d,
                    None => {
                        return Err(ServerError::BiggusDiskusNotSet);
                    },
                },
            };
            Ok(StageCheck { stage: req.stage, big_disk, run_number_list: req.run_number_list })
        },
    }
}

/// The response for the outcome of a request: its status, or its error.
pub fn respond<S>(outcome: Result<S, ServerError>) -> (r: Response<S>)
    ensures
        outcome matches Ok(s) ==> r == Response::<S>::Success(s),
        outcome matches Err(e) ==> r == Response::<S>::Error(e),
{
    match outcome {
        Ok(s) => Response::Success(s),
        Err(e) => Response::Error(e),
    }
}

/// The argument that hands an encoded request to the server mode.
pub fn request_argument(payload: &str) -> (r: String)
    ensures
        r@ == "--request="@ + payload@,
{
    let mut arg = String::from_str("--request=");
    arg.append(payload);
    arg
}

/// The line written to a remote shell to run the server mode on a request.
pub fn server_command(payload: &str) -> (r: String)
    ensures
        r@ == "server "@ + "--request="@ + payload@ + "\n"@,
{
    let mut line = String::from_str("server ");
    let arg = request_argument(payload);
    line.append(arg.as_str());
    line.append("\n");
    assert(line@ =~= "server "@ + "--request="@ + payload@ + "\n"@);
    line
}

} // verus!
