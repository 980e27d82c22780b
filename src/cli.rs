//! Whether the companion command-line tool is available, from the outcome
//! of running it with `--version`.

use vstd::prelude::*;

verus! {

/// Availability of the command-line tool.
#[derive(Clone, Debug)]
pub struct GitAiCliStatus {
    pub available: bool,
    pub version: Option<String>,
    pub error: Option<String>,
}

/// The status after the tool ran, given whether it succeeded and its
/// standard output and error output: available with the output as version
/// (none when empty) when it succeeded, else unavailable with the error
/// output, or `git-ai CLI not available` when that is empty.
pub fn git_ai_cli_status(success: bool, stdout: String, stderr: String) -> (st: GitAiCliStatus)
    ensures
        st.available == success,
        success ==> st.error is None && (st.version is None <==> stdout@.len() == 0) && (st.version matches Some(v)
            ==> v@ == stdout@),
        !success ==> st.version is None && st.error is Some && (stderr@.len() > 0 ==> st.error->0@ == stderr@)
            && (stderr@.len() == 0 ==> st.error->0@ == "git-ai CLI not available"@),
{
    if !success {
        let error = if stderr.as_str().is_empty() {
            "git-ai CLI not available".to_owned()
        } else {
            stderr
        };
        return GitAiCliStatus { available: false, version: None, error: Some(error) };
    }
    let version = if stdout.as_str().is_empty() {
        None
    } else {
        Some(stdout)
    };
    GitAiCliStatus { available: true, version, error: None }
}

/// The status when the tool could not be run at all.
pub fn git_ai_cli_unavailable(reason: String) -> (st: GitAiCliStatus)
    ensures
        !st.available,
        st.version is None,
        st.error == Some(reason),
{
    GitAiCliStatus { available: false, version: None, error: Some(reason) }
}

} // verus!
