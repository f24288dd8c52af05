//! The decidable half of the remote executor: how a command line is built,
//! and how a finished invocation's two streams are judged. The session
//! handling itself — connecting, the liveness check, the exponential-backoff
//! reconnect, the actual spawn — is I/O and lives with the caller.

use vstd::prelude::*;

use crate::text::{spec_join, join_strs};

verus! {

/// The program and arguments actually invoked for a remote command. A tool
/// that refuses to run non-interactively is wrapped in the quiet `script`
/// pseudo-terminal, whose own framing output is discarded by `/dev/null`.
pub open spec fn spec_invocation(
    command: Seq<char>,
    args: Seq<Seq<char>>,
    use_script: bool,
) -> (Seq<char>, Seq<Seq<char>>) {
    if use_script {
        (
            "script"@,
            seq!["-q"@, "-c"@, command + " "@ + spec_join(args, " "@), "/dev/null"@],
        )
    } else {
        (command, args)
    }
}

/// Builds the program and argument list for one remote invocation.
pub fn build_remote_invocation(command: &str, args: &Vec<String>, use_script: bool) -> (r: (
    String,
    Vec<String>,
))
    ensures
        (r.0@, r.1.deep_view()) == spec_invocation(command@, args.deep_view(), use_script),
{
    if !use_script {
        let program: String = command.to_owned();
        let cloned = crate::store::clone_strings(args);
        proof {
            assert(cloned.deep_view() =~= args.deep_view());
        }
        (program, cloned)
    } else {
        proof {
            reveal_strlit(" ");
        }
        let mut line: String = command.to_owned();
        line.append(" ");
        line.append(join_strs(args, " ").as_str());
        let mut argv: Vec<String> = Vec::new();
        argv.push("-q".to_owned());
        argv.push("-c".to_owned());
        argv.push(line);
        argv.push("/dev/null".to_owned());
        proof {
            assert(argv.deep_view() =~= seq![
                "-q"@,
                "-c"@,
                command@ + " "@ + spec_join(args.deep_view(), " "@),
                "/dev/null"@,
            ]);
        }
        ("script".to_owned(), argv)
    }
}

/// Judges a finished remote invocation: any output on the error stream is a
/// hard failure of that invocation, and only then.
pub fn classify_output(stdout: String, stderr: &str) -> (r: Result<String, String>)
    ensures
        match r {
            Ok(s) => stderr@.len() == 0 && s == stdout,
            Err(e) => stderr@.len() > 0 && e@ == stderr@,
        },
{
    if stderr.unicode_len() == 0 {
        Ok(stdout)
    } else {
        Err(stderr.to_owned())
    }
}

/// Judges the exit of the remote credential-verification script: only a
/// clean zero exit means the credential passed.
pub fn login_exit_success(code: Option<i32>) -> (r: bool)
    ensures
        r == (code == Some(0i32)),
{
    match code {
        Some(c) => c == 0,
        None => false,
    }
}

} // verus!