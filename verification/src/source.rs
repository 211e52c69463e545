//! Input sources as the tools see them, and the report a run produces.

use vstd::prelude::*;
use vstd::string::StringExecFns;

verus! {

/// One named input: either its text, or the reason it could not be read.
#[derive(Debug)]
pub enum Source {
    Text { name: String, text: String },
    Failed { name: String, message: String },
}

/// What one run writes: lines for the output stream and lines for the
/// error stream.
#[derive(Debug)]
pub struct Report {
    pub out: Vec<String>,
    pub err: Vec<String>,
}

/// The error-stream line for a source that failed: `<name>: <message>`.
pub open spec fn failure_line(name: Seq<char>, message: Seq<char>) -> Seq<char> {
    name + ": "@ + message
}

/// The error-stream lines for the failed sources, in order.
pub open spec fn err_lines(ss: Seq<Source>) -> Seq<Seq<char>>
    decreases ss.len(),
{
    if ss.len() == 0 {
        Seq::empty()
    } else {
        err_lines(ss.drop_last()) + match ss.last() {
            Source::Failed { name, message } => seq![failure_line(name@, message@)],
            Source::Text { .. } => Seq::empty(),
        }
    }
}

/// Render the error-stream line for one failed source.
pub fn failure_line_of(name: &String, message: &String) -> (r: String)
    ensures
        r@ == failure_line(name@, message@),
{
    let mut r = name.clone();
    r.append(": ");
    r.append(message.as_str());
    r
}

} // verus!
