//! The line-printing tool: lines as they stand, or numbered.

use vstd::prelude::*;
use vstd::string::StringExecFns;
use crate::render::{aligned, right_aligned};
use crate::source::{err_lines, failure_line_of, Report, Source};
use crate::text::{lines_of, split_lines};

verus! {

/// What the caller asked for: the input names and the numbering mode.
#[derive(Debug)]
pub struct Args {
    pub files: Vec<String>,
    pub number_lines: bool,
    pub number_nonblank_lines: bool,
}

/// How many of the lines are non-empty.
pub open spec fn nonblank_count(lines: Seq<Seq<char>>) -> int
    decreases lines.len(),
{
    if lines.len() == 0 {
        0
    } else {
        nonblank_count(lines.drop_last()) + if lines.last().len() > 0 {
            1int
        } else {
            0int
        }
    }
}

/// A numbered output line: the number right-aligned to 6 columns, a tab,
/// then the line.
pub open spec fn numbered(n: int, line: Seq<char>) -> Seq<char> {
    aligned(n, 6) + "\t"@ + line
}

/// The output lines for one source: every line numbered, only the
/// non-empty ones numbered (blank lines printed empty), or the lines as
/// they stand.
pub open spec fn cat_out(lines: Seq<Seq<char>>, nl: bool, nb: bool) -> Seq<Seq<char>>
    decreases lines.len(),
{
    if lines.len() == 0 {
        Seq::empty()
    } else {
        cat_out(lines.drop_last(), nl, nb) + seq![
            if nl {
                numbered(lines.len() as int, lines.last())
            } else if nb {
                if lines.last().len() > 0 {
                    numbered(nonblank_count(lines), lines.last())
                } else {
                    Seq::<char>::empty()
                }
            } else {
                lines.last()
            },
        ]
    }
}

/// Render the lines of one source, numbering as the mode asks.
pub fn render_lines(lines: &Vec<String>, nl: bool, nb: bool) -> (out: Vec<String>)
    ensures
        out.deep_view() == cat_out(lines.deep_view(), nl, nb),
{
    let mut out: Vec<String> = Vec::new();
    let n = lines.len();
    let mut count: u64 = 0;
    let mut i: usize = 0;
    proof {
        assert(lines.deep_view().take(0) =~= Seq::<Seq<char>>::empty());
        assert(out.deep_view() =~= cat_out(lines.deep_view().take(0), nl, nb));
    }
    while i < n
        invariant
            n == lines@.len(),
            i <= n,
            count <= i,
            !nl && nb ==> count == nonblank_count(lines.deep_view().take(i as int)),
            out.deep_view() == cat_out(lines.deep_view().take(i as int), nl, nb),
        decreases n - i,
    {
        proof {
            let dv = lines.deep_view();
            assert(dv.take(i as int + 1).drop_last() =~= dv.take(i as int));
            assert(dv.take(i as int + 1).last() == dv[i as int]);
            assert(dv[i as int] == lines@[i as int]@);
        }
        let line = &lines[i];
        let ghost pre = out.deep_view();
        if nl {
            let mut t = right_aligned((i + 1) as u128, 6);
            t.append("\t");
            t.append(line.as_str());
            out.push(t);
        } else if nb {
            if !line.as_str().is_empty() {
                count = count + 1;
                let mut t = right_aligned(count as u128, 6);
                t.append("\t");
                t.append(line.as_str());
                out.push(t);
            } else {
                out.push(String::new());
            }
        } else {
            out.push(line.clone());
        }
        i = i + 1;
        proof {
            assert(out.deep_view() =~= pre + seq![
                cat_out(lines.deep_view().take(i as int), nl, nb).last(),
            ]);
        }
    }
    proof {
        assert(lines.deep_view().take(n as int) =~= lines.deep_view());
    }
    out
}

/// The output lines of a whole run, in source order.
pub open spec fn cat_lines(ss: Seq<Source>, nl: bool, nb: bool) -> Seq<Seq<char>>
    decreases ss.len(),
{
    if ss.len() == 0 {
        Seq::empty()
    } else {
        cat_lines(ss.drop_last(), nl, nb) + match ss.last() {
            Source::Text { name, text } => cat_out(split_lines(text@), nl, nb),
            Source::Failed { .. } => Seq::empty(),
        }
    }
}

/// Print every source: each readable source contributes its rendered
/// lines, each failed source one error row, and a failure never stops the
/// sources after it.
pub fn run(args: &Args, sources: &Vec<Source>) -> (rep: Report)
    ensures
        rep.err.deep_view() == err_lines(sources@),
        rep.out.deep_view() == cat_lines(sources@, args.number_lines, args.number_nonblank_lines),
{
    let nl = args.number_lines;
    let nb = args.number_nonblank_lines;
    let mut out: Vec<String> = Vec::new();
    let mut err: Vec<String> = Vec::new();
    let n = sources.len();
    let mut i: usize = 0;
    proof {
        assert(sources@.take(0) =~= Seq::<Source>::empty());
        assert(out.deep_view() =~= cat_lines(sources@.take(0), nl, nb));
        assert(err.deep_view() =~= err_lines(sources@.take(0)));
    }
    while i < n
        invariant
            n == sources@.len(),
            i <= n,
            nl == args.number_lines,
            nb == args.number_nonblank_lines,
            out.deep_view() == cat_lines(sources@.take(i as int), nl, nb),
            err.deep_view() == err_lines(sources@.take(i as int)),
        decreases n - i,
    {
        proof {
            assert(sources@.take(i as int + 1).drop_last() =~= sources@.take(i as int));
            assert(sources@.take(i as int + 1).last() == sources@[i as int]);
        }
        match &sources[i] {
            Source::Text { name, text } => {
                let lines = lines_of(text.as_str());
                let mut rendered = render_lines(&lines, nl, nb);
                let ghost pre = out.deep_view();
                let ghost add = rendered.deep_view();
                out.append(&mut rendered);
                proof {
                    assert(out.deep_view() =~= pre + add);
                }
            },
            Source::Failed { name, message } => {
                let line = failure_line_of(name, message);
                err.push(line);
                proof {
                    assert(err.deep_view() =~= err_lines(sources@.take(i as int + 1)));
                }
            },
        }
        i = i + 1;
    }
    proof {
        assert(sources@.take(n as int) =~= sources@);
    }
    Report { out, err }
}

} // verus!
