//! The file-prefix tool: the first lines, or the first bytes, of each
//! source.

use vstd::prelude::*;
use vstd::math::min;
use vstd::string::StringExecFns;
use vstd::utf8::{decode_utf8, valid_utf8};
use crate::source::{failure_line, failure_line_of};
use crate::text::{lines_of, split_lines};

verus! {

/// What the caller asked for: the input names, how many lines to show,
/// and, instead, how many bytes.
#[derive(Debug)]
pub struct Args {
    pub files: Vec<String>,
    pub lines: u64,
    pub bytes: Option<u64>,
}

/// One named input: either its raw bytes, or the reason it could not be
/// read.
#[derive(Debug)]
pub enum ByteSource {
    Data { name: String, data: Vec<u8> },
    Failed { name: String, message: String },
}

/// What `String::from_utf8_lossy` makes of a byte sequence: its text, with
/// each invalid sequence replaced. A function of the bytes alone.
pub uninterp spec fn lossy_decode(bytes: Seq<u8>) -> Seq<char>;

/// Relies on String::from_utf8: it succeeds exactly on valid UTF-8, and
/// decodes the bytes to their scalar values.
#[verifier::external_body]
fn utf8_string(data: &[u8]) -> (r: Result<String, ()>)
    ensures
        r is Ok <==> valid_utf8(data@),
        r matches Ok(s) ==> s@ == decode_utf8(data@),
{
    match String::from_utf8(data.to_vec()) {
        Ok(s) => Ok(s),
        Err(_) => Err(()),
    }
}

/// Relies on String::from_utf8_lossy: the result depends on the bytes
/// alone, and valid UTF-8 decodes unchanged.
#[verifier::external_body]
fn lossy_string(data: &[u8]) -> (r: String)
    ensures
        r@ == lossy_decode(data@),
        valid_utf8(data@) ==> r@ == decode_utf8(data@),
{
    String::from_utf8_lossy(data).into_owned()
}

/// The lines joined back together, each with a line terminator.
pub open spec fn joinln(lines: Seq<Seq<char>>) -> Seq<char>
    decreases lines.len(),
{
    if lines.len() == 0 {
        Seq::empty()
    } else {
        joinln(lines.drop_last()) + lines.last() + "\n"@
    }
}

/// The first `n` of the lines, each terminated.
pub open spec fn taken_lines(lines: Seq<Seq<char>>, n: int) -> Seq<char> {
    joinln(lines.take(min(n, lines.len() as int)))
}

/// The header row naming a source, shown when several were asked for.
pub open spec fn header(name: Seq<char>) -> Seq<char> {
    "==> "@ + name + " <==\n"@
}

/// Append the header row for `name`.
fn push_header(out: &mut String, name: &String)
    ensures
        final(out)@ == old(out)@ + header(name@),
{
    out.append("==> ");
    out.append(name.as_str());
    out.append(" <==\n");
    proof {
        assert(out@ =~= old(out)@ + header(name@));
    }
}

/// Append the first `n` lines of `text`, each terminated.
fn push_taken_lines(out: &mut String, text: &str, n: u64)
    ensures
        final(out)@ == old(out)@ + taken_lines(split_lines(text@), n as int),
{
    let lines = lines_of(text);
    let m: usize = if n < lines.len() as u64 {
        n as usize
    } else {
        lines.len()
    };
    proof {
        assert(m as int == min(n as int, lines.deep_view().len() as int));
    }
    let mut i: usize = 0;
    proof {
        assert(lines.deep_view().take(0) =~= Seq::<Seq<char>>::empty());
        assert(out@ =~= old(out)@ + joinln(lines.deep_view().take(0)));
    }
    while i < m
        invariant
            lines.deep_view() == split_lines(text@),
            m <= lines@.len(),
            i <= m,
            out@ == old(out)@ + joinln(lines.deep_view().take(i as int)),
        decreases m - i,
    {
        proof {
            let dv = lines.deep_view();
            assert(dv.take(i as int + 1).drop_last() =~= dv.take(i as int));
            assert(dv.take(i as int + 1).last() == dv[i as int]);
            assert(dv[i as int] == lines@[i as int]@);
        }
        let line = &lines[i];
        out.append(line.as_str());
        out.append("\n");
        i = i + 1;
        proof {
            assert(out@ =~= old(out)@ + joinln(lines.deep_view().take(i as int)));
        }
    }
}

/// Append what the first `n` bytes of `data` decode to.
fn push_taken_bytes(out: &mut String, data: &Vec<u8>, n: u64)
    ensures
        final(out)@ == old(out)@ + lossy_decode(
            data@.take(min(n as int, data@.len() as int)),
        ),
{
    let m: usize = if n < data.len() as u64 {
        n as usize
    } else {
        data.len()
    };
    let part = lossy_string(&data.as_slice()[0..m]);
    proof {
        assert(data@.subrange(0, m as int) =~= data@.take(min(n as int, data@.len() as int)));
    }
    out.append(part.as_str());
}

/// The text shown for one readable source: its first bytes, decoded
/// leniently, or its first lines; bytes that are not a text in the line
/// mode show nothing (the failure is reported instead).
pub open spec fn body(data: Seq<u8>, a: Args) -> Seq<char> {
    match a.bytes {
        Some(b) => lossy_decode(data.take(min(b as int, data.len() as int))),
        None => if valid_utf8(data) {
            taken_lines(split_lines(decode_utf8(data)), a.lines as int)
        } else {
            Seq::empty()
        },
    }
}

/// What one source adds to the output: its header when several sources
/// were named, its body when readable, and a separating blank line after
/// every source but the last.
pub open spec fn contribution(s: ByteSource, a: Args, multi: bool, is_last: bool) -> Seq<char> {
    (if multi {
        header(source_name(s))
    } else {
        Seq::empty()
    }) + match s {
        ByteSource::Data { name, data } => body(data@, a) + if !is_last && (a.bytes is Some
            || valid_utf8(data@)) {
            "\n"@
        } else {
            Seq::empty()
        },
        ByteSource::Failed { .. } => Seq::empty(),
    }
}

/// The name a source was asked for under.
pub open spec fn source_name(s: ByteSource) -> Seq<char> {
    match s {
        ByteSource::Data { name, .. } => name@,
        ByteSource::Failed { name, .. } => name@,
    }
}

/// The output of the sources before the last one, each with its separator.
pub open spec fn head_out_all(ss: Seq<ByteSource>, a: Args, multi: bool) -> Seq<char>
    decreases ss.len(),
{
    if ss.len() == 0 {
        Seq::empty()
    } else {
        head_out_all(ss.drop_last(), a, multi) + contribution(ss.last(), a, multi, false)
    }
}

/// The whole output of a run.
pub open spec fn head_output(ss: Seq<ByteSource>, a: Args) -> Seq<char> {
    if ss.len() == 0 {
        Seq::empty()
    } else {
        head_out_all(ss.drop_last(), a, ss.len() > 1) + contribution(ss.last(), a, ss.len() > 1, true)
    }
}

/// The error rows of a run: one per source that could not be read, and one
/// per source whose bytes are not a text when lines were asked for.
pub open spec fn head_errs(ss: Seq<ByteSource>, a: Args) -> Seq<Seq<char>>
    decreases ss.len(),
{
    if ss.len() == 0 {
        Seq::empty()
    } else {
        head_errs(ss.drop_last(), a) + match ss.last() {
            ByteSource::Failed { name, message } => seq![failure_line(name@, message@)],
            ByteSource::Data { name, data } => {
                if a.bytes is None && !valid_utf8(data@) {
                    seq![failure_line(name@, "stream did not contain valid UTF-8"@)]
                } else {
                    Seq::<Seq<char>>::empty()
                }
            },
        }
    }
}

/// Show the first part of every source, under its header when several
/// were named; a source that cannot be read, or is not a text when lines
/// were asked for, yields one error row and the run continues.
pub fn run(args: &Args, sources: &Vec<ByteSource>) -> (r: (String, Vec<String>))
    ensures
        r.0@ == head_output(sources@, *args),
        r.1.deep_view() == head_errs(sources@, *args),
{
    let n = sources.len();
    let multi = n > 1;
    let mut out = String::new();
    let mut err: Vec<String> = Vec::new();
    let mut i: usize = 0;
    proof {
        assert(sources@.take(0) =~= Seq::<ByteSource>::empty());
        assert(err.deep_view() =~= head_errs(sources@.take(0), *args));
    }
    while i < n
        invariant
            n == sources@.len(),
            multi == (n > 1),
            i <= n,
            i < n ==> out@ == head_out_all(sources@.take(i as int), *args, multi),
            i == n ==> out@ == head_output(sources@, *args),
            err.deep_view() == head_errs(sources@.take(i as int), *args),
        decreases n - i,
    {
        let is_last = i + 1 == n;
        let ghost pre_out = out@;
        let ghost pre_err = err.deep_view();
        let ghost cur = sources@[i as int];
        proof {
            assert(sources@.take(i as int + 1).drop_last() =~= sources@.take(i as int));
            assert(sources@.take(i as int + 1).last() == cur);
        }
        match &sources[i] {
            ByteSource::Failed { name, message } => {
                if multi {
                    push_header(&mut out, name);
                }
                let line = failure_line_of(name, message);
                err.push(line);
            },
            ByteSource::Data { name, data } => {
                if multi {
                    push_header(&mut out, name);
                }
                match args.bytes {
                    Some(b) => {
                        push_taken_bytes(&mut out, data, b);
                        if !is_last {
                            out.append("\n");
                        }
                    },
                    None => {
                        match utf8_string(data.as_slice()) {
                            Ok(text) => {
                                push_taken_lines(&mut out, text.as_str(), args.lines);
                                if !is_last {
                                    out.append("\n");
                                }
                            },
                            Err(_) => {
                                let note = String::from_str(
                                    "stream did not contain valid UTF-8",
                                );
                                let line = failure_line_of(name, &note);
                                err.push(line);
                            },
                        }
                    },
                }
            },
        }
        proof {
            assert(out@ =~= pre_out + contribution(cur, *args, multi, is_last));
            assert(err.deep_view() =~= head_errs(sources@.take(i as int + 1), *args));
            if !is_last {
                assert(out@ =~= head_out_all(sources@.take(i as int + 1), *args, multi));
            } else {
                assert(sources@.take(i as int) =~= sources@.drop_last());
                assert(out@ =~= head_output(sources@, *args));
            }
        }
        i = i + 1;
    }
    proof {
        if n == 0 {
            assert(out@ =~= head_output(sources@, *args));
        }
        assert(sources@.take(n as int) =~= sources@);
    }
    (out, err)
}

} // verus!
