//! The substring-search tool: the lines of a text that contain a pattern.

use vstd::prelude::*;
use vstd::string::StringExecFns;
use crate::text::{chars_of, lines_of, split_lines};

verus! {

/// Whether `pat` occurs in `hay` as a contiguous run of characters.
pub open spec fn contains_sub(hay: Seq<char>, pat: Seq<char>) -> bool {
    exists|i: int|
        0 <= i <= hay.len() - pat.len() && #[trigger] hay.subrange(i, i + pat.len()) == pat
}

/// Substring search: does `pat` occur anywhere in `hay`?
pub fn contains(hay: &str, pat: &str) -> (r: bool)
    ensures
        r == contains_sub(hay@, pat@),
{
    let h = chars_of(hay);
    let p = chars_of(pat);
    let hn = h.len();
    let pn = p.len();
    if pn > hn {
        return false;
    }
    let mut i: usize = 0;
    while i <= hn - pn
        invariant
            h@ == hay@,
            p@ == pat@,
            hn == h@.len(),
            pn == p@.len(),
            pn <= hn,
            i <= hn - pn + 1,
            forall|k: int| 0 <= k < i ==> #[trigger] hay@.subrange(k, k + pat@.len()) != pat@,
        decreases hn - pn + 1 - i,
    {
        let mut j: usize = 0;
        while j < pn && h[i + j] == p[j]
            invariant
                h@ == hay@,
                p@ == pat@,
                hn == h@.len(),
                pn == p@.len(),
                pn <= hn,
                i <= hn - pn,
                j <= pn,
                forall|t: int| 0 <= t < j ==> hay@[i + t] == pat@[t],
            decreases pn - j,
        {
            j = j + 1;
        }
        if j == pn {
            proof {
                assert(hay@.subrange(i as int, i as int + pat@.len()) =~= pat@);
            }
            return true;
        }
        proof {
            assert(hay@.subrange(i as int, i as int + pat@.len())[j as int] != pat@[j as int]);
        }
        i = i + 1;
    }
    false
}

/// The search output: each line of the input that contains the pattern,
/// followed by a line terminator.
pub open spec fn matched_output(lines: Seq<Seq<char>>, pat: Seq<char>) -> Seq<char>
    decreases lines.len(),
{
    if lines.len() == 0 {
        Seq::empty()
    } else {
        matched_output(lines.drop_last(), pat) + (if contains_sub(lines.last(), pat) {
            lines.last() + "\n"@
        } else {
            Seq::empty()
        })
    }
}

/// Write out every line of `content` that contains `pattern`.
pub fn find_matches(content: &str, pattern: &str) -> (out: String)
    ensures
        out@ == matched_output(split_lines(content@), pattern@),
{
    let lines = lines_of(content);
    let mut out = String::new();
    let n = lines.len();
    let mut i: usize = 0;
    proof {
        assert(lines.deep_view().take(0) =~= Seq::<Seq<char>>::empty());
    }
    while i < n
        invariant
            lines.deep_view() == split_lines(content@),
            n == lines@.len(),
            i <= n,
            out@ == matched_output(lines.deep_view().take(i as int), pattern@),
        decreases n - i,
    {
        proof {
            let dv = lines.deep_view();
            assert(dv.take(i as int + 1).drop_last() =~= dv.take(i as int));
            assert(dv.take(i as int + 1).last() == dv[i as int]);
            assert(dv[i as int] == lines@[i as int]@);
        }
        let line = &lines[i];
        if contains(line.as_str(), pattern) {
            out.append(line.as_str());
            out.append("\n");
        }
        i = i + 1;
    }
    proof {
        assert(lines.deep_view().take(n as int) =~= lines.deep_view());
    }
    out
}

} // verus!
