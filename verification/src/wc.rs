//! The counting tool: line, word, byte and character counts over a text.

use vstd::prelude::*;
use vstd::utf8::encode_utf8;
use vstd::string::StringExecFns;
use vstd::arithmetic::mul::{
    lemma_mul_basics,
    lemma_mul_inequality,
    lemma_mul_is_distributive_add_other_way,
};
use crate::render::{aligned, right_aligned};
use crate::source::{err_lines, failure_line_of, Report, Source};
use crate::text::{
    chars_of,
    char_is_space,
    is_space,
    lemma_newline_index_bounds,
    lemma_token_len_bounds,
    newline_index,
    split_lines,
    token_len,
    tokens,
};

verus! {

/// How many `'\n'` characters `s` holds.
pub open spec fn newline_count(s: Seq<char>) -> nat
    decreases s.len(),
{
    if s.len() == 0 {
        0
    } else {
        (if s[0] == '\n' {
            1nat
        } else {
            0nat
        }) + newline_count(s.drop_first())
    }
}

/// How many lines `s` holds: one per line terminator, plus one for a final
/// unterminated fragment.
pub open spec fn line_count(s: Seq<char>) -> nat {
    newline_count(s) + if s.len() > 0 && s.last() != '\n' {
        1nat
    } else {
        0nat
    }
}

/// How many maximal runs of non-whitespace characters remain in `s`, given
/// whether the character just before `s` was part of such a run.
pub open spec fn word_count_from(s: Seq<char>, in_word: bool) -> nat
    decreases s.len(),
{
    if s.len() == 0 {
        0
    } else if is_space(s[0]) {
        word_count_from(s.drop_first(), false)
    } else {
        (if in_word {
            0nat
        } else {
            1nat
        }) + word_count_from(s.drop_first(), true)
    }
}

/// How many whitespace-delimited non-empty tokens `s` holds.
pub open spec fn word_count(s: Seq<char>) -> nat {
    word_count_from(s, false)
}

/// How many bytes the UTF-8 encoding of `s` occupies.
pub open spec fn byte_count(s: Seq<char>) -> nat {
    encode_utf8(s).len()
}

/// The four counts reported for one input source.
#[derive(Debug, Clone, Copy, PartialEq, Eq, Structural)]
pub struct FileInfo {
    pub num_lines: u64,
    pub num_words: u64,
    pub num_bytes: u64,
    pub num_chars: u64,
}

/// A text whose last character is not a terminator has fewer terminators
/// than characters.
proof fn lemma_newline_count_last(s: Seq<char>)
    requires
        s.len() > 0,
        s.last() != '\n',
    ensures
        newline_count(s) < s.len(),
    decreases s.len(),
{
    if s.len() == 1 {
        assert(s[0] == s.last());
        assert(s.drop_first() =~= Seq::<char>::empty());
    } else {
        assert(s.drop_first().last() == s.last());
        lemma_newline_count_last(s.drop_first());
    }
}

/// The counts that a single pass over `s` reports: every record up to and
/// including a `'\n'` is a line, and so is a final unterminated fragment;
/// words are maximal runs of non-whitespace characters; bytes are those of
/// the UTF-8 encoding; characters are Unicode scalar values.
pub open spec fn describes(info: FileInfo, s: Seq<char>) -> bool {
    &&& info.num_lines == line_count(s)
    &&& info.num_words == word_count(s)
    &&& info.num_bytes == byte_count(s)
    &&& info.num_chars == s.len()
}

/// The counts of a text are a function of the text alone: two counting
/// passes over the same characters report the same four numbers.
pub proof fn lemma_count_deterministic(a: FileInfo, b: FileInfo, s: Seq<char>)
    requires
        describes(a, s),
        describes(b, s),
    ensures
        a == b,
{
}

/// Each character occupies at least one byte of the encoded text, and
/// exactly one when every character is a single-byte character; a text
/// with any multi-byte character occupies strictly more bytes than it has
/// characters.
pub proof fn lemma_chars_le_bytes(s: Seq<char>)
    ensures
        s.len() <= byte_count(s),
        (forall|i: int| 0 <= i < s.len() ==> (s[i] as u32) < 0x80) ==> s.len() == byte_count(s),
        (exists|i: int| 0 <= i < s.len() && (s[i] as u32) >= 0x80) ==> s.len() < byte_count(s),
    decreases s.len(),
{
    if s.len() > 0 {
        lemma_chars_le_bytes(s.drop_first());
        let u = s[0] as u32;
        assert(vstd::utf8::encode_scalar(u).len() >= 1);
        if u < 0x80 {
            assert(vstd::utf8::encode_scalar(u).len() == 1);
        } else {
            assert(vstd::utf8::encode_scalar(u).len() >= 2);
        }
        if forall|i: int| 0 <= i < s.len() ==> (s[i] as u32) < 0x80 {
            assert forall|i: int| 0 <= i < s.drop_first().len() implies (s.drop_first()[i]
                as u32) < 0x80 by {
                assert(s.drop_first()[i] == s[i + 1]);
            }
        }
        if exists|i: int| 0 <= i < s.len() && (s[i] as u32) >= 0x80 {
            let i = choose|i: int| 0 <= i < s.len() && (s[i] as u32) >= 0x80;
            if i >= 1 {
                assert(s.drop_first()[i - 1] == s[i]);
                assert(exists|j: int|
                    0 <= j < s.drop_first().len() && (s.drop_first()[j] as u32) >= 0x80);
            }
        }
    }
}

proof fn lemma_newline_count_concat(a: Seq<char>, b: Seq<char>)
    ensures
        newline_count(a + b) == newline_count(a) + newline_count(b),
    decreases a.len(),
{
    if a.len() == 0 {
        assert(a + b =~= b);
    } else {
        assert((a + b)[0] == a[0]);
        assert((a + b).drop_first() =~= a.drop_first() + b);
        lemma_newline_count_concat(a.drop_first(), b);
    }
}

proof fn lemma_newline_count_none(a: Seq<char>)
    requires
        forall|k: int| 0 <= k < a.len() ==> a[k] != '\n',
    ensures
        newline_count(a) == 0,
    decreases a.len(),
{
    if a.len() > 0 {
        assert forall|k: int| 0 <= k < a.drop_first().len() implies a.drop_first()[k] != '\n' by {
            assert(a.drop_first()[k] == a[k + 1]);
        }
        lemma_newline_count_none(a.drop_first());
    }
}

proof fn lemma_word_count_run(t: Seq<char>, m: int)
    requires
        0 <= m <= t.len(),
        forall|k: int| 0 <= k < m ==> !is_space(t[k]),
    ensures
        word_count_from(t, true) == word_count_from(t.skip(m), true),
    decreases m,
{
    if m == 0 {
        assert(t.skip(0) =~= t);
    } else {
        assert(!is_space(t[0]));
        assert forall|k: int| 0 <= k < m - 1 implies !is_space(t.drop_first()[k]) by {
            assert(t.drop_first()[k] == t[k + 1]);
        }
        lemma_word_count_run(t.drop_first(), m - 1);
        assert(t.drop_first() =~= t.skip(1));
        assert(t.skip(1).skip(m - 1) =~= t.skip(m));
    }
}

/// `word_count` counts exactly the maximal whitespace-delimited non-empty
/// tokens, however long the whitespace runs between them are.
pub proof fn lemma_word_count_tokens(s: Seq<char>)
    ensures
        word_count(s) == tokens(s).len(),
    decreases s.len(),
{
    if s.len() == 0 {
    } else if is_space(s[0]) {
        lemma_word_count_tokens(s.drop_first());
    } else {
        let tl = token_len(s) as int;
        lemma_token_len_bounds(s);
        let rest = s.skip(tl);
        assert(word_count_from(s, false) == 1 + word_count_from(s.drop_first(), true));
        assert forall|k: int| 0 <= k < tl - 1 implies !is_space(s.drop_first()[k]) by {
            assert(s.drop_first()[k] == s[k + 1]);
        }
        lemma_word_count_run(s.drop_first(), tl - 1);
        assert(s.drop_first().skip(tl - 1) =~= rest);
        if rest.len() > 0 {
            assert(is_space(rest[0]));
            assert(word_count_from(rest, true) == word_count_from(rest.drop_first(), false));
            assert(word_count_from(rest, false) == word_count_from(rest.drop_first(), false));
        }
        lemma_word_count_tokens(rest);
    }
}

/// A text of `N` lines splits into `N` line contents: the counter's line
/// count equals the length of [`split_lines`] on the same text.
pub proof fn lemma_line_count_split(s: Seq<char>)
    ensures
        line_count(s) == split_lines(s).len(),
    decreases s.len(),
{
    if s.len() > 0 {
        let i = newline_index(s) as int;
        lemma_newline_index_bounds(s);
        if i >= s.len() {
            lemma_newline_count_none(s);
            assert(s.last() != '\n');
        } else {
            let a = s.subrange(0, i + 1);
            let b = s.subrange(i + 1, s.len() as int);
            assert(s =~= a + b);
            lemma_newline_count_concat(a, b);
            assert(a =~= s.subrange(0, i) + seq!['\n']);
            lemma_newline_count_concat(s.subrange(0, i), seq!['\n']);
            lemma_newline_count_none(s.subrange(0, i));
            assert(seq!['\n'][0] == '\n');
            assert(seq!['\n'].drop_first() =~= Seq::<char>::empty());
            assert(newline_count(Seq::<char>::empty()) == 0);
            assert(newline_count(seq!['\n']) == 1);
            assert(newline_count(s) == 1 + newline_count(b));
            if b.len() > 0 {
                assert(s.last() == b.last());
            } else {
                assert(s.last() == '\n');
            }
            lemma_line_count_split(b);
        }
    }
}

/// Count lines, words, bytes and characters of `text` in one forward pass.
pub fn count(text: &str) -> (info: FileInfo)
    ensures
        describes(info, text@),
{
    broadcast use vstd::slice::axiom_spec_len;

    let v = chars_of(text);
    let nb = text.as_bytes().len();
    let n = v.len();
    let mut nl: u64 = 0;
    let mut nw: u64 = 0;
    let mut in_word = false;
    let mut i: usize = 0;
    proof {
        assert(text@.skip(0) =~= text@);
    }
    while i < n
        invariant
            v@ == text@,
            n == v@.len(),
            i <= n,
            nl <= i,
            nw <= i,
            newline_count(text@) == nl + newline_count(text@.skip(i as int)),
            word_count(text@) == nw + word_count_from(text@.skip(i as int), in_word),
        decreases n - i,
    {
        let c = v[i];
        proof {
            assert(text@.skip(i as int).len() == n - i);
            assert(text@.skip(i as int)[0] == text@[i as int]);
            assert(text@.skip(i as int).drop_first() =~= text@.skip(i as int + 1));
        }
        if c == '\n' {
            nl = nl + 1;
        }
        if char_is_space(c) {
            in_word = false;
        } else {
            if !in_word {
                nw = nw + 1;
            }
            in_word = true;
        }
        i = i + 1;
    }
    proof {
        assert(text@.skip(n as int) =~= Seq::<char>::empty());
    }
    let mut lines = nl;
    if n > 0 {
        let last = v[n - 1];
        if last != '\n' {
            proof {
                lemma_newline_count_last(text@);
            }
            lines = nl + 1;
        }
    }
    FileInfo { num_lines: lines, num_words: nw, num_bytes: nb as u64, num_chars: n as u64 }
}

/// What the caller asked to see: the input names and the four display toggles.
#[derive(Debug)]
pub struct Args {
    pub files: Vec<String>,
    pub lines: bool,
    pub words: bool,
    pub bytes: bool,
    pub chars: bool,
}

/// The display fields actually shown, in the order lines, words, bytes,
/// chars: with no toggle set, lines, words and bytes are shown.
pub open spec fn effective_flags(a: Args) -> (bool, bool, bool, bool) {
    if !a.lines && !a.words && !a.bytes && !a.chars {
        (true, true, true, false)
    } else {
        (a.lines, a.words, a.bytes, a.chars)
    }
}

impl Args {
    /// Apply the default field selection.
    pub fn effective(&self) -> (f: (bool, bool, bool, bool))
        ensures
            f == effective_flags(*self),
    {
        if !self.lines && !self.words && !self.bytes && !self.chars {
            (true, true, true, false)
        } else {
            (self.lines, self.words, self.bytes, self.chars)
        }
    }
}

/// Enabling both the byte field and the character field is rejected before
/// any input is touched.
#[derive(Debug, Clone, Copy, PartialEq, Eq, Structural)]
pub enum ConfigError {
    ConflictingFlags,
}

/// The enabled fields of one output row, each right-aligned to 8 columns,
/// concatenated without separators.
pub open spec fn counts_line(l: int, w: int, b: int, c: int, f: (bool, bool, bool, bool)) -> Seq<
    char,
> {
    (if f.0 {
        aligned(l, 8)
    } else {
        Seq::empty()
    }) + (if f.1 {
        aligned(w, 8)
    } else {
        Seq::empty()
    }) + (if f.2 {
        aligned(b, 8)
    } else {
        Seq::empty()
    }) + (if f.3 {
        aligned(c, 8)
    } else {
        Seq::empty()
    })
}

/// The name appended to a row: a single space then the name, except that
/// the synthetic standard-input name `-` is omitted.
pub open spec fn name_suffix(name: Seq<char>) -> Seq<char> {
    if name == "-"@ {
        Seq::empty()
    } else {
        " "@ + name
    }
}

/// The output row for one successfully counted source.
pub open spec fn file_line(text: Seq<char>, name: Seq<char>, f: (bool, bool, bool, bool)) -> Seq<
    char,
> {
    counts_line(
        line_count(text) as int,
        word_count(text) as int,
        byte_count(text) as int,
        text.len() as int,
        f,
    ) + name_suffix(name)
}

/// The output rows of a run, one per source whose text was read.
pub open spec fn out_lines(ss: Seq<Source>, f: (bool, bool, bool, bool)) -> Seq<Seq<char>>
    decreases ss.len(),
{
    if ss.len() == 0 {
        Seq::empty()
    } else {
        out_lines(ss.drop_last(), f) + match ss.last() {
            Source::Text { name, text } => seq![file_line(text@, name@, f)],
            Source::Failed { .. } => Seq::empty(),
        }
    }
}

/// The sums of the four counts over the sources whose text was read.
pub open spec fn totals(ss: Seq<Source>) -> (int, int, int, int)
    decreases ss.len(),
{
    if ss.len() == 0 {
        (0int, 0int, 0int, 0int)
    } else {
        let t = totals(ss.drop_last());
        match ss.last() {
            Source::Text { name, text } => (
                t.0 + line_count(text@),
                t.1 + word_count(text@),
                t.2 + byte_count(text@),
                t.3 + text@.len(),
            ),
            Source::Failed { .. } => t,
        }
    }
}

/// The summary row: the four totals, then the label `total`.
pub open spec fn total_line(ss: Seq<Source>, f: (bool, bool, bool, bool)) -> Seq<char> {
    let t = totals(ss);
    counts_line(t.0, t.1, t.2, t.3, f) + " total"@
}

/// One field of an output row: `value` right-aligned to 8 columns when the
/// field is shown, nothing when it is not.
pub fn showable(value: u64, show: bool) -> (r: String)
    ensures
        show ==> r@ == aligned(value as int, 8),
        !show ==> r@ == Seq::<char>::empty(),
{
    if show {
        right_aligned(value as u128, 8)
    } else {
        String::new()
    }
}

/// Append the enabled fields of one row to `s`.
fn push_counts(s: &mut String, l: u128, w: u128, b: u128, c: u128, f: (bool, bool, bool, bool))
    ensures
        final(s)@ == old(s)@ + counts_line(l as int, w as int, b as int, c as int, f),
{
    if f.0 {
        let a = right_aligned(l, 8);
        s.append(a.as_str());
    }
    if f.1 {
        let a = right_aligned(w, 8);
        s.append(a.as_str());
    }
    if f.2 {
        let a = right_aligned(b, 8);
        s.append(a.as_str());
    }
    if f.3 {
        let a = right_aligned(c, 8);
        s.append(a.as_str());
    }
    proof {
        assert(s@ =~= old(s)@ + counts_line(l as int, w as int, b as int, c as int, f));
    }
}

/// Render the output row for one counted source.
pub fn format_line(info: &FileInfo, f: (bool, bool, bool, bool), name: &String) -> (r: String)
    ensures
        r@ == counts_line(
            info.num_lines as int,
            info.num_words as int,
            info.num_bytes as int,
            info.num_chars as int,
            f,
        ) + name_suffix(name@),
{
    let mut s = String::new();
    push_counts(
        &mut s,
        info.num_lines as u128,
        info.num_words as u128,
        info.num_bytes as u128,
        info.num_chars as u128,
        f,
    );
    let ghost base = s@;
    let dash = String::from_str("-");
    if *name == dash {
        proof {
            assert(s@ =~= base + name_suffix(name@));
        }
    } else {
        s.append(" ");
        s.append(name.as_str());
        proof {
            assert(s@ =~= base + name_suffix(name@));
        }
    }
    s
}

/// Count every source and render the report.
///
/// Conflicting field toggles are rejected before any source is looked at.
/// Otherwise each readable source yields one output row, each failed source
/// one error row, and with more than one source a final row carries the
/// sums over the sources that were read.
pub fn run(args: &Args, sources: &Vec<Source>) -> (r: Result<Report, ConfigError>)
    ensures
        r is Err <==> (args.bytes && args.chars),
        r matches Ok(rep) ==> {
            &&& rep.err.deep_view() == err_lines(sources@)
            &&& rep.out.deep_view() == out_lines(sources@, effective_flags(*args)) + (if sources@.len()
                > 1 {
                seq![total_line(sources@, effective_flags(*args))]
            } else {
                Seq::<Seq<char>>::empty()
            })
        },
{
    if args.bytes && args.chars {
        return Err(ConfigError::ConflictingFlags);
    }
    let f = args.effective();
    let mut out: Vec<String> = Vec::new();
    let mut err: Vec<String> = Vec::new();
    let mut tl: u128 = 0;
    let mut tw: u128 = 0;
    let mut tb: u128 = 0;
    let mut tc: u128 = 0;
    let n = sources.len();
    let mut i: usize = 0;
    proof {
        assert(sources@.take(0) =~= Seq::<Source>::empty());
        assert(out.deep_view() =~= out_lines(sources@.take(0), f));
        assert(err.deep_view() =~= err_lines(sources@.take(0)));
    }
    while i < n
        invariant
            n == sources@.len(),
            i <= n,
            f == effective_flags(*args),
            out.deep_view() == out_lines(sources@.take(i as int), f),
            err.deep_view() == err_lines(sources@.take(i as int)),
            (tl as int, tw as int, tb as int, tc as int) == totals(sources@.take(i as int)),
            tl as int <= i as int * (u64::MAX as int),
            tw as int <= i as int * (u64::MAX as int),
            tb as int <= i as int * (u64::MAX as int),
            tc as int <= i as int * (u64::MAX as int),
        decreases n - i,
    {
        proof {
            let ii = i as int;
            let m = u64::MAX as int;
            lemma_mul_is_distributive_add_other_way(m, ii, 1);
            lemma_mul_basics(m);
            assert((ii + 1) * m == ii * m + m);
            assert(ii + 1 <= 18446744073709551616) by {
                assert(usize::MAX as int <= u64::MAX as int);
            }
            lemma_mul_inequality(ii + 1, 18446744073709551616, m);
            assert(sources@.take(ii + 1).drop_last() =~= sources@.take(ii));
            assert(sources@.take(ii + 1).last() == sources@[ii]);
        }
        match &sources[i] {
            Source::Text { name, text } => {
                let info = count(text.as_str());
                let line = format_line(&info, f, name);
                out.push(line);
                tl = tl + info.num_lines as u128;
                tw = tw + info.num_words as u128;
                tb = tb + info.num_bytes as u128;
                tc = tc + info.num_chars as u128;
                proof {
                    assert(out.deep_view() =~= out_lines(sources@.take(i as int + 1), f));
                }
            },
            Source::Failed { name, message } => {
                let line = failure_line_of(name, message);
                err.push(line);
                proof {
                    assert(err.deep_view() =~= err_lines(sources@.take(i as int + 1)));
                    assert(out.deep_view() =~= out_lines(sources@.take(i as int + 1), f));
                }
            },
        }
        i = i + 1;
    }
    proof {
        assert(sources@.take(n as int) =~= sources@);
    }
    if n > 1 {
        let mut t = String::new();
        push_counts(&mut t, tl, tw, tb, tc, f);
        t.append(" total");
        out.push(t);
        proof {
            assert(t@ == total_line(sources@, f));
            assert(out.deep_view() =~= out_lines(sources@, f) + seq![total_line(sources@, f)]);
        }
    }
    Ok(Report { out, err })
}

} // verus!
