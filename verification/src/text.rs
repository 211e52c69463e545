//! Characters, whitespace, and splitting text into lines.

use vstd::prelude::*;
use vstd::std_specs::iter::IteratorSpec;
use vstd::string::StrSliceExecFns;

verus! {

/// The Unicode `White_Space` characters: the separators that word counting
/// and whitespace tokenization split on.
pub open spec fn is_space(c: char) -> bool {
    let u = c as u32;
    u == 0x09 || u == 0x0A || u == 0x0B || u == 0x0C || u == 0x0D || u == 0x20 || u == 0x85
        || u == 0xA0 || u == 0x1680 || (0x2000 <= u && u <= 0x200A) || u == 0x2028 || u == 0x2029
        || u == 0x202F || u == 0x205F || u == 0x3000
}

/// Runtime test for [`is_space`].
#[verifier::when_used_as_spec(is_space)]
pub fn char_is_space(c: char) -> (r: bool)
    ensures
        r == is_space(c),
{
    let u = c as u32;
    u == 0x09 || u == 0x0A || u == 0x0B || u == 0x0C || u == 0x0D || u == 0x20 || u == 0x85
        || u == 0xA0 || u == 0x1680 || (0x2000 <= u && u <= 0x200A) || u == 0x2028 || u == 0x2029
        || u == 0x202F || u == 0x205F || u == 0x3000
}

/// The position of the first `'\n'` in `s`, or `s.len()` if there is none.
pub open spec fn newline_index(s: Seq<char>) -> nat
    decreases s.len(),
{
    if s.len() == 0 {
        0
    } else if s[0] == '\n' {
        0
    } else {
        1 + newline_index(s.drop_first())
    }
}

/// `newline_index` points at the first `'\n'`: nothing before it is one,
/// and it is one itself unless the text has none at all.
pub proof fn lemma_newline_index_bounds(s: Seq<char>)
    ensures
        newline_index(s) <= s.len(),
        newline_index(s) < s.len() ==> s[newline_index(s) as int] == '\n',
        forall|k: int| 0 <= k < newline_index(s) ==> s[k] != '\n',
    decreases s.len(),
{
    if s.len() > 0 && s[0] != '\n' {
        lemma_newline_index_bounds(s.drop_first());
        assert forall|k: int| 0 <= k < newline_index(s) implies s[k] != '\n' by {
            if k > 0 {
                assert(s.drop_first()[k - 1] == s[k]);
            }
        }
    }
}

/// A position with no `'\n'` before it, and a `'\n'` at it unless it is the
/// end, is where `newline_index` points.
pub proof fn lemma_newline_index_at(s: Seq<char>, i: int)
    requires
        0 <= i <= s.len(),
        forall|k: int| 0 <= k < i ==> s[k] != '\n',
        i < s.len() ==> s[i] == '\n',
    ensures
        newline_index(s) == i,
    decreases i,
{
    if i == 0 {
    } else {
        assert(s[0] != '\n');
        assert forall|k: int| 0 <= k < i - 1 implies s.drop_first()[k] != '\n' by {
            assert(s.drop_first()[k] == s[k + 1]);
        }
        if i - 1 < s.drop_first().len() {
            assert(s.drop_first()[i - 1] == s[i]);
        }
        lemma_newline_index_at(s.drop_first(), i - 1);
    }
}

/// The length of the leading run of non-whitespace characters of `s`.
pub open spec fn token_len(s: Seq<char>) -> nat
    decreases s.len(),
{
    if s.len() == 0 || is_space(s[0]) {
        0
    } else {
        1 + token_len(s.drop_first())
    }
}

/// `token_len` measures a maximal run: every character in it is
/// non-whitespace and the character after it, if any, is whitespace.
pub proof fn lemma_token_len_bounds(s: Seq<char>)
    ensures
        token_len(s) <= s.len(),
        forall|k: int| 0 <= k < token_len(s) ==> !is_space(s[k]),
        token_len(s) < s.len() ==> is_space(s[token_len(s) as int]),
    decreases s.len(),
{
    if s.len() > 0 && !is_space(s[0]) {
        lemma_token_len_bounds(s.drop_first());
        assert forall|k: int| 0 <= k < token_len(s) implies !is_space(s[k]) by {
            if k > 0 {
                assert(s.drop_first()[k - 1] == s[k]);
            }
        }
        if token_len(s) < s.len() {
            assert(s.drop_first()[token_len(s) - 1] == s[token_len(s) as int]);
        }
    }
}

/// The maximal whitespace-delimited non-empty tokens of `s`, in order.
pub open spec fn tokens(s: Seq<char>) -> Seq<Seq<char>>
    decreases s.len(),
    via tokens_dec
{
    if s.len() == 0 {
        Seq::empty()
    } else if is_space(s[0]) {
        tokens(s.drop_first())
    } else {
        seq![s.subrange(0, token_len(s) as int)] + tokens(s.skip(token_len(s) as int))
    }
}

#[via_fn]
proof fn tokens_dec(s: Seq<char>) {
    lemma_token_len_bounds(s);
}

/// A line content with its trailing carriage return, if any, removed.
pub open spec fn strip_cr(t: Seq<char>) -> Seq<char> {
    if t.len() > 0 && t.last() == '\r' {
        t.drop_last()
    } else {
        t
    }
}

/// The lines of `s`: each segment up to a `'\n'`, with the terminator and a
/// carriage return just before it removed, plus a final unterminated
/// segment kept as it stands.
pub open spec fn split_lines(s: Seq<char>) -> Seq<Seq<char>>
    decreases s.len(),
{
    if s.len() == 0 {
        Seq::empty()
    } else {
        let i = newline_index(s);
        if i >= s.len() {
            seq![s]
        } else {
            seq![strip_cr(s.subrange(0, i as int))] + split_lines(
                s.subrange(i as int + 1, s.len() as int),
            )
        }
    }
}

/// The characters of `text`, as a vector.
pub fn chars_of(text: &str) -> (v: Vec<char>)
    ensures
        v@ == text@,
{
    broadcast use vstd::string::group_string_axioms;

    let mut it = text.chars();
    let mut v: Vec<char> = Vec::new();
    loop
        invariant
            v@ + it.remaining() == text@,
            it.obeys_prophetic_iter_laws(),
            it.decrease() is Some,
        ensures
            v@ == text@,
        decreases it.decrease()->0,
    {
        match it.next() {
            Some(c) => {
                proof {
                    assert(v@.push(c) + it.remaining() =~= text@);
                }
                v.push(c);
            },
            None => {
                proof {
                    assert(v@ =~= text@);
                }
                break ;
            },
        }
    }
    v
}

/// Split `text` into its lines, as [`split_lines`] describes.
pub fn lines_of(text: &str) -> (lines: Vec<String>)
    ensures
        lines.deep_view() == split_lines(text@),
{
    let v = chars_of(text);
    let n = v.len();
    let mut lines: Vec<String> = Vec::new();
    let mut start: usize = 0;
    let mut i: usize = 0;
    proof {
        assert(text@.skip(0) =~= text@);
        assert(lines.deep_view() =~= Seq::<Seq<char>>::empty());
    }
    while i < n
        invariant
            v@ == text@,
            n == v@.len(),
            start <= i <= n,
            split_lines(text@) == lines.deep_view() + split_lines(text@.skip(start as int)),
            forall|k: int| start <= k < i ==> text@[k] != '\n',
        decreases n - i,
    {
        if v[i] == '\n' {
            let ghost st = start as int;
            let ghost ii = i as int;
            let ghost rest = text@.skip(st);
            proof {
                assert forall|k: int| 0 <= k < ii - st implies rest[k] != '\n' by {
                    assert(rest[k] == text@[st + k]);
                }
                assert(rest[ii - st] == text@[ii]);
                lemma_newline_index_at(rest, ii - st);
                assert(rest.subrange(0, ii - st) =~= text@.subrange(st, ii));
                assert(rest.subrange(ii - st + 1, rest.len() as int) =~= text@.skip(ii + 1));
            }
            let line = if i > start && v[i - 1] == '\r' {
                text.substring_char(start, i - 1)
            } else {
                text.substring_char(start, i)
            };
            proof {
                assert(line@ =~= strip_cr(text@.subrange(st, ii)));
            }
            let ghost pre = lines.deep_view();
            lines.push(line.to_owned());
            proof {
                assert(lines.deep_view() =~= pre + seq![strip_cr(text@.subrange(st, ii))]);
                assert(split_lines(text@) == lines.deep_view() + split_lines(text@.skip(ii + 1)));
            }
            start = i + 1;
        }
        i = i + 1;
    }
    if start < n {
        let ghost st = start as int;
        let ghost rest = text@.skip(st);
        proof {
            assert forall|k: int| 0 <= k < rest.len() implies rest[k] != '\n' by {
                assert(rest[k] == text@[st + k]);
            }
            lemma_newline_index_at(rest, rest.len() as int);
        }
        let line = text.substring_char(start, n);
        let ghost pre = lines.deep_view();
        lines.push(line.to_owned());
        proof {
            assert(line@ =~= rest);
            assert(lines.deep_view() =~= pre + seq![rest]);
            assert(lines.deep_view() =~= split_lines(text@));
        }
    } else {
        proof {
            assert(text@.skip(start as int) =~= Seq::<char>::empty());
            assert(lines.deep_view() =~= split_lines(text@));
        }
    }
    lines
}

} // verus!
