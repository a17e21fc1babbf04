use vstd::prelude::*;
use vstd::string::*;
use crate::text::owned;

verus! {

/// The position of the first newline in `s`.
pub open spec fn first_newline(s: Seq<char>, i: int) -> bool {
    0 <= i < s.len() && s[i] == '\n' && forall|j: int| 0 <= j < i ==> s[j] != '\n'
}

/// A line without the carriage return that ended it.
pub open spec fn without_cr(line: Seq<char>) -> Seq<char> {
    if line.len() > 0 && line.last() == '\r' { line.drop_last() } else { line }
}

/// The lines of a text: the pieces between newlines, a carriage return just
/// before a newline dropped, and no empty line after a final newline.
pub open spec fn text_lines(s: Seq<char>) -> Seq<Seq<char>>
    decreases s.len(),
{
    if s.len() == 0 {
        seq![]
    } else if exists|i: int| first_newline(s, i) {
        let i = choose|i: int| first_newline(s, i);
        seq![without_cr(s.take(i))] + text_lines(s.skip(i + 1))
    } else {
        seq![s]
    }
}

/// The characters of a text, one by one.
fn chars_of(text: &str) -> (r: Vec<char>)
    ensures
        r@ == text@,
{
    broadcast use vstd::string::group_string_axioms;
    let mut out: Vec<char> = Vec::new();
    for c in it: text.chars()
        invariant
            out@ == it.seq().take(it.index() as int),
            it.seq() == text@,
    {
        out.push(c);
        assert(out@ =~= it.seq().take(it.index() as int + 1));
    }
    out
}

/// Splits a message into its lines (see `text_lines`).
pub fn split_lines(text: &str) -> (r: Vec<String>)
    ensures
        r@.map_values(|l: String| l@) == text_lines(text@),
{
    let chars = chars_of(text);
    let n = chars.len();
    let ghost s = text@;
    let mut out: Vec<String> = Vec::new();
    let mut start: usize = 0;
    let mut i: usize = 0;
    assert(s.skip(0) =~= s);
    assert(out@.map_values(|l: String| l@) + text_lines(s) =~= text_lines(s));
    while i < n
        invariant
            chars@ == s,
            s == text@,
            n == s.len(),
            start <= i <= n,
            forall|j: int| start <= j < i ==> s[j] != '\n',
            text_lines(s) == out@.map_values(|l: String| l@) + text_lines(s.skip(start as int)),
        decreases n - i,
    {
        if chars[i] == '\n' {
            let end: usize = if i > start && chars[i - 1] == '\r' { i - 1 } else { i };
            let line = owned(text.substring_char(start, end));
            let ghost rest = s.skip(start as int);
            let ghost before = out@.map_values(|l: String| l@);
            proof {
                let k = (i - start) as int;
                assert(first_newline(rest, k));
                let c = choose|x: int| first_newline(rest, x);
                if c < k {
                    assert(rest[c] == s[start + c]);
                } else if k < c {
                    assert(rest[k] != '\n');
                }
                assert(rest.skip(k + 1) =~= s.skip(i as int + 1));
                assert(line@ =~= without_cr(rest.take(k)));
            }
            out.push(line);
            assert(out@.map_values(|l: String| l@) =~= before.push(line@));
            assert(seq![line@] + text_lines(s.skip(i as int + 1)) =~= text_lines(rest));
            start = i + 1;
        }
        i = i + 1;
    }
    let ghost before = out@.map_values(|l: String| l@);
    let ghost rest = s.skip(start as int);
    if start < n {
        let line = owned(text.substring_char(start, n));
        proof {
            assert forall|x: int| !first_newline(rest, x) by {
                if first_newline(rest, x) {
                    assert(rest[x] == s[start + x]);
                }
            }
            assert(line@ =~= rest);
        }
        out.push(line);
        assert(out@.map_values(|l: String| l@) =~= before.push(line@));
    } else {
        assert(rest.len() == 0);
    }
    assert(out@.map_values(|l: String| l@) =~= text_lines(s));
    out
}

} // verus!
