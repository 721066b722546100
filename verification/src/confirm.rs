//! The confirmation gate: a run proceeds only on an affirmative answer,
//! a lone `y` or `Y` once surrounding whitespace is stripped.

use vstd::prelude::*;
use crate::text::lower;
use crate::text::lower_char;
use crate::text::to_lower_char;

verus! {

/// The whitespace characters stripped around the answer: the Unicode
/// white-space code points, as `str::trim` strips them.
pub open spec fn is_space(c: char) -> bool {
    c == '\u{0009}' || c == '\u{000A}' || c == '\u{000B}' ||
    c == '\u{000C}' || c == '\u{000D}' || c == '\u{0020}' ||
    c == '\u{0085}' || c == '\u{00A0}' || c == '\u{1680}' ||
    c == '\u{2000}' || c == '\u{2001}' || c == '\u{2002}' ||
    c == '\u{2003}' || c == '\u{2004}' || c == '\u{2005}' ||
    c == '\u{2006}' || c == '\u{2007}' || c == '\u{2008}' ||
    c == '\u{2009}' || c == '\u{200A}' || c == '\u{2028}' ||
    c == '\u{2029}' || c == '\u{202F}' || c == '\u{205F}' ||
    c == '\u{3000}'
}

/// The answer with leading whitespace stripped.
pub open spec fn trim_front(s: Seq<char>) -> Seq<char>
    decreases s.len(),
{
    if s.len() > 0 && is_space(s[0]) {
        trim_front(s.drop_first())
    } else {
        s
    }
}

/// The answer with trailing whitespace stripped.
pub open spec fn trim_back(s: Seq<char>) -> Seq<char>
    decreases s.len(),
{
    if s.len() > 0 && is_space(s.last()) {
        trim_back(s.drop_last())
    } else {
        s
    }
}

/// The answer with whitespace stripped on both sides.
pub open spec fn trimmed(s: Seq<char>) -> Seq<char> {
    trim_back(trim_front(s))
}

/// An affirmative answer: exactly `y`, case-insensitively, once
/// surrounding whitespace is stripped.  Anything else declines.
pub open spec fn affirmative(input: Seq<char>) -> bool {
    lower(trimmed(input)) == seq!['y']
}

fn is_space_x(c: char) -> (r: bool)
    ensures
        r == is_space(c),
{
    c == '\u{0009}' || c == '\u{000A}' || c == '\u{000B}' ||
    c == '\u{000C}' || c == '\u{000D}' || c == '\u{0020}' ||
    c == '\u{0085}' || c == '\u{00A0}' || c == '\u{1680}' ||
    c == '\u{2000}' || c == '\u{2001}' || c == '\u{2002}' ||
    c == '\u{2003}' || c == '\u{2004}' || c == '\u{2005}' ||
    c == '\u{2006}' || c == '\u{2007}' || c == '\u{2008}' ||
    c == '\u{2009}' || c == '\u{200A}' || c == '\u{2028}' ||
    c == '\u{2029}' || c == '\u{202F}' || c == '\u{205F}' ||
    c == '\u{3000}'
}

/// Whether an answer read from the user confirms the run.
pub fn is_affirmative(input: &Vec<char>) -> (r: bool)
    ensures
        r == affirmative(input@),
{
    let n = input.len();
    proof {
        assert(input@.subrange(0, n as int) =~= input@);
    }
    let mut start: usize = 0;
    while start < n && is_space_x(input[start])
        invariant
            start <= n,
            n == input@.len(),
            trim_front(input@) == trim_front(input@.subrange(start as int, n as int)),
        decreases n - start,
    {
        proof {
            assert(input@.subrange(start as int, n as int).drop_first() =~= input@.subrange(
                start as int + 1,
                n as int,
            ));
        }
        start = start + 1;
    }
    proof {
        assert(trim_front(input@) =~= input@.subrange(start as int, n as int));
    }
    let mut end: usize = n;
    while end > start && is_space_x(input[end - 1])
        invariant
            start <= end <= n,
            n == input@.len(),
            trim_front(input@) == input@.subrange(start as int, n as int),
            trim_back(input@.subrange(start as int, n as int)) == trim_back(
                input@.subrange(start as int, end as int),
            ),
        decreases end,
    {
        proof {
            assert(input@.subrange(start as int, end as int).drop_last() =~= input@.subrange(
                start as int,
                end as int - 1,
            ));
        }
        end = end - 1;
    }
    proof {
        assert(trimmed(input@) =~= input@.subrange(start as int, end as int));
    }
    if end - start == 1 {
        let c = to_lower_char(input[start]);
        proof {
            assert(trimmed(input@).len() == 1);
            assert(trimmed(input@)[0] == input@[start as int]);
            assert(lower(trimmed(input@)) =~= seq![lower_char(input@[start as int])]);
            if lower_char(input@[start as int]) == 'y' {
                assert(lower(trimmed(input@)) =~= seq!['y']);
            } else {
                assert(lower(trimmed(input@))[0] != 'y');
            }
        }
        c == 'y'
    } else {
        proof {
            assert(lower(trimmed(input@)).len() != 1);
        }
        false
    }
}

} // verus!
