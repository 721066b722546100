//! Character-sequence utilities: case folding, equality, and the
//! split of a file name into stem and extension.

use vstd::prelude::*;

verus! {

/// The deep view of a character vector is its view.
pub broadcast proof fn lemma_chars_deep_view(v: Vec<char>)
    ensures
        #[trigger] v.deep_view() == v@,
{
    assert(v.deep_view() =~= v@);
}

/// The deep view of a vector of character vectors, element by element.
pub broadcast proof fn lemma_vec_chars_deep_view(v: Vec<Vec<char>>)
    ensures
        #![trigger v.deep_view()]
        v.deep_view().len() == v@.len(),
        forall|i: int| 0 <= i < v@.len() ==> #[trigger] v.deep_view()[i] == v@[i]@,
{
    broadcast use lemma_chars_deep_view;

    assert forall|i: int| 0 <= i < v@.len() implies v.deep_view()[i] == v@[i]@ by {
        assert(v@[i].deep_view() =~= v@[i]@);
    }
}

/// Case folding of a single character, as far as the category table can
/// see it: the ASCII letters, and the Kelvin sign (the one further code
/// point whose lower case is an ASCII letter); every other character is
/// left unchanged.
pub open spec fn lower_char(c: char) -> char {
    if c == 'A' {
        'a'
    } else if c == 'B' {
        'b'
    } else if c == 'C' {
        'c'
    } else if c == 'D' {
        'd'
    } else if c == 'E' {
        'e'
    } else if c == 'F' {
        'f'
    } else if c == 'G' {
        'g'
    } else if c == 'H' {
        'h'
    } else if c == 'I' {
        'i'
    } else if c == 'J' {
        'j'
    } else if c == 'K' {
        'k'
    } else if c == 'L' {
        'l'
    } else if c == 'M' {
        'm'
    } else if c == 'N' {
        'n'
    } else if c == 'O' {
        'o'
    } else if c == 'P' {
        'p'
    } else if c == 'Q' {
        'q'
    } else if c == 'R' {
        'r'
    } else if c == 'S' {
        's'
    } else if c == 'T' {
        't'
    } else if c == 'U' {
        'u'
    } else if c == 'V' {
        'v'
    } else if c == 'W' {
        'w'
    } else if c == 'X' {
        'x'
    } else if c == 'Y' {
        'y'
    } else if c == 'Z' {
        'z'
    } else if c == '\u{212A}' {
        'k'
    } else {
        c
    }
}

/// Case folding of a character sequence, character by character.
pub open spec fn lower(s: Seq<char>) -> Seq<char> {
    s.map_values(|c: char| lower_char(c))
}

pub fn to_lower_char(c: char) -> (r: char)
    ensures
        r == lower_char(c),
{
    if c == 'A' {
        'a'
    } else if c == 'B' {
        'b'
    } else if c == 'C' {
        'c'
    } else if c == 'D' {
        'd'
    } else if c == 'E' {
        'e'
    } else if c == 'F' {
        'f'
    } else if c == 'G' {
        'g'
    } else if c == 'H' {
        'h'
    } else if c == 'I' {
        'i'
    } else if c == 'J' {
        'j'
    } else if c == 'K' {
        'k'
    } else if c == 'L' {
        'l'
    } else if c == 'M' {
        'm'
    } else if c == 'N' {
        'n'
    } else if c == 'O' {
        'o'
    } else if c == 'P' {
        'p'
    } else if c == 'Q' {
        'q'
    } else if c == 'R' {
        'r'
    } else if c == 'S' {
        's'
    } else if c == 'T' {
        't'
    } else if c == 'U' {
        'u'
    } else if c == 'V' {
        'v'
    } else if c == 'W' {
        'w'
    } else if c == 'X' {
        'x'
    } else if c == 'Y' {
        'y'
    } else if c == 'Z' {
        'z'
    } else if c == '\u{212A}' {
        'k'
    } else {
        c
    }
}

/// Folds the case of a character vector, character by character.
pub fn to_lower(s: &Vec<char>) -> (r: Vec<char>)
    ensures
        r@ == lower(s@),
{
    let mut r: Vec<char> = Vec::new();
    let mut i: usize = 0;
    while i < s.len()
        invariant
            i <= s.len(),
            r@ == lower(s@.take(i as int)),
        decreases s.len() - i,
    {
        r.push(to_lower_char(s[i]));
        proof {
            assert(r@ =~= lower(s@.take(i as int + 1)));
        }
        i = i + 1;
    }
    proof {
        assert(s@.take(s@.len() as int) =~= s@);
    }
    r
}

/// Equality of two character vectors.
pub fn chars_eq(a: &Vec<char>, b: &Vec<char>) -> (r: bool)
    ensures
        r == (a@ == b@),
{
    if a.len() != b.len() {
        proof {
            assert(a@ != b@);
        }
        return false;
    }
    let mut i: usize = 0;
    while i < a.len()
        invariant
            i <= a.len(),
            a@.len() == b@.len(),
            forall|j: int| 0 <= j < i ==> a@[j] == b@[j],
        decreases a.len() - i,
    {
        if a[i] != b[i] {
            return false;
        }
        i = i + 1;
    }
    proof {
        assert(a@ =~= b@);
    }
    true
}

/// The characters of a string slice, as a vector.
pub fn str_chars(s: &str) -> (r: Vec<char>)
    ensures
        r@ == s@,
{
    let mut r: Vec<char> = Vec::new();
    let n = s.unicode_len();
    let mut i: usize = 0;
    while i < n
        invariant
            i <= n,
            n == s@.len(),
            r@ == s@.take(i as int),
        decreases n - i,
    {
        r.push(s.get_char(i));
        proof {
            assert(r@ =~= s@.take(i as int + 1));
        }
        i = i + 1;
    }
    proof {
        assert(s@.take(n as int) =~= s@);
    }
    r
}

/// Whether `x` occurs among the character vectors of `list`.
pub fn contains_chars(list: &Vec<Vec<char>>, x: &Vec<char>) -> (r: bool)
    ensures
        r == list.deep_view().contains(x@),
{
    broadcast use lemma_vec_chars_deep_view;

    let mut i: usize = 0;
    while i < list.len()
        invariant
            i <= list.len(),
            forall|j: int| 0 <= j < i ==> list@[j]@ != x@,
        decreases list.len() - i,
    {
        if chars_eq(x, &list[i]) {
            proof {
                assert(list.deep_view()[i as int] == x@);
            }
            return true;
        }
        i = i + 1;
    }
    proof {
        assert forall|j: int| 0 <= j < list.deep_view().len() implies list.deep_view()[j]
            != x@ by {
            assert(list.deep_view()[j] == list@[j]@);
        }
    }
    false
}

/// A copy of a character vector.
pub fn clone_chars(v: &Vec<char>) -> (r: Vec<char>)
    ensures
        r@ == v@,
{
    let mut r: Vec<char> = Vec::new();
    let mut i: usize = 0;
    while i < v.len()
        invariant
            i <= v.len(),
            r@ == v@.take(i as int),
        decreases v.len() - i,
    {
        r.push(v[i]);
        proof {
            assert(r@ =~= v@.take(i as int + 1));
        }
        i = i + 1;
    }
    proof {
        assert(v@.take(v@.len() as int) =~= v@);
    }
    r
}

/// Appends the characters of `b` to `a`.
pub fn append_chars(a: &mut Vec<char>, b: &Vec<char>)
    ensures
        final(a)@ == old(a)@ + b@,
{
    let mut i: usize = 0;
    while i < b.len()
        invariant
            i <= b.len(),
            a@ == old(a)@ + b@.take(i as int),
        decreases b.len() - i,
    {
        a.push(b[i]);
        proof {
            assert(a@ =~= old(a)@ + b@.take(i as int + 1));
        }
        i = i + 1;
    }
    proof {
        assert(old(a)@ + b@.take(b@.len() as int) =~= old(a)@ + b@);
    }
}

/// The position of the last `.` in `name` at or before position `i`,
/// or `-1` if there is none.
pub open spec fn last_dot_from(name: Seq<char>, i: int) -> int
    decreases i + 1,
{
    if i < 0 || i >= name.len() {
        -1
    } else if name[i] == '.' {
        i
    } else {
        last_dot_from(name, i - 1)
    }
}

/// The position of the last `.` in `name`, or `-1` if there is none.
pub open spec fn last_dot(name: Seq<char>) -> int {
    last_dot_from(name, name.len() - 1)
}

/// A file name has an extension when it holds a `.` anywhere: a name
/// such as `archive.tar`, `a.b.c` or `.hidden`, but not `README`.
pub open spec fn has_extension(name: Seq<char>) -> bool {
    last_dot(name) >= 0
}

/// The extension: what follows the last `.` of the name.
pub open spec fn extension_of(name: Seq<char>) -> Seq<char>
    recommends
        has_extension(name),
{
    name.subrange(last_dot(name) + 1, name.len() as int)
}

/// The stem: for a name with an extension, what precedes the last `.`;
/// for a name without one, the whole name.
pub open spec fn stem_of(name: Seq<char>) -> Seq<char> {
    if has_extension(name) {
        name.subrange(0, last_dot(name))
    } else {
        name
    }
}

pub proof fn lemma_last_dot_from_props(name: Seq<char>, i: int)
    requires
        i < name.len(),
    ensures
        last_dot_from(name, i) == -1 || (0 <= last_dot_from(name, i) <= i
            && name[last_dot_from(name, i)] == '.'),
        forall|j: int|
            last_dot_from(name, i) < j <= i && 0 <= j ==> name[j] != '.',
    decreases i + 1,
{
    if i < 0 {
    } else if name[i] == '.' {
    } else {
        lemma_last_dot_from_props(name, i - 1);
    }
}

/// What the last-dot position says of a name: the character there is a
/// dot, and no later character is.
pub proof fn lemma_last_dot_props(name: Seq<char>)
    ensures
        last_dot(name) == -1 || (0 <= last_dot(name) < name.len()
            && name[last_dot(name)] == '.'),
        forall|j: int| last_dot(name) < j < name.len() ==> name[j] != '.',
{
    lemma_last_dot_from_props(name, name.len() - 1);
}

/// A name with an extension is its stem, a dot, and its extension.
pub proof fn lemma_split_recompose(name: Seq<char>)
    requires
        has_extension(name),
    ensures
        name =~= stem_of(name) + seq!['.'] + extension_of(name),
{
    lemma_last_dot_props(name);
}

/// Splits a file name into stem and extension, when it has an extension.
pub fn split_extension(name: &Vec<char>) -> (r: Option<(Vec<char>, Vec<char>)>)
    ensures
        r is Some <==> has_extension(name@),
        r matches Some(p) ==> p.0@ == stem_of(name@) && p.1@ == extension_of(name@),
{
    let n = name.len();
    let mut i: usize = n;
    while i > 0
        invariant
            i <= n,
            n == name@.len(),
            last_dot(name@) == last_dot_from(name@, i as int - 1),
        decreases i,
    {
        if name[i - 1] == '.' {
            let d = i - 1;
            proof {
                assert(last_dot(name@) == d as int);
            }
            let mut stem: Vec<char> = Vec::new();
            let mut j: usize = 0;
            while j < d
                invariant
                    j <= d,
                    d < n,
                    n == name@.len(),
                    stem@ == name@.subrange(0, j as int),
                decreases d - j,
            {
                stem.push(name[j]);
                proof {
                    assert(stem@ =~= name@.subrange(0, j as int + 1));
                }
                j = j + 1;
            }
            let mut ext: Vec<char> = Vec::new();
            let mut k: usize = d + 1;
            while k < n
                invariant
                    d + 1 <= k <= n,
                    n == name@.len(),
                    ext@ == name@.subrange(d as int + 1, k as int),
                decreases n - k,
            {
                ext.push(name[k]);
                proof {
                    assert(ext@ =~= name@.subrange(d as int + 1, k as int + 1));
                }
                k = k + 1;
            }
            return Some((stem, ext));
        }
        i = i - 1;
    }
    proof {
        assert(last_dot(name@) == -1);
    }
    None
}

} // verus!
