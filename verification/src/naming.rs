//! Collision-free destination names.  A file that would land on an
//! occupied name gets an increasing integer suffix between its stem and
//! its extension (`stem_1.ext`, `stem_2.ext`, ...), the first free suffix
//! winning.

use vstd::prelude::*;
use crate::text::has_extension;
use crate::text::extension_of;
use crate::text::stem_of;
use crate::text::lemma_split_recompose;
use crate::text::contains_chars;
use crate::text::clone_chars;
use crate::text::append_chars;
use crate::text::split_extension;
use crate::text::lemma_vec_chars_deep_view;

verus! {

/// The decimal digit characters.
pub open spec fn digit_char(d: nat) -> char {
    if d == 0 {
        '0'
    } else if d == 1 {
        '1'
    } else if d == 2 {
        '2'
    } else if d == 3 {
        '3'
    } else if d == 4 {
        '4'
    } else if d == 5 {
        '5'
    } else if d == 6 {
        '6'
    } else if d == 7 {
        '7'
    } else if d == 8 {
        '8'
    } else {
        '9'
    }
}

/// The decimal rendering of a number, without leading zeroes.
pub open spec fn dec_rep(k: nat) -> Seq<char>
    decreases k,
{
    if k < 10 {
        seq![digit_char(k)]
    } else {
        dec_rep(k / 10).push(digit_char(k % 10))
    }
}

/// A decimal rendering has at least one digit, and exactly one for a
/// number below ten.
pub proof fn lemma_dec_rep_len(k: nat)
    ensures
        dec_rep(k).len() >= 1,
        (dec_rep(k).len() == 1) == (k < 10),
    decreases k,
{
    if k >= 10 {
        lemma_dec_rep_len(k / 10);
    }
}

/// Distinct numbers render to distinct digit sequences.
pub proof fn lemma_dec_rep_injective(k1: nat, k2: nat)
    requires
        dec_rep(k1) == dec_rep(k2),
    ensures
        k1 == k2,
    decreases k1 + k2,
{
    lemma_dec_rep_len(k1);
    lemma_dec_rep_len(k2);
    if k1 < 10 && k2 < 10 {
        assert(dec_rep(k1) =~= seq![digit_char(k1)]);
        assert(dec_rep(k2) =~= seq![digit_char(k2)]);
        assert(seq![digit_char(k1)][0] == seq![digit_char(k2)][0]);
        assert(digit_char(k1) == digit_char(k2));
        assert(k1 == k2);
    } else if k1 >= 10 && k2 >= 10 {
        let a = dec_rep(k1 / 10);
        let b = dec_rep(k2 / 10);
        assert(a.push(digit_char(k1 % 10)) == b.push(digit_char(k2 % 10)));
        assert(a.push(digit_char(k1 % 10)).last() == digit_char(k1 % 10));
        assert(b.push(digit_char(k2 % 10)).last() == digit_char(k2 % 10));
        assert(k1 % 10 == k2 % 10);
        assert(a =~= b) by {
            assert(a.len() == b.len());
            assert forall|i: int| 0 <= i < a.len() implies a[i] == b[i] by {
                assert(a.push(digit_char(k1 % 10))[i] == a[i]);
                assert(b.push(digit_char(k2 % 10))[i] == b[i]);
            }
        }
        lemma_dec_rep_injective(k1 / 10, k2 / 10);
        assert(k1 == 10 * (k1 / 10) + k1 % 10) by {
            vstd::arithmetic::div_mod::lemma_fundamental_div_mod(k1 as int, 10);
        }
        assert(k2 == 10 * (k2 / 10) + k2 % 10) by {
            vstd::arithmetic::div_mod::lemma_fundamental_div_mod(k2 as int, 10);
        }
    } else {
        // One rendering has a single digit, the other more: the lengths differ.
        assert(dec_rep(k1).len() == dec_rep(k2).len());
        assert(false);
    }
}

/// The suffixed candidate name: stem, underscore, counter, dot, extension.
pub open spec fn suffixed(stem: Seq<char>, ext: Seq<char>, k: nat) -> Seq<char> {
    stem + seq!['_'] + dec_rep(k) + seq!['.'] + ext
}

/// The stem a candidate is built from: the part of the name before its
/// last dot, or the whole name when it has no extension.
pub open spec fn base_stem(name: Seq<char>) -> Seq<char> {
    stem_of(name)
}

/// The extension a candidate is built from: what follows the name's last
/// dot, or the empty sequence when it has no extension.
pub open spec fn base_ext(name: Seq<char>) -> Seq<char> {
    if has_extension(name) {
        extension_of(name)
    } else {
        Seq::empty()
    }
}

/// Distinct counters give distinct candidate names.
pub proof fn lemma_suffixed_injective(stem: Seq<char>, ext: Seq<char>, k1: nat, k2: nat)
    requires
        suffixed(stem, ext, k1) == suffixed(stem, ext, k2),
    ensures
        k1 == k2,
{
    let d1 = dec_rep(k1);
    let d2 = dec_rep(k2);
    assert(suffixed(stem, ext, k1).len() == stem.len() + 1 + d1.len() + 1 + ext.len());
    assert(suffixed(stem, ext, k2).len() == stem.len() + 1 + d2.len() + 1 + ext.len());
    assert(d1.len() == d2.len());
    assert forall|i: int| 0 <= i < d1.len() implies d1[i] == d2[i] by {
        let p = stem.len() + 1 + i;
        assert(suffixed(stem, ext, k1)[p] == d1[i]);
        assert(suffixed(stem, ext, k2)[p] == d2[i]);
    }
    assert(d1 =~= d2);
    lemma_dec_rep_injective(k1, k2);
}

/// No candidate name equals the name it was built from: every candidate
/// is strictly longer.
pub proof fn lemma_suffixed_differs(name: Seq<char>, k: nat)
    ensures
        name != suffixed(base_stem(name), base_ext(name), k),
{
    lemma_dec_rep_len(k);
    let s = suffixed(base_stem(name), base_ext(name), k);
    assert(s.len() == base_stem(name).len() + 1 + dec_rep(k).len() + 1 + base_ext(name).len());
    if has_extension(name) {
        lemma_split_recompose(name);
        assert(name.len() == base_stem(name).len() + 1 + base_ext(name).len());
    } else {
        assert(name.len() == base_stem(name).len());
    }
    assert(name.len() < s.len());
}

/// If a value occurs in a sequence, removing its first occurrence drops
/// the length by one.
proof fn lemma_remove_value_len(s: Seq<Seq<char>>, val: Seq<char>)
    requires
        s.contains(val),
    ensures
        s.remove_value(val).len() == s.len() - 1,
{
    s.index_of_first_ensures(val);
}

/// Removing the first occurrence of one value keeps every other value.
pub proof fn lemma_remove_value_keeps_others(s: Seq<Seq<char>>, val: Seq<char>, y: Seq<char>)
    requires
        s.contains(y),
        y != val,
    ensures
        s.remove_value(val).contains(y),
{
    s.index_of_first_ensures(val);
    match s.index_of_first(val) {
        Some(i) => {
            s.remove_ensures(i);
            let iy = choose|iy: int| 0 <= iy < s.len() && s[iy] == y;
            if iy < i {
                assert(s.remove(i)[iy] == y);
            } else {
                assert(s[i] == val);
                assert(iy != i);
                assert(s.remove(i)[iy - 1] == y);
            }
        },
        None => {},
    }
}

/// The pigeonhole bound behind termination of the collision search: a
/// base name and `k` suffixed candidates, pairwise distinct, that all
/// occur in `names` force `names` to hold at least `k + 1` entries.
pub proof fn lemma_candidates_bound(
    names: Seq<Seq<char>>,
    stem: Seq<char>,
    ext: Seq<char>,
    base: Seq<char>,
    k: nat,
)
    requires
        names.contains(base),
        forall|j: nat| 1 <= j <= k ==> names.contains(#[trigger] suffixed(stem, ext, j)),
        forall|j: nat| 1 <= j <= k ==> base != #[trigger] suffixed(stem, ext, j),
    ensures
        k + 1 <= names.len(),
    decreases k,
{
    if k == 0 {
        let i = choose|i: int| 0 <= i < names.len() && names[i] == base;
        assert(names.len() >= 1);
    } else {
        let v = suffixed(stem, ext, k);
        assert(names.contains(v));
        let rest = names.remove_value(v);
        lemma_remove_value_len(names, v);
        lemma_remove_value_keeps_others(names, v, base);
        assert forall|j: nat| 1 <= j <= k - 1 implies rest.contains(
            #[trigger] suffixed(stem, ext, j),
        ) by {
            if suffixed(stem, ext, j) == v {
                lemma_suffixed_injective(stem, ext, j, k);
            }
            lemma_remove_value_keeps_others(names, v, suffixed(stem, ext, j));
        }
        lemma_candidates_bound(rest, stem, ext, base, (k - 1) as nat);
    }
}

/// The first free candidate from counter `k` on, searching the occupied
/// names; the search is cut off once the counter exceeds the number of
/// occupied names, a point it never honestly reaches.
pub open spec fn first_free(
    stem: Seq<char>,
    ext: Seq<char>,
    names: Seq<Seq<char>>,
    k: nat,
) -> Seq<char>
    decreases names.len() + 1 - k,
{
    if k >= names.len() + 1 || !names.contains(suffixed(stem, ext, k)) {
        suffixed(stem, ext, k)
    } else {
        first_free(stem, ext, names, k + 1)
    }
}

/// The collision-free destination for a file name among the occupied
/// names of its destination directory: the name itself when free, and
/// otherwise the first free suffixed candidate, counting from one.
pub open spec fn unique_dest(name: Seq<char>, names: Seq<Seq<char>>) -> Seq<char> {
    if !names.contains(name) {
        name
    } else {
        first_free(base_stem(name), base_ext(name), names, 1)
    }
}

/// One decimal digit, as a character.
fn digit_char_x(d: u64) -> (c: char)
    requires
        d < 10,
    ensures
        c == digit_char(d as nat),
{
    if d == 0 {
        '0'
    } else if d == 1 {
        '1'
    } else if d == 2 {
        '2'
    } else if d == 3 {
        '3'
    } else if d == 4 {
        '4'
    } else if d == 5 {
        '5'
    } else if d == 6 {
        '6'
    } else if d == 7 {
        '7'
    } else if d == 8 {
        '8'
    } else {
        '9'
    }
}

/// The decimal rendering of a counter, as characters.
pub fn dec_chars(k: u64) -> (r: Vec<char>)
    ensures
        r@ == dec_rep(k as nat),
    decreases k,
{
    if k < 10 {
        let mut r: Vec<char> = Vec::new();
        r.push(digit_char_x(k));
        proof {
            assert(r@ =~= dec_rep(k as nat));
        }
        r
    } else {
        let mut r = dec_chars(k / 10);
        r.push(digit_char_x(k % 10));
        proof {
            assert(r@ =~= dec_rep(k as nat));
        }
        r
    }
}

/// Builds the suffixed candidate name for a counter.
pub fn make_suffixed(stem: &Vec<char>, ext: &Vec<char>, k: u64) -> (r: Vec<char>)
    ensures
        r@ == suffixed(stem@, ext@, k as nat),
{
    let mut r = clone_chars(stem);
    r.push('_');
    let digits = dec_chars(k);
    append_chars(&mut r, &digits);
    r.push('.');
    append_chars(&mut r, ext);
    proof {
        assert(r@ =~= suffixed(stem@, ext@, k as nat));
    }
    r
}

/// Picks a destination name that no existing name collides with: the
/// name itself when it is free, and otherwise the first free suffixed
/// candidate `stem_1.ext`, `stem_2.ext`, ...
pub fn generate_unique_name(name: &Vec<char>, existing: &Vec<Vec<char>>) -> (r: Vec<char>)
    ensures
        r@ == unique_dest(name@, existing.deep_view()),
        !existing.deep_view().contains(r@),
{
    broadcast use lemma_vec_chars_deep_view;

    let ghost names = existing.deep_view();
    if !contains_chars(existing, name) {
        return clone_chars(name);
    }
    let (stem, ext) = match split_extension(name) {
        Some(p) => p,
        None => (clone_chars(name), Vec::new()),
    };
    proof {
        assert(stem@ == base_stem(name@));
        assert(ext@ == base_ext(name@));
    }
    let cap = existing.len();
    let ghost n = names.len();
    let mut k: usize = 1;
    loop
        invariant
            1 <= k,
            k <= n + 1,
            n == names.len(),
            n == cap as int,
            names == existing.deep_view(),
            names.contains(name@),
            stem@ == base_stem(name@),
            ext@ == base_ext(name@),
            forall|j: nat| 1 <= j < k ==> names.contains(#[trigger] suffixed(stem@, ext@, j)),
            first_free(stem@, ext@, names, 1) == first_free(stem@, ext@, names, k as nat),
        decreases n + 1 - k,
    {
        let cand = make_suffixed(&stem, &ext, k as u64);
        if !contains_chars(existing, &cand) {
            proof {
                assert(first_free(stem@, ext@, names, k as nat) == cand@);
            }
            return cand;
        }
        proof {
            assert forall|j: nat| 1 <= j <= k implies name@ != #[trigger] suffixed(
                stem@,
                ext@,
                j,
            ) by {
                lemma_suffixed_differs(name@, j);
            }
            lemma_candidates_bound(names, stem@, ext@, name@, k as nat);
            assert(k + 1 <= n);
            assert((k as nat) < names.len() + 1);
            assert(first_free(stem@, ext@, names, k as nat) == first_free(
                stem@,
                ext@,
                names,
                k as nat + 1,
            ));
        }
        k = k + 1;
    }
}

} // verus!
