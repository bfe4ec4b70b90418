//! Character-sequence utilities shared by the router and the proxy
//! rewriters: case folding, prefix and substring tests, and a
//! replace-all-occurrences transformation.

use vstd::prelude::*;

verus! {

/// ASCII lowercase of one character; all other characters are unchanged.
pub open spec fn lower_char(c: char) -> char {
    if 'A' <= c <= 'Z' {
        ((c as u32) + 32) as char
    } else {
        c
    }
}

/// ASCII lowercase of a character sequence.
pub open spec fn lower(s: Seq<char>) -> Seq<char> {
    s.map_values(|c: char| lower_char(c))
}

/// `pat` is a prefix of `s`.
pub open spec fn is_prefix(s: Seq<char>, pat: Seq<char>) -> bool {
    pat.len() <= s.len() && s.subrange(0, pat.len() as int) == pat
}

/// `pat` occurs in `s` starting at position `i`.
pub open spec fn occurs_at(s: Seq<char>, pat: Seq<char>, i: int) -> bool {
    0 <= i && i + pat.len() <= s.len() && s.subrange(i, i + pat.len()) == pat
}

/// `pat` occurs somewhere in `s`.
pub open spec fn contains_seq(s: Seq<char>, pat: Seq<char>) -> bool {
    exists|i: int| occurs_at(s, pat, i)
}

/// Exec ASCII lowercase of one character.
pub fn lower_char_exec(c: char) -> (r: char)
    ensures
        r == lower_char(c),
{
    if 'A' <= c && c <= 'Z' {
        (((c as u8) + 32) as char)
    } else {
        c
    }
}

/// The characters of a `&str`, in order.
pub fn str_chars(s: &str) -> (r: Vec<char>)
    ensures
        r@ == s@,
{
    let n = s.unicode_len();
    let mut r: Vec<char> = Vec::new();
    let mut i: usize = 0;
    while i < n
        invariant
            n == s@.len(),
            i <= n,
            r@ == s@.subrange(0, i as int),
        decreases n - i,
    {
        r.push(s.get_char(i));
        assert(r@ =~= s@.subrange(0, i + 1));
        i = i + 1;
    }
    assert(r@ =~= s@);
    r
}

/// The ASCII-lowercased characters of a `&str`.
pub fn lower_chars(s: &str) -> (r: Vec<char>)
    ensures
        r@ == lower(s@),
{
    let n = s.unicode_len();
    let mut r: Vec<char> = Vec::new();
    let mut i: usize = 0;
    while i < n
        invariant
            n == s@.len(),
            i <= n,
            r@ == lower(s@.subrange(0, i as int)),
        decreases n - i,
    {
        r.push(lower_char_exec(s.get_char(i)));
        assert(r@ =~= lower(s@.subrange(0, i + 1)));
        i = i + 1;
    }
    assert(r@ =~= lower(s@));
    r
}

/// Relies on `String::push`: appends exactly the given character.
#[verifier::external_body]
fn push_char(s: &mut String, c: char)
    ensures
        final(s)@ == old(s)@ + seq![c],
{
    s.push(c);
}

/// A `String` holding exactly the given characters.
pub fn chars_string(v: &[char]) -> (r: String)
    ensures
        r@ == v@,
{
    let mut r = String::new();
    let mut i: usize = 0;
    while i < v.len()
        invariant
            i <= v@.len(),
            r@ == v@.subrange(0, i as int),
        decreases v@.len() - i,
    {
        push_char(&mut r, v[i]);
        assert(r@ =~= v@.subrange(0, i + 1));
        i = i + 1;
    }
    assert(r@ =~= v@);
    r
}

/// The characters of `v` from `a` to `b`, as a `String`.
pub fn chars_sub(v: &[char], a: usize, b: usize) -> (r: String)
    requires
        a <= b <= v@.len(),
    ensures
        r@ == v@.subrange(a as int, b as int),
{
    let mut out: Vec<char> = Vec::new();
    let mut i: usize = a;
    while i < b
        invariant
            a <= i <= b <= v@.len(),
            out@ == v@.subrange(a as int, i as int),
        decreases b - i,
    {
        assert(i < v.len());
        out.push(v[i]);
        assert(out@ =~= v@.subrange(a as int, i + 1));
        i = i + 1;
    }
    chars_string(out.as_slice())
}

/// The two sequences hold the same characters.
pub fn chars_eq(a: &[char], b: &[char]) -> (r: bool)
    ensures
        r == (a@ == b@),
{
    if a.len() != b.len() {
        assert(a@ != b@);
        return false;
    }
    let mut i: usize = 0;
    while i < a.len()
        invariant
            i <= a@.len(),
            a@.len() == b@.len(),
            forall|j: int| 0 <= j < i ==> a@[j] == b@[j],
        decreases a@.len() - i,
    {
        if a[i] != b[i] {
            assert(a@ != b@);
            return false;
        }
        i = i + 1;
    }
    assert(a@ =~= b@);
    true
}

/// Whether `pat` is a prefix of `s`.
pub fn starts_with_at(s: &[char], pat: &[char], at: usize) -> (r: bool)
    requires
        at <= s@.len(),
    ensures
        r == occurs_at(s@, pat@, at as int),
{
    if s.len() - at < pat.len() {
        return false;
    }
    let mut i: usize = 0;
    while i < pat.len()
        invariant
            i <= pat@.len(),
            at + pat@.len() <= s@.len(),
            forall|j: int| 0 <= j < i ==> s@[at + j] == pat@[j],
        decreases pat@.len() - i,
    {
        assert(at + i < s.len());
        if s[at + i] != pat[i] {
            assert(s@.subrange(at as int, at + pat@.len())[i as int] != pat@[i as int]);
            return false;
        }
        i = i + 1;
    }
    assert(s@.subrange(at as int, at + pat@.len()) =~= pat@);
    true
}

/// Whether `pat` is a prefix of `s`.
pub fn starts_with(s: &[char], pat: &[char]) -> (r: bool)
    ensures
        r == is_prefix(s@, pat@),
{
    let r = starts_with_at(s, pat, 0);
    assert(occurs_at(s@, pat@, 0) == is_prefix(s@, pat@));
    r
}

/// The first position where `pat` occurs in `s`, if any.
pub fn find_seq(s: &[char], pat: &[char]) -> (r: Option<usize>)
    requires
        pat@.len() > 0,
    ensures
        match r {
            Some(i) => occurs_at(s@, pat@, i as int) && forall|j: int|
                0 <= j < i ==> !occurs_at(s@, pat@, j),
            None => !contains_seq(s@, pat@),
        },
{
    let mut i: usize = 0;
    while i < s.len()
        invariant
            i <= s@.len(),
            forall|j: int| 0 <= j < i ==> !occurs_at(s@, pat@, j),
        decreases s@.len() - i,
    {
        if starts_with_at(s, pat, i) {
            return Some(i);
        }
        i = i + 1;
    }
    assert forall|j: int| !occurs_at(s@, pat@, j) by {
        if 0 <= j && j + pat@.len() <= s@.len() {
            assert(j < s@.len());
        }
    }
    None
}

/// Whether `pat` occurs somewhere in `s`.
pub fn contains_sub(s: &[char], pat: &[char]) -> (r: bool)
    requires
        pat@.len() > 0,
    ensures
        r == contains_seq(s@, pat@),
{
    match find_seq(s, pat) {
        Some(_) => true,
        None => false,
    }
}

/// Every occurrence of `from` in `s` replaced by `to`, scanning left to
/// right over non-overlapping occurrences; replaced text is not rescanned.
pub open spec fn spec_replace_all(s: Seq<char>, from: Seq<char>, to: Seq<char>) -> Seq<char>
    decreases s.len(),
    when from.len() > 0
{
    if s.len() == 0 {
        Seq::empty()
    } else if is_prefix(s, from) {
        to + spec_replace_all(s.skip(from.len() as int), from, to)
    } else {
        s.take(1) + spec_replace_all(s.skip(1), from, to)
    }
}

/// Occurrences in a suffix are occurrences of the whole, shifted.
pub proof fn lemma_occurs_at_shift(s: Seq<char>, pat: Seq<char>, k: int, j: int)
    requires
        0 <= k <= s.len(),
        0 <= j,
    ensures
        occurs_at(s.skip(k), pat, j) == occurs_at(s, pat, k + j),
{
    if j + pat.len() <= s.len() - k {
        assert(s.skip(k).subrange(j, j + pat.len()) =~= s.subrange(k + j, k + j + pat.len()));
    }
}

/// If `from` occurs nowhere in `s`, replacing it changes nothing.
pub proof fn lemma_replace_all_absent(s: Seq<char>, from: Seq<char>, to: Seq<char>)
    requires
        from.len() > 0,
        !contains_seq(s, from),
    ensures
        spec_replace_all(s, from, to) == s,
    decreases s.len(),
{
    if s.len() == 0 {
        assert(spec_replace_all(s, from, to) =~= s);
    } else {
        assert(!occurs_at(s, from, 0));
        assert(!is_prefix(s, from)) by {
            if is_prefix(s, from) {
                assert(s.subrange(0, from.len() as int) == from);
                assert(occurs_at(s, from, 0));
            }
        }
        assert(!contains_seq(s.skip(1), from)) by {
            if contains_seq(s.skip(1), from) {
                let i = choose|i: int| occurs_at(s.skip(1), from, i);
                assert(s.skip(1).subrange(i, i + from.len()) =~= s.subrange(
                    i + 1,
                    i + 1 + from.len(),
                ));
                assert(occurs_at(s, from, i + 1));
            }
        }
        lemma_replace_all_absent(s.skip(1), from, to);
        assert(spec_replace_all(s, from, to) =~= s.take(1) + s.skip(1));
        assert(s.take(1) + s.skip(1) =~= s);
    }
}

/// Appends all of `other` to `r`.
pub fn append_chars(r: &mut Vec<char>, other: &[char])
    ensures
        final(r)@ == old(r)@ + other@,
{
    let mut j: usize = 0;
    while j < other.len()
        invariant
            j <= other@.len(),
            r@ == old(r)@ + other@.subrange(0, j as int),
        decreases other@.len() - j,
    {
        r.push(other[j]);
        assert(r@ =~= old(r)@ + other@.subrange(0, j + 1));
        j = j + 1;
    }
    assert(r@ =~= old(r)@ + other@);
}

/// Appends all of `other` to `r`.
pub fn append_bytes(r: &mut Vec<u8>, other: &[u8])
    ensures
        final(r)@ == old(r)@ + other@,
{
    let mut j: usize = 0;
    while j < other.len()
        invariant
            j <= other@.len(),
            r@ == old(r)@ + other@.subrange(0, j as int),
        decreases other@.len() - j,
    {
        r.push(other[j]);
        assert(r@ =~= old(r)@ + other@.subrange(0, j + 1));
        j = j + 1;
    }
    assert(r@ =~= old(r)@ + other@);
}

/// Exec replace-all over character vectors.
pub fn replace_all(s: &[char], from: &[char], to: &[char]) -> (r: Vec<char>)
    requires
        from@.len() > 0,
    ensures
        r@ == spec_replace_all(s@, from@, to@),
{
    let mut r: Vec<char> = Vec::new();
    let mut i: usize = 0;
    proof {
        assert(s@.skip(0) =~= s@);
        assert(Seq::<char>::empty() + spec_replace_all(s@, from@, to@) =~= spec_replace_all(
            s@,
            from@,
            to@,
        ));
    }
    while i < s.len()
        invariant
            i <= s@.len(),
            from@.len() > 0,
            r@ + spec_replace_all(s@.skip(i as int), from@, to@) == spec_replace_all(
                s@,
                from@,
                to@,
            ),
        decreases s@.len() - i,
    {
        let ghost rest = s@.skip(i as int);
        let ghost r_before = r@;
        if starts_with_at(s, from, i) {
            proof {
                assert(rest.subrange(0, from@.len() as int) =~= s@.subrange(
                    i as int,
                    i + from@.len(),
                ));
                assert(is_prefix(rest, from@));
                assert(rest.skip(from@.len() as int) =~= s@.skip(i + from@.len()));
            }
            append_chars(&mut r, to);
            proof {
                assert(spec_replace_all(rest, from@, to@) == to@ + spec_replace_all(
                    s@.skip(i + from@.len()),
                    from@,
                    to@,
                ));
                assert(r@ + spec_replace_all(s@.skip(i + from@.len()), from@, to@)
                    =~= r_before + spec_replace_all(rest, from@, to@));
            }
            i = i + from.len();
        } else {
            proof {
                assert(!is_prefix(rest, from@)) by {
                    if is_prefix(rest, from@) {
                        assert(rest.subrange(0, from@.len() as int) =~= s@.subrange(
                            i as int,
                            i + from@.len(),
                        ));
                        assert(occurs_at(s@, from@, i as int));
                    }
                }
                assert(rest.take(1) =~= seq![s@[i as int]]);
                assert(rest.skip(1) =~= s@.skip(i + 1));
                assert(spec_replace_all(rest, from@, to@) == rest.take(1) + spec_replace_all(
                    s@.skip(i + 1),
                    from@,
                    to@,
                ));
            }
            r.push(s[i]);
            proof {
                assert(r@ + spec_replace_all(s@.skip(i + 1), from@, to@) =~= r_before
                    + spec_replace_all(rest, from@, to@));
            }
            i = i + 1;
        }
    }
    proof {
        assert(s@.skip(i as int) =~= Seq::<char>::empty());
        assert(r@ + spec_replace_all(s@.skip(i as int), from@, to@) =~= r@);
    }
    r
}

} // verus!
