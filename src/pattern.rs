//! Character patterns: a single character or a set of characters.
use vstd::prelude::*;
use vstd::utf8::encode_utf8;

verus! {

/// Something that accepts or refuses each character.
pub trait CharPattern: Copy {
    /// Whether the pattern accepts `c`.
    spec fn accepts(&self, c: char) -> bool;

    /// Byte position of the first accepted character of `s`.
    fn find_in(&self, s: &str) -> (r: Option<usize>)
        ensures
            r is None ==> forall|i: int| 0 <= i < s@.len() ==> !self.accepts(#[trigger] s@[i]),
            r matches Some(b) ==> exists|i: int|
                0 <= i < s@.len() && self.accepts(s@[i]) && (forall|j: int|
                    0 <= j < i ==> !self.accepts(#[trigger] s@[j])) && b == encode_utf8(
                    s@.take(i),
                ).len(),
    ;

    /// Byte position of the last accepted character of `s`.
    fn rfind_in(&self, s: &str) -> (r: Option<usize>)
        ensures
            r is None ==> forall|i: int| 0 <= i < s@.len() ==> !self.accepts(#[trigger] s@[i]),
            r matches Some(b) ==> exists|i: int|
                0 <= i < s@.len() && self.accepts(s@[i]) && (forall|j: int|
                    i < j < s@.len() ==> !self.accepts(#[trigger] s@[j])) && b == encode_utf8(
                    s@.take(i),
                ).len(),
    ;
}

impl CharPattern for char {
    open spec fn accepts(&self, c: char) -> bool {
        c == *self
    }

    fn find_in(&self, s: &str) -> (r: Option<usize>) {
        find_char(s, *self)
    }

    fn rfind_in(&self, s: &str) -> (r: Option<usize>) {
        rfind_char(s, *self)
    }
}

impl<'b> CharPattern for &'b [char] {
    open spec fn accepts(&self, c: char) -> bool {
        self@.contains(c)
    }

    fn find_in(&self, s: &str) -> (r: Option<usize>) {
        find_any(s, *self)
    }

    fn rfind_in(&self, s: &str) -> (r: Option<usize>) {
        rfind_any(s, *self)
    }
}

/// Relies on `str::find` with a `char` pattern: the byte index of the first character
/// equal to `c`, or `None` where there is none.
#[verifier::external_body]
fn find_char(s: &str, c: char) -> (r: Option<usize>)
    ensures
        r is None ==> forall|i: int| 0 <= i < s@.len() ==> #[trigger] s@[i] != c,
        r matches Some(b) ==> exists|i: int|
            0 <= i < s@.len() && s@[i] == c && (forall|j: int| 0 <= j < i ==> #[trigger] s@[j]
                != c) && b == encode_utf8(s@.take(i)).len(),
{
    s.find(c)
}

/// Relies on `str::rfind` with a `char` pattern: the byte index of the last character
/// equal to `c`, or `None` where there is none.
#[verifier::external_body]
fn rfind_char(s: &str, c: char) -> (r: Option<usize>)
    ensures
        r is None ==> forall|i: int| 0 <= i < s@.len() ==> #[trigger] s@[i] != c,
        r matches Some(b) ==> exists|i: int|
            0 <= i < s@.len() && s@[i] == c && (forall|j: int| i < j < s@.len() ==> #[trigger] s@[j]
                != c) && b == encode_utf8(s@.take(i)).len(),
{
    s.rfind(c)
}

/// Relies on `str::find` with a `&[char]` pattern: the byte index of the first character
/// that `set` holds, or `None` where there is none.
#[verifier::external_body]
fn find_any(s: &str, set: &[char]) -> (r: Option<usize>)
    ensures
        r is None ==> forall|i: int| 0 <= i < s@.len() ==> !set@.contains(#[trigger] s@[i]),
        r matches Some(b) ==> exists|i: int|
            0 <= i < s@.len() && set@.contains(s@[i]) && (forall|j: int|
                0 <= j < i ==> !set@.contains(#[trigger] s@[j])) && b == encode_utf8(
                s@.take(i),
            ).len(),
{
    s.find(set)
}

/// Relies on `str::rfind` with a `&[char]` pattern: the byte index of the last character
/// that `set` holds, or `None` where there is none.
#[verifier::external_body]
fn rfind_any(s: &str, set: &[char]) -> (r: Option<usize>)
    ensures
        r is None ==> forall|i: int| 0 <= i < s@.len() ==> !set@.contains(#[trigger] s@[i]),
        r matches Some(b) ==> exists|i: int|
            0 <= i < s@.len() && set@.contains(s@[i]) && (forall|j: int|
                i < j < s@.len() ==> !set@.contains(#[trigger] s@[j])) && b == encode_utf8(
                s@.take(i),
            ).len(),
{
    s.rfind(set)
}

/// Index of the first character of `t` that `pat` accepts.
pub open spec fn first_hit<P: CharPattern>(t: Seq<char>, pat: P) -> Option<int>
    decreases t.len(),
{
    if t.len() == 0 {
        None
    } else if pat.accepts(t[0]) {
        Some(0)
    } else {
        match first_hit(t.drop_first(), pat) {
            Some(i) => Some(i + 1),
            None => None,
        }
    }
}

/// Index of the last character of `t` that `pat` accepts.
pub open spec fn last_hit<P: CharPattern>(t: Seq<char>, pat: P) -> Option<int>
    decreases t.len(),
{
    if t.len() == 0 {
        None
    } else if pat.accepts(t.last()) {
        Some(t.len() - 1)
    } else {
        last_hit(t.drop_last(), pat)
    }
}

/// Whether `pat` accepts some character of `t`.
pub open spec fn has_hit<P: CharPattern>(t: Seq<char>, pat: P) -> bool {
    exists|i: int| 0 <= i < t.len() && pat.accepts(#[trigger] t[i])
}

/// Where a search for `pat` in `t` lands: the byte position of the first hit.
pub open spec fn find_spec<P: CharPattern>(t: Seq<char>, pat: P) -> Option<usize> {
    match first_hit(t, pat) {
        Some(i) => Some(encode_utf8(t.take(i)).len() as usize),
        None => None,
    }
}

/// Where a search from the back for `pat` in `t` lands: the byte position of the last
/// hit.
pub open spec fn rfind_spec<P: CharPattern>(t: Seq<char>, pat: P) -> Option<usize> {
    match last_hit(t, pat) {
        Some(i) => Some(encode_utf8(t.take(i)).len() as usize),
        None => None,
    }
}

pub proof fn lemma_first_hit<P: CharPattern>(t: Seq<char>, pat: P)
    ensures
        first_hit(t, pat) is None <==> !has_hit(t, pat),
        first_hit(t, pat) matches Some(i) ==> 0 <= i < t.len() && pat.accepts(t[i]) && forall|
            j: int,
        | 0 <= j < i ==> !pat.accepts(#[trigger] t[j]),
    decreases t.len(),
{
    if t.len() > 0 {
        lemma_first_hit(t.drop_first(), pat);
        if !pat.accepts(t[0]) {
            if has_hit(t, pat) {
                let i = choose|i: int| 0 <= i < t.len() && pat.accepts(#[trigger] t[i]);
                assert(t.drop_first()[i - 1] == t[i]);
            }
            if has_hit(t.drop_first(), pat) {
                let i = choose|i: int|
                    0 <= i < t.drop_first().len() && pat.accepts(#[trigger] t.drop_first()[i]);
                assert(t[i + 1] == t.drop_first()[i]);
            }
            if let Some(i) = first_hit(t, pat) {
                assert forall|j: int| 0 <= j < i implies !pat.accepts(#[trigger] t[j]) by {
                    if j > 0 {
                        assert(t[j] == t.drop_first()[j - 1]);
                    }
                }
            }
        }
    }
}

pub proof fn lemma_first_hit_unique<P: CharPattern>(t: Seq<char>, pat: P, i: int)
    requires
        0 <= i < t.len(),
        pat.accepts(t[i]),
        forall|j: int| 0 <= j < i ==> !pat.accepts(#[trigger] t[j]),
    ensures
        first_hit(t, pat) == Some(i),
{
    lemma_first_hit(t, pat);
    assert(has_hit(t, pat));
    let k = first_hit(t, pat)->0;
    if k < i {
        assert(!pat.accepts(t[k]));
    }
    if k > i {
        assert(!pat.accepts(t[i]));
    }
}

pub proof fn lemma_last_hit<P: CharPattern>(t: Seq<char>, pat: P)
    ensures
        last_hit(t, pat) is None <==> !has_hit(t, pat),
        last_hit(t, pat) matches Some(i) ==> 0 <= i < t.len() && pat.accepts(t[i]) && forall|
            j: int,
        | i < j < t.len() ==> !pat.accepts(#[trigger] t[j]),
    decreases t.len(),
{
    if t.len() > 0 {
        lemma_last_hit(t.drop_last(), pat);
        if !pat.accepts(t.last()) {
            if has_hit(t, pat) {
                let i = choose|i: int| 0 <= i < t.len() && pat.accepts(#[trigger] t[i]);
                assert(t.drop_last()[i] == t[i]);
            }
            if has_hit(t.drop_last(), pat) {
                let i = choose|i: int|
                    0 <= i < t.drop_last().len() && pat.accepts(#[trigger] t.drop_last()[i]);
                assert(t[i] == t.drop_last()[i]);
            }
            if let Some(i) = last_hit(t, pat) {
                assert forall|j: int| i < j < t.len() implies !pat.accepts(#[trigger] t[j]) by {
                    if j < t.len() - 1 {
                        assert(t[j] == t.drop_last()[j]);
                    }
                }
            }
        }
    }
}

pub proof fn lemma_last_hit_unique<P: CharPattern>(t: Seq<char>, pat: P, i: int)
    requires
        0 <= i < t.len(),
        pat.accepts(t[i]),
        forall|j: int| i < j < t.len() ==> !pat.accepts(#[trigger] t[j]),
    ensures
        last_hit(t, pat) == Some(i),
{
    lemma_last_hit(t, pat);
    assert(has_hit(t, pat));
    let k = last_hit(t, pat)->0;
    if k < i {
        assert(!pat.accepts(t[i]));
    }
    if k > i {
        assert(!pat.accepts(t[k]));
    }
}

/// Hits in a concatenation are the hits of its two parts.
pub proof fn lemma_has_hit_concat<P: CharPattern>(a: Seq<char>, b: Seq<char>, pat: P)
    ensures
        has_hit(a + b, pat) <==> has_hit(a, pat) || has_hit(b, pat),
{
    if has_hit(a + b, pat) {
        let i = choose|i: int| 0 <= i < (a + b).len() && pat.accepts(#[trigger] (a + b)[i]);
        if i < a.len() {
            assert(a[i] == (a + b)[i]);
        } else {
            assert(b[i - a.len()] == (a + b)[i]);
        }
    }
    if has_hit(a, pat) {
        let i = choose|i: int| 0 <= i < a.len() && pat.accepts(#[trigger] a[i]);
        assert(a[i] == (a + b)[i]);
    }
    if has_hit(b, pat) {
        let i = choose|i: int| 0 <= i < b.len() && pat.accepts(#[trigger] b[i]);
        assert(b[i] == (a + b)[i + a.len()]);
    }
}

/// The first hit in `a + p + b`, where `a` has none, lies in `p`.
pub proof fn lemma_first_hit_in<P: CharPattern>(
    a: Seq<char>,
    p: Seq<char>,
    b: Seq<char>,
    i: int,
    pat: P,
)
    requires
        !has_hit(a, pat),
        0 <= i < p.len(),
        pat.accepts(p[i]),
        forall|j: int| 0 <= j < i ==> !pat.accepts(#[trigger] p[j]),
    ensures
        first_hit(a + p + b, pat) == Some(a.len() + i),
        (a + p + b).take(a.len() + i) == a + p.take(i),
{
    let t = a + p + b;
    assert(t[a.len() + i] == p[i]);
    assert forall|j: int| 0 <= j < a.len() + i implies !pat.accepts(#[trigger] t[j]) by {
        if j < a.len() {
            assert(t[j] == a[j]);
        } else {
            assert(t[j] == p[j - a.len()]);
        }
    }
    lemma_first_hit_unique(t, pat, a.len() + i);
    assert(t.take(a.len() + i) =~= a + p.take(i));
}

/// The last hit in `a + p + b`, where `b` has none, lies in `p`.
pub proof fn lemma_last_hit_in<P: CharPattern>(
    a: Seq<char>,
    p: Seq<char>,
    b: Seq<char>,
    i: int,
    pat: P,
)
    requires
        !has_hit(b, pat),
        0 <= i < p.len(),
        pat.accepts(p[i]),
        forall|j: int| i < j < p.len() ==> !pat.accepts(#[trigger] p[j]),
    ensures
        last_hit(a + p + b, pat) == Some(a.len() + i),
        (a + p + b).take(a.len() + i) == a + p.take(i),
{
    let t = a + p + b;
    assert(t[a.len() + i] == p[i]);
    assert forall|j: int| a.len() + i < j < t.len() implies !pat.accepts(#[trigger] t[j]) by {
        if j < a.len() + p.len() {
            assert(t[j] == p[j - a.len()]);
        } else {
            assert(t[j] == b[j - a.len() - p.len()]);
        }
    }
    lemma_last_hit_unique(t, pat, a.len() + i);
    assert(t.take(a.len() + i) =~= a + p.take(i));
}

} // verus!
