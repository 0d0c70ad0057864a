//! Mathematical helpers over UTF-8 bytes and characters.
use vstd::prelude::*;
use vstd::utf8::*;

verus! {

/// Byte strings laid end to end.
pub open spec fn join(ps: Seq<Seq<u8>>) -> Seq<u8>
    decreases ps.len(),
{
    if ps.len() == 0 {
        Seq::empty()
    } else {
        join(ps.drop_last()) + ps.last()
    }
}

/// The characters that a valid UTF-8 byte string spells.
pub open spec fn text_of(bytes: Seq<u8>) -> Seq<char> {
    decode_utf8(bytes)
}

/// Whether `c` is white space, as `char::is_whitespace` decides it.
pub uninterp spec fn is_white(c: char) -> bool;

/// Number of white-space characters at the front of `t`.
pub open spec fn lead_white(t: Seq<char>) -> nat
    decreases t.len(),
{
    if t.len() > 0 && is_white(t[0]) {
        1 + lead_white(t.drop_first())
    } else {
        0
    }
}

/// Number of white-space characters at the back of `t`.
pub open spec fn trail_white(t: Seq<char>) -> nat
    decreases t.len(),
{
    if t.len() > 0 && is_white(t.last()) {
        1 + trail_white(t.drop_last())
    } else {
        0
    }
}

/// `t` without its leading white space.
pub open spec fn trim_start_text(t: Seq<char>) -> Seq<char> {
    t.skip(lead_white(t) as int)
}

/// `t` without its trailing white space.
pub open spec fn trim_end_text(t: Seq<char>) -> Seq<char> {
    t.take(t.len() - trail_white(t))
}

/// `t` without white space at either end.
pub open spec fn trim_text(t: Seq<char>) -> Seq<char> {
    trim_end_text(trim_start_text(t))
}

/// Number of bytes that `c` takes in UTF-8.
pub open spec fn char_width(c: char) -> nat {
    encode_utf8(seq![c]).len()
}

pub proof fn lemma_join_concat(a: Seq<Seq<u8>>, b: Seq<Seq<u8>>)
    ensures
        join(a + b) == join(a) + join(b),
    decreases b.len(),
{
    if b.len() == 0 {
        assert(a + b =~= a);
        assert(join(a) + join(b) =~= join(a));
    } else {
        lemma_join_concat(a, b.drop_last());
        assert((a + b).drop_last() =~= a + b.drop_last());
        assert((a + b).last() == b.last());
        assert(join(a) + join(b) =~= join(a) + join(b.drop_last()) + b.last());
    }
}

pub proof fn lemma_join_one(p: Seq<u8>)
    ensures
        join(seq![p]) == p,
{
    assert(seq![p].drop_last() =~= Seq::<Seq<u8>>::empty());
    assert(join(seq![p].drop_last()) + p =~= p);
}

pub proof fn lemma_join_take(ps: Seq<Seq<u8>>, k: int)
    requires
        0 <= k < ps.len(),
    ensures
        join(ps.take(k + 1)) == join(ps.take(k)) + ps[k],
{
    assert(ps.take(k + 1).drop_last() =~= ps.take(k));
}

pub proof fn lemma_join_split(ps: Seq<Seq<u8>>, k: int)
    requires
        0 <= k <= ps.len(),
    ensures
        join(ps) == join(ps.take(k)) + join(ps.skip(k)),
{
    assert(ps =~= ps.take(k) + ps.skip(k));
    lemma_join_concat(ps.take(k), ps.skip(k));
}

pub proof fn lemma_join_part_len(ps: Seq<Seq<u8>>, j: int)
    requires
        0 <= j < ps.len(),
    ensures
        ps[j].len() <= join(ps).len(),
    decreases ps.len(),
{
    if j < ps.len() - 1 {
        lemma_join_part_len(ps.drop_last(), j);
    }
}

pub proof fn lemma_join_valid(ps: Seq<Seq<u8>>)
    requires
        forall|j: int| 0 <= j < ps.len() ==> valid_utf8(#[trigger] ps[j]),
    ensures
        valid_utf8(join(ps)),
    decreases ps.len(),
{
    if ps.len() > 0 {
        lemma_join_valid(ps.drop_last());
        valid_utf8_concat(join(ps.drop_last()), ps.last());
    }
}

pub proof fn lemma_encode_concat(a: Seq<char>, b: Seq<char>)
    ensures
        encode_utf8(a + b) == encode_utf8(a) + encode_utf8(b),
    decreases a.len(),
{
    if a.len() == 0 {
        assert(a + b =~= b);
        assert(encode_utf8(a) + encode_utf8(b) =~= encode_utf8(b));
    } else {
        lemma_encode_concat(a.drop_first(), b);
        assert((a + b).drop_first() =~= a.drop_first() + b);
        assert((a + b)[0] == a[0]);
        assert(encode_utf8(a) + encode_utf8(b) =~= encode_scalar(a[0] as u32) + (encode_utf8(
            a.drop_first(),
        ) + encode_utf8(b)));
    }
}

pub proof fn lemma_decode_concat(a: Seq<u8>, b: Seq<u8>)
    requires
        valid_utf8(a),
        valid_utf8(b),
    ensures
        valid_utf8(a + b),
        text_of(a + b) == text_of(a) + text_of(b),
{
    valid_utf8_concat(a, b);
    decode_utf8_encode_utf8(a);
    decode_utf8_encode_utf8(b);
    lemma_encode_concat(decode_utf8(a), decode_utf8(b));
    encode_utf8_decode_utf8(decode_utf8(a) + decode_utf8(b));
}

pub proof fn lemma_text_encode(t: Seq<char>)
    ensures
        valid_utf8(encode_utf8(t)),
        text_of(encode_utf8(t)) == t,
{
    encode_utf8_valid_utf8(t);
    encode_utf8_decode_utf8(t);
}

pub proof fn lemma_encode_text(b: Seq<u8>)
    requires
        valid_utf8(b),
    ensures
        encode_utf8(text_of(b)) == b,
        text_of(b).len() <= b.len(),
        b.len() == 0 <==> text_of(b).len() == 0,
{
    decode_utf8_encode_utf8(b);
    lemma_encode_len(text_of(b));
}

pub proof fn lemma_encode_len(t: Seq<char>)
    ensures
        t.len() <= encode_utf8(t).len(),
        t.len() == 0 <==> encode_utf8(t).len() == 0,
    decreases t.len(),
{
    if t.len() > 0 {
        lemma_encode_len(t.drop_first());
    }
}

pub proof fn lemma_boundary_concat(a: Seq<u8>, b: Seq<u8>, i: int)
    requires
        valid_utf8(a),
        valid_utf8(b),
    ensures
        valid_utf8(a + b),
        is_char_boundary(a + b, i) <==> (if i <= a.len() {
            is_char_boundary(a, i)
        } else {
            is_char_boundary(b, i - a.len())
        }),
{
    let ab = a + b;
    valid_utf8_concat(a, b);
    is_char_boundary_start_end_of_seq(a);
    is_char_boundary_start_end_of_seq(b);
    is_char_boundary_start_end_of_seq(ab);
    if i < 0 {
    } else if i < a.len() {
        is_char_boundary_iff_not_is_continuation_byte(ab, i);
        is_char_boundary_iff_not_is_continuation_byte(a, i);
        assert(ab[i] == a[i]);
    } else if i == a.len() {
        if b.len() > 0 {
            is_char_boundary_iff_not_is_continuation_byte(ab, i);
            is_char_boundary_iff_not_is_continuation_byte(b, 0);
            assert(ab[i] == b[0]);
        } else {
            assert(ab =~= a);
        }
    } else if i < ab.len() {
        is_char_boundary_iff_not_is_continuation_byte(ab, i);
        is_char_boundary_iff_not_is_continuation_byte(b, i - a.len());
        assert(ab[i] == b[i - a.len()]);
    } else if i == ab.len() {
    } else {
    }
}

/// A window between two character boundaries of valid UTF-8 is valid, and its own
/// boundaries are exactly those of the whole that fall inside it.
pub proof fn lemma_boundary_sub(s: Seq<u8>, lo: int, hi: int, i: int)
    requires
        valid_utf8(s),
        0 <= lo <= hi <= s.len(),
        is_char_boundary(s, lo),
        is_char_boundary(s, hi),
    ensures
        valid_utf8(s.subrange(lo, hi)),
        is_char_boundary(s.subrange(lo, hi), i) <==> (0 <= i <= hi - lo && is_char_boundary(
            s,
            lo + i,
        )),
{
    let p = s.subrange(0, lo);
    let r = s.subrange(lo, s.len() as int);
    valid_utf8_split(s, lo);
    assert(s =~= p + r);
    lemma_boundary_concat(p, r, hi);
    valid_utf8_split(r, hi - lo);
    let m = r.subrange(0, hi - lo);
    let q = r.subrange(hi - lo, r.len() as int);
    assert(m =~= s.subrange(lo, hi));
    assert(r =~= m + q);
    lemma_boundary_concat(p, r, lo + i);
    lemma_boundary_concat(m, q, i);
    is_char_boundary_start_end_of_seq(m);
    is_char_boundary_start_end_of_seq(r);
    is_char_boundary_start_end_of_seq(p);
}

pub proof fn lemma_lead_white(t: Seq<char>)
    ensures
        lead_white(t) <= t.len(),
        forall|i: int| 0 <= i < lead_white(t) ==> is_white(#[trigger] t[i]),
        lead_white(t) < t.len() ==> !is_white(t[lead_white(t) as int]),
    decreases t.len(),
{
    if t.len() > 0 && is_white(t[0]) {
        lemma_lead_white(t.drop_first());
        assert forall|i: int| 0 <= i < lead_white(t) implies is_white(#[trigger] t[i]) by {
            if i > 0 {
                assert(t[i] == t.drop_first()[i - 1]);
            }
        }
    }
}

pub proof fn lemma_lead_white_unique(t: Seq<char>, k: int)
    requires
        0 <= k <= t.len(),
        forall|i: int| 0 <= i < k ==> is_white(#[trigger] t[i]),
        k < t.len() ==> !is_white(t[k]),
    ensures
        lead_white(t) == k,
    decreases t.len(),
{
    if k > 0 {
        assert forall|i: int| 0 <= i < k - 1 implies is_white(#[trigger] t.drop_first()[i]) by {
            assert(t.drop_first()[i] == t[i + 1]);
        }
        if k - 1 < t.len() - 1 {
            assert(t.drop_first()[k - 1] == t[k]);
        }
        lemma_lead_white_unique(t.drop_first(), k - 1);
    }
}

pub proof fn lemma_trail_white(t: Seq<char>)
    ensures
        trail_white(t) <= t.len(),
        forall|i: int| t.len() - trail_white(t) <= i < t.len() ==> is_white(#[trigger] t[i]),
        trail_white(t) < t.len() ==> !is_white(t[t.len() - trail_white(t) - 1]),
    decreases t.len(),
{
    if t.len() > 0 && is_white(t.last()) {
        lemma_trail_white(t.drop_last());
        assert forall|i: int| t.len() - trail_white(t) <= i < t.len() implies is_white(
            #[trigger] t[i],
        ) by {
            if i < t.len() - 1 {
                assert(t[i] == t.drop_last()[i]);
            }
        }
        if trail_white(t) < t.len() {
            assert(t[t.len() - trail_white(t) - 1] == t.drop_last()[t.len() - trail_white(t)
                - 1]);
        }
    }
}

pub proof fn lemma_trail_white_unique(t: Seq<char>, k: int)
    requires
        0 <= k <= t.len(),
        forall|i: int| t.len() - k <= i < t.len() ==> is_white(#[trigger] t[i]),
        k < t.len() ==> !is_white(t[t.len() - k - 1]),
    ensures
        trail_white(t) == k,
    decreases t.len(),
{
    if k > 0 {
        let d = t.drop_last();
        assert forall|i: int| d.len() - (k - 1) <= i < d.len() implies is_white(#[trigger] d[i]) by {
            assert(d[i] == t[i]);
        }
        if k - 1 < d.len() {
            assert(d[d.len() - (k - 1) - 1] == t[t.len() - k - 1]);
        }
        lemma_trail_white_unique(d, k - 1);
    }
}

/// Leading white space of a concatenation.
pub proof fn lemma_lead_white_concat(a: Seq<char>, b: Seq<char>)
    ensures
        lead_white(a + b) == if lead_white(a) == a.len() {
            a.len() + lead_white(b)
        } else {
            lead_white(a)
        },
{
    lemma_lead_white(a);
    lemma_lead_white(b);
    let ab = a + b;
    if lead_white(a) == a.len() {
        let k = (a.len() + lead_white(b)) as int;
        assert forall|i: int| 0 <= i < k implies is_white(#[trigger] ab[i]) by {
            if i >= a.len() {
                assert(ab[i] == b[i - a.len()]);
            }
        }
        if k < ab.len() {
            assert(ab[k] == b[lead_white(b) as int]);
        }
        lemma_lead_white_unique(ab, k);
    } else {
        let k = lead_white(a) as int;
        assert forall|i: int| 0 <= i < k implies is_white(#[trigger] ab[i]) by {
            assert(ab[i] == a[i]);
        }
        assert(ab[k] == a[k]);
        lemma_lead_white_unique(ab, k);
    }
}

/// Trailing white space of a concatenation.
pub proof fn lemma_trail_white_concat(a: Seq<char>, b: Seq<char>)
    ensures
        trail_white(a + b) == if trail_white(b) == b.len() {
            b.len() + trail_white(a)
        } else {
            trail_white(b)
        },
{
    lemma_trail_white(a);
    lemma_trail_white(b);
    let ab = a + b;
    if trail_white(b) == b.len() {
        let k = (b.len() + trail_white(a)) as int;
        assert forall|i: int| ab.len() - k <= i < ab.len() implies is_white(#[trigger] ab[i]) by {
            if i < a.len() {
                assert(ab[i] == a[i]);
            } else {
                assert(ab[i] == b[i - a.len()]);
            }
        }
        if k < ab.len() {
            assert(ab[ab.len() - k - 1] == a[a.len() - trail_white(a) - 1]);
        }
        lemma_trail_white_unique(ab, k);
    } else {
        let k = trail_white(b) as int;
        assert forall|i: int| ab.len() - k <= i < ab.len() implies is_white(#[trigger] ab[i]) by {
            assert(ab[i] == b[i - a.len()]);
        }
        assert(ab[ab.len() - k - 1] == b[b.len() - k - 1]);
        lemma_trail_white_unique(ab, k);
    }
}

/// Cutting a character string into a white-space prefix and the rest: the byte count of
/// the prefix is a character boundary of the encoding.
pub proof fn lemma_cut_encoding(u: Seq<char>, v: Seq<char>)
    ensures
        encode_utf8(u + v) == encode_utf8(u) + encode_utf8(v),
        valid_utf8(encode_utf8(u + v)),
        is_char_boundary(encode_utf8(u + v), encode_utf8(u).len() as int),
        (encode_utf8(u) + encode_utf8(v)).take(encode_utf8(u).len() as int) == encode_utf8(u),
        (encode_utf8(u) + encode_utf8(v)).skip(encode_utf8(u).len() as int) == encode_utf8(v),
{
    lemma_encode_concat(u, v);
    lemma_text_encode(u);
    lemma_text_encode(v);
    lemma_text_encode(u + v);
    lemma_boundary_concat(encode_utf8(u), encode_utf8(v), encode_utf8(u).len() as int);
    vstd::utf8::is_char_boundary_start_end_of_seq(encode_utf8(u));
    assert((encode_utf8(u) + encode_utf8(v)).take(encode_utf8(u).len() as int) =~= encode_utf8(u));
    assert((encode_utf8(u) + encode_utf8(v)).skip(encode_utf8(u).len() as int) =~= encode_utf8(v));
}

/// Trimming the front of `a + (x + y) + b`, where `a` and `x` spell only white space
/// and `y` starts with a character that is not, leaves `y + b`.
pub proof fn lemma_trim_start_at(a: Seq<u8>, u: Seq<char>, v: Seq<char>, b: Seq<u8>)
    requires
        valid_utf8(a),
        valid_utf8(b),
        lead_white(text_of(a)) == text_of(a).len(),
        lead_white(u) == u.len(),
        v.len() > 0,
        !is_white(v[0]),
    ensures
        text_of(encode_utf8(v) + b) == trim_start_text(
            text_of(a + (encode_utf8(u) + encode_utf8(v)) + b),
        ),
{
    let x = encode_utf8(u);
    let y = encode_utf8(v);
    lemma_text_encode(u);
    lemma_text_encode(v);
    lemma_decode_concat(x, y);
    lemma_decode_concat(a, x + y);
    lemma_decode_concat(a + (x + y), b);
    lemma_decode_concat(y, b);
    let ta = text_of(a);
    let tb = text_of(b);
    assert(lead_white(v) == 0);
    lemma_lead_white_concat(u, v);
    lemma_lead_white_concat(u + v, tb);
    lemma_lead_white_concat(ta, u + v + tb);
    assert(ta + (u + v) + tb =~= ta + (u + v + tb));
    assert((ta + (u + v + tb)).skip((ta.len() + u.len()) as int) =~= v + tb);
}

/// Trimming the back of `a + (x + y) + b`, where `y` and `b` spell only white space
/// and `x` ends with a character that is not, leaves `a + x`.
pub proof fn lemma_trim_end_at(a: Seq<u8>, v: Seq<char>, w: Seq<char>, b: Seq<u8>)
    requires
        valid_utf8(a),
        valid_utf8(b),
        trail_white(text_of(b)) == text_of(b).len(),
        trail_white(w) == w.len(),
        v.len() > 0,
        !is_white(v.last()),
    ensures
        text_of(a + encode_utf8(v)) == trim_end_text(
            text_of(a + (encode_utf8(v) + encode_utf8(w)) + b),
        ),
{
    let x = encode_utf8(v);
    let y = encode_utf8(w);
    lemma_text_encode(v);
    lemma_text_encode(w);
    lemma_decode_concat(x, y);
    lemma_decode_concat(a, x + y);
    lemma_decode_concat(a + (x + y), b);
    lemma_decode_concat(a, x);
    let ta = text_of(a);
    let tb = text_of(b);
    assert(trail_white(v) == 0);
    lemma_trail_white_concat(v, w);
    lemma_trail_white_concat(v + w, tb);
    lemma_trail_white_concat(ta, v + w + tb);
    assert(ta + (v + w) + tb =~= ta + (v + w + tb));
    assert((ta + (v + w + tb)).take((ta.len() + v.len()) as int) =~= ta + v);
}

/// A string that is white space all through trims to nothing from the front.
pub proof fn lemma_all_white(t: Seq<char>)
    requires
        lead_white(t) == t.len(),
    ensures
        trim_start_text(t).len() == 0,
        trail_white(t) == t.len(),
        trim_end_text(t).len() == 0,
{
    lemma_lead_white(t);
    lemma_trail_white_unique(t, t.len() as int);
}

/// A string whose trailing white space is all of it is white through and through.
pub proof fn lemma_all_white_back(t: Seq<char>)
    requires
        trail_white(t) == t.len(),
    ensures
        lead_white(t) == t.len(),
{
    lemma_trail_white(t);
    lemma_lead_white_unique(t, t.len() as int);
}

/// Appending white space to a string that is white all through keeps it so.
pub proof fn lemma_white_step(a: Seq<u8>, p: Seq<u8>)
    requires
        valid_utf8(a),
        valid_utf8(p),
        lead_white(text_of(a)) == text_of(a).len(),
        lead_white(text_of(p)) == text_of(p).len(),
    ensures
        valid_utf8(a + p),
        valid_utf8(p + a),
        lead_white(text_of(a + p)) == text_of(a + p).len(),
        lead_white(text_of(p + a)) == text_of(p + a).len(),
        trail_white(text_of(a + p)) == text_of(a + p).len(),
        trail_white(text_of(p + a)) == text_of(p + a).len(),
{
    lemma_decode_concat(a, p);
    lemma_decode_concat(p, a);
    lemma_lead_white_concat(text_of(a), text_of(p));
    lemma_lead_white_concat(text_of(p), text_of(a));
    lemma_all_white(text_of(a + p));
    lemma_all_white(text_of(p + a));
}

/// The last character of a valid byte string takes no more bytes than the string has.
pub proof fn lemma_last_width(b: Seq<u8>)
    requires
        valid_utf8(b),
        text_of(b).len() > 0,
    ensures
        char_width(text_of(b).last()) <= b.len(),
{
    let t = text_of(b);
    lemma_encode_text(b);
    assert(t =~= t.drop_last() + seq![t.last()]);
    lemma_encode_concat(t.drop_last(), seq![t.last()]);
}

/// Cutting valid UTF-8 at a character boundary cuts its text in two.
pub proof fn lemma_split_text(b: Seq<u8>, i: int)
    requires
        valid_utf8(b),
        is_char_boundary(b, i),
    ensures
        text_of(b.take(i)) + text_of(b.skip(i)) == text_of(b),
{
    valid_utf8_split(b, i);
    lemma_decode_concat(b.take(i), b.skip(i));
    assert(b.take(i) + b.skip(i) =~= b);
}

/// Relies on `str::trim_start`: the slice that follows the leading characters for which
/// `char::is_whitespace` holds.
#[verifier::external_body]
pub(crate) fn str_trim_start<'a>(s: &'a str) -> (r: &'a str)
    ensures
        r@.len() <= s@.len(),
        r@ == s@.skip(s@.len() - r@.len()),
        forall|i: int| 0 <= i < s@.len() - r@.len() ==> is_white(#[trigger] s@[i]),
        r@.len() > 0 ==> !is_white(r@[0]),
{
    s.trim_start()
}

/// Relies on `str::trim_end`: the slice that precedes the trailing characters for which
/// `char::is_whitespace` holds.
#[verifier::external_body]
pub(crate) fn str_trim_end<'a>(s: &'a str) -> (r: &'a str)
    ensures
        r@.len() <= s@.len(),
        r@ == s@.take(r@.len() as int),
        forall|i: int| r@.len() <= i < s@.len() ==> is_white(#[trigger] s@[i]),
        r@.len() > 0 ==> !is_white(r@.last()),
{
    s.trim_end()
}

/// Relies on `str::chars`: its first item is the first character of the slice.
#[verifier::external_body]
pub(crate) fn first_char(s: &str) -> (r: Option<char>)
    ensures
        s@.len() == 0 ==> r is None,
        s@.len() > 0 ==> r == Some(s@[0]),
{
    s.chars().next()
}

/// Relies on `str::chars`: its last item, taken from the back, is the last character of
/// the slice.
#[verifier::external_body]
pub(crate) fn last_char(s: &str) -> (r: Option<char>)
    ensures
        s@.len() == 0 ==> r is None,
        s@.len() > 0 ==> r == Some(s@.last()),
{
    s.chars().next_back()
}

/// Relies on `char::len_utf8`: the number of bytes that the character takes in UTF-8.
#[verifier::external_body]
pub(crate) fn width_utf8(c: char) -> (r: usize)
    ensures
        r == char_width(c),
{
    c.len_utf8()
}

} // verus!
