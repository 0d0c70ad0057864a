//! Laws that hold of every string of this crate.
use vstd::prelude::*;
use vstd::utf8::is_char_boundary;

use crate::concat::Concat;
use crate::magic::MagicString;
use crate::pattern::{find_spec, has_hit, lemma_first_hit, CharPattern};
use crate::text::{
    join, lead_white, lemma_decode_concat, lemma_split_text, lemma_lead_white,
    lemma_lead_white_unique, lemma_trail_white, lemma_trail_white_unique, text_of, trail_white,
    trim_end_text, trim_start_text, trim_text,
};
use crate::traits::MagicStringTrait;

verus! {

/// Sum of the lengths of some byte strings.
pub open spec fn sum_lens(ps: Seq<Seq<u8>>) -> nat
    decreases ps.len(),
{
    if ps.len() == 0 {
        0
    } else {
        sum_lens(ps.drop_last()) + ps.last().len()
    }
}

proof fn lemma_sum_lens(ps: Seq<Seq<u8>>)
    ensures
        sum_lens(ps) == join(ps).len(),
    decreases ps.len(),
{
    if ps.len() > 0 {
        lemma_sum_lens(ps.drop_last());
    }
}

/// The length of a string is the sum of the lengths of the slices that its `iter`
/// hands out.
pub proof fn law_len_is_sum_of_slices(v: MagicString)
    ensures
        v.content().len() == sum_lens(v.pieces()),
{
    v.lemma_content();
    lemma_sum_lens(v.pieces());
}

/// Splitting a string at a character boundary and putting the two sides back together
/// gives the characters of the string.
pub proof fn law_split_rejoin<V: MagicStringTrait>(v: V, i: int)
    requires
        v.wf(),
        0 <= i <= v.content().len(),
        is_char_boundary(v.content(), i),
    ensures
        text_of(v.content().take(i)) + text_of(v.content().skip(i)) == text_of(v.content()),
{
    v.lemma_valid();
    lemma_split_text(v.content(), i);
}

/// Joining `a`, `b` and `c` gives the same characters whichever pair is joined first,
/// and those are the characters of the three laid end to end.
pub proof fn law_concat_associative<A: MagicStringTrait, B: MagicStringTrait, C: MagicStringTrait>(
    ab_c: Concat<Concat<A, B>, C>,
    a_bc: Concat<A, Concat<B, C>>,
)
    requires
        ab_c.wf(),
        a_bc.wf(),
        ab_c.left_part().left_part() == a_bc.left_part(),
        ab_c.left_part().right_part() == a_bc.right_part().left_part(),
        ab_c.right_part() == a_bc.right_part().right_part(),
    ensures
        ab_c.content() == a_bc.content(),
        text_of(ab_c.content()) == text_of(a_bc.left_part().content()) + text_of(
            ab_c.left_part().right_part().content(),
        ) + text_of(ab_c.right_part().content()),
{
    let a = a_bc.left_part();
    let b = ab_c.left_part().right_part();
    let c = ab_c.right_part();
    ab_c.lemma_content();
    ab_c.left_part().lemma_content();
    a_bc.lemma_content();
    a_bc.right_part().lemma_content();
    assert(ab_c.content() =~= a_bc.content());
    a.lemma_valid();
    b.lemma_valid();
    c.lemma_valid();
    lemma_decode_concat(a.content(), b.content());
    lemma_decode_concat(a.content() + b.content(), c.content());
}

/// Trimming the front twice trims no more than trimming it once.
pub proof fn law_trim_start_idempotent(t: Seq<char>)
    ensures
        trim_start_text(trim_start_text(t)) == trim_start_text(t),
{
    let s = trim_start_text(t);
    lemma_lead_white(t);
    if s.len() > 0 {
        assert(s[0] == t[lead_white(t) as int]);
    }
    lemma_lead_white_unique(s, 0);
    assert(s.skip(0) =~= s);
}

/// Trimming the back twice trims no more than trimming it once.
pub proof fn law_trim_end_idempotent(t: Seq<char>)
    ensures
        trim_end_text(trim_end_text(t)) == trim_end_text(t),
{
    let s = trim_end_text(t);
    lemma_trail_white(t);
    if s.len() > 0 {
        assert(s[s.len() - 1] == t[t.len() - trail_white(t) - 1]);
    }
    lemma_trail_white_unique(s, 0);
    assert(s.take(s.len() as int) =~= s);
}

/// Trimming both ends twice trims no more than trimming them once.
pub proof fn law_trim_idempotent(t: Seq<char>)
    ensures
        trim_text(trim_text(t)) == trim_text(t),
{
    let s = trim_start_text(t);
    let u = trim_end_text(s);
    law_trim_start_idempotent(t);
    lemma_lead_white(s);
    lemma_lead_white_unique(s, 0);
    lemma_trail_white(s);
    if u.len() > 0 {
        assert(u[0] == s[0]);
    }
    lemma_lead_white_unique(u, 0);
    assert(u.skip(0) =~= u);
    law_trim_end_idempotent(s);
}

/// A search for a pattern finds something exactly when the string contains it.
pub proof fn law_find_matches_contains<P: CharPattern>(t: Seq<char>, pat: P)
    ensures
        find_spec(t, pat) is Some <==> has_hit(t, pat),
{
    lemma_first_hit(t, pat);
}

} // verus!
