//! Display width of a string, in terminal columns.
use unicode_width::UnicodeWidthStr;
use vstd::prelude::*;
use vstd::string::StringSliceAdditionalSpecFns;

use crate::magic::MagicString;
use crate::text::{lemma_text_encode, text_of};

verus! {

/// Columns that the characters `s` take on screen, with ambiguous characters one column
/// wide, as `unicode_width` measures them.
pub uninterp spec fn width_of(s: Seq<char>) -> usize;

/// Columns that the characters `s` take on screen, with ambiguous characters two columns
/// wide, as `unicode_width` measures them.
pub uninterp spec fn width_cjk_of(s: Seq<char>) -> usize;

/// Relies on `UnicodeWidthStr::width` for `str`: the width depends on the characters
/// alone.
#[verifier::external_body]
fn str_width(s: &str) -> (r: usize)
    ensures
        r == width_of(s@),
{
    s.width()
}

/// Relies on `UnicodeWidthStr::width_cjk` for `str`: the width depends on the characters
/// alone.
#[verifier::external_body]
fn str_width_cjk(s: &str) -> (r: usize)
    ensures
        r == width_cjk_of(s@),
{
    s.width_cjk()
}

/// Sum of the widths of some byte strings, each read as UTF-8 text.
pub open spec fn total_width(ps: Seq<Seq<u8>>, cjk: bool) -> nat
    decreases ps.len(),
{
    if ps.len() == 0 {
        0
    } else {
        total_width(ps.drop_last(), cjk) + if cjk {
            width_cjk_of(text_of(ps.last())) as nat
        } else {
            width_of(text_of(ps.last())) as nat
        }
    }
}

impl<'a> MagicString<'a> {
    fn sum_width(&self, cjk: bool) -> (r: Option<usize>)
        requires
            self.wf(),
        ensures
            r == if total_width(self.pieces(), cjk) <= usize::MAX {
                Some(total_width(self.pieces(), cjk) as usize)
            } else {
                None::<usize>
            },
    {
        let mut it = self.iter();
        let ghost ps = self.pieces();
        let mut total: usize = 0;
        let ghost mut done: int = 0;
        loop
            invariant
                it.wf(),
                ps == self.pieces(),
                0 <= done <= ps.len(),
                it.remaining() == ps.skip(done),
                total == total_width(ps.take(done), cjk),
            decreases ps.len() - done,
        {
            match it.next() {
                None => {
                    proof {
                        assert(ps.take(done) =~= ps);
                    }
                    return Some(total);
                },
                Some(s) => {
                    proof {
                        lemma_text_encode(s@);
                        assert(ps.take(done + 1).drop_last() =~= ps.take(done));
                        assert(ps.skip(done + 1) =~= ps.skip(done).drop_first());
                        lemma_total_width_grows(ps, done + 1, cjk);
                    }
                    let w = if cjk {
                        str_width_cjk(s)
                    } else {
                        str_width(s)
                    };
                    match total.checked_add(w) {
                        None => {
                            return None;
                        },
                        Some(t) => {
                            total = t;
                        },
                    }
                    proof {
                        done = done + 1;
                    }
                },
            }
        }
    }

    /// Columns the string takes on screen, ambiguous characters one column wide; `None`
    /// where the count does not fit in `usize`.
    pub fn width(&self) -> (r: Option<usize>)
        requires
            self.wf(),
        ensures
            r == if total_width(self.pieces(), false) <= usize::MAX {
                Some(total_width(self.pieces(), false) as usize)
            } else {
                None::<usize>
            },
    {
        self.sum_width(false)
    }

    /// Columns the string takes on screen, ambiguous characters two columns wide; `None`
    /// where the count does not fit in `usize`.
    pub fn width_cjk(&self) -> (r: Option<usize>)
        requires
            self.wf(),
        ensures
            r == if total_width(self.pieces(), true) <= usize::MAX {
                Some(total_width(self.pieces(), true) as usize)
            } else {
                None::<usize>
            },
    {
        self.sum_width(true)
    }
}

proof fn lemma_total_width_grows(ps: Seq<Seq<u8>>, k: int, cjk: bool)
    requires
        0 <= k <= ps.len(),
    ensures
        total_width(ps.take(k), cjk) <= total_width(ps, cjk),
    decreases ps.len(),
{
    if k < ps.len() {
        assert(ps.drop_last().take(k) =~= ps.take(k));
        lemma_total_width_grows(ps.drop_last(), k, cjk);
    } else {
        assert(ps.take(k) =~= ps);
    }
}

} // verus!
