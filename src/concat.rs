//! Two strings joined without copying either.
use vstd::prelude::*;
use vstd::string::StringExecFns;
use vstd::utf8::{is_char_boundary, valid_utf8};

use crate::iters::{CharIndices, Chars};
use crate::magic::SplitError;
use crate::pattern::{lemma_has_hit_concat, CharPattern};
use crate::text::{
    lemma_boundary_concat, lemma_decode_concat, lemma_encode_text, lemma_last_width, lemma_lead_white,
    lemma_lead_white_concat, lemma_trail_white, lemma_trail_white_concat, text_of,
};
use crate::traits::{Contains, MagicStringTrait};

verus! {

/// The string `left` followed by the string `right`.
#[derive(Clone, Copy)]
pub struct Concat<L, R> {
    left: L,
    right: R,
}

impl<L: MagicStringTrait, R: MagicStringTrait> Concat<L, R> {
    /// The first part.
    pub closed spec fn left_part(&self) -> L {
        self.left
    }

    /// The second part.
    pub closed spec fn right_part(&self) -> R {
        self.right
    }

    /// Join two strings whose lengths together fit in `usize`.
    pub fn new(left: L, right: R) -> (r: Self)
        requires
            left.wf(),
            right.wf(),
            left.content().len() + right.content().len() <= usize::MAX,
        ensures
            r.wf(),
            r.left_part() == left,
            r.right_part() == right,
            r.content() == left.content() + right.content(),
    {
        Concat { left, right }
    }

    /// This string followed by `right`, without copying either.
    pub fn concat<R2: MagicStringTrait>(self, right: R2) -> (r: Concat<Self, R2>)
        requires
            self.wf(),
            right.wf(),
            self.content().len() + right.content().len() <= usize::MAX,
        ensures
            r.wf(),
            r.content() == self.content() + right.content(),
    {
        Concat::new(self, right)
    }

    /// An iterator over the characters of the string.
    pub fn chars(&self) -> (r: Chars<Self>)
        requires
            self.wf(),
        ensures
            r.wf(),
            r.remaining() == text_of(self.content()),
    {
        Chars::new(*self)
    }

    /// An iterator over the characters of the string and their byte positions.
    pub fn char_indices(&self) -> (r: CharIndices<Self>)
        requires
            self.wf(),
        ensures
            r.wf(),
            r.remaining() == text_of(self.content()),
            r.position() == 0,
    {
        CharIndices::new(*self)
    }

    /// The bytes of a joined string are those of its two parts.
    pub proof fn lemma_content(&self)
        ensures
            self.content() == self.left_part().content() + self.right_part().content(),
            self.wf() ==> self.left_part().wf() && self.right_part().wf(),
    {
    }

    proof fn lemma_texts(&self)
        requires
            self.wf(),
        ensures
            valid_utf8(self.content()),
            valid_utf8(self.left.content()),
            valid_utf8(self.right.content()),
            text_of(self.content()) == text_of(self.left.content()) + text_of(
                self.right.content(),
            ),
            text_of(self.left.content()).len() == 0 <==> self.left.content().len() == 0,
            text_of(self.right.content()).len() == 0 <==> self.right.content().len() == 0,
    {
        self.left.lemma_valid();
        self.right.lemma_valid();
        lemma_decode_concat(self.left.content(), self.right.content());
        lemma_encode_text(self.left.content());
        lemma_encode_text(self.right.content());
    }
}

impl<L: MagicStringTrait, R: MagicStringTrait> MagicStringTrait for Concat<L, R> {
    closed spec fn wf(&self) -> bool {
        &&& self.left.wf()
        &&& self.right.wf()
        &&& self.left.content().len() + self.right.content().len() <= usize::MAX
    }

    closed spec fn content(&self) -> Seq<u8> {
        self.left.content() + self.right.content()
    }

    proof fn lemma_valid(&self) {
        self.lemma_texts();
    }

    fn len(&self) -> (r: usize) {
        self.left.len() + self.right.len()
    }

    fn is_empty(&self) -> (r: bool) {
        self.left.is_empty() && self.right.is_empty()
    }

    fn split_at(&self, index: usize) -> (r: Result<(Self, Self), SplitError>) {
        let left_len = self.left.len();
        let total = left_len + self.right.len();
        if index > total {
            return Err(SplitError::OutOfBounds);
        }
        proof {
            self.lemma_texts();
            if index <= total && is_char_boundary(self.content(), index as int) {
                crate::text::lemma_split_text(self.content(), index as int);
            }
            lemma_boundary_concat(self.left.content(), self.right.content(), index as int);
            vstd::utf8::is_char_boundary_start_end_of_seq(self.left.content());
            vstd::utf8::is_char_boundary_start_end_of_seq(self.right.content());
        }
        if index <= left_len {
            match self.left.split_at(index) {
                Err(e) => Err(e),
                Ok((ll, lr)) => {
                    match self.right.split_at(0) {
                        Err(e) => Err(e),
                        Ok((rl, rr)) => {
                            let a = Concat { left: ll, right: rl };
                            let b = Concat { left: lr, right: rr };
                            proof {
                                assert(a.content() =~= self.content().take(index as int));
                                assert(b.content() =~= self.content().skip(index as int));
                            }
                            Ok((a, b))
                        },
                    }
                },
            }
        } else {
            match self.left.split_at(left_len) {
                Err(e) => Err(e),
                Ok((ll, lr)) => {
                    match self.right.split_at(index - left_len) {
                        Err(e) => Err(e),
                        Ok((rl, rr)) => {
                            let a = Concat { left: ll, right: rl };
                            let b = Concat { left: lr, right: rr };
                            proof {
                                assert(a.content() =~= self.content().take(index as int));
                                assert(b.content() =~= self.content().skip(index as int));
                            }
                            Ok((a, b))
                        },
                    }
                },
            }
        }
    }

    fn trim_start(&self) -> (r: Self) {
        let left = self.left.trim_start();
        let right = if left.is_empty() {
            self.right.trim_start()
        } else {
            self.right
        };
        let r = Concat { left, right };
        proof {
            self.lemma_texts();
            r.lemma_texts();
            let tl = text_of(self.left.content());
            let tr = text_of(self.right.content());
            lemma_lead_white(tl);
            lemma_lead_white(tr);
            lemma_lead_white_concat(tl, tr);
            let k = crate::text::lead_white(tl);
            if left.content().len() == 0 {
                assert(text_of(left.content()).len() == 0);
                assert(k == tl.len());
                assert(text_of(r.content()) =~= (tl + tr).skip(crate::text::lead_white(tl + tr) as int));
            } else {
                assert(k < tl.len());
                assert(text_of(r.content()) =~= (tl + tr).skip(crate::text::lead_white(tl + tr) as int));
            }
        }
        r
    }

    fn trim_end(&self) -> (r: Self) {
        let right = self.right.trim_end();
        let left = if right.is_empty() {
            self.left.trim_end()
        } else {
            self.left
        };
        let r = Concat { left, right };
        proof {
            self.lemma_texts();
            r.lemma_texts();
            let tl = text_of(self.left.content());
            let tr = text_of(self.right.content());
            lemma_trail_white(tl);
            lemma_trail_white(tr);
            lemma_trail_white_concat(tl, tr);
            let k = crate::text::trail_white(tr);
            let t = tl + tr;
            if right.content().len() == 0 {
                assert(text_of(right.content()).len() == 0);
                assert(k == tr.len());
                assert(text_of(r.content()) =~= t.take(t.len() - crate::text::trail_white(t)));
            } else {
                assert(k < tr.len());
                assert(text_of(r.content()) =~= t.take(t.len() - crate::text::trail_white(t)));
            }
        }
        r
    }

    fn trim(&self) -> (r: Self) {
        self.trim_start().trim_end()
    }

    fn pop(&mut self) -> (r: Option<char>) {
        proof {
            self.lemma_texts();
            if text_of(self.right.content()).len() > 0 {
                lemma_last_width(self.right.content());
            }
            if text_of(self.left.content()).len() > 0 {
                lemma_last_width(self.left.content());
            }
        }
        let ghost before = *self;
        match self.right.pop() {
            Some(c) => {
                proof {
                    let tl = text_of(before.left.content());
                    let tr = text_of(before.right.content());
                    self.right.lemma_valid();
                    assert((tl + tr).last() == tr.last());
                    assert((tl + tr).drop_last() =~= tl + tr.drop_last());
                    lemma_decode_concat(self.left.content(), self.right.content());
                    assert(self.content() =~= before.content().take(
                        before.content().len() - crate::text::char_width(tr.last()),
                    ));
                }
                Some(c)
            },
            None => {
                let r = self.left.pop();
                proof {
                    let tl = text_of(before.left.content());
                    let tr = text_of(before.right.content());
                    self.left.lemma_valid();
                    self.right.lemma_valid();
                    assert(tl + tr =~= tl);
                    lemma_decode_concat(self.left.content(), self.right.content());
                    assert(before.right.content().len() == 0);
                    if tl.len() > 0 {
                        assert(self.content() =~= before.content().take(
                            before.content().len() - crate::text::char_width(tl.last()),
                        ));
                    } else {
                        assert(self.content() =~= before.content());
                    }
                }
                r
            },
        }
    }

    fn first(&self) -> (r: Option<char>) {
        proof {
            self.lemma_texts();
        }
        match self.left.first() {
            Some(c) => Some(c),
            None => self.right.first(),
        }
    }

    fn to_string(&self) -> (r: String) {
        proof {
            self.lemma_texts();
        }
        let mut s = self.left.to_string();
        let tail = self.right.to_string();
        s.append(tail.as_str());
        s
    }
}

impl<P: CharPattern, L: Contains<P>, R: Contains<P>> Contains<P> for Concat<L, R> {
    fn contains(&self, pat: P) -> (r: bool) {
        proof {
            self.lemma_texts();
            lemma_has_hit_concat(text_of(self.left.content()), text_of(self.right.content()), pat);
        }
        self.left.contains(pat) || self.right.contains(pat)
    }
}

} // verus!
