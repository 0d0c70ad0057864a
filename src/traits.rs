//! What every string of this crate offers, whatever its shape.
use vstd::prelude::*;
use vstd::utf8::{is_char_boundary, valid_utf8};

use crate::magic::SplitError;
use crate::pattern::{find_spec, has_hit, rfind_spec, CharPattern};
use crate::text::{char_width, text_of, trim_end_text, trim_start_text, trim_text};

verus! {

/// A string read through views of borrowed slices.
pub trait MagicStringTrait: Sized + Copy {
    /// The string is in a usable state.
    spec fn wf(&self) -> bool;

    /// The bytes of the string.
    spec fn content(&self) -> Seq<u8>;

    /// The bytes of a usable string are valid UTF-8 and their count fits in `usize`.
    proof fn lemma_valid(&self)
        requires
            self.wf(),
        ensures
            valid_utf8(self.content()),
            self.content().len() <= usize::MAX,
    ;

    /// The total length of the string in bytes.
    fn len(&self) -> (r: usize)
        requires
            self.wf(),
        ensures
            r == self.content().len(),
    ;

    /// Whether the string has no bytes.
    fn is_empty(&self) -> (r: bool)
        requires
            self.wf(),
        ensures
            r == (self.content().len() == 0),
    ;

    /// Split the string in two at byte `index`.
    fn split_at(&self, index: usize) -> (r: Result<(Self, Self), SplitError>)
        requires
            self.wf(),
        ensures
            index > self.content().len() <==> r == Err::<(Self, Self), SplitError>(
                SplitError::OutOfBounds,
            ),
            (index <= self.content().len() && !is_char_boundary(self.content(), index as int))
                <==> r == Err::<(Self, Self), SplitError>(SplitError::NotCharBoundary),
            r is Ok <==> (index <= self.content().len() && is_char_boundary(
                self.content(),
                index as int,
            )),
            r matches Ok((a, b)) ==> a.wf() && b.wf() && a.content() == self.content().take(
                index as int,
            ) && b.content() == self.content().skip(index as int),
            r matches Ok((a, b)) ==> text_of(a.content()) + text_of(b.content()) == text_of(
                self.content(),
            ),
    ;

    /// The string without leading white space.
    fn trim_start(&self) -> (r: Self)
        requires
            self.wf(),
        ensures
            r.wf(),
            text_of(r.content()) == trim_start_text(text_of(self.content())),
            r.content().len() <= self.content().len(),
    ;

    /// The string without trailing white space.
    fn trim_end(&self) -> (r: Self)
        requires
            self.wf(),
        ensures
            r.wf(),
            text_of(r.content()) == trim_end_text(text_of(self.content())),
            r.content().len() <= self.content().len(),
    ;

    /// The string without white space at either end.
    fn trim(&self) -> (r: Self)
        requires
            self.wf(),
        ensures
            r.wf(),
            text_of(r.content()) == trim_text(text_of(self.content())),
            r.content().len() <= self.content().len(),
    ;

    /// Remove the last character and return it.
    fn pop(&mut self) -> (r: Option<char>)
        requires
            old(self).wf(),
        ensures
            final(self).wf(),
            text_of(old(self).content()).len() == 0 ==> r is None && final(self).content() == old(
                self,
            ).content(),
            text_of(old(self).content()).len() > 0 ==> r == Some(
                text_of(old(self).content()).last(),
            ) && text_of(final(self).content()) == text_of(old(self).content()).drop_last()
                && final(self).content().len() == old(self).content().len() - char_width(
                text_of(old(self).content()).last(),
            )
                && final(self).content() == old(self).content().take(
                old(self).content().len() - char_width(text_of(old(self).content()).last()),
            ),
    ;

    /// The first character, if there is one.
    fn first(&self) -> (r: Option<char>)
        requires
            self.wf(),
        ensures
            text_of(self.content()).len() == 0 ==> r is None,
            text_of(self.content()).len() > 0 ==> r == Some(text_of(self.content())[0]),
    ;

    /// The text of the string, copied into a `String`.
    fn to_string(&self) -> (r: String)
        requires
            self.wf(),
        ensures
            r@ == text_of(self.content()),
    ;
}

/// Search for a pattern inside the string.
pub trait Find<P: CharPattern>: MagicStringTrait {
    /// Byte position of the first character that the pattern accepts.
    fn find(&self, pat: P) -> (r: Option<usize>)
        requires
            self.wf(),
        ensures
            r == find_spec(text_of(self.content()), pat),
    ;

    /// Byte position of the last character that the pattern accepts.
    fn rfind(&self, pat: P) -> (r: Option<usize>)
        requires
            self.wf(),
        ensures
            r == rfind_spec(text_of(self.content()), pat),
    ;
}

/// Whether the string holds a character that a pattern accepts.
pub trait Contains<P: CharPattern>: MagicStringTrait {
    /// Does the string contain the pattern?
    fn contains(&self, pat: P) -> (r: bool)
        requires
            self.wf(),
        ensures
            r == has_hit(text_of(self.content()), pat),
    ;
}

} // verus!
