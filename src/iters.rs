//! Iterators over the bytes, characters and character positions of a string.
use vstd::prelude::*;
use vstd::string::StringSliceAdditionalSpecFns;
use vstd::utf8::encode_utf8;

use crate::magic::MagicIter;
use crate::text::{char_width, join, lemma_cut_encoding, lemma_encode_text, text_of, width_utf8};
use crate::traits::MagicStringTrait;

verus! {

/// Take the first character off a string that has one.
fn take_first<V: MagicStringTrait>(v: &mut V) -> (r: Option<char>)
    requires
        old(v).wf(),
    ensures
        final(v).wf(),
        text_of(old(v).content()).len() == 0 ==> r is None && final(v).content() == old(v).content(),
        text_of(old(v).content()).len() > 0 ==> r == Some(text_of(old(v).content())[0])
            && final(v).content() == old(v).content().skip(char_width(text_of(old(v).content())[0]) as int)
            && text_of(final(v).content()) == text_of(old(v).content()).drop_first(),
{
    match v.first() {
        None => None,
        Some(c) => {
            let w = width_utf8(c);
            proof {
                let t = text_of(v.content());
                v.lemma_valid();
                lemma_encode_text(v.content());
                assert(t =~= seq![c] + t.drop_first());
                lemma_cut_encoding(seq![c], t.drop_first());
                crate::text::lemma_text_encode(t.drop_first());
            }
            let ghost before = *v;
            match v.split_at(w) {
                Ok((_, rest)) => {
                    proof {
                        let t = text_of(before.content());
                        assert(rest.content() == before.content().skip(w as int));
                        assert(before.content().skip(w as int) == encode_utf8(t.drop_first()));
                        assert(text_of(rest.content()) == t.drop_first());
                    }
                    *v = rest;
                    Some(c)
                },
                Err(_) => None,
            }
        },
    }
}

/// An iterator over the characters of a string.
pub struct Chars<V> {
    rest: V,
}

impl<V: MagicStringTrait> Chars<V> {
    /// The characters not yet handed out.
    pub closed spec fn remaining(&self) -> Seq<char> {
        text_of(self.rest.content())
    }

    pub closed spec fn wf(&self) -> bool {
        self.rest.wf()
    }

    pub fn new(v: V) -> (r: Self)
        requires
            v.wf(),
        ensures
            r.wf(),
            r.remaining() == text_of(v.content()),
    {
        Chars { rest: v }
    }

    /// The next character.
    pub fn next(&mut self) -> (r: Option<char>)
        requires
            old(self).wf(),
        ensures
            final(self).wf(),
            old(self).remaining().len() == 0 ==> r is None && final(self).remaining() == old(self).remaining(),
            old(self).remaining().len() > 0 ==> r == Some(old(self).remaining()[0]) && final(self).remaining() == old(self).remaining().drop_first(),
    {
        take_first(&mut self.rest)
    }
}

/// An iterator over the characters of a string and the byte position of each.
pub struct CharIndices<V> {
    rest: V,
    pos: usize,
}

impl<V: MagicStringTrait> CharIndices<V> {
    /// The characters not yet handed out.
    pub closed spec fn remaining(&self) -> Seq<char> {
        text_of(self.rest.content())
    }

    /// Byte position of the next character.
    pub closed spec fn position(&self) -> nat {
        self.pos as nat
    }

    pub closed spec fn wf(&self) -> bool {
        self.rest.wf() && self.pos + self.rest.content().len() <= usize::MAX
    }

    pub fn new(v: V) -> (r: Self)
        requires
            v.wf(),
        ensures
            r.wf(),
            r.remaining() == text_of(v.content()),
            r.position() == 0,
    {
        proof {
            v.lemma_valid();
        }
        CharIndices { rest: v, pos: 0 }
    }

    /// The next character and its byte position.
    pub fn next(&mut self) -> (r: Option<(usize, char)>)
        requires
            old(self).wf(),
        ensures
            final(self).wf(),
            old(self).remaining().len() == 0 ==> r is None && final(self).remaining() == old(self).remaining(),
            old(self).remaining().len() > 0 ==> r == Some(
                (old(self).position() as usize, old(self).remaining()[0]),
            ) && final(self).remaining() == old(self).remaining().drop_first() && final(self).position() == old(self).position() + char_width(old(self).remaining()[0]),
    {
        let pos = self.pos;
        proof {
            self.rest.lemma_valid();
            if text_of(self.rest.content()).len() > 0 {
                let t = text_of(self.rest.content());
                lemma_encode_text(self.rest.content());
                assert(t =~= seq![t[0]] + t.drop_first());
                lemma_cut_encoding(seq![t[0]], t.drop_first());
            }
        }
        match take_first(&mut self.rest) {
            None => None,
            Some(c) => {
                let w = width_utf8(c);
                self.pos = pos + w;
                Some((pos, c))
            },
        }
    }
}

/// An iterator over the bytes of a string.
pub struct Bytes<'a> {
    inner: MagicIter<'a>,
    current: &'a [u8],
    pos: usize,
}

impl<'a> Bytes<'a> {
    /// The bytes not yet handed out.
    pub closed spec fn remaining(&self) -> Seq<u8> {
        self.current@.skip(self.pos as int) + join(self.inner.remaining())
    }

    pub closed spec fn wf(&self) -> bool {
        self.inner.wf() && self.pos <= self.current@.len()
    }

    pub fn new(inner: MagicIter<'a>) -> (r: Self)
        requires
            inner.wf(),
        ensures
            r.wf(),
            r.remaining() == join(inner.remaining()),
    {
        let current: &'a [u8] = &[];
        let r = Bytes { inner, current, pos: 0 };
        proof {
            assert(r.remaining() =~= join(inner.remaining()));
        }
        r
    }

    /// The next byte.
    pub fn next(&mut self) -> (r: Option<u8>)
        requires
            old(self).wf(),
        ensures
            final(self).wf(),
            old(self).remaining().len() == 0 ==> r is None,
            old(self).remaining().len() > 0 ==> r == Some(old(self).remaining()[0]) && final(self).remaining() == old(self).remaining().drop_first(),
    {
        while self.pos >= self.current.len()
            invariant
                self.wf(),
                self.remaining() == old(self).remaining(),
            decreases self.inner.remaining().len(),
        {
            let ghost before = self.inner.remaining();
            match self.inner.next() {
                None => {
                    proof {
                        assert(before.len() == 0);
                        assert(join(before) =~= Seq::<u8>::empty());
                        assert(self.remaining() =~= Seq::<u8>::empty());
                    }
                    return None;
                },
                Some(s) => {
                    proof {
                        assert(before =~= seq![before[0]] + before.drop_first());
                        crate::text::lemma_join_concat(seq![before[0]], before.drop_first());
                        crate::text::lemma_join_one(before[0]);
                    }
                    self.current = s.as_bytes();
                    self.pos = 0;
                    proof {
                        assert(self.remaining() =~= old(self).remaining());
                    }
                },
            }
        }
        let b = self.current[self.pos];
        self.pos = self.pos + 1;
        proof {
            assert(self.remaining() =~= old(self).remaining().drop_first());
        }
        Some(b)
    }
}

} // verus!
