//! A window over a borrowed sequence of string slices.
use vstd::prelude::*;
use vstd::slice::slice_subrange;
use vstd::string::{StringExecFns, StringSliceAdditionalSpecFns};
use vstd::utf8::*;

use crate::concat::Concat;
use crate::iters::{Bytes, CharIndices, Chars};
use crate::offset::Offset;
use crate::pattern::{
    has_hit, lemma_first_hit, lemma_first_hit_in, lemma_has_hit_concat, lemma_last_hit,
    lemma_last_hit_in, CharPattern,
};
use crate::text::{
    char_width, first_char, is_white, join, last_char, lead_white, lemma_all_white,
    lemma_all_white_back, lemma_boundary_concat, lemma_boundary_sub, lemma_cut_encoding,
    lemma_decode_concat, lemma_encode_concat, lemma_encode_len, lemma_encode_text,
    lemma_join_concat, lemma_join_one, lemma_join_part_len, lemma_join_split, lemma_join_take,
    lemma_join_valid, lemma_lead_white_unique, lemma_text_encode, lemma_trail_white,
    lemma_trail_white_unique, lemma_trim_end_at, lemma_trim_start_at, lemma_white_step,
    str_trim_end, str_trim_start, text_of, trail_white, trim_end_text, trim_start_text,
    trim_text, width_utf8,
};
use crate::traits::{Contains, Find, MagicStringTrait};

verus! {

/// A string made of borrowed string slices. Cheap to copy; it never copies the text.
#[derive(Clone, Copy)]
pub struct MagicString<'a> {
    inner: &'a [&'a str],
    offset: Offset,
}

/// Where a split index falls short of the rules.
#[derive(Debug, Clone, Copy, PartialEq, Eq, Structural)]
pub enum SplitError {
    /// The index is past the end of the string.
    OutOfBounds,
    /// The index falls inside the encoding of a character.
    NotCharBoundary,
}

/// The bytes of every slice in `segs`, laid end to end.
pub open spec fn flat(segs: Seq<&str>) -> Seq<u8> {
    join(segs.map_values(|s: &str| s.spec_bytes()))
}

impl<'a> MagicString<'a> {
    /// The segments that the window runs over.
    pub closed spec fn segs(&self) -> Seq<&'a str> {
        self.inner@
    }

    spec fn seg(&self, j: int) -> Seq<u8> {
        self.inner@[j].spec_bytes()
    }

    spec fn lo(&self, j: int) -> int {
        if j == 0 {
            self.offset.start() as int
        } else {
            0
        }
    }

    spec fn hi(&self, j: int) -> int {
        if j == self.inner@.len() - 1 {
            self.seg(j).len() - self.offset.end()
        } else {
            self.seg(j).len() as int
        }
    }

    /// The bytes of segment `j` that lie inside the window.
    pub closed spec fn piece(&self, j: int) -> Seq<u8> {
        self.seg(j).subrange(self.lo(j), self.hi(j))
    }

    /// The window's part of each segment, in order.
    pub closed spec fn pieces(&self) -> Seq<Seq<u8>> {
        Seq::new(self.inner@.len(), |j: int| self.piece(j))
    }

    /// The bytes of the string.
    pub closed spec fn content(&self) -> Seq<u8> {
        join(self.pieces())
    }

    /// The characters of the string.
    pub open spec fn text(&self) -> Seq<char> {
        text_of(self.content())
    }

    spec fn piece_ok(&self, j: int) -> bool {
        &&& 0 <= self.lo(j) <= self.hi(j) <= self.seg(j).len() <= usize::MAX
        &&& is_char_boundary(self.seg(j), self.lo(j))
        &&& is_char_boundary(self.seg(j), self.hi(j))
    }

    /// Both cuts of the window fall on character boundaries inside their segments, and
    /// the length fits in `usize`.
    pub closed spec fn wf(&self) -> bool {
        &&& forall|j: int| 0 <= j < self.inner@.len() ==> #[trigger] self.piece_ok(j)
        &&& self.content().len() <= usize::MAX
    }

    proof fn lemma_pieces_valid(&self)
        requires
            self.wf(),
        ensures
            forall|j: int| 0 <= j < self.pieces().len() ==> valid_utf8(#[trigger] self.pieces()[j]),
            self.pieces().len() == self.inner@.len(),
    {
        assert forall|j: int| 0 <= j < self.pieces().len() implies valid_utf8(
            #[trigger] self.pieces()[j],
        ) by {
            assert(self.piece_ok(j));
            encode_utf8_valid_utf8(self.inner@[j]@);
            lemma_boundary_sub(self.seg(j), self.lo(j), self.hi(j), 0);
        }
    }

    /// The bytes of a well-formed string are valid UTF-8 and their count fits in `usize`.
    pub proof fn lemma_wf(&self)
        requires
            self.wf(),
        ensures
            valid_utf8(self.content()),
            self.content().len() <= usize::MAX,
    {
        self.lemma_pieces_valid();
        lemma_join_valid(self.pieces());
    }

    /// Create a string from string slices.
    pub fn new(inner: &'a [&'a str]) -> (r: Self)
        requires
            flat(inner@).len() <= usize::MAX,
        ensures
            r.wf(),
            r.segs() == inner@,
            r.content() == flat(inner@),
    {
        let r = MagicString { inner, offset: Offset::Whole };
        proof {
            let ps = inner@.map_values(|s: &str| s.spec_bytes());
            assert forall|j: int| 0 <= j < inner@.len() implies #[trigger] r.piece(j) == ps[j] by {
                assert(r.seg(j).subrange(0, r.seg(j).len() as int) =~= r.seg(j));
            }
            assert forall|j: int| 0 <= j < inner@.len() implies #[trigger] r.piece_ok(j) by {
                lemma_join_part_len(ps, j);
                encode_utf8_valid_utf8(inner@[j]@);
                is_char_boundary_start_end_of_seq(r.seg(j));
            }
        }
        proof {
            assert(r.pieces() =~= inner@.map_values(|s: &str| s.spec_bytes()));
        }
        r
    }

    /// The part of segment `j` inside the window.
    fn piece_at(&self, j: usize) -> (r: &'a str)
        requires
            self.wf(),
            j < self.inner@.len(),
        ensures
            r.spec_bytes() == self.piece(j as int),
            r.spec_bytes().len() <= usize::MAX,
            r@ == text_of(self.piece(j as int)),
    {
        let s: &'a str = self.inner[j];
        let len = s.len();
        proof {
            assert(self.piece_ok(j as int));
        }
        let lo: usize = if j == 0 {
            self.offset.start_bytes()
        } else {
            0
        };
        let hi: usize = if j + 1 == self.inner.len() {
            len - self.offset.end_bytes()
        } else {
            len
        };
        proof {
            assert(self.piece_ok(j as int));
            encode_utf8_valid_utf8(s@);
            is_char_boundary_start_end_of_seq(s.spec_bytes());
            lemma_boundary_sub(s.spec_bytes(), lo as int, len as int, hi - lo);
        }
        let (_, tail) = s.split_at(lo);
        let (mid, _) = tail.split_at(hi - lo);
        proof {
            assert(mid.spec_bytes() =~= self.piece(j as int));
            lemma_text_encode(mid@);
        }
        mid
    }

    /// The total length of the string in bytes.
    pub fn len(&self) -> (r: usize)
        requires
            self.wf(),
        ensures
            r == self.content().len(),
    {
        let n = self.inner.len();
        let mut total: usize = 0;
        let mut j: usize = 0;
        while j < n
            invariant
                self.wf(),
                n == self.inner@.len(),
                j <= n,
                total == join(self.pieces().take(j as int)).len(),
            decreases n - j,
        {
            let p = self.piece_at(j);
            proof {
                lemma_join_take(self.pieces(), j as int);
                lemma_join_split(self.pieces(), j + 1);
            }
            total = total + p.len();
            j = j + 1;
        }
        proof {
            assert(self.pieces().take(n as int) =~= self.pieces());
        }
        total
    }

    /// Whether the string has no bytes.
    pub fn is_empty(&self) -> (r: bool)
        requires
            self.wf(),
        ensures
            r == (self.content().len() == 0),
    {
        self.len() == 0
    }

    /// The string's bytes around piece `k`, and what a cut inside that piece means for
    /// the segment it lies in.
    proof fn lemma_around(&self, k: int, local: int)
        requires
            self.wf(),
            0 <= k < self.inner@.len(),
            0 <= local <= self.piece(k).len(),
        ensures
            self.content() == join(self.pieces().take(k)) + self.piece(k) + join(
                self.pieces().skip(k + 1),
            ),
            valid_utf8(self.content()),
            is_char_boundary(self.content(), join(self.pieces().take(k)).len() + local)
                <==> is_char_boundary(self.seg(k), self.lo(k) + local),
            self.piece(k).take(local) == self.seg(k).subrange(self.lo(k), self.lo(k) + local),
            self.piece(k).skip(local) == self.seg(k).subrange(self.lo(k) + local, self.hi(k)),
            self.piece(k) == self.seg(k).subrange(self.lo(k), self.hi(k)),
            valid_utf8(self.seg(k)),
            valid_utf8(self.piece(k)),
            valid_utf8(join(self.pieces().take(k))),
            valid_utf8(join(self.pieces().skip(k + 1))),
            join(self.pieces().take(k + 1)) == join(self.pieces().take(k)) + self.piece(k),
            join(self.pieces().skip(k)) == self.piece(k) + join(self.pieces().skip(k + 1)),
    {
        let ps = self.pieces();
        let a = join(ps.take(k));
        let p = self.piece(k);
        let b = join(ps.skip(k + 1));
        self.lemma_pieces_valid();
        lemma_join_split(ps, k);
        assert(ps.skip(k) =~= seq![p] + ps.skip(k + 1));
        lemma_join_concat(seq![p], ps.skip(k + 1));
        lemma_join_one(p);
        lemma_join_take(ps, k);
        assert(self.content() =~= a + p + b);
        assert forall|j: int| 0 <= j < ps.take(k).len() implies valid_utf8(#[trigger] ps.take(k)[j]) by {
            assert(ps.take(k)[j] == ps[j]);
        }
        assert forall|j: int| 0 <= j < ps.skip(k + 1).len() implies valid_utf8(
            #[trigger] ps.skip(k + 1)[j],
        ) by {
            assert(ps.skip(k + 1)[j] == ps[j + k + 1]);
        }
        lemma_join_valid(ps.take(k));
        lemma_join_valid(ps.skip(k + 1));
        assert(valid_utf8(p)) by {
            assert(ps[k] == p);
        }
        lemma_boundary_concat(p, b, local);
        assert(a + p + b =~= a + (p + b));
        lemma_boundary_concat(a, p + b, a.len() + local);
        assert(self.piece_ok(k));
        encode_utf8_valid_utf8(self.inner@[k]@);
        lemma_boundary_sub(self.seg(k), self.lo(k), self.hi(k), local);
        is_char_boundary_start_end_of_seq(a);
        is_char_boundary_start_end_of_seq(p + b);
    }

    proof fn lemma_split_left(&self, left: Self, k: int, local: int)
        requires
            self.wf(),
            0 <= k < self.inner@.len(),
            0 <= local <= self.piece(k).len(),
            is_char_boundary(self.seg(k), self.lo(k) + local),
            left.inner@ == self.inner@.take(k + 1),
            left.offset.start() == self.offset.start(),
            left.offset.end() == self.seg(k).len() - (self.lo(k) + local),
        ensures
            left.wf(),
            left.content() == self.content().take(join(self.pieces().take(k)).len() + local),
    {
        let ps = self.pieces();
        let p = self.piece(k);
        self.lemma_around(k, local);
        assert forall|j: int| 0 <= j <= k implies #[trigger] left.piece_ok(j) && left.piece(j)
            == if j == k {
            p.take(local)
        } else {
            ps[j]
        } by {
            assert(self.piece_ok(j));
            assert(left.inner@[j] == self.inner@[j]);
        }
        assert(left.pieces() =~= ps.take(k).push(p.take(local)));
        assert(left.pieces().drop_last() =~= ps.take(k));
        assert(left.content() =~= self.content().take(join(self.pieces().take(k)).len() + local));
    }

    proof fn lemma_split_right(&self, right: Self, k: int, local: int)
        requires
            self.wf(),
            0 <= k < self.inner@.len(),
            0 <= local <= self.piece(k).len(),
            is_char_boundary(self.seg(k), self.lo(k) + local),
            right.inner@ == self.inner@.skip(k),
            right.offset.start() == self.lo(k) + local,
            right.offset.end() == self.offset.end(),
        ensures
            right.wf(),
            right.content() == self.content().skip(join(self.pieces().take(k)).len() + local),
    {
        let ps = self.pieces();
        let p = self.piece(k);
        let n = self.inner@.len();
        self.lemma_around(k, local);
        assert forall|j: int| 0 <= j < n - k implies #[trigger] right.piece_ok(j) && right.piece(j)
            == if j == 0 {
            p.skip(local)
        } else {
            ps[j + k]
        } by {
            assert(self.piece_ok(j + k));
            assert(right.inner@[j] == self.inner@[j + k]);
        }
        assert(right.pieces() =~= seq![p.skip(local)] + ps.skip(k + 1));
        lemma_join_concat(seq![p.skip(local)], ps.skip(k + 1));
        lemma_join_one(p.skip(local));
        assert(right.content() =~= self.content().skip(join(self.pieces().take(k)).len() + local));
    }

    /// The segment that byte `index` falls in, and the bytes of the window before that
    /// segment.
    fn index(&self, index: usize) -> (r: (usize, usize))
        requires
            self.wf(),
            self.inner@.len() > 0,
            index <= self.content().len(),
        ensures
            r.0 < self.inner@.len(),
            r.1 == join(self.pieces().take(r.0 as int)).len(),
            r.1 <= index <= r.1 + self.piece(r.0 as int).len(),
    {
        let n = self.inner.len();
        let ghost ps = self.pieces();
        let mut k: usize = 0;
        let mut acc: usize = 0;
        let mut plen: usize = self.piece_at(0).len();
        proof {
            assert(ps.take(0) =~= Seq::<Seq<u8>>::empty());
        }
        while index - acc > plen
            invariant
                self.wf(),
                ps == self.pieces(),
                n == self.inner@.len(),
                k < n,
                acc <= index <= self.content().len(),
                acc == join(ps.take(k as int)).len(),
                plen == ps[k as int].len(),
            decreases n - k,
        {
            proof {
                lemma_join_take(ps, k as int);
                if k + 1 == n {
                    assert(ps.take(n as int) =~= ps);
                }
            }
            acc = acc + plen;
            k = k + 1;
            plen = self.piece_at(k).len();
        }
        (k, acc)
    }

    /// Split at a character boundary known to lie inside the string.
    fn split(&self, index: usize) -> (r: (Self, Self))
        requires
            self.wf(),
            index <= self.content().len(),
            is_char_boundary(self.content(), index as int),
        ensures
            r.0.wf(),
            r.1.wf(),
            r.0.content() == self.content().take(index as int),
            r.1.content() == self.content().skip(index as int),
    {
        let n = self.inner.len();
        if n == 0 {
            proof {
                assert(self.pieces() =~= Seq::<Seq<u8>>::empty());
                assert(self.content().take(0) =~= self.content());
                assert(self.content().skip(0) =~= self.content());
            }
            return (*self, *self);
        }
        let ghost ps = self.pieces();
        let (k, acc) = self.index(index);
        let local = index - acc;
        let seg = self.inner[k];
        let lo: usize = if k == 0 {
            self.offset.start_bytes()
        } else {
            0
        };
        proof {
            self.lemma_around(k as int, local as int);
            assert(self.piece_ok(k as int));
        }
        let cut = lo + local;
        let left = MagicString {
            inner: slice_subrange(self.inner, 0, k + 1),
            offset: Offset::from_parts(self.offset.start_bytes(), seg.len() - cut),
        };
        let right = MagicString {
            inner: slice_subrange(self.inner, k, n),
            offset: Offset::from_parts(cut, self.offset.end_bytes()),
        };
        proof {
            self.lemma_split_left(left, k as int, local as int);
            self.lemma_split_right(right, k as int, local as int);
        }
        (left, right)
    }

    /// Split the string in two at byte `index`: the bytes before it and the bytes from it
    /// on.
    pub fn split_at(&self, index: usize) -> (r: Result<(Self, Self), SplitError>)
        requires
            self.wf(),
        ensures
            index > self.content().len() <==> r == Err::<(Self, Self), SplitError>(
                SplitError::OutOfBounds,
            ),
            (index <= self.content().len() && !is_char_boundary(self.content(), index as int))
                <==> r == Err::<(Self, Self), SplitError>(SplitError::NotCharBoundary),
            r is Ok <==> (index <= self.content().len() && is_char_boundary(
                self.content(),
                index as int,
            )),
            r matches Ok((a, b)) ==> a.wf() && b.wf() && a.content() == self.content().take(
                index as int,
            ) && b.content() == self.content().skip(index as int),
            r matches Ok((a, b)) ==> a.text() + b.text() == self.text(),
    {
        if index > self.len() {
            return Err(SplitError::OutOfBounds);
        }
        if !self.is_boundary(index) {
            return Err(SplitError::NotCharBoundary);
        }
        proof {
            self.lemma_wf();
            crate::text::lemma_split_text(self.content(), index as int);
        }
        Ok(self.split(index))
    }

    /// Whether byte `index`, no further than the end, starts a character or is the end.
    fn is_boundary(&self, index: usize) -> (r: bool)
        requires
            self.wf(),
            index <= self.content().len(),
        ensures
            r == is_char_boundary(self.content(), index as int),
    {
        let n = self.inner.len();
        if n == 0 {
            proof {
                assert(self.pieces() =~= Seq::<Seq<u8>>::empty());
                is_char_boundary_start_end_of_seq(self.content());
            }
            return true;
        }
        let ghost ps = self.pieces();
        let (k, acc) = self.index(index);
        let lo: usize = if k == 0 {
            self.offset.start_bytes()
        } else {
            0
        };
        proof {
            self.lemma_around(k as int, (index - acc) as int);
            assert(self.piece_ok(k as int));
        }
        self.inner[k].is_char_boundary(lo + (index - acc))
    }

    proof fn lemma_front_found(&self, j: int, u: Seq<char>, v: Seq<char>, r: Self)
        requires
            self.wf(),
            0 <= j < self.inner@.len(),
            self.piece(j) == encode_utf8(u + v),
            forall|i: int| 0 <= i < u.len() ==> is_white(#[trigger] (u + v)[i]),
            v.len() > 0,
            !is_white(v[0]),
            valid_utf8(join(self.pieces().take(j))),
            lead_white(text_of(join(self.pieces().take(j)))) == text_of(
                join(self.pieces().take(j)),
            ).len(),
            r.inner@ == self.inner@.skip(j),
            r.offset.start() == self.lo(j) + encode_utf8(u).len(),
            r.offset.end() == self.offset.end(),
        ensures
            r.wf(),
            r.text() == trim_start_text(self.text()),
            r.content().len() <= self.content().len(),
    {
        let ps = self.pieces();
        let a = join(ps.take(j));
        let b = join(ps.skip(j + 1));
        let skip = encode_utf8(u).len() as int;
        self.lemma_around(j, 0);
        lemma_cut_encoding(u, v);
        assert forall|i: int| 0 <= i < u.len() implies is_white(#[trigger] u[i]) by {
            assert(u[i] == (u + v)[i]);
        }
        lemma_lead_white_unique(u, u.len() as int);
        assert(self.piece_ok(j));
        lemma_boundary_sub(self.seg(j), self.lo(j), self.hi(j), skip);
        self.lemma_split_right(r, j, skip);
        assert(self.content().skip(a.len() + skip) =~= encode_utf8(v) + b);
        lemma_trim_start_at(a, u, v, b);
    }

    proof fn lemma_back_found(&self, k: int, v: Seq<char>, w: Seq<char>, r: Self)
        requires
            self.wf(),
            0 <= k < self.inner@.len(),
            self.piece(k) == encode_utf8(v + w),
            forall|i: int| v.len() <= i < v.len() + w.len() ==> is_white(#[trigger] (v + w)[i]),
            v.len() > 0,
            !is_white(v.last()),
            valid_utf8(join(self.pieces().skip(k + 1))),
            trail_white(text_of(join(self.pieces().skip(k + 1)))) == text_of(
                join(self.pieces().skip(k + 1)),
            ).len(),
            r.inner@ == self.inner@.take(k + 1),
            r.offset.start() == self.offset.start(),
            r.offset.end() == self.seg(k).len() - (self.lo(k) + encode_utf8(v).len()),
        ensures
            r.wf(),
            r.text() == trim_end_text(self.text()),
            r.content().len() <= self.content().len(),
    {
        let ps = self.pieces();
        let a = join(ps.take(k));
        let b = join(ps.skip(k + 1));
        let keep = encode_utf8(v).len() as int;
        self.lemma_around(k, 0);
        lemma_cut_encoding(v, w);
        assert forall|i: int| 0 <= i < w.len() implies is_white(#[trigger] w[i]) by {
            assert(w[i] == (v + w)[i + v.len()]);
        }
        lemma_trail_white_unique(w, w.len() as int);
        assert(self.piece_ok(k));
        lemma_boundary_sub(self.seg(k), self.lo(k), self.hi(k), keep);
        self.lemma_split_left(r, k, keep);
        assert(self.content().take(a.len() + keep) =~= a + encode_utf8(v));
        lemma_trim_end_at(a, v, w, b);
    }

    proof fn lemma_back_step(&self, k: int, pt: Seq<char>)
        requires
            self.wf(),
            0 <= k < self.inner@.len(),
            pt == text_of(self.piece(k)),
            forall|i: int| 0 <= i < pt.len() ==> is_white(#[trigger] pt[i]),
            valid_utf8(join(self.pieces().skip(k + 1))),
            trail_white(text_of(join(self.pieces().skip(k + 1)))) == text_of(
                join(self.pieces().skip(k + 1)),
            ).len(),
        ensures
            valid_utf8(join(self.pieces().skip(k))),
            trail_white(text_of(join(self.pieces().skip(k)))) == text_of(
                join(self.pieces().skip(k)),
            ).len(),
    {
        self.lemma_around(k, 0);
        lemma_lead_white_unique(pt, pt.len() as int);
        lemma_all_white_back(text_of(join(self.pieces().skip(k + 1))));
        lemma_white_step(join(self.pieces().skip(k + 1)), self.piece(k));
        assert(join(self.pieces().skip(k)) == self.piece(k) + join(self.pieces().skip(k + 1)));
    }

    /// The string without leading white space.
    pub fn trim_start(&self) -> (r: Self)
        requires
            self.wf(),
        ensures
            r.wf(),
            r.text() == trim_start_text(self.text()),
            r.content().len() <= self.content().len(),
    {
        let n = self.inner.len();
        let ghost ps = self.pieces();
        let mut j: usize = 0;
        proof {
            assert(ps.take(0) =~= Seq::<Seq<u8>>::empty());
            lemma_encode_text(Seq::<u8>::empty());
        }
        while j < n
            invariant
                self.wf(),
                ps == self.pieces(),
                n == self.inner@.len(),
                j <= n,
                valid_utf8(join(ps.take(j as int))),
                lead_white(text_of(join(ps.take(j as int)))) == text_of(
                    join(ps.take(j as int)),
                ).len(),
            decreases n - j,
        {
            let p = self.piece_at(j);
            let t = str_trim_start(p);
            proof {
                self.lemma_around(j as int, 0);
                lemma_text_encode(t@);
                lemma_text_encode(p@);
                lemma_encode_len(t@);
                assert(p@ =~= p@.take(p@.len() - t@.len()) + t@);
                lemma_encode_concat(p@.take(p@.len() - t@.len()), t@);
            }
            if t.len() > 0 {
                let ghost m = p@.len() - t@.len();
                let ghost u = p@.take(m);
                proof {
                    assert(p@ =~= u + t@);
                    lemma_cut_encoding(u, t@);
                    assert(self.piece_ok(j as int));
                }
                let skip = p.len() - t.len();
                let lo: usize = if j == 0 {
                    self.offset.start_bytes()
                } else {
                    0
                };
                let r = MagicString {
                    inner: slice_subrange(self.inner, j, n),
                    offset: Offset::from_parts(lo + skip, self.offset.end_bytes()),
                };
                proof {
                    self.lemma_front_found(j as int, u, t@, r);
                }
                return r;
            }
            proof {
                lemma_lead_white_unique(p@, p@.len() as int);
                lemma_white_step(join(ps.take(j as int)), self.piece(j as int));
            }
            j = j + 1;
        }
        let r = MagicString { inner: slice_subrange(self.inner, n, n), offset: Offset::Whole };
        proof {
            assert(ps.take(n as int) =~= ps);
            lemma_all_white(self.text());
            assert(r.pieces() =~= Seq::<Seq<u8>>::empty());
            lemma_encode_text(r.content());
        }
        r
    }

    /// The string without trailing white space.
    pub fn trim_end(&self) -> (r: Self)
        requires
            self.wf(),
        ensures
            r.wf(),
            r.text() == trim_end_text(self.text()),
            r.content().len() <= self.content().len(),
    {
        let n = self.inner.len();
        let ghost ps = self.pieces();
        let mut j: usize = n;
        proof {
            assert(ps.skip(n as int) =~= Seq::<Seq<u8>>::empty());
            lemma_encode_text(Seq::<u8>::empty());
        }
        while j > 0
            invariant
                self.wf(),
                ps == self.pieces(),
                n == self.inner@.len(),
                j <= n,
                valid_utf8(join(ps.skip(j as int))),
                trail_white(text_of(join(ps.skip(j as int)))) == text_of(
                    join(ps.skip(j as int)),
                ).len(),
            decreases j,
        {
            let k = j - 1;
            let p = self.piece_at(k);
            let t = str_trim_end(p);
            proof {
                self.lemma_around(k as int, 0);
                lemma_text_encode(t@);
                lemma_text_encode(p@);
                lemma_encode_len(t@);
                assert(p@ =~= t@ + p@.skip(t@.len() as int));
                lemma_encode_concat(t@, p@.skip(t@.len() as int));
            }
            if t.len() > 0 {
                let ghost w = p@.skip(t@.len() as int);
                proof {
                    assert(p@ =~= t@ + w);
                    lemma_cut_encoding(t@, w);
                    assert(self.piece_ok(k as int));
                }
                let keep = t.len();
                let lo: usize = if k == 0 {
                    self.offset.start_bytes()
                } else {
                    0
                };
                let seg = self.inner[k];
                let r = MagicString {
                    inner: slice_subrange(self.inner, 0, k + 1),
                    offset: Offset::from_parts(self.offset.start_bytes(), seg.len() - (lo + keep)),
                };
                proof {
                    self.lemma_back_found(k as int, t@, w, r);
                }
                return r;
            }
            proof {
                self.lemma_back_step(k as int, p@);
            }
            j = k;
        }
        let r = MagicString { inner: slice_subrange(self.inner, 0, 0), offset: Offset::Whole };
        proof {
            assert(ps.skip(0) =~= ps);
            lemma_trail_white(self.text());
            assert(r.pieces() =~= Seq::<Seq<u8>>::empty());
            lemma_encode_text(r.content());
        }
        r
    }

    /// The string without white space at either end.
    pub fn trim(&self) -> (r: Self)
        requires
            self.wf(),
        ensures
            r.wf(),
            r.text() == trim_text(self.text()),
            r.content().len() <= self.content().len(),
    {
        self.trim_start().trim_end()
    }

    /// A string whose text is `u + v` can be cut after `u`.
    proof fn lemma_cut_text(&self, u: Seq<char>, v: Seq<char>)
        requires
            self.wf(),
            self.text() == u + v,
        ensures
            self.content() == encode_utf8(u) + encode_utf8(v),
            is_char_boundary(self.content(), encode_utf8(u).len() as int),
            self.content().take(encode_utf8(u).len() as int) == encode_utf8(u),
            self.content().skip(encode_utf8(u).len() as int) == encode_utf8(v),
            text_of(encode_utf8(u)) == u,
            text_of(encode_utf8(v)) == v,
    {
        self.lemma_wf();
        lemma_encode_text(self.content());
        lemma_cut_encoding(u, v);
        lemma_text_encode(u);
        lemma_text_encode(v);
    }

    /// Remove the last character of the string and return it.
    pub fn pop(&mut self) -> (r: Option<char>)
        requires
            old(self).wf(),
        ensures
            final(self).wf(),
            old(self).text().len() == 0 ==> r is None && final(self).content() == old(self).content(),
            old(self).text().len() > 0 ==> r == Some(old(self).text().last()) && final(self).text()
                == old(self).text().drop_last() && final(self).content() == old(self).content().take(
                old(self).content().len() - char_width(old(self).text().last()),
            ) && final(self).content().len() == old(self).content().len() - char_width(
                old(self).text().last(),
            ),
    {
        let n = self.inner.len();
        let ghost ps = self.pieces();
        let mut j: usize = n;
        proof {
            assert(ps.skip(n as int) =~= Seq::<Seq<u8>>::empty());
        }
        while j > 0
            invariant
                self.wf(),
                *self == *old(self),
                ps == self.pieces(),
                n == self.inner@.len(),
                j <= n,
                join(ps.skip(j as int)).len() == 0,
            decreases j,
        {
            let k = j - 1;
            let p = self.piece_at(k);
            proof {
                self.lemma_around(k as int, 0);
                lemma_encode_text(self.piece(k as int));
            }
            match last_char(p) {
                Some(c) => {
                    let w = width_utf8(c);
                    let len = self.len();
                    proof {
                        let t = self.text();
                        let a = join(ps.take(k as int));
                        let b = join(ps.skip(k + 1));
                        assert(b =~= Seq::<u8>::empty());
                        lemma_encode_text(b);
                        lemma_decode_concat(a, self.piece(k as int));
                        assert(self.content() =~= a + self.piece(k as int));
                        assert(t.last() == c);
                        assert(t =~= t.drop_last() + seq![c]);
                        self.lemma_cut_text(t.drop_last(), seq![c]);
                        lemma_encode_concat(t.drop_last(), seq![c]);
                    }
                    let (left, _) = self.split(len - w);
                    *self = left;
                    return Some(c);
                },
                None => {},
            }
            proof {
                lemma_join_concat(seq![self.piece(k as int)], ps.skip(j as int));
                lemma_join_one(self.piece(k as int));
            }
            j = k;
        }
        proof {
            assert(ps.skip(0) =~= ps);
            self.lemma_wf();
            lemma_encode_text(self.content());
        }
        None
    }

    /// The first character of the string, if it has one.
    pub fn first(&self) -> (r: Option<char>)
        requires
            self.wf(),
        ensures
            self.text().len() == 0 ==> r is None,
            self.text().len() > 0 ==> r == Some(self.text()[0]),
    {
        let n = self.inner.len();
        let ghost ps = self.pieces();
        let mut j: usize = 0;
        proof {
            assert(ps.take(0) =~= Seq::<Seq<u8>>::empty());
        }
        while j < n
            invariant
                self.wf(),
                ps == self.pieces(),
                n == self.inner@.len(),
                j <= n,
                join(ps.take(j as int)).len() == 0,
            decreases n - j,
        {
            let p = self.piece_at(j);
            proof {
                self.lemma_around(j as int, 0);
                lemma_encode_text(self.piece(j as int));
            }
            match first_char(p) {
                Some(c) => {
                    proof {
                        let a = join(ps.take(j as int));
                        let b = join(ps.skip(j + 1));
                        assert(a =~= Seq::<u8>::empty());
                        lemma_encode_text(a);
                        lemma_decode_concat(a, self.piece(j as int));
                        lemma_decode_concat(a + self.piece(j as int), b);
                    }
                    return Some(c);
                },
                None => {},
            }
            j = j + 1;
        }
        proof {
            assert(ps.take(n as int) =~= ps);
            self.lemma_wf();
            lemma_encode_text(self.content());
        }
        None
    }

    /// The part of the string from byte `start` up to byte `end`.
    fn get_between(&self, start: usize, end: usize) -> (r: Result<Self, SplitError>)
        requires
            self.wf(),
        ensures
            r is Ok <==> (start <= end <= self.content().len() && is_char_boundary(
                self.content(),
                start as int,
            ) && is_char_boundary(self.content(), end as int)),
            (end > self.content().len() || start > end) <==> r == Err::<Self, SplitError>(
                SplitError::OutOfBounds,
            ),
            r matches Ok(v) ==> v.wf() && v.content() == self.content().subrange(
                start as int,
                end as int,
            ),
    {
        match self.split_at(end) {
            Err(e) => {
                if start > end {
                    return Err(SplitError::OutOfBounds);
                }
                Err(e)
            },
            Ok((left, _)) => {
                if start > end {
                    return Err(SplitError::OutOfBounds);
                }
                proof {
                    self.lemma_wf();
                    vstd::utf8::valid_utf8_split(self.content(), end as int);
                    lemma_boundary_concat(
                        self.content().take(end as int),
                        self.content().skip(end as int),
                        start as int,
                    );
                    assert(self.content() =~= self.content().take(end as int) + self.content().skip(
                        end as int,
                    ));
                    vstd::utf8::is_char_boundary_start_end_of_seq(self.content());
                }
                match left.split_at(start) {
                    Err(e) => Err(e),
                    Ok((_, v)) => {
                        proof {
                            assert(v.content() =~= self.content().subrange(start as int, end as int));
                        }
                        Ok(v)
                    },
                }
            },
        }
    }

    /// Get a part of the string by a range of byte positions.
    pub fn get<R: FromRange>(&self, range: R) -> (r: Result<Self, SplitError>)
        requires
            self.wf(),
        ensures
            r is Ok <==> (range.lower(self.content().len()) <= range.upper(self.content().len())
                <= self.content().len() && is_char_boundary(
                self.content(),
                range.lower(self.content().len()),
            ) && is_char_boundary(self.content(), range.upper(self.content().len()))),
            (range.upper(self.content().len()) > self.content().len() || range.lower(
                self.content().len(),
            ) > range.upper(self.content().len())) <==> r == Err::<Self, SplitError>(
                SplitError::OutOfBounds,
            ),
            r matches Ok(v) ==> v.wf() && v.content() == self.content().subrange(
                range.lower(self.content().len()),
                range.upper(self.content().len()),
            ),
    {
        let len = self.len();
        match range.bounds(len) {
            None => Err(SplitError::OutOfBounds),
            Some((start, end)) => self.get_between(start, end),
        }
    }

    /// An iterator over the window's part of each segment.
    pub fn iter(&self) -> (r: MagicIter<'a>)
        requires
            self.wf(),
        ensures
            r.wf(),
            r.remaining() == self.pieces(),
    {
        let r = MagicIter { string: *self, front: 0, back: self.inner.len() };
        proof {
            assert(r.remaining() =~= self.pieces());
        }
        r
    }

    /// This string followed by `right`, without copying either.
    pub fn concat<R: MagicStringTrait>(self, right: R) -> (r: Concat<Self, R>)
        requires
            MagicString::wf(&self),
            right.wf(),
            MagicString::content(&self).len() + right.content().len() <= usize::MAX,
        ensures
            r.wf(),
            r.content() == MagicString::content(&self) + right.content(),
    {
        Concat::new(self, right)
    }

    /// An iterator over the bytes of the string.
    pub fn bytes(&self) -> (r: Bytes<'a>)
        requires
            self.wf(),
        ensures
            r.wf(),
            r.remaining() == self.content(),
    {
        Bytes::new(self.iter())
    }

    /// An iterator over the characters of the string.
    pub fn chars(&self) -> (r: Chars<Self>)
        requires
            self.wf(),
        ensures
            r.wf(),
            r.remaining() == self.text(),
    {
        Chars::new(*self)
    }

    /// An iterator over the characters of the string and their byte positions.
    pub fn char_indices(&self) -> (r: CharIndices<Self>)
        requires
            self.wf(),
        ensures
            r.wf(),
            r.remaining() == self.text(),
            r.position() == 0,
    {
        CharIndices::new(*self)
    }

    /// The text of the string, copied into a `String`.
    pub fn to_string(&self) -> (r: String)
        requires
            self.wf(),
        ensures
            r@ == self.text(),
    {
        let n = self.inner.len();
        let ghost ps = self.pieces();
        let mut out = String::new();
        let mut j: usize = 0;
        proof {
            assert(ps.take(0) =~= Seq::<Seq<u8>>::empty());
            lemma_encode_text(Seq::<u8>::empty());
        }
        while j < n
            invariant
                self.wf(),
                ps == self.pieces(),
                n == self.inner@.len(),
                j <= n,
                valid_utf8(join(ps.take(j as int))),
                out@ == text_of(join(ps.take(j as int))),
            decreases n - j,
        {
            let p = self.piece_at(j);
            proof {
                self.lemma_around(j as int, 0);
                lemma_decode_concat(join(ps.take(j as int)), self.piece(j as int));
            }
            out.append(p);
            j = j + 1;
        }
        proof {
            assert(ps.take(n as int) =~= ps);
        }
        out
    }

    /// Number of segments that the window runs over.
    pub closed spec fn seg_count(&self) -> nat {
        self.inner@.len()
    }

    /// The string's bytes are its pieces laid end to end.
    pub proof fn lemma_content(&self)
        ensures
            self.content() == join(self.pieces()),
            self.pieces().len() == self.seg_count(),
    {
    }
}

/// A range of byte positions into a string of a given length.
pub trait FromRange {
    /// First position in the range.
    spec fn lower(&self, len: nat) -> int;

    /// Position just past the range.
    spec fn upper(&self, len: nat) -> int;

    /// The two positions, where the one past the range fits in `usize`.
    fn bounds(&self, len: usize) -> (r: Option<(usize, usize)>)
        ensures
            r is None <==> self.upper(len as nat) > usize::MAX,
            r matches Some((s, e)) ==> s == self.lower(len as nat) && e == self.upper(len as nat),
    ;
}

impl FromRange for core::ops::Range<usize> {
    open spec fn lower(&self, len: nat) -> int {
        self.start as int
    }

    open spec fn upper(&self, len: nat) -> int {
        self.end as int
    }

    fn bounds(&self, len: usize) -> (r: Option<(usize, usize)>) {
        Some((self.start, self.end))
    }
}

impl FromRange for core::ops::RangeTo<usize> {
    open spec fn lower(&self, len: nat) -> int {
        0
    }

    open spec fn upper(&self, len: nat) -> int {
        self.end as int
    }

    fn bounds(&self, len: usize) -> (r: Option<(usize, usize)>) {
        Some((0, self.end))
    }
}

impl FromRange for core::ops::RangeToInclusive<usize> {
    open spec fn lower(&self, len: nat) -> int {
        0
    }

    open spec fn upper(&self, len: nat) -> int {
        self.end + 1
    }

    fn bounds(&self, len: usize) -> (r: Option<(usize, usize)>) {
        if self.end == usize::MAX {
            None
        } else {
            Some((0, self.end + 1))
        }
    }
}

impl FromRange for core::ops::RangeInclusive<usize> {
    open spec fn lower(&self, len: nat) -> int {
        self@.start as int
    }

    open spec fn upper(&self, len: nat) -> int {
        self@.end + 1
    }

    fn bounds(&self, len: usize) -> (r: Option<(usize, usize)>) {
        let end = *self.end();
        if end == usize::MAX {
            None
        } else {
            Some((*self.start(), end + 1))
        }
    }
}

/// Relies on `RangeInclusive::start`: the lower bound the range was made with.
pub assume_specification<Idx>[ core::ops::RangeInclusive::<Idx>::start ](
    r: &core::ops::RangeInclusive<Idx>,
) -> (s: &Idx)
    ensures
        *s == r@.start,
;

/// Relies on `RangeInclusive::end`: the upper bound the range was made with.
pub assume_specification<Idx>[ core::ops::RangeInclusive::<Idx>::end ](
    r: &core::ops::RangeInclusive<Idx>,
) -> (e: &Idx)
    ensures
        *e == r@.end,
;

impl FromRange for core::ops::RangeFrom<usize> {
    open spec fn lower(&self, len: nat) -> int {
        self.start as int
    }

    open spec fn upper(&self, len: nat) -> int {
        len as int
    }

    fn bounds(&self, len: usize) -> (r: Option<(usize, usize)>) {
        Some((self.start, len))
    }
}

impl FromRange for core::ops::RangeFull {
    open spec fn lower(&self, len: nat) -> int {
        0
    }

    open spec fn upper(&self, len: nat) -> int {
        len as int
    }

    fn bounds(&self, len: usize) -> (r: Option<(usize, usize)>) {
        Some((0, len))
    }
}

#[verifier::external_type_specification]
pub struct ExRangeTo<Idx>(core::ops::RangeTo<Idx>);

#[verifier::external_type_specification]
pub struct ExRangeToInclusive<Idx>(core::ops::RangeToInclusive<Idx>);

#[verifier::external_type_specification]
pub struct ExRangeFrom<Idx>(core::ops::RangeFrom<Idx>);

#[verifier::external_type_specification]
pub struct ExRangeFull(core::ops::RangeFull);

/// Iterator over the window's part of each segment, from either end.
pub struct MagicIter<'a> {
    string: MagicString<'a>,
    front: usize,
    back: usize,
}

impl<'a> MagicIter<'a> {
    /// The pieces not yet handed out.
    pub closed spec fn remaining(&self) -> Seq<Seq<u8>> {
        self.string.pieces().subrange(self.front as int, self.back as int)
    }

    pub closed spec fn wf(&self) -> bool {
        self.string.wf() && self.front <= self.back <= self.string.inner@.len()
    }

    /// The next piece from the front.
    pub fn next(&mut self) -> (r: Option<&'a str>)
        requires
            old(self).wf(),
        ensures
            final(self).wf(),
            old(self).remaining().len() == 0 ==> r is None && final(self).remaining() == old(self).remaining(),
            old(self).remaining().len() > 0 ==> (r matches Some(s) && s.spec_bytes() == old(
                self,
            ).remaining()[0]),
            old(self).remaining().len() > 0 ==> final(self).remaining() == old(
                self,
            ).remaining().drop_first(),
    {
        if self.front == self.back {
            return None;
        }
        let s = self.string.piece_at(self.front);
        self.front = self.front + 1;
        proof {
            assert(final(self).remaining() =~= old(self).remaining().drop_first());
        }
        Some(s)
    }

    /// The next piece from the back.
    pub fn next_back(&mut self) -> (r: Option<&'a str>)
        requires
            old(self).wf(),
        ensures
            final(self).wf(),
            old(self).remaining().len() == 0 ==> r is None && final(self).remaining() == old(self).remaining(),
            old(self).remaining().len() > 0 ==> (r matches Some(s) && s.spec_bytes() == old(
                self,
            ).remaining().last()),
            old(self).remaining().len() > 0 ==> final(self).remaining() == old(
                self,
            ).remaining().drop_last(),
    {
        if self.front == self.back {
            return None;
        }
        self.back = self.back - 1;
        let s = self.string.piece_at(self.back);
        proof {
            assert(final(self).remaining() =~= old(self).remaining().drop_last());
        }
        Some(s)
    }
}

impl<'a> MagicStringTrait for MagicString<'a> {
    closed spec fn wf(&self) -> bool {
        MagicString::wf(self)
    }

    closed spec fn content(&self) -> Seq<u8> {
        MagicString::content(self)
    }

    proof fn lemma_valid(&self) {
        self.lemma_wf();
    }

    fn len(&self) -> (r: usize) {
        MagicString::len(self)
    }

    fn is_empty(&self) -> (r: bool) {
        MagicString::is_empty(self)
    }

    fn split_at(&self, index: usize) -> (r: Result<(Self, Self), SplitError>) {
        MagicString::split_at(self, index)
    }

    fn trim_start(&self) -> (r: Self) {
        MagicString::trim_start(self)
    }

    fn trim_end(&self) -> (r: Self) {
        MagicString::trim_end(self)
    }

    fn trim(&self) -> (r: Self) {
        MagicString::trim(self)
    }

    fn pop(&mut self) -> (r: Option<char>) {
        MagicString::pop(self)
    }

    fn first(&self) -> (r: Option<char>) {
        MagicString::first(self)
    }

    fn to_string(&self) -> (r: String) {
        MagicString::to_string(self)
    }
}

impl<'a> MagicString<'a> {
    /// Piece `k` holds the character that a search of it found at byte `b`.
    proof fn lemma_hit_at<P: CharPattern>(&self, k: int, i: int, pat: P, first: bool)
        requires
            self.wf(),
            0 <= k < self.inner@.len(),
            0 <= i < text_of(self.piece(k)).len(),
            pat.accepts(text_of(self.piece(k))[i]),
            first ==> !has_hit(text_of(join(self.pieces().take(k))), pat),
            first ==> forall|j: int| 0 <= j < i ==> !pat.accepts(#[trigger] text_of(self.piece(k))[j]),
            !first ==> !has_hit(text_of(join(self.pieces().skip(k + 1))), pat),
            !first ==> forall|j: int|
                i < j < text_of(self.piece(k)).len() ==> !pat.accepts(
                    #[trigger] text_of(self.piece(k))[j],
                ),
        ensures
            first ==> crate::pattern::first_hit(self.text(), pat) == Some(
                text_of(join(self.pieces().take(k))).len() + i,
            ),
            !first ==> crate::pattern::last_hit(self.text(), pat) == Some(
                text_of(join(self.pieces().take(k))).len() + i,
            ),
            encode_utf8(self.text().take(text_of(join(self.pieces().take(k))).len() + i)).len()
                == join(self.pieces().take(k)).len() + encode_utf8(
                text_of(self.piece(k)).take(i),
            ).len(),
    {
        let ps = self.pieces();
        let a = join(ps.take(k));
        let p = self.piece(k);
        let b = join(ps.skip(k + 1));
        self.lemma_around(k, 0);
        lemma_decode_concat(a, p);
        lemma_decode_concat(a + p, b);
        let ta = text_of(a);
        let tp = text_of(p);
        let tb = text_of(b);
        if first {
            lemma_first_hit_in(ta, tp, tb, i, pat);
        } else {
            lemma_last_hit_in(ta, tp, tb, i, pat);
        }
        lemma_encode_text(a);
        lemma_encode_concat(ta, tp.take(i));
    }

    /// Searching the pieces before `k` and piece `k` itself finds nothing before `k + 1`.
    proof fn lemma_no_hit_step<P: CharPattern>(&self, k: int, pat: P, front: bool)
        requires
            self.wf(),
            0 <= k < self.inner@.len(),
            !has_hit(text_of(self.piece(k)), pat),
            front ==> !has_hit(text_of(join(self.pieces().take(k))), pat),
            !front ==> !has_hit(text_of(join(self.pieces().skip(k + 1))), pat),
        ensures
            front ==> !has_hit(text_of(join(self.pieces().take(k + 1))), pat),
            !front ==> !has_hit(text_of(join(self.pieces().skip(k))), pat),
    {
        let ps = self.pieces();
        self.lemma_around(k, 0);
        lemma_decode_concat(join(ps.take(k)), self.piece(k));
        lemma_decode_concat(self.piece(k), join(ps.skip(k + 1)));
        lemma_has_hit_concat(text_of(join(ps.take(k))), text_of(self.piece(k)), pat);
        lemma_has_hit_concat(text_of(self.piece(k)), text_of(join(ps.skip(k + 1))), pat);
    }
}

impl<'a, P: CharPattern> Find<P> for MagicString<'a> {
    fn find(&self, pat: P) -> (r: Option<usize>) {
        let n = self.inner.len();
        let ghost ps = self.pieces();
        let mut j: usize = 0;
        let mut acc: usize = 0;
        proof {
            assert(ps.take(0) =~= Seq::<Seq<u8>>::empty());
            lemma_encode_text(Seq::<u8>::empty());
        }
        while j < n
            invariant
                MagicString::wf(self),
                ps == self.pieces(),
                n == self.inner@.len(),
                j <= n,
                acc == join(ps.take(j as int)).len(),
                !has_hit(text_of(join(ps.take(j as int))), pat),
            decreases n - j,
        {
            let p = self.piece_at(j);
            proof {
                lemma_join_take(ps, j as int);
                lemma_join_split(ps, j + 1);
                lemma_text_encode(p@);
            }
            match pat.find_in(p) {
                Some(b) => {
                    proof {
                        let i = choose|i: int|
                            0 <= i < p@.len() && pat.accepts(p@[i]) && (forall|j: int|
                                0 <= j < i ==> !pat.accepts(#[trigger] p@[j])) && b == encode_utf8(
                                p@.take(i),
                            ).len();
                        self.lemma_hit_at(j as int, i, pat, true);
                        lemma_encode_concat(p@.take(i), p@.skip(i));
                        assert(p@ =~= p@.take(i) + p@.skip(i));
                    }
                    return Some(acc + b);
                },
                None => {},
            }
            proof {
                self.lemma_no_hit_step(j as int, pat, true);
            }
            acc = acc + p.len();
            j = j + 1;
        }
        proof {
            assert(ps.take(n as int) =~= ps);
            lemma_first_hit(self.text(), pat);
        }
        None
    }

    fn rfind(&self, pat: P) -> (r: Option<usize>) {
        let n = self.inner.len();
        let ghost ps = self.pieces();
        let mut j: usize = n;
        let mut acc: usize = MagicString::len(self);
        proof {
            assert(ps.skip(n as int) =~= Seq::<Seq<u8>>::empty());
            lemma_encode_text(Seq::<u8>::empty());
            assert(ps.take(n as int) =~= ps);
        }
        while j > 0
            invariant
                MagicString::wf(self),
                ps == self.pieces(),
                n == self.inner@.len(),
                j <= n,
                acc == join(ps.take(j as int)).len(),
                !has_hit(text_of(join(ps.skip(j as int))), pat),
            decreases j,
        {
            let k = j - 1;
            let p = self.piece_at(k);
            proof {
                lemma_join_take(ps, k as int);
                lemma_text_encode(p@);
            }
            acc = acc - p.len();
            match pat.rfind_in(p) {
                Some(b) => {
                    proof {
                        let i = choose|i: int|
                            0 <= i < p@.len() && pat.accepts(p@[i]) && (forall|j: int|
                                i < j < p@.len() ==> !pat.accepts(#[trigger] p@[j])) && b
                                == encode_utf8(p@.take(i)).len();
                        self.lemma_hit_at(k as int, i, pat, false);
                        lemma_encode_concat(p@.take(i), p@.skip(i));
                        assert(p@ =~= p@.take(i) + p@.skip(i));
                        lemma_join_split(ps, j as int);
                    }
                    return Some(acc + b);
                },
                None => {},
            }
            proof {
                self.lemma_no_hit_step(k as int, pat, false);
            }
            j = k;
        }
        proof {
            assert(ps.skip(0) =~= ps);
            lemma_last_hit(self.text(), pat);
        }
        None
    }
}

impl<'a, P: CharPattern> Contains<P> for MagicString<'a> {
    fn contains(&self, pat: P) -> (r: bool) {
        let r = Find::find(self, pat);
        proof {
            lemma_first_hit(self.text(), pat);
        }
        r.is_some()
    }
}

} // verus!
