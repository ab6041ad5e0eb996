//! Splitting a string slice at every occurrence of a delimiter.
//!
//! Positions are byte offsets into the UTF-8 encoding of the haystack, as
//! with `str::find`; a match is only taken where both of its ends fall on
//! character boundaries, so every piece handed out is itself a `&str`.
use vstd::prelude::*;
use vstd::string::StringSliceAdditionalSpecFns;
use vstd::utf8::{
    encode_utf8_valid_utf8, is_char_boundary, is_char_boundary_iff_not_is_continuation_byte,
    length_of_first_scalar,
    pop_first_scalar, valid_utf8, valid_utf8_split,
};

verus! {

/// `needle` occurs in `hay` at byte offset `i`, starting and ending on
/// character boundaries.
pub open spec fn matches_at(hay: Seq<u8>, needle: Seq<u8>, i: int) -> bool {
    &&& 0 <= i
    &&& i + needle.len() <= hay.len()
    &&& hay.subrange(i, i + needle.len()) == needle
    &&& is_char_boundary(hay, i)
    &&& is_char_boundary(hay, i + needle.len())
}

/// The first offset at or after `i` where `needle` occurs in `hay`.
pub open spec fn find_from(hay: Seq<u8>, needle: Seq<u8>, i: int) -> Option<int>
    decreases hay.len() + 1 - i,
{
    if i < 0 || i + needle.len() > hay.len() {
        None
    } else if matches_at(hay, needle, i) {
        Some(i)
    } else {
        find_from(hay, needle, i + 1)
    }
}

/// What `find_from` returns is a match, with no match before it.
pub proof fn lemma_find_from(hay: Seq<u8>, needle: Seq<u8>, i: int)
    requires
        0 <= i,
    ensures
        match find_from(hay, needle, i) {
            Some(k) => i <= k && matches_at(hay, needle, k) && forall|j: int|
                i <= j < k ==> !#[trigger] matches_at(hay, needle, j),
            None => forall|j: int| i <= j ==> !#[trigger] matches_at(hay, needle, j),
        },
    decreases hay.len() + 1 - i,
{
    if i + needle.len() > hay.len() {
    } else if matches_at(hay, needle, i) {
    } else {
        lemma_find_from(hay, needle, i + 1);
    }
}

/// The pieces of `hay` between the occurrences of a non-empty `delim`.
pub open spec fn split_pieces(hay: Seq<u8>, delim: Seq<u8>) -> Seq<Seq<u8>>
    decreases hay.len(),
    when delim.len() > 0
{
    match find_from(hay, delim, 0) {
        Some(i) => {
            proof {
                lemma_find_from(hay, delim, 0);
            }
            seq![hay.subrange(0, i)] + split_pieces(
                hay.subrange(i + delim.len(), hay.len() as int),
                delim,
            )
        },
        None => seq![hay],
    }
}

/// `pieces` with `delim` between each two of them.
pub open spec fn join_pieces(pieces: Seq<Seq<u8>>, delim: Seq<u8>) -> Seq<u8>
    decreases pieces.len(),
{
    if pieces.len() == 0 {
        Seq::empty()
    } else if pieces.len() == 1 {
        pieces[0]
    } else {
        pieces[0] + delim + join_pieces(pieces.drop_first(), delim)
    }
}

/// Splitting a haystack at a non-empty delimiter and joining the pieces
/// with that delimiter gives the haystack back; there is always at least
/// one piece.
pub proof fn lemma_split_then_join(hay: Seq<u8>, delim: Seq<u8>)
    requires
        delim.len() > 0,
    ensures
        split_pieces(hay, delim).len() >= 1,
        join_pieces(split_pieces(hay, delim), delim) == hay,
    decreases hay.len(),
{
    lemma_find_from(hay, delim, 0);
    match find_from(hay, delim, 0) {
        Some(i) => {
            let rest = hay.subrange(i + delim.len(), hay.len() as int);
            lemma_split_then_join(rest, delim);
            let ps = split_pieces(hay, delim);
            assert(ps.drop_first() =~= split_pieces(rest, delim));
            assert(hay =~= hay.subrange(0, i) + hay.subrange(i, i + delim.len()) + rest);
        },
        None => {},
    }
}

/// In valid UTF-8, a valid UTF-8 prefix ends on a character boundary.
proof fn lemma_prefix_ends_on_boundary(h: Seq<u8>, d: Seq<u8>)
    requires
        valid_utf8(h),
        valid_utf8(d),
        d.len() <= h.len(),
        h.subrange(0, d.len() as int) == d,
    ensures
        is_char_boundary(h, d.len() as int),
    decreases d.len(),
{
    if d.len() > 0 {
        assert forall|k: int| 0 <= k < d.len() implies h[k] == d[k] by {
            assert(h.subrange(0, d.len() as int)[k] == h[k]);
        }
        let l = length_of_first_scalar(d);
        assert(length_of_first_scalar(h) == l);
        let ph = pop_first_scalar(h);
        let pd = pop_first_scalar(d);
        assert(ph.subrange(0, pd.len() as int) =~= pd);
        lemma_prefix_ends_on_boundary(ph, pd);
    }
}

/// Past a character boundary `j`, the boundaries of the bytes from `j` on
/// are those of the whole, shifted by `j`.
proof fn lemma_boundary_shift(h: Seq<u8>, j: int, k: int)
    requires
        valid_utf8(h),
        0 <= j <= h.len(),
        is_char_boundary(h, j),
        0 <= k <= h.len() - j,
    ensures
        valid_utf8(h.subrange(j, h.len() as int)),
        is_char_boundary(h, j + k) == is_char_boundary(h.subrange(j, h.len() as int), k),
    decreases h.len(),
{
    valid_utf8_split(h, j);
    if j == 0 {
        assert(h.subrange(0, h.len() as int) =~= h);
    } else {
        let l = length_of_first_scalar(h);
        let ph = pop_first_scalar(h);
        assert(j >= l);
        lemma_boundary_shift(ph, j - l, k);
        assert(ph.subrange(j - l, ph.len() as int) =~= h.subrange(j, h.len() as int));
    }
}

/// In valid UTF-8, every byte occurrence of a non-empty valid UTF-8
/// delimiter starts and ends on character boundaries, so it is a match.
pub proof fn lemma_occurrence_is_match(hay: Seq<u8>, delim: Seq<u8>, j: int)
    requires
        valid_utf8(hay),
        valid_utf8(delim),
        delim.len() > 0,
        0 <= j,
        j + delim.len() <= hay.len(),
        hay.subrange(j, j + delim.len()) == delim,
    ensures
        matches_at(hay, delim, j),
{
    assert(hay[j] == delim[0]) by {
        assert(hay.subrange(j, j + delim.len())[0] == hay[j]);
    }
    is_char_boundary_iff_not_is_continuation_byte(hay, j);
    is_char_boundary_iff_not_is_continuation_byte(delim, 0);
    valid_utf8_split(hay, j);
    let rest = hay.subrange(j, hay.len() as int);
    assert(rest.subrange(0, delim.len() as int) =~= delim);
    lemma_prefix_ends_on_boundary(rest, delim);
    lemma_boundary_shift(hay, j, delim.len() as int);
}

/// No piece of a valid UTF-8 haystack split at a non-empty valid UTF-8
/// delimiter holds the delimiter's bytes anywhere.
pub proof fn lemma_pieces_hold_no_delimiter(hay: Seq<u8>, delim: Seq<u8>)
    requires
        valid_utf8(hay),
        valid_utf8(delim),
        delim.len() > 0,
    ensures
        forall|k: int, j: int|
            0 <= k < split_pieces(hay, delim).len() && 0 <= j && j + delim.len()
                <= split_pieces(hay, delim)[k].len() ==> #[trigger] split_pieces(hay, delim)[k].subrange(
                j,
                j + delim.len(),
            ) != delim,
    decreases hay.len(),
{
    lemma_find_from(hay, delim, 0);
    let ps = split_pieces(hay, delim);
    match find_from(hay, delim, 0) {
        Some(i) => {
            let rest = hay.subrange(i + delim.len(), hay.len() as int);
            valid_utf8_split(hay, i + delim.len());
            lemma_pieces_hold_no_delimiter(rest, delim);
            assert forall|k: int, j: int|
                0 <= k < ps.len() && 0 <= j && j + delim.len() <= ps[k].len() implies #[trigger] ps[k].subrange(
                j,
                j + delim.len(),
            ) != delim by {
                if k == 0 {
                    if ps[0].subrange(j, j + delim.len()) == delim {
                        assert(hay.subrange(j, j + delim.len()) =~= ps[0].subrange(
                            j,
                            j + delim.len(),
                        ));
                        lemma_occurrence_is_match(hay, delim, j);
                    }
                } else {
                    assert(ps[k] == split_pieces(rest, delim)[k - 1]);
                }
            }
        },
        None => {
            assert forall|k: int, j: int|
                0 <= k < ps.len() && 0 <= j && j + delim.len() <= ps[k].len() implies #[trigger] ps[k].subrange(
                j,
                j + delim.len(),
            ) != delim by {
                if ps[k].subrange(j, j + delim.len()) == delim {
                    lemma_occurrence_is_match(hay, delim, j);
                }
            }
        },
    }
}

/// Where the pieces of `split_pieces(hay, delim)` lie in `hay`, as byte
/// ranges `[start, end)`.
pub open spec fn split_spans(hay: Seq<u8>, delim: Seq<u8>) -> Seq<(int, int)>
    decreases hay.len(),
    when delim.len() > 0
{
    match find_from(hay, delim, 0) {
        Some(i) => {
            proof {
                lemma_find_from(hay, delim, 0);
            }
            let shift = i + delim.len();
            seq![(0int, i)] + split_spans(hay.subrange(shift, hay.len() as int), delim).map_values(
                |p: (int, int)| (p.0 + shift, p.1 + shift),
            )
        },
        None => seq![(0int, hay.len() as int)],
    }
}

/// `sp` gives, in order, the byte ranges of `hay` that the pieces `ps`
/// are: the first starts at 0, the last ends at the end, each piece is the
/// bytes of its range, and between two neighbours lies exactly `delim`.
pub open spec fn consecutive_pieces(
    hay: Seq<u8>,
    delim: Seq<u8>,
    ps: Seq<Seq<u8>>,
    sp: Seq<(int, int)>,
) -> bool {
    &&& sp.len() == ps.len()
    &&& sp.len() >= 1
    &&& sp[0].0 == 0
    &&& sp.last().1 == hay.len()
    &&& forall|k: int|
        0 <= k < sp.len() ==> 0 <= #[trigger] sp[k].0 <= sp[k].1 <= hay.len() && ps[k]
            == hay.subrange(sp[k].0, sp[k].1)
    &&& forall|k: int|
        0 <= k < sp.len() - 1 ==> #[trigger] sp[k].1 + delim.len() == sp[k + 1].0
            && hay.subrange(sp[k].1, sp[k + 1].0) == delim
}

proof fn lemma_consecutive_step(
    hay: Seq<u8>,
    delim: Seq<u8>,
    i: int,
    rps: Seq<Seq<u8>>,
    rsp: Seq<(int, int)>,
)
    requires
        0 <= i,
        i + delim.len() <= hay.len(),
        hay.subrange(i, i + delim.len()) == delim,
        consecutive_pieces(hay.subrange(i + delim.len(), hay.len() as int), delim, rps, rsp),
    ensures
        consecutive_pieces(
            hay,
            delim,
            seq![hay.subrange(0, i)] + rps,
            seq![(0int, i)] + rsp.map_values(
                |p: (int, int)| (p.0 + (i + delim.len()), p.1 + (i + delim.len())),
            ),
        ),
{
    let shift = i + delim.len();
    let rest = hay.subrange(shift, hay.len() as int);
    let ps = seq![hay.subrange(0, i)] + rps;
    let sp = seq![(0int, i)] + rsp.map_values(|p: (int, int)| (p.0 + shift, p.1 + shift));
    assert forall|k: int| 1 <= k < sp.len() implies sp[k] == (
        rsp[k - 1].0 + shift,
        rsp[k - 1].1 + shift,
    ) && ps[k] == rps[k - 1] by {}
    assert forall|k: int|
        0 <= k < sp.len() implies 0 <= #[trigger] sp[k].0 <= sp[k].1 <= hay.len() && ps[k]
            == hay.subrange(sp[k].0, sp[k].1) by {
        if k > 0 {
            assert(rps[k - 1] == rest.subrange(rsp[k - 1].0, rsp[k - 1].1));
            assert(rest.subrange(rsp[k - 1].0, rsp[k - 1].1) =~= hay.subrange(sp[k].0, sp[k].1));
        }
    }
    assert forall|k: int|
        0 <= k < sp.len() - 1 implies #[trigger] sp[k].1 + delim.len() == sp[k + 1].0
            && hay.subrange(sp[k].1, sp[k + 1].0) == delim by {
        if k > 0 {
            assert(rsp[k - 1].1 + delim.len() == rsp[k].0);
            assert(rest.subrange(rsp[k - 1].1, rsp[k].0) == delim);
            assert(rest.subrange(rsp[k - 1].1, rsp[k].0) =~= hay.subrange(sp[k].1, sp[k + 1].0));
        } else {
            assert(sp[1] == (rsp[0].0 + shift, rsp[0].1 + shift));
        }
    }
    assert(sp.last() == sp[sp.len() - 1]);
    assert(rsp.last() == rsp[rsp.len() - 1]);
}

/// The pieces of a split are consecutive stretches of the haystack, in
/// order, with exactly the delimiter between two neighbours.
pub proof fn lemma_pieces_are_consecutive(hay: Seq<u8>, delim: Seq<u8>)
    requires
        delim.len() > 0,
    ensures
        consecutive_pieces(hay, delim, split_pieces(hay, delim), split_spans(hay, delim)),
    decreases hay.len(),
{
    lemma_find_from(hay, delim, 0);
    match find_from(hay, delim, 0) {
        Some(i) => {
            let shift = i + delim.len();
            let rest = hay.subrange(shift, hay.len() as int);
            lemma_pieces_are_consecutive(rest, delim);
            lemma_consecutive_step(hay, delim, i, split_pieces(rest, delim), split_spans(rest, delim));
        },
        None => {
            assert(hay.subrange(0, hay.len() as int) =~= hay);
        },
    }
}

/// Splitting a string slice at a non-empty string delimiter: the pieces,
/// joined with the delimiter, give the haystack back; no piece holds the
/// delimiter's bytes anywhere; and the pieces are consecutive stretches of
/// the haystack, in order, with the delimiter between neighbours.
pub proof fn lemma_str_split(haystack: &str, delimiter: &str)
    requires
        delimiter.spec_bytes().len() > 0,
    ensures
        ({
            let h = haystack.spec_bytes();
            let d = delimiter.spec_bytes();
            let ps = split_pieces(h, d);
            &&& join_pieces(ps, d) == h
            &&& forall|k: int, j: int|
                0 <= k < ps.len() && 0 <= j && j + d.len() <= ps[k].len()
                    ==> #[trigger] ps[k].subrange(j, j + d.len()) != d
            &&& consecutive_pieces(h, d, ps, split_spans(h, d))
        }),
{
    let h = haystack.spec_bytes();
    let d = delimiter.spec_bytes();
    encode_utf8_valid_utf8(haystack@);
    encode_utf8_valid_utf8(delimiter@);
    lemma_split_then_join(h, d);
    lemma_pieces_hold_no_delimiter(h, d);
    lemma_pieces_are_consecutive(h, d);
}

/// Something that can be searched for in a string slice.
pub trait Delimiter {
    /// Where the next occurrence of the delimiter in `hay` starts and ends.
    spec fn spec_find_next(&self, hay: Seq<u8>) -> Option<(int, int)>;

    /// The byte range of the next occurrence of the delimiter in `s`.
    fn find_next(&self, s: &str) -> (r: Option<(usize, usize)>)
        ensures
            match r {
                Some((a, b)) => {
                    &&& self.spec_find_next(s.spec_bytes()) == Some((a as int, b as int))
                    &&& a <= b <= s.spec_bytes().len()
                    &&& is_char_boundary(s.spec_bytes(), a as int)
                    &&& is_char_boundary(s.spec_bytes(), b as int)
                },
                None => self.spec_find_next(s.spec_bytes()) is None,
            },
    ;

    /// Splitting at this delimiter ends on every haystack.
    spec fn spec_splits_finitely(&self) -> bool;

    /// The pieces a haystack splits into at this delimiter.
    spec fn spec_pieces(&self, hay: Seq<u8>) -> Seq<Seq<u8>>;

    /// The pieces are the bytes before the next occurrence followed by the
    /// pieces of what comes after it, or the whole haystack when there is
    /// no occurrence.
    proof fn lemma_pieces_step(&self, hay: Seq<u8>)
        requires
            self.spec_splits_finitely(),
        ensures
            match self.spec_find_next(hay) {
                Some((a, b)) => self.spec_pieces(hay) == seq![hay.subrange(0, a)]
                    + self.spec_pieces(hay.subrange(b, hay.len() as int)),
                None => self.spec_pieces(hay) == seq![hay],
            },
    ;
}

/// The byte offset of the first occurrence of `needle` in `hay`.
fn find_str(hay: &str, needle: &str) -> (r: Option<usize>)
    ensures
        hay.spec_bytes().len() <= usize::MAX,
        needle.spec_bytes().len() <= usize::MAX,
        match r {
            Some(i) => find_from(hay.spec_bytes(), needle.spec_bytes(), 0) == Some(i as int),
            None => find_from(hay.spec_bytes(), needle.spec_bytes(), 0) is None,
        },
{
    let hb = hay.as_bytes();
    let nb = needle.as_bytes();
    let hl: usize = hb.len();
    let nl: usize = nb.len();
    let ghost h = hay.spec_bytes();
    let ghost n = needle.spec_bytes();
    if nl > hl {
        assert(find_from(h, n, 0) is None);
        return None;
    }
    let mut i: usize = 0;
    loop
        invariant
            h == hay.spec_bytes(),
            n == needle.spec_bytes(),
            hb@ == h,
            nb@ == n,
            hl == h.len(),
            nl == n.len(),
            nl <= hl,
            i <= hl - nl,
            find_from(h, n, 0) == find_from(h, n, i as int),
        decreases hl - nl - i,
    {
        let mut j: usize = 0;
        let mut same: bool = true;
        while j < nl && same
            invariant
                hb@ == h,
                nb@ == n,
                hl == h.len(),
                nl == n.len(),
                i + nl <= hl,
                j <= nl,
                same <==> forall|k: int| 0 <= k < j ==> h[i + k] == n[k],
            decreases nl - j,
        {
            if hb[i + j] != nb[j] {
                same = false;
            }
            j = j + 1;
        }
        assert(same <==> h.subrange(i as int, i + nl) == n) by {
            if same {
                assert(h.subrange(i as int, i + nl) =~= n);
            }
            if h.subrange(i as int, i + nl) == n {
                assert forall|k: int| 0 <= k < nl implies h[i + k] == n[k] by {
                    assert(h.subrange(i as int, i + nl)[k] == h[i + k]);
                }
            }
        }
        if same && hay.is_char_boundary(i) && hay.is_char_boundary(i + nl) {
            assert(matches_at(h, n, i as int));
            return Some(i);
        }
        assert(!matches_at(h, n, i as int));
        if i == hl - nl {
            assert(find_from(h, n, i + 1) is None);
            return None;
        }
        i = i + 1;
    }
}

impl<'b> Delimiter for &'b str {
    open spec fn spec_find_next(&self, hay: Seq<u8>) -> Option<(int, int)> {
        match find_from(hay, (**self).spec_bytes(), 0) {
            Some(i) => Some((i, i + (**self).spec_bytes().len())),
            None => None,
        }
    }

    fn find_next(&self, s: &str) -> (r: Option<(usize, usize)>) {
        match find_str(s, *self) {
            Some(start) => {
                proof {
                    lemma_find_from(s.spec_bytes(), (**self).spec_bytes(), 0);
                }
                Some((start, start + self.len()))
            },
            None => None,
        }
    }

    /// An empty delimiter matches at the start forever.
    open spec fn spec_splits_finitely(&self) -> bool {
        (**self).spec_bytes().len() > 0
    }

    open spec fn spec_pieces(&self, hay: Seq<u8>) -> Seq<Seq<u8>> {
        split_pieces(hay, (**self).spec_bytes())
    }

    proof fn lemma_pieces_step(&self, hay: Seq<u8>) {
    }
}

impl Delimiter for char {
    /// A `char` delimiter is never found: the whole haystack is one piece.
    open spec fn spec_find_next(&self, hay: Seq<u8>) -> Option<(int, int)> {
        None
    }

    fn find_next(&self, s: &str) -> (r: Option<(usize, usize)>) {
        None
    }

    open spec fn spec_splits_finitely(&self) -> bool {
        true
    }

    open spec fn spec_pieces(&self, hay: Seq<u8>) -> Seq<Seq<u8>> {
        seq![hay]
    }

    proof fn lemma_pieces_step(&self, hay: Seq<u8>) {
    }
}

/// A split at a non-empty delimiter has at most one piece more than the
/// haystack has bytes.
pub proof fn lemma_split_pieces_len(hay: Seq<u8>, delim: Seq<u8>)
    requires
        delim.len() > 0,
    ensures
        split_pieces(hay, delim).len() <= hay.len() + 1,
    decreases hay.len(),
{
    lemma_find_from(hay, delim, 0);
    match find_from(hay, delim, 0) {
        Some(i) => {
            lemma_split_pieces_len(hay.subrange(i + delim.len(), hay.len() as int), delim);
        },
        None => {},
    }
}

/// An iterator over the pieces of a string slice between occurrences of a
/// delimiter.
pub struct StrSplit<'a, D> {
    remainder: Option<&'a str>,
    delimiter: D,
    haystack: Ghost<Seq<u8>>,
    handed: Ghost<Seq<Seq<u8>>>,
}

impl<'a, D: Delimiter> StrSplit<'a, D> {
    /// The bytes not yet handed out, or `None` once the last piece is gone.
    pub closed spec fn remainder(&self) -> Option<Seq<u8>> {
        match self.remainder {
            Some(r) => Some(r.spec_bytes()),
            None => None,
        }
    }

    /// The delimiter searched for.
    pub closed spec fn delimiter(&self) -> D {
        self.delimiter
    }

    /// The bytes of the whole haystack.
    pub closed spec fn haystack(&self) -> Seq<u8> {
        self.haystack@
    }

    /// The pieces handed out so far, in order.
    pub closed spec fn handed(&self) -> Seq<Seq<u8>> {
        self.handed@
    }

    /// The pieces still to be handed out.
    pub open spec fn remaining_pieces(&self) -> Seq<Seq<u8>> {
        match self.remainder() {
            Some(rem) => self.delimiter().spec_pieces(rem),
            None => Seq::empty(),
        }
    }

    /// The haystack is valid UTF-8, and where the delimiter splits finitely,
    /// the pieces handed out followed by those still to come are the pieces
    /// of the whole haystack.
    pub open spec fn wf(&self) -> bool {
        &&& valid_utf8(self.haystack())
        &&& self.delimiter().spec_splits_finitely() ==> self.handed() + self.remaining_pieces()
            == self.delimiter().spec_pieces(self.haystack())
    }

    /// A splitter over the whole of `haystack`.
    pub fn new(haystack: &'a str, delimiter: D) -> (split: Self)
        ensures
            split.wf(),
            split.remainder() == Some(haystack.spec_bytes()),
            split.delimiter() == delimiter,
            split.haystack() == haystack.spec_bytes(),
            split.handed() == Seq::<Seq<u8>>::empty(),
    {
        let ghost h = haystack.spec_bytes();
        proof {
            encode_utf8_valid_utf8(haystack@);
        }
        let split = StrSplit {
            remainder: Some(haystack),
            delimiter,
            haystack: Ghost(h),
            handed: Ghost(Seq::empty()),
        };
        assert(split.handed() + split.remaining_pieces() =~= split.remaining_pieces());
        split
    }

    /// The next piece: the bytes before the next occurrence of the
    /// delimiter, or all that is left when there is none; `None` after that.
    pub fn next(&mut self) -> (r: Option<&'a str>)
        requires
            old(self).wf(),
        ensures
            final(self).wf(),
            final(self).haystack() == old(self).haystack(),
            r is None ==> final(self).handed() == old(self).handed(),
            r matches Some(p) ==> final(self).handed() == old(self).handed().push(p.spec_bytes()),
            old(self).delimiter().spec_splits_finitely() ==> {
                &&& (r is Some <==> old(self).remaining_pieces().len() > 0)
                &&& r matches Some(p) ==> p.spec_bytes() == old(self).remaining_pieces()[0]
                    && final(self).remaining_pieces() == old(self).remaining_pieces().drop_first()
            },
            final(self).delimiter() == old(self).delimiter(),
            match old(self).remainder() {
                None => r is None && final(self).remainder() is None,
                Some(rem) => match old(self).delimiter().spec_find_next(rem) {
                    Some((a, b)) => {
                        &&& r is Some
                        &&& r.unwrap().spec_bytes() == rem.subrange(0, a)
                        &&& final(self).remainder() == Some(rem.subrange(b, rem.len() as int))
                        &&& rem == rem.subrange(0, a) + rem.subrange(a, b) + rem.subrange(
                            b,
                            rem.len() as int,
                        )
                    },
                    None => {
                        &&& r is Some
                        &&& r.unwrap().spec_bytes() == rem
                        &&& final(self).remainder() is None
                    },
                },
            },
    {
        match self.remainder {
            None => None,
            Some(remainder) => {
                match self.delimiter.find_next(remainder) {
                    Some((delim_start, delim_end)) => {
                        let (until_delim, _) = remainder.split_at(delim_start);
                        let (_, rest) = remainder.split_at(delim_end);
                        self.remainder = Some(rest);
                        proof {
                            let rem = remainder.spec_bytes();
                            self.handed@ = self.handed@.push(until_delim.spec_bytes());
                            if self.delimiter.spec_splits_finitely() {
                                self.delimiter.lemma_pieces_step(rem);
                                assert(self.handed() + self.remaining_pieces() =~= old(
                                    self,
                                ).handed() + old(self).remaining_pieces());
                            }
                            assert(rem =~= rem.subrange(0, delim_start as int) + rem.subrange(
                                delim_start as int,
                                delim_end as int,
                            ) + rem.subrange(delim_end as int, rem.len() as int));
                        }
                        Some(until_delim)
                    },
                    None => {
                        let r = self.remainder.take();
                        proof {
                            let rem = remainder.spec_bytes();
                            self.handed@ = self.handed@.push(rem);
                            if self.delimiter.spec_splits_finitely() {
                                self.delimiter.lemma_pieces_step(rem);
                                assert(self.handed() + self.remaining_pieces() =~= old(
                                    self,
                                ).handed() + old(self).remaining_pieces());
                            }
                        }
                        r
                    },
                }
            },
        }
    }
}

impl<'a, 'b> StrSplit<'a, &'b str> {
    /// Over any run of `next` on a splitter made by `new` with a non-empty
    /// `&str` delimiter: the pieces handed out so far followed by those
    /// still to come are `split_pieces` of the haystack; joined with the
    /// delimiter they give the haystack back; no piece holds the delimiter's
    /// bytes; they are consecutive stretches of the haystack in order; and
    /// there are at most one more of them than the haystack has bytes, so
    /// `next` hands out at most that many pieces before `None`.
    pub proof fn lemma_run(&self)
        requires
            self.wf(),
            self.delimiter().spec_bytes().len() > 0,
        ensures
            ({
                let h = self.haystack();
                let d = self.delimiter().spec_bytes();
                let ps = split_pieces(h, d);
                &&& self.handed() + self.remaining_pieces() == ps
                &&& join_pieces(ps, d) == h
                &&& forall|k: int, j: int|
                    0 <= k < ps.len() && 0 <= j && j + d.len() <= ps[k].len()
                        ==> #[trigger] ps[k].subrange(j, j + d.len()) != d
                &&& consecutive_pieces(h, d, ps, split_spans(h, d))
                &&& self.handed().len() + self.remaining_pieces().len() <= h.len() + 1
            }),
    {
        let h = self.haystack();
        let d = self.delimiter().spec_bytes();
        encode_utf8_valid_utf8(self.delimiter()@);
        lemma_split_then_join(h, d);
        lemma_pieces_hold_no_delimiter(h, d);
        lemma_pieces_are_consecutive(h, d);
        lemma_split_pieces_len(h, d);
    }

    /// With a non-empty `&str` delimiter, each call of `next` that finds the
    /// delimiter leaves a strictly shorter remainder; one that does not find
    /// it leaves none.
    pub proof fn lemma_next_shrinks(rem: Seq<u8>, delimiter: &str)
        requires
            delimiter.spec_bytes().len() > 0,
        ensures
            delimiter.spec_find_next(rem) matches Some((a, b)) ==> 0 <= a < b <= rem.len(),
    {
        lemma_find_from(rem, delimiter.spec_bytes(), 0);
    }
}

} // verus!
