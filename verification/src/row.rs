use vstd::prelude::*;
use vstd::seq_lib::lemma_flatten_concat;

use unicode_segmentation::UnicodeSegmentation;

use crate::editor::SearchDirection;
use crate::filetype::HighlightingOptions;
use crate::highlighting::Type;
use crate::highlighting::color_escape;
use crate::highlighting::color_marker;
use crate::highlighting::reset_fg_escape;
use crate::highlighting::reset_marker;

verus! {

broadcast use vstd::seq_lib::group_seq_properties;

/// The grapheme-cluster segmentation of a character sequence, as the
/// extended-grapheme-cluster algorithm of unicode_segmentation yields it.
pub uninterp spec fn grapheme_split(s: Seq<char>) -> Seq<Seq<char>>;

/// Relies on unicode_segmentation's `UnicodeSegmentation::graphemes`:
/// it yields the extended grapheme clusters of the string, nonempty
/// pieces whose concatenation is the whole string.
#[verifier::external_body]
fn grapheme_clusters(slice: &str) -> (r: Vec<String>)
    ensures
        r.deep_view() == grapheme_split(slice@),
        r.deep_view().flatten() == slice@,
        forall|i: int| 0 <= i < r.deep_view().len() ==> r.deep_view()[i].len() > 0,
{
    let mut clusters: Vec<String> = Vec::new();
    for grapheme in UnicodeSegmentation::graphemes(slice, true) {
        clusters.push(grapheme.to_string());
    }
    clusters
}

/// Relies on std's `String::from(char)`: the returned string holds
/// exactly the one character.
#[verifier::external_body]
fn char_to_string(c: char) -> (s: String)
    ensures
        s@ == seq![c],
{
    String::from(c)
}

/// One line of text, held as its grapheme clusters, together with the
/// highlight category of each cluster (empty until `highlight` runs).
pub struct Row {
    clusters: Vec<String>,
    highlighting: Vec<Type>,
}

impl View for Row {
    type V = Seq<Seq<char>>;

    /// A row is modelled as the sequence of its grapheme clusters, each
    /// a sequence of characters.
    closed spec fn view(&self) -> Seq<Seq<char>> {
        self.clusters.deep_view()
    }
}

impl DeepView for Row {
    type V = Seq<Seq<char>>;

    open spec fn deep_view(&self) -> Seq<Seq<char>> {
        self.view()
    }
}

impl Row {
    /// Every stored cluster is nonempty: a grapheme cluster always
    /// holds at least one character.
    pub open spec fn wf(self) -> bool {
        forall|i: int| 0 <= i < self@.len() ==> self@[i].len() > 0
    }

    /// The characters of the line, clusters concatenated.
    pub open spec fn text(self) -> Seq<char> {
        self@.flatten()
    }

    /// The highlight categories currently attached to the row.
    pub closed spec fn hl(self) -> Seq<Type> {
        self.highlighting@
    }

    /// Builds a row from a text slice, segmenting it into grapheme
    /// clusters once.
    pub fn from(slice: &str) -> (r: Row)
        ensures
            r@ == grapheme_split(slice@),
            r.text() == slice@,
            r.wf(),
            r.hl() == Seq::<Type>::empty(),
    {
        let r = Row { clusters: grapheme_clusters(slice), highlighting: Vec::new() };
        proof {
            assert(r.hl() =~= Seq::<Type>::empty());
        }
        r
    }

    /// The grapheme count of the row.
    pub fn len(&self) -> (l: usize)
        ensures
            l == self@.len(),
    {
        self.clusters.len()
    }

    pub fn is_empty(&self) -> (b: bool)
        ensures
            b == (self@.len() == 0),
    {
        self.clusters.len() == 0
    }

    /// The highlight categories, one per grapheme after a highlight
    /// pass (empty before one).
    pub fn highlighting(&self) -> (h: &Vec<Type>)
        ensures
            h@ == self.hl(),
    {
        &self.highlighting
    }

    /// Inserts `c` as a new grapheme cluster at grapheme index `at`; an
    /// out-of-range `at` appends.  The highlight array is invalidated.
    pub fn insert(&mut self, at: usize, c: char)
        requires
            old(self).wf(),
        ensures
            final(self).wf(),
            final(self)@ == old(self)@.insert(
                if at <= old(self)@.len() {
                    at as int
                } else {
                    old(self)@.len() as int
                },
                seq![c],
            ),
            final(self)@.len() == old(self)@.len() + 1,
            final(self).hl() == Seq::<Type>::empty(),
    {
        let i: usize = if at <= self.clusters.len() {
            at
        } else {
            self.clusters.len()
        };
        self.clusters.insert(i, char_to_string(c));
        self.highlighting = Vec::new();
        proof {
            assert(final(self)@ =~= old(self)@.insert(i as int, seq![c]));
            assert(final(self).hl() =~= Seq::<Type>::empty());
        }
    }

    /// Removes the grapheme cluster at `at`; out of range, the row is
    /// unchanged.  On a change the highlight array is invalidated.
    pub fn delete(&mut self, at: usize)
        requires
            old(self).wf(),
        ensures
            final(self).wf(),
            at < old(self)@.len() ==> final(self)@ == old(self)@.remove(at as int) && final(self).hl()
                == Seq::<Type>::empty(),
            at >= old(self)@.len() ==> *final(self) == *old(self),
    {
        if at >= self.clusters.len() {
            return ;
        }
        self.clusters.remove(at);
        self.highlighting = Vec::new();
        proof {
            assert(final(self)@ =~= old(self)@.remove(at as int));
            assert(final(self).hl() =~= Seq::<Type>::empty());
        }
    }

    /// Appends the clusters of `new` after this row's; the highlight
    /// array is invalidated.
    pub fn append(&mut self, new: &Row)
        requires
            old(self).wf(),
            new.wf(),
        ensures
            final(self).wf(),
            final(self)@ == old(self)@ + new@,
            final(self).hl() == Seq::<Type>::empty(),
    {
        let mut i: usize = 0;
        while i < new.clusters.len()
            invariant
                old(self).wf(),
                new.wf(),
                i <= new@.len(),
                self@ =~= old(self)@ + new@.take(i as int),
            decreases new@.len() - i,
        {
            let ghost prev = self@;
            let ghost prevc = self.clusters@;
            self.clusters.push(new.clusters[i].clone());
            proof {
                assert forall|j: int| 0 <= j < self@.len() implies self@[j] == prev.push(
                    new@[i as int],
                )[j] by {
                    if j < prevc.len() {
                        assert(self.clusters@[j] == prevc[j]);
                    } else {
                        assert(self.clusters@[j] == new.clusters@[i as int]);
                    }
                }
                assert(self@ =~= prev.push(new@[i as int]));
                assert(new@.take(i + 1 as int) =~= new@.take(i as int).push(new@[i as int]));
                assert(self@ =~= old(self)@ + new@.take(i + 1 as int));
            }
            i += 1;
        }
        self.highlighting = Vec::new();
        proof {
            assert(new@.take(new@.len() as int) =~= new@);
            assert(final(self)@ =~= old(self)@ + new@);
            assert(final(self).hl() =~= Seq::<Type>::empty());
        }
    }

    /// Splits the row at grapheme index `at`: this row keeps the
    /// clusters before `at`, the returned row takes the rest.  An
    /// out-of-range `at` leaves everything here.  Both highlight arrays
    /// are invalidated.
    pub fn split(&mut self, at: usize) -> (other: Row)
        requires
            old(self).wf(),
        ensures
            final(self).wf(),
            other.wf(),
            final(self)@ == old(self)@.take(
                if at <= old(self)@.len() {
                    at as int
                } else {
                    old(self)@.len() as int
                },
            ),
            other@ == old(self)@.skip(
                if at <= old(self)@.len() {
                    at as int
                } else {
                    old(self)@.len() as int
                },
            ),
            final(self).hl() == Seq::<Type>::empty(),
            other.hl() == Seq::<Type>::empty(),
    {
        let i: usize = if at <= self.clusters.len() {
            at
        } else {
            self.clusters.len()
        };
        let tail = self.clusters.split_off(i);
        self.highlighting = Vec::new();
        let other = Row { clusters: tail, highlighting: Vec::new() };
        proof {
            assert(final(self)@ =~= old(self)@.take(i as int));
            assert(other@ =~= old(self)@.skip(i as int));
            assert(final(self).hl() =~= Seq::<Type>::empty());
            assert(other.hl() =~= Seq::<Type>::empty());
        }
        other
    }

    /// The row's text as one string, clusters concatenated.
    pub fn as_string(&self) -> (s: String)
        ensures
            s@ == self.text(),
    {
        let mut s = String::new();
        let mut i: usize = 0;
        proof {
            assert(self@.take(0) =~= Seq::<Seq<char>>::empty());
            assert(s@ =~= self@.take(0).flatten());
        }
        while i < self.clusters.len()
            invariant
                i <= self@.len(),
                s@ == self@.take(i as int).flatten(),
            decreases self@.len() - i,
        {
            s.append(self.clusters[i].as_str());
            proof {
                assert(self@.take(i + 1 as int) =~= self@.take(i as int).push(self@[i as int]));
                self@.take(i as int).lemma_flatten_push(self@[i as int]);
            }
            i += 1;
        }
        proof {
            assert(self@.take(self@.len() as int) =~= self@);
        }
        s
    }

    /// The storage bytes of the row: its text, UTF-8 encoded.
    pub fn as_bytes(&self) -> (b: Vec<u8>)
        ensures
            b@ == vstd::utf8::encode_utf8(self.text()),
    {
        let s = self.as_string();
        s.as_str().as_bytes_vec()
    }
}

/// `q` occurs at grapheme index `g` of `s`, lying entirely inside the
/// window of clusters `[g, w_end)`.
pub open spec fn match_at(s: Seq<Seq<char>>, q: Seq<char>, g: int, w_end: int) -> bool {
    q.len() > 0 && 0 <= g < w_end <= s.len() && q.is_prefix_of(s.subrange(g, w_end).flatten())
}

/// Splitting a run of clusters splits its flattened text.
proof fn lemma_flatten_split(s: Seq<Seq<char>>, a: int, b: int, c: int)
    requires
        0 <= a <= b <= c <= s.len(),
    ensures
        s.subrange(a, c).flatten() == s.subrange(a, b).flatten() + s.subrange(b, c).flatten(),
{
    assert(s.subrange(a, c) =~= s.subrange(a, b) + s.subrange(b, c));
    lemma_flatten_concat(s.subrange(a, b), s.subrange(b, c));
}

/// Within the window `[from, w_end)`, `q` starts at the character
/// offset of cluster `from + k` exactly when it matches at that cluster.
proof fn lemma_window_match(s: Seq<Seq<char>>, q: Seq<char>, from: int, w_end: int, k: int)
    requires
        0 <= from <= w_end <= s.len(),
        0 <= k < w_end - from,
        q.len() > 0,
    ensures
        s.subrange(from, from + k).flatten().len() <= s.subrange(from, w_end).flatten().len(),
        q.is_prefix_of(
            s.subrange(from, w_end).flatten().skip(
                s.subrange(from, from + k).flatten().len() as int,
            ),
        ) == match_at(s, q, from + k, w_end),
{
    lemma_flatten_split(s, from, from + k, w_end);
    let fore = s.subrange(from, from + k).flatten();
    let aft = s.subrange(from + k, w_end).flatten();
    assert(s.subrange(from, w_end).flatten().skip(fore.len() as int) =~= aft);
}

impl Row {
    /// The characters of the clusters `[from, to)` in one flat list,
    /// beside the character offset at which each of those clusters
    /// starts.
    fn window_chars(&self, from: usize, to: usize) -> (r: (Vec<char>, Vec<usize>))
        requires
            self.wf(),
            from <= to <= self@.len(),
        ensures
            r.0@ == self@.subrange(from as int, to as int).flatten(),
            r.1@.len() == to - from,
            forall|k: int|
                0 <= k < r.1@.len() ==> r.1@[k] == self@.subrange(
                    from as int,
                    from + k,
                ).flatten().len(),
    {
        let mut chars: Vec<char> = Vec::new();
        let mut starts: Vec<usize> = Vec::new();
        let mut k: usize = from;
        proof {
            assert(self@.subrange(from as int, from as int) =~= Seq::<Seq<char>>::empty());
            assert(chars@ =~= self@.subrange(from as int, from as int).flatten());
        }
        while k < to
            invariant
                self.wf(),
                from <= k <= to <= self@.len(),
                chars@ == self@.subrange(from as int, k as int).flatten(),
                starts@.len() == k - from,
                forall|t: int|
                    0 <= t < starts@.len() ==> starts@[t] == self@.subrange(
                        from as int,
                        from + t,
                    ).flatten().len(),
            decreases to - k,
        {
            starts.push(chars.len());
            let cl: &String = &self.clusters[k];
            proof {
                assert(cl@ == self@[k as int]);
            }
            let clen: usize = cl.as_str().unicode_len();
            let mut j: usize = 0;
            proof {
                assert(self@[k as int].take(0) =~= Seq::<char>::empty());
                assert(chars@ =~= self@.subrange(from as int, k as int).flatten() + self@[
                    k as int].take(0));
            }
            while j < clen
                invariant
                    self.wf(),
                    from <= k < to <= self@.len(),
                    cl@ == self@[k as int],
                    clen == cl@.len(),
                    j <= clen,
                    chars@ == self@.subrange(from as int, k as int).flatten() + self@[
                        k as int].take(j as int),
                decreases clen - j,
            {
                chars.push(cl.as_str().get_char(j));
                proof {
                    assert(self@[k as int].take(j + 1 as int) =~= self@[k as int].take(
                        j as int,
                    ).push(self@[k as int][j as int]));
                }
                j += 1;
            }
            proof {
                assert(self@[k as int].take(clen as int) =~= self@[k as int]);
                assert(self@.subrange(from as int, k + 1 as int) =~= self@.subrange(
                    from as int,
                    k as int,
                ).push(self@[k as int]));
                self@.subrange(from as int, k as int).lemma_flatten_push(self@[k as int]);
            }
            k += 1;
        }
        (chars, starts)
    }
}

/// True iff `query` occurs in `chars` starting at offset `off`.
fn matches_here(chars: &Vec<char>, off: usize, query: &str, qlen: usize) -> (b: bool)
    requires
        qlen == query@.len(),
        off <= chars@.len(),
    ensures
        b == query@.is_prefix_of(chars@.skip(off as int)),
{
    if qlen > chars.len() - off {
        proof {
            assert(chars@.skip(off as int).len() < query@.len());
        }
        return false;
    }
    let mut qi: usize = 0;
    while qi < qlen
        invariant
            qlen == query@.len(),
            off + qlen <= chars@.len(),
            chars@.len() <= usize::MAX,
            qi <= qlen,
            forall|t: int| 0 <= t < qi ==> chars@[off + t] == query@[t],
        decreases qlen - qi,
    {
        proof {
            assert(off + qi < chars@.len());
        }
        if chars[off + qi] != query.get_char(qi) {
            proof {
                assert(chars@.skip(off as int)[qi as int] == chars@[off + qi]);
                assert(!query@.is_prefix_of(chars@.skip(off as int))) by {
                    if query@.is_prefix_of(chars@.skip(off as int)) {
                        assert(query@ =~= chars@.skip(off as int).subrange(
                            0,
                            query@.len() as int,
                        ));
                        assert(query@[qi as int] == chars@.skip(off as int)[qi as int]);
                    }
                }
            }
            return false;
        }
        qi += 1;
    }
    proof {
        assert(query@ =~= chars@.skip(off as int).subrange(0, query@.len() as int));
    }
    true
}

impl Row {
    /// Directional in-row search.  Forward: the first occurrence of
    /// `query` at or after grapheme index `at`.  Backward: the last
    /// occurrence strictly before `at`.  An empty query, or `at` past
    /// the end, finds nothing, and a result is returned exactly when an
    /// occurrence exists in the searched window.
    pub fn find(&self, query: &str, at: usize, direction: SearchDirection) -> (r: Option<usize>)
        requires
            self.wf(),
        ensures
            match r {
                Option::Some(k) => {
                    &&& direction is Forward ==> at <= k < self@.len() && match_at(
                        self@,
                        query@,
                        k as int,
                        self@.len() as int,
                    ) && (forall|j: int|
                        at <= j < k ==> !match_at(self@, query@, j, self@.len() as int))
                    &&& direction is Backward ==> k < at && match_at(
                        self@,
                        query@,
                        k as int,
                        at as int,
                    ) && (forall|j: int| k < j < at ==> !match_at(self@, query@, j, at as int))
                },
                Option::None => {
                    &&& direction is Forward ==> forall|j: int|
                        at <= j < self@.len() ==> !match_at(self@, query@, j, self@.len() as int)
                    &&& direction is Backward ==> forall|j: int|
                        0 <= j < at ==> !match_at(self@, query@, j, at as int)
                },
            },
    {
        let n = self.clusters.len();
        let qlen = query.unicode_len();
        if at > n || qlen == 0 {
            return None;
        }
        let start: usize = if direction == SearchDirection::Forward {
            at
        } else {
            0
        };
        let w_end: usize = if direction == SearchDirection::Forward {
            n
        } else {
            at
        };
        let (chars, starts) = self.window_chars(start, w_end);
        let m = w_end - start;
        if direction == SearchDirection::Forward {
            let mut k: usize = 0;
            while k < m
                invariant
                    direction is Forward,
                    self.wf(),
                    qlen == query@.len() > 0,
                    start == at,
                    w_end == self@.len(),
                    at <= w_end,
                    m == w_end - start,
                    k <= m,
                    chars@ == self@.subrange(start as int, w_end as int).flatten(),
                    starts@.len() == m,
                    forall|t: int|
                        0 <= t < m ==> starts@[t] == self@.subrange(
                            start as int,
                            start + t,
                        ).flatten().len(),
                    forall|j: int|
                        start <= j < start + k ==> !(#[trigger] match_at(
                            self@,
                            query@,
                            j,
                            w_end as int,
                        )),
                decreases m - k,
            {
                proof {
                    lemma_window_match(self@, query@, start as int, w_end as int, k as int);
                }
                if matches_here(&chars, starts[k], query, qlen) {
                    return Some(start + k);
                }
                k += 1;
            }
            return None;
        } else {
            let mut k: usize = m;
            while k > 0
                invariant
                    direction is Backward,
                    self.wf(),
                    qlen == query@.len() > 0,
                    start == 0,
                    w_end == at <= self@.len(),
                    m == w_end,
                    k <= m,
                    chars@ == self@.subrange(start as int, w_end as int).flatten(),
                    starts@.len() == m,
                    forall|t: int|
                        0 <= t < m ==> starts@[t] == self@.subrange(
                            start as int,
                            start + t,
                        ).flatten().len(),
                    forall|j: int|
                        k <= j < m ==> !(#[trigger] match_at(self@, query@, j, at as int)),
                decreases k,
            {
                k -= 1;
                proof {
                    lemma_window_match(self@, query@, start as int, w_end as int, k as int);
                }
                if matches_here(&chars, starts[k], query, qlen) {
                    return Some(k);
                }
            }
            return None;
        }
    }
}

/// The first grapheme index at or after `g` where `q` matches, if any.
pub open spec fn first_match_from(s: Seq<Seq<char>>, q: Seq<char>, g: int) -> Option<int>
    decreases s.len() - g,
{
    if g >= s.len() {
        Option::None
    } else if match_at(s, q, g, s.len() as int) {
        Option::Some(g)
    } else {
        first_match_from(s, q, g + 1)
    }
}

/// How many clusters, starting at `m`, it takes to cover `need`
/// characters (stopping at the end of the line).
pub open spec fn covered(s: Seq<Seq<char>>, m: int, need: int) -> int
    decreases s.len() - m,
{
    if need <= 0 || m < 0 || m >= s.len() {
        0
    } else {
        1 + covered(s, m + 1, need - s[m].len())
    }
}

/// `hl` with the clusters `[a, b)` overlaid with the `Match` category.
pub open spec fn mark_range(hl: Seq<Type>, a: int, b: int) -> Seq<Type> {
    Seq::new(
        hl.len(),
        |i: int|
            if a <= i < b {
                Type::Match
            } else {
                hl[i]
            },
    )
}

/// The highlight array after overlaying every nonoverlapping occurrence
/// of `q`, scanning forward from `from` and resuming each search just
/// past the clusters the previous match covered.
pub open spec fn match_overlay(s: Seq<Seq<char>>, hl: Seq<Type>, q: Seq<char>, from: int) -> Seq<
    Type,
>
    decreases s.len() - from,
    via match_overlay_decreases
{
    if q.len() == 0 {
        hl
    } else {
        match first_match_from(s, q, from) {
            Option::Some(m) => {
                let n = covered(s, m, q.len() as int);
                match_overlay(s, mark_range(hl, m, m + n), q, m + n)
            },
            Option::None => hl,
        }
    }
}

#[via_fn]
proof fn match_overlay_decreases(s: Seq<Seq<char>>, hl: Seq<Type>, q: Seq<char>, from: int) {
    lemma_first_match_from_range(s, q, from);
    if q.len() > 0 {
        match first_match_from(s, q, from) {
            Option::Some(m) => {
                lemma_covered_bounds(s, m + 1, q.len() - s[m].len());
                assert(covered(s, m, q.len() as int) == 1 + covered(s, m + 1, q.len() - s[m].len()));
            },
            Option::None => {},
        }
    }
}

/// A found first match lies in `[g, s.len())`, matches there, and
/// nothing matches earlier; absence means nothing matches from `g` on.
#[verifier::spinoff_prover]
#[verifier::rlimit(50)]
proof fn lemma_first_match_from_range(s: Seq<Seq<char>>, q: Seq<char>, g: int)
    ensures
        match first_match_from(s, q, g) {
            Option::Some(m) => g <= m < s.len() && match_at(s, q, m, s.len() as int) && (forall|
                j: int,
            | g <= j < m ==> !match_at(s, q, j, s.len() as int)),
            Option::None => forall|j: int| g <= j < s.len() ==> !match_at(s, q, j, s.len() as int),
        },
    decreases s.len() - g,
{
    if g >= s.len() {
    } else if match_at(s, q, g, s.len() as int) {
    } else {
        lemma_first_match_from_range(s, q, g + 1);
    }
}

/// A match at `k` with nothing earlier pins the first match to `k`.
proof fn lemma_first_match_is(s: Seq<Seq<char>>, q: Seq<char>, g: int, k: int)
    requires
        0 <= g <= k,
        match_at(s, q, k, s.len() as int),
        forall|j: int| g <= j < k ==> !match_at(s, q, j, s.len() as int),
    ensures
        first_match_from(s, q, g) == Option::Some(k),
{
    lemma_first_match_from_range(s, q, g);
    match first_match_from(s, q, g) {
        Option::Some(m) => {
            if m < k {
                assert(!match_at(s, q, m, s.len() as int));
            }
            if k < m {
                assert(!match_at(s, q, k, s.len() as int));
            }
        },
        Option::None => {
            assert(!match_at(s, q, k, s.len() as int));
        },
    }
}

/// No match from `g` on means there is no first match.
proof fn lemma_first_match_none(s: Seq<Seq<char>>, q: Seq<char>, g: int)
    requires
        forall|j: int| g <= j < s.len() ==> !match_at(s, q, j, s.len() as int),
    ensures
        first_match_from(s, q, g) is None,
{
    lemma_first_match_from_range(s, q, g);
    match first_match_from(s, q, g) {
        Option::Some(m) => {
            assert(!match_at(s, q, m, s.len() as int));
        },
        Option::None => {},
    }
}

/// The cluster count a match covers never runs past the line's end.
proof fn lemma_covered_bounds(s: Seq<Seq<char>>, m: int, need: int)
    requires
        0 <= m <= s.len(),
    ensures
        0 <= covered(s, m, need) <= s.len() - m,
    decreases s.len() - m,
{
    if need <= 0 || m >= s.len() {
    } else {
        lemma_covered_bounds(s, m + 1, need - s[m].len());
    }
}

impl Row {
    /// Overlays the `Match` category on the clusters covered by every
    /// nonoverlapping occurrence of `word`, scanning left to right and
    /// resuming each search immediately after the previous match.
    #[verifier::rlimit(100)]
    pub fn highlight_match(&mut self, word: Option<&str>)
        requires
            old(self).wf(),
            old(self).hl().len() == old(self)@.len(),
        ensures
            final(self)@ == old(self)@,
            final(self).wf(),
            final(self).hl().len() == old(self)@.len(),
            match word {
                Option::Some(w) => final(self).hl() == match_overlay(
                    old(self)@,
                    old(self).hl(),
                    w@,
                    0,
                ),
                Option::None => final(self).hl() == old(self).hl(),
            },
    {
        let w: &str = match word {
            Some(w) => w,
            None => {
                return ;
            },
        };
        let wlen = w.unicode_len();
        if wlen == 0 {
            return ;
        }
        let n = self.clusters.len();
        let mut idx: usize = 0;
        let mut done: bool = false;
        while !done
            invariant
                self.wf(),
                self@ == old(self)@,
                self.hl().len() == self@.len(),
                n == self@.len(),
                idx <= n,
                wlen == w@.len(),
                wlen > 0,
                match_overlay(old(self)@, old(self).hl(), w@, 0) == match_overlay(
                    self@,
                    self.hl(),
                    w@,
                    idx as int,
                ),
                done ==> match_overlay(self@, self.hl(), w@, idx as int) == self.hl(),
            decreases self@.len() - idx + (if done {
                0int
            } else {
                1int
            }),
        {
            let found = self.find(w, idx, SearchDirection::Forward);
            match found {
                None => {
                    proof {
                        lemma_first_match_none(self@, w@, idx as int);
                    }
                    done = true;
                },
                Some(m) => {
                    proof {
                        lemma_first_match_is(self@, w@, idx as int, m as int);
                    }
                    let ghost hl0 = self.hl();
                    let j = self.mark_span(m, wlen);
                    proof {
                        assert(match_overlay(self@, hl0, w@, idx as int) == match_overlay(
                            self@,
                            mark_range(hl0, m as int, j as int),
                            w@,
                            j as int,
                        ));
                    }
                    idx = j;
                },
            }
        }
    }

    /// Overlays `Match` on the clusters from `m` that a match of
    /// `need` characters covers, and returns the index just past them.
    fn mark_span(&mut self, m: usize, need: usize) -> (j: usize)
        requires
            old(self).wf(),
            old(self).hl().len() == old(self)@.len(),
            m < old(self)@.len(),
            need > 0,
        ensures
            final(self)@ == old(self)@,
            final(self).hl() == mark_range(old(self).hl(), m as int, j as int),
            final(self).hl().len() == old(self)@.len(),
            j == m + covered(old(self)@, m as int, need as int),
            m < j <= old(self)@.len(),
    {
        let n = self.clusters.len();
        let ghost hl0 = self.hl();
        let mut j: usize = m;
        let mut left: usize = need;
        proof {
            lemma_covered_bounds(self@, m as int, need as int);
            assert(self.hl() =~= mark_range(hl0, m as int, m as int));
        }
        while left > 0 && j < n
            invariant
                self.wf(),
                self@ == old(self)@,
                n == self@.len(),
                self.hl().len() == self@.len(),
                hl0 == old(self).hl(),
                hl0.len() == self@.len(),
                m <= j <= n,
                covered(self@, m as int, need as int) == (j - m) + covered(
                    self@,
                    j as int,
                    left as int,
                ),
                self.hl() == mark_range(hl0, m as int, j as int),
            decreases n - j,
        {
            self.highlighting[j] = Type::Match;
            let cl_len = self.clusters[j].as_str().unicode_len();
            proof {
                assert(self.hl() =~= mark_range(hl0, m as int, j + 1 as int));
                assert(cl_len == self@[j as int].len());
                assert(covered(self@, j as int, left as int) == 1 + covered(
                    self@,
                    j + 1 as int,
                    left - cl_len,
                ));
                if cl_len >= left {
                    assert(covered(self@, j + 1 as int, left - cl_len) == 0);
                    assert(covered(self@, j + 1 as int, 0int) == 0);
                }
            }
            left = if cl_len >= left {
                0
            } else {
                left - cl_len
            };
            j += 1;
        }
        proof {
            assert(covered(self@, j as int, left as int) == 0);
            assert(covered(self@, m as int, need as int) == j - m);
            lemma_covered_bounds(self@, m + 1 as int, need - self@[m as int].len());
            assert(covered(self@, m as int, need as int) == 1 + covered(
                self@,
                m + 1 as int,
                need - self@[m as int].len(),
            ));
            assert(j - m >= 1);
        }
        j
    }
}

/// The first character of each cluster: the classifier's input.
pub open spec fn first_chars(s: Seq<Seq<char>>) -> Seq<char> {
    Seq::new(s.len(), |i: int| s[i][0])
}

/// An ASCII decimal digit.
pub open spec fn is_digit(c: char) -> bool {
    48 <= c as int && c as int <= 57
}

/// ASCII whitespace: space, tab, line feed, form feed, carriage return.
pub open spec fn is_ascii_whitespace(c: char) -> bool {
    c == ' ' || c == '\t' || c == '\n' || c == '\u{c}' || c == '\r'
}

fn digit(c: char) -> (b: bool)
    ensures
        b == is_digit(c),
{
    let u = c as u32;
    48 <= u && u <= 57
}

fn whitespace(c: char) -> (b: bool)
    ensures
        b == is_ascii_whitespace(c),
{
    c == ' ' || c == '\t' || c == '\n' || c == '\u{c}' || c == '\r'
}

/// The length of the character-literal token starting at `i`: a quote,
/// a one- or (escaped) two-character body, and a closing quote; 0 if
/// the shape is not there.
pub open spec fn char_lit_len(opts: HighlightingOptions, cs: Seq<char>, i: int) -> int {
    if opts.spec_characters() && 0 <= i < cs.len() && cs[i] == '\'' && i + 1 < cs.len() {
        let close = if cs[i + 1] == '\\' {
            i + 3
        } else {
            i + 2
        };
        if close < cs.len() && cs[close] == '\'' {
            close - i + 1
        } else {
            0
        }
    } else {
        0
    }
}

/// The length of the line-comment token starting at `i`: two slashes
/// consume the rest of the line; 0 if none.
pub open spec fn comment_len(opts: HighlightingOptions, cs: Seq<char>, i: int) -> int {
    if opts.spec_comments() && 0 <= i < cs.len() && cs[i] == '/' && i + 1 < cs.len() && cs[i + 1]
        == '/' {
        cs.len() - i
    } else {
        0
    }
}

/// The first index at or after `i` holding `c`, or the end of `cs`.
pub open spec fn scan_for(cs: Seq<char>, i: int, c: char) -> int
    decreases cs.len() - i,
{
    if i >= cs.len() {
        cs.len() as int
    } else if cs[i] == c {
        i
    } else {
        scan_for(cs, i + 1, c)
    }
}

pub proof fn lemma_scan_for_range(cs: Seq<char>, i: int, c: char)
    requires
        0 <= i <= cs.len(),
    ensures
        i <= scan_for(cs, i, c) <= cs.len(),
        scan_for(cs, i, c) < cs.len() ==> cs[scan_for(cs, i, c)] == c,
    decreases cs.len() - i,
{
    if i >= cs.len() {
    } else if cs[i] == c {
    } else {
        lemma_scan_for_range(cs, i + 1, c);
    }
}

/// The length of the quoted-string token starting at `i`: through the
/// closing quote, or through the end of the line when unterminated;
/// 0 if none starts here.
pub open spec fn string_len(opts: HighlightingOptions, cs: Seq<char>, i: int) -> int {
    if opts.spec_strings() && 0 <= i < cs.len() && cs[i] == '"' {
        let close = scan_for(cs, i + 1, '"');
        if close < cs.len() {
            close - i + 1
        } else {
            cs.len() - i
        }
    } else {
        0
    }
}

/// The first index at or after `j` that continues no number run
/// (neither a digit nor a dot), or the end of `cs`.
pub open spec fn num_run_end(cs: Seq<char>, j: int) -> int
    decreases cs.len() - j,
{
    if j >= cs.len() {
        cs.len() as int
    } else if !(is_digit(cs[j]) || cs[j] == '.') {
        j
    } else {
        num_run_end(cs, j + 1)
    }
}

proof fn lemma_num_run_end_range(cs: Seq<char>, j: int)
    requires
        0 <= j <= cs.len(),
    ensures
        j <= num_run_end(cs, j) <= cs.len(),
    decreases cs.len() - j,
{
    if j >= cs.len() {
    } else if !(is_digit(cs[j]) || cs[j] == '.') {
    } else {
        lemma_num_run_end_range(cs, j + 1);
    }
}

/// The length of the number token starting at `i`: a digit not glued
/// to the tail of an identifier, with the following run of digits and
/// dots; 0 if none.
pub open spec fn number_len(opts: HighlightingOptions, cs: Seq<char>, i: int) -> int {
    if opts.spec_numbers() && 0 <= i < cs.len() && is_digit(cs[i]) && (i == 0 || is_digit(
        cs[i - 1],
    ) || is_ascii_whitespace(cs[i - 1])) {
        num_run_end(cs, i + 1) - i
    } else {
        0
    }
}

/// `w` occurs literally at position `i` of `cs`.
pub open spec fn kw_at(cs: Seq<char>, i: int, w: Seq<char>) -> bool {
    w.len() > 0 && 0 <= i && i + w.len() <= cs.len() && cs.subrange(i, i + w.len()) == w
}

/// The length of the first listed keyword matching at `i`, 0 if none.
pub open spec fn keyword_len(kws: Seq<Seq<char>>, cs: Seq<char>, i: int) -> int
    decreases kws.len(),
{
    if kws.len() == 0 {
        0
    } else if kw_at(cs, i, kws[0]) {
        kws[0].len() as int
    } else {
        keyword_len(kws.drop_first(), cs, i)
    }
}

proof fn lemma_keyword_len_bounds(kws: Seq<Seq<char>>, cs: Seq<char>, i: int)
    ensures
        0 <= keyword_len(kws, cs, i),
        keyword_len(kws, cs, i) > 0 ==> 0 <= i && i + keyword_len(kws, cs, i) <= cs.len(),
    decreases kws.len(),
{
    if kws.len() == 0 {
    } else if kw_at(cs, i, kws[0]) {
    } else {
        lemma_keyword_len_bounds(kws.drop_first(), cs, i);
    }
}

/// The category the scan assigns at position `i`, first recogniser
/// (character literal, comment, string, number, keyword) winning.
pub open spec fn step_type(opts: HighlightingOptions, cs: Seq<char>, i: int) -> Type {
    if char_lit_len(opts, cs, i) > 0 {
        Type::Character
    } else if comment_len(opts, cs, i) > 0 {
        Type::Comment
    } else if string_len(opts, cs, i) > 0 {
        Type::Str
    } else if number_len(opts, cs, i) > 0 {
        Type::Number
    } else if keyword_len(opts.spec_keywords_primary(), cs, i) > 0 {
        Type::KeywordPrimary
    } else {
        Type::Normal
    }
}

/// How many positions the winning recogniser at `i` consumes (an
/// unclaimed position consumes one).
pub open spec fn step_len(opts: HighlightingOptions, cs: Seq<char>, i: int) -> int {
    if char_lit_len(opts, cs, i) > 0 {
        char_lit_len(opts, cs, i)
    } else if comment_len(opts, cs, i) > 0 {
        comment_len(opts, cs, i)
    } else if string_len(opts, cs, i) > 0 {
        string_len(opts, cs, i)
    } else if number_len(opts, cs, i) > 0 {
        number_len(opts, cs, i)
    } else if keyword_len(opts.spec_keywords_primary(), cs, i) > 0 {
        keyword_len(opts.spec_keywords_primary(), cs, i)
    } else {
        1
    }
}

/// Every scan step consumes at least one position and stays on the line.
proof fn lemma_step_len_bounds(opts: HighlightingOptions, cs: Seq<char>, i: int)
    requires
        0 <= i < cs.len(),
    ensures
        1 <= step_len(opts, cs, i) <= cs.len() - i,
{
    lemma_scan_for_range(cs, i + 1, '"');
    lemma_num_run_end_range(cs, i + 1);
    lemma_keyword_len_bounds(opts.spec_keywords_primary(), cs, i);
}

/// The categories of positions `i` onward, one scan step at a time.
pub open spec fn highlight_seq(opts: HighlightingOptions, cs: Seq<char>, i: int) -> Seq<Type>
    decreases cs.len() - i,
    via highlight_seq_decreases
{
    if i < 0 || i >= cs.len() {
        Seq::empty()
    } else {
        Seq::new(step_len(opts, cs, i) as nat, |t: int| step_type(opts, cs, i)) + highlight_seq(
            opts,
            cs,
            i + step_len(opts, cs, i),
        )
    }
}

#[via_fn]
proof fn highlight_seq_decreases(opts: HighlightingOptions, cs: Seq<char>, i: int) {
    if 0 <= i < cs.len() {
        lemma_step_len_bounds(opts, cs, i);
    }
}

impl Row {
    /// Appends `n` copies of `t` to the highlight array.
    fn push_repeat(&mut self, t: Type, n: usize)
        ensures
            final(self)@ == old(self)@,
            final(self).hl() == old(self).hl() + Seq::new(n as nat, |x: int| t),
    {
        let mut k: usize = 0;
        proof {
            assert(self.hl() =~= old(self).hl() + Seq::new(0, |x: int| t));
        }
        while k < n
            invariant
                k <= n,
                self@ == old(self)@,
                self.hl() == old(self).hl() + Seq::new(k as nat, |x: int| t),
            decreases n - k,
        {
            self.highlighting.push(t);
            proof {
                assert(self.hl() =~= old(self).hl() + Seq::new((k + 1) as nat, |x: int| t));
            }
            k += 1;
        }
    }

    /// Recognises a character literal at the cursor, claiming its
    /// positions with the `Character` category.
    fn highlight_char(&mut self, idx: &mut usize, opts: &HighlightingOptions, c: char, chars: &Vec<char>) -> (r: bool)
        requires
            old(self).wf(),
            chars@.len() <= usize::MAX,
            *old(idx) < chars@.len(),
            c == chars@[*old(idx) as int],
        ensures
            final(self)@ == old(self)@,
            r == (char_lit_len(*opts, chars@, *old(idx) as int) > 0),
            r ==> *final(idx) == *old(idx) + char_lit_len(*opts, chars@, *old(idx) as int)
                && final(self).hl() == old(self).hl() + Seq::new(
                char_lit_len(*opts, chars@, *old(idx) as int) as nat,
                (|x: int| Type::Character),
            ),
            !r ==> *final(self) == *old(self) && *final(idx) == *old(idx),
    {
        let i = *idx;
        if !(opts.characters() && c == '\'') {
            return false;
        }
        let rem = chars.len() - i;
        if rem < 2 {
            return false;
        }
        let d: usize = if chars[i + 1] == '\\' {
            3
        } else {
            2
        };
        if d >= rem {
            return false;
        }
        if chars[i + d] != '\'' {
            return false;
        }
        let n = d + 1;
        self.push_repeat(Type::Character, n);
        *idx = i + n;
        true
    }

    /// Recognises a line comment at the cursor, claiming the rest of
    /// the line with the `Comment` category.
    fn highlight_comment(&mut self, idx: &mut usize, opts: &HighlightingOptions, c: char, chars: &Vec<char>) -> (r: bool)
        requires
            old(self).wf(),
            chars@.len() <= usize::MAX,
            *old(idx) < chars@.len(),
            c == chars@[*old(idx) as int],
        ensures
            final(self)@ == old(self)@,
            r == (comment_len(*opts, chars@, *old(idx) as int) > 0),
            r ==> *final(idx) == *old(idx) + comment_len(*opts, chars@, *old(idx) as int)
                && final(self).hl() == old(self).hl() + Seq::new(
                comment_len(*opts, chars@, *old(idx) as int) as nat,
                (|x: int| Type::Comment),
            ),
            !r ==> *final(self) == *old(self) && *final(idx) == *old(idx),
    {
        let i = *idx;
        if !(opts.comments() && c == '/') {
            return false;
        }
        if i + 1 >= chars.len() {
            return false;
        }
        if chars[i + 1] != '/' {
            return false;
        }
        let n = chars.len() - i;
        self.push_repeat(Type::Comment, n);
        *idx = i + n;
        true
    }

    /// Claims the positions of `substring` with `hl_type` when it
    /// occurs literally at the cursor.
    fn highlight_str(&mut self, idx: &mut usize, substring: &str, chars: &Vec<char>, hl_type: Type) -> (r: bool)
        requires
            old(self).wf(),
            chars@.len() <= usize::MAX,
            *old(idx) <= chars@.len(),
        ensures
            final(self)@ == old(self)@,
            r == kw_at(chars@, *old(idx) as int, substring@),
            r ==> *final(idx) == *old(idx) + substring@.len() && final(self).hl() == old(
                self,
            ).hl() + Seq::new(substring@.len(), (|x: int| hl_type)),
            !r ==> *final(self) == *old(self) && *final(idx) == *old(idx),
    {
        let i = *idx;
        let wlen = substring.unicode_len();
        if wlen == 0 {
            return false;
        }
        if wlen > chars.len() - i {
            return false;
        }
        let mut t: usize = 0;
        while t < wlen
            invariant
                old(self).wf(),
                *self == *old(self),
                *idx == *old(idx),
                i == *old(idx),
                t <= wlen,
                wlen == substring@.len(),
                wlen > 0,
                i + wlen <= chars@.len(),
                chars@.len() <= usize::MAX,
                forall|u: int| 0 <= u < t ==> chars@[i + u] == substring@[u],
            decreases wlen - t,
        {
            if chars[i + t] != substring.get_char(t) {
                proof {
                    assert(chars@.subrange(i as int, i + wlen as int)[t as int] == chars@[i + t]);
                    assert(!kw_at(chars@, i as int, substring@));
                }
                return false;
            }
            t += 1;
        }
        proof {
            assert(chars@.subrange(i as int, i + wlen as int) =~= substring@);
        }
        self.push_repeat(hl_type, wlen);
        *idx = i + wlen;
        true
    }

    /// Recognises a quoted string at the cursor: through the closing
    /// quote, or to the end of the line when unterminated.
    fn highlight_string(&mut self, idx: &mut usize, opts: &HighlightingOptions, c: char, chars: &Vec<char>) -> (r: bool)
        requires
            old(self).wf(),
            chars@.len() <= usize::MAX,
            *old(idx) < chars@.len(),
            c == chars@[*old(idx) as int],
        ensures
            final(self)@ == old(self)@,
            r == (string_len(*opts, chars@, *old(idx) as int) > 0),
            r ==> *final(idx) == *old(idx) + string_len(*opts, chars@, *old(idx) as int)
                && final(self).hl() == old(self).hl() + Seq::new(
                string_len(*opts, chars@, *old(idx) as int) as nat,
                (|x: int| Type::Str),
            ),
            !r ==> *final(self) == *old(self) && *final(idx) == *old(idx),
    {
        let i = *idx;
        if !(opts.strings() && c == '"') {
            return false;
        }
        let mut j: usize = i + 1;
        while j < chars.len() && chars[j] != '"'
            invariant
                i + 1 <= j <= chars@.len(),
                chars@.len() <= usize::MAX,
                scan_for(chars@, i + 1 as int, '"') == scan_for(chars@, j as int, '"'),
            decreases chars@.len() - j,
        {
            j += 1;
        }
        let n: usize = if j < chars.len() {
            j - i + 1
        } else {
            chars.len() - i
        };
        proof {
            if j < chars@.len() {
                assert(scan_for(chars@, j as int, '"') == j);
            } else {
                assert(scan_for(chars@, j as int, '"') == chars@.len());
            }
        }
        self.push_repeat(Type::Str, n);
        *idx = i + n;
        true
    }

    /// Recognises a number at the cursor: a digit, not embedded in an
    /// identifier, with its following run of digits and dots.
    fn highlight_number(&mut self, idx: &mut usize, opts: &HighlightingOptions, c: char, chars: &Vec<char>) -> (r: bool)
        requires
            old(self).wf(),
            chars@.len() <= usize::MAX,
            *old(idx) < chars@.len(),
            c == chars@[*old(idx) as int],
        ensures
            final(self)@ == old(self)@,
            r == (number_len(*opts, chars@, *old(idx) as int) > 0),
            r ==> *final(idx) == *old(idx) + number_len(*opts, chars@, *old(idx) as int)
                && final(self).hl() == old(self).hl() + Seq::new(
                number_len(*opts, chars@, *old(idx) as int) as nat,
                (|x: int| Type::Number),
            ),
            !r ==> *final(self) == *old(self) && *final(idx) == *old(idx),
    {
        let i = *idx;
        if !(opts.numbers() && digit(c)) {
            return false;
        }
        if i > 0 {
            let prev = chars[i - 1];
            if !digit(prev) && !whitespace(prev) {
                return false;
            }
        }
        proof {
            lemma_num_run_end_range(chars@, i + 1 as int);
        }
        let mut j: usize = i + 1;
        while j < chars.len() && (digit(chars[j]) || chars[j] == '.')
            invariant
                i + 1 <= j <= chars@.len(),
                chars@.len() <= usize::MAX,
                num_run_end(chars@, i + 1 as int) == num_run_end(chars@, j as int),
            decreases chars@.len() - j,
        {
            j += 1;
        }
        proof {
            if j < chars@.len() {
                assert(num_run_end(chars@, j as int) == j);
            } else {
                assert(num_run_end(chars@, j as int) == chars@.len());
            }
        }
        let n: usize = j - i;
        self.push_repeat(Type::Number, n);
        *idx = i + n;
        true
    }

    /// Tries each configured keyword in order at the cursor.
    fn highlight_keywords_primary(&mut self, idx: &mut usize, opts: &HighlightingOptions, chars: &Vec<char>) -> (r: bool)
        requires
            old(self).wf(),
            chars@.len() <= usize::MAX,
            *old(idx) < chars@.len(),
        ensures
            final(self)@ == old(self)@,
            r == (keyword_len(opts.spec_keywords_primary(), chars@, *old(idx) as int) > 0),
            r ==> *final(idx) == *old(idx) + keyword_len(
                opts.spec_keywords_primary(),
                chars@,
                *old(idx) as int,
            ) && final(self).hl() == old(self).hl() + Seq::new(
                keyword_len(opts.spec_keywords_primary(), chars@, *old(idx) as int) as nat,
                (|x: int| Type::KeywordPrimary),
            ),
            !r ==> *final(self) == *old(self) && *final(idx) == *old(idx),
    {
        let ghost i0 = *idx as int;
        let ghost all = opts.spec_keywords_primary();
        let kws = opts.keywords_primary();
        let mut wi: usize = 0;
        while wi < kws.len()
            invariant
                old(self).wf(),
                *self == *old(self),
                *idx == *old(idx),
                i0 == *old(idx) as int,
                *old(idx) < chars@.len(),
                chars@.len() <= usize::MAX,
                all == kws.deep_view(),
                all == opts.spec_keywords_primary(),
                wi <= all.len(),
                keyword_len(all, chars@, i0) == keyword_len(all.skip(wi as int), chars@, i0),
            decreases all.len() - wi,
        {
            let ghost rest = all.skip(wi as int);
            proof {
                assert(rest[0] == all[wi as int]);
                assert(kws.deep_view()[wi as int] == kws@[wi as int]@);
            }
            if self.highlight_str(idx, kws[wi].as_str(), chars, Type::KeywordPrimary) {
                proof {
                    assert(kw_at(chars@, i0, rest[0]));
                    assert(keyword_len(rest, chars@, i0) == rest[0].len());
                }
                return true;
            }
            proof {
                assert(!kw_at(chars@, i0, rest[0]));
                assert(rest.drop_first() =~= all.skip(wi + 1 as int));
                assert(keyword_len(rest, chars@, i0) == keyword_len(rest.drop_first(), chars@, i0));
            }
            wi += 1;
        }
        proof {
            assert(all.skip(all.len() as int) =~= Seq::<Seq<char>>::empty());
            assert(keyword_len(all.skip(all.len() as int), chars@, i0) == 0);
        }
        false
    }

    /// Rebuilds the highlight array: one category per grapheme from a
    /// single left-to-right scan of the clusters' leading characters,
    /// then the search-match overlay for `word` on top.
    pub fn highlight(&mut self, opts: &HighlightingOptions, word: Option<&str>)
        requires
            old(self).wf(),
        ensures
            final(self)@ == old(self)@,
            final(self).wf(),
            final(self).hl().len() == old(self)@.len(),
            final(self).hl() == (match word {
                Option::Some(w) => match_overlay(
                    old(self)@,
                    highlight_seq(*opts, first_chars(old(self)@), 0),
                    w@,
                    0,
                ),
                Option::None => highlight_seq(*opts, first_chars(old(self)@), 0),
            }),
    {
        let mut chars: Vec<char> = Vec::new();
        let mut k: usize = 0;
        while k < self.clusters.len()
            invariant
                self.wf(),
                k <= self@.len(),
                chars@.len() == k,
                forall|t: int| 0 <= t < k ==> chars@[t] == self@[t][0],
            decreases self@.len() - k,
        {
            let cl: &String = &self.clusters[k];
            proof {
                assert(cl@ == self@[k as int]);
            }
            chars.push(cl.as_str().get_char(0));
            k += 1;
        }
        proof {
            assert(chars@ =~= first_chars(self@));
        }
        self.highlighting = Vec::new();
        let mut idx: usize = 0;
        proof {
            assert(self.hl() =~= Seq::<Type>::empty());
            assert(self.hl() + highlight_seq(*opts, chars@, 0) =~= highlight_seq(*opts, chars@, 0));
        }
        while idx < chars.len()
            invariant
                self.wf(),
                self@ == old(self)@,
                chars@ == first_chars(self@),
                chars@.len() == self@.len(),
                chars@.len() <= usize::MAX,
                idx <= chars@.len(),
                self.hl().len() == idx,
                self.hl() + highlight_seq(*opts, chars@, idx as int) == highlight_seq(
                    *opts,
                    chars@,
                    0,
                ),
            decreases chars@.len() - idx,
        {
            let c = chars[idx];
            let ghost i0 = idx as int;
            let ghost hl_prev = self.hl();
            proof {
                lemma_step_len_bounds(*opts, chars@, i0);
            }
            let advanced: bool = if self.highlight_char(&mut idx, opts, c, &chars) {
                true
            } else if self.highlight_comment(&mut idx, opts, c, &chars) {
                true
            } else if self.highlight_string(&mut idx, opts, c, &chars) {
                true
            } else if self.highlight_number(&mut idx, opts, c, &chars) {
                true
            } else if self.highlight_keywords_primary(&mut idx, opts, &chars) {
                true
            } else {
                self.highlighting.push(Type::Normal);
                idx += 1;
                proof {
                    assert(Seq::new(1nat, |t: int| Type::Normal) =~= seq![Type::Normal]);
                    assert(self.hl() =~= hl_prev + Seq::new(1nat, |t: int| Type::Normal));
                }
                false
            };
            proof {
                assert(self.hl() == hl_prev + Seq::new(
                    step_len(*opts, chars@, i0) as nat,
                    |t: int| step_type(*opts, chars@, i0),
                ));
                assert(idx == i0 + step_len(*opts, chars@, i0));
                assert(highlight_seq(*opts, chars@, i0) == Seq::new(
                    step_len(*opts, chars@, i0) as nat,
                    |t: int| step_type(*opts, chars@, i0),
                ) + highlight_seq(*opts, chars@, idx as int));
                assert(self.hl() + highlight_seq(*opts, chars@, idx as int) =~= hl_prev
                    + highlight_seq(*opts, chars@, i0));
            }
        }
        proof {
            assert(highlight_seq(*opts, chars@, idx as int) =~= Seq::<Type>::empty());
            assert(self.hl() + Seq::<Type>::empty() =~= self.hl());
        }
        self.highlight_match(word);
    }
}

/// The rendered form of clusters `[i, end)` of `s`: each grapheme's
/// leading character (a tab expands to two spaces), a style marker
/// emitted whenever the category differs from the one last emitted
/// (`cur`), and a trailing reset to the default style.
pub open spec fn render_seq(s: Seq<Seq<char>>, hl: Seq<Type>, cur: Type, i: int, end: int) -> Seq<
    char,
>
    decreases end - i,
{
    if i >= end {
        reset_fg_escape()
    } else {
        let t = if i < hl.len() {
            hl[i]
        } else {
            Type::Normal
        };
        let glyph = if s[i][0] == '\t' {
            seq![' ', ' ']
        } else {
            seq![s[i][0]]
        };
        if t == cur {
            glyph + render_seq(s, hl, t, i + 1, end)
        } else {
            color_escape(t) + (glyph + render_seq(s, hl, t, i + 1, end))
        }
    }
}

impl Row {
    /// Renders the grapheme-column range `[start, end)` (clamped to the
    /// line) for display: style markers are emitted only where the
    /// category changes, tabs expand to two spaces, and the output ends
    /// by resetting to the default style.
    pub fn render(&self, start: usize, end: usize) -> (r: String)
        requires
            self.wf(),
        ensures
            ({
                let e = if end as int <= self@.len() {
                    end as int
                } else {
                    self@.len() as int
                };
                let s0 = if start as int <= e {
                    start as int
                } else {
                    e
                };
                r@ == render_seq(self@, self.hl(), Type::Normal, s0, e)
            }),
    {
        let e: usize = if end <= self.clusters.len() {
            end
        } else {
            self.clusters.len()
        };
        let s0: usize = if start <= e {
            start
        } else {
            e
        };
        let mut result = String::new();
        let mut current: Type = Type::Normal;
        let mut i: usize = s0;
        proof {
            assert(result@ + render_seq(self@, self.hl(), Type::Normal, s0 as int, e as int)
                =~= render_seq(self@, self.hl(), Type::Normal, s0 as int, e as int));
        }
        while i < e
            invariant
                self.wf(),
                s0 <= i <= e <= self@.len(),
                result@ + render_seq(self@, self.hl(), current, i as int, e as int) == render_seq(
                    self@,
                    self.hl(),
                    Type::Normal,
                    s0 as int,
                    e as int,
                ),
            decreases e - i,
        {
            let ghost res0 = result@;
            let ghost cur0 = current;
            let t: Type = if i < self.highlighting.len() {
                self.highlighting[i]
            } else {
                Type::Normal
            };
            if t != current {
                current = t;
                let marker = color_marker(t);
                result.append(marker.as_str());
            }
            let cl: &String = &self.clusters[i];
            proof {
                assert(cl@ == self@[i as int]);
            }
            let c = cl.as_str().get_char(0);
            let ghost glyph = if c == '\t' {
                seq![' ', ' ']
            } else {
                seq![c]
            };
            if c == '\t' {
                result.append("  ");
                proof {
                    reveal_strlit("  ");
                    assert(("  ")@ =~= seq![' ', ' ']);
                }
            } else {
                let cstr = char_to_string(c);
                result.append(cstr.as_str());
            }
            proof {
                if t == cur0 {
                    assert(result@ =~= res0 + glyph);
                } else {
                    assert(result@ =~= res0 + (color_escape(t) + glyph));
                }
                assert(render_seq(self@, self.hl(), cur0, i as int, e as int) == (if t == cur0 {
                    glyph + render_seq(self@, self.hl(), t, i + 1 as int, e as int)
                } else {
                    color_escape(t) + (glyph + render_seq(self@, self.hl(), t, i + 1 as int, e as int))
                }));
                assert(result@ + render_seq(self@, self.hl(), t, i + 1 as int, e as int)
                    =~= res0 + render_seq(self@, self.hl(), cur0, i as int, e as int));
            }
            i += 1;
        }
        let reset = reset_marker();
        result.append(reset.as_str());
        proof {
            assert(render_seq(self@, self.hl(), current, e as int, e as int)
                == reset_fg_escape());
        }
        result
    }
}

/// Deleting the cluster at `i` and inserting a one-character cluster
/// back at `i` yields a line of the original length whose content
/// differs from the original at position `i` alone.  This is how
/// `delete` followed by `insert` at the same index acts on a row's
/// model, by those functions' contracts.
pub proof fn lemma_delete_then_insert(s: Seq<Seq<char>>, i: int, c: char)
    requires
        0 <= i < s.len(),
    ensures
        s.remove(i).insert(i, seq![c]).len() == s.len(),
        s.remove(i).insert(i, seq![c]) == s.update(i, seq![c]),
{
    assert(s.remove(i).insert(i, seq![c]) =~= s.update(i, seq![c]));
}

/// Splitting a line at any `at` in `[0, len]` and appending the second
/// part back onto the first reconstructs the original clusters (hence
/// text and length) exactly.  This is how `split` followed by `append`
/// acts on a row's model, by those functions' contracts.
pub proof fn lemma_split_then_append(s: Seq<Seq<char>>, at: int)
    requires
        0 <= at <= s.len(),
    ensures
        s.take(at) + s.skip(at) == s,
{
    assert(s.take(at) + s.skip(at) =~= s);
}

impl Default for Row {
    /// An empty row.
    fn default() -> (r: Row)
        ensures
            r@ == Seq::<Seq<char>>::empty(),
            r.wf(),
            r.hl() == Seq::<Type>::empty(),
    {
        let r = Row { clusters: Vec::new(), highlighting: Vec::new() };
        proof {
            assert(r@ =~= Seq::<Seq<char>>::empty());
            assert(r.hl() =~= Seq::<Type>::empty());
        }
        r
    }
}

} // verus!
