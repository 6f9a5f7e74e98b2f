use vstd::prelude::*;

use crate::editor::Position;
use crate::editor::SearchDirection;
use crate::filetype::FileType;
use crate::row::Row;
use crate::row::first_chars;
use crate::row::grapheme_split;
use crate::row::highlight_seq;
use crate::row::lemma_scan_for_range;
use crate::row::match_at;
use crate::row::match_overlay;
use crate::row::scan_for;

verus! {

/// A line of a byte stream with a carriage return stripped off its end.
pub open spec fn strip_cr(l: Seq<char>) -> Seq<char> {
    if l.len() > 0 && l.last() == '\r' {
        l.drop_last()
    } else {
        l
    }
}

/// The lines of the text from position `pos` on: pieces separated by
/// line feeds, each with a carriage return before the line feed
/// stripped; a trailing piece without a terminator is kept as is.
pub open spec fn split_lines_from(s: Seq<char>, pos: int) -> Seq<Seq<char>>
    decreases s.len() - pos,
    via split_lines_from_decreases
{
    if pos < 0 || pos >= s.len() {
        Seq::empty()
    } else {
        let j = scan_for(s, pos, '\n');
        if j < s.len() {
            seq![strip_cr(s.subrange(pos, j))] + split_lines_from(s, j + 1)
        } else {
            seq![s.subrange(pos, s.len() as int)]
        }
    }
}

#[via_fn]
proof fn split_lines_from_decreases(s: Seq<char>, pos: int) {
    if 0 <= pos < s.len() {
        lemma_scan_for_range(s, pos, '\n');
    }
}

/// The lines of a whole byte-stream text.
pub open spec fn split_lines(s: Seq<char>) -> Seq<Seq<char>> {
    split_lines_from(s, 0)
}

/// The byte-stream form of a buffer: every row's text followed by a
/// line feed.
pub open spec fn doc_text(rows: Seq<Seq<Seq<char>>>) -> Seq<char>
    decreases rows.len(),
{
    if rows.len() == 0 {
        Seq::empty()
    } else {
        doc_text(rows.drop_last()) + rows.last().flatten() + seq!['\n']
    }
}

/// The view of an optional file name.
pub open spec fn name_view(n: Option<String>) -> Option<Seq<char>> {
    match n {
        Option::Some(s) => Option::Some(s@),
        Option::None => Option::None,
    }
}

/// `q` matches at grapheme `g` of row `y`, inside the window a forward
/// scan from `(fy, fx)` allows: the starting row only from column `fx`
/// on, every later row in full.
pub open spec fn doc_match_fwd(
    rows: Seq<Seq<Seq<char>>>,
    q: Seq<char>,
    fy: int,
    fx: int,
    y: int,
    g: int,
) -> bool {
    fy <= y < rows.len() && (y == fy ==> g >= fx) && match_at(rows[y], q, g, rows[y].len() as int)
}

/// `q` matches at grapheme `g` of row `y`, inside the window a backward
/// scan from `(fy, fx)` allows: the starting row only before column
/// `fx`, every earlier row in full.
pub open spec fn doc_match_bwd(
    rows: Seq<Seq<Seq<char>>>,
    q: Seq<char>,
    fy: int,
    fx: int,
    y: int,
    g: int,
) -> bool {
    0 <= y <= fy && y < rows.len() && match_at(
        rows[y],
        q,
        g,
        if y == fy {
            fx
        } else {
            rows[y].len() as int
        },
    )
}

/// An ordered sequence of rows with a dirty flag, an optional file
/// name, and the highlighting configuration chosen for the content.
pub struct Document {
    rows: Vec<Row>,
    dirty: bool,
    pub file_name: Option<String>,
    file_type: FileType,
}

impl View for Document {
    type V = Seq<Seq<Seq<char>>>;

    /// A document is modelled as the sequence of its rows' models.
    closed spec fn view(&self) -> Seq<Seq<Seq<char>>> {
        self.rows.deep_view()
    }
}

impl Document {
    /// Every row is well formed.
    pub closed spec fn wf(self) -> bool {
        forall|i: int| 0 <= i < self.rows@.len() ==> (#[trigger] self.rows@[i]).wf()
    }

    pub closed spec fn spec_dirty(self) -> bool {
        self.dirty
    }

    /// The associated storage name, if any.
    pub closed spec fn spec_file_name(self) -> Option<Seq<char>> {
        match self.file_name {
            Option::Some(n) => Option::Some(n@),
            Option::None => Option::None,
        }
    }

    /// The highlighting configuration attached to the document.
    pub closed spec fn spec_file_type(self) -> FileType {
        self.file_type
    }

    /// The rows themselves, for speaking of their highlight state.
    pub closed spec fn spec_rows(self) -> Seq<Row> {
        self.rows@
    }

    /// The row model at `y`, an empty row past the end.
    pub open spec fn row_view(self, y: int) -> Seq<Seq<char>> {
        if 0 <= y < self@.len() {
            self@[y]
        } else {
            Seq::empty()
        }
    }

    /// The number of rows.
    pub fn len(&self) -> (l: usize)
        ensures
            l == self@.len(),
    {
        self.rows.len()
    }

    pub fn is_empty(&self) -> (b: bool)
        ensures
            b == (self@.len() == 0),
    {
        self.rows.len() == 0
    }

    /// True iff the buffer has changed since load or the last save.
    pub fn is_dirty(&self) -> (b: bool)
        ensures
            b == self.spec_dirty(),
    {
        self.dirty
    }

    /// The row at `index`, if there is one.
    pub fn row(&self, index: usize) -> (r: Option<&Row>)
        ensures
            index < self@.len() ==> r is Some && r->0@ == self@[index as int] && *r->0
                == self.spec_rows()[index as int],
            index >= self@.len() ==> r is None,
    {
        if index < self.rows.len() {
            Some(&self.rows[index])
        } else {
            None
        }
    }

    /// Clears the dirty flag; meant for the caller that has just
    /// persisted the buffer successfully.
    pub fn mark_saved(&mut self)
        ensures
            !final(self).spec_dirty(),
            final(self)@ == old(self)@,
            old(self).wf() ==> final(self).wf(),
            final(self).spec_file_name() == old(self).spec_file_name(),
    {
        self.dirty = false;
        proof {
            if old(self).wf() {
                assert(self.wf());
            }
        }
    }

    /// Loads a byte-stream text: one row per line, clean, with the
    /// highlighting configuration chosen from the file name.
    pub fn load(contents: &str, file_name: Option<String>) -> (d: Document)
        ensures
            d.wf(),
            !d.spec_dirty(),
            d@.len() == split_lines(contents@).len(),
            forall|i: int|
                0 <= i < d@.len() ==> d@[i] == grapheme_split(
                    #[trigger] split_lines(contents@)[i],
                ),
            d.spec_file_name() == name_view(file_name),
    {
        let n: usize = contents.unicode_len();
        let mut rows: Vec<Row> = Vec::new();
        let ghost mut done: Seq<Seq<char>> = Seq::empty();
        let mut pos: usize = 0;
        proof {
            assert(done + split_lines_from(contents@, 0) =~= split_lines_from(contents@, 0));
        }
        while pos < n
            invariant
                n == contents@.len(),
                pos <= n,
                split_lines(contents@) == done + split_lines_from(contents@, pos as int),
                rows@.len() == done.len(),
                forall|i: int|
                    0 <= i < rows@.len() ==> (#[trigger] rows.deep_view()[i]) == grapheme_split(
                        done[i],
                    ),
                forall|i: int| 0 <= i < rows@.len() ==> (#[trigger] rows@[i]).wf(),
            decreases n - pos,
        {
            let mut e: usize = pos;
            while e < n && contents.get_char(e) != '\n'
                invariant
                    n == contents@.len(),
                    pos <= e <= n,
                    scan_for(contents@, pos as int, '\n') == scan_for(contents@, e as int, '\n'),
                decreases n - e,
            {
                e += 1;
            }
            proof {
                if e < n {
                    assert(scan_for(contents@, e as int, '\n') == e);
                } else {
                    assert(scan_for(contents@, e as int, '\n') == n);
                }
            }
            let stop: usize = if e < n {
                if e > pos && contents.get_char(e - 1) == '\r' {
                    e - 1
                } else {
                    e
                }
            } else {
                e
            };
            let line = contents.substring_char(pos, stop);
            let ghost piece = if e < n {
                strip_cr(contents@.subrange(pos as int, e as int))
            } else {
                contents@.subrange(pos as int, n as int)
            };
            proof {
                if e < n && e > pos && contents@[e - 1] == '\r' {
                    assert(contents@.subrange(pos as int, e as int).drop_last() =~= contents@
                        .subrange(pos as int, e - 1));
                }
                assert(line@ == piece);
            }
            let row = Row::from(line);
            let ghost prev_rows = rows.deep_view();
            rows.push(row);
            proof {
                done = done.push(piece);
                assert(forall|i: int|
                    0 <= i < prev_rows.len() ==> #[trigger] rows.deep_view()[i] == prev_rows[i]);
                assert(split_lines_from(contents@, pos as int) == seq![piece] + split_lines_from(
                    contents@,
                    if e < n {
                        e + 1 as int
                    } else {
                        n as int
                    },
                ));
                assert(split_lines(contents@) =~= done + split_lines_from(
                    contents@,
                    if e < n {
                        e + 1 as int
                    } else {
                        n as int
                    },
                ));
            }
            pos = if e < n {
                e + 1
            } else {
                n
            };
        }
        proof {
            assert(split_lines_from(contents@, n as int) =~= Seq::<Seq<char>>::empty());
            assert(done + Seq::<Seq<char>>::empty() =~= done);
        }
        let file_type = match &file_name {
            Some(nm) => FileType::from(nm.as_str()),
            None => FileType::default(),
        };
        Document { rows, dirty: false, file_name, file_type }
    }

    /// The byte-stream form of the buffer: every row's text followed by
    /// a line feed.  Writing this out and then calling `mark_saved` is
    /// how a caller persists the buffer.
    pub fn contents(&self) -> (s: String)
        ensures
            s@ == doc_text(self@),
    {
        let mut s = String::new();
        let mut i: usize = 0;
        proof {
            assert(self@.take(0) =~= Seq::<Seq<Seq<char>>>::empty());
            assert(s@ =~= doc_text(self@.take(0)));
        }
        while i < self.rows.len()
            invariant
                i <= self@.len(),
                s@ == doc_text(self@.take(i as int)),
            decreases self@.len() - i,
        {
            let row: &Row = &self.rows[i];
            proof {
                assert(row@ == self@[i as int]);
            }
            let rs = row.as_string();
            s.append(rs.as_str());
            s.append("\n");
            proof {
                reveal_strlit("\n");
                assert(("\n")@ =~= seq!['\n']);
                assert(self@.take(i + 1 as int).drop_last() =~= self@.take(i as int));
                assert(self@.take(i + 1 as int).last() == self@[i as int]);
                assert(s@ =~= doc_text(self@.take(i + 1 as int)));
            }
            i += 1;
        }
        proof {
            assert(self@.take(self@.len() as int) =~= self@);
        }
        s
    }
}

impl Document {
    /// Inserts `c` at `at`.  A line feed splits the row at the column
    /// (clamped to the row's end) and puts the tail on a new row below;
    /// on the virtual row past the last line it opens a fresh empty
    /// row.  Any other character goes into the addressed row, or onto a
    /// fresh row at the very end.  A position below the virtual row is
    /// a no-op; every actual change sets the dirty flag.
    pub fn insert(&mut self, at: &Position, c: char)
        requires
            old(self).wf(),
        ensures
            final(self).wf(),
            final(self).spec_file_name() == old(self).spec_file_name(),
            final(self).spec_file_type() == old(self).spec_file_type(),
            at.y > old(self)@.len() ==> *final(self) == *old(self),
            at.y <= old(self)@.len() ==> final(self).spec_dirty(),
            c == '\n' && at.y == old(self)@.len() ==> final(self)@ == old(self)@.push(
                Seq::<Seq<char>>::empty(),
            ),
            c == '\n' && at.y < old(self)@.len() ==> final(self)@ == old(self)@.take(at.y as int)
                + seq![
                old(self)@[at.y as int].take(clamp_to(at.x as int, old(self)@[at.y as int].len() as int)),
                old(self)@[at.y as int].skip(clamp_to(at.x as int, old(self)@[at.y as int].len() as int)),
            ] + old(self)@.skip(at.y + 1),
            c != '\n' && at.y == old(self)@.len() ==> final(self)@ == old(self)@.push(
                seq![seq![c]],
            ),
            c != '\n' && at.y < old(self)@.len() ==> final(self)@ == old(self)@.update(
                at.y as int,
                old(self)@[at.y as int].insert(
                    clamp_to(at.x as int, old(self)@[at.y as int].len() as int),
                    seq![c],
                ),
            ),
    {
        let len = self.rows.len();
        if at.y > len {
            return ;
        }
        if c == '\n' {
            if at.y == len {
                self.rows.push(Row::default());
                proof {
                    assert forall|i: int| 0 <= i < self@.len() implies self@[i] == old(self)@.push(
                        Seq::<Seq<char>>::empty(),
                    )[i] by {
                        if i < old(self)@.len() {
                            assert(self.rows@[i] == old(self).rows@[i]);
                        }
                    }
                    assert(self@ =~= old(self)@.push(Seq::<Seq<char>>::empty()));
                }
            } else {
                let new_row = self.rows[at.y].split(at.x);
                let ghost mid = self.rows@;
                self.rows.insert(at.y + 1, new_row);
                proof {
                    let y = at.y as int;
                    let cx = clamp_to(at.x as int, old(self)@[y].len() as int);
                    let target = old(self)@.take(y) + seq![
                        old(self)@[y].take(cx),
                        old(self)@[y].skip(cx),
                    ] + old(self)@.skip(y + 1);
                    assert forall|i: int| 0 <= i < self@.len() implies self@[i] == target[i] by {
                        if i < y {
                            assert(self.rows@[i] == old(self).rows@[i]);
                        } else if i == y {
                            assert(self.rows@[i] == mid[i]);
                        } else if i == y + 1 {
                        } else {
                            assert(self.rows@[i] == mid[i - 1]);
                            assert(mid[i - 1] == old(self).rows@[i - 1]);
                        }
                    }
                    assert(self@ =~= target);
                }
            }
        } else {
            if at.y == len {
                let mut row = Row::default();
                row.insert(0, c);
                self.rows.push(row);
                proof {
                    assert(row@ =~= seq![seq![c]]);
                    assert forall|i: int| 0 <= i < self@.len() implies self@[i] == old(self)@.push(
                        seq![seq![c]],
                    )[i] by {
                        if i < old(self)@.len() {
                            assert(self.rows@[i] == old(self).rows@[i]);
                        }
                    }
                    assert(self@ =~= old(self)@.push(seq![seq![c]]));
                }
            } else {
                self.rows[at.y].insert(at.x, c);
                proof {
                    let y = at.y as int;
                    let cx = clamp_to(at.x as int, old(self)@[y].len() as int);
                    let target = old(self)@.update(y, old(self)@[y].insert(cx, seq![c]));
                    assert forall|i: int| 0 <= i < self@.len() implies self@[i] == target[i] by {
                        if i != y {
                            assert(self.rows@[i] == old(self).rows@[i]);
                        }
                    }
                    assert(self@ =~= target);
                }
            }
        }
        self.dirty = true;
        proof {
            assert(self.wf());
        }
    }

    /// Deletes at `at`: inside a row it removes the cluster at the
    /// column; at a row's end it merges the next row up into it.  At
    /// the very end of the document, or past a row's end otherwise, it
    /// is a no-op.  Every actual change sets the dirty flag.
    pub fn delete(&mut self, at: &Position)
        requires
            old(self).wf(),
        ensures
            final(self).wf(),
            final(self).spec_file_name() == old(self).spec_file_name(),
            final(self).spec_file_type() == old(self).spec_file_type(),
            at.y >= old(self)@.len() ==> *final(self) == *old(self),
            at.y < old(self)@.len() && at.x < old(self)@[at.y as int].len() ==> final(self)@ == old(self)@.update(at.y as int, old(self)@[at.y as int].remove(at.x as int)) && final(self).spec_dirty(),
            at.y < old(self)@.len() && at.x == old(self)@[at.y as int].len() && at.y + 1 < old(self)@.len() ==> final(self)@ == old(self)@.take(at.y as int) + seq![
                old(self)@[at.y as int] + old(self)@[at.y + 1],
            ] + old(self)@.skip(at.y + 2) && final(self).spec_dirty(),
            at.y < old(self)@.len() && at.x >= old(self)@[at.y as int].len() && !(at.x == old(self)@[at.y as int].len() && at.y + 1 < old(self)@.len()) ==> *final(self) == *old(self),
    {
        let len = self.rows.len();
        if at.y >= len {
            return ;
        }
        let row_len = self.rows[at.y].len();
        if at.x == row_len && at.y + 1 < len {
            let next = self.rows.remove(at.y + 1);
            let ghost mid = self.rows@;
            self.rows[at.y].append(&next);
            self.dirty = true;
            proof {
                let y = at.y as int;
                let target = old(self)@.take(y) + seq![old(self)@[y] + old(self)@[y + 1]] + old(self)@.skip(y + 2);
                assert(next@ == old(self)@[y + 1]);
                assert forall|i: int| 0 <= i < self@.len() implies self@[i] == target[i] by {
                    if i < y {
                        assert(self.rows@[i] == mid[i]);
                        assert(mid[i] == old(self).rows@[i]);
                    } else if i == y {
                        assert(mid[i] == old(self).rows@[i]);
                    } else {
                        assert(self.rows@[i] == mid[i]);
                        assert(mid[i] == old(self).rows@[i + 1]);
                    }
                }
                assert(self@ =~= target);
                assert(self.wf());
            }
        } else if at.x < row_len {
            self.rows[at.y].delete(at.x);
            self.dirty = true;
            proof {
                let y = at.y as int;
                let target = old(self)@.update(y, old(self)@[y].remove(at.x as int));
                assert forall|i: int| 0 <= i < self@.len() implies self@[i] == target[i] by {
                    if i != y {
                        assert(self.rows@[i] == old(self).rows@[i]);
                    }
                }
                assert(self@ =~= target);
                assert(self.wf());
            }
        }
    }

    /// Cross-line directional search from `from`.  Forward scans the
    /// starting row from the given column and every later row in full;
    /// backward scans the starting row before the given column and
    /// every earlier row in full.  The scan never wraps around either
    /// end of the document, and a position is returned exactly when the
    /// scanned region holds an occurrence — the nearest one in scan
    /// order.
    pub fn find(&self, query: &str, from: &Position, direction: SearchDirection) -> (r: Option<
        Position,
    >)
        requires
            self.wf(),
            from.y <= self@.len(),
            from.y < self@.len() ==> from.x <= self@[from.y as int].len(),
        ensures
            match r {
                Option::Some(p) => {
                    &&& direction is Forward ==> doc_match_fwd(
                        self@,
                        query@,
                        from.y as int,
                        from.x as int,
                        p.y as int,
                        p.x as int,
                    ) && (forall|y2: int, g2: int|
                        #[trigger] doc_match_fwd(
                            self@,
                            query@,
                            from.y as int,
                            from.x as int,
                            y2,
                            g2,
                        ) ==> p.y < y2 || (p.y == y2 && p.x <= g2))
                    &&& direction is Backward ==> doc_match_bwd(
                        self@,
                        query@,
                        from.y as int,
                        from.x as int,
                        p.y as int,
                        p.x as int,
                    ) && (forall|y2: int, g2: int|
                        #[trigger] doc_match_bwd(
                            self@,
                            query@,
                            from.y as int,
                            from.x as int,
                            y2,
                            g2,
                        ) ==> y2 < p.y || (p.y == y2 && g2 <= p.x))
                },
                Option::None => {
                    &&& direction is Forward ==> forall|y2: int, g2: int|
                        !doc_match_fwd(
                            self@,
                            query@,
                            from.y as int,
                            from.x as int,
                            y2,
                            g2,
                        )
                    &&& direction is Backward ==> forall|y2: int, g2: int|
                        !doc_match_bwd(self@, query@, from.y as int, from.x as int, y2, g2)
                },
            },
    {
        let len = self.rows.len();
        if direction == SearchDirection::Forward {
            let mut y: usize = from.y;
            while y < len
                invariant
                    direction is Forward,
                    self.wf(),
                    len == self@.len(),
                    from.y <= y <= len,
                    from.y < self@.len() ==> from.x <= self@[from.y as int].len(),
                    forall|y2: int, g2: int|
                        y2 < y ==> !(#[trigger] doc_match_fwd(
                            self@,
                            query@,
                            from.y as int,
                            from.x as int,
                            y2,
                            g2,
                        )),
                decreases len - y,
            {
                let sx: usize = if y == from.y {
                    from.x
                } else {
                    0
                };
                let row: &Row = &self.rows[y];
                proof {
                    assert(row@ == self@[y as int]);
                }
                match row.find(query, sx, SearchDirection::Forward) {
                    Some(g) => {
                        return Some(Position { x: g, y });
                    },
                    None => {},
                }
                y += 1;
            }
            None
        } else {
            let mut yi: usize = if from.y == len {
                len
            } else {
                from.y + 1
            };
            while yi > 0
                invariant
                    direction is Backward,
                    self.wf(),
                    len == self@.len(),
                    yi <= len,
                    from.y <= self@.len(),
                    from.y < self@.len() ==> from.x <= self@[from.y as int].len() && yi <= from.y
                        + 1,
                    forall|y2: int, g2: int|
                        y2 >= yi ==> !(#[trigger] doc_match_bwd(
                            self@,
                            query@,
                            from.y as int,
                            from.x as int,
                            y2,
                            g2,
                        )),
                decreases yi,
            {
                yi -= 1;
                let row: &Row = &self.rows[yi];
                proof {
                    assert(row@ == self@[yi as int]);
                }
                let w: usize = if yi == from.y {
                    from.x
                } else {
                    row.len()
                };
                match row.find(query, w, SearchDirection::Backward) {
                    Some(g) => {
                        return Some(Position { x: g, y: yi });
                    },
                    None => {},
                }
            }
            None
        }
    }

    /// Recomputes every row's highlight array under the document's
    /// configuration, overlaying the occurrences of `word`.
    pub fn highlight(&mut self, word: Option<&str>)
        requires
            old(self).wf(),
        ensures
            final(self).wf(),
            final(self)@ == old(self)@,
            final(self).spec_dirty() == old(self).spec_dirty(),
            final(self).spec_file_name() == old(self).spec_file_name(),
            final(self).spec_file_type() == old(self).spec_file_type(),
            forall|i: int|
                0 <= i < old(self)@.len() ==> (#[trigger] final(self).spec_rows()[i]).hl() == (
                match word {
                    Option::Some(w) => match_overlay(
                        old(self)@[i],
                        highlight_seq(
                            old(self).spec_file_type().spec_options(),
                            first_chars(old(self)@[i]),
                            0,
                        ),
                        w@,
                        0,
                    ),
                    Option::None => highlight_seq(
                        old(self).spec_file_type().spec_options(),
                        first_chars(old(self)@[i]),
                        0,
                    ),
                }),
    {
        let mut i: usize = 0;
        while i < self.rows.len()
            invariant
                old(self).wf(),
                self.wf(),
                self@ == old(self)@,
                self.dirty == old(self).dirty,
                self.file_name == old(self).file_name,
                self.file_type == old(self).file_type,
                i <= self@.len(),
                forall|j: int|
                    0 <= j < i ==> (#[trigger] self.spec_rows()[j]).hl() == (match word {
                        Option::Some(w) => match_overlay(
                            old(self)@[j],
                            highlight_seq(
                                old(self).spec_file_type().spec_options(),
                                first_chars(old(self)@[j]),
                                0,
                            ),
                            w@,
                            0,
                        ),
                        Option::None => highlight_seq(
                            old(self).spec_file_type().spec_options(),
                            first_chars(old(self)@[j]),
                            0,
                        ),
                    }),
            decreases self@.len() - i,
        {
            let ghost before = self.spec_rows();
            let ghost view_before = self@;
            proof {
                assert(before == self.rows@);
                assert(before[i as int]@ == self@[i as int]);
                assert(before[i as int]@ == old(self)@[i as int]);
            }
            self.rows[i].highlight(self.file_type.highlighting_options(), word);
            proof {
                assert(self.rows@ == before.update(i as int, self.rows@[i as int]));
                assert forall|j: int| 0 <= j < self@.len() implies self@[j] == old(self)@[j] by {
                    if j != i {
                        assert(self.rows@[j] == before[j]);
                        assert(before[j]@ == view_before[j]);
                    } else {
                        assert(self.rows@[j]@ == before[i as int]@);
                    }
                }
                assert(self@ =~= old(self)@);
                assert forall|j: int| 0 <= j < i + 1 implies (#[trigger] self.spec_rows()[j]).hl()
                    == (match word {
                    Option::Some(w) => match_overlay(
                        old(self)@[j],
                        highlight_seq(
                            old(self).spec_file_type().spec_options(),
                            first_chars(old(self)@[j]),
                            0,
                        ),
                        w@,
                        0,
                    ),
                    Option::None => highlight_seq(
                        old(self).spec_file_type().spec_options(),
                        first_chars(old(self)@[j]),
                        0,
                    ),
                }) by {
                    if j < i {
                        assert(self.spec_rows()[j] == before[j]);
                        assert(before[j].hl() == (#[trigger] self.spec_rows()[j]).hl());
                    }
                }
            }
            i += 1;
        }
    }
}

/// `x` clamped from above to `len`.
pub open spec fn clamp_to(x: int, len: int) -> int {
    if x <= len {
        x
    } else {
        len
    }
}

impl Default for Document {
    /// An empty, clean document without a file name.
    fn default() -> (d: Document)
        ensures
            d@ == Seq::<Seq<Seq<char>>>::empty(),
            !d.spec_dirty(),
            d.spec_file_name() is None,
            d.wf(),
    {
        let d = Document {
            rows: Vec::new(),
            dirty: false,
            file_name: None,
            file_type: FileType::default(),
        };
        proof {
            assert(d@ =~= Seq::<Seq<Seq<char>>>::empty());
        }
        d
    }
}

} // verus!
