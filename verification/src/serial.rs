//! The board's text format. The first line is `"<width>x<height>"`; every
//! further line is `"<x>,<y>"` naming one live cell; all other cells are
//! dead. Leading and trailing whitespace is trimmed before parsing, and
//! each numeric field tolerates whitespace around it. Parsing is
//! all-or-nothing: any malformed line fails the whole load.

use vstd::prelude::*;

use crate::game::{Game, GameError};
use crate::text::{
    spec_trim, spec_split, spec_parse_pair, spec_parse_field, spec_dec, is_ws, is_digit,
    trim_front, trim_back, read_pair, split_line, trim_bounds, fmt_usize, lemma_dec_props,
    lemma_digit_not_special, lemma_trim_identity, lemma_split_no_sep, lemma_split_first,
};

verus! {

/// The abstract content of a board: its dimensions and its live-cell set,
/// the canonical form for round-trip equality.
#[verifier::ext_equal]
pub struct BoardModel {
    pub width: int,
    pub height: int,
    pub live: Set<(int, int)>,
}

impl BoardModel {
    /// An all-dead board of the given dimensions.
    pub open spec fn empty(w: int, h: int) -> BoardModel {
        BoardModel { width: w, height: h, live: Set::empty() }
    }

    /// The same board with one more live cell.
    pub open spec fn set_live(self, x: int, y: int) -> BoardModel {
        BoardModel { live: self.live.insert((x, y)), ..self }
    }

    /// A representable board: positive dimensions that fit the machine,
    /// and live cells only inside them.
    pub open spec fn valid(self) -> bool {
        &&& 1 <= self.width <= usize::MAX as int
        &&& 1 <= self.height <= usize::MAX as int
        &&& forall|p: (int, int)|
            self.live.contains(p) ==> 0 <= p.0 < self.width && 0 <= p.1 < self.height
    }
}

impl Game {
    /// The abstract content of this board.
    pub open spec fn model(self) -> BoardModel {
        BoardModel { width: self.width(), height: self.height(), live: self.live_set() }
    }
}

/// Applies the parsed coordinate lines to a board model, one live-cell
/// mark per line, failing on the first malformed or out-of-bounds line.
pub open spec fn spec_apply_lines(m: BoardModel, lines: Seq<Seq<char>>) -> Result<
    BoardModel,
    GameError,
>
    decreases lines.len(),
{
    if lines.len() == 0 {
        Ok(m)
    } else {
        match spec_parse_pair(lines[0], ',') {
            None => Err(GameError::FormatError),
            Some((x, y)) => {
                if x as int >= m.width || y as int >= m.height {
                    Err(GameError::OutOfBounds)
                } else {
                    spec_apply_lines(
                        m.set_live(x as int, y as int),
                        lines.subrange(1, lines.len() as int),
                    )
                }
            },
        }
    }
}

/// What deserializing a text blob yields: the board described by the
/// header and coordinate lines, or the first error encountered.
pub open spec fn spec_parse_board(s: Seq<char>) -> Result<BoardModel, GameError> {
    let t = spec_trim(s);
    if t.len() == 0 {
        Err(GameError::FormatError)
    } else {
        let parts = spec_split(t, '\n');
        match spec_parse_pair(parts[0], 'x') {
            None => Err(GameError::FormatError),
            Some((w, h)) => {
                if w == 0 || h == 0 {
                    Err(GameError::ZeroDimension)
                } else {
                    spec_apply_lines(
                        BoardModel::empty(w as int, h as int),
                        parts.subrange(1, parts.len() as int),
                    )
                }
            },
        }
    }
}

/// The header line of the serialized form: `"<width>x<height>"`.
pub open spec fn header_line(m: BoardModel) -> Seq<char> {
    spec_dec(m.width) + seq!['x'] + spec_dec(m.height)
}

/// One live-cell line of the serialized form: `"<x>,<y>"`.
pub open spec fn cell_line(x: int, y: int) -> Seq<char> {
    spec_dec(x) + seq![','] + spec_dec(y)
}

/// The live-cell lines from position `(x, y)` on, visiting cells in
/// column-major order: all `y` for each `x` in turn.
pub open spec fn cell_lines(m: BoardModel, x: int, y: int) -> Seq<Seq<char>>
    decreases m.width - x, m.height - y,
{
    if m.width <= x {
        Seq::empty()
    } else if m.height <= y {
        cell_lines(m, x + 1, 0)
    } else {
        (if m.live.contains((x, y)) {
            seq![cell_line(x, y)]
        } else {
            Seq::empty()
        }) + cell_lines(m, x, y + 1)
    }
}

/// Every line of the serialized form, header first.
pub open spec fn all_lines(m: BoardModel) -> Seq<Seq<char>> {
    seq![header_line(m)] + cell_lines(m, 0, 0)
}

/// The lines joined with a `'\n'` after each one (the written form).
pub open spec fn term_join(ls: Seq<Seq<char>>) -> Seq<char>
    decreases ls.len(),
{
    if ls.len() == 0 {
        Seq::empty()
    } else {
        ls[0] + seq!['\n'] + term_join(ls.subrange(1, ls.len() as int))
    }
}

/// The lines joined with a `'\n'` between them (the trimmed form).
pub open spec fn sep_join(ls: Seq<Seq<char>>) -> Seq<char>
    decreases ls.len(),
{
    if ls.len() == 0 {
        Seq::empty()
    } else if ls.len() == 1 {
        ls[0]
    } else {
        ls[0] + seq!['\n'] + sep_join(ls.subrange(1, ls.len() as int))
    }
}

/// What serializing a board yields: the header line, then one line per
/// live cell in column-major order, each line newline-terminated.
pub open spec fn spec_render(m: BoardModel) -> Seq<char> {
    term_join(all_lines(m))
}

/// The lines still to be consumed while deserializing.
pub open spec fn rest_parts(rest: Option<&str>) -> Seq<Seq<char>> {
    match rest {
        Some(r) => spec_split(r@, '\n'),
        None => Seq::empty(),
    }
}

impl Game {
    /// Reconstructs a board from its serialized form. The result carries
    /// no cursor. Returns `FormatError` for a missing or malformed header
    /// or coordinate line, `ZeroDimension` when the header names a zero
    /// width or height, and `OutOfBounds` for a coordinate line outside
    /// the declared grid — exactly as [`spec_parse_board`] lays out.
    pub fn from_string(s: String) -> (r: Result<Game, GameError>)
        ensures
            (match r {
                Ok(g) => g.well_formed() && g.cursor_spec() is None && spec_parse_board(s@)
                    == Ok::<BoardModel, GameError>(g.model()),
                Err(e) => spec_parse_board(s@) == Err::<BoardModel, GameError>(e),
            }),
    {
        let st: &str = s.as_str();
        let (lo, hi) = trim_bounds(st);
        let t: &str = st.substring_char(lo, hi);
        let ghost parts = spec_split(t@, '\n');
        if t.unicode_len() == 0 {
            return Err(GameError::FormatError);
        }
        let (head, first_rest) = split_line(t);
        proof {
            assert(parts[0] == head@);
            assert(parts.subrange(1, parts.len() as int) =~= rest_parts(first_rest));
        }
        let (w, h) = match read_pair(head, 'x') {
            Some(p) => p,
            None => {
                return Err(GameError::FormatError);
            },
        };
        if w == 0 || h == 0 {
            return Err(GameError::ZeroDimension);
        }
        let mut game = Game::new(w, h);
        proof {
            assert(game.model() =~= BoardModel::empty(w as int, h as int));
        }
        let mut rest = first_rest;
        loop
            invariant
                game.well_formed(),
                game.cursor_spec() is None,
                spec_parse_board(s@) == spec_apply_lines(game.model(), rest_parts(rest)),
            ensures
                rest is None,
            decreases (match rest {
                Some(rr) => rr@.len() + 1,
                None => 0nat,
            }),
        {
            let rr = match rest {
                None => {
                    break ;
                },
                Some(rr) => rr,
            };
            let ghost m_prev = game.model();
            let ghost lines = rest_parts(rest);
            let (line, rest2) = split_line(rr);
            proof {
                assert(lines[0] == line@);
                assert(lines.subrange(1, lines.len() as int) =~= rest_parts(rest2));
            }
            let (x, y) = match read_pair(line, ',') {
                Some(p) => p,
                None => {
                    return Err(GameError::FormatError);
                },
            };
            match game.set_cell(x, y) {
                Ok(()) => {
                    proof {
                        assert(game.live_set() =~= m_prev.live.insert((x as int, y as int)));
                        assert(game.model() =~= m_prev.set_live(x as int, y as int));
                    }
                },
                Err(_) => {
                    return Err(GameError::OutOfBounds);
                },
            }
            rest = rest2;
        }
        Ok(game)
    }

    /// Serializes the board: the header line, then one `"<x>,<y>"` line
    /// per live cell, visited in column-major order — exactly the text
    /// [`spec_render`] describes.
    pub fn to_string(&self) -> (out: String)
        requires
            self.well_formed(),
        ensures
            out@ == spec_render(self.model()),
    {
        let ghost m = self.model();
        let w = self.get_width();
        let h = self.get_height();
        let mut out = fmt_usize(w);
        out.append("x");
        let hs = fmt_usize(h);
        out.append(hs.as_str());
        out.append("\n");
        proof {
            reveal_strlit("x");
            reveal_strlit("\n");
            assert("x"@ =~= seq!['x']);
            assert("\n"@ =~= seq!['\n']);
            let al = all_lines(m);
            assert(al[0] == header_line(m));
            assert(al.subrange(1, al.len() as int) =~= cell_lines(m, 0, 0));
            assert(out@ + term_join(cell_lines(m, 0, 0)) =~= spec_render(m));
        }
        let mut x: usize = 0;
        while x < w
            invariant
                self.well_formed(),
                m == self.model(),
                w == self.width(),
                h == self.height(),
                x <= w,
                out@ + term_join(cell_lines(m, x as int, 0)) == spec_render(m),
            decreases w - x,
        {
            let mut y: usize = 0;
            while y < h
                invariant
                    self.well_formed(),
                    m == self.model(),
                    w == self.width(),
                    h == self.height(),
                    x < w,
                    y <= h,
                    out@ + term_join(cell_lines(m, x as int, y as int)) == spec_render(m),
                decreases h - y,
            {
                if self.get_cell(x, y) {
                    proof {
                        assert(m.live.contains((x as int, y as int)));
                        let cl = cell_lines(m, x as int, y as int);
                        let rest = cell_lines(m, x as int, y as int + 1);
                        assert(cl == seq![cell_line(x as int, y as int)] + rest);
                        assert(cl[0] == cell_line(x as int, y as int));
                        assert(cl.subrange(1, cl.len() as int) =~= rest);
                    }
                    let fx = fmt_usize(x);
                    out.append(fx.as_str());
                    out.append(",");
                    let fy = fmt_usize(y);
                    out.append(fy.as_str());
                    out.append("\n");
                    proof {
                        reveal_strlit(",");
                        reveal_strlit("\n");
                        assert(","@ =~= seq![',']);
                        assert("\n"@ =~= seq!['\n']);
                        assert(out@ + term_join(cell_lines(m, x as int, y as int + 1)) =~= spec_render(
                            m,
                        ));
                    }
                } else {
                    proof {
                        assert(!m.live.contains((x as int, y as int)));
                        assert(cell_lines(m, x as int, y as int) =~= cell_lines(
                            m,
                            x as int,
                            y as int + 1,
                        ));
                    }
                }
                y = y + 1;
            }
            proof {
                assert(cell_lines(m, x as int, h as int) == cell_lines(m, x as int + 1, 0));
            }
            x = x + 1;
        }
        proof {
            assert(cell_lines(m, w as int, 0) =~= Seq::<Seq<char>>::empty());
            assert(term_join(Seq::<Seq<char>>::empty()) =~= Seq::<char>::empty());
            assert(out@ + Seq::<char>::empty() =~= out@);
        }
        out
    }
}

/// A line of the serialized form: nonempty, and free of whitespace (so
/// in particular free of newlines).
pub open spec fn line_ok(l: Seq<char>) -> bool {
    l.len() > 0 && forall|i: int| 0 <= i < l.len() ==> !is_ws(#[trigger] l[i])
}

/// Column-major order: whether `(a, b)` is visited strictly before the
/// position `(x, y)`.
pub open spec fn col_before(a: int, b: int, x: int, y: int) -> bool {
    a < x || (a == x && b < y)
}

/// A `"<a><sep><b>"` line built from decimals is a well-formed line.
pub proof fn lemma_line_ok_pair(a: int, b: int, sep: char)
    requires
        a >= 0,
        b >= 0,
        !is_ws(sep),
    ensures
        line_ok(spec_dec(a) + seq![sep] + spec_dec(b)),
{
    lemma_dec_props(a);
    lemma_dec_props(b);
    let da = spec_dec(a);
    let db = spec_dec(b);
    let l = da + seq![sep] + db;
    assert forall|i: int| 0 <= i < l.len() implies !is_ws(#[trigger] l[i]) by {
        if i < da.len() {
            assert(l[i] == da[i]);
            lemma_digit_not_special(da[i]);
        } else if i == da.len() {
            assert(l[i] == sep);
        } else {
            assert(l[i] == db[i - da.len() - 1]);
            lemma_digit_not_special(db[i - da.len() - 1]);
        }
    }
}

/// Every live-cell line is a well-formed line.
pub proof fn lemma_cell_lines_ok(m: BoardModel, x: int, y: int)
    requires
        m.valid(),
        0 <= x <= m.width,
        0 <= y <= m.height,
    ensures
        forall|i: int|
            0 <= i < cell_lines(m, x, y).len() ==> line_ok(#[trigger] cell_lines(m, x, y)[i]),
    decreases m.width - x, m.height - y,
{
    if x >= m.width {
    } else if y >= m.height {
        lemma_cell_lines_ok(m, x + 1, 0);
        assert(cell_lines(m, x, y) == cell_lines(m, x + 1, 0));
    } else {
        lemma_cell_lines_ok(m, x, y + 1);
        let cl = cell_lines(m, x, y);
        let rest = cell_lines(m, x, y + 1);
        if !m.live.contains((x, y)) {
            assert(cl =~= rest);
        }
        if m.live.contains((x, y)) {
            lemma_line_ok_pair(x, y, ',');
            assert forall|i: int| 0 <= i < cl.len() implies line_ok(#[trigger] cl[i]) by {
                if i == 0 {
                    assert(cl[i] == cell_line(x, y));
                } else {
                    assert(cl[i] == rest[i - 1]);
                }
            }
        } else {
            assert forall|i: int| 0 <= i < cl.len() implies line_ok(#[trigger] cl[i]) by {
                assert(cl[i] == rest[i]);
            }
        }
    }
}

/// The terminated join is the separated join plus one final newline.
pub proof fn lemma_term_join_sep(ls: Seq<Seq<char>>)
    requires
        ls.len() >= 1,
    ensures
        term_join(ls) == sep_join(ls) + seq!['\n'],
    decreases ls.len(),
{
    if ls.len() == 1 {
        assert(term_join(ls.subrange(1, 1)) == Seq::<char>::empty());
        assert(term_join(ls) =~= ls[0] + seq!['\n']);
        assert(sep_join(ls) + seq!['\n'] =~= ls[0] + seq!['\n']);
    } else {
        lemma_term_join_sep(ls.subrange(1, ls.len() as int));
        assert(term_join(ls) =~= sep_join(ls) + seq!['\n']);
    }
}

/// A separated join of well-formed lines is nonempty and has
/// non-whitespace characters at both ends.
pub proof fn lemma_sep_join_ends(ls: Seq<Seq<char>>)
    requires
        ls.len() >= 1,
        forall|i: int| 0 <= i < ls.len() ==> line_ok(#[trigger] ls[i]),
    ensures
        sep_join(ls).len() > 0,
        !is_ws(sep_join(ls)[0]),
        !is_ws(sep_join(ls).last()),
    decreases ls.len(),
{
    assert(line_ok(ls[0]));
    if ls.len() == 1 {
    } else {
        let rest = ls.subrange(1, ls.len() as int);
        assert forall|i: int| 0 <= i < rest.len() implies line_ok(#[trigger] rest[i]) by {
            assert(rest[i] == ls[i + 1]);
        }
        lemma_sep_join_ends(rest);
        let u = sep_join(ls);
        assert(u == ls[0] + seq!['\n'] + sep_join(rest));
        assert(u[0] == ls[0][0]);
        assert(u.last() == sep_join(rest).last());
    }
}

/// Splitting a separated join of newline-free lines recovers the lines.
pub proof fn lemma_split_sep_join(ls: Seq<Seq<char>>)
    requires
        ls.len() >= 1,
        forall|i: int| 0 <= i < ls.len() ==> line_ok(#[trigger] ls[i]),
    ensures
        spec_split(sep_join(ls), '\n') == ls,
    decreases ls.len(),
{
    if ls.len() == 1 {
        lemma_split_no_sep(ls[0], '\n');
        assert(spec_split(sep_join(ls), '\n') =~= ls);
    } else {
        let rest = ls.subrange(1, ls.len() as int);
        assert forall|i: int| 0 <= i < rest.len() implies line_ok(#[trigger] rest[i]) by {
            assert(rest[i] == ls[i + 1]);
        }
        lemma_split_sep_join(rest);
        let u = sep_join(ls);
        let l0 = ls[0];
        assert(u == l0 + seq!['\n'] + sep_join(rest));
        assert(u[l0.len() as int] == '\n');
        assert forall|j: int| 0 <= j < l0.len() implies u[j] != '\n' by {
            assert(u[j] == l0[j]);
        }
        lemma_split_first(u, '\n', l0.len() as int);
        assert(u.subrange(0, l0.len() as int) =~= l0);
        assert(u.subrange(l0.len() as int + 1, u.len() as int) =~= sep_join(rest));
        assert(spec_split(u, '\n') =~= ls);
    }
}

/// A `"<a><sep><b>"` line built from decimals parses back to `(a, b)`.
pub proof fn lemma_parse_pair_dec(a: int, b: int, sep: char)
    requires
        0 <= a <= usize::MAX as int,
        0 <= b <= usize::MAX as int,
        !is_ws(sep),
        !is_digit(sep),
    ensures
        spec_parse_pair(spec_dec(a) + seq![sep] + spec_dec(b), sep) == Some(
            (a as usize, b as usize),
        ),
{
    lemma_dec_props(a);
    lemma_dec_props(b);
    let da = spec_dec(a);
    let db = spec_dec(b);
    let s = da + seq![sep] + db;
    assert(s[da.len() as int] == sep);
    assert forall|j: int| 0 <= j < da.len() implies s[j] != sep by {
        assert(s[j] == da[j]);
    }
    lemma_split_first(s, sep, da.len() as int);
    assert forall|j: int| 0 <= j < db.len() implies db[j] != sep by {
        assert(is_digit(db[j]));
    }
    lemma_split_no_sep(db, sep);
    assert(s.subrange(0, da.len() as int) =~= da);
    assert(s.subrange(da.len() as int + 1, s.len() as int) =~= db);
    let parts = spec_split(s, sep);
    assert(parts =~= seq![da, db]);
    lemma_digit_not_special(da[0]);
    lemma_digit_not_special(da.last());
    lemma_digit_not_special(db[0]);
    lemma_digit_not_special(db.last());
    lemma_trim_identity(da);
    lemma_trim_identity(db);
    assert(spec_parse_field(da) == Some(a as usize));
    assert(spec_parse_field(db) == Some(b as usize));
}

/// Applying the live-cell lines from `(x, y)` on to a board that already
/// holds exactly the live cells visited before `(x, y)` rebuilds the
/// whole board.
pub proof fn lemma_apply_cell_lines(m: BoardModel, acc: BoardModel, x: int, y: int)
    requires
        m.valid(),
        acc.width == m.width,
        acc.height == m.height,
        0 <= x <= m.width,
        0 <= y <= m.height,
        forall|p: (int, int)| #[trigger]
            acc.live.contains(p) <==> (m.live.contains(p) && col_before(p.0, p.1, x, y)),
    ensures
        spec_apply_lines(acc, cell_lines(m, x, y)) == Ok::<BoardModel, GameError>(m),
    decreases m.width - x, m.height - y,
{
    if x >= m.width {
        assert(acc.live =~= m.live) by {
            assert forall|p: (int, int)| m.live.contains(p) implies acc.live.contains(p) by {
                assert(p.0 < m.width);
            }
        }
        assert(acc =~= m);
    } else if y >= m.height {
        assert forall|p: (int, int)| #[trigger]
            acc.live.contains(p) <==> (m.live.contains(p) && col_before(p.0, p.1, x + 1, 0)) by {
            if m.live.contains(p) {
                assert(0 <= p.1 < m.height);
            }
        }
        lemma_apply_cell_lines(m, acc, x + 1, 0);
    } else if m.live.contains((x, y)) {
        lemma_parse_pair_dec(x, y, ',');
        let cl = cell_lines(m, x, y);
        let rest = cell_lines(m, x, y + 1);
        assert(cl == seq![cell_line(x, y)] + rest);
        assert(cl[0] == cell_line(x, y));
        assert(cl.subrange(1, cl.len() as int) =~= rest);
        let acc2 = acc.set_live(x, y);
        assert forall|p: (int, int)| #[trigger]
            acc2.live.contains(p) <==> (m.live.contains(p) && col_before(p.0, p.1, x, y + 1)) by {
            if p == (x, y) {
                assert(m.live.contains(p));
            }
        }
        lemma_apply_cell_lines(m, acc2, x, y + 1);
        assert(spec_apply_lines(acc, cl) == spec_apply_lines(acc2, rest));
    } else {
        let cl = cell_lines(m, x, y);
        let rest = cell_lines(m, x, y + 1);
        assert(cl =~= rest);
        assert forall|p: (int, int)| #[trigger]
            acc.live.contains(p) <==> (m.live.contains(p) && col_before(p.0, p.1, x, y + 1)) by {
            if p == (x, y) {
                assert(!m.live.contains(p));
            }
        }
        lemma_apply_cell_lines(m, acc, x, y + 1);
    }
}

/// Rendering a representable board and parsing the text back yields
/// exactly that board.
pub proof fn lemma_render_parses(m: BoardModel)
    requires
        m.valid(),
    ensures
        spec_parse_board(spec_render(m)) == Ok::<BoardModel, GameError>(m),
{
    let al = all_lines(m);
    lemma_line_ok_pair(m.width, m.height, 'x');
    lemma_cell_lines_ok(m, 0, 0);
    assert forall|i: int| 0 <= i < al.len() implies line_ok(#[trigger] al[i]) by {
        if i == 0 {
            assert(al[i] == header_line(m));
        } else {
            assert(al[i] == cell_lines(m, 0, 0)[i - 1]);
        }
    }
    lemma_term_join_sep(al);
    lemma_sep_join_ends(al);
    let u = sep_join(al);
    let s = spec_render(m);
    assert(s == u + seq!['\n']);
    assert(s[0] == u[0]);
    assert(trim_front(s) == s);
    assert(s.last() == '\n');
    assert(s.drop_last() =~= u);
    assert(trim_back(s) == trim_back(u));
    assert(trim_back(u) == u);
    assert(spec_trim(s) == u);
    lemma_split_sep_join(al);
    assert(spec_split(u, '\n') == al);
    assert(al[0] == header_line(m));
    lemma_parse_pair_dec(m.width, m.height, 'x');
    assert(spec_parse_pair(al[0], 'x') == Some((m.width as usize, m.height as usize)));
    assert(al.subrange(1, al.len() as int) =~= cell_lines(m, 0, 0));
    let acc0 = BoardModel::empty(m.width, m.height);
    assert forall|p: (int, int)| #[trigger]
        acc0.live.contains(p) <==> (m.live.contains(p) && col_before(p.0, p.1, 0, 0)) by {
        if m.live.contains(p) {
            assert(p.0 >= 0);
        }
    }
    lemma_apply_cell_lines(m, acc0, 0, 0);
}

/// Round trip: serializing any well-formed board with positive
/// dimensions and loading the text back yields a board with the same
/// width, the same height, and the same live-cell set.
pub proof fn lemma_round_trip(g: Game)
    requires
        g.well_formed(),
        g.width() >= 1,
        g.height() >= 1,
    ensures
        spec_parse_board(spec_render(g.model())) == Ok::<BoardModel, GameError>(g.model()),
{
    g.lemma_dims_bounds();
    lemma_render_parses(g.model());
}

} // verus!
