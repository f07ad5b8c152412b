//! The pattern loader: turn the lines of a plaintext pattern description
//! into the list of coordinates to activate.
//!
//! A line whose first non-space character is `!` is a comment; an empty
//! line is skipped.  In a pattern line, `O` marks a live cell while `.` and
//! space mark dead ones; any other character is a format error.  Pattern
//! rows are laid out from row zero, and the pattern must fit the board.

use vstd::prelude::*;

verus! {

/// Why a pattern description was rejected.
#[derive(Clone, Copy, PartialEq, Eq, Debug)]
pub enum LoadError {
    /// The file extension names no recognized pattern format.
    UnknownExtension,
    /// The board has no cells to populate.
    EmptyBoard,
    /// The pattern's bounding box exceeds the board dimensions.
    OutOfBounds,
    /// A character other than `O`, `.` or space in a pattern line.
    InvalidChar(char),
}

/// The first character of the line once every space is removed.
pub open spec fn first_non_space(l: Seq<char>) -> Option<char>
    decreases l.len(),
{
    if l.len() == 0 {
        None
    } else if l[0] != ' ' {
        Some(l[0])
    } else {
        first_non_space(l.drop_first())
    }
}

/// Empty lines and comment lines are skipped without consuming a row.
pub open spec fn skip_line(l: Seq<char>) -> bool {
    l.len() == 0 || first_non_space(l) == Some('!')
}

/// The characters allowed in a pattern line.
pub open spec fn ok_symbol(ch: char) -> bool {
    ch == 'O' || ch == '.' || ch == ' '
}

/// Every character of the line is allowed.
pub open spec fn line_ok(l: Seq<char>) -> bool {
    forall|j: int| 0 <= j < l.len() ==> ok_symbol(#[trigger] l[j])
}

/// The first disallowed character of the line.
pub open spec fn first_bad(l: Seq<char>) -> char
    decreases l.len(),
{
    if l.len() == 0 {
        ' '
    } else if !ok_symbol(l[0]) {
        l[0]
    } else {
        first_bad(l.drop_first())
    }
}

/// The live coordinates marked in the first `j` columns of a pattern line
/// sitting at `row`.
pub open spec fn line_coords(l: Seq<char>, row: usize, j: int) -> Seq<(usize, usize)>
    decreases j,
{
    if j <= 0 {
        Seq::empty()
    } else {
        line_coords(l, row, j - 1) + if l[j - 1] == 'O' {
            seq![(row, (j - 1) as usize)]
        } else {
            Seq::empty()
        }
    }
}

/// Parse the remaining lines, the next pattern row landing at `row`: either
/// every live coordinate in order, or the first error met.
pub open spec fn parse_model(
    lines: Seq<Seq<char>>,
    row: int,
    height: int,
    width: int,
) -> Result<Seq<(usize, usize)>, LoadError>
    decreases lines.len(),
{
    if lines.len() == 0 {
        Ok(Seq::empty())
    } else {
        let l = lines[0];
        if skip_line(l) {
            parse_model(lines.drop_first(), row, height, width)
        } else if row >= height || l.len() > width {
            Err(LoadError::OutOfBounds)
        } else if !line_ok(l) {
            Err(LoadError::InvalidChar(first_bad(l)))
        } else {
            match parse_model(lines.drop_first(), row + 1, height, width) {
                Ok(rest) => Ok(line_coords(l, row as usize, l.len() as int) + rest),
                Err(e) => Err(e),
            }
        }
    }
}

/// What loading a plaintext description yields: an empty board is rejected
/// outright, otherwise the lines are parsed from row zero.
pub open spec fn load_model(lines: Seq<Seq<char>>, height: int, width: int) -> Result<
    Seq<(usize, usize)>,
    LoadError,
> {
    if height <= 0 {
        Err(LoadError::EmptyBoard)
    } else {
        parse_model(lines, 0, height, width)
    }
}

/// The lines, each seen as its character sequence.
pub open spec fn lines_view(lines: Seq<Vec<char>>) -> Seq<Seq<char>> {
    lines.map_values(|v: Vec<char>| v@)
}

/// The recognized extension of a plaintext pattern file.
pub open spec fn cells_extension() -> Seq<char> {
    seq!['c', 'e', 'l', 'l', 's']
}

/// An allowed prefix pins the first disallowed character down.
proof fn lemma_first_bad(l: Seq<char>, j: int)
    requires
        0 <= j < l.len(),
        forall|k: int| 0 <= k < j ==> ok_symbol(#[trigger] l[k]),
        !ok_symbol(l[j]),
    ensures
        !line_ok(l),
        first_bad(l) == l[j],
    decreases j,
{
    if j > 0 {
        assert(ok_symbol(l[0]));
        let rest = l.drop_first();
        assert forall|k: int| 0 <= k < j - 1 implies ok_symbol(#[trigger] rest[k]) by {
            assert(rest[k] == l[k + 1]);
        }
        assert(rest[j - 1] == l[j]);
        lemma_first_bad(rest, j - 1);
    }
}

/// The first character of the line once every space is removed, found by
/// walking past the leading spaces.
fn first_non_space_char(line: &Vec<char>) -> (r: Option<char>)
    ensures
        r == first_non_space(line@),
{
    let mut j: usize = 0;
    proof {
        assert(line@.skip(0) =~= line@);
    }
    while j < line.len()
        invariant
            j <= line.len(),
            first_non_space(line@) == first_non_space(line@.skip(j as int)),
        decreases line.len() - j,
    {
        let ch = line[j];
        proof {
            assert(line@.skip(j as int)[0] == line@[j as int]);
            assert(line@.skip(j as int).drop_first() =~= line@.skip(j + 1));
        }
        if ch != ' ' {
            return Some(ch);
        }
        j += 1;
    }
    proof {
        assert(line@.skip(line@.len() as int) =~= Seq::<char>::empty());
    }
    None
}

/// Whether the line is skipped: empty, or a comment.
fn is_skip_line(line: &Vec<char>) -> (r: bool)
    ensures
        r == skip_line(line@),
{
    if line.len() == 0 {
        return true;
    }
    match first_non_space_char(line) {
        Some(ch) => ch == '!',
        None => false,
    }
}

/// The running total matches the accumulator plus whatever the remaining
/// lines still yield, errors carrying through.
spec fn combines(
    total: Result<Seq<(usize, usize)>, LoadError>,
    acc: Seq<(usize, usize)>,
    rest: Result<Seq<(usize, usize)>, LoadError>,
) -> bool {
    match rest {
        Ok(s) => total matches Ok(t) && t == acc + s,
        Err(e) => total matches Err(e2) && e2 == e,
    }
}

/// Parse a plaintext pattern against a `height` x `width` board: the live
/// coordinates in reading order, or the first error met.
pub fn parse_plaintext(lines: &Vec<Vec<char>>, height: usize, width: usize) -> (r: Result<
    Vec<(usize, usize)>,
    LoadError,
>)
    ensures
        match r {
            Ok(v) => load_model(lines_view(lines@), height as int, width as int) matches Ok(s)
                && s == v@,
            Err(e) => load_model(lines_view(lines@), height as int, width as int) matches Err(e2)
                && e2 == e,
        },
{
    let ghost lv = lines_view(lines@);
    let ghost hh = height as int;
    let ghost ww = width as int;
    let ghost total = parse_model(lv, 0, hh, ww);
    if height == 0 {
        return Err(LoadError::EmptyBoard);
    }
    let mut res: Vec<(usize, usize)> = Vec::new();
    let mut row: usize = 0;
    let mut i: usize = 0;
    proof {
        assert(lv.skip(0) =~= lv);
        match parse_model(lv, 0, hh, ww) {
            Ok(s) => {
                assert(Seq::<(usize, usize)>::empty() + s =~= s);
            },
            Err(_) => {},
        }
    }
    while i < lines.len()
        invariant
            lv == lines_view(lines@),
            hh == height as int,
            ww == width as int,
            0 < height,
            total == parse_model(lv, 0, hh, ww),
            i <= lines.len(),
            row <= height,
            combines(total, res@, parse_model(lv.skip(i as int), row as int, hh, ww)),
        decreases lines.len() - i,
    {
        let line = &lines[i];
        let ghost rest_i = lv.skip(i as int);
        proof {
            assert(rest_i[0] == lv[i as int]);
            assert(lv[i as int] == line@);
            assert(rest_i.drop_first() =~= lv.skip(i + 1));
        }
        if !is_skip_line(line) {
            if row >= height || line.len() > width {
                proof {
                    assert(parse_model(rest_i, row as int, hh, ww) == Err::<
                        Seq<(usize, usize)>,
                        LoadError,
                    >(LoadError::OutOfBounds));
                }
                return Err(LoadError::OutOfBounds);
            }
            let ghost acc0 = res@;
            let mut j: usize = 0;
            while j < line.len()
                invariant
                    lv == lines_view(lines@),
                    hh == height as int,
                    ww == width as int,
                    0 < height,
                    total == parse_model(lv, 0, hh, ww),
                    rest_i == lv.skip(i as int),
                    rest_i.len() > 0,
                    rest_i[0] == line@,
                    rest_i.drop_first() == lv.skip(i + 1),
                    i < lines.len(),
                    line@ == lines@[i as int]@,
                    !skip_line(line@),
                    row < height,
                    line@.len() <= width,
                    combines(total, acc0, parse_model(rest_i, row as int, hh, ww)),
                    j <= line.len(),
                    forall|k: int| 0 <= k < j ==> ok_symbol(#[trigger] line@[k]),
                    res@ == acc0 + line_coords(line@, row, j as int),
                decreases line.len() - j,
            {
                let ch = line[j];
                if ch == 'O' {
                    res.push((row, j));
                    proof {
                        assert(acc0 + line_coords(line@, row, j as int) + seq![(row, j)] =~= acc0
                            + line_coords(line@, row, j + 1));
                    }
                } else if ch == '.' || ch == ' ' {
                    proof {
                        assert(line_coords(line@, row, j + 1) =~= line_coords(
                            line@,
                            row,
                            j as int,
                        ));
                    }
                } else {
                    proof {
                        lemma_first_bad(line@, j as int);
                        assert(parse_model(rest_i, row as int, hh, ww) == Err::<
                            Seq<(usize, usize)>,
                            LoadError,
                        >(LoadError::InvalidChar(line@[j as int])));
                    }
                    return Err(LoadError::InvalidChar(ch));
                }
                j += 1;
            }
            proof {
                assert(line_ok(line@));
                let lc = line_coords(line@, row, line@.len() as int);
                let rest_next = parse_model(lv.skip(i + 1), row + 1, hh, ww);
                match rest_next {
                    Ok(tail) => {
                        assert(parse_model(rest_i, row as int, hh, ww) matches Ok(s) && s == lc
                            + tail);
                        assert(acc0 + (lc + tail) =~= (acc0 + lc) + tail);
                    },
                    Err(e) => {
                        assert(parse_model(rest_i, row as int, hh, ww) matches Err(e2) && e2 == e);
                    },
                }
            }
            row += 1;
        } else {
            proof {
                assert(parse_model(rest_i, row as int, hh, ww) == parse_model(
                    lv.skip(i + 1),
                    row as int,
                    hh,
                    ww,
                ));
            }
        }
        i += 1;
    }
    proof {
        assert(lv.skip(lines@.len() as int) =~= Seq::<Seq<char>>::empty());
        assert(res@ + Seq::<(usize, usize)>::empty() =~= res@);
    }
    Ok(res)
}

/// Whether the extension names the plaintext pattern format.
fn is_cells_extension(ext: &Vec<char>) -> (r: bool)
    ensures
        r == (ext@ == cells_extension()),
{
    proof {
        assert(cells_extension().len() == 5);
        assert(cells_extension()[0] == 'c');
        assert(cells_extension()[1] == 'e');
        assert(cells_extension()[2] == 'l');
        assert(cells_extension()[3] == 'l');
        assert(cells_extension()[4] == 's');
    }
    if ext.len() != 5 {
        return false;
    }
    let r = ext[0] == 'c' && ext[1] == 'e' && ext[2] == 'l' && ext[3] == 'l' && ext[4] == 's';
    proof {
        if r {
            assert(ext@ =~= cells_extension());
        }
    }
    r
}

/// Load a pattern description: only the `cells` (plaintext) extension is
/// recognized, and its lines are parsed against the board dimensions.
pub fn load_pattern(
    extension: &Option<Vec<char>>,
    lines: &Vec<Vec<char>>,
    height: usize,
    width: usize,
) -> (r: Result<Vec<(usize, usize)>, LoadError>)
    ensures
        ((*extension) matches Some(e) && e@ == cells_extension()) ==> match r {
            Ok(v) => load_model(lines_view(lines@), height as int, width as int) matches Ok(s)
                && s == v@,
            Err(e2) => load_model(lines_view(lines@), height as int, width as int) matches Err(e3)
                && e3 == e2,
        },
        !((*extension) matches Some(e) && e@ == cells_extension()) ==> r == Err::<
            Vec<(usize, usize)>,
            LoadError,
        >(LoadError::UnknownExtension),
{
    match extension {
        Some(ext) => {
            if is_cells_extension(ext) {
                parse_plaintext(lines, height, width)
            } else {
                Err(LoadError::UnknownExtension)
            }
        },
        None => Err(LoadError::UnknownExtension),
    }
}

} // verus!
