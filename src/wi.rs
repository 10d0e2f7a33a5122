//! The `.wi` text format of initial worlds: a header line `<w> <h>` of two
//! positive integers, then `h` rows of at least `w` bytes each, where `#` is
//! wire, `~` a tail, `@` a head and any other byte an empty cell.

use vstd::prelude::*;
use vstd::string::StringSliceAdditionalSpecFns;
use crate::common::{CellState, Point};
use crate::world::{cell_of, World};

verus! {

/// Why a `.wi` text was refused.
#[derive(Clone, Copy, Debug, PartialEq, Eq, Structural)]
pub enum WiError {
    /// The text has no line at all.
    MissingHeader,
    /// The first line does not hold exactly two fields.
    BadHeader,
    /// A header field is not a positive decimal integer that fits a `usize`.
    BadNumber,
    /// The width or height reaches past the `i32` lattice.
    TooLarge,
    /// A row is missing or shorter than the width.
    Dimensions,
}

/// The line of `cur` once its line feed is seen: without a final carriage return.
pub open spec fn strip_cr(cur: Seq<u8>) -> Seq<u8> {
    if cur.len() > 0 && cur.last() == 13 {
        cur.drop_last()
    } else {
        cur
    }
}

/// The lines of `s[i..]`, `cur` being the part of the current line before `i`.
/// Lines end at a line feed, which with a carriage return just before it is
/// not part of the line; a last line without a line feed is kept if non-empty.
pub open spec fn lines_from(s: Seq<u8>, i: int, cur: Seq<u8>) -> Seq<Seq<u8>>
    decreases s.len() - i,
{
    if i >= s.len() {
        if cur.len() > 0 {
            seq![cur]
        } else {
            seq![]
        }
    } else if s[i] == 10 {
        seq![strip_cr(cur)] + lines_from(s, i + 1, seq![])
    } else {
        lines_from(s, i + 1, cur.push(s[i]))
    }
}

pub open spec fn text_lines(s: Seq<u8>) -> Seq<Seq<u8>> {
    lines_from(s, 0, seq![])
}

/// ASCII whitespace: space, tab, line feed, form feed, carriage return.
pub open spec fn is_blank(b: u8) -> bool {
    b == 32 || b == 9 || b == 10 || b == 12 || b == 13
}

/// The fields of `l[i..]` separated by ASCII whitespace, `cur` being the
/// part of the current field before `i`.
pub open spec fn fields_from(l: Seq<u8>, i: int, cur: Seq<u8>) -> Seq<Seq<u8>>
    decreases l.len() - i,
{
    if i >= l.len() {
        if cur.len() > 0 {
            seq![cur]
        } else {
            seq![]
        }
    } else if is_blank(l[i]) {
        (if cur.len() > 0 {
            seq![cur]
        } else {
            seq![]
        }) + fields_from(l, i + 1, seq![])
    } else {
        fields_from(l, i + 1, cur.push(l[i]))
    }
}

pub open spec fn fields(l: Seq<u8>) -> Seq<Seq<u8>> {
    fields_from(l, 0, seq![])
}

pub open spec fn is_digit(b: u8) -> bool {
    48 <= b <= 57
}

/// The value of a string of decimal digits.
pub open spec fn digits_value(d: Seq<u8>) -> nat
    decreases d.len(),
{
    if d.len() == 0 {
        0
    } else {
        digits_value(d.drop_last()) * 10 + (d.last() - 48) as nat
    }
}

/// A token without its leading `+`, if any.
pub open spec fn unsigned_part(t: Seq<u8>) -> Seq<u8> {
    if t.len() > 0 && t[0] == 43 {
        t.drop_first()
    } else {
        t
    }
}

pub open spec fn all_digits(d: Seq<u8>) -> bool {
    forall|k: int| 0 <= k < d.len() ==> is_digit(#[trigger] d[k])
}

/// A `usize` written as an optional `+` and one or more decimal digits.
pub open spec fn parse_size(t: Seq<u8>) -> Option<nat> {
    let d = unsigned_part(t);
    if d.len() > 0 && all_digits(d) && digits_value(d) <= usize::MAX {
        Some(digits_value(d))
    } else {
        None
    }
}

/// The cell that a byte of a row stands for.
pub open spec fn cell_of_byte(b: u8) -> CellState {
    if b == 35 {
        CellState::Wire
    } else if b == 126 {
        CellState::Dead
    } else if b == 64 {
        CellState::Alive
    } else {
        CellState::Empty
    }
}

/// The width and height that the text `s` declares and satisfies, or why not.
pub open spec fn wi_size(s: Seq<u8>) -> Result<(nat, nat), WiError> {
    let ls = text_lines(s);
    if ls.len() == 0 {
        Err(WiError::MissingHeader)
    } else if fields(ls[0]).len() != 2 {
        Err(WiError::BadHeader)
    } else {
        let fw = parse_size(fields(ls[0])[0]);
        let fh = parse_size(fields(ls[0])[1]);
        if fw is None || fh is None || fw->0 == 0 || fh->0 == 0 {
            Err(WiError::BadNumber)
        } else if fw->0 > 0x8000_0000 || fh->0 > 0x8000_0000 {
            Err(WiError::TooLarge)
        } else if exists|y: int| 0 <= y < fh->0 && !#[trigger] row_ok(ls, y, fw->0) {
            Err(WiError::Dimensions)
        } else {
            Ok((fw->0, fh->0))
        }
    }
}

/// Row `y` of the grid (line `y + 1`) exists and has at least `w` bytes.
pub open spec fn row_ok(ls: Seq<Seq<u8>>, y: int, w: nat) -> bool {
    y + 1 < ls.len() && ls[y + 1].len() >= w
}

/// The cells that rows `ls[1..=h]` mark within the first `w` columns.
pub open spec fn wi_cells(ls: Seq<Seq<u8>>, w: nat, h: nat) -> Map<Point, CellState> {
    Map::new(
        |p: Point|
            0 <= p.x < w && 0 <= p.y < h && cell_of_byte(ls[p.y + 1][p.x as int])
                != CellState::Empty,
        |p: Point| cell_of_byte(ls[p.y + 1][p.x as int]),
    )
}

/// The byte that writes a cell state back into a row.
pub open spec fn byte_of_cell(c: CellState) -> u8 {
    match c {
        CellState::Wire => 35,
        CellState::Dead => 126,
        CellState::Alive => 64,
        CellState::Empty => 46,
    }
}

/// Loading keeps exactly the marked cells: a point is non-empty in the loaded
/// cells iff it lies in the declared rectangle on a `#`, `~` or `@`, and
/// writing such a cell back gives the very byte it was read from.
pub proof fn lemma_wi_round_trip(ls: Seq<Seq<u8>>, w: nat, h: nat, p: Point)
    ensures
        cell_of(wi_cells(ls, w, h), p) != CellState::Empty <==> (0 <= p.x < w && 0 <= p.y < h
            && cell_of_byte(ls[p.y + 1][p.x as int]) != CellState::Empty),
        cell_of(wi_cells(ls, w, h), p) != CellState::Empty ==> byte_of_cell(
            cell_of(wi_cells(ls, w, h), p),
        ) == ls[p.y + 1][p.x as int],
        cell_of(wi_cells(ls, w, h), p) != CellState::Empty ==> cell_of_byte(
            byte_of_cell(cell_of(wi_cells(ls, w, h), p)),
        ) == cell_of(wi_cells(ls, w, h), p),
{
}

pub open spec fn views_of(v: Vec<Vec<u8>>) -> Seq<Seq<u8>> {
    v@.map_values(|l: Vec<u8>| l@)
}

fn strip_cr_exec(cur: &mut Vec<u8>)
    ensures
        final(cur)@ == strip_cr(old(cur)@),
{
    if cur.len() > 0 && cur[cur.len() - 1] == 13 {
        cur.pop();
    }
}

/// The lines of `s`, as `str::lines` splits them.
fn split_lines(s: &[u8]) -> (r: Vec<Vec<u8>>)
    ensures
        views_of(r) == text_lines(s@),
{
    let mut out: Vec<Vec<u8>> = Vec::new();
    let mut cur: Vec<u8> = Vec::new();
    let mut i: usize = 0;
    assert(views_of(out) =~= Seq::<Seq<u8>>::empty());
    while i < s.len()
        invariant
            i <= s@.len(),
            text_lines(s@) == views_of(out) + lines_from(s@, i as int, cur@),
        decreases s@.len() - i,
    {
        let ghost before = views_of(out);
        let ghost cur0 = cur@;
        if s[i] == 10 {
            strip_cr_exec(&mut cur);
            let line = cur;
            cur = Vec::new();
            out.push(line);
            proof {
                let rest = lines_from(s@, i + 1, seq![]);
                assert(lines_from(s@, i as int, cur0) == seq![strip_cr(cur0)] + rest);
                assert(views_of(out) =~= before.push(strip_cr(cur0)));
                assert(before + (seq![strip_cr(cur0)] + rest) =~= before.push(strip_cr(cur0)) + rest);
                assert(cur@ =~= Seq::<u8>::empty());
            }
        } else {
            cur.push(s[i]);
        }
        i += 1;
    }
    let ghost before = views_of(out);
    if cur.len() > 0 {
        out.push(cur);
        assert(views_of(out) =~= before + lines_from(s@, i as int, cur@));
    } else {
        assert(views_of(out) =~= before + lines_from(s@, i as int, cur@));
    }
    out
}

fn is_blank_exec(b: u8) -> (r: bool)
    ensures
        r == is_blank(b),
{
    b == 32 || b == 9 || b == 10 || b == 12 || b == 13
}

/// The fields of `l`, as `str::split_ascii_whitespace` splits them.
fn split_fields(l: &Vec<u8>) -> (r: Vec<Vec<u8>>)
    ensures
        views_of(r) == fields(l@),
{
    let mut out: Vec<Vec<u8>> = Vec::new();
    let mut cur: Vec<u8> = Vec::new();
    let mut i: usize = 0;
    assert(views_of(out) =~= Seq::<Seq<u8>>::empty());
    while i < l.len()
        invariant
            i <= l@.len(),
            fields(l@) == views_of(out) + fields_from(l@, i as int, cur@),
        decreases l@.len() - i,
    {
        let ghost before = views_of(out);
        let ghost cur0 = cur@;
        if is_blank_exec(l[i]) {
            let ghost rest = fields_from(l@, i + 1, seq![]);
            if cur.len() > 0 {
                let field = cur;
                cur = Vec::new();
                out.push(field);
                proof {
                    assert(views_of(out) =~= before.push(cur0));
                    assert(before + (seq![cur0] + rest) =~= before.push(cur0) + rest);
                }
            } else {
                proof {
                    assert(Seq::<Seq<u8>>::empty() + rest =~= rest);
                }
            }
            proof {
                assert(cur@ =~= Seq::<u8>::empty());
            }
        } else {
            cur.push(l[i]);
        }
        i += 1;
    }
    let ghost before = views_of(out);
    if cur.len() > 0 {
        out.push(cur);
        assert(views_of(out) =~= before + fields_from(l@, i as int, cur@));
    } else {
        assert(views_of(out) =~= before + fields_from(l@, i as int, cur@));
    }
    out
}

proof fn lemma_digits_prefix(d: Seq<u8>, m: int)
    requires
        0 <= m < d.len(),
    ensures
        digits_value(d.subrange(0, m + 1)) == digits_value(d.subrange(0, m)) * 10 + (d[m] - 48) as nat,
{
    assert(d.subrange(0, m + 1).drop_last() =~= d.subrange(0, m));
}

proof fn lemma_digits_mono(d: Seq<u8>, m: int)
    requires
        0 <= m <= d.len(),
        all_digits(d),
    ensures
        digits_value(d.subrange(0, m)) <= digits_value(d),
    decreases d.len() - m,
{
    if m < d.len() {
        lemma_digits_prefix(d, m);
        lemma_digits_mono(d, m + 1);
    } else {
        assert(d.subrange(0, m) =~= d);
    }
}

/// Reads a `usize` as `str::parse::<usize>` does: an optional `+`, then decimal digits.
fn parse_size_exec(t: &Vec<u8>) -> (r: Option<usize>)
    ensures
        match r {
            Some(v) => parse_size(t@) == Some(v as nat),
            None => parse_size(t@) is None,
        },
{
    let start: usize = if t.len() > 0 && t[0] == 43 {
        1
    } else {
        0
    };
    let ghost d = unsigned_part(t@);
    assert(d =~= t@.subrange(start as int, t@.len() as int));
    if start == t.len() {
        return None;
    }
    let mut v: u128 = 0;
    let mut k: usize = start;
    assert(d.subrange(0, 0) =~= Seq::<u8>::empty());
    while k < t.len()
        invariant
            start <= k <= t@.len(),
            d == unsigned_part(t@),
            d == t@.subrange(start as int, t@.len() as int),
            forall|u: int| 0 <= u < k - start ==> is_digit(#[trigger] d[u]),
            v == digits_value(d.subrange(0, k - start)),
            v <= usize::MAX,
        decreases t@.len() - k,
    {
        let b = t[k];
        assert(d[k - start] == t@[k as int]);
        if b < 48 || b > 57 {
            assert(!is_digit(d[k - start]));
            assert(!all_digits(d));
            return None;
        }
        proof {
            lemma_digits_prefix(d, k - start);
        }
        assert(v * 10 <= usize::MAX * 10) by (nonlinear_arith)
            requires
                v <= usize::MAX,
        ;
        v = v * 10 + (b - 48) as u128;
        k += 1;
        if v > usize::MAX as u128 {
            proof {
                if all_digits(d) {
                    lemma_digits_mono(d, k - start);
                }
            }
            return None;
        }
    }
    assert(d.subrange(0, k - start) =~= d);
    assert(all_digits(d));
    Some(v as usize)
}

fn cell_of_byte_exec(b: u8) -> (r: CellState)
    ensures
        r == cell_of_byte(b),
{
    if b == 35 {
        CellState::Wire
    } else if b == 126 {
        CellState::Dead
    } else if b == 64 {
        CellState::Alive
    } else {
        CellState::Empty
    }
}

/// The cells of rows `ls[1..=h]` within the first `w` columns that come
/// before `(x, y)` in row-major order.
spec fn wi_prefix(ls: Seq<Seq<u8>>, w: nat, h: nat, y: int, x: int) -> Map<Point, CellState> {
    Map::new(
        |p: Point|
            0 <= p.x < w && 0 <= p.y < h && (p.y < y || (p.y == y && p.x < x)) && cell_of_byte(
                ls[p.y + 1][p.x as int],
            ) != CellState::Empty,
        |p: Point| cell_of_byte(ls[p.y + 1][p.x as int]),
    )
}

impl World {
    /// Loads a world from the text of a `.wi` file.
    pub fn from_wi_str(text: &str) -> (r: Result<World, WiError>)
        ensures
            match r {
                Ok(world) => match wi_size(text.spec_bytes()) {
                    Ok((w, h)) => world@ == wi_cells(text_lines(text.spec_bytes()), w, h),
                    Err(_) => false,
                },
                Err(e) => wi_size(text.spec_bytes()) == Err::<(nat, nat), WiError>(e),
            },
    {
        let bytes = text.as_bytes();
        let ls = split_lines(bytes);
        let ghost lv = views_of(ls);
        let ghost sb = text.spec_bytes();
        assert(lv == text_lines(sb));
        if ls.len() == 0 {
            return Err(WiError::MissingHeader);
        }
        let fs = split_fields(&ls[0]);
        assert(lv[0] == ls@[0]@);
        if fs.len() != 2 {
            return Err(WiError::BadHeader);
        }
        assert(views_of(fs)[0] == fs@[0]@ && views_of(fs)[1] == fs@[1]@);
        let w = match parse_size_exec(&fs[0]) {
            Some(w) => w,
            None => {
                return Err(WiError::BadNumber);
            },
        };
        let h = match parse_size_exec(&fs[1]) {
            Some(h) => h,
            None => {
                return Err(WiError::BadNumber);
            },
        };
        if w == 0 || h == 0 {
            return Err(WiError::BadNumber);
        }
        if w > 0x8000_0000 || h > 0x8000_0000 {
            return Err(WiError::TooLarge);
        }
        assert(fields(lv[0]) == views_of(fs));
        let mut y: usize = 0;
        while y < h
            invariant
                lv == views_of(ls),
                lv == text_lines(sb),
                sb == text.spec_bytes(),
                lv.len() > 0,
                fields(lv[0]).len() == 2,
                parse_size(fields(lv[0])[0]) == Some(w as nat),
                parse_size(fields(lv[0])[1]) == Some(h as nat),
                0 < w <= 0x8000_0000,
                0 < h <= 0x8000_0000,
                y <= h,
                forall|y2: int| 0 <= y2 < y ==> #[trigger] row_ok(lv, y2, w as nat),
            decreases h - y,
        {
            if y + 1 >= ls.len() || ls[y + 1].len() < w {
                proof {
                    if y + 1 < ls.len() {
                        assert(lv[y + 1] == ls@[y + 1]@);
                    }
                    assert(!row_ok(lv, y as int, w as nat));
                    assert(parse_size(fields(lv[0])[0]) == Some(w as nat));
                    assert(parse_size(fields(lv[0])[1]) == Some(h as nat));
                    assert(wi_size(sb) == Err::<(nat, nat), WiError>(WiError::Dimensions));
                }
                return Err(WiError::Dimensions);
            }
            assert(lv[y + 1] == ls@[y + 1]@);
            assert(row_ok(lv, y as int, w as nat));
            y += 1;
        }
        let mut world = World::new();
        let mut y: usize = 0;
        assert(world@ =~= wi_prefix(lv, w as nat, h as nat, 0, 0));
        while y < h
            invariant
                lv == views_of(ls),
                lv == text_lines(sb),
                sb == text.spec_bytes(),
                lv.len() > 0,
                fields(lv[0]).len() == 2,
                parse_size(fields(lv[0])[0]) == Some(w as nat),
                parse_size(fields(lv[0])[1]) == Some(h as nat),
                0 < w <= 0x8000_0000,
                0 < h <= 0x8000_0000,
                y <= h <= 0x8000_0000,
                w <= 0x8000_0000,
                forall|y2: int| 0 <= y2 < h ==> #[trigger] row_ok(lv, y2, w as nat),
                world@ == wi_prefix(lv, w as nat, h as nat, y as int, 0),
            decreases h - y,
        {
            assert(row_ok(lv, y as int, w as nat));
            let row = &ls[y + 1];
            assert(lv[y as int + 1] == row@);
            let mut x: usize = 0;
            while x < w
                invariant
                    lv == views_of(ls),
                    y < h <= 0x8000_0000,
                    w <= 0x8000_0000,
                    row@ == lv[y + 1],
                    row@.len() >= w,
                    x <= w,
                    world@ == wi_prefix(lv, w as nat, h as nat, y as int, x as int),
                decreases w - x,
            {
                let c = cell_of_byte_exec(row[x]);
                let ghost before = world@;
                if c != CellState::Empty {
                    world.set_tile(Point { x: x as i32, y: y as i32 }, c);
                }
                assert(world@ =~= wi_prefix(lv, w as nat, h as nat, y as int, x + 1));
                x += 1;
            }
            assert(world@ =~= wi_prefix(lv, w as nat, h as nat, y + 1, 0));
            y += 1;
        }
        assert(world@ =~= wi_cells(lv, w as nat, h as nat));
        Ok(world)
    }
}

} // verus!
