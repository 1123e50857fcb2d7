//! Text encoding of a grid: 81 characters, row-major, digits `1`-`9` for
//! filled cells and `.` for empty ones, with precise error messages for a
//! wrong length and for invalid characters.

use vstd::prelude::*;

use crate::models::{cell_wf, grid_wf, Sudoku};
use vstd::string::{StrSliceExecFns, StringExecFns};

verus! {

/// The character for the decimal digit `d`.
pub open spec fn dec_digit_char(d: int) -> char {
    if d == 0 {
        '0'
    } else if d == 1 {
        '1'
    } else if d == 2 {
        '2'
    } else if d == 3 {
        '3'
    } else if d == 4 {
        '4'
    } else if d == 5 {
        '5'
    } else if d == 6 {
        '6'
    } else if d == 7 {
        '7'
    } else if d == 8 {
        '8'
    } else {
        '9'
    }
}

/// The decimal representation of `n`, most significant digit first.
pub open spec fn dec_rep(n: nat) -> Seq<char>
    decreases n,
{
    if n < 10 {
        seq![dec_digit_char(n as int)]
    } else {
        dec_rep(n / 10) + seq![dec_digit_char((n % 10) as int)]
    }
}

/// The character that encodes one cell.
pub open spec fn ser_char(c: Option<u8>) -> char {
    match c {
        None => '.',
        Some(d) => dec_digit_char(d as int),
    }
}

/// The encoding of a whole grid: one character per cell, row-major.
pub open spec fn ser_seq(g: Seq<Option<u8>>) -> Seq<char> {
    Seq::new(g.len(), |i: int| ser_char(g[i]))
}

/// What one character decodes to: `None` when the character is not allowed,
/// otherwise the cell it stands for.
pub open spec fn parse_cell(c: char) -> Option<Option<u8>> {
    if c == '.' {
        Some(None)
    } else if c == '1' {
        Some(Some(1u8))
    } else if c == '2' {
        Some(Some(2u8))
    } else if c == '3' {
        Some(Some(3u8))
    } else if c == '4' {
        Some(Some(4u8))
    } else if c == '5' {
        Some(Some(5u8))
    } else if c == '6' {
        Some(Some(6u8))
    } else if c == '7' {
        Some(Some(7u8))
    } else if c == '8' {
        Some(Some(8u8))
    } else if c == '9' {
        Some(Some(9u8))
    } else {
        None
    }
}

/// The grid encoded by an 81-character text whose characters all decode.
pub open spec fn parsed_grid(s: Seq<char>) -> Seq<Option<u8>> {
    Seq::new(81, |i: int| parse_cell(s[i]).unwrap())
}

/// The message reported for a text of `n` characters instead of 81.
pub open spec fn length_error_msg(n: nat) -> Seq<char> {
    "Input string was "@ + dec_rep(n) + " chars long. Expected 81."@
}

/// The message reported for the invalid character `c` at position `i`.
pub open spec fn bad_char_msg(c: char, i: nat) -> Seq<char> {
    "Unknown character "@ + seq![c] + " at position "@ + dec_rep(i) + "."@
}

/// The messages for every invalid character among the first `upto`
/// positions, in position order.
pub open spec fn bad_msgs(s: Seq<char>, upto: int) -> Seq<Seq<char>>
    decreases upto,
{
    if upto <= 0 {
        Seq::empty()
    } else {
        let rest = bad_msgs(s, upto - 1);
        if parse_cell(s[upto - 1]) is None {
            rest.push(bad_char_msg(s[upto - 1], (upto - 1) as nat))
        } else {
            rest
        }
    }
}

/// The messages joined with single spaces.
pub open spec fn joined(msgs: Seq<Seq<char>>) -> Seq<char>
    decreases msgs.len(),
{
    if msgs.len() == 0 {
        Seq::empty()
    } else if msgs.len() == 1 {
        msgs[0]
    } else {
        joined(msgs.drop_last()) + seq![' '] + msgs.last()
    }
}

/// Appending one message to a non-empty list extends the joined text by a
/// space and the message; for an empty list it is the message itself.
proof fn lemma_joined_push(msgs: Seq<Seq<char>>, m: Seq<char>)
    ensures
        msgs.len() == 0 ==> joined(msgs.push(m)) == m,
        msgs.len() > 0 ==> joined(msgs.push(m)) == joined(msgs) + seq![' '] + m,
{
    assert(msgs.push(m).drop_last() =~= msgs);
    assert(msgs.push(m).last() == m);
}

/// Relies on std's `String::push`, which appends the given character to the
/// end of the string.
#[verifier::external_body]
fn push_char(s: &mut String, c: char)
    ensures
        final(s)@ == old(s)@ + seq![c],
{
    s.push(c);
}

/// The one-character text for a decimal digit.
fn digit_str(d: u8) -> (r: &'static str)
    requires
        d < 10,
    ensures
        r@ == seq![dec_digit_char(d as int)],
{
    proof {
        reveal_strlit("0");
        reveal_strlit("1");
        reveal_strlit("2");
        reveal_strlit("3");
        reveal_strlit("4");
        reveal_strlit("5");
        reveal_strlit("6");
        reveal_strlit("7");
        reveal_strlit("8");
        reveal_strlit("9");
    }
    let r = match d {
        0 => "0",
        1 => "1",
        2 => "2",
        3 => "3",
        4 => "4",
        5 => "5",
        6 => "6",
        7 => "7",
        8 => "8",
        _ => "9",
    };
    proof {
        assert(r@ =~= seq![dec_digit_char(d as int)]);
    }
    r
}

/// The decimal text of `n`, as the `Display` form of an unsigned number.
fn usize_to_string(n: usize) -> (r: String)
    ensures
        r@ == dec_rep(n as nat),
    decreases n,
{
    if n < 10 {
        String::from_str(digit_str(n as u8))
    } else {
        let mut s = usize_to_string(n / 10);
        s.append(digit_str((n % 10) as u8));
        proof {
            assert(s@ =~= dec_rep(n as nat));
        }
        s
    }
}

/// The character for one cell, as a one-character text.
pub fn serialize_cell(cell: &Option<u8>) -> (r: String)
    requires
        cell_wf(*cell),
    ensures
        r@ == seq![ser_char(*cell)],
{
    match cell {
        Some(x) => String::from_str(digit_str(*x)),
        None => {
            let r = String::from_str(".");
            proof {
                reveal_strlit(".");
                assert(r@ =~= seq![ser_char(None)]);
            }
            r
        },
    }
}

/// Encode the grid as its 81-character text.
pub fn serialize(sudoku: &Sudoku) -> (r: String)
    requires
        grid_wf(sudoku@),
    ensures
        r@ == ser_seq(sudoku@),
{
    let mut out = String::new();
    for i in 0..81usize
        invariant
            grid_wf(sudoku@),
            out@.len() == i,
            forall|k: int| 0 <= k < i ==> out@[k] == ser_char(#[trigger] sudoku@[k]),
    {
        proof {
            assert((i / 9) * 9 + i % 9 == i);
        }
        let cell = sudoku.get_cell(i / 9, i % 9);
        let piece = serialize_cell(&cell);
        out.append(piece.as_str());
    }
    proof {
        assert(out@ =~= ser_seq(sudoku@));
    }
    out
}

/// Decode one character at a given position: the cell it stands for, or the
/// message naming the character and its position.
pub fn deserialize_cell(cell_index: usize, cell_char: char) -> (r: Result<Option<u8>, String>)
    ensures
        parse_cell(cell_char) matches Some(cell) ==> r == Ok::<Option<u8>, String>(cell),
        parse_cell(cell_char) is None ==> (r matches Err(e) && e@ == bad_char_msg(
            cell_char,
            cell_index as nat,
        )),
{
    match cell_char {
        '1' => Ok(Some(1)),
        '2' => Ok(Some(2)),
        '3' => Ok(Some(3)),
        '4' => Ok(Some(4)),
        '5' => Ok(Some(5)),
        '6' => Ok(Some(6)),
        '7' => Ok(Some(7)),
        '8' => Ok(Some(8)),
        '9' => Ok(Some(9)),
        '.' => Ok(None),
        _ => {
            let mut msg = String::from_str("Unknown character ");
            push_char(&mut msg, cell_char);
            msg.append(" at position ");
            let position = usize_to_string(cell_index);
            msg.append(position.as_str());
            msg.append(".");
            Err(msg)
        },
    }
}

/// Decode an 81-character text into a grid. A text of any other length is
/// rejected with a message giving its length; a text holding characters
/// other than `1`-`9` and `.` is rejected with one message per bad
/// character, in position order, joined by single spaces.
pub fn deserialize(string: String) -> (r: Result<Sudoku, String>)
    ensures
        string@.len() != 81 ==> (r matches Err(e) && e@ == length_error_msg(string@.len())),
        string@.len() == 81 && (forall|i: int|
            0 <= i < 81 ==> parse_cell(#[trigger] string@[i]) is Some) ==> (r matches Ok(g)
            && g@ == parsed_grid(string@) && grid_wf(g@)),
        string@.len() == 81 && (exists|i: int|
            0 <= i < 81 && parse_cell(#[trigger] string@[i]) is None) ==> (r matches Err(e) && e@
            == joined(bad_msgs(string@, 81))),
{
    let n = string.as_str().unicode_len();
    if n != 81 {
        let mut msg = String::from_str("Input string was ");
        let count = usize_to_string(n);
        msg.append(count.as_str());
        msg.append(" chars long. Expected 81.");
        return Err(msg);
    }
    let mut cells: Vec<Option<u8>> = Vec::new();
    let mut errors = String::new();
    let mut has_err = false;
    for i in 0..81usize
        invariant
            string@.len() == 81,
            cells@.len() == i,
            forall|k: int|
                0 <= k < i ==> cell_wf(#[trigger] cells@[k]) && (parse_cell(string@[k]) is Some
                    ==> cells@[k] == parse_cell(string@[k]).unwrap()),
            has_err == (exists|k: int| 0 <= k < i && parse_cell(#[trigger] string@[k]) is None),
            errors@ == joined(bad_msgs(string@, i as int)),
    {
        let c = string.as_str().get_char(i);
        let ghost old_msgs = bad_msgs(string@, i as int);
        match deserialize_cell(i, c) {
            Ok(cell) => {
                cells.push(cell);
                proof {
                    assert(bad_msgs(string@, i + 1) == old_msgs);
                }
            },
            Err(m) => {
                if has_err {
                    push_char(&mut errors, ' ');
                }
                errors.append(m.as_str());
                cells.push(None);
                proof {
                    let bm = bad_char_msg(string@[i as int], i as nat);
                    assert(bad_msgs(string@, i + 1) == old_msgs.push(bm));
                    lemma_joined_push(old_msgs, bm);
                    if has_err {
                        let k = choose|k: int|
                            0 <= k < i && parse_cell(#[trigger] string@[k]) is None;
                        lemma_bad_msgs_nonempty(string@, k, i as int);
                    } else {
                        if old_msgs.len() > 0 {
                            lemma_bad_msgs_head(string@, i as int);
                            assert(false);
                        }
                    }
                }
                has_err = true;
            },
        }
    }
    if has_err {
        return Err(errors);
    }
    proof {
        assert(cells@ =~= parsed_grid(string@));
    }
    Ok(Sudoku::from_cells(cells))
}

/// A bad character before `upto` makes the message list non-empty.
proof fn lemma_bad_msgs_nonempty(s: Seq<char>, k: int, upto: int)
    requires
        0 <= k < upto,
        parse_cell(s[k]) is None,
    ensures
        bad_msgs(s, upto).len() > 0,
    decreases upto,
{
    if k < upto - 1 {
        lemma_bad_msgs_nonempty(s, k, upto - 1);
    }
}

/// A non-empty message list means some character before `upto` is bad.
proof fn lemma_bad_msgs_head(s: Seq<char>, upto: int)
    requires
        bad_msgs(s, upto).len() > 0,
    ensures
        exists|k: int| 0 <= k < upto && parse_cell(#[trigger] s[k]) is None,
    decreases upto,
{
    if upto > 0 {
        if parse_cell(s[upto - 1]) is None {
        } else {
            lemma_bad_msgs_head(s, upto - 1);
        }
    }
}

} // verus!
