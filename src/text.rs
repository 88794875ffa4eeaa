//! The textual form of a board: one token per cell, a digit `1`-`9` or `_` for
//! an empty cell; every other character separates tokens.
use vstd::prelude::*;
use vstd::std_specs::iter::IteratorSpec;

use crate::board::{Board, Tile};
use crate::filledboard::FilledBoard;
use crate::positions::N_CELLS;

verus! {

broadcast use {vstd::array::group_array_axioms, vstd::string::axiom_spec_iter, vstd::string::next_postcondition};

/// Characters that stand for a cell.
pub open spec fn is_token(c: char) -> bool {
    c == '0' || c == '1' || c == '2' || c == '3' || c == '4' || c == '5' || c == '6' || c == '7'
        || c == '8' || c == '9' || c == '_'
}

/// The tokens of `s`, in order.
pub open spec fn tokens(s: Seq<char>) -> Seq<char>
    decreases s.len(),
{
    if s.len() == 0 {
        Seq::empty()
    } else if is_token(s.last()) {
        tokens(s.drop_last()).push(s.last())
    } else {
        tokens(s.drop_last())
    }
}

/// The cell a token stands for: a digit, or `None` for `_` (and for `0`, which is refused).
pub open spec fn token_value(c: char) -> Option<u8> {
    if c == '1' {
        Some(1u8)
    } else if c == '2' {
        Some(2u8)
    } else if c == '3' {
        Some(3u8)
    } else if c == '4' {
        Some(4u8)
    } else if c == '5' {
        Some(5u8)
    } else if c == '6' {
        Some(6u8)
    } else if c == '7' {
        Some(7u8)
    } else if c == '8' {
        Some(8u8)
    } else if c == '9' {
        Some(9u8)
    } else {
        None
    }
}

/// The character that shows a cell.
pub open spec fn cell_char(v: Option<u8>) -> char {
    match v {
        Some(d) => digit_char(d as int),
        None => '_',
    }
}

/// The character of a decimal digit.
pub open spec fn digit_char(d: int) -> char {
    if d == 0 {
        '0'
    } else if d == 1 {
        '1'
    } else if d == 2 {
        '2'
    } else if d == 3 {
        '3'
    } else if d == 4 {
        '4'
    } else if d == 5 {
        '5'
    } else if d == 6 {
        '6'
    } else if d == 7 {
        '7'
    } else if d == 8 {
        '8'
    } else {
        '9'
    }
}

/// The decimal digits of `n`.
pub open spec fn decimal(n: nat) -> Seq<char>
    decreases n,
{
    if n < 10 {
        seq![digit_char(n as int)]
    } else {
        decimal(n / 10) + seq![digit_char((n % 10) as int)]
    }
}

pub open spec fn count_message(n: nat) -> Seq<char> {
    "Expected 81 numbers in board, got "@ + decimal(n)
}

pub open spec fn zero_message() -> Seq<char> {
    "Expected digits 1 to 9 in board, got 0"@
}

pub open spec fn empty_cell_message() -> Seq<char> {
    "Expected digits 1 to 9 in board, got _"@
}

/// The error, if any, of reading a board from its tokens.
pub open spec fn board_error(tok: Seq<char>) -> Option<Seq<char>> {
    if tok.len() != 81 {
        Some(count_message(tok.len()))
    } else if tok.contains('0') {
        Some(zero_message())
    } else {
        None
    }
}

/// The error, if any, of reading a filled board from its tokens.
pub open spec fn filled_board_error(tok: Seq<char>) -> Option<Seq<char>> {
    if tok.len() != 81 {
        Some(count_message(tok.len()))
    } else if tok.contains('0') {
        Some(zero_message())
    } else if tok.contains('_') {
        Some(empty_cell_message())
    } else {
        None
    }
}

/// `b` holds, cell by cell, what the tokens of `s` stand for.
pub open spec fn reads_as(s: Seq<char>, b: Board) -> bool {
    &&& tokens(s).len() == 81
    &&& forall|i: int| 0 <= i < 81 ==> #[trigger] b.cell(i) == token_value(tokens(s)[i])
}

/// The text of cells `0..n`: each cell's character and a comma, and a line break after each row.
pub open spec fn render_upto(b: Board, n: nat) -> Seq<char>
    decreases n,
{
    if n == 0 {
        Seq::empty()
    } else {
        let i = n - 1;
        render_upto(b, (n - 1) as nat) + seq![cell_char(b.cell(i)), ','] + if i % 9 == 8 {
            seq!['\n']
        } else {
            Seq::empty()
        }
    }
}

/// The text of a whole board: nine lines of nine comma-terminated cells.
pub open spec fn render(b: Board) -> Seq<char> {
    render_upto(b, 81)
}

pub proof fn lemma_tokens_concat(a: Seq<char>, b: Seq<char>)
    ensures
        tokens(a + b) == tokens(a) + tokens(b),
    decreases b.len(),
{
    if b.len() == 0 {
        assert(a + b =~= a);
        assert(tokens(a) + tokens(b) =~= tokens(a));
    } else {
        lemma_tokens_concat(a, b.drop_last());
        assert((a + b).drop_last() =~= a + b.drop_last());
        assert(tokens(a) + tokens(b.drop_last()).push(b.last()) =~= (tokens(a) + tokens(
            b.drop_last(),
        )).push(b.last()));
    }
}

proof fn lemma_render_tokens(b: Board, n: nat)
    requires
        b.wf(),
        n <= 81,
    ensures
        tokens(render_upto(b, n)) =~= Seq::new(n, |i: int| cell_char(b.cell(i))),
    decreases n,
{
    if n > 0 {
        let i = n - 1;
        lemma_render_tokens(b, (n - 1) as nat);
        let cell = seq![cell_char(b.cell(i)), ','];
        let tail = if i % 9 == 8 {
            seq!['\n']
        } else {
            Seq::<char>::empty()
        };
        lemma_tokens_concat(render_upto(b, (n - 1) as nat), cell);
        lemma_tokens_concat(render_upto(b, (n - 1) as nat) + cell, tail);
        let x = cell_char(b.cell(i));
        assert(is_token(x));
        assert(cell.drop_last() =~= seq![x]);
        assert(seq![x].drop_last() =~= Seq::<char>::empty());
        assert(tokens(seq![x]) =~= tokens(Seq::<char>::empty()).push(x));
        assert(tokens(cell) =~= seq![x]);
        if i % 9 == 8 {
            assert(tail.drop_last() =~= Seq::<char>::empty());
            assert(tokens(tail) =~= tokens(Seq::<char>::empty()));
        }
        assert(tokens(tail) =~= Seq::<char>::empty());
    }
}

/// Reading the text of a board gives back every cell of that board, and
/// nothing else reads from it.
pub proof fn lemma_render_round_trip(b: Board)
    requires
        b.wf(),
    ensures
        board_error(tokens(render(b))) is None,
        reads_as(render(b), b),
        forall|c: Board| reads_as(render(b), c) ==> c == b,
{
    lemma_render_tokens(b, 81);
    let tok = tokens(render(b));
    assert forall|i: int| 0 <= i < 81 implies #[trigger] b.cell(i) == token_value(tok[i]) by {
        assert(tok[i] == cell_char(b.cell(i)));
    }
    assert(!tok.contains('0')) by {
        if tok.contains('0') {
            let i = choose|i: int| 0 <= i < tok.len() && tok[i] == '0';
            assert(tok[i] == cell_char(b.cell(i)));
        }
    }
    assert forall|c: Board| reads_as(render(b), c) implies c == b by {
        assert forall|i: int| 0 <= i < 81 implies c.data@[i] == b.data@[i] by {
            assert(c.cell(i) == b.cell(i));
        }
        assert(c.data@ =~= b.data@);
        assert(c.data == b.data);
    }
}

/// The characters of `s`, in order.
pub fn to_chars(s: &str) -> (r: Vec<char>)
    ensures
        r@ == s@,
{
    let mut it = s.chars();
    let mut r: Vec<char> = Vec::new();
    loop
        invariant
            r@ + it.remaining() == s@,
            it.decrease() is Some,
        ensures
            r@ == s@,
        decreases it.decrease()->0,
    {
        let ghost before = it.remaining();
        match it.next() {
            Some(c) => {
                r.push(c);
                assert(r@ + it.remaining() =~= s@) by {
                    assert(before =~= seq![c] + it.remaining());
                }
            },
            None => {
                assert(r@ =~= s@);
                break ;
            },
        }
    }
    r
}

/// The cell that token `c` stands for.
fn token_cell(c: char) -> (r: Option<u8>)
    ensures
        r == token_value(c),
{
    match c {
        '1' => Some(1),
        '2' => Some(2),
        '3' => Some(3),
        '4' => Some(4),
        '5' => Some(5),
        '6' => Some(6),
        '7' => Some(7),
        '8' => Some(8),
        '9' => Some(9),
        _ => None,
    }
}

fn is_token_char(c: char) -> (r: bool)
    ensures
        r == is_token(c),
{
    c == '0' || c == '1' || c == '2' || c == '3' || c == '4' || c == '5' || c == '6' || c == '7'
        || c == '8' || c == '9' || c == '_'
}

/// The tokens of `cs[lo..hi]`.
pub(crate) fn collect_tokens(cs: &Vec<char>, lo: usize, hi: usize) -> (r: Vec<char>)
    requires
        lo <= hi <= cs.len(),
    ensures
        r@ == tokens(cs@.subrange(lo as int, hi as int)),
{
    let mut r: Vec<char> = Vec::new();
    let mut i: usize = lo;
    while i < hi
        invariant
            lo <= i <= hi <= cs.len(),
            r@ == tokens(cs@.subrange(lo as int, i as int)),
        decreases hi - i,
    {
        assert(cs@.subrange(lo as int, i + 1).drop_last() =~= cs@.subrange(lo as int, i as int));
        if is_token_char(cs[i]) {
            r.push(cs[i]);
        }
        i = i + 1;
    }
    r
}

/// Relies on `usize`'s `ToString` (its `Display`): the decimal digits of `n`.
#[verifier::external_body]
fn decimal_text(n: usize) -> (r: String)
    ensures
        r@ == decimal(n as nat),
{
    n.to_string()
}

pub(crate) fn count_error(n: usize) -> (r: String)
    ensures
        r@ == count_message(n as nat),
{
    let digits = decimal_text(n);
    String::from_str("Expected 81 numbers in board, got ").concat(digits.as_str())
}

/// `fb` holds, cell by cell, the digits that the tokens of `s` stand for.
pub open spec fn filled_reads_as(s: Seq<char>, fb: FilledBoard) -> bool {
    &&& tokens(s).len() == 81
    &&& forall|i: int| 0 <= i < 81 ==> token_value(tokens(s)[i]) == Some(#[trigger] fb.data@[i])
}

/// Read a filled board from `cs[lo..hi]`.
pub(crate) fn parse_filled_chars(cs: &Vec<char>, lo: usize, hi: usize) -> (r: Result<FilledBoard, String>)
    requires
        lo <= hi <= cs.len(),
    ensures
        match r {
            Ok(b) => {
                &&& filled_board_error(tokens(cs@.subrange(lo as int, hi as int))) is None
                &&& b.wf()
                &&& filled_reads_as(cs@.subrange(lo as int, hi as int), b)
            },
            Err(e) => filled_board_error(tokens(cs@.subrange(lo as int, hi as int))) == Some(e@),
        },
{
    let tok = collect_tokens(cs, lo, hi);
    if tok.len() != N_CELLS {
        return Err(count_error(tok.len()));
    }
    let mut k: usize = 0;
    while k < N_CELLS
        invariant
            lo <= hi <= cs.len(),
            tok@ == tokens(cs@.subrange(lo as int, hi as int)),
            tok.len() == 81,
            k <= 81,
            forall|j: int| 0 <= j < k ==> tok@[j] != '0',
        decreases N_CELLS - k,
    {
        if tok[k] == '0' {
            assert(tok@[k as int] == '0');
            return Err(String::from_str("Expected digits 1 to 9 in board, got 0"));
        }
        k = k + 1;
    }
    let mut data = [0u8; N_CELLS];
    for k in 0..N_CELLS
        invariant
            lo <= hi <= cs.len(),
            tok@ == tokens(cs@.subrange(lo as int, hi as int)),
            tok.len() == 81,
            !tok@.contains('0'),
            forall|j: int| 0 <= j < k ==> token_value(tok@[j]) == Some(#[trigger] data@[j]),
            forall|j: int| 0 <= j < k ==> 1 <= #[trigger] data@[j] <= 9,
    {
        match token_cell(tok[k]) {
            Some(d) => {
                data[k] = d;
            },
            None => {
                assert(tok@[k as int] == '_') by {
                    assert(is_token(tok@[k as int])) by {
                        lemma_tokens_are_tokens(cs@.subrange(lo as int, hi as int));
                    }
                    assert(tok@[k as int] != '0');
                }
                assert(tok@.contains('_'));
                return Err(String::from_str("Expected digits 1 to 9 in board, got _"));
            },
        }
    }
    let b = FilledBoard { data };
    assert(!tok@.contains('_')) by {
        if tok@.contains('_') {
            let j = choose|j: int| 0 <= j < tok.len() && tok@[j] == '_';
            assert(token_value(tok@[j]) == Some(data@[j]));
        }
    }
    Ok(b)
}

proof fn lemma_tokens_are_tokens(s: Seq<char>)
    ensures
        forall|i: int| 0 <= i < tokens(s).len() ==> is_token(#[trigger] tokens(s)[i]),
    decreases s.len(),
{
    if s.len() > 0 {
        lemma_tokens_are_tokens(s.drop_last());
        let t = tokens(s.drop_last());
        if is_token(s.last()) {
            assert forall|i: int| 0 <= i < tokens(s).len() implies is_token(#[trigger] tokens(s)[i]) by {
                if i < t.len() {
                    assert(tokens(s)[i] == t[i]);
                }
            }
        }
    }
}

/// The text of one cell and its comma.
fn cell_text(v: Option<u8>) -> (r: &'static str)
    requires
        v matches Some(d) ==> 1 <= d <= 9,
    ensures
        r@ == seq![cell_char(v), ','],
{
    match v {
        Some(1) => {
            proof {
                reveal_strlit("1,");
            }
            "1,"
        },
        Some(2) => {
            proof {
                reveal_strlit("2,");
            }
            "2,"
        },
        Some(3) => {
            proof {
                reveal_strlit("3,");
            }
            "3,"
        },
        Some(4) => {
            proof {
                reveal_strlit("4,");
            }
            "4,"
        },
        Some(5) => {
            proof {
                reveal_strlit("5,");
            }
            "5,"
        },
        Some(6) => {
            proof {
                reveal_strlit("6,");
            }
            "6,"
        },
        Some(7) => {
            proof {
                reveal_strlit("7,");
            }
            "7,"
        },
        Some(8) => {
            proof {
                reveal_strlit("8,");
            }
            "8,"
        },
        Some(_) => {
            proof {
                reveal_strlit("9,");
            }
            "9,"
        },
        None => {
            proof {
                reveal_strlit("_,");
            }
            "_,"
        },
    }
}

/// The text of `b`.
pub(crate) fn render_board(b: &Board) -> (r: String)
    requires
        b.wf(),
    ensures
        r@ == render(*b),
{
    let mut out = String::new();
    for i in 0..N_CELLS
        invariant
            b.wf(),
            out@ == render_upto(*b, i as nat),
    {
        let v = b.data[i].value;
        assert(v == b.cell(i as int));
        out.append(cell_text(v));
        if i % 9 == 8 {
            proof {
                reveal_strlit("\n");
            }
            out.append("\n");
        }
        assert(out@ =~= render_upto(*b, (i + 1) as nat));
    }
    out
}

/// Read a board from `cs[lo..hi]`.
pub(crate) fn parse_board_chars(cs: &Vec<char>, lo: usize, hi: usize) -> (r: Result<Board, String>)
    requires
        lo <= hi <= cs.len(),
    ensures
        match r {
            Ok(b) => {
                &&& board_error(tokens(cs@.subrange(lo as int, hi as int))) is None
                &&& b.wf()
                &&& reads_as(cs@.subrange(lo as int, hi as int), b)
            },
            Err(e) => board_error(tokens(cs@.subrange(lo as int, hi as int))) == Some(e@),
        },
{
    let tok = collect_tokens(cs, lo, hi);
    if tok.len() != N_CELLS {
        return Err(count_error(tok.len()));
    }
    let mut data = [Tile { value: None }; N_CELLS];
    for k in 0..N_CELLS
        invariant
            lo <= hi <= cs.len(),
            tok@ == tokens(cs@.subrange(lo as int, hi as int)),
            tok.len() == 81,
            forall|j: int| 0 <= j < k ==> tok@[j] != '0',
            forall|j: int| 0 <= j < k ==> #[trigger] data@[j].value == token_value(tok@[j]),
    {
        if tok[k] == '0' {
            assert(tok@.contains('0')) by {
                assert(tok@[k as int] == '0');
            }
            return Err(String::from_str("Expected digits 1 to 9 in board, got 0"));
        }
        data[k] = Tile { value: token_cell(tok[k]) };
    }
    let b = Board { data };
    assert(!tok@.contains('0'));
    assert forall|i: int| 0 <= i < 81 implies #[trigger] b.cell(i) == token_value(tok@[i]) by {}
    Ok(b)
}

} // verus!
