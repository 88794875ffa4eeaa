//! Lists of boards: records separated by a blank line (`"\n\n"`), each trimmed of
//! surrounding white space and skipped when nothing is left. A record is a header
//! line followed by the board's text.
use vstd::prelude::*;

use crate::board::{AnnotatedBoard, Board};
use crate::filledboard::FilledBoard;
use crate::text::{
    board_error, filled_board_error, filled_reads_as, parse_board_chars, parse_filled_chars,
    reads_as, to_chars, tokens,
};

verus! {

/// White space as `char::is_whitespace` documents it: the Unicode `White_Space` property.
pub open spec fn white_space(c: char) -> bool {
    let u = c as u32;
    (0x09 <= u <= 0x0D) || u == 0x20 || u == 0x85 || u == 0xA0 || u == 0x1680 || (0x2000 <= u
        <= 0x200A) || u == 0x2028 || u == 0x2029 || u == 0x202F || u == 0x205F || u == 0x3000
}

/// The first index of `[i, j)` that is not white space, or `j`.
pub open spec fn lead(s: Seq<char>, i: int, j: int) -> int
    decreases j - i,
{
    if i >= j {
        j
    } else if !white_space(s[i]) {
        i
    } else {
        lead(s, i + 1, j)
    }
}

/// The end of `[i, j)` once trailing white space is dropped.
pub open spec fn trail(s: Seq<char>, i: int, j: int) -> int
    decreases j - i,
{
    if j <= i {
        i
    } else if white_space(s[j - 1]) {
        trail(s, i, j - 1)
    } else {
        j
    }
}

/// The first index of `[i, j)` holding `c`, or `j`.
pub open spec fn find(s: Seq<char>, i: int, j: int, c: char) -> int
    decreases j - i,
{
    if i >= j {
        j
    } else if s[i] == c {
        i
    } else {
        find(s, i + 1, j, c)
    }
}

/// The section `[a, b)` trimmed, as a range, when something is left of it.
pub open spec fn trimmed(s: Seq<char>, a: int, b: int) -> Seq<(int, int)> {
    let lo = lead(s, a, b);
    let hi = trail(s, lo, b);
    if lo == hi {
        Seq::empty()
    } else {
        seq![(lo, hi)]
    }
}

/// The records from the section that starts at `start`, scanning from `i`.
pub open spec fn records_from(s: Seq<char>, start: int, i: int) -> Seq<(int, int)>
    decreases s.len() - i,
{
    if i + 1 >= s.len() {
        trimmed(s, start, s.len() as int)
    } else if s[i] == '\n' && s[i + 1] == '\n' {
        trimmed(s, start, i) + records_from(s, i + 2, i + 2)
    } else {
        records_from(s, start, i + 1)
    }
}

/// The records of `s`, as ranges of its characters.
pub open spec fn records(s: Seq<char>) -> Seq<(int, int)> {
    records_from(s, 0, 0)
}

pub open spec fn no_board_message() -> Seq<char> {
    "Expected a header line followed by a board"@
}

pub open spec fn header_message() -> Seq<char> {
    "Expected a header of three comma-separated fields"@
}

/// Where the header of record `[lo, hi)` ends.
pub open spec fn header_end(s: Seq<char>, lo: int, hi: int) -> int {
    find(s, lo, hi, '\n')
}

/// The ends of the first two header fields of record `[lo, hi)`.
pub open spec fn comma1(s: Seq<char>, lo: int, hi: int) -> int {
    find(s, lo, header_end(s, lo, hi), ',')
}

pub open spec fn comma2(s: Seq<char>, lo: int, hi: int) -> int {
    find(s, comma1(s, lo, hi) + 1, header_end(s, lo, hi), ',')
}

pub open spec fn comma3(s: Seq<char>, lo: int, hi: int) -> int {
    find(s, comma2(s, lo, hi) + 1, header_end(s, lo, hi), ',')
}

/// The error, if any, of reading an annotated board from record `[lo, hi)`.
pub open spec fn annotated_error(s: Seq<char>, lo: int, hi: int) -> Option<Seq<char>> {
    let nl = header_end(s, lo, hi);
    if nl == hi {
        Some(no_board_message())
    } else if comma1(s, lo, hi) == nl || comma2(s, lo, hi) == nl {
        Some(header_message())
    } else {
        board_error(tokens(s.subrange(nl, hi)))
    }
}

/// `ab` holds what record `[lo, hi)` says: the first three header fields and the board.
pub open spec fn annotated_reads_as(s: Seq<char>, lo: int, hi: int, ab: AnnotatedBoard) -> bool {
    let nl = header_end(s, lo, hi);
    &&& ab.id@ == s.subrange(lo, comma1(s, lo, hi))
    &&& ab.src@ == s.subrange(comma1(s, lo, hi) + 1, comma2(s, lo, hi))
    &&& ab.status@ == s.subrange(comma2(s, lo, hi) + 1, comma3(s, lo, hi))
    &&& ab.board.wf()
    &&& reads_as(s.subrange(nl, hi), ab.board)
}

/// The error, if any, of reading a filled board from record `[lo, hi)`; its header is ignored.
pub open spec fn filled_record_error(s: Seq<char>, lo: int, hi: int) -> Option<Seq<char>> {
    let nl = header_end(s, lo, hi);
    if nl == hi {
        Some(no_board_message())
    } else {
        filled_board_error(tokens(s.subrange(nl, hi)))
    }
}

/// Relies on `char::is_whitespace`: the Unicode `White_Space` property.
#[verifier::external_body]
fn is_space(c: char) -> (r: bool)
    ensures
        r == white_space(c),
{
    c.is_whitespace()
}

/// Relies on collecting `char`s into a `String`: the same characters, in order.
#[verifier::external_body]
pub(crate) fn string_of(cs: &Vec<char>, from: usize, to: usize) -> (r: String)
    requires
        from <= to <= cs.len(),
    ensures
        r@ == cs@.subrange(from as int, to as int),
{
    cs[from..to].iter().collect()
}

fn skip_lead(cs: &Vec<char>, a: usize, b: usize) -> (r: usize)
    requires
        a <= b <= cs.len(),
    ensures
        r == lead(cs@, a as int, b as int),
        a <= r <= b,
{
    let mut i = a;
    while i < b
        invariant
            a <= i <= b <= cs.len(),
            lead(cs@, a as int, b as int) == lead(cs@, i as int, b as int),
        decreases b - i,
    {
        if !is_space(cs[i]) {
            return i;
        }
        i = i + 1;
    }
    i
}

fn skip_trail(cs: &Vec<char>, a: usize, b: usize) -> (r: usize)
    requires
        a <= b <= cs.len(),
    ensures
        r == trail(cs@, a as int, b as int),
        a <= r <= b,
{
    let mut j = b;
    while j > a
        invariant
            a <= j <= b <= cs.len(),
            trail(cs@, a as int, b as int) == trail(cs@, a as int, j as int),
        decreases j - a,
    {
        if !is_space(cs[j - 1]) {
            return j;
        }
        j = j - 1;
    }
    j
}

fn find_char(cs: &Vec<char>, a: usize, b: usize, c: char) -> (r: usize)
    requires
        a <= b <= cs.len(),
    ensures
        r == find(cs@, a as int, b as int, c),
        a <= r <= b,
{
    let mut i = a;
    while i < b
        invariant
            a <= i <= b <= cs.len(),
            find(cs@, a as int, b as int, c) == find(cs@, i as int, b as int, c),
        decreases b - i,
    {
        if cs[i] == c {
            return i;
        }
        i = i + 1;
    }
    i
}

/// Append the trimmed section `[a, b)` to `out` when something is left of it.
fn push_trimmed(cs: &Vec<char>, a: usize, b: usize, out: &mut Vec<(usize, usize)>)
    requires
        a <= b <= cs.len(),
    ensures
        final(out)@.map_values(|r: (usize, usize)| (r.0 as int, r.1 as int)) == old(out)@.map_values(
            |r: (usize, usize)| (r.0 as int, r.1 as int),
        ) + trimmed(cs@, a as int, b as int),
        final(out).len() <= old(out).len() + 1,
        forall|t: int| 0 <= t < old(out).len() ==> #[trigger] final(out)@[t] == old(out)@[t],
        forall|t: int|
            old(out).len() <= t < final(out).len() ==> #[trigger] final(out)@[t].0 < final(out)@[t].1
                <= cs.len(),
{
    let lo = skip_lead(cs, a, b);
    let hi = skip_trail(cs, lo, b);
    let ghost before = out@;
    if lo != hi {
        out.push((lo, hi));
    }
    assert(out@.map_values(|r: (usize, usize)| (r.0 as int, r.1 as int)) =~= before.map_values(
        |r: (usize, usize)| (r.0 as int, r.1 as int),
    ) + trimmed(cs@, a as int, b as int));
}

/// The records of `cs`, as ranges.
pub(crate) fn split_records(cs: &Vec<char>) -> (r: Vec<(usize, usize)>)
    ensures
        r@.map_values(|r: (usize, usize)| (r.0 as int, r.1 as int)) == records(cs@),
        forall|t: int| 0 <= t < r.len() ==> #[trigger] r@[t].0 < r@[t].1 <= cs.len(),
{
    let mut out: Vec<(usize, usize)> = Vec::new();
    let mut start: usize = 0;
    let mut i: usize = 0;
    while cs.len() > 1 && i < cs.len() - 1
        invariant
            start <= i <= cs.len(),
            records(cs@) == out@.map_values(|r: (usize, usize)| (r.0 as int, r.1 as int))
                + records_from(cs@, start as int, i as int),
            forall|t: int| 0 <= t < out.len() ==> #[trigger] out@[t].0 < out@[t].1 <= cs.len(),
        decreases cs.len() - i,
    {
        if cs[i] == '\n' && cs[i + 1] == '\n' {
            let ghost before = out@.map_values(|r: (usize, usize)| (r.0 as int, r.1 as int));
            push_trimmed(cs, start, i, &mut out);
            assert(records(cs@) == out@.map_values(|r: (usize, usize)| (r.0 as int, r.1 as int))
                + records_from(cs@, (i + 2) as int, (i + 2) as int)) by {
                assert(before + trimmed(cs@, start as int, i as int) + records_from(cs@, (i + 2) as int, (i + 2) as int)
                    =~= before + (trimmed(cs@, start as int, i as int) + records_from(cs@, (i + 2) as int, (i + 2) as int)));
            }
            start = i + 2;
            i = i + 2;
        } else {
            i = i + 1;
        }
    }
    push_trimmed(cs, start, cs.len(), &mut out);
    out
}

/// Read one annotated board from record `[lo, hi)`.
fn parse_annotated(cs: &Vec<char>, lo: usize, hi: usize) -> (r: Result<AnnotatedBoard, String>)
    requires
        lo <= hi <= cs.len(),
    ensures
        match r {
            Ok(ab) => annotated_error(cs@, lo as int, hi as int) is None && annotated_reads_as(
                cs@,
                lo as int,
                hi as int,
                ab,
            ),
            Err(e) => annotated_error(cs@, lo as int, hi as int) == Some(e@),
        },
{
    let nl = find_char(cs, lo, hi, '\n');
    if nl == hi {
        return Err(String::from_str("Expected a header line followed by a board"));
    }
    let c1 = find_char(cs, lo, nl, ',');
    if c1 == nl {
        return Err(String::from_str("Expected a header of three comma-separated fields"));
    }
    let c2 = find_char(cs, c1 + 1, nl, ',');
    if c2 == nl {
        return Err(String::from_str("Expected a header of three comma-separated fields"));
    }
    let c3 = find_char(cs, c2 + 1, nl, ',');
    let board = match parse_board_chars(cs, nl, hi) {
        Ok(b) => b,
        Err(e) => {
            return Err(e);
        },
    };
    Ok(
        AnnotatedBoard {
            id: string_of(cs, lo, c1),
            src: string_of(cs, c1 + 1, c2),
            status: string_of(cs, c2 + 1, c3),
            board,
        },
    )
}

/// Parse a list of boards, each under a header line `id,source,status`.
///
///  Example record:
/// ```text
/// B1-1,Bad,incorrect
/// 6,9,1,4,8,3,5,2,7
/// 2,1,3,7,9,5,4,6,8
/// 5,8,7,6,2,4,9,3,1
/// 3,5,8,2,7,1,6,9,4
/// 1,2,6,4,3,9,8,7,5
/// 7,4,9,8,5,6,2,1,3
/// 4,7,2,9,1,8,3,5,6
/// 8,3,1,5,6,2,7,4,9
/// 9,6,5,3,4,7,1,8,2
/// ```
/// The first record that cannot be read gives the error.
pub fn parse_board_list(buf: &str) -> (r: Result<Vec<AnnotatedBoard>, String>)
    ensures
        match r {
            Ok(v) => {
                &&& v.len() == records(buf@).len()
                &&& forall|t: int|
                    0 <= t < v.len() ==> {
                        let (lo, hi) = #[trigger] records(buf@)[t];
                        annotated_error(buf@, lo, hi) is None && annotated_reads_as(buf@, lo, hi, v@[t])
                    }
            },
            Err(e) => exists|t: int|
                0 <= t < records(buf@).len() && annotated_error(
                    buf@,
                    #[trigger] records(buf@)[t].0,
                    records(buf@)[t].1,
                ) == Some(e@) && forall|u: int|
                    0 <= u < t ==> annotated_error(buf@, #[trigger] records(buf@)[u].0, records(buf@)[u].1) is None,
        },
{
    let cs = to_chars(buf);
    let recs = split_records(&cs);
    let ghost rs = records(buf@);
    assert(recs@.len() == rs.len());
    let mut out: Vec<AnnotatedBoard> = Vec::new();
    for t in 0..recs.len()
        invariant
            cs@ == buf@,
            rs == records(buf@),
            recs@.map_values(|r: (usize, usize)| (r.0 as int, r.1 as int)) == rs,
            forall|u: int| 0 <= u < recs.len() ==> #[trigger] recs@[u].0 < recs@[u].1 <= cs.len(),
            out.len() == t,
            forall|u: int|
                0 <= u < t ==> annotated_error(buf@, #[trigger] rs[u].0, rs[u].1) is None
                    && annotated_reads_as(buf@, rs[u].0, rs[u].1, out@[u]),
    {
        let (lo, hi) = recs[t];
        assert(rs[t as int] == (lo as int, hi as int));
        match parse_annotated(&cs, lo, hi) {
            Ok(ab) => {
                out.push(ab);
            },
            Err(e) => {
                return Err(e);
            },
        }
    }
    Ok(out)
}

impl FilledBoard {
    /// Parse a list of filled boards, each under a header line that is ignored.
    /// The first record that cannot be read gives the error.
    pub fn from_buf(buf: &str) -> (r: Result<Vec<FilledBoard>, String>)
        ensures
            match r {
                Ok(v) => {
                    &&& v.len() == records(buf@).len()
                    &&& forall|t: int|
                        0 <= t < v.len() ==> {
                            let (lo, hi) = #[trigger] records(buf@)[t];
                            &&& filled_record_error(buf@, lo, hi) is None
                            &&& v@[t].wf()
                            &&& filled_reads_as(buf@.subrange(header_end(buf@, lo, hi), hi), v@[t])
                        }
                },
                Err(e) => exists|t: int|
                    0 <= t < records(buf@).len() && filled_record_error(
                        buf@,
                        #[trigger] records(buf@)[t].0,
                        records(buf@)[t].1,
                    ) == Some(e@) && forall|u: int|
                        0 <= u < t ==> filled_record_error(buf@, #[trigger] records(buf@)[u].0, records(buf@)[u].1) is None,
            },
    {
        let cs = to_chars(buf);
        let recs = split_records(&cs);
        let ghost rs = records(buf@);
        assert(recs@.len() == rs.len());
        let mut out: Vec<FilledBoard> = Vec::new();
        for t in 0..recs.len()
            invariant
                cs@ == buf@,
                rs == records(buf@),
                recs@.map_values(|r: (usize, usize)| (r.0 as int, r.1 as int)) == rs,
                forall|u: int| 0 <= u < recs.len() ==> #[trigger] recs@[u].0 < recs@[u].1 <= cs.len(),
                out.len() == t,
                forall|u: int|
                    0 <= u < t ==> {
                        &&& filled_record_error(buf@, #[trigger] rs[u].0, rs[u].1) is None
                        &&& out@[u].wf()
                        &&& filled_reads_as(buf@.subrange(header_end(buf@, rs[u].0, rs[u].1), rs[u].1), out@[u])
                    },
        {
            let (lo, hi) = recs[t];
            assert(rs[t as int] == (lo as int, hi as int));
            let nl = find_char(&cs, lo, hi, '\n');
            if nl == hi {
                return Err(String::from_str("Expected a header line followed by a board"));
            }
            match parse_filled_chars(&cs, nl, hi) {
                Ok(b) => {
                    out.push(b);
                },
                Err(e) => {
                    return Err(e);
                },
            }
        }
        Ok(out)
    }
}

} // verus!
