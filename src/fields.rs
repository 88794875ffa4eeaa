//! Picking the positive whole numbers out of a comma-separated line.
use vstd::prelude::*;

use crate::records::string_of;
use crate::text::to_chars;

verus! {

/// The comma-separated fields of `s` from the field that starts at `start`, scanning from `i`.
pub open spec fn fields_from(s: Seq<char>, start: int, i: int) -> Seq<Seq<char>>
    decreases s.len() - i,
{
    if i >= s.len() {
        seq![s.subrange(start, s.len() as int)]
    } else if s[i] == ',' {
        seq![s.subrange(start, i)] + fields_from(s, i + 1, i + 1)
    } else {
        fields_from(s, start, i + 1)
    }
}

/// The comma-separated fields of `s`; an empty line has one empty field.
pub open spec fn fields(s: Seq<char>) -> Seq<Seq<char>> {
    fields_from(s, 0, 0)
}

pub open spec fn is_ascii_digit(c: char) -> bool {
    '0' <= c && c <= '9'
}

/// A field written in decimal digits whose value is above zero.
pub open spec fn is_positive_number(f: Seq<char>) -> bool {
    &&& forall|k: int| 0 <= k < f.len() ==> is_ascii_digit(#[trigger] f[k])
    &&& exists|k: int| 0 <= k < f.len() && #[trigger] f[k] != '0'
}

/// The positive fields of `fs`, joined by commas.
pub open spec fn join_positive(fs: Seq<Seq<char>>) -> Seq<char>
    decreases fs.len(),
{
    if fs.len() == 0 {
        Seq::empty()
    } else {
        let rest = join_positive(fs.drop_last());
        if !is_positive_number(fs.last()) {
            rest
        } else if rest.len() == 0 {
            fs.last()
        } else {
            rest + seq![','] + fs.last()
        }
    }
}

/// Whether `cs[a..b]` is a positive number.
fn positive_at(cs: &Vec<char>, a: usize, b: usize) -> (r: bool)
    requires
        a <= b <= cs.len(),
    ensures
        r == is_positive_number(cs@.subrange(a as int, b as int)),
{
    let ghost f = cs@.subrange(a as int, b as int);
    let mut nonzero = false;
    let mut k = a;
    while k < b
        invariant
            a <= k <= b <= cs.len(),
            f == cs@.subrange(a as int, b as int),
            forall|j: int| 0 <= j < k - a ==> is_ascii_digit(#[trigger] f[j]),
            nonzero <==> exists|j: int| 0 <= j < k - a && #[trigger] f[j] != '0',
        decreases b - k,
    {
        let c = cs[k];
        assert(f[k - a] == c);
        if !('0' <= c && c <= '9') {
            return false;
        }
        if c != '0' {
            nonzero = true;
        }
        k = k + 1;
    }
    nonzero
}

/// The ranges of the fields of `cs`.
fn field_ranges(cs: &Vec<char>) -> (r: Vec<(usize, usize)>)
    ensures
        r@.len() == fields(cs@).len(),
        forall|t: int|
            0 <= t < r.len() ==> #[trigger] r@[t].0 <= r@[t].1 <= cs.len() && cs@.subrange(
                r@[t].0 as int,
                r@[t].1 as int,
            ) == fields(cs@)[t],
{
    let mut out: Vec<(usize, usize)> = Vec::new();
    let ghost mut done: Seq<Seq<char>> = Seq::empty();
    let mut start: usize = 0;
    let mut i: usize = 0;
    while i < cs.len()
        invariant
            start <= i <= cs.len(),
            fields(cs@) == done + fields_from(cs@, start as int, i as int),
            out.len() == done.len(),
            forall|t: int|
                0 <= t < out.len() ==> #[trigger] out@[t].0 <= out@[t].1 <= cs.len() && cs@.subrange(
                    out@[t].0 as int,
                    out@[t].1 as int,
                ) == done[t],
        decreases cs.len() - i,
    {
        if cs[i] == ',' {
            proof {
                assert(done + fields_from(cs@, start as int, i as int) =~= done.push(
                    cs@.subrange(start as int, i as int),
                ) + fields_from(cs@, i + 1, i + 1));
                done = done.push(cs@.subrange(start as int, i as int));
            }
            out.push((start, i));
            start = i + 1;
        }
        i = i + 1;
    }
    proof {
        assert(fields_from(cs@, start as int, i as int) == seq![cs@.subrange(start as int, cs.len() as int)]);
        assert(done + seq![cs@.subrange(start as int, cs.len() as int)] =~= done.push(
            cs@.subrange(start as int, cs.len() as int),
        ));
        done = done.push(cs@.subrange(start as int, cs.len() as int));
    }
    out.push((start, cs.len()));
    assert(fields(cs@) =~= done);
    assert forall|t: int|
        0 <= t < out.len() implies #[trigger] out@[t].0 <= out@[t].1 <= cs.len() && cs@.subrange(
            out@[t].0 as int,
            out@[t].1 as int,
        ) == fields(cs@)[t] by {
        if t == out.len() - 1 {
            assert(out@[t] == (start, cs.len()));
        }
    }
    out
}

/// The fields of `line` that are positive whole numbers in decimal, joined by
/// commas in their order.
pub fn positive_fields(line: &str) -> (r: String)
    ensures
        r@ == join_positive(fields(line@)),
{
    let cs = to_chars(line);
    let ranges = field_ranges(&cs);
    let ghost fs = fields(cs@);
    let mut out: Vec<char> = Vec::new();
    for t in 0..ranges.len()
        invariant
            fs == fields(cs@),
            ranges@.len() == fs.len(),
            forall|u: int|
                0 <= u < ranges.len() ==> #[trigger] ranges@[u].0 <= ranges@[u].1 <= cs.len() && cs@.subrange(
                    ranges@[u].0 as int,
                    ranges@[u].1 as int,
                ) == fs[u],
            out@ == join_positive(fs.take(t as int)),
    {
        let (a, b) = ranges[t];
        assert(fs.take(t + 1).drop_last() =~= fs.take(t as int));
        assert(fs.take(t + 1).last() == cs@.subrange(a as int, b as int));
        if positive_at(&cs, a, b) {
            let ghost before = out@;
            if out.len() > 0 {
                out.push(',');
            }
            let ghost mid = out@;
            let mut k = a;
            while k < b
                invariant
                    a <= k <= b <= cs.len(),
                    out@ == mid + cs@.subrange(a as int, k as int),
                decreases b - k,
            {
                out.push(cs[k]);
                assert(out@ =~= mid + cs@.subrange(a as int, k + 1));
                k = k + 1;
            }
            assert(out@ =~= join_positive(fs.take(t + 1)));
        }
    }
    assert(fs.take(fs.len() as int) =~= fs);
    assert(cs@ == line@);
    string_of(&out, 0, out.len())
}

} // verus!
