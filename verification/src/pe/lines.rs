//! What the lines of a partitioner's solution stand for.
use crate::pe::parts_file::{
    bad_line, digits_value, is_digit, lemma_line_end, line_at, line_end, line_ok, lines, lines_from,
    lines_of, number, unsigned,
};
use vstd::arithmetic::div_mod::lemma_div_denominator;
use vstd::arithmetic::power::{lemma_pow0, lemma_pow1, lemma_pow_adds, lemma_pow_positive, pow};
use vstd::prelude::*;

verus! {

/// Whether a text consists of digits.
pub open spec fn all_digits(s: Seq<u8>) -> bool {
    forall|i: int| 0 <= i < s.len() ==> 0x30 <= #[trigger] s[i] <= 0x39
}

/// The digits of a text are the decimal digits of the number that it stands for, the last one
/// being that of the ones.
pub proof fn law_digits(s: Seq<u8>, n: int, i: int)
    requires
        all_digits(s),
        0 <= i < n <= s.len(),
    ensures
        digits_value(s, n) as int / pow(10, (n - 1 - i) as nat) % 10 == s[i] - 0x30,
        digits_value(s, n) < pow(10, n as nat),
    decreases n,
{
    let v = digits_value(s, n - 1) as int;
    let d = s[n - 1] - 48;
    lemma_digits_bound(s, n);
    assert(digits_value(s, n) == v * 10 + d);
    if i == n - 1 {
        lemma_pow0(10);
        assert((v * 10 + d) % 10 == d);
    } else {
        law_digits(s, n - 1, i);
        let e = (n - 2 - i) as nat;
        lemma_pow_adds(10, 1, e);
        lemma_pow1(10);
        lemma_pow_positive(10, e);
        lemma_div_denominator(v * 10 + d, 10, pow(10, e));
        assert((v * 10 + d) / 10 == v);
    }
}

proof fn lemma_digits_bound(s: Seq<u8>, n: int)
    requires
        all_digits(s),
        0 <= n <= s.len(),
    ensures
        digits_value(s, n) < pow(10, n as nat),
    decreases n,
{
    lemma_pow0(10);
    if n > 0 {
        lemma_digits_bound(s, n - 1);
        lemma_pow_adds(10, 1, (n - 1) as nat);
        lemma_pow1(10);
        assert(0x30 <= s[n - 1] <= 0x39);
    }
}

/// A line holds a number if it consists of at least one digit, with or without a plus sign in
/// front, and the number is a machine word.
pub proof fn law_number(line: Seq<u8>, s: Seq<u8>)
    requires
        line == seq![0x2bu8] + s || (line == s && (s.len() == 0 || s[0] != 0x2b)),
    ensures
        number(line) == if s.len() > 0 && all_digits(s) && digits_value(s, s.len() as int)
            <= usize::MAX {
            Some(digits_value(s, s.len() as int) as usize)
        } else {
            None
        },
{
    assert(unsigned(line) =~= s);
    if all_digits(s) {
        assert forall|i: int| 0 <= i < s.len() implies is_digit(#[trigger] s[i]) by {}
    }
    if forall|i: int| 0 <= i < s.len() ==> is_digit(#[trigger] s[i]) {
        assert forall|i: int| 0 <= i < s.len() implies 0x30 <= #[trigger] s[i] <= 0x39 by {
            assert(is_digit(s[i]));
        }
    }
}

/// Whether the line that starts at `from` stretches to `end`: a line end stands there, or the
/// text ends there, and none stands before.
pub open spec fn stretches(text: Seq<u8>, from: int, end: int) -> bool {
    &&& from <= end <= text.len()
    &&& end < text.len() ==> text[end] == 0x0a
    &&& forall|i: int| from <= i < end ==> #[trigger] text[i] != 0x0a
}

/// Whether `line` is what stands from `from` up to `end`, but for a carriage return before a line
/// end.
pub open spec fn reads_as(text: Seq<u8>, from: int, end: int, line: Seq<u8>) -> bool {
    if from < end < text.len() && text[end - 1] == 0x0d {
        text.subrange(from, end) == line.push(0x0d)
    } else {
        text.subrange(from, end) == line
    }
}

proof fn lemma_stretches(text: Seq<u8>, from: int)
    requires
        0 <= from <= text.len(),
    ensures
        stretches(text, from, line_end(text, from)),
    decreases text.len() - from,
{
    if from < text.len() && text[from] != 0x0a {
        lemma_stretches(text, from + 1);
    }
}

/// Whether a text falls into lines: line `k` starts at `starts[k]`, and the next one behind the
/// line end; the text ends with the last line or behind its line end.
pub open spec fn falls_into(text: Seq<u8>, ls: Seq<Seq<u8>>, starts: Seq<int>, from: int) -> bool {
    &&& starts.len() == ls.len() + 1
    &&& starts[0] == from
    &&& starts[ls.len() as int] >= text.len()
    &&& forall|k: int| 0 <= k < ls.len() ==> #[trigger] falls_at(text, ls, starts, k)
}

/// Whether line `k` of a text stands where it should.
pub open spec fn falls_at(text: Seq<u8>, ls: Seq<Seq<u8>>, starts: Seq<int>, k: int) -> bool {
    &&& 0 <= starts[k] < text.len()
    &&& stretches(text, starts[k], starts[k + 1] - 1)
    &&& reads_as(text, starts[k], starts[k + 1] - 1, ls[k])
}

/// The lines of a text.
pub proof fn law_lines(text: Seq<u8>) -> (starts: Seq<int>)
    ensures
        falls_into(text, lines(text), starts, 0),
{
    lemma_lines(text, 0)
}

proof fn lemma_lines(text: Seq<u8>, from: int) -> (starts: Seq<int>)
    requires
        0 <= from,
    ensures
        falls_into(text, lines_from(text, from), starts, from),
    decreases
            if from < text.len() {
                text.len() - from
            } else {
                0
            },
{
    let ls = lines_from(text, from);
    if from >= text.len() {
        seq![from]
    } else {
        let end = line_end(text, from);
        lemma_line_end(text, from);
        lemma_stretches(text, from);
        let line = line_at(text, from, end);
        let rest = lines_from(text, end + 1);
        let more = lemma_lines(text, end + 1);
        let starts = seq![from] + more;
        assert(ls == seq![line] + rest);
        if end < text.len() && end > from && text[end - 1] == 13 {
            assert(text.subrange(from, end) =~= line.push(0x0d));
        }
        assert forall|k: int| 0 <= k < ls.len() implies #[trigger] falls_at(text, ls, starts, k) by {
            if k > 0 {
                assert(falls_at(text, rest, more, k - 1));
                assert(ls[k] == rest[k - 1] && starts[k] == more[k - 1] && starts[k + 1] == more[k]);
            } else {
                assert(starts[0] == from && starts[1] == more[0] && ls[0] == line);
            }
        }
        assert(starts[ls.len() as int] == more[rest.len() as int]);
        starts
    }
}

/// The line that is reported is the first that is neither empty nor holds a number.
pub proof fn law_bad_line(text: Seq<u8>)
    ensures
        match bad_line(text, 0, 0) {
            Some(i) => {
                &&& 0 <= i < lines(text).len()
                &&& !line_ok(lines(text)[i])
                &&& forall|j: int| 0 <= j < i ==> line_ok(#[trigger] lines(text)[j])
            },
            None => forall|j: int| 0 <= j < lines(text).len() ==> line_ok(#[trigger] lines(text)[j]),
        },
{
    lemma_bad_line(text, 0, 0);
}

proof fn lemma_bad_line(text: Seq<u8>, from: int, n: int)
    requires
        0 <= from,
    ensures
        ({
            let ls = lines_from(text, from);
            match bad_line(text, from, n) {
                Some(i) => {
                    &&& 0 <= i - n < ls.len()
                    &&& !line_ok(ls[i - n])
                    &&& forall|j: int| 0 <= j < i - n ==> line_ok(#[trigger] ls[j])
                },
                None => forall|j: int| 0 <= j < ls.len() ==> line_ok(#[trigger] ls[j]),
            }
        }),
    decreases
            if from < text.len() {
                text.len() - from
            } else {
                0
            },
{
    if from < text.len() {
        let ls = lines_from(text, from);
        let end = line_end(text, from);
        lemma_line_end(text, from);
        let line = line_at(text, from, end);
        let rest = lines_from(text, end + 1);
        lemma_bad_line(text, end + 1, n + 1);
        assert(ls == seq![line] + rest);
        assert(ls[0] == line);
        assert forall|j: int| 0 < j < ls.len() implies #[trigger] ls[j] == rest[j - 1] by {}
    }
}

/// The lines of a part are those that hold its number, in increasing order.
pub proof fn law_lines_of(ls: Seq<Seq<u8>>, p: usize, n: int)
    requires
        0 <= n <= ls.len() <= usize::MAX,
    ensures
        forall|i: usize| #[trigger]
            lines_of(ls, p, n).contains(i) <==> i < n && number(ls[i as int]) == Some(p),
        forall|a: int, b: int|
            0 <= a < b < lines_of(ls, p, n).len() ==> #[trigger] lines_of(ls, p, n)[a]
                < #[trigger] lines_of(ls, p, n)[b],
    decreases n,
{
    if n > 0 {
        law_lines_of(ls, p, n - 1);
        let less = lines_of(ls, p, n - 1);
        let list = lines_of(ls, p, n);
        let new = (n - 1) as usize;
        assert forall|a: int| 0 <= a < less.len() implies #[trigger] less[a] < n - 1 by {
            assert(less.contains(less[a]));
        }
        if number(ls[n - 1]) == Some(p) {
            assert(list == less.push(new));
            assert forall|i: usize| #[trigger] list.contains(i) <==> less.contains(i) || i == new by {
                if less.contains(i) {
                    let q = less.index_of(i);
                    assert(list[q] == i);
                }
                assert(list[less.len() as int] == new);
            }
        }
        assert forall|i: usize| #[trigger] list.contains(i) <==> i < n && number(ls[i as int])
            == Some(p) by {
            assert(less.contains(i) <==> i < n - 1 && number(ls[i as int]) == Some(p));
        }
    }
}

} // verus!
