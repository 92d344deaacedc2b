//! Reading the solutions of hypergraph partitioners.
//!
//! Each line of such a file holds the number of the part of one endpoint.
use crate::pe::hier::rows;
use vstd::prelude::*;

verus! {

/// The character that ends a line.
pub const NEWLINE: u8 = 10;

/// A character before the end of a line that does not belong to it.
pub const RETURN: u8 = 13;

/// The position of the first line end from `from` on, or the end of the text.
pub open spec fn line_end(text: Seq<u8>, from: int) -> int
    decreases text.len() - from,
{
    if from >= text.len() {
        text.len() as int
    } else if text[from] == NEWLINE {
        from
    } else {
        line_end(text, from + 1)
    }
}

/// The line from `from` on that ends at `end`.
pub open spec fn line_at(text: Seq<u8>, from: int, end: int) -> Seq<u8> {
    if end < text.len() && end > from && text[end - 1] == RETURN {
        text.subrange(from, end - 1)
    } else {
        text.subrange(from, end)
    }
}

/// Whether a character is a digit.
pub open spec fn is_digit(c: u8) -> bool {
    48 <= c <= 57
}

/// The number that the first `k` digits of a text stand for.
pub open spec fn digits_value(s: Seq<u8>, k: int) -> nat
    decreases k,
{
    if k <= 0 {
        0
    } else {
        (digits_value(s, k - 1) * 10 + (s[k - 1] - 48)) as nat
    }
}

/// A text without a plus sign in front.
pub open spec fn unsigned(s: Seq<u8>) -> Seq<u8> {
    if s.len() > 0 && s[0] == 43 {
        s.skip(1)
    } else {
        s
    }
}

/// The number that a line stands for, if it consists of digits, with or without a plus
/// sign in front, and the number is a machine word.
pub open spec fn number(line: Seq<u8>) -> Option<usize> {
    let s = unsigned(line);
    if s.len() > 0 && (forall|i: int| 0 <= i < s.len() ==> is_digit(#[trigger] s[i]))
        && digits_value(s, s.len() as int) <= usize::MAX {
        Some(digits_value(s, s.len() as int) as usize)
    } else {
        None
    }
}

/// `parts` after endpoint `i` is put into part `id`.
pub open spec fn put_endpoint(parts: Seq<Seq<usize>>, id: usize, i: usize) -> Seq<Seq<usize>> {
    let n = if parts.len() <= id {
        (id + 1) as nat
    } else {
        parts.len()
    };
    Seq::new(
        n,
        |p: int|
            {
                let old = if p < parts.len() {
                    parts[p]
                } else {
                    Seq::empty()
                };
                if p == id {
                    old.push(i)
                } else {
                    old
                }
            },
    )
}

/// The parts after the lines from `from` on, the first of which is line `i`. Empty
/// lines are left out. Nothing if a line does not hold a number.
pub open spec fn parts_from(text: Seq<u8>, from: int, i: int, parts: Seq<Seq<usize>>) -> Option<
    Seq<Seq<usize>>,
>
    decreases
            if from < text.len() {
                text.len() - from
            } else {
                0
            },
{
    if from < 0 || from >= text.len() {
        Some(parts)
    } else {
        let end = line_end(text, from);
        let line = line_at(text, from, end);
        proof {
            lemma_line_end(text, from);
        }
        if line.len() == 0 {
            parts_from(text, end + 1, i + 1, parts)
        } else {
            match number(line) {
                Some(id) => parts_from(
                    text,
                    end + 1,
                    i + 1,
                    put_endpoint(parts, id, i as usize),
                ),
                None => None,
            }
        }
    }
}

/// The parts that a file describes. Nothing if a line does not hold a number.
pub open spec fn hgr_parts(text: Seq<u8>) -> Option<Seq<Seq<usize>>> {
    parts_from(text, 0, 0, Seq::empty())
}

/// The number of the first line from `from` on that does not hold a number, where the
/// line at `from` is line `i`.
pub open spec fn bad_line(text: Seq<u8>, from: int, i: int) -> Option<int>
    decreases
            if from < text.len() {
                text.len() - from
            } else {
                0
            },
{
    if from < 0 || from >= text.len() {
        None
    } else {
        let end = line_end(text, from);
        let line = line_at(text, from, end);
        proof {
            lemma_line_end(text, from);
        }
        if line.len() == 0 || number(line) is Some {
            bad_line(text, end + 1, i + 1)
        } else {
            Some(i)
        }
    }
}

/// A line does not end before it starts.
pub proof fn lemma_line_end(text: Seq<u8>, from: int)
    ensures
        from <= text.len() ==> from <= line_end(text, from) <= text.len(),
    decreases text.len() - from,
{
    if from < text.len() && text[from] != NEWLINE {
        lemma_line_end(text, from + 1);
    }
}

/// The lines from `from` on.
pub open spec fn lines_from(text: Seq<u8>, from: int) -> Seq<Seq<u8>>
    decreases
            if from < text.len() {
                text.len() - from
            } else {
                0
            },
{
    if from < 0 || from >= text.len() {
        Seq::empty()
    } else {
        let end = line_end(text, from);
        proof {
            lemma_line_end(text, from);
        }
        seq![line_at(text, from, end)] + lines_from(text, end + 1)
    }
}

/// The lines of a text.
pub open spec fn lines(text: Seq<u8>) -> Seq<Seq<u8>> {
    lines_from(text, 0)
}

/// Whether a line is empty or holds a number.
pub open spec fn line_ok(line: Seq<u8>) -> bool {
    line.len() == 0 || number(line) is Some
}

/// The indices of those of the first `k` lines that hold the number `p`, in increasing
/// order.
pub open spec fn lines_of(ls: Seq<Seq<u8>>, p: usize, k: int) -> Seq<usize>
    decreases k,
{
    if k <= 0 {
        Seq::empty()
    } else if number(ls[k - 1]) == Some(p) {
        lines_of(ls, p, k - 1).push((k - 1) as usize)
    } else {
        lines_of(ls, p, k - 1)
    }
}

/// Whether each part lists the lines that hold its number, and there are as many parts as
/// the largest number asks for.
pub open spec fn lists_lines(ls: Seq<Seq<u8>>, parts: Seq<Seq<usize>>) -> bool {
    &&& forall|p: int|
        0 <= p < parts.len() ==> #[trigger] parts[p] == lines_of(ls, p as usize, ls.len() as int)
    &&& forall|i: int|
        0 <= i < ls.len() ==> (number(#[trigger] ls[i]) matches Some(id) ==> id < parts.len())
    &&& parts.len() > 0 ==> exists|i: int|
        0 <= i < ls.len() && number(#[trigger] ls[i]) == Some((parts.len() - 1) as usize)
}

proof fn lemma_lines_of_push(ls: Seq<Seq<u8>>, line: Seq<u8>, p: usize, k: int)
    requires
        k <= ls.len(),
    ensures
        lines_of(ls.push(line), p, k) == lines_of(ls, p, k),
    decreases k,
{
    if k > 0 {
        lemma_lines_of_push(ls, line, p, k - 1);
    }
}

proof fn lemma_lines_of_none(ls: Seq<Seq<u8>>, p: usize, k: int)
    requires
        k <= ls.len(),
        forall|i: int| 0 <= i < ls.len() ==> number(#[trigger] ls[i]) != Some(p),
    ensures
        lines_of(ls, p, k) == Seq::<usize>::empty(),
    decreases k,
{
    if k > 0 {
        lemma_lines_of_none(ls, p, k - 1);
        assert(number(ls[k - 1]) != Some(p));
    }
}

/// One more line.
proof fn lemma_one_line(ls: Seq<Seq<u8>>, line: Seq<u8>, parts: Seq<Seq<usize>>)
    requires
        lists_lines(ls, parts),
        ls.len() < usize::MAX,
        parts.len() <= usize::MAX + 1,
    ensures
        lists_lines(
            ls.push(line),
            match number(line) {
                Some(id) => put_endpoint(parts, id, ls.len() as usize),
                None => parts,
            },
        ),
{
    let n = ls.len() as int;
    let all = ls.push(line);
    let next = match number(line) {
        Some(id) => put_endpoint(parts, id, ls.len() as usize),
        None => parts,
    };
    assert(all[n] == line);
    assert forall|p: int| 0 <= p < next.len() implies #[trigger] next[p] == lines_of(
        all,
        p as usize,
        n + 1,
    ) by {
        lemma_lines_of_push(ls, line, p as usize, n);
        if p < parts.len() {
            assert(parts[p] == lines_of(ls, p as usize, n));
        } else {
            assert forall|i: int| 0 <= i < ls.len() implies number(#[trigger] ls[i]) != Some(
                p as usize,
            ) by {}
            lemma_lines_of_none(ls, p as usize, n);
        }
    }
    assert forall|i: int| 0 <= i < all.len() implies (number(#[trigger] all[i]) matches Some(id)
        ==> id < next.len()) by {
        if i < n {
            assert(all[i] == ls[i]);
        }
    }
    if next.len() > 0 {
        if next.len() > parts.len() {
            assert(number(all[n]) == Some((next.len() - 1) as usize));
        } else {
            let i = choose|i: int|
                0 <= i < ls.len() && number(#[trigger] ls[i]) == Some((parts.len() - 1) as usize);
            assert(all[i] == ls[i]);
        }
    }
}

proof fn lemma_parts_from(text: Seq<u8>, from: int, ls: Seq<Seq<u8>>, parts: Seq<Seq<usize>>)
    requires
        text.len() <= usize::MAX,
        ls.len() <= from,
        lists_lines(ls, parts),
        parts.len() <= usize::MAX + 1,
    ensures
        ({
            let rest = lines_from(text, from);
            match parts_from(text, from, ls.len() as int, parts) {
                Some(r) => {
                    &&& lists_lines(ls + rest, r)
                    &&& forall|i: int| 0 <= i < rest.len() ==> line_ok(#[trigger] rest[i])
                },
                None => exists|i: int| 0 <= i < rest.len() && !line_ok(#[trigger] rest[i]),
            }
        }),
    decreases
            if from < text.len() {
                text.len() - from
            } else {
                0
            },
{
    let rest = lines_from(text, from);
    if from >= text.len() {
        assert(ls + rest =~= ls);
    } else {
        let end = line_end(text, from);
        lemma_line_end(text, from);
        let line = line_at(text, from, end);
        let tail = lines_from(text, end + 1);
        assert(rest == seq![line] + tail);
        assert(rest[0] == line);
        assert(line.len() == 0 ==> number(line) is None);
        if line_ok(line) {
            let next = match number(line) {
                Some(id) => put_endpoint(parts, id, ls.len() as usize),
                None => parts,
            };
            lemma_one_line(ls, line, parts);
            lemma_parts_from(text, end + 1, ls.push(line), next);
            assert(ls.push(line) + tail =~= ls + rest);
            match parts_from(text, end + 1, ls.len() as int + 1, next) {
                Some(r) => {
                    assert forall|i: int| 0 <= i < rest.len() implies line_ok(
                        #[trigger] rest[i],
                    ) by {
                        if i > 0 {
                            assert(rest[i] == tail[i - 1]);
                        }
                    }
                },
                None => {
                    let i = choose|i: int| 0 <= i < tail.len() && !line_ok(#[trigger] tail[i]);
                    assert(rest[i + 1] == tail[i]);
                },
            }
        }
    }
}

/// A file describes parts exactly if each of its lines is empty or holds a number; then
/// part `p` lists the indices of the lines that hold `p`, in increasing order, and there
/// are as many parts as the largest number asks for. Empty lines are counted.
pub proof fn law_hgr_parts(text: Seq<u8>)
    requires
        text.len() <= usize::MAX,
    ensures
        hgr_parts(text) is Some <==> forall|i: int|
            0 <= i < lines(text).len() ==> line_ok(#[trigger] lines(text)[i]),
        hgr_parts(text) matches Some(parts) ==> lists_lines(lines(text), parts),
{
    let ls = Seq::<Seq<u8>>::empty();
    let parts = Seq::<Seq<usize>>::empty();
    lemma_parts_from(text, 0, ls, parts);
    assert(ls + lines(text) =~= lines(text));
}

/// More digits do not make a number smaller.
proof fn lemma_digits_value(s: Seq<u8>, k: int, n: int)
    requires
        0 <= k <= n <= s.len(),
        forall|i: int| 0 <= i < s.len() ==> is_digit(#[trigger] s[i]),
    ensures
        digits_value(s, k) <= digits_value(s, n),
    decreases n - k,
{
    if k < n {
        lemma_digits_value(s, k, n - 1);
        assert(is_digit(s[n - 1]));
    }
}

/// The number that a line stands for.
fn parse_number(text: &[u8], from: usize, to: usize) -> (r: Option<usize>)
    requires
        from <= to <= text@.len(),
    ensures
        r == number(text@.subrange(from as int, to as int)),
{
    let ghost line = text@.subrange(from as int, to as int);
    let ghost s = unsigned(line);
    let mut start = from;
    if from < to && text[from] == 43 {
        start = from + 1;
    }
    assert(s =~= text@.subrange(start as int, to as int));
    if start == to {
        return None;
    }
    let mut value: usize = 0;
    let mut k: usize = start;
    while k < to
        invariant
            start <= k <= to <= text@.len(),
            s == text@.subrange(start as int, to as int),
            s == unsigned(line),
            line == text@.subrange(from as int, to as int),
            forall|i: int| 0 <= i < k - start ==> is_digit(#[trigger] s[i]),
            value == digits_value(s, k - start),
        decreases to - k,
    {
        let c = text[k];
        assert(s[k - start] == c);
        if c < 48 || c > 57 {
            assert(!is_digit(s[k - start]));
            return None;
        }
        let digit = (c - 48) as usize;
        if value > usize::MAX / 10 || value * 10 > usize::MAX - digit {
            proof {
                if forall|i: int| 0 <= i < s.len() ==> is_digit(#[trigger] s[i]) {
                    lemma_digits_value(s, k - start + 1, s.len() as int);
                }
            }
            return None;
        }
        value = value * 10 + digit;
        k += 1;
    }
    Some(value)
}

/// Finds the end of a line.
fn find_line_end(text: &[u8], from: usize) -> (end: usize)
    requires
        from <= text@.len(),
    ensures
        end == line_end(text@, from as int),
        from <= end <= text@.len(),
{
    let n = text.len();
    let mut k = from;
    while k < n
        invariant
            from <= k <= n,
            n == text@.len(),
            line_end(text@, from as int) == line_end(text@, k as int),
        decreases n - k,
    {
        if text[k] == NEWLINE {
            return k;
        }
        k += 1;
    }
    n
}

/// Reads the parts that a file describes. Returns the number of the first line that
/// does not hold a number, if there is one; lines are counted from 0.
pub fn parse_hgr_parts(text: &[u8]) -> (r: Result<Vec<Vec<usize>>, usize>)
    ensures
        match hgr_parts(text@) {
            Some(parts) => r matches Ok(v) && rows(v@) == parts,
            None => r matches Err(i) && bad_line(text@, 0, 0) == Some(i as int),
        },
{
    let n = text.len();
    let mut parts: Vec<Vec<usize>> = Vec::new();
    let mut from: usize = 0;
    let mut i: usize = 0;
    assert(rows(parts@) =~= Seq::empty());
    while from < n
        invariant
            from <= n,
            i <= from,
            n == text@.len(),
            hgr_parts(text@) == parts_from(text@, from as int, i as int, rows(parts@)),
            bad_line(text@, 0, 0) == bad_line(text@, from as int, i as int),
        decreases n - from,
    {
        let end = find_line_end(text, from);
        let mut to = end;
        if end < n && end > from && text[end - 1] == RETURN {
            to = end - 1;
        }
        let ghost line = line_at(text@, from as int, end as int);
        assert(line =~= text@.subrange(from as int, to as int));
        if to > from {
            match parse_number(text, from, to) {
                Some(id) => {
                    add_endpoint(&mut parts, id, i);
                },
                None => {
                    return Err(i);
                },
            }
        }
        if end == n {
            assert(parts_from(text@, end + 1, i + 1, rows(parts@)) == Some(rows(parts@)));
            return Ok(parts);
        }
        from = end + 1;
        i += 1;
    }
    Ok(parts)
}

/// Puts an endpoint into a part.
fn add_endpoint(parts: &mut Vec<Vec<usize>>, id: usize, i: usize)
    ensures
        rows(final(parts)@) == put_endpoint(rows(old(parts)@), id, i),
{
    let ghost before = rows(parts@);
    while parts.len() <= id
        invariant
            before.len() <= parts@.len(),
            parts@.len() <= id + 1 || parts@.len() == before.len(),
            forall|p: int|
                0 <= p < parts@.len() ==> #[trigger] rows(parts@)[p] == if p < before.len() {
                    before[p]
                } else {
                    Seq::<usize>::empty()
                },
        decreases id + 1 - parts@.len(),
    {
        let ghost was = rows(parts@);
        parts.push(Vec::new());
        assert forall|p: int| 0 <= p < parts@.len() implies #[trigger] rows(parts@)[p] == if p
            < before.len() {
            before[p]
        } else {
            Seq::<usize>::empty()
        } by {
            if p < was.len() {
                assert(rows(parts@)[p] == was[p]);
            } else {
                assert(rows(parts@)[p] =~= Seq::<usize>::empty());
            }
        }
    }
    let ghost was = rows(parts@);
    let ghost all = parts@;
    parts[id].push(i);
    proof {
        let want = put_endpoint(before, id, i);
        assert forall|p: int| 0 <= p < want.len() implies rows(parts@)[p] == want[p] by {
            assert(was[p] == all[p]@);
            if p != id {
                assert(parts@[p] == all[p]);
            }
        }
        assert(rows(parts@) =~= want);
    }
}

} // verus!
