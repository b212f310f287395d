//! The line splitter: a text buffer becomes an ordered sequence of lines.
//!
//! A line ends at `'\n'` or at `"\r\n"`; the terminator is not part of the
//! line. The final line is kept even without a trailing terminator (and then
//! keeps a lone trailing `'\r'`), and an empty buffer yields no lines at
//! all, not a single empty line.

use vstd::prelude::*;

verus! {

/// The index of the first `'\n'` in the text, if any.
pub open spec fn first_newline(c: Seq<char>) -> Option<int>
    decreases c.len(),
{
    if c.len() == 0 {
        None
    } else if c[0] == '\n' {
        Some(0int)
    } else {
        match first_newline(c.drop_first()) {
            Some(i) => Some(i + 1),
            None => None,
        }
    }
}

/// What `first_newline` returns: the first `'\n'` when there is one.
pub proof fn lemma_first_newline(c: Seq<char>)
    ensures
        match first_newline(c) {
            Some(i) => 0 <= i < c.len() && c[i] == '\n' && forall|j: int|
                0 <= j < i ==> c[j] != '\n',
            None => forall|j: int| 0 <= j < c.len() ==> c[j] != '\n',
        },
    decreases c.len(),
{
    if c.len() > 0 && c[0] != '\n' {
        lemma_first_newline(c.drop_first());
        assert(forall|j: int| 1 <= j < c.len() ==> c[j] == c.drop_first()[j - 1]);
        match first_newline(c.drop_first()) {
            Some(i) => {
                assert(c[i + 1] == c.drop_first()[i]);
                assert(forall|j: int| 1 <= j < i + 1 ==> c[j] == c.drop_first()[j - 1]);
            },
            None => {},
        }
    }
}

/// `first_newline` from the position of the first `'\n'`.
pub proof fn lemma_first_newline_is(c: Seq<char>, i: int)
    requires
        0 <= i < c.len(),
        c[i] == '\n',
        forall|j: int| 0 <= j < i ==> c[j] != '\n',
    ensures
        first_newline(c) == Some(i),
    decreases c.len(),
{
    if i > 0 {
        assert(forall|j: int| 0 <= j < i - 1 ==> c.drop_first()[j] != '\n');
        lemma_first_newline_is(c.drop_first(), i - 1);
    }
}

/// `first_newline` when the text has no `'\n'` at all.
pub proof fn lemma_first_newline_none(c: Seq<char>)
    requires
        forall|j: int| 0 <= j < c.len() ==> c[j] != '\n',
    ensures
        first_newline(c) == None::<int>,
{
    lemma_first_newline(c);
    if first_newline(c) is Some {
        let i = first_newline(c)->0;
        assert(c[i] == '\n');
    }
}

/// A single trailing `'\r'` removed, as the `"\r\n"` terminator asks.
pub open spec fn strip_trailing_cr(s: Seq<char>) -> Seq<char> {
    if s.len() > 0 && s[s.len() - 1] == '\r' {
        s.drop_last()
    } else {
        s
    }
}

#[via_fn]
proof fn spec_lines_decreases(c: Seq<char>) {
    lemma_first_newline(c);
}

/// The lines of a text buffer, in order.
pub open spec fn spec_lines(c: Seq<char>) -> Seq<Seq<char>>
    decreases c.len(),
    via spec_lines_decreases
{
    if c.len() == 0 {
        Seq::empty()
    } else {
        match first_newline(c) {
            Some(i) => seq![strip_trailing_cr(c.subrange(0, i))] + spec_lines(
                c.subrange(i + 1, c.len() as int),
            ),
            None => seq![c],
        }
    }
}

/// There are never more lines than characters.
pub proof fn lemma_lines_count(c: Seq<char>)
    ensures
        spec_lines(c).len() <= c.len(),
    decreases c.len(),
{
    if c.len() > 0 {
        lemma_first_newline(c);
        match first_newline(c) {
            Some(i) => {
                lemma_lines_count(c.subrange(i + 1, c.len() as int));
            },
            None => {},
        }
    }
}

/// The characters of one segment of the buffer, with a trailing `'\r'`
/// removed when the segment ends at a line terminator.
fn copy_segment(c: &Vec<char>, from: usize, to: usize, terminated: bool) -> (seg: Vec<char>)
    requires
        from <= to <= c.len(),
    ensures
        terminated ==> seg@ == strip_trailing_cr(c@.subrange(from as int, to as int)),
        !terminated ==> seg@ == c@.subrange(from as int, to as int),
{
    let mut stop = to;
    if terminated && to > from && c[to - 1] == '\r' {
        stop = to - 1;
    }
    let mut seg: Vec<char> = Vec::new();
    let mut i: usize = from;
    while i < stop
        invariant
            from <= i <= stop <= c.len(),
            seg@ == c@.subrange(from as int, i as int),
        decreases stop - i,
    {
        seg.push(c[i]);
        i = i + 1;
        proof {
            assert(seg@ =~= c@.subrange(from as int, i as int));
        }
    }
    proof {
        let whole = c@.subrange(from as int, to as int);
        if terminated {
            if to > from && c@[to as int - 1] == '\r' {
                assert(whole[whole.len() - 1] == '\r');
                assert(seg@ =~= whole.drop_last());
                assert(seg@ == strip_trailing_cr(whole));
            } else {
                if whole.len() > 0 {
                    assert(whole[whole.len() - 1] == c@[to as int - 1]);
                }
                assert(strip_trailing_cr(whole) == whole);
            }
        }
    }
    seg
}

/// The buffer split into its lines.
pub fn split_lines(c: &Vec<char>) -> (r: Vec<Vec<char>>)
    ensures
        r.deep_view() == spec_lines(c@),
{
    let n = c.len();
    let mut r: Vec<Vec<char>> = Vec::new();
    let mut pos: usize = 0;
    proof {
        assert(c@.subrange(0, n as int) =~= c@);
        assert(r.deep_view() =~~= Seq::<Seq<char>>::empty());
        assert(spec_lines(c@) =~~= r.deep_view() + spec_lines(c@.subrange(0, n as int)));
    }
    while pos < n
        invariant
            pos <= n,
            n == c.len(),
            spec_lines(c@) =~~= r.deep_view() + spec_lines(c@.subrange(pos as int, n as int)),
        decreases n - pos,
    {
        let ghost rest = c@.subrange(pos as int, n as int);
        let mut j: usize = pos;
        while j < n && c[j] != '\n'
            invariant
                pos <= j <= n,
                n == c.len(),
                forall|k: int| pos <= k < j ==> c@[k] != '\n',
            decreases n - j,
        {
            j = j + 1;
        }
        let ghost old_r = r.deep_view();
        let ghost old_pos = pos as int;
        if j < n {
            let seg = copy_segment(c, pos, j, true);
            r.push(seg);
            pos = j + 1;
            proof {
                assert(rest[j - old_pos] == '\n');
                assert(forall|k: int| 0 <= k < j - old_pos ==> rest[k] != '\n');
                lemma_first_newline_is(rest, j - old_pos);
                assert(rest.subrange(0, j - old_pos) =~= c@.subrange(old_pos, j as int));
                assert(rest.subrange(j - old_pos + 1, rest.len() as int) =~= c@.subrange(
                    pos as int,
                    n as int,
                ));
                assert(seg.deep_view() =~= seg@);
                assert(r.deep_view() =~~= old_r + seq![seg@]);
                assert(spec_lines(rest) =~~= seq![seg@] + spec_lines(
                    c@.subrange(pos as int, n as int),
                ));
                assert(old_r + spec_lines(rest) =~~= r.deep_view() + spec_lines(
                    c@.subrange(pos as int, n as int),
                ));
            }
        } else {
            let seg = copy_segment(c, pos, n, false);
            r.push(seg);
            pos = n;
            proof {
                assert(forall|k: int| 0 <= k < rest.len() ==> rest[k] != '\n');
                lemma_first_newline_none(rest);
                assert(rest.len() > 0);
                assert(seg@ == rest);
                assert(spec_lines(rest) =~~= seq![seg@]);
                assert(seg.deep_view() =~= seg@);
                assert(r.deep_view() =~~= old_r + seq![seg@]);
                assert(spec_lines(c@.subrange(pos as int, n as int)) =~~= Seq::<
                    Seq<char>,
                >::empty());
                assert(old_r + spec_lines(rest) =~~= r.deep_view() + spec_lines(
                    c@.subrange(pos as int, n as int),
                ));
            }
        }
    }
    proof {
        assert(c@.subrange(pos as int, n as int).len() == 0);
        assert(spec_lines(c@.subrange(pos as int, n as int)) =~~= Seq::<Seq<char>>::empty());
        assert(r.deep_view() =~~= spec_lines(c@));
    }
    r
}

} // verus!
