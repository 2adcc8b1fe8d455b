//! The input of a build is text with one name on each line. This module says
//! what the lines of a text are and cuts a text into them.

use vstd::prelude::*;

verus! {

/// The line feed, which ends a line.
pub const LF: u8 = 0x0A;

/// The carriage return, which is dropped where it stands before a line feed.
pub const CR: u8 = 0x0D;

/// The byte strings that `keys` refer to.
pub open spec fn key_views(keys: Seq<&[u8]>) -> Seq<Seq<u8>> {
    keys.map_values(|key: &[u8]| key@)
}

/// The number of bytes of `text` before its first line feed, or the length of
/// `text` if it holds none.
pub open spec fn line_len(text: Seq<u8>) -> int
    decreases text.len(),
{
    if text.len() == 0 || text[0] == LF {
        0
    } else {
        1 + line_len(text.drop_first())
    }
}

/// `line` without the carriage return at its end, if it has one.
pub open spec fn without_cr(line: Seq<u8>) -> Seq<u8> {
    if line.len() > 0 && line.last() == CR {
        line.drop_last()
    } else {
        line
    }
}

/// The lines of `text`. A line ends at a line feed, which is not part of it,
/// nor is a carriage return just before that line feed. What follows the last
/// line feed is a line too, taken as it stands, unless it is empty.
pub open spec fn text_lines(text: Seq<u8>) -> Seq<Seq<u8>>
    decreases text.len(),
{
    let n = line_len(text);
    if text.len() == 0 {
        Seq::empty()
    } else if 0 <= n < text.len() {
        seq![without_cr(text.take(n))] + text_lines(text.skip(n + 1))
    } else {
        seq![text]
    }
}

/// `line_len` is the place of the first line feed.
pub proof fn lemma_line_len(text: Seq<u8>, n: int)
    requires
        0 <= n <= text.len(),
        forall|i: int| 0 <= i < n ==> text[i] != LF,
        n < text.len() ==> text[n] == LF,
    ensures
        line_len(text) == n,
    decreases n,
{
    if n > 0 {
        lemma_line_len(text.drop_first(), n - 1);
    }
}

/// Cuts `text` into its lines. The lines are parts of `text` itself.
pub fn split_lines<'a>(text: &'a [u8]) -> (lines: Vec<&'a [u8]>)
    ensures
        key_views(lines@) == text_lines(text@),
{
    let mut lines: Vec<&'a [u8]> = Vec::new();
    let mut start: usize = 0;
    assert(text@.skip(0) =~= text@);
    assert(key_views(lines@) + text_lines(text@.skip(0)) =~= text_lines(text@));
    while start < text.len()
        invariant
            start <= text@.len(),
            key_views(lines@) + text_lines(text@.skip(start as int)) == text_lines(text@),
        decreases text@.len() - start,
    {
        let ghost rest = text@.skip(start as int);
        let ghost done = key_views(lines@);
        let mut end: usize = start;
        while end < text.len() && text[end] != LF
            invariant
                start <= end <= text@.len(),
                forall|i: int| start <= i < end ==> text@[i] != LF,
            decreases text@.len() - end,
        {
            end += 1;
        }
        proof {
            lemma_line_len(rest, end - start);
        }
        if end < text.len() {
            let mut stop: usize = end;
            if stop > start && text[stop - 1] == CR {
                stop -= 1;
            }
            let line: &'a [u8] = &text[start..stop];
            lines.push(line);
            proof {
                assert(rest.take(end - start) =~= text@.subrange(start as int, end as int));
                assert(line@ =~= without_cr(rest.take(end - start)));
                assert(rest.skip(end - start + 1) =~= text@.skip(end + 1));
                assert(key_views(lines@) =~= done.push(line@));
                assert(done.push(line@) + text_lines(text@.skip(end + 1)) =~= done + text_lines(
                    rest,
                ));
            }
            start = end + 1;
        } else {
            let line: &'a [u8] = &text[start..end];
            lines.push(line);
            proof {
                assert(line@ =~= rest);
                assert(text@.skip(end as int) =~= Seq::<u8>::empty());
                assert(key_views(lines@) =~= done.push(line@));
                assert(done.push(line@) + text_lines(text@.skip(end as int)) =~= done
                    + text_lines(rest));
            }
            start = end;
        }
    }
    assert(text_lines(text@.skip(start as int)) =~= Seq::<Seq<u8>>::empty());
    assert(key_views(lines@) + Seq::<Seq<u8>>::empty() =~= key_views(lines@));
    lines
}

} // verus!
