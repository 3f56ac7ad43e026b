//! The output side: each emitted line is written followed by one line
//! terminator, appended after whatever the destination already holds.

use vstd::prelude::*;

verus! {

/// A line as written to the destination: its text and a terminator.
pub open spec fn framed(line: Seq<char>) -> Seq<char> {
    line.push('\n')
}

/// The framed lines one after the other.
pub open spec fn framed_all(lines: Seq<Seq<char>>) -> Seq<char>
    decreases lines.len(),
{
    if lines.len() == 0 {
        Seq::<char>::empty()
    } else {
        framed_all(lines.drop_last()) + framed(lines.last())
    }
}

/// The text that one emission writes.
pub fn framed_line(line: &str) -> (r: String)
    ensures
        r@ == framed(line@),
{
    let mut out = String::from_str(line);
    out.append("\n");
    proof {
        reveal_strlit("\n");
    }
    out
}

/// Appends one framed line to `out`, keeping what it held.
pub fn append_line(out: &mut String, line: &str)
    ensures
        final(out)@ == old(out)@ + framed(line@),
{
    out.append(line);
    out.append("\n");
    proof {
        reveal_strlit("\n");
        assert(old(out)@ + line@ + seq!['\n'] == old(out)@ + framed(line@));
    }
}

/// Appends the framed lines, in order, after what `out` held.
pub fn append_lines(out: &mut String, lines: &Vec<String>)
    ensures
        final(out)@ == old(out)@ + framed_all(lines@.map_values(|l: String| l@)),
{
    let ghost start = out@;
    let ghost views = lines@.map_values(|l: String| l@);
    let mut i: usize = 0;
    while i < lines.len()
        invariant
            i <= lines@.len(),
            views == lines@.map_values(|l: String| l@),
            out@ == start + framed_all(views.subrange(0, i as int)),
        decreases lines@.len() - i,
    {
        append_line(out, lines[i].as_str());
        proof {
            let q = views.subrange(0, i + 1);
            assert(q.drop_last() == views.subrange(0, i as int));
            assert(q.last() == lines@[i as int]@);
            assert(start + framed_all(views.subrange(0, i as int)) + framed(lines@[i as int]@)
                == start + (framed_all(views.subrange(0, i as int)) + framed(lines@[i as int]@)));
        }
        i = i + 1;
    }
    proof {
        assert(views.subrange(0, lines@.len() as int) == views);
    }
}

} // verus!
