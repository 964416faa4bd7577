//! The label file: one class name per line, the line number being the
//! position of the class in the output of the model.

use vstd::prelude::*;
use vstd::std_specs::iter::IteratorSpec;

verus! {

/// `stop` is where the first line of `text` ends: at the first line feed, or
/// at the end of the text where there is none.
pub open spec fn is_line_end(text: Seq<char>, stop: int) -> bool {
    &&& 0 <= stop <= text.len()
    &&& forall|i: int| 0 <= i < stop ==> text[i] != '\n'
    &&& stop < text.len() ==> text[stop] == '\n'
}

/// The line without the carriage return that may stand at its end.
pub open spec fn without_return(line: Seq<char>) -> Seq<char> {
    if line.len() > 0 && line.last() == '\r' {
        line.drop_last()
    } else {
        line
    }
}

/// The lines of a text. A line ends at a line feed, or at a carriage return
/// with a line feed behind it; neither belongs to the line. What follows the
/// last line feed is a line too, as it is, unless nothing follows.
pub open spec fn lines_of(text: Seq<char>) -> Seq<Seq<char>>
    decreases text.len(),
{
    if text.len() == 0 {
        Seq::empty()
    } else {
        let stop = choose|stop: int| is_line_end(text, stop);
        if 0 <= stop < text.len() {
            seq![without_return(text.take(stop))] + lines_of(text.skip(stop + 1))
        } else {
            seq![text]
        }
    }
}

/// A text has one place where its first line ends.
pub proof fn lemma_line_end_unique(text: Seq<char>, a: int, b: int)
    requires
        is_line_end(text, a),
        is_line_end(text, b),
    ensures
        a == b,
{
    if a < b {
        assert(text[a] != '\n');
    } else if b < a {
        assert(text[b] != '\n');
    }
}

/// The lines of a text whose first line ends at `stop`.
proof fn lemma_lines_step(text: Seq<char>, stop: int)
    requires
        text.len() > 0,
        is_line_end(text, stop),
    ensures
        lines_of(text) == if stop < text.len() {
            seq![without_return(text.take(stop))] + lines_of(text.skip(stop + 1))
        } else {
            seq![text]
        },
{
    let chosen = choose|s: int| is_line_end(text, s);
    lemma_line_end_unique(text, stop, chosen);
}

/// Splits the text of a label file into its lines.
pub fn parse_labels(text: &str) -> (labels: Vec<String>)
    ensures
        labels.deep_view() == lines_of(text@),
{
    let total: usize = text.unicode_len();
    let ghost all = text@;
    let mut labels: Vec<String> = Vec::new();
    let mut chars = text.chars();
    let mut start: usize = 0;
    let mut index: usize = 0;
    let mut after_return: bool = false;
    proof {
        assert(all.skip(0) =~= all);
        assert(labels.deep_view() =~= Seq::<Seq<char>>::empty());
    }
    while index < total
        invariant
            all == text@,
            total == all.len(),
            0 <= start <= index <= total,
            chars.remaining() == all.skip(index as int),
            forall|i: int| start <= i < index ==> all[i] != '\n',
            after_return == (index > start && all[index - 1] == '\r'),
            lines_of(all) == labels.deep_view() + lines_of(all.skip(start as int)),
        decreases total - index,
    {
        let next = chars.next();
        assert(all.skip(index as int)[0] == all[index as int]);
        assert(all.skip(index as int).drop_first() =~= all.skip(index + 1));
        // The text has `total` characters, so the iterator still has one.
        let c: char = match next {
            Some(c) => c,
            None => '\n',
        };
        assert(c == all[index as int]);
        if c == '\n' {
            let end: usize = if after_return {
                (index - 1) as usize
            } else {
                index
            };
            let line = text.substring_char(start, end).to_owned();
            proof {
                let rest = all.skip(start as int);
                assert(is_line_end(rest, index - start));
                lemma_lines_step(rest, index - start);
                assert(rest.take(index - start) =~= all.subrange(start as int, index as int));
                assert(rest.skip(index - start + 1) =~= all.skip(index + 1));
                assert(line@ =~= without_return(all.subrange(start as int, index as int)));
            }
            let ghost before = labels.deep_view();
            labels.push(line);
            proof {
                assert(labels.deep_view() =~= before + seq![line@]);
            }
            start = index + 1;
            after_return = false;
        } else {
            after_return = c == '\r';
        }
        index = index + 1;
    }
    if start < total {
        let line = text.substring_char(start, total).to_owned();
        proof {
            let rest = all.skip(start as int);
            assert(is_line_end(rest, rest.len() as int));
            lemma_lines_step(rest, rest.len() as int);
            assert(line@ =~= rest);
        }
        let ghost before = labels.deep_view();
        labels.push(line);
        proof {
            assert(labels.deep_view() =~= before + seq![line@]);
        }
    } else {
        proof {
            assert(all.skip(start as int).len() == 0);
        }
    }
    labels
}

} // verus!
