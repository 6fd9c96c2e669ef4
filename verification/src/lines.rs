//! Lists of names as they stand in a text: one to a line, the lines parted
//! by a carriage return and a line feed.

use vstd::prelude::*;

verus! {

/// A carriage return at place `i` of `text` and a line feed behind it.
pub open spec fn break_at(text: Seq<u8>, i: int) -> bool {
    0 <= i && i + 1 < text.len() && text[i] == 13 && text[i + 1] == 10
}

/// The first line break of `text` is at place `i`.
pub open spec fn first_break_at(text: Seq<u8>, i: int) -> bool {
    break_at(text, i) && forall|k: int| 0 <= k < i ==> !break_at(text, k)
}

/// The lines of `text`: what stands before its first line break, and the
/// lines of what stands behind that break; all of it, where there is none.
/// A text of `k` line breaks has `k + 1` lines, some of them empty perhaps.
pub open spec fn lines(text: Seq<u8>) -> Seq<Seq<u8>>
    decreases text.len(),
{
    if exists|i: int| first_break_at(text, i) {
        let i = choose|i: int| first_break_at(text, i);
        seq![text.subrange(0, i)] + lines(text.subrange(i + 2, text.len() as int))
    } else {
        seq![text]
    }
}

/// The texts that the byte vectors of `pieces` hold.
pub open spec fn texts(pieces: Seq<Vec<u8>>) -> Seq<Seq<u8>> {
    Seq::new(pieces.len(), |k: int| pieces[k]@)
}

/// With its first line break at `i`, a text is its first line and the lines behind the break.
proof fn lemma_lines_at_break(text: Seq<u8>, i: int)
    requires
        first_break_at(text, i),
    ensures
        lines(text) == seq![text.subrange(0, i)] + lines(text.subrange(i + 2, text.len() as int)),
{
    let j = choose|j: int| first_break_at(text, j);
    assert(j == i) by {
        if j < i {
            assert(!break_at(text, j));
        }
        if i < j {
            assert(!break_at(text, i));
        }
    }
}

/// A text without a line break is one line.
proof fn lemma_lines_without_break(text: Seq<u8>)
    requires
        forall|k: int| 0 <= k < text.len() ==> !break_at(text, k),
    ensures
        lines(text) == seq![text],
{
    if exists|i: int| first_break_at(text, i) {
        let i = choose|i: int| first_break_at(text, i);
        assert(break_at(text, i));
    }
}

/// Splits `text` into its lines.
pub fn split_lines(text: &Vec<u8>) -> (pieces: Vec<Vec<u8>>)
    ensures
        texts(pieces@) == lines(text@),
{
    let mut pieces: Vec<Vec<u8>> = Vec::new();
    let mut current: Vec<u8> = Vec::new();
    let mut i: usize = 0;
    let ghost mut start: int = 0;
    proof {
        assert(text@.subrange(0, text.len() as int) =~= text@);
        assert(texts(pieces@) + lines(text@.subrange(0, text.len() as int)) =~= lines(text@));
    }
    while i < text.len()
        invariant
            0 <= start <= i <= text.len(),
            current@ == text@.subrange(start, i as int),
            forall|k: int| start <= k < i ==> !break_at(text@, k),
            texts(pieces@) + lines(text@.subrange(start, text.len() as int)) == lines(text@),
        decreases text.len() - i,
    {
        if text[i] == 13 && i + 1 < text.len() && text[i + 1] == 10 {
            proof {
                let rest = text@.subrange(start, text.len() as int);
                assert(first_break_at(rest, i - start)) by {
                    assert(break_at(text@, i as int));
                    assert forall|k: int| 0 <= k < i - start implies !break_at(rest, k) by {
                        assert(!break_at(text@, start + k));
                    }
                }
                lemma_lines_at_break(rest, i - start);
                assert(rest.subrange(0, i - start) =~= current@);
                assert(rest.subrange(i - start + 2, rest.len() as int) =~= text@.subrange(
                    i + 2,
                    text.len() as int,
                ));
                assert(texts(pieces@.push(current)) =~= texts(pieces@) + seq![current@]);
            }
            pieces.push(current);
            current = Vec::new();
            i += 2;
            proof {
                start = i as int;
                assert(current@ =~= text@.subrange(start, i as int));
            }
        } else {
            current.push(text[i]);
            i += 1;
            assert(current@ =~= text@.subrange(start, i as int));
        }
    }
    proof {
        let rest = text@.subrange(start, text.len() as int);
        assert forall|k: int| 0 <= k < rest.len() implies !break_at(rest, k) by {
            if break_at(rest, k) {
                assert(break_at(text@, start + k));
            }
        }
        lemma_lines_without_break(rest);
        assert(rest =~= current@);
        assert(texts(pieces@.push(current)) =~= texts(pieces@) + seq![current@]);
    }
    pieces.push(current);
    pieces
}

} // verus!
