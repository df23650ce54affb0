//! Text seen as a sequence of bytes: cutting it at a separator byte and
//! putting the pieces back together.

use vstd::prelude::*;

verus! {

/// The line separator.
pub const NEWLINE: u8 = 0x0a;

/// The separator between the segments of a version.
pub const DOT: u8 = 0x2e;

/// The pieces of `s` between occurrences of `sep`, in order. Every occurrence
/// of `sep` ends one piece and starts the next, so a text with `n` separators
/// has `n + 1` pieces, some of them possibly empty.
pub open spec fn split(s: Seq<u8>, sep: u8) -> Seq<Seq<u8>>
    decreases s.len(),
{
    if s.len() == 0 {
        seq![Seq::<u8>::empty()]
    } else {
        let before = split(s.drop_last(), sep);
        if s.last() == sep {
            before.push(Seq::<u8>::empty())
        } else {
            before.update(before.len() - 1, before.last().push(s.last()))
        }
    }
}

/// The pieces written one after another with `sep` between neighbours.
pub open spec fn join(pieces: Seq<Seq<u8>>, sep: u8) -> Seq<u8>
    decreases pieces.len(),
{
    if pieces.len() == 0 {
        Seq::<u8>::empty()
    } else if pieces.len() == 1 {
        pieces[0]
    } else {
        join(pieces.drop_last(), sep) + seq![sep] + pieces.last()
    }
}

/// Whether `sep` occurs nowhere in `s`.
pub open spec fn free_of(s: Seq<u8>, sep: u8) -> bool {
    forall|i: int| 0 <= i < s.len() ==> #[trigger] s[i] != sep
}

/// The offset at which piece `i` starts inside `join(pieces, sep)`.
pub open spec fn piece_start(pieces: Seq<Seq<u8>>, i: int) -> int
    decreases i,
{
    if i <= 0 {
        0
    } else {
        piece_start(pieces, i - 1) + pieces[i - 1].len() + 1
    }
}

/// The offset just past piece `i` inside `join(pieces, sep)`.
pub open spec fn piece_end(pieces: Seq<Seq<u8>>, i: int) -> int {
    piece_start(pieces, i) + pieces[i].len()
}

/// A split always yields at least one piece.
pub proof fn lemma_split_nonempty(s: Seq<u8>, sep: u8)
    ensures
        split(s, sep).len() >= 1,
    decreases s.len(),
{
    if s.len() > 0 {
        lemma_split_nonempty(s.drop_last(), sep);
    }
}

/// No piece of a split holds the separator.
pub proof fn lemma_split_pieces_free(s: Seq<u8>, sep: u8)
    ensures
        forall|i: int| 0 <= i < split(s, sep).len() ==> free_of(#[trigger] split(s, sep)[i], sep),
    decreases s.len(),
{
    if s.len() > 0 {
        lemma_split_nonempty(s.drop_last(), sep);
        lemma_split_pieces_free(s.drop_last(), sep);
    }
}

/// Joining the pieces of a split gives the text back.
pub proof fn lemma_join_split(s: Seq<u8>, sep: u8)
    ensures
        join(split(s, sep), sep) == s,
    decreases s.len(),
{
    if s.len() == 0 {
        assert(join(split(s, sep), sep) =~= s);
    } else {
        let before = split(s.drop_last(), sep);
        lemma_split_nonempty(s.drop_last(), sep);
        lemma_join_split(s.drop_last(), sep);
        if s.last() == sep {
            let all = before.push(Seq::<u8>::empty());
            assert(all.drop_last() =~= before);
            assert(join(all, sep) =~= s);
        } else {
            let last = before.last().push(s.last());
            let all = before.update(before.len() - 1, last);
            if before.len() == 1 {
                assert(join(all, sep) =~= s);
            } else {
                assert(all.drop_last() =~= before.drop_last());
                let head = join(before.drop_last(), sep) + seq![sep];
                assert(join(before, sep) == head + before.last());
                assert(join(all, sep) == head + last);
                assert(head + last =~= (head + before.last()).push(s.last()));
                assert(s =~= s.drop_last().push(s.last()));
            }
        }
    }
}

/// A text that holds no separator is its own single piece.
pub proof fn lemma_split_free(s: Seq<u8>, sep: u8)
    requires
        free_of(s, sep),
    ensures
        split(s, sep) == seq![s],
    decreases s.len(),
{
    if s.len() == 0 {
        assert(s =~= Seq::<u8>::empty());
    } else {
        lemma_split_free(s.drop_last(), sep);
        assert(s.drop_last().push(s.last()) =~= s);
        assert(split(s, sep) =~= seq![s]);
    }
}

/// A separator followed by a separator-free text adds that text as one more
/// piece.
pub proof fn lemma_split_append_piece(s: Seq<u8>, piece: Seq<u8>, sep: u8)
    requires
        free_of(piece, sep),
    ensures
        split(s + seq![sep] + piece, sep) == split(s, sep).push(piece),
    decreases piece.len(),
{
    let whole = s + seq![sep] + piece;
    if piece.len() == 0 {
        assert(whole.drop_last() =~= s);
        assert(piece =~= Seq::<u8>::empty());
    } else {
        let shorter = piece.drop_last();
        lemma_split_append_piece(s, shorter, sep);
        assert(whole.drop_last() =~= s + seq![sep] + shorter);
        assert(whole.last() == piece.last());
        assert(shorter.push(piece.last()) =~= piece);
        assert(split(whole, sep) =~= split(s, sep).push(piece));
    }
}

/// Splitting a join of separator-free pieces gives the pieces back.
pub proof fn lemma_split_join(pieces: Seq<Seq<u8>>, sep: u8)
    requires
        pieces.len() >= 1,
        forall|i: int| 0 <= i < pieces.len() ==> free_of(#[trigger] pieces[i], sep),
    ensures
        split(join(pieces, sep), sep) == pieces,
    decreases pieces.len(),
{
    if pieces.len() == 1 {
        lemma_split_free(pieces[0], sep);
        assert(seq![pieces[0]] =~= pieces);
    } else {
        lemma_split_join(pieces.drop_last(), sep);
        lemma_split_append_piece(join(pieces.drop_last(), sep), pieces.last(), sep);
        assert(pieces.drop_last().push(pieces.last()) =~= pieces);
    }
}

/// Where a piece starts depends only on the pieces before it.
pub proof fn lemma_piece_start_prefix(p: Seq<Seq<u8>>, q: Seq<Seq<u8>>, i: int)
    requires
        0 <= i <= p.len(),
        i <= q.len(),
        forall|j: int| 0 <= j < i ==> p[j] == q[j],
    ensures
        piece_start(p, i) == piece_start(q, i),
    decreases i,
{
    if i > 0 {
        lemma_piece_start_prefix(p, q, i - 1);
    }
}

/// Each earlier piece takes up at least its separator.
pub proof fn lemma_piece_start_lower(pieces: Seq<Seq<u8>>, i: int)
    requires
        0 <= i,
    ensures
        piece_start(pieces, i) >= i,
    decreases i,
{
    if i > 0 {
        lemma_piece_start_lower(pieces, i - 1);
    }
}

/// Piece `i` lies in the join at `piece_start .. piece_end`, with a separator
/// on each side that has a neighbour.
pub proof fn lemma_piece_in_join(pieces: Seq<Seq<u8>>, sep: u8, i: int)
    requires
        0 <= i < pieces.len(),
    ensures
        0 <= piece_start(pieces, i) <= piece_end(pieces, i) <= join(pieces, sep).len(),
        join(pieces, sep).subrange(piece_start(pieces, i), piece_end(pieces, i)) == pieces[i],
        i > 0 ==> join(pieces, sep)[piece_start(pieces, i) - 1] == sep,
        i < pieces.len() - 1 ==> piece_end(pieces, i) < join(pieces, sep).len() && join(
            pieces,
            sep,
        )[piece_end(pieces, i)] == sep,
        i == pieces.len() - 1 ==> piece_end(pieces, i) == join(pieces, sep).len(),
    decreases pieces.len(),
{
    let whole = join(pieces, sep);
    if pieces.len() == 1 {
        assert(whole.subrange(0, whole.len() as int) =~= whole);
    } else {
        let front = pieces.drop_last();
        let joined = join(front, sep);
        assert(whole == joined + seq![sep] + pieces.last());
        if i < front.len() {
            lemma_piece_in_join(front, sep, i);
            lemma_piece_start_prefix(pieces, front, i);
            assert(front[i] == pieces[i]);
            assert(whole.subrange(piece_start(pieces, i), piece_end(pieces, i)) =~= joined.subrange(
                piece_start(front, i),
                piece_end(front, i),
            ));
            if i > 0 {
                lemma_piece_start_lower(front, i);
                assert(whole[piece_start(pieces, i) - 1] == joined[piece_start(front, i) - 1]);
            }
            if i < front.len() - 1 {
                assert(whole[piece_end(pieces, i)] == joined[piece_end(front, i)]);
            } else {
                assert(whole[joined.len() as int] == sep);
            }
        } else {
            lemma_piece_in_join(front, sep, i - 1);
            lemma_piece_start_prefix(pieces, front, i - 1);
            assert(front[i - 1] == pieces[i - 1]);
            assert(piece_start(pieces, i) == joined.len() + 1);
            assert(whole[joined.len() as int] == sep);
            assert(whole.subrange(piece_start(pieces, i), piece_end(pieces, i)) =~= pieces[i]);
        }
    }
}

/// Replacing piece `i` changes the join only between that piece's bounds.
pub proof fn lemma_join_update(pieces: Seq<Seq<u8>>, sep: u8, i: int, piece: Seq<u8>)
    requires
        0 <= i < pieces.len(),
    ensures
        join(pieces.update(i, piece), sep) == join(pieces, sep).subrange(
            0,
            piece_start(pieces, i),
        ) + piece + join(pieces, sep).subrange(
            piece_end(pieces, i),
            join(pieces, sep).len() as int,
        ),
    decreases pieces.len(),
{
    let whole = join(pieces, sep);
    let changed = pieces.update(i, piece);
    lemma_piece_in_join(pieces, sep, i);
    if pieces.len() == 1 {
        assert(join(changed, sep) =~= whole.subrange(0, 0) + piece + whole.subrange(
            whole.len() as int,
            whole.len() as int,
        ));
    } else {
        let front = pieces.drop_last();
        let joined = join(front, sep);
        assert(whole == joined + seq![sep] + pieces.last());
        if i < front.len() {
            lemma_join_update(front, sep, i, piece);
            lemma_piece_in_join(front, sep, i);
            lemma_piece_start_prefix(pieces, front, i);
            assert(front[i] == pieces[i]);
            assert(changed.drop_last() =~= front.update(i, piece));
            assert(changed.last() == pieces.last());
            assert(join(changed, sep) =~= whole.subrange(0, piece_start(pieces, i)) + piece
                + whole.subrange(piece_end(pieces, i), whole.len() as int));
        } else {
            assert(changed.drop_last() =~= front);
            assert(changed.last() == piece);
            assert(join(changed, sep) =~= whole.subrange(0, piece_start(pieces, i)) + piece
                + whole.subrange(piece_end(pieces, i), whole.len() as int));
        }
    }
}

/// Extending a text by one byte leaves the bounds of all but its last piece
/// where they were.
proof fn lemma_split_extend(s: Seq<u8>, sep: u8, j: int)
    requires
        s.len() > 0,
        0 <= j < split(s.drop_last(), sep).len(),
    ensures
        piece_start(split(s, sep), j) == piece_start(split(s.drop_last(), sep), j),
        j < split(s.drop_last(), sep).len() - 1 || s.last() == sep ==> split(s, sep)[j] == split(
            s.drop_last(),
            sep,
        )[j],
{
    lemma_piece_start_prefix(split(s, sep), split(s.drop_last(), sep), j);
}

/// The bounds, as byte offsets into `bytes`, of each piece of
/// `split(bytes, sep)`.
pub fn split_spans(bytes: &[u8], sep: u8) -> (spans: Vec<(usize, usize)>)
    ensures
        spans@.len() == split(bytes@, sep).len(),
        forall|j: int|
            0 <= j < spans@.len() ==> (#[trigger] spans@[j]).0 == piece_start(
                split(bytes@, sep),
                j,
            ) && spans@[j].1 == piece_end(split(bytes@, sep), j),
{
    let mut spans: Vec<(usize, usize)> = Vec::new();
    let mut start: usize = 0;
    let mut i: usize = 0;
    assert(bytes@.subrange(0, 0) =~= Seq::<u8>::empty());
    while i < bytes.len()
        invariant
            start <= i <= bytes.len(),
            spans@.len() + 1 == split(bytes@.subrange(0, i as int), sep).len(),
            forall|j: int|
                0 <= j < spans@.len() ==> (#[trigger] spans@[j]).0 == piece_start(
                    split(bytes@.subrange(0, i as int), sep),
                    j,
                ) && spans@[j].1 == piece_end(split(bytes@.subrange(0, i as int), sep), j),
            start == piece_start(split(bytes@.subrange(0, i as int), sep), spans@.len() as int),
            split(bytes@.subrange(0, i as int), sep).last().len() == i - start,
        decreases bytes.len() - i,
    {
        let ghost grown = bytes@.subrange(0, i + 1);
        let ghost before = split(bytes@.subrange(0, i as int), sep);
        proof {
            assert(grown.drop_last() =~= bytes@.subrange(0, i as int));
            assert(grown.last() == bytes@[i as int]);
            assert forall|j: int| 0 <= j < before.len() implies piece_start(split(grown, sep), j)
                == piece_start(before, j) && (j < before.len() - 1 || grown.last() == sep ==> split(
                grown,
                sep,
            )[j] == before[j]) by {
                lemma_split_extend(grown, sep, j);
            }
        }
        if bytes[i] == sep {
            spans.push((start, i));
            start = i + 1;
        }
        i += 1;
    }
    assert(bytes@.subrange(0, i as int) =~= bytes@);
    spans.push((start, i));
    spans
}

} // verus!
