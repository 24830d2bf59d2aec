//! Splitting text.
use vstd::prelude::*;

verus! {

/// The pieces of `s` between occurrences of `sep`, in order; there is always
/// one piece more than there are separators, and pieces may be empty.
pub open spec fn split_pieces(s: Seq<char>, sep: char) -> Seq<Seq<char>>
    decreases s.len(),
{
    if s.len() == 0 {
        seq![Seq::empty()]
    } else {
        let pieces = split_pieces(s.drop_last(), sep);
        if s.last() == sep {
            pieces.push(Seq::empty())
        } else {
            pieces.update(pieces.len() - 1, pieces.last().push(s.last()))
        }
    }
}

/// The text of each slice.
pub open spec fn texts(list: Seq<&str>) -> Seq<Seq<char>> {
    list.map_values(|p: &str| p@)
}

proof fn lemma_split_pieces_nonempty(s: Seq<char>, sep: char)
    ensures
        split_pieces(s, sep).len() >= 1,
    decreases s.len(),
{
    if s.len() > 0 {
        lemma_split_pieces_nonempty(s.drop_last(), sep);
    }
}

/// Splits `s` at every comma.
pub fn csv_string_to_list<'a>(s: &'a str) -> (list: Vec<&'a str>)
    ensures
        texts(list@) == split_pieces(s@, ','),
{
    let len = s.unicode_len();
    let mut list: Vec<&'a str> = Vec::new();
    let mut start: usize = 0;
    let mut i: usize = 0;
    assert(s@.take(0) =~= Seq::<char>::empty());
    assert(texts(list@).push(s@.subrange(0, 0)) =~= split_pieces(s@.take(0), ','));
    while i < len
        invariant
            start <= i <= len,
            len == s@.len(),
            texts(list@).push(s@.subrange(start as int, i as int)) == split_pieces(
                s@.take(i as int),
                ',',
            ),
        decreases len - i,
    {
        let c = s.get_char(i);
        let ghost before = texts(list@);
        proof {
            assert(s@.take(i + 1).drop_last() =~= s@.take(i as int));
            lemma_split_pieces_nonempty(s@.take(i as int), ',');
            assert(s@.take(i + 1).last() == c);
        }
        let ghost pieces = split_pieces(s@.take(i as int), ',');
        if c == ',' {
            let piece = s.substring_char(start, i);
            list.push(piece);
            assert(texts(list@) =~= before.push(s@.subrange(start as int, i as int)));
            start = i + 1;
            assert(split_pieces(s@.take(i + 1), ',') == pieces.push(Seq::empty()));
            assert(s@.subrange(start as int, i + 1) =~= Seq::<char>::empty());
        } else {
            assert(s@.subrange(start as int, i + 1) =~= s@.subrange(start as int, i as int).push(c));
            assert(split_pieces(s@.take(i + 1), ',') == pieces.update(
                pieces.len() - 1,
                pieces.last().push(c),
            ));
            assert(before.push(s@.subrange(start as int, i + 1)) =~= pieces.update(
                pieces.len() - 1,
                pieces.last().push(c),
            ));
        }
        i = i + 1;
        assert(texts(list@).push(s@.subrange(start as int, i as int)) =~= split_pieces(
            s@.take(i as int),
            ',',
        ));
    }
    assert(s@.take(len as int) =~= s@);
    list.push(s.substring_char(start, len));
    assert(texts(list@) =~= split_pieces(s@, ','));
    list
}

} // verus!
