//! Lexicographic order on integer sequences, and vectors of sequences kept
//! strictly ascending in that order (ordered sets of sequences).
use vstd::prelude::*;

verus! {

/// Lexicographic order: `a` comes first when it is a proper prefix of `b`, or
/// when it is smaller at the first position where the two differ.
pub open spec fn lex_less(a: Seq<u64>, b: Seq<u64>) -> bool
    decreases a.len(),
{
    if a.len() == 0 {
        b.len() > 0
    } else if b.len() == 0 {
        false
    } else {
        a[0] < b[0] || (a[0] == b[0] && lex_less(a.drop_first(), b.drop_first()))
    }
}

/// The contents of a vector of vectors, as sequences.
pub open spec fn views(v: Seq<Vec<u64>>) -> Seq<Seq<u64>> {
    v.map_values(|x: Vec<u64>| x@)
}

/// Strictly ascending in lexicographic order, hence without repeats.
pub open spec fn lex_sorted(s: Seq<Seq<u64>>) -> bool {
    forall|i: int, j: int| 0 <= i < j < s.len() ==> lex_less(#[trigger] s[i], #[trigger] s[j])
}

pub proof fn lemma_lex_irreflexive(a: Seq<u64>)
    ensures
        !lex_less(a, a),
    decreases a.len(),
{
    if a.len() > 0 {
        lemma_lex_irreflexive(a.drop_first());
    }
}

pub proof fn lemma_lex_transitive(a: Seq<u64>, b: Seq<u64>, c: Seq<u64>)
    requires
        lex_less(a, b),
        lex_less(b, c),
    ensures
        lex_less(a, c),
    decreases a.len(),
{
    if a.len() > 0 && a[0] == b[0] && b[0] == c[0] {
        lemma_lex_transitive(a.drop_first(), b.drop_first(), c.drop_first());
    }
}

pub proof fn lemma_lex_total(a: Seq<u64>, b: Seq<u64>)
    requires
        a != b,
    ensures
        lex_less(a, b) || lex_less(b, a),
    decreases a.len(),
{
    if a.len() == 0 && b.len() == 0 {
        assert(a =~= b);
    } else if a.len() > 0 && b.len() > 0 && a[0] == b[0] {
        if a.drop_first() == b.drop_first() {
            assert(a =~= b) by {
                assert(a.drop_first().len() == b.drop_first().len());
                assert forall|i: int| 0 <= i < a.len() implies a[i] == b[i] by {
                    if i > 0 {
                        assert(a[i] == a.drop_first()[i - 1]);
                        assert(b[i] == b.drop_first()[i - 1]);
                    }
                }
            }
        }
        lemma_lex_total(a.drop_first(), b.drop_first());
    }
}

/// A sequence that is strictly ascending holds an element at most once.
pub proof fn lemma_lex_sorted_no_duplicates(s: Seq<Seq<u64>>)
    requires
        lex_sorted(s),
    ensures
        s.no_duplicates(),
{
    assert forall|i: int, j: int| 0 <= i < s.len() && 0 <= j < s.len() && i != j implies s[i]
        != s[j] by {
        if i < j {
            assert(lex_less(s[i], s[j]));
        } else {
            assert(lex_less(s[j], s[i]));
        }
        lemma_lex_irreflexive(s[i]);
    }
}

/// Compares two vectors lexicographically.
pub fn lex_less_exec(a: &Vec<u64>, b: &Vec<u64>) -> (r: bool)
    ensures
        r == lex_less(a@, b@),
{
    let mut i: usize = 0;
    assert(a@.skip(0) =~= a@);
    assert(b@.skip(0) =~= b@);
    while i < a.len() && i < b.len() && a[i] == b[i]
        invariant
            i <= a@.len(),
            i <= b@.len(),
            lex_less(a@, b@) == lex_less(a@.skip(i as int), b@.skip(i as int)),
        decreases a@.len() - i,
    {
        proof {
            assert(a@.skip(i as int).drop_first() =~= a@.skip(i + 1));
            assert(b@.skip(i as int).drop_first() =~= b@.skip(i + 1));
        }
        i = i + 1;
    }
    if i < a.len() && i < b.len() {
        a[i] < b[i]
    } else {
        i == a.len() && i < b.len()
    }
}

/// The first position whose entry does not come before `item`.
fn search_position(set: &Vec<Vec<u64>>, item: &Vec<u64>) -> (pos: usize)
    requires
        lex_sorted(views(set@)),
    ensures
        pos <= set@.len(),
        forall|j: int| 0 <= j < pos ==> lex_less(#[trigger] views(set@)[j], item@),
        pos < set@.len() ==> !lex_less(views(set@)[pos as int], item@),
{
    let mut pos: usize = 0;
    while pos < set.len()
        invariant_except_break
            pos <= set@.len(),
            forall|j: int| 0 <= j < pos ==> lex_less(#[trigger] views(set@)[j], item@),
        ensures
            pos <= set@.len(),
            forall|j: int| 0 <= j < pos ==> lex_less(#[trigger] views(set@)[j], item@),
            pos < set@.len() ==> !lex_less(views(set@)[pos as int], item@),
        decreases set@.len() - pos,
    {
        if !lex_less_exec(&set[pos], item) {
            break;
        }
        pos = pos + 1;
    }
    pos
}

/// Adds `item` to an ordered set of sequences, unless it is there already.
pub fn insert_sorted(set: &mut Vec<Vec<u64>>, item: Vec<u64>)
    requires
        lex_sorted(views(old(set)@)),
    ensures
        lex_sorted(views(final(set)@)),
        forall|p: Seq<u64>| #[trigger]
            views(final(set)@).contains(p) <==> views(old(set)@).contains(p) || p == item@,
{
    let pos = search_position(set, &item);
    let ghost before = views(set@);
    if pos < set.len() && !lex_less_exec(&item, &set[pos]) {
        proof {
            if before[pos as int] != item@ {
                lemma_lex_total(before[pos as int], item@);
            }
        }
        return;
    }
    let ghost x = item@;
    set.insert(pos, item);
    proof {
        let after = views(set@);
        assert(after =~= before.insert(pos as int, x));
        assert forall|i: int, j: int| 0 <= i < j < after.len() implies lex_less(
            #[trigger] after[i],
            #[trigger] after[j],
        ) by {
            if j == pos {
                assert(lex_less(before[i], x));
            } else if i == pos {
                assert(lex_less(x, before[pos as int])) by {
                    if x != before[pos as int] {
                        lemma_lex_total(x, before[pos as int]);
                    }
                }
                if j - 1 > pos {
                    lemma_lex_transitive(x, before[pos as int], before[j - 1]);
                }
            } else if i < pos && j > pos {
                assert(lex_less(before[i], before[j - 1]));
            }
        }
        assert forall|p: Seq<u64>| #[trigger]
            after.contains(p) <==> before.contains(p) || p == x by {
            if before.contains(p) {
                let k = choose|k: int| 0 <= k < before.len() && before[k] == p;
                if k < pos {
                    assert(after[k] == p);
                } else {
                    assert(after[k + 1] == p);
                }
            }
            if p == x {
                assert(after[pos as int] == x);
            }
        }
    }
}

} // verus!
