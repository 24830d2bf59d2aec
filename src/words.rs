//! Properties of words.
use vstd::prelude::*;
use vstd::relations::{sorted_by, total_ordering};

verus! {

/// Characters ordered by code point, as `char`'s `Ord` orders them.
pub open spec fn char_leq() -> spec_fn(char, char) -> bool {
    |a: char, b: char| a <= b
}

/// Relies on `slice::sort`: the same characters, ascending.
#[verifier::external_body]
fn sort_chars(chars: &mut Vec<char>)
    ensures
        final(chars)@.to_multiset() == old(chars)@.to_multiset(),
        sorted_by(final(chars)@, char_leq()),
{
    chars.sort();
}

/// The characters of `s`, in ascending order.
fn sorted_chars(s: &str) -> (chars: Vec<char>)
    ensures
        chars@.to_multiset() == s@.to_multiset(),
        sorted_by(chars@, char_leq()),
{
    let len = s.unicode_len();
    let mut chars: Vec<char> = Vec::new();
    let mut i: usize = 0;
    while i < len
        invariant
            i <= len,
            len == s@.len(),
            chars@ == s@.take(i as int),
        decreases len - i,
    {
        let c = s.get_char(i);
        chars.push(c);
        i = i + 1;
        assert(chars@ =~= s@.take(i as int));
    }
    assert(s@.take(len as int) =~= s@);
    sort_chars(&mut chars);
    chars
}

fn same_chars(a: &Vec<char>, b: &Vec<char>) -> (r: bool)
    ensures
        r == (a@ == b@),
{
    if a.len() != b.len() {
        return false;
    }
    let mut i: usize = 0;
    while i < a.len()
        invariant
            i <= a@.len(),
            a@.len() == b@.len(),
            forall|j: int| 0 <= j < i ==> a@[j] == b@[j],
        decreases a@.len() - i,
    {
        if a[i] != b[i] {
            return false;
        }
        i = i + 1;
    }
    assert(a@ =~= b@);
    true
}

pub trait WordProperties {
    /// The characters of the word.
    spec fn letters(&self) -> Seq<char>;

    /// Whether the two words hold the same characters, each as often.
    fn is_anagram(&self, other_word: &str) -> (r: bool)
        ensures
            r == (self.letters().to_multiset() == other_word@.to_multiset()),
    ;
}

impl WordProperties for str {
    open spec fn letters(&self) -> Seq<char> {
        self@
    }

    fn is_anagram(&self, other_word: &str) -> (r: bool) {
        let mine = sorted_chars(self);
        let theirs = sorted_chars(other_word);
        proof {
            assert(total_ordering(char_leq()));
            if self@.to_multiset() == other_word@.to_multiset() {
                vstd::seq_lib::lemma_sorted_unique(mine@, theirs@, char_leq());
            }
        }
        same_chars(&mine, &theirs)
    }
}

} // verus!
