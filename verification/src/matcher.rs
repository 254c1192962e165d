//! The words of a list that are nearest to a given word.

use crate::distance::{char_distance, chars_of, distance, least};
use crate::ranking::{
    is_nearest, keys, lemma_nearest_ordered, lemma_nearest_unique, nearest_places, places,
};
use vstd::prelude::*;

verus! {

/// A word of the list together with its distance from the word that was
/// looked for.
#[derive(Debug, Clone, PartialEq, Eq)]
pub struct WordDistance {
    pub word: String,
    pub distance: usize,
}

impl View for WordDistance {
    type V = (Seq<char>, nat);

    open spec fn view(&self) -> (Seq<char>, nat) {
        (self.word@, self.distance as nat)
    }
}

/// The words of a list, each as its sequence of characters.
pub open spec fn texts(words: Seq<&str>) -> Seq<Seq<char>> {
    words.map_values(|w: &str| w@)
}

/// The distance from `target` to each word of a list.
pub open spec fn distances(target: Seq<char>, words: Seq<Seq<char>>) -> Seq<nat> {
    words.map_values(|w: Seq<char>| distance(target, w))
}

/// Whether `found` answers the question for the `k` words of `words` that
/// are nearest to `target`, taking them from the places `chosen`: these are
/// the `k` nearest places of the list, nearest first and the earlier place
/// first among equally near ones, and `found` holds the word of each with
/// its distance.
pub open spec fn is_answer(
    target: Seq<char>,
    words: Seq<Seq<char>>,
    k: nat,
    chosen: Seq<int>,
    found: Seq<WordDistance>,
) -> bool {
    &&& is_nearest(distances(target, words), k, chosen)
    &&& found.len() == chosen.len()
    &&& forall|r: int|
        0 <= r < found.len() ==> (#[trigger] found[r])@ == (
            words[chosen[r]],
            distance(target, words[chosen[r]]),
        )
}

/// A question has one answer: two answers hold the same words with the
/// same distances, taken from the same places.
pub proof fn lemma_answer_unique(
    target: Seq<char>,
    words: Seq<Seq<char>>,
    k: nat,
    chosen1: Seq<int>,
    found1: Seq<WordDistance>,
    chosen2: Seq<int>,
    found2: Seq<WordDistance>,
)
    requires
        is_answer(target, words, k, chosen1, found1),
        is_answer(target, words, k, chosen2, found2),
    ensures
        chosen1 == chosen2,
        found1.len() == found2.len(),
        forall|r: int| 0 <= r < found1.len() ==> found1[r]@ == found2[r]@,
{
    lemma_nearest_unique(distances(target, words), k, chosen1, chosen2);
}

/// In an answer the distances never fall, and of two words at the same
/// distance the one that stands earlier in the list comes first.
pub proof fn lemma_answer_ordered(
    target: Seq<char>,
    words: Seq<Seq<char>>,
    k: nat,
    chosen: Seq<int>,
    found: Seq<WordDistance>,
    r: int,
    s: int,
)
    requires
        is_answer(target, words, k, chosen, found),
        0 <= r < s < found.len(),
    ensures
        found[r].distance <= found[s].distance,
        found[r].distance == found[s].distance ==> chosen[r] < chosen[s],
{
    lemma_nearest_ordered(distances(target, words), k, chosen, r, s);
    assert(found[r]@.1 == distances(target, words)[chosen[r]]);
    assert(found[s]@.1 == distances(target, words)[chosen[s]]);
}

/// An answer holds `k` words, or the whole list where that is shorter.
pub proof fn lemma_answer_len(
    target: Seq<char>,
    words: Seq<Seq<char>>,
    k: nat,
    chosen: Seq<int>,
    found: Seq<WordDistance>,
)
    requires
        is_answer(target, words, k, chosen, found),
    ensures
        found.len() == least(k, words.len()),
        k == 0 ==> found.len() == 0,
{
}

/// Finds the `num_results` words of `word_list` that are nearest to
/// `obj_word`, nearest first. Words at the same distance keep the order in
/// which the list has them. Where the list is shorter than `num_results`,
/// all of its words are returned.
pub fn find_most_similar_words(obj_word: &str, word_list: Vec<&str>, num_results: usize) -> (found:
    Vec<WordDistance>)
    ensures
        found@.len() == least(num_results as nat, word_list@.len()),
        num_results == 0 ==> found@.len() == 0,
        forall|r: int, s: int|
            0 <= r < s < found@.len() ==> (#[trigger] found@[r]).distance <= (
            #[trigger] found@[s]).distance,
        exists|chosen: Seq<int>|
            is_answer(obj_word@, texts(word_list@), num_results as nat, chosen, found@),
{
    broadcast use vstd::string::group_string_axioms;

    let target = chars_of(obj_word);
    let n: usize = word_list.len();
    let ghost words = texts(word_list@);
    let mut dists: Vec<usize> = Vec::new();
    let mut i: usize = 0;
    while i < n
        invariant
            i <= n,
            n == word_list@.len(),
            target@ == obj_word@,
            words == texts(word_list@),
            dists@.len() == i,
            forall|p: int| 0 <= p < i ==> #[trigger] dists@[p] == distance(obj_word@, words[p]),
        decreases n - i,
    {
        let word = chars_of(word_list[i]);
        dists.push(char_distance(&target, &word));
        i += 1;
    }
    assert(keys(dists@) =~= distances(obj_word@, words));
    let order = nearest_places(&dists, num_results);
    let ghost chosen = places(order@);
    let mut found: Vec<WordDistance> = Vec::new();
    let mut r: usize = 0;
    while r < order.len()
        invariant
            r <= order.len(),
            n == word_list@.len(),
            n == dists@.len(),
            words == texts(word_list@),
            chosen == places(order@),
            keys(dists@) == distances(obj_word@, words),
            is_nearest(distances(obj_word@, words), num_results as nat, chosen),
            found@.len() == r,
            forall|q: int|
                0 <= q < r ==> (#[trigger] found@[q])@ == (
                    words[chosen[q]],
                    distance(obj_word@, words[chosen[q]]),
                ),
        decreases order.len() - r,
    {
        let p: usize = order[r];
        assert(0 <= chosen[r as int] < n);
        assert(keys(dists@)[p as int] == distances(obj_word@, words)[p as int]);
        found.push(WordDistance { word: word_list[p].to_string(), distance: dists[p] });
        r += 1;
    }
    proof {
        assert(is_answer(obj_word@, words, num_results as nat, chosen, found@));
        assert forall|a: int, b: int| 0 <= a < b < found@.len() implies found@[a].distance
            <= found@[b].distance by {
            lemma_answer_ordered(obj_word@, words, num_results as nat, chosen, found@, a, b);
        }
    }
    found
}

} // verus!
