//! The edit distance between two words.
//!
//! The distance counts the fewest single-character edits that turn one word
//! into the other. An edit inserts a character, deletes one, puts one in the
//! place of another, or swaps two neighbours. A pair of neighbours that was
//! swapped is not edited again, so this is the restricted form of the
//! Damerau-Levenshtein distance, also known as optimal string alignment.

use vstd::prelude::*;

verus! {

/// The smaller of two numbers.
pub open spec fn least(x: nat, y: nat) -> nat {
    if x <= y {
        x
    } else {
        y
    }
}

/// What it costs to let the `i`-th character of `a` stand for the `j`-th of
/// `b` (both counted from one): nothing where they are the same character.
pub open spec fn substitution_cost(a: Seq<char>, b: Seq<char>, i: nat, j: nat) -> nat {
    if a[i - 1] == b[j - 1] {
        0
    } else {
        1
    }
}

/// Whether the first `i` characters of `a` and the first `j` of `b` end in the
/// same two characters in opposite order.
pub open spec fn ends_swapped(a: Seq<char>, b: Seq<char>, i: nat, j: nat) -> bool {
    i > 1 && j > 1 && a[i - 1] == b[j - 2] && b[j - 1] == a[i - 2]
}

/// The distance between the first `i` characters of `a` and the first `j`
/// characters of `b`.
pub open spec fn prefix_distance(a: Seq<char>, b: Seq<char>, i: nat, j: nat) -> nat
    decreases i + j,
{
    if i == 0 {
        j
    } else if j == 0 {
        i
    } else {
        let cost = substitution_cost(a, b, i, j);
        let deletion = prefix_distance(a, b, (i - 1) as nat, j) + 1;
        let insertion = prefix_distance(a, b, i, (j - 1) as nat) + 1;
        let substitution = prefix_distance(a, b, (i - 1) as nat, (j - 1) as nat) + cost;
        let best = least(deletion, least(insertion, substitution));
        if ends_swapped(a, b, i, j) {
            least(best, prefix_distance(a, b, (i - 2) as nat, (j - 2) as nat) + cost)
        } else {
            best
        }
    }
}

/// The distance between two words.
pub open spec fn distance(a: Seq<char>, b: Seq<char>) -> nat {
    prefix_distance(a, b, a.len(), b.len())
}

/// A word is at distance zero from itself.
pub proof fn lemma_distance_to_self(s: Seq<char>)
    ensures
        distance(s, s) == 0,
{
    lemma_prefix_distance_to_self(s, s.len());
}

proof fn lemma_prefix_distance_to_self(s: Seq<char>, i: nat)
    ensures
        prefix_distance(s, s, i, i) == 0,
    decreases i,
{
    if i > 0 {
        lemma_prefix_distance_to_self(s, (i - 1) as nat);
    }
}

/// The distance between the empty word and any word is that word's length,
/// whichever of the two comes first.
pub proof fn lemma_distance_to_empty(s: Seq<char>)
    ensures
        distance(Seq::<char>::empty(), s) == s.len(),
        distance(s, Seq::<char>::empty()) == s.len(),
{
}

/// The distance does not depend on the order of the two words.
pub proof fn lemma_distance_symmetric(a: Seq<char>, b: Seq<char>)
    ensures
        distance(a, b) == distance(b, a),
{
    lemma_prefix_distance_symmetric(a, b, a.len(), b.len());
}

proof fn lemma_prefix_distance_symmetric(a: Seq<char>, b: Seq<char>, i: nat, j: nat)
    ensures
        prefix_distance(a, b, i, j) == prefix_distance(b, a, j, i),
    decreases i + j,
{
    if i > 0 && j > 0 {
        lemma_prefix_distance_symmetric(a, b, (i - 1) as nat, j);
        lemma_prefix_distance_symmetric(a, b, i, (j - 1) as nat);
        lemma_prefix_distance_symmetric(a, b, (i - 1) as nat, (j - 1) as nat);
        if i > 1 && j > 1 {
            lemma_prefix_distance_symmetric(a, b, (i - 2) as nat, (j - 2) as nat);
        }
    }
}

/// The distance is at most the length of the longer word.
pub proof fn lemma_distance_bounded(a: Seq<char>, b: Seq<char>)
    ensures
        distance(a, b) <= a.len() || distance(a, b) <= b.len(),
{
    lemma_prefix_distance_bounded(a, b, a.len(), b.len());
}

proof fn lemma_prefix_distance_bounded(a: Seq<char>, b: Seq<char>, i: nat, j: nat)
    ensures
        prefix_distance(a, b, i, j) <= i || prefix_distance(a, b, i, j) <= j,
    decreases i + j,
{
    if i > 0 && j > 0 {
        lemma_prefix_distance_bounded(a, b, (i - 1) as nat, (j - 1) as nat);
    }
}

/// Whether `row` is row `r` of the table of prefix distances of `a` and `b`.
spec fn is_table_row(row: Seq<usize>, a: Seq<char>, b: Seq<char>, r: nat) -> bool {
    &&& row.len() == b.len() + 1
    &&& forall|c: int| 0 <= c <= b.len() ==> #[trigger] row[c] == prefix_distance(a, b, r, c as nat)
}

/// Whether `table` holds the first `rows` rows of the table of prefix
/// distances of `a` and `b`.
spec fn is_table(table: Seq<Vec<usize>>, a: Seq<char>, b: Seq<char>, rows: nat) -> bool {
    &&& table.len() == rows
    &&& forall|r: int| 0 <= r < rows ==> is_table_row(#[trigger] table[r]@, a, b, r as nat)
}

/// The characters of a word, in order.
pub(crate) fn chars_of(word: &str) -> (chars: Vec<char>)
    ensures
        chars@ == word@,
{
    broadcast use vstd::string::group_string_axioms;

    let mut chars: Vec<char> = Vec::new();
    for c in it: word.chars()
        invariant
            it.seq() == word@,
            chars@ == it.seq().take(it.index()),
    {
        chars.push(c);
    }
    chars
}

/// The distance between two words given by their characters.
pub(crate) fn char_distance(a: &Vec<char>, b: &Vec<char>) -> (d: usize)
    ensures
        d == distance(a@, b@),
{
    let m: usize = a.len();
    let n: usize = b.len();
    let mut first: Vec<usize> = Vec::new();
    let mut j: usize = 0;
    while j < n
        invariant
            j <= n,
            n == b@.len(),
            first@.len() == j,
            forall|c: int| 0 <= c < j ==> #[trigger] first@[c] == c,
        decreases n - j,
    {
        first.push(j);
        j += 1;
    }
    first.push(n);
    let mut table: Vec<Vec<usize>> = Vec::new();
    table.push(first);
    let mut i: usize = 0;
    while i < m
        invariant
            i <= m,
            m == a@.len(),
            n == b@.len(),
            is_table(table@, a@, b@, (i + 1) as nat),
        decreases m - i,
    {
        let mut row: Vec<usize> = Vec::new();
        row.push(i + 1);
        let mut j: usize = 0;
        while j < n
            invariant
                j <= n,
                i < m,
                m == a@.len(),
                n == b@.len(),
                    is_table(table@, a@, b@, (i + 1) as nat),
                row@.len() == j + 1,
                forall|c: int|
                    0 <= c <= j ==> #[trigger] row@[c] == prefix_distance(
                        a@,
                        b@,
                        (i + 1) as nat,
                        c as nat,
                    ),
            decreases n - j,
        {
            proof {
                lemma_prefix_distance_bounded(a@, b@, i as nat, j as nat);
                assert(is_table_row(table@[i as int]@, a@, b@, i as nat));
            }
            let cost: usize = if a[i] == b[j] {
                0
            } else {
                1
            };
            let mut best: usize = table[i][j] + cost;
            if table[i][j + 1] < best {
                best = table[i][j + 1] + 1;
            }
            if row[j] < best {
                best = row[j] + 1;
            }
            if i > 0 && j > 0 && a[i] == b[j - 1] && b[j] == a[i - 1] {
                proof {
                    lemma_prefix_distance_bounded(a@, b@, (i - 1) as nat, (j - 1) as nat);
                    assert(is_table_row(table@[i - 1]@, a@, b@, (i - 1) as nat));
                }
                let swap: usize = table[i - 1][j - 1] + cost;
                if swap < best {
                    best = swap;
                }
            }
            row.push(best);
            j += 1;
        }
        table.push(row);
        i += 1;
    }
    proof {
        assert(is_table_row(table@[m as int]@, a@, b@, m as nat));
    }
    table[m][n]
}

/// Computes the edit distance between two words, each taken as its sequence
/// of characters. Insertions, deletions, substitutions and swaps of two
/// neighbouring characters count one each.
pub fn damerau_levenshtein(word1: &str, word2: &str) -> (d: usize)
    ensures
        d == distance(word1@, word2@),
{
    let a = chars_of(word1);
    let b = chars_of(word2);
    char_distance(&a, &b)
}

} // verus!
