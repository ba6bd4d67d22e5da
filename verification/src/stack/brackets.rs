//! What it means for the brackets of a text to be nested properly.
use vstd::prelude::*;

verus! {

/// Whether `c` closes some bracket of `tokens`.
pub open spec fn is_closing(tokens: Map<char, char>, c: char) -> bool {
    exists|open: char| tokens.contains_key(open) && #[trigger] tokens[open] == c
}

/// The scan of `chars` from index `from` on, with the positions (counted from
/// one) of the brackets that are open so far in `open`, innermost last. An
/// opening token opens a bracket. A closing token must close the innermost open
/// bracket; where it does not, its position is the fault. When the text ends
/// with a bracket open, the position of the innermost one is the fault.
pub open spec fn scan_from(chars: Seq<char>, tokens: Map<char, char>, from: int, open: Seq<int>)
    -> Option<int>
    decreases chars.len() - from,
{
    if from < 0 || from >= chars.len() {
        if open.len() == 0 {
            None
        } else {
            Some(open.last())
        }
    } else {
        let c = chars[from];
        if tokens.contains_key(c) {
            scan_from(chars, tokens, from + 1, open.push(from + 1))
        } else if is_closing(tokens, c) {
            if open.len() > 0 && tokens[chars[open.last() - 1]] == c {
                scan_from(chars, tokens, from + 1, open.drop_last())
            } else {
                Some(from + 1)
            }
        } else {
            scan_from(chars, tokens, from + 1, open)
        }
    }
}

/// The position, counted from one, at which the nesting of `chars` breaks, or
/// `None` if every bracket is closed in order.
pub open spec fn first_fault(chars: Seq<char>, tokens: Map<char, char>) -> Option<int> {
    scan_from(chars, tokens, 0, Seq::empty())
}

/// The list `pairs` holds exactly the entries of `tokens`.
pub open spec fn represents(pairs: Seq<(char, char)>, tokens: Map<char, char>) -> bool {
    &&& forall|i: int|
        0 <= i < pairs.len() ==> tokens.contains_key((#[trigger] pairs[i]).0) && tokens[pairs[i].0]
            == pairs[i].1
    &&& forall|open: char| #[trigger]
        tokens.contains_key(open) ==> exists|i: int|
            0 <= i < pairs.len() && (#[trigger] pairs[i]).0 == open
}

/// The second component of the first pair that begins with `c`.
pub open spec fn lookup(pairs: Seq<(char, char)>, c: char) -> Option<char>
    decreases pairs.len(),
{
    if pairs.len() == 0 {
        None
    } else if pairs[0].0 == c {
        Some(pairs[0].1)
    } else {
        lookup(pairs.drop_first(), c)
    }
}

/// Whether some pair ends with `c`.
pub open spec fn closes_any(pairs: Seq<(char, char)>, c: char) -> bool {
    exists|i: int| 0 <= i < pairs.len() && (#[trigger] pairs[i]).1 == c
}

/// `lookup` finds a pair that begins with `c` whenever there is one.
pub proof fn lemma_lookup_finds(pairs: Seq<(char, char)>, c: char)
    ensures
        match lookup(pairs, c) {
            Some(close) => exists|i: int|
                0 <= i < pairs.len() && (#[trigger] pairs[i]).0 == c && pairs[i].1 == close,
            None => forall|i: int| 0 <= i < pairs.len() ==> (#[trigger] pairs[i]).0 != c,
        },
    decreases pairs.len(),
{
    if pairs.len() > 0 && pairs[0].0 != c {
        let rest = pairs.drop_first();
        lemma_lookup_finds(rest, c);
        match lookup(rest, c) {
            Some(close) => {
                let i = choose|i: int|
                    0 <= i < rest.len() && (#[trigger] rest[i]).0 == c && rest[i].1 == close;
                assert(pairs[i + 1] == rest[i]);
            },
            None => {
                assert forall|i: int| 0 <= i < pairs.len() implies (#[trigger] pairs[i]).0 != c by {
                    if i > 0 {
                        assert(pairs[i] == rest[i - 1]);
                    }
                }
            },
        }
    }
}

/// On a list that holds the entries of `tokens`, `lookup` is the map.
pub proof fn lemma_pairs_lookup(pairs: Seq<(char, char)>, tokens: Map<char, char>, c: char)
    requires
        represents(pairs, tokens),
    ensures
        lookup(pairs, c) == if tokens.contains_key(c) {
            Some(tokens[c])
        } else {
            None::<char>
        },
{
    lemma_lookup_finds(pairs, c);
}

/// On a list that holds the entries of `tokens`, `closes_any` tells the
/// closing tokens.
pub proof fn lemma_pairs_close(pairs: Seq<(char, char)>, tokens: Map<char, char>, c: char)
    requires
        represents(pairs, tokens),
    ensures
        closes_any(pairs, c) == is_closing(tokens, c),
{
    if closes_any(pairs, c) {
        let i = choose|i: int| 0 <= i < pairs.len() && (#[trigger] pairs[i]).1 == c;
        assert(tokens.contains_key(pairs[i].0) && tokens[pairs[i].0] == c);
    }
    if is_closing(tokens, c) {
        let open = choose|open: char| tokens.contains_key(open) && #[trigger] tokens[open] == c;
        let i = choose|i: int| 0 <= i < pairs.len() && (#[trigger] pairs[i]).0 == open;
        assert(pairs[i].1 == c);
    }
}

} // verus!
