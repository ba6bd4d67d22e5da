//! Routines built on a stack: bracket checking, a stack that knows its
//! maximum, and the maxima of a sliding window.
pub mod brackets;
pub mod window;

use crate::order::{exceeds, faithful_clone, order_specified, strict_weak_order};
use crate::stack::brackets::{
    closes_any, first_fault, lemma_pairs_close, lemma_pairs_lookup, lookup, represents, scan_from,
};
use crate::stack::window::{
    bounds_stretch, candidates, is_max_in, lemma_begin_later, lemma_drop_back, lemma_drop_front,
    lemma_front_is_max, lemma_join_back, stretch_start,
};
use std::collections::HashMap;
use std::collections::VecDeque;
use std::str::FromStr;
use vstd::pervasive::cloned;
use vstd::prelude::*;

verus! {

/// A stack is a vector whose last element is the top.
pub type Stack<T> = Vec<T>;

/// `HashMap::iter`, with each entry copied out. The vector holds exactly the
/// entries of the map, in no promised order: every element is a key of the map
/// with its value, and every key of the map occurs. This is taken on trust:
/// what vstd says of the methods of a `HashMap` holds only for key types that
/// it knows to hash as the model of a map needs, and `char` is not among them.
#[verifier::external_body]
fn token_pairs(tokens: &HashMap<char, char>) -> (pairs: Vec<(char, char)>)
    ensures
        represents(pairs@, tokens@),
{
    tokens.iter().map(|(open, close)| (*open, *close)).collect()
}

/// The closing token that `pairs` gives for the opening token `c`.
fn closer_for(pairs: &Vec<(char, char)>, c: char) -> (found: Option<char>)
    ensures
        found == lookup(pairs@, c),
{
    let mut i: usize = pairs.len();
    let mut found: Option<char> = None;
    while i > 0
        invariant
            i <= pairs.len(),
            found == lookup(pairs@.subrange(i as int, pairs@.len() as int), c),
        decreases i,
    {
        i -= 1;
        proof {
            let tail = pairs@.subrange(i as int, pairs@.len() as int);
            assert(tail.drop_first() =~= pairs@.subrange(i + 1, pairs@.len() as int));
        }
        if pairs[i].0 == c {
            found = Some(pairs[i].1);
        }
    }
    proof {
        assert(pairs@.subrange(0, pairs@.len() as int) =~= pairs@);
    }
    found
}

/// Whether `c` is the closing token of some pair.
fn is_closer(pairs: &Vec<(char, char)>, c: char) -> (found: bool)
    ensures
        found == closes_any(pairs@, c),
{
    let mut i: usize = 0;
    while i < pairs.len()
        invariant
            i <= pairs.len(),
            forall|j: int| 0 <= j < i ==> (#[trigger] pairs@[j]).1 != c,
        decreases pairs.len() - i,
    {
        if pairs[i].1 == c {
            return true;
        }
        i += 1;
    }
    false
}

/// Checks that the brackets in `sequence` are nested properly, where `tokens`
/// maps each opening token to its closing token; every other character is
/// skipped. An error carries the position, counted from one, of the first
/// closing token that does not close the innermost open bracket, or else of the
/// innermost bracket that is left open at the end.
pub fn check_parenthesis(sequence: &str, tokens: &HashMap<char, char>) -> (result: Result<
    (),
    usize,
>)
    ensures
        match result {
            Ok(()) => first_fault(sequence@, tokens@) is None,
            Err(position) => first_fault(sequence@, tokens@) == Some(position as int),
        },
{
    let pairs = token_pairs(tokens);
    let total: usize = sequence.unicode_len();
    let mut stack: Stack<(usize, char)> = Stack::new();
    let ghost mut open: Seq<int> = Seq::empty();
    let mut i: usize = 0;
    for c in it: sequence.chars()
        invariant
            it.seq() == sequence@,
            i == it.index(),
            total == sequence@.len(),
            represents(pairs@, tokens@),
            stack@.len() == open.len(),
            forall|q: int|
                0 <= q < open.len() ==> {
                    &&& 1 <= #[trigger] open[q] <= i
                    &&& stack@[q].0 == open[q]
                    &&& stack@[q].1 == sequence@[open[q] - 1]
                    &&& tokens@.contains_key(stack@[q].1)
                },
            first_fault(sequence@, tokens@) == scan_from(sequence@, tokens@, i as int, open),
    {
        proof {
            lemma_pairs_lookup(pairs@, tokens@, c);
            lemma_pairs_close(pairs@, tokens@, c);
        }
        i += 1;
        if closer_for(&pairs, c).is_some() {
            stack.push((i, c));
            proof {
                open = open.push(i as int);
            }
        } else if is_closer(&pairs, c) {
            match stack.pop() {
                None => {
                    return Err(i);
                },
                Some((_, opened)) => {
                    proof {
                        lemma_pairs_lookup(pairs@, tokens@, opened);
                    }
                    let fits: bool = match closer_for(&pairs, opened) {
                        Some(close) => close == c,
                        None => false,
                    };
                    if !fits {
                        return Err(i);
                    }
                    proof {
                        open = open.drop_last();
                    }
                },
            }
        }
    }
    match stack.pop() {
        Some((position, _)) => Err(position),
        None => Ok(()),
    }
}

/// The greatest element of a non-empty sequence as a running maximum finds
/// it: the first element, replaced from left to right by each element that
/// the maximum so far does not exceed.
pub open spec fn max_of<T: PartialOrd>(values: Seq<T>) -> T
    recommends
        values.len() > 0,
    decreases values.len(),
{
    if values.len() <= 1 {
        values[0]
    } else {
        let before = max_of(values.drop_last());
        if exceeds(before, values.last()) {
            before
        } else {
            values.last()
        }
    }
}

/// In a strict weak order, `max_of` is an element of the sequence that no
/// element exceeds.
pub proof fn lemma_max_of_is_greatest<T: PartialOrd>(values: Seq<T>)
    requires
        strict_weak_order::<T>(),
        values.len() > 0,
    ensures
        exists|i: int| 0 <= i < values.len() && #[trigger] values[i] == max_of(values),
        forall|i: int| 0 <= i < values.len() ==> !exceeds(#[trigger] values[i], max_of(values)),
    decreases values.len(),
{
    if values.len() <= 1 {
        assert(values[0] == max_of(values));
    } else {
        let rest = values.drop_last();
        lemma_max_of_is_greatest(rest);
        let w = choose|i: int| 0 <= i < rest.len() && #[trigger] rest[i] == max_of(rest);
        assert(values[w] == rest[w]);
        assert(values[values.len() - 1] == values.last());
        assert forall|i: int| 0 <= i < values.len() implies !exceeds(
            #[trigger] values[i],
            max_of(values),
        ) by {
            if i < rest.len() {
                assert(values[i] == rest[i]);
                assert(!exceeds(rest[i], max_of(rest)));
            }
        }
    }
}

/// A stack that answers in constant time which of its elements is the
/// greatest. Each entry is a pair of a value and the maximum of the stack up
/// to and including that value.
pub struct MaxCachedStack<T: PartialOrd + Clone>(Stack<T>);

impl<T> MaxCachedStack<(T, T)> where T: PartialOrd + Clone {
    /// The values on the stack, bottom first.
    pub closed spec fn view(&self) -> Seq<T> {
        Seq::new(self.0@.len(), |i: int| self.0@[i].0)
    }

    /// The comparisons and the clones of `T` are as specified, and beside
    /// each value stands the maximum of the stack up to that value.
    pub closed spec fn wf(&self) -> bool {
        &&& order_specified::<T>()
        &&& faithful_clone::<T>()
        &&& forall|i: int|
            0 <= i < self.0@.len() ==> (#[trigger] self.0@[i]).1 == max_of(self@.take(i + 1))
    }

    /// An empty stack.
    pub fn new() -> (stack: Self)
        requires
            order_specified::<T>(),
            faithful_clone::<T>(),
        ensures
            stack.wf(),
            stack@ == Seq::<T>::empty(),
    {
        let stack = Self(Stack::new());
        assert(stack@ =~= Seq::<T>::empty());
        stack
    }

    /// An empty stack with room for `capacity` values.
    pub fn with_capacity(capacity: usize) -> (stack: Self)
        requires
            order_specified::<T>(),
            faithful_clone::<T>(),
        ensures
            stack.wf(),
            stack@ == Seq::<T>::empty(),
    {
        let stack = Self(Stack::with_capacity(capacity));
        assert(stack@ =~= Seq::<T>::empty());
        stack
    }

    /// Puts `value` on top.
    pub fn push(&mut self, value: T)
        requires
            old(self).wf(),
        ensures
            final(self).wf(),
            final(self)@ == old(self)@.push(value),
    {
        let n: usize = self.0.len();
        let max = if n > 0 {
            let m = &self.0[n - 1].1;
            proof {
                assert(self@.take(n as int) =~= self@);
            }
            if *m > value {
                let copy = m.clone();
                assert(cloned(*m, copy));
                copy
            } else {
                let copy = value.clone();
                assert(cloned(value, copy));
                copy
            }
        } else {
            let copy = value.clone();
            assert(cloned(value, copy));
            copy
        };
        self.0.push((value, max));
        proof {
            assert(self@ =~= old(self)@.push(value));
            assert(self@.drop_last() =~= old(self)@);
            assert forall|i: int| 0 <= i < self.0@.len() implies (#[trigger] self.0@[i]).1 == max_of(
                self@.take(i + 1),
            ) by {
                if i < n {
                    assert(self@.take(i + 1) =~= old(self)@.take(i + 1));
                } else {
                    assert(self@.take(i + 1) =~= self@);
                }
            }
        }
    }

    /// Takes the top value off, if there is one.
    pub fn pop(&mut self) -> (top: Option<T>)
        requires
            old(self).wf(),
        ensures
            final(self).wf(),
            match top {
                Some(value) => old(self)@.len() > 0 && value == old(self)@.last() && final(self)@
                    == old(self)@.drop_last(),
                None => old(self)@.len() == 0 && final(self)@ == old(self)@,
            },
    {
        match self.0.pop() {
            Some((value, _)) => {
                proof {
                    assert(self@ =~= old(self)@.drop_last());
                    assert forall|i: int| 0 <= i < self.0@.len() implies (#[trigger] self.0@[i]).1
                        == max_of(self@.take(i + 1)) by {
                        assert(self.0@[i] == old(self).0@[i]);
                        assert(self@.take(i + 1) =~= old(self)@.take(i + 1));
                    }
                }
                Some(value)
            },
            None => None,
        }
    }

    /// The greatest value on the stack, if there is any value.
    pub fn max(&self) -> (greatest: Option<T>)
        requires
            self.wf(),
        ensures
            greatest == if self@.len() == 0 {
                None
            } else {
                Some(max_of(self@))
            },
    {
        let n: usize = self.0.len();
        if n == 0 {
            None
        } else {
            proof {
                assert(self@.take(n as int) =~= self@);
            }
            let copy = self.0[n - 1].1.clone();
            assert(cloned(self.0@[n - 1].1, copy));
            Some(copy)
        }
    }
}

/// One step of a session with a [`MaxCachedStack`].
pub enum StackCommand<T: PartialOrd + Clone> {
    /// Put the value on the stack.
    Push(T),
    /// Take the top value off.
    Pop,
    /// Ask for the greatest value.
    Max,
}

/// The words are `push` and one more.
pub open spec fn asks_push(input: Seq<&str>) -> bool {
    input.len() == 2 && input[0]@ == "push"@
}

/// The only word is `pop`.
pub open spec fn asks_pop(input: Seq<&str>) -> bool {
    input.len() == 1 && input[0]@ == "pop"@
}

/// The only word is `max`.
pub open spec fn asks_max(input: Seq<&str>) -> bool {
    input.len() == 1 && input[0]@ == "max"@
}

/// The command that the words `input` stand for, where `parsed` is what the
/// parser made of the second word: a push of the parsed value, if there is
/// one, for `push` and a word; a pop for `pop`; a query for `max`; and nothing
/// for anything else.
pub open spec fn command_of<T: PartialOrd + Clone>(input: Seq<&str>, parsed: Option<T>) -> Option<
    StackCommand<T>,
> {
    if asks_push(input) {
        match parsed {
            Some(value) => Some(StackCommand::Push(value)),
            None => None,
        }
    } else if asks_pop(input) {
        Some(StackCommand::Pop)
    } else if asks_max(input) {
        Some(StackCommand::Max)
    } else {
        None
    }
}

/// Whether two texts are the same, character by character.
fn same_text(a: &str, b: &str) -> (same: bool)
    ensures
        same == (a@ == b@),
{
    let x = a.as_bytes();
    let y = b.as_bytes();
    proof {
        vstd::utf8::encode_utf8_decode_utf8(a@);
        vstd::utf8::encode_utf8_decode_utf8(b@);
    }
    if x.len() != y.len() {
        return false;
    }
    let mut i: usize = 0;
    while i < x.len()
        invariant
            i <= x.len(),
            x.len() == y.len(),
            x@ == vstd::utf8::encode_utf8(a@),
            y@ == vstd::utf8::encode_utf8(b@),
            forall|j: int| 0 <= j < i ==> x@[j] == y@[j],
        decreases x.len() - i,
    {
        if x[i] != y[i] {
            return false;
        }
        i += 1;
    }
    assert(x@ =~= y@);
    true
}

/// The word that a push carries: the second word, where the words are `push`
/// and one more.
pub fn pushed_word<'a>(input: &[&'a str]) -> (word: Option<&'a str>)
    ensures
        word == if asks_push(input@) {
            Some(input@[1])
        } else {
            None::<&str>
        },
{
    if input.len() == 2 && same_text(input[0], "push") {
        Some(input[1])
    } else {
        None
    }
}

/// `str::parse`, with the error dropped: the value that `T`'s parser reads
/// from `text`, or `None` where it refuses the text. Nothing is claimed of the
/// value, which is up to `T`.
#[verifier::external_body]
fn parse_value<T: FromStr>(text: &str) -> (parsed: Option<T>) {
    text.parse().ok()
}

impl<T> StackCommand<T> where T: PartialOrd + Clone {
    /// The command for the words `input`, given what the parser made of the
    /// second word.
    pub fn from_parts(input: &[&str], parsed: Option<T>) -> (command: Option<StackCommand<T>>)
        ensures
            command == command_of(input@, parsed),
    {
        if input.len() == 2 && same_text(input[0], "push") {
            match parsed {
                Some(value) => Some(StackCommand::Push(value)),
                None => None,
            }
        } else if input.len() == 1 && same_text(input[0], "pop") {
            Some(StackCommand::Pop)
        } else if input.len() == 1 && same_text(input[0], "max") {
            Some(StackCommand::Max)
        } else {
            None
        }
    }
}

impl<T> StackCommand<T> where T: PartialOrd + Clone + FromStr {
    /// Reads a command from the words of one line: `push` and a value,
    /// `pop`, or `max`. The value is read by `T`'s own parser from the word
    /// that [`pushed_word`] gives; where the parser refuses the word, there is
    /// no command.
    pub fn from_str(input: &[&str]) -> (command: Option<StackCommand<T>>)
        ensures
            asks_pop(input@) ==> command == Some(StackCommand::<T>::Pop),
            asks_max(input@) ==> command == Some(StackCommand::<T>::Max),
            asks_push(input@) ==> command is None || command matches Some(StackCommand::Push(_)),
            !asks_push(input@) && !asks_pop(input@) && !asks_max(input@) ==> command is None,
    {
        let parsed: Option<T> = match pushed_word(input) {
            Some(word) => parse_value(word),
            None => None,
        };
        proof {
            reveal_strlit("pop");
            reveal_strlit("max");
            if asks_max(input@) && asks_pop(input@) {
                assert("pop"@[0] == "max"@[0]);
            }
        }
        Self::from_parts(input, parsed)
    }
}

/// The values on the stack after the first `k` commands, bottom first. A pop
/// of an empty stack changes nothing.
pub open spec fn stack_after<T: PartialOrd + Clone>(commands: Seq<StackCommand<T>>, k: int) -> Seq<T>
    decreases k,
{
    if k <= 0 {
        Seq::empty()
    } else {
        let below = stack_after(commands, k - 1);
        match commands[k - 1] {
            StackCommand::Push(value) => below.push(value),
            StackCommand::Pop => if below.len() > 0 {
                below.drop_last()
            } else {
                below
            },
            StackCommand::Max => below,
        }
    }
}

/// The answers to the queries among the first `k` commands, in order: for
/// each `Max` the greatest value then on the stack, or `None` if the stack is
/// empty.
pub open spec fn answers<T: PartialOrd + Clone>(commands: Seq<StackCommand<T>>, k: int) -> Seq<
    Option<T>,
>
    decreases k,
{
    if k <= 0 {
        Seq::empty()
    } else {
        let earlier = answers(commands, k - 1);
        match commands[k - 1] {
            StackCommand::Max => earlier.push(
                if stack_after(commands, k - 1).len() == 0 {
                    None
                } else {
                    Some(max_of(stack_after(commands, k - 1)))
                },
            ),
            _ => earlier,
        }
    }
}

/// Runs `commands` on an empty stack and returns the answer to each `Max`
/// query, in order.
pub fn max_stack_answers<T>(commands: &[StackCommand<T>]) -> (out: Vec<Option<T>>) where
    T: PartialOrd + Clone,

    requires
        order_specified::<T>(),
        faithful_clone::<T>(),
    ensures
        out@ == answers(commands@, commands@.len() as int),
{
    let mut stack: MaxCachedStack<(T, T)> = MaxCachedStack::new();
    let mut out: Vec<Option<T>> = Vec::new();
    let mut i: usize = 0;
    while i < commands.len()
        invariant
            i <= commands.len(),
            order_specified::<T>(),
            faithful_clone::<T>(),
            stack.wf(),
            stack@ == stack_after(commands@, i as int),
            out@ == answers(commands@, i as int),
        decreases commands.len() - i,
    {
        match &commands[i] {
            StackCommand::Push(value) => {
                let copy = value.clone();
                assert(cloned(*value, copy));
                stack.push(copy);
            },
            StackCommand::Pop => {
                stack.pop();
            },
            StackCommand::Max => {
                out.push(stack.max());
            },
        }
        i += 1;
    }
    out
}

/// Drops from the back of the line every candidate whose value `elements[i]`
/// reaches, and puts `i` at the back. `from` is where the windows begin that
/// the line serves.
fn enter_line(line: &mut VecDeque<usize>, elements: &[usize], i: usize, from: usize)
    requires
        from <= i < elements@.len(),
        candidates(old(line)@, elements@, from as int, i as int),
        old(line)@.len() > 0 ==> from <= old(line)@[0],
        from < i ==> old(line)@.len() > 0 && old(line)@.last() == i - 1,
    ensures
        candidates(final(line)@, elements@, from as int, i + 1),
        final(line)@.len() > 0,
        final(line)@.last() == i,
        from <= final(line)@[0],
{
    while line.len() > 0 && elements[i] >= elements[line[line.len() - 1]]
        invariant
            from <= i < elements@.len(),
            candidates(line@, elements@, from as int, i as int),
            line@.len() > 0 ==> from <= line@[0],
            forall|k: int|
                stretch_start(line@, from as int, line@.len() as int) <= k < i
                    ==> #[trigger] elements@[k] <= elements@[i as int],
        decreases line@.len(),
    {
        proof {
            lemma_drop_back(line@, elements@, from as int, i as int);
            assert(bounds_stretch(line@, elements@, from as int, line@.len() - 1));
            assert(line@.drop_last() =~= line@.subrange(0, line@.len() - 1));
        }
        line.pop_back();
    }
    proof {
        lemma_join_back(line@, elements@, from as int, i);
        if line@.len() > 0 {
            assert(line@.push(i)[0] == line@[0]);
        }
    }
    line.push_back(i);
}

/// The maximum of every window of `window_size` consecutive elements, from
/// left to right; where `elements` is shorter than one window, the maximum of
/// all of it.
pub fn maximum_sliding_window(window_size: usize, elements: &[usize]) -> (maxima: Vec<usize>)
    requires
        window_size > 0,
        elements@.len() > 0,
    ensures
        maxima@.len() == if window_size >= elements@.len() {
            1
        } else {
            elements@.len() - window_size + 1
        },
        forall|j: int|
            0 <= j < maxima@.len() ==> is_max_in(
                elements@,
                j,
                if j + window_size <= elements@.len() {
                    j + window_size
                } else {
                    elements@.len() as int
                },
                #[trigger] maxima@[j],
            ),
{
    let n: usize = elements.len();
    let mut line: VecDeque<usize> = VecDeque::new();
    let mut maxima: Vec<usize> = Vec::new();
    let first: usize = if window_size < n {
        window_size
    } else {
        n
    };
    let mut i: usize = 0;
    while i < first
        invariant
            i <= first <= n,
            n == elements@.len(),
            candidates(line@, elements@, 0, i as int),
            0 < i ==> line@.len() > 0 && line@.last() == i - 1,
        decreases first - i,
    {
        enter_line(&mut line, elements, i, 0);
        i += 1;
    }
    if window_size < n {
        let mut i: usize = window_size;
        while i < n
            invariant
                0 < window_size <= i <= n,
                n == elements@.len(),
                candidates(line@, elements@, i - window_size, i as int),
                line@.len() > 0,
                i - window_size <= line@[0],
                line@.last() == i - 1,
                maxima@.len() == i - window_size,
                forall|j: int|
                    0 <= j < maxima@.len() ==> is_max_in(
                        elements@,
                        j,
                        j + window_size,
                        #[trigger] maxima@[j],
                    ),
            decreases n - i,
        {
            proof {
                lemma_front_is_max(line@, elements@, i - window_size, i as int);
                lemma_begin_later(line@, elements@, i - window_size, i as int, i - window_size + 1);
            }
            maxima.push(elements[line[0]]);
            let from: usize = i - window_size + 1;
            while line.len() > 0 && line[0] < from
                invariant
                    from <= i < n,
                    n == elements@.len(),
                    candidates(line@, elements@, from as int, i as int),
                    from < i ==> line@.len() > 0,
                    line@.len() > 0 ==> line@.last() == i - 1,
                decreases line@.len(),
            {
                proof {
                    lemma_drop_front(line@, elements@, from as int, i as int, from as int);
                    assert(line@.drop_first() =~= line@.subrange(1, line@.len() as int));
                }
                line.pop_front();
            }
            enter_line(&mut line, elements, i, from);
            i += 1;
        }
    }
    proof {
        if window_size < n {
            lemma_front_is_max(line@, elements@, n - window_size, n as int);
        } else {
            lemma_front_is_max(line@, elements@, 0, n as int);
        }
    }
    maxima.push(elements[line[0]]);
    maxima
}

} // verus!
