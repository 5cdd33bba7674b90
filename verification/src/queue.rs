//! The queue of tokens that a line was split into.

use crate::error::ScanError;
use crate::parse::FromToken;
use crate::tokens::{split_tokens, tokens_of};
use vstd::prelude::*;

verus! {

/// The tokens of one line of text, handed out one by one in the order in
/// which they stand in the line.
///
/// The queue is the part of a scanner that is independent of where the
/// lines come from: it is refilled with a line when it is empty, and gives
/// the tokens of that line until it is empty again.
pub struct TokenQueue {
    /// The tokens that are still to be handed out, the next one at the end.
    buffer: Vec<String>,
}

impl View for TokenQueue {
    type V = Seq<Seq<char>>;

    /// The tokens that are waiting, the next one first.
    closed spec fn view(&self) -> Seq<Seq<char>> {
        Seq::new(self.buffer@.len(), |i: int| self.buffer@[self.buffer@.len() - 1 - i]@)
    }
}

/// Turns a vector round.
fn reversed<T>(v: Vec<T>) -> (r: Vec<T>)
    ensures
        r@ == v@.reverse(),
{
    let mut v = v;
    let mut r: Vec<T> = Vec::new();
    let ghost all = v@;
    while v.len() > 0
        invariant
            v@.len() + r@.len() == all.len(),
            v@ == all.take(v@.len() as int),
            forall|i: int| 0 <= i < r@.len() ==> r@[i] == all[all.len() - 1 - i],
        decreases v@.len(),
    {
        let x = v.pop().unwrap();
        r.push(x);
    }
    r
}

/// What the first of `tokens` gives when it is read as a `T`, and nothing
/// where there is no token.
pub open spec fn first_as<T: FromToken>(tokens: Seq<Seq<char>>) -> Option<
    Result<T::V, ScanError>,
> {
    if tokens.len() == 0 {
        None
    } else {
        match T::parse_spec(tokens[0]) {
            Some(v) => Some(Ok(v)),
            None => Some(Err(ScanError::ParseMismatch)),
        }
    }
}

/// What the queue hands back, seen through the view of the value.
pub open spec fn handed<T: DeepView>(r: Option<Result<T, ScanError>>) -> Option<
    Result<T::V, ScanError>,
> {
    match r {
        Some(Ok(v)) => Some(Ok(v.deep_view())),
        Some(Err(e)) => Some(Err(e)),
        None => None,
    }
}

impl TokenQueue {
    /// A queue without tokens.
    pub fn new() -> (q: Self)
        ensures
            q@ == Seq::<Seq<char>>::empty(),
    {
        let q = TokenQueue { buffer: Vec::new() };
        q
    }

    /// Whether no token is waiting.
    pub fn is_empty(&self) -> (r: bool)
        ensures
            r == (self@.len() == 0),
    {
        self.buffer.len() == 0
    }

    /// Takes the tokens of `line` into the queue. A queue is refilled only
    /// when it is empty.
    pub fn refill(&mut self, line: &str)
        requires
            old(self)@.len() == 0,
        ensures
            final(self)@ == tokens_of(line@),
    {
        self.buffer = reversed(split_tokens(line));
    }

    /// Takes the first token off the queue and reads it as a `T`. The token
    /// is gone whether it denotes a `T` or not. An empty queue gives nothing
    /// and stays as it is.
    pub fn try_next<T: FromToken>(&mut self) -> (r: Option<Result<T, ScanError>>)
        ensures
            handed(r) == first_as::<T>(old(self)@),
            final(self)@ == if old(self)@.len() == 0 {
                old(self)@
            } else {
                old(self)@.drop_first()
            },
    {
        match self.buffer.pop() {
            None => None,
            Some(token) => match T::from_token(token.as_str()) {
                Some(v) => Some(Ok(v)),
                None => Some(Err(ScanError::ParseMismatch)),
            },
        }
    }
}

} // verus!
