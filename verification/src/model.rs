//! What reading means: the state of a scanner, the stream of tokens that it
//! stands for, and the result and the next state of each kind of read.

use crate::error::ScanError;
use crate::lines::{lemma_line_len, line_len, stream_broken, stream_tokens};
use crate::parse::FromToken;
use crate::tokens::tokens_of;
use vstd::prelude::*;
use vstd::utf8::{decode_utf8, valid_utf8};

verus! {

/// What is yet to be read, whatever way it is held.
pub struct Stream {
    /// The tokens to come, the next one first.
    pub tokens: Seq<Seq<char>>,
    /// Whether a line that is not valid UTF-8 follows the last of these
    /// tokens, rather than the end of the input.
    pub broken: bool,
}

impl Stream {
    /// The stream once its first `n` tokens are gone; nothing is left of one
    /// that holds fewer.
    pub open spec fn after(self, n: int) -> Stream {
        Stream {
            tokens: if 0 <= n <= self.tokens.len() {
                self.tokens.skip(n)
            } else {
                Seq::empty()
            },
            broken: self.broken,
        }
    }

    /// Why a read fails that finds token `k` unreadable: the token is there
    /// and is not what was asked for, or the input has broken off, or it has
    /// ended.
    pub open spec fn failure_at(self, k: int) -> ScanError {
        if k < self.tokens.len() {
            ScanError::ParseMismatch
        } else if self.broken {
            ScanError::IoFailure
        } else {
            ScanError::StreamExhausted
        }
    }
}

/// The state of a scanner.
pub struct State {
    /// The tokens of the line split last that are not handed out yet, the
    /// next one first.
    pub queued: Seq<Seq<char>>,
    /// The input behind that line.
    pub unread: Seq<u8>,
}

impl State {
    /// The state before anything of `bytes` has been read.
    pub open spec fn start(bytes: Seq<u8>) -> State {
        State { queued: Seq::empty(), unread: bytes }
    }

    /// What is yet to be read in this state: the queued tokens, then what the
    /// unread input yields.
    pub open spec fn stream(self) -> Stream {
        Stream {
            tokens: self.queued + stream_tokens(self.unread),
            broken: stream_broken(self.unread),
        }
    }

    /// The state in which a token is looked for. A queue that holds a token
    /// is left alone. An empty one is replaced by the tokens of the next
    /// line, one line at a time, until a token is queued, the input has
    /// ended, or the next line is not valid UTF-8; such a line is not taken.
    pub open spec fn refilled(self) -> State
        decreases self.unread.len(),
        via State::refilled_terminates
    {
        if self.queued.len() > 0 || self.unread.len() == 0 {
            self
        } else {
            let n = line_len(self.unread) as int;
            if valid_utf8(self.unread.take(n)) {
                State {
                    queued: tokens_of(decode_utf8(self.unread.take(n))),
                    unread: self.unread.skip(n),
                }.refilled()
            } else {
                self
            }
        }
    }

    #[via_fn]
    proof fn refilled_terminates(self) {
        lemma_line_len(self.unread);
    }

    /// The state after one token has been asked for: the queue is refilled
    /// if need be, and its first token, if it has one, is gone.
    pub open spec fn step(self) -> State {
        let found = self.refilled();
        State {
            queued: if found.queued.len() > 0 {
                found.queued.drop_first()
            } else {
                found.queued
            },
            unread: found.unread,
        }
    }

    /// The state after `k` tokens have been asked for, one after another.
    pub open spec fn advance(self, k: int) -> State
        decreases k,
    {
        if k <= 0 {
            self
        } else {
            self.advance(k - 1).step()
        }
    }
}

/// Whether token `i` exists and denotes a value of type `T`.
pub open spec fn readable<T: FromToken>(tokens: Seq<Seq<char>>, i: int) -> bool {
    0 <= i < tokens.len() && T::parse_spec(tokens[i]) is Some
}

/// The value of type `T` that token `i` denotes.
pub open spec fn value_at<T: FromToken>(tokens: Seq<Seq<char>>, i: int) -> T::V {
    T::parse_spec(tokens[i])->0
}

/// `readable` as a predicate on positions.
pub open spec fn readable_as<T: FromToken>(tokens: Seq<Seq<char>>) -> spec_fn(int) -> bool {
    |i: int| readable::<T>(tokens, i)
}

/// How many of the positions `0..n` pass `ok` before the first that does
/// not: the position of the first failure, or `n` where there is none.
pub open spec fn run_len(ok: spec_fn(int) -> bool, n: int) -> int
    decreases n,
{
    if n <= 0 {
        0
    } else {
        let k = run_len(ok, n - 1);
        if k == n - 1 && ok(n - 1) {
            n
        } else {
            k
        }
    }
}

/// What a read hands back, seen through the view of the value.
pub open spec fn outcome<T: DeepView>(r: Result<T, ScanError>) -> Result<T::V, ScanError> {
    match r {
        Ok(v) => Ok(v.deep_view()),
        Err(e) => Err(e),
    }
}

/// Reading one token as a `T`: the value that the next token denotes. The
/// token is asked for, and so is gone, whether it could be read or not.
pub open spec fn read_one<T: FromToken>(st: State) -> (Result<T::V, ScanError>, State) {
    let s = st.stream();
    (
        if readable::<T>(s.tokens, 0) {
            Ok(value_at::<T>(s.tokens, 0))
        } else {
            Err(s.failure_at(0))
        },
        st.advance(1),
    )
}

/// Reading `n` tokens as a sequence of `T`: the values that the next `n`
/// tokens denote, in order. Where one of them cannot be read, the read
/// fails on the first such, and no token is asked for after that one.
pub open spec fn read_vec<T: FromToken>(st: State, n: int) -> (
    Result<Seq<T::V>, ScanError>,
    State,
) {
    let s = st.stream();
    let k = run_len(readable_as::<T>(s.tokens), n);
    if k == n {
        (Ok(Seq::new(n as nat, |i: int| value_at::<T>(s.tokens, i))), st.advance(n))
    } else {
        (Err(s.failure_at(k)), st.advance(k + 1))
    }
}

/// Reading `rows * cols` tokens as rows of `cols` values each, row after
/// row. It fails where reading that many tokens one after another fails.
pub open spec fn read_matrix<T: FromToken>(st: State, rows: int, cols: int) -> (
    Result<Seq<Seq<T::V>>, ScanError>,
    State,
) {
    let s = st.stream();
    let k = run_len(readable_as::<T>(s.tokens), rows * cols);
    if k == rows * cols {
        (
            Ok(
                Seq::new(
                    rows as nat,
                    |r: int| Seq::new(cols as nat, |c: int| value_at::<T>(s.tokens, r * cols + c)),
                ),
            ),
            st.advance(rows * cols),
        )
    } else {
        (Err(s.failure_at(k)), st.advance(k + 1))
    }
}

/// All positions before `run_len` pass, and the one at it, if it is below
/// `n`, does not.
pub proof fn lemma_run_len(ok: spec_fn(int) -> bool, n: int)
    requires
        0 <= n,
    ensures
        0 <= run_len(ok, n) <= n,
        forall|i: int| 0 <= i < run_len(ok, n) ==> #[trigger] ok(i),
        run_len(ok, n) < n ==> !ok(run_len(ok, n)),
    decreases n,
{
    if n > 0 {
        lemma_run_len(ok, n - 1);
    }
}

/// A position below which all pass and which itself fails, or is `n`, is
/// `run_len`.
pub proof fn lemma_run_len_is(ok: spec_fn(int) -> bool, n: int, k: int)
    requires
        0 <= k <= n,
        forall|i: int| 0 <= i < k ==> #[trigger] ok(i),
        k < n ==> !ok(k),
    ensures
        run_len(ok, n) == k,
    decreases n,
{
    if n > 0 {
        if k == n {
            lemma_run_len_is(ok, n - 1, n - 1);
        } else {
            lemma_run_len_is(ok, n - 1, k);
        }
    }
}

/// Refilling the queue changes nothing of what is yet to be read, and leaves
/// the queue empty only where no token is to come.
pub proof fn lemma_refilled(st: State)
    ensures
        st.refilled().stream() == st.stream(),
        st.refilled().queued.len() == 0 ==> st.stream().tokens.len() == 0,
        st.refilled().refilled() == st.refilled(),
    decreases st.unread.len(),
{
    if st.queued.len() == 0 && st.unread.len() > 0 {
        let n = line_len(st.unread) as int;
        lemma_line_len(st.unread);
        if valid_utf8(st.unread.take(n)) {
            lemma_refilled(
                State {
                    queued: tokens_of(decode_utf8(st.unread.take(n))),
                    unread: st.unread.skip(n),
                },
            );
        }
    }
}

/// Asking for a token takes the first token off the stream, and changes
/// nothing where there is none.
pub proof fn lemma_step(st: State)
    ensures
        st.step().stream() == st.stream().after(1),
{
    lemma_refilled(st);
    let found = st.refilled();
    if found.queued.len() > 0 {
        assert(st.step().stream().tokens =~= st.stream().tokens.skip(1));
    } else {
        assert(st.step().stream().tokens =~= Seq::<Seq<char>>::empty());
    }
}

/// Taking `a` tokens off a stream and then `b` more is taking `a + b`.
pub proof fn lemma_after_after(s: Stream, a: int, b: int)
    requires
        0 <= a,
        0 <= b,
    ensures
        s.after(a).after(b) == s.after(a + b),
{
    assert(s.after(a).after(b).tokens =~= s.after(a + b).tokens);
}

/// Asking for `k` tokens takes the first `k` tokens off the stream.
pub proof fn lemma_advance(st: State, k: int)
    requires
        0 <= k,
    ensures
        st.advance(k).stream() == st.stream().after(k),
    decreases k,
{
    if k == 0 {
        assert(st.stream().after(0).tokens =~= st.stream().tokens);
    } else {
        lemma_advance(st, k - 1);
        lemma_step(st.advance(k - 1));
        lemma_after_after(st.stream(), k - 1, 1);
    }
}

/// Asking for `a` tokens and then for `b` more is asking for `a + b`.
pub proof fn lemma_advance_advance(st: State, a: int, b: int)
    requires
        0 <= a,
        0 <= b,
    ensures
        st.advance(a).advance(b) == st.advance(a + b),
    decreases b,
{
    if b > 0 {
        lemma_advance_advance(st, a, b - 1);
    }
}

/// Token `j` of what is left after `a` tokens is token `a + j` of the whole.
pub proof fn lemma_readable_after<T: FromToken>(s: Stream, a: int, j: int)
    requires
        0 <= a <= s.tokens.len(),
        0 <= j,
    ensures
        readable::<T>(s.after(a).tokens, j) == readable::<T>(s.tokens, a + j),
        readable::<T>(s.tokens, a + j) ==> value_at::<T>(s.after(a).tokens, j) == value_at::<T>(
            s.tokens,
            a + j,
        ),
        s.after(a).failure_at(j) == s.failure_at(a + j),
{
}

} // verus!
