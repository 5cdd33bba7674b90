//! The scanner: typed reads from whitespace-separated input.

use crate::error::ScanError;
use crate::graph::{
    adjacency, edge_at, edge_fits, edges_of, empty_lists, file_edge, fits_in, lemma_with_edge,
    read_graph,
};
use crate::lines::{lemma_line_len, line_length};
use crate::model::{
    lemma_advance, lemma_advance_advance, lemma_readable_after, lemma_refilled, lemma_run_len,
    lemma_run_len_is, outcome, read_matrix, read_one, read_vec, readable_as, run_len, value_at,
    State,
};
use crate::parse::FromToken;
use crate::queue::TokenQueue;
use crate::std_text::text_of;
use vstd::prelude::*;
use vstd::std_specs::iter::IteratorSpec;
use vstd::utf8::encode_utf8_decode_utf8;

verus! {

/// A reader of whitespace-separated tokens from input held in memory.
///
/// The input is taken line by line, and a line only when the tokens of the
/// line before have all been handed out.
pub struct Scanner<'a> {
    /// The input behind the line that was split last.
    rest: &'a [u8],
    /// The tokens of that line that are still to be handed out.
    queue: TokenQueue,
}

impl<'a> View for Scanner<'a> {
    type V = State;

    closed spec fn view(&self) -> State {
        State { queued: self.queue@, unread: self.rest@ }
    }
}

/// The characters of `text`, one by one.
fn chars_of(text: &str) -> (r: Vec<char>)
    ensures
        r@ == text@,
{
    let mut r: Vec<char> = Vec::new();
    let mut rest = text.chars();
    loop
        invariant_except_break
            rest.decrease() is Some,
            r@ + rest.remaining() == text@,
        ensures
            r@ == text@,
        decreases rest.decrease()->0,
    {
        match rest.next() {
            None => {
                break ;
            },
            Some(c) => {
                r.push(c);
            },
        }
    }
    r
}

impl<'a> Scanner<'a> {
    /// A scanner at the start of `reader`. Nothing is read yet.
    pub fn new(reader: &'a [u8]) -> (s: Self)
        ensures
            s@ == State::start(reader@),
    {
        Scanner { rest: reader, queue: TokenQueue::new() }
    }

    /// Reads the next token as a `T`.
    ///
    /// The token is consumed even where it does not denote a `T`. At the end
    /// of the input, and before a line that is not valid UTF-8, the read
    /// fails and nothing changes.
    pub fn try_token<T: FromToken>(&mut self) -> (r: Result<T, ScanError>)
        ensures
            (outcome(r), final(self)@) == read_one::<T>(old(self)@),
    {
        proof {
            lemma_refilled(old(self)@);
            assert(old(self)@.advance(1) == old(self)@.step()) by {
                assert(old(self)@.advance(0) == old(self)@);
            }
        }
        loop
            invariant
                self@.refilled() == old(self)@.refilled(),
                old(self)@.refilled().stream() == old(self)@.stream(),
                old(self)@.advance(1) == old(self)@.step(),
            decreases self.rest@.len(),
        {
            if let Some(r) = self.queue.try_next::<T>() {
                return r;
            }
            if self.rest.len() == 0 {
                return Err(ScanError::StreamExhausted);
            }
            let n: usize = line_length(self.rest);
            proof {
                lemma_line_len(self.rest@);
            }
            let (line, tail) = self.rest.split_at(n);
            match text_of(line) {
                None => {
                    return Err(ScanError::IoFailure);
                },
                Some(text) => {
                    proof {
                        encode_utf8_decode_utf8(text@);
                    }
                    self.queue.refill(text);
                    self.rest = tail;
                },
            }
        }
    }

    /// Reads the next token as a `T`, for a caller who knows that it is there
    /// and denotes a `T`. Where that is not known, `try_token` is the read to
    /// use.
    pub fn token<T: FromToken>(&mut self) -> (r: T)
        requires
            read_one::<T>(old(self)@).0 is Ok,
        ensures
            (Ok::<T::V, ScanError>(r.deep_view()), final(self)@) == read_one::<T>(old(self)@),
    {
        self.try_token().unwrap()
    }

    /// Reads the next `n` tokens as values of type `T`, in order.
    ///
    /// The read stops at the first token that is missing or does not denote
    /// a `T`; the tokens before it are then consumed, and so is that token.
    pub fn try_vec<T: FromToken>(&mut self, n: usize) -> (r: Result<Vec<T>, ScanError>)
        ensures
            (outcome(r), final(self)@) == read_vec::<T>(old(self)@, n as int),
    {
        let ghost start = self@.stream();
        let ghost ok = readable_as::<T>(start.tokens);
        let mut out: Vec<T> = Vec::new();
        let mut i: usize = 0;
        while i < n
            invariant
                start == old(self)@.stream(),
                ok == readable_as::<T>(start.tokens),
                i <= n,
                self@ == old(self)@.advance(i as int),
                forall|j: int| 0 <= j < i ==> #[trigger] ok(j),
                out@.len() == i,
                forall|j: int| 0 <= j < i ==> out@[j].deep_view() == value_at::<T>(start.tokens, j),
            decreases n - i,
        {
            proof {
                if i > 0 {
                    assert(ok(i - 1));
                }
                lemma_advance(old(self)@, i as int);
                lemma_advance_advance(old(self)@, i as int, 1);
                lemma_readable_after::<T>(start, i as int, 0);
            }
            match self.try_token::<T>() {
                Ok(v) => {
                    out.push(v);
                },
                Err(e) => {
                    proof {
                        lemma_run_len_is(ok, n as int, i as int);
                    }
                    return Err(e);
                },
            }
            i += 1;
        }
        proof {
            lemma_run_len_is(ok, n as int, n as int);
            assert(out.deep_view() =~= Seq::new(n as nat, |j: int| value_at::<T>(start.tokens, j)));
        }
        Ok(out)
    }

    /// Reads the next `n` tokens as values of type `T`, in order, for a
    /// caller who knows that they are there and denote values of type `T`.
    pub fn vec<T: FromToken>(&mut self, n: usize) -> (r: Vec<T>)
        requires
            read_vec::<T>(old(self)@, n as int).0 is Ok,
        ensures
            (Ok::<Seq<T::V>, ScanError>(r.deep_view()), final(self)@) == read_vec::<T>(
                old(self)@,
                n as int,
            ),
    {
        self.try_vec(n).unwrap()
    }

    /// Reads the next `rows * cols` tokens as a matrix of values of type `T`:
    /// `rows` rows of `cols` values each, filled row after row.
    ///
    /// The read stops at the first token that is missing or does not denote
    /// a `T`; the tokens before it are then consumed, and so is that token.
    pub fn try_matrix<T: FromToken>(&mut self, rows: usize, cols: usize) -> (r: Result<
        Vec<Vec<T>>,
        ScanError,
    >)
        ensures
            (outcome(r), final(self)@) == read_matrix::<T>(old(self)@, rows as int, cols as int),
    {
        let ghost start = self@.stream();
        let ghost ok = readable_as::<T>(start.tokens);
        let mut out: Vec<Vec<T>> = Vec::new();
        let mut i: usize = 0;
        while i < rows
            invariant
                start == old(self)@.stream(),
                ok == readable_as::<T>(start.tokens),
                i <= rows,
                self@ == old(self)@.advance(i * cols),
                forall|j: int| 0 <= j < i * cols ==> #[trigger] ok(j),
                out@.len() == i,
                forall|a: int|
                    0 <= a < i ==> (#[trigger] out@[a]).deep_view() == Seq::new(
                        cols as nat,
                        |c: int| value_at::<T>(start.tokens, a * cols + c),
                    ),
            decreases rows - i,
        {
            let ghost base = i * cols;
            let ghost here = self@.stream();
            let ghost ok_here = readable_as::<T>(here.tokens);
            let ghost k = run_len(ok_here, cols as int);
            proof {
                assert(0 <= base) by (nonlinear_arith)
                    requires
                        base == i * cols,
                ;
                assert((i + 1) * cols == base + cols) by (nonlinear_arith)
                    requires
                        base == i * cols,
                ;
                assert((i + 1) * cols <= rows * cols) by (nonlinear_arith)
                    requires
                        i < rows,
                ;
                if base > 0 {
                    assert(ok(base - 1));
                }
                lemma_advance(old(self)@, base);
                lemma_run_len(ok_here, cols as int);
                assert forall|j: int| 0 <= j <= k implies ok(base + j) == #[trigger] ok_here(j) by {
                    lemma_readable_after::<T>(start, base, j);
                }
                assert forall|j: int| base <= j < base + k implies #[trigger] ok(j) by {
                    assert(ok_here(j - base));
                }
                lemma_advance_advance(old(self)@, base, k + 1);
                lemma_advance_advance(old(self)@, base, cols as int);
                lemma_readable_after::<T>(start, base, k);
            }
            match self.try_vec::<T>(cols) {
                Ok(row) => {
                    proof {
                        assert forall|c: int| 0 <= c < cols implies value_at::<T>(here.tokens, c)
                            == value_at::<T>(start.tokens, base + c) by {
                            lemma_readable_after::<T>(start, base, c);
                        }
                        assert(row.deep_view() =~= Seq::new(
                            cols as nat,
                            |c: int| value_at::<T>(start.tokens, i * cols + c),
                        ));
                    }
                    out.push(row);
                },
                Err(e) => {
                    proof {
                        lemma_run_len_is(ok, rows * cols, base + k);
                    }
                    return Err(e);
                },
            }
            i += 1;
        }
        proof {
            lemma_run_len_is(ok, rows * cols, rows * cols);
            assert(out.deep_view() =~= Seq::new(
                rows as nat,
                |a: int|
                    Seq::new(cols as nat, |c: int| value_at::<T>(start.tokens, a * cols + c)),
            ));
        }
        Ok(out)
    }

    /// Reads the next `rows * cols` tokens as a matrix of values of type `T`:
    /// `rows` rows of `cols` values each, filled row after row, for a caller
    /// who knows that the tokens are there and denote values of type `T`.
    pub fn matrix<T: FromToken>(&mut self, rows: usize, cols: usize) -> (r: Vec<Vec<T>>)
        requires
            read_matrix::<T>(old(self)@, rows as int, cols as int).0 is Ok,
        ensures
            (Ok::<Seq<Seq<T::V>>, ScanError>(r.deep_view()), final(self)@) == read_matrix::<T>(
                old(self)@,
                rows as int,
                cols as int,
            ),
    {
        self.try_matrix(rows, cols).unwrap()
    }

    /// Reads the next token as text.
    pub fn try_string(&mut self) -> (r: Result<String, ScanError>)
        ensures
            (outcome(r), final(self)@) == read_one::<String>(old(self)@),
    {
        self.try_token::<String>()
    }

    /// Reads the next token as text, for a caller who knows that it is there.
    pub fn string(&mut self) -> (r: String)
        requires
            read_one::<String>(old(self)@).0 is Ok,
        ensures
            (Ok::<Seq<char>, ScanError>(r@), final(self)@) == read_one::<String>(old(self)@),
    {
        self.try_string().unwrap()
    }

    /// Reads the next token as the sequence of its characters.
    pub fn try_chars(&mut self) -> (r: Result<Vec<char>, ScanError>)
        ensures
            (outcome(r), final(self)@) == read_one::<String>(old(self)@),
    {
        match self.try_token::<String>() {
            Ok(text) => {
                let r = chars_of(text.as_str());
                assert(r.deep_view() =~= text@);
                Ok(r)
            },
            Err(e) => Err(e),
        }
    }

    /// Reads the next token as the sequence of its characters, for a caller
    /// who knows that it is there.
    pub fn chars(&mut self) -> (r: Vec<char>)
        requires
            read_one::<String>(old(self)@).0 is Ok,
        ensures
            (Ok::<Seq<char>, ScanError>(r@), final(self)@) == read_one::<String>(old(self)@),
    {
        let r = self.try_chars().unwrap();
        assert(r.deep_view() =~= r@);
        r
    }

    /// Reads `m` edges, each as two vertex numbers, and files them in the
    /// adjacency lists of a graph on the vertices `0..=n`.
    ///
    /// An edge `u v` enters `v` in the list of `u` and, unless the graph is
    /// `directed`, `u` in the list of `v`. The read stops at the first token
    /// that is missing or is no vertex number, and at the first edge that
    /// would be entered in a list beyond `n`.
    pub fn try_graph(&mut self, n: usize, m: usize, directed: bool) -> (r: Result<
        Vec<Vec<usize>>,
        ScanError,
    >)
        requires
            n < usize::MAX,
        ensures
            (outcome(r), final(self)@) == read_graph(old(self)@, n as int, m as int, directed),
    {
        let ghost start = self@.stream();
        let ghost ok = readable_as::<usize>(start.tokens);
        let mut lists: Vec<Vec<usize>> = empty_lists(n);
        let mut e: usize = 0;
        while e < m
            invariant
                start == old(self)@.stream(),
                ok == readable_as::<usize>(start.tokens),
                e <= m,
                self@ == old(self)@.advance(2 * e),
                forall|j: int| 0 <= j < 2 * e ==> #[trigger] ok(j),
                forall|i: int|
                    0 <= i < e ==> edge_fits(
                        #[trigger] edge_at(start.tokens, i),
                        n as int,
                        directed,
                    ),
                lists@.len() == n + 1,
                lists.deep_view() == adjacency(
                    edges_of(start.tokens, e as int),
                    n as int,
                    directed,
                ),
            decreases m - e,
        {
            let ghost at = 2 * e;
            let ghost known = edges_of(start.tokens, e as int);
            proof {
                if e > 0 {
                    assert(ok(at - 1));
                }
                lemma_advance(old(self)@, at);
                lemma_advance_advance(old(self)@, at, 1);
                lemma_readable_after::<usize>(start, at, 0);
            }
            let u: usize = match self.try_token::<usize>() {
                Ok(u) => u,
                Err(err) => {
                    proof {
                        lemma_run_len_is(ok, 2 * m, at);
                        lemma_run_len_is(fits_in(known, n as int, directed), e as int, e as int);
                    }
                    return Err(err);
                },
            };
            proof {
                lemma_advance(old(self)@, at + 1);
                lemma_advance_advance(old(self)@, at + 1, 1);
                lemma_readable_after::<usize>(start, at + 1, 0);
            }
            let v: usize = match self.try_token::<usize>() {
                Ok(v) => v,
                Err(err) => {
                    proof {
                        lemma_run_len_is(ok, 2 * m, at + 1);
                        lemma_run_len_is(fits_in(known, n as int, directed), e as int, e as int);
                    }
                    return Err(err);
                },
            };
            proof {
                assert(edges_of(start.tokens, e + 1) =~= known.push((u, v)));
                lemma_with_edge(known, (u, v), n as int, directed);
            }
            if let Err(err) = file_edge(&mut lists, u, v, directed) {
                proof {
                    // both tokens of this edge were read, so it is among the
                    // edges read completely, and the first of them not to fit
                    lemma_run_len(ok, 2 * m);
                    let edges = edges_of(start.tokens, run_len(ok, 2 * m) / 2);
                    lemma_run_len_is(
                        fits_in(edges, n as int, directed),
                        edges.len() as int,
                        e as int,
                    );
                }
                return Err(err);
            }
            e += 1;
        }
        proof {
            lemma_run_len_is(ok, 2 * m, 2 * m);
            let edges = edges_of(start.tokens, m as int);
            lemma_run_len_is(fits_in(edges, n as int, directed), m as int, m as int);
        }
        Ok(lists)
    }

    /// Reads `m` edges, each as two vertex numbers, and files them in the
    /// adjacency lists of a graph on the vertices `0..=n`, for a caller who
    /// knows that the edges are there and fit.
    pub fn graph(&mut self, n: usize, m: usize, directed: bool) -> (r: Vec<Vec<usize>>)
        requires
            n < usize::MAX,
            read_graph(old(self)@, n as int, m as int, directed).0 is Ok,
        ensures
            (Ok::<Seq<Seq<usize>>, ScanError>(r.deep_view()), final(self)@) == read_graph(
                old(self)@,
                n as int,
                m as int,
                directed,
            ),
    {
        self.try_graph(n, m, directed).unwrap()
    }
}

} // verus!
