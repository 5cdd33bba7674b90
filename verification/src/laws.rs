//! What holds of every input and of every sequence of reads.

use crate::error::ScanError;
use crate::lines::{lemma_line_len, line_len, stream_broken, stream_tokens, LINE_FEED};
use crate::model::{
    lemma_advance, lemma_advance_advance, lemma_readable_after, lemma_run_len, read_matrix,
    read_one, read_vec, readable, readable_as, run_len, value_at, State, Stream,
};
use crate::parse::FromToken;
use crate::tokens::{
    is_word, lemma_tokens_after_word, lemma_tokens_concat, lemma_word_len, tokens_of, word_len,
};
use crate::whitespace::is_whitespace;
use vstd::prelude::*;
use vstd::utf8::{
    decode_utf8, decode_utf8_split, encode_utf8, encode_utf8_decode_utf8, encode_utf8_valid_utf8,
    is_char_boundary, is_char_boundary_iff_not_is_continuation_byte,
    is_char_boundary_start_end_of_seq, pop_first_scalar, valid_utf8, valid_utf8_split,
};

verus! {

/// In valid UTF-8 a line ends where a character ends: the first line and
/// what follows it are valid UTF-8 each, and decode to the two parts of what
/// the whole decodes to.
pub proof fn lemma_line_is_text(bytes: Seq<u8>)
    requires
        valid_utf8(bytes),
    ensures
        valid_utf8(bytes.take(line_len(bytes) as int)),
        valid_utf8(bytes.skip(line_len(bytes) as int)),
        decode_utf8(bytes) == decode_utf8(bytes.take(line_len(bytes) as int)) + decode_utf8(
            bytes.skip(line_len(bytes) as int),
        ),
{
    let n = line_len(bytes) as int;
    lemma_line_len(bytes);
    assert(is_char_boundary(bytes, n)) by {
        if n == bytes.len() {
            is_char_boundary_start_end_of_seq(bytes);
        } else {
            // the line feed is a character of its own, so one starts behind it
            is_char_boundary_iff_not_is_continuation_byte(bytes, n - 1);
            valid_utf8_split(bytes, n - 1);
            let tail = bytes.subrange(n - 1, bytes.len() as int);
            let behind = pop_first_scalar(tail);
            assert(valid_utf8(behind));
            is_char_boundary_iff_not_is_continuation_byte(bytes, n);
        }
    }
    valid_utf8_split(bytes, n);
    decode_utf8_split(bytes, n);
}

/// A line of valid UTF-8 that ends in a line feed decodes to text that ends
/// in the line feed character.
pub proof fn lemma_line_ends_in_whitespace(line: Seq<u8>)
    requires
        valid_utf8(line),
        line.len() > 0,
        line.last() == LINE_FEED,
    ensures
        decode_utf8(line).len() > 0,
        decode_utf8(line).last() == '\n',
        is_whitespace(decode_utf8(line).last()),
{
    let n = line.len() as int;
    is_char_boundary_iff_not_is_continuation_byte(line, n - 1);
    valid_utf8_split(line, n - 1);
    decode_utf8_split(line, n - 1);
    let end = line.subrange(n - 1, n);
    assert(0x0au8 & 0x7f == 0x0a) by (bit_vector);
    assert(decode_utf8(pop_first_scalar(end)) =~= Seq::<char>::empty());
}

/// Line breaks are invisible: valid UTF-8 read line by line yields the
/// tokens of the whole text, and never breaks off.
pub proof fn lemma_lines_are_invisible(bytes: Seq<u8>)
    requires
        valid_utf8(bytes),
    ensures
        stream_tokens(bytes) == tokens_of(decode_utf8(bytes)),
        !stream_broken(bytes),
    decreases bytes.len(),
{
    if bytes.len() > 0 {
        let n = line_len(bytes) as int;
        lemma_line_len(bytes);
        lemma_line_is_text(bytes);
        let line = bytes.take(n);
        let rest = bytes.skip(n);
        lemma_lines_are_invisible(rest);
        if n < bytes.len() {
            lemma_line_ends_in_whitespace(line);
        }
        if decode_utf8(rest).len() == 0 {
            assert(tokens_of(decode_utf8(line)) + stream_tokens(rest) =~= tokens_of(
                decode_utf8(line),
            ));
        } else {
            lemma_tokens_concat(decode_utf8(line), decode_utf8(rest));
        }
    }
}

/// Whether `gap` can stand between two tokens: it holds whitespace only.
pub open spec fn is_gap(gap: Seq<char>) -> bool {
    forall|i: int| 0 <= i < gap.len() ==> is_whitespace(#[trigger] gap[i])
}

/// The text in which `words` stand in order with `gaps` around them:
/// `gaps[0]`, `words[0]`, `gaps[1]`, and so on to the last gap.
pub open spec fn spaced(words: Seq<Seq<char>>, gaps: Seq<Seq<char>>) -> Seq<char>
    recommends
        gaps.len() == words.len() + 1,
    decreases words.len(),
{
    if words.len() == 0 {
        gaps[0]
    } else {
        spaced(words.drop_last(), gaps.drop_last()) + words.last() + gaps.last()
    }
}

/// Whether `words` and `gaps` make up whitespace-separated text: one gap
/// before each word and one behind the last, whitespace only in the gaps,
/// and no word empty, nor any gap between two words.
pub open spec fn is_spaced(words: Seq<Seq<char>>, gaps: Seq<Seq<char>>) -> bool {
    &&& gaps.len() == words.len() + 1
    &&& forall|i: int| 0 <= i < words.len() ==> is_word(#[trigger] words[i])
    &&& forall|i: int| 0 <= i < gaps.len() ==> is_gap(#[trigger] gaps[i])
    &&& forall|i: int| 0 < i < words.len() ==> (#[trigger] gaps[i]).len() > 0
}

/// Whitespace alone holds no token.
pub proof fn lemma_gap_has_no_token(gap: Seq<char>)
    requires
        is_gap(gap),
    ensures
        tokens_of(gap) == Seq::<Seq<char>>::empty(),
    decreases gap.len(),
{
    if gap.len() > 0 {
        lemma_gap_has_no_token(gap.drop_first());
    }
}

/// The tokens of whitespace-separated text are the words that were put into
/// it, in their order.
pub proof fn lemma_tokens_of_spaced(words: Seq<Seq<char>>, gaps: Seq<Seq<char>>)
    requires
        is_spaced(words, gaps),
    ensures
        tokens_of(spaced(words, gaps)) == words,
        spaced(words, gaps).len() > 0 && gaps.last().len() > 0 ==> is_whitespace(
            spaced(words, gaps).last(),
        ),
    decreases words.len(),
{
    if words.len() == 0 {
        lemma_gap_has_no_token(gaps[0]);
    } else {
        // the text before the last word is empty or ends in whitespace, so
        // the last word and the gap behind it add one token to its tokens
        let before = spaced(words.drop_last(), gaps.drop_last());
        let word = words.last();
        let gap = gaps.last();
        lemma_tokens_of_spaced(words.drop_last(), gaps.drop_last());
        lemma_gap_has_no_token(gap);
        lemma_tokens_after_word(word, gap);
        lemma_tokens_concat(before, word + gap);
        assert(spaced(words, gaps) =~= before + (word + gap));
    }
}

/// Number of whitespace characters at the front of `s`.
pub open spec fn gap_len(s: Seq<char>) -> nat
    decreases s.len(),
{
    if s.len() == 0 || !is_whitespace(s[0]) {
        0
    } else {
        1 + gap_len(s.drop_first())
    }
}

/// The whitespace around the tokens of `s`: what stands before the first
/// token, between each two, and behind the last.
pub open spec fn gaps_of(s: Seq<char>) -> Seq<Seq<char>>
    decreases s.len(),
    via gaps_of_terminates
{
    let text = s.skip(gap_len(s) as int);
    if text.len() == 0 {
        seq![s]
    } else {
        seq![s.take(gap_len(s) as int)] + gaps_of(text.skip(word_len(text) as int))
    }
}

#[via_fn]
proof fn gaps_of_terminates(s: Seq<char>) {
    lemma_gap_len(s);
    lemma_word_len(s.skip(gap_len(s) as int));
}

/// `gap_len` stops at the first character that is not whitespace, and not
/// before.
pub proof fn lemma_gap_len(s: Seq<char>)
    ensures
        gap_len(s) <= s.len(),
        is_gap(s.take(gap_len(s) as int)),
        gap_len(s) < s.len() ==> !is_whitespace(s[gap_len(s) as int]),
        s.len() > 0 && is_whitespace(s[0]) ==> gap_len(s) >= 1,
        tokens_of(s) == tokens_of(s.skip(gap_len(s) as int)),
    decreases s.len(),
{
    if s.len() == 0 || !is_whitespace(s[0]) {
        assert(s.skip(0) =~= s);
    } else {
        let t = s.drop_first();
        lemma_gap_len(t);
        let n = gap_len(s) as int;
        assert forall|i: int| 0 <= i < n implies is_whitespace(#[trigger] s.take(n)[i]) by {
            if i > 0 {
                assert(s.take(n)[i] == t.take(n - 1)[i - 1]);
            }
        }
        assert(s.skip(n) =~= t.skip(n - 1));
    }
}

/// Text that starts with a gap and a word: the gap and the word stand before
/// what the other words and gaps make up.
pub proof fn lemma_spaced_front(
    word: Seq<char>,
    gap: Seq<char>,
    words: Seq<Seq<char>>,
    gaps: Seq<Seq<char>>,
)
    requires
        gaps.len() == words.len() + 1,
    ensures
        spaced(seq![word] + words, seq![gap] + gaps) == gap + word + spaced(words, gaps),
    decreases words.len(),
{
    let all_words = seq![word] + words;
    let all_gaps = seq![gap] + gaps;
    assert(all_words.last() == if words.len() == 0 {
        word
    } else {
        words.last()
    });
    if words.len() == 0 {
        assert(spaced(all_words.drop_last(), all_gaps.drop_last()) == gap);
    } else {
        assert(all_words.drop_last() =~= seq![word] + words.drop_last());
        assert(all_gaps.drop_last() =~= seq![gap] + gaps.drop_last());
        lemma_spaced_front(word, gap, words.drop_last(), gaps.drop_last());
        assert(gap + word + spaced(words.drop_last(), gaps.drop_last()) + words.last()
            + gaps.last() =~= gap + word + (spaced(words.drop_last(), gaps.drop_last())
            + words.last() + gaps.last()));
    }
}

/// Every text is whitespace-separated text: it is made up of its tokens and
/// the gaps around them. With `lemma_tokens_of_spaced`, the tokens of a text
/// are the one way to cut it into words and whitespace.
pub proof fn lemma_text_is_spaced(s: Seq<char>)
    ensures
        is_spaced(tokens_of(s), gaps_of(s)),
        spaced(tokens_of(s), gaps_of(s)) == s,
        gaps_of(s)[0] == s.take(gap_len(s) as int),
    decreases s.len(),
{
    let lead = gap_len(s) as int;
    lemma_gap_len(s);
    let text = s.skip(lead);
    if text.len() == 0 {
        assert(s.take(lead) =~= s);
        lemma_gap_has_no_token(s);
    } else {
        let n = word_len(text) as int;
        lemma_word_len(text);
        let word = text.take(n);
        let rest = text.skip(n);
        let gap = s.take(lead);
        lemma_text_is_spaced(rest);
        lemma_gap_len(rest);
        let words = tokens_of(rest);
        let gaps = gaps_of(rest);
        // where a word follows, `rest` starts with the whitespace that ended
        // `word`, so the gap between the two is not empty
        let all_gaps = seq![gap] + gaps;
        assert(forall|i: int| 0 <= i < all_gaps.len() ==> is_gap(#[trigger] all_gaps[i]));
        assert(forall|i: int| 0 < i <= words.len() ==> (#[trigger] all_gaps[i]).len() > 0);
        lemma_spaced_front(word, gap, words, gaps);
    }
}

/// A scanner over the UTF-8 encoding of a text stands for the tokens of that
/// text, with the end of the input behind them.
pub proof fn lemma_scanning_text(text: Seq<char>)
    ensures
        State::start(encode_utf8(text)).stream() == (Stream {
            tokens: tokens_of(text),
            broken: false,
        }),
{
    let bytes = encode_utf8(text);
    encode_utf8_valid_utf8(text);
    encode_utf8_decode_utf8(text);
    lemma_lines_are_invisible(bytes);
}

/// Tokens come out in the order of the input, one per read: after `i`
/// reads, whatever was asked for in them, the next read goes to token `i`.
/// It gives the value that this token denotes, or fails because the token
/// denotes none or because there is no such token, and the read after it
/// goes to token `i + 1`.
pub proof fn lemma_read_in_order<T: FromToken>(st: State, i: int)
    requires
        0 <= i,
    ensures
        read_one::<T>(st.advance(i)).0 == if readable::<T>(st.stream().tokens, i) {
            Ok::<T::V, ScanError>(value_at::<T>(st.stream().tokens, i))
        } else {
            Err::<T::V, ScanError>(st.stream().failure_at(i))
        },
        read_one::<T>(st.advance(i)).1 == st.advance(i + 1),
{
    lemma_advance(st, i);
    lemma_advance_advance(st, i, 1);
    let s = st.stream();
    if i <= s.tokens.len() {
        lemma_readable_after::<T>(s, i, 0);
    }
}

/// Whitespace-separated text read token by token gives back its words:
/// read `i` goes to word `i` and gives the value that it denotes, or fails
/// because it denotes none; the read after the last word finds the input at
/// its end.
pub proof fn lemma_words_come_back<T: FromToken>(
    words: Seq<Seq<char>>,
    gaps: Seq<Seq<char>>,
    i: int,
)
    requires
        is_spaced(words, gaps),
        0 <= i <= words.len(),
    ensures
        read_one::<T>(State::start(encode_utf8(spaced(words, gaps))).advance(i)).0 == if i
            == words.len() {
            Err::<T::V, ScanError>(ScanError::StreamExhausted)
        } else {
            match T::parse_spec(words[i]) {
                Some(v) => Ok::<T::V, ScanError>(v),
                None => Err::<T::V, ScanError>(ScanError::ParseMismatch),
            }
        },
{
    let st = State::start(encode_utf8(spaced(words, gaps)));
    lemma_tokens_of_spaced(words, gaps);
    lemma_scanning_text(spaced(words, gaps));
    lemma_read_in_order::<T>(st, i);
}

/// `n` reads of one token each, one after another, up to the first that
/// fails: the values read, or the failure, and the state behind the last
/// read that was made.
pub open spec fn read_each<T: FromToken>(st: State, n: int) -> (
    Result<Seq<T::V>, ScanError>,
    State,
)
    decreases n,
{
    if n <= 0 {
        (Ok(Seq::empty()), st)
    } else {
        match read_each::<T>(st, n - 1) {
            (Ok(values), before) => match read_one::<T>(before) {
                (Ok(v), behind) => (Ok(values.push(v)), behind),
                (Err(e), behind) => (Err(e), behind),
            },
            (Err(e), behind) => (Err(e), behind),
        }
    }
}

/// Reading a vector of `n` values is reading `n` values one by one: the
/// same values or the same failure, and the same state afterwards, so that
/// whatever is read next finds no token skipped and none twice.
pub proof fn lemma_vec_is_single_reads<T: FromToken>(st: State, n: int)
    requires
        0 <= n,
    ensures
        read_vec::<T>(st, n) == read_each::<T>(st, n),
    decreases n,
{
    let s = st.stream();
    let ok = readable_as::<T>(s.tokens);
    if n == 0 {
        assert(Seq::new(0nat, |i: int| value_at::<T>(s.tokens, i)) =~= Seq::<T::V>::empty());
    } else {
        lemma_vec_is_single_reads::<T>(st, n - 1);
        lemma_run_len(ok, n - 1);
        lemma_run_len(ok, n);
        let k = run_len(ok, n - 1);
        if k == n - 1 {
            lemma_read_in_order::<T>(st, n - 1);
            if ok(n - 1) {
                assert(Seq::new((n - 1) as nat, |i: int| value_at::<T>(s.tokens, i)).push(
                    value_at::<T>(s.tokens, n - 1),
                ) =~= Seq::new(n as nat, |i: int| value_at::<T>(s.tokens, i)));
            }
        }
    }
}

/// A matrix of `rows * cols` values is the vector of that many values, cut
/// into rows: the two reads fail alike and leave the same state, and where
/// they succeed the rows laid end to end are the vector.
pub proof fn lemma_matrix_is_vector<T: FromToken>(st: State, rows: int, cols: int)
    requires
        0 <= rows,
        0 <= cols,
    ensures
        read_matrix::<T>(st, rows, cols).1 == read_vec::<T>(st, rows * cols).1,
        match (read_matrix::<T>(st, rows, cols).0, read_vec::<T>(st, rows * cols).0) {
            (Ok(matrix), Ok(vector)) => {
                &&& matrix.flatten() == vector
                &&& matrix.len() == rows
                &&& forall|r: int, c: int|
                    0 <= r < rows && 0 <= c < cols ==> (#[trigger] matrix[r])[c]
                        == #[trigger] vector[r * cols + c]
            },
            (Err(e), Err(f)) => e == f,
            _ => false,
        },
{
    let s = st.stream();
    let k = run_len(readable_as::<T>(s.tokens), rows * cols);
    assert(0 <= rows * cols) by (nonlinear_arith)
        requires
            0 <= rows,
            0 <= cols,
    ;
    if k == rows * cols {
        let matrix = Seq::new(
            rows as nat,
            |r: int| Seq::new(cols as nat, |c: int| value_at::<T>(s.tokens, r * cols + c)),
        );
        let vector = Seq::new((rows * cols) as nat, |i: int| value_at::<T>(s.tokens, i));
        assert forall|r: int, c: int| 0 <= r < rows && 0 <= c < cols implies (
        #[trigger] matrix[r])[c] == #[trigger] vector[r * cols + c] by {
            lemma_cell_index(rows, cols, r, c);
        }
        lemma_rows_end_to_end::<T>(s.tokens, rows, cols);
    }
}

/// Cell `c` of row `r` has a place among the `rows * cols` cells.
proof fn lemma_cell_index(rows: int, cols: int, r: int, c: int)
    requires
        0 <= r < rows,
        0 <= c < cols,
    ensures
        0 <= r * cols + c < rows * cols,
{
    assert(0 <= r * cols) by (nonlinear_arith)
        requires
            0 <= r,
            0 <= cols,
    ;
    assert(r * cols + cols <= rows * cols) by (nonlinear_arith)
        requires
            r + 1 <= rows,
            0 <= cols,
    ;
}

/// The first `rows` rows of `cols` values each, laid end to end, are the
/// first `rows * cols` values.
proof fn lemma_rows_end_to_end<T: FromToken>(tokens: Seq<Seq<char>>, rows: int, cols: int)
    requires
        0 <= rows,
        0 <= cols,
    ensures
        Seq::new(
            rows as nat,
            |r: int| Seq::new(cols as nat, |c: int| value_at::<T>(tokens, r * cols + c)),
        ).flatten() == Seq::new((rows * cols) as nat, |i: int| value_at::<T>(tokens, i)),
    decreases rows,
{
    let matrix = Seq::new(
        rows as nat,
        |r: int| Seq::new(cols as nat, |c: int| value_at::<T>(tokens, r * cols + c)),
    );
    assert(0 <= rows * cols) by (nonlinear_arith)
        requires
            0 <= rows,
            0 <= cols,
    ;
    matrix.lemma_flatten_and_flatten_alt_are_equivalent();
    if rows == 0 {
        assert(rows * cols == 0) by (nonlinear_arith)
            requires
                rows == 0,
        ;
    } else {
        let fewer = Seq::new(
            (rows - 1) as nat,
            |r: int| Seq::new(cols as nat, |c: int| value_at::<T>(tokens, r * cols + c)),
        );
        lemma_rows_end_to_end::<T>(tokens, rows - 1, cols);
        fewer.lemma_flatten_and_flatten_alt_are_equivalent();
        assert(matrix.drop_last() =~= fewer);
        assert((rows - 1) * cols + cols == rows * cols) by (nonlinear_arith);
        assert(0 <= (rows - 1) * cols) by (nonlinear_arith)
            requires
                1 <= rows,
                0 <= cols,
        ;
    }
}

/// Whether `rest` is what is left of `bytes` behind its first `j` bytes,
/// and these are whole lines: the cut is at the start, behind a line feed,
/// or at the end.
pub open spec fn cut_at_line(bytes: Seq<u8>, rest: Seq<u8>, j: int) -> bool {
    &&& 0 <= j <= bytes.len()
    &&& rest == bytes.skip(j)
    &&& j == 0 || j == bytes.len() || bytes[j - 1] == LINE_FEED
}

/// Whether `rest` is what is left of `bytes` behind some of its lines.
pub open spec fn behind_lines(bytes: Seq<u8>, rest: Seq<u8>) -> bool {
    exists|j: int| cut_at_line(bytes, rest, j)
}

/// What is left behind some lines of what is left behind some lines is left
/// behind some lines.
pub proof fn lemma_behind_lines_twice(a: Seq<u8>, b: Seq<u8>, c: Seq<u8>)
    requires
        behind_lines(a, b),
        behind_lines(b, c),
    ensures
        behind_lines(a, c),
{
    let i = choose|i: int| cut_at_line(a, b, i);
    let j = choose|j: int| cut_at_line(b, c, j);
    assert(a.skip(i).skip(j) =~= a.skip(i + j));
    assert(cut_at_line(a, c, i + j));
}

/// While the queue holds a token, a read takes that token and leaves the
/// input alone.
pub proof fn lemma_queue_first(st: State)
    requires
        st.queued.len() > 0,
    ensures
        st.advance(1) == (State { queued: st.queued.drop_first(), unread: st.unread }),
{
    assert(st.advance(0) == st);
}

/// The queue is refilled from whole lines: what is unread afterwards is what
/// was unread before, less some lines at its front.
pub proof fn lemma_refill_takes_lines(st: State)
    ensures
        behind_lines(st.unread, st.refilled().unread),
    decreases st.unread.len(),
{
    if st.queued.len() > 0 || st.unread.len() == 0 {
        assert(st.unread.skip(0) =~= st.unread);
        assert(cut_at_line(st.unread, st.unread, 0));
    } else {
        let n = line_len(st.unread) as int;
        lemma_line_len(st.unread);
        if valid_utf8(st.unread.take(n)) {
            let next = State {
                queued: tokens_of(decode_utf8(st.unread.take(n))),
                unread: st.unread.skip(n),
            };
            lemma_refill_takes_lines(next);
            assert(cut_at_line(st.unread, next.unread, n));
            lemma_behind_lines_twice(st.unread, next.unread, next.refilled().unread);
        } else {
            assert(st.unread.skip(0) =~= st.unread);
            assert(cut_at_line(st.unread, st.unread, 0));
        }
    }
}

/// Reads take the input in whole lines and never give any of it back: what
/// is unread after any number of reads is what was unread before, less some
/// lines at its front.
pub proof fn lemma_reads_take_lines(st: State, k: int)
    ensures
        behind_lines(st.unread, st.advance(k).unread),
    decreases k,
{
    if k <= 0 {
        assert(st.unread.skip(0) =~= st.unread);
        assert(cut_at_line(st.unread, st.unread, 0));
    } else {
        lemma_reads_take_lines(st, k - 1);
        lemma_refill_takes_lines(st.advance(k - 1));
        lemma_behind_lines_twice(
            st.unread,
            st.advance(k - 1).unread,
            st.advance(k).unread,
        );
    }
}

} // verus!
