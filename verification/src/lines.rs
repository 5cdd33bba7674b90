//! Lines of a byte stream, and the tokens that the stream yields line by line.

use crate::tokens::tokens_of;
use vstd::prelude::*;
use vstd::utf8::{decode_utf8, valid_utf8};

verus! {

/// The byte that ends a line.
pub const LINE_FEED: u8 = 0x0a;

/// Number of bytes in the first line of `bytes`: everything up to and
/// including the first line feed, or all of `bytes` where there is none.
pub open spec fn line_len(bytes: Seq<u8>) -> nat
    decreases bytes.len(),
{
    if bytes.len() == 0 {
        0
    } else if bytes[0] == LINE_FEED {
        1
    } else {
        1 + line_len(bytes.drop_first())
    }
}

/// The tokens that reading `bytes` line by line yields, in order. Each line
/// is decoded as UTF-8 on its own and split at whitespace; the first line
/// that does not decode ends the sequence.
pub open spec fn stream_tokens(bytes: Seq<u8>) -> Seq<Seq<char>>
    decreases bytes.len(),
    via stream_tokens_terminates
{
    if bytes.len() == 0 {
        Seq::empty()
    } else {
        let n = line_len(bytes) as int;
        if valid_utf8(bytes.take(n)) {
            tokens_of(decode_utf8(bytes.take(n))) + stream_tokens(bytes.skip(n))
        } else {
            Seq::empty()
        }
    }
}

#[via_fn]
proof fn stream_tokens_terminates(bytes: Seq<u8>) {
    lemma_line_len(bytes);
}

/// Whether reading `bytes` line by line comes upon a line that is not valid
/// UTF-8, rather than reaching the end.
pub open spec fn stream_broken(bytes: Seq<u8>) -> bool
    decreases bytes.len(),
    via stream_broken_terminates
{
    bytes.len() > 0 && {
        let n = line_len(bytes) as int;
        !valid_utf8(bytes.take(n)) || stream_broken(bytes.skip(n))
    }
}

#[via_fn]
proof fn stream_broken_terminates(bytes: Seq<u8>) {
    lemma_line_len(bytes);
}

/// The first line is not empty unless the input is, holds no line feed
/// before its last byte, and stops short of the end only behind a line feed.
pub proof fn lemma_line_len(bytes: Seq<u8>)
    ensures
        line_len(bytes) <= bytes.len(),
        bytes.len() > 0 ==> line_len(bytes) >= 1,
        forall|i: int| 0 <= i < line_len(bytes) - 1 ==> #[trigger] bytes[i] != LINE_FEED,
        line_len(bytes) < bytes.len() ==> bytes[line_len(bytes) - 1] == LINE_FEED,
    decreases bytes.len(),
{
    if bytes.len() > 0 && bytes[0] != LINE_FEED {
        let t = bytes.drop_first();
        lemma_line_len(t);
        assert forall|i: int| 0 <= i < line_len(bytes) - 1 implies #[trigger] bytes[i]
            != LINE_FEED by {
            if i > 0 {
                assert(bytes[i] == t[i - 1]);
            }
        }
    }
}

/// A prefix that holds no line feed before its last byte, and that ends at
/// the end of the input or with a line feed, is the first line.
pub proof fn lemma_line_len_is(bytes: Seq<u8>, n: int)
    requires
        0 <= n <= bytes.len(),
        bytes.len() > 0 ==> n >= 1,
        forall|i: int| 0 <= i < n - 1 ==> #[trigger] bytes[i] != LINE_FEED,
        n < bytes.len() ==> bytes[n - 1] == LINE_FEED,
    ensures
        line_len(bytes) == n,
    decreases bytes.len(),
{
    if bytes.len() > 0 && bytes[0] != LINE_FEED {
        lemma_line_len_is(bytes.drop_first(), n - 1);
    }
}

/// Finds where the first line of `bytes` ends.
pub fn line_length(bytes: &[u8]) -> (n: usize)
    ensures
        n == line_len(bytes@),
{
    let mut i: usize = 0;
    while i < bytes.len()
        invariant
            i <= bytes.len(),
            forall|j: int| 0 <= j < i ==> #[trigger] bytes@[j] != LINE_FEED,
        decreases bytes.len() - i,
    {
        if bytes[i] == LINE_FEED {
            proof {
                lemma_line_len_is(bytes@, i + 1);
            }
            return i + 1;
        }
        i += 1;
    }
    proof {
        lemma_line_len_is(bytes@, i as int);
    }
    i
}

} // verus!
