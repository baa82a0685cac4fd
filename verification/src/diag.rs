//! Decoding of native diagnostic text.
//!
//! The native engine reports failures through C-style byte buffers: the
//! message ends at the first zero byte, and nothing guarantees that the
//! bytes are well-formed UTF-8.  The text is converted exactly once, at
//! the boundary, into an owned string: truncated at the first zero byte,
//! with invalid byte sequences replaced rather than rejected, so that a
//! malformed diagnostic can never turn into a panic.

use vstd::prelude::*;
use vstd::utf8::{decode_utf8, valid_utf8};

verus! {

/// The index of the first zero byte of `s`, or `s.len()` when `s` holds
/// no zero byte.
pub open spec fn first_nul(s: Seq<u8>) -> nat
    decreases s.len(),
{
    if s.len() == 0 {
        0
    } else if s[0] == 0u8 {
        0
    } else {
        1 + first_nul(s.skip(1))
    }
}

/// The prefix of `s` before its first zero byte: the bytes a C caller
/// would read out of a NUL-terminated buffer.
pub open spec fn prefix_to_nul(s: Seq<u8>) -> Seq<u8> {
    s.take(first_nul(s) as int)
}

/// What `first_nul` promises: it stays within bounds, every byte before
/// it is nonzero, and it points at a zero byte whenever one exists.
pub proof fn lemma_first_nul(s: Seq<u8>)
    ensures
        first_nul(s) <= s.len(),
        forall|i: int| 0 <= i < first_nul(s) ==> s[i] != 0u8,
        first_nul(s) < s.len() ==> s[first_nul(s) as int] == 0u8,
    decreases s.len(),
{
    if s.len() > 0 && s[0] != 0u8 {
        lemma_first_nul(s.skip(1));
        assert forall|i: int| 0 <= i < first_nul(s) implies s[i] != 0u8 by {
            if i > 0 {
                assert(s.skip(1)[i - 1] == s[i]);
            }
        }
        if first_nul(s) < s.len() {
            assert(s.skip(1)[first_nul(s) as int - 1] == s[first_nul(s) as int]);
        }
    }
}

/// A buffer whose bytes are all nonzero, once NUL-terminated, trims back
/// to exactly those bytes.
pub proof fn lemma_prefix_of_terminated(msg: Seq<u8>)
    requires
        forall|i: int| 0 <= i < msg.len() ==> msg[i] != 0u8,
    ensures
        prefix_to_nul(msg.push(0u8)) == msg,
    decreases msg.len(),
{
    let t = msg.push(0u8);
    lemma_first_nul(t);
    assert forall|i: int| 0 <= i < msg.len() implies t[i] != 0u8 by {}
    if first_nul(t) < msg.len() {
        assert(t[first_nul(t) as int] == 0u8);
        assert(false);
    }
    if first_nul(t) > msg.len() {
        assert(t[msg.len() as int] == 0u8);
        assert(false);
    }
    assert(prefix_to_nul(t) =~= msg);
}

/// The characters std's lossy UTF-8 conversion produces for a byte
/// sequence.  The result is a pure function of the bytes; it is named
/// rather than spelled out, and pinned to the exact decoding wherever the
/// bytes are valid UTF-8.
pub uninterp spec fn lossy_utf8(s: Seq<u8>) -> Seq<char>;

/// Relies on `String::from_utf8_lossy`: the conversion depends on the
/// bytes alone, and bytes that are valid UTF-8 decode unchanged (invalid
/// sequences are replaced, never rejected).
#[verifier::external_body]
fn utf8_lossy(bytes: &[u8]) -> (r: String)
    ensures
        r@ == lossy_utf8(bytes@),
        valid_utf8(bytes@) ==> r@ == decode_utf8(bytes@),
{
    String::from_utf8_lossy(bytes).into_owned()
}

/// Finds the first zero byte of `buf`, or `buf.len()` when there is none.
fn find_nul(buf: &[u8]) -> (n: usize)
    ensures
        n == first_nul(buf@),
{
    let len: usize = buf.len();
    let mut i: usize = 0;
    while i < len
        invariant
            0 <= i <= len,
            len == buf@.len(),
            forall|j: int| 0 <= j < i ==> buf@[j] != 0u8,
        decreases len - i,
    {
        if buf[i] == 0u8 {
            proof {
                lemma_first_nul(buf@);
                lemma_first_nul_at(buf@, i as int);
            }
            return i;
        }
        i = i + 1;
    }
    proof {
        lemma_first_nul(buf@);
        lemma_first_nul_at(buf@, len as int);
    }
    len
}

/// `first_nul` is pinned by its characterization: if every byte before
/// `k` is nonzero and `k` is past the end or a zero byte, then `k` is the
/// first zero position.
pub proof fn lemma_first_nul_at(s: Seq<u8>, k: int)
    requires
        0 <= k <= s.len(),
        forall|j: int| 0 <= j < k ==> s[j] != 0u8,
        k < s.len() ==> s[k] == 0u8,
    ensures
        first_nul(s) == k,
    decreases s.len(),
{
    if s.len() == 0 {
    } else if s[0] == 0u8 {
    } else {
        assert forall|j: int| 0 <= j < k - 1 implies s.skip(1)[j] != 0u8 by {
            assert(s.skip(1)[j] == s[j + 1]);
        }
        if k - 1 < s.skip(1).len() {
            assert(s.skip(1)[k - 1] == s[k]);
        }
        lemma_first_nul_at(s.skip(1), k - 1);
    }
}

/// Decodes a native diagnostic buffer into an owned string: the bytes up
/// to the first zero byte, converted with lossy UTF-8 replacement.  Never
/// panics, whatever the buffer holds.
pub fn decode_diagnostic(buf: &[u8]) -> (r: String)
    ensures
        r@ == lossy_utf8(prefix_to_nul(buf@)),
        valid_utf8(prefix_to_nul(buf@)) ==> r@ == decode_utf8(prefix_to_nul(buf@)),
{
    let n = find_nul(buf);
    proof {
        lemma_first_nul(buf@);
    }
    let msg = vstd::slice::slice_subrange(buf, 0, n);
    assert(msg@ == prefix_to_nul(buf@));
    utf8_lossy(msg)
}

} // verus!
