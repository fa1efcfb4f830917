//! The executable rail fence transform.

use vstd::prelude::*;
use vstd::string::StrSliceExecFns;

use crate::model::cipher_index;
use crate::model::lemma_cipher_index_in_range;
use crate::model::lemma_encode_len;
use crate::model::lemma_rail_of_bound;
use crate::model::placed_before;
use crate::model::rail_chars_upto;
use crate::model::rail_count_upto;
use crate::model::rail_of;
use crate::model::rail_start;
use crate::model::rails_concat;
use crate::model::spec_decode;
use crate::model::spec_encode;

verus! {

/// Relies on String::push: it appends the given character to the end
/// of the string.
pub assume_specification[ String::push ](s: &mut String, ch: char)
    ensures
        final(s)@ == old(s)@.push(ch),
;

/// The characters of `text`, in order, as a vector.
fn collect_chars(text: &str) -> (chars: Vec<char>)
    ensures
        chars@ == text@,
{
    let n = text.unicode_len();
    let mut chars: Vec<char> = Vec::new();
    let mut i: usize = 0;
    while i < n
        invariant
            n == text@.len(),
            i <= n,
            chars@ == text@.subrange(0, i as int),
        decreases n - i,
    {
        chars.push(text.get_char(i));
        proof {
            assert(chars@ =~= text@.subrange(0, i + 1 as int));
        }
        i += 1;
    }
    proof {
        assert(text@.subrange(0, n as int) =~= text@);
    }
    chars
}

/// The characters of `chars`, in order, as a string.
fn chars_to_string(chars: &Vec<char>) -> (s: String)
    ensures
        s@ == chars@,
{
    let mut s = String::new();
    let mut i: usize = 0;
    while i < chars.len()
        invariant
            i <= chars@.len(),
            s@ == chars@.subrange(0, i as int),
        decreases chars@.len() - i,
    {
        s.push(chars[i]);
        proof {
            assert(s@ =~= chars@.subrange(0, i + 1 as int));
        }
        i += 1;
    }
    proof {
        assert(chars@.subrange(0, chars@.len() as int) =~= chars@);
    }
    s
}

/// Rail fence cipher configuration: the number of rails the zig-zag
/// pattern bounces between.
pub struct RailFence {
    /// The number of rails; at least one.
    rails: u32,
}

impl RailFence {
    /// The number of rails of this fence.
    pub closed spec fn rail_count(&self) -> int {
        self.rails as int
    }

    /// A fence is well formed when it has at least one rail.
    pub open spec fn well_formed(&self) -> bool {
        self.rail_count() >= 1
    }

    /// Create a new fence with the specified number of rails.
    ///
    /// A fence needs at least one rail: the zig-zag pattern is not
    /// defined without one.
    pub fn new(rails: u32) -> (fence: RailFence)
        requires
            rails >= 1,
        ensures
            fence.well_formed(),
            fence.rail_count() == rails as int,
    {
        RailFence { rails }
    }

    /// Encode a message by scattering it across the rails and reading
    /// the rails out in order.
    ///
    /// The result is the rail fence encoding of `text`: rail `0`
    /// first, then rail `1`, and so on, each rail's characters in the
    /// order they appear in `text`.
    pub fn encode(&self, text: &str) -> (cipher: String)
        requires
            self.well_formed(),
        ensures
            cipher@ == spec_encode(text@, self.rail_count()),
            cipher@.len() == text@.len(),
    {
        let rails = self.rails;
        let chars = collect_chars(text);
        let n = chars.len();
        let mut out: Vec<char> = Vec::new();
        let mut k: u32 = 0;
        while k < rails
            invariant
                rails as int == self.rail_count(),
                rails >= 1,
                chars@ == text@,
                n == chars@.len(),
                k <= rails,
                out@ == rails_concat(text@, rails as int, k as int),
            decreases rails - k,
        {
            let mut i: usize = 0;
            while i < n
                invariant
                    rails as int == self.rail_count(),
                    rails >= 1,
                    k < rails,
                    chars@ == text@,
                    n == chars@.len(),
                    i <= n,
                    out@ == rails_concat(text@, rails as int, k as int) + rail_chars_upto(
                        text@,
                        rails as int,
                        k as int,
                        i as int,
                    ),
                decreases n - i,
            {
                if rail_index(i, rails) == k {
                    out.push(chars[i]);
                }
                proof {
                    assert(out@ =~= rails_concat(text@, rails as int, k as int)
                        + rail_chars_upto(text@, rails as int, k as int, i + 1 as int));
                }
                i += 1;
            }
            k += 1;
        }
        proof {
            lemma_encode_len(text@, rails as int);
        }
        chars_to_string(&out)
    }

    /// Decode a cipher text by arranging it on the rails and walking
    /// the zig-zag pattern.
    ///
    /// Every position of the result is read from its [`cipher_index`]
    /// in the cipher text, so decoding a message encoded with the same
    /// fence gives the message back.
    pub fn decode(&self, cipher: &str) -> (text: String)
        requires
            self.well_formed(),
        ensures
            text@ == spec_decode(cipher@, self.rail_count()),
            text@.len() == cipher@.len(),
    {
        let rails = self.rails;
        let chars = collect_chars(cipher);
        let n = chars.len();
        // Starts as a copy of the cipher text only to have the right
        // length; every position is overwritten before it is read.
        let mut out = collect_chars(cipher);
        let mut pos: usize = 0;
        let mut k: u32 = 0;
        while k < rails
            invariant
                rails as int == self.rail_count(),
                rails >= 1,
                chars@ == cipher@,
                n == chars@.len(),
                out@.len() == n,
                k <= rails,
                pos as int == rail_start(rails as int, n as int, k as int),
                forall|j: int|
                    0 <= j < n && placed_before(rails as int, k as int, 0, j) ==> out@[j]
                        == cipher@[cipher_index(rails as int, n as int, j)],
            decreases rails - k,
        {
            let mut i: usize = 0;
            while i < n
                invariant
                    rails as int == self.rail_count(),
                    rails >= 1,
                    k < rails,
                    chars@ == cipher@,
                    n == chars@.len(),
                    out@.len() == n,
                    i <= n,
                    pos as int == rail_start(rails as int, n as int, k as int) + rail_count_upto(
                        rails as int,
                        k as int,
                        i as int,
                    ),
                    forall|j: int|
                        0 <= j < n && placed_before(rails as int, k as int, i as int, j) ==> out@[j]
                            == cipher@[cipher_index(rails as int, n as int, j)],
                decreases n - i,
            {
                if rail_index(i, rails) == k {
                    proof {
                        lemma_cipher_index_in_range(rails as int, n as int, i as int);
                    }
                    out[i] = chars[pos];
                    pos += 1;
                }
                i += 1;
            }
            k += 1;
        }
        proof {
            assert forall|j: int| 0 <= j < n implies out@[j] == spec_decode(
                cipher@,
                rails as int,
            )[j] by {
                lemma_rail_of_bound(j, rails as int);
                assert(placed_before(rails as int, rails as int, 0, j));
            }
            assert(out@ =~= spec_decode(cipher@, rails as int));
        }
        chars_to_string(&out)
    }
}

/// The rail on which position `i` of the text lies, computed from the
/// phase of `i` within the zig-zag period.
fn rail_index(i: usize, rails: u32) -> (k: u32)
    requires
        rails >= 1,
    ensures
        k as int == rail_of(i as int, rails as int),
        k < rails,
{
    if rails == 1 {
        0
    } else {
        let period: u64 = 2 * (rails as u64 - 1);
        let phase: u64 = (i as u64) % period;
        if phase < rails as u64 {
            phase as u32
        } else {
            (period - phase) as u32
        }
    }
}

} // verus!
