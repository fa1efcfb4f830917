//! Mathematical model of the rail fence cipher.
//!
//! The zig-zag traversal visits the rails in the order
//! `0, 1, ..., rails - 1, rails - 2, ..., 1, 0, 1, ...`, a pattern with
//! period `2 * (rails - 1)` (with a single rail every position stays on
//! rail `0`).  [`rail_of`] gives the rail of each position of the text.
//!
//! Encoding concatenates, rail by rail, the characters whose position
//! lies on that rail ([`spec_encode`]).  The character at position `i`
//! of the plain text therefore lands at position [`cipher_index`] of the
//! cipher text: the start offset of its rail plus the number of earlier
//! positions on the same rail.  Decoding reads each position straight
//! back from there ([`spec_decode`]).

use vstd::prelude::*;

use vstd::arithmetic::div_mod::lemma_fundamental_div_mod;
use vstd::arithmetic::div_mod::lemma_fundamental_div_mod_converse;

verus! {

/// The rail on which position `i` of the text lies.
///
/// Within one period the rail first climbs from `0` to `rails - 1` and
/// then falls back towards `0`; the falling half of the period mirrors
/// the climbing half.
pub open spec fn rail_of(i: int, rails: int) -> int {
    if rails <= 1 {
        0
    } else {
        let period = 2 * (rails - 1);
        let phase = i % period;
        if phase < rails {
            phase
        } else {
            period - phase
        }
    }
}

/// How many of the positions `0 .. n` lie on rail `k`.
pub open spec fn rail_count_upto(rails: int, k: int, n: int) -> int
    decreases n,
{
    if n <= 0 {
        0
    } else {
        rail_count_upto(rails, k, n - 1) + if rail_of(n - 1, rails) == k {
            1int
        } else {
            0int
        }
    }
}

/// The start offset of rail `k` in the cipher text of a text of length
/// `len`: the total number of positions on the rails below `k`.
pub open spec fn rail_start(rails: int, len: int, k: int) -> int
    decreases k,
{
    if k <= 0 {
        0
    } else {
        rail_start(rails, len, k - 1) + rail_count_upto(rails, k - 1, len)
    }
}

/// The position in the cipher text at which position `i` of a plain
/// text of length `len` is read out.
pub open spec fn cipher_index(rails: int, len: int, i: int) -> int {
    rail_start(rails, len, rail_of(i, rails)) + rail_count_upto(rails, rail_of(i, rails), i)
}

/// The characters of `s` at the positions `0 .. n` that lie on rail
/// `k`, in order of position.
pub open spec fn rail_chars_upto(s: Seq<char>, rails: int, k: int, n: int) -> Seq<char>
    decreases n,
{
    if n <= 0 {
        Seq::empty()
    } else {
        rail_chars_upto(s, rails, k, n - 1) + if rail_of(n - 1, rails) == k {
            seq![s[n - 1]]
        } else {
            Seq::empty()
        }
    }
}

/// The concatenation of the rails `0 .. k` of `s`, each rail's
/// characters in order of position.
pub open spec fn rails_concat(s: Seq<char>, rails: int, k: int) -> Seq<char>
    decreases k,
{
    if k <= 0 {
        Seq::empty()
    } else {
        rails_concat(s, rails, k - 1) + rail_chars_upto(s, rails, k - 1, s.len() as int)
    }
}

/// The rail fence encoding of `s` on `rails` rails: all of rail `0`,
/// then all of rail `1`, and so on.
pub open spec fn spec_encode(s: Seq<char>, rails: int) -> Seq<char> {
    rails_concat(s, rails, rails)
}

/// The rail fence decoding of `c` on `rails` rails: position `i` of the
/// plain text is read from position [`cipher_index`] of the cipher
/// text.
pub open spec fn spec_decode(c: Seq<char>, rails: int) -> Seq<char> {
    Seq::new(c.len(), |i: int| c[cipher_index(rails, c.len() as int, i)])
}

/// Whether position `j` has already been visited by a rail-by-rail
/// walk that has finished the rails below `k` and, on rail `k`, the
/// positions below `i`.
pub open spec fn placed_before(rails: int, k: int, i: int, j: int) -> bool {
    rail_of(j, rails) < k || (rail_of(j, rails) == k && j < i)
}

/// Every position lies on a rail below `rails`.
pub proof fn lemma_rail_of_bound(i: int, rails: int)
    requires
        rails >= 1,
        i >= 0,
    ensures
        0 <= rail_of(i, rails) < rails,
{
    if rails > 1 {
        let period = 2 * (rails - 1);
        assert(0 <= i % period < period);
    }
}

/// No rail holds a negative number of positions.
proof fn lemma_count_nonneg(rails: int, k: int, n: int)
    ensures
        rail_count_upto(rails, k, n) >= 0,
    decreases n,
{
    if n > 0 {
        lemma_count_nonneg(rails, k, n - 1);
    }
}

/// A longer prefix of positions holds at least as many on each rail.
proof fn lemma_count_mono(rails: int, k: int, m: int, n: int)
    requires
        m <= n,
    ensures
        rail_count_upto(rails, k, m) <= rail_count_upto(rails, k, n),
    decreases n,
{
    if m < n && n > 0 {
        lemma_count_mono(rails, k, m, n - 1);
    }
}

/// For an empty text every rail starts at offset `0`.
proof fn lemma_start_empty(rails: int, k: int)
    ensures
        rail_start(rails, 0, k) == 0,
    decreases k,
{
    if k > 0 {
        lemma_start_empty(rails, k - 1);
    }
}

/// Rail start offsets grow with the rail index.
proof fn lemma_start_mono(rails: int, len: int, j: int, k: int)
    requires
        j <= k,
    ensures
        rail_start(rails, len, j) <= rail_start(rails, len, k),
    decreases k,
{
    if j < k && k > 0 {
        lemma_start_mono(rails, len, j, k - 1);
        lemma_count_nonneg(rails, k - 1, len);
    }
}

/// Lengthening the text by one position raises by one the start offset
/// of exactly the rails above that position's rail.
proof fn lemma_start_extend(rails: int, n: int, k: int)
    requires
        n >= 0,
    ensures
        rail_start(rails, n + 1, k) == rail_start(rails, n, k) + if rail_of(n, rails) < k {
            1int
        } else {
            0int
        },
    decreases k,
{
    if k > 0 {
        lemma_start_extend(rails, n, k - 1);
    }
}

/// The rails of a text of length `n` hold `n` positions in all.
proof fn lemma_start_total(rails: int, n: int)
    requires
        rails >= 1,
        n >= 0,
    ensures
        rail_start(rails, n, rails) == n,
    decreases n,
{
    if n == 0 {
        lemma_start_empty(rails, rails);
    } else {
        lemma_start_total(rails, n - 1);
        lemma_start_extend(rails, n - 1, rails);
        lemma_rail_of_bound(n - 1, rails);
    }
}

/// Each position's cipher index lies within the text.
pub proof fn lemma_cipher_index_in_range(rails: int, n: int, i: int)
    requires
        rails >= 1,
        0 <= i < n,
    ensures
        0 <= cipher_index(rails, n, i) < n,
{
    let k = rail_of(i, rails);
    lemma_rail_of_bound(i, rails);
    lemma_count_nonneg(rails, k, i);
    lemma_count_mono(rails, k, i + 1, n);
    assert(rail_count_upto(rails, k, i + 1) == rail_count_upto(rails, k, i) + 1);
    assert(rail_start(rails, n, k + 1) == rail_start(rails, n, k) + rail_count_upto(rails, k, n));
    lemma_start_mono(rails, n, k + 1, rails);
    lemma_start_total(rails, n);
    lemma_start_mono(rails, n, 0, k);
}

/// A rail's character sequence is exactly as long as the count of
/// positions on that rail.
proof fn lemma_rail_chars_len(s: Seq<char>, rails: int, k: int, n: int)
    requires
        n <= s.len(),
    ensures
        rail_chars_upto(s, rails, k, n).len() == rail_count_upto(rails, k, n),
    decreases n,
{
    if n > 0 {
        lemma_rail_chars_len(s, rails, k, n - 1);
        lemma_count_nonneg(rails, k, n - 1);
    }
}

/// The concatenation of the rails `0 .. k` is exactly as long as the
/// start offset of rail `k`.
proof fn lemma_rails_concat_len(s: Seq<char>, rails: int, k: int)
    ensures
        rails_concat(s, rails, k).len() == rail_start(rails, s.len() as int, k),
    decreases k,
{
    if k > 0 {
        lemma_rails_concat_len(s, rails, k - 1);
        lemma_rail_chars_len(s, rails, k - 1, s.len() as int);
        lemma_count_nonneg(rails, k - 1, s.len() as int);
        lemma_start_mono(rails, s.len() as int, 0, k - 1);
    }
}

/// The encoding of a text is exactly as long as the text.
pub proof fn lemma_encode_len(s: Seq<char>, rails: int)
    requires
        rails >= 1,
    ensures
        spec_encode(s, rails).len() == s.len(),
{
    lemma_rails_concat_len(s, rails, rails);
    lemma_start_total(rails, s.len() as int);
}

/// Within the concatenation of the rails `0 .. hi`, rail `k` occupies
/// the positions from its start offset on.
proof fn lemma_rails_concat_index(s: Seq<char>, rails: int, hi: int, k: int, m: int)
    requires
        0 <= k < hi,
        0 <= m < rail_count_upto(rails, k, s.len() as int),
    ensures
        0 <= rail_start(rails, s.len() as int, k) + m < rails_concat(s, rails, hi).len(),
        rails_concat(s, rails, hi)[rail_start(rails, s.len() as int, k) + m] == rail_chars_upto(
            s,
            rails,
            k,
            s.len() as int,
        )[m],
    decreases hi,
{
    let len = s.len() as int;
    lemma_rails_concat_len(s, rails, hi);
    lemma_rails_concat_len(s, rails, hi - 1);
    lemma_rail_chars_len(s, rails, hi - 1, len);
    lemma_start_mono(rails, len, 0, k);
    if k == hi - 1 {
        assert(rails_concat(s, rails, hi) == rails_concat(s, rails, hi - 1) + rail_chars_upto(
            s,
            rails,
            k,
            len,
        ));
    } else {
        lemma_rails_concat_index(s, rails, hi - 1, k, m);
    }
}

/// Position `i` of the text stands at offset `rail_count_upto(.., i)`
/// within its rail's character sequence.
proof fn lemma_rail_chars_index(s: Seq<char>, rails: int, k: int, i: int, n: int)
    requires
        0 <= i < n <= s.len(),
        rail_of(i, rails) == k,
    ensures
        0 <= rail_count_upto(rails, k, i) < rail_chars_upto(s, rails, k, n).len(),
        rail_chars_upto(s, rails, k, n)[rail_count_upto(rails, k, i)] == s[i],
    decreases n,
{
    lemma_rail_chars_len(s, rails, k, n);
    lemma_count_nonneg(rails, k, i);
    lemma_count_mono(rails, k, i + 1, n);
    if i == n - 1 {
        lemma_rail_chars_len(s, rails, k, n - 1);
    } else {
        lemma_rail_chars_index(s, rails, k, i, n - 1);
        lemma_rail_chars_len(s, rails, k, n - 1);
    }
}

/// The character at position `i` of the text stands at position
/// [`cipher_index`] of the encoding.
pub proof fn lemma_encode_char(s: Seq<char>, rails: int, i: int)
    requires
        rails >= 1,
        0 <= i < s.len(),
    ensures
        0 <= cipher_index(rails, s.len() as int, i) < s.len(),
        spec_encode(s, rails)[cipher_index(rails, s.len() as int, i)] == s[i],
{
    let len = s.len() as int;
    let k = rail_of(i, rails);
    lemma_rail_of_bound(i, rails);
    lemma_cipher_index_in_range(rails, len, i);
    lemma_rail_chars_index(s, rails, k, i, len);
    lemma_rail_chars_len(s, rails, k, len);
    lemma_rails_concat_index(s, rails, rails, k, rail_count_upto(rails, k, i));
}

/// With a single rail, the one rail carries the whole text in order.
proof fn lemma_rail_chars_single(s: Seq<char>, n: int)
    requires
        0 <= n <= s.len(),
    ensures
        rail_chars_upto(s, 1, 0, n) == s.subrange(0, n),
    decreases n,
{
    if n == 0 {
        assert(rail_chars_upto(s, 1, 0, 0) =~= s.subrange(0, 0));
    } else {
        lemma_rail_chars_single(s, n - 1);
        assert(rail_chars_upto(s, 1, 0, n) =~= s.subrange(0, n));
    }
}

/// With a single rail, the count of earlier positions on the rail is
/// the position itself.
proof fn lemma_count_single(i: int)
    requires
        i >= 0,
    ensures
        rail_count_upto(1, 0, i) == i,
    decreases i,
{
    if i > 0 {
        lemma_count_single(i - 1);
    }
}

/// On a single rail both directions are the identity: the zig-zag never
/// leaves rail `0`, so the text is read out unchanged.
pub proof fn lemma_single_rail_identity(s: Seq<char>)
    ensures
        spec_encode(s, 1) == s,
        spec_decode(s, 1) == s,
{
    let len = s.len() as int;
    lemma_rail_chars_single(s, len);
    assert(rails_concat(s, 1, 0) == Seq::<char>::empty());
    assert(spec_encode(s, 1) == rails_concat(s, 1, 0) + rail_chars_upto(s, 1, 0, len));
    assert(spec_encode(s, 1) =~= s);
    assert forall|i: int| 0 <= i < len implies spec_decode(s, 1)[i] == s[i] by {
        lemma_count_single(i);
    }
    assert(spec_decode(s, 1) =~= s);
}

/// The empty text encodes and decodes to the empty text, whatever the
/// rail count.
pub proof fn lemma_empty_text(rails: int)
    requires
        rails >= 1,
    ensures
        spec_encode(Seq::<char>::empty(), rails) == Seq::<char>::empty(),
        spec_decode(Seq::<char>::empty(), rails) == Seq::<char>::empty(),
{
    lemma_encode_len(Seq::<char>::empty(), rails);
    assert(spec_encode(Seq::<char>::empty(), rails) =~= Seq::<char>::empty());
    assert(spec_decode(Seq::<char>::empty(), rails) =~= Seq::<char>::empty());
}

/// Decoding undoes encoding: for every rail count and every text,
/// decoding the encoding of the text gives the text back.
pub proof fn lemma_round_trip(s: Seq<char>, rails: int)
    requires
        rails >= 1,
    ensures
        spec_decode(spec_encode(s, rails), rails) == s,
{
    let c = spec_encode(s, rails);
    lemma_encode_len(s, rails);
    assert forall|i: int| 0 <= i < s.len() implies spec_decode(c, rails)[i] == s[i] by {
        lemma_encode_char(s, rails, i);
    }
    assert(spec_decode(c, rails) =~= s);
}

/// How often the zig-zag visits rail `k` during one full period: once
/// for the two boundary rails, twice for the interior rails.
pub open spec fn rail_visits(rails: int, k: int) -> int {
    if k == 0 || k == rails - 1 {
        1
    } else {
        2
    }
}

/// How often the zig-zag visits rail `k` during a final partial period
/// of `rem` positions: once on the way down if the period reaches phase
/// `k`, and once more on the way up if it also reaches phase
/// `period - k` of an interior rail.
pub open spec fn rail_extra(rails: int, k: int, rem: int) -> int {
    (if k < rem {
        1int
    } else {
        0int
    }) + (if 0 < k && k < rails - 1 && 2 * (rails - 1) - k < rem {
        1int
    } else {
        0int
    })
}

/// The count of positions on each rail, in closed form: each of the
/// `n / period` full periods visits the rail [`rail_visits`] times, and
/// the final partial period adds [`rail_extra`] visits.
pub proof fn lemma_count_closed_form(rails: int, k: int, n: int)
    requires
        rails >= 2,
        0 <= k < rails,
        n >= 0,
    ensures
        rail_count_upto(rails, k, n) == (n / (2 * (rails - 1))) * rail_visits(rails, k)
            + rail_extra(rails, k, n % (2 * (rails - 1))),
    decreases n,
{
    let p = 2 * (rails - 1);
    if n == 0 {
        lemma_fundamental_div_mod_converse(0, p, 0, 0);
    } else {
        lemma_count_closed_form(rails, k, n - 1);
        let q = (n - 1) / p;
        let r = (n - 1) % p;
        lemma_fundamental_div_mod(n - 1, p);
        assert(0 <= r < p);
        assert(q >= 0) by (nonlinear_arith)
            requires
                n - 1 == q * p + r,
                0 <= r < p,
                p >= 2,
                n >= 1,
        ;
        assert(rail_count_upto(rails, k, n) == rail_count_upto(rails, k, n - 1) + (if rail_of(
            n - 1,
            rails,
        ) == k {
            1int
        } else {
            0int
        }));
        if r + 1 < p {
            lemma_fundamental_div_mod_converse(n, p, q, r + 1);
            assert(n / p == q && n % p == r + 1);
            assert(rail_extra(rails, k, r + 1) == rail_extra(rails, k, r) + (if rail_of(
                n - 1,
                rails,
            ) == k {
                1int
            } else {
                0int
            }));
        } else {
            assert(n == (q + 1) * p + 0) by (nonlinear_arith)
                requires
                    n - 1 == q * p + r,
                    r == p - 1,
            ;
            lemma_fundamental_div_mod_converse(n, p, q + 1, 0);
            assert(n / p == q + 1 && n % p == 0);
            assert((q + 1) * rail_visits(rails, k) == q * rail_visits(rails, k) + rail_visits(
                rails,
                k,
            )) by (nonlinear_arith);
            assert(rail_visits(rails, k) == rail_extra(rails, k, r) + (if rail_of(n - 1, rails)
                == k {
                1int
            } else {
                0int
            }));
        }
    }
}

/// The start offsets of the rails within the cipher text, in the
/// closed form that a decoder can compute directly: rail `1` starts
/// after the `section + 1` or `section` characters of rail `0`, and
/// each further rail starts `2 * section` characters after the one
/// before it, plus one for each visit the final partial period pays to
/// the rail before it.
pub proof fn lemma_start_closed_form(rails: int, n: int, i: int)
    requires
        rails >= 2,
        n >= 0,
    ensures
        rail_start(rails, n, 0) == 0,
        rail_start(rails, n, 1) == n / (2 * (rails - 1)) + (if n % (2 * (rails - 1)) > 0 {
            1int
        } else {
            0int
        }),
        2 <= i < rails ==> rail_start(rails, n, i) == rail_start(rails, n, i - 1) + 2 * (n / (2
            * (rails - 1))) + (if n % (2 * (rails - 1)) > i - 1 {
            1int
        } else {
            0int
        }) + (if n % (2 * (rails - 1)) + i >= 2 * rails {
            1int
        } else {
            0int
        }),
{
    let p = 2 * (rails - 1);
    assert(0 <= n % p < p);
    lemma_count_closed_form(rails, 0, n);
    if 2 <= i < rails {
        lemma_count_closed_form(rails, i - 1, n);
    }
}

/// Encoding is injective: two texts with the same encoding are the
/// same text.
pub proof fn lemma_encode_injective(s1: Seq<char>, s2: Seq<char>, rails: int)
    requires
        rails >= 1,
        spec_encode(s1, rails) == spec_encode(s2, rails),
    ensures
        s1 == s2,
{
    lemma_round_trip(s1, rails);
    lemma_round_trip(s2, rails);
}

} // verus!
