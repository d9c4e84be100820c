use vstd::prelude::*;
use vstd::arithmetic::power2::{pow2, lemma_pow2_unfold, lemma2_to64};
use crate::bits::{BitReader, bit_at, bits_value, spec_read_bits};
use crate::error::PngError;

verus! {

// ---------------------------------------------------------------------------------------------
// Canonical Huffman codes (RFC 1951, 3.2.2)
// ---------------------------------------------------------------------------------------------

/// The number formed by the `l` bits from `pos`, the first bit being the most significant one:
/// Huffman codes are packed starting with their most significant bit.
pub open spec fn code_bits(data: Seq<u8>, pos: int, l: nat) -> nat
    decreases l,
{
    if l == 0 {
        0
    } else {
        2 * code_bits(data, pos, (l - 1) as nat) + bit_at(data, pos + l - 1)
    }
}

/// The smallest code of length `l` when `count[k]` codes have length `k`.
pub open spec fn first_code(count: Seq<usize>, l: nat) -> int
    decreases l,
{
    if l <= 1 {
        0
    } else {
        2 * (first_code(count, (l - 1) as nat) + count[l - 1])
    }
}

/// How many codes are shorter than `l` (lengths from 1 on).
pub open spec fn first_index(count: Seq<usize>, l: nat) -> int
    decreases l,
{
    if l <= 1 {
        0
    } else {
        first_index(count, (l - 1) as nat) + count[l - 1]
    }
}

/// The `l` bits from `pos` form one of the codes of length `l`.
pub open spec fn code_fits(count: Seq<usize>, data: Seq<u8>, pos: int, l: nat) -> bool {
    let c = code_bits(data, pos, l);
    first_code(count, l) <= c < first_code(count, l) + count[l as int]
}

/// The length, at least `l`, of the first code found at `pos`; 16 when none of length up to 15
/// fits.
pub open spec fn code_length_from(count: Seq<usize>, data: Seq<u8>, pos: int, l: nat) -> nat
    decreases 16 - l,
{
    if l >= 16 {
        16
    } else if code_fits(count, data, pos, l) {
        l
    } else {
        code_length_from(count, data, pos, l + 1)
    }
}

/// Decoding one symbol at bit `pos` with the code that gives `count[k]` codes length `k`, the
/// codes of each length being assigned in order to `symbol[first_index(k)..]`.
/// The result is the symbol and the position after its code; `usize::MAX` when no code of
/// length up to 15 matches (15 bits are then consumed); `None` when the stream ends first.
pub open spec fn spec_decode(count: Seq<usize>, symbol: Seq<usize>, data: Seq<u8>, pos: int) -> Option<
    (usize, int),
> {
    let l = code_length_from(count, data, pos, 1);
    let used: int = if l == 16 {
        15
    } else {
        l as int
    };
    if pos < 0 || pos + used > 8 * data.len() {
        None
    } else if l == 16 {
        Some((usize::MAX, pos + 15))
    } else {
        Some(
            (
                symbol[first_index(count, l) + code_bits(data, pos, l) - first_code(count, l)],
                pos + l,
            ),
        )
    }
}

/// The counts of a code hold an entry for each length up to 15, and its symbol table has room
/// for all codes.
pub open spec fn huffman_wf(count: Seq<usize>, symbol: Seq<usize>) -> bool {
    &&& count.len() >= 16
    &&& first_index(count, 16) <= symbol.len()
}

// ---------------------------------------------------------------------------------------------
// Codes from code lengths
// ---------------------------------------------------------------------------------------------

/// How many of the first `n` code lengths equal `l`.
pub open spec fn count_len(lengths: Seq<usize>, n: nat, l: usize) -> nat
    decreases n,
{
    if n == 0 {
        0
    } else {
        count_len(lengths, (n - 1) as nat, l) + if lengths[n - 1] == l {
            1nat
        } else {
            0nat
        }
    }
}

/// The symbols below `n` whose code length is `l`, in increasing order.
pub open spec fn symbols_of_len(lengths: Seq<usize>, n: nat, l: usize) -> Seq<usize>
    decreases n,
{
    if n == 0 {
        seq![]
    } else {
        symbols_of_len(lengths, (n - 1) as nat, l) + if lengths[n - 1] == l {
            seq![(n - 1) as usize]
        } else {
            seq![]
        }
    }
}

/// The symbols below `n` whose code length lies in `1..l`, ordered by code length and then by
/// symbol: the order in which a canonical Huffman code hands out its codes.
pub open spec fn code_table(lengths: Seq<usize>, n: nat, l: nat) -> Seq<usize>
    decreases l,
{
    if l <= 1 {
        seq![]
    } else {
        code_table(lengths, n, (l - 1) as nat) + symbols_of_len(lengths, n, (l - 1) as usize)
    }
}

/// The symbol table of the code given by the first `n` code lengths.
pub open spec fn code_symbols(lengths: Seq<usize>, n: nat) -> Seq<usize> {
    code_table(lengths, n, 16)
}

/// The count of codes of each length 0 to 15 among the first `n` code lengths.
pub open spec fn code_counts(lengths: Seq<usize>, n: nat) -> Seq<usize> {
    Seq::new(16, |l: int| count_len(lengths, n, l as usize) as usize)
}

/// How many of the first `n` code lengths are not zero.
pub open spec fn nonzero_lengths(lengths: Seq<usize>, n: nat) -> nat
    decreases n,
{
    if n == 0 {
        0
    } else {
        nonzero_lengths(lengths, (n - 1) as nat) + if lengths[n - 1] != 0 {
            1nat
        } else {
            0nat
        }
    }
}

/// The lengths are valid code lengths (at most 15) for the first `n` symbols.
pub open spec fn lengths_ok(lengths: Seq<usize>, n: nat) -> bool {
    &&& n <= lengths.len()
    &&& forall|i: int| 0 <= i < n ==> lengths[i] <= 15
}

// ---------------------------------------------------------------------------------------------
// Lemmas
// ---------------------------------------------------------------------------------------------

pub proof fn lemma_code_bits_bound(data: Seq<u8>, pos: int, l: nat)
    ensures
        code_bits(data, pos, l) < pow2(l),
    decreases l,
{
    if l == 0 {
        lemma2_to64();
    } else {
        lemma_code_bits_bound(data, pos, (l - 1) as nat);
        lemma_pow2_unfold(l);
    }
}

pub proof fn lemma_first_index_mono(count: Seq<usize>, a: nat, b: nat)
    requires
        a <= b,
    ensures
        first_index(count, a) <= first_index(count, b),
    decreases b,
{
    if a < b {
        lemma_first_index_mono(count, a, (b - 1) as nat);
    }
}

pub proof fn lemma_first_code_nonneg(count: Seq<usize>, l: nat)
    ensures
        first_code(count, l) >= 0,
    decreases l,
{
    if l > 1 {
        lemma_first_code_nonneg(count, (l - 1) as nat);
    }
}

pub proof fn lemma_code_length_from_ge(count: Seq<usize>, data: Seq<u8>, pos: int, l: nat)
    ensures
        code_length_from(count, data, pos, l) >= l || l > 16,
        code_length_from(count, data, pos, l) <= 16,
        code_length_from(count, data, pos, l) >= 1 || l == 0,
        code_length_from(count, data, pos, l) < 16 ==> code_fits(
            count,
            data,
            pos,
            code_length_from(count, data, pos, l),
        ),
    decreases 16 - l,
{
    if l < 16 && !code_fits(count, data, pos, l) {
        lemma_code_length_from_ge(count, data, pos, l + 1);
    }
}

pub proof fn lemma_sol_len(lengths: Seq<usize>, n: nat, l: usize)
    ensures
        symbols_of_len(lengths, n, l).len() == count_len(lengths, n, l),
    decreases n,
{
    if n > 0 {
        lemma_sol_len(lengths, (n - 1) as nat, l);
    }
}

pub proof fn lemma_count_len_bound(lengths: Seq<usize>, n: nat, l: usize)
    ensures
        count_len(lengths, n, l) <= n,
    decreases n,
{
    if n > 0 {
        lemma_count_len_bound(lengths, (n - 1) as nat, l);
    }
}

pub proof fn lemma_count_len_mono(lengths: Seq<usize>, a: nat, b: nat, l: usize)
    requires
        a <= b,
    ensures
        count_len(lengths, a, l) <= count_len(lengths, b, l),
    decreases b,
{
    if a < b {
        lemma_count_len_mono(lengths, a, (b - 1) as nat, l);
    }
}

pub proof fn lemma_table_len(lengths: Seq<usize>, n: nat, l: nat)
    ensures
        code_table(lengths, n, l + 1).len() == code_table(lengths, n, l).len() + if l >= 1 {
            count_len(lengths, n, l as usize)
        } else {
            0
        },
{
    if l >= 1 {
        lemma_sol_len(lengths, n, l as usize);
    }
}

pub proof fn lemma_table_mono(lengths: Seq<usize>, n: nat, a: nat, b: nat)
    requires
        a <= b,
    ensures
        code_table(lengths, n, a).len() <= code_table(lengths, n, b).len(),
    decreases b,
{
    if a < b {
        lemma_table_mono(lengths, n, a, (b - 1) as nat);
        lemma_table_len(lengths, n, (b - 1) as nat);
    }
}

/// Symbols of length `l` among the first `a` are a prefix of those among the first `b`.
pub proof fn lemma_sol_prefix(lengths: Seq<usize>, a: nat, b: nat, l: usize, j: int)
    requires
        a <= b,
        0 <= j < symbols_of_len(lengths, a, l).len(),
    ensures
        j < symbols_of_len(lengths, b, l).len(),
        symbols_of_len(lengths, b, l)[j] == symbols_of_len(lengths, a, l)[j],
    decreases b,
{
    if a < b {
        lemma_sol_prefix(lengths, a, (b - 1) as nat, l, j);
    }
}

/// Symbol `s` of length `l` comes at the place among the symbols of length `l` given by the
/// number of such symbols before it.
pub proof fn lemma_sol_place(lengths: Seq<usize>, n: nat, s: nat)
    requires
        s < n,
        s < lengths.len(),
        n <= usize::MAX,
    ensures
        count_len(lengths, s, lengths[s as int]) < symbols_of_len(
            lengths,
            n,
            lengths[s as int],
        ).len(),
        symbols_of_len(lengths, n, lengths[s as int])[count_len(
            lengths,
            s,
            lengths[s as int],
        ) as int] == s,
{
    let l = lengths[s as int];
    lemma_sol_len(lengths, s, l);
    lemma_sol_len(lengths, s + 1, l);
    assert(((s + 1) - 1) as nat == s);
    assert(symbols_of_len(lengths, s + 1, l) == symbols_of_len(lengths, s, l) + seq![s as usize]);
    assert(symbols_of_len(lengths, s + 1, l)[count_len(lengths, s, l) as int] == s);
    lemma_sol_prefix(lengths, s + 1, n, l, count_len(lengths, s, l) as int);
}

/// Entry `|table(l)| + j` of the table is the `j`-th symbol of length `l`.
pub proof fn lemma_table_entry(lengths: Seq<usize>, n: nat, l: nat, m: nat, j: int)
    requires
        1 <= l < m,
        0 <= j < count_len(lengths, n, l as usize),
    ensures
        code_table(lengths, n, l).len() + j < code_table(lengths, n, m).len(),
        code_table(lengths, n, m)[code_table(lengths, n, l).len() + j] == symbols_of_len(
            lengths,
            n,
            l as usize,
        )[j],
    decreases m,
{
    lemma_sol_len(lengths, n, l as usize);
    if m == l + 1 {
    } else {
        lemma_table_entry(lengths, n, l, (m - 1) as nat, j);
    }
}

/// Every entry of the table below `|table(m)|` belongs to some length below `m`.
pub proof fn lemma_table_slot(lengths: Seq<usize>, n: nat, m: nat, k: int) -> (l: nat)
    requires
        0 <= k < code_table(lengths, n, m).len(),
    ensures
        1 <= l < m,
        code_table(lengths, n, l).len() <= k,
        k - code_table(lengths, n, l).len() < count_len(lengths, n, l as usize),
        code_table(lengths, n, m)[k] == symbols_of_len(lengths, n, l as usize)[k
            - code_table(lengths, n, l).len()],
    decreases m,
{
    let prev = code_table(lengths, n, (m - 1) as nat);
    lemma_sol_len(lengths, n, (m - 1) as usize);
    if k < prev.len() {
        let l = lemma_table_slot(lengths, n, (m - 1) as nat, k);
        l
    } else {
        (m - 1) as nat
    }
}

/// With the counts of a table, `first_index` is the length of the table.
pub proof fn lemma_first_index_table(count: Seq<usize>, lengths: Seq<usize>, n: nat, l: nat)
    requires
        l <= 16,
        count.len() >= 16,
        forall|k: int| 0 <= k < 16 ==> count[k] == count_len(lengths, n, k as usize),
    ensures
        first_index(count, l) == code_table(lengths, n, l).len(),
    decreases l,
{
    if l > 1 {
        lemma_first_index_table(count, lengths, n, (l - 1) as nat);
        lemma_table_len(lengths, n, (l - 1) as nat);
    }
}

pub proof fn lemma_table_len_step(lengths: Seq<usize>, n: nat, l: nat)
    requires
        n < lengths.len(),
        l <= 16,
    ensures
        code_table(lengths, n + 1, l).len() == code_table(lengths, n, l).len() + if 1
            <= lengths[n as int] < l {
            1nat
        } else {
            0nat
        },
    decreases l,
{
    if l > 1 {
        let k = (l - 1) as usize;
        lemma_table_len_step(lengths, n, (l - 1) as nat);
        lemma_sol_len(lengths, n, k);
        lemma_sol_len(lengths, n + 1, k);
        assert(((n + 1) - 1) as nat == n);
        assert(count_len(lengths, n + 1, k) == count_len(lengths, n, k) + if lengths[n as int]
            == k {
            1nat
        } else {
            0nat
        });
    }
}

pub proof fn lemma_table_len_empty(lengths: Seq<usize>, l: nat)
    ensures
        code_table(lengths, 0, l).len() == 0,
    decreases l,
{
    if l > 1 {
        lemma_table_len_empty(lengths, (l - 1) as nat);
    }
}

/// For valid lengths, the table holds one entry per nonzero length.
pub proof fn lemma_table_len_nonzero(lengths: Seq<usize>, n: nat)
    requires
        lengths_ok(lengths, n),
    ensures
        code_symbols(lengths, n).len() == nonzero_lengths(lengths, n),
        nonzero_lengths(lengths, n) <= n,
    decreases n,
{
    if n == 0 {
        lemma_table_len_empty(lengths, 16);
    } else {
        lemma_table_len_nonzero(lengths, (n - 1) as nat);
        lemma_table_len_step(lengths, (n - 1) as nat, 16);
    }
}

/// The code lengths of two sequences that agree on the first `n` entries give the same code.
pub proof fn lemma_lengths_agree(a: Seq<usize>, b: Seq<usize>, n: nat, l: usize)
    requires
        n <= a.len(),
        n <= b.len(),
        forall|i: int| 0 <= i < n ==> a[i] == b[i],
    ensures
        count_len(a, n, l) == count_len(b, n, l),
        symbols_of_len(a, n, l) == symbols_of_len(b, n, l),
        nonzero_lengths(a, n) == nonzero_lengths(b, n),
    decreases n,
{
    if n > 0 {
        lemma_lengths_agree(a, b, (n - 1) as nat, l);
    }
}

pub proof fn lemma_tables_agree(a: Seq<usize>, b: Seq<usize>, n: nat, l: nat)
    requires
        n <= a.len(),
        n <= b.len(),
        forall|i: int| 0 <= i < n ==> a[i] == b[i],
    ensures
        code_table(a, n, l) == code_table(b, n, l),
    decreases l,
{
    if l > 1 {
        lemma_tables_agree(a, b, n, (l - 1) as nat);
        lemma_lengths_agree(a, b, n, (l - 1) as usize);
    }
}

/// Lengths that agree on the first `n` entries give the same code.
pub proof fn lemma_code_agree(a: Seq<usize>, b: Seq<usize>, n: nat)
    requires
        n <= a.len(),
        n <= b.len(),
        forall|i: int| 0 <= i < n ==> a[i] == b[i],
    ensures
        code_counts(a, n) == code_counts(b, n),
        code_symbols(a, n) == code_symbols(b, n),
        nonzero_lengths(a, n) == nonzero_lengths(b, n),
{
    lemma_tables_agree(a, b, n, 16);
    lemma_lengths_agree(a, b, n, 0);
    assert forall|l: int| 0 <= l < 16 implies code_counts(a, n)[l] == code_counts(b, n)[l] by {
        lemma_lengths_agree(a, b, n, l as usize);
    }
    assert(code_counts(a, n) =~= code_counts(b, n));
}

/// Decoding only looks at the counts of lengths 1 to 15 and at the table entries that codes
/// reach.
pub proof fn lemma_decode_agree(
    c1: Seq<usize>,
    s1: Seq<usize>,
    c2: Seq<usize>,
    s2: Seq<usize>,
    data: Seq<u8>,
    pos: int,
)
    requires
        c1.len() >= 16,
        c2.len() >= 16,
        forall|l: int| 1 <= l < 16 ==> c1[l] == c2[l],
        forall|k: int| 0 <= k < first_index(c1, 16) ==> s1[k] == s2[k],
    ensures
        spec_decode(c1, s1, data, pos) == spec_decode(c2, s2, data, pos),
{
    lemma_counts_agree(c1, c2, data, pos, 1);
    let l = code_length_from(c1, data, pos, 1);
    lemma_code_length_from_ge(c1, data, pos, 1);
    if l < 16 {
        lemma_first_index_mono(c1, l + 1, 16);
        lemma_first_code_nonneg(c1, l);
        lemma_first_index_mono(c1, 0, l);
        let idx = first_index(c1, l) + code_bits(data, pos, l) - first_code(c1, l);
        assert(code_fits(c1, data, pos, l));
        assert(first_index(c1, l + 1) == first_index(c1, l) + c1[l as int]);
        assert(0 <= idx < first_index(c1, l + 1));
        assert(s1[idx] == s2[idx]);
        assert(first_index(c2, l) == first_index(c1, l));
        assert(first_code(c2, l) == first_code(c1, l));
    }
}

proof fn lemma_counts_agree(c1: Seq<usize>, c2: Seq<usize>, data: Seq<u8>, pos: int, l: nat)
    requires
        c1.len() >= 16,
        c2.len() >= 16,
        forall|k: int| 1 <= k < 16 ==> c1[k] == c2[k],
        1 <= l <= 16,
    ensures
        forall|k: nat|
            l <= k <= 16 ==> first_code(c1, k) == first_code(c2, k) && first_index(c1, k)
                == first_index(c2, k),
        first_code(c1, l) == first_code(c2, l),
        first_index(c1, l) == first_index(c2, l),
        code_length_from(c1, data, pos, l) == code_length_from(c2, data, pos, l),
    decreases 16 - l,
{
    lemma_first_agree(c1, c2, l);
    if l < 16 {
        lemma_counts_agree(c1, c2, data, pos, l + 1);
    }
}

proof fn lemma_first_agree(c1: Seq<usize>, c2: Seq<usize>, l: nat)
    requires
        c1.len() >= 16,
        c2.len() >= 16,
        forall|k: int| 1 <= k < 16 ==> c1[k] == c2[k],
        l <= 16,
    ensures
        first_code(c1, l) == first_code(c2, l),
        first_index(c1, l) == first_index(c2, l),
    decreases l,
{
    if l > 1 {
        lemma_first_agree(c1, c2, (l - 1) as nat);
    }
}

// ---------------------------------------------------------------------------------------------
// Decoding a canonical code
// ---------------------------------------------------------------------------------------------

/// The canonical code of symbol `s` under the first `n` code lengths: the first code of its
/// length plus the number of symbols of the same length before it.
pub open spec fn canonical_code(lengths: Seq<usize>, n: nat, s: nat) -> int {
    let l = lengths[s as int];
    first_code(code_counts(lengths, n), l as nat) + count_len(lengths, s, l)
}

/// The first `k` bits of a code are its leading digits: the `l`-bit value lies between them
/// shifted by `l - k` and the next number so shifted.
proof fn lemma_code_bits_prefix(data: Seq<u8>, pos: int, k: nat, l: nat)
    requires
        k <= l,
    ensures
        code_bits(data, pos, k) * pow2((l - k) as nat) <= code_bits(data, pos, l),
        code_bits(data, pos, l) < (code_bits(data, pos, k) + 1) * pow2((l - k) as nat),
    decreases l,
{
    if l == k {
        lemma2_to64();
        assert(pow2((l - k) as nat) == 1);
    } else {
        let lm = (l - 1) as nat;
        lemma_code_bits_prefix(data, pos, k, lm);
        crate::bits::lemma_bit_at_bound(data, pos + l - 1);
        lemma_pow2_unfold((l - k) as nat);
        assert(((l - k) - 1) as nat == (lm - k) as nat);
        let p = pow2((lm - k) as nat);
        let a = code_bits(data, pos, k);
        let c = code_bits(data, pos, lm);
        let b = bit_at(data, pos + l - 1);
        assert(pow2((l - k) as nat) == 2 * p);
        assert(code_bits(data, pos, l) == 2 * c + b);
        assert(a * (2 * p) <= 2 * c + b && 2 * c + b < (a + 1) * (2 * p)) by (nonlinear_arith)
            requires
                a * p <= c,
                c < (a + 1) * p,
                b <= 1,
        ;
    }
}

/// Canonical codes grow: the first code of length `l` is at least the end of the codes of a
/// shorter length `k`, shifted to length `l`.
proof fn lemma_first_code_grows(count: Seq<usize>, k: nat, l: nat)
    requires
        1 <= k < l,
    ensures
        first_code(count, l) >= pow2((l - k) as nat) * (first_code(count, k) + count[k as int]),
    decreases l,
{
    lemma_pow2_unfold((l - k) as nat);
    lemma2_to64();
    if l > k + 1 {
        let lm = (l - 1) as nat;
        lemma_first_code_grows(count, k, lm);
        lemma_first_code_nonneg(count, lm);
        assert(((l - k) - 1) as nat == (lm - k) as nat);
        let p = pow2((lm - k) as nat);
        let x = first_code(count, k) + count[k as int];
        lemma_first_code_nonneg(count, k);
        assert(first_code(count, l) == 2 * (first_code(count, lm) + count[lm as int]));
        assert(2 * (first_code(count, lm) + count[lm as int]) >= (2 * p) * x) by (nonlinear_arith)
            requires
                first_code(count, lm) >= p * x,
                count[lm as int] >= 0,
        ;
    }
}

/// A code of length `l` that is one of the codes of that length has no shorter prefix that is
/// one of the codes of its own length.
proof fn lemma_no_shorter_fit(count: Seq<usize>, data: Seq<u8>, pos: int, k: nat, l: nat)
    requires
        1 <= k < l,
        code_bits(data, pos, l) >= first_code(count, l),
    ensures
        !code_fits(count, data, pos, k),
{
    lemma_code_bits_prefix(data, pos, k, l);
    lemma_first_code_grows(count, k, l);
    let p = pow2((l - k) as nat);
    let a = code_bits(data, pos, k);
    let x = first_code(count, k) + count[k as int];
    if a < x {
        assert((a + 1) * p <= x * p) by (nonlinear_arith)
            requires
                a + 1 <= x,
                p >= 0,
        ;
        assert(x * p == p * x) by (nonlinear_arith);
    }
}

/// From any length `k` up to `l`, the search for the code's length stops at `l`.
proof fn lemma_length_found(count: Seq<usize>, data: Seq<u8>, pos: int, k: nat, l: nat)
    requires
        1 <= k <= l < 16,
        code_fits(count, data, pos, l),
    ensures
        code_length_from(count, data, pos, k) == l,
    decreases l - k,
{
    if k < l {
        lemma_no_shorter_fit(count, data, pos, k, l);
        lemma_length_found(count, data, pos, k + 1, l);
    }
}

/// Law: with the code built from the first `n` code lengths, reading the canonical code of a
/// symbol `s` that has a code decodes `s` and moves past exactly that code.
pub proof fn lemma_decode_canonical(lengths: Seq<usize>, n: nat, s: nat, data: Seq<u8>, pos: int)
    requires
        lengths_ok(lengths, n),
        n <= usize::MAX,
        s < n,
        lengths[s as int] > 0,
        0 <= pos,
        pos + lengths[s as int] <= 8 * data.len(),
        code_bits(data, pos, lengths[s as int] as nat) == canonical_code(lengths, n, s),
    ensures
        spec_decode(code_counts(lengths, n), code_symbols(lengths, n), data, pos) == Some(
            (s as usize, pos + lengths[s as int]),
        ),
{
    let l = lengths[s as int];
    let count = code_counts(lengths, n);
    let r = count_len(lengths, s, l);
    lemma_sol_place(lengths, n, s);
    lemma_sol_len(lengths, n, l);
    assert forall|k: int| 0 <= k < 16 implies count[k] == count_len(lengths, n, k as usize) by {
        lemma_count_len_bound(lengths, n, k as usize);
    }
    assert(count[l as int] == count_len(lengths, n, l));
    assert(code_fits(count, data, pos, l as nat));
    lemma_length_found(count, data, pos, 1, l as nat);
    lemma_first_index_table(count, lengths, n, l as nat);
    lemma_table_entry(lengths, n, l as nat, 16, r as int);
}

// ---------------------------------------------------------------------------------------------
// Executable code
// ---------------------------------------------------------------------------------------------

/// A canonical Huffman code: `count[l]` codes have length `l`, and `symbol` lists the symbols
/// in the order in which the codes are assigned.
pub struct Huffman<'a> {
    pub count: &'a mut [usize],
    pub symbol: &'a mut [usize],
}

impl<'a> Huffman<'a> {
    /// The count of codes of each length.
    pub open spec fn counts(&self) -> Seq<usize> {
        self.count@
    }

    /// The symbols in code order.
    pub open spec fn symbols(&self) -> Seq<usize> {
        self.symbol@
    }
}

/// Decodes one symbol, reading its code one bit at a time from the most significant end.
/// Gives `usize::MAX` when no code of length up to 15 matches.
pub fn try_decode(bit: &mut BitReader, huffman: &Huffman) -> (r: Result<usize, PngError>)
    requires
        old(bit).wf(),
        huffman_wf(huffman.counts(), huffman.symbols()),
    ensures
        final(bit).wf(),
        final(bit).bytes() == old(bit).bytes(),
        match spec_decode(huffman.counts(), huffman.symbols(), old(bit).bytes(), old(bit).position()) {
            Some((s, p)) => r == Ok::<usize, PngError>(s) && final(bit).position() == p,
            None => r == Err::<usize, PngError>(PngError::UnexpectedEnd),
        },
{
    let ghost data = bit.bytes();
    let ghost pos0 = bit.position();
    let ghost count = huffman.count@;
    let ghost symbol = huffman.symbol@;
    proof {
        bit.lemma_position_bounds();
        lemma_code_length_from_ge(count, data, pos0, 1);
    }
    let mut code: usize = 0;
    let mut first: usize = 0;
    let mut index: usize = 0;
    let mut len: usize = 1;
    let slen = huffman.symbol.len();
    while len <= 15
        invariant
            1 <= len <= 16,
            slen == symbol.len(),
            bit.wf(),
            bit.bytes() == data,
            data == old(bit).bytes(),
            pos0 == old(bit).position(),
            0 <= pos0,
            count == huffman.count@,
            symbol == huffman.symbol@,
            huffman_wf(count, symbol),
            bit.position() == pos0 + len - 1,
            code == 2 * code_bits(data, pos0, (len - 1) as nat),
            first == first_code(count, len as nat),
            index == first_index(count, len as nat),
            code >= first,
            code_length_from(count, data, pos0, 1) == code_length_from(
                count,
                data,
                pos0,
                len as nat,
            ),
        decreases 16 - len,
    {
        proof {
            lemma_code_length_from_ge(count, data, pos0, len as nat);
            lemma_code_bits_bound(data, pos0, (len - 1) as nat);
            lemma_code_bits_bound(data, pos0, len as nat);
            lemma_pow2_unfold(len as nat);
            lemma2_to64();
            vstd::arithmetic::power2::lemma_pow2_strictly_increases(len as nat, 16);
            lemma_first_index_mono(count, len as nat, (len + 1) as nat);
            lemma_first_index_mono(count, (len + 1) as nat, 16);
        }
        proof {
            bit.lemma_position_bounds();
            crate::bits::lemma_bit_at_bound(data, pos0 + len - 1);
            reveal_with_fuel(bits_value, 2);
        }
        let b = match bit.read_bits(1) {
            Some(b) => b,
            None => {
                return Err(PngError::UnexpectedEnd);
            },
        };
        proof {
            assert(b as nat == bit_at(data, pos0 + len - 1));
            assert(code_bits(data, pos0, len as nat) == code + b);
        }
        let bu = b as usize;
        assert(code | bu == code + bu) by (bit_vector)
            requires
                code % 2 == 0,
                bu <= 1,
        ;
        code = code | bu;
        let cnt = huffman.count[len];
        if code - first < cnt {
            proof {
                assert(code_fits(count, data, pos0, len as nat));
            }
            return Ok(huffman.symbol[index + (code - first)]);
        }
        proof {
            assert(!code_fits(count, data, pos0, len as nat));
        }
        index = index + cnt;
        first = first + cnt;
        assert(first << 1 == 2 * first) by (bit_vector)
            requires
                first < 0x10000,
        ;
        first = first << 1;
        assert(code << 1 == 2 * code) by (bit_vector)
            requires
                code < 0x10000,
        ;
        code = code << 1;
        len = len + 1;
    }
    proof {
        bit.lemma_position_bounds();
    }
    Ok(usize::MAX)
}

/// Builds the canonical Huffman code for symbols `0..n` with code lengths `data[..n]`
/// (length 0: the symbol has no code).
pub fn construct(huffman: &mut Huffman, data: &[usize], n: usize)
    requires
        old(huffman).count@.len() >= 16,
        lengths_ok(data@, n as nat),
        code_symbols(data@, n as nat).len() <= old(huffman).symbol@.len(),
    ensures
        final(huffman).count@.len() == old(huffman).count@.len(),
        final(huffman).symbol@.len() == old(huffman).symbol@.len(),
        forall|l: int|
            0 <= l < 16 ==> #[trigger] final(huffman).count@[l] == count_len(
                data@,
                n as nat,
                l as usize,
            ),
        forall|l: int|
            16 <= l < old(huffman).count@.len() ==> #[trigger] final(huffman).count@[l] == old(
                huffman,
            ).count@[l],
        forall|k: int|
            0 <= k < code_symbols(data@, n as nat).len() ==> #[trigger] final(huffman).symbol@[k]
                == code_symbols(data@, n as nat)[k],
        forall|k: int|
            code_symbols(data@, n as nat).len() <= k < old(huffman).symbol@.len()
                ==> #[trigger] final(huffman).symbol@[k] == old(huffman).symbol@[k],
        first_index(final(huffman).count@, 16) == code_symbols(data@, n as nat).len(),
        huffman_wf(final(huffman).count@, final(huffman).symbol@),
{
    let ghost lengths = data@;
    let ghost table = code_symbols(lengths, n as nat);
    let ghost old_count = huffman.count@;
    let ghost old_symbol = huffman.symbol@;
    let mut len: usize = 0;
    while len <= 15
        invariant
            len <= 16,
            huffman.count@.len() == old_count.len(),
            huffman.symbol@ == old_symbol,
            old_count.len() >= 16,
            forall|l: int| 0 <= l < len ==> huffman.count@[l] == 0,
            forall|l: int| 16 <= l < old_count.len() ==> huffman.count@[l] == old_count[l],
        decreases 16 - len,
    {
        huffman.count[len] = 0;
        len = len + 1;
    }
    let mut s: usize = 0;
    while s < n
        invariant
            s <= n,
            lengths_ok(lengths, n as nat),
            lengths == data@,
            huffman.count@.len() == old_count.len(),
            huffman.symbol@ == old_symbol,
            old_count.len() >= 16,
            forall|l: int| 0 <= l < 16 ==> huffman.count@[l] == count_len(lengths, s as nat, l as usize),
            forall|l: int| 16 <= l < old_count.len() ==> huffman.count@[l] == old_count[l],
        decreases n - s,
    {
        let l = data[s];
        proof {
            lemma_count_len_bound(lengths, s as nat, l);
        }
        huffman.count[l] = huffman.count[l] + 1;
        s = s + 1;
    }
    proof {
        lemma_table_mono(lengths, n as nat, 1, 16);
    }
    let slen = huffman.symbol.len();
    let mut offs = [0usize; 16];
    offs[1] = 0;
    let mut i: usize = 1;
    while i < 15
        invariant
            1 <= i <= 15,
            lengths == data@,
            huffman.count@.len() == old_count.len(),
            forall|l: int| 0 <= l < 16 ==> huffman.count@[l] == count_len(lengths, n as nat, l as usize),
            forall|l: int| 1 <= l <= i ==> offs@[l] == code_table(lengths, n as nat, l as nat).len(),
            table == code_symbols(lengths, n as nat),
            table.len() <= old_symbol.len(),
            old_count.len() >= 16,
            slen == old_symbol.len(),
        decreases 15 - i,
    {
        proof {
            lemma_table_len(lengths, n as nat, i as nat);
            lemma_table_mono(lengths, n as nat, (i + 1) as nat, 16);
        }
        offs[i + 1] = offs[i] + huffman.count[i];
        i = i + 1;
    }
    let mut s: usize = 0;
    while s < n
        invariant
            s <= n,
            lengths_ok(lengths, n as nat),
            lengths == data@,
            table == code_symbols(lengths, n as nat),
            table.len() <= old_symbol.len(),
            huffman.count@.len() == old_count.len(),
            huffman.symbol@.len() == old_symbol.len(),
            forall|l: int| 0 <= l < 16 ==> huffman.count@[l] == count_len(lengths, n as nat, l as usize),
            forall|l: int| 16 <= l < old_count.len() ==> huffman.count@[l] == old_count[l],
            forall|l: int|
                1 <= l <= 15 ==> offs@[l] == code_table(lengths, n as nat, l as nat).len()
                    + count_len(lengths, s as nat, l as usize),
            forall|l: int, j: int|
                1 <= l <= 15 && 0 <= j < count_len(lengths, s as nat, l as usize)
                    ==> huffman.symbol@[code_table(lengths, n as nat, l as nat).len() + j]
                    == #[trigger] symbols_of_len(lengths, n as nat, l as usize)[j],
            forall|k: int|
                table.len() <= k < old_symbol.len() ==> huffman.symbol@[k] == old_symbol[k],
        decreases n - s,
    {
        let l = data[s];
        if l != 0 {
            let ghost w = offs@[l as int];
            proof {
                lemma_sol_place(lengths, n as nat, s as nat);
                lemma_sol_len(lengths, n as nat, l);
                lemma_count_len_mono(lengths, (s + 1) as nat, n as nat, l);
                lemma_table_len(lengths, n as nat, l as nat);
                lemma_table_mono(lengths, n as nat, (l + 1) as nat, 16);
                assert(w < code_table(lengths, n as nat, (l + 1) as nat).len());
                assert forall|l2: int|
                    #![trigger code_table(lengths, n as nat, l2 as nat)]
                    1 <= l2 <= 15 && l2 != l implies (code_table(lengths, n as nat, l2 as nat).len()
                    + count_len(lengths, s as nat, l2 as usize) <= w || code_table(
                    lengths,
                    n as nat,
                    l2 as nat,
                ).len() > w) by {
                    lemma_count_len_mono(lengths, s as nat, n as nat, l2 as usize);
                    lemma_table_len(lengths, n as nat, l2 as nat);
                    if l2 < l {
                        lemma_table_mono(lengths, n as nat, (l2 + 1) as nat, l as nat);
                    } else {
                        lemma_table_mono(lengths, n as nat, (l + 1) as nat, l2 as nat);
                    }
                }
            }
            let ghost prev = huffman.symbol@;
            huffman.symbol[offs[l]] = s;
            offs[l] = offs[l] + 1;
            proof {
                assert(huffman.symbol@ == prev.update(w as int, s));
                assert(((s + 1) - 1) as nat == s as nat);
                assert forall|l2: int, j: int|
                    1 <= l2 <= 15 && 0 <= j < count_len(lengths, (s + 1) as nat, l2 as usize)
                        implies huffman.symbol@[code_table(lengths, n as nat, l2 as nat).len() + j]
                        == #[trigger] symbols_of_len(lengths, n as nat, l2 as usize)[j] by {
                    assert(count_len(lengths, (s + 1) as nat, l2 as usize) == count_len(
                        lengths,
                        s as nat,
                        l2 as usize,
                    ) + if lengths[s as int] == l2 as usize {
                        1nat
                    } else {
                        0nat
                    });
                    if l2 == l && j == count_len(lengths, s as nat, l) {
                        assert(huffman.symbol@[w as int] == s);
                        assert(w == code_table(lengths, n as nat, l as nat).len() + count_len(lengths, s as nat, l));
                        assert(symbols_of_len(lengths, n as nat, l)[count_len(lengths, s as nat, l) as int] == s);
                        assert(l2 as usize == l);
                    } else {
                        assert(j < count_len(lengths, s as nat, l2 as usize));
                        assert(code_table(lengths, n as nat, l2 as nat).len() + j != w);
                        lemma_count_len_mono(lengths, s as nat, n as nat, l2 as usize);
                        lemma_table_len(lengths, n as nat, l2 as nat);
                        lemma_table_mono(lengths, n as nat, (l2 + 1) as nat, 16);
                        assert(prev[code_table(lengths, n as nat, l2 as nat).len() + j]
                            == symbols_of_len(lengths, n as nat, l2 as usize)[j]);
                    }
                }
            }
        } else {
            proof {
                assert(((s + 1) - 1) as nat == s as nat);
                assert forall|l2: int|
                    1 <= l2 <= 15 implies count_len(lengths, (s + 1) as nat, l2 as usize)
                        == #[trigger] count_len(lengths, s as nat, l2 as usize) by {}
            }
        }
        s = s + 1;
    }
    proof {
        assert forall|k: int|
            0 <= k < table.len() implies #[trigger] huffman.symbol@[k] == table[k] by {
            let l = lemma_table_slot(lengths, n as nat, 16, k);
            let j = k - code_table(lengths, n as nat, l).len();
            assert(huffman.symbol@[code_table(lengths, n as nat, l as nat).len() + j]
                == symbols_of_len(lengths, n as nat, l as usize)[j]);
        }
        lemma_first_index_table(huffman.count@, lengths, n as nat, 16);
    }
}

/// Decodes one symbol from a stream that holds the bits the code needs (15 at most). Gives
/// `usize::MAX` when no code of length up to 15 matches. `try_decode` is the form that reports
/// a stream that ends first.
pub fn decode(bit: &mut BitReader, huffman: &Huffman) -> (symbol: usize)
    requires
        old(bit).wf(),
        huffman_wf(huffman.counts(), huffman.symbols()),
        spec_decode(huffman.counts(), huffman.symbols(), old(bit).bytes(), old(bit).position())
            is Some,
    ensures
        final(bit).wf(),
        final(bit).bytes() == old(bit).bytes(),
        spec_decode(huffman.counts(), huffman.symbols(), old(bit).bytes(), old(bit).position())
            == Some((symbol, final(bit).position())),
{
    try_decode(bit, huffman).unwrap()
}

} // verus!
