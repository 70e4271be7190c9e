//! The gram counts of a key read as bytes: the key is padded with NUL bytes,
//! cut into windows of `arity` bytes, and each window is packed into an
//! integer code, most significant byte first.
use vstd::prelude::*;

use vstd::string::StringSliceAdditionalSpecFns;

use crate::char_normalizer::{
    alphanumeric, alphanumeric_or_space, dedup_spaces, deduped_prefix, strip_left, strip_right, trim,
    trim_null,
};
use crate::corpus_from::counts_wf;
use crate::text::chars_of;
use crate::trigram_similarity::{lemma_total_push, lemma_total_update, total_count};

verus! {

/// `256` raised to `n`.
pub open spec fn pow256(n: nat) -> nat
    decreases n,
{
    if n == 0 {
        1
    } else {
        256 * pow256((n - 1) as nat)
    }
}

/// The bytes packed into one number, the first byte the most significant.
pub open spec fn pack(s: Seq<u8>) -> nat
    decreases s.len(),
{
    if s.len() == 0 {
        0
    } else {
        pack(s.drop_last()) * 256 + s.last() as nat
    }
}

/// The key's bytes with `arity - 1` NUL bytes on each side.
pub open spec fn padded_bytes(bytes: Seq<u8>, arity: nat) -> Seq<u8> {
    Seq::new((arity - 1) as nat, |i: int| 0u8) + bytes + Seq::new((arity - 1) as nat, |i: int| 0u8)
}

/// The code of every window of `arity` consecutive bytes of `s`, from left to
/// right.
pub open spec fn window_codes(s: Seq<u8>, arity: nat) -> Seq<nat> {
    if s.len() < arity {
        Seq::empty()
    } else {
        Seq::new((s.len() - arity + 1) as nat, |i: int| pack(s.subrange(i, i + arity)))
    }
}

/// How many times `c` occurs in `codes`.
pub open spec fn occurrences(codes: Seq<nat>, c: nat) -> nat
    decreases codes.len(),
{
    if codes.len() == 0 {
        0
    } else {
        occurrences(codes.drop_last(), c) + if codes.last() == c {
            1nat
        } else {
            0nat
        }
    }
}

/// Some entry of the table has the code `c`.
pub open spec fn has_code(table: Seq<(usize, usize)>, c: nat) -> bool {
    exists|i: int| 0 <= i < table.len() && table[i].0 as nat == c
}

/// `table` lists each distinct code of `codes` once, with its number of
/// occurrences.
pub open spec fn tabulates_codes(table: Seq<(usize, usize)>, codes: Seq<nat>) -> bool {
    &&& counts_wf(table)
    &&& forall|i: int| 0 <= i < table.len() ==> #[trigger] table[i].1 == occurrences(codes, table[i].0 as nat)
    &&& forall|j: int| 0 <= j < codes.len() ==> has_code(table, #[trigger] codes[j])
}

/// A packed number stays below `256` raised to the number of bytes.
proof fn lemma_pack_bound(s: Seq<u8>)
    ensures
        pack(s) < pow256(s.len()),
    decreases s.len(),
{
    if s.len() > 0 {
        lemma_pack_bound(s.drop_last());
    }
}

/// Eight bytes fill a `u64`.
proof fn lemma_pow256_8()
    ensures
        pow256(8) == 0x1_0000_0000_0000_0000,
        pow256(4) == 0x1_0000_0000,
{
    reveal_with_fuel(pow256, 9);
}

/// More bytes give a larger bound.
proof fn lemma_pow256_monotone(a: nat, b: nat)
    requires
        a <= b,
    ensures
        pow256(a) <= pow256(b),
    decreases b,
{
    if a < b {
        lemma_pow256_monotone(a, (b - 1) as nat);
    }
}

/// The code of the window of `arity` bytes of `s` starting at `start`.
fn window_code(s: &Vec<u8>, start: usize, arity: usize) -> (r: usize)
    requires
        1 <= arity <= 8,
        arity <= 4 || usize::BITS == 64,
        start + arity <= s@.len(),
    ensures
        r as nat == pack(s@.subrange(start as int, start + arity)),
{
    let len = s.len();
    let mut code: u64 = 0;
    let mut j: usize = 0;
    proof {
        assert(s@.subrange(start as int, start as int) =~= Seq::<u8>::empty());
    }
    while j < arity
        invariant
            1 <= arity <= 8,
            len == s@.len(),
            start + arity <= s@.len(),
            j <= arity,
            code as nat == pack(s@.subrange(start as int, start + j)),
        decreases arity - j,
    {
        proof {
            let w = s@.subrange(start as int, start + j + 1);
            assert(w.drop_last() =~= s@.subrange(start as int, start + j));
            lemma_pack_bound(w);
            lemma_pow256_monotone((j + 1) as nat, 8);
            lemma_pow256_8();
        }
        code = code * 256 + s[start + j] as u64;
        j = j + 1;
    }
    proof {
        lemma_pack_bound(s@.subrange(start as int, start + arity));
        lemma_pow256_8();
        if arity <= 4 {
            lemma_pow256_monotone(arity as nat, 4);
        }
    }
    code as usize
}

/// Records one more occurrence of `code`: its count goes up by one, or it is
/// added with a count of one.
fn record_code(table: &mut Vec<(usize, usize)>, code: usize, ghost_codes: Ghost<Seq<nat>>)
    requires
        tabulates_codes(old(table)@, ghost_codes@),
        total_count(old(table)@) == ghost_codes@.len(),
        ghost_codes@.len() < usize::MAX,
    ensures
        tabulates_codes(final(table)@, ghost_codes@.push(code as nat)),
        total_count(final(table)@) == ghost_codes@.len() + 1,
{
    let ghost codes = ghost_codes@;
    let ghost next = codes.push(code as nat);
    proof {
        assert(next.drop_last() =~= codes);
        assert forall|c: nat| #[trigger] occurrences(next, c) == occurrences(codes, c) + if c == code as nat {
            1nat
        } else {
            0nat
        } by {}
    }
    let mut i: usize = 0;
    while i < table.len()
        invariant
            table@ == old(table)@,
            tabulates_codes(old(table)@, codes),
            total_count(old(table)@) == codes.len(),
            codes == ghost_codes@,
            codes.len() < usize::MAX,
            next == codes.push(code as nat),
            forall|c: nat| #[trigger] occurrences(next, c) == occurrences(codes, c) + if c == code as nat {
                1nat
            } else {
                0nat
            },
            i <= table@.len(),
            forall|m: int| 0 <= m < i ==> table@[m].0 != code,
        decreases table@.len() - i,
    {
        if table[i].0 == code {
            let (g, c) = table[i];
            proof {
                lemma_occurrences_le_len(codes, code as nat);
                assert(old(table)@[i as int].1 == occurrences(codes, old(table)@[i as int].0 as nat));
                assert(counts_wf(old(table)@));
            }
            table.set(i, (g, c + 1));
            proof {
                lemma_total_update(old(table)@, i as int, (g, (c + 1) as usize));
                assert(old(table)@[i as int] == (g, c));
                assert(table@ == old(table)@.update(i as int, (g, (c + 1) as usize)));
                let t = table@;
                assert forall|m: int, n: int| 0 <= m < n < t.len() implies t[m].0 != t[n].0 by {
                    assert(old(table)@[m].0 != old(table)@[n].0);
                }
                assert forall|j: int| 0 <= j < next.len() implies has_code(t, #[trigger] next[j]) by {
                    if j < codes.len() {
                        assert(next[j] == codes[j]);
                        assert(has_code(old(table)@, codes[j]));
                        let q = choose|q: int| 0 <= q < old(table)@.len() && old(table)@[q].0 as nat == codes[j];
                        assert(t[q].0 == old(table)@[q].0);
                    } else {
                        assert(t[i as int].0 as nat == next[j]);
                    }
                }
            }
            return;
        }
        i = i + 1;
    }
    proof {
        assert forall|m: int| 0 <= m < codes.len() implies codes[m] != code as nat by {
            assert(has_code(table@, codes[m]));
            let q = choose|q: int| 0 <= q < table@.len() && table@[q].0 as nat == codes[m];
            assert(table@[q].0 != code);
        }
        lemma_occurrences_absent(codes, code as nat);
    }
    table.push((code, 1));
    proof {
        lemma_total_push(old(table)@, (code, 1));
        let t = table@;
        assert forall|m: int, n: int| 0 <= m < n < t.len() implies t[m].0 != t[n].0 by {
            if n < t.len() - 1 {
                assert(old(table)@[m].0 != old(table)@[n].0);
            }
        }
        assert forall|j: int| 0 <= j < next.len() implies has_code(t, #[trigger] next[j]) by {
            if j < codes.len() {
                assert(next[j] == codes[j]);
                assert(has_code(old(table)@, codes[j]));
                let q = choose|q: int| 0 <= q < old(table)@.len() && old(table)@[q].0 as nat == codes[j];
                assert(t[q] == old(table)@[q]);
            } else {
                assert(t[t.len() - 1].0 as nat == next[j]);
            }
        }
        assert forall|m: int| 0 <= m < t.len() implies #[trigger] t[m].1 >= 1 by {
            if m < t.len() - 1 {
                assert(t[m] == old(table)@[m]);
            }
        }
    }
}

/// A code that does not occur has no occurrences.
pub(crate) proof fn lemma_occurrences_absent(codes: Seq<nat>, c: nat)
    requires
        forall|m: int| 0 <= m < codes.len() ==> codes[m] != c,
    ensures
        occurrences(codes, c) == 0,
    decreases codes.len(),
{
    if codes.len() > 0 {
        lemma_occurrences_absent(codes.drop_last(), c);
    }
}

/// A code occurs no more often than there are codes.
pub(crate) proof fn lemma_occurrences_le_len(codes: Seq<nat>, c: nat)
    ensures
        occurrences(codes, c) <= codes.len(),
    decreases codes.len(),
{
    if codes.len() > 0 {
        lemma_occurrences_le_len(codes.drop_last(), c);
    }
}

/// Each distinct code of the windows of `arity` bytes of `s`, once, with its
/// number of occurrences, in order of first appearance.
pub(crate) fn tabulate_windows(padded: &Vec<u8>, arity: usize) -> (r: Vec<(usize, usize)>)
    requires
        1 <= arity <= 8,
        arity <= 4 || usize::BITS == 64,
        padded@.len() < usize::MAX,
    ensures
        tabulates_codes(r@, window_codes(padded@, arity as nat)),
        total_count(r@) == window_codes(padded@, arity as nat).len(),
{
    let ghost full = padded@;
    let ghost codes = window_codes(full, arity as nat);
    let mut table: Vec<(usize, usize)> = Vec::new();
    let n = padded.len();
    let mut start: usize = 0;
    proof {
        assert(tabulates_codes(table@, codes.take(0)));
    }
    if n + 1 < arity {
        proof {
            assert(codes =~= codes.take(0));
        }
        return table;
    }
    while start + arity <= n
        invariant
            1 <= arity <= 8,
            arity <= 4 || usize::BITS == 64,
            full == padded@,
            n == full.len(),
            n < usize::MAX,
            codes == window_codes(full, arity as nat),
            n + 1 >= arity,
            start <= n + 1 - arity,
            tabulates_codes(table@, codes.take(start as int)),
            total_count(table@) == start,
        decreases n - start,
    {
        let code = window_code(padded, start, arity);
        proof {
            assert(codes.take(start + 1) =~= codes.take(start as int).push(code as nat));
        }
        record_code(&mut table, code, Ghost(codes.take(start as int)));
        start = start + 1;
    }
    proof {
        assert(codes.take(start as int) =~= codes);
    }
    table
}

/// Returns the counts of the ngrams of a key read as bytes: the key is
/// padded with `arity - 1` NUL bytes on each side, and each window of `arity`
/// bytes is packed into its code. Each distinct code comes once, with its
/// number of occurrences.
///
/// The code of a window is one `usize`, eight bits per byte: windows of more
/// than four bytes need a 64-bit `usize`.
pub fn byte_key_counts(key: &str, arity: usize) -> (r: Vec<(usize, usize)>)
    requires
        1 <= arity <= 8,
        arity <= 4 || usize::BITS == 64,
        key.spec_bytes().len() + 2 * arity <= usize::MAX,
    ensures
        tabulates_codes(r@, window_codes(padded_bytes(key.spec_bytes(), arity as nat), arity as nat)),
        total_count(r@) == window_codes(padded_bytes(key.spec_bytes(), arity as nat), arity as nat).len(),
        total_count(r@) == key.spec_bytes().len() + arity - 1,
{
    proof {
        lemma_padded_bytes(key.spec_bytes(), arity as nat);
    }
    let bytes = key.as_bytes();
    let mut padded: Vec<u8> = Vec::new();
    let mut i: usize = 0;
    while i + 1 < arity
        invariant
            1 <= arity <= 8,
            i <= arity - 1,
            padded@ == Seq::new(i as nat, |j: int| 0u8),
        decreases arity - i,
    {
        padded.push(0);
        i = i + 1;
        proof {
            assert(padded@ =~= Seq::new(i as nat, |j: int| 0u8));
        }
    }
    let mut k: usize = 0;
    while k < bytes.len()
        invariant
            1 <= arity <= 8,
            bytes@ == key.spec_bytes(),
            k <= bytes@.len(),
            padded@ == Seq::new((arity - 1) as nat, |j: int| 0u8) + bytes@.take(k as int),
        decreases bytes@.len() - k,
    {
        padded.push(bytes[k]);
        k = k + 1;
        proof {
            assert(padded@ =~= Seq::new((arity - 1) as nat, |j: int| 0u8) + bytes@.take(k as int));
        }
    }
    let ghost middle = padded@;
    let mut i: usize = 0;
    while i + 1 < arity
        invariant
            1 <= arity <= 8,
            i <= arity - 1,
            padded@ == middle + Seq::new(i as nat, |j: int| 0u8),
        decreases arity - i,
    {
        padded.push(0);
        i = i + 1;
        proof {
            assert(padded@ =~= middle + Seq::new(i as nat, |j: int| 0u8));
        }
    }
    let ghost full = padded@;
    proof {
        assert(bytes@.take(bytes@.len() as int) =~= bytes@);
        assert(full =~= padded_bytes(key.spec_bytes(), arity as nat));
    }
    tabulate_windows(&padded, arity)
}

/// The characters the char grams of a key are cut from: the key trimmed of
/// space-like characters and then of NULs at both ends, each character that
/// is not alphanumeric turned into a space, and each run of spaces cut down
/// to one.
pub open spec fn normalized_chars(s: Seq<char>) -> Seq<char> {
    let t = strip_right(strip_left(s, false), false);
    let u = strip_right(strip_left(t, true), true);
    let a = u.map_values(|c: char| alphanumeric_or_space(c));
    deduped_prefix(a, a.len())
}

/// The characters with `arity - 1` NULs on each side.
pub open spec fn padded_chars(s: Seq<char>, arity: nat) -> Seq<char> {
    Seq::new((arity - 1) as nat, |i: int| '\0') + s + Seq::new((arity - 1) as nat, |i: int| '\0')
}

/// The characters packed into one number, in base `0x110000`, the first
/// character the most significant.
pub open spec fn pack_chars(s: Seq<char>) -> nat
    decreases s.len(),
{
    if s.len() == 0 {
        0
    } else {
        pack_chars(s.drop_last()) * 0x110000 + s.last() as nat
    }
}

/// The code of every window of `arity` consecutive characters of `s`, from
/// left to right.
pub open spec fn char_window_codes(s: Seq<char>, arity: nat) -> Seq<nat> {
    if s.len() < arity {
        Seq::empty()
    } else {
        Seq::new((s.len() - arity + 1) as nat, |i: int| pack_chars(s.subrange(i, i + arity)))
    }
}

/// `0x110000` raised to `n`.
pub open spec fn pow_chars(n: nat) -> nat
    decreases n,
{
    if n == 0 {
        1
    } else {
        0x110000 * pow_chars((n - 1) as nat)
    }
}

/// A packed number stays below `0x110000` raised to the number of characters.
proof fn lemma_pack_chars_bound(s: Seq<char>)
    ensures
        pack_chars(s) < pow_chars(s.len()),
    decreases s.len(),
{
    if s.len() > 0 {
        lemma_pack_chars_bound(s.drop_last());
        let p = pack_chars(s.drop_last());
        let b = pow_chars((s.len() - 1) as nat);
        let c = s.last() as nat;
        crate::into_usize::lemma_char_code(s.last());
        assert(c < 0x110000);
        assert(p * 0x110000 + c < b * 0x110000) by (nonlinear_arith)
            requires
                p < b,
                c < 0x110000,
        ;
    }
}

/// Three characters fit in a `u64`, one in a `u32`.
proof fn lemma_pow_chars_small()
    ensures
        pow_chars(1) == 0x110000,
        pow_chars(2) == 0x110000 * 0x110000,
        pow_chars(3) == 0x110000 * 0x110000 * 0x110000,
        pow_chars(3) <= 0x1_0000_0000_0000_0000,
{
    reveal_with_fuel(pow_chars, 4);
}

/// Cutting a run of spaces never lengthens the characters.
proof fn lemma_deduped_len<C: crate::char_like::CharLike>(s: Seq<C>, k: nat)
    requires
        k <= s.len(),
    ensures
        deduped_prefix(s, k).len() <= k,
    decreases k,
{
    if k > 0 {
        lemma_deduped_len(s, (k - 1) as nat);
    }
}

/// Stripping either end never lengthens the characters.
proof fn lemma_strip_len<C: crate::char_like::CharLike>(s: Seq<C>, nul: bool)
    ensures
        strip_left(s, nul).len() <= s.len(),
        strip_right(s, nul).len() <= s.len(),
    decreases s.len(),
{
    if s.len() > 0 {
        lemma_strip_len(s.drop_first(), nul);
        lemma_strip_len(s.drop_last(), nul);
    }
}

/// The characters of a key, normalized as its char grams see them: trimmed
/// of space-like characters, then of NULs, at both ends, each character that
/// is not alphanumeric turned into a space, each run of spaces cut to one.
pub fn normalize_chars(key: &str) -> (r: Vec<char>)
    ensures
        r@ == normalized_chars(key@),
        r@.len() <= key@.len(),
{
    let chars = chars_of(key);
    let trimmed = trim(&chars);
    let no_nul = trim_null(&trimmed);
    let alnum = alphanumeric(&no_nul);
    let out = dedup_spaces(&alnum);
    proof {
        let t0 = strip_left(key@, false);
        lemma_strip_len(key@, false);
        lemma_strip_len(t0, false);
        let t = strip_right(t0, false);
        lemma_strip_len(t, true);
        lemma_strip_len(strip_left(t, true), true);
        assert(alnum@ =~= no_nul@.map_values(|c: char| alphanumeric_or_space(c)));
        lemma_deduped_len(alnum@, alnum@.len());
    }
    out
}

/// The code of the window of `arity` characters of `s` starting at `start`.
fn char_window_code(s: &Vec<char>, start: usize, arity: usize) -> (r: usize)
    requires
        1 <= arity <= 3,
        arity == 1 || usize::BITS == 64,
        start + arity <= s@.len(),
    ensures
        r as nat == pack_chars(s@.subrange(start as int, start + arity)),
{
    let len = s.len();
    let mut code: u64 = 0;
    let mut j: usize = 0;
    proof {
        assert(s@.subrange(start as int, start as int) =~= Seq::<char>::empty());
        lemma_pow_chars_small();
    }
    while j < arity
        invariant
            1 <= arity <= 3,
            len == s@.len(),
            start + arity <= s@.len(),
            j <= arity,
            code as nat == pack_chars(s@.subrange(start as int, start + j)),
            pow_chars(3) <= 0x1_0000_0000_0000_0000,
            pow_chars(1) == 0x110000,
            pow_chars(2) == 0x110000 * 0x110000,
            pow_chars(3) == 0x110000 * 0x110000 * 0x110000,
        decreases arity - j,
    {
        let c = s[start + j];
        proof {
            let w = s@.subrange(start as int, start + j + 1);
            assert(w.drop_last() =~= s@.subrange(start as int, start + j));
            assert(w.last() == c);
            lemma_pack_chars_bound(w);
            crate::into_usize::lemma_char_code(c);
            assert(pack_chars(w) < pow_chars(3)) by {
                if j == 0 {
                } else if j == 1 {
                } else {
                }
            }
        }
        let v = c as usize;
        code = code * 0x110000 + v as u64;
        j = j + 1;
    }
    proof {
        lemma_pack_chars_bound(s@.subrange(start as int, start + arity));
    }
    code as usize
}

/// Each distinct code of the windows of `arity` characters of `padded`,
/// once, with its number of occurrences, in order of first appearance.
fn tabulate_char_windows(padded: &Vec<char>, arity: usize) -> (r: Vec<(usize, usize)>)
    requires
        1 <= arity <= 3,
        arity == 1 || usize::BITS == 64,
        padded@.len() < usize::MAX,
    ensures
        tabulates_codes(r@, char_window_codes(padded@, arity as nat)),
        total_count(r@) == char_window_codes(padded@, arity as nat).len(),
{
    let ghost full = padded@;
    let ghost codes = char_window_codes(full, arity as nat);
    let mut table: Vec<(usize, usize)> = Vec::new();
    let n = padded.len();
    let mut start: usize = 0;
    proof {
        assert(tabulates_codes(table@, codes.take(0)));
    }
    if n + 1 < arity {
        proof {
            assert(codes =~= codes.take(0));
        }
        return table;
    }
    while start + arity <= n
        invariant
            1 <= arity <= 3,
            arity == 1 || usize::BITS == 64,
            full == padded@,
            n == full.len(),
            n < usize::MAX,
            codes == char_window_codes(full, arity as nat),
            n + 1 >= arity,
            start <= n + 1 - arity,
            tabulates_codes(table@, codes.take(start as int)),
            total_count(table@) == start,
        decreases n - start,
    {
        let code = char_window_code(padded, start, arity);
        proof {
            assert(codes.take(start + 1) =~= codes.take(start as int).push(code as nat));
        }
        record_code(&mut table, code, Ghost(codes.take(start as int)));
        start = start + 1;
    }
    proof {
        assert(codes.take(start as int) =~= codes);
    }
    table
}

/// Returns the counts of the char ngrams of a key: the key's characters are
/// normalized, padded with `arity - 1` NULs on each side, and each window of
/// `arity` characters is packed into its code. Each distinct code comes
/// once, with its number of occurrences.
///
/// The code of a window is one `usize`, 21 bits per character (base
/// `0x110000`): it holds windows of one to three characters, and of more than
/// one only where `usize` has 64 bits. Longer char grams are not supported.
pub fn char_key_counts(key: &str, arity: usize) -> (r: Vec<(usize, usize)>)
    requires
        1 <= arity <= 3,
        arity == 1 || usize::BITS == 64,
        key@.len() + 2 * arity <= usize::MAX,
    ensures
        tabulates_codes(
            r@,
            char_window_codes(padded_chars(normalized_chars(key@), arity as nat), arity as nat),
        ),
        total_count(r@) == char_window_codes(padded_chars(normalized_chars(key@), arity as nat), arity as nat).len(),
        total_count(r@) == normalized_chars(key@).len() + arity - 1,
{
    proof {
        lemma_padded_chars(normalized_chars(key@), arity as nat);
    }
    let chars = normalize_chars(key);
    let mut padded: Vec<char> = Vec::new();
    let mut i: usize = 0;
    while i + 1 < arity
        invariant
            1 <= arity <= 3,
            i <= arity - 1,
            padded@ == Seq::new(i as nat, |j: int| '\0'),
        decreases arity - i,
    {
        padded.push('\0');
        i = i + 1;
        proof {
            assert(padded@ =~= Seq::new(i as nat, |j: int| '\0'));
        }
    }
    let mut k: usize = 0;
    while k < chars.len()
        invariant
            1 <= arity <= 3,
            k <= chars@.len(),
            padded@ == Seq::new((arity - 1) as nat, |j: int| '\0') + chars@.take(k as int),
        decreases chars@.len() - k,
    {
        padded.push(chars[k]);
        k = k + 1;
        proof {
            assert(padded@ =~= Seq::new((arity - 1) as nat, |j: int| '\0') + chars@.take(k as int));
        }
    }
    let ghost middle = padded@;
    let mut i: usize = 0;
    while i + 1 < arity
        invariant
            1 <= arity <= 3,
            i <= arity - 1,
            padded@ == middle + Seq::new(i as nat, |j: int| '\0'),
        decreases arity - i,
    {
        padded.push('\0');
        i = i + 1;
        proof {
            assert(padded@ =~= middle + Seq::new(i as nat, |j: int| '\0'));
        }
    }
    proof {
        assert(chars@.take(chars@.len() as int) =~= chars@);
        assert(padded@ =~= padded_chars(normalized_chars(key@), arity as nat));
    }
    tabulate_char_windows(&padded, arity)
}

/// A key read as bytes is padded with `arity - 1` NUL bytes on each side,
/// its bytes unchanged between them, so that it has one window of `arity`
/// bytes more than it has bytes, less one: `len + arity - 1` windows.
pub proof fn lemma_padded_bytes(bytes: Seq<u8>, arity: nat)
    requires
        arity >= 1,
    ensures
        padded_bytes(bytes, arity).len() == bytes.len() + 2 * (arity - 1),
        forall|i: int| 0 <= i < arity - 1 ==> #[trigger] padded_bytes(bytes, arity)[i] == 0u8,
        forall|i: int|
            bytes.len() + arity - 1 <= i < bytes.len() + 2 * (arity - 1) ==> #[trigger] padded_bytes(bytes, arity)[i]
                == 0u8,
        padded_bytes(bytes, arity).subrange(arity - 1, bytes.len() + arity - 1) == bytes,
        window_codes(padded_bytes(bytes, arity), arity).len() == bytes.len() + arity - 1,
{
    let p = padded_bytes(bytes, arity);
    assert(p.subrange(arity - 1, bytes.len() + arity - 1) =~= bytes);
}

/// The characters of a key are padded with `arity - 1` NULs on each side,
/// unchanged between them, so that they have `len + arity - 1` windows of
/// `arity` characters.
pub proof fn lemma_padded_chars(chars: Seq<char>, arity: nat)
    requires
        arity >= 1,
    ensures
        padded_chars(chars, arity).len() == chars.len() + 2 * (arity - 1),
        forall|i: int| 0 <= i < arity - 1 ==> #[trigger] padded_chars(chars, arity)[i] == '\0',
        forall|i: int|
            chars.len() + arity - 1 <= i < chars.len() + 2 * (arity - 1) ==> #[trigger] padded_chars(chars, arity)[i]
                == '\0',
        padded_chars(chars, arity).subrange(arity - 1, chars.len() + arity - 1) == chars,
        char_window_codes(padded_chars(chars, arity), arity).len() == chars.len() + arity - 1,
{
    let p = padded_chars(chars, arity);
    assert(p.subrange(arity - 1, chars.len() + arity - 1) =~= chars);
}

} // verus!
