//! Normalizing sequences of char-like items.
use vstd::prelude::*;

use crate::char_like::CharLike;

verus! {

/// Struct defining an iterator that lowercases the characters of another.
#[derive(Clone, Copy, PartialEq, Eq, Debug)]
pub struct Lowercase<I>(I);

impl<I> Lowercase<I> {
    /// The wrapped iterator.
    pub closed spec fn inner_of(&self) -> I {
        self.0
    }

    /// Wraps an iterator.
    pub fn new(iter: I) -> (r: Self)
        ensures
            r.inner_of() == iter,
    {
        Lowercase(iter)
    }

    /// Returns a reference to the inner iterator.
    pub fn inner(&self) -> (r: &I)
        ensures
            *r == self.inner_of(),
    {
        &self.0
    }
}

/// The characters of `s`, each lowercased.
pub fn lower<C: CharLike>(s: &Vec<C>) -> (r: Vec<C>)
    ensures
        r@ == s@.map_values(|c: C| c.lowered()),
{
    let mut out: Vec<C> = Vec::new();
    let mut k: usize = 0;
    while k < s.len()
        invariant
            k <= s@.len(),
            out@ == s@.take(k as int).map_values(|c: C| c.lowered()),
        decreases s@.len() - k,
    {
        out.push(s[k].to_lowercase());
        k = k + 1;
        proof {
            assert(out@ =~= s@.take(k as int).map_values(|c: C| c.lowered()));
        }
    }
    proof {
        assert(s@.take(k as int) =~= s@);
    }
    out
}

/// Struct defining an iterator that replaces characters that are not
/// alphanumeric with spaces.
#[derive(Clone, Copy, PartialEq, Eq, Debug)]
pub struct Alphanumeric<I>(I);

/// What `Alphanumeric` yields for `c`: `c` itself when alphanumeric, a space
/// otherwise.
pub open spec fn alphanumeric_or_space<C: CharLike>(c: C) -> C {
    if c.alphanumeric() {
        c
    } else {
        C::space_char()
    }
}

impl<I> Alphanumeric<I> {
    /// The wrapped iterator.
    pub closed spec fn inner_of(&self) -> I {
        self.0
    }

    /// Wraps an iterator.
    pub fn new(iter: I) -> (r: Self)
        ensures
            r.inner_of() == iter,
    {
        Alphanumeric(iter)
    }

    /// Returns a reference to the inner iterator.
    pub fn inner(&self) -> (r: &I)
        ensures
            *r == self.inner_of(),
    {
        &self.0
    }

    /// The item yielded for the character `c` of the inner iterator.
    pub fn map_char<C: CharLike>(c: C) -> (r: C)
        ensures
            r == alphanumeric_or_space(c),
    {
        if c.is_alphanumeric() {
            c
        } else {
            C::space()
        }
    }
}

/// The characters of `s`, each replaced by a space unless alphanumeric.
pub fn alphanumeric<C: CharLike>(s: &Vec<C>) -> (r: Vec<C>)
    ensures
        r@ == s@.map_values(|c: C| alphanumeric_or_space(c)),
{
    let mut out: Vec<C> = Vec::new();
    let mut k: usize = 0;
    while k < s.len()
        invariant
            k <= s@.len(),
            out@ == s@.take(k as int).map_values(|c: C| alphanumeric_or_space(c)),
        decreases s@.len() - k,
    {
        out.push(Alphanumeric::<()>::map_char(s[k]));
        k = k + 1;
        proof {
            assert(out@ =~= s@.take(k as int).map_values(|c: C| alphanumeric_or_space(c)));
        }
    }
    proof {
        assert(s@.take(k as int) =~= s@);
    }
    out
}

/// Struct defining an iterator that removes subsequent spaces.
#[derive(Clone, Copy, PartialEq, Eq, Debug)]
pub struct SpaceNormalizer<I> {
    iter: I,
    last_was_space: bool,
}

/// Whether the `i`-th character of `s` survives space deduplication: all do
/// but a space-like character right after another space-like one.
pub open spec fn kept_after_dedup<C: CharLike>(s: Seq<C>, i: int) -> bool {
    !(s[i].space_like() && i > 0 && s[i - 1].space_like())
}

/// The first `k` characters of `s` after space deduplication.
pub open spec fn deduped_prefix<C: CharLike>(s: Seq<C>, k: nat) -> Seq<C>
    decreases k,
{
    if k == 0 {
        Seq::empty()
    } else {
        let p = (k - 1) as nat;
        deduped_prefix(s, p) + if kept_after_dedup(s, p as int) {
            seq![s[p as int]]
        } else {
            Seq::empty()
        }
    }
}

impl<I> SpaceNormalizer<I> {
    /// The wrapped iterator.
    pub closed spec fn iter_of(&self) -> I {
        self.iter
    }

    /// Whether the last character yielded was space-like.
    pub closed spec fn last_was_space_of(&self) -> bool {
        self.last_was_space
    }

    /// Wraps an iterator, nothing yielded yet.
    pub fn new(iter: I) -> (r: Self)
        ensures
            r.iter_of() == iter,
            !r.last_was_space_of(),
    {
        SpaceNormalizer { iter, last_was_space: false }
    }

    /// Decides whether the next character `c` of the inner iterator is
    /// yielded: it is skipped when space-like right after a yielded
    /// space-like character.
    pub fn accepts<C: CharLike>(&mut self, c: C) -> (yielded: bool)
        ensures
            yielded == !(c.space_like() && old(self).last_was_space_of()),
            final(self).last_was_space_of() == if yielded {
                c.space_like()
            } else {
                old(self).last_was_space_of()
            },
            final(self).iter_of() == old(self).iter_of(),
    {
        if c.is_space_like() {
            if self.last_was_space {
                false
            } else {
                self.last_was_space = true;
                true
            }
        } else {
            self.last_was_space = false;
            true
        }
    }
}

/// The characters of `s` with each run of space-like characters cut down to
/// its first.
pub fn dedup_spaces<C: CharLike>(s: &Vec<C>) -> (r: Vec<C>)
    ensures
        r@ == deduped_prefix(s@, s@.len()),
{
    let mut normalizer = SpaceNormalizer::new(());
    let mut out: Vec<C> = Vec::new();
    let mut k: usize = 0;
    while k < s.len()
        invariant
            k <= s@.len(),
            out@ == deduped_prefix(s@, k as nat),
            normalizer.last_was_space_of() == (k > 0 && s@[k - 1].space_like()),
        decreases s@.len() - k,
    {
        let c = s[k];
        if normalizer.accepts(c) {
            out.push(c);
        }
        k = k + 1;
        proof {
            assert(out@ =~= deduped_prefix(s@, k as nat));
        }
    }
    out
}


/// Whether trimming drops `c`: a NUL when `nul` is set, a space-like
/// character otherwise.
pub open spec fn dropped<C: CharLike>(c: C, nul: bool) -> bool {
    if nul {
        c == C::nul_char()
    } else {
        c.space_like()
    }
}

/// `s` without the run of dropped characters at its start.
pub open spec fn strip_left<C: CharLike>(s: Seq<C>, nul: bool) -> Seq<C>
    decreases s.len(),
{
    if s.len() > 0 && dropped(s[0], nul) {
        strip_left(s.drop_first(), nul)
    } else {
        s
    }
}

/// `s` without the run of dropped characters at its end.
pub open spec fn strip_right<C: CharLike>(s: Seq<C>, nul: bool) -> Seq<C>
    decreases s.len(),
{
    if s.len() > 0 && dropped(s.last(), nul) {
        strip_right(s.drop_last(), nul)
    } else {
        s
    }
}

/// Stripping the start leaves what follows the first kept character.
proof fn lemma_strip_left<C: CharLike>(s: Seq<C>, nul: bool, i: int)
    requires
        0 <= i <= s.len(),
        forall|j: int| 0 <= j < i ==> dropped(#[trigger] s[j], nul),
        i < s.len() ==> !dropped(s[i], nul),
    ensures
        strip_left(s, nul) == s.subrange(i, s.len() as int),
    decreases i,
{
    if i == 0 {
        assert(s.subrange(0, s.len() as int) =~= s);
    } else {
        assert(dropped(s[0], nul));
        let t = s.drop_first();
        assert forall|j: int| 0 <= j < i - 1 implies dropped(#[trigger] t[j], nul) by {
            assert(t[j] == s[j + 1]);
        }
        if i - 1 < t.len() {
            assert(t[i - 1] == s[i]);
        }
        lemma_strip_left(t, nul, i - 1);
        assert(t.subrange(i - 1, t.len() as int) =~= s.subrange(i, s.len() as int));
    }
}

/// Stripping the end leaves what precedes the last kept character.
proof fn lemma_strip_right<C: CharLike>(s: Seq<C>, nul: bool, i: int)
    requires
        0 <= i <= s.len(),
        forall|j: int| i <= j < s.len() ==> dropped(#[trigger] s[j], nul),
        i > 0 ==> !dropped(s[i - 1], nul),
    ensures
        strip_right(s, nul) == s.subrange(0, i),
    decreases s.len() - i,
{
    if i == s.len() {
        assert(s.subrange(0, i) =~= s);
    } else {
        assert(dropped(s.last(), nul));
        let t = s.drop_last();
        assert forall|j: int| i <= j < t.len() implies dropped(#[trigger] t[j], nul) by {
            assert(t[j] == s[j]);
        }
        if i > 0 {
            assert(t[i - 1] == s[i - 1]);
        }
        lemma_strip_right(t, nul, i);
        assert(t.subrange(0, i) =~= s.subrange(0, i));
    }
}

/// Whether trimming drops `c`.
fn is_dropped<C: CharLike>(c: C, nul: bool) -> (r: bool)
    ensures
        r == dropped(c, nul),
{
    if nul {
        c.is_nul()
    } else {
        c.is_space_like()
    }
}

/// The characters of `s` from `a` up to `b`.
fn copy_range<C: CharLike>(s: &Vec<C>, a: usize, b: usize) -> (r: Vec<C>)
    requires
        a <= b <= s@.len(),
    ensures
        r@ == s@.subrange(a as int, b as int),
{
    let mut out: Vec<C> = Vec::new();
    let mut k: usize = a;
    while k < b
        invariant
            a <= k <= b <= s@.len(),
            out@ == s@.subrange(a as int, k as int),
        decreases b - k,
    {
        out.push(s[k]);
        k = k + 1;
        proof {
            assert(out@ =~= s@.subrange(a as int, k as int));
        }
    }
    out
}

/// `s` without its leading dropped characters.
fn strip_left_vec<C: CharLike>(s: &Vec<C>, nul: bool) -> (r: Vec<C>)
    ensures
        r@ == strip_left(s@, nul),
{
    let mut i: usize = 0;
    while i < s.len() && is_dropped(s[i], nul)
        invariant
            i <= s@.len(),
            forall|j: int| 0 <= j < i ==> dropped(#[trigger] s@[j], nul),
        decreases s@.len() - i,
    {
        i = i + 1;
    }
    proof {
        lemma_strip_left(s@, nul, i as int);
    }
    copy_range(s, i, s.len())
}

/// `s` without its trailing dropped characters.
fn strip_right_vec<C: CharLike>(s: &Vec<C>, nul: bool) -> (r: Vec<C>)
    ensures
        r@ == strip_right(s@, nul),
{
    let mut i: usize = s.len();
    while i > 0 && is_dropped(s[i - 1], nul)
        invariant
            i <= s@.len(),
            forall|j: int| i <= j < s@.len() ==> dropped(#[trigger] s@[j], nul),
        decreases i,
    {
        i = i - 1;
    }
    proof {
        lemma_strip_right(s@, nul, i as int);
    }
    copy_range(s, 0, i)
}

/// The characters of `s` without the leading space-like ones.
pub fn trim_left<C: CharLike>(s: &Vec<C>) -> (r: Vec<C>)
    ensures
        r@ == strip_left(s@, false),
{
    strip_left_vec(s, false)
}

/// The characters of `s` without the trailing space-like ones.
pub fn trim_right<C: CharLike>(s: &Vec<C>) -> (r: Vec<C>)
    ensures
        r@ == strip_right(s@, false),
{
    strip_right_vec(s, false)
}

/// The characters of `s` without the space-like ones at either end.
pub fn trim<C: CharLike>(s: &Vec<C>) -> (r: Vec<C>)
    ensures
        r@ == strip_right(strip_left(s@, false), false),
{
    let left = strip_left_vec(s, false);
    strip_right_vec(&left, false)
}

/// The characters of `s` without the leading NULs.
pub fn trim_null_left<C: CharLike>(s: &Vec<C>) -> (r: Vec<C>)
    ensures
        r@ == strip_left(s@, true),
{
    strip_left_vec(s, true)
}

/// The characters of `s` without the trailing NULs.
pub fn trim_null_right<C: CharLike>(s: &Vec<C>) -> (r: Vec<C>)
    ensures
        r@ == strip_right(s@, true),
{
    strip_right_vec(s, true)
}

/// The characters of `s` without the NULs at either end.
pub fn trim_null<C: CharLike>(s: &Vec<C>) -> (r: Vec<C>)
    ensures
        r@ == strip_right(strip_left(s@, true), true),
{
    let left = strip_left_vec(s, true);
    strip_right_vec(&left, true)
}

} // verus!
