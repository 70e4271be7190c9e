//! The weights of a node, written as a sequence of Elias gamma and unary
//! codes: the number of weights in gamma, then each weight above one in
//! unary as the weight less one, and each run of ones as a unary zero
//! followed, once the run ends, by the length of the run in gamma.
use vstd::prelude::*;

verus! {

/// One code of the stream of weights.
#[derive(Debug, Clone, Copy, PartialEq, Eq, Structural)]
pub enum WeightCode {
    /// A value written in Elias gamma code.
    Gamma(u64),
    /// A value written in unary code.
    Unary(u64),
}

/// The codes of the weights `ws`, coming after a run of `ones` ones.
pub open spec fn encoded_body(ws: Seq<usize>, ones: nat) -> Seq<WeightCode>
    decreases ws.len(),
{
    if ws.len() == 0 {
        if ones > 0 {
            seq![WeightCode::Gamma(ones as u64)]
        } else {
            Seq::empty()
        }
    } else if ws[0] == 1 {
        (if ones == 0 {
            seq![WeightCode::Unary(0)]
        } else {
            Seq::empty()
        }) + encoded_body(ws.drop_first(), ones + 1)
    } else {
        (if ones > 0 {
            seq![WeightCode::Gamma(ones as u64)]
        } else {
            Seq::empty()
        }) + seq![WeightCode::Unary((ws[0] - 1) as u64)] + encoded_body(ws.drop_first(), 0)
    }
}

/// The codes of the weights `ws`: their number, then their body.
pub open spec fn encoded(ws: Seq<usize>) -> Seq<WeightCode> {
    seq![WeightCode::Gamma(ws.len() as u64)] + encoded_body(ws, 0)
}

/// The `n` weights that the codes give, reading from their start; `None`
/// when the codes end too soon, a code is not of the kind expected, a run of
/// ones is longer than the weights left, or a weight does not fit.
pub open spec fn decode_from(codes: Seq<WeightCode>, n: nat) -> Option<Seq<usize>>
    decreases codes.len(),
{
    if n == 0 {
        Some(Seq::empty())
    } else if codes.len() == 0 {
        None
    } else {
        match codes[0] {
            WeightCode::Gamma(_) => None,
            WeightCode::Unary(u) => if u == 0 {
                if codes.len() < 2 {
                    None
                } else {
                    match codes[1] {
                        WeightCode::Unary(_) => None,
                        WeightCode::Gamma(r) => if r > n {
                            None
                        } else {
                            match decode_from(codes.subrange(2, codes.len() as int), (n - r) as nat) {
                                Some(rest) => Some(Seq::new(r as nat, |i: int| 1usize) + rest),
                                None => None,
                            }
                        },
                    }
                }
            } else if u + 1 > usize::MAX {
                None
            } else {
                match decode_from(codes.drop_first(), (n - 1) as nat) {
                    Some(rest) => Some(seq![(u + 1) as usize] + rest),
                    None => None,
                }
            },
        }
    }
}

/// The weights that the codes give: their number first, then the weights.
pub open spec fn decoded(codes: Seq<WeightCode>) -> Option<Seq<usize>> {
    if codes.len() == 0 {
        None
    } else {
        match codes[0] {
            WeightCode::Gamma(n) => if n > usize::MAX {
                None
            } else {
                decode_from(codes.drop_first(), n as nat)
            },
            WeightCode::Unary(_) => None,
        }
    }
}

/// Returns the codes that write the given weights, each at least one: their
/// number in gamma, each weight above one in unary as the weight less one,
/// and each run of ones as a unary zero followed, once the run ends, by the
/// length of the run in gamma.
pub fn weight_codes(weights: &Vec<usize>) -> (r: Vec<WeightCode>)
    requires
        forall|i: int| 0 <= i < weights@.len() ==> #[trigger] weights@[i] >= 1,
    ensures
        r@ == encoded(weights@),
{
    let ghost ws = weights@;
    let mut out: Vec<WeightCode> = Vec::new();
    out.push(WeightCode::Gamma(weights.len() as u64));
    let mut ones: usize = 0;
    let mut k: usize = 0;
    proof {
        assert(ws.subrange(0, ws.len() as int) =~= ws);
    }
    while k < weights.len()
        invariant
            ws == weights@,
            forall|i: int| 0 <= i < ws.len() ==> #[trigger] ws[i] >= 1,
            k <= ws.len(),
            ones <= k,
            out@ + encoded_body(ws.subrange(k as int, ws.len() as int), ones as nat) == encoded(ws),
        decreases ws.len() - k,
    {
        let ghost rest = ws.subrange(k as int, ws.len() as int);
        let ghost before = out@;
        proof {
            assert(rest.drop_first() =~= ws.subrange(k + 1, ws.len() as int));
            assert(rest[0] == ws[k as int]);
        }
        let w = weights[k];
        if w == 1 {
            if ones == 0 {
                out.push(WeightCode::Unary(0));
            }
            ones = ones + 1;
            proof {
                assert(out@ + encoded_body(rest.drop_first(), ones as nat) =~= before + encoded_body(rest, (ones - 1) as nat));
            }
        } else {
            if ones > 0 {
                out.push(WeightCode::Gamma(ones as u64));
            }
            out.push(WeightCode::Unary((w - 1) as u64));
            proof {
                assert(out@ + encoded_body(rest.drop_first(), 0) =~= before + encoded_body(rest, ones as nat));
            }
            ones = 0;
        }
        k = k + 1;
    }
    let ghost before = out@;
    if ones > 0 {
        out.push(WeightCode::Gamma(ones as u64));
    }
    proof {
        assert(ws.subrange(k as int, ws.len() as int) =~= Seq::<usize>::empty());
        assert(before + encoded_body(Seq::<usize>::empty(), ones as nat) =~= out@);
    }
    out
}

/// Returns the weights that the codes give: their number first, in gamma,
/// then each weight: a unary `u` above zero is the weight `u + 1`, a unary
/// zero is followed by the length of a run of ones in gamma. `None` when the
/// codes end too soon, a code is not of the kind expected, a run of ones is
/// longer than the weights left, or a number does not fit.
pub fn decode_weights(codes: &Vec<WeightCode>) -> (r: Option<Vec<usize>>)
    ensures
        match r {
            Some(v) => decoded(codes@) == Some(v@),
            None => decoded(codes@) is None,
        },
{
    let ghost cs = codes@;
    if codes.len() == 0 {
        return None;
    }
    let total = match codes[0] {
        WeightCode::Gamma(n) => n,
        WeightCode::Unary(_) => {
            return None;
        },
    };
    if total > usize::MAX as u64 {
        return None;
    }
    let mut remaining: usize = total as usize;
    let mut out: Vec<usize> = Vec::new();
    let mut p: usize = 1;
    proof {
        assert(cs.subrange(1, cs.len() as int) =~= cs.drop_first());
        assert(out@ + Seq::<usize>::empty() =~= Seq::<usize>::empty());
    }
    while remaining != 0
        invariant
            cs == codes@,
            1 <= p <= cs.len(),
            decoded(cs) == match decode_from(cs.subrange(p as int, cs.len() as int), remaining as nat) {
                Some(rest) => Some(out@ + rest),
                None => None::<Seq<usize>>,
            },
        decreases cs.len() - p,
    {
        let ghost tail = cs.subrange(p as int, cs.len() as int);
        let ghost before = out@;
        if p >= codes.len() {
            return None;
        }
        proof {
            assert(tail[0] == cs[p as int]);
        }
        match codes[p] {
            WeightCode::Gamma(_) => {
                return None;
            },
            WeightCode::Unary(u) => {
                if u == 0 {
                    if p + 1 >= codes.len() {
                        return None;
                    }
                    proof {
                        assert(tail[1] == cs[p + 1]);
                    }
                    let run = match codes[p + 1] {
                        WeightCode::Gamma(r) => r,
                        WeightCode::Unary(_) => {
                            return None;
                        },
                    };
                    if run > remaining as u64 {
                        return None;
                    }
                    let run = run as usize;
                    let mut i: usize = 0;
                    while i < run
                        invariant
                            i <= run,
                            out@ == before + Seq::new(i as nat, |j: int| 1usize),
                        decreases run - i,
                    {
                        out.push(1);
                        i = i + 1;
                        proof {
                            assert(out@ =~= before + Seq::new(i as nat, |j: int| 1usize));
                        }
                    }
                    proof {
                        assert(tail.subrange(2, tail.len() as int) =~= cs.subrange(p + 2, cs.len() as int));
                        let next = decode_from(cs.subrange(p + 2, cs.len() as int), (remaining - run) as nat);
                        if let Some(rest) = next {
                            assert(before + (Seq::new(run as nat, |j: int| 1usize) + rest) =~= out@ + rest);
                        }
                    }
                    remaining = remaining - run;
                    p = p + 2;
                } else {
                    if u >= usize::MAX as u64 {
                        return None;
                    }
                    out.push((u + 1) as usize);
                    proof {
                        assert(tail.drop_first() =~= cs.subrange(p + 1, cs.len() as int));
                        let next = decode_from(cs.subrange(p + 1, cs.len() as int), (remaining - 1) as nat);
                        if let Some(rest) = next {
                            assert(before + (seq![(u + 1) as usize] + rest) =~= out@ + rest);
                        }
                    }
                    remaining = remaining - 1;
                    p = p + 1;
                }
            },
        }
    }
    proof {
        assert(out@ + Seq::<usize>::empty() =~= out@);
    }
    Some(out)
}

/// The number of ones `ws` starts with.
pub open spec fn leading_ones(ws: Seq<usize>) -> nat
    decreases ws.len(),
{
    if ws.len() > 0 && ws[0] == 1 {
        1 + leading_ones(ws.drop_first())
    } else {
        0
    }
}

/// The weights are their leading ones and what follows; what follows, when
/// there is anything, starts with a weight other than one.
proof fn lemma_leading_ones(ws: Seq<usize>)
    ensures
        leading_ones(ws) <= ws.len(),
        ws =~= Seq::new(leading_ones(ws), |i: int| 1usize) + ws.subrange(leading_ones(ws) as int, ws.len() as int),
        leading_ones(ws) < ws.len() ==> ws[leading_ones(ws) as int] != 1,
    decreases ws.len(),
{
    if ws.len() > 0 && ws[0] == 1 {
        let t = ws.drop_first();
        lemma_leading_ones(t);
        let a = leading_ones(t);
        assert forall|i: int| 0 <= i < ws.len() implies ws[i] == (Seq::new(a + 1, |i: int| 1usize) + ws.subrange(
            (a + 1) as int,
            ws.len() as int,
        ))[i] by {
            if i > 0 {
                assert(ws[i] == t[i - 1]);
            }
        }
    }
}

/// After a run of ones, more ones add no code until the run ends.
proof fn lemma_run_of_ones(z: Seq<usize>, m: nat, j: nat)
    requires
        m >= 1,
    ensures
        encoded_body(Seq::new(j, |i: int| 1usize) + z, m) == encoded_body(z, m + j),
    decreases j,
{
    let s = Seq::new(j, |i: int| 1usize) + z;
    if j > 0 {
        assert(s[0] == 1);
        assert(s.drop_first() =~= Seq::new((j - 1) as nat, |i: int| 1usize) + z);
        lemma_run_of_ones(z, m + 1, (j - 1) as nat);
        assert(Seq::<WeightCode>::empty() + encoded_body(s.drop_first(), m + 1) =~= encoded_body(s.drop_first(), m + 1));
    } else {
        assert(s =~= z);
    }
}

/// Reading the codes of weights, each at least one, gives the weights back,
/// whatever codes follow.
proof fn lemma_decode_body(ws: Seq<usize>, extra: Seq<WeightCode>)
    requires
        forall|i: int| 0 <= i < ws.len() ==> #[trigger] ws[i] >= 1,
        ws.len() <= usize::MAX,
    ensures
        decode_from(encoded_body(ws, 0) + extra, ws.len() as nat) == Some(ws),
    decreases ws.len(),
{
    if ws.len() == 0 {
    } else if ws[0] != 1 {
        let tail = ws.drop_first();
        lemma_decode_body(tail, extra);
        let w = ws[0];
        let head = WeightCode::Unary((w - 1) as u64);
        assert(encoded_body(ws, 0) =~= seq![head] + encoded_body(tail, 0));
        let codes = encoded_body(ws, 0) + extra;
        assert(codes[0] == head);
        assert(codes.drop_first() =~= encoded_body(tail, 0) + extra);
        assert(seq![w] + tail =~= ws);
    } else {
        lemma_leading_ones(ws);
        let a = leading_ones(ws);
        let after = ws.subrange(a as int, ws.len() as int);
        assert(a >= 1) by {
            assert(ws.drop_first().len() < ws.len());
        }
        assert forall|i: int| 0 <= i < after.len() implies #[trigger] after[i] >= 1 by {
            assert(after[i] == ws[a + i]);
        }
        lemma_decode_body(after, extra);
        let rest = ws.drop_first();
        assert(rest =~= Seq::new((a - 1) as nat, |i: int| 1usize) + after) by {
            assert forall|i: int| 0 <= i < rest.len() implies rest[i] == (Seq::new((a - 1) as nat, |i: int| 1usize)
                + after)[i] by {
                assert(rest[i] == ws[i + 1]);
                assert(ws[i + 1] == (Seq::new(a, |i: int| 1usize) + after)[i + 1]);
            }
        }
        lemma_run_of_ones(after, 1, (a - 1) as nat);
        assert(encoded_body(ws, 0) =~= seq![WeightCode::Unary(0)] + encoded_body(rest, 1));
        if a < ws.len() {
            let w = ws[a as int];
            assert(after[0] == w);
            assert(encoded_body(after, a) =~= seq![WeightCode::Gamma(a as u64)] + encoded_body(after, 0)) by {
                assert(encoded_body(after, 0) =~= seq![WeightCode::Unary((w - 1) as u64)] + encoded_body(
                    after.drop_first(),
                    0,
                ));
            }
        } else {
            assert(after =~= Seq::<usize>::empty());
            assert(encoded_body(after, a) =~= seq![WeightCode::Gamma(a as u64)] + encoded_body(after, 0));
        }
        let codes = encoded_body(ws, 0) + extra;
        assert(codes[0] == WeightCode::Unary(0));
        assert(codes[1] == WeightCode::Gamma(a as u64));
        assert(codes.subrange(2, codes.len() as int) =~= encoded_body(after, 0) + extra);
        assert(ws.len() - a == after.len());
        assert((a as u64) as nat == a);
        assert(decode_from(codes.subrange(2, codes.len() as int), (ws.len() - a) as nat) == Some(after));
        assert(decode_from(codes, ws.len() as nat) == Some(Seq::new(a, |i: int| 1usize) + after));
    }
}

/// Writing weights, each at least one, and reading the codes back gives the
/// weights back.
pub proof fn lemma_weights_roundtrip(ws: Seq<usize>)
    requires
        forall|i: int| 0 <= i < ws.len() ==> #[trigger] ws[i] >= 1,
        ws.len() <= usize::MAX,
    ensures
        decoded(encoded(ws)) == Some(ws),
{
    lemma_decode_body(ws, Seq::empty());
    let codes = encoded(ws);
    assert(codes[0] == WeightCode::Gamma(ws.len() as u64));
    assert(codes.drop_first() =~= encoded_body(ws, 0) + Seq::<WeightCode>::empty());
}

/// The kind of code a reader of weights reads next.
#[derive(Debug, Clone, Copy, PartialEq, Eq, Structural)]
pub enum CodeKind {
    /// An Elias gamma code.
    Gamma,
    /// A unary code.
    Unary,
}

/// Reads the weights of a node one code at a time: it says which kind of
/// code comes next, and takes each code as it is read.
pub struct WeightDecoder {
    /// The number of weights has been read.
    started: bool,
    /// The number of weights still to read.
    remaining: usize,
    /// The last code read opened a run of ones, whose length comes next.
    in_run: bool,
    /// The weights read so far.
    weights: Vec<usize>,
    /// A code did not fit.
    failed: bool,
}

impl WeightDecoder {
    /// The weights the decoder gives when the codes `rest` follow.
    pub closed spec fn outcome(&self, rest: Seq<WeightCode>) -> Option<Seq<usize>> {
        if self.failed {
            None
        } else if !self.started {
            decoded(rest)
        } else if self.in_run {
            if rest.len() == 0 {
                None
            } else {
                match rest[0] {
                    WeightCode::Unary(_) => None,
                    WeightCode::Gamma(r) => if r > self.remaining {
                        None
                    } else {
                        match decode_from(rest.drop_first(), (self.remaining - r) as nat) {
                            Some(more) => Some(self.weights@ + Seq::new(r as nat, |i: int| 1usize) + more),
                            None => None,
                        }
                    },
                }
            }
        } else {
            match decode_from(rest, self.remaining as nat) {
                Some(more) => Some(self.weights@ + more),
                None => None,
            }
        }
    }

    /// Before the number of weights is read, nothing else is.
    pub closed spec fn wf(&self) -> bool {
        !self.started ==> self.weights@.len() == 0 && !self.in_run
    }

    /// The decoder has nothing more to read.
    pub closed spec fn finished(&self) -> bool {
        self.failed || (self.started && !self.in_run && self.remaining == 0)
    }

    /// A decoder that has read nothing.
    pub fn new() -> (d: Self)
        ensures
            d.wf(),
            forall|rest: Seq<WeightCode>| #[trigger] d.outcome(rest) == decoded(rest),
            !d.finished(),
    {
        WeightDecoder { started: false, remaining: 0, in_run: false, weights: Vec::new(), failed: false }
    }

    /// The kind of code to read next, or `None` when there is nothing more
    /// to read; then what follows does not change the outcome.
    pub fn next_kind(&self) -> (r: Option<CodeKind>)
        ensures
            r is None <==> self.finished(),
            r is None ==> forall|a: Seq<WeightCode>, b: Seq<WeightCode>| #[trigger] self.outcome(a) == #[trigger] self.outcome(b),
            r == Some(CodeKind::Gamma) ==> forall|u: u64, rest: Seq<WeightCode>|
                #[trigger] self.outcome(seq![WeightCode::Unary(u)] + rest) is None,
            r == Some(CodeKind::Unary) ==> forall|g: u64, rest: Seq<WeightCode>|
                #[trigger] self.outcome(seq![WeightCode::Gamma(g)] + rest) is None,
    {
        if self.failed || (self.started && !self.in_run && self.remaining == 0) {
            None
        } else if !self.started || self.in_run {
            Some(CodeKind::Gamma)
        } else {
            Some(CodeKind::Unary)
        }
    }

    /// Takes the next code read.
    pub fn feed(&mut self, code: WeightCode)
        requires
            old(self).wf(),
        ensures
            final(self).wf(),
            forall|rest: Seq<WeightCode>| #[trigger] final(self).outcome(rest) == old(self).outcome(seq![code] + rest),
    {
        if self.failed {
            return;
        }
        if !self.started {
            match code {
                WeightCode::Gamma(n) => {
                    if n > usize::MAX as u64 {
                        self.failed = true;
                    } else {
                        self.started = true;
                        self.remaining = n as usize;
                        proof {
                            assert forall|rest: Seq<WeightCode>| #[trigger] self.outcome(rest) == old(self).outcome(
                                seq![code] + rest,
                            ) by {
                                let all = seq![code] + rest;
                                assert(all[0] == code);
                                assert(all.drop_first() =~= rest);
                                if let Some(more) = decode_from(rest, n as nat) {
                                    assert(self.weights@ + more =~= more);
                                }
                            }
                        }
                    }
                },
                WeightCode::Unary(_) => {
                    self.failed = true;
                },
            }
        } else if self.in_run {
            match code {
                WeightCode::Gamma(r) => {
                    if r > self.remaining as u64 {
                        self.failed = true;
                    } else {
                        let run = r as usize;
                        let mut i: usize = 0;
                        let ghost before = self.weights@;
                        while i < run
                            invariant
                                i <= run,
                                run <= self.remaining,
                                self.remaining == old(self).remaining,
                                self.started == old(self).started,
                                self.in_run == old(self).in_run,
                                self.failed == old(self).failed,
                                before == old(self).weights@,
                                self.weights@ == before + Seq::new(i as nat, |j: int| 1usize),
                            decreases run - i,
                        {
                            self.weights.push(1);
                            i = i + 1;
                            proof {
                                assert(self.weights@ =~= before + Seq::new(i as nat, |j: int| 1usize));
                            }
                        }
                        self.remaining = self.remaining - run;
                        self.in_run = false;
                        proof {
                            assert forall|rest: Seq<WeightCode>| #[trigger] self.outcome(rest) == old(self).outcome(
                                seq![code] + rest,
                            ) by {
                                let all = seq![code] + rest;
                                assert(all[0] == code);
                                assert(all.drop_first() =~= rest);
                                if let Some(more) = decode_from(rest, self.remaining as nat) {
                                    assert(before + Seq::new(r as nat, |j: int| 1usize) + more =~= self.weights@ + more);
                                }
                            }
                        }
                    }
                },
                WeightCode::Unary(_) => {
                    self.failed = true;
                },
            }
        } else if self.remaining == 0 {
            proof {
                assert forall|rest: Seq<WeightCode>| #[trigger] self.outcome(rest) == old(self).outcome(
                    seq![code] + rest,
                ) by {}
            }
        } else {
            match code {
                WeightCode::Gamma(_) => {
                    self.failed = true;
                    proof {
                        assert forall|rest: Seq<WeightCode>| #[trigger] self.outcome(rest) == old(self).outcome(
                            seq![code] + rest,
                        ) by {
                            let all = seq![code] + rest;
                            assert(all[0] == code);
                        }
                    }
                },
                WeightCode::Unary(u) => {
                    if u == 0 {
                        self.in_run = true;
                        proof {
                            assert forall|rest: Seq<WeightCode>| #[trigger] self.outcome(rest) == old(self).outcome(
                                seq![code] + rest,
                            ) by {
                                let all = seq![code] + rest;
                                assert(all[0] == code);
                                if rest.len() > 0 {
                                    assert(all[1] == rest[0]);
                                    assert(all.subrange(2, all.len() as int) =~= rest.drop_first());
                                    if let WeightCode::Gamma(r) = rest[0] {
                                        if r <= self.remaining {
                                            if let Some(more) = decode_from(rest.drop_first(), (self.remaining - r) as nat) {
                                                assert(self.weights@ + Seq::new(r as nat, |j: int| 1usize) + more
                                                    =~= self.weights@ + (Seq::new(r as nat, |j: int| 1usize) + more));
                                            }
                                        }
                                    }
                                }
                            }
                        }
                    } else if u >= usize::MAX as u64 {
                        self.failed = true;
                        proof {
                            assert forall|rest: Seq<WeightCode>| #[trigger] self.outcome(rest) == old(self).outcome(
                                seq![code] + rest,
                            ) by {
                                let all = seq![code] + rest;
                                assert(all[0] == code);
                            }
                        }
                    } else {
                        let ghost before = self.weights@;
                        self.weights.push((u + 1) as usize);
                        self.remaining = self.remaining - 1;
                        proof {
                            assert forall|rest: Seq<WeightCode>| #[trigger] self.outcome(rest) == old(self).outcome(
                                seq![code] + rest,
                            ) by {
                                let all = seq![code] + rest;
                                assert(all[0] == code);
                                assert(all.drop_first() =~= rest);
                                if let Some(more) = decode_from(rest, self.remaining as nat) {
                                    assert(before + (seq![(u + 1) as usize] + more) =~= self.weights@ + more);
                                }
                            }
                        }
                    }
                },
            }
        }
    }

    /// The weights read, once there is nothing more to read; `None` when a
    /// code did not fit.
    pub fn result(self) -> (r: Option<Vec<usize>>)
        requires
            self.finished(),
        ensures
            match r {
                Some(v) => forall|rest: Seq<WeightCode>| #[trigger] self.outcome(rest) == Some(v@),
                None => forall|rest: Seq<WeightCode>| #[trigger] self.outcome(rest) is None,
            },
    {
        if self.failed {
            None
        } else {
            proof {
                assert forall|rest: Seq<WeightCode>| #[trigger] self.outcome(rest) == Some(self.weights@) by {
                    assert(self.weights@ + Seq::<usize>::empty() =~= self.weights@);
                }
            }
            Some(self.weights)
        }
    }
}

} // verus!
