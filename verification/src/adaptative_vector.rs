//! A vector of unsigned integers that stores its values in the narrowest of
//! `u8`, `u16`, `u32` and `u64` that they need, and widens when a value no
//! longer fits.
use vstd::prelude::*;

verus! {

/// The largest value of the width with index `w`: 0 for `u8`, 1 for `u16`,
/// 2 for `u32`, 3 for `u64`.
pub open spec fn width_max(w: nat) -> nat {
    if w == 0 {
        0xFF
    } else if w == 1 {
        0xFFFF
    } else if w == 2 {
        0xFFFF_FFFF
    } else {
        0xFFFF_FFFF_FFFF_FFFF
    }
}

/// The narrowest width that holds the value `v`.
pub open spec fn tier(v: nat) -> nat {
    if v <= 0xFF {
        0
    } else if v <= 0xFFFF {
        1
    } else if v <= 0xFFFF_FFFF {
        2
    } else {
        3
    }
}

/// The larger of two widths.
pub open spec fn max_width(a: nat, b: nat) -> nat {
    if a >= b {
        a
    } else {
        b
    }
}

/// The smaller of two widths.
pub open spec fn min_width(a: nat, b: nat) -> nat {
    if a <= b {
        a
    } else {
        b
    }
}

/// An unsigned integer tagged with the width it is stored in.
#[derive(Debug, Clone, Copy, PartialEq, Eq, PartialOrd, Ord)]
pub enum AdaptativeVectorValue {
    /// A value stored in a `u8`.
    U8(u8),
    /// A value stored in a `u16`.
    U16(u16),
    /// A value stored in a `u32`.
    U32(u32),
    /// A value stored in a `u64`.
    U64(u64),
}

impl AdaptativeVectorValue {
    /// The number held.
    pub open spec fn value(self) -> nat {
        match self {
            AdaptativeVectorValue::U8(v) => v as nat,
            AdaptativeVectorValue::U16(v) => v as nat,
            AdaptativeVectorValue::U32(v) => v as nat,
            AdaptativeVectorValue::U64(v) => v as nat,
        }
    }

    /// The index of the width it is stored in.
    pub open spec fn width(self) -> nat {
        match self {
            AdaptativeVectorValue::U8(_) => 0,
            AdaptativeVectorValue::U16(_) => 1,
            AdaptativeVectorValue::U32(_) => 2,
            AdaptativeVectorValue::U64(_) => 3,
        }
    }

    /// The width that adding `self` and `amount` gives: the wider of the two,
    /// or the next one when the sum does not fit in it.
    pub open spec fn sum_width(self, amount: Self) -> nat {
        let w = max_width(self.width(), amount.width());
        if self.value() + amount.value() <= width_max(w) {
            w
        } else {
            w + 1
        }
    }

    /// The same value, stored in the narrowest width not above its own that
    /// holds it.
    pub fn smallest(value: Self) -> (r: Self)
        ensures
            r.value() == value.value(),
            r.width() == min_width(value.width(), tier(value.value())),
    {
        match value {
            AdaptativeVectorValue::U8(value) => AdaptativeVectorValue::U8(value),
            AdaptativeVectorValue::U16(value) => {
                if value <= 255u16 {
                    AdaptativeVectorValue::U8(value as u8)
                } else {
                    AdaptativeVectorValue::U16(value)
                }
            },
            AdaptativeVectorValue::U32(value) => {
                if value <= 255u32 {
                    AdaptativeVectorValue::U8(value as u8)
                } else if value <= 65535u32 {
                    AdaptativeVectorValue::U16(value as u16)
                } else {
                    AdaptativeVectorValue::U32(value)
                }
            },
            AdaptativeVectorValue::U64(value) => {
                if value <= 255u64 {
                    AdaptativeVectorValue::U8(value as u8)
                } else if value <= 65535u64 {
                    AdaptativeVectorValue::U16(value as u16)
                } else if value <= 4294967295u64 {
                    AdaptativeVectorValue::U32(value as u32)
                } else {
                    AdaptativeVectorValue::U64(value)
                }
            },
        }
    }

    /// Adds two values. The sum is stored in the wider of the two widths,
    /// or in the next one when it overflows that width.
    pub fn add(self, amount: Self) -> (r: Self)
        requires
            self.value() + amount.value() <= u64::MAX,
        ensures
            r.value() == self.value() + amount.value(),
            r.width() == self.sum_width(amount),
        decreases 3 - min_width(self.width(), amount.width()),
    {
        match self {
            AdaptativeVectorValue::U8(value) => match amount {
                AdaptativeVectorValue::U8(amount) => {
                    if value as u16 + amount as u16 > 255u16 {
                        AdaptativeVectorValue::U16(value as u16 + amount as u16)
                    } else {
                        AdaptativeVectorValue::U8(value + amount)
                    }
                },
                AdaptativeVectorValue::U16(amount) => {
                    AdaptativeVectorValue::U16(value as u16).add(AdaptativeVectorValue::U16(amount))
                },
                AdaptativeVectorValue::U32(amount) => {
                    AdaptativeVectorValue::U32(value as u32).add(AdaptativeVectorValue::U32(amount))
                },
                AdaptativeVectorValue::U64(amount) => {
                    AdaptativeVectorValue::U64(value as u64).add(AdaptativeVectorValue::U64(amount))
                },
            },
            AdaptativeVectorValue::U16(value) => match amount {
                AdaptativeVectorValue::U8(amount) => {
                    AdaptativeVectorValue::U16(value).add(AdaptativeVectorValue::U16(amount as u16))
                },
                AdaptativeVectorValue::U16(amount) => {
                    if value as u32 + amount as u32 > 65535u32 {
                        AdaptativeVectorValue::U32(value as u32 + amount as u32)
                    } else {
                        AdaptativeVectorValue::U16(value + amount)
                    }
                },
                AdaptativeVectorValue::U32(amount) => {
                    AdaptativeVectorValue::U32(value as u32).add(AdaptativeVectorValue::U32(amount))
                },
                AdaptativeVectorValue::U64(amount) => {
                    AdaptativeVectorValue::U64(value as u64).add(AdaptativeVectorValue::U64(amount))
                },
            },
            AdaptativeVectorValue::U32(value) => match amount {
                AdaptativeVectorValue::U8(amount) => {
                    AdaptativeVectorValue::U32(value).add(AdaptativeVectorValue::U32(amount as u32))
                },
                AdaptativeVectorValue::U16(amount) => {
                    AdaptativeVectorValue::U32(value).add(AdaptativeVectorValue::U32(amount as u32))
                },
                AdaptativeVectorValue::U32(amount) => {
                    if value as u64 + amount as u64 > 4294967295u64 {
                        AdaptativeVectorValue::U64(value as u64 + amount as u64)
                    } else {
                        AdaptativeVectorValue::U32(value + amount)
                    }
                },
                AdaptativeVectorValue::U64(amount) => {
                    AdaptativeVectorValue::U64(value as u64).add(AdaptativeVectorValue::U64(amount))
                },
            },
            AdaptativeVectorValue::U64(value) => match amount {
                AdaptativeVectorValue::U8(amount) => {
                    AdaptativeVectorValue::U64(value).add(AdaptativeVectorValue::U64(amount as u64))
                },
                AdaptativeVectorValue::U16(amount) => {
                    AdaptativeVectorValue::U64(value).add(AdaptativeVectorValue::U64(amount as u64))
                },
                AdaptativeVectorValue::U32(amount) => {
                    AdaptativeVectorValue::U64(value).add(AdaptativeVectorValue::U64(amount as u64))
                },
                AdaptativeVectorValue::U64(amount) => AdaptativeVectorValue::U64(value + amount),
            },
        }
    }

    /// Adds `amount` in place, widening as `add` does.
    pub fn add_assign(&mut self, amount: Self)
        requires
            old(self).value() + amount.value() <= u64::MAX,
        ensures
            final(self).value() == old(self).value() + amount.value(),
            final(self).width() == old(self).sum_width(amount),
    {
        *self = (*self).add(amount);
    }
}

impl Default for AdaptativeVectorValue {
    /// Zero, stored in a `u8`.
    fn default() -> (r: Self)
        ensures
            r == AdaptativeVectorValue::U8(0),
    {
        AdaptativeVectorValue::U8(0)
    }
}

/// The largest of a sequence of numbers, zero when it is empty.
pub open spec fn seq_max(s: Seq<nat>) -> nat
    decreases s.len(),
{
    if s.len() == 0 {
        0
    } else {
        let m = seq_max(s.drop_last());
        if s.last() > m {
            s.last()
        } else {
            m
        }
    }
}

/// A vector of unsigned integers stored in the narrowest width they need.
#[derive(Debug, Clone)]
pub enum AdaptativeVector {
    /// Values stored as `u8`.
    U8(Vec<u8>),
    /// Values stored as `u16`.
    U16(Vec<u16>),
    /// Values stored as `u32`.
    U32(Vec<u32>),
    /// Values stored as `u64`.
    U64(Vec<u64>),
}

impl AdaptativeVector {
    /// The numbers held, in order.
    pub open spec fn values(&self) -> Seq<nat> {
        match self {
            AdaptativeVector::U8(v) => v@.map_values(|x: u8| x as nat),
            AdaptativeVector::U16(v) => v@.map_values(|x: u16| x as nat),
            AdaptativeVector::U32(v) => v@.map_values(|x: u32| x as nat),
            AdaptativeVector::U64(v) => v@.map_values(|x: u64| x as nat),
        }
    }

    /// The index of the width the values are stored in.
    pub open spec fn width(&self) -> nat {
        match self {
            AdaptativeVector::U8(_) => 0,
            AdaptativeVector::U16(_) => 1,
            AdaptativeVector::U32(_) => 2,
            AdaptativeVector::U64(_) => 3,
        }
    }

    /// Every value fits the width of the vector.
    pub proof fn lemma_values_fit(&self)
        ensures
            forall|i: int| 0 <= i < self.values().len() ==> #[trigger] self.values()[i] <= width_max(self.width()),
    {
    }

    /// The largest value the current width can hold.
    pub fn type_max(&self) -> (r: u64)
        ensures
            r == width_max(self.width()),
    {
        match self {
            AdaptativeVector::U8(_) => 255u64,
            AdaptativeVector::U16(_) => 65535u64,
            AdaptativeVector::U32(_) => 4294967295u64,
            AdaptativeVector::U64(_) => 18446744073709551615u64,
        }
    }

    /// Creates a new, empty adaptative vector, of the smallest width, `u8`.
    pub fn with_capacity(capacity: usize) -> (r: Self)
        ensures
            r.values() == Seq::<nat>::empty(),
            r.width() == 0,
    {
        let v: Vec<u8> = Vec::with_capacity(capacity);
        let r = AdaptativeVector::U8(v);
        assert(r.values() =~= Seq::<nat>::empty());
        r
    }

    /// Returns the length of the vector.
    pub fn len(&self) -> (r: usize)
        ensures
            r == self.values().len(),
    {
        match self {
            AdaptativeVector::U8(vector) => vector.len(),
            AdaptativeVector::U16(vector) => vector.len(),
            AdaptativeVector::U32(vector) => vector.len(),
            AdaptativeVector::U64(vector) => vector.len(),
        }
    }

    /// The `i`-th value.
    pub(crate) fn value_at(&self, i: usize) -> (r: u64)
        requires
            i < self.values().len(),
        ensures
            r == self.values()[i as int],
    {
        match self {
            AdaptativeVector::U8(vector) => vector[i] as u64,
            AdaptativeVector::U16(vector) => vector[i] as u64,
            AdaptativeVector::U32(vector) => vector[i] as u64,
            AdaptativeVector::U64(vector) => vector[i],
        }
    }

    /// Returns the maximum value in the vector, zero when it is empty, in the
    /// width of the vector.
    pub fn max(&self) -> (r: AdaptativeVectorValue)
        ensures
            r.value() == seq_max(self.values()),
            r.width() == self.width(),
    {
        let n = self.len();
        let mut m: u64 = 0;
        let mut i: usize = 0;
        while i < n
            invariant
                n == self.values().len(),
                i <= n,
                m == seq_max(self.values().take(i as int)),
                m <= width_max(self.width()),
            decreases n - i,
        {
            let v = self.value_at(i);
            proof {
                assert(self.values().take(i + 1).drop_last() =~= self.values().take(i as int));
                self.lemma_values_fit();
            }
            if v > m {
                m = v;
            }
            i = i + 1;
        }
        proof {
            assert(self.values().take(i as int) =~= self.values());
        }
        match self {
            AdaptativeVector::U8(_) => AdaptativeVectorValue::U8(m as u8),
            AdaptativeVector::U16(_) => AdaptativeVectorValue::U16(m as u16),
            AdaptativeVector::U32(_) => AdaptativeVectorValue::U32(m as u32),
            AdaptativeVector::U64(_) => AdaptativeVectorValue::U64(m),
        }
    }

    /// Moves the values into the wider width of `value`, then appends
    /// `value`.
    fn push_upgrade_vector(&mut self, value: AdaptativeVectorValue)
        requires
            value.width() > old(self).width(),
            old(self).values().len() + 1 <= usize::MAX,
        ensures
            final(self).values() == old(self).values().push(value.value()),
            final(self).width() == value.width(),
    {
        let n = self.len();
        proof {
            self.lemma_values_fit();
        }
        match value {
            AdaptativeVectorValue::U8(_) => {},
            AdaptativeVectorValue::U16(x) => {
                let mut nv: Vec<u16> = Vec::with_capacity(n + 1);
                let mut i: usize = 0;
                while i < n
                    invariant
                        n == self.values().len(),
                        i <= n,
                        self.width() < 1,
                        forall|k: int| 0 <= k < n ==> #[trigger] self.values()[k] <= width_max(self.width()),
                        nv@.map_values(|y: u16| y as nat) == self.values().take(i as int),
                    decreases n - i,
                {
                    let v = self.value_at(i);
                    let ghost prev = nv@;
                    nv.push(v as u16);
                    proof {
                        assert(nv@ == prev.push(v as u16));
                        assert(self.values().take(i + 1) =~= self.values().take(i as int).push(self.values()[i as int]));
                        assert(nv@.map_values(|y: u16| y as nat) =~= prev.map_values(|y: u16| y as nat).push(v as nat));
                    }
                    i = i + 1;
                }
                nv.push(x);
                proof {
                    assert(self.values().take(i as int) =~= self.values());
                    assert(nv@.map_values(|y: u16| y as nat) =~= self.values().push(value.value()));
                }
                *self = AdaptativeVector::U16(nv);
            },
            AdaptativeVectorValue::U32(x) => {
                let mut nv: Vec<u32> = Vec::with_capacity(n + 1);
                let mut i: usize = 0;
                while i < n
                    invariant
                        n == self.values().len(),
                        i <= n,
                        self.width() < 2,
                        forall|k: int| 0 <= k < n ==> #[trigger] self.values()[k] <= width_max(self.width()),
                        nv@.map_values(|y: u32| y as nat) == self.values().take(i as int),
                    decreases n - i,
                {
                    let v = self.value_at(i);
                    let ghost prev = nv@;
                    nv.push(v as u32);
                    proof {
                        assert(nv@ == prev.push(v as u32));
                        assert(self.values().take(i + 1) =~= self.values().take(i as int).push(self.values()[i as int]));
                        assert(nv@.map_values(|y: u32| y as nat) =~= prev.map_values(|y: u32| y as nat).push(v as nat));
                    }
                    i = i + 1;
                }
                nv.push(x);
                proof {
                    assert(self.values().take(i as int) =~= self.values());
                    assert(nv@.map_values(|y: u32| y as nat) =~= self.values().push(value.value()));
                }
                *self = AdaptativeVector::U32(nv);
            },
            AdaptativeVectorValue::U64(x) => {
                let mut nv: Vec<u64> = Vec::with_capacity(n + 1);
                let mut i: usize = 0;
                while i < n
                    invariant
                        n == self.values().len(),
                        i <= n,
                        nv@.map_values(|y: u64| y as nat) == self.values().take(i as int),
                    decreases n - i,
                {
                    let v = self.value_at(i);
                    let ghost prev = nv@;
                    nv.push(v);
                    proof {
                        assert(nv@ == prev.push(v));
                        assert(self.values().take(i + 1) =~= self.values().take(i as int).push(self.values()[i as int]));
                        assert(nv@.map_values(|y: u64| y as nat) =~= prev.map_values(|y: u64| y as nat).push(v as nat));
                    }
                    i = i + 1;
                }
                nv.push(x);
                proof {
                    assert(self.values().take(i as int) =~= self.values());
                    assert(nv@.map_values(|y: u64| y as nat) =~= self.values().push(value.value()));
                }
                *self = AdaptativeVector::U64(nv);
            },
        }
    }

    /// Pushes a value to the vector, first narrowed as `smallest` does. The
    /// vector is converted to a wider width only when the value does not fit
    /// its current one; the result says whether that happened.
    pub fn push(&mut self, value: AdaptativeVectorValue) -> (upgraded: bool)
        requires
            old(self).values().len() + 1 <= usize::MAX,
        ensures
            final(self).values() == old(self).values().push(value.value()),
            upgraded == (min_width(value.width(), tier(value.value())) > old(self).width()),
            value.value() <= width_max(old(self).width()) ==> !upgraded && final(self).width() == old(self).width(),
            final(self).width() == max_width(old(self).width(), min_width(value.width(), tier(value.value()))),
    {
        let value = AdaptativeVectorValue::smallest(value);
        let ghost before = self.values();
        match self {
            AdaptativeVector::U8(vector) => match value {
                AdaptativeVectorValue::U8(value) => {
                    vector.push(value);
                    proof {
                        assert(vector@.map_values(|x: u8| x as nat) =~= before.push(value as nat));
                    }
                    false
                },
                AdaptativeVectorValue::U16(_) => {
                    self.push_upgrade_vector(value);
                    true
                },
                AdaptativeVectorValue::U32(_) => {
                    self.push_upgrade_vector(value);
                    true
                },
                AdaptativeVectorValue::U64(_) => {
                    self.push_upgrade_vector(value);
                    true
                },
            },
            AdaptativeVector::U16(vector) => match value {
                AdaptativeVectorValue::U8(value) => {
                    vector.push(value as u16);
                    proof {
                        assert(vector@.map_values(|x: u16| x as nat) =~= before.push(value as nat));
                    }
                    false
                },
                AdaptativeVectorValue::U16(value) => {
                    vector.push(value);
                    proof {
                        assert(vector@.map_values(|x: u16| x as nat) =~= before.push(value as nat));
                    }
                    false
                },
                AdaptativeVectorValue::U32(_) => {
                    self.push_upgrade_vector(value);
                    true
                },
                AdaptativeVectorValue::U64(_) => {
                    self.push_upgrade_vector(value);
                    true
                },
            },
            AdaptativeVector::U32(vector) => match value {
                AdaptativeVectorValue::U8(value) => {
                    vector.push(value as u32);
                    proof {
                        assert(vector@.map_values(|x: u32| x as nat) =~= before.push(value as nat));
                    }
                    false
                },
                AdaptativeVectorValue::U16(value) => {
                    vector.push(value as u32);
                    proof {
                        assert(vector@.map_values(|x: u32| x as nat) =~= before.push(value as nat));
                    }
                    false
                },
                AdaptativeVectorValue::U32(value) => {
                    vector.push(value);
                    proof {
                        assert(vector@.map_values(|x: u32| x as nat) =~= before.push(value as nat));
                    }
                    false
                },
                AdaptativeVectorValue::U64(_) => {
                    self.push_upgrade_vector(value);
                    true
                },
            },
            AdaptativeVector::U64(vector) => match value {
                AdaptativeVectorValue::U8(value) => {
                    vector.push(value as u64);
                    proof {
                        assert(vector@.map_values(|x: u64| x as nat) =~= before.push(value as nat));
                    }
                    false
                },
                AdaptativeVectorValue::U16(value) => {
                    vector.push(value as u64);
                    proof {
                        assert(vector@.map_values(|x: u64| x as nat) =~= before.push(value as nat));
                    }
                    false
                },
                AdaptativeVectorValue::U32(value) => {
                    vector.push(value as u64);
                    proof {
                        assert(vector@.map_values(|x: u64| x as nat) =~= before.push(value as nat));
                    }
                    false
                },
                AdaptativeVectorValue::U64(value) => {
                    vector.push(value);
                    proof {
                        assert(vector@.map_values(|x: u64| x as nat) =~= before.push(value as nat));
                    }
                    false
                },
            },
        }
    }
}

impl From<u8> for AdaptativeVectorValue {
    fn from(value: u8) -> (r: Self) {
        AdaptativeVectorValue::U8(value)
    }
}

impl vstd::std_specs::convert::FromSpecImpl<u8> for AdaptativeVectorValue {
    open spec fn obeys_from_spec() -> bool {
        true
    }

    open spec fn from_spec(value: u8) -> Self {
        AdaptativeVectorValue::U8(value)
    }
}

impl From<u16> for AdaptativeVectorValue {
    fn from(value: u16) -> (r: Self) {
        AdaptativeVectorValue::U16(value)
    }
}

impl vstd::std_specs::convert::FromSpecImpl<u16> for AdaptativeVectorValue {
    open spec fn obeys_from_spec() -> bool {
        true
    }

    open spec fn from_spec(value: u16) -> Self {
        AdaptativeVectorValue::U16(value)
    }
}

impl From<u32> for AdaptativeVectorValue {
    fn from(value: u32) -> (r: Self) {
        AdaptativeVectorValue::U32(value)
    }
}

impl vstd::std_specs::convert::FromSpecImpl<u32> for AdaptativeVectorValue {
    open spec fn obeys_from_spec() -> bool {
        true
    }

    open spec fn from_spec(value: u32) -> Self {
        AdaptativeVectorValue::U32(value)
    }
}

impl From<u64> for AdaptativeVectorValue {
    fn from(value: u64) -> (r: Self) {
        AdaptativeVectorValue::U64(value)
    }
}

impl vstd::std_specs::convert::FromSpecImpl<u64> for AdaptativeVectorValue {
    open spec fn obeys_from_spec() -> bool {
        true
    }

    open spec fn from_spec(value: u64) -> Self {
        AdaptativeVectorValue::U64(value)
    }
}

impl From<usize> for AdaptativeVectorValue {
    fn from(value: usize) -> (r: Self) {
        AdaptativeVectorValue::U64(value as u64)
    }
}

impl vstd::std_specs::convert::FromSpecImpl<usize> for AdaptativeVectorValue {
    open spec fn obeys_from_spec() -> bool {
        true
    }

    open spec fn from_spec(value: usize) -> Self {
        AdaptativeVectorValue::U64(value as u64)
    }
}

impl From<Vec<u8>> for AdaptativeVector {
    fn from(vector: Vec<u8>) -> (r: Self) {
        AdaptativeVector::U8(vector)
    }
}

impl vstd::std_specs::convert::FromSpecImpl<Vec<u8>> for AdaptativeVector {
    open spec fn obeys_from_spec() -> bool {
        true
    }

    open spec fn from_spec(vector: Vec<u8>) -> Self {
        AdaptativeVector::U8(vector)
    }
}

impl From<Vec<u16>> for AdaptativeVector {
    fn from(vector: Vec<u16>) -> (r: Self) {
        AdaptativeVector::U16(vector)
    }
}

impl vstd::std_specs::convert::FromSpecImpl<Vec<u16>> for AdaptativeVector {
    open spec fn obeys_from_spec() -> bool {
        true
    }

    open spec fn from_spec(vector: Vec<u16>) -> Self {
        AdaptativeVector::U16(vector)
    }
}

impl From<Vec<u32>> for AdaptativeVector {
    fn from(vector: Vec<u32>) -> (r: Self) {
        AdaptativeVector::U32(vector)
    }
}

impl vstd::std_specs::convert::FromSpecImpl<Vec<u32>> for AdaptativeVector {
    open spec fn obeys_from_spec() -> bool {
        true
    }

    open spec fn from_spec(vector: Vec<u32>) -> Self {
        AdaptativeVector::U32(vector)
    }
}

impl From<Vec<u64>> for AdaptativeVector {
    fn from(vector: Vec<u64>) -> (r: Self) {
        AdaptativeVector::U64(vector)
    }
}

impl vstd::std_specs::convert::FromSpecImpl<Vec<u64>> for AdaptativeVector {
    open spec fn obeys_from_spec() -> bool {
        true
    }

    open spec fn from_spec(vector: Vec<u64>) -> Self {
        AdaptativeVector::U64(vector)
    }
}

} // verus!
