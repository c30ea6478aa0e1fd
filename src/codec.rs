//! Fixed-length text codec for integers of up to `MAX_BITS` bits.
//!
//! A value of `bits` bits is cut into `ceil(bits / 5)` groups of five bits,
//! most significant first (the leading group holds the remainder, zero-extended),
//! and each group is written as one symbol of the alphabet. Separator bytes
//! stand at fixed positions of the text and carry no data.
use vstd::arithmetic::div_mod::*;
use vstd::arithmetic::power::*;
use vstd::arithmetic::power2::*;
use vstd::prelude::*;

use crate::alphabet::{
    digit_of, fold_alias, is_symbol, lemma_symbol_decodes, map_byte, symbol, symbol_byte, Aliasing,
};
use crate::error::Error;

verus! {

/// The byte written at every separator position: `-`.
pub const SEPARATOR: u8 = 45;

/// The widest value a layout can describe.
pub const MAX_BITS: usize = 123;

/// The shape of the text form: value width, separator positions, aliasing.
pub struct Layout {
    /// Width of the value in bits.
    pub bits: usize,
    /// Positions of the separator bytes in the text, strictly increasing.
    pub separators: Vec<usize>,
    /// Which input bytes the decoder accepts besides the canonical symbols.
    pub aliasing: Aliasing,
}

/// The mathematical content of a `Layout`.
pub ghost struct LayoutView {
    pub bits: nat,
    pub separators: Seq<usize>,
    pub aliasing: Aliasing,
}

impl View for Layout {
    type V = LayoutView;

    open spec fn view(&self) -> LayoutView {
        LayoutView {
            bits: self.bits as nat,
            separators: self.separators@,
            aliasing: self.aliasing,
        }
    }
}

/// Number of symbols that carry a value of `bits` bits.
pub open spec fn num_digits(bits: nat) -> nat {
    (bits + 4) / 5
}

/// Digit `k` (counted from the most significant, of `n`) of `v` in base 32.
pub open spec fn digit_at(v: nat, n: nat, k: nat) -> nat {
    (v / (pow(32, (n - 1 - k) as nat) as nat)) % 32
}

/// The `n` canonical symbols that write `v`, most significant first.
pub open spec fn symbols_of(v: nat, n: nat) -> Seq<u8> {
    Seq::new(n, |k: int| symbol(digit_at(v, n, k as nat) as u8))
}

/// Reads data bytes left to right as base-32 digits. The result is the number
/// they write, or the first byte that is no digit under `aliasing`.
pub open spec fn scan(ds: Seq<u8>, aliasing: Aliasing) -> Result<nat, u8>
    decreases ds.len(),
{
    if ds.len() == 0 {
        Ok(0)
    } else {
        match scan(ds.drop_last(), aliasing) {
            Err(b) => Err(b),
            Ok(v) => match digit_of(ds.last(), aliasing) {
                Some(d) => Ok((v * 32 + d) as nat),
                None => Err(ds.last()),
            },
        }
    }
}

impl LayoutView {
    /// Number of data symbols in the text.
    pub open spec fn digits(&self) -> nat {
        num_digits(self.bits)
    }

    /// Length of the text in bytes: data symbols plus separators.
    pub open spec fn text_len(&self) -> nat {
        self.digits() + self.separators.len()
    }

    /// `2^bits`: values are taken modulo this.
    pub open spec fn modulus(&self) -> nat {
        pow2(self.bits)
    }

    /// Position `i` of the text holds a separator.
    pub open spec fn is_separator(&self, i: int) -> bool {
        exists|t: int| 0 <= t < self.separators.len() && self.separators[t] == i
    }

    /// A usable layout: width in `1..=MAX_BITS`, a text length that fits in
    /// `usize`, separator positions strictly increasing and inside the text.
    pub open spec fn wf(&self) -> bool {
        &&& 1 <= self.bits <= MAX_BITS as nat
        &&& self.text_len() <= usize::MAX as nat
        &&& forall|s: int, t: int|
            0 <= s < t < self.separators.len() ==> self.separators[s] < self.separators[t]
        &&& forall|t: int|
            0 <= t < self.separators.len() ==> self.separators[t] < self.text_len()
    }

    /// The bytes of `s` at the positions that are not separators, in order.
    pub open spec fn data_bytes(&self, s: Seq<u8>) -> Seq<u8>
        decreases s.len(),
    {
        if s.len() == 0 {
            Seq::empty()
        } else if self.is_separator(s.len() - 1) {
            self.data_bytes(s.drop_last())
        } else {
            self.data_bytes(s.drop_last()).push(s.last())
        }
    }

    /// `s` is the text of `v`: the right length, a separator byte at each
    /// separator position, and the symbols of `v mod 2^bits` at the others.
    pub open spec fn encodes(&self, v: nat, s: Seq<u8>) -> bool {
        &&& s.len() == self.text_len()
        &&& forall|i: int| 0 <= i < s.len() && self.is_separator(i) ==> s[i] == SEPARATOR
        &&& self.data_bytes(s) == symbols_of(v % self.modulus(), self.digits())
    }

    /// What decoding `s` gives: a length error, the first byte at a data
    /// position that is no digit, or the number the data symbols write, taken
    /// modulo `2^bits`. Bytes at separator positions are not read.
    pub open spec fn decoded(&self, s: Seq<u8>) -> Result<u128, Error> {
        if s.len() != self.text_len() {
            Err(Error::InvalidStrLen(s.len() as usize))
        } else {
            match scan(self.data_bytes(s), self.aliasing) {
                Err(b) => Err(Error::InvalidDigit(b)),
                Ok(v) => Ok((v % self.modulus()) as u128),
            }
        }
    }
}

/// `2^123` as a number.
proof fn lemma_pow2_max_bits()
    ensures
        pow2(MAX_BITS as nat) == 0x800_0000_0000_0000_0000_0000_0000_0000nat,
{
    lemma2_to64();
    lemma2_to64_rest();
    lemma_pow2_adds(64, 59);
}

/// `32^e == 2^(5e)`.
proof fn lemma_pow32(e: nat)
    ensures
        pow(32, e) == pow2(5 * e),
{
    lemma2_to64();
    lemma_pow_positive(2, 5);
    assert(pow(2, 5) == 32);
    lemma_pow_multiplies(2, 5, e);
    lemma_pow_positive(2, 5 * e);
    assert(pow(pow(2, 5), e) == pow(32, e));
}

/// Every place value below the leading symbol's is smaller than `2^bits`.
proof fn lemma_place_below_modulus(bits: nat, e: nat)
    requires
        1 <= bits,
        e < num_digits(bits),
    ensures
        pow(32, e) < pow2(bits),
{
    lemma_pow32(e);
    lemma_pow2_strictly_increases(5 * e, bits);
}

/// Every value below `2^bits` is below `32^digits`.
proof fn lemma_modulus_le_digit_range(bits: nat)
    ensures
        pow2(bits) <= pow(32, num_digits(bits)),
{
    lemma_pow32(num_digits(bits));
    if bits < 5 * num_digits(bits) {
        lemma_pow2_strictly_increases(bits, 5 * num_digits(bits));
    }
}

impl Layout {
    /// A layout for `bits`-bit values with separators at the given text
    /// positions; `None` unless `bits` is in `1..=MAX_BITS` and the positions
    /// are strictly increasing and inside the text.
    pub fn new(bits: usize, separators: Vec<usize>, aliasing: Aliasing) -> (r: Option<Layout>)
        ensures
            match r {
                Some(l) => l@ == (LayoutView {
                    bits: bits as nat,
                    separators: separators@,
                    aliasing,
                }) && l@.wf(),
                None => !(LayoutView { bits: bits as nat, separators: separators@, aliasing }).wf(),
            },
    {
        let ghost shape = LayoutView { bits: bits as nat, separators: separators@, aliasing };
        if bits < 1 || bits > MAX_BITS {
            return None;
        }
        let n: usize = (bits + 4) / 5;
        if separators.len() > usize::MAX - n {
            return None;
        }
        let len: usize = n + separators.len();
        let mut t: usize = 0;
        while t < separators.len()
            invariant
                shape == (LayoutView { bits: bits as nat, separators: separators@, aliasing }),
                len == shape.text_len(),
                t <= separators@.len(),
                forall|a: int, b: int| 0 <= a < b < t ==> separators@[a] < separators@[b],
                forall|a: int| 0 <= a < t ==> separators@[a] < len,
            decreases separators@.len() - t,
        {
            if separators[t] >= len {
                return None;
            }
            if t > 0 && separators[t - 1] >= separators[t] {
                return None;
            }
            t = t + 1;
        }
        Some(Layout { bits, separators, aliasing })
    }

    /// `2^bits`.
    fn modulus_exec(&self) -> (m: u128)
        requires
            self@.wf(),
        ensures
            m == self@.modulus(),
            m > 0,
    {
        let mut m: u128 = 1;
        let mut i: usize = 0;
        proof {
            lemma2_to64();
            lemma_pow2_max_bits();
        }
        while i < self.bits
            invariant
                self@.wf(),
                i <= self.bits,
                m == pow2(i as nat),
                m > 0,
            decreases self.bits - i,
        {
            proof {
                lemma_pow2_unfold((i + 1) as nat);
                lemma_pow2_max_bits();
                if i + 1 < MAX_BITS {
                    lemma_pow2_strictly_increases((i + 1) as nat, MAX_BITS as nat);
                }
            }
            m = m * 2;
            i = i + 1;
        }
        m
    }

    /// Place value of the leading symbol: `32^(digits - 1)`.
    fn leading_place(&self) -> (p: u128)
        requires
            self@.wf(),
        ensures
            p == pow(32, (self@.digits() - 1) as nat),
            p > 0,
    {
        let n: usize = (self.bits + 4) / 5;
        let mut p: u128 = 1;
        let mut i: usize = 1;
        proof {
            lemma_pow2_max_bits();
            reveal(pow);
        }
        while i < n
            invariant
                self@.wf(),
                n == self@.digits(),
                1 <= i <= n,
                p == pow(32, (i - 1) as nat),
                p > 0,
            decreases n - i,
        {
            proof {
                lemma_place_below_modulus(self.bits as nat, i as nat);
                lemma_pow2_max_bits();
                if self.bits < MAX_BITS {
                    lemma_pow2_strictly_increases(self.bits as nat, MAX_BITS as nat);
                }
                reveal(pow);
                assert(pow(32, i as nat) == 32 * pow(32, (i - 1) as nat));
            }
            p = p * 32;
            i = i + 1;
        }
        p
    }
}

impl LayoutView {
    /// Strictly increasing positions grow by at least one per index.
    proof fn lemma_separator_spread(&self, s: int, t: int)
        requires
            self.wf(),
            0 <= s <= t < self.separators.len(),
        ensures
            self.separators[t] >= self.separators[s] + (t - s),
        decreases t - s,
    {
        if s < t {
            self.lemma_separator_spread(s, t - 1);
        }
    }

    /// With `j` separators placed before text position `idx` and the next one
    /// not before it: `idx` is a separator exactly when the next one stands there.
    proof fn lemma_next_separator(&self, j: int, idx: int)
        requires
            self.wf(),
            0 <= j <= self.separators.len(),
            forall|t: int| 0 <= t < j ==> self.separators[t] < idx,
            j < self.separators.len() ==> self.separators[j as int] >= idx,
        ensures
            self.is_separator(idx) <==> (j < self.separators.len() && self.separators[j] == idx),
    {
        if self.is_separator(idx) {
            let t = choose|t: int| 0 <= t < self.separators.len() && self.separators[t] == idx;
            if t > j {
                assert(self.separators[j] < self.separators[t]);
            }
        }
    }

    /// With `j` separators placed before text position `idx`, and `idx` not a
    /// separator, a data symbol is still owed.
    proof fn lemma_data_left(&self, j: int, idx: int)
        requires
            self.wf(),
            0 <= j <= self.separators.len(),
            idx < self.text_len(),
            forall|t: int| 0 <= t < j ==> self.separators[t] < idx,
            j < self.separators.len() ==> self.separators[j] > idx,
        ensures
            idx - j < self.digits(),
    {
        let last = self.separators.len() - 1;
        if j <= last {
            self.lemma_separator_spread(j, last);
        }
    }

}

impl Layout {
    /// The text of `value`: the symbols of `value mod 2^bits` with separator
    /// bytes at the separator positions.
    pub fn encode(&self, value: u128) -> (r: Vec<u8>)
        requires
            self@.wf(),
        ensures
            self@.encodes(value as nat, r@),
            forall|i: int| 0 <= i < r@.len() ==> r@[i] < 128,
    {
        let m = self.modulus_exec();
        let v = value % m;
        let n: usize = (self.bits + 4) / 5;
        let len: usize = n + self.separators.len();
        let mut place = self.leading_place();
        let mut out: Vec<u8> = Vec::new();
        let mut j: usize = 0;
        let mut k: usize = 0;
        let mut idx: usize = 0;
        while idx < len
            invariant
                self@.wf(),
                n == self@.digits(),
                len == self@.text_len(),
                v as nat == value as nat % self@.modulus(),
                out@.len() == idx,
                idx <= len,
                j + k == idx,
                j <= self.separators@.len(),
                k <= n,
                forall|t: int| 0 <= t < j ==> self.separators@[t] < idx,
                j < self.separators@.len() ==> self.separators@[j as int] >= idx,
                forall|i: int| 0 <= i < idx && self@.is_separator(i) ==> out@[i] == SEPARATOR,
                forall|i: int| 0 <= i < idx ==> out@[i] < 128,
                self@.data_bytes(out@) == symbols_of(v as nat, n as nat).take(k as int),
                k < n ==> place == pow(32, (n - 1 - k) as nat),
                place > 0,
            decreases len - idx,
        {
            proof {
                self@.lemma_next_separator(j as int, idx as int);
            }
            let ghost before = out@;
            if j < self.separators.len() && self.separators[j] == idx {
                out.push(SEPARATOR);
                j = j + 1;
                proof {
                    assert(out@.drop_last() =~= before);
                }
            } else {
                proof {
                    self@.lemma_data_left(j as int, idx as int);
                }
                let d = ((v / place) % 32) as u8;
                out.push(symbol_byte(d));
                proof {
                    assert(out@.drop_last() =~= before);
                    assert(self@.data_bytes(out@) =~= symbols_of(v as nat, n as nat).take(k + 1));
                }
                if k + 1 < n {
                    proof {
                        reveal(pow);
                        assert(pow(32, (n - 1 - k) as nat) == 32 * pow(32, (n - 2 - k) as nat));
                        lemma_pow_positive(32, (n - 2 - k) as nat);
                    }
                    place = place / 32;
                }
                k = k + 1;
            }
            idx = idx + 1;
        }
        proof {
            assert(symbols_of(v as nat, n as nat).take(n as int) =~= symbols_of(v as nat, n as nat));
        }
        out
    }
}

/// Once a prefix of the data meets a byte that is no digit, the whole does.
proof fn lemma_scan_error_persists(p: Seq<u8>, q: Seq<u8>, aliasing: Aliasing)
    requires
        p.len() <= q.len(),
        q.subrange(0, p.len() as int) == p,
        scan(p, aliasing) is Err,
    ensures
        scan(q, aliasing) == scan(p, aliasing),
    decreases q.len(),
{
    if q.len() > p.len() {
        assert(q.drop_last().subrange(0, p.len() as int) =~= p);
        lemma_scan_error_persists(p, q.drop_last(), aliasing);
    } else {
        assert(q =~= p);
    }
}

/// One step of the accumulation modulo `m`.
proof fn lemma_mod_step(v: nat, acc: nat, d: nat, m: nat)
    requires
        m > 0,
        acc == v % m,
    ensures
        (acc * 32 + d) % m == (v * 32 + d) % m,
{
    lemma_mul_mod_noop_left(v as int, 32, m as int);
    lemma_add_mod_noop((acc * 32) as int, d as int, m as int);
    lemma_add_mod_noop((v * 32) as int, d as int, m as int);
}

impl LayoutView {
    /// The data bytes of a prefix of `s` begin the data bytes of `s`.
    proof fn lemma_data_prefix(&self, s: Seq<u8>, i: int)
        requires
            0 <= i <= s.len(),
        ensures
            self.data_bytes(s.take(i)).len() <= self.data_bytes(s).len(),
            self.data_bytes(s).subrange(0, self.data_bytes(s.take(i)).len() as int)
                == self.data_bytes(s.take(i)),
        decreases s.len(),
    {
        if i == s.len() {
            assert(s.take(i) =~= s);
            assert(self.data_bytes(s).subrange(0, self.data_bytes(s).len() as int)
                =~= self.data_bytes(s));
        } else {
            assert(s.drop_last().take(i) =~= s.take(i));
            self.lemma_data_prefix(s.drop_last(), i);
            let a = self.data_bytes(s.take(i));
            let b = self.data_bytes(s.drop_last());
            assert(self.data_bytes(s).subrange(0, a.len() as int) =~= b.subrange(0, a.len() as int));
        }
    }

}

impl Layout {
    /// Decodes a text of this layout; see `decoded` for the outcome.
    pub fn decode(&self, input: &[u8]) -> (r: Result<u128, Error>)
        requires
            self@.wf(),
        ensures
            r == self@.decoded(input@),
    {
        let n: usize = (self.bits + 4) / 5;
        let len: usize = n + self.separators.len();
        if input.len() != len {
            return Err(Error::InvalidStrLen(input.len()));
        }
        let m = self.modulus_exec();
        let mut acc: u128 = 0;
        let ghost mut v: nat = 0;
        let mut j: usize = 0;
        let mut idx: usize = 0;
        while idx < len
            invariant
                self@.wf(),
                len == self@.text_len(),
                input@.len() == len,
                m == self@.modulus(),
                m > 0,
                idx <= len,
                j <= self.separators@.len(),
                forall|t: int| 0 <= t < j ==> self.separators@[t] < idx,
                j < self.separators@.len() ==> self.separators@[j as int] >= idx,
                scan(self@.data_bytes(input@.take(idx as int)), self.aliasing) == Ok::<nat, u8>(v),
                acc as nat == v % m as nat,
            decreases len - idx,
        {
            proof {
                self@.lemma_next_separator(j as int, idx as int);
                assert(input@.take(idx + 1).drop_last() =~= input@.take(idx as int));
            }
            let ghost prev = self@.data_bytes(input@.take(idx as int));
            if j < self.separators.len() && self.separators[j] == idx {
                j = j + 1;
                proof {
                    assert(self@.data_bytes(input@.take(idx + 1)) == prev);
                }
            } else {
                let b = input[idx];
                proof {
                    assert(self@.data_bytes(input@.take(idx + 1)) == prev.push(b));
                    assert(prev.push(b).drop_last() =~= prev);
                }
                let d = match map_byte(b, self.aliasing) {
                    Ok(d) => d,
                    Err(e) => {
                        proof {
                            self@.lemma_data_prefix(input@, idx + 1);
                            assert(input@.take(input@.len() as int) =~= input@);
                            lemma_scan_error_persists(
                                self@.data_bytes(input@.take(idx + 1)),
                                self@.data_bytes(input@),
                                self.aliasing,
                            );
                        }
                        return Err(e);
                    },
                };
                proof {
                    lemma_mod_step(v, acc as nat, d as nat, m as nat);
                    lemma_pow2_max_bits();
                    if self.bits < MAX_BITS {
                        lemma_pow2_strictly_increases(self.bits as nat, MAX_BITS as nat);
                    }
                    v = v * 32 + d as nat;
                }
                acc = (acc * 32 + d as u128) % m;
            }
            idx = idx + 1;
        }
        proof {
            assert(input@.take(len as int) =~= input@);
            lemma_small_mod(acc as nat, m as nat);
        }
        Ok(acc)
    }
}

/// The first `k` symbols of `w` read back as `w / 32^(n - k)`.
proof fn lemma_scan_symbols(w: nat, n: nat, k: nat, aliasing: Aliasing)
    requires
        k <= n,
        w < pow(32, n),
    ensures
        scan(symbols_of(w, n).take(k as int), aliasing) == Ok::<nat, u8>(
            w / (pow(32, (n - k) as nat) as nat),
        ),
    decreases k,
{
    lemma_pow_positive(32, (n - k) as nat);
    if k == 0 {
        assert(symbols_of(w, n).take(0) =~= Seq::<u8>::empty());
        lemma_basic_div(w as int, pow(32, n));
    } else {
        let prev = (k - 1) as nat;
        lemma_scan_symbols(w, n, prev, aliasing);
        let ds = symbols_of(w, n).take(k as int);
        assert(ds.drop_last() =~= symbols_of(w, n).take(prev as int));
        let p = pow(32, (n - k) as nat);
        lemma_pow_positive(32, (n - k) as nat);
        reveal(pow);
        assert(pow(32, (n - prev) as nat) == 32 * p);
        let dd = digit_at(w, n, prev);
        assert(dd < 32);
        lemma_symbol_decodes(dd as u8, aliasing);
        let x = w / (p as nat);
        lemma_div_denominator(w as int, p, 32);
        lemma_fundamental_div_mod(x as int, 32);
        assert((n - 1 - prev) as nat == (n - k) as nat);
    }
}

/// Decoding the text of `v` gives back `v mod 2^bits`: the low `bits` bits of
/// `v`, and `v` itself for every value of the layout's width.
pub proof fn lemma_round_trip(layout: LayoutView, v: nat, s: Seq<u8>)
    requires
        layout.wf(),
        layout.encodes(v, s),
    ensures
        layout.decoded(s) == Ok::<u128, Error>((v % layout.modulus()) as u128),
        v < layout.modulus() ==> layout.decoded(s) == Ok::<u128, Error>(v as u128),
{
    let m = layout.modulus();
    let n = layout.digits();
    let w = v % m;
    lemma_pow2_pos(layout.bits);
    lemma_mod_bound(v as int, m as int);
    lemma_modulus_le_digit_range(layout.bits);
    lemma_pow2_max_bits();
    if layout.bits < MAX_BITS {
        lemma_pow2_strictly_increases(layout.bits, MAX_BITS as nat);
    }
    lemma_scan_symbols(w, n, n, layout.aliasing);
    assert(symbols_of(w, n).take(n as int) =~= symbols_of(w, n));
    // the last place value is 32^0 == 1
    lemma_pow0(32);
    assert(pow(32, (n - n) as nat) == pow(32, 0));
    assert(w / 1nat == w);
    assert(scan(layout.data_bytes(s), layout.aliasing) == Ok::<nat, u8>(w));
    lemma_small_mod(w, m);
    if v < m {
        lemma_small_mod(v, m);
    }
}

/// The text of any value has the layout's length, and a text of any other
/// length is refused with that length, whatever it holds.
pub proof fn lemma_fixed_length(layout: LayoutView, v: nat, s: Seq<u8>, t: Seq<u8>)
    requires
        layout.wf(),
        layout.encodes(v, s),
        t.len() != layout.text_len(),
    ensures
        s.len() == layout.text_len(),
        layout.decoded(t) == Err::<u128, Error>(Error::InvalidStrLen(t.len() as usize)),
{
}

/// Data that are all digits read as a number.
proof fn lemma_scan_all_digits(ds: Seq<u8>, aliasing: Aliasing)
    requires
        forall|k: int| 0 <= k < ds.len() ==> digit_of(#[trigger] ds[k], aliasing) is Some,
    ensures
        scan(ds, aliasing) is Ok,
    decreases ds.len(),
{
    if ds.len() > 0 {
        assert(digit_of(ds[ds.len() - 1], aliasing) is Some);
        lemma_scan_all_digits(ds.drop_last(), aliasing);
    }
}

/// Data with one byte that is no digit are refused with some such byte.
proof fn lemma_scan_bad_digit(ds: Seq<u8>, k: int, aliasing: Aliasing)
    requires
        0 <= k < ds.len(),
        digit_of(ds[k], aliasing) is None,
    ensures
        scan(ds, aliasing) matches Err(b) && digit_of(b, aliasing) is None,
    decreases ds.len(),
{
    if k < ds.len() - 1 {
        lemma_scan_bad_digit(ds.drop_last(), k, aliasing);
    } else {
        if scan(ds.drop_last(), aliasing) is Err {
            lemma_scan_error_byte(ds.drop_last(), aliasing);
        }
    }
}

/// The byte that stops a scan is no digit.
proof fn lemma_scan_error_byte(ds: Seq<u8>, aliasing: Aliasing)
    ensures
        scan(ds, aliasing) matches Err(b) ==> digit_of(b, aliasing) is None,
    decreases ds.len(),
{
    if ds.len() > 0 {
        lemma_scan_error_byte(ds.drop_last(), aliasing);
    }
}

impl LayoutView {
    /// The data bytes are the bytes of `s` at the positions that are not
    /// separators.
    proof fn lemma_data_bytes_members(&self, s: Seq<u8>)
        ensures
            forall|k: int|
                0 <= k < self.data_bytes(s).len() ==> exists|i: int|
                    0 <= i < s.len() && !self.is_separator(i) && s[i] == #[trigger] self.data_bytes(
                        s,
                    )[k],
            forall|i: int|
                0 <= i < s.len() && !self.is_separator(i) ==> exists|k: int|
                    0 <= k < self.data_bytes(s).len() && self.data_bytes(s)[k] == #[trigger] s[i],
        decreases s.len(),
    {
        if s.len() > 0 {
            let p = s.drop_last();
            self.lemma_data_bytes_members(p);
            let dp = self.data_bytes(p);
            let ds = self.data_bytes(s);
            assert forall|k: int| 0 <= k < ds.len() implies exists|i: int|
                0 <= i < s.len() && !self.is_separator(i) && s[i] == #[trigger] ds[k] by {
                if k < dp.len() {
                    assert(ds[k] == dp[k]);
                    let i = choose|i: int| 0 <= i < p.len() && !self.is_separator(i) && p[i] == dp[k];
                    assert(s[i] == p[i]);
                } else {
                    assert(s[s.len() - 1] == ds[k]);
                }
            }
            assert forall|i: int| 0 <= i < s.len() && !self.is_separator(i) implies exists|k: int|
                0 <= k < ds.len() && ds[k] == #[trigger] s[i] by {
                if i < p.len() {
                    assert(p[i] == s[i]);
                    let k = choose|k: int| 0 <= k < dp.len() && dp[k] == p[i];
                    assert(ds[k] == dp[k]);
                } else {
                    assert(ds[ds.len() - 1] == s[i]);
                }
            }
        }
    }
}

/// A text of the layout's length whose data positions all hold canonical
/// symbols decodes; one with a byte at a data position that is no digit under
/// the layout's aliasing is refused with an `InvalidDigit` error naming such
/// a byte.
pub proof fn lemma_alphabet_closure(layout: LayoutView, s: Seq<u8>)
    requires
        layout.wf(),
        s.len() == layout.text_len(),
    ensures
        (forall|i: int| 0 <= i < s.len() && !layout.is_separator(i) ==> is_symbol(#[trigger] s[i]))
            ==> layout.decoded(s) is Ok,
        (exists|i: int|
            0 <= i < s.len() && !layout.is_separator(i) && digit_of(#[trigger] s[i], layout.aliasing)
                is None) ==> (layout.decoded(s) matches Err(Error::InvalidDigit(b)) && digit_of(
            b,
            layout.aliasing,
        ) is None),
{
    let ds = layout.data_bytes(s);
    layout.lemma_data_bytes_members(s);
    if forall|i: int| 0 <= i < s.len() && !layout.is_separator(i) ==> is_symbol(#[trigger] s[i]) {
        assert forall|k: int| 0 <= k < ds.len() implies digit_of(#[trigger] ds[k], layout.aliasing) is Some by {
            let i = choose|i: int| 0 <= i < s.len() && !layout.is_separator(i) && s[i] == ds[k];
            assert(is_symbol(s[i]));
            let d = choose|d: u8| d < 32 && symbol(d) == s[i];
            lemma_symbol_decodes(d, layout.aliasing);
        }
        lemma_scan_all_digits(ds, layout.aliasing);
    }
    if exists|i: int|
        0 <= i < s.len() && !layout.is_separator(i) && digit_of(#[trigger] s[i], layout.aliasing) is None {
        let i = choose|i: int|
            0 <= i < s.len() && !layout.is_separator(i) && digit_of(#[trigger] s[i], layout.aliasing) is None;
        let k = choose|k: int| 0 <= k < ds.len() && ds[k] == s[i];
        lemma_scan_bad_digit(ds, k, layout.aliasing);
    }
}

/// Replacing each byte by the canonical byte it is read as changes no digit.
proof fn lemma_scan_folded(ds: Seq<u8>)
    ensures
        scan(ds.map_values(|b: u8| fold_alias(b)), Aliasing::Lenient) is Ok == scan(
            ds,
            Aliasing::Lenient,
        ) is Ok,
        scan(ds, Aliasing::Lenient) is Ok ==> scan(
            ds.map_values(|b: u8| fold_alias(b)),
            Aliasing::Lenient,
        ) == scan(ds, Aliasing::Lenient),
    decreases ds.len(),
{
    if ds.len() > 0 {
        let f = ds.map_values(|b: u8| fold_alias(b));
        assert(f.drop_last() =~= ds.drop_last().map_values(|b: u8| fold_alias(b)));
        lemma_scan_folded(ds.drop_last());
        assert(fold_alias(fold_alias(ds.last())) == fold_alias(ds.last()));
    }
}

impl LayoutView {
    /// Mapping every byte of a text maps its data bytes.
    proof fn lemma_data_bytes_folded(&self, s: Seq<u8>)
        ensures
            self.data_bytes(s.map_values(|b: u8| fold_alias(b))) == self.data_bytes(s).map_values(
                |b: u8| fold_alias(b),
            ),
        decreases s.len(),
    {
        let f = s.map_values(|b: u8| fold_alias(b));
        if s.len() > 0 {
            assert(f.drop_last() =~= s.drop_last().map_values(|b: u8| fold_alias(b)));
            self.lemma_data_bytes_folded(s.drop_last());
        }
        assert(self.data_bytes(f) =~= self.data_bytes(s).map_values(|b: u8| fold_alias(b)));
    }
}

/// Under lenient aliasing, a text with uppercase or look-alike bytes decodes
/// to the same value as its canonical form, in which each byte is replaced by
/// the canonical byte it is read as; one decodes exactly when the other does.
pub proof fn lemma_alias_equivalence(layout: LayoutView, s: Seq<u8>)
    requires
        layout.wf(),
        layout.aliasing == Aliasing::Lenient,
    ensures
        layout.decoded(s) is Ok == layout.decoded(s.map_values(|b: u8| fold_alias(b))) is Ok,
        layout.decoded(s) is Ok ==> layout.decoded(s) == layout.decoded(
            s.map_values(|b: u8| fold_alias(b)),
        ),
{
    layout.lemma_data_bytes_folded(s);
    lemma_scan_folded(layout.data_bytes(s));
}

} // verus!
