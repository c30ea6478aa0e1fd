//! The 100-bit identifier: a 36-bit time field over a 64-bit random field,
//! written as 22 characters in groups of 6, 8 and 6 symbols.
use vstd::arithmetic::power2::{lemma2_to64, lemma2_to64_rest, lemma_pow2_adds};
use vstd::prelude::*;
use vstd::string::StringSliceAdditionalSpecFns;

use crate::alphabet::Aliasing;
use crate::codec::{lemma_round_trip, Layout, LayoutView};
use crate::error::Error;

verus! {

/// Length of an identifier's text.
pub const STR_LEN: usize = 22;

/// Width of an identifier in bits.
pub const ID_BITS: usize = 100;

/// Width of the random field in bits.
pub const RND_BITS: usize = 64;

/// Width of the time field in bits.
pub const TIME_BITS: usize = 36;

/// `2^100`: identifiers are below this.
pub const ID_MODULUS: u128 = 0x10_0000_0000_0000_0000_0000_0000;

/// `2^64`: random fields are below this.
pub const RND_MODULUS: u128 = 0x1_0000_0000_0000_0000;

/// `2^36`: time fields are below this.
pub const TIME_MODULUS: u128 = 0x10_0000_0000;

/// Milliseconds from the Unix epoch to 2020-01-01T00:00:00Z.
pub const EPOCH_MILLIS: u128 = 1_577_836_800_000;

/// Ticks per second: a tick of the time field is 31.25 ms.
pub const TICKS_PER_SECOND: u128 = 32;


/// The identifier's text layout: 100 bits, separators at positions 6 and 15,
/// canonical symbols only.
pub open spec fn id_layout_view() -> LayoutView {
    LayoutView { bits: 100, separators: seq![6usize, 15usize], aliasing: Aliasing::Strict }
}

/// The time field for a clock reading of `ms` milliseconds since the Unix
/// epoch: whole 31.25 ms ticks since 2020-01-01.
pub open spec fn tick_count(ms: nat) -> nat {
    (((ms - EPOCH_MILLIS) as nat) * (TICKS_PER_SECOND as nat)) / 1000
}

/// The value of an identifier with the given time and random fields: the low
/// 36 bits of `time` over the low 64 bits of `random`.
pub open spec fn compose(time: nat, random: nat) -> nat {
    (time % (TIME_MODULUS as nat)) * (RND_MODULUS as nat) + random % (RND_MODULUS as nat)
}

/// A 100-bit identifier.
#[derive(Clone, Copy, Debug, PartialEq, Eq, Structural, Hash, PartialOrd, Ord)]
pub struct Id(u128);

impl View for Id {
    type V = nat;

    closed spec fn view(&self) -> nat {
        self.0 as nat
    }
}

/// The layout's modulus is `2^100`.
proof fn lemma_id_modulus()
    ensures
        id_layout_view().modulus() == ID_MODULUS,
{
    lemma2_to64();
    lemma2_to64_rest();
    lemma_pow2_adds(64, 36);
}

/// The identifier's layout.
fn id_layout() -> (l: Layout)
    ensures
        l@ == id_layout_view(),
        l@.wf(),
{
    let mut separators: Vec<usize> = Vec::new();
    separators.push(6);
    separators.push(15);
    let l = Layout { bits: ID_BITS, separators, aliasing: Aliasing::Strict };
    assert(l@.separators =~= seq![6usize, 15usize]);
    l
}

/// The low 100 bits of `n`.
pub fn to_100bit(n: u128) -> (r: u128)
    ensures
        r == n % ID_MODULUS,
{
    let r = n & 0xF_FFFF_FFFF_FFFF_FFFF_FFFF_FFFF;
    assert(n & 0xF_FFFF_FFFF_FFFF_FFFF_FFFF_FFFF == n % 0x10_0000_0000_0000_0000_0000_0000)
        by (bit_vector);
    r
}

/// The text of the low 100 bits of `n`.
pub fn encode_array(n: u128) -> (r: Vec<u8>)
    ensures
        id_layout_view().encodes(n as nat, r@),
        r@.len() == STR_LEN,
        forall|i: int| 0 <= i < r@.len() ==> r@[i] < 128,
{
    id_layout().encode(n)
}

/// Reads an identifier's text; see `LayoutView::decoded`.
pub fn decode(input: &[u8]) -> (r: Result<u128, Error>)
    ensures
        r == id_layout_view().decoded(input@),
{
    id_layout().decode(input)
}

/// Relies on `std::time::SystemTime::elapsed`, called on `UNIX_EPOCH`: the
/// time since 1970 by the system clock; the error when the clock reads earlier
/// becomes `None`.
#[verifier::external_body]
fn elapsed_since_unix_epoch() -> std::option::Option<std::time::Duration> {
    std::time::UNIX_EPOCH.elapsed().ok()
}

/// Relies on `std::time::Duration::as_millis`: the whole milliseconds of `d`.
#[verifier::external_body]
fn whole_millis(d: &std::time::Duration) -> u128 {
    d.as_millis()
}

/// Relies on `fastrand::u128` over the full range, which never panics there:
/// a random `u128` from the thread-local generator.
#[verifier::external_body]
fn random_u128() -> u128 {
    fastrand::u128(..)
}

/// Relies on `String::from_utf8`: bytes below 128 are valid UTF-8, each byte
/// one character.
#[verifier::external_body]
fn ascii_string(bytes: Vec<u8>) -> (r: String)
    requires
        forall|i: int| 0 <= i < bytes@.len() ==> bytes@[i] < 128,
    ensures
        r@ == bytes@.map_values(|b: u8| b as char),
{
    String::from_utf8(bytes).unwrap()
}

/// The time field for a clock reading of `ms` milliseconds since the Unix
/// epoch, which must not be before 2020-01-01.
pub fn timestamp_from_unix_millis(ms: u128) -> (r: u128)
    requires
        ms >= EPOCH_MILLIS,
    ensures
        r == tick_count(ms as nat),
{
    let elapsed = ms - EPOCH_MILLIS;
    let seconds = elapsed / 1000;
    let millis = elapsed % 1000;
    // whole seconds and the rest apart, so that nothing overflows
    proof {
        let e = elapsed as int;
        let x = seconds as int * 32;
        let b = millis as int * 32;
        assert(e == 1000 * (e / 1000) + e % 1000) by {
            vstd::arithmetic::div_mod::lemma_fundamental_div_mod(e, 1000);
        }
        assert(e * 32 == 1000 * x + b) by (nonlinear_arith)
            requires
                e == 1000 * (e / 1000) + e % 1000,
                x == (e / 1000) * 32,
                b == (e % 1000) * 32,
        ;
        vstd::arithmetic::div_mod::lemma_fundamental_div_mod(b, 1000);
        assert(1000 * x + b == 1000 * (x + b / 1000) + b % 1000) by (nonlinear_arith)
            requires
                b == 1000 * (b / 1000) + b % 1000,
        ;
        vstd::arithmetic::div_mod::lemma_mod_bound(b, 1000);
        vstd::arithmetic::div_mod::lemma_div_multiples_vanish_fancy(x + b / 1000, b % 1000, 1000);
    }
    assert(seconds * 32 <= u128::MAX / 2) by (nonlinear_arith)
        requires
            seconds == elapsed / 1000,
    ;
    seconds * TICKS_PER_SECOND + millis * TICKS_PER_SECOND / 1000
}

impl Id {
    #[verifier::type_invariant]
    spec fn inv(&self) -> bool {
        self.0 < ID_MODULUS
    }

    /// The identifier's value.
    pub fn as_u128(&self) -> (r: u128)
        ensures
            r == self@,
            r < ID_MODULUS,
    {
        proof {
            use_type_invariant(self);
        }
        self.0
    }

    /// The identifier of the low 100 bits of `x`.
    pub fn from_u128(x: u128) -> (r: Id)
        ensures
            r@ == x % ID_MODULUS,
    {
        Id(to_100bit(x))
    }

    /// The identifier with time field `time` and random field `random`, each
    /// cut to its width.
    pub fn from_time_and_random(time: u128, random: u128) -> (r: Id)
        ensures
            r@ == compose(time as nat, random as nat),
    {
        let t = time % TIME_MODULUS;
        let x = random % RND_MODULUS;
        assert(t * RND_MODULUS + x < ID_MODULUS) by (nonlinear_arith)
            requires
                t < TIME_MODULUS,
                x < RND_MODULUS,
        ;
        Id(t * RND_MODULUS + x)
    }

    /// The identifier for a clock reading of `ms` milliseconds since the Unix
    /// epoch (not before 2020-01-01) and a random draw.
    pub fn from_unix_millis(ms: u128, random: u128) -> (r: Id)
        requires
            ms >= EPOCH_MILLIS,
        ensures
            r@ == compose(tick_count(ms as nat), random as nat),
    {
        Id::from_time_and_random(timestamp_from_unix_millis(ms), random)
    }

    /// The identifier for a clock reading of `ms` milliseconds since the Unix
    /// epoch and a random draw: `None` when the reading is before 2020-01-01.
    pub fn from_clock_reading(ms: u128, random: u128) -> (r: Option<Id>)
        ensures
            ms < EPOCH_MILLIS ==> r is None,
            ms >= EPOCH_MILLIS ==> (r matches Some(id) && id@ == compose(
                tick_count(ms as nat),
                random as nat,
            )),
    {
        if ms < EPOCH_MILLIS {
            None
        } else {
            Some(Id::from_unix_millis(ms, random))
        }
    }

    /// A fresh identifier from the system clock and the thread-local random
    /// generator; `None` when the clock reads before 2020-01-01.
    pub fn new() -> (r: Option<Id>)
        ensures
            r matches Some(id) ==> exists|ms: u128, random: u128|
                ms >= EPOCH_MILLIS && id@ == compose(tick_count(ms as nat), random as nat),
    {
        match elapsed_since_unix_epoch() {
            None => None,
            Some(d) => Id::from_clock_reading(whole_millis(&d), random_u128()),
        }
    }

    /// The identifier that `s` writes; see `LayoutView::decoded`.
    pub fn parse(s: &str) -> (r: Result<Id, Error>)
        ensures
            (r is Ok) == (id_layout_view().decoded(s.spec_bytes()) is Ok),
            r matches Ok(id) ==> id_layout_view().decoded(s.spec_bytes()) == Ok::<u128, Error>(
                id@ as u128,
            ),
            r matches Err(e) ==> id_layout_view().decoded(s.spec_bytes()) == Err::<u128, Error>(e),
    {
        proof {
            lemma_id_modulus();
        }
        match decode(s.as_bytes()) {
            Ok(v) => Ok(Id::from_u128(v)),
            Err(e) => Err(e),
        }
    }

    /// The identifier's text.
    pub fn to_string(&self) -> (r: String)
        ensures
            id_layout_view().encodes(self@, r@.map_values(|c: char| c as u8)),
            r@.len() == STR_LEN,
            forall|i: int| 0 <= i < r@.len() ==> (r@[i] as u32) < 128,
    {
        let bytes = encode_array(self.as_u128());
        let ghost b = bytes@;
        let r = ascii_string(bytes);
        assert(r@.map_values(|c: char| c as u8) =~= b);
        r
    }
}

/// A type whose values carry an identifier.
pub trait Identifiable {
    fn id(&self) -> Id;
}

impl From<u128> for Id {
    /// The identifier of the low 100 bits of `x`.
    fn from(x: u128) -> (r: Id)
        ensures
            r@ == x % ID_MODULUS,
    {
        let r = Id::from_u128(x);
        assert(r == Id(x % ID_MODULUS));
        r
    }
}

impl vstd::std_specs::convert::FromSpecImpl<u128> for Id {
    open spec fn obeys_from_spec() -> bool {
        true
    }

    closed spec fn from_spec(v: u128) -> Id {
        Id(v % ID_MODULUS)
    }
}

impl std::str::FromStr for Id {
    type Err = Error;

    /// The identifier that `s` writes; see `Id::parse`.
    fn from_str(s: &str) -> (r: Result<Id, Error>)
        ensures
            (r is Ok) == (id_layout_view().decoded(s.spec_bytes()) is Ok),
            r matches Ok(id) ==> id_layout_view().decoded(s.spec_bytes()) == Ok::<u128, Error>(
                id@ as u128,
            ),
            r matches Err(e) ==> id_layout_view().decoded(s.spec_bytes()) == Err::<u128, Error>(e),
    {
        Id::parse(s)
    }
}

/// Decoding the text of any number gives back its low 100 bits.
pub proof fn lemma_id_round_trip(x: nat, s: Seq<u8>)
    requires
        id_layout_view().encodes(x, s),
    ensures
        id_layout_view().decoded(s) == Ok::<u128, Error>((x % (ID_MODULUS as nat)) as u128),
{
    lemma_id_modulus();
    lemma_round_trip(id_layout_view(), x, s);
}

/// A later clock reading never has a smaller time count.
pub proof fn lemma_tick_count_monotone(ms1: nat, ms2: nat)
    requires
        EPOCH_MILLIS <= ms1 <= ms2,
    ensures
        tick_count(ms1) <= tick_count(ms2),
{
    let a = (ms1 - EPOCH_MILLIS) as nat;
    let b = (ms2 - EPOCH_MILLIS) as nat;
    vstd::arithmetic::div_mod::lemma_div_is_ordered((a * 32) as int, (b * 32) as int, 1000);
}

/// Identifiers made from clock readings at least 32 ms apart sort by time,
/// whatever their random fields, as long as the later reading's time field
/// has not run past 36 bits (the year 2088).
pub proof fn lemma_later_time_sorts_later(ms1: nat, random1: nat, ms2: nat, random2: nat)
    requires
        EPOCH_MILLIS <= ms1,
        ms1 + 32 <= ms2,
        tick_count(ms2) < TIME_MODULUS,
    ensures
        tick_count(ms1) < tick_count(ms2),
        compose(tick_count(ms1), random1) < compose(tick_count(ms2), random2),
{
    let a = (ms1 - EPOCH_MILLIS) as nat;
    let b = (ms2 - EPOCH_MILLIS) as nat;
    assert((a * 32) / 1000 < (b * 32) / 1000) by (nonlinear_arith)
        requires
            a + 32 <= b,
    ;
    let t1 = tick_count(ms1);
    let t2 = tick_count(ms2);
    vstd::arithmetic::div_mod::lemma_small_mod(t1, TIME_MODULUS as nat);
    vstd::arithmetic::div_mod::lemma_small_mod(t2, TIME_MODULUS as nat);
    let m = RND_MODULUS as nat;
    let r1 = random1 % m;
    let r2 = random2 % m;
    assert(t1 * m + r1 < t2 * m + r2) by (nonlinear_arith)
        requires
            t1 < t2,
            r1 < m,
    ;
}

} // verus!
