//! VarInt and VarLong: signed 32-bit and 64-bit numbers written as groups.
//!
//! A signed value is written through the unsigned number with the same bits,
//! so a negative VarInt always takes five groups and a negative VarLong ten.
//! Both types share one encoder, one decoder and one reader, which differ
//! only in the number of groups they allow.

use crate::groups::{
    groups, groups_value, lemma_groups_len, lemma_groups_len_lower, lemma_groups_shape,
    lemma_groups_value_bound, lemma_groups_value_concat, lemma_padded, lemma_pow128_monotonic,
    lemma_pow128_values, lemma_read_groups_of_groups, lemma_read_groups_settled,
    lemma_read_groups_waiting, lemma_run_end, lemma_run_end_is, lemma_unterminated_is_too_long,
    padded, pow128, read_groups, run_end, VarIntError,
};
use vstd::prelude::*;

verus! {

/// The most groups a VarInt may take.
pub const VARINT_MAX_GROUPS: usize = 5;

/// The most groups a VarLong may take.
pub const VARLONG_MAX_GROUPS: usize = 10;

/// The unsigned number with the same 32 bits as `v`.
pub open spec fn unsigned32(v: i32) -> nat {
    if v >= 0 {
        v as nat
    } else {
        (v + 0x1_0000_0000) as nat
    }
}

/// The signed number with the low 32 bits of `n`.
pub open spec fn signed32(n: nat) -> i32 {
    let low = n % 0x1_0000_0000;
    if low < 0x8000_0000 {
        low as i32
    } else {
        (low - 0x1_0000_0000) as i32
    }
}

/// The unsigned number with the same 64 bits as `v`.
pub open spec fn unsigned64(v: i64) -> nat {
    if v >= 0 {
        v as nat
    } else {
        (v + 0x1_0000_0000_0000_0000) as nat
    }
}

/// The signed number with the low 64 bits of `n`.
pub open spec fn signed64(n: nat) -> i64 {
    let low = n % 0x1_0000_0000_0000_0000;
    if low < 0x8000_0000_0000_0000 {
        low as i64
    } else {
        (low - 0x1_0000_0000_0000_0000) as i64
    }
}

/// The bytes of the VarInt `v`.
pub open spec fn varint_bytes(v: i32) -> Seq<u8> {
    groups(unsigned32(v))
}

/// The bytes of the VarLong `v`.
pub open spec fn varlong_bytes(v: i64) -> Seq<u8> {
    groups(unsigned64(v))
}

/// What decoding a VarInt from the start of `s` gives: the value and the
/// number of bytes consumed.  Bits above the 32nd are dropped.
pub open spec fn varint_decode(s: Seq<u8>) -> Result<(i32, nat), VarIntError> {
    match read_groups(s, VARINT_MAX_GROUPS as nat) {
        Ok((n, used)) => Ok((signed32(n), used)),
        Err(e) => Err(e),
    }
}

/// What decoding a VarLong from the start of `s` gives: the value and the
/// number of bytes consumed.  Bits above the 64th are dropped.
pub open spec fn varlong_decode(s: Seq<u8>) -> Result<(i64, nat), VarIntError> {
    match read_groups(s, VARLONG_MAX_GROUPS as nat) {
        Ok((n, used)) => Ok((signed64(n), used)),
        Err(e) => Err(e),
    }
}

/// The two readings of 32 bits undo each other.
pub proof fn lemma_signed32_unsigned32(v: i32)
    ensures
        unsigned32(v) < 0x1_0000_0000,
        signed32(unsigned32(v)) == v,
{
}

/// The two readings of 64 bits undo each other.
pub proof fn lemma_signed64_unsigned64(v: i64)
    ensures
        unsigned64(v) < 0x1_0000_0000_0000_0000,
        signed64(unsigned64(v)) == v,
{
}

/// A VarInt takes one to five bytes, and its last byte has no continuation bit.
pub proof fn lemma_varint_len(v: i32)
    ensures
        1 <= varint_bytes(v).len() <= VARINT_MAX_GROUPS,
        v == 0 ==> varint_bytes(v) == seq![0u8],
        0 <= v < 128 ==> varint_bytes(v).len() == 1,
        v < 0 ==> varint_bytes(v).len() == VARINT_MAX_GROUPS,
{
    lemma_pow128_values();
    lemma_groups_len(unsigned32(v), 5);
    if v < 0 {
        lemma_groups_len_lower(unsigned32(v), 4);
    }
}

/// A VarLong takes one to ten bytes.
pub proof fn lemma_varlong_len(v: i64)
    ensures
        1 <= varlong_bytes(v).len() <= VARLONG_MAX_GROUPS,
        v == 0 ==> varlong_bytes(v) == seq![0u8],
        v < 0 ==> varlong_bytes(v).len() == VARLONG_MAX_GROUPS,
{
    lemma_pow128_values();
    lemma_groups_len(unsigned64(v), 10);
    if v < 0 {
        lemma_groups_len_lower(unsigned64(v), 9);
    }
}

/// Decoding the bytes of a VarInt gives the value back and consumes exactly
/// those bytes, whatever follows them.
pub proof fn lemma_varint_roundtrip(v: i32, rest: Seq<u8>)
    ensures
        varint_decode(varint_bytes(v) + rest) == Ok::<(i32, nat), VarIntError>(
            (v, varint_bytes(v).len()),
        ),
{
    lemma_varint_len(v);
    lemma_signed32_unsigned32(v);
    lemma_read_groups_of_groups(unsigned32(v), VARINT_MAX_GROUPS as nat, rest);
}

/// Decoding the bytes of a VarLong gives the value back and consumes exactly
/// those bytes, whatever follows them.
pub proof fn lemma_varlong_roundtrip(v: i64, rest: Seq<u8>)
    ensures
        varlong_decode(varlong_bytes(v) + rest) == Ok::<(i64, nat), VarIntError>(
            (v, varlong_bytes(v).len()),
        ),
{
    lemma_varlong_len(v);
    lemma_signed64_unsigned64(v);
    lemma_read_groups_of_groups(unsigned64(v), VARLONG_MAX_GROUPS as nat, rest);
}

/// A VarInt is too long exactly where the first five bytes all carry the
/// continuation bit, whatever follows them.
pub proof fn lemma_varint_too_long(s: Seq<u8>)
    ensures
        varint_decode(s) == Err::<(i32, nat), VarIntError>(VarIntError::TooLong) <==> s.len()
            >= VARINT_MAX_GROUPS && forall|i: int| 0 <= i < VARINT_MAX_GROUPS ==> s[i] >= 128,
{
    lemma_run_end(s, 0);
    if s.len() >= VARINT_MAX_GROUPS && forall|i: int| 0 <= i < VARINT_MAX_GROUPS ==> s[i] >= 128 {
        lemma_unterminated_is_too_long(s, VARINT_MAX_GROUPS as nat);
    }
}

/// A VarLong is too long exactly where the first ten bytes all carry the
/// continuation bit, whatever follows them.
pub proof fn lemma_varlong_too_long(s: Seq<u8>)
    ensures
        varlong_decode(s) == Err::<(i64, nat), VarIntError>(VarIntError::TooLong) <==> s.len()
            >= VARLONG_MAX_GROUPS && forall|i: int| 0 <= i < VARLONG_MAX_GROUPS ==> s[i] >= 128,
{
    lemma_run_end(s, 0);
    if s.len() >= VARLONG_MAX_GROUPS && forall|i: int|
        0 <= i < VARLONG_MAX_GROUPS ==> s[i] >= 128 {
        lemma_unterminated_is_too_long(s, VARLONG_MAX_GROUPS as nat);
    }
}

/// No run of bytes that decodes to `v` is shorter than the bytes of `v`.
pub proof fn lemma_varint_shortest(v: i32, s: Seq<u8>)
    requires
        varint_decode(s) is Ok,
        varint_decode(s)->Ok_0.0 == v,
    ensures
        varint_bytes(v).len() <= varint_decode(s)->Ok_0.1,
{
    let used = varint_decode(s)->Ok_0.1;
    let n = read_groups(s, VARINT_MAX_GROUPS as nat)->Ok_0.0;
    lemma_varint_len(v);
    lemma_signed32_unsigned32(v);
    lemma_pow128_values();
    lemma_run_end(s, 0);
    if used < VARINT_MAX_GROUPS {
        assert(s.take(used as int).len() == used);
        lemma_groups_value_bound(s.take(used as int));
        lemma_pow128_monotonic(used, 4);
        lemma_groups_len(n, used);
    }
}

/// No run of bytes that decodes to `v` is shorter than the bytes of `v`.
pub proof fn lemma_varlong_shortest(v: i64, s: Seq<u8>)
    requires
        varlong_decode(s) is Ok,
        varlong_decode(s)->Ok_0.0 == v,
    ensures
        varlong_bytes(v).len() <= varlong_decode(s)->Ok_0.1,
{
    let used = varlong_decode(s)->Ok_0.1;
    let n = read_groups(s, VARLONG_MAX_GROUPS as nat)->Ok_0.0;
    lemma_varlong_len(v);
    lemma_signed64_unsigned64(v);
    lemma_pow128_values();
    lemma_run_end(s, 0);
    if used < VARLONG_MAX_GROUPS {
        assert(s.take(used as int).len() == used);
        lemma_groups_value_bound(s.take(used as int));
        lemma_pow128_monotonic(used, 9);
        lemma_groups_len(n, used);
    }
}

/// The groups of `n` in an array of `N` bytes, zero behind them.
fn pack<const N: usize>(n: u64) -> (a: [u8; N])
    requires
        groups(n as nat).len() <= N,
    ensures
        a@ == padded(groups(n as nat), N as nat),
{
    let mut a = [0u8;N];
    let mut rest: u64 = n;
    let mut i: usize = 0;
    while rest >= 128
        invariant
            i + groups(rest as nat).len() == groups(n as nat).len() <= N,
            a@.take(i as int) + groups(rest as nat) == groups(n as nat),
            forall|j: int| i <= j < N ==> a@[j] == 0,
        decreases rest,
    {
        let low: u8 = (rest & 0x7f) as u8;
        assert(rest & 0x7f == rest % 128) by (bit_vector);
        assert(low | 0x80 == low + 128) by (bit_vector)
            requires
                low < 128,
        ;
        assert(rest >> 7 == rest / 128) by (bit_vector);
        proof {
            lemma_groups_shape((rest / 128) as nat);
        }
        let ghost before = a@;
        a[i] = low | 0x80;
        assert(a@.take(i + 1) == before.take(i as int) + seq![(low + 128) as u8]);
        i = i + 1;
        rest = rest >> 7;
    }
    let ghost before = a@;
    a[i] = rest as u8;
    assert(a@.take(i + 1) == before.take(i as int) + groups(rest as nat));
    assert(a@ == padded(groups(n as nat), N as nat));
    a
}

/// The number of groups at the start of `a`: one more than the bytes that
/// carry the continuation bit, and `N` where all of them do.
fn stored_len<const N: usize>(a: &[u8; N]) -> (k: usize)
    ensures
        k == if run_end(a@, 0) < N {
            run_end(a@, 0) + 1
        } else {
            N as int
        },
{
    let mut i: usize = 0;
    while i < N
        invariant
            i <= N,
            a@.len() == N,
            forall|j: int| 0 <= j < i ==> a@[j] >= 128,
        decreases N - i,
    {
        let b: u8 = a[i];
        assert((b & 0x80 == 0) <==> b < 128) by (bit_vector);
        if b & 0x80 == 0 {
            proof {
                lemma_run_end_is(a@, 0, i as int);
            }
            return i + 1;
        }
        i = i + 1;
    }
    proof {
        lemma_run_end_is(a@, 0, N as int);
    }
    N
}

/// The number that all the groups of `a` spell together.
fn stored_value<const N: usize>(a: &[u8; N]) -> (n: u64)
    requires
        groups_value(a@) <= u64::MAX,
    ensures
        n == groups_value(a@),
{
    let mut acc: u64 = 0;
    let mut i: usize = N;
    assert(a@.subrange(N as int, N as int).len() == 0);
    while i > 0
        invariant
            i <= N,
            a@.len() == N,
            acc == groups_value(a@.subrange(i as int, N as int)),
            groups_value(a@) <= u64::MAX,
        decreases i,
    {
        i = i - 1;
        let b: u8 = a[i];
        assert(b & 0x7f == b % 128) by (bit_vector);
        proof {
            let whole = a@.subrange(i as int, N as int);
            assert(whole.drop_first() == a@.subrange(i + 1, N as int));
            assert(whole[0] == b);
            lemma_groups_value_concat(a@.subrange(0, i as int), whole);
            assert(a@.subrange(0, i as int) + whole == a@);
            lemma_pow128_monotonic(0, i as nat);
            let p = pow128(i as nat);
            let w = groups_value(whole);
            assert(p * w >= w) by (nonlinear_arith)
                requires
                    p >= 1,
                    w >= 0,
            ;
        }
        acc = acc * 128 + (b & 0x7f) as u64;
    }
    assert(a@.subrange(0, N as int) == a@);
    acc
}


/// Appends the first `k` bytes of `a` to `out`.
fn push_stored<const N: usize>(out: &mut Vec<u8>, a: &[u8; N], k: usize)
    requires
        k <= N,
    ensures
        final(out)@ == old(out)@ + a@.take(k as int),
{
    let mut i: usize = 0;
    assert(a@.take(0) == Seq::<u8>::empty());
    while i < k
        invariant
            i <= k <= N,
            a@.len() == N,
            out@ == old(out)@ + a@.take(i as int),
        decreases k - i,
    {
        out.push(a[i]);
        assert(a@.take(i + 1) == a@.take(i as int).push(a@[i as int]));
        i = i + 1;
    }
}

/// A signed 32-bit number held as its groups: one to five bytes, zero behind
/// them.  Every value of this type holds the shortest encoding of its number.
#[derive(Debug, PartialEq, Eq)]
pub struct VarInt {
    pub(crate) inner: [u8; 5],
}

impl View for VarInt {
    type V = i32;

    /// The number that the groups spell.
    closed spec fn view(&self) -> i32 {
        signed32(groups_value(self.inner@))
    }
}

impl VarInt {
    #[verifier::type_invariant]
    pub closed spec fn canonical(&self) -> bool {
        self.inner@ == padded(varint_bytes(self@), VARINT_MAX_GROUPS as nat)
    }

    /// The VarInt of `n`, as a value of specifications.
    pub closed spec fn of(n: i32) -> VarInt {
        choose|v: VarInt| v@ == n && v.canonical()
    }

    /// The number of bytes that the encoding takes: the index of the first
    /// byte without a continuation bit, and one.
    pub fn size(&self) -> (k: usize)
        ensures
            k == varint_bytes(self@).len(),
            1 <= k <= VARINT_MAX_GROUPS,
    {
        proof {
            use_type_invariant(self);
            lemma_varint_len(self@);
            lemma_padded(unsigned32(self@), VARINT_MAX_GROUPS as nat);
        }
        stored_len(&self.inner)
    }

    /// The number itself.
    pub fn value(&self) -> (n: i32)
        ensures
            n == self@,
    {
        proof {
            use_type_invariant(self);
            lemma_varint_len(self@);
            lemma_padded(unsigned32(self@), VARINT_MAX_GROUPS as nat);
            lemma_signed32_unsigned32(self@);
        }
        let n: u64 = stored_value(&self.inner);
        let low: u32 = n as u32;
        assert(low as i32 == (if low < 0x8000_0000 {
            low as int
        } else {
            low - 0x1_0000_0000
        })) by (bit_vector);
        low as i32
    }

    /// The VarInt of `n`.
    pub fn new(n: i32) -> (v: VarInt)
        ensures
            v@ == n,
            v == VarInt::of(n),
    {
        assert(n as u32 == (if n >= 0 {
            n as int
        } else {
            n + 0x1_0000_0000
        })) by (bit_vector);
        let bits: u32 = n as u32;
        proof {
            lemma_varint_len(n);
            lemma_padded(unsigned32(n), VARINT_MAX_GROUPS as nat);
            lemma_signed32_unsigned32(n);
        }
        let v = VarInt { inner: pack(bits as u64) };
        proof {
            VarInt::lemma_of(n, v);
        }
        v
    }

    /// There is one VarInt for each number.
    pub proof fn lemma_of(n: i32, v: VarInt)
        requires
            v@ == n,
            v.canonical(),
        ensures
            v == VarInt::of(n),
            VarInt::of(n)@ == n,
    {
        let w = VarInt::of(n);
        assert(w@ == n && w.canonical());
        assert(w.inner@ == v.inner@);
        assert(w.inner == v.inner);
    }
}

impl Clone for VarInt {
    fn clone(&self) -> (v: VarInt)
        ensures
            v == *self,
    {
        proof {
            use_type_invariant(self);
        }
        VarInt { inner: self.inner }
    }
}

impl Default for VarInt {
    /// The VarInt of zero.
    fn default() -> (v: VarInt)
        ensures
            v@ == 0,
    {
        VarInt::new(0)
    }
}

impl From<i32> for VarInt {
    fn from(n: i32) -> (v: VarInt)
        ensures
            v@ == n,
    {
        VarInt::new(n)
    }
}

impl vstd::std_specs::convert::FromSpecImpl<i32> for VarInt {
    open spec fn obeys_from_spec() -> bool {
        true
    }

    open spec fn from_spec(n: i32) -> VarInt {
        VarInt::of(n)
    }
}

impl From<VarInt> for i32 {
    fn from(v: VarInt) -> (n: i32) {
        v.value()
    }
}

impl vstd::std_specs::convert::FromSpecImpl<VarInt> for i32 {
    open spec fn obeys_from_spec() -> bool {
        true
    }

    open spec fn from_spec(v: VarInt) -> i32 {
        v@
    }
}


/// A signed 64-bit number held as its groups: one to ten bytes, zero behind
/// them.  Every value of this type holds the shortest encoding of its number.
#[derive(Debug, PartialEq, Eq)]
pub struct VarLong {
    pub(crate) inner: [u8; 10],
}

impl View for VarLong {
    type V = i64;

    /// The number that the groups spell.
    closed spec fn view(&self) -> i64 {
        signed64(groups_value(self.inner@))
    }
}

impl VarLong {
    #[verifier::type_invariant]
    pub closed spec fn canonical(&self) -> bool {
        self.inner@ == padded(varlong_bytes(self@), VARLONG_MAX_GROUPS as nat)
    }

    /// The VarLong of `n`, as a value of specifications.
    pub closed spec fn of(n: i64) -> VarLong {
        choose|v: VarLong| v@ == n && v.canonical()
    }

    /// The number of bytes that the encoding takes: the index of the first
    /// byte without a continuation bit, and one.
    pub fn size(&self) -> (k: usize)
        ensures
            k == varlong_bytes(self@).len(),
            1 <= k <= VARLONG_MAX_GROUPS,
    {
        proof {
            use_type_invariant(self);
            lemma_varlong_len(self@);
            lemma_padded(unsigned64(self@), VARLONG_MAX_GROUPS as nat);
        }
        stored_len(&self.inner)
    }

    /// The number itself.
    pub fn value(&self) -> (n: i64)
        ensures
            n == self@,
    {
        proof {
            use_type_invariant(self);
            lemma_varlong_len(self@);
            lemma_padded(unsigned64(self@), VARLONG_MAX_GROUPS as nat);
            lemma_signed64_unsigned64(self@);
        }
        let low: u64 = stored_value(&self.inner);
        assert(low as i64 == (if low < 0x8000_0000_0000_0000 {
            low as int
        } else {
            low - 0x1_0000_0000_0000_0000
        })) by (bit_vector);
        low as i64
    }

    /// The VarLong of `n`.
    pub fn new(n: i64) -> (v: VarLong)
        ensures
            v@ == n,
            v == VarLong::of(n),
    {
        assert(n as u64 == (if n >= 0 {
            n as int
        } else {
            n + 0x1_0000_0000_0000_0000
        })) by (bit_vector);
        let bits: u64 = n as u64;
        proof {
            lemma_varlong_len(n);
            lemma_padded(unsigned64(n), VARLONG_MAX_GROUPS as nat);
            lemma_signed64_unsigned64(n);
        }
        let v = VarLong { inner: pack(bits) };
        proof {
            VarLong::lemma_of(n, v);
        }
        v
    }

    /// There is one VarLong for each number.
    pub proof fn lemma_of(n: i64, v: VarLong)
        requires
            v@ == n,
            v.canonical(),
        ensures
            v == VarLong::of(n),
            VarLong::of(n)@ == n,
    {
        let w = VarLong::of(n);
        assert(w@ == n && w.canonical());
        assert(w.inner@ == v.inner@);
        assert(w.inner == v.inner);
    }
}

impl Clone for VarLong {
    fn clone(&self) -> (v: VarLong)
        ensures
            v == *self,
    {
        proof {
            use_type_invariant(self);
        }
        VarLong { inner: self.inner }
    }
}

impl Default for VarLong {
    /// The VarLong of zero.
    fn default() -> (v: VarLong)
        ensures
            v@ == 0,
    {
        VarLong::new(0)
    }
}

impl From<i64> for VarLong {
    fn from(n: i64) -> (v: VarLong)
        ensures
            v@ == n,
    {
        VarLong::new(n)
    }
}

impl vstd::std_specs::convert::FromSpecImpl<i64> for VarLong {
    open spec fn obeys_from_spec() -> bool {
        true
    }

    open spec fn from_spec(n: i64) -> VarLong {
        VarLong::of(n)
    }
}

impl From<VarLong> for i64 {
    fn from(v: VarLong) -> (n: i64) {
        v.value()
    }
}

impl vstd::std_specs::convert::FromSpecImpl<VarLong> for i64 {
    open spec fn obeys_from_spec() -> bool {
        true
    }

    open spec fn from_spec(v: VarLong) -> i64 {
        v@
    }
}


/// How far a reader of groups has come.
#[derive(Debug, Clone, Copy, PartialEq, Eq, Structural)]
pub enum Progress {
    /// Every byte so far asked for another, and another may come.
    More,
    /// The last byte taken had no continuation bit: the number is complete.
    Done,
    /// As many bytes as the type allows were taken and all ask for another.
    TooLong,
}

/// The progress that goes with the result of a read.
pub open spec fn progress_of(r: Result<(nat, nat), VarIntError>) -> Progress {
    match r {
        Ok(_) => Progress::Done,
        Err(VarIntError::TooLong) => Progress::TooLong,
        Err(VarIntError::UnexpectedEnd) => Progress::More,
    }
}

/// Reads one number a byte at a time, for sources that hand out their bytes
/// one by one.  What it has come to is what `read_groups` says of the bytes
/// it has taken.
pub struct GroupReader {
    acc: u128,
    scale: u128,
    count: usize,
    limit: usize,
    progress: Progress,
    seen: Ghost<Seq<u8>>,
}

impl GroupReader {
    #[verifier::type_invariant]
    pub closed spec fn consistent(&self) -> bool {
        &&& self.limit == VARINT_MAX_GROUPS || self.limit == VARLONG_MAX_GROUPS
        &&& self.seen@.len() == self.count <= self.limit
        &&& self.acc == groups_value(self.seen@)
        &&& self.scale == pow128(self.count as nat)
        &&& self.progress == progress_of(read_groups(self.seen@, self.limit as nat))
        &&& forall|i: int| 0 <= i < self.count - 1 ==> self.seen@[i] >= 128
    }

    /// The bytes taken so far.
    pub closed spec fn seen(&self) -> Seq<u8> {
        self.seen@
    }

    /// The most groups this reader takes.
    pub closed spec fn limit(&self) -> nat {
        self.limit as nat
    }

    /// What reading the bytes taken so far gives.
    pub open spec fn outcome(&self) -> Result<(nat, nat), VarIntError> {
        read_groups(self.seen(), self.limit())
    }

    fn start(limit: usize) -> (r: GroupReader)
        requires
            limit == VARINT_MAX_GROUPS || limit == VARLONG_MAX_GROUPS,
        ensures
            r.seen() == Seq::<u8>::empty(),
            r.limit() == limit,
    {
        GroupReader {
            acc: 0,
            scale: 1,
            count: 0,
            limit,
            progress: Progress::More,
            seen: Ghost(Seq::empty()),
        }
    }

    /// A reader for a VarInt, with nothing taken yet.
    pub fn for_var_int() -> (r: GroupReader)
        ensures
            r.seen() == Seq::<u8>::empty(),
            r.limit() == VARINT_MAX_GROUPS,
    {
        GroupReader::start(VARINT_MAX_GROUPS)
    }

    /// A reader for a VarLong, with nothing taken yet.
    pub fn for_var_long() -> (r: GroupReader)
        ensures
            r.seen() == Seq::<u8>::empty(),
            r.limit() == VARLONG_MAX_GROUPS,
    {
        GroupReader::start(VARLONG_MAX_GROUPS)
    }

    /// How far the reader has come.
    pub fn progress(&self) -> (p: Progress)
        ensures
            p == progress_of(self.outcome()),
    {
        proof {
            use_type_invariant(self);
        }
        self.progress
    }

    /// How many bytes the reader has taken.  Once it is done, these are the
    /// bytes of the number and no more.
    pub fn consumed(&self) -> (k: usize)
        ensures
            k == self.seen().len(),
            k <= self.limit() <= VARLONG_MAX_GROUPS,
            self.outcome() is Ok ==> self.outcome()->Ok_0.1 == k,
    {
        proof {
            use_type_invariant(self);
            self.lemma_done();
        }
        self.count
    }

    /// Takes `byte` if the number is still open, and says how far the reader
    /// has come then.  A reader that is done or has failed takes nothing more.
    pub fn push(&mut self, byte: u8) -> (p: Progress)
        ensures
            final(self).limit() == old(self).limit(),
            final(self).seen() == if progress_of(old(self).outcome()) == Progress::More {
                old(self).seen().push(byte)
            } else {
                old(self).seen()
            },
            p == progress_of(final(self).outcome()),
    {
        proof {
            use_type_invariant(&*self);
        }
        if self.progress != Progress::More {
            return self.progress;
        }
        let ghost before = self.seen@;
        let ghost after = before.push(byte);
        let group: u8 = byte & 0x7f;
        assert(byte & 0x7f == byte % 128) by (bit_vector);
        assert((byte & 0x80 == 0) <==> byte < 128) by (bit_vector);
        proof {
            lemma_read_groups_waiting(before, self.limit as nat);
            lemma_groups_value_concat(before, seq![byte]);
            assert(groups_value(seq![byte].drop_first()) == 0);
            assert(groups_value(seq![byte]) == byte % 128);
            assert(before + seq![byte] == after);
            lemma_groups_value_bound(before);
            lemma_pow128_values();
            lemma_pow128_monotonic(self.count as nat, 9);
            lemma_pow128_monotonic((self.count + 1) as nat, 10);
            assert(pow128((self.count + 1) as nat) == 128 * pow128(self.count as nat));
            let scale = self.scale;
            assert(group * scale <= 127 * 0x8000_0000_0000_0000) by (nonlinear_arith)
                requires
                    group <= 127,
                    0 <= scale <= 0x8000_0000_0000_0000,
            ;
            let weight = pow128(self.count as nat);
            let value = groups_value(seq![byte]);
            assert(weight * value == group * scale) by (nonlinear_arith)
                requires
                    weight == scale,
                    value == group,
            ;
            assert(groups_value(after) == self.acc + group * scale);
            assert forall|i: int| 0 <= i < self.count implies after[i] >= 128 by {
                assert(after[i] == before[i]);
            }
            if byte < 128 {
                lemma_run_end_is(after, 0, self.count as int);
                assert(after.take(self.count + 1) == after);
            } else {
                lemma_run_end_is(after, 0, self.count + 1);
            }
        }
        let progress = if byte & 0x80 == 0 {
            Progress::Done
        } else if self.count + 1 >= self.limit {
            Progress::TooLong
        } else {
            Progress::More
        };
        *self = GroupReader {
            acc: self.acc + (group as u128) * self.scale,
            scale: self.scale * 128,
            count: self.count + 1,
            limit: self.limit,
            progress,
            seen: Ghost(after),
        };
        progress
    }

    /// Takes bytes from the start of `bytes` for as long as the number is
    /// open, and returns how many it took.
    pub fn push_slice(&mut self, bytes: &[u8]) -> (used: usize)
        ensures
            used <= bytes.len(),
            final(self).limit() == old(self).limit(),
            final(self).seen() == old(self).seen() + bytes@.take(used as int),
            final(self).outcome() == read_groups(old(self).seen() + bytes@, old(self).limit()),
            progress_of(old(self).outcome()) != Progress::More ==> used == 0,
            progress_of(final(self).outcome()) == Progress::More ==> used == bytes.len(),
    {
        let mut i: usize = 0;
        assert(bytes@.take(0) == Seq::<u8>::empty());
        assert(self.seen() + Seq::<u8>::empty() == self.seen());
        while i < bytes.len() && self.progress() == Progress::More
            invariant
                i <= bytes.len(),
                self.limit() == old(self).limit(),
                self.seen() == old(self).seen() + bytes@.take(i as int),
                progress_of(old(self).outcome()) != Progress::More ==> i == 0,
            decreases bytes.len() - i,
        {
            self.push(bytes[i]);
            assert(bytes@.take(i + 1) == bytes@.take(i as int).push(bytes@[i as int]));
            assert(self.seen() == old(self).seen() + bytes@.take(i + 1));
            i = i + 1;
        }
        proof {
            let whole = old(self).seen() + bytes@;
            if i == bytes.len() {
                assert(bytes@.take(i as int) == bytes@);
            } else {
                lemma_read_groups_settled(self.seen(), bytes@.skip(i as int), self.limit());
                assert(self.seen() + bytes@.skip(i as int) == whole);
            }
        }
        i
    }

    /// The VarInt that a VarInt reader has read, once it is done.
    pub fn var_int(&self) -> (r: Option<VarInt>)
        ensures
            match r {
                Some(v) => self.limit() == VARINT_MAX_GROUPS && self.outcome() is Ok && v@
                    == signed32(self.outcome()->Ok_0.0),
                None => self.limit() != VARINT_MAX_GROUPS || self.outcome() is Err,
            },
    {
        proof {
            use_type_invariant(self);
            self.lemma_done();
        }
        if self.limit == VARINT_MAX_GROUPS && self.progress == Progress::Done {
            let acc: u128 = self.acc;
            assert(acc as u32 == acc % 0x1_0000_0000) by (bit_vector);
            let low: u32 = acc as u32;
            assert(low as i32 == (if low < 0x8000_0000 {
                low as int
            } else {
                low - 0x1_0000_0000
            })) by (bit_vector);
            Some(VarInt::new(low as i32))
        } else {
            None
        }
    }

    /// The VarLong that a VarLong reader has read, once it is done.
    pub fn var_long(&self) -> (r: Option<VarLong>)
        ensures
            match r {
                Some(v) => self.limit() == VARLONG_MAX_GROUPS && self.outcome() is Ok && v@
                    == signed64(self.outcome()->Ok_0.0),
                None => self.limit() != VARLONG_MAX_GROUPS || self.outcome() is Err,
            },
    {
        proof {
            use_type_invariant(self);
            self.lemma_done();
        }
        if self.limit == VARLONG_MAX_GROUPS && self.progress == Progress::Done {
            let acc: u128 = self.acc;
            assert(acc as u64 == acc % 0x1_0000_0000_0000_0000) by (bit_vector);
            let low: u64 = acc as u64;
            assert(low as i64 == (if low < 0x8000_0000_0000_0000 {
                low as int
            } else {
                low - 0x1_0000_0000_0000_0000
            })) by (bit_vector);
            Some(VarLong::new(low as i64))
        } else {
            None
        }
    }

    proof fn lemma_done(&self)
        requires
            self.consistent(),
        ensures
            self.outcome() is Ok ==> self.outcome()->Ok_0.0 == self.acc,
            self.outcome() is Ok ==> self.outcome()->Ok_0.1 == self.count,
    {
        if self.outcome() is Ok {
            lemma_run_end(self.seen@, 0);
            assert(run_end(self.seen@, 0) == self.count - 1);
            assert(self.seen@.take(self.seen@.len() as int) =~= self.seen@);
        }
    }
}

/// Appends the bytes of `n` to `out`.
pub fn write_var_int(out: &mut Vec<u8>, n: &VarInt)
    ensures
        final(out)@ == old(out)@ + varint_bytes(n@),
{
    proof {
        use_type_invariant(n);
        lemma_varint_len(n@);
        lemma_padded(unsigned32(n@), VARINT_MAX_GROUPS as nat);
    }
    let k = n.size();
    push_stored(out, &n.inner, k);
}

/// Appends the bytes of `n` to `out`.
pub fn write_var_long(out: &mut Vec<u8>, n: &VarLong)
    ensures
        final(out)@ == old(out)@ + varlong_bytes(n@),
{
    proof {
        use_type_invariant(n);
        lemma_varlong_len(n@);
        lemma_padded(unsigned64(n@), VARLONG_MAX_GROUPS as nat);
    }
    let k = n.size();
    push_stored(out, &n.inner, k);
}

/// Decodes a VarInt from the start of `bytes`, and says how many bytes it
/// took.  Fails with `TooLong` where the first five bytes all carry the
/// continuation bit, and with `UnexpectedEnd` where fewer than five bytes are
/// there and all of them do.
pub fn read_var_int(bytes: &[u8]) -> (r: Result<(VarInt, usize), VarIntError>)
    ensures
        match r {
            Ok((v, used)) => varint_decode(bytes@) == Ok::<(i32, nat), VarIntError>(
                (v@, used as nat),
            ),
            Err(e) => varint_decode(bytes@) == Err::<(i32, nat), VarIntError>(e),
        },
{
    let mut reader = GroupReader::for_var_int();
    assert(reader.seen() + bytes@ == bytes@);
    reader.push_slice(bytes);
    match reader.var_int() {
        Some(v) => Ok((v, reader.consumed())),
        None => match reader.progress() {
            Progress::TooLong => Err(VarIntError::TooLong),
            _ => Err(VarIntError::UnexpectedEnd),
        },
    }
}

/// Decodes a VarLong from the start of `bytes`, and says how many bytes it
/// took.  Fails with `TooLong` where the first ten bytes all carry the
/// continuation bit, and with `UnexpectedEnd` where fewer than ten bytes are
/// there and all of them do.
pub fn read_var_long(bytes: &[u8]) -> (r: Result<(VarLong, usize), VarIntError>)
    ensures
        match r {
            Ok((v, used)) => varlong_decode(bytes@) == Ok::<(i64, nat), VarIntError>(
                (v@, used as nat),
            ),
            Err(e) => varlong_decode(bytes@) == Err::<(i64, nat), VarIntError>(e),
        },
{
    let mut reader = GroupReader::for_var_long();
    assert(reader.seen() + bytes@ == bytes@);
    reader.push_slice(bytes);
    match reader.var_long() {
        Some(v) => Ok((v, reader.consumed())),
        None => match reader.progress() {
            Progress::TooLong => Err(VarIntError::TooLong),
            _ => Err(VarIntError::UnexpectedEnd),
        },
    }
}

} // verus!
