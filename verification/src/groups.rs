//! Groups: the bytes of a variable-length number.
//!
//! A number is cut into 7-bit groups, least significant first.  Each group is
//! one byte; its high bit, the continuation bit, says that another group
//! follows.  This file states what the groups of a number are and what a run
//! of bytes reads as, and proves that the two agree.

use vstd::prelude::*;

verus! {

/// 128 to the power `k`: the weight of group number `k`.
pub open spec fn pow128(k: nat) -> nat
    decreases k,
{
    if k == 0 {
        1
    } else {
        128 * pow128((k - 1) as nat)
    }
}

/// The groups that spell the unsigned number `n`: as few as possible, and a
/// single zero byte for zero.
pub open spec fn groups(n: nat) -> Seq<u8>
    decreases n,
{
    if n < 128 {
        seq![n as u8]
    } else {
        seq![(n % 128 + 128) as u8] + groups(n / 128)
    }
}

/// The number that a run of groups spells, whatever their continuation bits.
pub open spec fn groups_value(s: Seq<u8>) -> nat
    decreases s.len(),
{
    if s.len() == 0 {
        0
    } else {
        (s[0] % 128) as nat + 128 * groups_value(s.drop_first())
    }
}

/// The index of the first byte of `s` at or after `from` that has no
/// continuation bit, or the length of `s` where every byte from there on has one.
pub open spec fn run_end(s: Seq<u8>, from: int) -> int
    decreases s.len() - from,
{
    if from < 0 || from >= s.len() {
        s.len() as int
    } else if s[from] < 128 {
        from
    } else {
        run_end(s, from + 1)
    }
}

/// Why a run of groups could not be read.
#[derive(Debug, Clone, Copy, PartialEq, Eq, Structural)]
pub enum VarIntError {
    /// As many groups as the type allows were read and all ask for another.
    TooLong,
    /// The bytes ran out before a group without a continuation bit came.
    UnexpectedEnd,
}

/// What reading one number of at most `limit` groups from the start of `s`
/// gives: the unsigned number and how many bytes spell it.
pub open spec fn read_groups(s: Seq<u8>, limit: nat) -> Result<(nat, nat), VarIntError> {
    let stop = run_end(s, 0);
    if stop >= limit {
        Err(VarIntError::TooLong)
    } else if stop >= s.len() {
        Err(VarIntError::UnexpectedEnd)
    } else {
        Ok((groups_value(s.take(stop + 1)), (stop + 1) as nat))
    }
}

/// The first weights, written out.
pub proof fn lemma_pow128_values()
    ensures
        pow128(0) == 1,
        pow128(1) == 0x80,
        pow128(2) == 0x4000,
        pow128(3) == 0x20_0000,
        pow128(4) == 0x1000_0000,
        pow128(5) == 0x8_0000_0000,
        pow128(6) == 0x400_0000_0000,
        pow128(7) == 0x2_0000_0000_0000,
        pow128(8) == 0x100_0000_0000_0000,
        pow128(9) == 0x8000_0000_0000_0000,
        pow128(10) == 0x40_0000_0000_0000_0000,
{
    reveal_with_fuel(pow128, 11);
}

/// Weights grow with the index.
pub proof fn lemma_pow128_monotonic(a: nat, b: nat)
    requires
        a <= b,
    ensures
        1 <= pow128(a) <= pow128(b),
    decreases b,
{
    if b == 0 {
    } else if a == b {
        lemma_pow128_monotonic((a - 1) as nat, (b - 1) as nat);
    } else {
        lemma_pow128_monotonic(a, (b - 1) as nat);
    }
}

/// A number below the weight of group `k` takes at most `k` groups, and
/// every number takes at least one.
pub proof fn lemma_groups_len(n: nat, k: nat)
    requires
        k >= 1,
        n < pow128(k),
    ensures
        1 <= groups(n).len() <= k,
    decreases k,
{
    reveal_with_fuel(pow128, 2);
    if n >= 128 {
        assert(k >= 2);
        lemma_groups_len(n / 128, (k - 1) as nat);
    }
}

/// The shape of an encoding: every group but the last has the continuation
/// bit, the last has none, and the last is zero only for the number zero.
pub proof fn lemma_groups_shape(n: nat)
    ensures
        groups(n).len() >= 1,
        forall|i: int| 0 <= i < groups(n).len() - 1 ==> groups(n)[i] >= 128,
        groups(n).last() < 128,
        n > 0 ==> groups(n).last() > 0,
        run_end(groups(n), 0) == groups(n).len() - 1,
    decreases n,
{
    if n >= 128 {
        let head = seq![(n % 128 + 128) as u8];
        let tail = groups(n / 128);
        lemma_groups_shape(n / 128);
        assert(groups(n) == head + tail);
        assert forall|i: int| 0 <= i < groups(n).len() - 1 implies groups(n)[i] >= 128 by {
            if i > 0 {
                assert(groups(n)[i] == tail[i - 1]);
            }
        }
        assert(groups(n).last() == tail.last());
        lemma_run_end_shift(head, tail, 0);
        assert(run_end(groups(n), 1) == 1 + run_end(tail, 0));
    }
}

/// Scanning a sequence from inside its second part is scanning that part.
pub proof fn lemma_run_end_shift(a: Seq<u8>, b: Seq<u8>, from: int)
    requires
        0 <= from,
    ensures
        run_end(a + b, a.len() + from) == a.len() + run_end(b, from),
    decreases b.len() - from,
{
    if from < b.len() {
        assert((a + b)[a.len() + from] == b[from]);
        if b[from] >= 128 {
            lemma_run_end_shift(a, b, from + 1);
        }
    }
}

/// Where a scan stops: every byte before has the continuation bit, and the
/// byte there, if there is one, has none.
pub proof fn lemma_run_end(s: Seq<u8>, from: int)
    requires
        0 <= from <= s.len(),
    ensures
        from <= run_end(s, from) <= s.len(),
        forall|i: int| from <= i < run_end(s, from) ==> s[i] >= 128,
        run_end(s, from) < s.len() ==> s[run_end(s, from)] < 128,
    decreases s.len() - from,
{
    if from < s.len() && s[from] >= 128 {
        lemma_run_end(s, from + 1);
    }
}

/// A scan stops at `k` where every byte from `from` up to `k` has the
/// continuation bit and the byte at `k` has none or is missing.
pub proof fn lemma_run_end_is(s: Seq<u8>, from: int, k: int)
    requires
        0 <= from <= k <= s.len(),
        forall|i: int| from <= i < k ==> s[i] >= 128,
        k < s.len() ==> s[k] < 128,
    ensures
        run_end(s, from) == k,
    decreases k - from,
{
    if from < k {
        lemma_run_end_is(s, from + 1, k);
    }
}

/// The value of two runs of groups put together.
pub proof fn lemma_groups_value_concat(a: Seq<u8>, b: Seq<u8>)
    ensures
        groups_value(a + b) == groups_value(a) + pow128(a.len()) * groups_value(b),
    decreases a.len(),
{
    if a.len() == 0 {
        assert(a + b == b);
        assert(pow128(0) == 1);
    } else {
        let rest = a.drop_first();
        lemma_groups_value_concat(rest, b);
        assert((a + b).drop_first() == rest + b);
        assert((a + b)[0] == a[0]);
        let x = groups_value(rest);
        let p = pow128(rest.len());
        let y = groups_value(b);
        assert(pow128(a.len()) == 128 * p);
        assert(groups_value(a + b) == (a[0] % 128) + 128 * (x + p * y));
        assert(128 * (x + p * y) == 128 * x + (128 * p) * y) by (nonlinear_arith);
    }
}

/// A run of `k` groups spells a number below the weight of group `k`.
pub proof fn lemma_groups_value_bound(s: Seq<u8>)
    ensures
        groups_value(s) < pow128(s.len()),
    decreases s.len(),
{
    if s.len() > 0 {
        lemma_groups_value_bound(s.drop_first());
    }
}

/// Zero groups add nothing to a value.
pub proof fn lemma_groups_value_zeros(s: Seq<u8>)
    requires
        forall|i: int| 0 <= i < s.len() ==> s[i] == 0,
    ensures
        groups_value(s) == 0,
    decreases s.len(),
{
    if s.len() > 0 {
        lemma_groups_value_zeros(s.drop_first());
    }
}

/// The groups of a number spell that number.
pub proof fn lemma_groups_value(n: nat)
    ensures
        groups_value(groups(n)) == n,
    decreases n,
{
    let g = groups(n);
    if n < 128 {
        assert(groups_value(g.drop_first()) == 0);
    } else {
        lemma_groups_value(n / 128);
        assert(g.drop_first() == groups(n / 128));
        assert(g[0] % 128 == n % 128);
    }
}

/// Reading the groups of a number gives the number back and consumes exactly
/// its groups, whatever follows them.
pub proof fn lemma_read_groups_of_groups(n: nat, limit: nat, rest: Seq<u8>)
    requires
        groups(n).len() <= limit,
    ensures
        read_groups(groups(n) + rest, limit) == Ok::<(nat, nat), VarIntError>(
            (n, groups(n).len()),
        ),
{
    let g = groups(n);
    let s = g + rest;
    lemma_groups_shape(n);
    lemma_groups_value(n);
    lemma_run_end(g, 0);
    assert forall|i: int| 0 <= i < g.len() - 1 implies s[i] >= 128 by {
        assert(s[i] == g[i]);
    }
    assert(s[g.len() - 1] == g.last());
    lemma_run_end_is(s, 0, g.len() - 1);
    assert(s.take(g.len() as int) == g);
}

/// Once a read has succeeded or met too many groups, more bytes behind
/// change nothing.
pub proof fn lemma_read_groups_settled(s: Seq<u8>, more: Seq<u8>, limit: nat)
    requires
        read_groups(s, limit) != Err::<(nat, nat), VarIntError>(VarIntError::UnexpectedEnd),
    ensures
        read_groups(s + more, limit) == read_groups(s, limit),
{
    let k = run_end(s, 0);
    let t = s + more;
    lemma_run_end(s, 0);
    if k < s.len() {
        assert forall|i: int| 0 <= i < k implies t[i] >= 128 by {
            assert(t[i] == s[i]);
        }
        assert(t[k] == s[k]);
        lemma_run_end_is(t, 0, k);
        assert(t.take(k + 1) == s.take(k + 1));
    } else {
        assert(k >= limit);
        lemma_run_end(t, 0);
        if run_end(t, 0) < s.len() {
            assert(t[run_end(t, 0)] == s[run_end(t, 0)]);
        }
    }
}

/// While the bytes have run out, the read is waiting for a byte that every
/// byte so far asked for.
pub proof fn lemma_read_groups_waiting(s: Seq<u8>, limit: nat)
    ensures
        read_groups(s, limit) == Err::<(nat, nat), VarIntError>(VarIntError::UnexpectedEnd)
            <==> s.len() < limit && forall|i: int| 0 <= i < s.len() ==> s[i] >= 128,
{
    lemma_run_end(s, 0);
    if s.len() < limit && forall|i: int| 0 <= i < s.len() ==> s[i] >= 128 {
        lemma_run_end_is(s, 0, s.len() as int);
    }
}

/// A number at or above the weight of group `k` takes more than `k` groups.
pub proof fn lemma_groups_len_lower(n: nat, k: nat)
    requires
        n >= pow128(k),
    ensures
        groups(n).len() > k,
    decreases k,
{
    reveal_with_fuel(pow128, 2);
    if k > 0 {
        lemma_pow128_monotonic(1, k);
        assert(n >= 128);
        lemma_groups_len_lower(n / 128, (k - 1) as nat);
    }
}

/// `s` followed by zero bytes up to the length `n`.
pub open spec fn padded(s: Seq<u8>, n: nat) -> Seq<u8> {
    s + Seq::new((n - s.len()) as nat, |i: int| 0u8)
}

/// Zero bytes behind a run of groups change neither where it ends nor what
/// it spells.
pub proof fn lemma_padded(n: nat, size: nat)
    requires
        groups(n).len() <= size,
    ensures
        padded(groups(n), size).len() == size,
        run_end(padded(groups(n), size), 0) == groups(n).len() - 1,
        groups_value(padded(groups(n), size)) == n,
        padded(groups(n), size).take(groups(n).len() as int) == groups(n),
{
    let g = groups(n);
    let p = padded(g, size);
    let zeros = p.subrange(g.len() as int, size as int);
    lemma_groups_shape(n);
    assert forall|i: int| 0 <= i < g.len() - 1 implies p[i] >= 128 by {
        assert(p[i] == g[i]);
    }
    assert(p[g.len() - 1] == g.last());
    lemma_run_end_is(p, 0, g.len() - 1);
    assert(p == g + zeros);
    lemma_groups_value_concat(g, zeros);
    lemma_groups_value_zeros(zeros);
    lemma_groups_value(n);
    assert(pow128(g.len()) * 0 == 0);
    assert(p.take(g.len() as int) == g);
}

/// As many bytes as the limit allows, all with the continuation bit, read as
/// too long, whatever follows them.
pub proof fn lemma_unterminated_is_too_long(s: Seq<u8>, limit: nat)
    requires
        s.len() >= limit,
        forall|i: int| 0 <= i < limit ==> s[i] >= 128,
    ensures
        read_groups(s, limit) == Err::<(nat, nat), VarIntError>(VarIntError::TooLong),
{
    lemma_run_end(s, 0);
}

} // verus!
