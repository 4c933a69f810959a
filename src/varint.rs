use vstd::prelude::*;

verus! {

/// Why a varint could not be read.
#[derive(Debug, Clone, Copy, PartialEq, Eq, Structural)]
pub enum VarintError {
    /// The buffer ended before a byte without the continuation bit.
    TruncatedInput,
    /// The encoded value does not fit in 64 bits.
    VarintOverflow,
}

/// 128 to the power `n`.
pub open spec fn pow128(n: nat) -> nat
    decreases n,
{
    if n == 0 {
        1
    } else {
        128 * pow128((n - 1) as nat)
    }
}

/// The canonical encoding of `u`: 7-bit groups, least significant first, every
/// byte but the last with its high bit set.
pub open spec fn varint_bytes(u: nat) -> Seq<u8>
    decreases u,
{
    if u < 128 {
        seq![u as u8]
    } else {
        seq![((u % 128) + 128) as u8] + varint_bytes(u / 128)
    }
}

/// The number that the 7-bit groups of `s` stand for, the first group lowest.
pub open spec fn groups_value(s: Seq<u8>) -> nat
    decreases s.len(),
{
    if s.len() == 0 {
        0
    } else {
        (s[0] % 128) as nat + 128 * groups_value(s.drop_first())
    }
}

/// The index of the first byte of `s` whose continuation bit is clear.
pub open spec fn terminator(s: Seq<u8>) -> Option<nat>
    decreases s.len(),
{
    if s.len() == 0 {
        None
    } else if s[0] < 128 {
        Some(0)
    } else {
        match terminator(s.drop_first()) {
            Some(k) => Some(k + 1),
            None => None,
        }
    }
}

/// The result of reading one varint at the start of `s`: the number of bytes
/// it takes and its value.
pub open spec fn decode_spec(s: Seq<u8>) -> Result<(nat, nat), VarintError> {
    match terminator(s) {
        Some(k) if k < 10 => {
            let v = groups_value(s.take(k + 1 as int));
            if v > u64::MAX {
                Err(VarintError::VarintOverflow)
            } else {
                Ok(((k + 1) as nat, v))
            }
        },
        _ => if s.len() > 10 {
            Err(VarintError::VarintOverflow)
        } else {
            Err(VarintError::TruncatedInput)
        },
    }
}

proof fn lemma_pow128_pos(n: nat)
    ensures
        pow128(n) >= 1,
    decreases n,
{
    if n > 0 {
        lemma_pow128_pos((n - 1) as nat);
    }
}

proof fn lemma_groups_value_push(s: Seq<u8>, b: u8)
    ensures
        groups_value(s.push(b)) == groups_value(s) + (b % 128) as nat * pow128(s.len()),
    decreases s.len(),
{
    let sb = s.push(b);
    if s.len() == 0 {
        assert(sb.drop_first() =~= Seq::<u8>::empty());
        assert(groups_value(sb) == (sb[0] % 128) as nat + 128 * groups_value(sb.drop_first()));
        assert(pow128(0) == 1);
        assert(sb[0] == b);
    } else {
        let t = s.drop_first();
        assert(sb.drop_first() =~= t.push(b));
        lemma_groups_value_push(t, b);
        let g = groups_value(t);
        let c = (b % 128) as nat;
        let q = pow128(t.len());
        assert(pow128(s.len()) == 128 * q);
        assert(groups_value(sb) == (s[0] % 128) as nat + 128 * groups_value(t.push(b)));
        assert(groups_value(s) == (s[0] % 128) as nat + 128 * g);
        assert(128 * (g + c * q) == 128 * g + c * (128 * q)) by (nonlinear_arith);
    }
}

proof fn lemma_groups_value_bound(s: Seq<u8>)
    ensures
        groups_value(s) < pow128(s.len()),
    decreases s.len(),
{
    if s.len() > 0 {
        let t = s.drop_first();
        lemma_groups_value_bound(t);
        let g = groups_value(t);
        let p = pow128(t.len());
        assert((s[0] % 128) as nat + 128 * g < 128 * p) by (nonlinear_arith)
            requires
                g < p,
                (s[0] % 128) < 128,
        ;
    }
}

proof fn lemma_varint_bytes_shape(u: nat)
    ensures
        varint_bytes(u).len() >= 1,
        terminator(varint_bytes(u)) == Some((varint_bytes(u).len() - 1) as nat),
        groups_value(varint_bytes(u)) == u,
        varint_bytes(u).len() > 1 ==> u >= pow128((varint_bytes(u).len() - 1) as nat),
        u <= u64::MAX ==> varint_bytes(u).len() <= 10,
    decreases u,
{
    let s = varint_bytes(u);
    if u >= 128 {
        lemma_varint_bytes_shape(u / 128);
        let t = varint_bytes(u / 128);
        assert(s.drop_first() =~= t);
        assert(s[0] == ((u % 128) + 128) as u8);
        assert(s[0] % 128 == u % 128);
        assert(u == u % 128 + 128 * (u / 128));
        assert(groups_value(s) == (s[0] % 128) as nat + 128 * groups_value(s.drop_first()));
        assert(pow128(t.len()) == 128 * pow128((t.len() - 1) as nat));
        if t.len() > 1 {
            assert(u >= 128 * (u / 128));
        }
        if s.len() > 10 {
            lemma_pow_mono(10, (s.len() - 1) as nat);
            assert(pow128(10) == 0x40_0000_0000_0000_0000nat) by {
                reveal_with_fuel(pow128, 11);
            }
        }
    } else {
        assert(s[0] % 128 == u);
        assert(s.drop_first() =~= Seq::<u8>::empty());
        assert(groups_value(s) == (s[0] % 128) as nat + 128 * groups_value(s.drop_first()));
    }
}

proof fn lemma_pow_mono(a: nat, b: nat)
    requires
        a <= b,
    ensures
        pow128(a) <= pow128(b),
    decreases b,
{
    if a < b {
        lemma_pow_mono(a, (b - 1) as nat);
        lemma_pow128_pos((b - 1) as nat);
    }
}

/// Reading the canonical encoding of any 64-bit value gives back that value and
/// the encoding's length, whatever follows it in the buffer.
pub proof fn lemma_decode_encode(u: u64, rest: Seq<u8>)
    ensures
        decode_spec(varint_bytes(u as nat) + rest) == Ok::<(nat, nat), VarintError>(
            (varint_bytes(u as nat).len(), u as nat),
        ),
{
    let e = varint_bytes(u as nat);
    lemma_varint_bytes_shape(u as nat);
    lemma_terminator_prefix(e, rest);
    assert((e + rest).take(e.len() as int) =~= e);
}

proof fn lemma_terminator_prefix(e: Seq<u8>, rest: Seq<u8>)
    requires
        terminator(e) is Some,
    ensures
        terminator(e + rest) == terminator(e),
    decreases e.len(),
{
    if e[0] >= 128 {
        assert((e + rest).drop_first() =~= e.drop_first() + rest);
        lemma_terminator_prefix(e.drop_first(), rest);
    }
}

/// Number of bytes that the encoding of `u` takes.
pub fn length(u: u64) -> (r: usize)
    ensures
        r == varint_bytes(u as nat).len(),
        1 <= r <= 10,
{
    proof {
        lemma_varint_bytes_shape(u as nat);
    }
    let mut n: usize = 1;
    let mut x: u64 = u;
    while x >= 128
        invariant
            1 <= n <= 10,
            n + varint_bytes(x as nat).len() - 1 == varint_bytes(u as nat).len(),
            varint_bytes(u as nat).len() <= 10,
        decreases x,
    {
        proof {
            lemma_varint_bytes_shape(x as nat);
            lemma_varint_bytes_shape((x / 128) as nat);
        }
        x = x / 128;
        n = n + 1;
    }
    n
}

/// The canonical encoding of `u`.
pub fn encode(u: u64) -> (r: Vec<u8>)
    ensures
        r@ == varint_bytes(u as nat),
{
    let mut out: Vec<u8> = Vec::new();
    let mut x: u64 = u;
    while x >= 128
        invariant
            out@ + varint_bytes(x as nat) == varint_bytes(u as nat),
        decreases x,
    {
        let b: u8 = ((x % 128) + 128) as u8;
        out.push(b);
        assert(varint_bytes(x as nat) =~= seq![b] + varint_bytes((x / 128) as nat));
        assert(out@ + varint_bytes((x / 128) as nat) =~= (out@.drop_last() + seq![b])
            + varint_bytes((x / 128) as nat));
        x = x / 128;
    }
    out.push(x as u8);
    assert(out@ =~= out@.drop_last() + varint_bytes(x as nat));
    out
}

/// Reads one varint at the start of `buf`: the number of bytes read and the value.
pub fn decode(buf: &[u8]) -> (r: Result<(usize, u64), VarintError>)
    ensures
        match decode_spec(buf@) {
            Ok((n, v)) => r == Ok::<(usize, u64), VarintError>((n as usize, v as u64)),
            Err(e) => r == Err::<(usize, u64), VarintError>(e),
        },
        match r {
            Ok((n, _)) => 1 <= n <= buf@.len(),
            Err(_) => true,
        },
{
    let mut i: usize = 0;
    let mut acc: u128 = 0;
    let mut p: u128 = 1;
    while i < buf.len() && i < 10
        invariant
            i <= buf.len(),
            i <= 10,
            i < 10 ==> p == pow128(i as nat),
            acc == groups_value(buf@.take(i as int)),
            forall|j: int| 0 <= j < i ==> buf@[j] >= 128,
        decreases buf.len() - i,
    {
        let b = buf[i];
        proof {
            assert(buf@.take(i as int + 1) =~= buf@.take(i as int).push(b));
            lemma_groups_value_push(buf@.take(i as int), b);
            lemma_groups_value_bound(buf@.take(i as int));
            lemma_pow_mono(i as nat, 9);
            assert(pow128(9) == 0x8000_0000_0000_0000u128) by {
                reveal_with_fuel(pow128, 10);
            }
            assert((b % 128) as nat * p <= 127 * 0x8000_0000_0000_0000u128) by (nonlinear_arith)
                requires
                    p <= 0x8000_0000_0000_0000u128,
                    b % 128 < 128,
            ;
        }
        acc = acc + ((b % 128) as u128) * p;
        if b < 128 {
            proof {
                lemma_terminator_at(buf@, i as nat);
            }
            if acc > u64::MAX as u128 {
                return Err(VarintError::VarintOverflow);
            }
            return Ok((i + 1, acc as u64));
        }
        if i < 9 {
            p = p * 128;
        }
        i = i + 1;
    }
    proof {
        if i < buf.len() {
            lemma_terminator_none_before(buf@, i as nat);
        } else {
            lemma_terminator_none(buf@);
        }
    }
    if i < buf.len() {
        Err(VarintError::VarintOverflow)
    } else {
        Err(VarintError::TruncatedInput)
    }
}

proof fn lemma_terminator_at(s: Seq<u8>, i: nat)
    requires
        i < s.len(),
        s[i as int] < 128,
        forall|j: int| 0 <= j < i ==> s[j] >= 128,
    ensures
        terminator(s) == Some(i),
    decreases i,
{
    if i > 0 {
        lemma_terminator_at(s.drop_first(), (i - 1) as nat);
    }
}

proof fn lemma_terminator_none(s: Seq<u8>)
    requires
        forall|j: int| 0 <= j < s.len() ==> s[j] >= 128,
    ensures
        terminator(s) is None,
    decreases s.len(),
{
    if s.len() > 0 {
        lemma_terminator_none(s.drop_first());
    }
}

proof fn lemma_terminator_none_before(s: Seq<u8>, i: nat)
    requires
        i <= s.len(),
        forall|j: int| 0 <= j < i ==> s[j] >= 128,
    ensures
        match terminator(s) {
            Some(k) => k >= i,
            None => true,
        },
    decreases i,
{
    if i > 0 {
        lemma_terminator_none_before(s.drop_first(), (i - 1) as nat);
    }
}

} // verus!
