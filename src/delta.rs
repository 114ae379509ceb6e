//! Delta resolution: rebuilding an object's content from a base content and
//! a stream of copy and insert instructions.
use vstd::prelude::*;
use crate::error::GitError;

verus! {

/// The largest value a size field may hold.
pub const SIZE_MAX: u64 = 0xffff_ffff;

/// The little-endian base-128 varint that starts at `pos`: its value and the
/// position just after it. Each byte gives its low seven bits; a set high bit
/// means another byte follows.
pub open spec fn varint_at(s: Seq<u8>, pos: int) -> Option<(nat, int)>
    decreases s.len() - pos,
{
    if pos < 0 || pos >= s.len() {
        None
    } else if s[pos] < 128 {
        Some((s[pos] as nat, pos + 1))
    } else {
        match varint_at(s, pos + 1) {
            Some((v, p)) => Some(((s[pos] - 128) as nat + 128 * v, p)),
            None => None,
        }
    }
}

/// Reads the varint at `pos`; `MalformedDelta` if the bytes run out before
/// it ends or its value exceeds 32 bits.
pub fn read_varint(s: &[u8], pos: usize) -> (r: Result<(u64, usize), GitError>)
    ensures
        match r {
            Ok((v, p)) => varint_at(s@, pos as int) == Some((v as nat, p as int)) && v <= SIZE_MAX,
            Err(e) => e == GitError::MalformedDelta && match varint_at(s@, pos as int) {
                Some((v, _)) => v > SIZE_MAX,
                None => true,
            },
        },
    decreases s@.len() - pos,
{
    if pos >= s.len() {
        return Err(GitError::MalformedDelta);
    }
    let b = s[pos];
    if b < 128 {
        return Ok((b as u64, pos + 1));
    }
    match read_varint(s, pos + 1) {
        Ok((v, p)) => {
            let w = (b - 128) as u64 + 128 * v;
            if w > SIZE_MAX {
                Err(GitError::MalformedDelta)
            } else {
                Ok((w, p))
            }
        },
        Err(e) => Err(e),
    }
}

/// Whether bit `k` of `op` is set.
pub open spec fn has_bit(op: u8, k: u8) -> bool {
    op & (1u8 << k) != 0
}

/// 256 to the power `k`, for `k` up to 4.
pub open spec fn byte_bound(k: nat) -> nat {
    if k == 0 {
        1
    } else if k == 1 {
        256
    } else if k == 2 {
        65536
    } else if k == 3 {
        16777216
    } else {
        4294967296
    }
}

/// The little-endian number assembled from the optional bytes that bits
/// `first + i` to `first + n - 1` of `op` announce, read from `pos` on: each
/// set bit takes the next byte, each clear bit stands for a zero byte. Gives
/// the number and the position after the bytes read.
pub open spec fn gathered(d: Seq<u8>, op: u8, first: u8, i: u8, n: u8, pos: int) -> Option<(nat, int)>
    decreases n - i,
{
    if i >= n {
        Some((0, pos))
    } else if has_bit(op, (first + i) as u8) {
        if pos < 0 || pos >= d.len() {
            None
        } else {
            match gathered(d, op, first, (i + 1) as u8, n, pos + 1) {
                Some((v, p)) => Some(((d[pos] as nat) + 256 * v, p)),
                None => None,
            }
        }
    } else {
        match gathered(d, op, first, (i + 1) as u8, n, pos) {
            Some((v, p)) => Some((256 * v, p)),
            None => None,
        }
    }
}

fn gather(d: &[u8], op: u8, first: u8, i: u8, n: u8, pos: usize) -> (r: Option<(u64, usize)>)
    requires
        i <= n,
        first + n <= 8,
        n <= 4,
    ensures
        match r {
            Some((v, p)) => gathered(d@, op, first, i, n, pos as int) == Some((v as nat, p as int))
                && v < byte_bound((n - i) as nat),
            None => gathered(d@, op, first, i, n, pos as int) is None,
        },
    decreases n - i,
{
    if i >= n {
        return Some((0, pos));
    }
    let k: u8 = first + i;
    if op & (1u8 << k) != 0 {
        if pos >= d.len() {
            return None;
        }
        match gather(d, op, first, i + 1, n, pos + 1) {
            Some((v, p)) => {
                let b = d[pos] as u64;
                assert(b + 256 * v < byte_bound((n - i) as nat)) by (nonlinear_arith)
                    requires
                        b < 256,
                        v < byte_bound((n - i - 1) as nat),
                        n - i >= 1,
                        n - i <= 4,
                ;
                Some((b + 256 * v, p))
            },
            None => None,
        }
    } else {
        match gather(d, op, first, i + 1, n, pos) {
            Some((v, p)) => {
                assert(256 * v < byte_bound((n - i) as nat)) by (nonlinear_arith)
                    requires
                        v < byte_bound((n - i - 1) as nat),
                        n - i >= 1,
                        n - i <= 4,
                ;
                Some((256 * v, p))
            },
            None => None,
        }
    }
}

/// The output of the instructions from `pos` on, appended to `out`, or
/// `None` if an instruction is truncated or copies from outside `base`.
pub open spec fn run_delta(base: Seq<u8>, d: Seq<u8>, pos: int, out: Seq<u8>) -> Option<Seq<u8>>
    decreases d.len() - pos,
{
    if pos < 0 || pos >= d.len() {
        Some(out)
    } else if d[pos] < 128 {
        let len = d[pos] as int;
        if len == 0 {
            run_delta(base, d, pos + 1, out)
        } else if pos + 1 + len > d.len() {
            None
        } else {
            run_delta(base, d, pos + 1 + len, out + d.subrange(pos + 1, pos + 1 + len))
        }
    } else {
        match gathered(d, d[pos], 0, 0, 4, pos + 1) {
            None => None,
            Some((offset, p1)) => match gathered(d, d[pos], 4, 0, 3, p1) {
                None => None,
                Some((raw_size, p2)) => {
                    let size = if raw_size == 0 {
                        0x10000
                    } else {
                        raw_size
                    };
                    if offset + size > base.len() {
                        None
                    } else if p2 <= pos || p2 > d.len() {
                        None
                    } else {
                        run_delta(base, d, p2, out + base.subrange(offset as int, (offset + size) as int))
                    }
                },
            },
        }
    }
}

/// The content a delta rebuilds from `base`: two size varints (base size,
/// then target size, both within 32 bits), then instructions whose output must
/// have exactly the target size.
pub open spec fn apply_delta(base: Seq<u8>, d: Seq<u8>) -> Option<Seq<u8>> {
    match varint_at(d, 0) {
        None => None,
        Some((base_size, p1)) => match varint_at(d, p1) {
            None => None,
            Some((target_size, p2)) => if base_size > SIZE_MAX || target_size > SIZE_MAX {
                None
            } else {
                match run_delta(base, d, p2, Seq::empty()) {
                    Some(out) => if out.len() == target_size {
                        Some(out)
                    } else {
                        None
                    },
                    None => None,
                }
            },
        },
    }
}

pub(crate) proof fn lemma_varint_advances(s: Seq<u8>, pos: int)
    ensures
        varint_at(s, pos) matches Some((_, p)) ==> pos < p <= s.len(),
    decreases s.len() - pos,
{
    if 0 <= pos < s.len() && s[pos] >= 128 {
        lemma_varint_advances(s, pos + 1);
    }
}

proof fn lemma_gathered_advances(d: Seq<u8>, op: u8, first: u8, i: u8, n: u8, pos: int)
    requires
        0 <= pos,
        i <= n,
    ensures
        gathered(d, op, first, i, n, pos) matches Some((_, p)) ==> pos <= p && (p == pos || p
            <= d.len()),
    decreases n - i,
{
    if i < n {
        if has_bit(op, (first + i) as u8) {
            if 0 <= pos < d.len() {
                lemma_gathered_advances(d, op, first, (i + 1) as u8, n, pos + 1);
            }
        } else {
            lemma_gathered_advances(d, op, first, (i + 1) as u8, n, pos);
        }
    }
}

/// Appends `s[from..to]` to `out`.
fn append_range(out: &mut Vec<u8>, s: &[u8], from: usize, to: usize)
    requires
        from <= to <= s@.len(),
    ensures
        final(out)@ == old(out)@ + s@.subrange(from as int, to as int),
{
    let mut i: usize = from;
    while i < to
        invariant
            from <= i <= to <= s@.len(),
            out@ == old(out)@ + s@.subrange(from as int, i as int),
        decreases to - i,
    {
        out.push(s[i]);
        i = i + 1;
        assert(out@ =~= old(out)@ + s@.subrange(from as int, i as int));
    }
}

/// Rebuilds the target content from `base` and the delta `delta`;
/// `MalformedDelta` exactly when the delta does not describe a target.
pub fn resolve_delta(base: &[u8], delta: &[u8]) -> (r: Result<Vec<u8>, GitError>)
    ensures
        match r {
            Ok(out) => apply_delta(base@, delta@) == Some(out@),
            Err(e) => e == GitError::MalformedDelta && apply_delta(base@, delta@) is None,
        },
{
    let (_base_size, p1) = match read_varint(delta, 0) {
        Ok(x) => x,
        Err(e) => {
            return Err(e);
        },
    };
    let (target_size, p2) = match read_varint(delta, p1) {
        Ok(x) => x,
        Err(e) => {
            return Err(e);
        },
    };
    proof {
        lemma_varint_advances(delta@, 0);
        lemma_varint_advances(delta@, p1 as int);
    }
    let ghost start = (p1, p2, _base_size, target_size);
    let n = delta.len();
    let bn = base.len();
    let mut out: Vec<u8> = Vec::new();
    let mut pos: usize = p2;
    while pos < n
        invariant
            n == delta@.len(),
            bn == base@.len(),
            varint_at(delta@, 0) == Some((start.2 as nat, start.0 as int)),
            varint_at(delta@, start.0 as int) == Some((start.3 as nat, start.1 as int)),
            start.2 <= SIZE_MAX,
            start.3 <= SIZE_MAX,
            start.1 == p2,
            start.3 == target_size,
            p2 <= pos <= n,
            run_delta(base@, delta@, pos as int, out@) == run_delta(
                base@,
                delta@,
                p2 as int,
                Seq::empty(),
            ),
        decreases n - pos,
    {
        let op = delta[pos];
        if op < 128 {
            let len = op as usize;
            if len == 0 {
                pos = pos + 1;
            } else if len > n - pos - 1 {
                assert(run_delta(base@, delta@, pos as int, out@) is None);
                return Err(GitError::MalformedDelta);
            } else {
                append_range(&mut out, delta, pos + 1, pos + 1 + len);
                pos = pos + 1 + len;
            }
        } else {
            let (offset, q1) = match gather(delta, op, 0, 0, 4, pos + 1) {
                Some(x) => x,
                None => {
                    assert(run_delta(base@, delta@, pos as int, out@) is None);
                    return Err(GitError::MalformedDelta);
                },
            };
            proof {
                lemma_gathered_advances(delta@, op, 0, 0, 4, pos + 1);
            }
            let (raw_size, q2) = match gather(delta, op, 4, 0, 3, q1) {
                Some(x) => x,
                None => {
                    return Err(GitError::MalformedDelta);
                },
            };
            proof {
                lemma_gathered_advances(delta@, op, 4, 0, 3, q1 as int);
            }
            let size: u64 = if raw_size == 0 {
                0x10000
            } else {
                raw_size
            };
            if offset + size > bn as u64 {
                return Err(GitError::MalformedDelta);
            }
            if q2 <= pos || q2 > n {
                return Err(GitError::MalformedDelta);
            }
            append_range(&mut out, base, offset as usize, (offset + size) as usize);
            pos = q2;
        }
    }
    if out.len() as u64 != target_size {
        return Err(GitError::MalformedDelta);
    }
    Ok(out)
}

/// The shortest little-endian base-128 encoding of `v`.
pub open spec fn varint_bytes(v: nat) -> Seq<u8>
    decreases v,
{
    if v < 128 {
        seq![v as u8]
    } else {
        seq![(v % 128 + 128) as u8] + varint_bytes(v / 128)
    }
}

pub(crate) proof fn lemma_varint_bytes(v: nat, pre: Seq<u8>, post: Seq<u8>)
    ensures
        varint_bytes(v).len() >= 1,
        varint_at(pre + varint_bytes(v) + post, pre.len() as int) == Some(
            (v, (pre.len() + varint_bytes(v).len()) as int),
        ),
    decreases v,
{
    let s = pre + varint_bytes(v) + post;
    if v < 128 {
        assert(s[pre.len() as int] == v as u8);
    } else {
        let b = (v % 128 + 128) as u8;
        lemma_varint_bytes(v / 128, pre.push(b), post);
        assert(pre.push(b) + varint_bytes(v / 128) + post =~= s);
        assert(s[pre.len() as int] == b);
    }
}

/// The size bytes of a copy of `n` bytes: byte `k` of `n` when it is not zero.
pub open spec fn size_byte(n: nat, k: nat) -> u8 {
    ((n / byte_bound(k)) % 256) as u8
}

/// The copy instruction for `n` bytes from offset 0, for `0 < n < 2^24`:
/// only the size bytes that are not zero are present.
pub open spec fn full_copy_instruction(n: nat) -> Seq<u8> {
    let s0 = size_byte(n, 0);
    let s1 = size_byte(n, 1);
    let s2 = size_byte(n, 2);
    let op = (0x80u8 | (if s0 != 0 { 0x10u8 } else { 0u8 }) | (if s1 != 0 { 0x20u8 } else { 0u8 }) | (
    if s2 != 0 { 0x40u8 } else { 0u8 })) as u8;
    seq![op] + (if s0 != 0 { seq![s0] } else { Seq::empty() }) + (if s1 != 0 { seq![s1] } else {
        Seq::empty()
    }) + (if s2 != 0 { seq![s2] } else { Seq::empty() })
}

/// The delta that copies the whole of a base of `n` bytes: base size and
/// target size `n`, then one copy from offset 0 of `n` bytes.
pub open spec fn full_copy_delta(n: nat) -> Seq<u8> {
    varint_bytes(n) + varint_bytes(n) + full_copy_instruction(n)
}

proof fn lemma_op_bits(b4: u8, b5: u8, b6: u8)
    requires
        b4 == 0x10 || b4 == 0,
        b5 == 0x20 || b5 == 0,
        b6 == 0x40 || b6 == 0,
    ensures
        !has_bit((0x80u8 | b4 | b5 | b6) as u8, 0),
        !has_bit((0x80u8 | b4 | b5 | b6) as u8, 1),
        !has_bit((0x80u8 | b4 | b5 | b6) as u8, 2),
        !has_bit((0x80u8 | b4 | b5 | b6) as u8, 3),
        has_bit((0x80u8 | b4 | b5 | b6) as u8, 4) == (b4 != 0),
        has_bit((0x80u8 | b4 | b5 | b6) as u8, 5) == (b5 != 0),
        has_bit((0x80u8 | b4 | b5 | b6) as u8, 6) == (b6 != 0),
        (0x80u8 | b4 | b5 | b6) as u8 >= 128,
{
    assert(((0x80u8 | b4 | b5 | b6) & (1u8 << 0u8)) == 0) by (bit_vector)
        requires b4 == 0x10 || b4 == 0, b5 == 0x20 || b5 == 0, b6 == 0x40 || b6 == 0;
    assert(((0x80u8 | b4 | b5 | b6) & (1u8 << 1u8)) == 0) by (bit_vector)
        requires b4 == 0x10 || b4 == 0, b5 == 0x20 || b5 == 0, b6 == 0x40 || b6 == 0;
    assert(((0x80u8 | b4 | b5 | b6) & (1u8 << 2u8)) == 0) by (bit_vector)
        requires b4 == 0x10 || b4 == 0, b5 == 0x20 || b5 == 0, b6 == 0x40 || b6 == 0;
    assert(((0x80u8 | b4 | b5 | b6) & (1u8 << 3u8)) == 0) by (bit_vector)
        requires b4 == 0x10 || b4 == 0, b5 == 0x20 || b5 == 0, b6 == 0x40 || b6 == 0;
    assert((((0x80u8 | b4 | b5 | b6) & (1u8 << 4u8)) != 0) == (b4 != 0)) by (bit_vector)
        requires b4 == 0x10 || b4 == 0, b5 == 0x20 || b5 == 0, b6 == 0x40 || b6 == 0;
    assert((((0x80u8 | b4 | b5 | b6) & (1u8 << 5u8)) != 0) == (b5 != 0)) by (bit_vector)
        requires b4 == 0x10 || b4 == 0, b5 == 0x20 || b5 == 0, b6 == 0x40 || b6 == 0;
    assert((((0x80u8 | b4 | b5 | b6) & (1u8 << 6u8)) != 0) == (b6 != 0)) by (bit_vector)
        requires b4 == 0x10 || b4 == 0, b5 == 0x20 || b5 == 0, b6 == 0x40 || b6 == 0;
    assert((0x80u8 | b4 | b5 | b6) >= 128) by (bit_vector);
}

/// A delta made of a single copy of the whole base, from offset 0, rebuilds
/// the base exactly. (A copy instruction holds at most three size bytes, and
/// a size of zero stands for 0x10000, so the base has 1 to 2^24 - 1 bytes.)
pub proof fn lemma_full_copy_reproduces_base(base: Seq<u8>)
    requires
        0 < base.len() < 16777216,
    ensures
        apply_delta(base, full_copy_delta(base.len())) == Some(base),
{
    let n = base.len();
    let d = full_copy_delta(n);
    let v = varint_bytes(n);
    let ins = full_copy_instruction(n);
    lemma_varint_bytes(n, Seq::empty(), v + ins);
    assert(Seq::<u8>::empty() + v + (v + ins) =~= d);
    lemma_varint_bytes(n, v, ins);
    assert(v + v + ins =~= d);
    let p2: int = 2 * v.len() as int;
    let s0 = size_byte(n, 0);
    let s1 = size_byte(n, 1);
    let s2 = size_byte(n, 2);
    let b4: u8 = if s0 != 0 { 0x10u8 } else { 0u8 };
    let b5: u8 = if s1 != 0 { 0x20u8 } else { 0u8 };
    let b6: u8 = if s2 != 0 { 0x40u8 } else { 0u8 };
    let op = (0x80u8 | b4 | b5 | b6) as u8;
    lemma_op_bits(b4, b5, b6);
    assert(d[p2 as int] == op);
    let q: int = p2 + 1;
    let c0: int = if s0 != 0 { 1 } else { 0 };
    let c1: int = if s1 != 0 { 1 } else { 0 };
    let c2: int = if s2 != 0 { 1 } else { 0 };
    assert(d.len() == q + c0 + c1 + c2);
    reveal_with_fuel(gathered, 5);
    assert(gathered(d, op, 0, 0, 4, q) == Some((0nat, q)));
    if s0 != 0 {
        assert(d[q] == s0);
    }
    if s1 != 0 {
        assert(d[q + c0] == s1);
    }
    if s2 != 0 {
        assert(d[q + c0 + c1] == s2);
    }
    assert(gathered(d, op, 4, 2, 3, q + c0 + c1) == Some(((s2 as nat), q + c0 + c1 + c2)));
    assert(gathered(d, op, 4, 1, 3, q + c0) == Some(((s1 as nat) + 256 * (s2 as nat), q + c0 + c1
        + c2)));
    assert(gathered(d, op, 4, 0, 3, q) == Some(
        ((s0 as nat) + 256 * ((s1 as nat) + 256 * (s2 as nat)), d.len() as int),
    ));
    assert((s0 as nat) + 256 * ((s1 as nat) + 256 * (s2 as nat)) == n) by (nonlinear_arith)
        requires
            s0 as nat == n % 256,
            s1 as nat == (n / 256) % 256,
            s2 as nat == (n / 65536) % 256,
            n < 16777216,
    ;
    assert(base.subrange(0, n as int) =~= base);
    assert(Seq::<u8>::empty() + base =~= base);
    assert(run_delta(base, d, d.len() as int, base) == Some(base));
}

} // verus!
