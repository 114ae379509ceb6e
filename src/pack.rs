//! Pack extraction: the `PACK` container, entry headers, directly stored
//! objects, and ref-deltas resolved against objects met earlier in the pack.
use vstd::prelude::*;
use crate::delta::{
    apply_delta, full_copy_delta, full_copy_instruction, lemma_full_copy_reproduces_base,
    read_varint, resolve_delta, varint_at, varint_bytes, SIZE_MAX,
};
use crate::error::GitError;
use crate::objects::{copy_range, object_id, GitObject, Kind};
use crate::primitives::{zlib_decoded, zlib_inflate};

verus! {

/// An object as the pack yields it: kind and content.
pub type ObjectModel = (Kind, Seq<u8>);

/// The kind and content of each object, in order.
pub open spec fn models(objs: Seq<GitObject>) -> Seq<ObjectModel> {
    objs.map_values(|o: GitObject| (o.spec_kind(), o.spec_contents()))
}

/// The kind that a direct entry's type tag stands for.
pub open spec fn tag_kind(tag: u8) -> Option<Kind> {
    if tag == 1 {
        Some(Kind::Commit)
    } else if tag == 2 {
        Some(Kind::Tree)
    } else if tag == 3 {
        Some(Kind::Blob)
    } else {
        None
    }
}

/// The type tag of a ref-delta entry.
pub const REF_DELTA: u8 = 7;

/// An entry header at `pos`: type tag (bits 4 to 6 of the first byte), size
/// (low four bits of the first byte, then a varint shifted left by four while
/// the high bit is set), and the position after the header.
pub open spec fn entry_header(data: Seq<u8>, pos: int) -> Option<(u8, nat, int)> {
    if pos < 0 || pos >= data.len() {
        None
    } else {
        let b = data[pos];
        let tag = (b >> 4u8) & 7u8;
        let low = (b & 15u8) as nat;
        if b < 128 {
            Some((tag, low, pos + 1))
        } else {
            match varint_at(data, pos + 1) {
                Some((v, p)) => Some((tag, low + 16 * v, p)),
                None => None,
            }
        }
    }
}

/// The zlib stream at `pos`: what it inflates to and the position after it.
pub open spec fn inflate_at(data: Seq<u8>, pos: int) -> Option<(Seq<u8>, int)> {
    match zlib_decoded(data.subrange(pos, data.len() as int)) {
        Some((out, rest)) => Some((out, data.len() - rest)),
        None => None,
    }
}

/// The first object of `done`, from index `i` on, whose id is `id`.
pub open spec fn find_base(done: Seq<ObjectModel>, id: Seq<u8>, i: int) -> Option<ObjectModel>
    decreases done.len() - i,
{
    if i < 0 || i >= done.len() {
        None
    } else if object_id(done[i].0, done[i].1) == id {
        Some(done[i])
    } else {
        find_base(done, id, i + 1)
    }
}

/// The base a ref-delta names: the first object with that id among those
/// earlier entries gave, else among those the store supplied.
pub open spec fn delta_base(done: Seq<ObjectModel>, stored: Seq<ObjectModel>, id: Seq<u8>) -> Option<ObjectModel> {
    match find_base(done, id, 0) {
        Some(b) => Some(b),
        None => find_base(stored, id, 0),
    }
}

/// The entry at `pos`, given the objects `done` that earlier entries gave and
/// the objects `stored` taken from the store: the object and the position
/// after the entry, or the failure.
pub open spec fn pack_entry(data: Seq<u8>, pos: int, done: Seq<ObjectModel>, stored: Seq<ObjectModel>) -> Result<
    (ObjectModel, int),
    GitError,
> {
    match entry_header(data, pos) {
        None => Err(GitError::MalformedPack),
        Some((tag, size, p)) => if size > SIZE_MAX {
            Err(GitError::MalformedPack)
        } else if tag_kind(tag) is Some {
            match inflate_at(data, p) {
                None => Err(GitError::Corrupt),
                Some((out, q)) => if out.len() != size {
                    Err(GitError::MalformedPack)
                } else {
                    Ok(((tag_kind(tag)->Some_0, out), q))
                },
            }
        } else if tag == REF_DELTA {
            if p + 20 > data.len() {
                Err(GitError::MalformedPack)
            } else {
                match inflate_at(data, p + 20) {
                    None => Err(GitError::Corrupt),
                    Some((d, q)) => if d.len() != size {
                        Err(GitError::MalformedPack)
                    } else {
                        match delta_base(done, stored, data.subrange(p, p + 20)) {
                            None => Err(GitError::DanglingDeltaBase),
                            Some((bk, bc)) => match apply_delta(bc, d) {
                                None => Err(GitError::MalformedDelta),
                                Some(t) => Ok(((bk, t), q)),
                            },
                        }
                    },
                }
            }
        } else {
            Err(GitError::UnsupportedPackEntry)
        },
    }
}

/// The objects that `n` entries from `pos` on give after `done`, with
/// `stored` supplied from the store, and whether all of them could be read;
/// on a failure, the objects before it.
pub open spec fn pack_entries(data: Seq<u8>, pos: int, n: nat, done: Seq<ObjectModel>, stored: Seq<ObjectModel>) -> (
    Seq<ObjectModel>,
    Result<(), GitError>,
)
    decreases n,
{
    if n == 0 {
        (done, Ok(()))
    } else {
        match pack_entry(data, pos, done, stored) {
            Err(e) => (done, Err(e)),
            Ok((o, q)) => pack_entries(data, q, (n - 1) as nat, done.push(o), stored),
        }
    }
}

/// The four bytes `PACK`.
pub open spec fn pack_signature() -> Seq<u8> {
    seq![80u8, 65, 67, 75]
}

/// A big-endian 32-bit number.
pub open spec fn be32(b: Seq<u8>) -> nat {
    b[0] as nat * 16777216 + b[1] as nat * 65536 + b[2] as nat * 256 + b[3] as nat
}

/// Whether `data` starts with `PACK`, version 2 and an entry count.
pub open spec fn pack_header_ok(data: Seq<u8>) -> bool {
    data.len() >= 12 && data.subrange(0, 4) == pack_signature() && data.subrange(4, 8) == seq![
        0u8,
        0,
        0,
        2,
    ]
}

/// What a pack gives, with `stored` supplied from the store: `PACK`, version
/// 2, an entry count, then that many entries read in order. On a failure,
/// the objects of the entries before it.
pub open spec fn unpacked(data: Seq<u8>, stored: Seq<ObjectModel>) -> (Seq<ObjectModel>, Result<(), GitError>) {
    if !pack_header_ok(data) {
        (Seq::empty(), Err(GitError::MalformedPack))
    } else {
        pack_entries(data, 12, be32(data.subrange(8, 12)), Seq::empty(), stored)
    }
}

/// Whether `a` and `b` hold the same bytes.
fn same_bytes(a: &[u8], b: &[u8]) -> (r: bool)
    ensures
        r == (a@ == b@),
{
    if a.len() != b.len() {
        return false;
    }
    let mut i: usize = 0;
    while i < a.len()
        invariant
            a@.len() == b@.len(),
            i <= a@.len(),
            forall|j: int| 0 <= j < i ==> a@[j] == b@[j],
        decreases a@.len() - i,
    {
        if a[i] != b[i] {
            return false;
        }
        i = i + 1;
    }
    assert(a@ =~= b@);
    true
}

/// The index of the first of `objs` whose id is `id`.
fn find_base_index(objs: &Vec<GitObject>, id: &[u8]) -> (r: Option<usize>)
    ensures
        match r {
            Some(i) => i < objs@.len() && find_base(models(objs@), id@, 0) == Some(
                models(objs@)[i as int],
            ),
            None => find_base(models(objs@), id@, 0) is None,
        },
{
    let ghost m = models(objs@);
    let mut i: usize = 0;
    while i < objs.len()
        invariant
            m == models(objs@),
            i <= objs@.len(),
            find_base(m, id@, 0) == find_base(m, id@, i as int),
        decreases objs@.len() - i,
    {
        let h = objs[i].hash();
        if same_bytes(h.as_slice(), id) {
            return Some(i);
        }
        i = i + 1;
    }
    None
}

/// The zlib stream at `pos`, inflated, and the position after it.
fn inflate_from(data: &[u8], pos: usize) -> (r: Option<(Vec<u8>, usize)>)
    requires
        pos <= data@.len(),
    ensures
        match r {
            Some((out, q)) => inflate_at(data@, pos as int) == Some((out@, q as int)) && pos <= q
                <= data@.len(),
            None => inflate_at(data@, pos as int) is None,
        },
{
    let (_, rest) = data.split_at(pos);
    match zlib_inflate(rest) {
        Some((out, left)) => Some((out, data.len() - left)),
        None => None,
    }
}

/// Reads the entry at `pos`. A ref-delta is resolved against the first of
/// `objs` (the objects earlier entries gave) with the base's id, else the
/// first such of `stored` (objects the caller took from the store);
/// `DanglingDeltaBase` if neither holds it.
pub fn read_entry(data: &[u8], pos: usize, objs: &Vec<GitObject>, stored: &Vec<GitObject>) -> (r: Result<(GitObject, usize), GitError>)
    requires
        pos <= data@.len(),
    ensures
        match r {
            Ok((o, q)) => pack_entry(data@, pos as int, models(objs@), models(stored@)) == Ok::<(ObjectModel, int), GitError>(
                ((o.spec_kind(), o.spec_contents()), q as int),
            ) && q <= data@.len(),
            Err(e) => pack_entry(data@, pos as int, models(objs@), models(stored@)) == Err::<(ObjectModel, int), GitError>(e),
        },
{
    let n = data.len();
    if pos >= n {
        return Err(GitError::MalformedPack);
    }
    let b = data[pos];
    let tag: u8 = (b >> 4u8) & 7u8;
    let low: u64 = (b & 15u8) as u64;
    let (size, p) = if b < 128 {
        (low, pos + 1)
    } else {
        match read_varint(data, pos + 1) {
            Ok((v, p)) => (low + 16 * v, p),
            Err(_) => {
                return Err(GitError::MalformedPack);
            },
        }
    };
    proof {
        crate::delta::lemma_varint_advances(data@, pos + 1);
    }
    if size > SIZE_MAX {
        return Err(GitError::MalformedPack);
    }
    if tag == 1 || tag == 2 || tag == 3 {
        let kind = if tag == 1 {
            Kind::Commit
        } else if tag == 2 {
            Kind::Tree
        } else {
            Kind::Blob
        };
        match inflate_from(data, p) {
            None => Err(GitError::Corrupt),
            Some((out, q)) => {
                if out.len() as u64 != size {
                    return Err(GitError::MalformedPack);
                }
                let o = GitObject::new_checked(kind, out);
                Ok((o, q))
            },
        }
    } else if tag == REF_DELTA {
        if p > n || 20 > n - p {
            return Err(GitError::MalformedPack);
        }
        let base_id = copy_range(data, p, p + 20);
        match inflate_from(data, p + 20) {
            None => Err(GitError::Corrupt),
            Some((d, q)) => {
                if d.len() as u64 != size {
                    return Err(GitError::MalformedPack);
                }
                let base = match find_base_index(objs, base_id.as_slice()) {
                    Some(i) => &objs[i],
                    None => match find_base_index(stored, base_id.as_slice()) {
                        Some(i) => &stored[i],
                        None => {
                            return Err(GitError::DanglingDeltaBase);
                        },
                    },
                };
                match resolve_delta(base.contents().as_slice(), d.as_slice()) {
                    Err(_) => Err(GitError::MalformedDelta),
                    Ok(t) => {
                        let o = GitObject::new_checked(*base.kind(), t);
                        Ok((o, q))
                    },
                }
            },
        }
    } else {
        Err(GitError::UnsupportedPackEntry)
    }
}

/// The base id a ref-delta entry at `pos` names, when the entry's header is
/// well formed and the 20 id bytes are present.
pub open spec fn entry_base(data: Seq<u8>, pos: int) -> Option<Seq<u8>> {
    match entry_header(data, pos) {
        Some((tag, size, p)) => if tag == REF_DELTA && size <= SIZE_MAX && p + 20 <= data.len() {
            Some(data.subrange(p, p + 20))
        } else {
            None
        },
        None => None,
    }
}

/// The base id that the entry at `pos` names, if it is a ref-delta.
pub fn entry_base_id(data: &[u8], pos: usize) -> (r: Option<Vec<u8>>)
    ensures
        match r {
            Some(id) => entry_base(data@, pos as int) == Some(id@),
            None => entry_base(data@, pos as int) is None,
        },
{
    let n = data.len();
    if pos >= n {
        return None;
    }
    let b = data[pos];
    let tag: u8 = (b >> 4u8) & 7u8;
    let low: u64 = (b & 15u8) as u64;
    let (size, p) = if b < 128 {
        (low, pos + 1)
    } else {
        match read_varint(data, pos + 1) {
            Ok((v, p)) => (low + 16 * v, p),
            Err(_) => {
                return None;
            },
        }
    };
    proof {
        crate::delta::lemma_varint_advances(data@, pos + 1);
    }
    if tag != REF_DELTA || size > SIZE_MAX || p > n || 20 > n - p {
        return None;
    }
    Some(copy_range(data, p, p + 20))
}

/// The entry count of a pack whose header is `PACK` and version 2;
/// `MalformedPack` otherwise. The entries start at offset 12.
pub fn pack_count(data: &[u8]) -> (r: Result<u64, GitError>)
    ensures
        match r {
            Ok(c) => pack_header_ok(data@) && c == be32(data@.subrange(8, 12)),
            Err(e) => e == GitError::MalformedPack && !pack_header_ok(data@),
        },
{
    let n = data.len();
    if n < 12 || data[0] != 80u8 || data[1] != 65u8 || data[2] != 67u8 || data[3] != 75u8 {
        proof {
            if n >= 12 {
                assert(data@.subrange(0, 4)[0] == data@[0]);
                assert(data@.subrange(0, 4)[1] == data@[1]);
                assert(data@.subrange(0, 4)[2] == data@[2]);
                assert(data@.subrange(0, 4)[3] == data@[3]);
            }
        }
        return Err(GitError::MalformedPack);
    }
    if data[4] != 0u8 || data[5] != 0u8 || data[6] != 0u8 || data[7] != 2u8 {
        proof {
            assert(data@.subrange(4, 8)[0] == data@[4]);
            assert(data@.subrange(4, 8)[1] == data@[5]);
            assert(data@.subrange(4, 8)[2] == data@[6]);
            assert(data@.subrange(4, 8)[3] == data@[7]);
        }
        return Err(GitError::MalformedPack);
    }
    assert(data@.subrange(0, 4) =~= pack_signature());
    assert(data@.subrange(4, 8) =~= seq![0u8, 0, 0, 2]);
    Ok(data[8] as u64 * 16777216 + data[9] as u64 * 65536 + data[10] as u64 * 256 + data[11] as u64)
}

/// Extracts every object of the pack `data`, in entry order, with `stored`
/// supplied from the store for ref-delta bases. On a failure the objects of
/// the entries before it are returned with the error, so that they can still
/// be stored.
pub fn unpack(data: &[u8], stored: &Vec<GitObject>) -> (r: (Vec<GitObject>, Result<(), GitError>))
    ensures
        (models(r.0@), r.1) == unpacked(data@, models(stored@)),
{
    let mut objs: Vec<GitObject> = Vec::new();
    let n = data.len();
    assert(models(objs@) =~= Seq::empty());
    let count = match pack_count(data) {
        Ok(c) => c,
        Err(e) => {
            return (objs, Err(e));
        },
    };
    let mut pos: usize = 12;
    let mut left: u64 = count;
    while left > 0
        invariant
            n == data@.len(),
            pos <= n,
            pack_entries(data@, pos as int, left as nat, models(objs@), models(stored@)) == unpacked(data@, models(stored@)),
        decreases left,
    {
        match read_entry(data, pos, &objs, stored) {
            Err(e) => {
                return (objs, Err(e));
            },
            Ok((o, q)) => {
                let ghost before = models(objs@);
                objs.push(o);
                assert(models(objs@) =~= before.push((o.spec_kind(), o.spec_contents())));
                pos = q;
                left = left - 1;
            },
        }
    }
    (objs, Ok(()))
}

/// A pack of one ref-delta entry: base id `id`, a delta of `size` bytes
/// (below 16, so that the entry header is one byte), compressed as `z`.
pub open spec fn one_delta_pack(id: Seq<u8>, size: nat, z: Seq<u8>) -> Seq<u8> {
    pack_signature() + seq![0u8, 0, 0, 2] + seq![0u8, 0, 0, 1] + seq![(0x70 + size) as u8] + id + z
}

proof fn lemma_full_copy_delta_short(n: nat)
    requires
        0 < n < 16777216,
    ensures
        full_copy_delta(n).len() < 16,
{
    reveal_with_fuel(varint_bytes, 5);
    assert(varint_bytes(n).len() <= 4);
    assert(full_copy_instruction(n).len() <= 4);
}

proof fn lemma_one_byte_header(size: u8)
    requires
        size < 16,
    ensures
        (((0x70 + size) as u8) >> 4u8) & 7u8 == 7,
        ((0x70 + size) as u8) & 15u8 == size,
        ((0x70 + size) as u8) < 128,
{
    assert((((0x70 + size) as u8) >> 4u8) & 7u8 == 7 && ((0x70 + size) as u8) & 15u8 == size
        && ((0x70 + size) as u8) < 128) by (bit_vector)
        requires
            size < 16,
    ;
}

/// A pack whose only entry is a full-copy delta against a base that the
/// store supplies rebuilds that base: same kind, same content, so same id.
pub proof fn lemma_stored_base_full_copy(k: Kind, b: Seq<u8>, id: Seq<u8>, z: Seq<u8>)
    requires
        0 < b.len() < 16777216,
        id == object_id(k, b),
        id.len() == 20,
        forall|t: Seq<u8>| #[trigger] zlib_decoded(z + t) == Some((full_copy_delta(b.len()), t.len())),
    ensures
        unpacked(
            one_delta_pack(id, full_copy_delta(b.len()).len(), z),
            seq![(k, b)],
        ) == (seq![(k, b)], Ok::<(), GitError>(())),
{
    let d = full_copy_delta(b.len());
    let data = one_delta_pack(id, d.len(), z);
    let stored = seq![(k, b)];
    lemma_full_copy_delta_short(b.len());
    lemma_one_byte_header(d.len() as u8);
    assert(data.subrange(0, 4) =~= pack_signature());
    assert(data.subrange(4, 8) =~= seq![0u8, 0, 0, 2]);
    assert(data.subrange(8, 12) =~= seq![0u8, 0, 0, 1]);
    assert(data[12] == (0x70 + d.len()) as u8);
    assert(entry_header(data, 12) == Some((7u8, d.len(), 13int)));
    assert(data.subrange(13, 33) =~= id);
    assert(data.subrange(33, data.len() as int) =~= z + Seq::<u8>::empty());
    assert(zlib_decoded(z + Seq::<u8>::empty()) == Some((d, 0nat)));
    assert(inflate_at(data, 33) == Some((d, data.len() as int)));
    assert(find_base(stored, id, 0) == Some((k, b)));
    lemma_full_copy_reproduces_base(b);
    assert(pack_entry(data, 12, Seq::empty(), stored) == Ok::<(ObjectModel, int), GitError>(
        ((k, b), data.len() as int),
    ));
    assert(Seq::<ObjectModel>::empty().push((k, b)) =~= stored);
    assert(pack_entries(data, 12, 1, Seq::empty(), stored) == pack_entries(
        data,
        data.len() as int,
        0,
        stored,
        stored,
    ));
}

/// The header of an entry with type tag `tag` and size `size`: low four size
/// bits and the tag in the first byte, the rest of the size as a varint.
pub open spec fn entry_header_bytes(tag: u8, size: nat) -> Seq<u8> {
    if size < 16 {
        seq![(tag * 16 + size) as u8]
    } else {
        seq![(128 + tag * 16 + size % 16) as u8] + varint_bytes(size / 16)
    }
}

/// A direct entry: header, then the compressed content `z`.
pub open spec fn direct_entry(tag: u8, size: nat, z: Seq<u8>) -> Seq<u8> {
    entry_header_bytes(tag, size) + z
}

proof fn lemma_header_byte(t: u8, s: u8, hi: u8)
    requires
        t < 8,
        s < 16,
        hi == 0 || hi == 128,
    ensures
        (((hi + t * 16 + s) as u8) >> 4u8) & 7u8 == t,
        ((hi + t * 16 + s) as u8) & 15u8 == s,
        (((hi + t * 16 + s) as u8) < 128) == (hi == 0),
{
    assert((((hi + t * 16 + s) as u8) >> 4u8) & 7u8 == t && ((hi + t * 16 + s) as u8) & 15u8 == s
        && (((hi + t * 16 + s) as u8) < 128) == (hi == 0)) by (bit_vector)
        requires
            t < 8,
            s < 16,
            hi == 0 || hi == 128,
    ;
}

/// A direct entry whose stream inflates to `x` gives the object of its
/// tag's kind with content `x`, and the next entry starts right after it.
pub proof fn lemma_direct_entry(
    pre: Seq<u8>,
    tag: u8,
    x: Seq<u8>,
    z: Seq<u8>,
    post: Seq<u8>,
    done: Seq<ObjectModel>,
    stored: Seq<ObjectModel>,
)
    requires
        1 <= tag <= 3,
        x.len() <= SIZE_MAX,
        forall|t: Seq<u8>| #[trigger] zlib_decoded(z + t) == Some((x, t.len())),
    ensures
        pack_entry(pre + direct_entry(tag, x.len(), z) + post, pre.len() as int, done, stored) == Ok::<
            (ObjectModel, int),
            GitError,
        >(((tag_kind(tag)->Some_0, x), (pre.len() + direct_entry(tag, x.len(), z).len()) as int)),
{
    let n = x.len();
    let h = entry_header_bytes(tag, n);
    let data = pre + direct_entry(tag, n, z) + post;
    let at = pre.len() as int;
    if n < 16 {
        lemma_header_byte(tag, n as u8, 0);
        assert(data[at] == (0 + tag * 16 + n) as u8);
        assert(entry_header(data, at) == Some((tag, n, at + 1)));
    } else {
        lemma_header_byte(tag, (n % 16) as u8, 128);
        assert(data[at] == (128 + tag * 16 + (n % 16) as u8) as u8);
        let v = varint_bytes(n / 16);
        crate::delta::lemma_varint_bytes(n / 16, pre.push(data[at]), z + post);
        assert(pre.push(data[at]) + v + (z + post) =~= data);
        assert(n == n % 16 + 16 * (n / 16));
        assert(entry_header(data, at) == Some((tag, n, at + h.len())));
    }
    let p = at + h.len();
    assert(data.subrange(p, data.len() as int) =~= z + post);
    assert(zlib_decoded(z + post) == Some((x, post.len())));
    assert(inflate_at(data, p) == Some((x, p + z.len())));
}

/// A pack of one commit, one tree and one blob entry, each a complete zlib
/// stream of its content, gives exactly those three objects, in order.
pub proof fn lemma_three_object_pack(
    cc: Seq<u8>,
    zc: Seq<u8>,
    tc: Seq<u8>,
    zt: Seq<u8>,
    bc: Seq<u8>,
    zb: Seq<u8>,
    stored: Seq<ObjectModel>,
)
    requires
        cc.len() <= SIZE_MAX,
        tc.len() <= SIZE_MAX,
        bc.len() <= SIZE_MAX,
        forall|t: Seq<u8>| #[trigger] zlib_decoded(zc + t) == Some((cc, t.len())),
        forall|t: Seq<u8>| #[trigger] zlib_decoded(zt + t) == Some((tc, t.len())),
        forall|t: Seq<u8>| #[trigger] zlib_decoded(zb + t) == Some((bc, t.len())),
    ensures
        unpacked(
            pack_signature() + seq![0u8, 0, 0, 2] + seq![0u8, 0, 0, 3] + direct_entry(1, cc.len(), zc)
                + direct_entry(2, tc.len(), zt) + direct_entry(3, bc.len(), zb),
            stored,
        ) == (seq![(Kind::Commit, cc), (Kind::Tree, tc), (Kind::Blob, bc)], Ok::<(), GitError>(())),
{
    let head = pack_signature() + seq![0u8, 0, 0, 2] + seq![0u8, 0, 0, 3];
    let e1 = direct_entry(1, cc.len(), zc);
    let e2 = direct_entry(2, tc.len(), zt);
    let e3 = direct_entry(3, bc.len(), zb);
    let data = head + e1 + e2 + e3;
    assert(data.subrange(0, 4) =~= pack_signature());
    assert(data.subrange(4, 8) =~= seq![0u8, 0, 0, 2]);
    assert(data.subrange(8, 12) =~= seq![0u8, 0, 0, 3]);
    let o1 = (Kind::Commit, cc);
    let o2 = (Kind::Tree, tc);
    let o3 = (Kind::Blob, bc);
    let d0 = Seq::<ObjectModel>::empty();
    let d1 = d0.push(o1);
    let d2 = d1.push(o2);
    let d3 = d2.push(o3);
    lemma_direct_entry(head, 1, cc, zc, e2 + e3, d0, stored);
    assert(head + e1 + (e2 + e3) =~= data);
    lemma_direct_entry(head + e1, 2, tc, zt, e3, d1, stored);
    assert(head + e1 + e2 + e3 =~= data);
    lemma_direct_entry(head + e1 + e2, 3, bc, zb, Seq::empty(), d2, stored);
    assert(head + e1 + e2 + e3 + Seq::<u8>::empty() =~= data);
    let p1: int = head.len() + e1.len() as int;
    let p2: int = p1 + e2.len() as int;
    let p3: int = p2 + e3.len() as int;
    assert(pack_entries(data, p3, 0, d3, stored) == (d3, Ok::<(), GitError>(())));
    assert(pack_entries(data, p2, 1, d2, stored) == (d3, Ok::<(), GitError>(())));
    assert(pack_entries(data, p1, 2, d1, stored) == (d3, Ok::<(), GitError>(())));
    assert(pack_entries(data, 12, 3, d0, stored) == (d3, Ok::<(), GitError>(())));
    assert(d3 =~= seq![o1, o2, o3]);
}

} // verus!
