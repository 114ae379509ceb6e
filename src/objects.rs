//! Loose objects: the `<kind> <size>\0` header, content addressing, and the
//! compressed form kept in the object store.
use vstd::prelude::*;
use vstd::string::StringSliceAdditionalSpecFns;
use vstd::utf8::{encode_utf8, is_ascii_chars, is_ascii_chars_encode_utf8};
use crate::error::GitError;
use crate::primitives::{hex_bytes, hex_digit, hex_value, hex_decode, hex_encode, hex_text, sha1_digest, sha1_of, zlib_decoded, zlib_deflate, zlib_encoded, zlib_inflate};

verus! {

/// The three kinds of stored object.
#[derive(Clone, Copy, Debug, PartialEq, Eq, Structural)]
pub enum Kind {
    Blob,
    Tree,
    Commit,
}

/// The word that names a kind in a header.
pub open spec fn kind_word(k: Kind) -> Seq<u8> {
    match k {
        Kind::Blob => seq![98u8, 108, 111, 98],
        Kind::Tree => seq![116u8, 114, 101, 101],
        Kind::Commit => seq![99u8, 111, 109, 109, 105, 116],
    }
}

/// The decimal digits of `n`, without leading zeros.
pub open spec fn decimal(n: nat) -> Seq<u8>
    decreases n,
{
    if n < 10 {
        seq![(48 + n) as u8]
    } else {
        decimal(n / 10).push((48 + n % 10) as u8)
    }
}

/// `<kind> <size>\0`.
pub open spec fn header_of(k: Kind, size: nat) -> Seq<u8> {
    kind_word(k) + seq![32u8] + decimal(size) + seq![0u8]
}

/// The bytes an object is stored and hashed as: header, then content.
pub open spec fn loose_encoding(k: Kind, content: Seq<u8>) -> Seq<u8> {
    header_of(k, content.len()) + content
}

/// The id of an object: the SHA-1 digest of its loose encoding.
pub open spec fn object_id(k: Kind, content: Seq<u8>) -> Seq<u8> {
    sha1_of(loose_encoding(k, content))
}

/// Whether every byte of `d` is a decimal digit, and there is one at least.
pub open spec fn is_digit_run(d: Seq<u8>) -> bool {
    d.len() > 0 && forall|i: int| 0 <= i < d.len() ==> 48 <= #[trigger] d[i] <= 57
}

/// The value of a run of decimal digits, leading zeros allowed.
pub open spec fn digits_value(d: Seq<u8>) -> nat
    decreases d.len(),
{
    if d.len() == 0 {
        0
    } else {
        digits_value(d.drop_last()) * 10 + (d.last() - 48) as nat
    }
}

/// `raw` is kind word, space, the digits `d`, NUL, then `c`, where `d` is a
/// digit run whose value is the length of `c`.
pub open spec fn encodes_with(raw: Seq<u8>, k: Kind, c: Seq<u8>, d: Seq<u8>) -> bool {
    is_digit_run(d) && digits_value(d) == c.len() && raw == kind_word(k) + seq![32u8] + d + seq![
        0u8,
    ] + c
}

/// Whether `raw` holds an object of kind `k` with content `c`: its header
/// may write the size with leading zeros.
pub open spec fn encodes(raw: Seq<u8>, k: Kind, c: Seq<u8>) -> bool {
    exists|d: Seq<u8>| #[trigger] encodes_with(raw, k, c, d)
}

/// Whether some kind and content are held in exactly `raw`.
pub open spec fn is_loose_encoding(raw: Seq<u8>) -> bool {
    exists|k: Kind, c: Seq<u8>| #[trigger] encodes(raw, k, c)
}

proof fn lemma_decimal_value(n: nat)
    ensures
        digits_value(decimal(n)) == n,
    decreases n,
{
    if n >= 10 {
        lemma_decimal_value(n / 10);
        assert(decimal(n).drop_last() =~= decimal(n / 10));
        assert(decimal(n).last() == (48 + n % 10) as u8);
        assert(n == (n / 10) * 10 + n % 10);
    } else {
        assert(decimal(n).drop_last() =~= Seq::<u8>::empty());
        assert(digits_value(Seq::<u8>::empty()) == 0);
    }
}

/// The canonical encoding holds its kind and content.
pub proof fn lemma_canonical_encodes(k: Kind, c: Seq<u8>)
    ensures
        encodes(loose_encoding(k, c), k, c),
{
    lemma_decimal_digits(c.len());
    lemma_decimal_value(c.len());
    assert(encodes_with(loose_encoding(k, c), k, c, decimal(c.len())));
}

proof fn lemma_digits_monotone(d: Seq<u8>, j: int)
    requires
        0 <= j <= d.len(),
        is_digit_run(d) || d.len() == 0 || forall|i: int| 0 <= i < d.len() ==> 48 <= #[trigger] d[i] <= 57,
    ensures
        digits_value(d.subrange(0, j)) <= digits_value(d),
    decreases d.len(),
{
    if j < d.len() {
        lemma_digits_monotone(d.drop_last(), j);
        assert(d.drop_last().subrange(0, j) =~= d.subrange(0, j));
    } else {
        assert(d.subrange(0, j) =~= d);
    }
}

/// In a held object, the first NUL ends the header.
proof fn lemma_encodes_first_nul(raw: Seq<u8>, k: Kind, c: Seq<u8>, d: Seq<u8>)
    requires
        encodes_with(raw, k, c, d),
    ensures
        raw[kind_word(k).len() + 1 + d.len() as int] == 0,
        forall|i: int| 0 <= i < kind_word(k).len() + 1 + d.len() ==> #[trigger] raw[i] != 0,
        raw.subrange(0, kind_word(k).len() + 1 as int) == kind_word(k) + seq![32u8],
        raw.subrange(kind_word(k).len() + 1 as int, kind_word(k).len() + 1 + d.len() as int) == d,
        c == raw.subrange(kind_word(k).len() + 2 + d.len() as int, raw.len() as int),
{
    let w: int = kind_word(k).len() as int;
    assert forall|i: int| 0 <= i < w + 1 + d.len() implies #[trigger] raw[i] != 0 by {
        if i > w {
            assert(raw[i] == d[i - w - 1]);
        }
    }
    assert(raw.subrange(0, w + 1) =~= kind_word(k) + seq![32u8]);
    assert(raw.subrange(w + 1, w + 1 + d.len()) =~= d);
    assert(c =~= raw.subrange(w + 2 + d.len(), raw.len() as int));
}

/// A held object's kind and content are determined by the bytes.
pub proof fn lemma_encodes_unique(raw: Seq<u8>, k1: Kind, c1: Seq<u8>, k2: Kind, c2: Seq<u8>)
    requires
        encodes(raw, k1, c1),
        encodes(raw, k2, c2),
    ensures
        k1 == k2,
        c1 == c2,
{
    let d1 = choose|d: Seq<u8>| #[trigger] encodes_with(raw, k1, c1, d);
    let d2 = choose|d: Seq<u8>| #[trigger] encodes_with(raw, k2, c2, d);
    lemma_encodes_first_nul(raw, k1, c1, d1);
    lemma_encodes_first_nul(raw, k2, c2, d2);
    assert(raw[0] == kind_word(k1)[0]);
    assert(raw[0] == kind_word(k2)[0]);
    let e1: int = kind_word(k1).len() + 1 + d1.len() as int;
    let e2: int = kind_word(k2).len() + 1 + d2.len() as int;
    if e1 < e2 {
        assert(raw[e1] != 0);
    } else if e2 < e1 {
        assert(raw[e2] != 0);
    }
}

proof fn lemma_decimal_digits(n: nat)
    ensures
        decimal(n).len() >= 1,
        forall|i: int| 0 <= i < decimal(n).len() ==> 48 <= #[trigger] decimal(n)[i] <= 57,
    decreases n,
{
    if n >= 10 {
        lemma_decimal_digits(n / 10);
    }
}

/// The decimal digits of `n`.
fn decimal_bytes(n: usize) -> (r: Vec<u8>)
    ensures
        r@ == decimal(n as nat),
    decreases n,
{
    if n < 10 {
        let mut v: Vec<u8> = Vec::new();
        v.push(48 + n as u8);
        v
    } else {
        let mut v = decimal_bytes(n / 10);
        v.push(48 + (n % 10) as u8);
        v
    }
}

impl Kind {
    /// The word that names this kind in a header (`blob`, `tree`, `commit`).
    pub fn word(&self) -> (r: Vec<u8>)
        ensures
            r@ == kind_word(*self),
    {
        match self {
            Kind::Blob => vec![98u8, 108, 111, 98],
            Kind::Tree => vec![116u8, 114, 101, 101],
            Kind::Commit => vec![99u8, 111, 109, 109, 105, 116],
        }
    }
}

/// The header for an object of kind `k` whose content has `size` bytes.
pub fn header_bytes(k: Kind, size: usize) -> (r: Vec<u8>)
    ensures
        r@ == header_of(k, size as nat),
{
    let mut h = k.word();
    h.push(32u8);
    let d = decimal_bytes(size);
    h.extend_from_slice(d.as_slice());
    h.push(0u8);
    h
}

/// Whether `raw` holds exactly the bytes `expected` from `start` on.
pub fn bytes_equal_at(raw: &[u8], start: usize, expected: &[u8]) -> (r: bool)
    requires
        start + expected@.len() <= raw@.len(),
    ensures
        r == (raw@.subrange(start as int, start + expected@.len()) == expected@),
{
    let n = raw.len();
    let mut i: usize = 0;
    while i < expected.len()
        invariant
            n == raw@.len(),
            i <= expected@.len(),
            start + expected@.len() <= raw@.len(),
            forall|j: int| 0 <= j < i ==> raw@[start + j] == expected@[j],
        decreases expected@.len() - i,
    {
        if raw[start + i] != expected[i] {
            assert(raw@.subrange(start as int, start + expected@.len())[i as int] != expected@[i as int]);
            return false;
        }
        i = i + 1;
    }
    assert(raw@.subrange(start as int, start + expected@.len()) =~= expected@);
    true
}

/// Whether `a` and `b` hold the same bytes.
pub fn bytes_equal(a: &[u8], b: &[u8]) -> (r: bool)
    ensures
        r == (a@ == b@),
{
    if a.len() != b.len() {
        return false;
    }
    let r = bytes_equal_at(a, 0, b);
    assert(a@.subrange(0, b@.len() as int) =~= a@);
    r
}

/// The bytes of `s` from `from` up to `to`.
pub fn copy_range(s: &[u8], from: usize, to: usize) -> (r: Vec<u8>)
    requires
        from <= to <= s@.len(),
    ensures
        r@ == s@.subrange(from as int, to as int),
{
    let mut v: Vec<u8> = Vec::new();
    let mut i: usize = from;
    while i < to
        invariant
            from <= i <= to <= s@.len(),
            v@ == s@.subrange(from as int, i as int),
        decreases to - i,
    {
        v.push(s[i]);
        i = i + 1;
        assert(v@ =~= s@.subrange(from as int, i as int));
    }
    v
}

/// The position of the first `b` in `s`, if any.
pub fn find_byte(s: &[u8], start: usize, b: u8) -> (r: Option<usize>)
    requires
        start <= s@.len(),
    ensures
        match r {
            Some(p) => start <= p < s@.len() && s@[p as int] == b && forall|k: int|
                start <= k < p ==> s@[k] != b,
            None => forall|k: int| start <= k < s@.len() ==> s@[k] != b,
        },
{
    let mut i: usize = start;
    while i < s.len()
        invariant
            start <= i <= s@.len(),
            forall|k: int| start <= k < i ==> s@[k] != b,
        decreases s@.len() - i,
    {
        if s[i] == b {
            return Some(i);
        }
        i = i + 1;
    }
    None
}

/// The content held in `raw` as an object of kind `k`, where `p` is the
/// position of the first NUL in `raw`.
fn content_as(raw: &[u8], p: usize, k: Kind) -> (r: Option<Vec<u8>>)
    requires
        p < raw@.len(),
        raw@[p as int] == 0,
        forall|i: int| 0 <= i < p ==> raw@[i] != 0,
    ensures
        match r {
            Some(c) => encodes(raw@, k, c@),
            None => forall|c: Seq<u8>| !#[trigger] encodes(raw@, k, c),
        },
{
    let n = raw.len();
    let w = k.word();
    let wl = w.len();
    let target: u128 = (n - p - 1) as u128;
    proof {
        assert forall|c: Seq<u8>| #[trigger] encodes(raw@, k, c) implies {
            let d = raw@.subrange(wl + 1, p as int);
            &&& p >= wl + 2
            &&& raw@.subrange(0, wl + 1) == kind_word(k) + seq![32u8]
            &&& encodes_with(raw@, k, c, d)
            &&& c.len() == target
        } by {
            let d = choose|d: Seq<u8>| #[trigger] encodes_with(raw@, k, c, d);
            lemma_encodes_first_nul(raw@, k, c, d);
            let e = wl + 1 + d.len();
            if e > p {
                assert(raw@[p as int] != 0);
            }
            assert(e == p);
        }
    }
    if p < wl + 2 {
        return None;
    }
    if !bytes_equal_at(raw, 0, w.as_slice()) || raw[wl] != 32u8 {
        proof {
            if raw@.subrange(0, wl as int) == w@ && raw@[wl as int] == 32 {
                assert(raw@.subrange(0, wl + 1) =~= kind_word(k) + seq![32u8]);
            }
            assert forall|c: Seq<u8>| !#[trigger] encodes(raw@, k, c) by {
                if encodes(raw@, k, c) {
                    let x = raw@.subrange(0, wl + 1);
                    assert(x == kind_word(k) + seq![32u8]);
                    assert(raw@[wl as int] == x[wl as int]);
                    assert(x[wl as int] == 32u8);
                    assert(raw@.subrange(0, wl as int) =~= kind_word(k));
                }
            }
        }
        return None;
    }
    let ghost ds = raw@.subrange(wl + 1, p as int);
    let mut v: u128 = 0;
    let mut i: usize = wl + 1;
    while i < p
        invariant
            n == raw@.len(),
            wl + 1 <= i <= p < n,
            ds == raw@.subrange(wl + 1, p as int),
            target == n - p - 1,
            target <= 0xffff_ffff_ffff_ffff,
            wl == kind_word(k).len(),
            forall|c: Seq<u8>| #[trigger] encodes(raw@, k, c) ==> encodes_with(raw@, k, c, ds) && c.len() == target,
            forall|j: int| wl + 1 <= j < i ==> 48 <= #[trigger] raw@[j] <= 57,
            v == digits_value(raw@.subrange(wl + 1, i as int)),
            v <= target,
        decreases p - i,
    {
        let b = raw[i];
        if b < 48 || b > 57 {
            proof {
                assert forall|c: Seq<u8>| !#[trigger] encodes(raw@, k, c) by {
                    if encodes(raw@, k, c) {
                        assert(ds[i - wl - 1] == b);
                        assert(is_digit_run(ds));
                    }
                }
            }
            return None;
        }
        let nv = v * 10 + (b - 48) as u128;
        assert(raw@.subrange(wl + 1, i + 1).drop_last() =~= raw@.subrange(wl + 1, i as int));
        if nv > target {
            proof {
                assert forall|c: Seq<u8>| !#[trigger] encodes(raw@, k, c) by {
                    if encodes(raw@, k, c) {
                        lemma_digits_monotone(ds, i + 1 - wl - 1);
                        assert(ds.subrange(0, i + 1 - wl - 1) =~= raw@.subrange(wl + 1, i + 1));
                    }
                }
            }
            return None;
        }
        v = nv;
        i = i + 1;
    }
    if v != target {
        proof {
            assert(raw@.subrange(wl + 1, i as int) =~= ds);
        }
        return None;
    }
    let c = copy_range(raw, p + 1, n);
    proof {
        assert(raw@.subrange(wl + 1, i as int) =~= ds);
        assert(raw@.subrange(0, wl as int) == w@);
        assert(raw@ =~= kind_word(k) + seq![32u8] + ds + seq![0u8] + c@);
        assert(encodes_with(raw@, k, c@, ds));
    }
    Some(c)
}

/// Splits the bytes of a stored object into its kind and content;
/// `MalformedObject` when `raw` holds no object.
pub fn parse_loose(raw: &[u8]) -> (r: Result<(Kind, Vec<u8>), GitError>)
    ensures
        match r {
            Ok((k, c)) => encodes(raw@, k, c@),
            Err(e) => e == GitError::MalformedObject && !is_loose_encoding(raw@),
        },
{
    let nul = find_byte(raw, 0, 0u8);
    let p = match nul {
        Some(p) => p,
        None => {
            proof {
                if is_loose_encoding(raw@) {
                    let (k, c) = choose|k: Kind, c: Seq<u8>| #[trigger] encodes(raw@, k, c);
                    let d = choose|d: Seq<u8>| #[trigger] encodes_with(raw@, k, c, d);
                    lemma_encodes_first_nul(raw@, k, c, d);
                }
            }
            return Err(GitError::MalformedObject);
        },
    };
    match content_as(raw, p, Kind::Blob) {
        Some(c) => {
            return Ok((Kind::Blob, c));
        },
        None => {},
    }
    match content_as(raw, p, Kind::Tree) {
        Some(c) => {
            return Ok((Kind::Tree, c));
        },
        None => {},
    }
    match content_as(raw, p, Kind::Commit) {
        Some(c) => {
            return Ok((Kind::Commit, c));
        },
        None => {},
    }
    proof {
        if is_loose_encoding(raw@) {
            let (k, c) = choose|k: Kind, c: Seq<u8>| #[trigger] encodes(raw@, k, c);
            match k {
                Kind::Blob => {},
                Kind::Tree => {},
                Kind::Commit => {},
            }
        }
    }
    Err(GitError::MalformedObject)
}

/// A raw id as 40 lowercase hexadecimal digits.
pub fn hex_of(id: &Vec<u8>) -> (r: String)
    ensures
        r@ == hex_text(id@),
{
    hex_encode(id.as_slice())
}

/// The store location for the id that `hex_string` spells: the directory
/// named by its first byte and the file named by the rest, both in lowercase
/// hex; `InvalidArgument` if it spells no 20-byte id.
pub fn object_path(hex_string: &str) -> (r: Result<(String, String), GitError>)
    ensures
        match r {
            Ok((dir, file)) => is_hex_id(hex_string.spec_bytes()) && dir@ == hex_text(
                hex_bytes(hex_string.spec_bytes())->Some_0.subrange(0, 1),
            ) && file@ == hex_text(hex_bytes(hex_string.spec_bytes())->Some_0.subrange(1, 20)),
            Err(e) => e == GitError::InvalidArgument && !is_hex_id(hex_string.spec_bytes()),
        },
{
    match hex_decode(hex_string.as_bytes()) {
        Some(id) => {
            if id.len() != 20 {
                return Err(GitError::InvalidArgument);
            }
            let first = copy_range(id.as_slice(), 0, 1);
            let rest = copy_range(id.as_slice(), 1, 20);
            Ok((hex_encode(first.as_slice()), hex_encode(rest.as_slice())))
        },
        None => Err(GitError::InvalidArgument),
    }
}

/// Whether `s` spells a 20-byte id in hexadecimal.
pub open spec fn is_hex_id(s: Seq<u8>) -> bool {
    match hex_bytes(s) {
        Some(b) => b.len() == 20,
        None => false,
    }
}

/// What the compressed bytes of a store file decode to: the kind and content
/// of the object, or the failure.
pub open spec fn stored_decoding(stored: Seq<u8>) -> Result<(Kind, Seq<u8>), GitError> {
    match zlib_decoded(stored) {
        None => Err(GitError::Corrupt),
        Some((raw, _)) => if is_loose_encoding(raw) {
            Ok(choose|kc: (Kind, Seq<u8>)| encodes(raw, kc.0, kc.1))
        } else {
            Err(GitError::MalformedObject)
        },
    }
}

/// Round trip through the store: whatever inflates to the loose encoding of
/// a kind and a content decodes to that same kind and content.
pub proof fn lemma_store_round_trip(k: Kind, c: Seq<u8>, stored: Seq<u8>)
    requires
        zlib_decoded(stored) == Some((loose_encoding(k, c), 0nat)),
    ensures
        stored_decoding(stored) == Ok::<(Kind, Seq<u8>), GitError>((k, c)),
{
    let raw = loose_encoding(k, c);
    lemma_canonical_encodes(k, c);
    assert(encodes(raw, (k, c).0, (k, c).1));
    assert(is_loose_encoding(raw));
    let kc = choose|kc: (Kind, Seq<u8>)| encodes(raw, kc.0, kc.1);
    lemma_encodes_unique(raw, k, c, kc.0, kc.1);
}

proof fn lemma_hex_text_at(b: Seq<u8>)
    ensures
        hex_text(b).len() == 2 * b.len(),
        forall|i: int|
            0 <= i < b.len() ==> #[trigger] hex_text(b)[2 * i] == hex_digit(b[i] / 16) && hex_text(
                b,
            )[2 * i + 1] == hex_digit(b[i] % 16),
    decreases b.len(),
{
    if b.len() > 0 {
        lemma_hex_text_at(b.drop_first());
        assert forall|i: int| 0 <= i < b.len() implies #[trigger] hex_text(b)[2 * i] == hex_digit(
            b[i] / 16,
        ) && hex_text(b)[2 * i + 1] == hex_digit(b[i] % 16) by {
            if i > 0 {
                assert(b.drop_first()[i - 1] == b[i]);
                assert(hex_text(b)[2 * i] == hex_text(b.drop_first())[2 * (i - 1)]);
                assert(hex_text(b)[2 * i + 1] == hex_text(b.drop_first())[2 * (i - 1) + 1]);
            }
        }
    }
}

proof fn lemma_hex_digit_value(v: u8)
    requires
        v < 16,
    ensures
        hex_value(hex_digit(v) as u8) == Some(v),
        hex_digit(v) <= '\u{7f}',
{
}

proof fn lemma_hex_bytes_of(x: Seq<u8>, b: Seq<u8>)
    requires
        x.len() == 2 * b.len(),
        forall|i: int|
            0 <= i < b.len() ==> #[trigger] x[2 * i] == hex_digit(b[i] / 16) as u8 && x[2 * i + 1]
                == hex_digit(b[i] % 16) as u8,
    ensures
        hex_bytes(x) == Some(b),
    decreases b.len(),
{
    if b.len() > 0 {
        let y = x.subrange(2, x.len() as int);
        let r = b.drop_first();
        assert forall|i: int| 0 <= i < r.len() implies #[trigger] y[2 * i] == hex_digit(r[i] / 16) as u8
            && y[2 * i + 1] == hex_digit(r[i] % 16) as u8 by {
            assert(y[2 * i] == x[2 * (i + 1)]);
            assert(y[2 * i + 1] == x[2 * (i + 1) + 1]);
        }
        lemma_hex_bytes_of(y, r);
        let z: int = 0;
        assert(x[2 * z] == hex_digit(b[z] / 16) as u8 && x[2 * z + 1] == hex_digit(b[z] % 16) as u8);
        lemma_hex_digit_value(b[0] / 16);
        lemma_hex_digit_value(b[0] % 16);
        assert(((b[0] / 16) * 16 + b[0] % 16) as u8 == b[0]);
        assert(seq![b[0]] + r =~= b);
    }
}

/// The hex text of a 20-byte id, as bytes, spells that id.
pub proof fn lemma_hex_text_is_id(id: Seq<u8>)
    requires
        id.len() == 20,
    ensures
        is_hex_id(encode_utf8(hex_text(id))),
        hex_bytes(encode_utf8(hex_text(id))) == Some(id),
{
    let h = hex_text(id);
    lemma_hex_text_at(id);
    assert forall|j: int| 0 <= j < h.len() implies '\0' <= #[trigger] h[j] <= '\u{7f}' by {
        let i = j / 2;
        lemma_hex_digit_value(id[i] / 16);
        lemma_hex_digit_value(id[i] % 16);
        if j % 2 == 0 {
            assert(h[2 * i] == h[j]);
        } else {
            assert(h[2 * i + 1] == h[j]);
        }
    }
    assert(is_ascii_chars(h));
    is_ascii_chars_encode_utf8(h);
    let x = encode_utf8(h);
    assert forall|i: int| 0 <= i < id.len() implies #[trigger] x[2 * i] == hex_digit(id[i] / 16) as u8
        && x[2 * i + 1] == hex_digit(id[i] % 16) as u8 by {
        assert(x[2 * i] == h[2 * i] as u8);
        assert(x[2 * i + 1] == h[2 * i + 1] as u8);
    }
    lemma_hex_bytes_of(x, id);
}

/// Round trip through the store, as `from_hex_string` reads it: the hex text
/// of an object's id is accepted, and what inflates to the object's loose
/// encoding decodes to its kind and content.
pub proof fn lemma_hex_store_round_trip(k: Kind, c: Seq<u8>, id: Seq<u8>, stored: Seq<u8>)
    requires
        id == object_id(k, c),
        id.len() == 20,
        zlib_decoded(stored) == Some((loose_encoding(k, c), 0nat)),
    ensures
        is_hex_id(encode_utf8(hex_text(id))),
        stored_decoding(stored) == Ok::<(Kind, Seq<u8>), GitError>((k, c)),
{
    lemma_hex_text_is_id(id);
    lemma_store_round_trip(k, c, stored);
}

/// The fixed identity that signs every commit.
pub const COMMITTER: &'static str = "Code Crafters <000000000+codecrafters@users.noreply.github.com> 1750973235 +0000";

/// The content of a commit: tree line, optional parent line, author and
/// committer lines, a blank line, then the message and a newline.
pub open spec fn commit_text(msg: Seq<u8>, tree: Seq<u8>, parent: Option<Seq<u8>>) -> Seq<u8> {
    let who = COMMITTER.spec_bytes();
    let tree_line = seq![116u8, 114, 101, 101, 32] + tree + seq![10u8];
    let parent_line = match parent {
        Some(p) => seq![112u8, 97, 114, 101, 110, 116, 32] + p + seq![10u8],
        None => Seq::empty(),
    };
    let author_line = seq![97u8, 117, 116, 104, 111, 114, 32] + who + seq![10u8];
    let committer_line = seq![99u8, 111, 109, 109, 105, 116, 116, 101, 114, 32] + who + seq![10u8];
    tree_line + parent_line + author_line + committer_line + seq![10u8] + msg + seq![10u8]
}

/// An immutable object whose id is always the digest of its loose encoding.
#[derive(Debug)]
pub struct GitObject {
    kind: Kind,
    contents: Vec<u8>,
    hash: Vec<u8>,
}

impl GitObject {
    #[verifier::type_invariant]
    spec fn inv(&self) -> bool {
        self.hash@ == object_id(self.kind, self.contents@) && self.hash@.len() == 20
    }

    /// The kind of this object.
    pub closed spec fn spec_kind(&self) -> Kind {
        self.kind
    }

    /// The content of this object.
    pub closed spec fn spec_contents(&self) -> Seq<u8> {
        self.contents@
    }

    /// The id of this object.
    pub open spec fn spec_id(&self) -> Seq<u8> {
        object_id(self.spec_kind(), self.spec_contents())
    }

    /// The object of kind `kind` holding `contents`, with its id computed.
    pub fn build(kind: Kind, contents: Vec<u8>) -> (r: Result<GitObject, GitError>)
        ensures
            match r {
                Ok(o) => o.spec_kind() == kind && o.spec_contents() == contents@,
                Err(_) => false,
            },
    {
        Ok(Self::new_checked(kind, contents))
    }

    pub(crate) fn new_checked(kind: Kind, contents: Vec<u8>) -> (r: GitObject)
        ensures
            r.spec_kind() == kind,
            r.spec_contents() == contents@,
    {
        let mut buf = header_bytes(kind, contents.len());
        buf.extend_from_slice(contents.as_slice());
        assert(buf@ =~= loose_encoding(kind, contents@));
        let hash = sha1_digest(buf.as_slice());
        GitObject { kind, contents, hash }
    }

    /// The commit for tree `tree_hash`, with `parent_hash` as its parent if
    /// given, and message `msg`.
    pub fn build_commit(msg: &str, tree_hash: &str, parent_hash: Option<&str>) -> (r: Result<
        GitObject,
        GitError,
    >)
        ensures
            match r {
                Ok(o) => o.spec_kind() == Kind::Commit && o.spec_contents() == commit_text(
                    msg.spec_bytes(),
                    tree_hash.spec_bytes(),
                    match parent_hash {
                        Some(p) => Some(p.spec_bytes()),
                        None => None,
                    },
                ),
                Err(_) => false,
            },
    {
        let who = Self::committer();
        let mut c: Vec<u8> = vec![116u8, 114, 101, 101, 32];
        c.extend_from_slice(tree_hash.as_bytes());
        c.push(10u8);
        match parent_hash {
            Some(p) => {
                c.extend_from_slice(&[112u8, 97, 114, 101, 110, 116, 32]);
                c.extend_from_slice(p.as_bytes());
                c.push(10u8);
            },
            None => {},
        }
        c.extend_from_slice(&[97u8, 117, 116, 104, 111, 114, 32]);
        c.extend_from_slice(who.as_bytes());
        c.push(10u8);
        c.extend_from_slice(&[99u8, 111, 109, 109, 105, 116, 116, 101, 114, 32]);
        c.extend_from_slice(who.as_bytes());
        c.push(10u8);
        c.push(10u8);
        c.extend_from_slice(msg.as_bytes());
        c.push(10u8);
        let ghost parent = match parent_hash {
            Some(p) => Some(p.spec_bytes()),
            None => None,
        };
        assert(c@ =~= commit_text(msg.spec_bytes(), tree_hash.spec_bytes(), parent));
        Ok(Self::new_checked(Kind::Commit, c))
    }

    /// The identity used as author and committer.
    fn committer() -> (r: &'static str)
        ensures
            r.spec_bytes() == COMMITTER.spec_bytes(),
    {
        COMMITTER
    }

    /// Decodes the compressed bytes `stored` of the store file for the id that
    /// `hex_string` spells: `InvalidArgument` if it spells no 20-byte id, else
    /// what the stored bytes decode to.
    pub fn from_hex_string(hex_string: &str, stored: &[u8]) -> (r: Result<GitObject, GitError>)
        ensures
            !is_hex_id(hex_string.spec_bytes()) ==> r == Err::<GitObject, GitError>(
                GitError::InvalidArgument,
            ),
            is_hex_id(hex_string.spec_bytes()) ==> match r {
                Ok(o) => stored_decoding(stored@) == Ok::<(Kind, Seq<u8>), GitError>(
                    (o.spec_kind(), o.spec_contents()),
                ),
                Err(e) => stored_decoding(stored@) == Err::<(Kind, Seq<u8>), GitError>(e),
            },
    {
        match hex_decode(hex_string.as_bytes()) {
            Some(id) => {
                if id.len() != 20 {
                    return Err(GitError::InvalidArgument);
                }
            },
            None => {
                return Err(GitError::InvalidArgument);
            },
        }
        Self::from_stored(stored)
    }

    /// Decodes the compressed bytes of a store file.
    pub fn from_stored(stored: &[u8]) -> (r: Result<GitObject, GitError>)
        ensures
            match r {
                Ok(o) => stored_decoding(stored@) == Ok::<(Kind, Seq<u8>), GitError>(
                    (o.spec_kind(), o.spec_contents()),
                ),
                Err(e) => stored_decoding(stored@) == Err::<(Kind, Seq<u8>), GitError>(e),
            },
    {
        match zlib_inflate(stored) {
            None => Err(GitError::Corrupt),
            Some((raw, _rest)) => match parse_loose(raw.as_slice()) {
                Ok((k, c)) => {
                    proof {
                        assert(encodes(raw@, (k, c@).0, (k, c@).1));
                        let kc = choose|kc: (Kind, Seq<u8>)| encodes(raw@, kc.0, kc.1);
                        lemma_encodes_unique(raw@, k, c@, kc.0, kc.1);
                    }
                    Ok(Self::new_checked(k, c))
                },
                Err(e) => Err(e),
            },
        }
    }

    /// The compressed bytes to keep in the store file of this object: one
    /// zlib stream of its loose encoding.
    pub fn stored_form(&self) -> (r: Result<Vec<u8>, GitError>)
        ensures
            match r {
                Ok(s) => s@ == zlib_encoded(loose_encoding(self.spec_kind(), self.spec_contents()))
                && (forall|t: Seq<u8>|
                #[trigger] zlib_decoded(s@ + t) == Some(
                    (loose_encoding(self.spec_kind(), self.spec_contents()), t.len()),
                ))
                    && zlib_decoded(s@) == Some(
                    (loose_encoding(self.spec_kind(), self.spec_contents()), 0nat),
                ),
                Err(_) => false,
            },
    {
        let mut buf = header_bytes(self.kind, self.contents.len());
        buf.extend_from_slice(self.contents.as_slice());
        assert(buf@ =~= loose_encoding(self.kind, self.contents@));
        match zlib_deflate(buf.as_slice()) {
            Some(s) => {
                assert(s@ + Seq::<u8>::empty() =~= s@);
                Ok(s)
            },
            None => Err(GitError::any("zlib compression failed".to_string())),
        }
    }

    /// The store location of this object: the directory named by the first
    /// byte of its id in hex, and the file named by the other nineteen.
    pub fn store_path(&self) -> (r: (String, String))
        ensures
            r.0@ == hex_text(self.spec_id().subrange(0, 1)),
            r.1@ == hex_text(self.spec_id().subrange(1, 20)),
    {
        proof {
            use_type_invariant(self);
        }
        let first = copy_range(self.hash.as_slice(), 0, 1);
        let rest = copy_range(self.hash.as_slice(), 1, 20);
        (hex_encode(first.as_slice()), hex_encode(rest.as_slice()))
    }

    /// The kind of this object.
    pub fn kind(&self) -> (r: &Kind)
        ensures
            *r == self.spec_kind(),
    {
        &self.kind
    }

    /// The content of this object.
    pub fn contents(&self) -> (r: &Vec<u8>)
        ensures
            r@ == self.spec_contents(),
    {
        &self.contents
    }

    /// The 20 raw bytes of this object's id.
    pub fn hash(&self) -> (r: &Vec<u8>)
        ensures
            r@ == self.spec_id(),
            r@.len() == 20,
    {
        proof {
            use_type_invariant(self);
        }
        &self.hash
    }

    /// The id of this object as 40 lowercase hexadecimal digits.
    pub fn hex_string(&self) -> (r: String)
        ensures
            r@ == hex_text(self.spec_id()),
    {
        proof {
            use_type_invariant(self);
        }
        hex_encode(self.hash.as_slice())
    }
}

} // verus!
