//! Trees: entries with a mode, a name and an id, kept sorted by name bytes in
//! a canonical encoding.
use vstd::prelude::*;
use vstd::utf8::*;
use crate::error::GitError;
use crate::objects::{copy_range, find_byte, GitObject, Kind};
use crate::primitives::{hex_encode, hex_text, utf8_string};

verus! {

broadcast use {vstd::seq_lib::group_to_multiset_ensures, vstd::utf8::decode_utf8_encode_utf8};

/// The four entry modes.
#[derive(Clone, Copy, Debug, PartialEq, Eq, Structural)]
pub enum Mode {
    /// `100644`
    Regular,
    /// `100755`
    Executable,
    /// `120000`
    Symlink,
    /// `40000`
    Directory,
}

/// The text of a mode in a tree entry.
pub open spec fn mode_token(m: Mode) -> Seq<u8> {
    match m {
        Mode::Regular => seq![49u8, 48, 48, 54, 52, 52],
        Mode::Executable => seq![49u8, 48, 48, 55, 53, 53],
        Mode::Symlink => seq![49u8, 50, 48, 48, 48, 48],
        Mode::Directory => seq![52u8, 48, 48, 48, 48],
    }
}

/// The mode whose text is `t`, if any.
pub open spec fn mode_of_token(t: Seq<u8>) -> Option<Mode> {
    if t == mode_token(Mode::Regular) {
        Some(Mode::Regular)
    } else if t == mode_token(Mode::Executable) {
        Some(Mode::Executable)
    } else if t == mode_token(Mode::Symlink) {
        Some(Mode::Symlink)
    } else if t == mode_token(Mode::Directory) {
        Some(Mode::Directory)
    } else {
        None
    }
}

/// The kind of object an entry of mode `m` refers to.
pub open spec fn mode_kind(m: Mode) -> Kind {
    match m {
        Mode::Directory => Kind::Tree,
        _ => Kind::Blob,
    }
}

impl Mode {
    /// The text of this mode.
    pub fn token(&self) -> (r: Vec<u8>)
        ensures
            r@ == mode_token(*self),
    {
        match self {
            Mode::Regular => vec![49u8, 48, 48, 54, 52, 52],
            Mode::Executable => vec![49u8, 48, 48, 55, 53, 53],
            Mode::Symlink => vec![49u8, 50, 48, 48, 48, 48],
            Mode::Directory => vec![52u8, 48, 48, 48, 48],
        }
    }

    /// The mode of a filesystem entry: a directory, a symlink, or a regular
    /// file that is executable when its owner-execute bit (`0o100`) is set in
    /// `permissions`; `UnsupportedFile` for anything else.
    pub fn from_file_type(is_dir: bool, is_symlink: bool, is_file: bool, permissions: u32) -> (r:
        Result<Mode, GitError>)
        ensures
            r == if is_dir {
                Ok::<Mode, GitError>(Mode::Directory)
            } else if is_symlink {
                Ok(Mode::Symlink)
            } else if is_file {
                if permissions & 0o100 != 0 {
                    Ok(Mode::Executable)
                } else {
                    Ok(Mode::Regular)
                }
            } else {
                Err(GitError::UnsupportedFile)
            },
    {
        if is_dir {
            Ok(Mode::Directory)
        } else if is_symlink {
            Ok(Mode::Symlink)
        } else if is_file {
            if permissions & 0o100 != 0 {
                Ok(Mode::Executable)
            } else {
                Ok(Mode::Regular)
            }
        } else {
            Err(GitError::UnsupportedFile)
        }
    }
}

/// An entry as the encoding sees it: name bytes, mode, id.
pub type EntryModel = (Seq<u8>, Mode, Seq<u8>);

/// `<mode> <name>\0<id>`.
pub open spec fn entry_bytes(e: EntryModel) -> Seq<u8> {
    mode_token(e.1) + seq![32u8] + e.0 + seq![0u8] + e.2
}

/// The concatenated encodings of `entries`, in order.
pub open spec fn tree_content(entries: Seq<EntryModel>) -> Seq<u8>
    decreases entries.len(),
{
    if entries.len() == 0 {
        Seq::empty()
    } else {
        tree_content(entries.drop_last()) + entry_bytes(entries.last())
    }
}

/// Byte order: `a` sorts before `b`, comparing from index `i` on.
pub open spec fn lex_lt_from(a: Seq<u8>, b: Seq<u8>, i: int) -> bool
    decreases a.len() - i,
{
    if i < 0 || i >= a.len() {
        0 <= i < b.len()
    } else if i >= b.len() {
        false
    } else if a[i] != b[i] {
        a[i] < b[i]
    } else {
        lex_lt_from(a, b, i + 1)
    }
}

/// Byte order on names.
pub open spec fn lex_lt(a: Seq<u8>, b: Seq<u8>) -> bool {
    lex_lt_from(a, b, 0)
}

/// Strictly increasing by name.
pub open spec fn sorted_by_name(s: Seq<EntryModel>) -> bool {
    forall|i: int, j: int| 0 <= i < j < s.len() ==> lex_lt(#[trigger] s[i].0, #[trigger] s[j].0)
}

proof fn lemma_lex_asym(a: Seq<u8>, b: Seq<u8>, i: int)
    requires
        0 <= i,
        forall|k: int| 0 <= k < i ==> k < a.len() && k < b.len() && a[k] == b[k],
    ensures
        !(lex_lt_from(a, b, i) && lex_lt_from(b, a, i)),
    decreases a.len() - i,
{
    if i < a.len() && i < b.len() && a[i] == b[i] {
        lemma_lex_asym(a, b, i + 1);
    }
}

proof fn lemma_lex_trans(a: Seq<u8>, b: Seq<u8>, c: Seq<u8>, i: int)
    requires
        0 <= i,
        lex_lt_from(a, b, i),
        lex_lt_from(b, c, i),
    ensures
        lex_lt_from(a, c, i),
    decreases a.len() - i,
{
    if i < a.len() && i < b.len() && i < c.len() && a[i] == b[i] && b[i] == c[i] {
        lemma_lex_trans(a, b, c, i + 1);
    }
}

proof fn lemma_lex_total(a: Seq<u8>, b: Seq<u8>, i: int)
    requires
        0 <= i,
        forall|k: int| 0 <= k < i ==> k < a.len() && k < b.len() && a[k] == b[k],
        a != b,
    ensures
        lex_lt_from(a, b, i) || lex_lt_from(b, a, i),
    decreases a.len() - i,
{
    if i >= a.len() && i >= b.len() {
        if a.len() < b.len() {
            assert(a[a.len() as int] == b[a.len() as int]);
        } else if b.len() < a.len() {
            assert(a[b.len() as int] == b[b.len() as int]);
        }
        assert(a =~= b);
    } else if i < a.len() && i < b.len() && a[i] == b[i] {
        lemma_lex_total(a, b, i + 1);
    }
}

/// Whether `a` sorts before `b` in byte order.
pub fn lex_less(a: &[u8], b: &[u8]) -> (r: bool)
    ensures
        r == lex_lt(a@, b@),
{
    let mut i: usize = 0;
    while i < a.len() && i < b.len() && a[i] == b[i]
        invariant
            i <= a@.len(),
            i <= b@.len(),
            lex_lt(a@, b@) == lex_lt_from(a@, b@, i as int),
        decreases a@.len() - i,
    {
        i = i + 1;
    }
    if i >= a.len() {
        i < b.len()
    } else if i >= b.len() {
        false
    } else {
        a[i] < b[i]
    }
}

/// Two orderings by name of the same entries are one and the same sequence.
pub proof fn lemma_sorted_unique(s1: Seq<EntryModel>, s2: Seq<EntryModel>)
    requires
        sorted_by_name(s1),
        sorted_by_name(s2),
        s1.to_multiset() == s2.to_multiset(),
    ensures
        s1 == s2,
    decreases s1.len(),
{
    assert(s1.to_multiset().len() == s1.len());
    assert(s2.to_multiset().len() == s2.len());
    if s1.len() == 0 {
        assert(s2.len() == 0);
        assert(s1 =~= s2);
    } else {
        assert(s2.len() == s1.len());
        assert(s1.to_multiset().count(s1[0]) > 0);
        assert(s2.contains(s1[0]));
        assert(s2.to_multiset().count(s2[0]) > 0);
        assert(s1.contains(s2[0]));
        if s1[0] != s2[0] {
            let j = choose|j: int| 0 <= j < s2.len() && s2[j] == s1[0];
            let k = choose|k: int| 0 <= k < s1.len() && s1[k] == s2[0];
            assert(j > 0 && k > 0);
            assert(lex_lt(s2[0].0, s2[j].0));
            assert(lex_lt(s1[0].0, s1[k].0));
            lemma_lex_asym(s1[0].0, s2[0].0, 0);
        }
        let t1 = s1.remove(0);
        let t2 = s2.remove(0);
        assert(t1.to_multiset() == s1.to_multiset().remove(s1[0]));
        assert(t2.to_multiset() == s2.to_multiset().remove(s2[0]));
        assert forall|i: int, j: int| 0 <= i < j < t1.len() implies lex_lt(#[trigger] t1[i].0, #[trigger] t1[j].0) by {
            assert(t1[i] == s1[i + 1] && t1[j] == s1[j + 1]);
        }
        assert forall|i: int, j: int| 0 <= i < j < t2.len() implies lex_lt(#[trigger] t2[i].0, #[trigger] t2[j].0) by {
            assert(t2[i] == s2[i + 1] && t2[j] == s2[j + 1]);
        }
        lemma_sorted_unique(t1, t2);
        assert(s1 =~= seq![s1[0]] + t1);
        assert(s2 =~= seq![s2[0]] + t2);
    }
}

/// Trees do not depend on the order their entries come in: ordered by name,
/// the same entries always give the same content, and so the same id.
pub proof fn lemma_tree_order_independent(s1: Seq<EntryModel>, s2: Seq<EntryModel>)
    requires
        sorted_by_name(s1),
        sorted_by_name(s2),
        s1.to_multiset() == s2.to_multiset(),
    ensures
        s1 == s2,
        tree_content(s1) == tree_content(s2),
        crate::objects::object_id(Kind::Tree, tree_content(s1)) == crate::objects::object_id(
            Kind::Tree,
            tree_content(s2),
        ),
{
    lemma_sorted_unique(s1, s2);
}

/// One entry of a tree.
#[derive(Debug)]
pub struct TreeEntry {
    filename: String,
    kind: Kind,
    hash: Vec<u8>,
    mode: Mode,
}

impl TreeEntry {
    /// The name bytes, mode and id of this entry.
    pub closed spec fn model(&self) -> EntryModel {
        (encode_utf8(self.filename@), self.mode, self.hash@)
    }

    /// The kind this entry's mode gives.
    pub closed spec fn spec_kind(&self) -> Kind {
        self.kind
    }

    #[verifier::type_invariant]
    spec fn inv(&self) -> bool {
        self.kind == mode_kind(self.mode)
    }

    /// An entry named `filename` of mode `mode` for the object whose id is
    /// `hash`; `InvalidArgument` unless the id has 20 bytes and the name is
    /// neither empty nor holds a NUL or a `/`.
    pub fn new(filename: String, mode: Mode, hash: Vec<u8>) -> (r: Result<TreeEntry, GitError>)
        ensures
            match r {
                Ok(e) => e.model() == (encode_utf8(filename@), mode, hash@),
                Err(err) => err == GitError::InvalidArgument,
            },
            r is Ok <==> (hash@.len() == 20 && encode_utf8(filename@).len() > 0 && !encode_utf8(
                filename@,
            ).contains(0u8) && !encode_utf8(filename@).contains(47u8)),
    {
        let name = filename.as_str().as_bytes();
        if hash.len() != 20 || name.len() == 0 {
            return Err(GitError::InvalidArgument);
        }
        let nul = find_byte(name, 0, 0u8);
        let slash = find_byte(name, 0, 47u8);
        if nul.is_some() || slash.is_some() {
            return Err(GitError::InvalidArgument);
        }
        let kind = match mode {
            Mode::Directory => Kind::Tree,
            _ => Kind::Blob,
        };
        Ok(TreeEntry { filename, kind, hash, mode })
    }

    /// The name of this entry.
    pub fn filename(&self) -> (r: &String)
        ensures
            encode_utf8(r@) == self.model().0,
    {
        &self.filename
    }

    /// The kind of object this entry refers to.
    pub fn kind(&self) -> (r: &Kind)
        ensures
            *r == mode_kind(self.model().1),
    {
        proof {
            use_type_invariant(self);
        }
        &self.kind
    }

    /// The mode of this entry.
    pub fn mode(&self) -> (r: Mode)
        ensures
            r == self.model().1,
    {
        self.mode
    }

    /// The raw id this entry refers to.
    pub fn hash(&self) -> (r: &Vec<u8>)
        ensures
            r@ == self.model().2,
    {
        &self.hash
    }

    /// The id this entry refers to, in hex.
    pub fn hex_string(&self) -> (r: String)
        ensures
            r@ == hex_text(self.model().2),
    {
        hex_encode(self.hash.as_slice())
    }
}

/// The models of `entries`, in order.
pub open spec fn entry_models(entries: Seq<TreeEntry>) -> Seq<EntryModel> {
    entries.map_values(|e: TreeEntry| e.model())
}

/// Whether two entries of `m` share a name.
pub open spec fn has_duplicate_names(m: Seq<EntryModel>) -> bool {
    exists|i: int, j: int| 0 <= i < j < m.len() && m[i].0 == m[j].0
}

/// The first position of `b` in `s` at or after `pos`.
pub open spec fn index_from(s: Seq<u8>, pos: int, b: u8) -> Option<int>
    decreases s.len() - pos,
{
    if pos < 0 || pos >= s.len() {
        None
    } else if s[pos] == b {
        Some(pos)
    } else {
        index_from(s, pos + 1, b)
    }
}

/// `index_from` is what a search for the first `b` from `pos` finds.
pub(crate) proof fn lemma_index_from(s: Seq<u8>, pos: int, b: u8, r: Option<int>)
    requires
        0 <= pos <= s.len(),
        match r {
            Some(p) => pos <= p < s.len() && s[p] == b && forall|k: int| pos <= k < p ==> s[k] != b,
            None => forall|k: int| pos <= k < s.len() ==> s[k] != b,
        },
    ensures
        index_from(s, pos, b) == r,
    decreases s.len() - pos,
{
    if pos < s.len() && s[pos] != b {
        lemma_index_from(s, pos + 1, b, r);
    }
}

/// The entries that a tree's content holds from `pos` on: each is a known
/// mode token, a space, a UTF-8 name, a NUL, then 20 id bytes.
pub open spec fn tree_parse(c: Seq<u8>, pos: int) -> Option<Seq<EntryModel>>
    decreases c.len() - pos,
{
    if pos < 0 || pos >= c.len() {
        Some(Seq::empty())
    } else {
        match index_from(c, pos, 32) {
            None => None,
            Some(sp) => if sp < pos {
                None
            } else {
                match mode_of_token(c.subrange(pos, sp)) {
                None => None,
                Some(m) => match index_from(c, sp + 1, 0) {
                    None => None,
                    Some(nul) => if nul <= sp || nul + 21 > c.len() || !valid_utf8(
                        c.subrange(sp + 1, nul),
                    ) {
                        None
                    } else {
                        match tree_parse(c, nul + 21) {
                            None => None,
                            Some(rest) => Some(
                                seq![(c.subrange(sp + 1, nul), m, c.subrange(nul + 1, nul + 21))]
                                    + rest,
                            ),
                        }
                    },
                },
            }
            },
        }
    }
}

/// Whether an entry can stand in a tree's content and be read back: a
/// UTF-8 name without NUL bytes and a 20-byte id.
pub open spec fn entry_well_formed(e: EntryModel) -> bool {
    valid_utf8(e.0) && !e.0.contains(0u8) && e.2.len() == 20
}

proof fn lemma_tree_content_front(e: EntryModel, rest: Seq<EntryModel>)
    ensures
        tree_content(seq![e] + rest) == entry_bytes(e) + tree_content(rest),
    decreases rest.len(),
{
    if rest.len() == 0 {
        assert(seq![e] + rest =~= seq![e]);
        assert(seq![e].drop_last() =~= Seq::<EntryModel>::empty());
        assert(tree_content(Seq::<EntryModel>::empty()) == Seq::<u8>::empty());
        assert(Seq::<u8>::empty() + entry_bytes(e) =~= entry_bytes(e));
        assert(entry_bytes(e) + Seq::<u8>::empty() =~= entry_bytes(e));
    } else {
        lemma_tree_content_front(e, rest.drop_last());
        assert((seq![e] + rest).drop_last() =~= seq![e] + rest.drop_last());
        assert((seq![e] + rest).last() == rest.last());
        assert(entry_bytes(e) + tree_content(rest.drop_last()) + entry_bytes(rest.last())
            =~= entry_bytes(e) + (tree_content(rest.drop_last()) + entry_bytes(rest.last())));
    }
}

proof fn lemma_mode_token_read(m: Mode)
    ensures
        mode_of_token(mode_token(m)) == Some(m),
        forall|i: int| 0 <= i < mode_token(m).len() ==> #[trigger] mode_token(m)[i] != 32,
{
    assert(mode_token(Mode::Regular)[3] != mode_token(Mode::Executable)[3]);
    assert(mode_token(Mode::Regular)[1] != mode_token(Mode::Symlink)[1]);
    assert(mode_token(Mode::Executable)[1] != mode_token(Mode::Symlink)[1]);
    assert(mode_token(Mode::Regular).len() != mode_token(Mode::Directory).len());
    assert(mode_token(Mode::Executable).len() != mode_token(Mode::Directory).len());
    assert(mode_token(Mode::Symlink).len() != mode_token(Mode::Directory).len());
}

proof fn lemma_tree_parse_content(c: Seq<u8>, pos: int, s: Seq<EntryModel>)
    requires
        0 <= pos <= c.len(),
        c.subrange(pos, c.len() as int) == tree_content(s),
        forall|i: int| 0 <= i < s.len() ==> entry_well_formed(#[trigger] s[i]),
    ensures
        tree_parse(c, pos) == Some(s),
    decreases s.len(),
{
    if s.len() == 0 {
        assert(c.subrange(pos, c.len() as int).len() == 0);
        assert(s =~= Seq::<EntryModel>::empty());
    } else {
        let e = s[0];
        let rest = s.drop_first();
        assert(seq![e] + rest =~= s);
        lemma_tree_content_front(e, rest);
        assert(entry_well_formed(s[0]));
        lemma_mode_token_read(e.1);
        let t = mode_token(e.1);
        let eb = entry_bytes(e);
        let tail = c.subrange(pos, c.len() as int);
        assert(tail == eb + tree_content(rest));
        let sp = pos + t.len();
        let nul = sp + 1 + e.0.len();
        assert forall|k: int| pos <= k < sp implies c[k] != 32 by {
            assert(c[k] == tail[k - pos]);
            assert(tail[k - pos] == t[k - pos]);
        }
        assert(c[sp] == tail[sp - pos]);
        lemma_index_from(c, pos, 32, Some(sp));
        assert(c.subrange(pos, sp) =~= t);
        assert forall|k: int| sp + 1 <= k < nul implies c[k] != 0 by {
            assert(c[k] == tail[k - pos]);
            assert(tail[k - pos] == e.0[k - sp - 1]);
        }
        assert(c[nul] == tail[nul - pos]);
        lemma_index_from(c, sp + 1, 0, Some(nul));
        assert forall|k: int| 0 <= k < e.0.len() implies #[trigger] c.subrange(sp + 1, nul)[k] == e.0[k] by {
            assert(c[sp + 1 + k] == tail[sp + 1 + k - pos]);
        }
        assert(c.subrange(sp + 1, nul) =~= e.0);
        assert forall|k: int| 0 <= k < 20 implies #[trigger] c.subrange(nul + 1, nul + 21)[k] == e.2[k] by {
            assert(c[nul + 1 + k] == tail[nul + 1 + k - pos]);
        }
        assert(c.subrange(nul + 1, nul + 21) =~= e.2);
        let tr = tree_content(rest);
        assert(c.len() == nul + 21 + tr.len());
        assert forall|k: int| 0 <= k < tr.len() implies #[trigger] c.subrange(nul + 21, c.len() as int)[k] == tr[k] by {
            assert(c[nul + 21 + k] == tail[nul + 21 + k - pos]);
        }
        assert(c.subrange(nul + 21, c.len() as int) =~= tr);
        lemma_tree_parse_content(c, nul + 21, rest);
        assert(seq![(c.subrange(sp + 1, nul), e.1, c.subrange(nul + 1, nul + 21))] + rest =~= s);
    }
}

/// Reading back a tree's content gives the entries it was encoded from, in
/// order, when each has a UTF-8 name without NUL bytes and a 20-byte id.
pub proof fn lemma_tree_round_trip(s: Seq<EntryModel>)
    requires
        forall|i: int| 0 <= i < s.len() ==> entry_well_formed(#[trigger] s[i]),
    ensures
        tree_parse(tree_content(s), 0) == Some(s),
{
    assert(tree_content(s).subrange(0, tree_content(s).len() as int) =~= tree_content(s));
    lemma_tree_parse_content(tree_content(s), 0, s);
}

/// Where the reading of a tree's content reaches an entry whose mode token
/// (the bytes up to the next space) is not one of the four modes, it fails.
pub proof fn lemma_unknown_mode_fails(c: Seq<u8>, pos: int, sp: int)
    requires
        0 <= pos < c.len(),
        index_from(c, pos, 32) == Some(sp),
        sp >= pos,
        mode_of_token(c.subrange(pos, sp)) is None,
    ensures
        tree_parse(c, pos) is None,
{
}

/// The mode spelled by `s[from..to]`.
fn mode_at(s: &[u8], from: usize, to: usize) -> (r: Option<Mode>)
    requires
        from <= to <= s@.len(),
    ensures
        r == mode_of_token(s@.subrange(from as int, to as int)),
{
    let t = copy_range(s, from, to);
    let modes = [Mode::Regular, Mode::Executable, Mode::Symlink, Mode::Directory];
    let mut i: usize = 0;
    while i < 4
        invariant
            t@ == s@.subrange(from as int, to as int),
            modes@ == seq![Mode::Regular, Mode::Executable, Mode::Symlink, Mode::Directory],
            forall|j: int| 0 <= j < i ==> t@ != mode_token(#[trigger] modes@[j]),
        decreases 4 - i,
    {
        let m = modes[i];
        let tok = m.token();
        if crate::objects::bytes_equal(t.as_slice(), tok.as_slice()) {
            return Some(m);
        }
        i = i + 1;
    }
    assert(t@ != mode_token(modes@[0]));
    assert(t@ != mode_token(modes@[1]));
    assert(t@ != mode_token(modes@[2]));
    assert(t@ != mode_token(modes@[3]));
    None
}

/// The first position in `out` whose name does not sort before `name`.
fn insert_position(out: &Vec<TreeEntry>, name: &[u8]) -> (j: usize)
    ensures
        j <= out@.len(),
        forall|k: int| 0 <= k < j ==> lex_lt(#[trigger] out@[k].model().0, name@),
        j < out@.len() ==> !lex_lt(out@[j as int].model().0, name@),
{
    let mut j: usize = 0;
    while j < out.len()
        invariant
            j <= out@.len(),
            forall|k: int| 0 <= k < j ==> lex_lt(#[trigger] out@[k].model().0, name@),
        decreases out@.len() - j,
    {
        if !lex_less(out[j].filename.as_str().as_bytes(), name) {
            return j;
        }
        j = j + 1;
    }
    j
}

impl GitObject {
    /// The tree holding `entries`, ordered by name bytes. `InvalidArgument`
    /// is returned only when two entries share a name.
    pub fn build_tree(entries: Vec<TreeEntry>) -> (r: Result<GitObject, GitError>)
        ensures
            match r {
                Ok(t) => t.spec_kind() == Kind::Tree && exists|s: Seq<EntryModel>|
                    sorted_by_name(s) && s.to_multiset() == entry_models(entries@).to_multiset()
                        && t.spec_contents() == tree_content(s),
                Err(e) => e == GitError::InvalidArgument && has_duplicate_names(
                    entry_models(entries@),
                ),
            },
    {
        let ghost m = entry_models(entries@);
        let nn = entries.len();
        let ghost total = entries@.len();
        let mut rest = entries;
        let mut out: Vec<TreeEntry> = Vec::new();
        let mut i: usize = 0;
        while rest.len() > 0
            invariant
                m == entry_models(entries@),
                total == nn,
                m.len() == total,
                i + rest@.len() == total,
                entry_models(rest@) == m.subrange(i as int, total as int),
                sorted_by_name(entry_models(out@)),
                entry_models(out@).to_multiset() == m.subrange(0, i as int).to_multiset(),
            decreases rest@.len(),
        {
            let ghost before = entry_models(out@);
            let ghost old_rest = rest@;
            assert(entry_models(old_rest)[0] == old_rest[0].model());
            assert(old_rest[0].model() == m[i as int]);
            let e = rest.remove(0);
            assert forall|k: int| 0 <= k < rest@.len() implies #[trigger] entry_models(rest@)[k] == m.subrange(i + 1, total as int)[k] by {
                assert(rest@[k] == old_rest[k + 1]);
                assert(entry_models(old_rest)[k + 1] == old_rest[k + 1].model());
            }
            assert(entry_models(rest@) =~= m.subrange(i + 1, total as int));
            let name = e.filename.as_str().as_bytes();
            let j = insert_position(&out, name);
            if j < out.len() && crate::objects::bytes_equal(out[j].filename.as_str().as_bytes(), name) {
                proof {
                    assert(before[j as int].0 == e.model().0);
                    assert(before.to_multiset().count(before[j as int]) > 0);
                    assert(m.subrange(0, i as int).contains(before[j as int]));
                    let k = choose|k: int| 0 <= k < i && m.subrange(0, i as int)[k] == before[j as int];
                    assert(m[k] == m.subrange(0, i as int)[k]);
                    assert(m[k].0 == m[i as int].0);
                }
                return Err(GitError::InvalidArgument);
            }
            proof {
                if j < out@.len() {
                    lemma_lex_total(e.model().0, before[j as int].0, 0);
                }
            }
            out.insert(j, e);
            proof {
                let now = entry_models(out@);
                assert(now =~= before.insert(j as int, e.model()));
                assert forall|a: int, b: int| 0 <= a < b < now.len() implies lex_lt(#[trigger] now[a].0, #[trigger] now[b].0) by {
                    if b == j {
                        assert(now[a] == before[a]);
                    } else if a == j {
                        assert(now[b] == before[b - 1]);
                        if b - 1 > j {
                            assert(before[j as int] == before[j as int]);
                            lemma_lex_trans(e.model().0, before[j as int].0, before[b - 1].0, 0);
                        }
                    } else if a < j && b < j {
                    } else if a < j {
                        assert(now[a] == before[a]);
                        assert(now[b] == before[b - 1]);
                    } else {
                        assert(now[a] == before[a - 1]);
                        assert(now[b] == before[b - 1]);
                    }
                }
                vstd::seq_lib::to_multiset_insert(before, j as int, e.model());
                assert(m.subrange(0, i + 1) =~= m.subrange(0, i as int).push(m[i as int]));
            }
            i = i + 1;
        }
        assert(m.subrange(0, total as int) =~= m);
        let ghost sorted = entry_models(out@);
        let mut c: Vec<u8> = Vec::new();
        let mut k: usize = 0;
        while k < out.len()
            invariant
                sorted == entry_models(out@),
                k <= out@.len(),
                c@ == tree_content(sorted.subrange(0, k as int)),
            decreases out@.len() - k,
        {
            let e = &out[k];
            let tok = e.mode.token();
            c.extend_from_slice(tok.as_slice());
            c.push(32u8);
            c.extend_from_slice(e.filename.as_str().as_bytes());
            c.push(0u8);
            c.extend_from_slice(e.hash.as_slice());
            assert(sorted.subrange(0, k + 1).drop_last() =~= sorted.subrange(0, k as int));
            assert(c@ =~= tree_content(sorted.subrange(0, k + 1)));
            k = k + 1;
        }
        assert(sorted.subrange(0, out@.len() as int) =~= sorted);
        Ok(GitObject::new_checked(Kind::Tree, c))
    }

    /// The entries of a tree object, in stored order: `InvalidObjectFormat`
    /// for an object of another kind, `MalformedTree` when the content does
    /// not parse.
    pub fn tree_entries(&self) -> (r: Result<Vec<TreeEntry>, GitError>)
        ensures
            self.spec_kind() != Kind::Tree ==> r is Err && r->Err_0 is InvalidObjectFormat,
            self.spec_kind() == Kind::Tree ==> match r {
                Ok(v) => tree_parse(self.spec_contents(), 0) == Some(entry_models(v@)),
                Err(e) => e == GitError::MalformedTree && tree_parse(self.spec_contents(), 0) is None,
            },
    {
        let k = *self.kind();
        match k {
            Kind::Tree => {},
            _ => {
                return Err(GitError::invalid_object_format("not a tree object".to_string()));
            },
        }
        let c = self.contents().as_slice();
        let n = c.len();
        let mut out: Vec<TreeEntry> = Vec::new();
        let mut pos: usize = 0;
        while pos < n
            invariant
                self.spec_kind() == Kind::Tree,
                n == c@.len(),
                c@ == self.spec_contents(),
                pos <= n,
                match tree_parse(c@, pos as int) {
                    Some(rest) => tree_parse(c@, 0) == Some(entry_models(out@) + rest),
                    None => tree_parse(c@, 0) is None,
                },
            decreases n - pos,
        {
            let sp = find_byte(c, pos, 32u8);
            proof {
                lemma_index_from(c@, pos as int, 32u8, match sp { Some(p) => Some(p as int), None => None });
            }
            let sp = match sp {
                Some(p) => p,
                None => {
                    return Err(GitError::MalformedTree);
                },
            };
            let mode = match mode_at(c, pos, sp) {
                Some(m) => m,
                None => {
                    return Err(GitError::MalformedTree);
                },
            };
            let nul = find_byte(c, sp + 1, 0u8);
            proof {
                lemma_index_from(c@, sp + 1, 0u8, match nul { Some(p) => Some(p as int), None => None });
            }
            let nul = match nul {
                Some(p) => p,
                None => {
                    return Err(GitError::MalformedTree);
                },
            };
            if 21 > n - nul {
                return Err(GitError::MalformedTree);
            }
            let name_bytes = copy_range(c, sp + 1, nul);
            let filename = match utf8_string(name_bytes) {
                Some(s) => s,
                None => {
                    return Err(GitError::MalformedTree);
                },
            };
            let hash = copy_range(c, nul + 1, nul + 21);
            let kind = match mode {
                Mode::Directory => Kind::Tree,
                _ => Kind::Blob,
            };
            let e = TreeEntry { filename, kind, hash, mode };
            let ghost before = entry_models(out@);
            out.push(e);
            proof {
                assert(entry_models(out@) =~= before.push(e.model()));
                let rest = tree_parse(c@, nul + 21);
                if rest is Some {
                    assert(before + (seq![e.model()] + rest->Some_0) =~= before.push(e.model()) + rest->Some_0);
                }
            }
            pos = nul + 21;
        }
        assert(entry_models(out@) + Seq::<EntryModel>::empty() =~= entry_models(out@));
        Ok(out)
    }
}

} // verus!
