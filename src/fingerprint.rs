use vstd::prelude::*;
use vstd::string::StringSliceAdditionalSpecFns;
use vstd::multiset::Multiset;

verus! {

/// The FNV-1a offset basis: the digest of the empty stream.
pub const FNV_OFFSET: u64 = 0xcbf2_9ce4_8422_2325;

/// The FNV-1a 64-bit prime.
pub const FNV_PRIME: u64 = 0x0000_0100_0000_01b3;

/// The tag byte absorbed for each kind of entry.
pub open spec fn kind_tag(k: EntryKind) -> u8 {
    match k {
        EntryKind::File => 1,
        EntryKind::Dir => 2,
        EntryKind::Symlink => 3,
        EntryKind::Other => 4,
    }
}

/// What a directory entry is, as far as the fingerprint cares.
#[derive(Debug, Clone, Copy, PartialEq, Eq, Structural)]
pub enum EntryKind {
    File,
    Dir,
    Symlink,
    Other,
}

/// One entry below the root of a fingerprinted directory: the names of the
/// directories leading to it and its own name, as raw bytes, its kind, and
/// for a regular file its contents (empty for every other kind).
#[derive(Debug, Clone)]
pub struct Entry {
    pub path: Vec<Vec<u8>>,
    pub kind: EntryKind,
    pub contents: Vec<u8>,
}

/// One exclusion rule: an entry named `name` at depth `depth` below the root
/// (immediate children have depth 1).
#[derive(Debug, Clone)]
pub struct IgnoreRule {
    pub depth: usize,
    pub name: Vec<u8>,
}

/// The exclusion policy of a segment.
#[derive(Debug, Clone)]
pub struct Ignores {
    rules: Vec<IgnoreRule>,
}

/// The path components of an entry as byte sequences.
pub open spec fn path_of(e: Entry) -> Seq<Seq<u8>> {
    e.path@.map_values(|c: Vec<u8>| c@)
}

impl View for Ignores {
    type V = Seq<(nat, Seq<u8>)>;

    closed spec fn view(&self) -> Seq<(nat, Seq<u8>)> {
        self.rules@.map_values(|r: IgnoreRule| (r.depth as nat, r.name@))
    }
}

/// Whether some component of `p` matches a rule at its depth; an entry
/// matched so, and everything below it, is left out of the fingerprint.
pub open spec fn ignored(ign: Seq<(nat, Seq<u8>)>, p: Seq<Seq<u8>>) -> bool {
    exists|i: int| 0 <= i < p.len() && ign.contains((((i + 1) as nat), #[trigger] p[i]))
}

/// The entries of `s` that no rule excludes, in their order in `s`.
pub open spec fn kept(s: Seq<Entry>, ign: Seq<(nat, Seq<u8>)>) -> Seq<Entry>
    decreases s.len(),
{
    if s.len() == 0 {
        seq![]
    } else if ignored(ign, path_of(s[0])) {
        kept(s.drop_first(), ign)
    } else {
        seq![s[0]] + kept(s.drop_first(), ign)
    }
}

/// Byte-wise lexicographic order on names.
pub open spec fn bytes_lt(a: Seq<u8>, b: Seq<u8>) -> bool
    decreases a.len(),
{
    if a.len() == 0 {
        b.len() > 0
    } else if b.len() == 0 {
        false
    } else if a[0] != b[0] {
        a[0] < b[0]
    } else {
        bytes_lt(a.drop_first(), b.drop_first())
    }
}

/// Lexicographic order on paths, component by component: the order in which
/// a depth-first walk that visits each directory's entries by name meets them.
pub open spec fn path_lt(a: Seq<Seq<u8>>, b: Seq<Seq<u8>>) -> bool
    decreases a.len(),
{
    if a.len() == 0 {
        b.len() > 0
    } else if b.len() == 0 {
        false
    } else if a[0] != b[0] {
        bytes_lt(a[0], b[0])
    } else {
        path_lt(a.drop_first(), b.drop_first())
    }
}

/// The index of the first entry whose path is least.
pub open spec fn min_index(s: Seq<Entry>) -> int
    decreases s.len(),
{
    if s.len() <= 1 {
        0
    } else {
        let m = min_index(s.drop_last());
        if path_lt(path_of(s.last()), path_of(s[m])) {
            s.len() - 1
        } else {
            m
        }
    }
}

/// The entries in walk order: repeatedly the first least one.
pub open spec fn walk_order(s: Seq<Entry>) -> Seq<Entry>
    decreases s.len(),
{
    if s.len() == 0 {
        seq![]
    } else {
        let m = min_index(s);
        if 0 <= m < s.len() {
            seq![s[m]] + walk_order(s.remove(m))
        } else {
            seq![]
        }
    }
}

/// The components of a path joined by `/`.
pub open spec fn joined(p: Seq<Seq<u8>>) -> Seq<u8>
    decreases p.len(),
{
    if p.len() == 0 {
        seq![]
    } else if p.len() == 1 {
        p[0]
    } else {
        joined(p.drop_last()) + seq![0x2fu8] + p.last()
    }
}

/// The `k` low bytes of `n`, least significant first.
pub open spec fn le_bytes(n: nat, k: nat) -> Seq<u8>
    decreases k,
{
    if k == 0 {
        seq![]
    } else {
        seq![(n % 256) as u8] + le_bytes(n / 256, (k - 1) as nat)
    }
}

/// What an entry adds before its contents: its path, a zero byte, its tag,
/// and for a regular file its length as eight little-endian bytes.
pub open spec fn header(e: Entry) -> Seq<u8> {
    joined(path_of(e)) + seq![0u8, kind_tag(e.kind)] + if e.kind == EntryKind::File {
        le_bytes(e.contents@.len(), 8)
    } else {
        seq![]
    }
}

/// Everything an entry adds to the stream.
pub open spec fn record(e: Entry) -> Seq<u8> {
    header(e) + if e.kind == EntryKind::File {
        e.contents@
    } else {
        seq![]
    }
}

/// The records of the entries, one after the other.
pub open spec fn stream(s: Seq<Entry>) -> Seq<u8>
    decreases s.len(),
{
    if s.len() == 0 {
        seq![]
    } else {
        record(s[0]) + stream(s.drop_first())
    }
}

/// FNV-1a over `bytes`, starting from the state `h`.
pub open spec fn fnv(h: u64, bytes: Seq<u8>) -> u64
    decreases bytes.len(),
{
    if bytes.len() == 0 {
        h
    } else {
        fnv((h ^ (bytes[0] as u64)).wrapping_mul(FNV_PRIME), bytes.drop_first())
    }
}

/// The byte stream that a directory listing reduces to.
pub open spec fn listing_stream(s: Seq<Entry>, ign: Seq<(nat, Seq<u8>)>) -> Seq<u8> {
    stream(walk_order(kept(s, ign)))
}

/// The fingerprint of a directory listing under an exclusion policy.
pub open spec fn spec_fingerprint(s: Seq<Entry>, ign: Seq<(nat, Seq<u8>)>) -> u64 {
    fnv(FNV_OFFSET, listing_stream(s, ign))
}

impl Ignores {
    /// A policy that excludes nothing.
    pub fn new() -> (r: Ignores)
        ensures
            r@ == Seq::<(nat, Seq<u8>)>::empty(),
    {
        let r = Ignores { rules: Vec::new() };
        assert(r@ =~= Seq::<(nat, Seq<u8>)>::empty());
        r
    }

    /// Adds the rule that excludes entries named `name` at depth `depth`.
    pub fn add(&mut self, depth: usize, name: &str)
        ensures
            final(self)@ == old(self)@.push((depth as nat, name.spec_bytes())),
    {
        let ghost before = self@;
        self.rules.push(IgnoreRule { depth, name: name.as_bytes_vec() });
        assert(self@ =~= before.push((depth as nat, name.spec_bytes())));
    }

    /// Whether some rule names `name` at `depth`.
    pub fn matches(&self, depth: usize, name: &Vec<u8>) -> (r: bool)
        ensures
            r == self@.contains((depth as nat, name@)),
    {
        let mut i: usize = 0;
        while i < self.rules.len()
            invariant
                i <= self.rules@.len(),
                forall|k: int| 0 <= k < i ==> self@[k] != (depth as nat, name@),
            decreases self.rules@.len() - i,
        {
            if self.rules[i].depth == depth && bytes_equal(&self.rules[i].name, name) {
                assert(self@[i as int] == (depth as nat, name@));
                return true;
            }
            i = i + 1;
        }
        false
    }

    /// Whether the entry at path `p` is excluded.
    pub fn is_ignored(&self, p: &Vec<Vec<u8>>) -> (r: bool)
        ensures
            r == ignored(self@, p@.map_values(|c: Vec<u8>| c@)),
    {
        let ghost pv = p@.map_values(|c: Vec<u8>| c@);
        let mut i: usize = 0;
        while i < p.len()
            invariant
                pv == p@.map_values(|c: Vec<u8>| c@),
                i <= p@.len(),
                forall|k: int| 0 <= k < i ==> !self@.contains((((k + 1) as nat), #[trigger] pv[k])),
            decreases p@.len() - i,
        {
            assert(pv[i as int] == p@[i as int]@);
            if self.matches(i + 1, &p[i]) {
                return true;
            }
            i = i + 1;
        }
        false
    }
}

/// Byte-wise equality of two names.
fn bytes_equal(a: &Vec<u8>, b: &Vec<u8>) -> (r: bool)
    ensures
        r == (a@ == b@),
{
    if a.len() != b.len() {
        return false;
    }
    let mut i: usize = 0;
    while i < a.len()
        invariant
            a@.len() == b@.len(),
            i <= a@.len(),
            forall|k: int| 0 <= k < i ==> a@[k] == b@[k],
        decreases a@.len() - i,
    {
        if a[i] != b[i] {
            return false;
        }
        i = i + 1;
    }
    assert(a@ =~= b@);
    true
}

/// Whether name `a` comes before name `b`, byte by byte.
pub fn name_less(a: &Vec<u8>, b: &Vec<u8>) -> (r: bool)
    ensures
        r == bytes_lt(a@, b@),
{
    let mut i: usize = 0;
    assert(a@.skip(0) =~= a@);
    assert(b@.skip(0) =~= b@);
    while i < a.len() && i < b.len() && a[i] == b[i]
        invariant
            i <= a@.len(),
            i <= b@.len(),
            bytes_lt(a@, b@) == bytes_lt(a@.skip(i as int), b@.skip(i as int)),
        decreases a@.len() - i,
    {
        let ghost sa = a@.skip(i as int);
        let ghost sb = b@.skip(i as int);
        assert(sa.drop_first() =~= a@.skip(i + 1));
        assert(sb.drop_first() =~= b@.skip(i + 1));
        i = i + 1;
    }
    let ghost sa = a@.skip(i as int);
    let ghost sb = b@.skip(i as int);
    if i == a.len() {
        i < b.len()
    } else if i == b.len() {
        false
    } else {
        assert(sa[0] == a@[i as int] && sb[0] == b@[i as int]);
        a[i] < b[i]
    }
}

/// Whether path `a` comes before path `b` in walk order.
pub fn path_less(a: &Vec<Vec<u8>>, b: &Vec<Vec<u8>>) -> (r: bool)
    ensures
        r == path_lt(a@.map_values(|c: Vec<u8>| c@), b@.map_values(|c: Vec<u8>| c@)),
{
    let ghost av = a@.map_values(|c: Vec<u8>| c@);
    let ghost bv = b@.map_values(|c: Vec<u8>| c@);
    let mut i: usize = 0;
    assert(av.skip(0) =~= av);
    assert(bv.skip(0) =~= bv);
    while i < a.len() && i < b.len() && bytes_equal(&a[i], &b[i])
        invariant
            av == a@.map_values(|c: Vec<u8>| c@),
            bv == b@.map_values(|c: Vec<u8>| c@),
            i <= a@.len(),
            i <= b@.len(),
            path_lt(av, bv) == path_lt(av.skip(i as int), bv.skip(i as int)),
        decreases a@.len() - i,
    {
        let ghost sa = av.skip(i as int);
        let ghost sb = bv.skip(i as int);
        assert(sa[0] == a@[i as int]@ && sb[0] == b@[i as int]@);
        assert(sa.drop_first() =~= av.skip(i + 1));
        assert(sb.drop_first() =~= bv.skip(i + 1));
        i = i + 1;
    }
    let ghost sa = av.skip(i as int);
    let ghost sb = bv.skip(i as int);
    if i == a.len() {
        i < b.len()
    } else if i == b.len() {
        false
    } else {
        assert(sa[0] == a@[i as int]@ && sb[0] == b@[i as int]@);
        name_less(&a[i], &b[i])
    }
}

/// The entries of `entries` that `ignores` does not exclude, in order.
pub fn kept_entries(entries: Vec<Entry>, ignores: &Ignores) -> (r: Vec<Entry>)
    ensures
        r@ == kept(entries@, ignores@),
{
    let mut v = entries;
    let mut r: Vec<Entry> = Vec::new();
    while v.len() > 0
        invariant
            kept(entries@, ignores@) == r@ + kept(v@, ignores@),
        decreases v@.len(),
    {
        let ghost before = v@;
        let e = v.remove(0);
        assert(before.drop_first() =~= v@);
        assert(path_of(e) == e.path@.map_values(|c: Vec<u8>| c@));
        if !ignores.is_ignored(&e.path) {
            let ghost r0 = r@;
            r.push(e);
            assert(r0 + (seq![e] + kept(v@, ignores@)) =~= r@ + kept(v@, ignores@));
        }
    }
    assert(r@ + kept(v@, ignores@) =~= r@);
    r
}

proof fn lemma_le_bytes_len(n: nat, k: nat)
    ensures
        le_bytes(n, k).len() == k,
    decreases k,
{
    if k > 0 {
        lemma_le_bytes_len(n / 256, (k - 1) as nat);
    }
}

/// The index of the first entry whose path is least.
pub fn least_entry(v: &Vec<Entry>) -> (m: usize)
    requires
        v@.len() > 0,
    ensures
        m == min_index(v@),
        m < v@.len(),
{
    let mut m: usize = 0;
    let mut j: usize = 1;
    assert(v@.take(1).len() == 1);
    while j < v.len()
        invariant
            1 <= j <= v@.len(),
            m < j,
            m == min_index(v@.take(j as int)),
        decreases v@.len() - j,
    {
        let ghost t = v@.take(j + 1);
        assert(t.drop_last() =~= v@.take(j as int));
        assert(t.last() == v@[j as int]);
        assert(t[m as int] == v@[m as int]);
        assert(path_of(v@[j as int]) == v@[j as int].path@.map_values(|c: Vec<u8>| c@));
        assert(path_of(v@[m as int]) == v@[m as int].path@.map_values(|c: Vec<u8>| c@));
        if path_less(&v[j].path, &v[m].path) {
            m = j;
        }
        j = j + 1;
    }
    assert(v@.take(j as int) =~= v@);
    m
}

/// The eight little-endian bytes of `n`.
pub fn length_bytes(n: u64) -> (r: Vec<u8>)
    ensures
        r@ == le_bytes(n as nat, 8),
{
    let mut r: Vec<u8> = Vec::new();
    let mut x: u64 = n;
    let mut k: usize = 0;
    while k < 8
        invariant
            k <= 8,
            r@ + le_bytes(x as nat, (8 - k) as nat) == le_bytes(n as nat, 8),
        decreases 8 - k,
    {
        let ghost r0 = r@;
        let ghost x0 = x;
        r.push((x % 256) as u8);
        x = x / 256;
        assert(le_bytes(x0 as nat, (8 - k) as nat) == seq![(x0 % 256) as u8] + le_bytes(
            x as nat,
            (8 - k - 1) as nat,
        ));
        assert(r0 + (seq![(x0 % 256) as u8] + le_bytes(x as nat, (8 - k - 1) as nat)) =~= r@
            + le_bytes(x as nat, (8 - k - 1) as nat));
        k = k + 1;
    }
    assert(r@ + le_bytes(x as nat, 0) =~= r@);
    r
}

/// The path components joined by `/`.
pub fn join_path(p: &Vec<Vec<u8>>) -> (r: Vec<u8>)
    ensures
        r@ == joined(p@.map_values(|c: Vec<u8>| c@)),
{
    let ghost pv = p@.map_values(|c: Vec<u8>| c@);
    let mut r: Vec<u8> = Vec::new();
    let mut i: usize = 0;
    assert(pv.take(0) =~= Seq::<Seq<u8>>::empty());
    while i < p.len()
        invariant
            pv == p@.map_values(|c: Vec<u8>| c@),
            i <= p@.len(),
            r@ == joined(pv.take(i as int)),
        decreases p@.len() - i,
    {
        let ghost t = pv.take(i + 1);
        assert(t.drop_last() =~= pv.take(i as int));
        assert(t.last() == p@[i as int]@);
        if i > 0 {
            r.push(0x2f);
        }
        let c = &p[i];
        let mut j: usize = 0;
        let ghost r0 = r@;
        while j < c.len()
            invariant
                j <= c@.len(),
                r@ == r0 + c@.take(j as int),
            decreases c@.len() - j,
        {
            r.push(c[j]);
            assert(c@.take(j + 1) =~= c@.take(j as int).push(c@[j as int]));
            assert(r@ =~= r0 + c@.take(j + 1));
            j = j + 1;
        }
        assert(c@.take(j as int) =~= c@);
        if i == 0 {
            assert(r@ =~= t[0]);
        }
        i = i + 1;
    }
    assert(pv.take(i as int) =~= pv);
    r
}

/// The FNV-1a state after absorbing `bytes` from state `h`.
pub fn absorb(h: u64, bytes: &Vec<u8>) -> (r: u64)
    ensures
        r == fnv(h, bytes@),
{
    let mut x: u64 = h;
    let mut i: usize = 0;
    assert(bytes@.skip(0) =~= bytes@);
    while i < bytes.len()
        invariant
            i <= bytes@.len(),
            fnv(h, bytes@) == fnv(x, bytes@.skip(i as int)),
        decreases bytes@.len() - i,
    {
        let ghost rest = bytes@.skip(i as int);
        assert(rest[0] == bytes@[i as int]);
        assert(rest.drop_first() =~= bytes@.skip(i + 1));
        x = (x ^ (bytes[i] as u64)).wrapping_mul(FNV_PRIME);
        i = i + 1;
    }
    x
}

/// Absorbing two byte strings one after the other is absorbing their concatenation.
pub proof fn lemma_fnv_concat(h: u64, a: Seq<u8>, b: Seq<u8>)
    ensures
        fnv(h, a + b) == fnv(fnv(h, a), b),
    decreases a.len(),
{
    if a.len() > 0 {
        let h1 = (h ^ (a[0] as u64)).wrapping_mul(FNV_PRIME);
        assert((a + b).drop_first() =~= a.drop_first() + b);
        assert((a + b)[0] == a[0]);
        lemma_fnv_concat(h1, a.drop_first(), b);
    } else {
        assert(a + b =~= b);
    }
}

/// The FNV-1a state after absorbing the record of `e` from state `h`.
pub fn absorb_entry(h: u64, e: &Entry) -> (r: u64)
    ensures
        r == fnv(h, record(*e)),
{
    let mut head = join_path(&e.path);
    head.push(0);
    let tag: u8 = match e.kind {
        EntryKind::File => 1,
        EntryKind::Dir => 2,
        EntryKind::Symlink => 3,
        EntryKind::Other => 4,
    };
    head.push(tag);
    let ghost jp = joined(path_of(*e));
    if e.kind == EntryKind::File {
        let len = length_bytes(e.contents.len() as u64);
        proof {
            lemma_le_bytes_len(e.contents@.len(), 8);
        }
        let mut k: usize = 0;
        let ghost h0 = head@;
        while k < 8
            invariant
                k <= 8,
                len@.len() == 8,
                head@ == h0 + len@.take(k as int),
            decreases 8 - k,
        {
            head.push(len[k]);
            assert(len@.take(k + 1) =~= len@.take(k as int).push(len@[k as int]));
            assert(head@ =~= h0 + len@.take(k + 1));
            k = k + 1;
        }
        assert(len@.take(8) =~= len@);
        assert(head@ =~= header(*e));
        let x = absorb(h, &head);
        let r = absorb(x, &e.contents);
        proof {
            lemma_fnv_concat(h, head@, e.contents@);
        }
        r
    } else {
        assert(head@ =~= header(*e));
        assert(record(*e) =~= header(*e));
        absorb(h, &head)
    }
}

/// The fingerprint of a directory listing: the entries that `ignores` does
/// not exclude, taken in walk order, reduced by FNV-1a over their records.
pub fn fingerprint(entries: Vec<Entry>, ignores: &Ignores) -> (r: u64)
    ensures
        r == spec_fingerprint(entries@, ignores@),
{
    let mut v = kept_entries(entries, ignores);
    let mut h: u64 = FNV_OFFSET;
    while v.len() > 0
        invariant
            spec_fingerprint(entries@, ignores@) == fnv(h, stream(walk_order(v@))),
        decreases v@.len(),
    {
        let ghost before = v@;
        let m = least_entry(&v);
        let e = v.remove(m);
        assert(before.remove(m as int) =~= v@);
        let ghost w = walk_order(before);
        assert(w == seq![e] + walk_order(v@));
        assert(w.drop_first() =~= walk_order(v@));
        proof {
            lemma_fnv_concat(h, record(e), stream(walk_order(v@)));
        }
        h = absorb_entry(h, &e);
    }
    h
}

/// `256` to the power `k`.
pub open spec fn pow256(k: nat) -> nat
    decreases k,
{
    if k == 0 {
        1
    } else {
        256 * pow256((k - 1) as nat)
    }
}

proof fn lemma_kept_concat(a: Seq<Entry>, b: Seq<Entry>, ign: Seq<(nat, Seq<u8>)>)
    ensures
        kept(a + b, ign) == kept(a, ign) + kept(b, ign),
    decreases a.len(),
{
    if a.len() == 0 {
        assert(a + b =~= b);
        assert(kept(a, ign) + kept(b, ign) =~= kept(b, ign));
    } else {
        assert((a + b)[0] == a[0]);
        assert((a + b).drop_first() =~= a.drop_first() + b);
        lemma_kept_concat(a.drop_first(), b, ign);
        if !ignored(ign, path_of(a[0])) {
            assert(seq![a[0]] + (kept(a.drop_first(), ign) + kept(b, ign)) =~= (seq![a[0]]
                + kept(a.drop_first(), ign)) + kept(b, ign));
        }
    }
}

/// The fingerprint is a function of the listing and the policy: computing it
/// twice gives the same digest.
pub proof fn lemma_fingerprint_deterministic(
    s: Seq<Entry>,
    t: Seq<Entry>,
    ign: Seq<(nat, Seq<u8>)>,
)
    requires
        s == t,
    ensures
        spec_fingerprint(s, ign) == spec_fingerprint(t, ign),
{
}

/// An excluded entry does not count: adding it anywhere in a listing, or
/// replacing it by another excluded entry (other contents, another kind),
/// leaves the fingerprint as it was.
pub proof fn lemma_ignored_entry_irrelevant(
    s1: Seq<Entry>,
    s2: Seq<Entry>,
    e: Entry,
    f: Entry,
    ign: Seq<(nat, Seq<u8>)>,
)
    requires
        ignored(ign, path_of(e)),
        ignored(ign, path_of(f)),
    ensures
        spec_fingerprint(s1 + seq![e] + s2, ign) == spec_fingerprint(s1 + s2, ign),
        spec_fingerprint(s1 + seq![e] + s2, ign) == spec_fingerprint(s1 + seq![f] + s2, ign),
{
    lemma_kept_concat(s1, s2, ign);
    lemma_kept_concat(s1 + seq![e], s2, ign);
    lemma_kept_concat(s1 + seq![f], s2, ign);
    lemma_kept_concat(s1, seq![e], ign);
    lemma_kept_concat(s1, seq![f], ign);
    assert(seq![e][0] == e);
    assert(seq![f][0] == f);
    assert(kept(Seq::<Entry>::empty(), ign) =~= Seq::<Entry>::empty());
    assert(seq![e].drop_first() =~= Seq::<Entry>::empty());
    assert(seq![f].drop_first() =~= Seq::<Entry>::empty());
    assert(kept(seq![e], ign) =~= Seq::<Entry>::empty());
    assert(kept(seq![f], ign) =~= Seq::<Entry>::empty());
    assert(kept(s1 + seq![e] + s2, ign) =~= kept(s1 + s2, ign));
    assert(kept(s1 + seq![f] + s2, ign) =~= kept(s1 + s2, ign));
}

/// Everything below an excluded entry is excluded too.
pub proof fn lemma_ignored_below(ign: Seq<(nat, Seq<u8>)>, p: Seq<Seq<u8>>, q: Seq<Seq<u8>>)
    requires
        ignored(ign, p),
        p.len() <= q.len(),
        q.take(p.len() as int) == p,
    ensures
        ignored(ign, q),
{
    let i = choose|i: int| 0 <= i < p.len() && ign.contains((((i + 1) as nat), #[trigger] p[i]));
    assert(q[i] == q.take(p.len() as int)[i]);
}

/// An empty listing, or one whose entries are all excluded, has the
/// fingerprint of the empty stream.
pub proof fn lemma_empty_listing(s: Seq<Entry>, ign: Seq<(nat, Seq<u8>)>)
    requires
        forall|k: int| 0 <= k < s.len() ==> ignored(ign, #[trigger] path_of(s[k])),
    ensures
        spec_fingerprint(s, ign) == FNV_OFFSET,
    decreases s.len(),
{
    lemma_all_ignored_kept_empty(s, ign);
}

proof fn lemma_all_ignored_kept_empty(s: Seq<Entry>, ign: Seq<(nat, Seq<u8>)>)
    requires
        forall|k: int| 0 <= k < s.len() ==> ignored(ign, #[trigger] path_of(s[k])),
    ensures
        kept(s, ign).len() == 0,
    decreases s.len(),
{
    if s.len() > 0 {
        assert(ignored(ign, path_of(s[0])));
        assert forall|k: int| 0 <= k < s.drop_first().len() implies ignored(
            ign,
            #[trigger] path_of(s.drop_first()[k]),
        ) by {
            assert(s.drop_first()[k] == s[k + 1]);
        }
        lemma_all_ignored_kept_empty(s.drop_first(), ign);
    }
}

proof fn lemma_le_bytes_injective(a: nat, b: nat, k: nat)
    requires
        a < pow256(k),
        b < pow256(k),
        le_bytes(a, k) == le_bytes(b, k),
    ensures
        a == b,
    decreases k,
{
    if k == 0 {
    } else {
        let ka = (k - 1) as nat;
        assert(le_bytes(a, k)[0] == (a % 256) as u8);
        assert(le_bytes(b, k)[0] == (b % 256) as u8);
        assert(a % 256 == b % 256);
        assert(le_bytes(a, k).drop_first() =~= le_bytes(a / 256, ka));
        assert(le_bytes(b, k).drop_first() =~= le_bytes(b / 256, ka));
        let p = pow256(ka);
        assert(a / 256 < p) by (nonlinear_arith)
            requires
                a < 256 * p,
        ;
        assert(b / 256 < p) by (nonlinear_arith)
            requires
                b < 256 * p,
        ;
        lemma_le_bytes_injective(a / 256, b / 256, ka);
        assert(a == 256 * (a / 256) + a % 256) by (nonlinear_arith);
        assert(b == 256 * (b / 256) + b % 256) by (nonlinear_arith);
    }
}

/// The length field holds a file's whole length: two lengths that fit in 64
/// bits give the same eight bytes only when they are equal, so no size of
/// file wraps around or is cut short.
pub proof fn lemma_length_field_exact(a: u64, b: u64)
    requires
        le_bytes(a as nat, 8) == le_bytes(b as nat, 8),
    ensures
        a == b,
{
    reveal_with_fuel(pow256, 9);
    assert(pow256(8) == 0x1_0000_0000_0000_0000);
    lemma_le_bytes_injective(a as nat, b as nat, 8);
}

/// Every record starts with the entry's path, the raw bytes of its
/// components joined by `/`, with no decoding or re-encoding.
pub proof fn lemma_record_starts_with_raw_path(e: Entry)
    ensures
        record(e).take(joined(path_of(e)).len() as int) == joined(path_of(e)),
        path_of(e).len() == 1 ==> joined(path_of(e)) == e.path@[0]@,
{
    assert(record(e).take(joined(path_of(e)).len() as int) =~= joined(path_of(e)));
}

/// Two regular files at the same path with different contents give
/// different records, so the streams that reach the hash differ.
pub proof fn lemma_contents_change_record(e: Entry, f: Entry)
    requires
        e.path@.map_values(|c: Vec<u8>| c@) == f.path@.map_values(|c: Vec<u8>| c@),
        e.kind == EntryKind::File,
        f.kind == EntryKind::File,
        e.contents@ != f.contents@,
        e.contents@.len() < pow256(8),
        f.contents@.len() < pow256(8),
    ensures
        record(e) != record(f),
{
    let j = joined(path_of(e)).len() as int;
    lemma_le_bytes_len(e.contents@.len(), 8);
    lemma_le_bytes_len(f.contents@.len(), 8);
    if record(e) == record(f) {
        assert(record(e).subrange(j + 2, j + 10) =~= le_bytes(e.contents@.len(), 8));
        assert(record(f).subrange(j + 2, j + 10) =~= le_bytes(f.contents@.len(), 8));
        lemma_le_bytes_injective(e.contents@.len(), f.contents@.len(), 8);
        assert(record(e).skip(j + 10) =~= e.contents@);
        assert(record(f).skip(j + 10) =~= f.contents@);
    }
}

/// `a` and `b` agree but at position `p`, where both hold a regular file at
/// the same path, with different contents.
pub open spec fn one_file_changed(a: Seq<Entry>, b: Seq<Entry>, p: int) -> bool {
    &&& a.len() == b.len()
    &&& 0 <= p < a.len()
    &&& forall|i: int| 0 <= i < a.len() && i != p ==> a[i] == b[i]
    &&& path_of(a[p]) == path_of(b[p])
    &&& a[p].kind == EntryKind::File
    &&& b[p].kind == EntryKind::File
    &&& a[p].contents@ != b[p].contents@
    &&& a[p].contents@.len() < pow256(8)
    &&& b[p].contents@.len() < pow256(8)
}

proof fn lemma_min_index_same_paths(a: Seq<Entry>, b: Seq<Entry>)
    requires
        a.len() == b.len(),
        forall|i: int| 0 <= i < a.len() ==> path_of(a[i]) == path_of(b[i]),
    ensures
        min_index(a) == min_index(b),
        a.len() > 0 ==> 0 <= min_index(a) < a.len(),
    decreases a.len(),
{
    if a.len() > 1 {
        assert forall|i: int| 0 <= i < a.drop_last().len() implies path_of(a.drop_last()[i])
            == path_of(b.drop_last()[i]) by {
            assert(a.drop_last()[i] == a[i]);
            assert(b.drop_last()[i] == b[i]);
        }
        lemma_min_index_same_paths(a.drop_last(), b.drop_last());
        let m = min_index(a.drop_last());
        assert(a.drop_last()[m] == a[m]);
        assert(b.drop_last()[m] == b[m]);
    }
}

proof fn lemma_kept_one_changed(a: Seq<Entry>, b: Seq<Entry>, p: int, ign: Seq<(nat, Seq<u8>)>) -> (q: int)
    requires
        one_file_changed(a, b, p),
        !ignored(ign, path_of(a[p])),
    ensures
        one_file_changed(kept(a, ign), kept(b, ign), q),
    decreases a.len(),
{
    let ka = kept(a, ign);
    let kb = kept(b, ign);
    let ta = a.drop_first();
    let tb = b.drop_first();
    if p == 0 {
        assert(ta =~= tb) by {
            assert forall|i: int| 0 <= i < ta.len() implies ta[i] == tb[i] by {
                assert(ta[i] == a[i + 1]);
                assert(tb[i] == b[i + 1]);
            }
        }
        assert(ka == seq![a[0]] + kept(ta, ign));
        assert(kb == seq![b[0]] + kept(tb, ign));
        assert(ka[0] == a[0]);
        assert(kb[0] == b[0]);
        assert forall|i: int| 0 <= i < ka.len() && i != 0 implies ka[i] == kb[i] by {
            assert(ka[i] == kept(ta, ign)[i - 1]);
            assert(kb[i] == kept(tb, ign)[i - 1]);
        }
        0
    } else {
        assert(a[0] == b[0]);
        assert forall|i: int| 0 <= i < ta.len() && i != p - 1 implies ta[i] == tb[i] by {
            assert(ta[i] == a[i + 1]);
            assert(tb[i] == b[i + 1]);
        }
        assert(ta[p - 1] == a[p]);
        assert(tb[p - 1] == b[p]);
        let q1 = lemma_kept_one_changed(ta, tb, p - 1, ign);
        let ra = kept(ta, ign);
        let rb = kept(tb, ign);
        if ignored(ign, path_of(a[0])) {
            q1
        } else {
            assert(ka == seq![a[0]] + ra);
            assert(kb == seq![b[0]] + rb);
            assert(ka[q1 + 1] == ra[q1]);
            assert(kb[q1 + 1] == rb[q1]);
            assert forall|i: int| 0 <= i < ka.len() && i != q1 + 1 implies ka[i] == kb[i] by {
                if i > 0 {
                    assert(ka[i] == ra[i - 1]);
                    assert(kb[i] == rb[i - 1]);
                }
            }
            q1 + 1
        }
    }
}

proof fn lemma_walk_one_changed(a: Seq<Entry>, b: Seq<Entry>, p: int) -> (q: int)
    requires
        one_file_changed(a, b, p),
    ensures
        one_file_changed(walk_order(a), walk_order(b), q),
    decreases a.len(),
{
    assert forall|i: int| 0 <= i < a.len() implies path_of(a[i]) == path_of(b[i]) by {
        if i != p {
            assert(a[i] == b[i]);
        }
    }
    lemma_min_index_same_paths(a, b);
    let m = min_index(a);
    let ra = a.remove(m);
    let rb = b.remove(m);
    let wa = walk_order(a);
    let wb = walk_order(b);
    assert(wa == seq![a[m]] + walk_order(ra));
    assert(wb == seq![b[m]] + walk_order(rb));
    if m == p {
        assert(ra =~= rb) by {
            assert forall|i: int| 0 <= i < ra.len() implies ra[i] == rb[i] by {
                if i < m {
                    assert(ra[i] == a[i] && rb[i] == b[i]);
                } else {
                    assert(ra[i] == a[i + 1] && rb[i] == b[i + 1]);
                }
            }
        }
        assert forall|i: int| 0 <= i < wa.len() && i != 0 implies wa[i] == wb[i] by {
            assert(wa[i] == walk_order(ra)[i - 1]);
            assert(wb[i] == walk_order(rb)[i - 1]);
        }
        0
    } else {
        let p1 = if p < m { p } else { p - 1 };
        assert(ra[p1] == a[p]);
        assert(rb[p1] == b[p]);
        assert forall|i: int| 0 <= i < ra.len() && i != p1 implies ra[i] == rb[i] by {
            if i < m {
                assert(ra[i] == a[i] && rb[i] == b[i]);
            } else {
                assert(ra[i] == a[i + 1] && rb[i] == b[i + 1]);
            }
        }
        let q1 = lemma_walk_one_changed(ra, rb, p1);
        assert(a[m] == b[m]);
        assert(wa[q1 + 1] == walk_order(ra)[q1]);
        assert(wb[q1 + 1] == walk_order(rb)[q1]);
        assert forall|i: int| 0 <= i < wa.len() && i != q1 + 1 implies wa[i] == wb[i] by {
            if i > 0 {
                assert(wa[i] == walk_order(ra)[i - 1]);
                assert(wb[i] == walk_order(rb)[i - 1]);
            }
        }
        q1 + 1
    }
}

proof fn lemma_record_prefix_differs(e: Entry, f: Entry, x: Seq<u8>, y: Seq<u8>)
    requires
        path_of(e) == path_of(f),
        e.kind == EntryKind::File,
        f.kind == EntryKind::File,
        e.contents@ != f.contents@,
        e.contents@.len() < pow256(8),
        f.contents@.len() < pow256(8),
    ensures
        record(e) + x != record(f) + y,
{
    let j = joined(path_of(e)).len() as int;
    lemma_le_bytes_len(e.contents@.len(), 8);
    lemma_le_bytes_len(f.contents@.len(), 8);
    let re = record(e) + x;
    let rf = record(f) + y;
    if re == rf {
        assert(re.subrange(j + 2, j + 10) =~= le_bytes(e.contents@.len(), 8));
        assert(rf.subrange(j + 2, j + 10) =~= le_bytes(f.contents@.len(), 8));
        lemma_le_bytes_injective(e.contents@.len(), f.contents@.len(), 8);
        let n = e.contents@.len() as int;
        assert(re.subrange(j + 10, j + 10 + n) =~= e.contents@);
        assert(rf.subrange(j + 10, j + 10 + n) =~= f.contents@);
    }
}

proof fn lemma_stream_one_changed(a: Seq<Entry>, b: Seq<Entry>, p: int)
    requires
        one_file_changed(a, b, p),
    ensures
        stream(a) != stream(b),
    decreases a.len(),
{
    let ta = a.drop_first();
    let tb = b.drop_first();
    if p == 0 {
        lemma_record_prefix_differs(a[0], b[0], stream(ta), stream(tb));
    } else {
        assert(a[0] == b[0]);
        assert forall|i: int| 0 <= i < ta.len() && i != p - 1 implies ta[i] == tb[i] by {
            assert(ta[i] == a[i + 1]);
            assert(tb[i] == b[i + 1]);
        }
        assert(ta[p - 1] == a[p]);
        assert(tb[p - 1] == b[p]);
        lemma_stream_one_changed(ta, tb, p - 1);
        let r = record(a[0]);
        if stream(a) == stream(b) {
            assert(stream(a).skip(r.len() as int) =~= stream(ta));
            assert(stream(b).skip(r.len() as int) =~= stream(tb));
        }
    }
}

/// Changing the contents of a regular file that no rule excludes changes the
/// byte stream that the fingerprint hashes. (Whether the 64-bit digest
/// changes too is then up to FNV-1a, which collides only by accident.)
pub proof fn lemma_changed_file_changes_stream(
    s: Seq<Entry>,
    k: int,
    f: Entry,
    ign: Seq<(nat, Seq<u8>)>,
)
    requires
        0 <= k < s.len(),
        !ignored(ign, path_of(s[k])),
        path_of(f) == path_of(s[k]),
        s[k].kind == EntryKind::File,
        f.kind == EntryKind::File,
        s[k].contents@ != f.contents@,
        s[k].contents@.len() < pow256(8),
        f.contents@.len() < pow256(8),
    ensures
        listing_stream(s, ign) != listing_stream(s.update(k, f), ign),
{
    let t = s.update(k, f);
    assert(one_file_changed(s, t, k));
    let q = lemma_kept_one_changed(s, t, k, ign);
    let r = lemma_walk_one_changed(kept(s, ign), kept(t, ign), q);
    lemma_stream_one_changed(walk_order(kept(s, ign)), walk_order(kept(t, ign)), r);
}

proof fn lemma_bytes_lt_irreflexive(a: Seq<u8>)
    ensures
        !bytes_lt(a, a),
    decreases a.len(),
{
    if a.len() > 0 {
        lemma_bytes_lt_irreflexive(a.drop_first());
    }
}

proof fn lemma_bytes_lt_total(a: Seq<u8>, b: Seq<u8>)
    requires
        a != b,
    ensures
        bytes_lt(a, b) || bytes_lt(b, a),
    decreases a.len(),
{
    if a.len() > 0 && b.len() > 0 && a[0] == b[0] {
        if a.drop_first() == b.drop_first() {
            assert(a =~= seq![a[0]] + a.drop_first());
            assert(b =~= seq![b[0]] + b.drop_first());
        }
        lemma_bytes_lt_total(a.drop_first(), b.drop_first());
    } else if a.len() == 0 && b.len() == 0 {
        assert(a =~= b);
    }
}

proof fn lemma_bytes_lt_transitive(a: Seq<u8>, b: Seq<u8>, c: Seq<u8>)
    requires
        bytes_lt(a, b),
        bytes_lt(b, c),
    ensures
        bytes_lt(a, c),
    decreases a.len(),
{
    if a.len() > 0 && a[0] == b[0] && b[0] == c[0] {
        lemma_bytes_lt_transitive(a.drop_first(), b.drop_first(), c.drop_first());
    }
}

proof fn lemma_path_lt_irreflexive(a: Seq<Seq<u8>>)
    ensures
        !path_lt(a, a),
    decreases a.len(),
{
    if a.len() > 0 {
        lemma_path_lt_irreflexive(a.drop_first());
    }
}

proof fn lemma_path_lt_total(a: Seq<Seq<u8>>, b: Seq<Seq<u8>>)
    requires
        a != b,
    ensures
        path_lt(a, b) || path_lt(b, a),
    decreases a.len(),
{
    if a.len() > 0 && b.len() > 0 {
        if a[0] == b[0] {
            if a.drop_first() == b.drop_first() {
                assert(a =~= seq![a[0]] + a.drop_first());
                assert(b =~= seq![b[0]] + b.drop_first());
            }
            lemma_path_lt_total(a.drop_first(), b.drop_first());
        } else {
            lemma_bytes_lt_total(a[0], b[0]);
        }
    } else if a.len() == 0 && b.len() == 0 {
        assert(a =~= b);
    }
}

proof fn lemma_path_lt_transitive(a: Seq<Seq<u8>>, b: Seq<Seq<u8>>, c: Seq<Seq<u8>>)
    requires
        path_lt(a, b),
        path_lt(b, c),
    ensures
        path_lt(a, c),
    decreases a.len(),
{
    if a.len() > 0 && b.len() > 0 && c.len() > 0 {
        if a[0] == b[0] && b[0] == c[0] {
            lemma_path_lt_transitive(a.drop_first(), b.drop_first(), c.drop_first());
        } else if a[0] == b[0] {
        } else if b[0] == c[0] {
        } else {
            lemma_bytes_lt_transitive(a[0], b[0], c[0]);
            if a[0] == c[0] {
                lemma_bytes_lt_irreflexive(a[0]);
                lemma_bytes_lt_transitive(b[0], a[0], b[0]);
                lemma_bytes_lt_irreflexive(b[0]);
            }
        }
    }
}

proof fn lemma_min_index_least(s: Seq<Entry>)
    requires
        s.len() > 0,
    ensures
        0 <= min_index(s) < s.len(),
        forall|i: int| 0 <= i < s.len() ==> !path_lt(path_of(#[trigger] s[i]), path_of(s[min_index(s)])),
    decreases s.len(),
{
    if s.len() == 1 {
        lemma_path_lt_irreflexive(path_of(s[0]));
    } else {
        let d = s.drop_last();
        lemma_min_index_least(d);
        let m = min_index(d);
        assert(d[m] == s[m]);
        let l = s.last();
        if path_lt(path_of(l), path_of(s[m])) {
            assert forall|i: int| 0 <= i < s.len() implies !path_lt(
                path_of(#[trigger] s[i]),
                path_of(l),
            ) by {
                if i < s.len() - 1 {
                    assert(s[i] == d[i]);
                    if path_lt(path_of(s[i]), path_of(l)) {
                        lemma_path_lt_transitive(path_of(s[i]), path_of(l), path_of(s[m]));
                    }
                } else {
                    lemma_path_lt_irreflexive(path_of(l));
                }
            }
        } else {
            assert forall|i: int| 0 <= i < s.len() implies !path_lt(
                path_of(#[trigger] s[i]),
                path_of(s[m]),
            ) by {
                if i < s.len() - 1 {
                    assert(s[i] == d[i]);
                }
            }
        }
    }
}

/// No two entries of `m` share a path, and none occurs twice.
pub open spec fn paths_unique(m: Multiset<Entry>) -> bool {
    forall|x: Entry, y: Entry|
        #![trigger m.count(x), m.count(y)]
        m.count(x) > 0 && m.count(y) > 0 && path_of(x) == path_of(y) ==> x == y && m.count(x)
            == 1
}

proof fn lemma_walk_order_permutation(a: Seq<Entry>, b: Seq<Entry>)
    requires
        a.to_multiset() == b.to_multiset(),
        paths_unique(a.to_multiset()),
    ensures
        walk_order(a) == walk_order(b),
    decreases a.len(),
{
    broadcast use vstd::seq_lib::group_to_multiset_ensures;

    let ms = a.to_multiset();
    vstd::seq_lib::to_multiset_len(a);
    vstd::seq_lib::to_multiset_len(b);
    assert(a.len() == b.len());
    if a.len() > 0 {
        lemma_min_index_least(a);
        lemma_min_index_least(b);
        let ma = min_index(a);
        let mb = min_index(b);
        let x = a[ma];
        let y = b[mb];
        assert(a.contains(x));
        assert(b.contains(y));
        vstd::seq_lib::to_multiset_contains(a, x);
        vstd::seq_lib::to_multiset_contains(b, x);
        vstd::seq_lib::to_multiset_contains(a, y);
        vstd::seq_lib::to_multiset_contains(b, y);
        assert(b.contains(x));
        assert(a.contains(y));
        let jb = choose|j: int| 0 <= j < b.len() && b[j] == x;
        let ja = choose|j: int| 0 <= j < a.len() && a[j] == y;
        assert(!path_lt(path_of(b[jb]), path_of(y)));
        assert(!path_lt(path_of(a[ja]), path_of(x)));
        if path_of(x) != path_of(y) {
            lemma_path_lt_total(path_of(x), path_of(y));
        }
        assert(ms.count(x) > 0 && ms.count(y) > 0);
        assert(x == y);
        let ra = a.remove(ma);
        let rb = b.remove(mb);
        assert(ra.to_multiset() == ms.remove(x));
        assert(rb.to_multiset() == ms.remove(x));
        assert(paths_unique(ra.to_multiset())) by {
            assert forall|u: Entry, v: Entry|
                #![trigger ra.to_multiset().count(u), ra.to_multiset().count(v)]
                ra.to_multiset().count(u) > 0 && ra.to_multiset().count(v) > 0 && path_of(u)
                    == path_of(v) implies u == v && ra.to_multiset().count(u) == 1 by {
                assert(ms.count(u) >= ra.to_multiset().count(u));
                assert(ms.count(v) >= ra.to_multiset().count(v));
                assert(ms.count(u) > 0 && ms.count(v) > 0);
            }
        }
        lemma_walk_order_permutation(ra, rb);
    } else {
        assert(a =~= b);
    }
}

proof fn lemma_kept_multiset(s: Seq<Entry>, ign: Seq<(nat, Seq<u8>)>)
    ensures
        forall|x: Entry|
            #[trigger] kept(s, ign).to_multiset().count(x) == if ignored(ign, path_of(x)) {
                0
            } else {
                s.to_multiset().count(x)
            },
    decreases s.len(),
{
    broadcast use vstd::seq_lib::group_to_multiset_ensures;

    if s.len() == 0 {
        assert(kept(s, ign) =~= Seq::<Entry>::empty());
    } else {
        let rest = s.drop_first();
        lemma_kept_multiset(rest, ign);
        assert(s =~= rest.insert(0, s[0]));
        if !ignored(ign, path_of(s[0])) {
            assert(kept(s, ign) =~= kept(rest, ign).insert(0, s[0]));
        }
    }
}

/// The fingerprint does not depend on the order in which the filesystem
/// lists the entries: any reordering of a listing whose paths are distinct
/// has the same fingerprint.
pub proof fn lemma_listing_order_irrelevant(s: Seq<Entry>, t: Seq<Entry>, ign: Seq<(nat, Seq<u8>)>)
    requires
        s.to_multiset() == t.to_multiset(),
        paths_unique(s.to_multiset()),
    ensures
        spec_fingerprint(s, ign) == spec_fingerprint(t, ign),
{
    lemma_kept_multiset(s, ign);
    lemma_kept_multiset(t, ign);
    let ks = kept(s, ign);
    let kt = kept(t, ign);
    assert(ks.to_multiset() =~= kt.to_multiset());
    assert(paths_unique(ks.to_multiset())) by {
        assert forall|u: Entry, v: Entry|
            #![trigger ks.to_multiset().count(u), ks.to_multiset().count(v)]
            ks.to_multiset().count(u) > 0 && ks.to_multiset().count(v) > 0 && path_of(u)
                == path_of(v) implies u == v && ks.to_multiset().count(u) == 1 by {
            assert(s.to_multiset().count(u) > 0 && s.to_multiset().count(v) > 0);
        }
    }
    lemma_walk_order_permutation(ks, kt);
}

} // verus!
