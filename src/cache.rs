use vstd::prelude::*;
use crate::error::Error;
use vstd::arithmetic::div_mod::{
    lemma_div_denominator,
    lemma_fundamental_div_mod,
    lemma_fundamental_div_mod_converse,
};
use crate::fingerprint::{Entry, Ignores, fingerprint, spec_fingerprint};
use crate::segment::{
    CacheType,
    spec_friendly_name,
    spec_relative_path,
    spec_short_name,
};
use crate::sidecar::CachedFolderInfo;

verus! {

/// The URL-safe base64 alphabet.
pub open spec fn url_safe_alphabet() -> Seq<char> {
    "ABCDEFGHIJKLMNOPQRSTUVWXYZabcdefghijklmnopqrstuvwxyz0123456789-_"@
}

/// The URL-safe base64 character for the six-bit value `v`.
pub open spec fn b64_char(v: int) -> char {
    url_safe_alphabet()[v]
}

/// URL-safe base64 without padding: each three bytes become four
/// characters, a last pair three, a last single byte two.
pub open spec fn base64_url(b: Seq<u8>) -> Seq<char>
    decreases b.len(),
{
    if b.len() >= 3 {
        let n = b[0] as int * 65536 + b[1] as int * 256 + b[2] as int;
        seq![b64_char(n / 262144), b64_char((n / 4096) % 64), b64_char((n / 64) % 64), b64_char(n % 64)]
            + base64_url(b.skip(3))
    } else if b.len() == 2 {
        let n = b[0] as int * 256 + b[1] as int;
        seq![b64_char(n / 1024), b64_char((n / 16) % 64), b64_char((n % 16) * 4)]
    } else if b.len() == 1 {
        seq![b64_char(b[0] as int / 4), b64_char((b[0] as int % 4) * 16)]
    } else {
        seq![]
    }
}

/// Relies on `base64::encode_config` with `URL_SAFE_NO_PAD` (base64 0.13):
/// standard base64 over the URL-safe alphabet, without `=` padding.
#[verifier::external_body]
fn encode_url_safe(b: &Vec<u8>) -> (r: String)
    requires
        b@.len() <= 1024,
    ensures
        r@ == base64_url(b@),
{
    base64::encode_config(b, base64::URL_SAFE_NO_PAD)
}

/// `base` followed by the component `c`, with one `/` between them.
pub open spec fn path_join(base: Seq<char>, c: Seq<char>) -> Seq<char> {
    if base.len() == 0 {
        c
    } else if base.last() == '/' {
        base + c
    } else {
        base + seq!['/'] + c
    }
}

/// Whether `p` is an absolute path.
pub open spec fn is_absolute(p: Seq<char>) -> bool {
    p.len() > 0 && p[0] == '/'
}

/// The Cargo home as cargo resolves it: the override when it is set and not
/// empty, taken against the working directory `cwd` when it is relative;
/// else `.cargo` in the user's home directory.
pub open spec fn spec_cargo_home(
    home: Seq<char>,
    cwd: Seq<char>,
    cargo_home_var: Option<Seq<char>>,
) -> Seq<char> {
    match cargo_home_var {
        Some(v) if v.len() > 0 => if is_absolute(v) {
            v
        } else {
            path_join(cwd, v)
        },
        _ => path_join(home, ".cargo"@),
    }
}

/// The folder that holds segment `t` below the Cargo home `cargo_home`.
pub open spec fn spec_find_path(cargo_home: Seq<char>, t: CacheType) -> Seq<char> {
    path_join(path_join(cargo_home, spec_relative_path(t)[0]), spec_relative_path(t)[1])
}

/// The folder that holds the sidecar records below the user's home.
pub open spec fn spec_folder_info_dir(home: Seq<char>) -> Seq<char> {
    path_join(path_join(path_join(home, ".cache"@), "github-rust-actions"@), "cached_folder_info"@)
}

/// The sidecar record file of segment `t`.
pub open spec fn spec_folder_info_path(home: Seq<char>, t: CacheType) -> Seq<char> {
    path_join(spec_folder_info_dir(home), spec_short_name(t) + ".toml"@)
}

/// The key under which a segment is uploaded: its friendly name, a dash, and
/// the nonce in URL-safe base64.
pub open spec fn spec_primary_key(t: CacheType, nonce: Seq<u8>) -> Seq<char> {
    spec_friendly_name(t) + " - "@ + base64_url(nonce)
}

/// `base` joined with the component `c`.
pub fn join(base: &str, c: &str) -> (r: String)
    ensures
        r@ == path_join(base@, c@),
{
    let n = base.unicode_len();
    if n == 0 {
        String::from_str(c)
    } else if base.get_char(n - 1) == '/' {
        let mut r = String::from_str(base);
        r.append(c);
        r
    } else {
        let mut r = String::from_str(base);
        let slash = "/";
        proof {
            reveal_strlit("/");
        }
        assert(slash@ =~= seq!['/']);
        r.append(slash);
        r.append(c);
        assert(r@ =~= base@ + seq!['/'] + c@);
        r
    }
}

/// The Cargo home, given the user's home, the working directory and the
/// value of `CARGO_HOME` (`None` when it is unset).
pub fn find_cargo_home(home: &str, cwd: &str, cargo_home_var: Option<&str>) -> (r: String)
    ensures
        r@ == spec_cargo_home(
            home@,
            cwd@,
            match cargo_home_var {
                Some(v) => Some(v@),
                None => None,
            },
        ),
{
    match cargo_home_var {
        Some(v) => {
            if v.unicode_len() > 0 {
                if v.get_char(0) == '/' {
                    return String::from_str(v);
                }
                return join(cwd, v);
            }
        },
        None => {},
    }
    join(home, ".cargo")
}

/// The folder that holds segment `t`.
pub fn find_path(cargo_home: &str, t: CacheType) -> (r: String)
    ensures
        r@ == spec_find_path(cargo_home@, t),
{
    let rel = t.relative_path();
    let first = join(cargo_home, rel[0].as_str());
    join(first.as_str(), rel[1].as_str())
}

/// The folder that holds the sidecar records.
pub fn cached_folder_info_dir(home: &str) -> (r: String)
    ensures
        r@ == spec_folder_info_dir(home@),
{
    let a = join(home, ".cache");
    let b = join(a.as_str(), "github-rust-actions");
    join(b.as_str(), "cached_folder_info")
}

/// The sidecar record file of segment `t`.
pub fn cached_folder_info_path(home: &str, t: CacheType) -> (r: String)
    ensures
        r@ == spec_folder_info_path(home@, t),
{
    let dir = cached_folder_info_dir(home);
    let mut name = String::from_str(t.short_name());
    name.append(".toml");
    join(dir.as_str(), name.as_str())
}

/// A request to the host's blob cache: the key to save under or look up
/// first, the prefixes to fall back on when restoring, and the folders.
#[derive(Debug, Clone)]
pub struct CacheEntry {
    pub key: String,
    pub restore_keys: Vec<String>,
    pub paths: Vec<String>,
}

/// The cache request for segment `t` at `path`, keyed by a fresh `nonce`.
pub fn build_cache_entry(t: CacheType, path: &str, nonce: &Vec<u8>) -> (r: CacheEntry)
    requires
        nonce@.len() <= 1024,
    ensures
        r.key@ == spec_primary_key(t, nonce@),
        r.restore_keys@.len() == 1,
        r.restore_keys@[0]@ == spec_friendly_name(t),
        r.paths@.len() == 1,
        r.paths@[0]@ == path@,
{
    let name = t.friendly_name();
    let encoded = encode_url_safe(nonce);
    let mut key = String::from_str(name);
    key.append(" - ");
    key.append(encoded.as_str());
    let mut restore_keys: Vec<String> = Vec::new();
    restore_keys.push(String::from_str(name));
    let mut paths: Vec<String> = Vec::new();
    paths.push(String::from_str(path));
    CacheEntry { key, restore_keys, paths }
}

/// The record of a segment folder: its path and the fingerprint of its
/// listing under the segment's exclusion policy.
pub fn build_cached_folder_info(path: String, entries: Vec<Entry>, ignores: &Ignores) -> (r:
    CachedFolderInfo)
    ensures
        r.path@ == path@,
        r.fingerprint == spec_fingerprint(entries@, ignores@),
{
    let fingerprint = fingerprint(entries, ignores);
    CachedFolderInfo { path, fingerprint }
}

/// What the save phase does with a segment.
#[derive(Debug, Clone, Copy, PartialEq, Eq, Structural)]
pub enum SaveDecision {
    /// The folder is as the restore phase left it: nothing is uploaded.
    Unchanged,
    /// The folder changed: it is uploaded under a fresh key.
    Upload,
}

/// Compares the record that the restore phase wrote (`None` when it is
/// missing) with the folder as it is now.
pub fn decide_save(t: CacheType, old: Option<CachedFolderInfo>, new: &CachedFolderInfo) -> (r:
    Result<SaveDecision, Error>)
    ensures
        match old {
            None => r matches Err(Error::SidecarMissing(s)) && s@ == spec_short_name(t),
            Some(o) => if o.path@ != new.path@ {
                r matches Err(Error::PathMismatch { old: a, new: b }) && a@ == o.path@ && b@
                    == new.path@
            } else if o.fingerprint == new.fingerprint {
                r == Ok::<SaveDecision, Error>(SaveDecision::Unchanged)
            } else {
                r == Ok::<SaveDecision, Error>(SaveDecision::Upload)
            },
        },
{
    match old {
        None => Err(Error::SidecarMissing(String::from_str(t.short_name()))),
        Some(o) => {
            if o.path != new.path {
                Err(Error::PathMismatch { old: o.path, new: new.path.clone() })
            } else if o.fingerprint == new.fingerprint {
                Ok(SaveDecision::Unchanged)
            } else {
                Ok(SaveDecision::Upload)
            }
        },
    }
}

proof fn lemma_b64_char_injective(v: int, w: int)
    requires
        0 <= v < 64,
        0 <= w < 64,
        b64_char(v) == b64_char(w),
    ensures
        v == w,
{
    reveal_strlit("ABCDEFGHIJKLMNOPQRSTUVWXYZabcdefghijklmnopqrstuvwxyz0123456789-_");
    assert(forall|v: int| 0 <= v < 26 ==> #[trigger] (url_safe_alphabet()[v] as u32) == 65 + v);
    assert(forall|v: int| 26 <= v < 52 ==> #[trigger] (url_safe_alphabet()[v] as u32) == 71 + v);
    assert(forall|v: int| 52 <= v < 62 ==> #[trigger] (url_safe_alphabet()[v] as u32) == v - 4);
    assert(url_safe_alphabet()[62] as u32 == 45);
    assert(url_safe_alphabet()[63] as u32 == 95);
    assert(url_safe_alphabet()[v] as u32 == url_safe_alphabet()[w] as u32);
}

/// Two numbers with the same quotient and remainder by `d` are equal.
proof fn lemma_same_div_mod(x: int, y: int, d: int)
    requires
        d > 0,
        x / d == y / d,
        x % d == y % d,
    ensures
        x == y,
{
    lemma_fundamental_div_mod(x, d);
    lemma_fundamental_div_mod(y, d);
}

/// A 24-bit group is determined by its four six-bit digits.
proof fn lemma_sextets_determine(n: int, m: int)
    requires
        0 <= n,
        0 <= m,
        n / 262144 == m / 262144,
        (n / 4096) % 64 == (m / 4096) % 64,
        (n / 64) % 64 == (m / 64) % 64,
        n % 64 == m % 64,
    ensures
        n == m,
{
    lemma_div_denominator(n, 4096, 64);
    lemma_div_denominator(m, 4096, 64);
    lemma_same_div_mod(n / 4096, m / 4096, 64);
    lemma_div_denominator(n, 64, 64);
    lemma_div_denominator(m, 64, 64);
    lemma_same_div_mod(n / 64, m / 64, 64);
    lemma_same_div_mod(n, m, 64);
}

/// Bytes are determined by the number they spell in base 256.
proof fn lemma_base256_determine(x: int, a: int, b: int)
    requires
        0 <= b < 256,
        x == a * 256 + b,
    ensures
        a == x / 256,
        b == x % 256,
{
    lemma_fundamental_div_mod_converse(x, 256, a, b);
}

proof fn lemma_b64_range(n: int)
    requires
        0 <= n < 16777216,
    ensures
        0 <= n / 262144 < 64,
        0 <= (n / 4096) % 64 < 64,
        0 <= (n / 64) % 64 < 64,
        0 <= n % 64 < 64,
{
}

/// Equal encodings of equally long byte strings come from equal bytes.
pub proof fn lemma_base64_url_injective(a: Seq<u8>, b: Seq<u8>)
    requires
        a.len() == b.len(),
        base64_url(a) == base64_url(b),
    ensures
        a == b,
    decreases a.len(),
{
    let ea = base64_url(a);
    let eb = base64_url(b);
    if a.len() >= 3 {
        let na = a[0] as int * 65536 + a[1] as int * 256 + a[2] as int;
        let nb = b[0] as int * 65536 + b[1] as int * 256 + b[2] as int;
        lemma_b64_range(na);
        lemma_b64_range(nb);
        assert(ea[0] == b64_char(na / 262144));
        assert(eb[0] == b64_char(nb / 262144));
        assert(ea[1] == b64_char((na / 4096) % 64));
        assert(eb[1] == b64_char((nb / 4096) % 64));
        assert(ea[2] == b64_char((na / 64) % 64));
        assert(eb[2] == b64_char((nb / 64) % 64));
        assert(ea[3] == b64_char(na % 64));
        assert(eb[3] == b64_char(nb % 64));
        lemma_b64_char_injective(na / 262144, nb / 262144);
        assert(ea[1] == eb[1]);
        lemma_b64_char_injective((na / 4096) % 64, (nb / 4096) % 64);
        assert(ea[2] == eb[2]);
        lemma_b64_char_injective((na / 64) % 64, (nb / 64) % 64);
        assert(ea[3] == eb[3]);
        lemma_b64_char_injective(na % 64, nb % 64);
        lemma_sextets_determine(na, nb);
        lemma_base256_determine(na, a[0] as int * 256 + a[1] as int, a[2] as int);
        lemma_base256_determine(nb, b[0] as int * 256 + b[1] as int, b[2] as int);
        lemma_base256_determine(na / 256, a[0] as int, a[1] as int);
        lemma_base256_determine(nb / 256, b[0] as int, b[1] as int);
        assert(ea.skip(4) =~= base64_url(a.skip(3)));
        assert(eb.skip(4) =~= base64_url(b.skip(3)));
        lemma_base64_url_injective(a.skip(3), b.skip(3));
        assert(a =~= b) by {
            assert forall|i: int| 0 <= i < a.len() implies a[i] == b[i] by {
                if i >= 3 {
                    assert(a[i] == a.skip(3)[i - 3]);
                    assert(b[i] == b.skip(3)[i - 3]);
                }
            }
        }
    } else if a.len() == 2 {
        let na = a[0] as int * 256 + a[1] as int;
        let nb = b[0] as int * 256 + b[1] as int;
        assert(ea[0] == b64_char(na / 1024) && eb[0] == b64_char(nb / 1024));
        assert(ea[1] == b64_char((na / 16) % 64) && eb[1] == b64_char((nb / 16) % 64));
        assert(ea[2] == b64_char((na % 16) * 4) && eb[2] == b64_char((nb % 16) * 4));
        lemma_b64_char_injective(na / 1024, nb / 1024);
        assert(ea[1] == eb[1]);
        lemma_b64_char_injective((na / 16) % 64, (nb / 16) % 64);
        assert(ea[2] == eb[2]);
        lemma_b64_char_injective((na % 16) * 4, (nb % 16) * 4);
        lemma_div_denominator(na, 16, 64);
        lemma_div_denominator(nb, 16, 64);
        lemma_same_div_mod(na / 16, nb / 16, 64);
        lemma_same_div_mod(na, nb, 16);
        lemma_base256_determine(na, a[0] as int, a[1] as int);
        lemma_base256_determine(nb, b[0] as int, b[1] as int);
        assert(a =~= b);
    } else if a.len() == 1 {
        let x = a[0] as int;
        let y = b[0] as int;
        assert(ea[0] == b64_char(x / 4) && eb[0] == b64_char(y / 4));
        assert(ea[1] == b64_char((x % 4) * 16) && eb[1] == b64_char((y % 4) * 16));
        lemma_b64_char_injective(x / 4, y / 4);
        assert(ea[1] == eb[1]);
        lemma_b64_char_injective((x % 4) * 16, (y % 4) * 16);
        lemma_same_div_mod(x, y, 4);
        assert(a =~= b);
    } else {
        assert(a =~= b);
    }
}

/// Keys built from distinct nonces of one length are distinct, so a fresh
/// random nonce gives a key that no earlier upload used, but by chance.
pub proof fn lemma_distinct_nonces_distinct_keys(t: CacheType, n1: Seq<u8>, n2: Seq<u8>)
    requires
        n1.len() == n2.len(),
        n1 != n2,
    ensures
        spec_primary_key(t, n1) != spec_primary_key(t, n2),
{
    let p = spec_friendly_name(t) + " - "@;
    if spec_primary_key(t, n1) == spec_primary_key(t, n2) {
        assert(spec_primary_key(t, n1).skip(p.len() as int) =~= base64_url(n1));
        assert(spec_primary_key(t, n2).skip(p.len() as int) =~= base64_url(n2));
        lemma_base64_url_injective(n1, n2);
    }
}

/// What the restore phase has just learned about a segment folder.
#[derive(Debug, Clone, Copy, PartialEq, Eq, Structural)]
pub enum RestoreEvent {
    /// Whether the folder was there before anything was restored.
    FolderChecked { exists: bool },
    /// The folder that was there has been removed.
    FolderCleared,
    /// The blob cache answered: `hit` when it restored a blob.
    CacheLookedUp { hit: bool },
    /// The empty folder has been created.
    FolderCreated,
}

/// What the restore phase does next for a segment.
#[derive(Debug, Clone, Copy, PartialEq, Eq, Structural)]
pub enum RestoreAction {
    /// Warn that its contents will go, and remove the folder.
    ClearFolder,
    /// Ask the blob cache to restore the folder.
    LookUpCache,
    /// Create the folder, empty.
    CreateFolder,
    /// Fingerprint the folder and write its sidecar record.
    RecordFolder,
}

/// The restore protocol: a folder that is already there is cleared before
/// the lookup, since the blob cache expects to fill an absent folder; on a
/// miss the folder is created empty; either way it is then recorded.
pub open spec fn spec_next_restore_action(e: RestoreEvent) -> RestoreAction {
    match e {
        RestoreEvent::FolderChecked { exists } => if exists {
            RestoreAction::ClearFolder
        } else {
            RestoreAction::LookUpCache
        },
        RestoreEvent::FolderCleared => RestoreAction::LookUpCache,
        RestoreEvent::CacheLookedUp { hit } => if hit {
            RestoreAction::RecordFolder
        } else {
            RestoreAction::CreateFolder
        },
        RestoreEvent::FolderCreated => RestoreAction::RecordFolder,
    }
}

/// The next step of the restore phase for a segment, after `e`.
pub fn next_restore_action(e: RestoreEvent) -> (r: RestoreAction)
    ensures
        r == spec_next_restore_action(e),
{
    match e {
        RestoreEvent::FolderChecked { exists } => if exists {
            RestoreAction::ClearFolder
        } else {
            RestoreAction::LookUpCache
        },
        RestoreEvent::FolderCleared => RestoreAction::LookUpCache,
        RestoreEvent::CacheLookedUp { hit } => if hit {
            RestoreAction::RecordFolder
        } else {
            RestoreAction::CreateFolder
        },
        RestoreEvent::FolderCreated => RestoreAction::RecordFolder,
    }
}

/// How the save phase ended for one segment.
#[derive(Debug, Clone)]
pub enum SaveReport {
    /// Nothing changed; nothing was uploaded.
    Unchanged,
    /// The folder was uploaded.
    Saved,
    /// The upload failed. This is logged as an error and the phase goes on
    /// with the next segment: it is not fatal.
    UploadFailed(Error),
}

/// The report of a segment, given the blob cache's answer to the upload
/// (`None` when `decide_save` found the folder unchanged and nothing was
/// uploaded).
pub fn save_report(upload: Option<Result<(), String>>) -> (r: SaveReport)
    ensures
        upload is None ==> r is Unchanged,
        upload matches Some(Ok(())) ==> r is Saved,
        upload matches Some(Err(m)) ==> (r matches SaveReport::UploadFailed(
            Error::HostCacheFailure(n),
        ) && n@ == m@),
{
    match upload {
        None => SaveReport::Unchanged,
        Some(Ok(())) => SaveReport::Saved,
        Some(Err(m)) => SaveReport::UploadFailed(Error::HostCacheFailure(m)),
    }
}

} // verus!
