use vstd::prelude::*;
use crate::error::Error;
use crate::fingerprint::Ignores;
use vstd::string::StringSliceAdditionalSpecFns;

verus! {

/// One independently cached subtree of the Cargo home directory.
#[derive(Debug, Clone, Copy, PartialEq, Eq, Hash, Structural)]
pub enum CacheType {
    Indices,
    Crates,
    GitRepos,
}

/// The identifier of a segment, used in file names and in the `cache-only` input.
pub open spec fn spec_short_name(t: CacheType) -> Seq<char> {
    match t {
        CacheType::Indices => "indices"@,
        CacheType::Crates => "crates"@,
        CacheType::GitRepos => "git-repos"@,
    }
}

/// The human-readable label of a segment, used in cache keys and log lines.
pub open spec fn spec_friendly_name(t: CacheType) -> Seq<char> {
    match t {
        CacheType::Indices => "Registry indices"@,
        CacheType::Crates => "Crate files"@,
        CacheType::GitRepos => "Git repositories"@,
    }
}

/// The path components of a segment below the Cargo home.
pub open spec fn spec_relative_path(t: CacheType) -> Seq<Seq<char>> {
    match t {
        CacheType::Indices => seq!["registry"@, "index"@],
        CacheType::Crates => seq!["registry"@, "cache"@],
        CacheType::GitRepos => seq!["git"@, "db"@],
    }
}

/// Every segment, in the order in which the phases visit them.
pub open spec fn spec_all_types() -> Seq<CacheType> {
    seq![CacheType::Indices, CacheType::Crates, CacheType::GitRepos]
}

/// The segment whose short name is `s`, if any.
pub open spec fn spec_parse_type(s: Seq<char>) -> Option<CacheType> {
    if s == "indices"@ {
        Some(CacheType::Indices)
    } else if s == "crates"@ {
        Some(CacheType::Crates)
    } else if s == "git-repos"@ {
        Some(CacheType::GitRepos)
    } else {
        None
    }
}

/// The characters that `char::is_whitespace` accepts (Unicode White_Space).
pub open spec fn is_white(c: char) -> bool {
    let u = c as u32;
    (0x09 <= u <= 0x0d) || u == 0x20 || u == 0x85 || u == 0xa0 || u == 0x1680
        || (0x2000 <= u <= 0x200a) || u == 0x2028 || u == 0x2029 || u == 0x202f
        || u == 0x205f || u == 0x3000
}

/// The words of `s` after the partial word `cur`: maximal runs of
/// non-whitespace characters, in order.
pub open spec fn words_from(s: Seq<char>, cur: Seq<char>) -> Seq<Seq<char>>
    decreases s.len(),
{
    if s.len() == 0 {
        if cur.len() > 0 { seq![cur] } else { seq![] }
    } else if is_white(s[0]) {
        (if cur.len() > 0 { seq![cur] } else { seq![] }) + words_from(s.drop_first(), seq![])
    } else {
        words_from(s.drop_first(), cur.push(s[0]))
    }
}

/// The whitespace-separated words of `s`.
pub open spec fn words(s: Seq<char>) -> Seq<Seq<char>> {
    words_from(s, seq![])
}

/// The first word that names no segment.
pub open spec fn first_unknown(ws: Seq<Seq<char>>) -> Option<Seq<char>>
    decreases ws.len(),
{
    if ws.len() == 0 {
        None
    } else if spec_parse_type(ws[0]) is None {
        Some(ws[0])
    } else {
        first_unknown(ws.drop_first())
    }
}

/// `seq![t]` when one of the words names `t`, else the empty sequence.
pub open spec fn pick(t: CacheType, ws: Seq<Seq<char>>) -> Seq<CacheType> {
    if ws.contains(spec_short_name(t)) { seq![t] } else { seq![] }
}

/// The segments that the words name, each once, in registry order.
pub open spec fn selection_of(ws: Seq<Seq<char>>) -> Seq<CacheType> {
    pick(CacheType::Indices, ws) + pick(CacheType::Crates, ws) + pick(CacheType::GitRepos, ws)
}

/// What the `cache-only` input selects: every segment when it is absent or
/// holds no word; else the named segments, or the first word that names none.
pub open spec fn spec_types_to_cache(input: Option<Seq<char>>) -> Result<Seq<CacheType>, Seq<char>> {
    match input {
        None => Ok(spec_all_types()),
        Some(s) => {
            let ws = words(s);
            if ws.len() == 0 {
                Ok(spec_all_types())
            } else {
                match first_unknown(ws) {
                    Some(w) => Err(w),
                    None => Ok(selection_of(ws)),
                }
            }
        },
    }
}

/// The characters of an optional string.
pub open spec fn opt_view(input: Option<&str>) -> Option<Seq<char>> {
    match input {
        Some(s) => Some(s@),
        None => None,
    }
}

/// Whether `r` is the result that `spec_types_to_cache` gives for `input`.
pub open spec fn types_result_matches(
    input: Option<Seq<char>>,
    r: Result<Vec<CacheType>, Error>,
) -> bool {
    match r {
        Ok(v) => spec_types_to_cache(input) == Ok::<Seq<CacheType>, Seq<char>>(v@),
        Err(Error::ParseCacheableItem(w)) => spec_types_to_cache(input) == Err::<
            Seq<CacheType>,
            Seq<char>,
        >(w@),
        Err(_) => false,
    }
}

impl CacheType {
    /// The stable identifier of the segment.
    pub fn short_name(&self) -> (r: &'static str)
        ensures
            r@ == spec_short_name(*self),
    {
        match *self {
            CacheType::Indices => "indices",
            CacheType::Crates => "crates",
            CacheType::GitRepos => "git-repos",
        }
    }

    /// The human-readable label of the segment.
    pub fn friendly_name(&self) -> (r: &'static str)
        ensures
            r@ == spec_friendly_name(*self),
    {
        match *self {
            CacheType::Indices => "Registry indices",
            CacheType::Crates => "Crate files",
            CacheType::GitRepos => "Git repositories",
        }
    }

    /// The path components of the segment below the Cargo home.
    pub fn relative_path(&self) -> (r: Vec<String>)
        ensures
            r@.len() == 2,
            r@[0]@ == spec_relative_path(*self)[0],
            r@[1]@ == spec_relative_path(*self)[1],
    {
        let (a, b) = match *self {
            CacheType::Indices => ("registry", "index"),
            CacheType::Crates => ("registry", "cache"),
            CacheType::GitRepos => ("git", "db"),
        };
        let mut r: Vec<String> = Vec::new();
        r.push(String::from_str(a));
        r.push(String::from_str(b));
        r
    }

    /// The exclusion policy of the segment: the index keeps a timestamp file
    /// at its top level that changes on every update and says nothing of
    /// the contents.
    pub fn ignores(&self) -> (r: Ignores)
        ensures
            *self == CacheType::Indices ==> r@ == seq![(1nat, ".last-updated".spec_bytes())],
            *self != CacheType::Indices ==> r@ == Seq::<(nat, Seq<u8>)>::empty(),
    {
        let mut ignores = Ignores::new();
        match *self {
            CacheType::Indices => {
                ignores.add(1, ".last-updated");
                assert(ignores@ =~= seq![(1nat, ".last-updated".spec_bytes())]);
            },
            CacheType::Crates => {},
            CacheType::GitRepos => {},
        }
        ignores
    }

    /// Every segment, in registry order.
    pub fn all() -> (r: Vec<CacheType>)
        ensures
            r@ == spec_all_types(),
    {
        let r = vec![CacheType::Indices, CacheType::Crates, CacheType::GitRepos];
        assert(r@ =~= spec_all_types());
        r
    }

    /// The segment whose short name is `s`.
    pub fn from_short_name(s: &str) -> (r: Option<CacheType>)
        ensures
            r == spec_parse_type(s@),
    {
        if str_equal(s, "indices") {
            Some(CacheType::Indices)
        } else if str_equal(s, "crates") {
            Some(CacheType::Crates)
        } else if str_equal(s, "git-repos") {
            Some(CacheType::GitRepos)
        } else {
            None
        }
    }
}

/// Distinct segments have distinct short names, and each short name parses
/// back to its segment.
pub proof fn lemma_short_names_distinct()
    ensures
        forall|t: CacheType, u: CacheType|
            spec_short_name(t) == spec_short_name(u) ==> t == u,
        forall|t: CacheType| #[trigger] spec_parse_type(spec_short_name(t)) == Some(t),
{
    reveal_strlit("indices");
    reveal_strlit("crates");
    reveal_strlit("git-repos");
    assert("indices"@.len() == 7);
    assert("crates"@.len() == 6);
    assert("git-repos"@.len() == 9);
}

proof fn lemma_push_contains(s: Seq<Seq<char>>, a: Seq<char>)
    ensures
        forall|x: Seq<char>| #[trigger] s.push(a).contains(x) <==> (s.contains(x) || x == a),
{
    assert forall|x: Seq<char>| #[trigger] s.push(a).contains(x) <==> (s.contains(x) || x == a) by {
        if s.contains(x) {
            let k = choose|k: int| 0 <= k < s.len() && s[k] == x;
            assert(s.push(a)[k] == x);
        }
        if x == a {
            assert(s.push(a)[s.len() as int] == x);
        }
        if s.push(a).contains(x) {
            let k = choose|k: int| 0 <= k < s.len() + 1 && s.push(a)[k] == x;
            if k < s.len() {
                assert(s[k] == x);
            }
        }
    }
}

/// Character-wise equality of two strings.
fn str_equal(a: &str, b: &str) -> (r: bool)
    ensures
        r == (a@ == b@),
{
    let n = a.unicode_len();
    let m = b.unicode_len();
    if n != m {
        return false;
    }
    let mut i: usize = 0;
    while i < n
        invariant
            n == a@.len(),
            m == b@.len(),
            n == m,
            i <= n,
            forall|k: int| 0 <= k < i ==> a@[k] == b@[k],
        decreases n - i,
    {
        if a.get_char(i) != b.get_char(i) {
            return false;
        }
        i = i + 1;
    }
    assert(a@ =~= b@);
    true
}

/// Whether `c` is a whitespace character.
pub fn is_white_char(c: char) -> (r: bool)
    ensures
        r == is_white(c),
{
    let u = c as u32;
    (0x09 <= u && u <= 0x0d) || u == 0x20 || u == 0x85 || u == 0xa0 || u == 0x1680 || (0x2000
        <= u && u <= 0x200a) || u == 0x2028 || u == 0x2029 || u == 0x202f || u == 0x205f || u
        == 0x3000
}

/// Splits `s` into its whitespace-separated words.
pub fn split_words(s: &str) -> (r: Vec<String>)
    ensures
        r@.map_values(|w: String| w@) == words(s@),
{
    let n = s.unicode_len();
    let mut acc: Vec<String> = Vec::new();
    let mut cur = String::new();
    let mut i: usize = 0;
    assert(s@.skip(0) =~= s@);
    assert(cur@ =~= Seq::<char>::empty());
    assert(acc@.map_values(|w: String| w@) + words(s@) =~= words(s@));
    while i < n
        invariant
            n == s@.len(),
            i <= n,
            acc@.map_values(|w: String| w@) + words_from(s@.skip(i as int), cur@) == words(s@),
        decreases n - i,
    {
        let c = s.get_char(i);
        let ghost rest = s@.skip(i as int);
        assert(rest[0] == c);
        assert(rest.drop_first() =~= s@.skip(i + 1));
        if is_white_char(c) {
            if cur.unicode_len() > 0 {
                let ghost before = acc@;
                acc.push(cur);
                assert(acc@.map_values(|w: String| w@) =~= before.map_values(|w: String| w@)
                    + seq![cur@]);
                assert(acc@.map_values(|w: String| w@) + words_from(s@.skip(i + 1), seq![])
                    =~= before.map_values(|w: String| w@) + (seq![cur@] + words_from(
                    s@.skip(i + 1),
                    seq![],
                )));
            } else {
                assert(seq![] + words_from(s@.skip(i + 1), seq![]) =~= words_from(
                    s@.skip(i + 1),
                    seq![],
                ));
            }
            cur = String::new();
        } else {
            let one = s.substring_char(i, i + 1);
            assert(one@ =~= seq![c]);
            let ghost old_cur = cur@;
            cur.append(one);
            assert(cur@ =~= old_cur.push(c));
        }
        i = i + 1;
    }
    assert(s@.skip(n as int).len() == 0);
    if cur.unicode_len() > 0 {
        let ghost before = acc@;
        acc.push(cur);
        assert(acc@.map_values(|w: String| w@) =~= before.map_values(|w: String| w@) + seq![cur@]);
    } else {
        assert(acc@.map_values(|w: String| w@) + seq![] =~= acc@.map_values(|w: String| w@));
    }
    acc
}

/// Which segments to cache, given the `cache-only` input (`None` when it is
/// absent). Duplicate words are ignored; the result is in registry order.
pub fn get_types_to_cache(input: Option<&str>) -> (r: Result<Vec<CacheType>, Error>)
    ensures
        types_result_matches(opt_view(input), r),
{
    let s = match input {
        None => {
            return Ok(CacheType::all());
        },
        Some(s) => s,
    };
    assert(opt_view(input) == Some(s@));
    let ws = split_words(s);
    let ghost wv = ws@.map_values(|w: String| w@);
    if ws.len() == 0 {
        return Ok(CacheType::all());
    }
    let mut has_indices = false;
    let mut has_crates = false;
    let mut has_git = false;
    let mut i: usize = 0;
    assert(wv.skip(0) =~= wv);
    assert(wv.take(0) =~= Seq::<Seq<char>>::empty());
    while i < ws.len()
        invariant
            wv == ws@.map_values(|w: String| w@),
            wv == words(s@),
            opt_view(input) == Some(s@),
            wv.len() > 0,
            i <= ws@.len(),
            first_unknown(wv) == first_unknown(wv.skip(i as int)),
            has_indices == wv.take(i as int).contains(spec_short_name(CacheType::Indices)),
            has_crates == wv.take(i as int).contains(spec_short_name(CacheType::Crates)),
            has_git == wv.take(i as int).contains(spec_short_name(CacheType::GitRepos)),
            forall|k: int| 0 <= k < i ==> spec_parse_type(#[trigger] wv[k]) is Some,
        decreases ws@.len() - i,
    {
        let w = &ws[i];
        assert(wv[i as int] == w@);
        assert(wv.skip(i as int)[0] == w@);
        assert(wv.skip(i as int).drop_first() =~= wv.skip(i + 1));
        assert(wv.take(i + 1) =~= wv.take(i as int).push(w@));
        proof {
            lemma_push_contains(wv.take(i as int), w@);
        }
        match CacheType::from_short_name(w.as_str()) {
            None => {
                assert(first_unknown(wv.skip(i as int)) == Some(w@));
                let e = w.clone();
                return Err(Error::ParseCacheableItem(e));
            },
            Some(t) => {
                proof {
                    lemma_short_names_distinct();
                }
                assert(spec_short_name(t) == w@);
                assert(forall|u: CacheType| u != t ==> spec_short_name(u) != w@);
                match t {
                    CacheType::Indices => {
                        has_indices = true;
                    },
                    CacheType::Crates => {
                        has_crates = true;
                    },
                    CacheType::GitRepos => {
                        has_git = true;
                    },
                }
            },
        }
        i = i + 1;
    }
    assert(wv.take(i as int) =~= wv);
    assert(wv.skip(i as int).len() == 0);
    let mut r: Vec<CacheType> = Vec::new();
    if has_indices {
        r.push(CacheType::Indices);
    }
    if has_crates {
        r.push(CacheType::Crates);
    }
    if has_git {
        r.push(CacheType::GitRepos);
    }
    assert(r@ =~= selection_of(wv));
    Ok(r)
}

proof fn lemma_first_unknown_none(ws: Seq<Seq<char>>)
    ensures
        first_unknown(ws) is None <==> forall|i: int|
            0 <= i < ws.len() ==> spec_parse_type(#[trigger] ws[i]) is Some,
    decreases ws.len(),
{
    if ws.len() > 0 {
        lemma_first_unknown_none(ws.drop_first());
        if first_unknown(ws) is None {
            assert forall|i: int| 0 <= i < ws.len() implies spec_parse_type(
                #[trigger] ws[i],
            ) is Some by {
                if i > 0 {
                    assert(ws[i] == ws.drop_first()[i - 1]);
                }
            }
        }
        if forall|i: int| 0 <= i < ws.len() ==> spec_parse_type(#[trigger] ws[i]) is Some {
            assert forall|i: int| 0 <= i < ws.drop_first().len() implies spec_parse_type(
                #[trigger] ws.drop_first()[i],
            ) is Some by {
                assert(ws.drop_first()[i] == ws[i + 1]);
            }
        }
    }
}

/// The selection depends on the input only through the set of its words:
/// reordering or repeating known segment names selects the same segments,
/// in the same order.
pub proof fn lemma_selection_depends_on_word_set(a: Seq<char>, b: Seq<char>)
    requires
        forall|w: Seq<char>| words(a).contains(w) <==> words(b).contains(w),
        first_unknown(words(a)) is None,
    ensures
        spec_types_to_cache(Some(a)) == spec_types_to_cache(Some(b)),
{
    let wa = words(a);
    let wb = words(b);
    lemma_first_unknown_none(wa);
    lemma_first_unknown_none(wb);
    assert forall|i: int| 0 <= i < wb.len() implies spec_parse_type(#[trigger] wb[i]) is Some by {
        assert(wb.contains(wb[i]));
        let k = choose|k: int| 0 <= k < wa.len() && wa[k] == wb[i];
        assert(spec_parse_type(wa[k]) is Some);
    }
    if wa.len() == 0 && wb.len() > 0 {
        assert(wb.contains(wb[0]));
    }
    if wb.len() == 0 && wa.len() > 0 {
        assert(wa.contains(wa[0]));
    }
    assert(selection_of(wa) =~= selection_of(wb));
}

} // verus!
