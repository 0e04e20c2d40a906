use vstd::prelude::*;
use crate::error::Error;

verus! {

/// What the restore phase records for the save phase: the absolute folder
/// path of a segment and its fingerprint at the end of the restore.
#[derive(Debug, Clone)]
pub struct CachedFolderInfo {
    pub path: String,
    pub fingerprint: u64,
}

/// The first line of a record, up to the opening quote of the path.
pub open spec fn path_key() -> Seq<char> {
    seq!['p', 'a', 't', 'h', ' ', '=', ' ', '"']
}

/// What stands between the closing quote of the path and the digits.
pub open spec fn fingerprint_key() -> Seq<char> {
    seq!['\n', 'f', 'i', 'n', 'g', 'e', 'r', 'p', 'r', 'i', 'n', 't', ' ', '=', ' ']
}

/// A character inside the quoted path: backslash and quote take a backslash
/// before them.
pub open spec fn escape_char(c: char) -> Seq<char> {
    if c == '\\' || c == '"' {
        seq!['\\', c]
    } else {
        seq![c]
    }
}

/// The quoted form of a path, without its quotes.
pub open spec fn escape(s: Seq<char>) -> Seq<char>
    decreases s.len(),
{
    if s.len() == 0 {
        seq![]
    } else {
        escape_char(s[0]) + escape(s.drop_first())
    }
}

/// The decimal digit for `d < 10`.
pub open spec fn digit_char(d: nat) -> char {
    if d == 0 {
        '0'
    } else if d == 1 {
        '1'
    } else if d == 2 {
        '2'
    } else if d == 3 {
        '3'
    } else if d == 4 {
        '4'
    } else if d == 5 {
        '5'
    } else if d == 6 {
        '6'
    } else if d == 7 {
        '7'
    } else if d == 8 {
        '8'
    } else {
        '9'
    }
}

/// The decimal form of `n`, without leading zeros.
pub open spec fn decimal(n: nat) -> Seq<char>
    decreases n,
{
    if n < 10 {
        seq![digit_char(n)]
    } else {
        decimal(n / 10).push(digit_char(n % 10))
    }
}

/// The text of a record.
pub open spec fn spec_encode(path: Seq<char>, fingerprint: u64) -> Seq<char> {
    path_key() + escape(path) + seq!['"'] + fingerprint_key() + decimal(fingerprint as nat)
        + seq!['\n']
}

/// Whether `c` is a decimal digit.
pub open spec fn is_digit(c: char) -> bool {
    '0' <= c && c <= '9'
}

/// The value of a run of decimal digits.
pub open spec fn digits_value(ds: Seq<char>) -> nat
    decreases ds.len(),
{
    if ds.len() == 0 {
        0
    } else {
        digits_value(ds.drop_last()) * 10 + ((ds.last() as u32) - ('0' as u32)) as nat
    }
}

/// Reads a quoted path up to and including its closing quote: the path and
/// how many characters it took, or `None` when the quote never closes or a
/// backslash stands before anything but a backslash or a quote.
pub open spec fn unescape(s: Seq<char>) -> Option<(Seq<char>, nat)>
    decreases s.len(),
{
    if s.len() == 0 {
        None
    } else if s[0] == '"' {
        Some((seq![], 1))
    } else if s[0] == '\\' {
        if s.len() >= 2 && (s[1] == '\\' || s[1] == '"') {
            match unescape(s.skip(2)) {
                Some((p, k)) => Some((seq![s[1]] + p, k + 2)),
                None => None,
            }
        } else {
            None
        }
    } else {
        match unescape(s.drop_first()) {
            Some((p, k)) => Some((seq![s[0]] + p, k + 1)),
            None => None,
        }
    }
}

/// Reads the digits that end a record: one to twenty digits, then a line
/// break and nothing more, of a value that fits in 64 bits.
pub open spec fn decode_number(s: Seq<char>) -> Option<u64> {
    if s.len() >= 2 && s.last() == '\n' {
        let ds = s.drop_last();
        if ds.len() <= 20 && (forall|i: int| 0 <= i < ds.len() ==> is_digit(#[trigger] ds[i]))
            && digits_value(ds) <= u64::MAX {
            Some(digits_value(ds) as u64)
        } else {
            None
        }
    } else {
        None
    }
}

/// What the text of a record reads as.
pub open spec fn spec_decode(t: Seq<char>) -> Option<(Seq<char>, u64)> {
    if t.len() >= 8 && t.take(8) == path_key() {
        match unescape(t.skip(8)) {
            None => None,
            Some((p, k)) => {
                let rest = t.skip(8 + k as int);
                if rest.len() >= 15 && rest.take(15) == fingerprint_key() {
                    match decode_number(rest.skip(15)) {
                        Some(n) => Some((p, n)),
                        None => None,
                    }
                } else {
                    None
                }
            },
        }
    } else {
        None
    }
}

/// Unescaping undoes escaping, and stops at the quote that follows.
proof fn lemma_unescape_escape(p: Seq<char>, tail: Seq<char>)
    requires
        tail.len() > 0,
        tail[0] == '"',
    ensures
        unescape(escape(p) + tail) == Some((p, (escape(p).len() + 1) as nat)),
    decreases p.len(),
{
    if p.len() == 0 {
        assert(escape(p) + tail =~= tail);
    } else {
        let c = p[0];
        let rest = escape(p.drop_first()) + tail;
        lemma_unescape_escape(p.drop_first(), tail);
        let s = escape(p) + tail;
        assert(s =~= escape_char(c) + rest);
        if c == '\\' || c == '"' {
            assert(s[0] == '\\' && s[1] == c);
            assert(s.skip(2) =~= rest);
        } else {
            assert(s[0] == c);
            assert(s.drop_first() =~= rest);
        }
        assert(seq![c] + p.drop_first() =~= p);
    }
}

/// `10` to the power `k`.
pub open spec fn pow10(k: nat) -> nat
    decreases k,
{
    if k == 0 {
        1
    } else {
        10 * pow10((k - 1) as nat)
    }
}

proof fn lemma_digit_char(d: nat)
    requires
        d < 10,
    ensures
        is_digit(digit_char(d)),
        ((digit_char(d) as u32) - ('0' as u32)) as nat == d,
{
}

/// The decimal form of `n` is a run of digits whose value is `n`, and it has
/// at most `k` digits when `n < 10^k`.
proof fn lemma_decimal(n: nat, k: nat)
    requires
        n < pow10(k),
        k >= 1,
    ensures
        1 <= decimal(n).len() <= k,
        forall|i: int| 0 <= i < decimal(n).len() ==> is_digit(#[trigger] decimal(n)[i]),
        digits_value(decimal(n)) == n,
    decreases n,
{
    if n < 10 {
        lemma_digit_char(n);
        let d = decimal(n);
        assert(d == seq![digit_char(n)]);
        assert(d.drop_last() =~= Seq::<char>::empty());
        assert(d.last() == digit_char(n));
        assert(digits_value(d.drop_last()) == 0);
    } else {
        let km = (k - 1) as nat;
        if k == 1 {
            assert(pow10(1) == 10 * pow10(0));
        }
        assert(km >= 1);
        assert(n / 10 < pow10(km)) by (nonlinear_arith)
            requires
                n < 10 * pow10(km),
        ;
        lemma_decimal(n / 10, km);
        lemma_digit_char(n % 10);
        let d = decimal(n);
        assert(d.drop_last() =~= decimal(n / 10));
        assert(n == (n / 10) * 10 + n % 10) by (nonlinear_arith);
    }
}

proof fn lemma_pow10_20()
    ensures
        pow10(20) == 100_000_000_000_000_000_000,
{
    reveal_with_fuel(pow10, 21);
}

/// Reading a record back gives the path and fingerprint it was written with.
pub proof fn lemma_sidecar_round_trip(path: Seq<char>, fingerprint: u64)
    ensures
        spec_decode(spec_encode(path, fingerprint)) == Some((path, fingerprint)),
{
    let t = spec_encode(path, fingerprint);
    let e = escape(path);
    let num = decimal(fingerprint as nat);
    let tail = seq!['"'] + fingerprint_key() + num + seq!['\n'];
    assert(t =~= path_key() + (e + tail));
    assert(t.take(8) =~= path_key());
    assert(t.skip(8) =~= e + tail);
    lemma_unescape_escape(path, tail);
    let k = e.len() + 1;
    let rest = t.skip(8 + k as int);
    assert(rest =~= fingerprint_key() + (num + seq!['\n']));
    assert(rest.take(15) =~= fingerprint_key());
    assert(rest.skip(15) =~= num + seq!['\n']);
    lemma_pow10_20();
    lemma_decimal(fingerprint as nat, 20);
    assert((num + seq!['\n']).drop_last() =~= num);
}

/// The one-character string for digit `d`.
fn digit_str(d: u64) -> (r: &'static str)
    requires
        d < 10,
    ensures
        r@ == seq![digit_char(d as nat)],
{
    proof {
        reveal_strlit("0");
        reveal_strlit("1");
        reveal_strlit("2");
        reveal_strlit("3");
        reveal_strlit("4");
        reveal_strlit("5");
        reveal_strlit("6");
        reveal_strlit("7");
        reveal_strlit("8");
        reveal_strlit("9");
    }
    let r = if d == 0 {
        "0"
    } else if d == 1 {
        "1"
    } else if d == 2 {
        "2"
    } else if d == 3 {
        "3"
    } else if d == 4 {
        "4"
    } else if d == 5 {
        "5"
    } else if d == 6 {
        "6"
    } else if d == 7 {
        "7"
    } else if d == 8 {
        "8"
    } else {
        "9"
    };
    assert(r@ =~= seq![digit_char(d as nat)]);
    r
}

/// Appends the decimal form of `n` to `out`.
fn push_decimal(out: &mut String, n: u64)
    ensures
        final(out)@ == old(out)@ + decimal(n as nat),
    decreases n,
{
    if n >= 10 {
        push_decimal(out, n / 10);
    }
    let ghost before = out@;
    out.append(digit_str(n % 10));
    if n >= 10 {
        assert(final(out)@ =~= old(out)@ + decimal(n as nat));
    } else {
        assert(final(out)@ =~= old(out)@ + decimal(n as nat));
    }
}

/// The text of the record `info`.
pub fn encode_record(info: &CachedFolderInfo) -> (r: String)
    ensures
        r@ == spec_encode(info.path@, info.fingerprint),
{
    proof {
        reveal_strlit("path = \"");
        reveal_strlit("\\\\");
        reveal_strlit("\\\"");
        reveal_strlit("\"\nfingerprint = ");
        reveal_strlit("\n");
    }
    let mut out = String::from_str("path = \"");
    assert(out@ =~= path_key());
    let p = info.path.as_str();
    let n = p.unicode_len();
    let mut i: usize = 0;
    assert(escape(p@.take(0)) =~= Seq::<char>::empty());
    while i < n
        invariant
            n == p@.len(),
            p@ == info.path@,
            i <= n,
            out@ == path_key() + escape(p@.take(i as int)),
        decreases n - i,
    {
        let c = p.get_char(i);
        proof {
            lemma_escape_push(p@.take(i as int), c);
        }
        assert(p@.take(i + 1) =~= p@.take(i as int).push(c));
        let ghost before = out@;
        if c == '\\' {
            let two = "\\\\";
            proof {
                reveal_strlit("\\\\");
            }
            assert(two@ =~= seq!['\\', '\\']);
            out.append(two);
        } else if c == '"' {
            let two = "\\\"";
            proof {
                reveal_strlit("\\\"");
            }
            assert(two@ =~= seq!['\\', '"']);
            out.append(two);
        } else {
            let one = p.substring_char(i, i + 1);
            assert(one@ =~= seq![c]);
            out.append(one);
        }
        assert(out@ =~= before + escape_char(c));
        i = i + 1;
    }
    assert(p@.take(n as int) =~= p@);
    out.append("\"\nfingerprint = ");
    push_decimal(&mut out, info.fingerprint);
    out.append("\n");
    assert(out@ =~= spec_encode(info.path@, info.fingerprint));
    out
}

proof fn lemma_escape_push(s: Seq<char>, c: char)
    ensures
        escape(s.push(c)) == escape(s) + escape_char(c),
    decreases s.len(),
{
    if s.len() == 0 {
        assert(s.push(c).drop_first() =~= Seq::<char>::empty());
        assert(s.push(c)[0] == c);
        assert(escape(Seq::<char>::empty()) =~= Seq::<char>::empty());
        assert(escape(s) =~= Seq::<char>::empty());
        assert(escape(s.push(c)) =~= escape_char(c));
    } else {
        assert(s.push(c).drop_first() =~= s.drop_first().push(c));
        lemma_escape_push(s.drop_first(), c);
        assert(escape(s.push(c)) =~= escape(s) + escape_char(c));
    }
}

/// Whether `t` holds the characters of `lit` from position `i` on.
fn holds_at(t: &str, n: usize, i: usize, lit: &str) -> (r: bool)
    requires
        n == t@.len(),
        i <= n,
    ensures
        r == (i + lit@.len() <= n && t@.subrange(i as int, i + lit@.len()) == lit@),
{
    let m = lit.unicode_len();
    if m > n - i {
        return false;
    }
    let mut k: usize = 0;
    while k < m
        invariant
            m == lit@.len(),
            i + m <= n,
            n == t@.len(),
            k <= m,
            forall|q: int| 0 <= q < k ==> t@[i + q] == lit@[q],
        decreases m - k,
    {
        if t.get_char(i + k) != lit.get_char(k) {
            assert(t@.subrange(i as int, i + m)[k as int] != lit@[k as int]);
            return false;
        }
        k = k + 1;
    }
    assert(t@.subrange(i as int, i + m) =~= lit@);
    true
}

/// Reads the quoted path that starts at `start`: the path and the position
/// just after its closing quote.
fn read_quoted(t: &str, n: usize, start: usize) -> (r: Option<(String, usize)>)
    requires
        n == t@.len(),
        start <= n,
    ensures
        match unescape(t@.skip(start as int)) {
            None => r is None,
            Some((p, k)) => r matches Some((q, e)) && q@ == p && e == start + k,
        },
        r matches Some((q, e)) ==> e <= n,
{
    let mut out = String::new();
    let mut i: usize = start;
    while i < n
        invariant
            n == t@.len(),
            start <= i <= n,
            unescape(t@.skip(start as int)) == match unescape(t@.skip(i as int)) {
                None => None,
                Some((p, k)) => Some((out@ + p, (k + (i - start)) as nat)),
            },
        decreases n - i,
    {
        let ghost rest = t@.skip(i as int);
        let c = t.get_char(i);
        assert(rest[0] == c);
        if c == '"' {
            assert(out@ + seq![] =~= out@);
            return Some((out, i + 1));
        } else if c == '\\' {
            if i + 1 < n {
                let d = t.get_char(i + 1);
                assert(rest[1] == d);
                if d == '\\' || d == '"' {
                    let one = t.substring_char(i + 1, i + 2);
                    assert(one@ =~= seq![d]);
                    assert(rest.skip(2) =~= t@.skip(i + 2));
                    let ghost before = out@;
                    out.append(one);
                    proof {
                        match unescape(t@.skip(i + 2)) {
                            None => {},
                            Some((p, k)) => {
                                assert(before + (seq![d] + p) =~= out@ + p);
                            },
                        }
                    }
                    i = i + 2;
                } else {
                    return None;
                }
            } else {
                return None;
            }
        } else {
            let one = t.substring_char(i, i + 1);
            assert(one@ =~= seq![c]);
            assert(rest.drop_first() =~= t@.skip(i + 1));
            let ghost before = out@;
            out.append(one);
            proof {
                match unescape(t@.skip(i + 1)) {
                    None => {},
                    Some((p, k)) => {
                        assert(before + (seq![c] + p) =~= out@ + p);
                    },
                }
            }
            i = i + 1;
        }
    }
    assert(t@.skip(i as int).len() == 0);
    None
}

proof fn lemma_pow10_mono(a: nat, b: nat)
    requires
        a <= b,
    ensures
        pow10(a) <= pow10(b),
    decreases b,
{
    if a < b {
        lemma_pow10_mono(a, (b - 1) as nat);
    }
}

/// Reads the number that ends a record, from position `start` on.
fn read_number(t: &str, n: usize, start: usize) -> (r: Option<u64>)
    requires
        n == t@.len(),
        start <= n,
    ensures
        r == decode_number(t@.skip(start as int)),
{
    let ghost s = t@.skip(start as int);
    if n - start < 2 || t.get_char(n - 1) != '\n' {
        return None;
    }
    assert(s.last() == t@[n - 1]);
    let ghost ds = s.drop_last();
    let len = n - 1 - start;
    if len > 20 {
        return None;
    }
    let mut v: u128 = 0;
    let mut k: usize = 0;
    assert(ds.take(0) =~= Seq::<char>::empty());
    while k < len
        invariant
            n == t@.len(),
            start + len + 1 == n,
            len <= 20,
            ds == t@.skip(start as int).drop_last(),
            ds.len() == len,
            k <= len,
            v == digits_value(ds.take(k as int)),
            v < pow10(k as nat),
            forall|q: int| 0 <= q < k ==> is_digit(#[trigger] ds[q]),
        decreases len - k,
    {
        let c = t.get_char(start + k);
        assert(ds[k as int] == c);
        if !('0' <= c && c <= '9') {
            return None;
        }
        proof {
            lemma_pow10_mono((k + 1) as nat, 20);
            lemma_pow10_20();
        }
        let d = (c as u32 - '0' as u32) as u128;
        assert(v * 10 + d < pow10((k + 1) as nat)) by (nonlinear_arith)
            requires
                v < pow10(k as nat),
                d < 10,
                pow10((k + 1) as nat) == 10 * pow10(k as nat),
        ;
        assert(ds.take(k + 1).drop_last() =~= ds.take(k as int));
        assert(ds.take(k + 1).last() == c);
        v = v * 10 + d;
        k = k + 1;
    }
    assert(ds.take(len as int) =~= ds);
    if v > u64::MAX as u128 {
        None
    } else {
        Some(v as u64)
    }
}

/// Reads the text of a record.
pub fn decode_record(text: &str) -> (r: Result<CachedFolderInfo, Error>)
    ensures
        match spec_decode(text@) {
            Some((p, f)) => r is Ok && r->Ok_0.path@ == p && r->Ok_0.fingerprint == f,
            None => r is Err && r->Err_0 is Serialization,
        },
{
    proof {
        reveal_strlit("path = \"");
        reveal_strlit("\nfingerprint = ");
    }
    let n = text.unicode_len();
    let head = "path = \"";
    assert(head@ =~= path_key());
    if !holds_at(text, n, 0, head) {
        assert(n >= 8 ==> text@.take(8) =~= text@.subrange(0, 8));
        return Err(Error::Serialization(String::from_str("a sidecar record must start with the path")));
    }
    assert(text@.take(8) =~= text@.subrange(0, 8));
    let (path, j) = match read_quoted(text, n, 8) {
        None => {
            return Err(Error::Serialization(String::from_str("the path of a sidecar record is not closed")));
        },
        Some(x) => x,
    };
    let key = "\nfingerprint = ";
    assert(key@ =~= fingerprint_key());
    let ghost rest = text@.skip(j as int);
    assert(rest.len() >= 15 ==> rest.take(15) =~= text@.subrange(j as int, j + 15));
    if !holds_at(text, n, j, key) {
        return Err(Error::Serialization(String::from_str("a sidecar record must give the fingerprint after the path")));
    }
    assert(rest.skip(15) =~= text@.skip(j + 15));
    match read_number(text, n, j + 15) {
        None => Err(Error::Serialization(String::from_str("the fingerprint of a sidecar record is not a 64-bit number"))),
        Some(fingerprint) => Ok(CachedFolderInfo { path, fingerprint }),
    }
}

} // verus!
