//! Character-sequence helpers: the text operations the rest of the library
//! needs, stated over the `Seq<char>` view of strings.

use vstd::prelude::*;

verus! {

/// The characters of `s`, in order, read with `str::chars`.
pub(crate) fn chars_of(s: &str) -> (res: Vec<char>)
    ensures
        res@ == s@,
{
    broadcast use vstd::string::axiom_spec_iter;
    let mut v: Vec<char> = Vec::new();
    for c in iter: s.chars()
        invariant
            v@ == iter.seq().take(iter.index() as int),
            iter.seq() == s@,
    {
        v.push(c);
    }
    v
}

/// A string made of the characters of `cs`, in order, collected by
/// `String::from_iter`. Claimed: its view is the characters given.
#[verifier::external_body]
pub(crate) fn string_from_chars(cs: &[char]) -> (res: String)
    ensures
        res@ == cs@,
{
    cs.iter().collect()
}

/// A copy of `s` as an owned string.
pub fn to_owned_string(s: &str) -> (res: String)
    ensures
        res@ == s@,
{
    let cs = chars_of(s);
    string_from_chars(cs.as_slice())
}

/// Lexicographic order on character sequences by code point, which is the
/// order of `String`'s `Ord` (UTF-8 byte order agrees with code point order).
pub open spec fn seq_lt(a: Seq<char>, b: Seq<char>) -> bool
    decreases a.len(),
{
    if b.len() == 0 {
        false
    } else if a.len() == 0 {
        true
    } else if (a[0] as u32) < (b[0] as u32) {
        true
    } else if a[0] == b[0] {
        seq_lt(a.drop_first(), b.drop_first())
    } else {
        false
    }
}

pub proof fn lemma_seq_lt_irreflexive(a: Seq<char>)
    ensures
        !seq_lt(a, a),
    decreases a.len(),
{
    if a.len() > 0 {
        lemma_seq_lt_irreflexive(a.drop_first());
    }
}

pub proof fn lemma_seq_lt_transitive(a: Seq<char>, b: Seq<char>, c: Seq<char>)
    requires
        seq_lt(a, b),
        seq_lt(b, c),
    ensures
        seq_lt(a, c),
    decreases a.len(),
{
    if a.len() > 0 && b.len() > 0 && c.len() > 0 {
        if a[0] == b[0] && b[0] == c[0] {
            lemma_seq_lt_transitive(a.drop_first(), b.drop_first(), c.drop_first());
        }
    }
}

pub proof fn lemma_seq_lt_total(a: Seq<char>, b: Seq<char>)
    requires
        a != b,
    ensures
        seq_lt(a, b) || seq_lt(b, a),
    decreases a.len(),
{
    if a.len() > 0 && b.len() > 0 && a[0] == b[0] {
        if a.drop_first() == b.drop_first() {
            assert(a =~= seq![a[0]] + a.drop_first());
            assert(b =~= seq![b[0]] + b.drop_first());
        }
        lemma_seq_lt_total(a.drop_first(), b.drop_first());
    } else if a.len() > 0 && b.len() > 0 {
        vstd::utf8::char_u32_cast(a[0], a[0] as u32);
        vstd::utf8::char_u32_cast(b[0], b[0] as u32);
        assert((a[0] as u32) != (b[0] as u32));
    } else if a.len() == 0 && b.len() == 0 {
        assert(a =~= b);
    }
}

pub proof fn lemma_seq_lt_asymmetric(a: Seq<char>, b: Seq<char>)
    requires
        seq_lt(a, b),
    ensures
        !seq_lt(b, a),
{
    if seq_lt(b, a) {
        lemma_seq_lt_transitive(a, b, a);
        lemma_seq_lt_irreflexive(a);
    }
}

/// `a` sorts before `b` in code point order.
pub fn string_lt(a: &String, b: &String) -> (res: bool)
    ensures
        res == seq_lt(a@, b@),
{
    let x = chars_of(a.as_str());
    let y = chars_of(b.as_str());
    let mut i: usize = 0;
    proof {
        assert(a@.subrange(0, a@.len() as int) =~= a@);
        assert(b@.subrange(0, b@.len() as int) =~= b@);
    }
    while i < x.len() && i < y.len()
        invariant
            i <= x.len(),
            i <= y.len(),
            x@ == a@,
            y@ == b@,
            forall|k: int| 0 <= k < i ==> x@[k] == y@[k],
            seq_lt(a@, b@) == seq_lt(a@.subrange(i as int, a@.len() as int), b@.subrange(i as int, b@.len() as int)),
        decreases x.len() - i,
    {
        if (x[i] as u32) < (y[i] as u32) {
            proof {
                assert(a@.subrange(i as int, a@.len() as int)[0] == x@[i as int]);
                assert(b@.subrange(i as int, b@.len() as int)[0] == y@[i as int]);
            }
            return true;
        }
        if x[i] != y[i] {
            proof {
                assert(a@.subrange(i as int, a@.len() as int)[0] == x@[i as int]);
                assert(b@.subrange(i as int, b@.len() as int)[0] == y@[i as int]);
            }
            return false;
        }
        proof {
            let sa = a@.subrange(i as int, a@.len() as int);
            let sb = b@.subrange(i as int, b@.len() as int);
            assert(sa.drop_first() =~= a@.subrange(i + 1, a@.len() as int));
            assert(sb.drop_first() =~= b@.subrange(i + 1, b@.len() as int));
        }
        i = i + 1;
    }
    i < y.len()
}

/// Unicode `White_Space`: the characters that `str::trim` removes and that
/// the regex class `\s` matches.
pub open spec fn is_ws(c: char) -> bool {
    let n = c as u32;
    (0x09 <= n && n <= 0x0d) || n == 0x20 || n == 0x85 || n == 0xa0 || n == 0x1680 || (0x2000 <= n
        && n <= 0x200a) || n == 0x2028 || n == 0x2029 || n == 0x202f || n == 0x205f || n == 0x3000
}

pub fn char_is_ws(c: char) -> (res: bool)
    ensures
        res == is_ws(c),
{
    let n = c as u32;
    (0x09 <= n && n <= 0x0d) || n == 0x20 || n == 0x85 || n == 0xa0 || n == 0x1680 || (0x2000 <= n
        && n <= 0x200a) || n == 0x2028 || n == 0x2029 || n == 0x202f || n == 0x205f || n == 0x3000
}

/// Number of leading whitespace characters.
pub open spec fn lead_ws(s: Seq<char>) -> nat
    decreases s.len(),
{
    if s.len() == 0 {
        0
    } else if is_ws(s[0]) {
        1 + lead_ws(s.drop_first())
    } else {
        0
    }
}

/// Number of trailing whitespace characters.
pub open spec fn trail_ws(s: Seq<char>) -> nat
    decreases s.len(),
{
    if s.len() == 0 {
        0
    } else if is_ws(s.last()) {
        1 + trail_ws(s.drop_last())
    } else {
        0
    }
}

/// `s` without leading and trailing whitespace (`str::trim`).
pub open spec fn seq_trim(s: Seq<char>) -> Seq<char> {
    if lead_ws(s) >= s.len() {
        Seq::empty()
    } else {
        s.subrange(lead_ws(s) as int, s.len() - trail_ws(s))
    }
}

proof fn lemma_lead_ws(s: Seq<char>, i: int)
    requires
        0 <= i <= s.len(),
        forall|k: int| 0 <= k < i ==> is_ws(s[k]),
        i == s.len() || !is_ws(s[i]),
    ensures
        lead_ws(s) == i,
    decreases i,
{
    if i > 0 {
        lemma_lead_ws(s.drop_first(), i - 1);
    }
}

proof fn lemma_trail_ws(s: Seq<char>, j: int)
    requires
        0 <= j <= s.len(),
        forall|k: int| s.len() - j <= k < s.len() ==> is_ws(s[k]),
        j == s.len() || !is_ws(s[s.len() - j - 1]),
    ensures
        trail_ws(s) == j,
    decreases j,
{
    if j > 0 {
        lemma_trail_ws(s.drop_last(), j - 1);
    }
}

proof fn lemma_lead_prefix_all_ws(s: Seq<char>)
    ensures
        lead_ws(s) <= s.len(),
        forall|k: int| 0 <= k < lead_ws(s) ==> is_ws(s[k]),
        lead_ws(s) < s.len() ==> !is_ws(s[lead_ws(s) as int]),
    decreases s.len(),
{
    if s.len() > 0 {
        let t = s.drop_first();
        lemma_lead_prefix_all_ws(t);
        if is_ws(s[0]) {
            assert forall|k: int| 0 <= k < lead_ws(s) implies is_ws(s[k]) by {
                if k > 0 {
                    assert(s[k] == t[k - 1]);
                }
            }
            if lead_ws(s) < s.len() {
                assert(s[lead_ws(s) as int] == t[lead_ws(t) as int]);
            }
        }
    }
}

proof fn lemma_trail_prefix_all_ws(s: Seq<char>)
    ensures
        trail_ws(s) <= s.len(),
        forall|k: int| s.len() - trail_ws(s) <= k < s.len() ==> is_ws(s[k]),
    decreases s.len(),
{
    if s.len() > 0 {
        let t = s.drop_last();
        lemma_trail_prefix_all_ws(t);
        if is_ws(s.last()) {
            assert forall|k: int| s.len() - trail_ws(s) <= k < s.len() implies is_ws(s[k]) by {
                if k < s.len() - 1 {
                    assert(s[k] == t[k]);
                }
            }
        }
    }
}

pub proof fn lemma_lead_trail_bounds(s: Seq<char>)
    ensures
        lead_ws(s) <= s.len(),
        trail_ws(s) <= s.len(),
        lead_ws(s) < s.len() ==> lead_ws(s) + trail_ws(s) <= s.len(),
        forall|k: int| 0 <= k < lead_ws(s) ==> is_ws(s[k]),
        lead_ws(s) < s.len() ==> !is_ws(s[lead_ws(s) as int]),
{
    lemma_lead_prefix_all_ws(s);
    lemma_trail_prefix_all_ws(s);
    if lead_ws(s) < s.len() && lead_ws(s) + trail_ws(s) > s.len() {
        let l = lead_ws(s) as int;
        assert(is_ws(s[l]));
    }
}

/// `s` without leading and trailing whitespace (`str::trim`).
pub fn trim(s: &str) -> (res: String)
    ensures
        res@ == seq_trim(s@),
{
    let cs = chars_of(s);
    let n = cs.len();
    let mut i: usize = 0;
    while i < n && char_is_ws(cs[i])
        invariant
            i <= n,
            n == cs@.len(),
            forall|k: int| 0 <= k < i ==> is_ws(cs@[k]),
        decreases n - i,
    {
        i = i + 1;
    }
    proof {
        lemma_lead_ws(cs@, i as int);
    }
    if i == n {
        return string_from_chars(&[]);
    }
    let mut j: usize = 0;
    while j < n && char_is_ws(cs[n - 1 - j])
        invariant
            j <= n,
            n == cs@.len(),
            forall|k: int| n - j <= k < n ==> is_ws(cs@[k]),
        decreases n - j,
    {
        j = j + 1;
    }
    proof {
        lemma_trail_ws(cs@, j as int);
        lemma_lead_trail_bounds(cs@);
    }
    let sub = slice_chars(&cs, i, n - j);
    string_from_chars(sub.as_slice())
}

/// The characters of `v` in positions `from..to`.
pub fn slice_chars(v: &Vec<char>, from: usize, to: usize) -> (res: Vec<char>)
    requires
        from <= to <= v.len(),
    ensures
        res@ == v@.subrange(from as int, to as int),
{
    let mut out: Vec<char> = Vec::new();
    let mut k = from;
    while k < to
        invariant
            from <= k <= to,
            to <= v.len(),
            out@ == v@.subrange(from as int, k as int),
        decreases to - k,
    {
        out.push(v[k]);
        proof {
            assert(v@.subrange(from as int, k + 1) =~= v@.subrange(from as int, k as int).push(v@[k as int]));
        }
        k = k + 1;
    }
    out
}

/// `a` and `b` hold the same characters.
pub fn str_eq(a: &str, b: &str) -> (res: bool)
    ensures
        res == (a@ == b@),
{
    let x = chars_of(a);
    let y = chars_of(b);
    chars_eq(&x, &y)
}

/// `x` and `y` hold the same characters.
pub fn chars_eq(x: &Vec<char>, y: &Vec<char>) -> (res: bool)
    ensures
        res == (x@ == y@),
{
    if x.len() != y.len() {
        return false;
    }
    let mut i: usize = 0;
    while i < x.len()
        invariant
            i <= x.len(),
            x.len() == y.len(),
            forall|k: int| 0 <= k < i ==> x@[k] == y@[k],
        decreases x.len() - i,
    {
        if x[i] != y[i] {
            return false;
        }
        i = i + 1;
    }
    proof {
        assert(x@ =~= y@);
    }
    true
}

/// `s` begins with `p`.
pub open spec fn seq_starts_with(s: Seq<char>, p: Seq<char>) -> bool {
    p.len() <= s.len() && s.subrange(0, p.len() as int) == p
}

/// `s` ends with `p`.
pub open spec fn seq_ends_with(s: Seq<char>, p: Seq<char>) -> bool {
    p.len() <= s.len() && s.subrange(s.len() - p.len(), s.len() as int) == p
}

/// `p` occurs in `s` as a contiguous run.
pub open spec fn seq_contains_sub(s: Seq<char>, p: Seq<char>) -> bool {
    exists|i: int| 0 <= i && i + p.len() <= s.len() && #[trigger] s.subrange(i, i + p.len()) == p
}

/// `p` occurs in `s` at position `i`.
pub open spec fn occurs_at(s: Seq<char>, p: Seq<char>, i: int) -> bool {
    0 <= i && i + p.len() <= s.len() && s.subrange(i, i + p.len()) == p
}

fn chars_occur_at(x: &Vec<char>, p: &Vec<char>, i: usize) -> (res: bool)
    requires
        i + p.len() <= x.len(),
    ensures
        res == occurs_at(x@, p@, i as int),
{
    let mut k: usize = 0;
    while k < p.len()
        invariant
            k <= p.len(),
            i + p.len() <= x.len(),
            forall|m: int| 0 <= m < k ==> x@[i + m] == p@[m],
        decreases p.len() - k,
    {
        if x[i + k] != p[k] {
            proof {
                assert(x@.subrange(i as int, i + p.len())[k as int] != p@[k as int]);
            }
            return false;
        }
        k = k + 1;
    }
    proof {
        assert(x@.subrange(i as int, i + p.len()) =~= p@);
    }
    true
}

/// `s` begins with `p` (`str::starts_with`).
pub fn starts_with(s: &str, p: &str) -> (res: bool)
    ensures
        res == seq_starts_with(s@, p@),
{
    let x = chars_of(s);
    let y = chars_of(p);
    if y.len() > x.len() {
        return false;
    }
    chars_occur_at(&x, &y, 0)
}

/// `s` ends with `p` (`str::ends_with`).
pub fn ends_with(s: &str, p: &str) -> (res: bool)
    ensures
        res == seq_ends_with(s@, p@),
{
    let x = chars_of(s);
    let y = chars_of(p);
    if y.len() > x.len() {
        return false;
    }
    chars_occur_at(&x, &y, x.len() - y.len())
}

/// `p` occurs in `s` (`str::contains`).
pub fn contains_str(s: &str, p: &str) -> (res: bool)
    ensures
        res == seq_contains_sub(s@, p@),
{
    let x = chars_of(s);
    let y = chars_of(p);
    if y.len() > x.len() {
        proof {
            assert forall|i: int| 0 <= i && i + p@.len() <= s@.len() implies #[trigger] s@.subrange(i, i + p@.len()) != p@ by {}
        }
        return false;
    }
    if y.len() == 0 {
        proof {
            assert(s@.subrange(0, 0) =~= p@);
            assert(occurs_at(s@, p@, 0));
        }
        return true;
    }
    let mut i: usize = 0;
    while i <= x.len() - y.len()
        invariant
            0 < y.len() <= x.len(),
            x@ == s@,
            y@ == p@,
            forall|k: int| 0 <= k < i ==> !occurs_at(x@, y@, k),
        decreases x.len() - y.len() + 1 - i,
    {
        if chars_occur_at(&x, &y, i) {
            proof {
                assert(occurs_at(x@, y@, i as int));
                assert(s@.subrange(i as int, i + p@.len()) == p@);
            }
            return true;
        }
        i = i + 1;
    }
    proof {
        assert forall|k: int| 0 <= k && k + p@.len() <= s@.len() implies #[trigger] s@.subrange(k, k + p@.len()) != p@ by {
            assert(!occurs_at(x@, y@, k));
        }
    }
    false
}

/// `c` occurs in `s` (`str::contains` with a `char`).
pub fn contains_char(s: &str, c: char) -> (res: bool)
    ensures
        res == s@.contains(c),
{
    let x = chars_of(s);
    let mut i: usize = 0;
    while i < x.len()
        invariant
            i <= x.len(),
            x@ == s@,
            forall|k: int| 0 <= k < i ==> x@[k] != c,
        decreases x.len() - i,
    {
        if x[i] == c {
            proof {
                assert(s@[i as int] == c);
            }
            return true;
        }
        i = i + 1;
    }
    false
}

/// `s` without the prefix `p`, when `s` begins with it (`str::strip_prefix`).
pub fn strip_prefix(s: &str, p: &str) -> (res: Option<String>)
    ensures
        res is Some <==> seq_starts_with(s@, p@),
        res matches Some(r) ==> r@ == s@.subrange(p@.len() as int, s@.len() as int),
{
    if starts_with(s, p) {
        let x = chars_of(s);
        let y = chars_of(p);
        let rest = slice_chars(&x, y.len(), x.len());
        Some(string_from_chars(rest.as_slice()))
    } else {
        None
    }
}

/// `s` without the suffix `p`, when `s` ends with it (`str::strip_suffix`).
pub fn strip_suffix(s: &str, p: &str) -> (res: Option<String>)
    ensures
        res is Some <==> seq_ends_with(s@, p@),
        res matches Some(r) ==> r@ == s@.subrange(0, s@.len() - p@.len()),
{
    if ends_with(s, p) {
        let x = chars_of(s);
        let y = chars_of(p);
        let rest = slice_chars(&x, 0, x.len() - y.len());
        Some(string_from_chars(rest.as_slice()))
    } else {
        None
    }
}

/// The concatenation of `a` and `b`.
pub fn concat(a: &str, b: &str) -> (res: String)
    ensures
        res@ == a@ + b@,
{
    let mut x = chars_of(a);
    let mut y = chars_of(b);
    x.append(&mut y);
    string_from_chars(x.as_slice())
}

/// The concatenation of `a`, `b` and `c`.
pub fn concat3(a: &str, b: &str, c: &str) -> (res: String)
    ensures
        res@ == a@ + b@ + c@,
{
    let ab = concat(a, b);
    concat(ab.as_str(), c)
}

/// Decimal digits of `n`, most significant first, without leading zeros
/// (the text of `n.to_string()`).
pub open spec fn decimal(n: nat) -> Seq<char>
    decreases n,
{
    if n < 10 {
        seq![digit_char(n)]
    } else {
        decimal(n / 10).push(digit_char(n % 10))
    }
}

pub open spec fn digit_char(d: nat) -> char {
    if d == 0 { '0' }
    else if d == 1 { '1' }
    else if d == 2 { '2' }
    else if d == 3 { '3' }
    else if d == 4 { '4' }
    else if d == 5 { '5' }
    else if d == 6 { '6' }
    else if d == 7 { '7' }
    else if d == 8 { '8' }
    else { '9' }
}

fn digit(d: u64) -> (c: char)
    requires
        d < 10,
    ensures
        c == digit_char(d as nat),
{
    if d == 0 { '0' }
    else if d == 1 { '1' }
    else if d == 2 { '2' }
    else if d == 3 { '3' }
    else if d == 4 { '4' }
    else if d == 5 { '5' }
    else if d == 6 { '6' }
    else if d == 7 { '7' }
    else if d == 8 { '8' }
    else { '9' }
}

fn decimal_chars(n: u64) -> (res: Vec<char>)
    ensures
        res@ == decimal(n as nat),
    decreases n,
{
    if n < 10 {
        let mut v: Vec<char> = Vec::new();
        v.push(digit(n));
        proof {
            assert(v@ =~= seq![digit_char(n as nat)]);
        }
        v
    } else {
        let mut v = decimal_chars(n / 10);
        v.push(digit(n % 10));
        v
    }
}

/// The decimal text of `n` (`n.to_string()`).
pub fn u64_to_string(n: u64) -> (res: String)
    ensures
        res@ == decimal(n as nat),
{
    let v = decimal_chars(n);
    string_from_chars(v.as_slice())
}

/// `s` padded on the left with `'0'` up to `width` characters (`{:0width}`).
pub open spec fn zero_pad(s: Seq<char>, width: nat) -> Seq<char> {
    if s.len() >= width {
        s
    } else {
        Seq::new((width - s.len()) as nat, |_i: int| '0') + s
    }
}

/// The decimal text of `n`, zero-padded to `width` characters.
pub fn u64_to_padded(n: u64, width: usize) -> (res: String)
    ensures
        res@ == zero_pad(decimal(n as nat), width as nat),
{
    let digits = decimal_chars(n);
    if digits.len() >= width {
        return string_from_chars(digits.as_slice());
    }
    let mut v: Vec<char> = Vec::new();
    let pad = width - digits.len();
    let mut k: usize = 0;
    while k < pad
        invariant
            k <= pad,
            v@ == Seq::new(k as nat, |_i: int| '0'),
        decreases pad - k,
    {
        v.push('0');
        proof {
            assert(v@ =~= Seq::new((k + 1) as nat, |_i: int| '0'));
        }
        k = k + 1;
    }
    let mut d = digits;
    v.append(&mut d);
    string_from_chars(v.as_slice())
}


/// `c` with ASCII upper-case letters made lower case.
pub open spec fn ascii_lower(c: char) -> char {
    if 'A' <= c && c <= 'Z' {
        ((c as u32) + 32) as char
    } else {
        c
    }
}

/// `s` with ASCII upper-case letters made lower case (`to_ascii_lowercase`).
pub open spec fn seq_ascii_lower(s: Seq<char>) -> Seq<char> {
    s.map_values(|c: char| ascii_lower(c))
}

fn char_ascii_lower(c: char) -> (r: char)
    ensures
        r == ascii_lower(c),
{
    if 'A' <= c && c <= 'Z' {
        let n = (c as u32) + 32;
        proof {
            vstd::utf8::char_u32_cast(c, c as u32);
        }
        let r = char_from_u32_ascii(n);
        r
    } else {
        c
    }
}

/// The character with ASCII code `n`.
fn char_from_u32_ascii(n: u32) -> (r: char)
    requires
        n < 128,
    ensures
        r == n as char,
{
    let b: u8 = n as u8;
    b as char
}

/// `s` with ASCII letters made lower case.
pub fn to_ascii_lowercase(s: &str) -> (res: String)
    ensures
        res@ == seq_ascii_lower(s@),
{
    let cs = chars_of(s);
    let mut out: Vec<char> = Vec::new();
    let mut i: usize = 0;
    while i < cs.len()
        invariant
            i <= cs.len(),
            cs@ == s@,
            out@ == seq_ascii_lower(s@.subrange(0, i as int)),
        decreases cs.len() - i,
    {
        let c = char_ascii_lower(cs[i]);
        out.push(c);
        proof {
            assert(out@ =~= seq_ascii_lower(s@.subrange(0, i + 1)));
        }
        i = i + 1;
    }
    proof {
        assert(s@.subrange(0, s@.len() as int) =~= s@);
    }
    string_from_chars(out.as_slice())
}

/// Position of the last `c` in `s`, or -1.
pub open spec fn last_index_of(s: Seq<char>, c: char) -> int
    decreases s.len(),
{
    if s.len() == 0 {
        -1
    } else if s.last() == c {
        s.len() - 1
    } else {
        last_index_of(s.drop_last(), c)
    }
}

/// The file name `..`.
pub open spec fn parent_name() -> Seq<char> {
    seq!['.', '.']
}

/// The extension of a file name (`Path::extension`): the text after the last
/// dot, when that dot is not the first character; `..` has none.
pub open spec fn file_extension(name: Seq<char>) -> Option<Seq<char>> {
    let i = last_index_of(name, '.');
    if name == parent_name() || i <= 0 {
        None
    } else {
        Some(name.subrange(i + 1, name.len() as int))
    }
}

/// The stem of a file name (`Path::file_stem`): the name without its
/// extension and the dot before it.
pub open spec fn file_stem(name: Seq<char>) -> Seq<char> {
    let i = last_index_of(name, '.');
    if name == parent_name() || i <= 0 {
        name
    } else {
        name.subrange(0, i)
    }
}

/// The last `c` in `s` is at `j` when `s[j]` is `c` and none follows it;
/// with `j == -1`, when `s` has no `c`.
proof fn lemma_last_index_at(s: Seq<char>, c: char, j: int)
    requires
        -1 <= j < s.len(),
        j >= 0 ==> s[j] == c,
        forall|k: int| j < k < s.len() ==> s[k] != c,
    ensures
        last_index_of(s, c) == j,
    decreases s.len(),
{
    if s.len() > 0 && j < s.len() - 1 {
        assert(s.last() != c);
        let d = s.drop_last();
        assert forall|k: int| j < k < d.len() implies d[k] != c by {
            assert(d[k] == s[k]);
        }
        lemma_last_index_at(d, c, j);
    }
}

/// Position of the last dot in `cs`, or `cs.len()` when there is none.
fn last_dot(cs: &Vec<char>) -> (r: usize)
    ensures
        r == if last_index_of(cs@, '.') < 0 { cs@.len() as int } else { last_index_of(cs@, '.') },
        r <= cs@.len(),
        -1 <= last_index_of(cs@, '.') < cs@.len(),
{
    let mut i: usize = cs.len();
    while i > 0
        invariant
            i <= cs.len(),
            forall|k: int| i <= k < cs@.len() ==> cs@[k] != '.',
        decreases i,
    {
        if cs[i - 1] == '.' {
            proof {
                lemma_last_index_at(cs@, '.', i - 1);
            }
            return i - 1;
        }
        i = i - 1;
    }
    proof {
        lemma_last_index_at(cs@, '.', -1);
    }
    cs.len()
}

fn is_parent_name(cs: &Vec<char>) -> (r: bool)
    ensures
        r == (cs@ == parent_name()),
{
    if cs.len() == 2 && cs[0] == '.' && cs[1] == '.' {
        proof {
            assert(cs@ =~= parent_name());
        }
        true
    } else {
        false
    }
}

/// The extension of the file name `name`.
pub fn extension_of(name: &str) -> (res: Option<String>)
    ensures
        res matches Some(e) ==> file_extension(name@) == Some(e@),
        res is None ==> file_extension(name@) is None,
{
    let cs = chars_of(name);
    let i = last_dot(&cs);
    if is_parent_name(&cs) || i == cs.len() || i == 0 {
        None
    } else {
        let ext = slice_chars(&cs, i + 1, cs.len());
        Some(string_from_chars(ext.as_slice()))
    }
}

/// The stem of the file name `name`.
pub fn stem_of(name: &str) -> (res: String)
    ensures
        res@ == file_stem(name@),
{
    let cs = chars_of(name);
    let i = last_dot(&cs);
    if is_parent_name(&cs) || i == cs.len() || i == 0 {
        string_from_chars(cs.as_slice())
    } else {
        let stem = slice_chars(&cs, 0, i);
        string_from_chars(stem.as_slice())
    }
}

} // verus!
