//! Character-level text utilities: the string predicates, splitting, trimming,
//! numeral formatting and numeral parsing that the decoder's logic is written with.
use vstd::prelude::*;

verus! {

// ---------------------------------------------------------------------------
// Specifications
// ---------------------------------------------------------------------------

/// `p` is a prefix of `s`.
pub open spec fn starts_with(s: Seq<char>, p: Seq<char>) -> bool {
    p.len() <= s.len() && s.take(p.len() as int) == p
}

/// `p` is a suffix of `s`.
pub open spec fn ends_with(s: Seq<char>, p: Seq<char>) -> bool {
    p.len() <= s.len() && s.skip(s.len() - p.len()) == p
}

/// `p` occurs in `s` starting at index `i`.
pub open spec fn occurs_at(s: Seq<char>, p: Seq<char>, i: int) -> bool {
    0 <= i && i + p.len() <= s.len() && s.subrange(i, i + p.len()) == p
}

/// `p` occurs somewhere in `s`.
pub open spec fn contains(s: Seq<char>, p: Seq<char>) -> bool {
    exists|i: int| occurs_at(s, p, i)
}

/// The pieces of `s` between occurrences of `sep` (as `str::split` with a `char`).
pub open spec fn split(s: Seq<char>, sep: char) -> Seq<Seq<char>>
    decreases s.len(),
{
    if s.len() == 0 {
        seq![Seq::<char>::empty()]
    } else {
        let r = split(s.drop_last(), sep);
        if s.last() == sep {
            r.push(Seq::<char>::empty())
        } else {
            r.update(r.len() - 1, r.last().push(s.last()))
        }
    }
}

/// Unicode `White_Space` (what `char::is_whitespace` tests).
pub open spec fn is_white(c: char) -> bool {
    let u = c as u32;
    (0x09 <= u && u <= 0x0d) || u == 0x20 || u == 0x85 || u == 0xa0 || u == 0x1680 || (0x2000
        <= u && u <= 0x200a) || u == 0x2028 || u == 0x2029 || u == 0x202f || u == 0x205f || u
        == 0x3000
}

/// `s` without its leading white space.
pub open spec fn trim_start(s: Seq<char>) -> Seq<char>
    decreases s.len(),
{
    if s.len() > 0 && is_white(s[0]) {
        trim_start(s.drop_first())
    } else {
        s
    }
}

/// `s` without its trailing white space.
pub open spec fn trim_end(s: Seq<char>) -> Seq<char>
    decreases s.len(),
{
    if s.len() > 0 && is_white(s.last()) {
        trim_end(s.drop_last())
    } else {
        s
    }
}

/// `s` without leading and trailing white space (as `str::trim`).
pub open spec fn trim(s: Seq<char>) -> Seq<char> {
    trim_end(trim_start(s))
}

/// The character of a digit value below 36.
pub open spec fn digit_char(d: nat, upper: bool) -> char {
    if d < 10 {
        (('0' as u32) + d) as char
    } else if upper {
        (('A' as u32) + d - 10) as char
    } else {
        (('a' as u32) + d - 10) as char
    }
}

/// The numeral of `n` in base `base`, without leading zeros.
pub open spec fn digits(n: nat, base: nat, upper: bool) -> Seq<char>
    decreases n,
{
    if base <= 1 || n < base {
        seq![digit_char(n, upper)]
    } else {
        proof {
            assert(n / base < n) by (nonlinear_arith)
                requires
                    base > 1,
                    n >= base,
            ;
        }
        digits(n / base, base, upper).push(digit_char(n % base, upper))
    }
}

/// Two upper-case hexadecimal digits of a byte (`{:02X}`).
pub open spec fn hex_byte(b: u8) -> Seq<char> {
    if b < 16 {
        seq!['0'].add(digits(b as nat, 16, true))
    } else {
        digits(b as nat, 16, true)
    }
}

/// The value of one digit character in the given radix, if it is one.
pub open spec fn digit_value(c: char, radix: nat) -> Option<nat> {
    let u = c as u32;
    let v: int = if '0' as u32 <= u && u <= '9' as u32 {
        u - ('0' as u32)
    } else if 'a' as u32 <= u && u <= 'z' as u32 {
        u - ('a' as u32) + 10
    } else if 'A' as u32 <= u && u <= 'Z' as u32 {
        u - ('A' as u32) + 10
    } else {
        99
    };
    if v < radix {
        Some(v as nat)
    } else {
        None
    }
}

/// The value of a string of digits, if every character is a digit.
pub open spec fn digits_value(s: Seq<char>, radix: nat) -> Option<nat>
    decreases s.len(),
{
    if s.len() == 0 {
        Some(0)
    } else {
        match (digits_value(s.drop_last(), radix), digit_value(s.last(), radix)) {
            (Some(a), Some(d)) => Some(a * radix + d),
            _ => None,
        }
    }
}

/// What `from_str_radix` of an unsigned type whose maximum is `max` gives:
/// an optional `+` followed by at least one digit, with a value of at most `max`.
pub open spec fn parse_unsigned(s: Seq<char>, radix: nat, max: nat) -> Option<nat> {
    let d = if s.len() > 0 && s[0] == '+' {
        s.drop_first()
    } else {
        s
    };
    if d.len() == 0 {
        None
    } else {
        match digits_value(d, radix) {
            Some(v) => if v <= max {
                Some(v)
            } else {
                None
            },
            None => None,
        }
    }
}

/// `s` with every non-overlapping occurrence of the non-empty `p`, from the left, replaced by `r`.
pub open spec fn replace_all(s: Seq<char>, p: Seq<char>, r: Seq<char>) -> Seq<char>
    decreases s.len(),
{
    if p.len() == 0 || s.len() == 0 {
        s
    } else if starts_with(s, p) {
        r + replace_all(s.skip(p.len() as int), p, r)
    } else {
        seq![s[0]] + replace_all(s.drop_first(), p, r)
    }
}

/// What `str::to_lowercase` returns for a string.
pub uninterp spec fn lowercase(s: Seq<char>) -> Seq<char>;

/// Whether the regular expression `pattern` (in the syntax of the `regex` crate) matches
/// somewhere in `text`; false where the crate rejects the pattern.
pub uninterp spec fn regex_matches(pattern: Seq<char>, text: Seq<char>) -> bool;

/// What `textwrap::fill` returns for `text`, wrapped at `width` columns, with
/// `indent` in front of every line but the first.
pub uninterp spec fn filled(text: Seq<char>, width: usize, indent: Seq<char>) -> Seq<char>;

/// What `textwrap::dedent` returns for `text`.
pub uninterp spec fn dedented(text: Seq<char>) -> Seq<char>;

// ---------------------------------------------------------------------------
// Calls into std and outside crates
// ---------------------------------------------------------------------------

/// `String` from characters: std's `FromIterator<&char>` for `String`, which
/// collects the characters in order.
#[verifier::external_body]
pub(crate) fn string_of(v: &[char]) -> (r: String)
    ensures
        r@ == v@,
{
    v.iter().collect()
}

/// `str::to_lowercase`; its result is named `lowercase`.
#[verifier::external_body]
pub(crate) fn to_lowercase(s: &str) -> (r: String)
    ensures
        r@ == lowercase(s@),
{
    s.to_lowercase()
}

/// `regex::Regex::new(pattern)` followed by `Regex::is_match(text)`; the result is named
/// `regex_matches`. Where `Regex::new` rejects the pattern the result is false.
#[verifier::external_body]
pub(crate) fn regex_is_match(pattern: &str, text: &str) -> (r: bool)
    ensures
        r == regex_matches(pattern@, text@),
{
    match regex::Regex::new(pattern) {
        Ok(re) => re.is_match(text),
        Err(_) => false,
    }
}

/// `textwrap::fill` with `Options::new(width).subsequent_indent(indent)`; the result is
/// named `filled`.
#[verifier::external_body]
pub(crate) fn fill(text: &str, width: usize, indent: &str) -> (r: String)
    ensures
        r@ == filled(text@, width, indent@),
{
    textwrap::fill(text, textwrap::Options::new(width).subsequent_indent(indent))
}

/// `textwrap::dedent`; the result is named `dedented`.
#[verifier::external_body]
pub(crate) fn dedent(text: &str) -> (r: String)
    ensures
        r@ == dedented(text@),
{
    textwrap::dedent(text)
}

// ---------------------------------------------------------------------------
// Executable helpers
// ---------------------------------------------------------------------------

/// The characters of a string slice, collected into a vector.
pub fn chars_of(s: &str) -> (r: Vec<char>)
    ensures
        r@ == s@,
{
    let mut v: Vec<char> = Vec::new();
    for c in it: s.chars()
        invariant
            v@ == it.seq().take(it.index()),
            it.seq() == s@,
    {
        v.push(c);
    }
    v
}

/// Appends characters at the end.
pub(crate) fn push_chars(out: &mut Vec<char>, s: &Vec<char>)
    ensures
        final(out)@ == old(out)@ + s@,
{
    let mut i: usize = 0;
    while i < s.len()
        invariant
            i <= s@.len(),
            out@ == old(out)@ + s@.take(i as int),
        decreases s.len() - i,
    {
        out.push(s[i]);
        assert(s@.take(i + 1) == s@.take(i as int).push(s@[i as int]));
        i = i + 1;
    }
    assert(s@.take(s@.len() as int) == s@);
}

/// Appends the characters of `s` to `v`.
pub fn push_str(v: &mut Vec<char>, s: &str)
    ensures
        final(v)@ == old(v)@ + s@,
{
    let ghost start = v@;
    for c in it: s.chars()
        invariant
            v@ == start + it.seq().take(it.index()),
            it.seq() == s@,
    {
        v.push(c);
        proof {
            assert(it.seq().take(it.index() + 1) == it.seq().take(it.index()).push(c));
        }
    }
    assert(s@.take(s@.len() as int) == s@);
}

/// `p` is a prefix of `s`.
pub fn seq_starts_with(s: &[char], p: &[char]) -> (r: bool)
    ensures
        r == starts_with(s@, p@),
{
    if p.len() > s.len() {
        return false;
    }
    let mut i: usize = 0;
    while i < p.len()
        invariant
            p.len() <= s.len(),
            i <= p.len(),
            s@.take(i as int) == p@.take(i as int),
        decreases p.len() - i,
    {
        if s[i] != p[i] {
            assert(s@.take(p.len() as int)[i as int] != p@[i as int]);
            return false;
        }
        assert(s@.take(i + 1) == s@.take(i as int).push(s@[i as int]));
        assert(p@.take(i + 1) == p@.take(i as int).push(p@[i as int]));
        i = i + 1;
    }
    assert(p@.take(p.len() as int) == p@);
    true
}

/// `p` occurs in `s` at index `at`.
pub fn seq_occurs_at(s: &[char], p: &[char], at: usize) -> (r: bool)
    ensures
        r == occurs_at(s@, p@, at as int),
{
    if at > s.len() || p.len() > s.len() - at {
        return false;
    }
    let mut i: usize = 0;
    while i < p.len()
        invariant
            at + p.len() <= s.len(),
            i <= p.len(),
            forall|j: int| 0 <= j < i ==> s@[at + j] == p@[j],
        decreases p.len() - i,
    {
        if s[at + i] != p[i] {
            assert(s@.subrange(at as int, at + p.len())[i as int] != p@[i as int]);
            return false;
        }
        i = i + 1;
    }
    assert(s@.subrange(at as int, at + p.len()) =~= p@);
    true
}

/// `p` is a suffix of `s`.
pub fn seq_ends_with(s: &[char], p: &[char]) -> (r: bool)
    ensures
        r == ends_with(s@, p@),
{
    if p.len() > s.len() {
        return false;
    }
    let r = seq_occurs_at(s, p, s.len() - p.len());
    assert(s@.subrange(s.len() - p.len(), s.len() as int) == s@.skip(s.len() - p.len()));
    r
}

/// `p` occurs somewhere in `s`.
pub fn seq_contains(s: &[char], p: &[char]) -> (r: bool)
    ensures
        r == contains(s@, p@),
{
    if p.len() == 0 {
        assert(s@.subrange(0, 0) =~= p@);
        assert(occurs_at(s@, p@, 0));
        return true;
    }
    let mut i: usize = 0;
    while i < s.len()
        invariant
            p.len() > 0,
            forall|j: int| 0 <= j < i ==> !occurs_at(s@, p@, j),
        decreases s.len() - i,
    {
        if seq_occurs_at(s, p, i) {
            return true;
        }
        i = i + 1;
    }
    assert forall|j: int| !occurs_at(s@, p@, j) by {
        if 0 <= j && j + p.len() <= s.len() {
            assert(j < i);
        }
    }
    false
}

/// `p` is a prefix of `s`.
pub fn str_starts_with(s: &str, p: &str) -> (r: bool)
    ensures
        r == starts_with(s@, p@),
{
    let a = chars_of(s);
    let b = chars_of(p);
    seq_starts_with(a.as_slice(), b.as_slice())
}

/// `p` is a suffix of `s`.
pub fn str_ends_with(s: &str, p: &str) -> (r: bool)
    ensures
        r == ends_with(s@, p@),
{
    let a = chars_of(s);
    let b = chars_of(p);
    seq_ends_with(a.as_slice(), b.as_slice())
}

/// `p` occurs somewhere in `s`.
pub fn str_contains(s: &str, p: &str) -> (r: bool)
    ensures
        r == contains(s@, p@),
{
    let a = chars_of(s);
    let b = chars_of(p);
    seq_contains(a.as_slice(), b.as_slice())
}

/// The two strings hold the same characters.
pub fn str_eq(s: &str, p: &str) -> (r: bool)
    ensures
        r == (s@ == p@),
{
    let a = chars_of(s);
    let b = chars_of(p);
    if a.len() != b.len() {
        return false;
    }
    let r = seq_starts_with(a.as_slice(), b.as_slice());
    assert(a@.take(a@.len() as int) == a@);
    r
}

/// Characters of `s` between occurrences of `sep`.
pub fn split_chars(s: &[char], sep: char) -> (r: Vec<Vec<char>>)
    ensures
        r@.len() == split(s@, sep).len(),
        forall|k: int| 0 <= k < r@.len() ==> (#[trigger] r@[k])@ == split(s@, sep)[k],
{
    let mut pieces: Vec<Vec<char>> = Vec::new();
    let mut cur: Vec<char> = Vec::new();
    let mut i: usize = 0;
    while i < s.len()
        invariant
            i <= s.len(),
            pieces@.len() + 1 == split(s@.take(i as int), sep).len(),
            forall|k: int|
                0 <= k < pieces@.len() ==> (#[trigger] pieces@[k])@ == split(
                    s@.take(i as int),
                    sep,
                )[k],
            cur@ == split(s@.take(i as int), sep).last(),
        decreases s.len() - i,
    {
        let ghost prev = s@.take(i as int);
        assert(s@.take(i + 1).drop_last() == prev);
        assert(s@.take(i + 1).last() == s@[i as int]);
        if s[i] == sep {
            pieces.push(cur);
            cur = Vec::new();
        } else {
            cur.push(s[i]);
        }
        i = i + 1;
    }
    assert(s@.take(s.len() as int) == s@);
    pieces.push(cur);
    pieces
}

/// Length of the white space at the start of `s`.
fn white_prefix_len(s: &[char]) -> (k: usize)
    ensures
        k <= s.len(),
        trim_start(s@) == s@.skip(k as int),
{
    let mut k: usize = 0;
    assert(s@.skip(0) == s@);
    while k < s.len() && is_white_char(s[k])
        invariant
            k <= s.len(),
            trim_start(s@) == trim_start(s@.skip(k as int)),
        decreases s.len() - k,
    {
        assert(s@.skip(k as int).drop_first() == s@.skip(k + 1));
        k = k + 1;
    }
    k
}

/// `char::is_whitespace`.
pub fn is_white_char(c: char) -> (r: bool)
    ensures
        r == is_white(c),
{
    let u = c as u32;
    (0x09 <= u && u <= 0x0d) || u == 0x20 || u == 0x85 || u == 0xa0 || u == 0x1680 || (0x2000
        <= u && u <= 0x200a) || u == 0x2028 || u == 0x2029 || u == 0x202f || u == 0x205f || u
        == 0x3000
}

/// `s` without leading and trailing white space.
pub fn trim_chars(s: &[char]) -> (r: Vec<char>)
    ensures
        r@ == trim(s@),
{
    let a = white_prefix_len(s);
    let mut b: usize = s.len();
    while b > a && is_white_char(s[b - 1])
        invariant
            a <= b <= s.len(),
            trim(s@) == trim_end(s@.subrange(a as int, b as int)),
        decreases b,
    {
        assert(s@.subrange(a as int, b as int).drop_last() == s@.subrange(a as int, b - 1));
        b = b - 1;
    }
    assert(s@.skip(a as int) == s@.subrange(a as int, s.len() as int));
    let mut r: Vec<char> = Vec::new();
    let mut i: usize = a;
    while i < b
        invariant
            a <= i <= b <= s.len(),
            r@ == s@.subrange(a as int, i as int),
        decreases b - i,
    {
        r.push(s[i]);
        i = i + 1;
    }
    r
}

/// `s` without leading and trailing white space.
pub fn str_trim(s: &str) -> (r: Vec<char>)
    ensures
        r@ == trim(s@),
{
    let v = chars_of(s);
    trim_chars(v.as_slice())
}

/// The numeral of `n` in base `base` (2 to 16).
pub fn digits_of(n: u64, base: u64, upper: bool) -> (r: Vec<char>)
    requires
        2 <= base <= 16,
    ensures
        r@ == digits(n as nat, base as nat, upper),
    decreases n,
{
    if n < base {
        let mut v: Vec<char> = Vec::new();
        v.push(digit_of(n, upper));
        v
    } else {
        assert(n / base < n) by (nonlinear_arith)
            requires
                base > 1,
                n >= base,
        ;
        let mut v = digits_of(n / base, base, upper);
        v.push(digit_of(n % base, upper));
        v
    }
}

/// The character of a digit value below 16.
pub fn digit_of(d: u64, upper: bool) -> (c: char)
    requires
        d < 16,
    ensures
        c == digit_char(d as nat, upper),
{
    let d8 = d as u8;
    if d < 10 {
        (48u8 + d8) as char
    } else if upper {
        (65u8 + d8 - 10) as char
    } else {
        (97u8 + d8 - 10) as char
    }
}

/// Two upper-case hexadecimal digits of a byte.
pub fn hex_byte_of(b: u8) -> (r: Vec<char>)
    ensures
        r@ == hex_byte(b),
{
    let d = digits_of(b as u64, 16, true);
    if b < 16 {
        let mut v: Vec<char> = Vec::new();
        v.push('0');
        let mut i: usize = 0;
        while i < d.len()
            invariant
                i <= d.len(),
                v@ == seq!['0'] + d@.take(i as int),
            decreases d.len() - i,
        {
            assert(d@.take(i + 1) == d@.take(i as int).push(d@[i as int]));
            v.push(d[i]);
            i = i + 1;
        }
        assert(d@.take(d.len() as int) == d@);
        v
    } else {
        d
    }
}

proof fn lemma_digits_value_prefix(s: Seq<char>, radix: nat, i: int)
    requires
        0 <= i <= s.len(),
        radix >= 1,
        digits_value(s, radix) is Some,
    ensures
        digits_value(s.take(i), radix) is Some,
        digits_value(s.take(i), radix).unwrap() <= digits_value(s, radix).unwrap(),
    decreases s.len(),
{
    if i < s.len() {
        assert(s.drop_last().take(i) == s.take(i));
        lemma_digits_value_prefix(s.drop_last(), radix, i);
        let a = digits_value(s.drop_last(), radix).unwrap();
        assert(a * radix >= a) by (nonlinear_arith)
            requires
                radix >= 1,
        ;
    } else {
        assert(s.take(i) == s);
    }
}

/// `from_str_radix` for an unsigned value of at most `max`: an optional `+`, then digits.
pub fn parse_unsigned_of(s: &[char], radix: u64, max: u64) -> (r: Option<u64>)
    requires
        2 <= radix <= 36,
    ensures
        r matches Some(v) ==> parse_unsigned(s@, radix as nat, max as nat) == Some(v as nat),
        r is None ==> parse_unsigned(s@, radix as nat, max as nat) is None,
{
    let start: usize = if s.len() > 0 && s[0] == '+' {
        1
    } else {
        0
    };
    let ghost d = if s@.len() > 0 && s@[0] == '+' {
        s@.drop_first()
    } else {
        s@
    };
    assert(d == s@.skip(start as int));
    if start >= s.len() {
        return None;
    }
    let mut acc: u64 = 0;
    let mut i: usize = start;
    while i < s.len()
        invariant
            start <= i <= s.len(),
            start < s.len(),
            d == s@.skip(start as int),
            d == (if s@.len() > 0 && s@[0] == '+' {
                s@.drop_first()
            } else {
                s@
            }),
            2 <= radix <= 36,
            acc <= max,
            digits_value(d.take(i - start), radix as nat) == Some(acc as nat),
        decreases s.len() - i,
    {
        let ghost pre = d.take(i - start);
        assert(d.take(i - start + 1).drop_last() == pre);
        assert(d.take(i - start + 1).last() == s@[i as int]);
        let dv = digit_value_of(s[i], radix);
        let ghost t = d.take(i - start + 1);
        assert(t.len() > 0);
        match dv {
            None => {
                assert(digits_value(t, radix as nat) is None);
                proof {
                    if digits_value(d, radix as nat) is Some {
                        lemma_digits_value_prefix(d, radix as nat, i - start + 1);
                        assert(false);
                    }
                    assert(d.len() > 0);
                    assert(parse_unsigned(s@, radix as nat, max as nat) is None);
                }
                return None;
            },
            Some(x) => {
                let next = acc.checked_mul(radix);
                let next = match next {
                    Some(m) => m.checked_add(x),
                    None => None,
                };
                match next {
                    Some(n) => {
                        assert(n == acc * radix + x);
                        assert(digits_value(t, radix as nat) == Some(n as nat));
                        if n > max {
                            proof {
                                if digits_value(d, radix as nat) is Some {
                                    lemma_digits_value_prefix(d, radix as nat, i - start + 1);
                                    assert(digits_value(d, radix as nat).unwrap() > max);
                                }
                                assert(d.len() > 0);
                                assert(parse_unsigned(s@, radix as nat, max as nat) is None);
                            }
                            return None;
                        }
                        acc = n;
                    },
                    None => {
                        assert(digits_value(t, radix as nat) == Some((acc * radix + x) as nat));
                        assert(acc * radix + x > u64::MAX);
                        proof {
                            if digits_value(d, radix as nat) is Some {
                                lemma_digits_value_prefix(d, radix as nat, i - start + 1);
                            }
                        }
                        return None;
                    },
                }
            },
        }
        i = i + 1;
    }
    assert(d.take(s.len() - start) == d);
    Some(acc)
}

/// The value of a digit character in the given radix.
pub fn digit_value_of(c: char, radix: u64) -> (r: Option<u64>)
    requires
        2 <= radix <= 36,
    ensures
        r matches Some(v) ==> digit_value(c, radix as nat) == Some(v as nat),
        r is None ==> digit_value(c, radix as nat) is None,
{
    let u = c as u32;
    let v: u64 = if '0' as u32 <= u && u <= '9' as u32 {
        (u - ('0' as u32)) as u64
    } else if 'a' as u32 <= u && u <= 'z' as u32 {
        (u - ('a' as u32) + 10) as u64
    } else if 'A' as u32 <= u && u <= 'Z' as u32 {
        (u - ('A' as u32) + 10) as u64
    } else {
        99
    };
    if v < radix {
        Some(v)
    } else {
        None
    }
}

/// `s` with every occurrence of the non-empty `p`, scanning from the left, replaced by `r`.
pub fn replace_chars(s: &[char], p: &[char], rep: &[char]) -> (out: Vec<char>)
    requires
        p.len() > 0,
    ensures
        out@ == replace_all(s@, p@, rep@),
{
    let mut out: Vec<char> = Vec::new();
    let mut i: usize = 0;
    assert(s@.skip(0) == s@);
    while i < s.len()
        invariant
            i <= s.len(),
            p.len() > 0,
            out@ + replace_all(s@.skip(i as int), p@, rep@) == replace_all(s@, p@, rep@),
        decreases s.len() - i,
    {
        let ghost rest = s@.skip(i as int);
        if seq_occurs_at(s, p, i) {
            assert(rest.take(p.len() as int) == s@.subrange(i as int, i + p.len()));
            assert(rest.skip(p.len() as int) == s@.skip(i + p.len()));
            let ghost base = out@;
            let mut j: usize = 0;
            while j < rep.len()
                invariant
                    j <= rep.len(),
                    out@ == base + rep@.take(j as int),
                decreases rep.len() - j,
            {
                assert(rep@.take(j + 1) == rep@.take(j as int).push(rep@[j as int]));
                out.push(rep[j]);
                j = j + 1;
            }
            assert(rep@.take(rep.len() as int) == rep@);
            i = i + p.len();
        } else {
            assert(!starts_with(rest, p@)) by {
                if p@.len() <= rest.len() {
                    assert(rest.take(p.len() as int) == s@.subrange(i as int, i + p.len()));
                }
            }
            assert(rest.drop_first() == s@.skip(i + 1));
            out.push(s[i]);
            i = i + 1;
        }
    }
    out
}

/// `p` is a prefix of `s`.
pub fn begins(s: &[char], p: &str) -> (r: bool)
    ensures
        r == starts_with(s@, p@),
{
    let b = chars_of(p);
    seq_starts_with(s, b.as_slice())
}

/// `p` is a suffix of `s`.
pub fn ends(s: &[char], p: &str) -> (r: bool)
    ensures
        r == ends_with(s@, p@),
{
    let b = chars_of(p);
    seq_ends_with(s, b.as_slice())
}

/// `p` occurs in `s`.
pub fn has(s: &[char], p: &str) -> (r: bool)
    ensures
        r == contains(s@, p@),
{
    let b = chars_of(p);
    seq_contains(s, b.as_slice())
}

/// `s` holds exactly the characters of `p`.
pub fn same(s: &[char], p: &str) -> (r: bool)
    ensures
        r == (s@ == p@),
{
    let b = chars_of(p);
    if s.len() != b.len() {
        return false;
    }
    let r = seq_starts_with(s, b.as_slice());
    assert(s@.take(s@.len() as int) == s@);
    r
}

/// Stripping white space leaves a piece of the string.
pub proof fn lemma_trim_piece(s: Seq<char>)
    ensures
        exists|a: int, b: int| 0 <= a <= b <= s.len() && trim(s) == s.subrange(a, b),
{
    lemma_trim_start_skip(s);
    let k = choose|k: int| 0 <= k <= s.len() && trim_start(s) == s.skip(k);
    let t = s.skip(k);
    lemma_trim_end_take(t);
    let m = choose|m: int| 0 <= m <= t.len() && trim_end(t) == t.take(m);
    assert(trim(s) == s.subrange(k, k + m));
}

proof fn lemma_trim_start_skip(s: Seq<char>)
    ensures
        exists|k: int| 0 <= k <= s.len() && trim_start(s) == s.skip(k),
    decreases s.len(),
{
    if s.len() > 0 && is_white(s[0]) {
        lemma_trim_start_skip(s.drop_first());
        let k = choose|k: int|
            0 <= k <= s.drop_first().len() && trim_start(s.drop_first()) == s.drop_first().skip(k);
        assert(s.drop_first().skip(k) == s.skip(k + 1));
    } else {
        assert(s.skip(0) == s);
    }
}

proof fn lemma_trim_end_take(s: Seq<char>)
    ensures
        exists|m: int| 0 <= m <= s.len() && trim_end(s) == s.take(m),
    decreases s.len(),
{
    if s.len() > 0 && is_white(s.last()) {
        lemma_trim_end_take(s.drop_last());
        let m = choose|m: int|
            0 <= m <= s.drop_last().len() && trim_end(s.drop_last()) == s.drop_last().take(m);
        assert(s.drop_last().take(m) == s.take(m));
    } else {
        assert(s.take(s.len() as int) == s);
    }
}

/// A piece of a string that contains `p` makes the string contain `p`.
pub proof fn lemma_contains_piece(s: Seq<char>, a: int, b: int, p: Seq<char>)
    requires
        0 <= a <= b <= s.len(),
        contains(s.subrange(a, b), p),
    ensures
        contains(s, p),
{
    let i = choose|i: int| occurs_at(s.subrange(a, b), p, i);
    assert(s.subrange(a + i, a + i + p.len()) == s.subrange(a, b).subrange(i, i + p.len()));
    assert(occurs_at(s, p, a + i));
}

/// A text without the separator is one piece.
pub proof fn lemma_split_free(s: Seq<char>, sep: char)
    requires
        !s.contains(sep),
    ensures
        split(s, sep) == seq![s],
    decreases s.len(),
{
    if s.len() > 0 {
        assert(!s.drop_last().contains(sep)) by {
            if s.drop_last().contains(sep) {
                let j = choose|j: int| 0 <= j < s.drop_last().len() && s.drop_last()[j] == sep;
                assert(s[j] == sep);
            }
        }
        lemma_split_free(s.drop_last(), sep);
        assert(s.last() != sep) by {
            assert(s[s.len() - 1] == s.last());
        }
        assert(s.drop_last().push(s.last()) =~= s);
    } else {
        assert(s =~= Seq::<char>::empty());
    }
}

/// Splitting two texts joined by the separator gives the pieces of the first, then those
/// of the second.
pub proof fn lemma_split_join(a: Seq<char>, sep: char, b: Seq<char>)
    ensures
        split(a + seq![sep] + b, sep) == split(a, sep) + split(b, sep),
    decreases b.len(),
{
    let s = a + seq![sep] + b;
    lemma_split_len(a, sep);
    if b.len() == 0 {
        assert(s.drop_last() =~= a);
        assert(b =~= Seq::<char>::empty());
        assert(split(a, sep).push(Seq::<char>::empty()) =~= split(a, sep) + seq![Seq::<char>::empty()]);
    } else {
        lemma_split_join(a, sep, b.drop_last());
        lemma_split_len(b.drop_last(), sep);
        assert(s.drop_last() =~= a + seq![sep] + b.drop_last());
        assert(s.last() == b.last());
        let x = split(a, sep);
        let y = split(b.drop_last(), sep);
        if b.last() == sep {
            assert((x + y).push(Seq::<char>::empty()) =~= x + y.push(Seq::<char>::empty()));
        } else {
            let r = x + y;
            assert(r.update(r.len() - 1, r.last().push(b.last())) =~= x + y.update(
                y.len() - 1,
                y.last().push(b.last()),
            ));
        }
    }
}

/// A separator followed by a text without it adds that text as the last piece.
pub proof fn lemma_split_after(a: Seq<char>, sep: char, b: Seq<char>)
    requires
        !b.contains(sep),
    ensures
        split(a + seq![sep] + b, sep) == split(a, sep).push(b),
    decreases b.len(),
{
    let s = a + seq![sep] + b;
    if b.len() == 0 {
        assert(s.drop_last() =~= a);
        assert(b =~= Seq::<char>::empty());
    } else {
        assert(!b.drop_last().contains(sep)) by {
            if b.drop_last().contains(sep) {
                let j = choose|j: int| 0 <= j < b.drop_last().len() && b.drop_last()[j] == sep;
                assert(b[j] == sep);
            }
        }
        lemma_split_after(a, sep, b.drop_last());
        assert(s.drop_last() =~= a + seq![sep] + b.drop_last());
        assert(s.last() == b.last());
        assert(b.last() != sep) by {
            assert(b[b.len() - 1] == b.last());
        }
        let r = split(a, sep).push(b.drop_last());
        assert(r.update(r.len() - 1, r.last().push(b.last())) =~= split(a, sep).push(b)) by {
            assert(b.drop_last().push(b.last()) =~= b);
        }
    }
}

/// Splitting gives one piece more than there are separators; so at least two where
/// the separator occurs.
pub proof fn lemma_split_len(s: Seq<char>, sep: char)
    ensures
        split(s, sep).len() >= 1,
        s.contains(sep) ==> split(s, sep).len() >= 2,
    decreases s.len(),
{
    if s.len() > 0 {
        lemma_split_len(s.drop_last(), sep);
        if s.contains(sep) && s.last() != sep {
            let j = choose|j: int| 0 <= j < s.len() && s[j] == sep;
            assert(s.drop_last()[j] == sep);
        }
    }
}

/// No piece of a split holds the separator.
pub proof fn lemma_split_pieces(s: Seq<char>, sep: char)
    ensures
        forall|k: int| 0 <= k < split(s, sep).len() ==> !(#[trigger] split(s, sep)[k]).contains(sep),
    decreases s.len(),
{
    if s.len() > 0 {
        lemma_split_pieces(s.drop_last(), sep);
        lemma_split_len(s.drop_last(), sep);
        let r = split(s.drop_last(), sep);
        if s.last() != sep {
            let l = r.last().push(s.last());
            assert forall|k: int| 0 <= k < split(s, sep).len() implies !(#[trigger] split(s, sep)[k]).contains(sep) by {
                if k == r.len() - 1 {
                    assert(split(s, sep)[k] == l);
                    if l.contains(sep) {
                        let j = choose|j: int| 0 <= j < l.len() && l[j] == sep;
                        if j < l.len() - 1 {
                            assert(r.last()[j] == sep);
                            assert(r[r.len() - 1].contains(sep));
                        }
                    }
                } else {
                    assert(split(s, sep)[k] == r[k]);
                }
            }
        } else {
            assert forall|k: int| 0 <= k < split(s, sep).len() implies !(#[trigger] split(s, sep)[k]).contains(sep) by {
                if k < r.len() {
                    assert(split(s, sep)[k] == r[k]);
                } else {
                    assert(split(s, sep)[k] == Seq::<char>::empty());
                }
            }
        }
    }
}

/// A numeral has at least one digit.
pub proof fn lemma_digits_nonempty(n: nat, base: nat, upper: bool)
    requires
        base >= 2,
    ensures
        digits(n, base, upper).len() >= 1,
    decreases n,
{
    if n >= base {
        assert(n / base < n) by (nonlinear_arith)
            requires
                base >= 2,
                n >= base,
        ;
        lemma_digits_nonempty(n / base, base, upper);
    }
}

} // verus!
