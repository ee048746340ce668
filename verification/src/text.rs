//! Character-sequence tools shared by the shell's parsers.
//!
//! A string is modelled by its sequence of Unicode scalar values, and a list
//! of strings by the sequence of those sequences.

use vstd::prelude::*;

verus! {

/// `String::push` appends one character at the end of the string.
pub assume_specification[ String::push ](s: &mut String, ch: char)
    ensures
        final(s)@ == old(s)@.push(ch),
;

/// The contents of a list of strings.
pub open spec fn texts(list: Seq<String>) -> Seq<Seq<char>> {
    Seq::new(list.len(), |i: int| list[i]@)
}

/// Adding a string to a list adds its contents to the list's contents.
pub proof fn lemma_texts_push(list: Seq<String>, item: String)
    ensures
        texts(list.push(item)) == texts(list).push(item@),
{
    assert(texts(list.push(item)) =~= texts(list).push(item@));
}

/// The contents of a list of strings, down to the characters.
pub proof fn lemma_texts_deep(list: Vec<String>)
    ensures
        list.deep_view() == texts(list@),
{
    assert(list.deep_view() =~= texts(list@));
}

/// The characters of `s`.
pub fn chars_of(s: &str) -> (r: Vec<char>)
    ensures
        r@ == s@,
{
    let mut out: Vec<char> = Vec::new();
    for c in it: s.chars()
        invariant
            out@ == it.seq().take(it.index() as int),
            it.seq() == s@,
    {
        out.push(c);
    }
    assert(s@.take(s@.len() as int) == s@);
    out
}

/// The characters of `v` from `from` up to and not including `to`.
pub fn sub_chars(v: &[char], from: usize, to: usize) -> (r: Vec<char>)
    requires
        from <= to <= v@.len(),
    ensures
        r@ == v@.subrange(from as int, to as int),
{
    let mut out: Vec<char> = Vec::new();
    let mut i: usize = from;
    while i < to
        invariant
            from <= i <= to <= v@.len(),
            out@ == v@.subrange(from as int, i as int),
        decreases to - i,
    {
        out.push(v[i]);
        i = i + 1;
    }
    out
}

/// The string made of the characters of `v`.
pub fn text_of(v: &[char]) -> (r: String)
    ensures
        r@ == v@,
{
    let mut out = String::new();
    let mut i: usize = 0;
    while i < v.len()
        invariant
            i <= v@.len(),
            out@ == v@.take(i as int),
        decreases v@.len() - i,
    {
        out.push(v[i]);
        i = i + 1;
    }
    assert(v@.take(v@.len() as int) == v@);
    out
}

/// Whether two strings hold the same characters.
pub fn same(a: &str, b: &str) -> (r: bool)
    ensures
        r == (a@ == b@),
{
    let x: String = a.to_owned();
    let y: String = b.to_owned();
    x == y
}

/// Whether two character slices hold the same characters.
pub fn same_chars(a: &[char], b: &[char]) -> (r: bool)
    ensures
        r == (a@ == b@),
{
    if a.len() != b.len() {
        return false;
    }
    let mut i: usize = 0;
    while i < a.len()
        invariant
            i <= a@.len(),
            a@.len() == b@.len(),
            forall|j: int| 0 <= j < i ==> a@[j] == b@[j],
        decreases a@.len() - i,
    {
        if a[i] != b[i] {
            return false;
        }
        i = i + 1;
    }
    assert(a@ =~= b@);
    true
}

/// Two strings, one after the other.
pub fn cat2(a: &str, b: &str) -> (r: String)
    ensures
        r@ == a@ + b@,
{
    let mut out: String = a.to_owned();
    out.append(b);
    out
}

/// Three strings, one after the other.
pub fn cat3(a: &str, b: &str, c: &str) -> (r: String)
    ensures
        r@ == a@ + b@ + c@,
{
    let mut out = cat2(a, b);
    out.append(c);
    out
}

/// Four strings, one after the other.
pub fn cat4(a: &str, b: &str, c: &str, d: &str) -> (r: String)
    ensures
        r@ == a@ + b@ + c@ + d@,
{
    let mut out = cat3(a, b, c);
    out.append(d);
    out
}

/// Five strings, one after the other.
pub fn cat5(a: &str, b: &str, c: &str, d: &str, e: &str) -> (r: String)
    ensures
        r@ == a@ + b@ + c@ + d@ + e@,
{
    let mut out = cat4(a, b, c, d);
    out.append(e);
    out
}

/// Appends the characters of `more` to `out`.
pub fn extend_chars(out: &mut Vec<char>, more: &[char])
    ensures
        final(out)@ == old(out)@ + more@,
{
    let ghost start = out@;
    let mut i: usize = 0;
    while i < more.len()
        invariant
            i <= more@.len(),
            out@ == start + more@.take(i as int),
        decreases more@.len() - i,
    {
        out.push(more[i]);
        i = i + 1;
    }
    assert(more@.take(more@.len() as int) == more@);
}

/// Appends copies of the strings of `more` to `out`.
pub fn extend_texts(out: &mut Vec<String>, more: &[String])
    ensures
        texts(final(out)@) == texts(old(out)@) + texts(more@),
{
    let ghost start = out@;
    let mut i: usize = 0;
    while i < more.len()
        invariant
            i <= more@.len(),
            texts(out@) == texts(start) + texts(more@).take(i as int),
        decreases more@.len() - i,
    {
        let item = more[i].clone();
        proof {
            lemma_texts_push(out@, item);
        }
        out.push(item);
        assert(texts(out@) == texts(start) + texts(more@).take(i + 1));
        i = i + 1;
    }
    assert(texts(more@).take(more@.len() as int) == texts(more@));
}

/// A copy of the strings of `list` from index `from` on.
pub fn tail_texts(list: &[String], from: usize) -> (r: Vec<String>)
    requires
        from <= list@.len(),
    ensures
        texts(r@) == texts(list@).skip(from as int),
{
    let mut out: Vec<String> = Vec::new();
    let mut i: usize = from;
    while i < list.len()
        invariant
            from <= i <= list@.len(),
            texts(out@) == texts(list@).subrange(from as int, i as int),
        decreases list@.len() - i,
    {
        let item = list[i].clone();
        proof {
            lemma_texts_push(out@, item);
        }
        out.push(item);
        assert(texts(out@) == texts(list@).subrange(from as int, i + 1));
        i = i + 1;
    }
    assert(texts(list@).subrange(from as int, list@.len() as int) == texts(list@).skip(from as int));
    out
}

/// A copy of a list of strings.
pub fn copy_texts(list: &[String]) -> (r: Vec<String>)
    ensures
        texts(r@) == texts(list@),
{
    let out = tail_texts(list, 0);
    assert(texts(list@).skip(0) == texts(list@));
    out
}

/// Whether a list of strings holds `item`.
pub fn holds_text(list: &[String], item: &str) -> (r: bool)
    ensures
        r == texts(list@).contains(item@),
{
    let mut i: usize = 0;
    while i < list.len()
        invariant
            i <= list@.len(),
            forall|j: int| 0 <= j < i ==> texts(list@)[j] != item@,
        decreases list@.len() - i,
    {
        if same(list[i].as_str(), item) {
            assert(texts(list@)[i as int] == item@);
            return true;
        }
        i = i + 1;
    }
    false
}

/// The strings of `parts` with `sep` between each two.
pub open spec fn joined(parts: Seq<Seq<char>>, sep: Seq<char>) -> Seq<char>
    decreases parts.len(),
{
    if parts.len() == 0 {
        Seq::empty()
    } else if parts.len() == 1 {
        parts[0]
    } else {
        joined(parts.drop_last(), sep) + sep + parts.last()
    }
}

/// Joins strings with a separator between each two.
pub fn join_texts(parts: &[String], sep: &str) -> (r: String)
    ensures
        r@ == joined(texts(parts@), sep@),
{
    let mut out = String::new();
    let mut i: usize = 0;
    while i < parts.len()
        invariant
            i <= parts@.len(),
            out@ == joined(texts(parts@).take(i as int), sep@),
        decreases parts@.len() - i,
    {
        if i > 0 {
            out.append(sep);
        }
        out.append(parts[i].as_str());
        proof {
            let next = texts(parts@).take(i + 1);
            assert(next.drop_last() == texts(parts@).take(i as int));
            assert(next.last() == parts@[i as int]@);
            if i == 0 {
                assert(next[0] == parts@[0]@);
            }
        }
        i = i + 1;
    }
    assert(texts(parts@).take(parts@.len() as int) == texts(parts@));
    out
}

/// The characters with Unicode's `White_Space` property.
pub open spec fn is_space_char(c: char) -> bool {
    ||| 9 <= c as u32 <= 13
    ||| c as u32 == 0x20
    ||| c as u32 == 0x85
    ||| c as u32 == 0xA0
    ||| c as u32 == 0x1680
    ||| 0x2000 <= c as u32 <= 0x200A
    ||| c as u32 == 0x2028
    ||| c as u32 == 0x2029
    ||| c as u32 == 0x202F
    ||| c as u32 == 0x205F
    ||| c as u32 == 0x3000
}

/// Whether `c` is white space.
pub fn is_space(c: char) -> (r: bool)
    ensures
        r == is_space_char(c),
{
    let u: u32 = c as u32;
    (9 <= u && u <= 13) || u == 0x20 || u == 0x85 || u == 0xA0 || u == 0x1680 || (0x2000 <= u && u
        <= 0x200A) || u == 0x2028 || u == 0x2029 || u == 0x202F || u == 0x205F || u == 0x3000
}

/// `s` without its leading white space.
pub open spec fn trimmed_start(s: Seq<char>) -> Seq<char>
    decreases s.len(),
{
    if s.len() > 0 && is_space_char(s[0]) {
        trimmed_start(s.drop_first())
    } else {
        s
    }
}

/// `s` without its trailing white space.
pub open spec fn trimmed_end(s: Seq<char>) -> Seq<char>
    decreases s.len(),
{
    if s.len() > 0 && is_space_char(s.last()) {
        trimmed_end(s.drop_last())
    } else {
        s
    }
}

/// `s` without the white space at its two ends.
pub open spec fn trimmed(s: Seq<char>) -> Seq<char> {
    trimmed_end(trimmed_start(s))
}

/// Cuts leading white space.
pub fn trim_start_chars(v: &[char]) -> (r: Vec<char>)
    ensures
        r@ == trimmed_start(v@),
{
    let mut i: usize = 0;
    assert(v@.skip(0) == v@);
    while i < v.len() && is_space(v[i])
        invariant
            i <= v@.len(),
            trimmed_start(v@) == trimmed_start(v@.skip(i as int)),
        decreases v@.len() - i,
    {
        assert(v@.skip(i as int).drop_first() == v@.skip(i + 1));
        i = i + 1;
    }
    assert(v@.subrange(i as int, v@.len() as int) == v@.skip(i as int));
    sub_chars(v, i, v.len())
}

/// Cuts trailing white space.
pub fn trim_end_chars(v: &[char]) -> (r: Vec<char>)
    ensures
        r@ == trimmed_end(v@),
{
    let mut n: usize = v.len();
    assert(v@.take(n as int) == v@);
    while n > 0 && is_space(v[n - 1])
        invariant
            n <= v@.len(),
            trimmed_end(v@) == trimmed_end(v@.take(n as int)),
        decreases n,
    {
        assert(v@.take(n as int).drop_last() == v@.take(n - 1));
        n = n - 1;
    }
    assert(v@.subrange(0, n as int) == v@.take(n as int));
    sub_chars(v, 0, n)
}

/// Cuts white space at both ends.
pub fn trim_chars(v: &[char]) -> (r: Vec<char>)
    ensures
        r@ == trimmed(v@),
{
    let a = trim_start_chars(v);
    trim_end_chars(&a)
}

/// Cuts white space at both ends of a string.
pub fn trim_text(s: &str) -> (r: String)
    ensures
        r@ == trimmed(s@),
{
    let v = chars_of(s);
    let t = trim_chars(&v);
    text_of(&t)
}

/// Whether `s` begins with `prefix`.
pub open spec fn begins_with(s: Seq<char>, prefix: Seq<char>) -> bool {
    prefix.len() <= s.len() && s.take(prefix.len() as int) == prefix
}

/// Whether `s` ends with `suffix`.
pub open spec fn finishes_with(s: Seq<char>, suffix: Seq<char>) -> bool {
    suffix.len() <= s.len() && s.skip(s.len() - suffix.len()) == suffix
}

/// Whether `needle` stands in `s` at `at`.
pub open spec fn occurs_at(s: Seq<char>, needle: Seq<char>, at: int) -> bool {
    0 <= at && at + needle.len() <= s.len() && s.subrange(at, at + needle.len()) == needle
}

/// Tests whether `needle` stands in `s` at `at`.
pub fn occurs(s: &[char], needle: &[char], at: usize) -> (r: bool)
    requires
        at <= s@.len(),
    ensures
        r == occurs_at(s@, needle@, at as int),
{
    if needle.len() > s.len() - at {
        return false;
    }
    let mut i: usize = 0;
    while i < needle.len()
        invariant
            at + needle@.len() <= s.len(),
            i <= needle@.len(),
            forall|j: int| 0 <= j < i ==> s@[at + j] == needle@[j],
        decreases needle@.len() - i,
    {
        if s[at + i] != needle[i] {
            proof {
                if s@.subrange(at as int, at + needle@.len()) == needle@ {
                    assert(s@.subrange(at as int, at + needle@.len())[i as int] == needle@[i as int]);
                }
            }
            return false;
        }
        i = i + 1;
    }
    assert(s@.subrange(at as int, at + needle@.len()) =~= needle@);
    true
}

/// Tests a string's beginning.
pub fn has_prefix(s: &str, prefix: &str) -> (r: bool)
    ensures
        r == begins_with(s@, prefix@),
{
    let v = chars_of(s);
    let p = chars_of(prefix);
    let r = occurs(&v, &p, 0);
    proof {
        if p@.len() <= v@.len() {
            assert(v@.subrange(0, p@.len() as int) == v@.take(p@.len() as int));
        }
    }
    r
}

/// Tests a string's ending.
pub fn has_suffix(s: &str, suffix: &str) -> (r: bool)
    ensures
        r == finishes_with(s@, suffix@),
{
    let v = chars_of(s);
    let p = chars_of(suffix);
    if p.len() > v.len() {
        return false;
    }
    let at: usize = v.len() - p.len();
    assert(v@.subrange(at as int, v@.len() as int) == v@.skip(at as int));
    occurs(&v, &p, at)
}

/// The first place at or after `from` where `needle` stands in `s`.
pub open spec fn found_from(s: Seq<char>, needle: Seq<char>, from: int) -> Option<int>
    decreases s.len() + 1 - from,
{
    if from < 0 || from > s.len() {
        None
    } else if occurs_at(s, needle, from) {
        Some(from)
    } else {
        found_from(s, needle, from + 1)
    }
}

/// Finds the first place at or after `from` where `needle` stands in `s`.
pub fn find_from(s: &[char], needle: &[char], from: usize) -> (r: Option<usize>)
    requires
        from <= s@.len(),
    ensures
        match r {
            Some(i) => found_from(s@, needle@, from as int) == Some(i as int) && occurs_at(
                s@,
                needle@,
                i as int,
            ) && from <= i,
            None => found_from(s@, needle@, from as int) is None,
        },
{
    let mut i: usize = from;
    loop
        invariant
            from <= i <= s@.len(),
            found_from(s@, needle@, from as int) == found_from(s@, needle@, i as int),
        decreases s@.len() - i,
    {
        if occurs(s, needle, i) {
            return Some(i);
        }
        if i == s.len() {
            assert(found_from(s@, needle@, i + 1) is None);
            return None;
        }
        i = i + 1;
    }
}

/// What `found_from` finds is the first place where the needle stands.
pub proof fn lemma_found_is_first(s: Seq<char>, needle: Seq<char>, from: int)
    requires
        0 <= from,
    ensures
        match found_from(s, needle, from) {
            Some(i) => from <= i && occurs_at(s, needle, i) && forall|j: int|
                from <= j < i ==> !occurs_at(s, needle, j),
            None => forall|j: int| from <= j ==> !occurs_at(s, needle, j),
        },
    decreases s.len() + 1 - from,
{
    if from <= s.len() && !occurs_at(s, needle, from) {
        lemma_found_is_first(s, needle, from + 1);
    }
}

/// The character of a decimal digit.
pub open spec fn digit_char(d: int) -> char {
    (48 + d) as char
}

/// Whether `c` is one of `0` to `9`.
pub open spec fn is_digit_char(c: char) -> bool {
    48 <= c as u32 <= 57
}

/// The decimal digits of `n`, without leading zeros.
pub open spec fn nat_text(n: nat) -> Seq<char>
    decreases n,
{
    if n < 10 {
        seq![digit_char(n as int)]
    } else {
        nat_text(n / 10).push(digit_char((n % 10) as int))
    }
}

/// The decimal notation of `i`, with `-` before a negative number.
pub open spec fn int_text(i: int) -> Seq<char> {
    if i < 0 {
        seq!['-'] + nat_text((-i) as nat)
    } else {
        nat_text(i as nat)
    }
}

/// Whether every character of `s` is a decimal digit.
pub open spec fn all_digits(s: Seq<char>) -> bool {
    forall|i: int| 0 <= i < s.len() ==> is_digit_char(#[trigger] s[i])
}

/// The number that the decimal digits of `s` write.
pub open spec fn digits_value(s: Seq<char>) -> nat
    decreases s.len(),
{
    if s.len() == 0 {
        0
    } else {
        digits_value(s.drop_last()) * 10 + (s.last() as u32 - 48) as nat
    }
}

/// The integer that `s` writes: digits after at most one sign.
pub open spec fn int_of_text(s: Seq<char>) -> Option<int> {
    if s.len() == 0 {
        None
    } else if s[0] == '-' || s[0] == '+' {
        if s.len() > 1 && all_digits(s.skip(1)) {
            Some(
                if s[0] == '-' {
                    -(digits_value(s.skip(1)) as int)
                } else {
                    digits_value(s.skip(1)) as int
                },
            )
        } else {
            None
        }
    } else if all_digits(s) {
        Some(digits_value(s) as int)
    } else {
        None
    }
}

/// The `i64` that `s` writes, if it writes one that fits.
pub open spec fn i64_of_text(s: Seq<char>) -> Option<int> {
    match int_of_text(s) {
        Some(i) if i64::MIN <= i <= i64::MAX => Some(i),
        _ => None,
    }
}

/// The `u64` that `s` writes, if it writes one that fits; a `-` is refused.
pub open spec fn u64_of_text(s: Seq<char>) -> Option<int> {
    match int_of_text(s) {
        Some(i) if 0 <= i <= u64::MAX && s[0] != '-' => Some(i),
        _ => None,
    }
}

/// The decimal notation of an unsigned number.
pub fn u64_text(n: u64) -> (r: String)
    ensures
        r@ == nat_text(n as nat),
    decreases n,
{
    if n < 10 {
        let mut s = String::new();
        s.push((48u8 + n as u8) as char);
        assert(s@ =~= nat_text(n as nat));
        s
    } else {
        let mut s = u64_text(n / 10);
        s.push((48u8 + (n % 10) as u8) as char);
        s
    }
}

/// The decimal notation of a signed number.
pub fn i64_text(i: i64) -> (r: String)
    ensures
        r@ == int_text(i as int),
{
    if i >= 0 {
        u64_text(i as u64)
    } else {
        let m: u64 = if i == i64::MIN {
            0x8000_0000_0000_0000u64
        } else {
            (-i) as u64
        };
        let mut s = String::new();
        s.push('-');
        let t = u64_text(m);
        s.append(t.as_str());
        assert(s@ =~= int_text(i as int));
        s
    }
}

proof fn lemma_digits_value_grows(s: Seq<char>, n: int)
    requires
        0 <= n <= s.len(),
        all_digits(s),
    ensures
        digits_value(s.take(n)) <= digits_value(s),
    decreases s.len(),
{
    if n == s.len() {
        assert(s.take(n) == s);
    } else {
        assert(all_digits(s.drop_last()));
        lemma_digits_value_grows(s.drop_last(), n);
        assert(s.drop_last().take(n) == s.take(n));
    }
}

/// The magnitude of the digits `v[from..]`: `None` when a character is no
/// digit or when the number does not fit.
fn magnitude(v: &[char], from: usize) -> (r: Option<u64>)
    requires
        from <= v@.len(),
    ensures
        match r {
            Some(n) => all_digits(v@.skip(from as int)) && n == digits_value(v@.skip(from as int)),
            None => all_digits(v@.skip(from as int)) ==> digits_value(v@.skip(from as int))
                > u64::MAX,
        },
{
    let ghost s = v@.skip(from as int);
    let mut n: u64 = 0;
    let mut i: usize = from;
    while i < v.len()
        invariant
            from <= i <= v@.len(),
            s == v@.skip(from as int),
            all_digits(s.take(i - from)),
            n == digits_value(s.take(i - from)),
        decreases v@.len() - i,
    {
        let c: u32 = v[i] as u32;
        assert(s[i - from] == v@[i as int]);
        let ghost next = s.take(i + 1 - from);
        assert(next.drop_last() == s.take(i - from));
        assert(next.last() == v@[i as int]);
        if c < 48 || c > 57 {
            return None;
        }
        let d: u64 = (c - 48) as u64;
        assert(digits_value(next) == n * 10 + d);
        if n > (u64::MAX - d) / 10 {
            proof {
                assert(n * 10 + d > u64::MAX);
                if all_digits(s) {
                    lemma_digits_value_grows(s, i + 1 - from);
                }
            }
            return None;
        }
        n = n * 10 + d;
        assert(all_digits(next)) by {
            assert forall|k: int| 0 <= k < next.len() implies is_digit_char(#[trigger] next[k]) by {
                if k < i - from {
                    assert(next[k] == s.take(i - from)[k]);
                }
            }
        }
        i = i + 1;
    }
    assert(s.take(v@.len() - from) == s);
    Some(n)
}

/// Reads an unsigned decimal number.
pub fn parse_u64(s: &str) -> (r: Option<u64>)
    ensures
        match r {
            Some(n) => u64_of_text(s@) == Some(n as int),
            None => u64_of_text(s@) is None,
        },
{
    let v = chars_of(s);
    if v.len() == 0 {
        return None;
    }
    assert(v@.skip(0) == v@);
    if v[0] == '-' {
        return None;
    }
    if v[0] == '+' {
        if v.len() == 1 {
            return None;
        }
        magnitude(&v, 1)
    } else {
        magnitude(&v, 0)
    }
}

/// Reads a signed decimal number.
pub fn parse_i64(s: &str) -> (r: Option<i64>)
    ensures
        match r {
            Some(n) => i64_of_text(s@) == Some(n as int),
            None => i64_of_text(s@) is None,
        },
{
    let v = chars_of(s);
    if v.len() == 0 {
        return None;
    }
    assert(v@.skip(0) == v@);
    if v[0] == '-' || v[0] == '+' {
        if v.len() == 1 {
            return None;
        }
        match magnitude(&v, 1) {
            None => None,
            Some(m) => {
                if v[0] == '+' {
                    if m <= i64::MAX as u64 {
                        Some(m as i64)
                    } else {
                        None
                    }
                } else if m < 0x8000_0000_0000_0000u64 {
                    Some(-(m as i64))
                } else if m == 0x8000_0000_0000_0000u64 {
                    Some(i64::MIN)
                } else {
                    None
                }
            },
        }
    } else {
        match magnitude(&v, 0) {
            None => None,
            Some(m) => if m <= i64::MAX as u64 {
                Some(m as i64)
            } else {
                None
            },
        }
    }
}

pub proof fn lemma_nat_text_reads_back(n: nat)
    ensures
        all_digits(nat_text(n)),
        nat_text(n).len() > 0,
        digits_value(nat_text(n)) == n,
    decreases n,
{
    if n < 10 {
        let s = nat_text(n);
        assert(s.drop_last() == Seq::<char>::empty());
        assert(digits_value(s.drop_last()) == 0);
        assert(s.last() as u32 == 48 + n);
    } else {
        lemma_nat_text_reads_back(n / 10);
        let s = nat_text(n);
        assert(s.drop_last() == nat_text(n / 10));
        assert(s.last() as u32 == 48 + n % 10);
    }
}

/// Decimal notation reads back as the number it was made from.
pub proof fn law_int_text_reads_back(i: int)
    ensures
        int_of_text(int_text(i)) == Some(i),
{
    if i < 0 {
        lemma_nat_text_reads_back((-i) as nat);
        assert(int_text(i).skip(1) == nat_text((-i) as nat));
    } else {
        lemma_nat_text_reads_back(i as nat);
        let s = int_text(i);
        assert(is_digit_char(s[0]));
    }
}

/// Whether a character outside ASCII is a letter or a numeral by Unicode's
/// tables, as `char::is_alphanumeric` reports it.
pub uninterp spec fn unicode_alphanumeric(c: char) -> bool;

/// Whether a character outside ASCII is a letter by Unicode's tables, as
/// `char::is_alphabetic` reports it.
pub uninterp spec fn unicode_alphabetic(c: char) -> bool;

/// `char::is_alphanumeric`: whether Unicode's tables class `c` as a letter or
/// a numeral. The result depends on `c` alone.
#[verifier::external_body]
fn std_is_alphanumeric(c: char) -> (r: bool)
    ensures
        r == unicode_alphanumeric(c),
{
    c.is_alphanumeric()
}

/// `char::is_alphabetic`: whether Unicode's tables class `c` as a letter. The
/// result depends on `c` alone; a letter is also alphanumeric.
#[verifier::external_body]
fn std_is_alphabetic(c: char) -> (r: bool)
    ensures
        r == unicode_alphabetic(c),
        r ==> unicode_alphanumeric(c),
{
    c.is_alphabetic()
}

/// Whether `c` is a letter of the ASCII alphabet.
pub open spec fn is_ascii_letter(c: char) -> bool {
    65 <= c as u32 <= 90 || 97 <= c as u32 <= 122
}

/// Whether `c` is a letter.
pub open spec fn is_letter_char(c: char) -> bool {
    if (c as u32) < 128 {
        is_ascii_letter(c)
    } else {
        unicode_alphabetic(c)
    }
}

/// Whether `c` can stand in a variable's name: a letter, a numeral or `_`.
pub open spec fn is_name_char(c: char) -> bool {
    if (c as u32) < 128 {
        is_ascii_letter(c) || is_digit_char(c) || c == '_'
    } else {
        unicode_alphanumeric(c)
    }
}

/// Tests whether `c` is a letter.
pub fn is_letter(c: char) -> (r: bool)
    ensures
        r == is_letter_char(c),
        r ==> is_name_char(c),
{
    let u: u32 = c as u32;
    if u < 128 {
        (65 <= u && u <= 90) || (97 <= u && u <= 122)
    } else {
        std_is_alphabetic(c)
    }
}

/// Tests whether `c` can stand in a variable's name.
pub fn is_name(c: char) -> (r: bool)
    ensures
        r == is_name_char(c),
{
    let u: u32 = c as u32;
    if u < 128 {
        (65 <= u && u <= 90) || (97 <= u && u <= 122) || (48 <= u && u <= 57) || c == '_'
    } else {
        std_is_alphanumeric(c)
    }
}

/// The last place before `n` where `c` stands in `s`.
pub open spec fn last_place(s: Seq<char>, c: char, n: int) -> Option<int>
    decreases n,
{
    if n <= 0 {
        None
    } else if s[n - 1] == c {
        Some(n - 1)
    } else {
        last_place(s, c, n - 1)
    }
}

/// Finds the last place where `c` stands in `v`.
pub fn find_last(v: &[char], c: char) -> (r: Option<usize>)
    ensures
        match r {
            Some(i) => last_place(v@, c, v@.len() as int) == Some(i as int) && i < v@.len()
                && v@[i as int] == c,
            None => last_place(v@, c, v@.len() as int) is None,
        },
{
    let mut n: usize = v.len();
    while n > 0
        invariant
            n <= v@.len(),
            last_place(v@, c, v@.len() as int) == last_place(v@, c, n as int),
        decreases n,
    {
        if v[n - 1] == c {
            return Some(n - 1);
        }
        n = n - 1;
    }
    None
}

/// The pieces of `s` from `i` on, cut at each place where `sep` stands. An
/// empty separator cuts before and after every character.
pub open spec fn pieces_from(s: Seq<char>, sep: Seq<char>, i: int) -> Seq<Seq<char>>
    decreases s.len() - i,
    when 0 <= i <= s.len() && sep.len() > 0
    via pieces_from_decreases
{
    match found_from(s, sep, i) {
        Some(j) => seq![s.subrange(i, j)] + pieces_from(s, sep, j + sep.len()),
        None => seq![s.skip(i)],
    }
}

#[via_fn]
proof fn pieces_from_decreases(s: Seq<char>, sep: Seq<char>, i: int) {
    lemma_found_is_first(s, sep, i);
}

/// The pieces of `s`, cut at each place where `sep` stands; with an empty
/// separator, every character by itself between two empty pieces.
pub open spec fn pieces(s: Seq<char>, sep: Seq<char>) -> Seq<Seq<char>> {
    if sep.len() == 0 {
        seq![Seq::empty()] + single_chars(s) + seq![Seq::empty()]
    } else {
        pieces_from(s, sep, 0)
    }
}

/// Each character of `s` as a string.
pub open spec fn single_chars(s: Seq<char>) -> Seq<Seq<char>> {
    Seq::new(s.len(), |i: int| seq![s[i]])
}

/// Each character as a string.
pub fn single_char_texts(v: &[char]) -> (r: Vec<String>)
    ensures
        texts(r@) == single_chars(v@),
{
    let mut out: Vec<String> = Vec::new();
    let mut i: usize = 0;
    while i < v.len()
        invariant
            i <= v@.len(),
            texts(out@) == single_chars(v@).take(i as int),
        decreases v@.len() - i,
    {
        let mut t = String::new();
        t.push(v[i]);
        proof {
            assert(t@ =~= seq![v@[i as int]]);
            lemma_texts_push(out@, t);
            assert(single_chars(v@).take(i + 1) =~= single_chars(v@).take(i as int).push(t@));
        }
        out.push(t);
        i = i + 1;
    }
    assert(single_chars(v@).take(v@.len() as int) =~= single_chars(v@));
    out
}

/// Cuts a string at each place where `sep` stands.
pub fn split_texts(s: &str, sep: &str) -> (r: Vec<String>)
    ensures
        texts(r@) == pieces(s@, sep@),
{
    let v = chars_of(s);
    let p = chars_of(sep);
    let mut out: Vec<String> = Vec::new();
    if p.len() == 0 {
        out.push(String::new());
        let singles = single_char_texts(&v);
        assert(texts(out@) =~= seq![Seq::<char>::empty()]);
        extend_texts(&mut out, &singles);
        let last = String::new();
        proof {
            lemma_texts_push(out@, last);
        }
        out.push(last);
        assert(texts(out@) =~= pieces(s@, sep@));
        return out;
    }
    let mut i: usize = 0;
    assert(texts(out@) + pieces_from(v@, p@, 0) =~= pieces_from(v@, p@, 0));
    loop
        invariant_except_break
            i <= v@.len(),
            p@.len() > 0,
            pieces_from(v@, p@, 0) == texts(out@) + pieces_from(v@, p@, i as int),
        ensures
            texts(out@) == pieces_from(v@, p@, 0),
        decreases v@.len() - i,
    {
        match find_from(&v, &p, i) {
            Some(j) => {
                let part = sub_chars(&v, i, j);
                let t = text_of(&part);
                let ghost before = texts(out@);
                proof {
                    lemma_texts_push(out@, t);
                    let rest = pieces_from(v@, p@, j + p@.len());
                    assert(before + (seq![t@] + rest) =~= before.push(t@) + rest);
                }
                out.push(t);
                assert(j + p@.len() <= v.len());
                i = j + p.len();
            },
            None => {
                assert(v@.subrange(i as int, v@.len() as int) == v@.skip(i as int));
                let part = sub_chars(&v, i, v.len());
                let t = text_of(&part);
                let ghost before = texts(out@);
                proof {
                    lemma_texts_push(out@, t);
                    assert(before + seq![t@] =~= before.push(t@));
                }
                out.push(t);
                break;
            },
        }
    }
    out
}

/// The place of the first white space of `s` at or after `i`, or the end.
pub open spec fn word_end(s: Seq<char>, i: int) -> int
    decreases s.len() - i,
{
    if i < 0 || i >= s.len() {
        s.len() as int
    } else if is_space_char(s[i]) {
        i
    } else {
        word_end(s, i + 1)
    }
}

/// The words of `s` from `i` on: the runs of characters that are no white
/// space.
pub open spec fn words_from(s: Seq<char>, i: int) -> Seq<Seq<char>>
    decreases s.len() - i,
    when 0 <= i <= s.len()
    via words_from_decreases
{
    if i >= s.len() {
        Seq::empty()
    } else if is_space_char(s[i]) {
        words_from(s, i + 1)
    } else {
        seq![s.subrange(i, word_end(s, i))] + words_from(s, word_end(s, i))
    }
}

#[via_fn]
proof fn words_from_decreases(s: Seq<char>, i: int) {
    lemma_word_end(s, i);
}

/// A word's end lies after its start and inside the text.
pub proof fn lemma_word_end(s: Seq<char>, i: int)
    requires
        0 <= i <= s.len(),
    ensures
        i <= word_end(s, i) <= s.len(),
        i < s.len() && !is_space_char(s[i]) ==> i < word_end(s, i),
    decreases s.len() - i,
{
    if i < s.len() && !is_space_char(s[i]) {
        lemma_word_end(s, i + 1);
    }
}

/// Finds the first white space at or after `from`, or the end.
pub fn find_word_end(v: &[char], from: usize) -> (r: usize)
    requires
        from <= v@.len(),
    ensures
        r == word_end(v@, from as int),
        from <= r <= v@.len(),
        from < v@.len() && !is_space_char(v@[from as int]) ==> from < r,
{
    let mut i: usize = from;
    while i < v.len() && !is_space(v[i])
        invariant
            from <= i <= v@.len(),
            word_end(v@, from as int) == word_end(v@, i as int),
            from < v@.len() && !is_space_char(v@[from as int]) && i == from ==> i < v@.len(),
        decreases v@.len() - i,
    {
        i = i + 1;
    }
    i
}

/// Cuts a string into words at its white space.
pub fn split_words(s: &str) -> (r: Vec<String>)
    ensures
        texts(r@) == words_from(s@, 0),
{
    let v = chars_of(s);
    let mut out: Vec<String> = Vec::new();
    let mut i: usize = 0;
    assert(texts(out@) + words_from(v@, 0) =~= words_from(v@, 0));
    while i < v.len()
        invariant
            i <= v@.len(),
            words_from(v@, 0) == texts(out@) + words_from(v@, i as int),
        decreases v@.len() - i,
    {
        if is_space(v[i]) {
            i = i + 1;
        } else {
            let j: usize = find_word_end(&v, i);
            let part = sub_chars(&v, i, j);
            let t = text_of(&part);
            let ghost before = texts(out@);
            proof {
                lemma_texts_push(out@, t);
                let rest = words_from(v@, j as int);
                assert(before + (seq![t@] + rest) =~= before.push(t@) + rest);
            }
            out.push(t);
            i = j;
        }
    }
    assert(texts(out@) + Seq::<Seq<char>>::empty() =~= texts(out@));
    out
}

/// `s` written `n` times in a row.
pub open spec fn repeated(s: Seq<char>, n: nat) -> Seq<char>
    decreases n,
{
    if n == 0 {
        Seq::empty()
    } else {
        repeated(s, (n - 1) as nat) + s
    }
}

/// Writes a string `n` times in a row.
pub fn repeat_text(s: &str, n: usize) -> (r: String)
    ensures
        r@ == repeated(s@, n as nat),
{
    let mut out = String::new();
    let mut i: usize = 0;
    while i < n
        invariant
            i <= n,
            out@ == repeated(s@, i as nat),
        decreases n - i,
    {
        out.append(s);
        i = i + 1;
    }
    out
}

/// Whether `a` comes before `b` or equals it, character by character from
/// position `i` on, where a shorter string comes first.
pub open spec fn ordered_from(a: Seq<char>, b: Seq<char>, i: int) -> bool
    decreases a.len() - i,
{
    if i < 0 || i >= a.len() {
        true
    } else if i >= b.len() {
        false
    } else if a[i] != b[i] {
        (a[i] as int) < (b[i] as int)
    } else {
        ordered_from(a, b, i + 1)
    }
}

/// Whether `a` comes before `b` or equals it.
pub open spec fn ordered(a: Seq<char>, b: Seq<char>) -> bool {
    ordered_from(a, b, 0)
}

/// The code point of a character.
pub fn code_of(c: char) -> (r: u32)
    ensures
        r == c as int,
{
    c as u32
}

/// Tests the order of two strings.
pub fn in_order(a: &str, b: &str) -> (r: bool)
    ensures
        r == ordered(a@, b@),
{
    let x = chars_of(a);
    let y = chars_of(b);
    let mut i: usize = 0;
    while i < x.len()
        invariant
            i <= x@.len(),
            x@ == a@,
            y@ == b@,
            ordered(a@, b@) == ordered_from(x@, y@, i as int),
        decreases x@.len() - i,
    {
        if i >= y.len() {
            return false;
        }
        if x[i] != y[i] {
            return code_of(x[i]) < code_of(y[i]);
        }
        i = i + 1;
    }
    true
}

/// Of two strings one comes before the other, and only equal ones come before
/// each other.
pub proof fn lemma_ordered_total(a: Seq<char>, b: Seq<char>, i: int)
    requires
        0 <= i <= a.len(),
        i <= b.len(),
        forall|j: int| 0 <= j < i ==> a[j] == b[j],
    ensures
        ordered_from(a, b, i) || ordered_from(b, a, i),
        ordered_from(a, b, i) && ordered_from(b, a, i) ==> a == b,
    decreases a.len() - i,
{
    if i < a.len() && i < b.len() {
        if a[i] == b[i] {
            lemma_ordered_total(a, b, i + 1);
        }
    } else if i == a.len() && i == b.len() {
        assert(a =~= b);
    }
}

/// The order of strings carries over a string in between.
pub proof fn lemma_ordered_transitive(a: Seq<char>, b: Seq<char>, c: Seq<char>, i: int)
    requires
        0 <= i,
        ordered_from(a, b, i),
        ordered_from(b, c, i),
    ensures
        ordered_from(a, c, i),
    decreases a.len() - i,
{
    if i < a.len() && i < b.len() && i < c.len() && a[i] == b[i] && b[i] == c[i] {
        lemma_ordered_transitive(a, b, c, i + 1);
    }
}

/// `list` with `item` at the place where it belongs: before the first element
/// that it does not come after. An element that is there already is not added.
pub open spec fn with_name(list: Seq<Seq<char>>, item: Seq<char>) -> Seq<Seq<char>>
    decreases list.len(),
{
    if list.len() == 0 {
        seq![item]
    } else if list.last() == item {
        list
    } else if ordered(list.last(), item) {
        list.push(item)
    } else {
        with_name(list.drop_last(), item).push(list.last())
    }
}

/// The distinct elements of `list`, in order.
pub open spec fn sorted_set(list: Seq<Seq<char>>) -> Seq<Seq<char>>
    decreases list.len(),
{
    if list.len() == 0 {
        Seq::empty()
    } else {
        with_name(sorted_set(list.drop_last()), list.last())
    }
}

/// Whether every element comes strictly before those after it.
pub open spec fn strictly_sorted(list: Seq<Seq<char>>) -> bool {
    forall|i: int, j: int|
        0 <= i < j < list.len() ==> ordered(#[trigger] list[i], #[trigger] list[j]) && list[i]
            != list[j]
}

proof fn lemma_with_name(list: Seq<Seq<char>>, item: Seq<char>)
    requires
        strictly_sorted(list),
    ensures
        strictly_sorted(with_name(list, item)),
        forall|x: Seq<char>| #[trigger]
            with_name(list, item).contains(x) <==> list.contains(x) || x == item,
    decreases list.len(),
{
    let out = with_name(list, item);
    if list.len() == 0 {
        assert forall|x: Seq<char>| out.contains(x) <==> list.contains(x) || x == item by {
            assert(out[0] == item);
        }
    } else if list.last() == item {
        assert(list[list.len() - 1] == item);
    } else if ordered(list.last(), item) {
        assert forall|i: int, j: int| 0 <= i < j < out.len() implies ordered(
            #[trigger] out[i],
            #[trigger] out[j],
        ) && out[i] != out[j] by {
            if j == list.len() && i < list.len() - 1 {
                assert(ordered(list[i], list[list.len() - 1]));
                lemma_ordered_transitive(list[i], list.last(), item, 0);
                if list[i] == item {
                    lemma_ordered_total(list.last(), item, 0);
                }
            }
        }
        assert forall|x: Seq<char>| out.contains(x) <==> list.contains(x) || x == item by {
            assert(out[list.len() as int] == item);
            if list.contains(x) {
                let k = choose|k: int| 0 <= k < list.len() && list[k] == x;
                assert(out[k] == x);
            }
        }
    } else {
        let front = list.drop_last();
        lemma_with_name(front, item);
        lemma_ordered_total(list.last(), item, 0);
        let inner = with_name(front, item);
        assert forall|i: int, j: int| 0 <= i < j < out.len() implies ordered(
            #[trigger] out[i],
            #[trigger] out[j],
        ) && out[i] != out[j] by {
            assert(out[i] == inner[i]);
            if j < inner.len() {
                assert(out[j] == inner[j]);
            } else {
                assert(out[j] == list.last());
                assert(inner.contains(inner[i]));
                assert(front.contains(inner[i]) || inner[i] == item);
                if inner[i] != item {
                    let k = choose|k: int| 0 <= k < front.len() && front[k] == inner[i];
                    assert(ordered(list[k], list[list.len() - 1]));
                }
            }
        }
        assert forall|x: Seq<char>| out.contains(x) <==> list.contains(x) || x == item by {
            assert(out[inner.len() as int] == list.last());
            if out.contains(x) {
                let k = choose|k: int| 0 <= k < out.len() && out[k] == x;
                if k < inner.len() {
                    assert(inner[k] == x);
                    assert(inner.contains(x));
                    assert(front.contains(x) || x == item);
                    if x != item {
                        let m = choose|m: int| 0 <= m < front.len() && front[m] == x;
                        assert(list[m] == x);
                    }
                } else {
                    assert(list[list.len() - 1] == x);
                }
            }
            if list.contains(x) || x == item {
                if x == item || front.contains(x) {
                    assert(inner.contains(x));
                    let k = choose|k: int| 0 <= k < inner.len() && inner[k] == x;
                    assert(out[k] == x);
                } else {
                    let k = choose|k: int| 0 <= k < list.len() && list[k] == x;
                    if k < list.len() - 1 {
                        assert(front[k] == x);
                    }
                }
            }
        }
    }
}

/// `sorted_set` holds exactly the elements of the list, each once and in
/// order.
pub proof fn law_sorted_set(list: Seq<Seq<char>>)
    ensures
        strictly_sorted(sorted_set(list)),
        forall|x: Seq<char>| #[trigger] sorted_set(list).contains(x) <==> list.contains(x),
    decreases list.len(),
{
    if list.len() > 0 {
        let front = list.drop_last();
        law_sorted_set(front);
        lemma_with_name(sorted_set(front), list.last());
        assert forall|x: Seq<char>| sorted_set(list).contains(x) <==> list.contains(x) by {
            if list.contains(x) {
                let k = choose|k: int| 0 <= k < list.len() && list[k] == x;
                if k < front.len() {
                    assert(front[k] == x);
                }
            }
            if front.contains(x) {
                let k = choose|k: int| 0 <= k < front.len() && front[k] == x;
                assert(list[k] == x);
            }
            assert(list[list.len() - 1] == list.last());
        }
    }
}

fn insert_name(list: &mut Vec<String>, item: String)
    ensures
        texts(final(list)@) == with_name(texts(old(list)@), item@),
    decreases old(list)@.len(),
{
    let ghost before = texts(list@);
    match list.pop() {
        None => {
            proof {
                lemma_texts_push(list@, item);
            }
            list.push(item);
            assert(texts(list@) =~= seq![item@]);
        },
        Some(last) => {
            assert(texts(list@) =~= before.drop_last());
            assert(before.last() == last@);
            if same(last.as_str(), item.as_str()) {
                proof {
                    lemma_texts_push(list@, last);
                }
                list.push(last);
                assert(texts(list@) =~= before);
            } else if in_order(last.as_str(), item.as_str()) {
                proof {
                    lemma_texts_push(list@, last);
                    lemma_texts_push(list@.push(last), item);
                }
                list.push(last);
                list.push(item);
                assert(texts(list@) =~= before.push(item@));
            } else {
                insert_name(list, item);
                proof {
                    lemma_texts_push(list@, last);
                }
                list.push(last);
            }
        },
    }
}

/// The distinct strings of a list, in order.
pub fn sort_names(list: &[String]) -> (r: Vec<String>)
    ensures
        texts(r@) == sorted_set(texts(list@)),
{
    let mut out: Vec<String> = Vec::new();
    let ghost all = texts(list@);
    let mut i: usize = 0;
    assert(texts(out@) =~= sorted_set(all.take(0)));
    while i < list.len()
        invariant
            i <= list@.len(),
            all == texts(list@),
            texts(out@) == sorted_set(all.take(i as int)),
        decreases list@.len() - i,
    {
        insert_name(&mut out, list[i].clone());
        proof {
            assert(all.take(i + 1).drop_last() =~= all.take(i as int));
            assert(all.take(i + 1).last() == list@[i as int]@);
        }
        i = i + 1;
    }
    assert(all.take(list@.len() as int) =~= all);
    out
}

/// Whether every character of a text is white space.
pub open spec fn all_space(s: Seq<char>) -> bool {
    forall|i: int| 0 <= i < s.len() ==> is_space_char(#[trigger] s[i])
}

proof fn lemma_start_goes(a: Seq<char>, s: Seq<char>)
    requires
        all_space(a),
    ensures
        trimmed_start(a + s) == trimmed_start(s),
    decreases a.len(),
{
    if a.len() > 0 {
        assert((a + s)[0] == a[0]);
        assert((a + s).drop_first() =~= a.drop_first() + s);
        assert forall|i: int| 0 <= i < a.drop_first().len() implies is_space_char(
            #[trigger] a.drop_first()[i],
        ) by {
            assert(a.drop_first()[i] == a[i + 1]);
        }
        lemma_start_goes(a.drop_first(), s);
    } else {
        assert(a + s =~= s);
    }
}

proof fn lemma_end_goes(s: Seq<char>, b: Seq<char>)
    requires
        all_space(b),
    ensures
        trimmed_end(s + b) == trimmed_end(s),
    decreases b.len(),
{
    if b.len() > 0 {
        assert((s + b).last() == b.last());
        assert(b[b.len() - 1] == b.last());
        assert((s + b).drop_last() =~= s + b.drop_last());
        assert forall|i: int| 0 <= i < b.drop_last().len() implies is_space_char(
            #[trigger] b.drop_last()[i],
        ) by {
            assert(b.drop_last()[i] == b[i]);
        }
        lemma_end_goes(s, b.drop_last());
    } else {
        assert(s + b =~= s);
    }
}

/// Trimming takes the white space off both ends of a text, and nothing else.
pub proof fn law_trimming_takes_the_ends(a: Seq<char>, m: Seq<char>, b: Seq<char>)
    requires
        all_space(a),
        all_space(b),
        m.len() > 0 ==> !is_space_char(m[0]) && !is_space_char(m.last()),
    ensures
        trimmed(a + m + b) == m,
        trimmed_start(a + m) == m,
        trimmed_end(m + b) == m,
{
    assert(a + m + b =~= a + (m + b));
    lemma_start_goes(a, m + b);
    lemma_start_goes(a, m);
    lemma_end_goes(m, b);
    if m.len() > 0 {
        assert((m + b)[0] == m[0]);
    } else {
        assert(m + b =~= b);
        assert(b + Seq::<char>::empty() =~= b);
        lemma_start_goes(b, Seq::empty());
        assert(m =~= Seq::<char>::empty());
    }
}

proof fn lemma_alike_until(head: Seq<char>, x: Seq<char>, y: Seq<char>, i: int)
    requires
        0 <= i <= head.len(),
    ensures
        ordered_from(head + x, head + y, i) == ordered_from(head + x, head + y, head.len() as int),
    decreases head.len() - i,
{
    if i < head.len() {
        assert((head + x)[i] == head[i] && (head + y)[i] == head[i]);
        lemma_alike_until(head, x, y, i + 1);
    }
}

/// Two texts are ordered by the first character in which they differ; a text
/// comes before every longer one that begins with it.
pub proof fn law_first_difference_orders(
    head: Seq<char>,
    c: char,
    d: char,
    x: Seq<char>,
    y: Seq<char>,
)
    ensures
        (c as int) < (d as int) ==> ordered(head + (seq![c] + x), head + (seq![d] + y)),
        (c as int) > (d as int) ==> !ordered(head + (seq![c] + x), head + (seq![d] + y)),
        ordered(head, head + (seq![d] + y)),
        !ordered(head + (seq![c] + x), head),
{
    let n = head.len() as int;
    lemma_alike_until(head, seq![c] + x, seq![d] + y, 0);
    assert((head + (seq![c] + x))[n] == c);
    assert((head + (seq![d] + y))[n] == d);
    let none = Seq::<char>::empty();
    assert(head + none =~= head);
    lemma_alike_until(head, none, seq![d] + y, 0);
    lemma_alike_until(head, seq![c] + x, none, 0);
}

proof fn lemma_absent_place(s: Seq<char>, c: char, k: int, n: int)
    requires
        0 <= k <= n <= s.len(),
        forall|i: int| k <= i < n ==> #[trigger] s[i] != c,
    ensures
        last_place(s, c, n) == last_place(s, c, k),
    decreases n - k,
{
    if n > k {
        assert(s[n - 1] != c);
        lemma_absent_place(s, c, k, n - 1);
    }
}

/// The last place of a character is the one behind which it does not stand
/// again.
pub proof fn law_last_place_is_last(a: Seq<char>, c: char, b: Seq<char>)
    requires
        !b.contains(c),
    ensures
        last_place(a + seq![c] + b, c, (a.len() + 1 + b.len()) as int) == Some(a.len() as int),
        last_place(b, c, b.len() as int) is None,
{
    let s = a + seq![c] + b;
    let n = a.len() as int;
    assert forall|i: int| n + 1 <= i < s.len() implies #[trigger] s[i] != c by {
        assert(s[i] == b[i - n - 1]);
        assert(b.contains(b[i - n - 1]));
    }
    lemma_absent_place(s, c, n + 1, s.len() as int);
    assert(s[n] == c);
    assert forall|i: int| 0 <= i < b.len() implies #[trigger] b[i] != c by {
        assert(b.contains(b[i]));
    }
    lemma_absent_place(b, c, 0, b.len() as int);
}

/// Digits count by their places: one more digit behind a number makes it ten
/// times as large and adds the digit. A sign stands before the digits; letters
/// and nothing at all are no number.
pub proof fn law_digits_count_by_place(s: Seq<char>, d: int, bad: char)
    requires
        s.len() > 0,
        all_digits(s),
        0 <= d < 10,
        !is_digit_char(bad),
    ensures
        match int_of_text(s) {
            Some(v) => {
                &&& int_of_text(s.push((48 + d) as char)) == Some(v * 10 + d)
                &&& int_of_text(seq!['-'] + s) == Some(-v)
                &&& int_of_text(seq!['+'] + s) == Some(v)
                &&& u64_of_text(seq!['-'] + s) is None
                &&& u64_of_text(s) == (if v <= u64::MAX {
                    Some(v)
                } else {
                    None
                })
                &&& i64_of_text(s) == (if v <= i64::MAX {
                    Some(v)
                } else {
                    None
                })
            },
            None => false,
        },
        int_of_text(s.push(bad)) is None,
        int_of_text(Seq::empty()) is None,
{
    let c = (48 + d) as char;
    let more = s.push(c);
    assert(is_digit_char(s[0]));
    assert(more.drop_last() =~= s);
    assert(more[0] == s[0]);
    assert forall|i: int| 0 <= i < more.len() implies is_digit_char(#[trigger] more[i]) by {
        if i < s.len() {
            assert(more[i] == s[i]);
        }
    }
    assert((seq!['-'] + s).skip(1) =~= s);
    assert((seq!['+'] + s).skip(1) =~= s);
    assert((seq!['-'] + s)[0] == '-');
    assert((seq!['+'] + s)[0] == '+');
    assert(s.push(bad)[0] == s[0]);
    assert(s.push(bad)[s.len() as int] == bad);
}

} // verus!
