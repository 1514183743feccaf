//! Characters, lines and fields of the decoded text files.

use vstd::prelude::*;

verus! {

/// Whether `c` has the Unicode property White_Space.
pub open spec fn is_space(c: char) -> bool {
    let u = c as u32;
    ||| 0x09 <= u <= 0x0D
    ||| u == 0x20
    ||| u == 0x85
    ||| u == 0xA0
    ||| u == 0x1680
    ||| 0x2000 <= u <= 0x200A
    ||| u == 0x2028
    ||| u == 0x2029
    ||| u == 0x202F
    ||| u == 0x205F
    ||| u == 0x3000
}

/// `s` without the white space at its start.
pub open spec fn trim_start(s: Seq<char>) -> Seq<char>
    decreases s.len(),
{
    if s.len() > 0 && is_space(s.first()) {
        trim_start(s.drop_first())
    } else {
        s
    }
}

/// `s` without the white space at its end.
pub open spec fn trim_end(s: Seq<char>) -> Seq<char>
    decreases s.len(),
{
    if s.len() > 0 && is_space(s.last()) {
        trim_end(s.drop_last())
    } else {
        s
    }
}

/// `s` without the white space at its start and at its end.
pub open spec fn trimmed(s: Seq<char>) -> Seq<char> {
    trim_end(trim_start(s))
}

/// The pieces of `s` between the occurrences of `sep`: one more piece than
/// there are separators, each of them free of `sep`.
pub open spec fn split(s: Seq<char>, sep: char) -> Seq<Seq<char>>
    decreases s.len(),
{
    if s.len() == 0 {
        seq![Seq::empty()]
    } else {
        let before = split(s.drop_last(), sep);
        if s.last() == sep {
            before.push(Seq::empty())
        } else {
            before.drop_last().push(before.last().push(s.last()))
        }
    }
}

/// `pieces` joined, with `sep` between each two.
pub open spec fn join(pieces: Seq<Seq<char>>, sep: char) -> Seq<char>
    decreases pieces.len(),
{
    if pieces.len() == 0 {
        Seq::empty()
    } else if pieces.len() == 1 {
        pieces[0]
    } else {
        join(pieces.drop_last(), sep).push(sep) + pieces.last()
    }
}

/// Whether `c` is one of the ten decimal digits.
pub open spec fn is_digit(c: char) -> bool {
    0x30 <= c as u32 <= 0x39
}

/// Whether `s` holds decimal digits only.
pub open spec fn all_digits(s: Seq<char>) -> bool {
    forall|i: int| 0 <= i < s.len() ==> is_digit(#[trigger] s[i])
}

/// The number that the decimal digits `digits` spell.
pub open spec fn decimal(digits: Seq<char>) -> nat
    decreases digits.len(),
{
    if digits.len() == 0 {
        0
    } else {
        decimal(digits.drop_last()) * 10 + (digits.last() as u32 - 0x30) as nat
    }
}

/// `s` without a plus sign at its head.
pub open spec fn unsigned_part(s: Seq<char>) -> Seq<char> {
    if s.len() > 0 && s[0] == '+' {
        s.skip(1)
    } else {
        s
    }
}

/// The byte that `s` spells: an optional plus sign, then one decimal digit or
/// more, with a value of at most 255. `None` for every other text.
pub open spec fn byte_of(s: Seq<char>) -> Option<u8> {
    let digits = unsigned_part(s);
    if digits.len() > 0 && all_digits(digits) && decimal(digits) <= u8::MAX {
        Some(decimal(digits) as u8)
    } else {
        None
    }
}

/// The bytes that the texts of `fields` spell, or `None` where one of them
/// spells none.
pub open spec fn bytes_of(fields: Seq<Seq<char>>) -> Option<Seq<u8>>
    decreases fields.len(),
{
    if fields.len() == 0 {
        Some(Seq::empty())
    } else {
        match (bytes_of(fields.drop_last()), byte_of(fields.last())) {
            (Some(head), Some(b)) => Some(head.push(b)),
            _ => None,
        }
    }
}

/// Trimming at the start takes a run of white space away, all of it: what is
/// left is the text from `at` on, and it does not start with white space.
pub proof fn lemma_trim_start(s: Seq<char>) -> (at: int)
    ensures
        0 <= at <= s.len(),
        trim_start(s) == s.subrange(at, s.len() as int),
        forall|i: int| 0 <= i < at ==> is_space(s[i]),
        at < s.len() ==> !is_space(s[at]),
    decreases s.len(),
{
    if s.len() > 0 && is_space(s.first()) {
        let rest = s.drop_first();
        let at = lemma_trim_start(rest);
        assert(rest.subrange(at, rest.len() as int) == s.subrange(at + 1, s.len() as int));
        assert forall|i: int| 0 <= i < at + 1 implies is_space(s[i]) by {
            if i > 0 {
                assert(s[i] == rest[i - 1]);
            }
        }
        if at < rest.len() {
            assert(s[at + 1] == rest[at]);
        }
        at + 1
    } else {
        assert(s.subrange(0, s.len() as int) == s);
        0
    }
}

/// Trimming at the end takes a run of white space away, all of it: what is
/// left is the text up to `at`, and it does not end in white space.
pub proof fn lemma_trim_end(s: Seq<char>) -> (at: int)
    ensures
        0 <= at <= s.len(),
        trim_end(s) == s.subrange(0, at),
        forall|i: int| at <= i < s.len() ==> is_space(s[i]),
        0 < at ==> !is_space(s[at - 1]),
    decreases s.len(),
{
    if s.len() > 0 && is_space(s.last()) {
        let rest = s.drop_last();
        let at = lemma_trim_end(rest);
        assert(rest.subrange(0, at) == s.subrange(0, at));
        assert forall|i: int| at <= i < s.len() implies is_space(s[i]) by {
            if i < rest.len() {
                assert(s[i] == rest[i]);
            }
        }
        if 0 < at {
            assert(s[at - 1] == rest[at - 1]);
        }
        at
    } else {
        assert(s.subrange(0, s.len() as int) == s);
        s.len() as int
    }
}

/// A trimmed text is the part of the text between a run of white space at
/// its start and one at its end, and has no white space at either end.
pub proof fn lemma_trimmed(s: Seq<char>) -> (part: (int, int))
    ensures
        0 <= part.0 <= part.1 <= s.len(),
        trimmed(s) == s.subrange(part.0, part.1),
        forall|i: int| 0 <= i < part.0 || part.1 <= i < s.len() ==> is_space(s[i]),
        trimmed(s).len() > 0 ==> !is_space(trimmed(s).first()) && !is_space(trimmed(s).last()),
        trimmed(trimmed(s)) == trimmed(s),
{
    let from = lemma_trim_start(s);
    let tail = s.subrange(from, s.len() as int);
    let len = lemma_trim_end(tail);
    assert(tail.subrange(0, len) == s.subrange(from, from + len));
    assert forall|i: int| 0 <= i < from || from + len <= i < s.len() implies is_space(s[i]) by {
        if i >= from + len {
            assert(s[i] == tail[i - from]);
        }
    }
    let t = trimmed(s);
    if t.len() > 0 {
        assert(t.first() == s[from]);
        assert(t.last() == tail[len - 1]);
        assert(trim_start(t) == t);
        assert(trim_end(t) == t);
    } else {
        assert(trim_start(t) == t);
        assert(trim_end(t) == t);
    }
    (from, from + len)
}

/// A number grows with every digit appended to it.
pub proof fn lemma_decimal_prefix(digits: Seq<char>, n: int)
    requires
        0 <= n <= digits.len(),
        all_digits(digits),
    ensures
        decimal(digits.take(n)) <= decimal(digits),
    decreases digits.len() - n,
{
    if n < digits.len() {
        lemma_decimal_prefix(digits, n + 1);
        assert(digits.take(n + 1).drop_last() == digits.take(n));
        assert(is_digit(digits[n]));
    } else {
        assert(digits.take(n) == digits);
    }
}

/// No piece of a split holds the separator, and there is one piece more than
/// there are separators: joining the pieces gives the text back.
pub proof fn lemma_split_join(s: Seq<char>, sep: char)
    ensures
        split(s, sep).len() >= 1,
        forall|i: int| 0 <= i < split(s, sep).len() ==> !(#[trigger] split(s, sep)[i]).contains(sep),
        join(split(s, sep), sep) == s,
    decreases s.len(),
{
    if s.len() == 0 {
        assert(forall|i: int|
            0 <= i < split(s, sep).len() ==> !(#[trigger] split(s, sep)[i]).contains(sep));
    } else {
        let before = split(s.drop_last(), sep);
        lemma_split_join(s.drop_last(), sep);
        let now = split(s, sep);
        if s.last() == sep {
            assert(now.drop_last() == before);
            assert(join(now, sep) == join(before, sep).push(sep) + Seq::<char>::empty());
            assert(join(now, sep) == s.drop_last().push(sep));
            assert(s.drop_last().push(s.last()) == s);
            assert forall|i: int| 0 <= i < now.len() implies !(#[trigger] now[i]).contains(sep) by {
                if i < before.len() {
                    assert(now[i] == before[i]);
                }
            }
        } else {
            let grown = before.last().push(s.last());
            assert(now.len() == before.len());
            assert forall|i: int| 0 <= i < now.len() implies !(#[trigger] now[i]).contains(sep) by {
                if i < before.len() - 1 {
                    assert(now[i] == before[i]);
                } else {
                    assert(now[i] == grown);
                    assert(!before[i].contains(sep));
                    if grown.contains(sep) {
                        let k = choose|k: int| 0 <= k < grown.len() && grown[k] == sep;
                        if k < before[i].len() {
                            assert(before[i][k] == sep);
                        }
                    }
                }
            }
            if before.len() == 1 {
                assert(join(before, sep) == before[0]);
                assert(join(now, sep) == grown);
            } else {
                assert(now.drop_last() == before.drop_last());
                assert(join(now, sep) == join(before.drop_last(), sep).push(sep) + grown);
                assert(join(before, sep) == join(before.drop_last(), sep).push(sep)
                    + before.last());
                assert(join(before.drop_last(), sep).push(sep) + grown == (join(
                    before.drop_last(),
                    sep,
                ).push(sep) + before.last()).push(s.last()));
            }
            assert(s.drop_last().push(s.last()) == s);
        }
    }
}

/// The characters of a string, in order.
pub fn chars_of(s: &str) -> (v: Vec<char>)
    ensures
        v@ == s@,
{
    let mut v: Vec<char> = Vec::new();
    for c in it: s.chars()
        invariant
            v@ == it.seq().take(it.index()),
            it.seq() == s@,
    {
        v.push(c);
    }
    v
}

/// Builds a string from its characters with `String::from_iter`.
///
/// Trusted: collecting characters into a `String` yields the string that
/// holds exactly these characters, in order.
#[verifier::external_body]
pub(crate) fn string_of(chars: &[char]) -> (s: String)
    ensures
        s@ == chars@,
{
    String::from_iter(chars.iter())
}

/// Tells white space from other characters.
pub fn is_whitespace(c: char) -> (r: bool)
    ensures
        r == is_space(c),
{
    let u: u32 = c as u32;
    (0x09 <= u && u <= 0x0D) || u == 0x20 || u == 0x85 || u == 0xA0 || u == 0x1680 || (0x2000 <= u
        && u <= 0x200A) || u == 0x2028 || u == 0x2029 || u == 0x202F || u == 0x205F || u == 0x3000
}

/// The part of `line` between its leading and its trailing white space.
pub fn trim(line: &[char]) -> (r: &[char])
    ensures
        r@ == trimmed(line@),
{
    let mut lo: usize = 0;
    proof {
        assert(line@.subrange(0, line@.len() as int) == line@);
    }
    while lo < line.len() && is_whitespace(line[lo])
        invariant
            0 <= lo <= line@.len(),
            trim_start(line@) == trim_start(line@.subrange(lo as int, line@.len() as int)),
        decreases line@.len() - lo,
    {
        proof {
            assert(line@.subrange(lo as int, line@.len() as int).drop_first() == line@.subrange(
                lo + 1,
                line@.len() as int,
            ));
        }
        lo += 1;
    }
    let mut hi: usize = line.len();
    while lo < hi && is_whitespace(line[hi - 1])
        invariant
            0 <= lo <= hi <= line@.len(),
            trimmed(line@) == trim_end(line@.subrange(lo as int, hi as int)),
        decreases hi,
    {
        proof {
            assert(line@.subrange(lo as int, hi as int).drop_last() == line@.subrange(
                lo as int,
                hi - 1,
            ));
        }
        hi -= 1;
    }
    vstd::slice::slice_subrange(line, lo, hi)
}

/// Cuts `line` at every occurrence of `sep`.
pub fn split_at(line: &[char], sep: char) -> (r: Vec<&[char]>)
    ensures
        r@.len() == split(line@, sep).len(),
        forall|i: int| 0 <= i < r@.len() ==> (#[trigger] r@[i])@ == split(line@, sep)[i],
{
    let mut pieces: Vec<&[char]> = Vec::new();
    let mut start: usize = 0;
    let mut i: usize = 0;
    let ghost mut done: Seq<Seq<char>> = Seq::empty();
    proof {
        assert(line@.take(0).len() == 0);
        assert(line@.subrange(0, 0) == Seq::<char>::empty());
        assert(done.push(Seq::<char>::empty()) == seq![Seq::<char>::empty()]);
    }
    while i < line.len()
        invariant
            0 <= start <= i <= line@.len(),
            pieces@.len() == done.len(),
            forall|k: int| 0 <= k < pieces@.len() ==> (#[trigger] pieces@[k])@ == done[k],
            split(line@.take(i as int), sep) == done.push(line@.subrange(start as int, i as int)),
        decreases line@.len() - i,
    {
        proof {
            assert(line@.take(i + 1).drop_last() == line@.take(i as int));
            assert(line@.subrange(start as int, i as int).push(line@[i as int]) == line@.subrange(
                start as int,
                i + 1,
            ));
            assert(done.push(line@.subrange(start as int, i as int)).drop_last() == done);
        }
        if line[i] == sep {
            pieces.push(vstd::slice::slice_subrange(line, start, i));
            proof {
                done = done.push(line@.subrange(start as int, i as int));
                assert(line@.subrange(i + 1, i + 1) == Seq::<char>::empty());
            }
            start = i + 1;
        }
        i += 1;
    }
    pieces.push(vstd::slice::slice_subrange(line, start, i));
    proof {
        assert(line@.take(i as int) == line@);
    }
    pieces
}

/// Reads a byte in decimal notation.
pub fn parse_u8(s: &[char]) -> (r: Option<u8>)
    ensures
        r == byte_of(s@),
{
    let from: usize = if s.len() > 0 && s[0] == '+' {
        1
    } else {
        0
    };
    if from == s.len() {
        return None;
    }
    let ghost digits = unsigned_part(s@);
    let mut value: u32 = 0;
    let mut i: usize = from;
    while i < s.len()
        invariant
            from <= i <= s@.len(),
            digits == unsigned_part(s@),
            digits.len() == s@.len() - from,
            forall|k: int| 0 <= k < digits.len() ==> digits[k] == s@[k + from],
            forall|k: int| 0 <= k < i - from ==> is_digit(#[trigger] digits[k]),
            value == decimal(digits.take(i - from)),
            value <= u8::MAX,
        decreases s@.len() - i,
    {
        let u: u32 = s[i] as u32;
        if u < 0x30 || u > 0x39 {
            proof {
                assert(digits[i - from] == s@[i as int]);
                assert(!is_digit(digits[i - from]));
            }
            return None;
        }
        proof {
            assert(digits[i - from] == s@[i as int]);
            assert(digits.take(i - from + 1).drop_last() == digits.take(i - from));
            assert(digits.take(i - from + 1).last() == s@[i as int]);
        }
        value = value * 10 + (u - 0x30);
        assert(value == decimal(digits.take(i - from + 1)));
        if value > 255 {
            proof {
                if all_digits(digits) {
                    lemma_decimal_prefix(digits, i - from + 1);
                }
            }
            return None;
        }
        i += 1;
    }
    proof {
        assert(digits.take(i - from) == digits);
    }
    Some(value as u8)
}

/// Reads every field as a byte; gives none where one field holds none.
pub fn parse_all(fields: &Vec<&[char]>) -> (r: Option<Vec<u8>>)
    ensures
        match r {
            Some(bytes) => bytes_of(fields@.map_values(|f: &[char]| f@)) == Some(bytes@),
            None => bytes_of(fields@.map_values(|f: &[char]| f@)) is None,
        },
{
    let ghost texts = fields@.map_values(|f: &[char]| f@);
    let mut bytes: Vec<u8> = Vec::new();
    let mut i: usize = 0;
    while i < fields.len()
        invariant
            0 <= i <= fields@.len(),
            texts == fields@.map_values(|f: &[char]| f@),
            bytes_of(texts.take(i as int)) == Some(bytes@),
        decreases fields@.len() - i,
    {
        proof {
            assert(texts.take(i + 1).drop_last() == texts.take(i as int));
        }
        match parse_u8(fields[i]) {
            Some(b) => {
                bytes.push(b);
            },
            None => {
                proof {
                    lemma_bytes_of_prefix(texts, i + 1);
                }
                return None;
            },
        }
        i += 1;
    }
    proof {
        assert(texts.take(i as int) == texts);
    }
    Some(bytes)
}

/// Where a part of the fields spells no bytes, the whole does not either.
pub proof fn lemma_bytes_of_prefix(fields: Seq<Seq<char>>, n: int)
    requires
        0 <= n <= fields.len(),
        bytes_of(fields.take(n)) is None,
    ensures
        bytes_of(fields) is None,
    decreases fields.len() - n,
{
    if n < fields.len() {
        assert(fields.take(n + 1).drop_last() == fields.take(n));
        lemma_bytes_of_prefix(fields, n + 1);
    } else {
        assert(fields.take(n) == fields);
    }
}

/// The place of the first `c` in `line`.
pub fn find(line: &[char], c: char) -> (r: Option<usize>)
    ensures
        match r {
            Some(i) => line@.index_of_first(c) == Some(i as int),
            None => line@.index_of_first(c) is None,
        },
{
    let mut i: usize = 0;
    while i < line.len()
        invariant
            0 <= i <= line@.len(),
            forall|k: int| 0 <= k < i ==> line@[k] != c,
        decreases line@.len() - i,
    {
        if line[i] == c {
            proof {
                assert(line@.contains(c));
                line@.index_of_first_ensures(c);
            }
            return Some(i);
        }
        i += 1;
    }
    proof {
        line@.index_of_first_ensures(c);
    }
    None
}

/// The place of the last `c` in `line`.
pub fn rfind(line: &[char], c: char) -> (r: Option<usize>)
    ensures
        match r {
            Some(i) => line@.index_of_last(c) == Some(i as int),
            None => line@.index_of_last(c) is None,
        },
{
    let mut i: usize = line.len();
    while i > 0
        invariant
            0 <= i <= line@.len(),
            forall|k: int| i <= k < line@.len() ==> line@[k] != c,
        decreases i,
    {
        if line[i - 1] == c {
            proof {
                assert(line@.contains(c));
                line@.index_of_last_ensures(c);
            }
            return Some(i - 1);
        }
        i -= 1;
    }
    proof {
        line@.index_of_last_ensures(c);
    }
    None
}

} // verus!
