//! Text as sequences of characters: the readings that the parsers of this
//! crate share, each beside the specification it meets.
use vstd::prelude::*;
use vstd::utf8::*;

verus! {

/// `String::push` appends one character.
pub assume_specification[ std::string::String::push ](s: &mut std::string::String, c: char)
    ensures
        final(s)@ == old(s)@.push(c),
;

/// Whether two strings hold the same characters.
pub(crate) fn same(a: &str, b: &str) -> (r: bool)
    ensures
        r == (a@ == b@),
{
    let va = chars_of(a);
    let vb = chars_of(b);
    if va.len() != vb.len() {
        return false;
    }
    let mut i: usize = 0;
    while i < va.len()
        invariant
            i <= va@.len() == vb@.len(),
            va@ == a@,
            vb@ == b@,
            va@.take(i as int) == vb@.take(i as int),
        decreases va@.len() - i,
    {
        if va[i] != vb[i] {
            assert(a@[i as int] != b@[i as int]);
            return false;
        }
        assert(va@.take(i + 1) =~= va@.take(i as int).push(va@[i as int]));
        assert(vb@.take(i + 1) =~= vb@.take(i as int).push(vb@[i as int]));
        i += 1;
    }
    assert(va@.take(i as int) =~= va@);
    assert(vb@.take(i as int) =~= vb@);
    true
}

/// The characters of `s`, in order.
pub fn chars_of(s: &str) -> (r: Vec<char>)
    ensures
        r@ == s@,
{
    let mut out: Vec<char> = Vec::new();
    for c in it: s.chars()
        invariant
            it.seq() == s@,
            out@ == s@.take(it.index()),
    {
        proof {
            assert(s@.take(it.index()).push(c) =~= s@.take(it.index() + 1));
        }
        out.push(c);
    }
    assert(s@.take(s@.len() as int) =~= s@);
    out
}

/// The characters of `v` from `from` up to `to`, as a string.
pub fn string_of(v: &Vec<char>, from: usize, to: usize) -> (r: String)
    requires
        from <= to <= v@.len(),
    ensures
        r@ == v@.subrange(from as int, to as int),
{
    let mut out = String::new();
    let mut i: usize = from;
    while i < to
        invariant
            from <= i <= to <= v@.len(),
            out@ == v@.subrange(from as int, i as int),
        decreases to - i,
    {
        out.push(v[i]);
        i += 1;
        assert(v@.subrange(from as int, i as int) =~= v@.subrange(from as int, i - 1).push(v@[i - 1]));
    }
    out
}

/// How many places stand before the first `sep` of `s`; the length of `s`
/// where it holds none.
pub open spec fn first_index(s: Seq<char>, sep: char) -> int
    decreases s.len(),
{
    if s.len() == 0 || s[0] == sep {
        0
    } else {
        1 + first_index(s.drop_first(), sep)
    }
}

/// What stands before the first `sep` of `s`: all of `s` where it holds none.
pub open spec fn before(s: Seq<char>, sep: char) -> Seq<char> {
    s.take(first_index(s, sep))
}

/// What stands behind the first `sep` of `s`; nothing where it holds none.
pub open spec fn behind(s: Seq<char>, sep: char) -> Seq<char> {
    if s.contains(sep) {
        s.skip(first_index(s, sep) + 1)
    } else {
        Seq::empty()
    }
}

/// The first place of a separator is found by what precedes it.
pub proof fn lemma_first_index(s: Seq<char>, sep: char, i: int)
    requires
        0 <= i <= s.len(),
        forall|j: int| 0 <= j < i ==> s[j] != sep,
        i < s.len() ==> s[i] == sep,
    ensures
        first_index(s, sep) == i,
        s.contains(sep) <==> i < s.len(),
    decreases s.len(),
{
    if s.len() > 0 && i > 0 {
        lemma_first_index(s.drop_first(), sep, i - 1);
    }
}

/// The place that `first_index` names is the first one.
pub proof fn lemma_first_index_is(s: Seq<char>, sep: char)
    ensures
        0 <= first_index(s, sep) <= s.len(),
        forall|j: int| 0 <= j < first_index(s, sep) ==> s[j] != sep,
        first_index(s, sep) < s.len() ==> s[first_index(s, sep)] == sep,
        s.contains(sep) <==> first_index(s, sep) < s.len(),
    decreases s.len(),
{
    if s.len() > 0 && s[0] != sep {
        let t = s.drop_first();
        lemma_first_index_is(t, sep);
        assert forall|j: int| 0 <= j < first_index(s, sep) implies s[j] != sep by {
            if j > 0 {
                assert(s[j] == t[j - 1]);
            }
        }
        let k = first_index(t, sep);
        if k < t.len() {
            assert(s[k + 1] == t[k]);
        } else if s.contains(sep) {
            let j = choose|j: int| 0 <= j < s.len() && s[j] == sep;
            assert(t[j - 1] == sep);
        }
    }
}

/// The first place of `sep` in `v` at or behind `from` and before `to`, or `to`.
pub fn find(v: &Vec<char>, sep: char, from: usize, to: usize) -> (r: usize)
    requires
        from <= to <= v@.len(),
    ensures
        from <= r <= to,
        r - from == first_index(v@.subrange(from as int, to as int), sep),
        forall|j: int| from <= j < r ==> v@[j] != sep,
        r < to ==> v@[r as int] == sep,
        v@.subrange(from as int, to as int).contains(sep) <==> r < to,
{
    let mut i: usize = from;
    while i < to && v[i] != sep
        invariant
            from <= i <= to <= v@.len(),
            forall|j: int| from <= j < i ==> v@[j] != sep,
        decreases to - i,
    {
        i += 1;
    }
    proof {
        let s = v@.subrange(from as int, to as int);
        assert forall|j: int| 0 <= j < i - from implies s[j] != sep by {
            assert(s[j] == v@[from + j]);
        }
        lemma_first_index(s, sep, i - from);
    }
    i
}

/// The pieces of `s` between its separators: one more than it holds of them.
pub open spec fn split(s: Seq<char>, sep: char) -> Seq<Seq<char>>
    decreases s.len(),
{
    if s.len() == 0 {
        seq![Seq::empty()]
    } else {
        let head = split(s.drop_last(), sep);
        if s.last() == sep {
            head.push(Seq::empty())
        } else {
            head.drop_last().push(head.last().push(s.last()))
        }
    }
}

/// There is always a last piece.
pub proof fn lemma_split_len(s: Seq<char>, sep: char)
    ensures
        split(s, sep).len() >= 1,
    decreases s.len(),
{
    if s.len() > 0 {
        lemma_split_len(s.drop_last(), sep);
    }
}

/// Whether `c` has the Unicode property `White_Space`.
pub open spec fn is_white_space(c: char) -> bool {
    ||| '\u{9}' <= c <= '\u{d}'
    ||| c == ' '
    ||| c == '\u{85}'
    ||| c == '\u{a0}'
    ||| c == '\u{1680}'
    ||| '\u{2000}' <= c <= '\u{200a}'
    ||| c == '\u{2028}'
    ||| c == '\u{2029}'
    ||| c == '\u{202f}'
    ||| c == '\u{205f}'
    ||| c == '\u{3000}'
}

/// Whether `c` has the Unicode property `White_Space`.
pub fn white_space(c: char) -> (r: bool)
    ensures
        r == is_white_space(c),
{
    ('\u{9}' <= c && c <= '\u{d}') || c == ' ' || c == '\u{85}' || c == '\u{a0}' || c == '\u{1680}'
        || ('\u{2000}' <= c && c <= '\u{200a}') || c == '\u{2028}' || c == '\u{2029}' || c
        == '\u{202f}' || c == '\u{205f}' || c == '\u{3000}'
}

/// `s` without the white space it begins with.
pub open spec fn trim_start(s: Seq<char>) -> Seq<char>
    decreases s.len(),
{
    if s.len() > 0 && is_white_space(s[0]) {
        trim_start(s.drop_first())
    } else {
        s
    }
}

/// `s` without the white space it ends with.
pub open spec fn trim_end(s: Seq<char>) -> Seq<char>
    decreases s.len(),
{
    if s.len() > 0 && is_white_space(s.last()) {
        trim_end(s.drop_last())
    } else {
        s
    }
}

/// `s` without the white space at its two ends.
pub open spec fn trim(s: Seq<char>) -> Seq<char> {
    trim_end(trim_start(s))
}

/// The place where `v` from `from` to `to` begins once its leading white
/// space is skipped.
pub fn skip_space(v: &Vec<char>, from: usize, to: usize) -> (r: usize)
    requires
        from <= to <= v@.len(),
    ensures
        from <= r <= to,
        trim_start(v@.subrange(from as int, to as int)) == v@.subrange(r as int, to as int),
{
    let mut i: usize = from;
    while i < to && white_space(v[i])
        invariant
            from <= i <= to <= v@.len(),
            trim_start(v@.subrange(from as int, to as int)) == trim_start(
                v@.subrange(i as int, to as int),
            ),
        decreases to - i,
    {
        assert(v@.subrange(i as int, to as int).drop_first() =~= v@.subrange(i + 1, to as int));
        i += 1;
    }
    i
}

/// The place where `v` from `from` to `to` ends once its trailing white space
/// is left out.
pub fn drop_space(v: &Vec<char>, from: usize, to: usize) -> (r: usize)
    requires
        from <= to <= v@.len(),
    ensures
        from <= r <= to,
        trim_end(v@.subrange(from as int, to as int)) == v@.subrange(from as int, r as int),
{
    let mut i: usize = to;
    while from < i && white_space(v[i - 1])
        invariant
            from <= i <= to <= v@.len(),
            trim_end(v@.subrange(from as int, to as int)) == trim_end(
                v@.subrange(from as int, i as int),
            ),
        decreases i - from,
    {
        assert(v@.subrange(from as int, i as int).drop_last() =~= v@.subrange(from as int, i - 1));
        i -= 1;
    }
    i
}

/// The first number from `from` on and below `n` that `p` holds of, or `n`.
pub open spec fn first_from(p: spec_fn(int) -> bool, from: int, n: int) -> int
    decreases n - from,
{
    if from >= n {
        n
    } else if p(from) {
        from
    } else {
        first_from(p, from + 1, n)
    }
}

/// The first number below `n` that `p` holds of, or `n` where it holds of none.
pub open spec fn first_where(p: spec_fn(int) -> bool, n: int) -> int {
    first_from(p, 0, n)
}

/// A number that `p` holds of, with none before it, is the first.
pub proof fn lemma_first_from(p: spec_fn(int) -> bool, from: int, n: int, k: int)
    requires
        from <= k <= n,
        forall|j: int| from <= j < k ==> !#[trigger] p(j),
        k < n ==> p(k),
    ensures
        first_from(p, from, n) == k,
    decreases k - from,
{
    if from < k {
        assert(!p(from));
        lemma_first_from(p, from + 1, n, k);
    }
}

/// The number that `first_from` names is the first that `p` holds of.
pub proof fn lemma_first_from_is(p: spec_fn(int) -> bool, from: int, n: int)
    requires
        from <= n,
    ensures
        from <= first_from(p, from, n) <= n,
        forall|j: int| from <= j < first_from(p, from, n) ==> !#[trigger] p(j),
        first_from(p, from, n) < n ==> p(first_from(p, from, n)),
    decreases n - from,
{
    if from < n && !p(from) {
        lemma_first_from_is(p, from + 1, n);
    }
}

/// How many bytes `s` takes in UTF-8.
pub open spec fn byte_len(s: Seq<char>) -> nat {
    encode_utf8(s).len()
}

/// The bytes of two texts side by side are their bytes side by side.
pub proof fn lemma_encode_concat(a: Seq<char>, b: Seq<char>)
    ensures
        encode_utf8(a + b) == encode_utf8(a) + encode_utf8(b),
    decreases a.len(),
{
    if a.len() == 0 {
        assert(a + b =~= b);
    } else {
        lemma_encode_concat(a.drop_first(), b);
        assert((a + b).drop_first() =~= a.drop_first() + b);
        assert((a + b)[0] == a[0]);
    }
}

/// One more character adds its own bytes.
pub proof fn lemma_byte_len_push(s: Seq<char>, c: char)
    ensures
        byte_len(s.push(c)) == byte_len(s) + encode_scalar(c as u32).len(),
{
    lemma_encode_concat(s, seq![c]);
    assert(s.push(c) =~= s + seq![c]);
    assert(seq![c].drop_first() =~= Seq::<char>::empty());
    reveal_with_fuel(encode_utf8, 2);
}

/// A part of a text takes no more bytes than the whole.
pub proof fn lemma_byte_len_take(s: Seq<char>, i: int)
    requires
        0 <= i <= s.len(),
    ensures
        byte_len(s.take(i)) <= byte_len(s),
{
    assert(s =~= s.take(i) + s.skip(i));
    lemma_encode_concat(s.take(i), s.skip(i));
}

/// How many bytes `c` takes in UTF-8.
pub fn width(c: char) -> (r: usize)
    ensures
        r == encode_scalar(c as u32).len(),
{
    let n: u32 = c as u32;
    if n <= 0x7f {
        1
    } else if n <= 0x7ff {
        2
    } else if n <= 0xffff {
        3
    } else {
        4
    }
}

/// How many bytes stand before character `i` of `v`.
pub fn byte_offset(v: &Vec<char>, i: usize) -> (r: usize)
    requires
        i <= v@.len(),
        byte_len(v@) <= usize::MAX,
    ensures
        r == byte_len(v@.take(i as int)),
{
    let mut at: usize = 0;
    let mut j: usize = 0;
    assert(v@.take(0) =~= Seq::<char>::empty());
    while j < i
        invariant
            j <= i <= v@.len(),
            byte_len(v@) <= usize::MAX,
            at == byte_len(v@.take(j as int)),
        decreases i - j,
    {
        proof {
            lemma_byte_len_push(v@.take(j as int), v@[j as int]);
            assert(v@.take(j + 1) =~= v@.take(j as int).push(v@[j as int]));
            lemma_byte_len_take(v@, j + 1);
        }
        at += width(v[j]);
        j += 1;
    }
    at
}

/// A piece without separators, behind a separator or at the start, is the
/// last one of what has been read so far.
pub proof fn lemma_split_piece(s: Seq<char>, sep: char, start: int, end: int)
    requires
        0 <= start <= end <= s.len(),
        start == 0 || s[start - 1] == sep,
        forall|j: int| start <= j < end ==> s[j] != sep,
    ensures
        split(s.take(end), sep) == split(s.take(start), sep).drop_last().push(
            s.subrange(start, end),
        ),
        split(s.take(start), sep).len() >= 1,
    decreases end - start,
{
    lemma_split_len(s.take(start), sep);
    if start == end {
        if start > 0 {
            assert(s.take(start).last() == sep);
        }
        assert(s.subrange(start, end) =~= Seq::<char>::empty());
        assert(split(s.take(start), sep).last() =~= Seq::<char>::empty());
        assert(split(s.take(end), sep) =~= split(s.take(start), sep).drop_last().push(
            s.subrange(start, end),
        ));
    } else {
        lemma_split_piece(s, sep, start, end - 1);
        assert(s.take(end).drop_last() =~= s.take(end - 1));
        assert(s.take(end).last() == s[end - 1]);
        let head = split(s.take(end - 1), sep);
        assert(head.drop_last() =~= split(s.take(start), sep).drop_last());
        assert(s.subrange(start, end - 1).push(s[end - 1]) =~= s.subrange(start, end));
    }
}

/// A separator ends a piece and begins an empty one.
pub proof fn lemma_split_sep(s: Seq<char>, sep: char, end: int)
    requires
        0 <= end < s.len(),
        s[end] == sep,
    ensures
        split(s.take(end + 1), sep) == split(s.take(end), sep).push(Seq::empty()),
{
    assert(s.take(end + 1).drop_last() =~= s.take(end));
}

/// The decimal digit of `d`.
pub open spec fn digit(d: nat) -> char {
    (48 + d) as char
}

/// `n` in decimal digits, without leading zeros.
pub open spec fn decimal(n: nat) -> Seq<char>
    decreases n,
{
    if n < 10 {
        seq![digit(n)]
    } else {
        decimal(n / 10).push(digit(n % 10))
    }
}

/// `n` in decimal digits.
pub fn decimal_of(n: u64) -> (r: String)
    ensures
        r@ == decimal(n as nat),
    decreases n,
{
    let c: char = (48u8 + (n % 10) as u8) as char;
    if n < 10 {
        let mut out = String::new();
        out.push(c);
        assert(out@ =~= decimal(n as nat));
        out
    } else {
        let mut out = decimal_of(n / 10);
        out.push(c);
        out
    }
}

/// The lower-case hexadecimal digit of `d`.
pub open spec fn hex_lower(d: nat) -> char {
    if d < 10 {
        (48 + d) as char
    } else {
        (87 + d) as char
    }
}

/// The upper-case hexadecimal digit of `d`.
pub open spec fn hex_upper(d: nat) -> char {
    if d < 10 {
        (48 + d) as char
    } else {
        (55 + d) as char
    }
}

/// The lower-case hexadecimal digit of `d`.
pub fn hex_lower_of(d: u8) -> (r: char)
    requires
        d < 16,
    ensures
        r == hex_lower(d as nat),
{
    if d < 10 {
        (48 + d) as char
    } else {
        (87 + d) as char
    }
}

/// The upper-case hexadecimal digit of `d`.
pub fn hex_upper_of(d: u8) -> (r: char)
    requires
        d < 16,
    ensures
        r == hex_upper(d as nat),
{
    if d < 10 {
        (48 + d) as char
    } else {
        (55 + d) as char
    }
}

/// What has been read of the pieces is a beginning of them all, but for the
/// one being read.
pub proof fn lemma_split_prefix(s: Seq<char>, sep: char, i: int)
    requires
        0 <= i <= s.len(),
    ensures
        split(s.take(i), sep).len() >= 1,
        split(s.take(i), sep).len() <= split(s, sep).len(),
        forall|k: int|
            0 <= k < split(s.take(i), sep).len() - 1 ==> #[trigger] split(s.take(i), sep)[k]
                == split(s, sep)[k],
        i == s.len() || s[i] == sep ==> split(s, sep)[split(s.take(i), sep).len() - 1]
            == split(s.take(i), sep).last(),
    decreases s.len() - i,
{
    lemma_split_len(s.take(i), sep);
    if i == s.len() {
        assert(s.take(i) =~= s);
    } else {
        lemma_split_prefix(s, sep, i + 1);
        assert(s.take(i + 1).drop_last() =~= s.take(i));
        assert(s.take(i + 1).last() == s[i]);
        let a = split(s.take(i), sep);
        let b = split(s.take(i + 1), sep);
        assert forall|k: int| 0 <= k < a.len() - 1 implies #[trigger] a[k] == split(s, sep)[k] by {
            assert(b[k] == a[k]);
        }
        if s[i] == sep {
            assert(b[a.len() - 1] == a.last());
        }
    }
}

/// `c` with an ASCII upper-case letter put in lower case.
pub open spec fn lower_char(c: char) -> char {
    if 'A' <= c <= 'Z' {
        (c as u32 + 32) as char
    } else {
        c
    }
}

/// `s` with its ASCII upper-case letters put in lower case.
pub open spec fn ascii_lower(s: Seq<char>) -> Seq<char> {
    s.map_values(|c: char| lower_char(c))
}

/// `c` with an ASCII upper-case letter put in lower case.
pub fn lower_char_of(c: char) -> (r: char)
    ensures
        r == lower_char(c),
{
    if 'A' <= c && c <= 'Z' {
        (c as u8 + 32) as char
    } else {
        c
    }
}

/// Whether `v` from `from` to `to` is `word`, ASCII letters of either case
/// being alike.
pub fn same_ignoring_case(v: &Vec<char>, from: usize, to: usize, word: &str) -> (r: bool)
    requires
        from <= to <= v@.len(),
    ensures
        r == (ascii_lower(v@.subrange(from as int, to as int)) == ascii_lower(word@)),
{
    let w = chars_of(word);
    let ghost a = ascii_lower(v@.subrange(from as int, to as int));
    let ghost b = ascii_lower(word@);
    if to - from != w.len() {
        assert(a.len() != b.len());
        return false;
    }
    let mut i: usize = 0;
    while i < w.len()
        invariant
            from <= to <= v@.len(),
            to - from == w@.len(),
            w@ == word@,
            i <= w@.len(),
            a == ascii_lower(v@.subrange(from as int, to as int)),
            b == ascii_lower(word@),
            forall|j: int| 0 <= j < i ==> a[j] == b[j],
        decreases w@.len() - i,
    {
        if lower_char_of(v[from + i]) != lower_char_of(w[i]) {
            assert(a[i as int] != b[i as int]);
            return false;
        }
        i += 1;
    }
    assert(a =~= b);
    true
}

/// Whether `c` is a decimal digit.
pub open spec fn is_digit(c: char) -> bool {
    '0' <= c <= '9'
}

/// The number that decimal digits spell.
pub open spec fn number(s: Seq<char>) -> nat
    decreases s.len(),
{
    if s.len() == 0 {
        0
    } else {
        number(s.drop_last()) * 10 + (s.last() as nat - 48) as nat
    }
}

/// `s` without the `+` that it begins with.
pub open spec fn without_plus(s: Seq<char>) -> Seq<char> {
    if s.len() > 0 && s[0] == '+' {
        s.skip(1)
    } else {
        s
    }
}

/// The number of 64 bits that `s` spells: decimal digits, at least one of
/// them, behind at most one `+`.
pub open spec fn parsed_u64(s: Seq<char>) -> Option<u64> {
    let digits = without_plus(s);
    if digits.len() > 0 && (forall|i: int| 0 <= i < digits.len() ==> is_digit(#[trigger] digits[i]))
        && number(digits) <= u64::MAX {
        Some(number(digits) as u64)
    } else {
        None
    }
}

/// The number of 64 bits that `v` from `from` to `to` spells.
pub fn parse_u64(v: &Vec<char>, from: usize, to: usize) -> (r: Option<u64>)
    requires
        from <= to <= v@.len(),
    ensures
        r == parsed_u64(v@.subrange(from as int, to as int)),
{
    let ghost s = v@.subrange(from as int, to as int);
    let start: usize = if from < to && v[from] == '+' {
        from + 1
    } else {
        from
    };
    let ghost digits = v@.subrange(start as int, to as int);
    assert(digits =~= without_plus(s));
    if start == to {
        return None;
    }
    let mut n: u64 = 0;
    let mut big = false;
    let mut i: usize = start;
    assert(digits.take(0) =~= Seq::<char>::empty());
    while i < to
        invariant
            from <= start <= i <= to <= v@.len(),
            digits == v@.subrange(start as int, to as int),
            digits == without_plus(s),
            s == v@.subrange(from as int, to as int),
            forall|j: int| 0 <= j < i - start ==> is_digit(#[trigger] digits[j]),
            !big ==> n == number(digits.take(i - start)),
            big ==> number(digits.take(i - start)) > u64::MAX,
        decreases to - i,
    {
        let c = v[i];
        assert(digits[i - start] == c);
        assert(digits.take(i - start + 1).drop_last() =~= digits.take(i - start));
        if c < '0' || '9' < c {
            assert(!is_digit(digits[i - start]));
            return None;
        }
        let d: u64 = (c as u32 - 48) as u64;
        if !big {
            if n > (u64::MAX - d) / 10 {
                big = true;
            } else {
                n = n * 10 + d;
            }
        }
        i += 1;
    }
    assert(digits.take(to - start) =~= digits);
    if big {
        None
    } else {
        Some(n)
    }
}

/// A separator and a piece without one add that piece.
pub proof fn lemma_split_append(a: Seq<char>, b: Seq<char>, sep: char)
    requires
        !b.contains(sep),
    ensures
        split(a.push(sep) + b, sep) == split(a, sep).push(b),
    decreases b.len(),
{
    if b.len() == 0 {
        assert(a.push(sep) + b =~= a.push(sep));
        assert(a.push(sep).drop_last() =~= a);
        assert(b =~= Seq::<char>::empty());
    } else {
        let shorter = b.drop_last();
        assert(!shorter.contains(sep)) by {
            if shorter.contains(sep) {
                let i = choose|i: int| 0 <= i < shorter.len() && shorter[i] == sep;
                assert(b[i] == sep);
            }
        }
        lemma_split_append(a, shorter, sep);
        let whole = a.push(sep) + b;
        assert(whole.drop_last() =~= a.push(sep) + shorter);
        assert(whole.last() == b.last());
        assert(b[b.len() - 1] == b.last());
        assert(b.last() != sep);
        let head = split(a, sep).push(shorter);
        assert(head.drop_last() =~= split(a, sep));
        assert(shorter.push(b.last()) =~= b);
    }
}

/// A text without separators is its own only piece.
pub proof fn lemma_split_alone(s: Seq<char>, sep: char)
    requires
        !s.contains(sep),
    ensures
        split(s, sep) == seq![s],
    decreases s.len(),
{
    if s.len() > 0 {
        let shorter = s.drop_last();
        assert(!shorter.contains(sep)) by {
            if shorter.contains(sep) {
                let i = choose|i: int| 0 <= i < shorter.len() && shorter[i] == sep;
                assert(s[i] == sep);
            }
        }
        lemma_split_alone(shorter, sep);
        assert(s[s.len() - 1] == s.last());
        assert(s.last() != sep);
        assert(shorter.push(s.last()) =~= s);
        assert(split(s, sep) =~= seq![s]);
    } else {
        assert(s =~= Seq::<char>::empty());
    }
}

/// `s` in lower case, as Unicode maps it.
pub uninterp spec fn lowercased(s: Seq<char>) -> Seq<char>;

/// `str::to_lowercase` gives the lower case of a string by Unicode's mapping,
/// which depends on the string alone. Of ASCII text it is the text with its
/// upper-case letters put in lower case.
#[verifier::external_body]
pub(crate) fn lowercase(s: &str) -> (r: String)
    ensures
        r@ == lowercased(s@),
        is_ascii_chars(s@) ==> r@ == ascii_lower(s@),
{
    s.to_lowercase()
}

/// A text falls apart at its first separator: what stands before it holds none,
/// and the two parts with the separator between them are the text. A text without
/// a separator is all before it.
pub proof fn law_a_text_falls_apart_at_its_first_separator(s: Seq<char>, sep: char)
    ensures
        !before(s, sep).contains(sep),
        s.contains(sep) ==> s == before(s, sep).push(sep) + behind(s, sep),
        !s.contains(sep) ==> before(s, sep) == s && behind(s, sep).len() == 0,
{
    lemma_first_index_is(s, sep);
    let k = first_index(s, sep);
    assert forall|i: int| 0 <= i < k implies before(s, sep)[i] != sep by {
        assert(before(s, sep)[i] == s[i]);
    }
    if s.contains(sep) {
        assert(s =~= before(s, sep).push(sep) + behind(s, sep));
    } else {
        assert(before(s, sep) =~= s);
    }
}

/// The characters of white space, by their numbers.
pub proof fn law_white_space_is_these(c: char)
    ensures
        is_white_space(c) <==> {
            let n = c as u32;
            ||| n == 9 || n == 10 || n == 11 || n == 12 || n == 13 || n == 32
            ||| n == 0x85 || n == 0xa0 || n == 0x1680
            ||| n == 0x2000 || n == 0x2001 || n == 0x2002 || n == 0x2003 || n == 0x2004
            ||| n == 0x2005 || n == 0x2006 || n == 0x2007 || n == 0x2008 || n == 0x2009
            ||| n == 0x200a || n == 0x2028 || n == 0x2029 || n == 0x202f || n == 0x205f
            ||| n == 0x3000
        },
{
}

/// Whether `part` is `s` from `i` to `j`, with nothing but white space before `i`
/// and from `j` on, and none at the two ends of what is left.
pub open spec fn is_trimmed(s: Seq<char>, part: Seq<char>, i: int, j: int) -> bool {
    &&& 0 <= i <= j <= s.len()
    &&& part == s.subrange(i, j)
    &&& forall|k: int| 0 <= k < i ==> is_white_space(#[trigger] s[k])
    &&& forall|k: int| j <= k < s.len() ==> is_white_space(#[trigger] s[k])
    &&& i < j ==> !is_white_space(s[i]) && !is_white_space(s[j - 1])
}

/// What is trimmed away at the front is white space, and what is left begins with
/// none.
proof fn lemma_trim_start(s: Seq<char>) -> (i: int)
    ensures
        0 <= i <= s.len(),
        trim_start(s) == s.skip(i),
        forall|k: int| 0 <= k < i ==> is_white_space(#[trigger] s[k]),
        i < s.len() ==> !is_white_space(s[i]),
    decreases s.len(),
{
    if s.len() > 0 && is_white_space(s[0]) {
        let rest = s.drop_first();
        let i = lemma_trim_start(rest);
        assert forall|k: int| 0 <= k < i + 1 implies is_white_space(#[trigger] s[k]) by {
            if k > 0 {
                assert(rest[k - 1] == s[k]);
            }
        }
        assert(rest.skip(i) =~= s.skip(i + 1));
        if i < rest.len() {
            assert(rest[i] == s[i + 1]);
        }
        i + 1
    } else {
        assert(s.skip(0) =~= s);
        0
    }
}

/// What is trimmed away at the back is white space, and what is left ends with
/// none.
proof fn lemma_trim_end(s: Seq<char>) -> (j: int)
    ensures
        0 <= j <= s.len(),
        trim_end(s) == s.take(j),
        forall|k: int| j <= k < s.len() ==> is_white_space(#[trigger] s[k]),
        0 < j ==> !is_white_space(s[j - 1]),
    decreases s.len(),
{
    if s.len() > 0 && is_white_space(s.last()) {
        let rest = s.drop_last();
        let j = lemma_trim_end(rest);
        assert forall|k: int| j <= k < s.len() implies is_white_space(#[trigger] s[k]) by {
            if k < s.len() - 1 {
                assert(rest[k] == s[k]);
            }
        }
        assert(rest.take(j) =~= s.take(j));
        if 0 < j {
            assert(rest[j - 1] == s[j - 1]);
        }
        j
    } else {
        assert(s.take(s.len() as int) =~= s);
        s.len() as int
    }
}

/// Trimming takes the white space at the two ends away, all of it and nothing
/// else.
pub proof fn law_trimming_takes_the_white_space_at_the_ends(s: Seq<char>)
    ensures
        exists|i: int, j: int| is_trimmed(s, trim(s), i, j),
{
    let i = lemma_trim_start(s);
    let mid = s.skip(i);
    let j = lemma_trim_end(mid);
    assert(mid.take(j) =~= s.subrange(i, i + j));
    assert forall|k: int| i + j <= k < s.len() implies is_white_space(#[trigger] s[k]) by {
        assert(mid[k - i] == s[k]);
    }
    if 0 < j {
        assert(mid[j - 1] == s[i + j - 1]);
    }
    assert(is_trimmed(s, trim(s), i, i + j));
}

/// A text takes as many bytes as its characters do: nothing takes none, and one
/// more character adds one byte up to the number 127, two up to 2047, three up to
/// 65535, and four from there on.
pub proof fn law_bytes_add_up(s: Seq<char>, c: char)
    ensures
        byte_len(Seq::empty()) == 0,
        c as u32 <= 127 ==> byte_len(s.push(c)) == byte_len(s) + 1,
        127 < c as u32 <= 2047 ==> byte_len(s.push(c)) == byte_len(s) + 2,
        2047 < c as u32 <= 65535 ==> byte_len(s.push(c)) == byte_len(s) + 3,
        65535 < c as u32 ==> byte_len(s.push(c)) == byte_len(s) + 4,
{
    lemma_byte_len_push(s, c);
}

/// The value of the decimal digit `c`, where it is one.
pub open spec fn digit_value(c: char) -> Option<nat> {
    match c {
        '0' => Some(0),
        '1' => Some(1),
        '2' => Some(2),
        '3' => Some(3),
        '4' => Some(4),
        '5' => Some(5),
        '6' => Some(6),
        '7' => Some(7),
        '8' => Some(8),
        '9' => Some(9),
        _ => None,
    }
}

/// The digits are these ten, and a digit behind a number makes it ten times as much
/// and adds its own value.
pub proof fn law_a_digit_adds_its_value(s: Seq<char>, c: char)
    ensures
        is_digit(c) <==> digit_value(c) is Some,
        number(Seq::empty()) == 0,
        digit_value(c) matches Some(d) ==> number(s.push(c)) == 10 * number(s) + d,
{
    assert(s.push(c).drop_last() =~= s);
}

/// What is written in decimal reads back as the number, in digits alone, and begins
/// with a zero only where it is one.
pub proof fn law_decimal_reads_back(n: nat)
    ensures
        number(decimal(n)) == n,
        decimal(n).len() > 0,
        forall|i: int| 0 <= i < decimal(n).len() ==> digit_value(#[trigger] decimal(n)[i]) is Some,
        decimal(n)[0] == '0' ==> n == 0 && decimal(n).len() == 1,
    decreases n,
{
    let s = decimal(n);
    if n < 10 {
        assert(s.drop_last() =~= Seq::<char>::empty());
        assert(number(s.drop_last()) == 0);
    } else {
        law_decimal_reads_back(n / 10);
        let head = decimal(n / 10);
        assert(s.drop_last() =~= head);
        assert forall|i: int| 0 <= i < s.len() implies digit_value(#[trigger] s[i]) is Some by {
            if i < head.len() {
                assert(s[i] == head[i]);
            }
        }
        assert(s[0] == head[0]);
    }
}

/// The hexadecimal digits of the two cases, from nought to fifteen.
pub proof fn law_hexadecimal_digits_are_these()
    ensures
        hex_lower(0) == '0' && hex_lower(1) == '1' && hex_lower(2) == '2' && hex_lower(3) == '3'
            && hex_lower(4) == '4' && hex_lower(5) == '5' && hex_lower(6) == '6' && hex_lower(7)
            == '7' && hex_lower(8) == '8' && hex_lower(9) == '9' && hex_lower(10) == 'a'
            && hex_lower(11) == 'b' && hex_lower(12) == 'c' && hex_lower(13) == 'd' && hex_lower(14)
            == 'e' && hex_lower(15) == 'f',
        hex_upper(0) == '0' && hex_upper(1) == '1' && hex_upper(2) == '2' && hex_upper(3) == '3'
            && hex_upper(4) == '4' && hex_upper(5) == '5' && hex_upper(6) == '6' && hex_upper(7)
            == '7' && hex_upper(8) == '8' && hex_upper(9) == '9' && hex_upper(10) == 'A'
            && hex_upper(11) == 'B' && hex_upper(12) == 'C' && hex_upper(13) == 'D' && hex_upper(14)
            == 'E' && hex_upper(15) == 'F',
{
}

/// Lower case moves the letters from A to Z, thirty-two places up, and leaves every
/// other character where it is; a text keeps its length, and each of its characters
/// is moved by itself.
pub proof fn law_lower_case_moves_the_letters(s: Seq<char>, i: int)
    requires
        0 <= i < s.len(),
    ensures
        ascii_lower(s).len() == s.len(),
        65 <= s[i] as u32 <= 90 ==> ascii_lower(s)[i] as u32 == s[i] as u32 + 32,
        !(65 <= s[i] as u32 <= 90) ==> ascii_lower(s)[i] == s[i],
{
}

/// A number of 64 bits is read off a text exactly where the text is digits, at least
/// one, behind at most one plus sign, and what they spell is no more than 64 bits
/// hold.
pub proof fn law_a_number_is_read_off_its_digits(digits: Seq<char>, plus: bool)
    requires
        digits.len() > 0 ==> digits[0] != '+',
    ensures
        ({
            let s = if plus {
                seq!['+'] + digits
            } else {
                digits
            };
            let spells = digits.len() > 0 && (forall|i: int|
                0 <= i < digits.len() ==> digit_value(#[trigger] digits[i]) is Some) && number(
                digits,
            ) <= 0xffff_ffff_ffff_ffff;
            &&& parsed_u64(s) is Some <==> spells
            &&& spells ==> parsed_u64(s)->Some_0 == number(digits)
        }),
{
    let s = if plus {
        seq!['+'] + digits
    } else {
        digits
    };
    assert(without_plus(s) =~= digits);
    assert(forall|c: char| #[trigger] is_digit(c) <==> digit_value(c) is Some);
}

/// A second plus sign is no digit, so nothing is read off a text that begins with
/// two.
pub proof fn law_two_plus_signs_spell_nothing(rest: Seq<char>)
    ensures
        parsed_u64(seq!['+', '+'] + rest) is None,
{
    let s = seq!['+', '+'] + rest;
    assert(without_plus(s)[0] == '+');
    assert(!is_digit(without_plus(s)[0]));
}

/// The first number that a condition holds of is below the bound, holds, and has none
/// before it that does; where there is none below the bound, it is the bound.
pub proof fn law_the_first_place_is_found(p: spec_fn(int) -> bool, n: int)
    requires
        0 <= n,
    ensures
        0 <= first_where(p, n) <= n,
        forall|j: int| 0 <= j < first_where(p, n) ==> !#[trigger] p(j),
        first_where(p, n) < n ==> p(first_where(p, n)),
{
    lemma_first_from_is(p, 0, n);
}

/// The pieces of a text stand between its separators: a text without one is its only
/// piece, and one more separator with a piece behind it adds that piece.
pub proof fn law_pieces_stand_between_separators(s: Seq<char>, piece: Seq<char>, sep: char)
    requires
        !piece.contains(sep),
    ensures
        split(piece, sep) == seq![piece],
        split(s.push(sep) + piece, sep) == split(s, sep).push(piece),
{
    lemma_split_alone(piece, sep);
    lemma_split_append(s, piece, sep);
}

} // verus!
