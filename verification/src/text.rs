//! Character-level text handling: the pieces of `str` behaviour that the
//! parsers rely on (whitespace, trimming, splitting, searching, number
//! syntax), each stated as a spec function over `Seq<char>` and implemented
//! over `Vec<char>`.
use vstd::prelude::*;

verus! {

/// The characters of a vector, as a sequence.
pub open spec fn seqs(v: Seq<Vec<char>>) -> Seq<Seq<char>> {
    v.map_values(|x: Vec<char>| x@)
}

/// Unicode `White_Space`, the set that `char::is_whitespace`, `str::trim`
/// and `str::split_whitespace` use.
pub open spec fn is_space(c: char) -> bool {
    ||| ('\u{9}' <= c && c <= '\u{d}')
    ||| c == ' '
    ||| c == '\u{85}'
    ||| c == '\u{a0}'
    ||| c == '\u{1680}'
    ||| ('\u{2000}' <= c && c <= '\u{200a}')
    ||| c == '\u{2028}'
    ||| c == '\u{2029}'
    ||| c == '\u{202f}'
    ||| c == '\u{205f}'
    ||| c == '\u{3000}'
}

pub fn char_is_space(c: char) -> (r: bool)
    ensures
        r == is_space(c),
{
    ('\u{9}' <= c && c <= '\u{d}') || c == ' ' || c == '\u{85}' || c == '\u{a0}' || c
        == '\u{1680}' || ('\u{2000}' <= c && c <= '\u{200a}') || c == '\u{2028}' || c
        == '\u{2029}' || c == '\u{202f}' || c == '\u{205f}' || c == '\u{3000}'
}

/// `s` without its leading whitespace.
pub open spec fn trim_start(s: Seq<char>) -> Seq<char>
    decreases s.len(),
{
    if s.len() > 0 && is_space(s[0]) {
        trim_start(s.drop_first())
    } else {
        s
    }
}

/// `s` without its trailing whitespace.
pub open spec fn trim_end(s: Seq<char>) -> Seq<char>
    decreases s.len(),
{
    if s.len() > 0 && is_space(s.last()) {
        trim_end(s.drop_last())
    } else {
        s
    }
}

/// What `str::trim` returns.
pub open spec fn trimmed(s: Seq<char>) -> Seq<char> {
    trim_end(trim_start(s))
}

/// The whitespace-separated words of `s`, where `cur` is the word read so far
/// (what `str::split_whitespace` yields).
pub open spec fn words_from(s: Seq<char>, cur: Seq<char>) -> Seq<Seq<char>>
    decreases s.len(),
{
    if s.len() == 0 {
        if cur.len() == 0 {
            seq![]
        } else {
            seq![cur]
        }
    } else if is_space(s[0]) {
        (if cur.len() == 0 {
            Seq::<Seq<char>>::empty()
        } else {
            seq![cur]
        }) + words_from(s.drop_first(), seq![])
    } else {
        words_from(s.drop_first(), cur.push(s[0]))
    }
}

pub open spec fn words(s: Seq<char>) -> Seq<Seq<char>> {
    words_from(s, seq![])
}

/// A line with the carriage return of a `\r\n` ending removed.
pub open spec fn strip_cr(l: Seq<char>) -> Seq<char> {
    if l.len() > 0 && l.last() == '\r' {
        l.drop_last()
    } else {
        l
    }
}

/// The lines of `s`, where `cur` is the line read so far (what `str::lines`
/// yields: split after each `\n`, the terminator and a `\r` right before it
/// removed, no empty line after a final terminator).
pub open spec fn lines_from(s: Seq<char>, cur: Seq<char>) -> Seq<Seq<char>>
    decreases s.len(),
{
    if s.len() == 0 {
        if cur.len() == 0 {
            seq![]
        } else {
            seq![cur]
        }
    } else if s[0] == '\n' {
        seq![strip_cr(cur)] + lines_from(s.drop_first(), seq![])
    } else {
        lines_from(s.drop_first(), cur.push(s[0]))
    }
}

pub open spec fn text_lines(s: Seq<char>) -> Seq<Seq<char>> {
    lines_from(s, seq![])
}

/// The pieces of `s` between occurrences of `sep` (what `str::split` with a
/// `char` yields), where `cur` is the piece read so far.
pub open spec fn pieces_from(s: Seq<char>, sep: char, cur: Seq<char>) -> Seq<Seq<char>>
    decreases s.len(),
{
    if s.len() == 0 {
        seq![cur]
    } else if s[0] == sep {
        seq![cur] + pieces_from(s.drop_first(), sep, seq![])
    } else {
        pieces_from(s.drop_first(), sep, cur.push(s[0]))
    }
}

pub open spec fn pieces(s: Seq<char>, sep: char) -> Seq<Seq<char>> {
    pieces_from(s, sep, seq![])
}

/// The first index at or after `k` where `p` occurs in `h`.
pub open spec fn find_from(h: Seq<char>, p: Seq<char>, k: int) -> Option<int>
    decreases h.len() + 1 - k,
{
    if k < 0 || k + p.len() > h.len() {
        None
    } else if h.subrange(k, k + p.len()) == p {
        Some(k)
    } else {
        find_from(h, p, k + 1)
    }
}

/// The first index where `p` occurs in `h` (what `str::find` locates).
pub open spec fn find(h: Seq<char>, p: Seq<char>) -> Option<int> {
    find_from(h, p, 0)
}

/// The last index of `c` in `s` (what `str::rfind` locates).
pub open spec fn rfind(s: Seq<char>, c: char) -> Option<int>
    decreases s.len(),
{
    if s.len() == 0 {
        None
    } else if s.last() == c {
        Some(s.len() - 1)
    } else {
        rfind(s.drop_last(), c)
    }
}

/// The parts joined with `sep` between them (what `join` builds).
pub open spec fn join(parts: Seq<Seq<char>>, sep: Seq<char>) -> Seq<char>
    decreases parts.len(),
{
    if parts.len() == 0 {
        seq![]
    } else if parts.len() == 1 {
        parts[0]
    } else {
        join(parts.drop_last(), sep) + sep + parts.last()
    }
}

/// The number of bytes of the UTF-8 encoding of `c`.
pub open spec fn utf8_width(c: char) -> nat {
    if (c as u32) < 0x80 {
        1
    } else if (c as u32) < 0x800 {
        2
    } else if (c as u32) < 0x10000 {
        3
    } else {
        4
    }
}

/// The number of bytes of the UTF-8 encoding of `s` (what `str::len` returns).
pub open spec fn utf8_len(s: Seq<char>) -> nat
    decreases s.len(),
{
    if s.len() == 0 {
        0
    } else {
        utf8_len(s.drop_last()) + utf8_width(s.last())
    }
}

/// The index of the character that starts at byte `b` of the UTF-8 encoding
/// of `s`, searching from character `i`; `None` where `b` falls inside a
/// character or past the end.
pub open spec fn char_at_byte_from(s: Seq<char>, b: int, i: int) -> Option<int>
    decreases s.len() - i,
{
    if i < 0 || i > s.len() {
        None
    } else if utf8_len(s.take(i)) == b {
        Some(i)
    } else if utf8_len(s.take(i)) > b || i == s.len() {
        None
    } else {
        char_at_byte_from(s, b, i + 1)
    }
}

pub open spec fn char_at_byte(s: Seq<char>, b: int) -> Option<int> {
    char_at_byte_from(s, b, 0)
}

/// The value of a hexadecimal digit (either case), if `c` is one.
pub open spec fn hex_digit_value(c: char) -> Option<nat> {
    if '0' <= c && c <= '9' {
        Some((c as nat - '0' as nat) as nat)
    } else if 'a' <= c && c <= 'f' {
        Some((c as nat - 'a' as nat + 10) as nat)
    } else if 'A' <= c && c <= 'F' {
        Some((c as nat - 'A' as nat + 10) as nat)
    } else {
        None
    }
}

/// Whether `c` is a digit in base `radix` (10 or 16).
pub open spec fn is_digit_in(c: char, radix: nat) -> bool {
    hex_digit_value(c) is Some && hex_digit_value(c)->0 < radix
}

pub open spec fn all_digits(s: Seq<char>, radix: nat) -> bool {
    forall|i: int| 0 <= i < s.len() ==> #[trigger] is_digit_in(s[i], radix)
}

/// The value of a string of digits, most significant first.
pub open spec fn digits_value(s: Seq<char>, radix: nat) -> nat
    decreases s.len(),
{
    if s.len() == 0 {
        0
    } else {
        digits_value(s.drop_last(), radix) * radix + hex_digit_value(s.last())->0
    }
}

/// What `u16::from_str`, `u32::from_str`, `u64::from_str` (radix 10) and
/// `from_str_radix` (radix 16) accept for an unsigned type whose largest value
/// is `max`: an optional `+`, then one or more digits, the value at most
/// `max`.
pub open spec fn parse_unsigned(s: Seq<char>, radix: nat, max: u64) -> Option<u64> {
    let body = if s.len() > 0 && s[0] == '+' {
        s.drop_first()
    } else {
        s
    };
    if body.len() > 0 && all_digits(body, radix) && digits_value(body, radix) <= max {
        Some(digits_value(body, radix) as u64)
    } else {
        None
    }
}

/// The character of a digit value below 16 (lower-case for 10 to 15).
pub open spec fn digit_char(d: nat) -> char {
    if d < 10 {
        (d + 48) as char
    } else {
        (d + 87) as char
    }
}

/// The digits of `n` in base `radix`, without leading zeros.
pub open spec fn digits_text(n: nat, radix: nat) -> Seq<char>
    decreases n,
{
    if radix < 2 || n < radix {
        seq![digit_char(n)]
    } else {
        proof {
            assert(n / radix < n) by (nonlinear_arith)
                requires
                    radix >= 2,
                    n >= radix,
            ;
        }
        digits_text(n / radix, radix).push(digit_char(n % radix))
    }
}

/// Decimal text of `n` (what `{}` prints for an unsigned integer).
pub open spec fn decimal(n: nat) -> Seq<char> {
    digits_text(n, 10)
}

/// Lower-case hexadecimal text of `n` (what `{:x}` prints).
pub open spec fn hexadecimal(n: nat) -> Seq<char> {
    digits_text(n, 16)
}

/// `s` with zeros in front up to `width` characters (what `{:0width}` prints).
pub open spec fn zero_pad(s: Seq<char>, width: nat) -> Seq<char> {
    if s.len() < width {
        Seq::new((width - s.len()) as nat, |i: int| '0') + s
    } else {
        s
    }
}

/// Decimal text of `n` with zeros in front up to `width` characters.
pub open spec fn padded(n: nat, width: nat) -> Seq<char> {
    zero_pad(decimal(n), width)
}

pub fn chars_of(s: &str) -> (v: Vec<char>)
    ensures
        v@ == s@,
{
    let mut v: Vec<char> = Vec::new();
    for c in it: s.chars()
        invariant
            v@ == it.seq().take(it.index() as int),
    {
        v.push(c);
    }
    v
}

/// Appends `c` to `s` with `String::push`; the contract states what the
/// documentation of `String::push` says: the character is added at the end.
#[verifier::external_body]
pub(crate) fn push_char(s: &mut String, c: char)
    ensures
        final(s)@ == old(s)@.push(c),
{
    s.push(c);
}

pub fn string_of(v: &Vec<char>) -> (s: String)
    ensures
        s@ == v@,
{
    let mut s = String::new();
    let mut i: usize = 0;
    while i < v.len()
        invariant
            i <= v@.len(),
            s@ == v@.take(i as int),
        decreases v@.len() - i,
    {
        push_char(&mut s, v[i]);
        assert(v@.take(i + 1) =~= v@.take(i as int).push(v@[i as int]));
        i = i + 1;
    }
    assert(v@.take(v@.len() as int) =~= v@);
    s
}

/// Appends the characters of `v` to `s`.
pub fn push_chars(s: &mut String, v: &Vec<char>)
    ensures
        final(s)@ == old(s)@ + v@,
{
    let mut i: usize = 0;
    while i < v.len()
        invariant
            i <= v@.len(),
            s@ == old(s)@ + v@.take(i as int),
        decreases v@.len() - i,
    {
        push_char(s, v[i]);
        assert(v@.take(i + 1) =~= v@.take(i as int).push(v@[i as int]));
        assert(old(s)@ + v@.take(i + 1) =~= (old(s)@ + v@.take(i as int)).push(v@[i as int]));
        i = i + 1;
    }
    assert(v@.take(v@.len() as int) =~= v@);
}

/// The characters of `v` from `a` up to `b`.
pub fn slice_chars(v: &Vec<char>, a: usize, b: usize) -> (r: Vec<char>)
    requires
        a <= b <= v@.len(),
    ensures
        r@ == v@.subrange(a as int, b as int),
{
    let mut r: Vec<char> = Vec::new();
    let mut i = a;
    while i < b
        invariant
            a <= i <= b <= v@.len(),
            r@ == v@.subrange(a as int, i as int),
        decreases b - i,
    {
        r.push(v[i]);
        assert(v@.subrange(a as int, i + 1) =~= v@.subrange(a as int, i as int).push(v@[i as int]));
        i = i + 1;
    }
    r
}

pub fn same_chars(a: &Vec<char>, b: &Vec<char>) -> (r: bool)
    ensures
        r == (a@ == b@),
{
    if a.len() != b.len() {
        return false;
    }
    let mut i: usize = 0;
    while i < a.len()
        invariant
            a@.len() == b@.len(),
            i <= a@.len(),
            forall|j: int| 0 <= j < i ==> a@[j] == b@[j],
        decreases a@.len() - i,
    {
        if a[i] != b[i] {
            return false;
        }
        i = i + 1;
    }
    assert(a@ =~= b@);
    true
}

/// Whether `v` spells the literal `lit`.
pub fn is_literal(v: &Vec<char>, lit: &str) -> (r: bool)
    ensures
        r == (v@ == lit@),
{
    let l = chars_of(lit);
    same_chars(v, &l)
}

pub fn has_char(s: &Vec<char>, c: char) -> (r: bool)
    ensures
        r == s@.contains(c),
{
    let mut i: usize = 0;
    while i < s.len()
        invariant
            i <= s@.len(),
            forall|j: int| 0 <= j < i ==> s@[j] != c,
        decreases s@.len() - i,
    {
        if s[i] == c {
            assert(s@[i as int] == c);
            return true;
        }
        i = i + 1;
    }
    false
}

pub fn trim(s: &Vec<char>) -> (r: Vec<char>)
    ensures
        r@ == trimmed(s@),
{
    let n = s.len();
    let mut i: usize = 0;
    assert(s@.skip(0) =~= s@);
    while i < n && char_is_space(s[i])
        invariant
            n == s@.len(),
            i <= n,
            trim_start(s@) == trim_start(s@.skip(i as int)),
        decreases n - i,
    {
        assert(s@.skip(i as int).drop_first() =~= s@.skip(i + 1));
        i = i + 1;
    }
    assert(trim_start(s@) == s@.skip(i as int));
    let mut j: usize = n;
    while j > i && char_is_space(s[j - 1])
        invariant
            n == s@.len(),
            i <= j <= n,
            trim_start(s@) == s@.skip(i as int),
            trimmed(s@) == trim_end(s@.subrange(i as int, j as int)),
        decreases j,
    {
        assert(s@.subrange(i as int, j as int).drop_last() =~= s@.subrange(i as int, j - 1));
        j = j - 1;
    }
    assert(s@.skip(i as int) =~= s@.subrange(i as int, n as int));
    slice_chars(s, i, j)
}

pub fn split_words(s: &Vec<char>) -> (r: Vec<Vec<char>>)
    ensures
        seqs(r@) == words(s@),
{
    let mut acc: Vec<Vec<char>> = Vec::new();
    let mut cur: Vec<char> = Vec::new();
    let mut i: usize = 0;
    assert(s@.skip(0) =~= s@);
    while i < s.len()
        invariant
            i <= s@.len(),
            seqs(acc@) + words_from(s@.skip(i as int), cur@) == words(s@),
        decreases s@.len() - i,
    {
        let ghost rest = s@.skip(i as int);
        assert(rest.drop_first() =~= s@.skip(i + 1));
        assert(rest[0] == s@[i as int]);
        let c = s[i];
        if char_is_space(c) {
            if cur.len() > 0 {
                let ghost before = seqs(acc@);
                acc.push(cur);
                assert(seqs(acc@) =~= before.push(cur@));
                assert(before.push(cur@) =~= before + seq![cur@]);
                cur = Vec::new();
            }
            proof {
                assert(cur@ =~= Seq::<char>::empty());
            }
        } else {
            cur.push(c);
        }
        i = i + 1;
    }
    assert(s@.skip(i as int) =~= Seq::<char>::empty());
    if cur.len() > 0 {
        let ghost before = seqs(acc@);
        acc.push(cur);
        assert(seqs(acc@) =~= before.push(cur@));
    } else {
        assert(seqs(acc@) + Seq::<Seq<char>>::empty() =~= seqs(acc@));
    }
    acc
}

pub fn split_lines(s: &Vec<char>) -> (r: Vec<Vec<char>>)
    ensures
        seqs(r@) == text_lines(s@),
{
    let mut acc: Vec<Vec<char>> = Vec::new();
    let mut cur: Vec<char> = Vec::new();
    let mut i: usize = 0;
    assert(s@.skip(0) =~= s@);
    while i < s.len()
        invariant
            i <= s@.len(),
            seqs(acc@) + lines_from(s@.skip(i as int), cur@) == text_lines(s@),
        decreases s@.len() - i,
    {
        let ghost rest = s@.skip(i as int);
        assert(rest.drop_first() =~= s@.skip(i + 1));
        assert(rest[0] == s@[i as int]);
        let c = s[i];
        if c == '\n' {
            let ghost before = seqs(acc@);
            let line = if cur.len() > 0 && cur[cur.len() - 1] == '\r' {
                slice_chars(&cur, 0, cur.len() - 1)
            } else {
                cur
            };
            assert(line@ =~= strip_cr(cur@));
            acc.push(line);
            assert(seqs(acc@) =~= before.push(line@));
            assert(before.push(line@) + lines_from(s@.skip(i + 1), seq![]) =~= before + (seq![
                strip_cr(cur@),
            ] + lines_from(s@.skip(i + 1), seq![])));
            cur = Vec::new();
            proof {
                assert(cur@ =~= Seq::<char>::empty());
            }
        } else {
            cur.push(c);
        }
        i = i + 1;
    }
    assert(s@.skip(i as int) =~= Seq::<char>::empty());
    if cur.len() > 0 {
        let ghost before = seqs(acc@);
        acc.push(cur);
        assert(seqs(acc@) =~= before.push(cur@));
    } else {
        assert(seqs(acc@) + Seq::<Seq<char>>::empty() =~= seqs(acc@));
    }
    acc
}

pub fn split_on(s: &Vec<char>, sep: char) -> (r: Vec<Vec<char>>)
    ensures
        seqs(r@) == pieces(s@, sep),
{
    let mut acc: Vec<Vec<char>> = Vec::new();
    let mut cur: Vec<char> = Vec::new();
    let mut i: usize = 0;
    assert(s@.skip(0) =~= s@);
    while i < s.len()
        invariant
            i <= s@.len(),
            seqs(acc@) + pieces_from(s@.skip(i as int), sep, cur@) == pieces(s@, sep),
        decreases s@.len() - i,
    {
        let ghost rest = s@.skip(i as int);
        assert(rest.drop_first() =~= s@.skip(i + 1));
        assert(rest[0] == s@[i as int]);
        let c = s[i];
        if c == sep {
            let ghost before = seqs(acc@);
            acc.push(cur);
            assert(seqs(acc@) =~= before.push(cur@));
            assert(before.push(cur@) + pieces_from(s@.skip(i + 1), sep, seq![]) =~= before + (seq![
                cur@,
            ] + pieces_from(s@.skip(i + 1), sep, seq![])));
            cur = Vec::new();
            proof {
                assert(cur@ =~= Seq::<char>::empty());
            }
        } else {
            cur.push(c);
        }
        i = i + 1;
    }
    assert(s@.skip(i as int) =~= Seq::<char>::empty());
    let ghost before = seqs(acc@);
    acc.push(cur);
    assert(seqs(acc@) =~= before.push(cur@));
    acc
}

pub fn find_chars(h: &Vec<char>, p: &Vec<char>) -> (r: Option<usize>)
    ensures
        match r {
            Some(k) => find(h@, p@) == Some(k as int) && k + p@.len() <= h@.len(),
            None => find(h@, p@) is None,
        },
{
    let n = h.len();
    let m = p.len();
    if m > n {
        return None;
    }
    let mut k: usize = 0;
    while k <= n - m
        invariant
            n == h@.len(),
            m == p@.len(),
            m <= n,
            k <= n - m + 1,
            find(h@, p@) == find_from(h@, p@, k as int),
        decreases n - k,
    {
        let mut j: usize = 0;
        let mut same = true;
        while j < m
            invariant
                n == h@.len(),
                m == p@.len(),
                k + m <= n,
                j <= m,
                same == (forall|t: int| 0 <= t < j ==> h@[k + t] == p@[t]),
            decreases m - j,
        {
            if h[k + j] != p[j] {
                same = false;
            }
            j = j + 1;
        }
        if same {
            assert(h@.subrange(k as int, k + m) =~= p@);
            return Some(k);
        }
        assert(h@.subrange(k as int, k + m) != p@) by {
            let t = choose|t: int| 0 <= t < m && h@[k + t] != p@[t];
            assert(h@.subrange(k as int, k + m)[t] == h@[k + t]);
        }
        k = k + 1;
    }
    None
}

pub fn rfind_char(s: &Vec<char>, c: char) -> (r: Option<usize>)
    ensures
        match r {
            Some(k) => rfind(s@, c) == Some(k as int) && k < s@.len() && s@[k as int] == c,
            None => rfind(s@, c) is None,
        },
{
    let mut last: Option<usize> = None;
    let mut i: usize = 0;
    assert(s@.take(0) =~= Seq::<char>::empty());
    while i < s.len()
        invariant
            i <= s@.len(),
            match last {
                Some(k) => rfind(s@.take(i as int), c) == Some(k as int) && k < i && s@[k as int]
                    == c,
                None => rfind(s@.take(i as int), c) is None,
            },
        decreases s@.len() - i,
    {
        assert(s@.take(i + 1).drop_last() =~= s@.take(i as int));
        if s[i] == c {
            last = Some(i);
        }
        i = i + 1;
    }
    assert(s@.take(s@.len() as int) =~= s@);
    last
}

/// The words joined with `sep` between them.
pub fn join_chars(parts: &Vec<Vec<char>>, sep: char) -> (r: Vec<char>)
    ensures
        r@ == join(seqs(parts@), seq![sep]),
{
    let mut r: Vec<char> = Vec::new();
    let mut i: usize = 0;
    while i < parts.len()
        invariant
            i <= parts@.len(),
            r@ == join(seqs(parts@).take(i as int), seq![sep]),
        decreases parts@.len() - i,
    {
        let ghost before = r@;
        assert(seqs(parts@).take(i + 1).drop_last() =~= seqs(parts@).take(i as int));
        if i > 0 {
            r.push(sep);
        }
        let part = &parts[i];
        let mut j: usize = 0;
        let ghost mid = r@;
        while j < part.len()
            invariant
                j <= part@.len(),
                r@ == mid + part@.take(j as int),
            decreases part@.len() - j,
        {
            r.push(part[j]);
            assert(mid + part@.take(j + 1) =~= (mid + part@.take(j as int)).push(part@[j as int]));
            j = j + 1;
        }
        assert(part@.take(part@.len() as int) =~= part@);
        assert(seqs(parts@)[i as int] == parts@[i as int]@);
        if i == 0 {
            assert(r@ =~= join(seqs(parts@).take(1), seq![sep]));
        } else {
            assert(r@ =~= before + seq![sep] + parts@[i as int]@);
        }
        i = i + 1;
    }
    assert(seqs(parts@).take(parts@.len() as int) =~= seqs(parts@));
    r
}

pub fn char_width(c: char) -> (w: usize)
    ensures
        w == utf8_width(c),
{
    let u = c as u32;
    if u < 0x80 {
        1
    } else if u < 0x800 {
        2
    } else if u < 0x10000 {
        3
    } else {
        4
    }
}

/// Each character takes at most four bytes.
pub proof fn lemma_utf8_len_bound(s: Seq<char>)
    ensures
        utf8_len(s) <= 4 * s.len(),
    decreases s.len(),
{
    if s.len() > 0 {
        lemma_utf8_len_bound(s.drop_last());
    }
}

/// The number of bytes of the UTF-8 encoding of `s`.
pub fn byte_len(s: &Vec<char>) -> (n: u128)
    ensures
        n == utf8_len(s@),
{
    let mut n: u128 = 0;
    let mut i: usize = 0;
    while i < s.len()
        invariant
            i <= s@.len(),
            n == utf8_len(s@.take(i as int)),
        decreases s@.len() - i,
    {
        assert(s@.take(i + 1).drop_last() =~= s@.take(i as int));
        proof {
            lemma_utf8_len_bound(s@.take(i + 1));
        }
        n = n + char_width(s[i]) as u128;
        i = i + 1;
    }
    assert(s@.take(s@.len() as int) =~= s@);
    n
}

/// Whether the UTF-8 encoding of `s` is longer than `b` bytes.
pub fn longer_than(s: &Vec<char>, b: u128) -> (r: bool)
    ensures
        r == (b < utf8_len(s@)),
{
    let n = byte_len(s);
    b < n
}

/// The index of the character that starts at byte `b`, if one does.
pub fn char_index_at_byte(s: &Vec<char>, b: u128) -> (r: Option<usize>)
    ensures
        match r {
            Some(k) => char_at_byte(s@, b as int) == Some(k as int) && k <= s@.len(),
            None => char_at_byte(s@, b as int) is None,
        },
{
    let mut i: usize = 0;
    let mut acc: u128 = 0;
    assert(s@.take(0) =~= Seq::<char>::empty());
    loop
        invariant
            i <= s@.len(),
            acc == utf8_len(s@.take(i as int)),
            acc <= b,
            char_at_byte(s@, b as int) == char_at_byte_from(s@, b as int, i as int),
        decreases s@.len() - i,
    {
        if acc == b {
            return Some(i);
        }
        if i == s.len() {
            return None;
        }
        let w = char_width(s[i]) as u128;
        assert(s@.take(i + 1).drop_last() =~= s@.take(i as int));
        if w > b - acc {
            assert(char_at_byte_from(s@, b as int, i + 1) is None);
            return None;
        }
        acc = acc + w;
        i = i + 1;
    }
}

pub fn hex_digit(c: char) -> (r: Option<u64>)
    ensures
        match r {
            Some(v) => hex_digit_value(c) == Some(v as nat) && v < 16,
            None => hex_digit_value(c) is None,
        },
{
    let u = c as u32;
    if '0' <= c && c <= '9' {
        Some((u - 48) as u64)
    } else if 'a' <= c && c <= 'f' {
        Some((u - 87) as u64)
    } else if 'A' <= c && c <= 'F' {
        Some((u - 55) as u64)
    } else {
        None
    }
}

/// A string of digits has at least the value of each of its prefixes.
pub proof fn lemma_digits_value_prefix(s: Seq<char>, radix: nat, k: int)
    requires
        0 <= k <= s.len(),
        radix >= 1,
    ensures
        digits_value(s.take(k), radix) <= digits_value(s, radix),
    decreases s.len() - k,
{
    if k < s.len() {
        lemma_digits_value_prefix(s, radix, k + 1);
        let p = s.take(k + 1);
        assert(p.drop_last() =~= s.take(k));
        let v = digits_value(s.take(k), radix);
        assert(v * radix >= v) by (nonlinear_arith)
            requires
                radix >= 1,
        ;
    } else {
        assert(s.take(k) =~= s);
    }
}

/// Parses an unsigned number in base `radix` (10 or 16) that must not exceed
/// `max`, with the syntax of `from_str` / `from_str_radix` for unsigned types.
pub fn parse_uint(s: &Vec<char>, radix: u64, max: u64) -> (r: Option<u64>)
    requires
        radix == 10 || radix == 16,
    ensures
        r == parse_unsigned(s@, radix as nat, max),
{
    let n = s.len();
    let st: usize = if n > 0 && s[0] == '+' {
        1
    } else {
        0
    };
    let ghost body = if s@.len() > 0 && s@[0] == '+' {
        s@.drop_first()
    } else {
        s@
    };
    assert(body =~= s@.skip(st as int));
    if st >= n {
        return None;
    }
    let mut acc: u64 = 0;
    let mut i: usize = st;
    assert(s@.subrange(st as int, st as int) =~= Seq::<char>::empty());
    while i < n
        invariant
            n == s@.len(),
            st <= i <= n,
            body == s@.skip(st as int),
            body == (if s@.len() > 0 && s@[0] == '+' {
                s@.drop_first()
            } else {
                s@
            }),
            radix == 10 || radix == 16,
            all_digits(s@.subrange(st as int, i as int), radix as nat),
            acc == digits_value(s@.subrange(st as int, i as int), radix as nat),
            acc <= max,
        decreases n - i,
    {
        let ghost prefix = s@.subrange(st as int, i + 1);
        assert(prefix.drop_last() =~= s@.subrange(st as int, i as int));
        assert(prefix.last() == s@[i as int]);
        assert(body.take(i + 1 - st) =~= prefix);
        assert(body[i - st] == s@[i as int]);
        let dv = hex_digit(s[i]);
        if dv.is_none() {
            assert(!is_digit_in(body[i - st], radix as nat));
            assert(!all_digits(body, radix as nat));
            return None;
        }
        let d = dv.unwrap();
        if d >= radix {
            assert(!is_digit_in(body[i - st], radix as nat));
            return None;
        }
        assert((acc as int) * (radix as int) + (d as int) <= 16 * 0xffff_ffff_ffff_ffffint + 15)
            by (nonlinear_arith)
            requires
                acc <= 0xffff_ffff_ffff_ffffu64,
                radix <= 16,
                d < 16,
        ;
        let next: u128 = (acc as u128) * (radix as u128) + (d as u128);
        assert(next == digits_value(prefix, radix as nat));
        if next > max as u128 {
            proof {
                if all_digits(body, radix as nat) {
                    lemma_digits_value_prefix(body, radix as nat, i + 1 - st);
                    assert(digits_value(body, radix as nat) > max);
                }
            }
            return None;
        }
        acc = next as u64;
        assert(all_digits(prefix, radix as nat)) by {
            assert forall|t: int| 0 <= t < prefix.len() implies #[trigger] is_digit_in(
                prefix[t],
                radix as nat,
            ) by {
                if t < prefix.len() - 1 {
                    assert(prefix[t] == s@.subrange(st as int, i as int)[t]);
                }
            }
        }
        i = i + 1;
    }
    assert(s@.subrange(st as int, n as int) =~= body);
    Some(acc)
}

pub fn digit_to_char(d: u64) -> (c: char)
    requires
        d < 16,
    ensures
        c == digit_char(d as nat),
{
    if d < 10 {
        ((d as u8) + 48) as char
    } else {
        ((d as u8) + 87) as char
    }
}

/// The digits of `n` in base `radix` (10 or 16).
pub fn digits_of(n: u64, radix: u64) -> (r: Vec<char>)
    requires
        radix == 10 || radix == 16,
    ensures
        r@ == digits_text(n as nat, radix as nat),
    decreases n,
{
    if n < radix {
        let mut r = Vec::new();
        r.push(digit_to_char(n));
        r
    } else {
        let mut r = digits_of(n / radix, radix);
        r.push(digit_to_char(n % radix));
        r
    }
}

/// Appends the decimal text of `n`.
pub fn push_decimal(out: &mut String, n: u64)
    ensures
        final(out)@ == old(out)@ + decimal(n as nat),
{
    let d = digits_of(n, 10);
    push_chars(out, &d);
}

/// Appends the lower-case hexadecimal text of `n`.
pub fn push_hex(out: &mut String, n: u64)
    ensures
        final(out)@ == old(out)@ + hexadecimal(n as nat),
{
    let d = digits_of(n, 16);
    push_chars(out, &d);
}

/// Appends the decimal text of `n`, zero-padded to `width` characters.
pub fn push_padded(out: &mut String, n: u64, width: usize)
    ensures
        final(out)@ == old(out)@ + padded(n as nat, width as nat),
{
    let d = digits_of(n, 10);
    let ghost start = out@;
    if d.len() < width {
        let mut k: usize = 0;
        while k < width - d.len()
            invariant
                d@.len() < width,
                k <= width - d@.len(),
                out@ == start + Seq::new(k as nat, |i: int| '0'),
            decreases width - d@.len() - k,
        {
            push_char(out, '0');
            assert(start + Seq::new((k + 1) as nat, |i: int| '0') =~= (start + Seq::new(
                k as nat,
                |i: int| '0',
            )).push('0'));
            k = k + 1;
        }
    }
    push_chars(out, &d);
    assert(out@ =~= start + padded(n as nat, width as nat));
}


/// Decimal text is one or more decimal digits, worth the number written.
pub proof fn lemma_decimal_digits(n: nat)
    ensures
        decimal(n).len() > 0,
        all_digits(decimal(n), 10),
        digits_value(decimal(n), 10) == n,
    decreases n,
{
    let c = digit_char(n % 10);
    assert(((n % 10 + 48) as char) as nat == n % 10 + 48);
    assert(hex_digit_value(c) == Some(n % 10));
    if n < 10 {
        let d = decimal(n);
        assert(d == seq![c]);
        assert(d.drop_last() =~= Seq::<char>::empty());
        assert(digits_value(d.drop_last(), 10) == 0);
        assert(d.last() == c);
        assert(n % 10 == n);
    } else {
        lemma_decimal_digits(n / 10);
        let d = decimal(n);
        let p = decimal(n / 10);
        assert(d == p.push(c));
        assert(d.drop_last() =~= p);
        assert(d.last() == c);
        assert((n / 10) * 10 + n % 10 == n) by (nonlinear_arith);
        assert forall|i: int| 0 <= i < d.len() implies #[trigger] is_digit_in(d[i], 10) by {
            if i < p.len() {
                assert(d[i] == p[i]);
            }
        }
    }
}

/// Decimal text reads back as the number it writes, up to any bound the
/// number is within.
pub proof fn lemma_decimal_parses_back(n: u64, max: u64)
    requires
        n <= max,
    ensures
        parse_unsigned(decimal(n as nat), 10, max) == Some(n),
{
    lemma_decimal_digits(n as nat);
    assert(is_digit_in(decimal(n as nat)[0], 10));
}

/// Searching for one character from `k` finds its first occurrence from
/// `k` on, or nothing when there is none.
pub proof fn lemma_find_char_from(h: Seq<char>, x: char, k: int)
    requires
        0 <= k <= h.len(),
    ensures
        match find_from(h, seq![x], k) {
            Some(j) => k <= j < h.len() && h[j] == x && forall|t: int| k <= t < j ==> h[t] != x,
            None => forall|t: int| k <= t < h.len() ==> h[t] != x,
        },
    decreases h.len() - k,
{
    if k + 1 <= h.len() {
        if h[k] == x {
            assert(h.subrange(k, k + 1) =~= seq![x]);
        } else {
            assert(h.subrange(k, k + 1)[0] != seq![x][0]);
            lemma_find_char_from(h, x, k + 1);
        }
    }
}

/// A text that neither starts nor ends with whitespace is its own trim, and
/// so is it followed by one space.
pub proof fn lemma_trimmed_plain(b: Seq<char>)
    requires
        b.len() == 0 || (!is_space(b[0]) && !is_space(b.last())),
    ensures
        trimmed(b) == b,
        trimmed(b + seq![' ']) == b,
{
    let bs = b + seq![' '];
    assert(bs.drop_last() =~= b);
    if b.len() == 0 {
        assert(bs.drop_first() =~= b);
        assert(trim_start(bs) == trim_start(b));
    } else {
        assert(bs[0] == b[0]);
        assert(trim_start(bs) == bs);
    }
    assert(trim_end(bs) == trim_end(b));
}

/// Searching for `p` from `k` finds its first occurrence from `k` on, or
/// nothing when there is none.
pub proof fn lemma_find_from_first(h: Seq<char>, p: Seq<char>, k: int)
    requires
        0 <= k,
    ensures
        match find_from(h, p, k) {
            Some(j) => k <= j && j + p.len() <= h.len() && h.subrange(j, j + p.len()) == p
                && forall|t: int| k <= t < j ==> #[trigger] h.subrange(t, t + p.len()) != p,
            None => forall|t: int| k <= t && t + p.len() <= h.len() ==> #[trigger] h.subrange(t, t + p.len()) != p,
        },
    decreases h.len() + 1 - k,
{
    if k + p.len() <= h.len() && h.subrange(k, k + p.len()) != p {
        lemma_find_from_first(h, p, k + 1);
    }
}

/// The last `c` of `x + d` is the last `c` of `x` when `d` holds no `c`.
pub proof fn lemma_rfind_skips_suffix(x: Seq<char>, d: Seq<char>, c: char)
    requires
        !d.contains(c),
    ensures
        rfind(x + d, c) == rfind(x, c),
    decreases d.len(),
{
    if d.len() == 0 {
        assert(x + d =~= x);
    } else {
        assert((x + d).drop_last() =~= x + d.drop_last());
        assert((x + d).last() == d.last());
        assert(d.drop_last().contains(c) ==> d.contains(c)) by {
            if d.drop_last().contains(c) {
                let i = choose|i: int| 0 <= i < d.drop_last().len() && d.drop_last()[i] == c;
                assert(d[i] == c);
            }
        }
        lemma_rfind_skips_suffix(x, d.drop_last(), c);
    }
}

} // verus!
