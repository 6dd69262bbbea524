//! Strings as sequences of characters.

use vstd::prelude::*;
use vstd::utf8::*;

verus! {

/// `String::push`: appends one character.
pub assume_specification[ String::push ](s: &mut String, c: char)
    ensures
        final(s)@ == old(s)@.push(c),
;

/// The characters of a string, if there is one.
pub open spec fn text_of(s: Option<String>) -> Option<Seq<char>> {
    match s {
        Some(t) => Some(t@),
        None => None,
    }
}

/// The characters with the Unicode property `White_Space`.
pub open spec fn is_white(c: char) -> bool {
    let u = c as u32;
    ||| 0x09 <= u <= 0x0D
    ||| u == 0x20
    ||| u == 0x85
    ||| u == 0xA0
    ||| u == 0x1680
    ||| 0x2000 <= u <= 0x200A
    ||| u == 0x2028
    ||| u == 0x2029
    ||| u == 0x202F
    ||| u == 0x205F
    ||| u == 0x3000
}

/// `s` without its leading white space.
pub open spec fn trimmed_start(s: Seq<char>) -> Seq<char>
    decreases s.len(),
{
    if s.len() > 0 && is_white(s[0]) {
        trimmed_start(s.drop_first())
    } else {
        s
    }
}

/// `s` without its trailing white space.
pub open spec fn trimmed_end(s: Seq<char>) -> Seq<char>
    decreases s.len(),
{
    if s.len() > 0 && is_white(s.last()) {
        trimmed_end(s.drop_last())
    } else {
        s
    }
}

/// `s` without leading and trailing white space.
pub open spec fn trimmed(s: Seq<char>) -> Seq<char> {
    trimmed_end(trimmed_start(s))
}

/// A string that neither starts nor ends with white space is its own trim.
pub proof fn lemma_trimmed_id(s: Seq<char>)
    requires
        s.len() > 0 ==> !is_white(s[0]) && !is_white(s.last()),
    ensures
        trimmed(s) == s,
{
}

/// Whether `c` is white space.
pub fn white(c: char) -> (r: bool)
    ensures
        r == is_white(c),
{
    let u: u32 = c as u32;
    (0x09 <= u && u <= 0x0D) || u == 0x20 || u == 0x85 || u == 0xA0 || u == 0x1680 || (0x2000 <= u
        && u <= 0x200A) || u == 0x2028 || u == 0x2029 || u == 0x202F || u == 0x205F || u == 0x3000
}

/// The characters of `s`.
pub fn chars_of(s: &str) -> (r: Vec<char>)
    ensures
        r@ == s@,
{
    let mut out: Vec<char> = Vec::new();
    for c in it: s.chars()
        invariant
            out@ =~= it.seq().take(it.index() as int),
            it.seq() == s@,
    {
        out.push(c);
    }
    out
}

/// The string of the characters `cs`.
pub fn from_chars(cs: &[char]) -> (r: String)
    ensures
        r@ == cs@,
{
    let mut out: String = String::new();
    let mut i: usize = 0;
    while i < cs.len()
        invariant
            i <= cs@.len(),
            out@ =~= cs@.take(i as int),
        decreases cs@.len() - i,
    {
        out.push(cs[i]);
        i = i + 1;
    }
    out
}

/// The characters of `s` without leading and trailing white space.
pub fn trim(s: &str) -> (r: Vec<char>)
    ensures
        r@ == trimmed(s@),
{
    let cs: Vec<char> = chars_of(s);
    trim_chars(&cs)
}

/// `cs` without leading and trailing white space.
pub fn trim_chars(cs: &[char]) -> (r: Vec<char>)
    ensures
        r@ == trimmed(cs@),
{
    let mut lo: usize = 0;
    assert(cs@.skip(0) =~= cs@);
    while lo < cs.len() && white(cs[lo])
        invariant
            lo <= cs@.len(),
            trimmed_start(cs@) == trimmed_start(cs@.skip(lo as int)),
        decreases cs@.len() - lo,
    {
        assert(cs@.skip(lo as int).drop_first() =~= cs@.skip(lo + 1));
        lo = lo + 1;
    }
    let mut hi: usize = cs.len();
    assert(cs@.subrange(lo as int, hi as int) =~= cs@.skip(lo as int));
    while lo < hi && white(cs[hi - 1])
        invariant
            lo <= hi <= cs@.len(),
            trimmed(cs@) == trimmed_end(cs@.subrange(lo as int, hi as int)),
        decreases hi,
    {
        assert(cs@.subrange(lo as int, hi as int).drop_last() =~= cs@.subrange(
            lo as int,
            hi - 1,
        ));
        hi = hi - 1;
    }
    copy_range(cs, lo, hi)
}

/// The characters of `cs` from `lo` up to `hi`.
pub fn copy_range(cs: &[char], lo: usize, hi: usize) -> (r: Vec<char>)
    requires
        lo <= hi <= cs@.len(),
    ensures
        r@ == cs@.subrange(lo as int, hi as int),
{
    let mut out: Vec<char> = Vec::new();
    let mut i: usize = lo;
    while i < hi
        invariant
            lo <= i <= hi <= cs@.len(),
            out@ =~= cs@.subrange(lo as int, i as int),
        decreases hi - i,
    {
        out.push(cs[i]);
        i = i + 1;
    }
    out
}

/// Whether two character sequences are the same.
pub fn same_chars(a: &[char], b: &[char]) -> (r: bool)
    ensures
        r == (a@ == b@),
{
    if a.len() != b.len() {
        return false;
    }
    let mut i: usize = 0;
    while i < a.len()
        invariant
            i <= a@.len() == b@.len(),
            a@.take(i as int) =~= b@.take(i as int),
        decreases a@.len() - i,
    {
        if a[i] != b[i] {
            return false;
        }
        assert(a@.take(i + 1) =~= a@.take(i as int).push(a@[i as int]));
        assert(b@.take(i + 1) =~= b@.take(i as int).push(b@[i as int]));
        i = i + 1;
    }
    assert(a@.take(i as int) =~= a@);
    assert(b@.take(i as int) =~= b@);
    true
}

/// Whether two strings hold the same characters.
pub fn same(a: &str, b: &str) -> (r: bool)
    ensures
        r == (a@ == b@),
{
    let x: Vec<char> = chars_of(a);
    let y: Vec<char> = chars_of(b);
    same_chars(&x, &y)
}

/// Whether two byte strings are the same.
pub fn same_bytes(a: &[u8], b: &[u8]) -> (r: bool)
    ensures
        r == (a@ == b@),
{
    if a.len() != b.len() {
        return false;
    }
    let mut i: usize = 0;
    while i < a.len()
        invariant
            i <= a@.len() == b@.len(),
            forall|j: int| 0 <= j < i ==> a@[j] == b@[j],
        decreases a@.len() - i,
    {
        if a[i] != b[i] {
            return false;
        }
        i = i + 1;
    }
    assert(a@ =~= b@);
    true
}

/// The UTF-8 bytes of `s`.
pub fn bytes_of(s: &str) -> (r: Vec<u8>)
    ensures
        r@ == encode_utf8(s@),
{
    s.as_bytes_vec()
}

/// `String::from_utf8`: the string with these bytes, if they are valid UTF-8.
#[verifier::external_body]
pub(crate) fn string_of_bytes(bytes: Vec<u8>) -> (r: Option<String>)
    ensures
        r is Some <==> valid_utf8(bytes@),
        r matches Some(s) ==> encode_utf8(s@) == bytes@,
{
    String::from_utf8(bytes).ok()
}

/// What `String::from_utf8_lossy` makes of bytes.
pub uninterp spec fn lossy(bytes: Seq<u8>) -> Seq<char>;

/// `String::from_utf8_lossy`: the text of `bytes`, with every malformed
/// sequence replaced. Which characters stand for malformed bytes is left to
/// the name; valid UTF-8 is kept as it is.
#[verifier::external_body]
pub(crate) fn lossy_text(bytes: &[u8]) -> (r: String)
    ensures
        r@ == lossy(bytes@),
        valid_utf8(bytes@) ==> encode_utf8(r@) == bytes@,
{
    String::from_utf8_lossy(bytes).into_owned()
}

/// The decimal digits of `n`, most significant first.
pub open spec fn digits(n: nat) -> Seq<char>
    decreases n,
{
    if n < 10 {
        seq![(48 + n) as char]
    } else {
        digits(n / 10).push((48 + n % 10) as char)
    }
}

/// `n` in decimal.
pub fn decimal(n: u64) -> (r: String)
    ensures
        r@ == digits(n as nat),
    decreases n,
{
    let d: char = (48 + (n % 10) as u8) as char;
    if n < 10 {
        let mut out: String = String::new();
        out.push(d);
        assert(out@ =~= seq![d]);
        out
    } else {
        let mut out: String = decimal(n / 10);
        out.push(d);
        out
    }
}

/// The bytes of two texts in a row are the bytes of one and then of the other.
pub proof fn lemma_encode_add(a: Seq<char>, b: Seq<char>)
    ensures
        encode_utf8(a + b) == encode_utf8(a) + encode_utf8(b),
    decreases a.len(),
{
    if a.len() == 0 {
        assert(a + b =~= b);
        assert(encode_utf8(a) + encode_utf8(b) =~= encode_utf8(b));
    } else {
        lemma_encode_add(a.drop_first(), b);
        assert((a + b).drop_first() =~= a.drop_first() + b);
        assert((a + b)[0] == a[0]);
        assert(encode_utf8(a + b) =~= encode_utf8(a) + encode_utf8(b));
    }
}

/// White space is these characters and no others.
pub proof fn lemma_white_listed(c: char)
    ensures
        is_white(c) <==> seq![
            '\t',
            '\n',
            '\u{b}',
            '\u{c}',
            '\r',
            ' ',
            '\u{85}',
            '\u{a0}',
            '\u{1680}',
            '\u{2000}',
            '\u{2001}',
            '\u{2002}',
            '\u{2003}',
            '\u{2004}',
            '\u{2005}',
            '\u{2006}',
            '\u{2007}',
            '\u{2008}',
            '\u{2009}',
            '\u{200a}',
            '\u{2028}',
            '\u{2029}',
            '\u{202f}',
            '\u{205f}',
            '\u{3000}',
        ].contains(c),
{
    let all = seq![
        '\t',
        '\n',
        '\u{b}',
        '\u{c}',
        '\r',
        ' ',
        '\u{85}',
        '\u{a0}',
        '\u{1680}',
        '\u{2000}',
        '\u{2001}',
        '\u{2002}',
        '\u{2003}',
        '\u{2004}',
        '\u{2005}',
        '\u{2006}',
        '\u{2007}',
        '\u{2008}',
        '\u{2009}',
        '\u{200a}',
        '\u{2028}',
        '\u{2029}',
        '\u{202f}',
        '\u{205f}',
        '\u{3000}',
    ];
    if is_white(c) {
        let u = c as u32 as int;
        let at = if u <= 0x0d {
            u - 9
        } else if u == 0x20 {
            5
        } else if u == 0x85 {
            6
        } else if u == 0xa0 {
            7
        } else if u == 0x1680 {
            8
        } else if u <= 0x200a {
            9 + (u - 0x2000)
        } else if u <= 0x2029 {
            20 + (u - 0x2028)
        } else if u == 0x202f {
            22
        } else if u == 0x205f {
            23
        } else {
            24
        };
        assert(all[at] == c);
    }
}

/// Trimming takes the white space off both ends and nothing else, whatever it
/// is and however much of it there is.
pub proof fn lemma_trimmed_between(before: Seq<char>, inner: Seq<char>, behind: Seq<char>)
    requires
        forall|i: int| 0 <= i < before.len() ==> is_white(#[trigger] before[i]),
        forall|i: int| 0 <= i < behind.len() ==> is_white(#[trigger] behind[i]),
        inner.len() > 0 ==> !is_white(inner[0]) && !is_white(inner.last()),
    ensures
        trimmed(before + inner + behind) == inner,
{
    lemma_start_drops(before, inner + behind);
    assert(before + inner + behind =~= before + (inner + behind));
    if inner.len() > 0 {
        assert((inner + behind)[0] == inner[0]);
        lemma_end_drops(inner, behind);
    } else {
        assert(inner + behind =~= behind);
        lemma_start_drops(behind, inner);
        assert(behind + inner =~= behind);
    }
}

proof fn lemma_start_drops(before: Seq<char>, rest: Seq<char>)
    requires
        forall|i: int| 0 <= i < before.len() ==> is_white(#[trigger] before[i]),
    ensures
        trimmed_start(before + rest) == trimmed_start(rest),
    decreases before.len(),
{
    if before.len() == 0 {
        assert(before + rest =~= rest);
    } else {
        assert((before + rest)[0] == before[0]);
        assert((before + rest).drop_first() =~= before.drop_first() + rest);
        lemma_start_drops(before.drop_first(), rest);
    }
}

proof fn lemma_end_drops(rest: Seq<char>, behind: Seq<char>)
    requires
        forall|i: int| 0 <= i < behind.len() ==> is_white(#[trigger] behind[i]),
    ensures
        trimmed_end(rest + behind) == trimmed_end(rest),
    decreases behind.len(),
{
    if behind.len() == 0 {
        assert(rest + behind =~= rest);
    } else {
        assert((rest + behind).last() == behind.last());
        assert((rest + behind).drop_last() =~= rest + behind.drop_last());
        lemma_end_drops(rest, behind.drop_last());
    }
}

/// Read as a decimal number, the digits of a number are that number; all of
/// them are digits, and only zero starts with one.
pub proof fn lemma_digits_read_back(n: nat)
    ensures
        digits(n).fold_left(0int, |v: int, c: char| v * 10 + (c as int - 48)) == n,
        forall|i: int| 0 <= i < digits(n).len() ==> '0' <= #[trigger] digits(n)[i] <= '9',
        digits(n).len() > 0,
        digits(n)[0] == '0' <==> n == 0,
        n == 0 ==> digits(n).len() == 1,
    decreases n,
{
    let read = |v: int, c: char| v * 10 + (c as int - 48);
    let all = digits(n);
    reveal_with_fuel(Seq::fold_left, 2);
    if n < 10 {
        assert(all.drop_last() =~= Seq::<char>::empty());
        assert(all.last() as int == 48 + n);
    } else {
        lemma_digits_read_back(n / 10);
        assert(all.drop_last() =~= digits(n / 10));
        assert(all.last() as int == 48 + n % 10);
        assert(n == (n / 10) * 10 + n % 10);
        assert(all[0] == digits(n / 10)[0]);
    }
}

/// What is trimmed stays as it is.
pub proof fn lemma_trimmed_twice(s: Seq<char>)
    ensures
        trimmed(trimmed(s)) == trimmed(s),
{
    lemma_start_stops(s);
    let t = trimmed_start(s);
    lemma_end_stops(t);
    let u = trimmed_end(t);
    if u.len() > 0 {
        assert(u[0] == t[0]);
    }
    lemma_trimmed_id(u);
}

proof fn lemma_start_stops(s: Seq<char>)
    ensures
        trimmed_start(s).len() > 0 ==> !is_white(trimmed_start(s)[0]),
    decreases s.len(),
{
    if s.len() > 0 && is_white(s[0]) {
        lemma_start_stops(s.drop_first());
    }
}

proof fn lemma_end_stops(s: Seq<char>)
    ensures
        trimmed_end(s).len() > 0 ==> !is_white(trimmed_end(s).last()),
        trimmed_end(s).len() <= s.len(),
        trimmed_end(s) == s.take(trimmed_end(s).len() as int),
    decreases s.len(),
{
    if s.len() > 0 && is_white(s.last()) {
        lemma_end_stops(s.drop_last());
        let n = trimmed_end(s).len() as int;
        assert(s.drop_last().take(n) =~= s.take(n));
    } else {
        assert(s.take(s.len() as int) =~= s);
    }
}

} // verus!
