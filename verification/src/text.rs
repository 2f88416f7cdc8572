//! Text: numbers written out, words and fields told apart, and the bytes a
//! peer sent read as characters.

use vstd::prelude::*;
use vstd::string::*;
use vstd::utf8::*;

verus! {

/// The decimal digit of `n`.
pub open spec fn digit(n: nat) -> char
    recommends
        n < 10,
{
    (48 + n) as char
}

/// `n` in decimal, without leading zeros.
pub open spec fn decimal(n: nat) -> Seq<char>
    decreases n,
{
    if n < 10 {
        seq![digit(n)]
    } else {
        decimal(n / 10).push(digit(n % 10))
    }
}

/// `n` in decimal, with zeros in front up to `width` digits.
pub open spec fn padded_decimal(n: nat, width: nat) -> Seq<char> {
    let digits = decimal(n);
    if digits.len() < width {
        Seq::new((width - digits.len()) as nat, |i: int| '0') + digits
    } else {
        digits
    }
}

/// The hexadecimal digit of `n`, in lower case.
pub open spec fn hex_digit(n: nat) -> char
    recommends
        n < 16,
{
    if n < 10 {
        digit(n)
    } else {
        (87 + n) as char
    }
}

/// `n` as `0x` and two hexadecimal digits.
pub open spec fn hex_byte(n: u8) -> Seq<char> {
    seq!['0', 'x', hex_digit(n as nat / 16), hex_digit(n as nat % 16)]
}

/// The characters that Unicode gives the property `White_Space`.
pub open spec fn white_space(c: char) -> bool {
    let n = c as u32;
    ||| 0x9 <= n <= 0xd
    ||| n == 0x20
    ||| n == 0x85
    ||| n == 0xa0
    ||| n == 0x1680
    ||| 0x2000 <= n <= 0x200a
    ||| n == 0x2028
    ||| n == 0x2029
    ||| n == 0x202f
    ||| n == 0x205f
    ||| n == 0x3000
}

/// What keeps two fields apart.
#[derive(Clone, Copy)]
pub enum Separator {
    /// Any white space.
    White,
    /// One character.
    One(char),
    /// Either of two characters.
    Either(char, char),
}

impl Separator {
    /// Whether `c` keeps two fields apart.
    pub open spec fn parts(self, c: char) -> bool {
        match self {
            Separator::White => white_space(c),
            Separator::One(a) => c == a,
            Separator::Either(a, b) => c == a || c == b,
        }
    }

    /// Whether `c` keeps two fields apart.
    pub fn separates(&self, c: char) -> (parts: bool)
        ensures
            parts == self.parts(c),
    {
        match *self {
            Separator::White => {
                let n: u32 = c as u32;
                (0x9 <= n && n <= 0xd) || n == 0x20 || n == 0x85 || n == 0xa0 || n == 0x1680 || (
                0x2000 <= n && n <= 0x200a) || n == 0x2028 || n == 0x2029 || n == 0x202f || n
                    == 0x205f || n == 0x3000
            },
            Separator::One(a) => c == a,
            Separator::Either(a, b) => c == a || c == b,
        }
    }
}

/// How many characters stand before the first separator, or in all of
/// `text` where it has none.
pub open spec fn run(text: Seq<char>, separator: Separator) -> nat
    decreases text.len(),
{
    if text.len() == 0 || separator.parts(text[0]) {
        0
    } else {
        1 + run(text.drop_first(), separator)
    }
}

/// What stands before the first separator.
pub open spec fn before(text: Seq<char>, separator: Separator) -> Seq<char> {
    text.take(run(text, separator) as int)
}

/// What stands before the first `c` and what behind it, where there is one.
pub open spec fn split_once(text: Seq<char>, c: char) -> Option<(Seq<char>, Seq<char>)> {
    let at = run(text, Separator::One(c));
    if at < text.len() {
        Some((text.take(at as int), text.skip((at + 1) as int)))
    } else {
        None
    }
}

/// The fields of `text` that are not empty, in order.
pub open spec fn fields(text: Seq<char>, separator: Separator) -> Seq<Seq<char>>
    decreases text.len(),
{
    if text.len() == 0 {
        Seq::empty()
    } else if separator.parts(text[0]) {
        fields(text.drop_first(), separator)
    } else {
        proof {
            lemma_run_bound(text, separator);
        }
        seq![before(text, separator)] + fields(text.skip(run(text, separator) as int), separator)
    }
}

/// Where `part` first stands in `text`.
pub open spec fn find(text: Seq<char>, part: Seq<char>) -> Option<nat>
    decreases text.len(),
{
    if part.is_prefix_of(text) {
        Some(0)
    } else if text.len() == 0 {
        None
    } else {
        match find(text.drop_first(), part) {
            Some(at) => Some(at + 1),
            None => None,
        }
    }
}

/// `c`, in lower case where it is an ASCII letter.
pub open spec fn ascii_lower(c: char) -> char {
    if 'A' <= c <= 'Z' {
        (c as u32 + 32) as char
    } else {
        c
    }
}

/// Whether `a` and `b` are the same but for the case of ASCII letters.
pub open spec fn same_word(a: Seq<char>, b: Seq<char>) -> bool {
    &&& a.len() == b.len()
    &&& forall|i: int| 0 <= i < a.len() ==> ascii_lower(#[trigger] a[i]) == ascii_lower(b[i])
}

pub proof fn lemma_run_bound(text: Seq<char>, separator: Separator)
    ensures
        run(text, separator) <= text.len(),
    decreases text.len(),
{
    if text.len() > 0 && !separator.parts(text[0]) {
        lemma_run_bound(text.drop_first(), separator);
    }
}

/// A run is known by where it stops.
pub proof fn lemma_run_is(text: Seq<char>, separator: Separator, n: nat)
    requires
        n <= text.len(),
        forall|i: int| 0 <= i < n ==> !separator.parts(#[trigger] text[i]),
        n == text.len() || separator.parts(text[n as int]),
    ensures
        run(text, separator) == n,
    decreases n,
{
    if n > 0 {
        assert forall|i: int| 0 <= i < n - 1 implies !separator.parts(
            #[trigger] text.drop_first()[i],
        ) by {
            assert(text.drop_first()[i] == text[i + 1]);
        }
        assert(!separator.parts(text[0]));
        lemma_run_is(text.drop_first(), separator, (n - 1) as nat);
    }
}

/// Text without a separator is one field, which ends where a separator
/// follows.
pub proof fn lemma_first_field(field: Seq<char>, rest: Seq<char>, separator: Separator)
    requires
        field.len() > 0,
        forall|i: int| 0 <= i < field.len() ==> !separator.parts(#[trigger] field[i]),
        rest.len() == 0 || separator.parts(rest[0]),
    ensures
        before(field + rest, separator) == field,
        fields(field + rest, separator) == seq![field] + fields(rest, separator),
{
    let text = field + rest;
    assert forall|i: int| 0 <= i < field.len() implies !separator.parts(#[trigger] text[i]) by {
        assert(text[i] == field[i]);
    }
    lemma_run_is(text, separator, field.len());
    assert(text.take(field.len() as int) =~= field);
    assert(text.skip(field.len() as int) =~= rest);
    assert(text[0] == field[0]);
}

/// `n` in decimal.
pub fn decimal_text(n: u128) -> (text: String)
    ensures
        text@ == decimal(n as nat),
    decreases n,
{
    let mut text = if n < 10 {
        String::new()
    } else {
        decimal_text(n / 10)
    };
    let last: u8 = (n % 10) as u8;
    text.push(digit_char(last));
    assert(text@ =~= decimal(n as nat));
    text
}

/// `n` in decimal, with zeros in front up to `width` digits.
pub fn padded_decimal_text(n: u32, width: usize) -> (text: String)
    ensures
        text@ == padded_decimal(n as nat, width as nat),
{
    let digits = decimal_text(n as u128);
    let length = digits.as_str().unicode_len();
    let mut text = String::new();
    let mut zeros: usize = 0;
    while length < width && zeros < width - length
        invariant
            digits@.len() == length,
            text@ == Seq::new(zeros as nat, |i: int| '0'),
            zeros == 0 || zeros <= width - length,
        decreases width - zeros,
    {
        text.push('0');
        zeros = zeros + 1;
        assert(text@ =~= Seq::new(zeros as nat, |i: int| '0'));
    }
    text.append(digits.as_str());
    assert(text@ =~= padded_decimal(n as nat, width as nat));
    text
}

fn digit_char(n: u8) -> (c: char)
    requires
        n < 10,
    ensures
        c == digit(n as nat),
{
    (48 + n) as char
}

fn hex_char(n: u8) -> (c: char)
    requires
        n < 16,
    ensures
        c == hex_digit(n as nat),
{
    if n < 10 {
        digit_char(n)
    } else {
        (87 + n) as char
    }
}

/// `n` as `0x` and two hexadecimal digits.
pub fn hex_byte_text(n: u8) -> (text: String)
    ensures
        text@ == hex_byte(n),
{
    let mut text = String::new();
    text.push('0');
    text.push('x');
    text.push(hex_char(n / 16));
    text.push(hex_char(n % 16));
    assert(text@ =~= hex_byte(n));
    text
}

/// The characters of `text`.
pub fn chars_of(text: &str) -> (chars: Vec<char>)
    ensures
        chars@ == text@,
{
    let mut chars: Vec<char> = Vec::new();
    for c in iter: text.chars()
        invariant
            iter.seq() == text@,
            chars@ == text@.take(iter.index() as int),
    {
        chars.push(c);
        assert(chars@ =~= text@.take(iter.index() + 1));
    }
    assert(chars@ =~= text@);
    chars
}

/// How many characters from `from` on stand before the first separator.
fn run_from(chars: &Vec<char>, from: usize, separator: Separator) -> (n: usize)
    requires
        from <= chars@.len(),
    ensures
        n == run(chars@.skip(from as int), separator),
        from + n <= chars@.len(),
{
    let mut at: usize = from;
    while at < chars.len() && !separator.separates(chars[at])
        invariant
            from <= at <= chars@.len(),
            forall|i: int| from <= i < at ==> !separator.parts(#[trigger] chars@[i]),
        decreases chars@.len() - at,
    {
        at = at + 1;
    }
    proof {
        let rest = chars@.skip(from as int);
        assert forall|i: int| 0 <= i < at - from implies !separator.parts(#[trigger] rest[i]) by {
            assert(rest[i] == chars@[from + i]);
        }
        lemma_run_is(rest, separator, (at - from) as nat);
    }
    at - from
}

/// What stands before the first separator.
pub fn before_text<'a>(text: &'a str, separator: Separator) -> (front: &'a str)
    ensures
        front@ == before(text@, separator),
{
    let chars = chars_of(text);
    assert(chars@.skip(0) =~= text@);
    let n = run_from(&chars, 0, separator);
    text.substring_char(0, n)
}

/// What stands before the first `c` and what behind it, where there is one.
pub fn split_once_text<'a>(text: &'a str, c: char) -> (parts: Option<(&'a str, &'a str)>)
    ensures
        match parts {
            Some((front, back)) => split_once(text@, c) == Some((front@, back@)),
            None => split_once(text@, c) is None,
        },
{
    let chars = chars_of(text);
    let length = chars.len();
    assert(chars@.skip(0) =~= text@);
    let at = run_from(&chars, 0, Separator::One(c));
    if at < length {
        let front = text.substring_char(0, at);
        let back = text.substring_char(at + 1, length);
        assert(front@ =~= text@.take(at as int));
        assert(back@ =~= text@.skip(at + 1));
        Some((front, back))
    } else {
        None
    }
}

/// What follows `front`, where `text` begins with it.
pub fn strip_text<'a>(text: &'a str, front: &str) -> (rest: Option<&'a str>)
    ensures
        match rest {
            Some(back) => front@.is_prefix_of(text@) && back@ == text@.skip(front@.len() as int),
            None => !front@.is_prefix_of(text@),
        },
{
    let chars = chars_of(text);
    let wanted = chars_of(front);
    assert(chars@.skip(0) =~= text@);
    if stands_at(&chars, 0, &wanted) {
        let back = text.substring_char(wanted.len(), chars.len());
        assert(back@ =~= text@.skip(front@.len() as int));
        Some(back)
    } else {
        None
    }
}

/// Whether `c` stands in `text`.
pub fn has_char(text: &str, c: char) -> (has: bool)
    ensures
        has == text@.contains(c),
{
    let chars = chars_of(text);
    let mut i: usize = 0;
    while i < chars.len()
        invariant
            i <= chars@.len(),
            chars@ == text@,
            forall|j: int| 0 <= j < i ==> text@[j] != c,
        decreases chars@.len() - i,
    {
        if chars[i] == c {
            assert(text@[i as int] == c);
            return true;
        }
        i = i + 1;
    }
    false
}

/// `texts`, each as its characters.
pub open spec fn views(texts: Seq<&str>) -> Seq<Seq<char>> {
    Seq::new(texts.len(), |i: int| texts[i]@)
}

/// The fields of `text` that are not empty, in order.
pub fn fields_of<'a>(text: &'a str, separator: Separator) -> (found: Vec<&'a str>)
    ensures
        views(found@) == fields(text@, separator),
{
    let chars = chars_of(text);
    let mut found: Vec<&'a str> = Vec::new();
    let mut at: usize = 0;
    assert(chars@.skip(0) =~= text@);
    assert(views(found@) + fields(text@, separator) =~= fields(text@, separator));
    while at < chars.len()
        invariant
            chars@ == text@,
            at <= chars@.len(),
            views(found@) + fields(text@.skip(at as int), separator) == fields(text@, separator),
        decreases chars@.len() - at,
    {
        let ghost rest = text@.skip(at as int);
        assert(rest[0] == chars@[at as int]);
        if separator.separates(chars[at]) {
            assert(rest.drop_first() =~= text@.skip(at + 1));
            at = at + 1;
        } else {
            let n = run_from(&chars, at, separator);
            let field = text.substring_char(at, at + n);
            let ghost earlier = views(found@);
            found.push(field);
            proof {
                assert(field@ =~= before(rest, separator));
                assert(views(found@) =~= earlier.push(field@));
                assert(rest.skip(n as int) =~= text@.skip(at + n));
                assert(earlier + (seq![field@] + fields(text@.skip(at + n), separator))
                    =~= views(found@) + fields(text@.skip(at + n), separator));
            }
            at = at + n;
        }
    }
    proof {
        assert(text@.skip(at as int) =~= Seq::empty());
        assert(views(found@) + Seq::<Seq<char>>::empty() =~= views(found@));
    }
    found
}

/// Whether `part` stands in `chars` at `at`.
fn stands_at(chars: &Vec<char>, at: usize, part: &Vec<char>) -> (stands: bool)
    requires
        at <= chars@.len(),
    ensures
        stands == part@.is_prefix_of(chars@.skip(at as int)),
{
    let ghost rest = chars@.skip(at as int);
    let length = chars.len();
    if part.len() > length - at {
        return false;
    }
    let mut i: usize = 0;
    while i < part.len()
        invariant
            length == chars@.len(),
            at <= length,
            rest == chars@.skip(at as int),
            part@.len() <= length - at,
            i <= part@.len(),
            forall|j: int| 0 <= j < i ==> part@[j] == rest[j],
        decreases part@.len() - i,
    {
        if part[i] != chars[at + i] {
            assert(rest.take(part@.len() as int)[i as int] == chars@[at + i]);
            assert(!part@.is_prefix_of(rest));
            return false;
        }
        i = i + 1;
    }
    assert(part@ =~= rest.take(part@.len() as int));
    true
}

/// Where `part` first stands in `text`, in characters.
pub fn find_text(text: &str, part: &str) -> (found: Option<usize>)
    ensures
        match found {
            Some(at) => find(text@, part@) == Some(at as nat) && at + part@.len() <= text@.len(),
            None => find(text@, part@) is None,
        },
{
    let chars = chars_of(text);
    let wanted = chars_of(part);
    let mut at: usize = 0;
    assert(chars@.skip(0) =~= text@);
    loop
        invariant
            chars@ == text@,
            wanted@ == part@,
            at <= chars@.len(),
            find(text@, part@) == (match find(text@.skip(at as int), part@) {
                Some(later) => Some(at as nat + later),
                None => None::<nat>,
            }),
        decreases chars@.len() - at,
    {
        let ghost rest = text@.skip(at as int);
        if stands_at(&chars, at, &wanted) {
            return Some(at);
        }
        if at == chars.len() {
            return None;
        }
        assert(rest.drop_first() =~= text@.skip(at + 1));
        at = at + 1;
    }
}

/// Whether `a` and `b` are the same but for the case of ASCII letters.
pub fn same_word_text(a: &str, b: &str) -> (same: bool)
    ensures
        same == same_word(a@, b@),
{
    let left = chars_of(a);
    let right = chars_of(b);
    if left.len() != right.len() {
        return false;
    }
    let mut i: usize = 0;
    while i < left.len()
        invariant
            left@ == a@,
            right@ == b@,
            left@.len() == right@.len(),
            i <= left@.len(),
            forall|j: int| 0 <= j < i ==> ascii_lower(#[trigger] a@[j]) == ascii_lower(b@[j]),
        decreases left@.len() - i,
    {
        if lower_char(left[i]) != lower_char(right[i]) {
            assert(ascii_lower(a@[i as int]) != ascii_lower(b@[i as int]));
            return false;
        }
        i = i + 1;
    }
    true
}

fn lower_char(c: char) -> (lower: char)
    ensures
        lower == ascii_lower(c),
{
    if 'A' <= c && c <= 'Z' {
        (c as u8 + 32) as char
    } else {
        c
    }
}

/// Whether `a` and `b` are the same text.
pub fn same_text(a: &str, b: &str) -> (same: bool)
    ensures
        same == (a@ == b@),
{
    let left = chars_of(a);
    let right = chars_of(b);
    let same = left.len() == right.len() && stands_at(&left, 0, &right);
    proof {
        assert(left@.skip(0) =~= left@);
        assert(left@.take(left@.len() as int) =~= left@);
        if same {
            assert(right@ =~= left@);
        }
    }
    same
}

/// The text that [`String::from_utf8_lossy`] makes of bytes that are not
/// UTF-8: what stands there once the parts that are none have been replaced.
pub uninterp spec fn replaced_text(bytes: Seq<u8>) -> Seq<char>;

/// The text that `bytes` are: their characters where they are UTF-8, and
/// what is left of them once the parts that are not have been replaced.
pub open spec fn lossy_text(bytes: Seq<u8>) -> Seq<char> {
    if valid_utf8(bytes) {
        decode_utf8(bytes)
    } else {
        replaced_text(bytes)
    }
}

/// Calls [`String::from_utf8_lossy`]. Bytes that are UTF-8 come back as the
/// characters they encode; of other bytes the result is only named.
#[verifier::external_body]
fn utf8_lossily(bytes: &[u8]) -> (text: String)
    ensures
        valid_utf8(bytes@) ==> text@ == decode_utf8(bytes@),
        !valid_utf8(bytes@) ==> text@ == replaced_text(bytes@),
{
    String::from_utf8_lossy(bytes).into_owned()
}

/// The text that `bytes` are, read as UTF-8, lossily.
pub fn text_of(bytes: &[u8]) -> (text: String)
    ensures
        text@ == lossy_text(bytes@),
{
    utf8_lossily(bytes)
}

/// Text written as UTF-8 is what its bytes read back as.
pub proof fn law_text_reads_back(text: Seq<char>)
    ensures
        lossy_text(encode_utf8(text)) == text,
{
    encode_utf8_valid_utf8(text);
    encode_utf8_decode_utf8(text);
}

/// `part` is found where it first stands.
pub proof fn lemma_find_is(text: Seq<char>, part: Seq<char>, at: nat)
    requires
        at <= text.len(),
        part.is_prefix_of(text.skip(at as int)),
        forall|i: int| 0 <= i < at ==> !part.is_prefix_of(#[trigger] text.skip(i)),
    ensures
        find(text, part) == Some(at),
    decreases at,
{
    assert(text.skip(0) =~= text);
    if at > 0 {
        let rest = text.drop_first();
        assert(!part.is_prefix_of(text.skip(0)));
        assert(rest.skip(at - 1) =~= text.skip(at as int));
        assert forall|i: int| 0 <= i < at - 1 implies !part.is_prefix_of(
            #[trigger] rest.skip(i),
        ) by {
            assert(rest.skip(i) =~= text.skip(i + 1));
        }
        lemma_find_is(rest, part, (at - 1) as nat);
    }
}

/// `text` as its `Debug` writes it: in double quotes, with escapes.
pub uninterp spec fn quoted(text: Seq<char>) -> Seq<char>;

/// Formats `text` with its `Debug`; the result is only named.
#[verifier::external_body]
pub(crate) fn quoted_text(text: &str) -> (shown: String)
    ensures
        shown@ == quoted(text@),
{
    format!("{text:?}")
}

/// [`String::push`] appends one character.
pub assume_specification[ String::push ](s: &mut String, ch: char)
    ensures
        final(s)@ == old(s)@.push(ch),
;

// What the words above come to, character by character.

/// The white space there is, written out.
pub open spec fn blank(c: char) -> bool {
    ||| c == ' '
    ||| c == '\t'
    ||| c == '\n'
    ||| c == '\u{b}'
    ||| c == '\u{c}'
    ||| c == '\r'
    ||| c == '\u{85}'
    ||| c == '\u{a0}'
    ||| c == '\u{1680}'
    ||| '\u{2000}' <= c <= '\u{200a}'
    ||| c == '\u{2028}'
    ||| c == '\u{2029}'
    ||| c == '\u{202f}'
    ||| c == '\u{205f}'
    ||| c == '\u{3000}'
}

/// Whether `c` is `lower` or, where `lower` is a letter from a to z, its
/// capital.
pub open spec fn either_case(c: char, lower: char) -> bool {
    c == lower || ('a' <= lower <= 'z' && c as int + 32 == lower as int)
}

/// What parts two fields: white space is all the white space there is and
/// nothing else, and a character is itself alone.
pub proof fn law_separators(a: char, b: char, c: char)
    ensures
        Separator::White.parts(c) <==> blank(c),
        Separator::One(a).parts(c) <==> c == a,
        Separator::Either(a, b).parts(c) <==> c == a || c == b,
{
}

/// Whether `a` and `b` are one letter, in whatever case.
pub open spec fn one_letter(a: char, b: char) -> bool {
    ||| a == b
    ||| 'A' <= a <= 'Z' && a as int + 32 == b as int
    ||| 'A' <= b <= 'Z' && b as int + 32 == a as int
}

/// Two words are the same where they are as long and letter by letter the
/// same, in whatever case, and only there.
pub proof fn law_same_word(a: Seq<char>, b: Seq<char>)
    ensures
        same_word(a, b) <==> a.len() == b.len() && forall|i: int|
            0 <= i < a.len() ==> #[trigger] one_letter(a[i], b[i]),
{
    assert forall|i: int| 0 <= i < a.len() && i < b.len() implies (ascii_lower(#[trigger] a[i])
        == ascii_lower(b[i]) <==> one_letter(a[i], b[i])) by {
        if 'A' <= a[i] <= 'Z' {
            assert(ascii_lower(a[i]) as int == a[i] as int + 32);
        }
        if 'A' <= b[i] <= 'Z' {
            assert(ascii_lower(b[i]) as int == b[i] as int + 32);
        }
    }
    if same_word(a, b) {
        assert forall|i: int| 0 <= i < a.len() implies #[trigger] one_letter(a[i], b[i]) by {
            assert(ascii_lower(a[i]) == ascii_lower(b[i]));
        }
    }
    if a.len() == b.len() && forall|i: int|
        0 <= i < a.len() ==> #[trigger] one_letter(a[i], b[i]) {
        assert forall|i: int| 0 <= i < a.len() implies ascii_lower(#[trigger] a[i])
            == ascii_lower(b[i]) by {
            assert(one_letter(a[i], b[i]));
        }
    }
}

/// Fields are what separators leave between them: nothing has none, a
/// separator in front adds none, and text without a separator is one as far
/// as a separator or the end.
pub proof fn law_fields(field: Seq<char>, rest: Seq<char>, c: char, separator: Separator)
    ensures
        fields(Seq::empty(), separator) == Seq::<Seq<char>>::empty(),
        separator.parts(c) ==> fields(seq![c] + rest, separator) == fields(rest, separator),
        field.len() > 0 && (forall|i: int|
            0 <= i < field.len() ==> !separator.parts(#[trigger] field[i])) && (rest.len() == 0
            || separator.parts(rest[0])) ==> fields(field + rest, separator) == seq![field]
            + fields(rest, separator),
{
    assert((seq![c] + rest).drop_first() =~= rest);
    if field.len() > 0 && (forall|i: int|
        0 <= i < field.len() ==> !separator.parts(#[trigger] field[i])) && (rest.len() == 0
        || separator.parts(rest[0])) {
        lemma_first_field(field, rest, separator);
    }
}

proof fn lemma_run_stops(text: Seq<char>, separator: Separator)
    ensures
        run(text, separator) <= text.len(),
        forall|i: int| 0 <= i < run(text, separator) ==> !separator.parts(#[trigger] text[i]),
        run(text, separator) < text.len() ==> separator.parts(
            text[run(text, separator) as int],
        ),
    decreases text.len(),
{
    if text.len() > 0 && !separator.parts(text[0]) {
        let rest = text.drop_first();
        lemma_run_stops(rest, separator);
        assert forall|i: int| 0 <= i < run(text, separator) implies !separator.parts(
            #[trigger] text[i],
        ) by {
            if i > 0 {
                assert(text[i] == rest[i - 1]);
            }
        }
        if run(text, separator) < text.len() {
            assert(text[run(text, separator) as int] == rest[run(rest, separator) as int]);
        }
    }
}

/// What stands before the first separator begins the text, holds none, and
/// ends at one or where the text does.
pub proof fn law_before(text: Seq<char>, separator: Separator)
    ensures
        before(text, separator).is_prefix_of(text),
        forall|i: int|
            0 <= i < before(text, separator).len() ==> !separator.parts(#[trigger] text[i]),
        before(text, separator).len() < text.len() ==> separator.parts(
            text[before(text, separator).len() as int],
        ),
{
    lemma_run_stops(text, separator);
    assert(before(text, separator) =~= text.subrange(
        0,
        before(text, separator).len() as int,
    ));
}

/// Text is split at the first `c`: what stands in front holds none, and both
/// halves with `c` between them are the text. It is not split where it holds
/// none.
pub proof fn law_split_once(text: Seq<char>, c: char)
    ensures
        match split_once(text, c) {
            Some((front, back)) => {
                &&& !front.contains(c)
                &&& front + seq![c] + back == text
            },
            None => !text.contains(c),
        },
{
    lemma_run_stops(text, Separator::One(c));
    let at = run(text, Separator::One(c));
    assert forall|i: int| 0 <= i < at implies text[i] != c by {
        assert(!Separator::One(c).parts(text[i]));
    }
    if at < text.len() {
        assert(text.take(at as int) + seq![c] + text.skip((at + 1) as int) =~= text);
    }
}

/// A part is found where it first stands, and nowhere where it never does.
pub proof fn law_find(text: Seq<char>, part: Seq<char>)
    ensures
        match find(text, part) {
            Some(at) => {
                &&& at + part.len() <= text.len()
                &&& text.subrange(at as int, (at + part.len()) as int) == part
                &&& forall|i: int|
                    0 <= i < at ==> !part.is_prefix_of(#[trigger] text.skip(i))
            },
            None => forall|i: int|
                0 <= i <= text.len() ==> !part.is_prefix_of(#[trigger] text.skip(i)),
        },
    decreases text.len(),
{
    assert(text.skip(0) =~= text);
    if part.is_prefix_of(text) {
        assert(text.subrange(0, part.len() as int) =~= part);
    } else if text.len() > 0 {
        let rest = text.drop_first();
        law_find(rest, part);
        assert forall|i: int| 0 < i <= text.len() implies #[trigger] text.skip(i)
            == rest.skip(i - 1) by {
            assert(text.skip(i) =~= rest.skip(i - 1));
        }
        if let Some(at) = find(rest, part) {
            assert(text.subrange((at + 1) as int, (at + 1 + part.len()) as int)
                =~= rest.subrange(at as int, (at + part.len()) as int));
            assert forall|i: int| 0 <= i < at + 1 implies !part.is_prefix_of(
                #[trigger] text.skip(i),
            ) by {
                if i > 0 {
                    assert(text.skip(i) == rest.skip(i - 1));
                }
            }
        } else {
            assert forall|i: int| 0 <= i <= text.len() implies !part.is_prefix_of(
                #[trigger] text.skip(i),
            ) by {
                if i > 0 {
                    assert(text.skip(i) == rest.skip(i - 1));
                }
            }
        }
    } else {
        assert forall|i: int| 0 <= i <= text.len() implies !part.is_prefix_of(
            #[trigger] text.skip(i),
        ) by {
            assert(text.skip(i) =~= text);
        }
    }
}

/// The number that decimal digits write.
pub open spec fn written(digits: Seq<char>) -> int
    decreases digits.len(),
{
    if digits.len() == 0 {
        0
    } else {
        written(digits.drop_last()) * 10 + (digits.last() as int - 48)
    }
}

/// A number in decimal is digits alone, without a zero in front, and they
/// write that number.
pub proof fn law_decimal(n: nat)
    ensures
        decimal(n).len() > 0,
        forall|i: int| 0 <= i < decimal(n).len() ==> '0' <= #[trigger] decimal(n)[i] <= '9',
        n > 0 ==> decimal(n)[0] != '0',
        n == 0 ==> decimal(n) == seq!['0'],
        written(decimal(n)) == n,
    decreases n,
{
    let all = decimal(n);
    assert(digit(n % 10) as int == 48 + n % 10);
    if n < 10 {
        assert(all.drop_last() =~= Seq::empty());
        assert(written(all.drop_last()) == 0);
    } else {
        law_decimal(n / 10);
        let front = decimal(n / 10);
        assert(all.drop_last() =~= front);
        assert(all.last() == digit(n % 10));
        assert forall|i: int| 0 <= i < all.len() implies '0' <= #[trigger] all[i] <= '9' by {
            if i < front.len() {
                assert(all[i] == front[i]);
            }
        }
        assert(all[0] == front[0]);
    }
}

/// A number padded to five digits has at least five, is padded with zeros in
/// front alone, and has its own digits behind them.
pub proof fn law_padded_decimal(n: nat)
    ensures
        padded_decimal(n, 5).len() == if decimal(n).len() < 5 {
            5
        } else {
            decimal(n).len()
        },
        padded_decimal(n, 5).skip(padded_decimal(n, 5).len() - decimal(n).len()) == decimal(n),
        forall|i: int|
            0 <= i < padded_decimal(n, 5).len() - decimal(n).len() ==> #[trigger] padded_decimal(
                n,
                5,
            )[i] == '0',
{
    assert(padded_decimal(n, 5).skip(padded_decimal(n, 5).len() - decimal(n).len()) =~= decimal(
        n,
    ));
}

/// The number a hexadecimal digit in lower case writes.
pub open spec fn hex_written(c: char) -> int {
    if '0' <= c <= '9' {
        c as int - 48
    } else if 'a' <= c <= 'f' {
        c as int - 87
    } else {
        -1
    }
}

/// A byte in hexadecimal is `0x` and two digits that write it.
pub proof fn law_hex_byte(n: u8)
    ensures
        hex_byte(n).len() == 4,
        hex_byte(n)[0] == '0',
        hex_byte(n)[1] == 'x',
        0 <= hex_written(hex_byte(n)[2]),
        0 <= hex_written(hex_byte(n)[3]),
        hex_written(hex_byte(n)[2]) * 16 + hex_written(hex_byte(n)[3]) == n,
{
    assert(hex_digit(n as nat / 16) as int == if n / 16 < 10 {
        48 + n / 16
    } else {
        87 + n / 16
    });
    assert(hex_digit(n as nat % 16) as int == if n % 16 < 10 {
        48 + n % 16
    } else {
        87 + n % 16
    });
}

/// Bytes that are text read as the text that they are written for, and no
/// byte of them is lost; of other bytes the reading is std's.
pub proof fn law_bytes_read_as_text(bytes: Seq<u8>)
    ensures
        valid_utf8(bytes) ==> encode_utf8(lossy_text(bytes)) == bytes,
        !valid_utf8(bytes) ==> lossy_text(bytes) == replaced_text(bytes),
{
    if valid_utf8(bytes) {
        decode_utf8_encode_utf8(bytes);
    }
}

/// The fields of text that is parted where `front` ends are those of `front`
/// and then those of what follows.
pub proof fn law_fields_join(front: Seq<char>, rest: Seq<char>, separator: Separator)
    requires
        front.len() == 0 || separator.parts(front.last()),
    ensures
        fields(front + rest, separator) == fields(front, separator) + fields(rest, separator),
    decreases front.len(),
{
    let text = front + rest;
    if front.len() == 0 {
        assert(text =~= rest);
        assert(fields(front, separator) + fields(rest, separator) =~= fields(rest, separator));
    } else if separator.parts(front[0]) {
        let later = front.drop_first();
        if later.len() > 0 {
            assert(later.last() == front.last());
        }
        law_fields_join(later, rest, separator);
        assert(text[0] == front[0]);
        assert(text.drop_first() =~= later + rest);
    } else {
        lemma_run_stops(front, separator);
        let n = run(front, separator);
        let later = front.skip(n as int);
        if n == front.len() {
            assert(!separator.parts(front[n - 1]));
        }
        assert(later.last() == front.last());
        law_fields_join(later, rest, separator);
        let field = front.take(n as int);
        assert(text =~= field + (later + rest));
        assert forall|i: int| 0 <= i < field.len() implies !separator.parts(
            #[trigger] field[i],
        ) by {
            assert(field[i] == front[i]);
        }
        assert((later + rest)[0] == front[n as int]);
        lemma_first_field(field, later + rest, separator);
        assert(fields(front, separator) + fields(rest, separator) =~= seq![field] + (fields(
            later,
            separator,
        ) + fields(rest, separator)));
    }
}

/// Text that is all separators has no fields.
pub proof fn law_no_fields(text: Seq<char>, separator: Separator)
    requires
        forall|i: int| 0 <= i < text.len() ==> separator.parts(#[trigger] text[i]),
    ensures
        fields(text, separator).len() == 0,
    decreases text.len(),
{
    if text.len() > 0 {
        let rest = text.drop_first();
        assert forall|i: int| 0 <= i < rest.len() implies separator.parts(#[trigger] rest[i]) by {
            assert(rest[i] == text[i + 1]);
        }
        law_no_fields(rest, separator);
    }
}

/// Whether `word` stands in `text` at `at`, in whatever case, with white
/// space or an end of the text on either side.
pub open spec fn word_at(text: Seq<char>, at: int, word: Seq<char>) -> bool {
    &&& 0 <= at
    &&& at + word.len() <= text.len()
    &&& at == 0 || blank(text[at - 1])
    &&& at + word.len() == text.len() || blank(text[at + word.len()])
    &&& forall|i: int| 0 <= i < word.len() ==> #[trigger] one_letter(text[at + i], word[i])
}

/// A word that is among the fields of a text stands somewhere in it.
pub proof fn lemma_word_stands(text: Seq<char>, word: Seq<char>, k: int) -> (at: int)
    requires
        0 <= k < fields(text, Separator::White).len(),
        same_word(fields(text, Separator::White)[k], word),
    ensures
        word_at(text, at, word),
    decreases text.len(),
{
    let white = Separator::White;
    if white.parts(text[0]) {
        let rest = text.drop_first();
        let at = lemma_word_stands(rest, word, k) + 1;
        assert forall|i: int| 0 <= i < word.len() implies #[trigger] one_letter(
            text[at + i],
            word[i],
        ) by {
            assert(rest[at - 1 + i] == text[at + i]);
            assert(one_letter(rest[at - 1 + i], word[i]));
        }
        law_separators(' ', ' ', text[0]);
        if at > 1 {
            assert(rest[at - 2] == text[at - 1]);
        }
        if at + word.len() < text.len() {
            assert(rest[at - 1 + word.len()] == text[at + word.len()]);
        }
        at
    } else {
        lemma_run_stops(text, white);
        let n = run(text, white);
        if k == 0 {
            let field = before(text, white);
            law_same_word(field, word);
            assert forall|i: int| 0 <= i < word.len() implies #[trigger] one_letter(
                text[0 + i],
                word[i],
            ) by {
                assert(one_letter(field[i], word[i]));
            }
            if n < text.len() {
                law_separators(' ', ' ', text[n as int]);
            }
            0
        } else {
            let parted = text.skip(n as int);
            assert(fields(text, white)[k] == fields(parted, white)[k - 1]);
            assert(parted[0] == text[n as int]);
            let later = text.skip((n + 1) as int);
            assert(parted.drop_first() =~= later);
            let at = lemma_word_stands(later, word, k - 1) + n + 1;
            law_separators(' ', ' ', text[n as int]);
            assert forall|i: int| 0 <= i < word.len() implies #[trigger] one_letter(
                text[at + i],
                word[i],
            ) by {
                assert(later[at - n - 1 + i] == text[at + i]);
                assert(one_letter(later[at - n - 1 + i], word[i]));
            }
            if at > n + 1 {
                assert(later[at - n - 2] == text[at - 1]);
            }
            if at + word.len() < text.len() {
                assert(later[at - n - 1 + word.len()] == text[at + word.len()]);
            }
            at
        }
    }
}

} // verus!
