//! Fixed-width bitmaps and the two text codecs of the record format: radix-32
//! numbers and the one-symbol-per-byte encoding of bitmaps.

use vstd::prelude::*;
use vstd::string::*;

verus! {

/// `String::push` appends one character to the string and leaves the rest as it was.
pub assume_specification[ String::push ](s: &mut String, c: char)
    ensures
        final(s)@ == old(s)@.push(c),
;

/// The characters of `s`, in order.
pub fn chars_of(s: &str) -> (v: Vec<char>)
    ensures
        v@ == s@,
{
    let mut v: Vec<char> = Vec::new();
    for c in it: s.chars()
        invariant
            it.seq() == s@,
            v@ == s@.take(it.index() as int),
    {
        proof {
            assert(s@.take(it.index() as int).push(c) =~= s@.take(it.index() + 1));
        }
        v.push(c);
    }
    proof {
        assert(s@.take(s@.len() as int) =~= s@);
    }
    v
}

/// The string made of the characters `chars`, in order.
pub fn string_of(chars: &Vec<char>) -> (s: String)
    ensures
        s@ == chars@,
{
    let mut s = String::new();
    let mut i: usize = 0;
    while i < chars.len()
        invariant
            i <= chars.len(),
            s@ == chars@.take(i as int),
        decreases chars.len() - i,
    {
        proof {
            assert(chars@.take(i as int).push(chars@[i as int]) =~= chars@.take(i + 1));
        }
        s.push(chars[i]);
        i += 1;
    }
    proof {
        assert(chars@.take(chars@.len() as int) =~= chars@);
    }
    s
}

/// `i` is one of the `n` integers from `lo` on. Unfolded, this is a
/// disjunction over those integers, which lets a proof go through them one by one.
spec fn among(i: int, lo: int, n: nat) -> bool
    decreases n,
{
    n > 0 && (i == lo + n - 1 || among(i, lo, (n - 1) as nat))
}

proof fn lemma_among(i: int, lo: int, n: nat)
    requires
        lo <= i < lo + n,
    ensures
        among(i, lo, n),
    decreases n,
{
    if i != lo + n - 1 {
        lemma_among(i, lo, (n - 1) as nat);
    }
}

/// The place of the first `c` in `s`, or the length of `s` where it holds none.
pub open spec fn first_index(s: Seq<char>, c: char) -> int {
    match s.index_of_first(c) {
        Some(i) => i,
        None => s.len() as int,
    }
}

/// What tells the place of the first `c` in `s`: nothing before it is `c`,
/// and it holds `c` unless it is the end.
pub proof fn lemma_first_index(s: Seq<char>, c: char, r: int)
    requires
        0 <= r <= s.len(),
        forall|j: int| 0 <= j < r ==> s[j] != c,
        r < s.len() ==> s[r] == c,
    ensures
        first_index(s, c) == r,
{
    s.index_of_first_ensures(c);
    if s.contains(c) {
        let k = s.index_of_first(c)->0;
        assert(s[k] == c);
    }
}

/// The place of the first `c` in `text` at or after `from`, or the length of `text`.
pub fn find_char(text: &[char], from: usize, c: char) -> (r: usize)
    requires
        from <= text@.len(),
    ensures
        from <= r <= text@.len(),
        r == from + first_index(text@.skip(from as int), c),
{
    let mut i: usize = from;
    while i < text.len()
        invariant
            from <= i <= text@.len(),
            forall|j: int| from <= j < i ==> text@[j] != c,
        decreases text.len() - i,
    {
        if text[i] == c {
            proof {
                lemma_first_index(text@.skip(from as int), c, i - from);
            }
            return i;
        }
        i += 1;
    }
    proof {
        lemma_first_index(text@.skip(from as int), c, i - from);
    }
    i
}

// ---------------------------------------------------------------- radix 32

/// The digits of radix 32, by value.
pub const BASE_32_ALPHABET: &'static str = "0123456789abcdefghijklmnopqrstuv";

/// The digit that stands for `d`, for `d` below 32.
pub open spec fn base32_digit(d: int) -> char {
    BASE_32_ALPHABET@[d]
}

/// The value of digit `c`, or 32 where `c` is no digit.
pub open spec fn base32_digit_value(c: char) -> int {
    if '0' <= c <= '9' {
        c as int - '0' as int
    } else if 'a' <= c <= 'v' {
        c as int - 'a' as int + 10
    } else {
        32
    }
}

/// Every character of `s` is a digit of radix 32.
pub open spec fn is_base32(s: Seq<char>) -> bool {
    forall|i: int| 0 <= i < s.len() ==> base32_digit_value(#[trigger] s[i]) < 32
}

/// The number that the digits `s` denote, most significant first; the empty
/// string denotes zero.
pub open spec fn base32_value(s: Seq<char>) -> nat
    decreases s.len(),
{
    if s.len() == 0 {
        0
    } else {
        (32 * base32_value(s.drop_last()) + base32_digit_value(s.last())) as nat
    }
}

/// The digits of `v`, most significant first, without leading zeros; zero is `"0"`.
pub open spec fn base32_text(v: nat) -> Seq<char>
    decreases v,
{
    if v < 32 {
        seq![base32_digit(v as int)]
    } else {
        base32_text(v / 32).push(base32_digit((v % 32) as int))
    }
}

/// The alphabet has 32 digits, and digit `d` has value `d`.
pub proof fn lemma_base32_digit(d: int)
    requires
        0 <= d < 32,
    ensures
        BASE_32_ALPHABET@.len() == 32,
        base32_digit_value(base32_digit(d)) == d,
{
    reveal_strlit("0123456789abcdefghijklmnopqrstuv");
    lemma_among(d, 0, 32);
    reveal_with_fuel(among, 33);
}

/// The text of a number holds digits only, and at least one.
pub proof fn lemma_base32_text_is_base32(v: nat)
    ensures
        is_base32(base32_text(v)),
        base32_text(v).len() >= 1,
    decreases v,
{
    if v < 32 {
        lemma_base32_digit(v as int);
    } else {
        lemma_base32_text_is_base32(v / 32);
        lemma_base32_digit((v % 32) as int);
    }
}

/// Reading the text of a number gives the number back.
pub proof fn lemma_base32_round_trip(v: nat)
    ensures
        is_base32(base32_text(v)),
        base32_value(base32_text(v)) == v,
    decreases v,
{
    lemma_base32_text_is_base32(v);
    if v < 32 {
        lemma_base32_digit(v as int);
        let s = base32_text(v);
        assert(s.drop_last().len() == 0);
        assert(base32_value(s.drop_last()) == 0);
    } else {
        lemma_base32_round_trip(v / 32);
        lemma_base32_digit((v % 32) as int);
        let s = base32_text(v);
        assert(s.drop_last() =~= base32_text(v / 32));
    }
}

/// A number's text has no leading zero, unless the number is zero.
pub proof fn lemma_base32_text_canonical(v: nat)
    ensures
        v == 0 ==> base32_text(v) == seq!['0'],
        v > 0 ==> base32_text(v)[0] != '0',
    decreases v,
{
    reveal_strlit("0123456789abcdefghijklmnopqrstuv");
    if v < 32 {
        lemma_base32_digit(v as int);
    } else {
        lemma_base32_text_canonical(v / 32);
        lemma_base32_text_is_base32(v / 32);
    }
}

/// The value of a digit string is no smaller than the value of any of its prefixes.
pub proof fn lemma_base32_value_prefix(s: Seq<char>, n: int)
    requires
        0 <= n <= s.len(),
    ensures
        base32_value(s.take(n)) <= base32_value(s),
    decreases s.len() - n,
{
    if n == s.len() {
        assert(s.take(n) =~= s);
    } else {
        lemma_base32_value_prefix(s, n + 1);
        let t = s.take(n + 1);
        assert(t.drop_last() =~= s.take(n));
    }
}

/// The digit that stands for `d`.
fn base32_digit_of(d: u64) -> (c: char)
    requires
        d < 32,
    ensures
        c == base32_digit(d as int),
{
    proof {
        reveal_strlit("0123456789abcdefghijklmnopqrstuv");
    }
    BASE_32_ALPHABET.get_char(d as usize)
}

/// The value of digit `c`: `Some(d)` exactly when `c` is the digit for `d`.
fn base32_value_of(c: char) -> (r: Option<u64>)
    ensures
        r == if base32_digit_value(c) < 32 {
            Some(base32_digit_value(c) as u64)
        } else {
            None
        },
{
    if '0' <= c && c <= '9' {
        Some((c as u64) - ('0' as u64))
    } else if 'a' <= c && c <= 'v' {
        Some((c as u64) - ('a' as u64) + 10)
    } else {
        None
    }
}

/// The radix-32 digits of `value`, most significant first.
pub fn base32_chars(value: u64) -> (result: Vec<char>)
    ensures
        result@ == base32_text(value as nat),
{
    // The digits, least significant first.
    let mut digits: Vec<char> = Vec::new();
    let mut rest: u64 = value;
    digits.push(base32_digit_of(rest % 32));
    rest = rest / 32;
    while rest > 0
        invariant
            digits@.len() >= 1,
            rest > 0 ==> base32_text(rest as nat) + digits@.reverse() == base32_text(value as nat),
            rest == 0 ==> digits@.reverse() == base32_text(value as nat),
        decreases rest,
    {
        let ghost before = digits@;
        digits.push(base32_digit_of(rest % 32));
        proof {
            let d = base32_digit((rest % 32) as int);
            assert(digits@.reverse() =~= seq![d] + before.reverse());
            if rest < 32 {
                assert(base32_text(rest as nat) =~= seq![d]);
            } else {
                assert(base32_text(rest as nat) =~= base32_text((rest / 32) as nat).push(d));
                assert(base32_text((rest / 32) as nat) + digits@.reverse() =~= base32_text(rest as nat)
                    + before.reverse());
            }
        }
        rest = rest / 32;
    }
    let mut result: Vec<char> = Vec::new();
    let mut i: usize = digits.len();
    while i > 0
        invariant
            i <= digits.len(),
            result@ == digits@.reverse().take(digits.len() - i),
        decreases i,
    {
        i -= 1;
        proof {
            let r = digits@.reverse();
            assert(r.take(digits.len() - i - 1).push(digits@[i as int]) =~= r.take(digits.len() - i));
        }
        result.push(digits[i]);
    }
    proof {
        assert(digits@.reverse().take(digits.len() as int) =~= digits@.reverse());
    }
    result
}

/// Converts an unsigned integer to its radix-32 text.
pub fn to_base32(value: u64) -> (result: String)
    ensures
        result@ == base32_text(value as nat),
{
    let digits = base32_chars(value);
    string_of(&digits)
}

/// Reads radix-32 digits: the number they denote, where every character is a
/// digit and the number fits in 64 bits; `None` otherwise.
pub fn parse_base32(digits: &[char]) -> (r: Option<u64>)
    ensures
        r == if is_base32(digits@) && base32_value(digits@) <= u64::MAX {
            Some(base32_value(digits@) as u64)
        } else {
            None
        },
{
    let mut acc: u64 = 0;
    let mut i: usize = 0;
    while i < digits.len()
        invariant
            i <= digits.len(),
            is_base32(digits@.take(i as int)),
            acc == base32_value(digits@.take(i as int)),
        decreases digits.len() - i,
    {
        let ghost prefix = digits@.take(i as int);
        let ghost next = digits@.take(i + 1);
        proof {
            assert(next.drop_last() =~= prefix);
            assert(next.last() == digits@[i as int]);
            lemma_base32_value_prefix(digits@, i + 1);
        }
        match base32_value_of(digits[i]) {
            None => {
                proof {
                    assert(!is_base32(digits@));
                }
                return None;
            },
            Some(d) => {
                if acc > (u64::MAX - d) / 32 {
                    proof {
                        assert(base32_value(next) > u64::MAX);
                    }
                    return None;
                }
                acc = acc * 32 + d;
                proof {
                    assert forall|j: int| 0 <= j < next.len() implies base32_digit_value(#[trigger] next[j])
                        < 32 by {
                        if j < i {
                            assert(next[j] == prefix[j]);
                        }
                    }
                }
            },
        }
        i += 1;
    }
    proof {
        assert(digits@.take(digits@.len() as int) =~= digits@);
    }
    Some(acc)
}

/// Converts radix-32 text to the unsigned integer it denotes.
pub fn from_base32(value: &str) -> (result: u64)
    requires
        is_base32(value@),
        base32_value(value@) <= u64::MAX,
    ensures
        result == base32_value(value@),
{
    let digits = chars_of(value);
    match parse_base32(digits.as_slice()) {
        Some(v) => v,
        None => 0,
    }
}

/// What the text `text` denotes as a 64-bit number: `Some` where every
/// character is a digit and the number fits.
pub open spec fn base32_read_u64(text: Seq<char>) -> Option<u64> {
    if is_base32(text) && base32_value(text) <= u64::MAX {
        Some(base32_value(text) as u64)
    } else {
        None
    }
}

/// Numbers that have a radix-32 text.
pub trait ToBase32: Sized {
    /// The text of the number.
    spec fn base32_form(&self) -> Seq<char>;

    /// The number that `text` denotes, where it denotes one.
    spec fn base32_read(text: Seq<char>) -> Option<Self>;

    /// Reading the text of a number gives the number back.
    proof fn lemma_round_trip(&self)
        ensures
            Self::base32_read(self.base32_form()) == Some(*self),
    ;

    /// The text of the number.
    fn to_base32(&self) -> (text: String)
        ensures
            text@ == self.base32_form(),
    ;

    /// The number that `value` denotes.
    fn from_base32(value: &str) -> (r: Self)
        requires
            Self::base32_read(value@) is Some,
        ensures
            Self::base32_read(value@) == Some(r),
    ;
}

impl ToBase32 for u64 {
    open spec fn base32_form(&self) -> Seq<char> {
        base32_text(*self as nat)
    }

    open spec fn base32_read(text: Seq<char>) -> Option<u64> {
        base32_read_u64(text)
    }

    proof fn lemma_round_trip(&self) {
        lemma_base32_round_trip(*self as nat);
    }

    fn to_base32(&self) -> (text: String) {
        self::to_base32(*self)
    }

    fn from_base32(value: &str) -> (r: u64) {
        self::from_base32(value)
    }
}

/// The high half of a 128-bit number.
pub open spec fn high_half(v: u128) -> u64 {
    (v / 0x1_0000_0000_0000_0000) as u64
}

/// The low half of a 128-bit number.
pub open spec fn low_half(v: u128) -> u64 {
    (v % 0x1_0000_0000_0000_0000) as u64
}

/// The text before the first `sep` of `text`; all of `text` where it holds none.
pub open spec fn first_field(text: Seq<char>, sep: char) -> Seq<char> {
    text.take(first_index(text, sep))
}

/// The text after the first `sep` of `text`; empty where `text` holds none.
pub open spec fn after_first(text: Seq<char>, sep: char) -> Seq<char> {
    if first_index(text, sep) < text.len() {
        text.skip(first_index(text, sep) + 1)
    } else {
        Seq::empty()
    }
}

/// Digits hold no `sep` where `sep` is no digit, so a field made of digits ends at the `sep` that follows it.
pub proof fn lemma_first_field(head: Seq<char>, sep: char, tail: Seq<char>)
    requires
        forall|i: int| 0 <= i < head.len() ==> head[i] != sep,
    ensures
        first_index(head.push(sep) + tail, sep) == head.len(),
        first_field(head.push(sep) + tail, sep) == head,
        after_first(head.push(sep) + tail, sep) == tail,
{
    let text = head.push(sep) + tail;
    lemma_first_index(text, sep, head.len() as int);
    assert(text.take(head.len() as int) =~= head);
    assert(text.skip(head.len() as int + 1) =~= tail);
}

/// A field with no `sep` in it that ends the text is the text's first field.
pub proof fn lemma_last_field(head: Seq<char>, sep: char)
    requires
        forall|i: int| 0 <= i < head.len() ==> head[i] != sep,
    ensures
        first_index(head, sep) == head.len(),
        first_field(head, sep) == head,
{
    lemma_first_index(head, sep, head.len() as int);
    assert(head.take(head.len() as int) =~= head);
}

impl ToBase32 for u128 {
    /// The texts of the high and of the low half, with a `.` between them.
    open spec fn base32_form(&self) -> Seq<char> {
        base32_text(high_half(*self) as nat).push('.') + base32_text(low_half(*self) as nat)
    }

    /// The first two fields that `.` separates are read as the high and the
    /// low half; anything after a second `.` is passed over.
    open spec fn base32_read(text: Seq<char>) -> Option<u128> {
        let high = base32_read_u64(first_field(text, '.'));
        let low = base32_read_u64(first_field(after_first(text, '.'), '.'));
        if first_index(text, '.') < text.len() && high is Some && low is Some {
            Some((high->0 * 0x1_0000_0000_0000_0000 + low->0) as u128)
        } else {
            None
        }
    }

    proof fn lemma_round_trip(&self) {
        let high = base32_text(high_half(*self) as nat);
        let low = base32_text(low_half(*self) as nat);
        lemma_base32_round_trip(high_half(*self) as nat);
        lemma_base32_round_trip(low_half(*self) as nat);
        assert forall|i: int| 0 <= i < high.len() implies high[i] != '.' by {
            assert(base32_digit_value(high[i]) < 32);
        }
        assert forall|i: int| 0 <= i < low.len() implies low[i] != '.' by {
            assert(base32_digit_value(low[i]) < 32);
        }
        lemma_first_field(high, '.', low);
        lemma_last_field(low, '.');
        let v = *self;
        assert((v / 0x1_0000_0000_0000_0000) * 0x1_0000_0000_0000_0000 + v % 0x1_0000_0000_0000_0000 == v);
        assert(v / 0x1_0000_0000_0000_0000 <= u64::MAX);
    }

    fn to_base32(&self) -> (text: String) {
        let v: u128 = *self;
        let high: u64 = (v >> 64) as u64;
        let low: u64 = (v & 0xFFFF_FFFF_FFFF_FFFF) as u64;
        assert(((v >> 64) as u64) == (v / 0x1_0000_0000_0000_0000) as u64) by (bit_vector);
        assert(((v & 0xFFFF_FFFF_FFFF_FFFF) as u64) == (v % 0x1_0000_0000_0000_0000) as u64) by (bit_vector);
        let mut chars = base32_chars(high);
        chars.push('.');
        let mut tail = base32_chars(low);
        chars.append(&mut tail);
        string_of(&chars)
    }

    fn from_base32(value: &str) -> (r: u128) {
        let text = chars_of(value);
        let dot: usize = find_char(text.as_slice(), 0, '.');
        proof {
            assert(text@.skip(0) =~= text@);
            assert(u128::base32_read(text@) is Some);
            assert(first_index(text@, '.') < text@.len());
            assert(dot < text.len());
        }
        let end: usize = find_char(text.as_slice(), dot + 1, '.');
        proof {
            assert(text@.subrange(0, dot as int) =~= first_field(text@, '.'));
            assert(text@.subrange(dot + 1, end as int) =~= first_field(after_first(text@, '.'), '.'));
        }
        let high = parse_base32(vstd::slice::slice_subrange(text.as_slice(), 0, dot));
        let low = parse_base32(vstd::slice::slice_subrange(text.as_slice(), dot + 1, end));
        match (high, low) {
            (Some(h), Some(l)) => {
                assert(((h as u128) << 64 | (l as u128)) == h * 0x1_0000_0000_0000_0000 + l) by (bit_vector);
                (h as u128) << 64 | (l as u128)
            },
            _ => 0,
        }
    }
}

// ------------------------------------------------- one symbol for each byte

/// The symbols that stand for the byte values 0 to 255, by value.
pub const BASE_255_ALPHABET: &'static str = "0123456789ABCDEFGHIJKLMNOPQRSTUVWXYZabcdefghijklmnopqrstuvwxyz!\"#$%&'()+,-./:;<=>?@[]^{}~‰£¤¥¦§«¬²³µÀÁÂÃÄÅÆÇÈÉÊËÌÍÎÏÐÑÒØßàáâãäåæçèéêëìþÿǷǾǿɅɆɄɃȽȾȺȸȹɎʘʗʖʕʔʓʒʑʊʇʆʁʂϠϡϢϭϱϺϻϿϾϼ◔◍◎◐◑◒◓◚◛◳◲◱◰◯◿◜◝◞◟◠◡◉◊▣▤▥▦▧▨▩▚▙▜▛▝▞▟▂▃▄▅▆▇█▉▊▋▌▍░▒▓①②③④⑤⑥⑦⑧⑨⑩⑪⑫⑬⑭⑮ⒶⒷⒸⒹⒺⒻⒼⒽⒾⒿ⑴⑵⑶⑷⑸⑹‹";

/// The symbol that stands for `byte`.
pub open spec fn base255_symbol(byte: u8) -> char {
    BASE_255_ALPHABET@[byte as int]
}

/// The byte that `c` stands for: its place in the alphabet, or 0 where `c`
/// is not in the alphabet.
pub open spec fn base255_value(c: char) -> u8 {
    match BASE_255_ALPHABET@.index_of_first(c) {
        Some(i) => i as u8,
        None => 0,
    }
}

/// The place of each symbol, written out; 256 for any other character.
/// It serves to show that no symbol occurs twice in the alphabet.
spec fn base255_place(c: char) -> int {
    match c {
        '0' => 0, '1' => 1, '2' => 2, '3' => 3, '4' => 4, '5' => 5, '6' => 6, '7' => 7,
        '8' => 8, '9' => 9, 'A' => 10, 'B' => 11, 'C' => 12, 'D' => 13, 'E' => 14, 'F' => 15,
        'G' => 16, 'H' => 17, 'I' => 18, 'J' => 19, 'K' => 20, 'L' => 21, 'M' => 22, 'N' => 23,
        'O' => 24, 'P' => 25, 'Q' => 26, 'R' => 27, 'S' => 28, 'T' => 29, 'U' => 30, 'V' => 31,
        'W' => 32, 'X' => 33, 'Y' => 34, 'Z' => 35, 'a' => 36, 'b' => 37, 'c' => 38, 'd' => 39,
        'e' => 40, 'f' => 41, 'g' => 42, 'h' => 43, 'i' => 44, 'j' => 45, 'k' => 46, 'l' => 47,
        'm' => 48, 'n' => 49, 'o' => 50, 'p' => 51, 'q' => 52, 'r' => 53, 's' => 54, 't' => 55,
        'u' => 56, 'v' => 57, 'w' => 58, 'x' => 59, 'y' => 60, 'z' => 61, '!' => 62, '"' => 63,
        '#' => 64, '$' => 65, '%' => 66, '&' => 67, '\'' => 68, '(' => 69, ')' => 70, '+' => 71,
        ',' => 72, '-' => 73, '.' => 74, '/' => 75, ':' => 76, ';' => 77, '<' => 78, '=' => 79,
        '>' => 80, '?' => 81, '@' => 82, '[' => 83, ']' => 84, '^' => 85, '{' => 86, '}' => 87,
        '~' => 88, '‰' => 89, '£' => 90, '¤' => 91, '¥' => 92, '¦' => 93, '§' => 94, '«' => 95,
        '¬' => 96, '²' => 97, '³' => 98, 'µ' => 99, 'À' => 100, 'Á' => 101, 'Â' => 102, 'Ã' => 103,
        'Ä' => 104, 'Å' => 105, 'Æ' => 106, 'Ç' => 107, 'È' => 108, 'É' => 109, 'Ê' => 110, 'Ë' => 111,
        'Ì' => 112, 'Í' => 113, 'Î' => 114, 'Ï' => 115, 'Ð' => 116, 'Ñ' => 117, 'Ò' => 118, 'Ø' => 119,
        'ß' => 120, 'à' => 121, 'á' => 122, 'â' => 123, 'ã' => 124, 'ä' => 125, 'å' => 126, 'æ' => 127,
        'ç' => 128, 'è' => 129, 'é' => 130, 'ê' => 131, 'ë' => 132, 'ì' => 133, 'þ' => 134, 'ÿ' => 135,
        'Ƿ' => 136, 'Ǿ' => 137, 'ǿ' => 138, 'Ʌ' => 139, 'Ɇ' => 140, 'Ʉ' => 141, 'Ƀ' => 142, 'Ƚ' => 143,
        'Ⱦ' => 144, 'Ⱥ' => 145, 'ȸ' => 146, 'ȹ' => 147, 'Ɏ' => 148, 'ʘ' => 149, 'ʗ' => 150, 'ʖ' => 151,
        'ʕ' => 152, 'ʔ' => 153, 'ʓ' => 154, 'ʒ' => 155, 'ʑ' => 156, 'ʊ' => 157, 'ʇ' => 158, 'ʆ' => 159,
        'ʁ' => 160, 'ʂ' => 161, 'Ϡ' => 162, 'ϡ' => 163, 'Ϣ' => 164, 'ϭ' => 165, 'ϱ' => 166, 'Ϻ' => 167,
        'ϻ' => 168, 'Ͽ' => 169, 'Ͼ' => 170, 'ϼ' => 171, '◔' => 172, '◍' => 173, '◎' => 174, '◐' => 175,
        '◑' => 176, '◒' => 177, '◓' => 178, '◚' => 179, '◛' => 180, '◳' => 181, '◲' => 182, '◱' => 183,
        '◰' => 184, '◯' => 185, '◿' => 186, '◜' => 187, '◝' => 188, '◞' => 189, '◟' => 190, '◠' => 191,
        '◡' => 192, '◉' => 193, '◊' => 194, '▣' => 195, '▤' => 196, '▥' => 197, '▦' => 198, '▧' => 199,
        '▨' => 200, '▩' => 201, '▚' => 202, '▙' => 203, '▜' => 204, '▛' => 205, '▝' => 206, '▞' => 207,
        '▟' => 208, '▂' => 209, '▃' => 210, '▄' => 211, '▅' => 212, '▆' => 213, '▇' => 214, '█' => 215,
        '▉' => 216, '▊' => 217, '▋' => 218, '▌' => 219, '▍' => 220, '░' => 221, '▒' => 222, '▓' => 223,
        '①' => 224, '②' => 225, '③' => 226, '④' => 227, '⑤' => 228, '⑥' => 229, '⑦' => 230, '⑧' => 231,
        '⑨' => 232, '⑩' => 233, '⑪' => 234, '⑫' => 235, '⑬' => 236, '⑭' => 237, '⑮' => 238, 'Ⓐ' => 239,
        'Ⓑ' => 240, 'Ⓒ' => 241, 'Ⓓ' => 242, 'Ⓔ' => 243, 'Ⓕ' => 244, 'Ⓖ' => 245, 'Ⓗ' => 246, 'Ⓘ' => 247,
        'Ⓙ' => 248, '⑴' => 249, '⑵' => 250, '⑶' => 251, '⑷' => 252, '⑸' => 253, '⑹' => 254, '‹' => 255,
        _ => 256,
    }
}

/// The alphabet has 256 symbols, and the symbol at place `b` is known by its place.
#[verifier::rlimit(100)]
proof fn lemma_base255_place(b: u8)
    ensures
        BASE_255_ALPHABET@.len() == 256,
        base255_place(BASE_255_ALPHABET@[b as int]) == b,
{
    reveal_strlit("0123456789ABCDEFGHIJKLMNOPQRSTUVWXYZabcdefghijklmnopqrstuvwxyz!\"#$%&'()+,-./:;<=>?@[]^{}~‰£¤¥¦§«¬²³µÀÁÂÃÄÅÆÇÈÉÊËÌÍÎÏÐÑÒØßàáâãäåæçèéêëìþÿǷǾǿɅɆɄɃȽȾȺȸȹɎʘʗʖʕʔʓʒʑʊʇʆʁʂϠϡϢϭϱϺϻϿϾϼ◔◍◎◐◑◒◓◚◛◳◲◱◰◯◿◜◝◞◟◠◡◉◊▣▤▥▦▧▨▩▚▙▜▛▝▞▟▂▃▄▅▆▇█▉▊▋▌▍░▒▓①②③④⑤⑥⑦⑧⑨⑩⑪⑫⑬⑭⑮ⒶⒷⒸⒹⒺⒻⒼⒽⒾⒿ⑴⑵⑶⑷⑸⑹‹");
    if b < 64 {
        lemma_among(b as int, 0, 64);
    } else if b < 128 {
        lemma_among(b as int, 64, 64);
    } else if b < 192 {
        lemma_among(b as int, 128, 64);
    } else {
        lemma_among(b as int, 192, 64);
    }
    reveal_with_fuel(among, 65);
}

/// The alphabet has 256 symbols, none of them twice: a symbol is found first at its own place.
pub proof fn lemma_base255_alphabet(b: u8)
    ensures
        BASE_255_ALPHABET@.len() == 256,
        BASE_255_ALPHABET@.index_of_first(base255_symbol(b)) == Some(b as int),
{
    let a = BASE_255_ALPHABET@;
    let c = base255_symbol(b);
    lemma_base255_place(b);
    assert(a.contains(c));
    a.index_of_first_ensures(c);
    let found = a.index_of_first(c)->0;
    lemma_base255_place(found as u8);
}

/// Decoding the symbol of a byte gives the byte back.
pub proof fn lemma_base255_round_trip(b: u8)
    ensures
        base255_value(base255_symbol(b)) == b,
{
    lemma_base255_alphabet(b);
}

/// No symbol of the alphabet is a line feed or a carriage return, so a
/// mask's text never ends the line it stands in. (The colon is a symbol:
/// the mask is the last field of its line for that reason.)
pub proof fn lemma_base255_symbol_plain(b: u8)
    ensures
        base255_symbol(b) != '\n',
        base255_symbol(b) != '\r',
{
    lemma_base255_place(b);
}

/// The symbol that stands for `byte`.
pub fn byte_to_base_255(byte: u8) -> (c: char)
    ensures
        c == base255_symbol(byte),
{
    proof {
        lemma_base255_place(byte);
    }
    BASE_255_ALPHABET.get_char(byte as usize)
}

/// The byte that `c` stands for; 0 where `c` is not in the alphabet.
pub fn base_255_to_byte(c: char) -> (byte: u8)
    ensures
        byte == base255_value(c),
{
    proof {
        lemma_base255_place(0);
    }
    let ghost a = BASE_255_ALPHABET@;
    let mut i: usize = 0;
    for b in it: BASE_255_ALPHABET.chars()
        invariant
            it.seq() == a,
            a == BASE_255_ALPHABET@,
            a.len() == 256,
            i == it.index(),
            forall|j: int| 0 <= j < i ==> a[j] != c,
    {
        if b == c {
            proof {
                assert(a.contains(c));
                a.index_of_first_ensures(c);
            }
            return i as u8;
        }
        i += 1;
    }
    proof {
        assert(!a.contains(c));
        a.index_of_first_ensures(c);
    }
    0
}


// ------------------------------------------------------------------ bitmaps

/// Whether bit `k` (least significant first) of `byte` is set.
pub open spec fn byte_bit(byte: u8, k: int) -> bool {
    (byte >> (k as u8)) & 1u8 == 1u8
}

/// `byte` with bit `k` set to `value`.
pub open spec fn byte_with_bit(byte: u8, k: int, value: bool) -> u8 {
    if value {
        byte | (1u8 << (k as u8))
    } else {
        byte & !(1u8 << (k as u8))
    }
}

/// The bits of a byte sequence: bit `i` lives in byte `i / 8` at position `i % 8`.
pub open spec fn bits_of(bytes: Seq<u8>) -> Seq<bool> {
    Seq::new(8 * bytes.len(), |i: int| byte_bit(bytes[i / 8], i % 8))
}

/// The first `n` bytes of `bytes` followed by zeros: `n` bytes in all.
pub open spec fn zero_padded(bytes: Seq<u8>, n: nat) -> Seq<u8> {
    Seq::new(
        n,
        |i: int|
            if i < bytes.len() {
                bytes[i]
            } else {
                0u8
            },
    )
}

/// The bytes `bytes` with bit `i` set to `value`.
pub open spec fn bytes_with_bit(bytes: Seq<u8>, i: int, value: bool) -> Seq<u8> {
    bytes.update(i / 8, byte_with_bit(bytes[i / 8], i % 8, value))
}

/// Writing one bit of a byte sequence changes that bit and no other.
pub proof fn lemma_bytes_with_bit(bytes: Seq<u8>, i: int, value: bool)
    requires
        0 <= i < 8 * bytes.len(),
    ensures
        bytes_with_bit(bytes, i, value).len() == bytes.len(),
        bits_of(bytes_with_bit(bytes, i, value)) == bits_of(bytes).update(i, value),
{
    let after = bytes_with_bit(bytes, i, value);
    assert forall|j: int| 0 <= j < 8 * bytes.len() implies bits_of(after)[j] == bits_of(bytes).update(
        i,
        value,
    )[j] by {
        if j / 8 == i / 8 {
            lemma_byte_with_bit(bytes[i / 8], i % 8, value, j % 8);
        }
    }
    assert(bits_of(after) =~= bits_of(bytes).update(i, value));
}

/// Writing one bit of a byte changes that bit and no other.
pub proof fn lemma_byte_with_bit(byte: u8, k: int, value: bool, j: int)
    requires
        0 <= k < 8,
        0 <= j < 8,
    ensures
        byte_bit(byte_with_bit(byte, k, value), j) == (if j == k {
            value
        } else {
            byte_bit(byte, j)
        }),
{
    let kk = k as u8;
    let jj = j as u8;
    assert(kk < 8 && jj < 8 ==> (((byte | (1u8 << kk)) >> jj) & 1u8 == 1u8) == (jj == kk || ((byte >> jj)
        & 1u8 == 1u8))) by (bit_vector);
    assert(kk < 8 && jj < 8 ==> (((byte & !(1u8 << kk)) >> jj) & 1u8 == 1u8) == (jj != kk && ((byte >> jj)
        & 1u8 == 1u8))) by (bit_vector);
}

/// Writing a bit and then writing back what it held restores the byte; so
/// does clearing a bit that was set in a byte where it had been clear.
pub proof fn lemma_byte_with_bit_undo(byte: u8, k: int, value: bool)
    requires
        0 <= k < 8,
    ensures
        byte_with_bit(byte_with_bit(byte, k, value), k, byte_bit(byte, k)) == byte,
        byte_with_bit(byte, k, byte_bit(byte, k)) == byte,
{
    let kk = k as u8;
    assert(kk < 8 && ((byte >> kk) & 1u8 == 1u8) ==> ((byte | (1u8 << kk)) | (1u8 << kk)) == byte && ((byte
        & !(1u8 << kk)) | (1u8 << kk)) == byte && (byte | (1u8 << kk)) == byte) by (bit_vector);
    assert(kk < 8 && !((byte >> kk) & 1u8 == 1u8) ==> ((byte | (1u8 << kk)) & !(1u8 << kk)) == byte && ((
    byte & !(1u8 << kk)) & !(1u8 << kk)) == byte && (byte & !(1u8 << kk)) == byte) by (bit_vector);
}

/// No bit of the zero byte is set.
pub proof fn lemma_zero_byte(k: int)
    requires
        0 <= k < 8,
    ensures
        !byte_bit(0u8, k),
{
    let kk = k as u8;
    assert(kk < 8 ==> !((0u8 >> kk) & 1u8 == 1u8)) by (bit_vector);
}

/// The value of one hexadecimal digit, or 16 where `c` is none.
pub open spec fn hex_digit_value(c: char) -> int {
    if '0' <= c <= '9' {
        c as int - '0' as int
    } else if 'a' <= c <= 'f' {
        c as int - 'a' as int + 10
    } else if 'A' <= c <= 'F' {
        c as int - 'A' as int + 10
    } else {
        16
    }
}

/// The byte that the two characters `hi`, `lo` denote in hexadecimal, or
/// 256 where they denote none. A `+` in the first place is a sign: `+7` is 7.
pub open spec fn hex_pair_value(hi: char, lo: char) -> int {
    if hex_digit_value(lo) >= 16 {
        256
    } else if hi == '+' {
        hex_digit_value(lo)
    } else if hex_digit_value(hi) >= 16 {
        256
    } else {
        16 * hex_digit_value(hi) + hex_digit_value(lo)
    }
}

/// What pair `i` of `text` denotes.
pub open spec fn hex_pair_at(text: Seq<char>, i: int) -> int {
    hex_pair_value(text[2 * i], text[2 * i + 1])
}

/// `text` is made of pairs that each denote a byte.
pub open spec fn is_hex_text(text: Seq<char>) -> bool {
    &&& text.len() % 2 == 0
    &&& forall|i: int| 0 <= i < text.len() / 2 ==> #[trigger] hex_pair_at(text, i) < 256
}

/// The bytes that the pairs of `text` denote, in order.
pub open spec fn hex_bytes(text: Seq<char>) -> Seq<u8> {
    Seq::new(text.len() / 2, |i: int| hex_pair_at(text, i) as u8)
}

fn hex_digit_of(c: char) -> (r: u8)
    ensures
        r == hex_digit_value(c),
{
    if '0' <= c && c <= '9' {
        ((c as u32) - ('0' as u32)) as u8
    } else if 'a' <= c && c <= 'f' {
        ((c as u32) - ('a' as u32) + 10) as u8
    } else if 'A' <= c && c <= 'F' {
        ((c as u32) - ('A' as u32) + 10) as u8
    } else {
        16
    }
}

/// A bitmap of `8 * S` bits, kept in `S` bytes; all bits are clear when it is made.
#[derive(Debug)]
pub struct BitMask<const S: usize> {
    mask: [u8; S],
}

impl<const S: usize> Clone for BitMask<S> {
    fn clone(&self) -> (r: Self)
        ensures
            r == *self,
    {
        BitMask { mask: self.mask }
    }
}

impl<const S: usize> BitMask<S> {
    /// The backing bytes, `S` of them.
    pub closed spec fn bytes(&self) -> Seq<u8> {
        self.mask@
    }

    /// The bits, `8 * S` of them.
    pub open spec fn view(&self) -> Seq<bool> {
        bits_of(self.bytes())
    }

    /// A bitmap has `S` bytes and `8 * S` bits.
    pub proof fn lemma_len(&self)
        ensures
            self.bytes().len() == S,
            self@.len() == 8 * S,
    {
        broadcast use vstd::array::array_len_matches_n;

    }

    /// Two bitmaps with the same bytes are the same bitmap.
    pub proof fn lemma_bytes_determine(&self, other: &Self)
        requires
            self.bytes() == other.bytes(),
        ensures
            *self == *other,
    {
        broadcast use vstd::array::axiom_array_ext_equal;

        assert(self.mask =~= other.mask);
    }

    /// A bitmap with every bit clear.
    pub fn new() -> (r: Self)
        ensures
            r.bytes() == zero_padded(Seq::empty(), S as nat),
            forall|i: int| 0 <= i < 8 * S ==> !r@[i],
    {
        let r = BitMask { mask: vstd::array::array_fill_for_copy_types(0u8) };
        proof {
            broadcast use vstd::array::array_len_matches_n;

            assert(r.bytes() =~= zero_padded(Seq::empty(), S as nat));
            assert forall|i: int| 0 <= i < 8 * S implies !r@[i] by {
                lemma_zero_byte(i % 8);
            }
        }
        r
    }

    /// The bitmap whose first bytes are `bytes` and whose other bytes are zero.
    pub fn from_bytes(bytes: &[u8]) -> (r: Self)
        requires
            bytes@.len() <= S,
        ensures
            r.bytes() == zero_padded(bytes@, S as nat),
    {
        let mut r = Self::new();
        let mut i: usize = 0;
        while i < bytes.len()
            invariant
                i <= bytes@.len() <= S,
                r.bytes() == zero_padded(bytes@.take(i as int), S as nat),
            decreases bytes.len() - i,
        {
            proof {
                broadcast use vstd::array::array_len_matches_n;

            }
            r.mask[i] = bytes[i];
            proof {
                assert(r.bytes() =~= zero_padded(bytes@.take(i + 1), S as nat));
            }
            i += 1;
        }
        proof {
            assert(bytes@.take(bytes@.len() as int) =~= bytes@);
        }
        r
    }

    /// Sets bit `index` to `value`: bit `index % 8` of byte `index / 8`,
    /// least significant first.
    pub fn set(&mut self, index: usize, value: bool)
        requires
            index < 8 * S,
        ensures
            final(self)@ == old(self)@.update(index as int, value),
            final(self).bytes() == bytes_with_bit(old(self).bytes(), index as int, value),
    {
        proof {
            broadcast use vstd::array::array_len_matches_n;

        }
        let byte: usize = index / 8;
        let bit: u8 = (index % 8) as u8;
        let b: u8 = self.mask[byte];
        if value {
            self.mask[byte] = b | (1u8 << bit);
        } else {
            self.mask[byte] = b & !(1u8 << bit);
        }
        proof {
            assert forall|i: int| 0 <= i < 8 * S implies #[trigger] final(self)@[i] == old(self)@.update(
                index as int,
                value,
            )[i] by {
                if i / 8 == byte as int {
                    lemma_byte_with_bit(b, bit as int, value, i % 8);
                }
            }
            assert(final(self)@ =~= old(self)@.update(index as int, value));
        }
    }

    /// Whether bit `index` is set.
    pub fn get(&self, index: usize) -> (r: bool)
        requires
            index < 8 * S,
        ensures
            r == self@[index as int],
    {
        proof {
            broadcast use vstd::array::array_len_matches_n;

        }
        let byte: usize = index / 8;
        let bit: u8 = (index % 8) as u8;
        let b: u8 = self.mask[byte];
        assert(bit < 8 ==> ((b & (1u8 << bit)) != 0) == ((b >> bit) & 1u8 == 1u8)) by (bit_vector);
        b & (1u8 << bit) != 0
    }

    /// The backing bytes.
    pub fn as_bytes(&self) -> (r: &[u8])
        ensures
            r@ == self.bytes(),
    {
        self.mask.as_slice()
    }

    /// The bitmap whose first bytes are written in `value`, two hexadecimal
    /// digits each, and whose other bytes are zero.
    pub fn from_hex(value: &str) -> (r: Self)
        requires
            is_hex_text(value@),
            value@.len() <= 2 * S,
        ensures
            r.bytes() == zero_padded(hex_bytes(value@), S as nat),
    {
        let text = chars_of(value);
        let mut r = Self::new();
        let n: usize = text.len() / 2;
        let mut i: usize = 0;
        while i < n
            invariant
                text@ == value@,
                is_hex_text(text@),
                n == text@.len() / 2,
                text@.len() <= usize::MAX,
                i <= n <= S,
                r.bytes() == zero_padded(hex_bytes(text@).take(i as int), S as nat),
            decreases n - i,
        {
            proof {
                broadcast use vstd::array::array_len_matches_n;

            }
            assert(hex_pair_at(text@, i as int) < 256);
            let hi: char = text[2 * i];
            let lo: u8 = hex_digit_of(text[2 * i + 1]);
            let byte: u8 = if hi == '+' {
                lo
            } else {
                16 * hex_digit_of(hi) + lo
            };
            r.mask[i] = byte;
            proof {
                assert(r.bytes() =~= zero_padded(hex_bytes(text@).take(i + 1), S as nat));
            }
            i += 1;
        }
        proof {
            assert(hex_bytes(text@).take(n as int) =~= hex_bytes(text@));
        }
        r
    }
}

/// Reading a bit after writing it gives what was written; the other bits keep their values.
pub proof fn lemma_bitmask_set_get<const S: usize>(before: BitMask<S>, after: BitMask<S>, i: int, v: bool, j: int)
    requires
        0 <= i < 8 * S,
        0 <= j < 8 * S,
        after@ == before@.update(i, v),
    ensures
        after@[i] == v,
        j != i ==> after@[j] == before@[j],
{
    before.lemma_len();
}

/// Setting a bit that was clear and then clearing it restores the backing
/// bytes: in a bitmap that was all zero, they are all zero again.
pub proof fn lemma_bitmask_set_clear(bytes: Seq<u8>, i: int)
    requires
        0 <= i < 8 * bytes.len(),
        !bits_of(bytes)[i],
    ensures
        bytes_with_bit(bytes_with_bit(bytes, i, true), i, false) == bytes,
{
    lemma_byte_with_bit_undo(bytes[i / 8], i % 8, true);
    assert(bytes_with_bit(bytes_with_bit(bytes, i, true), i, false) =~= bytes);
}

/// A bitmap read back from its own bytes is the same bitmap.
pub proof fn lemma_bitmask_bytes_round_trip<const S: usize>(mask: BitMask<S>, back: BitMask<S>)
    requires
        back.bytes() == zero_padded(mask.bytes(), S as nat),
    ensures
        back == mask,
{
    mask.lemma_len();
    assert(back.bytes() =~= mask.bytes());
    back.lemma_bytes_determine(&mask);
}

} // verus!
