use vstd::prelude::*;

verus! {

/// Builds a `String` holding exactly the given characters, in order.
///
/// Trusted: calls `Iterator::collect` into `String` (std's `FromIterator<&char>`),
/// which documents that the resulting string is the concatenation of the items.
#[verifier::external_body]
pub(crate) fn string_from_chars(chars: &Vec<char>) -> (s: String)
    ensures
        s@ == chars@,
{
    chars.iter().collect()
}

/// Converts a code point into a `char`.
///
/// Trusted: calls `char::from_u32`, documented to return `Some` exactly for the
/// Unicode scalar values (everything up to `0x10FFFF` outside the surrogate range
/// `0xD800..=0xDFFF`) and `None` otherwise.
#[verifier::external_body]
pub(crate) fn char_from_u32(code: u32) -> (c: Option<char>)
    ensures
        c == (if is_scalar_value(code as int) { Some(code as char) } else { None::<char> }),
{
    char::from_u32(code)
}

/// A Unicode scalar value: a code point that is not a surrogate.
pub open spec fn is_scalar_value(code: int) -> bool {
    (0 <= code <= 0xD7FF) || (0xE000 <= code <= 0x10FFFF)
}


/// What `char::to_uppercase` yields for a character: its uppercase mapping per the
/// Unicode tables (one or more characters; the character itself where it has none).
pub uninterp spec fn char_to_upper(c: char) -> Seq<char>;

/// What `str::to_uppercase` gives for a string: its uppercase equivalent per the
/// Unicode `Uppercase` property.
pub uninterp spec fn str_to_upper(s: Seq<char>) -> Seq<char>;

/// The uppercase mapping of one character, as a string.
///
/// Trusted: calls `char::to_uppercase` and collects the characters it yields; the
/// contract only names the result.
#[verifier::external_body]
pub(crate) fn char_upper_string(c: char) -> (s: String)
    ensures
        s@ == char_to_upper(c),
{
    c.to_uppercase().collect()
}

/// The uppercase equivalent of a string.
///
/// Trusted: calls `str::to_uppercase`; the contract only names the result.
#[verifier::external_body]
pub(crate) fn str_upper(s: &str) -> (u: String)
    ensures
        u@ == str_to_upper(s@),
{
    s.to_uppercase()
}

/// The title case of a character where it differs from its upper case: the
/// digraphs DŽ, LJ, NJ and DZ take their title forms; Greek letters with iota
/// subscript keep (or take) the subscript; `ß`, the Latin and Armenian
/// ligatures take a capital and small letters; Georgian letters stay as they
/// are. `None` for every other character.
pub open spec fn title_special(c: char) -> Option<Seq<char>> {
    let u = c as u32;
    if 0x01C4 <= u && u <= 0x01C6 {
        Some(seq!['\u{01C5}'])
    } else if 0x01C7 <= u && u <= 0x01C9 {
        Some(seq!['\u{01C8}'])
    } else if 0x01CA <= u && u <= 0x01CC {
        Some(seq!['\u{01CB}'])
    } else if 0x01F1 <= u && u <= 0x01F3 {
        Some(seq!['\u{01F2}'])
    } else if u == 0x00DF {
        Some(seq!['\u{0053}', '\u{0073}'])
    } else if u == 0xFB00 {
        Some(seq!['\u{0046}', '\u{0066}'])
    } else if u == 0xFB01 {
        Some(seq!['\u{0046}', '\u{0069}'])
    } else if u == 0xFB02 {
        Some(seq!['\u{0046}', '\u{006C}'])
    } else if u == 0xFB03 {
        Some(seq!['\u{0046}', '\u{0066}', '\u{0069}'])
    } else if u == 0xFB04 {
        Some(seq!['\u{0046}', '\u{0066}', '\u{006C}'])
    } else if u == 0xFB05 || u == 0xFB06 {
        Some(seq!['\u{0053}', '\u{0074}'])
    } else if u == 0x0587 {
        Some(seq!['\u{0535}', '\u{0582}'])
    } else if u == 0xFB13 {
        Some(seq!['\u{0544}', '\u{0576}'])
    } else if u == 0xFB14 {
        Some(seq!['\u{0544}', '\u{0565}'])
    } else if u == 0xFB15 {
        Some(seq!['\u{0544}', '\u{056B}'])
    } else if u == 0xFB16 {
        Some(seq!['\u{054E}', '\u{0576}'])
    } else if u == 0xFB17 {
        Some(seq!['\u{0544}', '\u{056D}'])
    } else if (0x1F80 <= u && u <= 0x1F87) || (0x1F90 <= u && u <= 0x1F97) || (0x1FA0 <= u && u <= 0x1FA7) {
        Some(seq![(u + 8) as char])
    } else if (0x1F88 <= u && u <= 0x1F8F) || (0x1F98 <= u && u <= 0x1F9F) || (0x1FA8 <= u && u <= 0x1FAF) || u == 0x1FBC || u == 0x1FCC || u == 0x1FFC || (0x10D0 <= u && u <= 0x10FA) || (0x10FD <= u && u <= 0x10FF) {
        Some(seq![c])
    } else if u == 0x1FB3 {
        Some(seq!['\u{1FBC}'])
    } else if u == 0x1FC3 {
        Some(seq!['\u{1FCC}'])
    } else if u == 0x1FF3 {
        Some(seq!['\u{1FFC}'])
    } else if u == 0x1FB2 {
        Some(seq!['\u{1FBA}', '\u{0345}'])
    } else if u == 0x1FB4 {
        Some(seq!['\u{0386}', '\u{0345}'])
    } else if u == 0x1FB7 {
        Some(seq!['\u{0391}', '\u{0342}', '\u{0345}'])
    } else if u == 0x1FC2 {
        Some(seq!['\u{1FCA}', '\u{0345}'])
    } else if u == 0x1FC4 {
        Some(seq!['\u{0389}', '\u{0345}'])
    } else if u == 0x1FC7 {
        Some(seq!['\u{0397}', '\u{0342}', '\u{0345}'])
    } else if u == 0x1FF2 {
        Some(seq!['\u{1FFA}', '\u{0345}'])
    } else if u == 0x1FF4 {
        Some(seq!['\u{038F}', '\u{0345}'])
    } else if u == 0x1FF7 {
        Some(seq!['\u{03A9}', '\u{0342}', '\u{0345}'])
    } else {
        None
    }
}

/// The title case of a character: its special form, or else its upper case.
pub open spec fn char_to_title(c: char) -> Seq<char> {
    match title_special(c) {
        Some(t) => t,
        None => char_to_upper(c),
    }
}

/// The special title form of a character, where it has one.
fn title_special_chars(c: char) -> (r: Option<Vec<char>>)
    ensures
        match r {
            Some(v) => title_special(c) == Some(v@),
            None => title_special(c) is None,
        },
{
    let u = c as u32;
    let v = if 0x01C4 <= u && u <= 0x01C6 {
        vec!['\u{01C5}']
    } else if 0x01C7 <= u && u <= 0x01C9 {
        vec!['\u{01C8}']
    } else if 0x01CA <= u && u <= 0x01CC {
        vec!['\u{01CB}']
    } else if 0x01F1 <= u && u <= 0x01F3 {
        vec!['\u{01F2}']
    } else if u == 0x00DF {
        vec!['\u{0053}', '\u{0073}']
    } else if u == 0xFB00 {
        vec!['\u{0046}', '\u{0066}']
    } else if u == 0xFB01 {
        vec!['\u{0046}', '\u{0069}']
    } else if u == 0xFB02 {
        vec!['\u{0046}', '\u{006C}']
    } else if u == 0xFB03 {
        vec!['\u{0046}', '\u{0066}', '\u{0069}']
    } else if u == 0xFB04 {
        vec!['\u{0046}', '\u{0066}', '\u{006C}']
    } else if u == 0xFB05 || u == 0xFB06 {
        vec!['\u{0053}', '\u{0074}']
    } else if u == 0x0587 {
        vec!['\u{0535}', '\u{0582}']
    } else if u == 0xFB13 {
        vec!['\u{0544}', '\u{0576}']
    } else if u == 0xFB14 {
        vec!['\u{0544}', '\u{0565}']
    } else if u == 0xFB15 {
        vec!['\u{0544}', '\u{056B}']
    } else if u == 0xFB16 {
        vec!['\u{054E}', '\u{0576}']
    } else if u == 0xFB17 {
        vec!['\u{0544}', '\u{056D}']
    } else if (0x1F80 <= u && u <= 0x1F87) || (0x1F90 <= u && u <= 0x1F97) || (0x1FA0 <= u && u <= 0x1FA7) {
        match char_from_u32(u + 8) {
            Some(t) => vec![t],
            None => {
                assert(false);
                return None;
            },
        }
    } else if (0x1F88 <= u && u <= 0x1F8F) || (0x1F98 <= u && u <= 0x1F9F) || (0x1FA8 <= u && u <= 0x1FAF) || u == 0x1FBC || u == 0x1FCC || u == 0x1FFC || (0x10D0 <= u && u <= 0x10FA) || (0x10FD <= u && u <= 0x10FF) {
        vec![c]
    } else if u == 0x1FB3 {
        vec!['\u{1FBC}']
    } else if u == 0x1FC3 {
        vec!['\u{1FCC}']
    } else if u == 0x1FF3 {
        vec!['\u{1FFC}']
    } else if u == 0x1FB2 {
        vec!['\u{1FBA}', '\u{0345}']
    } else if u == 0x1FB4 {
        vec!['\u{0386}', '\u{0345}']
    } else if u == 0x1FB7 {
        vec!['\u{0391}', '\u{0342}', '\u{0345}']
    } else if u == 0x1FC2 {
        vec!['\u{1FCA}', '\u{0345}']
    } else if u == 0x1FC4 {
        vec!['\u{0389}', '\u{0345}']
    } else if u == 0x1FC7 {
        vec!['\u{0397}', '\u{0342}', '\u{0345}']
    } else if u == 0x1FF2 {
        vec!['\u{1FFA}', '\u{0345}']
    } else if u == 0x1FF4 {
        vec!['\u{038F}', '\u{0345}']
    } else if u == 0x1FF7 {
        vec!['\u{03A9}', '\u{0342}', '\u{0345}']
    } else {
        return None;
    };
    Some(v)
}

/// The title case of a character, as a string.
fn char_title_string(c: char) -> (s: String)
    ensures
        s@ == char_to_title(c),
{
    match title_special_chars(c) {
        Some(v) => string_from_chars(&v),
        None => char_upper_string(c),
    }
}

/// The string with its first character in title case and the rest kept.
pub(crate) fn capitalize_str(s: &str) -> (r: String)
    ensures
        r@ == (if s@.len() == 0 {
            Seq::<char>::empty()
        } else {
            char_to_title(s@[0]) + s@.drop_first()
        }),
{
    let n = s.unicode_len();
    if n == 0 {
        String::new()
    } else {
        let first = s.get_char(0);
        let rest = s.substring_char(1, n);
        assert(rest@ =~= s@.drop_first());
        char_title_string(first).concat(rest)
    }
}

/// The decimal digit `d` as a character.
pub open spec fn digit_char(d: nat) -> char {
    (d + 48) as char
}

/// The decimal notation of a number, without leading zeros.
pub open spec fn decimal(n: nat) -> Seq<char>
    decreases n,
{
    if n < 10 {
        seq![digit_char(n)]
    } else {
        decimal(n / 10).push(digit_char(n % 10))
    }
}

fn digit(d: usize) -> (c: char)
    requires
        d < 10,
    ensures
        c == digit_char(d as nat),
{
    let code: u8 = d as u8 + 48;
    code as char
}

/// The decimal notation of a number.
pub fn decimal_string(n: usize) -> (s: String)
    ensures
        s@ == decimal(n as nat),
{
    let mut digits: Vec<char> = Vec::new();
    digits.push(digit(n % 10));
    let mut m: usize = n / 10;
    assert(digits@.reverse() =~= seq![digit_char((n % 10) as nat)]);
    while m > 0
        invariant
            (if m == 0 {
                Seq::<char>::empty()
            } else {
                decimal(m as nat)
            }) + digits@.reverse() == decimal(n as nat),
        decreases m,
    {
        let ghost before = digits@;
        digits.push(digit(m % 10));
        assert(digits@.reverse() =~= seq![digit_char((m % 10) as nat)] + before.reverse());
        let ghost old_m = m;
        m = m / 10;
        if m == 0 {
            assert(decimal(old_m as nat) =~= seq![digit_char((old_m % 10) as nat)]);
        } else {
            assert(decimal(old_m as nat) =~= decimal(m as nat).push(digit_char((old_m % 10) as nat)));
        }
        assert((if m == 0 {
            Seq::<char>::empty()
        } else {
            decimal(m as nat)
        }) + digits@.reverse() =~= decimal(old_m as nat) + before.reverse());
    }
    let mut out: Vec<char> = Vec::new();
    let mut k: usize = digits.len();
    while k > 0
        invariant
            k <= digits.len(),
            out@ == digits@.reverse().take(digits.len() - k),
        decreases k,
    {
        k -= 1;
        out.push(digits[k]);
        assert(out@ =~= digits@.reverse().take(digits.len() - k));
    }
    assert(out@ =~= digits@.reverse());
    assert(Seq::<char>::empty() + digits@.reverse() =~= digits@.reverse());
    string_from_chars(&out)
}

} // verus!
