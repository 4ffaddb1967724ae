//! Command-line interface: errors, sizes with binary unit suffixes,
//! locations, and parsing of the argument list into a configuration.
use vstd::prelude::*;
use crate::text::{decimal, push_decimal};

verus! {

// ---------------------------------------------------------------------------
// Characters and strings
// ---------------------------------------------------------------------------

/// Characters with the Unicode `White_Space` property.
pub open spec fn is_white_space(c: char) -> bool {
    ||| '\t' <= c <= '\r'
    ||| c == ' '
    ||| c == '\u{85}'
    ||| c == '\u{A0}'
    ||| c == '\u{1680}'
    ||| '\u{2000}' <= c <= '\u{200A}'
    ||| c == '\u{2028}'
    ||| c == '\u{2029}'
    ||| c == '\u{202F}'
    ||| c == '\u{205F}'
    ||| c == '\u{3000}'
}

/// `s` without leading and trailing white space.
pub open spec fn trimmed(s: Seq<char>) -> Seq<char>
    decreases s.len(),
{
    if s.len() > 0 && is_white_space(s[0]) {
        trimmed(s.drop_first())
    } else if s.len() > 0 && is_white_space(s.last()) {
        trimmed(s.drop_last())
    } else {
        s
    }
}

/// Characters '0' to '9'.
pub open spec fn is_digit(c: char) -> bool {
    '0' <= c <= '9'
}

/// How many characters at the start of `s` are digits '0' to '9'.
pub open spec fn digit_prefix_len(s: Seq<char>) -> nat
    decreases s.len(),
{
    if s.len() > 0 && is_digit(s[0]) {
        1 + digit_prefix_len(s.drop_first())
    } else {
        0
    }
}

/// The number that a string of decimal digits denotes.
pub open spec fn digits_value(d: Seq<char>) -> nat
    decreases d.len(),
{
    if d.len() == 0 {
        0
    } else {
        digits_value(d.drop_last()) * 10 + ((d.last() as int - '0' as int) as nat)
    }
}

/// Whether `c` is white space (see `is_white_space`).
pub fn white_space(c: char) -> (b: bool)
    ensures
        b == is_white_space(c),
{
    ('\t' <= c && c <= '\r') || c == ' ' || c == '\u{85}' || c == '\u{A0}' || c == '\u{1680}'
        || ('\u{2000}' <= c && c <= '\u{200A}') || c == '\u{2028}' || c == '\u{2029}' || c
        == '\u{202F}' || c == '\u{205F}' || c == '\u{3000}'
}

/// `s` without leading and trailing white space.
pub fn trim(s: &str) -> (t: &str)
    ensures
        t@ == trimmed(s@),
    decreases s@.len(),
{
    let n = s.unicode_len();
    if n > 0 && white_space(s.get_char(0)) {
        let rest = s.substring_char(1, n);
        assert(rest@ =~= s@.drop_first());
        trim(rest)
    } else if n > 0 && white_space(s.get_char(n - 1)) {
        let rest = s.substring_char(0, n - 1);
        assert(rest@ =~= s@.drop_last());
        trim(rest)
    } else {
        s
    }
}

/// Whether two strings hold the same characters.
pub fn str_eq(a: &str, b: &str) -> (r: bool)
    ensures
        r == (a@ == b@),
{
    let n = a.unicode_len();
    if n != b.unicode_len() {
        return false;
    }
    let mut i: usize = 0;
    while i < n
        invariant
            n == a@.len(),
            n == b@.len(),
            i <= n,
            forall|k: int| 0 <= k < i ==> a@[k] == b@[k],
        decreases n - i,
    {
        if a.get_char(i) != b.get_char(i) {
            return false;
        }
        i = i + 1;
    }
    assert(a@ =~= b@);
    true
}

/// Whether `s` starts with the characters of `prefix`.
pub fn starts_with(s: &str, prefix: &str) -> (r: bool)
    ensures
        r == (prefix@.len() <= s@.len() && s@.subrange(0, prefix@.len() as int) == prefix@),
{
    let n = prefix.unicode_len();
    if n > s.unicode_len() {
        return false;
    }
    let head = s.substring_char(0, n);
    str_eq(head, prefix)
}

/// The leading digits of `s` are digits, and the character after them is not.
pub proof fn lemma_digit_prefix(s: Seq<char>)
    ensures
        digit_prefix_len(s) <= s.len(),
        forall|k: int| 0 <= k < digit_prefix_len(s) ==> is_digit(#[trigger] s[k]),
        digit_prefix_len(s) < s.len() ==> !is_digit(s[digit_prefix_len(s) as int]),
    decreases s.len(),
{
    if s.len() > 0 && is_digit(s[0]) {
        lemma_digit_prefix(s.drop_first());
        assert forall|k: int| 0 <= k < digit_prefix_len(s) implies is_digit(#[trigger] s[k]) by {
            if k > 0 {
                assert(s[k] == s.drop_first()[k - 1]);
            }
        }
    }
}

/// How many characters at the start of `s` are digits.
pub fn count_leading_digits(s: &str) -> (k: usize)
    ensures
        k == digit_prefix_len(s@),
{
    let n = s.unicode_len();
    let mut i: usize = 0;
    assert(s@.subrange(0, n as int) =~= s@);
    while i < n && is_digit_char(s.get_char(i))
        invariant
            n == s@.len(),
            i <= n,
            digit_prefix_len(s@) == i + digit_prefix_len(s@.subrange(i as int, n as int)),
        decreases n - i,
    {
        proof {
            let rest = s@.subrange(i as int, n as int);
            assert(rest.drop_first() =~= s@.subrange(i + 1, n as int));
        }
        i = i + 1;
    }
    proof {
        let rest = s@.subrange(i as int, n as int);
        if i < n {
            assert(rest[0] == s@[i as int]);
        }
    }
    i
}

/// Whether `c` is a digit '0' to '9'.
pub fn is_digit_char(c: char) -> (b: bool)
    ensures
        b == is_digit(c),
{
    '0' <= c && c <= '9'
}

/// A value never shrinks when digits are appended to it.
pub proof fn lemma_digits_value_grows(d: Seq<char>, i: int)
    requires
        0 <= i <= d.len(),
        forall|k: int| 0 <= k < d.len() ==> is_digit(#[trigger] d[k]),
    ensures
        digits_value(d.take(i)) <= digits_value(d),
    decreases d.len() - i,
{
    if i < d.len() {
        lemma_digits_value_grows(d, i + 1);
        let t = d.take(i + 1);
        assert(t.drop_last() =~= d.take(i));
        assert(is_digit(d[i]));
    } else {
        assert(d.take(i) =~= d);
    }
}

/// The number denoted by a string of digits, or `None` when it is empty or
/// the number does not fit in 64 bits (as `str::parse::<u64>` on digits).
pub fn parse_digits(d: &str) -> (r: Option<u64>)
    requires
        forall|k: int| 0 <= k < d@.len() ==> is_digit(#[trigger] d@[k]),
    ensures
        r == (if d@.len() > 0 && digits_value(d@) <= u64::MAX {
            Some(digits_value(d@) as u64)
        } else {
            None
        }),
{
    let n = d.unicode_len();
    if n == 0 {
        return None;
    }
    let mut acc: u64 = 0;
    let mut i: usize = 0;
    while i < n
        invariant
            n == d@.len(),
            i <= n,
            forall|k: int| 0 <= k < d@.len() ==> is_digit(#[trigger] d@[k]),
            acc == digits_value(d@.take(i as int)),
        decreases n - i,
    {
        let c = d.get_char(i);
        let v = ((c as u32) - ('0' as u32)) as u64;
        proof {
            assert(d@.take(i + 1).drop_last() =~= d@.take(i as int));
            assert(is_digit(d@[i as int]));
        }
        match acc.checked_mul(10) {
            Some(t) => match t.checked_add(v) {
                Some(u) => {
                    acc = u;
                },
                None => {
                    proof {
                        lemma_digits_value_grows(d@, i + 1);
                    }
                    return None;
                },
            },
            None => {
                proof {
                    lemma_digits_value_grows(d@, i + 1);
                }
                return None;
            },
        }
        i = i + 1;
    }
    assert(d@.take(n as int) =~= d@);
    Some(acc)
}

// ---------------------------------------------------------------------------
// Errors
// ---------------------------------------------------------------------------

/// Category of a command-line error (the only one: invalid input).
#[derive(Clone, Copy, Debug, PartialEq, Eq, Structural)]
pub enum ErrorKind {
    InvalidInput,
}

/// An invalid command line, with the message shown to the user.
#[derive(Debug)]
pub struct CliError {
    pub message: String,
}

impl CliError {
    /// The error's category: always invalid input.
    pub fn kind(&self) -> (k: ErrorKind)
        ensures
            k == ErrorKind::InvalidInput,
    {
        ErrorKind::InvalidInput
    }

    /// The message shown to the user.
    pub fn to_string(&self) -> (s: String)
        ensures
            s@ == self.message@,
    {
        self.message.clone()
    }
}

/// An invalid-input error with the given message.
pub fn cli_error(msg: &str) -> (e: CliError)
    ensures
        e.message@ == msg@,
{
    CliError { message: String::from_str(msg) }
}

/// Message for an option given without its value.
pub open spec fn missing_message(arg: Seq<char>) -> Seq<char> {
    "Missign --"@ + arg + " value"@
}

/// Message for a value that is not in the expected format.
pub open spec fn invalid_message(name: Seq<char>, value: Seq<char>) -> Seq<char> {
    "Invalid "@ + name + " format: "@ + value
}

/// Message for a size with an unknown unit suffix.
pub open spec fn unknown_unit_message(name: Seq<char>, suffix: Seq<char>) -> Seq<char> {
    "Unknown unit for "@ + name + ": "@ + suffix
}

/// Message for a size that is not a power of two.
pub open spec fn not_power_of_two_message(name: Seq<char>, bytes: nat) -> Seq<char> {
    name + " must be power of two but got "@ + decimal(bytes)
}

/// Message for an argument that is not an option.
pub open spec fn unknown_arg_message(arg: Seq<char>) -> Seq<char> {
    "Unknown arg: "@ + arg
}

/// Error for an option given without its value: "Missign --{arg} value".
pub fn missing(arg: &str) -> (e: CliError)
    ensures
        e.message@ == missing_message(arg@),
{
    let mut m = String::from_str("Missign --");
    m.append(arg);
    m.append(" value");
    CliError { message: m }
}

/// Error for a malformed value: "Invalid {name} format: {value}".
pub fn invalid(name: &str, value: &str) -> (e: CliError)
    ensures
        e.message@ == invalid_message(name@, value@),
{
    let mut m = String::from_str("Invalid ");
    m.append(name);
    m.append(" format: ");
    m.append(value);
    CliError { message: m }
}

// ---------------------------------------------------------------------------
// Sizes with unit suffixes
// ---------------------------------------------------------------------------

/// The upper-case form of a string, as `str::to_uppercase` gives it
/// (full Unicode case mapping).
pub uninterp spec fn uppercase_of(s: Seq<char>) -> Seq<char>;

/// ASCII characters only.
pub open spec fn is_ascii_text(s: Seq<char>) -> bool {
    forall|i: int| 0 <= i < s.len() ==> (#[trigger] s[i]) as int <= 0x7F
}

/// The upper case of an ASCII character: 'a' to 'z' become 'A' to 'Z', every
/// other character stays as it is.
pub open spec fn ascii_upper(c: char) -> char {
    if 'a' <= c <= 'z' {
        ((c as int) - 32) as char
    } else {
        c
    }
}

/// Upper-case a string with `str::to_uppercase`; trusted to return the same
/// text for the same input, named `uppercase_of`, and, for ASCII text, the
/// text with its letters 'a' to 'z' upper-cased and nothing else changed.
/// The full Unicode case mapping is not written out.
#[verifier::external_body]
fn to_uppercase(s: &str) -> (u: String)
    ensures
        u@ == uppercase_of(s@),
        is_ascii_text(s@) ==> u@ == s@.map_values(|c: char| ascii_upper(c)),
{
    s.to_uppercase()
}

/// Bytes per unit of an upper-cased suffix: none or "B" for bytes,
/// "K"/"KB"/"KIB", "M"/"MB"/"MIB", "G"/"GB"/"GIB" for binary multiples;
/// 0 for an unknown unit.
pub open spec fn unit_multiplier(u: Seq<char>) -> nat {
    if u.len() == 0 || u == "B"@ {
        1
    } else if u == "K"@ || u == "KB"@ || u == "KIB"@ {
        1024
    } else if u == "M"@ || u == "MB"@ || u == "MIB"@ {
        1024 * 1024
    } else if u == "G"@ || u == "GB"@ || u == "GIB"@ {
        1024 * 1024 * 1024
    } else {
        0
    }
}

/// The unit suffixes, told apart by their length and letters.
proof fn lemma_unit_names()
    ensures
        "B"@.len() == 1 && "B"@[0] == 'B',
        "K"@.len() == 1 && "K"@[0] == 'K',
        "KB"@.len() == 2 && "KB"@[0] == 'K' && "KB"@[1] == 'B',
        "KIB"@.len() == 3 && "KIB"@[0] == 'K' && "KIB"@[1] == 'I',
        "M"@.len() == 1 && "M"@[0] == 'M',
        "MB"@.len() == 2 && "MB"@[0] == 'M' && "MB"@[1] == 'B',
        "MIB"@.len() == 3 && "MIB"@[0] == 'M' && "MIB"@[1] == 'I',
        "G"@.len() == 1 && "G"@[0] == 'G',
        "GB"@.len() == 2 && "GB"@[0] == 'G' && "GB"@[1] == 'B',
        "GIB"@.len() == 3 && "GIB"@[0] == 'G' && "GIB"@[1] == 'I',
{
    reveal_strlit("B");
    reveal_strlit("K");
    reveal_strlit("KB");
    reveal_strlit("KIB");
    reveal_strlit("M");
    reveal_strlit("MB");
    reveal_strlit("MIB");
    reveal_strlit("G");
    reveal_strlit("GB");
    reveal_strlit("GIB");
}

/// The binary units: no suffix or "B" is one byte; "K", "KB" and "KIB" are
/// 2^10 bytes; "M", "MB" and "MIB" are 2^20; "G", "GB" and "GIB" are 2^30.
pub proof fn lemma_unit_multipliers()
    ensures
        unit_multiplier(Seq::<char>::empty()) == 1,
        unit_multiplier("B"@) == 1,
        unit_multiplier("K"@) == 0x400,
        unit_multiplier("KB"@) == 0x400,
        unit_multiplier("KIB"@) == 0x400,
        unit_multiplier("M"@) == 0x10_0000,
        unit_multiplier("MB"@) == 0x10_0000,
        unit_multiplier("MIB"@) == 0x10_0000,
        unit_multiplier("G"@) == 0x4000_0000,
        unit_multiplier("GB"@) == 0x4000_0000,
        unit_multiplier("GIB"@) == 0x4000_0000,
{
    lemma_unit_names();
}

/// A size does not depend on how its unit is spelt: digits followed by
/// "M", "MB" or "MIB" (likewise for K and G) give the same outcome, and
/// a size in a known unit is its number times that unit when that is a
/// power of two that fits in 64 bits.
pub proof fn lemma_unit_spellings(name: Seq<char>, digits: Seq<char>, u: Seq<char>)
    requires
        digits.len() > 0,
        digits_value(digits) <= u64::MAX,
        unit_multiplier(u) > 0,
        digits_value(digits) * unit_multiplier(u) <= u64::MAX,
        is_power_of_two(digits_value(digits) * unit_multiplier(u)),
    ensures
        size_from_parts_spec(name, digits, u) == SizeSpec::Bytes((digits_value(digits) * unit_multiplier(u)) as u64),
        size_from_parts_spec(name, digits, "KB"@) == size_from_parts_spec(name, digits, "K"@),
        size_from_parts_spec(name, digits, "KIB"@) == size_from_parts_spec(name, digits, "K"@),
        size_from_parts_spec(name, digits, "MB"@) == size_from_parts_spec(name, digits, "M"@),
        size_from_parts_spec(name, digits, "MIB"@) == size_from_parts_spec(name, digits, "M"@),
        size_from_parts_spec(name, digits, "GB"@) == size_from_parts_spec(name, digits, "G"@),
        size_from_parts_spec(name, digits, "GIB"@) == size_from_parts_spec(name, digits, "G"@),
        size_from_parts_spec(name, digits, "B"@) == size_from_parts_spec(name, digits, Seq::<char>::empty()),
{
    lemma_unit_multipliers();
}

/// Powers of two: 1, 2, 4, ...
pub open spec fn is_power_of_two(n: nat) -> bool
    decreases n,
{
    if n == 1 {
        true
    } else if n >= 2 && n % 2 == 0 {
        is_power_of_two(n / 2)
    } else {
        false
    }
}

/// What parsing a size gives: a number of bytes, an error message, or an
/// overflow of the multiplication by the unit (on which the size is refused).
pub enum SizeSpec {
    Bytes(u64),
    Fails(Seq<char>),
    Overflows,
}

/// The size given by its digits and its upper-cased unit suffix.
pub open spec fn size_from_parts_spec(name: Seq<char>, digits: Seq<char>, unit: Seq<char>) -> SizeSpec {
    if !(digits.len() > 0 && digits_value(digits) <= u64::MAX) {
        SizeSpec::Fails(invalid_message(name, digits))
    } else if unit_multiplier(unit) == 0 {
        SizeSpec::Fails(unknown_unit_message(name, unit))
    } else if digits_value(digits) * unit_multiplier(unit) > u64::MAX {
        SizeSpec::Overflows
    } else if !is_power_of_two(digits_value(digits) * unit_multiplier(unit)) {
        SizeSpec::Fails(not_power_of_two_message(name, digits_value(digits) * unit_multiplier(unit)))
    } else {
        SizeSpec::Bytes((digits_value(digits) * unit_multiplier(unit)) as u64)
    }
}

/// The upper case of a unit suffix: its ASCII letters upper-cased when it
/// is ASCII text, the full Unicode upper case otherwise.
pub open spec fn upper_suffix(s: Seq<char>) -> Seq<char> {
    if is_ascii_text(s) {
        s.map_values(|c: char| ascii_upper(c))
    } else {
        uppercase_of(s)
    }
}

/// The size written in `value`: white space trimmed, then leading digits,
/// then a unit suffix, compared in upper case.
pub open spec fn size_spec(name: Seq<char>, value: Seq<char>) -> SizeSpec {
    let t = trimmed(value);
    let k = digit_prefix_len(t) as int;
    size_from_parts_spec(name, t.take(k), upper_suffix(t.skip(k)))
}

/// Whether a parsing outcome agrees with a size specification.
pub open spec fn size_outcome(r: Option<Result<u64, CliError>>, s: SizeSpec) -> bool {
    match r {
        Some(Ok(b)) => s == SizeSpec::Bytes(b),
        Some(Err(e)) => s == SizeSpec::Fails(e.message@),
        None => s == SizeSpec::Overflows,
    }
}

/// Whether `n` is a power of two.
pub fn power_of_two(n: u64) -> (b: bool)
    ensures
        b == is_power_of_two(n as nat),
{
    if n == 0 {
        return false;
    }
    let mut x = n;
    while x >= 2 && x % 2 == 0
        invariant
            x >= 1,
            is_power_of_two(n as nat) == is_power_of_two(x as nat),
        decreases x,
    {
        x = x / 2;
    }
    x == 1
}

/// Bytes per unit of an upper-cased suffix (0 when the unit is unknown).
pub fn multiplier(unit: &str) -> (m: u64)
    ensures
        m == unit_multiplier(unit@),
{
    if unit.unicode_len() == 0 || str_eq(unit, "B") {
        1
    } else if str_eq(unit, "K") || str_eq(unit, "KB") || str_eq(unit, "KIB") {
        1024
    } else if str_eq(unit, "M") || str_eq(unit, "MB") || str_eq(unit, "MIB") {
        1024 * 1024
    } else if str_eq(unit, "G") || str_eq(unit, "GB") || str_eq(unit, "GIB") {
        1024 * 1024 * 1024
    } else {
        0
    }
}

/// The size given by its digits and its upper-cased unit: the number times
/// the unit, refused unless the digits form a 64-bit number, the unit is
/// known and the product is a power of two; `None` when the product does
/// not fit in 64 bits.
pub fn size_from_parts(name: &str, digits: &str, unit: &str) -> (r: Option<Result<u64, CliError>>)
    requires
        forall|k: int| 0 <= k < digits@.len() ==> is_digit(#[trigger] digits@[k]),
    ensures
        size_outcome(r, size_from_parts_spec(name@, digits@, unit@)),
{
    let num = match parse_digits(digits) {
        Some(v) => v,
        None => {
            return Some(Err(invalid(name, digits)));
        },
    };
    let m = multiplier(unit);
    if m == 0 {
        let mut msg = String::from_str("Unknown unit for ");
        msg.append(name);
        msg.append(": ");
        msg.append(unit);
        return Some(Err(CliError { message: msg }));
    }
    let bytes = match num.checked_mul(m) {
        Some(b) => b,
        None => {
            return None;
        },
    };
    if !power_of_two(bytes) {
        let mut msg = String::from_str(name);
        msg.append(" must be power of two but got ");
        push_decimal(&mut msg, bytes);
        return Some(Err(CliError { message: msg }));
    }
    Some(Ok(bytes))
}

/// Split a size into its leading digits and its upper-cased unit suffix,
/// after trimming white space.
fn split_size(value: &str) -> (parts: (&str, String))
    ensures
        ({
            let t = trimmed(value@);
            let k = digit_prefix_len(t) as int;
            &&& parts.0@ == t.take(k)
            &&& parts.1@ == upper_suffix(t.skip(k))
            &&& forall|j: int| 0 <= j < parts.0@.len() ==> is_digit(#[trigger] parts.0@[j])
        }),
{
    let input = trim(value);
    let k = count_leading_digits(input);
    let n = input.unicode_len();
    proof {
        lemma_digit_prefix(input@);
    }
    let num_str = input.substring_char(0, k);
    let suffix = input.substring_char(k, n);
    let unit = to_uppercase(suffix);
    proof {
        assert(num_str@ =~= input@.take(k as int));
        assert(suffix@ =~= input@.skip(k as int));
    }
    (num_str, unit)
}

// ---------------------------------------------------------------------------
// Locations
// ---------------------------------------------------------------------------

/// The platform family, which decides how device paths look.
#[derive(Clone, Copy, Debug, PartialEq, Eq, Structural)]
pub enum Platform {
    Windows,
    Unix,
    Other,
}

/// Where data is read from or written to.
#[derive(Debug)]
pub enum Location {
    /// A physical drive: "\\.\PHYSICALDRIVE3" or "/dev/sdc".
    Drive(String),
    /// An image file: "sd-card.dd".
    Image(String),
    /// No location (the destination in inspection mode).
    Void,
}

/// A location as values: the kind and the path's characters.
pub enum LocationView {
    Drive(Seq<char>),
    Image(Seq<char>),
    Void,
}

impl View for Location {
    type V = LocationView;

    open spec fn view(&self) -> LocationView {
        match self {
            Location::Drive(s) => LocationView::Drive(s@),
            Location::Image(s) => LocationView::Image(s@),
            Location::Void => LocationView::Void,
        }
    }
}

/// Whether `s` starts with `prefix`.
pub open spec fn has_prefix(s: Seq<char>, prefix: Seq<char>) -> bool {
    prefix.len() <= s.len() && s.subrange(0, prefix.len() as int) == prefix
}

/// The location named by a path: a drive when it has the platform's device
/// prefix ("\\.\" on Windows, "/dev/" on Unix), an image file otherwise.
pub open spec fn location_of(way: Seq<char>, platform: Platform) -> LocationView {
    if platform == Platform::Windows && has_prefix(way, "\\\\.\\"@) {
        LocationView::Drive(way)
    } else if platform == Platform::Unix && has_prefix(way, "/dev/"@) {
        LocationView::Drive(way)
    } else {
        LocationView::Image(way)
    }
}

/// How a location is shown to the user.
pub open spec fn location_text(l: LocationView) -> Seq<char> {
    match l {
        LocationView::Drive(w) => "(drive) ["@ + w + "]"@,
        LocationView::Image(w) => "(file) ["@ + w + "]"@,
        LocationView::Void => "(void) NONE"@,
    }
}

impl Location {
    /// The location named by a path on the given platform (see `location_of`).
    pub fn from_str(way: String, platform: Platform) -> (l: Location)
        ensures
            l@ == location_of(way@, platform),
    {
        if platform == Platform::Windows {
            if starts_with(way.as_str(), "\\\\.\\") {
                return Location::Drive(way);
            }
        }
        if platform == Platform::Unix {
            if starts_with(way.as_str(), "/dev/") {
                return Location::Drive(way);
            }
        }
        Location::Image(way)
    }

    /// How the location is shown: "(drive) [path]", "(file) [path]" or
    /// "(void) NONE".
    pub fn display(&self) -> (s: String)
        ensures
            s@ == location_text(self@),
    {
        match self {
            Location::Drive(way) => {
                let mut s = String::from_str("(drive) [");
                s.append(way.as_str());
                s.append("]");
                s
            },
            Location::Image(way) => {
                let mut s = String::from_str("(file) [");
                s.append(way.as_str());
                s.append("]");
                s
            },
            Location::Void => String::from_str("(void) NONE"),
        }
    }
}

// ---------------------------------------------------------------------------
// Configuration
// ---------------------------------------------------------------------------

/// Default reading block size: 32 MiB.
pub const DEFAULT_CHUNK: u64 = 32 * 1024 * 1024;

/// Command line configuration.
#[derive(Debug)]
pub struct Config {
    pub source: Location,
    pub destination: Location,
    /// Only inspect the source, without imaging.
    pub inspect: bool,
    /// Truncate trailing uniform space.
    pub truncate: bool,
    /// Logical granularity of the traversal.
    pub chunk_size: u64,
    /// Physical sector size; `None`: no recovery mode.
    pub sector_size: Option<u16>,
}

/// A configuration as values.
pub struct ConfigView {
    pub source: LocationView,
    pub destination: LocationView,
    pub inspect: bool,
    pub truncate: bool,
    pub chunk_size: u64,
    pub sector_size: Option<u16>,
}

impl View for Config {
    type V = ConfigView;

    open spec fn view(&self) -> ConfigView {
        ConfigView {
            source: self.source@,
            destination: self.destination@,
            inspect: self.inspect,
            truncate: self.truncate,
            chunk_size: self.chunk_size,
            sector_size: self.sector_size,
        }
    }
}

/// What the command line asks for: the extended help, or a run.
#[derive(Debug)]
pub enum Invocation {
    Help,
    Run(Config),
}

/// What parsing a command line gives, as values: the help, a configuration,
/// an error message, or an overflowing size (refused).
pub enum CliSpec {
    Help,
    Run(ConfigView),
    Fails(Seq<char>),
    Overflows,
}

/// The configuration before any argument is read.
pub open spec fn initial_config() -> ConfigView {
    ConfigView {
        source: LocationView::Void,
        destination: LocationView::Void,
        inspect: false,
        truncate: false,
        chunk_size: DEFAULT_CHUNK,
        sector_size: None,
    }
}

/// Sector sizes accepted: 512, 1024, 2048 and 4096 bytes.
pub open spec fn is_sector_size(b: u64) -> bool {
    b == 512 || b == 1024 || b == 2048 || b == 4096
}

/// The outcome of parsing `args` from index `i` on, with configuration `c`
/// gathered so far.
pub open spec fn parse_args(args: Seq<Seq<char>>, i: nat, c: ConfigView, platform: Platform) -> CliSpec
    decreases args.len() - i,
{
    if i >= args.len() {
        if c.source is Void {
            CliSpec::Fails("--source is required"@)
        } else if !c.inspect && c.destination is Void {
            CliSpec::Fails("--destination is requied unless --inspect"@)
        } else {
            CliSpec::Run(c)
        }
    } else {
        let a = args[i as int];
        let v = args[i + 1int];
        if a == "--source"@ || a == "-s"@ {
            if i + 1 >= args.len() {
                CliSpec::Fails(missing_message("source"@))
            } else {
                parse_args(args, i + 2, ConfigView { source: location_of(v, platform), ..c }, platform)
            }
        } else if a == "--destination"@ || a == "-d"@ {
            if i + 1 >= args.len() {
                CliSpec::Fails(missing_message("destination"@))
            } else {
                parse_args(args, i + 2, ConfigView { destination: location_of(v, platform), ..c }, platform)
            }
        } else if a == "--inspect"@ || a == "-i"@ {
            parse_args(args, i + 1, ConfigView { inspect: true, ..c }, platform)
        } else if a == "--truncate"@ || a == "-t"@ {
            parse_args(args, i + 1, ConfigView { truncate: true, ..c }, platform)
        } else if a == "--chunk-size"@ {
            if i + 1 >= args.len() {
                CliSpec::Fails(missing_message("chunk-size"@))
            } else {
                match size_spec("chunk size"@, v) {
                    SizeSpec::Bytes(b) => parse_args(args, i + 2, ConfigView { chunk_size: b, ..c }, platform),
                    SizeSpec::Fails(m) => CliSpec::Fails(m),
                    SizeSpec::Overflows => CliSpec::Overflows,
                }
            }
        } else if a == "--sector-size"@ {
            if i + 1 >= args.len() {
                CliSpec::Fails(missing_message("sector-size"@))
            } else {
                match size_spec("sector size"@, v) {
                    SizeSpec::Bytes(b) => if is_sector_size(b) {
                        parse_args(args, i + 2, ConfigView { sector_size: Some(b as u16), ..c }, platform)
                    } else {
                        CliSpec::Fails(invalid_message("sector size"@, v))
                    },
                    SizeSpec::Fails(m) => CliSpec::Fails(m),
                    SizeSpec::Overflows => CliSpec::Overflows,
                }
            }
        } else if a == "--help"@ || a == "-h"@ {
            CliSpec::Help
        } else {
            CliSpec::Fails(unknown_arg_message(a))
        }
    }
}

/// The option names of the command line, told apart by their length and
/// their first letter.
proof fn lemma_option_names()
    ensures
        "--source"@.len() == 8 && "--source"@[2] == 's',
        "-s"@.len() == 2 && "-s"@[1] == 's',
        "--destination"@.len() == 13 && "--destination"@[2] == 'd',
        "-d"@.len() == 2 && "-d"@[1] == 'd',
        "--inspect"@.len() == 9 && "--inspect"@[2] == 'i',
        "-i"@.len() == 2 && "-i"@[1] == 'i',
        "--truncate"@.len() == 10 && "--truncate"@[2] == 't',
        "-t"@.len() == 2 && "-t"@[1] == 't',
        "--chunk-size"@.len() == 12 && "--chunk-size"@[2] == 'c',
        "--sector-size"@.len() == 13 && "--sector-size"@[2] == 's',
        "--help"@.len() == 6 && "--help"@[2] == 'h',
        "-h"@.len() == 2 && "-h"@[1] == 'h',
{
    reveal_strlit("--source");
    reveal_strlit("-s");
    reveal_strlit("--destination");
    reveal_strlit("-d");
    reveal_strlit("--inspect");
    reveal_strlit("-i");
    reveal_strlit("--truncate");
    reveal_strlit("-t");
    reveal_strlit("--chunk-size");
    reveal_strlit("--sector-size");
    reveal_strlit("--help");
    reveal_strlit("-h");
}

/// Parsing from index `i` on looks only at the arguments from `i` on: two
/// command lines of the same length that agree there parse alike from there.
pub proof fn lemma_parse_looks_ahead_only(
    a1: Seq<Seq<char>>,
    a2: Seq<Seq<char>>,
    i: nat,
    c: ConfigView,
    platform: Platform,
)
    requires
        a1.len() == a2.len(),
        forall|k: int| i <= k < a1.len() ==> a1[k] == a2[k],
    ensures
        parse_args(a1, i, c, platform) == parse_args(a2, i, c, platform),
    decreases a1.len() - i,
{
    if i < a1.len() {
        let a = a1[i as int];
        assert(a2[i as int] == a);
        if i + 1 < a1.len() {
            assert(a2[i + 1int] == a1[i + 1int]);
            let v = a1[i + 1int];
            if a == "--source"@ || a == "-s"@ {
                lemma_parse_looks_ahead_only(a1, a2, i + 2, ConfigView { source: location_of(v, platform), ..c }, platform);
            } else if a == "--destination"@ || a == "-d"@ {
                lemma_parse_looks_ahead_only(
                    a1,
                    a2,
                    i + 2,
                    ConfigView { destination: location_of(v, platform), ..c },
                    platform,
                );
            } else if a == "--chunk-size"@ {
                if let SizeSpec::Bytes(b) = size_spec("chunk size"@, v) {
                    lemma_parse_looks_ahead_only(a1, a2, i + 2, ConfigView { chunk_size: b, ..c }, platform);
                }
            } else if a == "--sector-size"@ {
                if let SizeSpec::Bytes(b) = size_spec("sector size"@, v) {
                    lemma_parse_looks_ahead_only(
                        a1,
                        a2,
                        i + 2,
                        ConfigView { sector_size: Some(b as u16), ..c },
                        platform,
                    );
                }
            }
        }
        if a == "--inspect"@ || a == "-i"@ {
            lemma_parse_looks_ahead_only(a1, a2, i + 1, ConfigView { inspect: true, ..c }, platform);
        } else if a == "--truncate"@ || a == "-t"@ {
            lemma_parse_looks_ahead_only(a1, a2, i + 1, ConfigView { truncate: true, ..c }, platform);
        }
    }
}

/// What each option does to the configuration: "--source"/"-s" and
/// "--destination"/"-d" take the next argument as a location and consume
/// two arguments; "--inspect"/"-i" and "--truncate"/"-t" switch their flag
/// on and consume one; "--help"/"-h" asks for the help; a "--chunk-size"
/// followed by a valid size sets the chunk size and consumes two.
pub proof fn lemma_option_steps(args: Seq<Seq<char>>, i: nat, c: ConfigView, platform: Platform)
    requires
        i < args.len(),
    ensures
        (args[i as int] == "--source"@ || args[i as int] == "-s"@) && i + 1 < args.len() ==> parse_args(
            args,
            i,
            c,
            platform,
        ) == parse_args(args, i + 2, ConfigView { source: location_of(args[i + 1int], platform), ..c }, platform),
        (args[i as int] == "--destination"@ || args[i as int] == "-d"@) && i + 1 < args.len() ==> parse_args(
            args,
            i,
            c,
            platform,
        ) == parse_args(args, i + 2, ConfigView { destination: location_of(args[i + 1int], platform), ..c }, platform),
        args[i as int] == "--inspect"@ || args[i as int] == "-i"@ ==> parse_args(args, i, c, platform)
            == parse_args(args, i + 1, ConfigView { inspect: true, ..c }, platform),
        args[i as int] == "--truncate"@ || args[i as int] == "-t"@ ==> parse_args(args, i, c, platform)
            == parse_args(args, i + 1, ConfigView { truncate: true, ..c }, platform),
        args[i as int] == "--help"@ || args[i as int] == "-h"@ ==> parse_args(args, i, c, platform) == CliSpec::Help,
        args[i as int] == "--chunk-size"@ && i + 1 < args.len() && size_spec("chunk size"@, args[i + 1int]) is Bytes
            ==> parse_args(args, i, c, platform) == parse_args(
            args,
            i + 2,
            ConfigView { chunk_size: size_spec("chunk size"@, args[i + 1int])->Bytes_0, ..c },
            platform,
        ),
{
    lemma_option_names();
}

/// Each long option and its short form are interchangeable anywhere on a
/// command line: "--source" and "-s", "--destination" and "-d",
/// "--inspect" and "-i", "--truncate" and "-t", "--help" and "-h".
pub proof fn lemma_long_and_short_forms(args: Seq<Seq<char>>, i: nat, c: ConfigView, platform: Platform)
    requires
        i < args.len(),
    ensures
        args[i as int] == "--source"@ ==> parse_args(args, i, c, platform) == parse_args(
            args.update(i as int, "-s"@),
            i,
            c,
            platform,
        ),
        args[i as int] == "--destination"@ ==> parse_args(args, i, c, platform) == parse_args(
            args.update(i as int, "-d"@),
            i,
            c,
            platform,
        ),
        args[i as int] == "--inspect"@ ==> parse_args(args, i, c, platform) == parse_args(
            args.update(i as int, "-i"@),
            i,
            c,
            platform,
        ),
        args[i as int] == "--truncate"@ ==> parse_args(args, i, c, platform) == parse_args(
            args.update(i as int, "-t"@),
            i,
            c,
            platform,
        ),
        args[i as int] == "--help"@ ==> parse_args(args, i, c, platform) == parse_args(
            args.update(i as int, "-h"@),
            i,
            c,
            platform,
        ),
{
    let pairs = seq![("--source"@, "-s"@), ("--destination"@, "-d"@), ("--inspect"@, "-i"@), ("--truncate"@, "-t"@), ("--help"@, "-h"@)];
    assert forall|p: int| 0 <= p < pairs.len() && args[i as int] == pairs[p].0 implies parse_args(args, i, c, platform)
        == parse_args(args.update(i as int, pairs[p].1), i, c, platform) by {
        let b = args.update(i as int, pairs[p].1);
        lemma_option_names();
        assert(b[i as int] == pairs[p].1);
        lemma_option_steps(args, i, c, platform);
        lemma_option_steps(b, i, c, platform);
        if i + 1 < args.len() {
            assert(b[i + 1int] == args[i + 1int]);
            lemma_parse_looks_ahead_only(args, b, i + 2, ConfigView { source: location_of(args[i + 1int], platform), ..c }, platform);
            lemma_parse_looks_ahead_only(
                args,
                b,
                i + 2,
                ConfigView { destination: location_of(args[i + 1int], platform), ..c },
                platform,
            );
        }
        lemma_parse_looks_ahead_only(args, b, i + 1, ConfigView { inspect: true, ..c }, platform);
        lemma_parse_looks_ahead_only(args, b, i + 1, ConfigView { truncate: true, ..c }, platform);
    }
    assert(pairs[0].0 == "--source"@ && pairs[0].1 == "-s"@);
    assert(pairs[1].0 == "--destination"@ && pairs[1].1 == "-d"@);
    assert(pairs[2].0 == "--inspect"@ && pairs[2].1 == "-i"@);
    assert(pairs[3].0 == "--truncate"@ && pairs[3].1 == "-t"@);
    assert(pairs[4].0 == "--help"@ && pairs[4].1 == "-h"@);
}

/// The arguments as character sequences.
pub open spec fn arg_views(args: Seq<String>) -> Seq<Seq<char>> {
    args.map_values(|a: String| a@)
}

/// The outcome of parsing a whole command line (program name excluded).
pub open spec fn cli_spec(args: Seq<String>, platform: Platform) -> CliSpec {
    parse_args(arg_views(args), 0, initial_config(), platform)
}

/// Whether a parsing outcome agrees with its specification.
pub open spec fn cli_outcome(r: Option<Result<Invocation, CliError>>, s: CliSpec) -> bool {
    match r {
        Some(Ok(Invocation::Help)) => s == CliSpec::Help,
        Some(Ok(Invocation::Run(c))) => s == CliSpec::Run(c@),
        Some(Err(e)) => s == CliSpec::Fails(e.message@),
        None => s == CliSpec::Overflows,
    }
}

impl Config {
    /// Parse a size such as "512", "32M" or "1GiB": white space is trimmed,
    /// the leading digits give the number and the rest its unit, compared in
    /// upper case; the number of bytes must be a power of two.
    pub fn parse_size_with_unit(name: &str, value: &str) -> (r: Result<u64, CliError>)
        requires
            !(size_spec(name@, value@) is Overflows),
        ensures
            size_outcome(Some(r), size_spec(name@, value@)),
    {
        let (digits, unit) = split_size(value);
        match size_from_parts(name, digits, unit.as_str()) {
            Some(r) => r,
            None => {
                proof {
                    assert(false);
                }
                Err(invalid(name, value))
            },
        }
    }

    /// Parse a size (see `parse_size_with_unit`), or `None` when the number
    /// times its unit does not fit in 64 bits.
    pub fn checked_parse_size(name: &str, value: &str) -> (r: Option<Result<u64, CliError>>)
        ensures
            size_outcome(r, size_spec(name@, value@)),
    {
        let (digits, unit) = split_size(value);
        match size_from_parts(name, digits, unit.as_str()) {
            None => None,
            Some(_) => Some(Self::parse_size_with_unit(name, value)),
        }
    }
    /// Parse a command line (program name excluded) into an invocation; see
    /// `parse_args`. `None` when a size overflows 64 bits.
    fn parse_cli_core(args: &Vec<String>, platform: Platform) -> (r: Option<Result<Invocation, CliError>>)
        ensures
            cli_outcome(r, cli_spec(args@, platform)),
    {
        let ghost av = arg_views(args@);
        let n = args.len();
        let mut source = Location::Void;
        let mut destination = Location::Void;
        let mut inspect = false;
        let mut truncate = false;
        let mut chunk: u64 = DEFAULT_CHUNK;
        let mut sector: Option<u16> = None;
        let mut i: usize = 0;
        while i < n
            invariant
                n == args@.len(),
                av == arg_views(args@),
                av.len() == n,
                i <= n,
                cli_spec(args@, platform) == parse_args(
                    av,
                    i as nat,
                    ConfigView {
                        source: source@,
                        destination: destination@,
                        inspect,
                        truncate,
                        chunk_size: chunk,
                        sector_size: sector,
                    },
                    platform,
                ),
            decreases n - i,
        {
            let arg = args[i].as_str();
            proof {
                assert(av[i as int] == args@[i as int]@);
                if i + 1 < n {
                    assert(av[i + 1] == args@[i + 1]@);
                }
            }
            if str_eq(arg, "--source") || str_eq(arg, "-s") {
                if i + 1 >= n {
                    return Some(Err(missing("source")));
                }
                source = Location::from_str(args[i + 1].clone(), platform);
                i = i + 2;
            } else if str_eq(arg, "--destination") || str_eq(arg, "-d") {
                if i + 1 >= n {
                    return Some(Err(missing("destination")));
                }
                destination = Location::from_str(args[i + 1].clone(), platform);
                i = i + 2;
            } else if str_eq(arg, "--inspect") || str_eq(arg, "-i") {
                inspect = true;
                i = i + 1;
            } else if str_eq(arg, "--truncate") || str_eq(arg, "-t") {
                truncate = true;
                i = i + 1;
            } else if str_eq(arg, "--chunk-size") {
                if i + 1 >= n {
                    return Some(Err(missing("chunk-size")));
                }
                match Self::checked_parse_size("chunk size", args[i + 1].as_str()) {
                    Some(Ok(b)) => {
                        chunk = b;
                    },
                    Some(Err(e)) => {
                        return Some(Err(e));
                    },
                    None => {
                        return None;
                    },
                }
                i = i + 2;
            } else if str_eq(arg, "--sector-size") {
                if i + 1 >= n {
                    return Some(Err(missing("sector-size")));
                }
                let v = args[i + 1].as_str();
                match Self::checked_parse_size("sector size", v) {
                    Some(Ok(b)) => {
                        if b == 512 || b == 1024 || b == 2048 || b == 4096 {
                            sector = Some(b as u16);
                        } else {
                            return Some(Err(invalid("sector size", v)));
                        }
                    },
                    Some(Err(e)) => {
                        return Some(Err(e));
                    },
                    None => {
                        return None;
                    },
                }
                i = i + 2;
            } else if str_eq(arg, "--help") || str_eq(arg, "-h") {
                return Some(Ok(Invocation::Help));
            } else {
                let mut msg = String::from_str("Unknown arg: ");
                msg.append(arg);
                return Some(Err(CliError { message: msg }));
            }
        }
        if matches!(source, Location::Void) {
            return Some(Err(cli_error("--source is required")));
        }
        if !inspect && matches!(destination, Location::Void) {
            return Some(Err(cli_error("--destination is requied unless --inspect")));
        }
        Some(
            Ok(
                Invocation::Run(
                    Config {
                        source,
                        destination,
                        inspect,
                        truncate,
                        chunk_size: chunk,
                        sector_size: sector,
                    },
                ),
            ),
        )
    }

    /// Parse a command line (program name excluded, see `parse_args`) into
    /// the extended help or a configuration: options take their value from
    /// the next argument, a source is required, and so is a destination
    /// unless only inspecting.
    pub fn parse_cli_from_iter(args: &Vec<String>, platform: Platform) -> (r: Result<Invocation, CliError>)
        requires
            !(cli_spec(args@, platform) is Overflows),
        ensures
            cli_outcome(Some(r), cli_spec(args@, platform)),
    {
        match Self::parse_cli_core(args, platform) {
            Some(r) => r,
            None => {
                proof {
                    assert(false);
                }
                Err(cli_error("--source is required"))
            },
        }
    }

    /// Parse a command line (see `parse_cli_from_iter`), or `None` when a
    /// size in it overflows 64 bits.
    pub fn parse_cli_checked(args: &Vec<String>, platform: Platform) -> (r: Option<Result<Invocation, CliError>>)
        ensures
            cli_outcome(r, cli_spec(args@, platform)),
    {
        match Self::parse_cli_core(args, platform) {
            None => None,
            Some(_) => Some(Self::parse_cli_from_iter(args, platform)),
        }
    }
}

/// Every size that parsing accepts is a power of two (hence at least 1).
pub proof fn lemma_sizes_are_powers_of_two(name: Seq<char>, value: Seq<char>)
    ensures
        size_spec(name, value) matches SizeSpec::Bytes(b) ==> is_power_of_two(b as nat) && b >= 1,
{
}

/// The default chunk size, 32 MiB, is a power of two.
pub proof fn lemma_default_chunk_is_power_of_two()
    ensures
        is_power_of_two(DEFAULT_CHUNK as nat),
{
    reveal_with_fuel(is_power_of_two, 27);
}

/// Whether a configuration gathered while parsing keeps its sizes valid:
/// a power-of-two chunk size and a supported sector size, if any.
pub open spec fn sizes_valid(c: ConfigView) -> bool {
    &&& is_power_of_two(c.chunk_size as nat)
    &&& c.sector_size matches Some(s) ==> is_sector_size(s as u64)
}

/// Every configuration that parsing yields has a source, has a destination
/// unless it only inspects, uses a power-of-two chunk size and a supported
/// sector size if any.
pub proof fn lemma_parsed_config_valid(args: Seq<Seq<char>>, i: nat, c: ConfigView, platform: Platform)
    requires
        sizes_valid(c),
    ensures
        parse_args(args, i, c, platform) matches CliSpec::Run(r) ==> {
            &&& !(r.source is Void)
            &&& r.inspect || !(r.destination is Void)
            &&& sizes_valid(r)
        },
    decreases args.len() - i,
{
    if i < args.len() {
        let a = args[i as int];
        let v = args[i + 1int];
        if a == "--source"@ || a == "-s"@ {
            if i + 1 < args.len() {
                lemma_parsed_config_valid(args, i + 2, ConfigView { source: location_of(v, platform), ..c }, platform);
            }
        } else if a == "--destination"@ || a == "-d"@ {
            if i + 1 < args.len() {
                lemma_parsed_config_valid(args, i + 2, ConfigView { destination: location_of(v, platform), ..c }, platform);
            }
        } else if a == "--inspect"@ || a == "-i"@ {
            lemma_parsed_config_valid(args, i + 1, ConfigView { inspect: true, ..c }, platform);
        } else if a == "--truncate"@ || a == "-t"@ {
            lemma_parsed_config_valid(args, i + 1, ConfigView { truncate: true, ..c }, platform);
        } else if a == "--chunk-size"@ {
            if i + 1 < args.len() {
                if let SizeSpec::Bytes(b) = size_spec("chunk size"@, v) {
                    lemma_parsed_config_valid(args, i + 2, ConfigView { chunk_size: b, ..c }, platform);
                }
            }
        } else if a == "--sector-size"@ {
            if i + 1 < args.len() {
                if let SizeSpec::Bytes(b) = size_spec("sector size"@, v) {
                    if is_sector_size(b) {
                        lemma_parsed_config_valid(args, i + 2, ConfigView { sector_size: Some(b as u16), ..c }, platform);
                    }
                }
            }
        }
    }
}

/// A whole command line that parses to a run gives a valid configuration
/// (see `lemma_parsed_config_valid`).
pub proof fn lemma_cli_config_valid(args: Seq<String>, platform: Platform)
    ensures
        cli_spec(args, platform) matches CliSpec::Run(r) ==> {
            &&& !(r.source is Void)
            &&& r.inspect || !(r.destination is Void)
            &&& sizes_valid(r)
        },
{
    lemma_default_chunk_is_power_of_two();
    lemma_parsed_config_valid(arg_views(args), 0, initial_config(), platform);
}

} // verus!
