//! Strings as sequences of characters: building, comparing, formatting.

use vstd::prelude::*;
use vstd::string::*;

use crate::order;

verus! {

/// `String::push`: puts the character at the end.
pub assume_specification[ String::push ](s: &mut String, ch: char)
    ensures
        final(s)@ == old(s)@.push(ch),
;

/// `char::from_u32`: the character with that code, if there is one. The codes that have none
/// are those above 0x10FFFF and the surrogates.
pub assume_specification[ char::from_u32 ](i: u32) -> (r: Option<char>)
    ensures
        r is Some == is_scalar(i),
        r is Some ==> r->0 as u32 == i,
;

/// The code of a character.
pub open spec fn is_scalar(code: u32) -> bool {
    code < 0xD800 || 0xDFFF < code <= 0x10FFFF
}

/// The two strings one after the other.
pub fn joined2(a: &str, b: &str) -> (r: String)
    ensures
        r@ == a@ + b@,
{
    let mut r: String = String::from_str(a);
    r.append(b);
    r
}

/// The three strings one after the other.
pub fn joined3(a: &str, b: &str, c: &str) -> (r: String)
    ensures
        r@ == a@ + b@ + c@,
{
    let mut r: String = String::from_str(a);
    r.append(b);
    r.append(c);
    r
}

/// The five strings one after the other.
pub fn joined5(a: &str, b: &str, c: &str, d: &str, e: &str) -> (r: String)
    ensures
        r@ == a@ + b@ + c@ + d@ + e@,
{
    let mut r: String = String::from_str(a);
    r.append(b);
    r.append(c);
    r.append(d);
    r.append(e);
    r
}

/// The code of a character, with the ASCII capitals made small.
pub open spec fn small(c: char) -> int {
    let code = (c as u32) as int;
    if 0x41 <= code <= 0x5a {
        code + 0x20
    } else {
        code
    }
}

/// The strings differ at most in the case of ASCII letters.
pub open spec fn same_but_case(a: Seq<char>, b: Seq<char>) -> bool {
    a.len() == b.len() && forall|i: int| 0 <= i < a.len() ==> small(#[trigger] a[i]) == small(b[i])
}

fn small_code(c: char) -> (r: u32)
    ensures
        r == small(c),
{
    let code: u32 = c as u32;
    if 0x41 <= code && code <= 0x5a {
        code + 0x20
    } else {
        code
    }
}

/// Whether the strings differ at most in the case of ASCII letters.
pub fn eq_ignore_ascii_case(a: &str, b: &str) -> (r: bool)
    ensures
        r == same_but_case(a@, b@),
{
    let x: Vec<char> = order::chars_of(a);
    let y: Vec<char> = order::chars_of(b);
    if x.len() != y.len() {
        return false;
    }
    let mut i: usize = 0;
    while i < x.len()
        invariant
            i <= x@.len(),
            x@.len() == y@.len(),
            x@ == a@,
            y@ == b@,
            forall|k: int| 0 <= k < i ==> small(#[trigger] x@[k]) == small(y@[k]),
        decreases x@.len() - i,
    {
        if small_code(x[i]) != small_code(y[i]) {
            return false;
        }
        i = i + 1;
    }
    true
}

/// The value of a hexadecimal digit.
pub open spec fn hex_value(c: char) -> Option<int> {
    let code = (c as u32) as int;
    if 0x30 <= code <= 0x39 {
        Some(code - 0x30)
    } else if 0x61 <= code <= 0x66 {
        Some(code - 0x61 + 10)
    } else if 0x41 <= code <= 0x46 {
        Some(code - 0x41 + 10)
    } else {
        None
    }
}

/// The value of a hexadecimal digit.
pub fn hex_digit(c: char) -> (r: Option<u32>)
    ensures
        match r {
            Some(v) => hex_value(c) == Some(v as int) && v < 16,
            None => hex_value(c) is None,
        },
{
    let code: u32 = c as u32;
    if 0x30 <= code && code <= 0x39 {
        Some(code - 0x30)
    } else if 0x61 <= code && code <= 0x66 {
        Some(code - 0x61 + 10)
    } else if 0x41 <= code && code <= 0x46 {
        Some(code - 0x41 + 10)
    } else {
        None
    }
}

/// The characters that Unicode counts as white space.
pub open spec fn is_white(c: char) -> bool {
    let code = (c as u32) as int;
    0x9 <= code <= 0xd || code == 0x20 || code == 0x85 || code == 0xa0 || code == 0x1680 || 0x2000
        <= code <= 0x200a || code == 0x2028 || code == 0x2029 || code == 0x202f || code == 0x205f
        || code == 0x3000
}

fn white(c: char) -> (r: bool)
    ensures
        r == is_white(c),
{
    let code: u32 = c as u32;
    (0x9 <= code && code <= 0xd) || code == 0x20 || code == 0x85 || code == 0xa0 || code == 0x1680
        || (0x2000 <= code && code <= 0x200a) || code == 0x2028 || code == 0x2029 || code == 0x202f
        || code == 0x205f || code == 0x3000
}

/// `s` without the white space in front.
pub open spec fn trim_start(s: Seq<char>) -> Seq<char>
    decreases s.len(),
{
    if s.len() > 0 && is_white(s[0]) {
        trim_start(s.skip(1))
    } else {
        s
    }
}

/// `s` without the white space at the end.
pub open spec fn trim_end(s: Seq<char>) -> Seq<char>
    decreases s.len(),
{
    if s.len() > 0 && is_white(s.last()) {
        trim_end(s.drop_last())
    } else {
        s
    }
}

/// `s` without the white space on either side.
pub open spec fn trimmed(s: Seq<char>) -> Seq<char> {
    trim_end(trim_start(s))
}

/// The string without the white space on either side.
pub fn trim(s: &str) -> (r: &str)
    ensures
        r@ == trimmed(s@),
{
    let v: Vec<char> = order::chars_of(s);
    let mut from: usize = 0;
    assert(v@.skip(0) =~= v@);
    while from < v.len() && white(v[from])
        invariant
            from <= v@.len(),
            v@ == s@,
            trim_start(s@) == trim_start(v@.skip(from as int)),
        decreases v@.len() - from,
    {
        assert(v@.skip(from as int).skip(1) =~= v@.skip(from + 1));
        from = from + 1;
    }
    let ghost front = v@.skip(from as int);
    let mut to: usize = v.len();
    assert(v@.subrange(from as int, to as int) =~= front);
    while to > from && white(v[to - 1])
        invariant
            from <= to <= v@.len(),
            v@ == s@,
            trim_end(front) == trim_end(v@.subrange(from as int, to as int)),
        decreases to,
    {
        assert(v@.subrange(from as int, to as int).drop_last() =~= v@.subrange(
            from as int,
            to - 1,
        ));
        to = to - 1;
    }
    s.substring_char(from, to)
}

/// A string of nothing but white space trims to nothing, and no other does.
pub proof fn blank_text_trims_to_nothing(s: Seq<char>)
    ensures
        trimmed(s).len() == 0 <==> forall|i: int| 0 <= i < s.len() ==> is_white(#[trigger] s[i]),
{
    lemma_trim_start(s);
    lemma_trim_end(trim_start(s));
    let t = trim_start(s);
    if trimmed(s).len() == 0 {
        assert(t.len() == 0) by {
            if t.len() > 0 {
                assert(is_white(t[0]));
            }
        }
    }
    if forall|i: int| 0 <= i < s.len() ==> is_white(#[trigger] s[i]) {
        if t.len() > 0 {
            assert(t[0] == s[s.len() - t.len()]);
        }
    }
}

proof fn lemma_trim_start(s: Seq<char>)
    ensures
        trim_start(s).len() <= s.len(),
        trim_start(s) == s.skip(s.len() - trim_start(s).len()),
        trim_start(s).len() > 0 ==> !is_white(trim_start(s)[0]),
        forall|i: int| 0 <= i < s.len() - trim_start(s).len() ==> is_white(#[trigger] s[i]),
    decreases s.len(),
{
    if s.len() > 0 && is_white(s[0]) {
        let r = s.skip(1);
        lemma_trim_start(r);
        let k = s.len() - trim_start(s).len();
        assert(r.skip(k - 1) =~= s.skip(k));
        assert forall|i: int| 0 <= i < k implies is_white(#[trigger] s[i]) by {
            if i > 0 {
                assert(s[i] == r[i - 1]);
            }
        }
    } else {
        assert(s.skip(0) =~= s);
    }
}

proof fn lemma_trim_end(s: Seq<char>)
    ensures
        trim_end(s).len() == 0 ==> forall|i: int| 0 <= i < s.len() ==> is_white(#[trigger] s[i]),
    decreases s.len(),
{
    if s.len() > 0 && is_white(s.last()) {
        let r = s.drop_last();
        lemma_trim_end(r);
        if trim_end(s).len() == 0 {
            assert forall|i: int| 0 <= i < s.len() implies is_white(#[trigger] s[i]) by {
                if i < r.len() {
                    assert(s[i] == r[i]);
                }
            }
        }
    }
}

/// The strings one after another, with `", "` between two.
pub open spec fn listed(items: Seq<Seq<char>>) -> Seq<char>
    decreases items.len(),
{
    if items.len() == 0 {
        Seq::empty()
    } else if items.len() == 1 {
        items[0]
    } else {
        listed(items.drop_last()) + ", "@ + items.last()
    }
}

/// The strings one after another, with `", "` between two.
pub fn list_strings(items: &Vec<String>) -> (r: String)
    ensures
        r@ == listed(order::views(items@)),
{
    let mut r: String = String::new();
    let mut i: usize = 0;
    let ghost all = order::views(items@);
    assert(all.take(0) =~= Seq::<Seq<char>>::empty());
    while i < items.len()
        invariant
            i <= items@.len(),
            all == order::views(items@),
            r@ == listed(all.take(i as int)),
        decreases items@.len() - i,
    {
        let ghost r0 = r@;
        if i > 0 {
            r.append(", ");
        }
        r.append(items[i].as_str());
        proof {
            lemma_listed(all, i as int);
            if i == 0 {
                assert(r0 =~= Seq::<char>::empty());
                assert(r@ =~= all[0]);
            }
        }
        i = i + 1;
    }
    assert(all.take(i as int) =~= all);
    r
}

/// The strings one after another, with `", "` between two.
pub fn list_strs(items: &Vec<&'static str>) -> (r: String)
    ensures
        r@ == listed(order::views(items@)),
{
    let mut r: String = String::new();
    let mut i: usize = 0;
    let ghost all = order::views(items@);
    assert(all.take(0) =~= Seq::<Seq<char>>::empty());
    while i < items.len()
        invariant
            i <= items@.len(),
            all == order::views(items@),
            r@ == listed(all.take(i as int)),
        decreases items@.len() - i,
    {
        let ghost r0 = r@;
        if i > 0 {
            r.append(", ");
        }
        r.append(items[i]);
        proof {
            lemma_listed(all, i as int);
            if i == 0 {
                assert(r0 =~= Seq::<char>::empty());
                assert(r@ =~= all[0]);
            }
        }
        i = i + 1;
    }
    assert(all.take(i as int) =~= all);
    r
}

proof fn lemma_listed(all: Seq<Seq<char>>, i: int)
    requires
        0 <= i < all.len(),
    ensures
        i == 0 ==> listed(all.take(1)) == all[0],
        i > 0 ==> listed(all.take(i + 1)) == listed(all.take(i)) + ", "@ + all[i],
{
    if i > 0 {
        assert(all.take(i + 1).drop_last() =~= all.take(i));
    }
}

/// The decimal digit of a number below ten.
pub open spec fn digit(d: nat) -> char {
    if d == 0 {
        '0'
    } else if d == 1 {
        '1'
    } else if d == 2 {
        '2'
    } else if d == 3 {
        '3'
    } else if d == 4 {
        '4'
    } else if d == 5 {
        '5'
    } else if d == 6 {
        '6'
    } else if d == 7 {
        '7'
    } else if d == 8 {
        '8'
    } else {
        '9'
    }
}

/// A number in decimal digits.
pub open spec fn digits(n: nat) -> Seq<char>
    decreases n,
{
    if n < 10 {
        seq![digit(n)]
    } else {
        digits(n / 10).push(digit(n % 10))
    }
}

/// A number in decimal digits.
pub fn decimal(n: u64) -> (r: String)
    ensures
        r@ == digits(n as nat),
    decreases n,
{
    let c: char = match n % 10 {
        0 => '0',
        1 => '1',
        2 => '2',
        3 => '3',
        4 => '4',
        5 => '5',
        6 => '6',
        7 => '7',
        8 => '8',
        _ => '9',
    };
    let mut r: String = if n < 10 {
        String::new()
    } else {
        decimal(n / 10)
    };
    r.push(c);
    assert(r@ =~= digits(n as nat));
    r
}

/// The uppercase hexadecimal digit of a number below sixteen.
pub open spec fn upper_digit(d: nat) -> char {
    if d < 10 {
        digit(d)
    } else if d == 10 {
        'A'
    } else if d == 11 {
        'B'
    } else if d == 12 {
        'C'
    } else if d == 13 {
        'D'
    } else if d == 14 {
        'E'
    } else {
        'F'
    }
}

/// A number in uppercase hexadecimal digits, at least so many.
pub open spec fn upper_hex(n: nat, width: nat) -> Seq<char>
    decreases n, width,
{
    if n < 16 && width <= 1 {
        seq![upper_digit(n)]
    } else {
        upper_hex(
            n / 16,
            if width == 0 {
                0
            } else {
                (width - 1) as nat
            },
        ).push(upper_digit(n % 16))
    }
}

/// A number in uppercase hexadecimal digits, at least so many.
pub fn hex_text(n: u32, width: u32) -> (r: String)
    ensures
        r@ == upper_hex(n as nat, width as nat),
    decreases n, width,
{
    let c: char = match n % 16 {
        0 => '0',
        1 => '1',
        2 => '2',
        3 => '3',
        4 => '4',
        5 => '5',
        6 => '6',
        7 => '7',
        8 => '8',
        9 => '9',
        10 => 'A',
        11 => 'B',
        12 => 'C',
        13 => 'D',
        14 => 'E',
        _ => 'F',
    };
    let mut r: String = if n < 16 && width <= 1 {
        String::new()
    } else {
        hex_text(
            n / 16,
            if width == 0 {
                0
            } else {
                width - 1
            },
        )
    };
    r.push(c);
    assert(r@ =~= upper_hex(n as nat, width as nat));
    r
}

/// The string with one character.
pub fn one_char(c: char) -> (r: String)
    ensures
        r@ == seq![c],
{
    let mut r: String = String::new();
    r.push(c);
    assert(r@ =~= seq![c]);
    r
}

/// Two characters count as the same but for their case exactly if they are the same, or one is
/// an ASCII capital and the other its small letter.
pub proof fn case_is_that_of_ascii_letters(a: char, b: char)
    ensures
        small(a) == small(b) <==> {
            ||| a == b
            ||| 'A' <= a <= 'Z' && b as u32 == a as u32 + 32
            ||| 'A' <= b <= 'Z' && a as u32 == b as u32 + 32
        },
{
}

/// White space is what Unicode counts as such: of the ASCII characters the blank and those from
/// the tab to the carriage return.
pub proof fn ascii_white_space(c: char)
    requires
        (c as u32) < 0x80,
    ensures
        is_white(c) <==> c == ' ' || c == '\t' || c == '\n' || c == '\u{b}' || c == '\u{c}' || c
            == '\r',
{
}

/// Trimmed text is the middle of the text: nothing but white space is cut off on either side,
/// and all of it is.
pub proof fn trimmed_text_is_the_middle(s: Seq<char>) -> (ends: (int, int))
    ensures
        0 <= ends.0 <= ends.1 <= s.len(),
        trimmed(s) == s.subrange(ends.0, ends.1),
        forall|i: int| 0 <= i < ends.0 ==> is_white(#[trigger] s[i]),
        forall|i: int| ends.1 <= i < s.len() ==> is_white(#[trigger] s[i]),
        ends.0 < ends.1 ==> !is_white(s[ends.0]) && !is_white(s[ends.1 - 1]),
{
    let t = trim_start(s);
    let u = trim_end(t);
    lemma_trim_start(s);
    lemma_trim_end_middle(t);
    let from = s.len() - t.len();
    let to = from + u.len();
    assert(u =~= s.subrange(from, to));
    assert forall|i: int| to <= i < s.len() implies is_white(#[trigger] s[i]) by {
        assert(s[i] == t[i - from]);
    }
    if from < to {
        assert(u[0] == t[0] && t[0] == s[from]);
        assert(u.last() == s[to - 1]);
    }
    (from, to)
}

proof fn lemma_trim_end_middle(s: Seq<char>)
    ensures
        trim_end(s).len() <= s.len(),
        trim_end(s) == s.take(trim_end(s).len() as int),
        trim_end(s).len() > 0 ==> !is_white(trim_end(s).last()),
        forall|i: int| trim_end(s).len() <= i < s.len() ==> is_white(#[trigger] s[i]),
    decreases s.len(),
{
    if s.len() > 0 && is_white(s.last()) {
        let r = s.drop_last();
        lemma_trim_end_middle(r);
        let k = trim_end(s).len() as int;
        assert(r.take(k) =~= s.take(k));
        assert forall|i: int| k <= i < s.len() implies is_white(#[trigger] s[i]) by {
            if i < r.len() {
                assert(s[i] == r[i]);
            }
        }
    } else {
        assert(s.take(s.len() as int) =~= s);
    }
}

/// The number that decimal digits are read as.
pub open spec fn read_decimal(s: Seq<char>) -> int
    decreases s.len(),
{
    if s.len() == 0 {
        0
    } else {
        10 * read_decimal(s.drop_last()) + (s.last() as u32 - '0' as u32)
    }
}

/// A number in decimal digits is read as that number. It has nothing but digits, and a zero in
/// front only if it is zero.
pub proof fn digits_read_back(n: nat)
    ensures
        read_decimal(digits(n)) == n,
        digits(n).len() > 0,
        forall|i: int| 0 <= i < digits(n).len() ==> '0' <= #[trigger] digits(n)[i] <= '9',
        digits(n)[0] == '0' ==> n == 0,
    decreases n,
{
    reveal_with_fuel(read_decimal, 2);
    if n >= 10 {
        digits_read_back(n / 10);
        let front = digits(n / 10);
        assert(digits(n).drop_last() =~= front);
        assert(digits(n)[0] == front[0]);
    } else {
        assert(digits(n).drop_last() =~= Seq::<char>::empty());
    }
}

/// The number that hexadecimal digits are read as.
pub open spec fn read_hex(s: Seq<char>) -> int
    decreases s.len(),
{
    if s.len() == 0 {
        0
    } else {
        16 * read_hex(s.drop_last()) + hex_value(s.last())->0
    }
}

/// A number in hexadecimal digits is read as that number, and has at least as many digits as
/// were asked for.
pub proof fn hex_digits_read_back(n: nat, width: nat)
    ensures
        read_hex(upper_hex(n, width)) == n,
        upper_hex(n, width).len() >= width,
        upper_hex(n, width).len() >= 1,
        forall|i: int|
            0 <= i < upper_hex(n, width).len() ==> hex_value(
                #[trigger] upper_hex(n, width)[i],
            ) is Some,
    decreases n, width,
{
    reveal_with_fuel(read_hex, 2);
    let all = upper_hex(n, width);
    if n < 16 && width <= 1 {
        assert(all.drop_last() =~= Seq::<char>::empty());
    } else {
        let less: nat = if width == 0 {
            0
        } else {
            (width - 1) as nat
        };
        hex_digits_read_back(n / 16, less);
        let front = upper_hex(n / 16, less);
        assert(all.drop_last() =~= front);
        assert forall|i: int| 0 <= i < all.len() implies hex_value(#[trigger] all[i]) is Some by {
            if i < front.len() {
                assert(all[i] == front[i]);
            }
        }
    }
}

/// The hexadecimal digits are the decimal ones, which stand for themselves, and the letters from
/// A to F, small or not, which stand for ten to fifteen.
pub proof fn hex_digits_stand_for_their_values(c: char)
    ensures
        '0' <= c <= '9' ==> hex_value(c) == Some(c as u32 - '0' as u32),
        'A' <= c <= 'F' ==> hex_value(c) == Some(c as u32 - 'A' as u32 + 10),
        'a' <= c <= 'f' ==> hex_value(c) == Some(c as u32 - 'a' as u32 + 10),
        hex_value(c) is Some ==> '0' <= c <= '9' || 'A' <= c <= 'F' || 'a' <= c <= 'f',
{
}

/// A list of two lists is the two with a comma and a blank between them.
pub proof fn lists_join_with_a_comma(a: Seq<Seq<char>>, b: Seq<Seq<char>>)
    requires
        a.len() > 0,
        b.len() > 0,
    ensures
        listed(a + b) == listed(a) + ", "@ + listed(b),
    decreases b.len(),
{
    let all = a + b;
    let front = b.drop_last();
    assert(all.drop_last() =~= a + front);
    assert(all.last() == b.last());
    if b.len() == 1 {
        assert(a + front =~= a);
        assert(listed(b) == b[0]);
    } else {
        lists_join_with_a_comma(a, front);
        assert(listed(all) =~= listed(a) + ", "@ + listed(b));
    }
}

} // verus!
