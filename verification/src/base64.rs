//! Base64, the form in which a listing carries the contents of a small file.
//!
//! The text is read in groups of four characters of the alphabet `A-Z a-z 0-9 + /`.
//! A group writes a 24-bit number in four 6-bit digits, which is then read as three
//! bytes. Only the last group may be padded with `=`, and the bits that a padded
//! group leaves over must be zero, so that every byte sequence has exactly one
//! text. White space may stand anywhere in the text and is dropped before reading.

use vstd::prelude::*;

verus! {

/// The value of a character as a base64 digit, if it is one.
pub open spec fn sextet(c: char) -> Option<u8> {
    let n = c as int;
    if 'A' as int <= n <= 'Z' as int {
        Some((n - 'A' as int) as u8)
    } else if 'a' as int <= n <= 'z' as int {
        Some((n - 'a' as int + 26) as u8)
    } else if '0' as int <= n <= '9' as int {
        Some((n - '0' as int + 52) as u8)
    } else if c == '+' {
        Some(62u8)
    } else if c == '/' {
        Some(63u8)
    } else {
        None
    }
}

/// Whether a character is white space: the characters that Unicode lists as
/// `White_Space`.
pub open spec fn is_space(c: char) -> bool {
    let n = c as int;
    ||| 0x09 <= n <= 0x0d
    ||| n == 0x20
    ||| n == 0x85
    ||| n == 0xa0
    ||| n == 0x1680
    ||| 0x2000 <= n <= 0x200a
    ||| n == 0x2028
    ||| n == 0x2029
    ||| n == 0x202f
    ||| n == 0x205f
    ||| n == 0x3000
}

/// The text without its white space.
pub open spec fn spaceless(text: Seq<char>) -> Seq<char>
    decreases text.len(),
{
    if text.len() == 0 {
        Seq::<char>::empty()
    } else if is_space(text.last()) {
        spaceless(text.drop_last())
    } else {
        spaceless(text.drop_last()).push(text.last())
    }
}

/// The three bytes of an unpadded group of four characters.
#[verifier::opaque]
pub open spec fn group(c0: char, c1: char, c2: char, c3: char) -> Option<Seq<u8>> {
    match (sextet(c0), sextet(c1), sextet(c2), sextet(c3)) {
        (Some(a), Some(b), Some(c), Some(d)) => {
            let n = a as int * 262144 + b as int * 4096 + c as int * 64 + d as int;
            Some(seq![(n / 65536) as u8, (n / 256 % 256) as u8, (n % 256) as u8])
        },
        _ => None,
    }
}

/// The bytes of the last group of a text: three from a full group, two from a
/// group that ends in `=`, one from a group that ends in `==`.
#[verifier::opaque]
pub open spec fn last_group(c0: char, c1: char, c2: char, c3: char) -> Option<Seq<u8>> {
    if c3 != '=' {
        group(c0, c1, c2, c3)
    } else if c2 != '=' {
        match (sextet(c0), sextet(c1), sextet(c2)) {
            (Some(a), Some(b), Some(c)) => {
                let n = a as int * 4096 + b as int * 64 + c as int;
                if c % 4 == 0 {
                    Some(seq![(n / 1024) as u8, (n / 4 % 256) as u8])
                } else {
                    None
                }
            },
            _ => None,
        }
    } else {
        match (sextet(c0), sextet(c1)) {
            (Some(a), Some(b)) => {
                let n = a as int * 64 + b as int;
                if b % 16 == 0 {
                    Some(seq![(n / 16) as u8])
                } else {
                    None
                }
            },
            _ => None,
        }
    }
}

/// The bytes of a text made of unpadded groups only.
pub open spec fn groups(s: Seq<char>) -> Option<Seq<u8>>
    decreases s.len(),
{
    if s.len() == 0 {
        Some(Seq::<u8>::empty())
    } else if s.len() < 4 {
        None
    } else {
        let n = s.len() as int;
        match (groups(s.take(n - 4)), group(s[n - 4], s[n - 3], s[n - 2], s[n - 1])) {
            (Some(front), Some(back)) => Some(front + back),
            _ => None,
        }
    }
}

/// The bytes that a text without white space stands for, if it is base64.
pub open spec fn decoded(s: Seq<char>) -> Option<Seq<u8>> {
    if s.len() == 0 {
        Some(Seq::<u8>::empty())
    } else if s.len() % 4 != 0 {
        None
    } else {
        let n = s.len() as int;
        match (groups(s.take(n - 4)), last_group(s[n - 4], s[n - 3], s[n - 2], s[n - 1])) {
            (Some(front), Some(back)) => Some(front + back),
            _ => None,
        }
    }
}

/// The bytes that inline content stands for: its white space dropped, the rest
/// read as base64.
pub open spec fn inline_bytes(text: Seq<char>) -> Option<Seq<u8>> {
    decoded(spaceless(text))
}

/// The character that writes a base64 digit.
pub open spec fn digit_char(d: int) -> char {
    if d < 26 {
        ('A' as int + d) as char
    } else if d < 52 {
        ('a' as int + d - 26) as char
    } else if d < 62 {
        ('0' as int + d - 52) as char
    } else if d == 62 {
        '+'
    } else {
        '/'
    }
}

/// The group of four characters that writes three bytes.
#[verifier::opaque]
pub open spec fn written_group(x: u8, y: u8, z: u8) -> Seq<char> {
    let n = x as int * 65536 + y as int * 256 + z as int;
    seq![
        digit_char(n / 262144),
        digit_char(n / 4096 % 64),
        digit_char(n / 64 % 64),
        digit_char(n % 64),
    ]
}

/// The padded group that writes two bytes at the end of a text.
#[verifier::opaque]
pub open spec fn written_pair(x: u8, y: u8) -> Seq<char> {
    let n = x as int * 1024 + y as int * 4;
    seq![digit_char(n / 4096), digit_char(n / 64 % 64), digit_char(n % 64), '=']
}

/// The padded group that writes one byte at the end of a text.
#[verifier::opaque]
pub open spec fn written_single(x: u8) -> Seq<char> {
    let n = x as int * 16;
    seq![digit_char(n / 64), digit_char(n % 64), '=', '=']
}

/// The text that writes bytes whose number is a multiple of three.
pub open spec fn written_groups(bytes: Seq<u8>) -> Seq<char>
    decreases bytes.len(),
{
    if bytes.len() < 3 {
        Seq::<char>::empty()
    } else {
        let n = bytes.len() as int;
        written_groups(bytes.take(n - 3)) + written_group(bytes[n - 3], bytes[n - 2], bytes[n - 1])
    }
}

/// The base64 text of a sequence of bytes.
pub open spec fn encoded(bytes: Seq<u8>) -> Seq<char> {
    let n = bytes.len() as int;
    let over = n % 3;
    written_groups(bytes.take(n - over)) + if over == 0 {
        Seq::<char>::empty()
    } else if over == 1 {
        written_single(bytes[n - 1])
    } else {
        written_pair(bytes[n - 2], bytes[n - 1])
    }
}

proof fn lemma_digit_char(d: int)
    requires
        0 <= d < 64,
    ensures
        sextet(digit_char(d)) == Some(d as u8),
        digit_char(d) != '=',
{
}

/// Three bytes, read as four digits of six bits, read as three bytes again.
proof fn lemma_three_bytes(x: u32, y: u32, z: u32)
    requires
        x < 256,
        y < 256,
        z < 256,
    ensures
        ({
            let n = (x * 65536 + y * 256 + z) as u32;
            let m = ((n / 262144) * 262144 + (n / 4096 % 64) * 4096 + (n / 64 % 64) * 64 + n
                % 64) as u32;
            &&& n / 262144 < 64
            &&& m == n
            &&& m / 65536 == x
            &&& m / 256 % 256 == y
            &&& m % 256 == z
        }),
{
    assert(x < 256 && y < 256 && z < 256 ==> ({
        let n = (x * 65536 + y * 256 + z) as u32;
        let m = ((n / 262144) * 262144 + (n / 4096 % 64) * 4096 + (n / 64 % 64) * 64 + n
            % 64) as u32;
        &&& n / 262144 < 64
        &&& m == n
        &&& m / 65536 == x
        &&& m / 256 % 256 == y
        &&& m % 256 == z
    })) by (bit_vector);
}

/// Two bytes, read as three digits of six bits, read as two bytes again.
proof fn lemma_two_bytes(x: u32, y: u32)
    requires
        x < 256,
        y < 256,
    ensures
        ({
            let n = (x * 1024 + y * 4) as u32;
            let m = ((n / 4096) * 4096 + (n / 64 % 64) * 64 + n % 64) as u32;
            &&& n / 4096 < 64
            &&& m == n
            &&& n % 64 % 4 == 0
            &&& m / 1024 == x
            &&& m / 4 % 256 == y
        }),
{
    assert(x < 256 && y < 256 ==> ({
        let n = (x * 1024 + y * 4) as u32;
        let m = ((n / 4096) * 4096 + (n / 64 % 64) * 64 + n % 64) as u32;
        &&& n / 4096 < 64
        &&& m == n
        &&& n % 64 % 4 == 0
        &&& m / 1024 == x
        &&& m / 4 % 256 == y
    })) by (bit_vector);
}

/// One byte, read as two digits of six bits, read as one byte again.
proof fn lemma_one_byte(x: u32)
    requires
        x < 256,
    ensures
        ({
            let n = (x * 16) as u32;
            let m = ((n / 64) * 64 + n % 64) as u32;
            &&& n / 64 < 64
            &&& m == n
            &&& n % 64 % 16 == 0
            &&& m / 16 == x
        }),
{
    assert(x < 256 ==> ({
        let n = (x * 16) as u32;
        let m = ((n / 64) * 64 + n % 64) as u32;
        &&& n / 64 < 64
        &&& m == n
        &&& n % 64 % 16 == 0
        &&& m / 16 == x
    })) by (bit_vector);
}

proof fn lemma_group_written(x: u8, y: u8, z: u8)
    ensures
        ({
            let q = written_group(x, y, z);
            q.len() == 4 && group(q[0], q[1], q[2], q[3]) == Some(seq![x, y, z]) && q[3] != '='
        }),
{
    reveal(group);
    reveal(written_group);
    let n = x as int * 65536 + y as int * 256 + z as int;
    lemma_three_bytes(x as u32, y as u32, z as u32);
    lemma_digit_char(n / 262144);
    lemma_digit_char(n / 4096 % 64);
    lemma_digit_char(n / 64 % 64);
    lemma_digit_char(n % 64);
    let q = written_group(x, y, z);
    assert(group(q[0], q[1], q[2], q[3])->0 =~= seq![x, y, z]);
}

proof fn lemma_pair_written(x: u8, y: u8)
    ensures
        ({
            let q = written_pair(x, y);
            q.len() == 4 && last_group(q[0], q[1], q[2], q[3]) == Some(seq![x, y])
        }),
{
    reveal(last_group);
    reveal(written_pair);
    let n = x as int * 1024 + y as int * 4;
    lemma_two_bytes(x as u32, y as u32);
    lemma_digit_char(n / 4096);
    lemma_digit_char(n / 64 % 64);
    lemma_digit_char(n % 64);
    let q = written_pair(x, y);
    assert(last_group(q[0], q[1], q[2], q[3])->0 =~= seq![x, y]);
}

proof fn lemma_single_written(x: u8)
    ensures
        ({
            let q = written_single(x);
            q.len() == 4 && last_group(q[0], q[1], q[2], q[3]) == Some(seq![x])
        }),
{
    reveal(last_group);
    reveal(written_single);
    let n = x as int * 16;
    lemma_one_byte(x as u32);
    lemma_digit_char(n / 64);
    lemma_digit_char(n % 64);
    let q = written_single(x);
    assert(last_group(q[0], q[1], q[2], q[3])->0 =~= seq![x]);
}

proof fn lemma_groups_written(bytes: Seq<u8>)
    requires
        bytes.len() % 3 == 0,
    ensures
        written_groups(bytes).len() == bytes.len() / 3 * 4,
        groups(written_groups(bytes)) == Some(bytes),
    decreases bytes.len(),
{
    if bytes.len() >= 3 {
        let n = bytes.len() as int;
        let front = bytes.take(n - 3);
        lemma_groups_written(front);
        lemma_group_written(bytes[n - 3], bytes[n - 2], bytes[n - 1]);
        let text = written_groups(bytes);
        let shorter = written_groups(front);
        let k = text.len() as int;
        assert(text.take(k - 4) == shorter);
        assert(front + seq![bytes[n - 3], bytes[n - 2], bytes[n - 1]] == bytes);
    } else {
        assert(bytes == Seq::<u8>::empty());
    }
}

/// Reading undoes writing.
///
/// The base64 text of any bytes is read back as those bytes.
pub proof fn law_decoding_inverts_encoding(bytes: Seq<u8>)
    ensures
        decoded(encoded(bytes)) == Some(bytes),
{
    let n = bytes.len() as int;
    let over = n % 3;
    let body = bytes.take(n - over);
    lemma_groups_written(body);
    let front = written_groups(body);
    let text = encoded(bytes);
    if over == 0 {
        assert(body == bytes);
        assert(text == front);
        if n > 0 {
            let shorter = bytes.take(n - 3);
            lemma_groups_written(shorter);
            lemma_group_written(bytes[n - 3], bytes[n - 2], bytes[n - 1]);
            let k = text.len() as int;
            assert(text.take(k - 4) == written_groups(shorter));
            reveal(last_group);
            assert(shorter + seq![bytes[n - 3], bytes[n - 2], bytes[n - 1]] == bytes);
        }
    } else {
        let k = text.len() as int;
        if over == 1 {
            lemma_single_written(bytes[n - 1]);
            assert(text.take(k - 4) == front);
            assert(body + seq![bytes[n - 1]] == bytes);
        } else {
            lemma_pair_written(bytes[n - 2], bytes[n - 1]);
            assert(text.take(k - 4) == front);
            assert(body + seq![bytes[n - 2], bytes[n - 1]] == bytes);
        }
    }
}

proof fn lemma_char_digit(c: char)
    ensures
        sextet(c) matches Some(d) ==> d < 64 && digit_char(d as int) == c,
{
}

/// Four digits of six bits, read as three bytes, read as four digits again.
proof fn lemma_four_digits(a: u32, b: u32, c: u32, d: u32)
    requires
        a < 64,
        b < 64,
        c < 64,
        d < 64,
    ensures
        ({
            let n = (a * 262144 + b * 4096 + c * 64 + d) as u32;
            let m = ((n / 65536) * 65536 + (n / 256 % 256) * 256 + n % 256) as u32;
            &&& n / 65536 < 256
            &&& m == n
            &&& m / 262144 == a
            &&& m / 4096 % 64 == b
            &&& m / 64 % 64 == c
            &&& m % 64 == d
        }),
{
    assert(a < 64 && b < 64 && c < 64 && d < 64 ==> ({
        let n = (a * 262144 + b * 4096 + c * 64 + d) as u32;
        let m = ((n / 65536) * 65536 + (n / 256 % 256) * 256 + n % 256) as u32;
        &&& n / 65536 < 256
        &&& m == n
        &&& m / 262144 == a
        &&& m / 4096 % 64 == b
        &&& m / 64 % 64 == c
        &&& m % 64 == d
    })) by (bit_vector);
}

/// Three digits of six bits without leftover bits, read as two bytes, read as
/// three digits again.
proof fn lemma_three_digits(a: u32, b: u32, c: u32)
    requires
        a < 64,
        b < 64,
        c < 64,
        c % 4 == 0,
    ensures
        ({
            let n = (a * 4096 + b * 64 + c) as u32;
            let m = ((n / 1024) * 1024 + (n / 4 % 256) * 4) as u32;
            &&& n / 1024 < 256
            &&& m == n
            &&& m / 4096 == a
            &&& m / 64 % 64 == b
            &&& m % 64 == c
        }),
{
    assert(a < 64 && b < 64 && c < 64 && c % 4 == 0 ==> ({
        let n = (a * 4096 + b * 64 + c) as u32;
        let m = ((n / 1024) * 1024 + (n / 4 % 256) * 4) as u32;
        &&& n / 1024 < 256
        &&& m == n
        &&& m / 4096 == a
        &&& m / 64 % 64 == b
        &&& m % 64 == c
    })) by (bit_vector);
}

/// Two digits of six bits without leftover bits, read as one byte, read as two
/// digits again.
proof fn lemma_two_digits(a: u32, b: u32)
    requires
        a < 64,
        b < 64,
        b % 16 == 0,
    ensures
        ({
            let n = (a * 64 + b) as u32;
            let m = ((n / 16) * 16) as u32;
            &&& n / 16 < 256
            &&& m == n
            &&& m / 64 == a
            &&& m % 64 == b
        }),
{
    assert(a < 64 && b < 64 && b % 16 == 0 ==> ({
        let n = (a * 64 + b) as u32;
        let m = ((n / 16) * 16) as u32;
        &&& n / 16 < 256
        &&& m == n
        &&& m / 64 == a
        &&& m % 64 == b
    })) by (bit_vector);
}

proof fn lemma_group_read(c0: char, c1: char, c2: char, c3: char)
    ensures
        group(c0, c1, c2, c3) matches Some(bytes) ==> bytes.len() == 3 && written_group(
            bytes[0],
            bytes[1],
            bytes[2],
        ) == seq![c0, c1, c2, c3],
{
    reveal(group);
    reveal(written_group);
    lemma_char_digit(c0);
    lemma_char_digit(c1);
    lemma_char_digit(c2);
    lemma_char_digit(c3);
    if let Some(bytes) = group(c0, c1, c2, c3) {
        let a = sextet(c0)->0;
        let b = sextet(c1)->0;
        let c = sextet(c2)->0;
        let d = sextet(c3)->0;
        lemma_four_digits(a as u32, b as u32, c as u32, d as u32);
        assert(written_group(bytes[0], bytes[1], bytes[2]) =~= seq![c0, c1, c2, c3]);
    }
}

proof fn lemma_last_group_read(c0: char, c1: char, c2: char, c3: char)
    ensures
        last_group(c0, c1, c2, c3) matches Some(bytes) ==> seq![c0, c1, c2, c3] == if bytes.len()
            == 3 {
            written_group(bytes[0], bytes[1], bytes[2])
        } else if bytes.len() == 2 {
            written_pair(bytes[0], bytes[1])
        } else {
            written_single(bytes[0])
        },
        last_group(c0, c1, c2, c3) matches Some(bytes) ==> 1 <= bytes.len() <= 3,
{
    reveal(last_group);
    reveal(written_pair);
    reveal(written_single);
    lemma_group_read(c0, c1, c2, c3);
    lemma_char_digit(c0);
    lemma_char_digit(c1);
    lemma_char_digit(c2);
    if let Some(bytes) = last_group(c0, c1, c2, c3) {
        if c3 != '=' {
        } else if c2 != '=' {
            let a = sextet(c0)->0;
            let b = sextet(c1)->0;
            let c = sextet(c2)->0;
            lemma_three_digits(a as u32, b as u32, c as u32);
            assert(written_pair(bytes[0], bytes[1]) =~= seq![c0, c1, c2, c3]);
        } else {
            let a = sextet(c0)->0;
            let b = sextet(c1)->0;
            lemma_two_digits(a as u32, b as u32);
            assert(written_single(bytes[0]) =~= seq![c0, c1, c2, c3]);
        }
    }
}

proof fn lemma_groups_read(s: Seq<char>)
    ensures
        groups(s) matches Some(bytes) ==> bytes.len() % 3 == 0 && written_groups(bytes) == s,
    decreases s.len(),
{
    if s.len() >= 4 {
        let n = s.len() as int;
        let front = s.take(n - 4);
        lemma_groups_read(front);
        lemma_group_read(s[n - 4], s[n - 3], s[n - 2], s[n - 1]);
        if let Some(bytes) = groups(s) {
            let head = groups(front)->0;
            let tail = group(s[n - 4], s[n - 3], s[n - 2], s[n - 1])->0;
            let last = seq![s[n - 4], s[n - 3], s[n - 2], s[n - 1]];
            assert(bytes == head + tail);
            let k = bytes.len() as int;
            assert(k == head.len() + 3);
            assert(bytes.take(k - 3) == head);
            assert(bytes[k - 3] == tail[0] && bytes[k - 2] == tail[1] && bytes[k - 1] == tail[2]);
            assert(written_groups(bytes) == written_groups(head) + last);
            assert(front + last == s);
        }
    } else if s.len() == 0 {
        assert(s == Seq::<char>::empty());
    }
}

/// Writing undoes reading.
///
/// A text that reads as bytes is the base64 text of those bytes: no other text
/// reads as them.
pub proof fn law_encoding_inverts_decoding(text: Seq<char>, bytes: Seq<u8>)
    requires
        decoded(text) == Some(bytes),
    ensures
        encoded(bytes) == text,
{
    if text.len() > 0 {
        let n = text.len() as int;
        let front = text.take(n - 4);
        let last = seq![text[n - 4], text[n - 3], text[n - 2], text[n - 1]];
        lemma_groups_read(front);
        lemma_last_group_read(text[n - 4], text[n - 3], text[n - 2], text[n - 1]);
        let head = groups(front)->0;
        let tail = last_group(text[n - 4], text[n - 3], text[n - 2], text[n - 1])->0;
        assert(bytes == head + tail);
        let k = bytes.len() as int;
        assert(k == head.len() + tail.len());
        assert(front + last == text);
        if tail.len() == 3 {
            assert(k % 3 == 0);
            assert(bytes.take(k - 0) == bytes);
            assert(bytes.take(k - 3) == head);
            assert(bytes[k - 3] == tail[0] && bytes[k - 2] == tail[1] && bytes[k - 1] == tail[2]);
            assert(written_groups(bytes) == written_groups(head) + last);
            assert(encoded(bytes) == written_groups(bytes) + Seq::<char>::empty());
        } else if tail.len() == 2 {
            assert(k % 3 == 2);
            assert(bytes.take(k - 2) == head);
            assert(bytes[k - 2] == tail[0] && bytes[k - 1] == tail[1]);
        } else {
            assert(k % 3 == 1);
            assert(bytes.take(k - 1) == head);
            assert(bytes[k - 1] == tail[0]);
        }
    } else {
        assert(bytes.take(0) == Seq::<u8>::empty());
    }
}

/// Content that is the base64 text of some bytes, with white space anywhere in
/// it, reads as those bytes.
pub proof fn law_content_reads_as_its_source(content: Seq<char>, source: Seq<u8>)
    requires
        spaceless(content) == encoded(source),
    ensures
        inline_bytes(content) == Some(source),
{
    law_decoding_inverts_encoding(source);
}

/// The text without the occurrences of one character.
pub open spec fn without(text: Seq<char>, dropped: char) -> Seq<char>
    decreases text.len(),
{
    if text.len() == 0 {
        Seq::<char>::empty()
    } else if text.last() == dropped {
        without(text.drop_last(), dropped)
    } else {
        without(text.drop_last(), dropped).push(text.last())
    }
}

/// White space counts for nothing.
///
/// Content reads the same with and without the occurrences of a white-space
/// character, wherever in the content they stand.
pub proof fn law_white_space_does_not_count(text: Seq<char>, space: char)
    requires
        is_space(space),
    ensures
        spaceless(without(text, space)) == spaceless(text),
        inline_bytes(without(text, space)) == inline_bytes(text),
    decreases text.len(),
{
    if text.len() > 0 {
        law_white_space_does_not_count(text.drop_last(), space);
        if text.last() != space {
            let kept = without(text.drop_last(), space).push(text.last());
            assert(kept.drop_last() == without(text.drop_last(), space));
        }
    }
}

/// Line breaks count for nothing.
///
/// Content with line breaks in it reads as the same content does without them:
/// the same bytes, or in both cases none.
pub proof fn law_newlines_do_not_count(text: Seq<char>)
    ensures
        inline_bytes(without(text, '\n')) == inline_bytes(text),
{
    law_white_space_does_not_count(text, '\n');
}

/// What one more group adds to a text made of unpadded groups.
proof fn lemma_groups_step(s: Seq<char>, i: int)
    requires
        0 <= i,
        i + 4 <= s.len(),
    ensures
        groups(s.take(i + 4)) == match (
            groups(s.take(i)),
            group(s[i], s[i + 1], s[i + 2], s[i + 3]),
        ) {
            (Some(front), Some(back)) => Some(front + back),
            _ => None,
        },
{
    assert(s.take(i + 4).take(i) == s.take(i));
}

/// Where a prefix made of whole groups is no base64, no prefix of more groups is.
proof fn lemma_groups_fail_onwards(s: Seq<char>, short: int, more: nat)
    requires
        0 <= short,
        short + 4 * more <= s.len(),
        groups(s.take(short)) is None,
    ensures
        groups(s.take(short + 4 * more)) is None,
    decreases more,
{
    if more > 0 {
        lemma_groups_fail_onwards(s, short, (more - 1) as nat);
        lemma_groups_step(s, short + 4 * (more - 1));
    }
}

fn digit(c: char) -> (value: Option<u8>)
    ensures
        value == sextet(c),
        value matches Some(v) ==> v < 64,
{
    let n = c as u32;
    if 'A' as u32 <= n && n <= 'Z' as u32 {
        Some((n - 'A' as u32) as u8)
    } else if 'a' as u32 <= n && n <= 'z' as u32 {
        Some((n - 'a' as u32 + 26) as u8)
    } else if '0' as u32 <= n && n <= '9' as u32 {
        Some((n - '0' as u32 + 52) as u8)
    } else if c == '+' {
        Some(62u8)
    } else if c == '/' {
        Some(63u8)
    } else {
        None
    }
}

fn space(c: char) -> (yes: bool)
    ensures
        yes == is_space(c),
{
    let n = c as u32;
    (0x09 <= n && n <= 0x0d) || n == 0x20 || n == 0x85 || n == 0xa0 || n == 0x1680 || (0x2000 <= n
        && n <= 0x200a) || n == 0x2028 || n == 0x2029 || n == 0x202f || n == 0x205f || n == 0x3000
}

/// Collects the characters of `text` that are not white space.
fn strip(text: &str) -> (kept: Vec<char>)
    ensures
        kept@ == spaceless(text@),
{
    let mut kept: Vec<char> = Vec::new();
    for c in it: text.chars()
        invariant
            it.seq() == text@,
            kept@ == spaceless(text@.take(it.index())),
    {
        assert(text@.take(it.index() + 1).drop_last() == text@.take(it.index()));
        if !space(c) {
            kept.push(c);
        }
    }
    assert(text@.take(text@.len() as int) == text@);
    kept
}

/// Appends the bytes of an unpadded group to `out`, or reports that it is none.
fn push_group(c0: char, c1: char, c2: char, c3: char, out: &mut Vec<u8>) -> (ok: bool)
    ensures
        match group(c0, c1, c2, c3) {
            Some(bytes) => ok && final(out)@ == old(out)@ + bytes,
            None => !ok && final(out)@ == old(out)@,
        },
{
    reveal(group);
    match (digit(c0), digit(c1), digit(c2), digit(c3)) {
        (Some(a), Some(b), Some(c), Some(d)) => {
            let n: u32 = a as u32 * 262144 + b as u32 * 4096 + c as u32 * 64 + d as u32;
            out.push((n / 65536) as u8);
            out.push((n / 256 % 256) as u8);
            out.push((n % 256) as u8);
            assert(final(out)@ == old(out)@ + group(c0, c1, c2, c3)->0);
            true
        },
        _ => false,
    }
}

/// Appends the bytes of the last group of a text to `out`, or reports that it is none.
fn push_last_group(c0: char, c1: char, c2: char, c3: char, out: &mut Vec<u8>) -> (ok: bool)
    ensures
        match last_group(c0, c1, c2, c3) {
            Some(bytes) => ok && final(out)@ == old(out)@ + bytes,
            None => !ok && final(out)@ == old(out)@,
        },
{
    reveal(last_group);
    if c3 != '=' {
        push_group(c0, c1, c2, c3, out)
    } else if c2 != '=' {
        match (digit(c0), digit(c1), digit(c2)) {
            (Some(a), Some(b), Some(c)) => {
                if c % 4 != 0 {
                    return false;
                }
                let n: u32 = a as u32 * 4096 + b as u32 * 64 + c as u32;
                out.push((n / 1024) as u8);
                out.push((n / 4 % 256) as u8);
                assert(final(out)@ == old(out)@ + last_group(c0, c1, c2, c3)->0);
                true
            },
            _ => false,
        }
    } else {
        match (digit(c0), digit(c1)) {
            (Some(a), Some(b)) => {
                if b % 16 != 0 {
                    return false;
                }
                let n: u32 = a as u32 * 64 + b as u32;
                out.push((n / 16) as u8);
                assert(final(out)@ == old(out)@ + last_group(c0, c1, c2, c3)->0);
                true
            },
            _ => false,
        }
    }
}

/// Reads inline content: drops the white space and decodes the rest.
///
/// Returns `None` exactly when what is left is no base64.
pub fn decode(text: &str) -> (bytes: Option<Vec<u8>>)
    ensures
        match bytes {
            Some(b) => inline_bytes(text@) == Some(b@),
            None => inline_bytes(text@) is None,
        },
{
    let chars = strip(text);
    let len = chars.len();
    let mut out: Vec<u8> = Vec::new();
    if len == 0 {
        return Some(out);
    }
    if len % 4 != 0 {
        return None;
    }
    let body = len - 4;
    let mut i: usize = 0;
    let ghost mut left: nat = (body / 4) as nat;
    while i < body
        invariant
            chars@ == spaceless(text@),
            len == chars@.len(),
            len % 4 == 0,
            body == len - 4,
            i + 4 * left == body,
            groups(chars@.take(i as int)) == Some(out@),
        decreases left,
    {
        proof {
            lemma_groups_step(chars@, i as int);
        }
        let ok = push_group(chars[i], chars[i + 1], chars[i + 2], chars[i + 3], &mut out);
        if !ok {
            proof {
                lemma_groups_fail_onwards(chars@, i + 4, (left - 1) as nat);
            }
            return None;
        }
        i = i + 4;
        proof {
            left = (left - 1) as nat;
        }
    }
    let ok = push_last_group(
        chars[body],
        chars[body + 1],
        chars[body + 2],
        chars[body + 3],
        &mut out,
    );
    if ok {
        Some(out)
    } else {
        None
    }
}

} // verus!
