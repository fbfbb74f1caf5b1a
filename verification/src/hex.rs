//! Lowercase hexadecimal text for byte strings.

use vstd::prelude::*;

verus! {

/// The lowercase hex digit for a value below 16.
pub open spec fn hex_digit_of(n: nat) -> char
    recommends
        n < 16,
{
    if n == 0 {
        '0'
    } else if n == 1 {
        '1'
    } else if n == 2 {
        '2'
    } else if n == 3 {
        '3'
    } else if n == 4 {
        '4'
    } else if n == 5 {
        '5'
    } else if n == 6 {
        '6'
    } else if n == 7 {
        '7'
    } else if n == 8 {
        '8'
    } else if n == 9 {
        '9'
    } else if n == 10 {
        'a'
    } else if n == 11 {
        'b'
    } else if n == 12 {
        'c'
    } else if n == 13 {
        'd'
    } else if n == 14 {
        'e'
    } else {
        'f'
    }
}

/// The value of a lowercase hex digit; digits other than `0`-`9` and
/// `a`-`f` count as zero and are ruled out by `is_hex_digit`.
pub open spec fn hex_digit_val(c: char) -> nat {
    if c == '0' {
        0
    } else if c == '1' {
        1
    } else if c == '2' {
        2
    } else if c == '3' {
        3
    } else if c == '4' {
        4
    } else if c == '5' {
        5
    } else if c == '6' {
        6
    } else if c == '7' {
        7
    } else if c == '8' {
        8
    } else if c == '9' {
        9
    } else if c == 'a' {
        10
    } else if c == 'b' {
        11
    } else if c == 'c' {
        12
    } else if c == 'd' {
        13
    } else if c == 'e' {
        14
    } else if c == 'f' {
        15
    } else {
        0
    }
}

pub open spec fn is_hex_digit(c: char) -> bool {
    ('0' <= c && c <= '9') || ('a' <= c && c <= 'f')
}

/// Two lowercase hex digits per byte, high digit first.
pub open spec fn hex_chars_of(b: Seq<u8>) -> Seq<char>
    decreases b,
{
    if b.len() == 0 {
        Seq::empty()
    } else {
        seq![hex_digit_of((b[0] / 16) as nat), hex_digit_of((b[0] % 16) as nat)] + hex_chars_of(
            b.drop_first(),
        )
    }
}

/// Every character is a lowercase hex digit.
pub open spec fn is_hex_seq(s: Seq<char>) -> bool {
    forall|i: int| 0 <= i < s.len() ==> is_hex_digit(#[trigger] s[i])
}

/// The bytes a hex string stands for, two digits per byte.
pub open spec fn hex_bytes_of(s: Seq<char>) -> Seq<u8>
    decreases s.len(),
{
    if s.len() < 2 {
        Seq::empty()
    } else {
        seq![(16 * hex_digit_val(s[0]) + hex_digit_val(s[1])) as u8] + hex_bytes_of(s.skip(2))
    }
}

pub proof fn lemma_hex_digit_round(n: nat)
    requires
        n < 16,
    ensures
        is_hex_digit(hex_digit_of(n)),
        hex_digit_val(hex_digit_of(n)) == n,
{
}

pub proof fn lemma_hex_digit_char_round(c: char)
    requires
        is_hex_digit(c),
    ensures
        hex_digit_val(c) < 16,
        hex_digit_of(hex_digit_val(c)) == c,
{
}

pub proof fn lemma_hex_chars_shape(b: Seq<u8>)
    ensures
        hex_chars_of(b).len() == 2 * b.len(),
        is_hex_seq(hex_chars_of(b)),
    decreases b,
{
    if b.len() > 0 {
        lemma_hex_chars_shape(b.drop_first());
        let pair = seq![
            hex_digit_of((b[0] / 16) as nat),
            hex_digit_of((b[0] % 16) as nat),
        ];
        assert(hex_chars_of(b) == pair + hex_chars_of(b.drop_first()));
        assert forall|i: int| 0 <= i < hex_chars_of(b).len() implies is_hex_digit(
            #[trigger] hex_chars_of(b)[i],
        ) by {
            if i >= 2 {
                assert(hex_chars_of(b)[i] == hex_chars_of(b.drop_first())[i - 2]);
            } else {
                lemma_hex_digit_round((b[0] / 16) as nat);
                lemma_hex_digit_round((b[0] % 16) as nat);
            }
        }
    }
}

/// Rendering bytes as hex and reading the hex back gives the bytes.
pub proof fn lemma_hex_round_trip(b: Seq<u8>)
    ensures
        hex_bytes_of(hex_chars_of(b)) == b,
    decreases b,
{
    if b.len() > 0 {
        lemma_hex_round_trip(b.drop_first());
        let s = hex_chars_of(b);
        lemma_hex_chars_shape(b);
        assert(s.skip(2) =~= hex_chars_of(b.drop_first()));
        lemma_hex_digit_round((b[0] / 16) as nat);
        lemma_hex_digit_round((b[0] % 16) as nat);
        assert(16 * ((b[0] / 16) as nat) + ((b[0] % 16) as nat) == b[0]);
        assert(hex_bytes_of(s) =~= b);
    }
}

/// Reading a well-formed hex string and rendering the bytes back gives the
/// same string.
pub proof fn lemma_hex_chars_round_trip(s: Seq<char>)
    requires
        is_hex_seq(s),
        s.len() % 2 == 0,
    ensures
        hex_chars_of(hex_bytes_of(s)) == s,
        hex_bytes_of(s).len() == s.len() / 2,
    decreases s.len(),
{
    if s.len() >= 2 {
        assert(is_hex_seq(s.skip(2))) by {
            assert(forall|i: int|
                0 <= i < s.skip(2).len() ==> #[trigger] s.skip(2)[i] == s[i + 2]);
        }
        lemma_hex_chars_round_trip(s.skip(2));
        lemma_hex_digit_char_round(s[0]);
        lemma_hex_digit_char_round(s[1]);
        let v0 = hex_digit_val(s[0]);
        let v1 = hex_digit_val(s[1]);
        let byte = (16 * v0 + v1) as u8;
        assert(byte / 16 == v0 && byte % 16 == v1);
        let bs = hex_bytes_of(s);
        assert(bs == seq![byte] + hex_bytes_of(s.skip(2)));
        assert(bs.drop_first() =~= hex_bytes_of(s.skip(2)));
        assert(hex_chars_of(bs) =~= s);
    }
}

/// Splitting a byte string splits its hex rendering.
pub proof fn lemma_hex_chars_append(a: Seq<u8>, b: Seq<u8>)
    ensures
        hex_chars_of(a + b) == hex_chars_of(a) + hex_chars_of(b),
    decreases a,
{
    if a.len() == 0 {
        assert(a + b =~= b);
        assert(hex_chars_of(a) + hex_chars_of(b) =~= hex_chars_of(b));
    } else {
        lemma_hex_chars_append(a.drop_first(), b);
        assert((a + b).drop_first() =~= a.drop_first() + b);
        assert(hex_chars_of(a + b) =~= hex_chars_of(a) + hex_chars_of(b));
    }
}

/// The lowercase hex digit of a value below 16, executably.
pub fn hex_digit(n: u8) -> (c: char)
    requires
        n < 16,
    ensures
        c == hex_digit_of(n as nat),
{
    match n {
        0 => '0',
        1 => '1',
        2 => '2',
        3 => '3',
        4 => '4',
        5 => '5',
        6 => '6',
        7 => '7',
        8 => '8',
        9 => '9',
        10 => 'a',
        11 => 'b',
        12 => 'c',
        13 => 'd',
        14 => 'e',
        _ => 'f',
    }
}

/// The value of a hex digit, or `None` for any other character.
pub fn hex_val(c: char) -> (r: Option<u8>)
    ensures
        match r {
            Some(v) => is_hex_digit(c) && v as nat == hex_digit_val(c) && v < 16,
            None => !is_hex_digit(c),
        },
{
    match c {
        '0' => Some(0),
        '1' => Some(1),
        '2' => Some(2),
        '3' => Some(3),
        '4' => Some(4),
        '5' => Some(5),
        '6' => Some(6),
        '7' => Some(7),
        '8' => Some(8),
        '9' => Some(9),
        'a' => Some(10),
        'b' => Some(11),
        'c' => Some(12),
        'd' => Some(13),
        'e' => Some(14),
        'f' => Some(15),
        _ => None,
    }
}

/// Renders bytes as lowercase hex text.
pub fn bytes_to_hex(b: &Vec<u8>) -> (r: Vec<char>)
    ensures
        r@ == hex_chars_of(b@),
{
    let mut out: Vec<char> = Vec::new();
    let mut i: usize = 0;
    proof {
        assert(b@.take(0) =~= Seq::<u8>::empty());
    }
    while i < b.len()
        invariant
            i <= b@.len(),
            out@ == hex_chars_of(b@.take(i as int)),
        decreases b@.len() - i,
    {
        let byte = b[i];
        out.push(hex_digit(byte / 16));
        out.push(hex_digit(byte % 16));
        proof {
            lemma_hex_chars_append(b@.take(i as int), seq![byte]);
            assert(b@.take(i + 1) =~= b@.take(i as int) + seq![byte]);
            assert(seq![byte].drop_first().len() == 0);
            assert(hex_chars_of(seq![byte].drop_first()) =~= Seq::<char>::empty());
            assert(hex_chars_of(seq![byte]) =~= seq![
                hex_digit_of((byte / 16) as nat),
                hex_digit_of((byte % 16) as nat),
            ]);
            assert(out@ =~= hex_chars_of(b@.take(i + 1)));
        }
        i = i + 1;
    }
    proof {
        assert(b@.take(b@.len() as int) =~= b@);
    }
    out
}

/// Splitting a hex string at an even boundary splits its bytes.
pub proof fn lemma_hex_bytes_append(a: Seq<char>, b: Seq<char>)
    requires
        a.len() % 2 == 0,
    ensures
        hex_bytes_of(a + b) == hex_bytes_of(a) + hex_bytes_of(b),
    decreases a.len(),
{
    if a.len() == 0 {
        assert(a + b =~= b);
        assert(hex_bytes_of(a) + hex_bytes_of(b) =~= hex_bytes_of(b));
    } else {
        lemma_hex_bytes_append(a.skip(2), b);
        assert((a + b).skip(2) =~= a.skip(2) + b);
        assert((a + b)[0] == a[0] && (a + b)[1] == a[1]);
        assert(hex_bytes_of(a + b) =~= hex_bytes_of(a) + hex_bytes_of(b));
    }
}

/// Reads lowercase hex text into bytes; fails on odd length or on any
/// character that is not a lowercase hex digit.
pub fn hex_to_bytes(s: &Vec<char>) -> (r: Option<Vec<u8>>)
    ensures
        match r {
            Some(v) => s@.len() % 2 == 0 && is_hex_seq(s@) && v@ == hex_bytes_of(s@),
            None => !(s@.len() % 2 == 0 && is_hex_seq(s@)),
        },
{
    if s.len() % 2 != 0 {
        return None;
    }
    let mut out: Vec<u8> = Vec::new();
    let mut i: usize = 0;
    proof {
        assert(s@.take(0) =~= Seq::<char>::empty());
    }
    while i < s.len()
        invariant
            i <= s@.len(),
            i % 2 == 0,
            s@.len() % 2 == 0,
            is_hex_seq(s@.take(i as int)),
            out@ == hex_bytes_of(s@.take(i as int)),
        decreases s@.len() - i,
    {
        let c0 = s[i];
        let c1 = s[i + 1];
        let v0 = match hex_val(c0) {
            Some(v) => v,
            None => {
                return None;
            },
        };
        let v1 = match hex_val(c1) {
            Some(v) => v,
            None => {
                return None;
            },
        };
        out.push(16 * v0 + v1);
        proof {
            lemma_hex_bytes_append(s@.take(i as int), seq![c0, c1]);
            assert(s@.take(i + 2) =~= s@.take(i as int) + seq![c0, c1]);
            assert(seq![c0, c1].skip(2).len() == 0);
            assert(hex_bytes_of(seq![c0, c1].skip(2)) =~= Seq::<u8>::empty());
            assert(hex_bytes_of(seq![c0, c1]) =~= seq![
                (16 * hex_digit_val(c0) + hex_digit_val(c1)) as u8,
            ]);
            assert(out@ =~= hex_bytes_of(s@.take(i + 2)));
            assert(is_hex_seq(s@.take(i + 2))) by {
                assert(forall|j: int|
                    0 <= j < i ==> #[trigger] s@.take(i + 2)[j] == s@.take(i as int)[j]);
                assert(s@.take(i + 2)[i as int] == c0 && s@.take(i + 2)[i + 1] == c1);
            }
        }
        i = i + 2;
    }
    proof {
        assert(s@.take(s@.len() as int) =~= s@);
    }
    Some(out)
}

} // verus!
