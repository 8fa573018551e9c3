//! Plain base64 with no line wrapping, for data addresses.

use vstd::prelude::*;
use vstd::string::*;

verus! {

/// The character of six bits.
pub open spec fn letter(v: int) -> char {
    if v < 26 {
        (65 + v) as char
    } else if v < 52 {
        (97 + (v - 26)) as char
    } else if v < 62 {
        (48 + (v - 52)) as char
    } else if v == 62 {
        '+'
    } else {
        '/'
    }
}

/// The six bits of a character.
pub open spec fn value(c: char) -> int {
    if 'A' <= c <= 'Z' {
        c as int - 65
    } else if 'a' <= c <= 'z' {
        c as int - 97 + 26
    } else if '0' <= c <= '9' {
        c as int - 48 + 52
    } else if c == '+' {
        62
    } else {
        63
    }
}

/// Four characters for three bytes; a missing byte counts as zero, and each missing one leaves a
/// pad at the end.
pub open spec fn group(bytes: Seq<u8>) -> Seq<char> {
    let a = bytes[0] as int;
    let b = if bytes.len() > 1 {
        bytes[1] as int
    } else {
        0
    };
    let c = if bytes.len() > 2 {
        bytes[2] as int
    } else {
        0
    };
    seq![
        letter(a / 4),
        letter((a % 4) * 16 + b / 16),
        if bytes.len() > 1 {
            letter((b % 16) * 4 + c / 64)
        } else {
            '='
        },
        if bytes.len() > 2 {
            letter(c % 64)
        } else {
            '='
        },
    ]
}

/// The base64 of some bytes, three at a time.
pub open spec fn encoded(bytes: Seq<u8>) -> Seq<char>
    decreases bytes.len(),
{
    if bytes.len() == 0 {
        Seq::empty()
    } else if bytes.len() <= 3 {
        group(bytes)
    } else {
        group(bytes.take(3)) + encoded(bytes.skip(3))
    }
}

/// The bytes that four characters stand for.
pub open spec fn ungroup(s: Seq<char>) -> Seq<u8> {
    let v0 = value(s[0]);
    let v1 = value(s[1]);
    let first = seq![(v0 * 4 + v1 / 16) as u8];
    if s[2] == '=' {
        first
    } else {
        let v2 = value(s[2]);
        let second = first.push(((v1 % 16) * 16 + v2 / 4) as u8);
        if s[3] == '=' {
            second
        } else {
            second.push(((v2 % 4) * 64 + value(s[3])) as u8)
        }
    }
}

/// The bytes that base64 text stands for.
pub open spec fn decoded(s: Seq<char>) -> Seq<u8>
    decreases s.len(),
{
    if s.len() < 4 {
        Seq::empty()
    } else {
        ungroup(s.take(4)) + decoded(s.skip(4))
    }
}

proof fn lemma_letter(v: int)
    requires
        0 <= v < 64,
    ensures
        value(letter(v)) == v,
        letter(v) != '=',
{
}

proof fn lemma_group(bytes: Seq<u8>)
    requires
        1 <= bytes.len() <= 3,
    ensures
        ungroup(group(bytes)) == bytes,
{
    let a = bytes[0] as int;
    let b = if bytes.len() > 1 {
        bytes[1] as int
    } else {
        0
    };
    let c = if bytes.len() > 2 {
        bytes[2] as int
    } else {
        0
    };
    lemma_letter(a / 4);
    lemma_letter((a % 4) * 16 + b / 16);
    lemma_letter((b % 16) * 4 + c / 64);
    lemma_letter(c % 64);
    assert(ungroup(group(bytes)) =~= bytes);
}

/// Reading back what was written gives the bytes again, and the text is four characters for every
/// three bytes or part of three.
pub proof fn law_base64_reads_back(bytes: Seq<u8>)
    ensures
        decoded(encoded(bytes)) == bytes,
        encoded(bytes).len() == 4 * ((bytes.len() + 2) / 3),
    decreases bytes.len(),
{
    let s = encoded(bytes);
    if bytes.len() == 0 {
        assert(decoded(s) =~= bytes);
    } else if bytes.len() <= 3 {
        lemma_group(bytes);
        assert(s.take(4) =~= s);
        assert(decoded(s.skip(4)) =~= Seq::<u8>::empty());
        assert(decoded(s) =~= bytes);
    } else {
        let head = bytes.take(3);
        let tail = bytes.skip(3);
        lemma_group(head);
        law_base64_reads_back(tail);
        assert(s.take(4) =~= group(head));
        assert(s.skip(4) =~= encoded(tail));
        assert(decoded(s) =~= head + tail);
        assert(head + tail =~= bytes);
    }
}

fn letter_of(v: u32) -> (r: char)
    requires
        v < 64,
    ensures
        r == letter(v as int),
{
    if v < 26 {
        (65u8 + v as u8) as char
    } else if v < 52 {
        (97u8 + (v - 26) as u8) as char
    } else if v < 62 {
        (48u8 + (v - 52) as u8) as char
    } else if v == 62 {
        '+'
    } else {
        '/'
    }
}

proof fn lemma_encoded_split(bytes: Seq<u8>, i: int)
    requires
        0 <= i <= bytes.len(),
        i % 3 == 0,
    ensures
        encoded(bytes) == encoded(bytes.take(i)) + encoded(bytes.skip(i)),
    decreases bytes.len(),
{
    if i == 0 {
        assert(bytes.take(0) =~= Seq::<u8>::empty());
        assert(bytes.skip(0) =~= bytes);
        assert(encoded(bytes.take(0)) + encoded(bytes) =~= encoded(bytes));
    } else if i == bytes.len() {
        assert(bytes.take(i) =~= bytes);
        assert(bytes.skip(i) =~= Seq::<u8>::empty());
        assert(encoded(bytes) + encoded(bytes.skip(i)) =~= encoded(bytes));
    } else {
        let tail = bytes.skip(3);
        lemma_encoded_split(tail, i - 3);
        assert(bytes.take(i).take(3) =~= bytes.take(3));
        assert(bytes.take(i).skip(3) =~= tail.take(i - 3));
        assert(tail.skip(i - 3) =~= bytes.skip(i));
        if i == 3 {
            assert(bytes.take(3).take(3) =~= bytes.take(3));
            assert(tail.take(0) =~= Seq::<u8>::empty());
            assert(encoded(bytes.take(3)) =~= group(bytes.take(3)));
            assert(encoded(tail.take(0)) + encoded(bytes.skip(3)) =~= encoded(bytes.skip(3)));
        } else {
            assert(group(bytes.take(3)) + (encoded(tail.take(i - 3)) + encoded(bytes.skip(i))) =~= (
            group(bytes.take(3)) + encoded(tail.take(i - 3))) + encoded(bytes.skip(i)));
        }
    }
}

/// The base64 of some bytes.
pub fn base64_encode(bytes: &[u8]) -> (r: String)
    ensures
        r@ == encoded(bytes@),
{
    let mut out = String::new();
    let mut i: usize = 0;
    let n = bytes.len();
    proof {
        assert(bytes@.take(0) =~= Seq::<u8>::empty());
        assert(out@ =~= encoded(bytes@.take(0)));
    }
    while i < n
        invariant
            n == bytes.len(),
            i <= n,
            i % 3 == 0 || i == n,
            out@ == encoded(bytes@.take(i as int)),
        decreases n - i,
    {
        let a: u32 = bytes[i] as u32;
        let left: usize = n - i;
        let b: u32 = if left > 1 {
            bytes[i + 1] as u32
        } else {
            0
        };
        let c: u32 = if left > 2 {
            bytes[i + 2] as u32
        } else {
            0
        };
        let ghost before = out@;
        out.push(letter_of(a / 4));
        out.push(letter_of((a % 4) * 16 + b / 16));
        out.push(if left > 1 {
            letter_of((b % 16) * 4 + c / 64)
        } else {
            '='
        });
        out.push(if left > 2 {
            letter_of(c % 64)
        } else {
            '='
        });
        let next: usize = if left > 2 {
            i + 3
        } else {
            n
        };
        proof {
            let part = bytes@.subrange(i as int, next as int);
            assert(part[0] == bytes@[i as int]);
            assert(out@ =~= before + group(part));
            let upto = bytes@.take(next as int);
            lemma_encoded_split(upto, i as int);
            assert(upto.take(i as int) =~= bytes@.take(i as int));
            assert(upto.skip(i as int) =~= part);
            assert(encoded(part) =~= group(part));
        }
        i = next;
    }
    proof {
        assert(bytes@.take(n as int) =~= bytes@);
    }
    out
}

} // verus!
