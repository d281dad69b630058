//! Deterministic colours for the rendered graph: a grayscale shade
//! per nesting level for cluster borders, and a colour derived from
//! a digit hash of the parent directory's name for leaf vertices.

use vstd::prelude::*;

verus! {

/// The lowercase hexadecimal digit for `n`.
pub open spec fn hex_digit(n: int) -> char {
    if n == 0 {
        '0'
    } else if n == 1 {
        '1'
    } else if n == 2 {
        '2'
    } else if n == 3 {
        '3'
    } else if n == 4 {
        '4'
    } else if n == 5 {
        '5'
    } else if n == 6 {
        '6'
    } else if n == 7 {
        '7'
    } else if n == 8 {
        '8'
    } else if n == 9 {
        '9'
    } else if n == 10 {
        'a'
    } else if n == 11 {
        'b'
    } else if n == 12 {
        'c'
    } else if n == 13 {
        'd'
    } else if n == 14 {
        'e'
    } else {
        'f'
    }
}

/// Writes the hexadecimal digit for `n`.
fn hex_digit_exec(n: u32) -> (r: char)
    requires
        n < 16,
    ensures
        r == hex_digit(n as int),
{
    if n == 0 {
        '0'
    } else if n == 1 {
        '1'
    } else if n == 2 {
        '2'
    } else if n == 3 {
        '3'
    } else if n == 4 {
        '4'
    } else if n == 5 {
        '5'
    } else if n == 6 {
        '6'
    } else if n == 7 {
        '7'
    } else if n == 8 {
        '8'
    } else if n == 9 {
        '9'
    } else if n == 10 {
        'a'
    } else if n == 11 {
        'b'
    } else if n == 12 {
        'c'
    } else if n == 13 {
        'd'
    } else if n == 14 {
        'e'
    } else {
        'f'
    }
}

/// The two hexadecimal digits of a byte value.
pub open spec fn hex_byte(b: int) -> Seq<char> {
    seq![hex_digit(b / 16), hex_digit(b % 16)]
}

/// The grayscale digit for a nesting level: `f` at the root, one
/// shade darker per level, capped at `0`.
pub open spec fn gray_digit(level: int) -> char {
    if level >= 15 {
        '0'
    } else {
        hex_digit(15 - level)
    }
}

/// The border colour for a cluster at the given nesting level:
/// `#` followed by the level's grayscale digit written six times.
pub open spec fn gray_spec(level: int) -> Seq<char> {
    let d = gray_digit(level);
    seq!['#', d, d, d, d, d, d]
}

/// A gray shade that darkens with the nesting level until it
/// reaches black.
pub fn make_gray(level: usize) -> (r: String)
    ensures
        r@ == gray_spec(level as int),
{
    let l: u32 = if level >= 15 {
        0
    } else {
        15 - (level as u32)
    };
    let d = hex_digit_exec(l);
    let mut r = String::new();
    crate::text::push_char(&mut r, '#');
    let mut i: usize = 0;
    while i < 6
        invariant
            i <= 6,
            d == gray_digit(level as int),
            r@ == seq!['#'] + Seq::new(i as nat, |j: int| d),
        decreases 6 - i,
    {
        crate::text::push_char(&mut r, d);
        proof {
            assert(seq!['#'] + Seq::new((i + 1) as nat, |j: int| d) =~= (seq!['#'] + Seq::new(
                i as nat,
                |j: int| d,
            )).push(d));
        }
        i += 1;
    }
    proof {
        assert(r@ =~= gray_spec(level as int));
    }
    r
}

/// Whether `c` counts as a digit in base 36: a decimal digit or a
/// letter of either case.
pub open spec fn is_digit36(c: char) -> bool {
    let u = c as u32;
    (48 <= u && u <= 57) || (97 <= u && u <= 122) || (65 <= u && u <= 90)
}

/// The base-36 value of such a digit.
pub open spec fn digit36_val(c: char) -> int {
    let u = c as u32;
    if 48 <= u && u <= 57 {
        u - 48
    } else if 97 <= u && u <= 122 {
        u - 87
    } else {
        u - 55
    }
}

/// The sum of the base-36 values of the digit characters of `s`;
/// other characters count nothing.
pub open spec fn digit_sum(s: Seq<char>) -> int
    decreases s.len(),
{
    if s.len() == 0 {
        0
    } else {
        digit_sum(s.drop_last()) + (if is_digit36(s.last()) {
            digit36_val(s.last())
        } else {
            0
        })
    }
}

pub proof fn lemma_digit_sum_bounds(s: Seq<char>)
    ensures
        0 <= digit_sum(s),
    decreases s.len(),
{
    if s.len() > 0 {
        lemma_digit_sum_bounds(s.drop_last());
    }
}

/// One colour channel of the hashed colour: the digit sum scaled by
/// `factor` is folded into 0..127 and subtracted from 255, so every
/// channel stays in the bright half.
pub open spec fn channel(s: Seq<char>, factor: int) -> int {
    255 - (digit_sum(s) * factor) % 128
}

/// The vertex colour derived from a directory name: `#` followed by
/// the three channels for factors 71, 131 and 29, two hexadecimal
/// digits each.
pub open spec fn color_spec(s: Seq<char>) -> Seq<char> {
    seq!['#'] + hex_byte(channel(s, 71)) + hex_byte(channel(s, 131)) + hex_byte(channel(s, 29))
}

/// Appends the two hexadecimal digits of a byte value.
fn push_hex_byte(r: &mut String, b: u32)
    requires
        b < 256,
    ensures
        final(r)@ == old(r)@ + hex_byte(b as int),
{
    let hi = hex_digit_exec(b / 16);
    let lo = hex_digit_exec(b % 16);
    crate::text::push_char(r, hi);
    crate::text::push_char(r, lo);
    proof {
        assert(r@ =~= old(r)@ + hex_byte(b as int));
    }
}

/// A colour hashed from a directory name, so that the leaves of one
/// directory share it while distinct directories usually differ.
pub fn make_random_color(dirname: &str) -> (r: String)
    ensures
        r@ == color_spec(dirname@),
{
    let n = dirname.unicode_len();
    let mut acc: u32 = 0;
    let mut i: usize = 0;
    while i < n
        invariant
            n == dirname@.len(),
            i <= n,
            acc == digit_sum(dirname@.subrange(0, i as int)) % 128,
        decreases n - i,
    {
        let c = dirname.get_char(i);
        let u = c as u32;
        let ghost pre = dirname@.subrange(0, i as int);
        let ghost here = dirname@.subrange(0, i + 1);
        proof {
            assert(here.drop_last() =~= pre);
            assert(here.last() == dirname@[i as int]);
            lemma_digit_sum_bounds(pre);
        }
        if (48 <= u && u <= 57) || (97 <= u && u <= 122) || (65 <= u && u <= 90) {
            let d: u32 = if u <= 57 {
                u - 48
            } else if u >= 97 {
                u - 87
            } else {
                u - 55
            };
            proof {
                vstd::arithmetic::div_mod::lemma_add_mod_noop(
                    digit_sum(pre),
                    digit36_val(dirname@[i as int]),
                    128,
                );
                vstd::arithmetic::div_mod::lemma_small_mod(digit36_val(here.last()) as nat, 128);
            }
            acc = (acc + d) % 128;
        }
        i += 1;
    }
    proof {
        assert(dirname@.subrange(0, n as int) =~= dirname@);
    }
    let ghost ds = digit_sum(dirname@);
    let red: u32 = 255 - (acc * 71) % 128;
    let green: u32 = 255 - (acc * 131) % 128;
    let blue: u32 = 255 - (acc * 29) % 128;
    proof {
        lemma_digit_sum_bounds(dirname@);
        vstd::arithmetic::div_mod::lemma_mul_mod_noop_left(ds, 71, 128);
        vstd::arithmetic::div_mod::lemma_mul_mod_noop_left(ds, 131, 128);
        vstd::arithmetic::div_mod::lemma_mul_mod_noop_left(ds, 29, 128);
    }
    let mut r = String::new();
    crate::text::push_char(&mut r, '#');
    push_hex_byte(&mut r, red);
    push_hex_byte(&mut r, green);
    push_hex_byte(&mut r, blue);
    proof {
        assert(r@ =~= color_spec(dirname@));
    }
    r
}

} // verus!
