//! Rendering of numbers into text: decimal identifiers, the `"<id> (id)"`
//! fallback shown when a name lookup fails, and hyphenated hexadecimal
//! server identifiers.

use vstd::prelude::*;

verus! {

/// The character for a single decimal digit.
pub open spec fn digit_char(d: int) -> char
    recommends
        0 <= d < 10,
{
    if d == 0 {
        '0'
    } else if d == 1 {
        '1'
    } else if d == 2 {
        '2'
    } else if d == 3 {
        '3'
    } else if d == 4 {
        '4'
    } else if d == 5 {
        '5'
    } else if d == 6 {
        '6'
    } else if d == 7 {
        '7'
    } else if d == 8 {
        '8'
    } else {
        '9'
    }
}

/// The decimal rendering of a number, most significant digit first.
pub open spec fn dec_seq(n: int) -> Seq<char>
    recommends
        n >= 0,
    decreases n,
{
    if n < 10 {
        seq![digit_char(n)]
    } else {
        dec_seq(n / 10).push(digit_char(n % 10))
    }
}

fn digit_str(d: u64) -> (r: &'static str)
    requires
        d < 10,
    ensures
        r@ == seq![digit_char(d as int)],
{
    proof {
        reveal_strlit("0");
        reveal_strlit("1");
        reveal_strlit("2");
        reveal_strlit("3");
        reveal_strlit("4");
        reveal_strlit("5");
        reveal_strlit("6");
        reveal_strlit("7");
        reveal_strlit("8");
        reveal_strlit("9");
    }
    match d {
        0 => "0",
        1 => "1",
        2 => "2",
        3 => "3",
        4 => "4",
        5 => "5",
        6 => "6",
        7 => "7",
        8 => "8",
        _ => "9",
    }
}

/// Renders a number in decimal.
pub fn u64_to_string(n: u64) -> (r: String)
    ensures
        r@ == dec_seq(n as int),
    decreases n,
{
    if n < 10 {
        let mut r = String::new();
        r.append(digit_str(n));
        proof {
            assert(r@ =~= dec_seq(n as int));
        }
        r
    } else {
        let mut r = u64_to_string(n / 10);
        r.append(digit_str(n % 10));
        proof {
            assert(r@ =~= dec_seq(n as int));
        }
        r
    }
}

/// The fallback shown in place of a name that could not be resolved.
pub open spec fn fallback_name_seq(id: int) -> Seq<char> {
    dec_seq(id) + " (id)"@
}

/// Renders the `"<id> (id)"` fallback for an identifier whose name lookup
/// failed or timed out.
pub fn fallback_name(id: u64) -> (r: String)
    ensures
        r@ == fallback_name_seq(id as int),
{
    let mut r = u64_to_string(id);
    r.append(" (id)");
    r
}

/// The character for a single hexadecimal digit (lower case).
pub open spec fn hex_char(d: int) -> char
    recommends
        0 <= d < 16,
{
    if d < 10 {
        digit_char(d)
    } else if d == 10 {
        'a'
    } else if d == 11 {
        'b'
    } else if d == 12 {
        'c'
    } else if d == 13 {
        'd'
    } else if d == 14 {
        'e'
    } else {
        'f'
    }
}

fn hex_digit_str(d: u128) -> (r: &'static str)
    requires
        d < 16,
    ensures
        r@ == seq![hex_char(d as int)],
{
    if d < 10 {
        digit_str(d as u64)
    } else {
        proof {
            reveal_strlit("a");
            reveal_strlit("b");
            reveal_strlit("c");
            reveal_strlit("d");
            reveal_strlit("e");
            reveal_strlit("f");
        }
        match d {
            10 => "a",
            11 => "b",
            12 => "c",
            13 => "d",
            14 => "e",
            _ => "f",
        }
    }
}

/// The nibble of a 128-bit value at a position, most significant first.
pub open spec fn nibble_of(v: u128, i: int) -> int
    recommends
        0 <= i < 32,
{
    (v >> ((31 - i) * 4) as u128) as int % 16
}

/// The character at a position of the canonical hyphenated rendering of a
/// 128-bit server identifier: 32 hexadecimal digits with hyphens after the
/// 8th, 12th, 16th and 20th.
pub open spec fn uuid_char(v: u128, i: int) -> char
    recommends
        0 <= i < 36,
{
    if i == 8 || i == 13 || i == 18 || i == 23 {
        '-'
    } else {
        let hyphens = if i < 8 {
            0int
        } else if i < 13 {
            1int
        } else if i < 18 {
            2int
        } else if i < 23 {
            3int
        } else {
            4int
        };
        hex_char(nibble_of(v, i - hyphens))
    }
}

/// The canonical hyphenated rendering of a 128-bit server identifier.
pub open spec fn uuid_seq(v: u128) -> Seq<char> {
    Seq::new(36, |i: int| uuid_char(v, i))
}

/// Renders a 128-bit server identifier in the canonical hyphenated form.
pub fn uuid_to_string(v: u128) -> (r: String)
    ensures
        r@ == uuid_seq(v),
{
    let mut r = String::new();
    let mut i: usize = 0;
    while i < 36
        invariant
            i <= 36,
            r@ == uuid_seq(v).subrange(0, i as int),
        decreases 36 - i,
    {
        if i == 8 || i == 13 || i == 18 || i == 23 {
            proof {
                reveal_strlit("-");
            }
            r.append("-");
        } else {
            let hyphens: usize = if i < 8 {
                0
            } else if i < 13 {
                1
            } else if i < 18 {
                2
            } else {
                if i < 23 {
                    3
                } else {
                    4
                }
            };
            let pos: usize = i - hyphens;
            let shift: u128 = ((31 - pos) * 4) as u128;
            let nib: u128 = (v >> shift) % 16;
            assert(nib == nibble_of(v, pos as int)) by {
                assert((v >> ((31 - pos as int) * 4) as u128) as int % 16 == ((v >> ((31
                    - pos as int) * 4) as u128) % 16) as int);
            }
            r.append(hex_digit_str(nib));
        }
        proof {
            assert(r@ =~= uuid_seq(v).subrange(0, i + 1));
        }
        i = i + 1;
    }
    proof {
        assert(r@ =~= uuid_seq(v));
    }
    r
}

} // verus!

verus! {

/// Renders a 128-bit count in decimal.
pub fn u128_to_string(n: u128) -> (r: String)
    ensures
        r@ == dec_seq(n as int),
    decreases n,
{
    if n < 10 {
        let mut r = String::new();
        r.append(digit_str((n % 10) as u64));
        proof {
            assert(r@ =~= dec_seq(n as int));
        }
        r
    } else {
        let mut r = u128_to_string(n / 10);
        r.append(digit_str((n % 10) as u64));
        proof {
            assert(r@ =~= dec_seq(n as int));
        }
        r
    }
}

} // verus!

verus! {

/// Ten to the power `k`.
pub open spec fn tenpow(k: nat) -> int
    decreases k,
{
    if k == 0 {
        1
    } else {
        10 * tenpow((k - 1) as nat)
    }
}

/// A number below ten to the `k` renders in at most `k` digits.
pub proof fn lemma_dec_len(n: int, k: nat)
    requires
        0 <= n,
        k >= 1,
        n < tenpow(k),
    ensures
        dec_seq(n).len() <= k,
    decreases k,
{
    if n < 10 {
    } else {
        assert(tenpow(1) == 10 * tenpow(0));
        assert(tenpow(k) == 10 * tenpow((k - 1) as nat));
        assert(k >= 2) by {
            if k == 1 {
                assert(tenpow(1nat) == 10);
            }
        }
        assert(n / 10 < tenpow((k - 1) as nat)) by (nonlinear_arith)
            requires
                0 <= n,
                n < 10 * tenpow((k - 1) as nat),
        ;
        lemma_dec_len(n / 10, (k - 1) as nat);
    }
}

/// Any 64-bit identifier renders in at most twenty digits.
pub proof fn lemma_dec_len_u64(n: int)
    requires
        0 <= n <= u64::MAX,
    ensures
        dec_seq(n).len() <= 20,
{
    assert(tenpow(0) == 1);
    assert(tenpow(1) == 10);
    assert(tenpow(2) == 100);
    assert(tenpow(3) == 1000);
    assert(tenpow(4) == 10000);
    assert(tenpow(5) == 100000);
    assert(tenpow(6) == 1000000);
    assert(tenpow(7) == 10000000);
    assert(tenpow(8) == 100000000);
    assert(tenpow(9) == 1000000000);
    assert(tenpow(10) == 10000000000);
    assert(tenpow(11) == 100000000000);
    assert(tenpow(12) == 1000000000000);
    assert(tenpow(13) == 10000000000000);
    assert(tenpow(14) == 100000000000000);
    assert(tenpow(15) == 1000000000000000);
    assert(tenpow(16) == 10000000000000000);
    assert(tenpow(17) == 100000000000000000);
    assert(tenpow(18) == 1000000000000000000);
    assert(tenpow(19) == 10000000000000000000);
    assert(tenpow(20) == 100000000000000000000);
    lemma_dec_len(n, 20);
}

} // verus!
