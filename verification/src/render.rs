//! Decimal rendering of integers as character sequences, and comma-joining of
//! text segments. These are the verified text primitives that serialization is
//! built from.

use vstd::prelude::*;

verus! {

/// The character for a single decimal digit `d` (`0 <= d <= 9`).
pub open spec fn spec_digit(d: nat) -> char {
    if d == 0 {
        '0'
    } else if d == 1 {
        '1'
    } else if d == 2 {
        '2'
    } else if d == 3 {
        '3'
    } else if d == 4 {
        '4'
    } else if d == 5 {
        '5'
    } else if d == 6 {
        '6'
    } else if d == 7 {
        '7'
    } else if d == 8 {
        '8'
    } else {
        '9'
    }
}

/// The decimal digit string of a natural number, without sign or padding.
pub open spec fn spec_dec_nat(n: nat) -> Seq<char>
    decreases n,
{
    if n < 10 {
        seq![spec_digit(n)]
    } else {
        spec_dec_nat(n / 10).push(spec_digit(n % 10))
    }
}

/// The decimal string of a (possibly negative) integer: a leading `-` for
/// negative values, then the digits of the magnitude.
pub open spec fn spec_dec_int(v: int) -> Seq<char> {
    if v < 0 {
        seq!['-'] + spec_dec_nat((-v) as nat)
    } else {
        spec_dec_nat(v as nat)
    }
}

/// Segments joined by a single comma between neighbours, with no separator
/// before the first or after the last segment.
pub open spec fn join_comma(segs: Seq<Seq<char>>) -> Seq<char>
    decreases segs.len(),
{
    if segs.len() == 0 {
        Seq::empty()
    } else if segs.len() == 1 {
        segs[0]
    } else {
        segs[0] + seq![','] + join_comma(segs.drop_first())
    }
}

/// Joining a concatenation of segment lists splits into the two joins, with a
/// comma between them exactly when both sides are non-empty.
pub proof fn lemma_join_comma_append(s1: Seq<Seq<char>>, s2: Seq<Seq<char>>)
    ensures
        join_comma(s1 + s2) == if s1.len() == 0 {
            join_comma(s2)
        } else if s2.len() == 0 {
            join_comma(s1)
        } else {
            join_comma(s1) + seq![','] + join_comma(s2)
        },
    decreases s1.len(),
{
    if s1.len() == 0 {
        assert(s1 + s2 =~= s2);
    } else if s2.len() == 0 {
        assert(s1 + s2 =~= s1);
    } else if s1.len() == 1 {
        assert(s1 + s2 =~= seq![s1[0]] + s2);
        assert((s1 + s2).drop_first() =~= s2);
        assert(join_comma(s1) == s1[0]);
    } else {
        lemma_join_comma_append(s1.drop_first(), s2);
        assert((s1 + s2).drop_first() =~= s1.drop_first() + s2);
        assert(join_comma(s1 + s2) == (s1 + s2)[0] + seq![','] + join_comma(
            (s1 + s2).drop_first(),
        ));
        assert((s1 + s2)[0] == s1[0]);
        assert(join_comma(s1) + seq![','] + join_comma(s2) =~= (s1 + s2)[0] + seq![','] + (
        join_comma(s1.drop_first()) + seq![','] + join_comma(s2)));
    }
}

/// A static string holding the single decimal digit `d`.
fn digit_str(d: u64) -> (r: &'static str)
    requires
        d < 10,
    ensures
        r@ == seq![spec_digit(d as nat)],
{
    proof {
        reveal_strlit("0");
        reveal_strlit("1");
        reveal_strlit("2");
        reveal_strlit("3");
        reveal_strlit("4");
        reveal_strlit("5");
        reveal_strlit("6");
        reveal_strlit("7");
        reveal_strlit("8");
        reveal_strlit("9");
    }
    let r = match d {
        0 => "0",
        1 => "1",
        2 => "2",
        3 => "3",
        4 => "4",
        5 => "5",
        6 => "6",
        7 => "7",
        8 => "8",
        _ => "9",
    };
    proof {
        assert(r@ =~= seq![spec_digit(d as nat)]);
    }
    r
}

/// Renders an unsigned 64-bit number in decimal.
pub fn render_u64(n: u64) -> (r: String)
    ensures
        r@ == spec_dec_nat(n as nat),
    decreases n,
{
    if n < 10 {
        String::from_str(digit_str(n))
    } else {
        let mut s = render_u64(n / 10);
        s.append(digit_str(n % 10));
        proof {
            assert(s@ =~= spec_dec_nat(n as nat));
        }
        s
    }
}

/// Renders a signed 64-bit number in decimal, with a leading `-` if negative.
pub fn render_i64(v: i64) -> (r: String)
    ensures
        r@ == spec_dec_int(v as int),
{
    if v >= 0 {
        render_u64(v as u64)
    } else {
        // magnitude computed without overflow, even for the minimum value
        let mag: u64 = ((-(v + 1)) as u64) + 1;
        let mut s = String::from_str("-");
        s.append(render_u64(mag).as_str());
        proof {
            reveal_strlit("-");
            assert(mag == (-(v as int)) as nat);
            assert(s@ =~= spec_dec_int(v as int));
        }
        s
    }
}

/// The four zero-padded digits of a sub-second fraction `f` (in units of a
/// ten-thousandth of a second, `0 <= f < 10000`).
pub open spec fn spec_frac4(f: nat) -> Seq<char> {
    seq![
        spec_digit((f / 1000) % 10),
        spec_digit((f / 100) % 10),
        spec_digit((f / 10) % 10),
        spec_digit(f % 10),
    ]
}

/// Renders a sub-second fraction as exactly four zero-padded digits.
pub fn render_frac4(f: u32) -> (r: String)
    requires
        f < 10000,
    ensures
        r@ == spec_frac4(f as nat),
{
    let f = f as u64;
    let mut s = String::from_str(digit_str((f / 1000) % 10));
    s.append(digit_str((f / 100) % 10));
    s.append(digit_str((f / 10) % 10));
    s.append(digit_str(f % 10));
    proof {
        assert(s@ =~= spec_frac4(f as nat));
    }
    s
}

/// Renders a signed 32-bit key in decimal.
pub fn render_i32(v: i32) -> (r: String)
    ensures
        r@ == spec_dec_int(v as int),
{
    render_i64(v as i64)
}

} // verus!
