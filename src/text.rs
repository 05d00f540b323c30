//! Text of the diagnostics: hexadecimal numbers and address ranges.

use vstd::prelude::*;
use vstd::std_specs::iter::IteratorSpec;
use vstd::string::StringExecFns;

verus! {

/// The lower-case hexadecimal digit of `d`, for `d < 16`.
pub open spec fn hex_digit(d: nat) -> char {
    "0123456789abcdef"@[d as int]
}

/// The digits of `v` in lower-case hexadecimal, without leading zeros.
pub open spec fn hex(v: nat) -> Seq<char>
    decreases v,
{
    if v < 16 {
        seq![hex_digit(v)]
    } else {
        hex(v / 16) + seq![hex_digit(v % 16)]
    }
}

/// A named range in the form `[name : base 0x1000, size 0x10]`.
pub open spec fn range_text(name: Seq<char>, base: u64, size: u64) -> Seq<char> {
    "["@ + name + " : base 0x"@ + hex(base as nat) + ", size 0x"@ + hex(size as nat) + "]"@
}

fn digit_text(d: u64) -> (r: &'static str)
    requires
        d < 16,
    ensures
        r@ == seq![hex_digit(d as nat)],
{
    proof {
        reveal_strlit("0123456789abcdef");
    }
    let r = match d {
        0 => "0",
        1 => "1",
        2 => "2",
        3 => "3",
        4 => "4",
        5 => "5",
        6 => "6",
        7 => "7",
        8 => "8",
        9 => "9",
        10 => "a",
        11 => "b",
        12 => "c",
        13 => "d",
        14 => "e",
        _ => "f",
    };
    proof {
        reveal_strlit("0");
        reveal_strlit("1");
        reveal_strlit("2");
        reveal_strlit("3");
        reveal_strlit("4");
        reveal_strlit("5");
        reveal_strlit("6");
        reveal_strlit("7");
        reveal_strlit("8");
        reveal_strlit("9");
        reveal_strlit("a");
        reveal_strlit("b");
        reveal_strlit("c");
        reveal_strlit("d");
        reveal_strlit("e");
        reveal_strlit("f");
        assert(r@ =~= seq![hex_digit(d as nat)]);
    }
    r
}

/// Appends the hexadecimal digits of `v` to `out`.
fn append_hex(out: &mut String, v: u64)
    ensures
        final(out)@ == old(out)@ + hex(v as nat),
    decreases v,
{
    if v >= 16 {
        append_hex(out, v / 16);
    }
    out.append(digit_text(v % 16));
    assert(out@ =~= old(out)@ + hex(v as nat));
}

/// Appends `[name : base 0x.., size 0x..]` to `out`.
pub(crate) fn append_range(out: &mut String, name: &str, base: u64, size: u64)
    ensures
        final(out)@ == old(out)@ + range_text(name@, base, size),
{
    out.append("[");
    out.append(name);
    out.append(" : base 0x");
    append_hex(out, base);
    out.append(", size 0x");
    append_hex(out, size);
    out.append("]");
    assert(out@ =~= old(out)@ + range_text(name@, base, size));
}

/// `n` copies of the character `c`.
pub open spec fn copies(c: char, n: nat) -> Seq<char> {
    Seq::new(n, |i: int| c)
}

/// `s` left-aligned in a field of `width` characters.
pub open spec fn align_left(s: Seq<char>, width: nat) -> Seq<char> {
    if s.len() < width {
        s + copies(' ', (width - s.len()) as nat)
    } else {
        s
    }
}

/// `s` centred in a field of `width` characters; an odd leftover space
/// goes to the right.
pub open spec fn align_center(s: Seq<char>, width: nat) -> Seq<char> {
    if s.len() < width {
        let pad = (width - s.len()) as nat;
        copies(' ', pad / 2) + s + copies(' ', (pad - pad / 2) as nat)
    } else {
        s
    }
}

/// `v` as `0x` and its hexadecimal digits, zero-filled to `width`
/// characters in all.
pub open spec fn hex_wide(v: nat, width: nat) -> Seq<char> {
    if hex(v).len() + 2 < width {
        "0x"@ + copies('0', (width - 2 - hex(v).len()) as nat) + hex(v)
    } else {
        "0x"@ + hex(v)
    }
}

pub open spec fn pow16(k: nat) -> nat
    decreases k,
{
    if k == 0 {
        1
    } else {
        16 * pow16((k - 1) as nat)
    }
}

proof fn lemma_hex_len(v: nat, k: nat)
    requires
        k >= 1,
        v < pow16(k),
    ensures
        hex(v).len() <= k,
    decreases k,
{
    if v >= 16 {
        if k == 1 {
            assert(pow16(1) == 16) by {
                reveal_with_fuel(pow16, 2);
            }
        } else {
            let p = pow16((k - 1) as nat);
            assert(v / 16 < p) by (nonlinear_arith)
                requires
                    v < 16 * p,
            ;
            lemma_hex_len(v / 16, (k - 1) as nat);
        }
    }
}

/// Number of hexadecimal digits of `v`.
fn hex_len(v: u64) -> (r: usize)
    ensures
        r == hex(v as nat).len(),
    decreases v,
{
    if v < 16 {
        1
    } else {
        let r = hex_len(v / 16);
        proof {
            assert(pow16(15) == 0x1000_0000_0000_0000) by {
                reveal_with_fuel(pow16, 16);
            }
            lemma_hex_len(v as nat / 16, 15);
        }
        r + 1
    }
}

/// Number of characters of `s`, or `cap` when `s` has more.
fn chars_upto(s: &str, cap: usize) -> (r: usize)
    ensures
        r == (if s@.len() < cap {
            s@.len()
        } else {
            cap as nat
        }),
{
    broadcast use vstd::string::axiom_spec_iter, vstd::string::next_postcondition;

    let mut it = s.chars();
    let mut n: usize = 0;
    while n < cap
        invariant
            n <= cap,
            n + it.remaining().len() == s@.len(),
            it.obeys_prophetic_iter_laws(),
        decreases cap - n,
    {
        match it.next() {
            Some(_) => n += 1,
            None => return n,
        }
    }
    n
}

/// Appends `n` copies of the one character of `unit` to `out`.
fn append_copies(out: &mut String, unit: &str, n: usize)
    requires
        unit@.len() == 1,
    ensures
        final(out)@ == old(out)@ + copies(unit@[0], n as nat),
{
    let ghost start = out@;
    let mut i: usize = 0;
    while i < n
        invariant
            0 <= i <= n,
            unit@.len() == 1,
            out@ == start + copies(unit@[0], i as nat),
        decreases n - i,
    {
        out.append(unit);
        i += 1;
        assert(out@ =~= start + copies(unit@[0], i as nat));
    }
}

fn append_left(out: &mut String, s: &str, width: usize)
    ensures
        final(out)@ == old(out)@ + align_left(s@, width as nat),
{
    let n = chars_upto(s, width);
    out.append(s);
    if n < width {
        proof {
            reveal_strlit(" ");
        }
        append_copies(out, " ", width - n);
    }
    assert(out@ =~= old(out)@ + align_left(s@, width as nat));
}

fn append_center(out: &mut String, s: &str, width: usize)
    ensures
        final(out)@ == old(out)@ + align_center(s@, width as nat),
{
    let n = chars_upto(s, width);
    proof {
        reveal_strlit(" ");
    }
    if n < width {
        let pad = width - n;
        append_copies(out, " ", pad / 2);
        out.append(s);
        append_copies(out, " ", pad - pad / 2);
    } else {
        out.append(s);
    }
    assert(out@ =~= old(out)@ + align_center(s@, width as nat));
}

fn append_hex_wide(out: &mut String, v: u64, width: usize)
    ensures
        final(out)@ == old(out)@ + hex_wide(v as nat, width as nat),
{
    let len = hex_len(v);
    proof {
        reveal_strlit("0");
    }
    out.append("0x");
    if len < width && width - len > 2 {
        append_copies(out, "0", width - 2 - len);
    }
    append_hex(out, v);
    assert(out@ =~= old(out)@ + hex_wide(v as nat, width as nat));
}

/// The listing line of a region, given its first and last address.
pub open spec fn region_line(name: Seq<char>, kind: Seq<char>, first: u64, last: u64) -> Seq<char> {
    "   "@ + align_left(name, 10) + "("@ + align_center(kind, 13) + ")  : "@ + hex_wide(
        first as nat,
        16,
    ) + " -> "@ + hex_wide(last as nat, 16) + "\n"@
}

/// Appends the listing line of a region to `out`.
pub(crate) fn append_region_line(out: &mut String, name: &str, kind: &str, first: u64, last: u64)
    ensures
        final(out)@ == old(out)@ + region_line(name@, kind@, first, last),
{
    out.append("   ");
    append_left(out, name, 10);
    out.append("(");
    append_center(out, kind, 13);
    out.append(")  : ");
    append_hex_wide(out, first, 16);
    out.append(" -> ");
    append_hex_wide(out, last, 16);
    out.append("\n");
    assert(out@ =~= old(out)@ + region_line(name@, kind@, first, last));
}

} // verus!
