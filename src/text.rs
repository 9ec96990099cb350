//! Text forms: a point as `z[c0, c1, ...]`, a box as `zr[s0;e0, s1;e1, ...]`.
use vstd::prelude::*;

use crate::coords::{array_get, array_len};
use crate::point::ZPoint;
use crate::range::ZRange;

verus! {

/// The character of a decimal digit.
pub open spec fn digit_char(d: int) -> char {
    ((d + 48) as u8) as char
}

/// Decimal digits of `n`, most significant first.
pub open spec fn nat_text(n: nat) -> Seq<char>
    decreases n,
{
    if n < 10 {
        seq![digit_char(n as int)]
    } else {
        nat_text(n / 10) + seq![digit_char((n % 10) as int)]
    }
}

/// Decimal form of `v`, with a leading `-` when negative.
pub open spec fn int_text(v: int) -> Seq<char> {
    if v < 0 {
        seq!['-'] + nat_text((-v) as nat)
    } else {
        nat_text(v as nat)
    }
}

/// The decimal forms of `p`, separated by `, `.
pub open spec fn coords_text(p: Seq<i32>) -> Seq<char>
    decreases p.len(),
{
    if p.len() == 0 {
        Seq::empty()
    } else if p.len() == 1 {
        int_text(p[0] as int)
    } else {
        coords_text(p.drop_last()) + seq![',', ' '] + int_text(p.last() as int)
    }
}

/// `s;e` for each dimension, separated by `, `.
pub open spec fn bounds_text(s: Seq<i32>, e: Seq<i32>) -> Seq<char>
    decreases s.len(),
{
    if s.len() == 0 {
        Seq::empty()
    } else {
        let last = int_text(s.last() as int) + seq![';'] + int_text(e[s.len() - 1] as int);
        if s.len() == 1 {
            last
        } else {
            bounds_text(s.drop_last(), e) + seq![',', ' '] + last
        }
    }
}

/// The text form of a point: `z[` coordinates `]`.
pub open spec fn point_text(p: Seq<i32>) -> Seq<char> {
    seq!['z', '['] + coords_text(p) + seq![']']
}

/// The text form of a box: `zr[` bounds `]`.
pub open spec fn range_text(s: Seq<i32>, e: Seq<i32>) -> Seq<char> {
    seq!['z', 'r', '['] + bounds_text(s, e) + seq![']']
}

/// Relies on `String::push`: appends one character.
#[verifier::external_body]
fn push_char(out: &mut String, c: char)
    ensures
        final(out)@ == old(out)@.push(c),
{
    out.push(c);
}

fn push_nat(out: &mut String, n: u64)
    ensures
        final(out)@ == old(out)@ + nat_text(n as nat),
    decreases n,
{
    let ghost start = out@;
    if n >= 10 {
        push_nat(out, n / 10);
    }
    let c = ((n % 10) as u8 + 48u8) as char;
    push_char(out, c);
    proof {
        if n >= 10 {
            assert(out@ =~= start + nat_text(n as nat));
        } else {
            assert(out@ =~= start + nat_text(n as nat));
        }
    }
}

fn push_int(out: &mut String, v: i32)
    ensures
        final(out)@ == old(out)@ + int_text(v as int),
{
    let ghost start = out@;
    if v < 0 {
        push_char(out, '-');
        push_nat(out, (-(v as i64)) as u64);
        assert(out@ =~= start + int_text(v as int));
    } else {
        push_nat(out, v as u64);
    }
}

impl ZPoint {
    /// The text form `z[c0, c1, ...]`.
    pub fn to_string(&self) -> (r: String)
        ensures
            r@ == point_text(self@),
    {
        let mut out = String::new();
        push_char(&mut out, 'z');
        push_char(&mut out, '[');
        let n = array_len(&self.coords);
        let mut i: usize = 0;
        while i < n
            invariant
                n == self@.len(),
                i <= n,
                out@ == seq!['z', '['] + coords_text(self@.take(i as int)),
            decreases n - i,
        {
            let ghost before = out@;
            if i > 0 {
                push_char(&mut out, ',');
                push_char(&mut out, ' ');
            }
            push_int(&mut out, array_get(&self.coords, i));
            proof {
                let t = self@.take(i + 1);
                assert(t.drop_last() =~= self@.take(i as int));
                assert(out@ =~= seq!['z', '['] + coords_text(t));
            }
            i += 1;
        }
        push_char(&mut out, ']');
        assert(self@.take(n as int) =~= self@);
        assert(out@ =~= point_text(self@));
        out
    }
}

impl ZRange {
    /// The text form `zr[s0;e0, s1;e1, ...]`.
    pub fn to_string(&self) -> (r: String)
        requires
            self.wf(),
        ensures
            r@ == range_text(self.start@, self.end@),
    {
        let ghost s = self.start@;
        let ghost e = self.end@;
        let mut out = String::new();
        push_char(&mut out, 'z');
        push_char(&mut out, 'r');
        push_char(&mut out, '[');
        let n = array_len(&self.start.coords);
        let mut i: usize = 0;
        while i < n
            invariant
                self.wf(),
                s == self.start@,
                e == self.end@,
                n == s.len(),
                i <= n,
                out@ == seq!['z', 'r', '['] + bounds_text(s.take(i as int), e),
            decreases n - i,
        {
            if i > 0 {
                push_char(&mut out, ',');
                push_char(&mut out, ' ');
            }
            push_int(&mut out, array_get(&self.start.coords, i));
            push_char(&mut out, ';');
            push_int(&mut out, array_get(&self.end.coords, i));
            proof {
                let t = s.take(i + 1);
                assert(t.drop_last() =~= s.take(i as int));
                assert(out@ =~= seq!['z', 'r', '['] + bounds_text(t, e));
            }
            i += 1;
        }
        push_char(&mut out, ']');
        assert(s.take(n as int) =~= s);
        assert(out@ =~= range_text(s, e));
        out
    }
}

} // verus!
