//! Encoding of the client's outbound commands.
//!
//! The client sends two commands, newline-terminated: a bare `update`, which
//! requests a snapshot, and `move <player_id> <dx> <dy>`, which reports an
//! input event. Numbers are written in decimal, negatives with a `-` sign.

use vstd::prelude::*;

use crate::codec::{all_digits, digit_val, spec_parse_i32, spec_parse_u32, uint_val};

verus! {

/// The decimal digits of `n`, most significant first.
pub open spec fn dec_digits(n: nat) -> Seq<u8>
    decreases n,
{
    if n < 10 {
        seq![(48 + n) as u8]
    } else {
        dec_digits(n / 10).push((48 + n % 10) as u8)
    }
}

/// The decimal form of `v`: a `-` sign first when it is negative.
pub open spec fn dec_i32(v: int) -> Seq<u8> {
    if v < 0 {
        seq![45u8] + dec_digits((-v) as nat)
    } else {
        dec_digits(v as nat)
    }
}

/// The bytes of `move <pid> <dx> <dy>\n`.
pub open spec fn spec_move_command(pid: u32, dx: i32, dy: i32) -> Seq<u8> {
    seq![109u8, 111u8, 118u8, 101u8, 32u8] + dec_digits(pid as nat) + seq![32u8] + dec_i32(
        dx as int,
    ) + seq![32u8] + dec_i32(dy as int) + seq![10u8]
}

/// The bytes of the snapshot request `update\n`.
pub open spec fn spec_poll_request() -> Seq<u8> {
    seq![117u8, 112u8, 100u8, 97u8, 116u8, 101u8, 10u8]
}

/// Appends the decimal digits of `n`.
fn push_dec_u32(out: &mut Vec<u8>, n: u32)
    ensures
        final(out)@ == old(out)@ + dec_digits(n as nat),
    decreases n,
{
    if n < 10 {
        out.push(48 + n as u8);
        proof {
            assert(out@ =~= old(out)@ + dec_digits(n as nat));
        }
    } else {
        push_dec_u32(out, n / 10);
        out.push(48 + (n % 10) as u8);
        proof {
            assert(out@ =~= old(out)@ + dec_digits(n as nat));
        }
    }
}

/// Appends the decimal form of `v`, sign included.
fn push_dec_i32(out: &mut Vec<u8>, v: i32)
    ensures
        final(out)@ == old(out)@ + dec_i32(v as int),
{
    if v < 0 {
        out.push(45);
        let mag: u32 = (0i64 - v as i64) as u32;
        proof {
            assert(mag as nat == (-(v as int)) as nat);
        }
        push_dec_u32(out, mag);
        proof {
            assert(out@ =~= old(out)@ + dec_i32(v as int));
        }
    } else {
        push_dec_u32(out, v as u32);
    }
}

/// Builds the `move <pid> <dx> <dy>\n` command an input event sends.
pub fn move_command(pid: u32, dx: i32, dy: i32) -> (r: Vec<u8>)
    ensures
        r@ == spec_move_command(pid, dx, dy),
{
    let mut out: Vec<u8> = Vec::new();
    out.push(109);
    out.push(111);
    out.push(118);
    out.push(101);
    out.push(32);
    push_dec_u32(&mut out, pid);
    out.push(32);
    push_dec_i32(&mut out, dx);
    out.push(32);
    push_dec_i32(&mut out, dy);
    out.push(10);
    proof {
        assert(out@ =~= spec_move_command(pid, dx, dy));
    }
    out
}

/// Builds the bare snapshot request `update\n`.
pub fn poll_request() -> (r: Vec<u8>)
    ensures
        r@ == spec_poll_request(),
{
    let mut out: Vec<u8> = Vec::new();
    out.push(117);
    out.push(112);
    out.push(100);
    out.push(97);
    out.push(116);
    out.push(101);
    out.push(10);
    proof {
        assert(out@ =~= spec_poll_request());
    }
    out
}

/// The decimal digits of `n` are all digits, start with one, and read back
/// as `n`.
pub proof fn lemma_dec_digits_value(n: nat)
    ensures
        all_digits(dec_digits(n)),
        dec_digits(n).len() >= 1,
        uint_val(dec_digits(n)) == n,
    decreases n,
{
    if n < 10 {
        let s = dec_digits(n);
        assert(s == seq![(48 + n) as u8]);
        assert(s.drop_last() =~= Seq::<u8>::empty());
        assert(s.last() == (48 + n) as u8);
        assert(uint_val(s.drop_last()) == 0);
        assert(digit_val((48 + n) as u8) == n);
        assert(uint_val(s) == uint_val(s.drop_last()) * 10 + digit_val(s.last()));
    } else {
        lemma_dec_digits_value(n / 10);
        let s = dec_digits(n);
        assert(s == dec_digits(n / 10).push((48 + n % 10) as u8));
        assert(s.drop_last() =~= dec_digits(n / 10));
        assert(s.last() == (48 + n % 10) as u8);
        assert(digit_val((48 + n % 10) as u8) == n % 10);
        assert(uint_val(s) == uint_val(s.drop_last()) * 10 + digit_val(s.last()));
        assert(uint_val(s) == (n / 10) * 10 + n % 10);
    }
}

/// A `u32` written in decimal parses back to itself: the two halves of the
/// protocol agree on numerals.
pub proof fn lemma_u32_round_trip(v: u32)
    ensures
        spec_parse_u32(dec_digits(v as nat)) == Some(v),
{
    lemma_dec_digits_value(v as nat);
    let s = dec_digits(v as nat);
    assert(s[0] != 43u8);
}

/// An `i32` written in decimal, sign included, parses back to itself.
pub proof fn lemma_i32_round_trip(v: i32)
    ensures
        spec_parse_i32(dec_i32(v as int)) == Some(v),
{
    if v < 0 {
        let m = (-(v as int)) as nat;
        lemma_dec_digits_value(m);
        let s = dec_i32(v as int);
        assert(s[0] == 45u8);
        assert(s.drop_first() =~= dec_digits(m));
    } else {
        lemma_dec_digits_value(v as nat);
        let s = dec_i32(v as int);
        assert(s =~= dec_digits(v as nat));
        assert(s[0] != 45u8 && s[0] != 43u8);
    }
}

} // verus!
