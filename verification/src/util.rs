//! Small general helpers: clamping, and the reverse-lookup names for
//! IP addresses.

use vstd::prelude::*;

use crate::resource::{A, AAAA};
use crate::strutil::push_char;

verus! {

/// Clamps `v` into the closed interval from `min` to `max`.
pub fn clamp(v: usize, min: usize, max: usize) -> (r: usize)
    requires
        min < max,
    ensures
        r == (if v < min {
            min
        } else if v > max {
            max
        } else {
            v
        }),
{
    if v < min {
        min
    } else if v > max {
        max
    } else {
        v
    }
}

/// An IP address of either family, as plain octets.
pub enum IpAddress {
    V4(A),
    V6(AAAA),
}

/// The character of a decimal digit.
pub open spec fn digit_char(d: int) -> char {
    ((48 + d) as u8) as char
}

/// The character of a hexadecimal digit, lower case.
pub open spec fn hex_char(d: int) -> char {
    if d < 10 {
        ((48 + d) as u8) as char
    } else {
        ((87 + d) as u8) as char
    }
}

/// The decimal text of a non-negative value.
pub open spec fn dec_rep(v: int) -> Seq<char>
    decreases v,
    when v >= 0
{
    if v < 10 {
        seq![digit_char(v)]
    } else {
        dec_rep(v / 10) + seq![digit_char(v % 10)]
    }
}

/// The nibbles of the octets in reverse order, low nibble first, each
/// followed by a dot.
pub open spec fn rev_nibbles(ip: Seq<u8>) -> Seq<char>
    decreases ip.len(),
{
    if ip.len() == 0 {
        Seq::empty()
    } else {
        let o = ip[ip.len() - 1];
        seq![hex_char((o % 16) as int), '.', hex_char((o / 16) as int), '.'] + rev_nibbles(
            ip.subrange(0, ip.len() - 1),
        )
    }
}

/// The reverse-lookup name of an address: octets or nibbles in reverse
/// order under the matching arpa zone.
pub open spec fn reverse_text(ip: &IpAddress) -> Seq<char> {
    match ip {
        IpAddress::V4(a) => dec_rep(a.octets@[3] as int) + seq!['.'] + dec_rep(a.octets@[2] as int)
            + seq!['.'] + dec_rep(a.octets@[1] as int) + seq!['.'] + dec_rep(a.octets@[0] as int)
            + seq!['.'] + "in-addr.arpa."@,
        IpAddress::V6(a) => rev_nibbles(a.octets@) + "ip6.arpa."@,
    }
}

/// Appends the decimal text of `v`.
fn push_u8_dec(out: &mut String, v: u8)
    ensures
        final(out)@ == old(out)@ + dec_rep(v as int),
{
    proof {
        reveal_with_fuel(dec_rep, 4);
    }
    if v >= 100 {
        push_char(out, (48 + v / 100) as char);
        push_char(out, (48 + (v / 10) % 10) as char);
        push_char(out, (48 + v % 10) as char);
        proof {
            assert((v as int) / 100 == ((v as int) / 10) / 10) by (nonlinear_arith);
            assert((v as int) / 100 < 10) by (nonlinear_arith)
                requires
                    v < 256,
            ;
            assert((v as int) / 10 >= 10) by (nonlinear_arith)
                requires
                    v >= 100,
            ;
            assert(out@ =~= old(out)@ + dec_rep(v as int));
        }
    } else if v >= 10 {
        push_char(out, (48 + v / 10) as char);
        push_char(out, (48 + v % 10) as char);
        proof {
            assert((v as int) / 10 < 10);
            assert(out@ =~= old(out)@ + dec_rep(v as int));
        }
    } else {
        push_char(out, (48 + v) as char);
        proof {
            assert(out@ =~= old(out)@ + dec_rep(v as int));
        }
    }
}

/// Appends one hexadecimal digit, lower case.
fn push_hex(out: &mut String, d: u8)
    requires
        d < 16,
    ensures
        final(out)@ == old(out)@ + seq![hex_char(d as int)],
{
    if d < 10 {
        push_char(out, (48 + d) as char);
    } else {
        push_char(out, (87 + d) as char);
    }
}

/// The reverse DNS name for this address, suitable for a PTR lookup:
/// the octets in reverse order under in-addr.arpa for IPv4, the
/// nibbles in reverse order under ip6.arpa for IPv6.
pub fn reverse(ip: &IpAddress) -> (r: String)
    ensures
        r@ == reverse_text(ip),
{
    match ip {
        IpAddress::V4(a) => {
            let mut out = String::new();
            push_u8_dec(&mut out, a.octets[3]);
            push_char(&mut out, '.');
            push_u8_dec(&mut out, a.octets[2]);
            push_char(&mut out, '.');
            push_u8_dec(&mut out, a.octets[1]);
            push_char(&mut out, '.');
            push_u8_dec(&mut out, a.octets[0]);
            push_char(&mut out, '.');
            out.append("in-addr.arpa.");
            proof {
                assert(out@ =~= reverse_text(ip));
            }
            out
        },
        IpAddress::V6(a) => {
            let mut out = String::new();
            let ghost ipv = a.octets@;
            let mut k: usize = 0;
            proof {
                assert(ipv.subrange(0, 16) =~= ipv);
                assert(out@ + rev_nibbles(ipv) =~= rev_nibbles(ipv));
            }
            while k < 16
                invariant
                    a.octets@ == ipv,
                    ipv.len() == 16,
                    k <= 16,
                    rev_nibbles(ipv) == out@ + rev_nibbles(ipv.subrange(0, (16 - k) as int)),
                decreases 16 - k,
            {
                let o = a.octets[15 - k];
                let ghost rem = ipv.subrange(0, (16 - k) as int);
                push_hex(&mut out, o % 16);
                push_char(&mut out, '.');
                push_hex(&mut out, o / 16);
                push_char(&mut out, '.');
                proof {
                    assert(rem[rem.len() - 1] == ipv[15 - k as int]);
                    assert(rem.subrange(0, rem.len() - 1) =~= ipv.subrange(0, (16 - (k + 1)) as int));
                    assert(rev_nibbles(rem) =~= seq![
                        hex_char((o % 16) as int),
                        '.',
                        hex_char((o / 16) as int),
                        '.',
                    ] + rev_nibbles(ipv.subrange(0, (16 - (k + 1)) as int)));
                    assert(rev_nibbles(ipv) =~= out@ + rev_nibbles(
                        ipv.subrange(0, (16 - (k + 1)) as int),
                    ));
                }
                k += 1;
            }
            proof {
                assert(ipv.subrange(0, 0) =~= Seq::<u8>::empty());
                assert(rev_nibbles(ipv.subrange(0, 0)) =~= Seq::<char>::empty());
                assert(out@ =~= rev_nibbles(ipv));
            }
            out.append("ip6.arpa.");
            proof {
                assert(out@ =~= reverse_text(ip));
            }
            out
        },
    }
}

} // verus!
