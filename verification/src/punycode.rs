//! A Punycode encoder (RFC 3492): turns a Unicode label into the ASCII
//! form used inside internationalized domain names.
//!
//! The basic (ASCII) code points come first, in their original order,
//! followed by a delimiter when any are present; the remaining code
//! points are encoded as generalized variable-length integers.  Every
//! arithmetic step that RFC 3492 marks as able to overflow is checked,
//! and overflow is reported as an error rather than wrapped.

use vstd::prelude::*;

use crate::qname::ascii_chars;
use crate::strutil::push_char;
use vstd::arithmetic::div_mod::lemma_div_is_ordered;

verus! {

/// The digit value of a Punycode basic code point.
pub open spec fn puny_digit_of(c: char) -> int {
    if 'A' <= c && c <= 'Z' {
        c as int - 'A' as int
    } else if 'a' <= c && c <= 'z' {
        c as int - 'a' as int
    } else {
        c as int - '0' as int + 26
    }
}

/// The lower-case basic code point of a Punycode digit value.
pub open spec fn puny_char_of(i: int) -> char {
    if 0 <= i && i <= 25 {
        (('a' as u8) + i) as char
    } else {
        (('0' as u8) + (i - 26)) as char
    }
}

/// Maps an encoded code point to its digit value, 0 to 35.
pub fn from_char(c: char) -> (r: u8)
    requires
        ('A' <= c && c <= 'Z') || ('a' <= c && c <= 'z') || ('0' <= c && c <= '9'),
    ensures
        r == puny_digit_of(c),
        r < 36,
{
    if 'A' <= c && c <= 'Z' {
        c as u8 - 65
    } else if 'a' <= c && c <= 'z' {
        c as u8 - 97
    } else {
        c as u8 - 48 + 26
    }
}

/// Maps a digit value, 0 to 35, to its lower-case basic code point.
pub fn to_char(i: u8) -> (r: char)
    requires
        i < 36,
    ensures
        r == puny_char_of(i as int),
        (r as u32) < 128,
{
    if i <= 25 {
        (97 + i) as char
    } else {
        (48 + (i - 26)) as char
    }
}

/// The result of the bias-adaptation division loop: how many whole
/// division steps were taken, and what remains.
pub open spec fn adapt_steps(delta: int) -> (int, int)
    decreases delta,
    when delta >= 0
{
    if delta > 455 {
        let r = adapt_steps(delta / 35);
        (r.0 + 36, r.1)
    } else {
        (0, delta)
    }
}

/// The bias adaptation of RFC 3492 section 6.1.
pub open spec fn spec_adapt(delta: int, num_points: int, first_time: bool) -> int {
    let d1 = if first_time {
        delta / 700
    } else {
        delta / 2
    };
    let d2 = d1 + d1 / num_points;
    let r = adapt_steps(d2);
    r.0 + (36 * r.1) / (r.1 + 38)
}

/// Bias adaptation: scales the delta and counts division steps, per
/// RFC 3492 section 6.1.
pub fn adapt(delta: u32, num_points: u32, first_time: bool) -> (r: u32)
    requires
        num_points >= 1,
    ensures
        r == spec_adapt(delta as int, num_points as int, first_time),
        r <= 16560,
{
    let mut delta = if first_time {
        delta / 700
    } else {
        delta / 2
    };
    delta = delta + delta / num_points;
    let ghost d2 = delta as int;
    proof {
        lemma_adapt_steps_bound(d2);
        lemma_adapt_steps_nonneg(d2);
    }
    let mut k: u32 = 0;
    while delta > 455
        invariant
            0 <= delta <= 0xFFFF_FFFF,
            adapt_steps(d2) == (adapt_steps(delta as int).0 + k as int, adapt_steps(
                delta as int,
            ).1),
            adapt_steps(d2).0 <= 180,
            k <= 180,
        decreases delta,
    {
        delta = delta / 35;
        k = k + 36;
        proof {
            lemma_adapt_steps_nonneg(delta as int);
        }
    }
    proof {
        assert(adapt_steps(delta as int) == (0int, delta as int));
        assert((36 * (delta as int)) / ((delta as int) + 38) <= 16380) by (nonlinear_arith)
            requires
                0 <= delta <= 455,
        ;
    }
    k + (36 * delta) / (delta + 38)
}

/// The step count of the division loop is never negative.
proof fn lemma_adapt_steps_nonneg(delta: int)
    requires
        delta >= 0,
    ensures
        adapt_steps(delta).0 >= 0,
        0 <= adapt_steps(delta).1 <= 455,
    decreases delta,
{
    if delta > 455 {
        lemma_adapt_steps_nonneg(delta / 35);
    }
}

/// For a 32-bit delta the division loop takes at most five steps.
proof fn lemma_adapt_steps_bound(delta: int)
    requires
        0 <= delta <= 0xFFFF_FFFF,
    ensures
        0 <= adapt_steps(delta).0 <= 180,
        0 <= adapt_steps(delta).1 <= 455,
{
    reveal_with_fuel(adapt_steps, 8);
    lemma_adapt_steps_nonneg(delta);
    if delta > 455 {
        let d1 = delta / 35;
        assert(d1 <= 122713351) by {
            lemma_div_is_ordered(delta, 0xFFFF_FFFF, 35);
        }
        lemma_adapt_steps_nonneg(d1);
        if d1 > 455 {
            let d2 = d1 / 35;
            assert(d2 <= 3506095) by {
                lemma_div_is_ordered(d1, 122713351, 35);
            }
            lemma_adapt_steps_nonneg(d2);
            if d2 > 455 {
                let d3 = d2 / 35;
                assert(d3 <= 100174) by {
                    lemma_div_is_ordered(d2, 3506095, 35);
                }
                lemma_adapt_steps_nonneg(d3);
                if d3 > 455 {
                    let d4 = d3 / 35;
                    assert(d4 <= 2862) by {
                        lemma_div_is_ordered(d3, 100174, 35);
                    }
                    lemma_adapt_steps_nonneg(d4);
                    if d4 > 455 {
                        let d5 = d4 / 35;
                        assert(d5 <= 81) by {
                            lemma_div_is_ordered(d4, 2862, 35);
                        }
                        lemma_adapt_steps_nonneg(d5);
                    }
                }
            }
        }
    }
}

/// The ASCII characters of a sequence, kept in order.
pub open spec fn ascii_filter(cs: Seq<char>) -> Seq<char>
    decreases cs.len(),
{
    if cs.len() == 0 {
        Seq::empty()
    } else if (cs[0] as u32) < 128 {
        seq![cs[0]] + ascii_filter(cs.subrange(1, cs.len() as int))
    } else {
        ascii_filter(cs.subrange(1, cs.len() as int))
    }
}

/// Filtering distributes over appending one character.
proof fn lemma_ascii_filter_push(cs: Seq<char>, c: char)
    ensures
        ascii_filter(cs + seq![c]) == ascii_filter(cs) + (if (c as u32) < 128 {
            seq![c]
        } else {
            Seq::<char>::empty()
        }),
    decreases cs.len(),
{
    reveal_with_fuel(ascii_filter, 3);
    let whole = cs + seq![c];
    if cs.len() == 0 {
        assert(whole.subrange(1, whole.len() as int) =~= Seq::<char>::empty());
        assert(whole[0] == c);
        if (c as u32) < 128 {
            assert(ascii_filter(whole) =~= seq![c]);
            assert(ascii_filter(cs) + seq![c] =~= seq![c]);
        } else {
            assert(ascii_filter(whole) =~= Seq::<char>::empty());
            assert(ascii_filter(cs) + Seq::<char>::empty() =~= Seq::<char>::empty());
        }
    } else {
        assert(whole[0] == cs[0]);
        assert(whole.subrange(1, whole.len() as int) =~= cs.subrange(1, cs.len() as int) + seq![c]);
        lemma_ascii_filter_push(cs.subrange(1, cs.len() as int), c);
        assert(ascii_filter(whole) =~= ascii_filter(cs) + (if (c as u32) < 128 {
            seq![c]
        } else {
            Seq::<char>::empty()
        }));
    }
}

/// Encodes a string into Punycode.
///
/// The ASCII characters of the input come first, in order, followed by
/// a delimiter when the input has any ASCII characters and any
/// non-ASCII ones; the non-ASCII characters are encoded after it.  The
/// result is always pure ASCII.  An input so large that a delta cannot
/// be represented in 32 bits is reported as an error, as RFC 3492
/// requires.
pub fn encode(input: &str) -> (r: Result<String, ()>)
    ensures
        match r {
            Ok(out) => {
                let af = ascii_filter(input@);
                &&& ascii_chars(out@)
                &&& out@.len() >= af.len()
                &&& out@.subrange(0, af.len() as int) == af
                &&& (af =~= input@ ==> out@ == (if input@.len() == 0 {
                    Seq::<char>::empty()
                } else {
                    input@ + seq!['-']
                }))
                &&& (af.len() < input@.len() && af.len() > 0 ==> out@.len() > af.len() && out@[
                    af.len() as int
                ] == '-')
            },
            Err(_) => true,
        },
{
    let n_len = input.unicode_len();
    if n_len >= 0x8000_0000 {
        return Err(());
    }
    let mut output = String::new();
    let mut unicode: Vec<char> = Vec::new();
    let mut i: usize = 0;
    proof {
        assert(input@.subrange(0, 0) =~= Seq::<char>::empty());
        assert(ascii_filter(Seq::<char>::empty()) =~= Seq::<char>::empty());
    }
    while i < n_len
        invariant
            n_len == input@.len(),
            i <= n_len,
            output@ == ascii_filter(input@.subrange(0, i as int)),
            ascii_chars(output@),
            unicode@.len() + output@.len() == i,
            unicode@.len() == 0 ==> (forall|k: int|
                0 <= k < i ==> (#[trigger] input@[k] as u32) < 128),
            unicode@.len() > 0 ==> (exists|k: int|
                0 <= k < i && (#[trigger] input@[k] as u32) >= 128),
        decreases n_len - i,
    {
        let c = input.get_char(i);
        proof {
            lemma_ascii_filter_push(input@.subrange(0, i as int), c);
            assert(input@.subrange(0, (i + 1) as int) =~= input@.subrange(0, i as int) + seq![c]);
        }
        if (c as u32) < 128 {
            push_char(&mut output, c);
        } else {
            unicode.push(c);
            proof {
                assert(0 <= i < input@.len() && (input@[i as int] as u32) >= 128);
            }
        }
        i += 1;
    }
    proof {
        assert(input@.subrange(0, n_len as int) =~= input@);
    }
    let ghost af = ascii_filter(input@);
    let basic_usize = output.as_str().unicode_len();
    proof {
        assert(basic_usize < 0x8000_0000);
    }
    let basic_len = basic_usize as u32;
    if unicode.len() == 0 {
        // every character was ASCII
        proof {
            lemma_ascii_filter_all(input@);
            assert(output@ == input@);
        }
        if basic_usize > 0 {
            push_char(&mut output, '-');
        }
        proof {
            assert(output@.subrange(0, af.len() as int) =~= af);
        }
        return Ok(output);
    }
    proof {
        lemma_ascii_filter_not_all(input@);
        assert(af.len() < input@.len());
    }
    if basic_usize > 0 {
        push_char(&mut output, '-');
    }
    proof {
        assert(output@.subrange(0, af.len() as int) =~= af);
        if basic_usize > 0 {
            assert(output@[af.len() as int] == '-');
        }
    }
    // sort the non-ASCII code points into descending order, unique
    let mut sorted: Vec<char> = Vec::new();
    let un = unicode.len();
    let mut j: usize = 0;
    while j < un
        invariant
            un == unicode@.len(),
            j <= un,
        decreases un - j,
    {
        let c = unicode[j];
        let mut p: usize = 0;
        let slen = sorted.len();
        while p < slen && (sorted[p] as u32) > (c as u32)
            invariant
                slen == sorted@.len(),
                p <= slen,
            decreases slen - p,
        {
            p += 1;
        }
        if p < slen && sorted[p] as u32 == c as u32 {
            // already present
        } else {
            sorted.insert(p, c);
        }
        j += 1;
    }
    // encode the deltas; the strictly backward-sorted stack pops the
    // code points in increasing order
    let mut last_char: u32 = 0x80;
    let mut bias: u32 = 72;
    let mut delta: u32 = 0;
    let mut h: u32 = basic_len;
    while sorted.len() > 0
        invariant
            n_len == input@.len(),
            n_len < 0x8000_0000,
            ascii_chars(output@),
            output@.subrange(0, af.len() as int) == af,
            output@.len() >= af.len(),
            af.len() > 0 ==> output@.len() > af.len() && output@[af.len() as int] == '-',
            bias <= 0xFFFF_FFFF - 62,
        decreases sorted@.len(),
    {
        let cur = match sorted.pop() {
            Some(c) => c,
            None => {
                return Err(());
            },
        };
        let cur_char: u32 = cur as u32;
        proof {
            lemma_char_max(cur);
        }
        if cur_char < last_char {
            return Err(());
        }
        // delta += (cur_char - last_char) * (h + 1), checked
        if h >= 0xFFFF_FFFE {
            return Err(());
        }
        let gap: u32 = cur_char - last_char;
        let hp: u32 = h + 1;
        if gap > 0 && hp > 0xFFFF_FFFF / gap {
            return Err(());
        }
        let step: u32 = if gap == 0 {
            0
        } else {
            proof {
                assert(gap * hp <= 0xFFFF_FFFF) by (nonlinear_arith)
                    requires
                        gap >= 1,
                        hp <= 0xFFFF_FFFFu32 / gap,
                ;
            }
            gap * hp
        };
        if delta > 0xFFFF_FFFF - step {
            return Err(());
        }
        delta = delta + step;
        // walk the input, bumping delta for smaller code points and
        // emitting digits at each occurrence of the current one
        let mut ii: usize = 0;
        while ii < n_len
            invariant
                n_len == input@.len(),
                ascii_chars(output@),
                output@.subrange(0, af.len() as int) == af,
                output@.len() >= af.len(),
                af.len() > 0 ==> output@.len() > af.len() && output@[af.len() as int] == '-',
                bias <= 0xFFFF_FFFF - 62,
                ii <= n_len,
            decreases n_len - ii,
        {
            let c = input.get_char(ii) as u32;
            if c < cur_char {
                if delta == 0xFFFF_FFFF {
                    return Err(());
                }
                delta = delta + 1;
            }
            if c == cur_char {
                if h >= 0xFFFF_FFFE {
                    return Err(());
                }
                let mut q: u32 = delta;
                let mut k: u32 = 36;
                loop
                    invariant
                        ascii_chars(output@),
                        output@.subrange(0, af.len() as int) == af,
                        output@.len() >= af.len(),
                        af.len() > 0 ==> output@.len() > af.len() && output@[af.len() as int]
                            == '-',
                        bias <= 0xFFFF_FFFF - 62,
                        36 <= k <= 0xFFFF_FFFF - 36,
                    decreases q,
                {
                    let t: u32 = if k <= bias {
                        1
                    } else if k >= bias + 26 {
                        26
                    } else {
                        k - bias
                    };
                    if q < t {
                        // the last digit for this code point
                        let lch = to_char(q as u8);
                        push_char(&mut output, lch);
                        proof {
                            assert(output@.subrange(0, af.len() as int) =~= af);
                        }
                        break ;
                    }
                    let digit: u32 = t + ((q - t) % (36 - t));
                    proof {
                        assert(36 - t >= 10);
                        assert((q - t) % (36 - t) < (36 - t)) by (nonlinear_arith)
                            requires
                                t < 36,
                        ;
                        assert(digit < 36);
                    }
                    let dch = to_char(digit as u8);
                    push_char(&mut output, dch);
                    proof {
                        assert(output@.subrange(0, af.len() as int) =~= af);
                    }
                    let qn = (q - t) / (36 - t);
                    proof {
                        assert(qn < q) by (nonlinear_arith)
                            requires
                                q >= t,
                                t >= 1,
                                t < 36,
                                qn == ((q - t) as u32) / ((36 - t) as u32),
                        ;
                    }
                    q = qn;
                    if k > 0xFFFF_FFFF - 72 {
                        return Err(());
                    }
                    k = k + 36;
                }
                bias = adapt(delta, h + 1, h == basic_len);
                delta = 0;
                h = h + 1;
            }
            ii += 1;
        }
        if delta == 0xFFFF_FFFF {
            return Err(());
        }
        delta = delta + 1;
        last_char = cur_char + 1;
    }
    proof {
        assert(af != input@);
    }
    Ok(output)
}

/// A sequence with a character outside ASCII filters to something
/// shorter than itself.
proof fn lemma_ascii_filter_not_all(cs: Seq<char>)
    requires
        exists|k: int| 0 <= k < cs.len() && (#[trigger] cs[k] as u32) >= 128,
    ensures
        ascii_filter(cs).len() < cs.len(),
    decreases cs.len(),
{
    let rest = cs.subrange(1, cs.len() as int);
    lemma_ascii_filter_le(rest);
    if (cs[0] as u32) >= 128 {
    } else {
        let k = choose|k: int| 0 <= k < cs.len() && (#[trigger] cs[k] as u32) >= 128;
        assert(0 <= k - 1 < rest.len() && (rest[k - 1] as u32) >= 128);
        lemma_ascii_filter_not_all(rest);
    }
}

/// Filtering never lengthens a sequence.
proof fn lemma_ascii_filter_le(cs: Seq<char>)
    ensures
        ascii_filter(cs).len() <= cs.len(),
    decreases cs.len(),
{
    if cs.len() > 0 {
        lemma_ascii_filter_le(cs.subrange(1, cs.len() as int));
    }
}

/// A character's scalar value never exceeds the Unicode maximum.
proof fn lemma_char_max(c: char)
    ensures
        (c as u32) <= 0x10FFFF,
{
}

/// A sequence of ASCII characters filters to itself.
proof fn lemma_ascii_filter_all(cs: Seq<char>)
    requires
        forall|k: int| 0 <= k < cs.len() ==> (#[trigger] cs[k] as u32) < 128,
    ensures
        ascii_filter(cs) == cs,
    decreases cs.len(),
{
    if cs.len() == 0 {
        assert(ascii_filter(cs) =~= cs);
    } else {
        lemma_ascii_filter_all(cs.subrange(1, cs.len() as int));
        assert(ascii_filter(cs) =~= cs);
    }
}

} // verus!
