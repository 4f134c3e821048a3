//! The domain-name codec: length-prefixed labels, the terminating zero
//! byte, and backward compression pointers (RFC 1035 section 4.1.4).
//!
//! Decoding works over the whole backing buffer plus explicit offsets, so
//! a name inside a record's RDATA window may follow a pointer to an
//! earlier part of the message.  A pointer must point strictly before the
//! start of the name being read; that invariant bounds the recursion and
//! is what makes decoding terminate on every input.
//!
//! Encoding never emits pointers.  Names are handled in their ASCII
//! (wire) form; converting to and from Unicode presentation forms is the
//! caller's concern.

use vstd::prelude::*;

use crate::errors::ParseError;
use crate::strutil::push_char;
use crate::wire::read_u8;
use crate::wire::sr_u8;

verus! {

broadcast use vstd::string::is_ascii_spec_bytes;

/// The characters of a sequence of ASCII bytes.
pub open spec fn chars_of(bs: Seq<u8>) -> Seq<char> {
    bs.map_values(|b: u8| b as char)
}

/// The bytes of a sequence of ASCII characters.
pub open spec fn bytes_of(cs: Seq<char>) -> Seq<u8> {
    cs.map_values(|c: char| c as u8)
}

/// All characters are ASCII.
pub open spec fn ascii_chars(cs: Seq<char>) -> bool {
    forall|i: int| 0 <= i < cs.len() ==> (#[trigger] cs[i] as u32) < 128
}

/// All bytes are ASCII.
pub open spec fn ascii_bytes(bs: Seq<u8>) -> bool {
    forall|i: int| 0 <= i < bs.len() ==> #[trigger] bs[i] < 128
}

/// The length of the first label of `n`: the distance to the first dot,
/// or the whole length if there is no dot.
pub open spec fn label_len(n: Seq<char>) -> int
    decreases n.len(),
{
    if n.len() == 0 {
        0
    } else if n[0] == '.' {
        0
    } else {
        1 + label_len(n.subrange(1, n.len() as int))
    }
}

/// The first label is never longer than the name.
pub proof fn lemma_label_len_bounds(n: Seq<char>)
    ensures
        0 <= label_len(n) <= n.len(),
    decreases n.len(),
{
    if n.len() == 0 {
    } else if n[0] == '.' {
    } else {
        lemma_label_len_bounds(n.subrange(1, n.len() as int));
    }
}

/// A name, read label by label: every label is 1 to 63 ASCII characters,
/// and is followed by a dot or ends the name.  The empty remainder is
/// well formed (the name ended with a dot).
pub open spec fn labels_ok(n: Seq<char>) -> bool
    decreases n.len(),
{
    if n.len() == 0 {
        true
    } else {
        let e = label_len(n);
        if e == n.len() {
            1 <= e <= 63 && ascii_chars(n.subrange(0, e))
        } else if 1 <= e && e < n.len() {
            e <= 63 && ascii_chars(n.subrange(0, e)) && labels_ok(n.subrange(e + 1, n.len() as int))
        } else {
            false
        }
    }
}

/// The character a label stops at, when it is not the end of the name,
/// is a dot.
pub proof fn lemma_label_len_dot(n: Seq<char>)
    ensures
        label_len(n) < n.len() ==> n[label_len(n)] == '.',
        forall|i: int| 0 <= i < label_len(n) ==> #[trigger] n[i] != '.',
    decreases n.len(),
{
    lemma_label_len_bounds(n);
    if n.len() == 0 {
    } else if n[0] == '.' {
    } else {
        let m = n.subrange(1, n.len() as int);
        lemma_label_len_dot(m);
        lemma_label_len_bounds(m);
        assert forall|i: int| 0 <= i < label_len(n) implies #[trigger] n[i] != '.' by {
            if i > 0 {
                assert(n[i] == m[i - 1]);
            }
        }
        if label_len(n) < n.len() {
            assert(n[label_len(n)] == m[label_len(m)]);
        }
    }
}

/// A name the encoder accepts: empty, the root name, or well-formed
/// labels (with or without a trailing dot).
pub open spec fn wire_ok(n: Seq<char>) -> bool {
    n.len() == 0 || n == seq!['.'] || labels_ok(n)
}

/// A name in the decoder's normal form: the root name, or well-formed
/// labels with a trailing dot.
pub open spec fn wire_normal(n: Seq<char>) -> bool {
    n == seq!['.'] || (n.len() > 0 && n[n.len() - 1] == '.' && labels_ok(n))
}

/// The wire bytes of well-formed labels: each label as a length byte and
/// its ASCII bytes, with a terminating zero byte.
pub open spec fn wname_labels(n: Seq<char>) -> Seq<u8>
    decreases n.len(),
{
    if n.len() == 0 {
        seq![0u8]
    } else {
        let e = label_len(n);
        if 1 <= e && e < n.len() {
            seq![e as u8] + bytes_of(n.subrange(0, e)) + wname_labels(
                n.subrange(e + 1, n.len() as int),
            )
        } else if 1 <= e && e == n.len() {
            seq![e as u8] + bytes_of(n.subrange(0, e)) + seq![0u8]
        } else {
            seq![0u8]
        }
    }
}

/// The wire bytes of a name the encoder accepts.
pub open spec fn wname(n: Seq<char>) -> Seq<u8> {
    if n.len() == 0 || n == seq!['.'] {
        seq![0u8]
    } else {
        wname_labels(n)
    }
}

/// Reading the label chain of one name from `cur`, inside the window
/// `[0, end)` of `s`, for a name that started at `start`.  Returns the
/// concatenation of the labels, each followed by a dot, and the offset
/// just past the bytes the name occupies at its original position.
pub open spec fn slabels(s: Seq<u8>, end: int, start: int, cur: int) -> Result<
    (Seq<char>, int),
    ParseError,
>
    decreases start, end - cur, 0int,
    when 0 <= cur && cur <= end && 0 <= start
{
    match sr_u8(s, end, cur) {
        Err(e) => Err(e),
        Ok((len, p1)) => {
            if len == 0 {
                Ok((Seq::empty(), p1))
            } else if len & 0xC0 == 0x00 {
                if p1 + len <= end {
                    let lab = s.subrange(p1, p1 + len);
                    if ascii_bytes(lab) {
                        match slabels(s, end, start, p1 + len) {
                            Err(e) => Err(e),
                            Ok((rest, p2)) => Ok((chars_of(lab) + seq!['.'] + rest, p2)),
                        }
                    } else {
                        Err(ParseError::InvalidLabel)
                    }
                } else {
                    Err(ParseError::Truncated)
                }
            } else if len & 0xC0 == 0xC0 {
                match sr_u8(s, end, p1) {
                    Err(e) => Err(e),
                    Ok((b2, p2)) => {
                        let ptr = ((len & 0x3F) as int) * 256 + (b2 as int);
                        if ptr >= start {
                            Err(ParseError::InvalidPointer)
                        } else {
                            match sname(s, end, ptr) {
                                Err(e) => Err(e),
                                Ok((rest, _)) => Ok((rest, p2)),
                            }
                        }
                    },
                }
            } else {
                Err(ParseError::UnsupportedCompression(len & 0xC0))
            }
        },
    }
}

/// Reading one whole name that starts at `start`, inside the window
/// `[0, end)` of `s`.  A name with no labels at all is the root name.
pub open spec fn sname(s: Seq<u8>, end: int, start: int) -> Result<(Seq<char>, int), ParseError>
    decreases start, end - start, 1int,
    when 0 <= start && start <= end
{
    match slabels(s, end, start, start) {
        Err(e) => Err(e),
        Ok((n, p)) => Ok((if n.len() == 0 { seq!['.'] } else { n }, p)),
    }
}

/// Reads a domain name from `pos` inside the window `[0, end)` of `buf`,
/// following backward compression pointers.  Returns the name in
/// trailing-dot form together with the offset just past the bytes the
/// name occupies at `pos` (a pointer's target bytes are not counted).
pub fn read_qname(buf: &[u8], end: usize, pos: usize) -> (r: Result<(String, usize), ParseError>)
    requires
        end <= buf@.len(),
        pos <= end,
    ensures
        match r {
            Ok((name, p)) => sname(buf@, end as int, pos as int) == Ok::<_, ParseError>(
                (name@, p as int),
            ) && pos < p <= end,
            Err(e) => sname(buf@, end as int, pos as int) == Err::<(Seq<char>, int), _>(e),
        },
    decreases pos,
{
    let ghost s = buf@;
    let mut acc = String::new();
    let mut cur: usize = pos;
    loop
        invariant
            end <= buf@.len(),
            pos <= cur <= end,
            s == buf@,
            (match slabels(s, end as int, pos as int, cur as int) {
                Err(e) => slabels(s, end as int, pos as int, pos as int) == Err::<
                    (Seq<char>, int),
                    _,
                >(e),
                Ok((rest, p)) => slabels(s, end as int, pos as int, pos as int) == Ok::<
                    _,
                    ParseError,
                >((acc@ + rest, p)),
            }),
        decreases end - cur,
    {
        let (len, p1) = match read_u8(buf, end, cur) {
            Ok(v) => v,
            Err(e) => {
                return Err(e);
            },
        };
        if len == 0 {
            if acc.as_str().is_empty() {
                let mut root = String::new();
                push_char(&mut root, '.');
                proof {
                    assert(acc@ + Seq::<char>::empty() =~= acc@);
                    assert(root@ =~= seq!['.']);
                }
                return Ok((root, p1));
            } else {
                proof {
                    assert(acc@ + Seq::<char>::empty() =~= acc@);
                }
                return Ok((acc, p1));
            }
        } else if len & 0xC0 == 0x00 {
            let lab_len = len as usize;
            if lab_len > end - p1 {
                return Err(ParseError::Truncated);
            }
            let ghost lab = s.subrange(p1 as int, p1 + lab_len as int);
            let ghost acc0 = acc@;
            let mut j: usize = 0;
            while j < lab_len
                invariant
                    end <= buf@.len(),
                    s == buf@,
                    j <= lab_len,
                    p1 + lab_len <= end,
                    lab == s.subrange(p1 as int, p1 + lab_len as int),
                    acc@ == acc0 + chars_of(s.subrange(p1 as int, p1 + j as int)),
                    forall|k: int| 0 <= k < j ==> #[trigger] lab[k] < 128,
                    pos <= cur <= end,
                    sr_u8(s, end as int, cur as int) == Ok::<_, ParseError>((len, p1 as int)),
                    len != 0 && len & 0xC0 == 0x00 && lab_len == len,
                    (match slabels(s, end as int, pos as int, cur as int) {
                        Err(e) => slabels(s, end as int, pos as int, pos as int) == Err::<
                            (Seq<char>, int),
                            _,
                        >(e),
                        Ok((rest, p)) => slabels(s, end as int, pos as int, pos as int) == Ok::<
                            _,
                            ParseError,
                        >((acc0 + rest, p)),
                    }),
                decreases lab_len - j,
            {
                let b = buf[p1 + j];
                if b >= 0x80 {
                    proof {
                        assert(lab[j as int] == s[p1 + j as int]);
                        assert(!ascii_bytes(lab));
                    }
                    return Err(ParseError::InvalidLabel);
                }
                push_char(&mut acc, b as char);
                proof {
                    assert(acc@ =~= acc0 + chars_of(s.subrange(p1 as int, p1 + (j + 1) as int)));
                }
                j += 1;
            }
            push_char(&mut acc, '.');
            proof {
                assert(ascii_bytes(lab));
                assert(acc@ =~= acc0 + (chars_of(lab) + seq!['.']));
                assert(forall|rest: Seq<char>|
                    acc0 + (chars_of(lab) + seq!['.']) + rest =~= acc0 + (chars_of(lab) + seq!['.']
                        + rest));
            }
            cur = p1 + lab_len;
        } else if len & 0xC0 == 0xC0 {
            let (b2, p2) = match read_u8(buf, end, p1) {
                Ok(v) => v,
                Err(e) => {
                    return Err(e);
                },
            };
            let ptr = ((len & 0x3F) as usize) * 256 + (b2 as usize);
            if ptr >= pos {
                return Err(ParseError::InvalidPointer);
            }
            match read_qname(buf, end, ptr) {
                Err(e) => {
                    return Err(e);
                },
                Ok((inner, _inner_pos)) => {
                    proof {
                        assert(sname(s, end as int, ptr as int) == Ok::<_, ParseError>(
                            (inner@, _inner_pos as int),
                        ));
                        assert(inner@.len() > 0);
                    }
                    acc.append(inner.as_str());
                    return Ok((acc, p2));
                },
            }
        } else {
            return Err(ParseError::UnsupportedCompression(len & 0xC0));
        }
    }
}

/// Casting an ASCII character to a byte and back loses nothing.
pub proof fn lemma_char_ascii_byte(c: char)
    requires
        (c as u32) < 128,
    ensures
        (c as u8) < 128,
        ((c as u8) as char) == c,
{
}

/// Reading back the wire bytes of well-formed, dot-terminated labels
/// yields exactly those labels, wherever the bytes sit in the buffer and
/// whatever name start the pointer guard uses.
pub proof fn lemma_labels_round_trip(s: Seq<u8>, end: int, start: int, pos: int, n: Seq<char>)
    requires
        labels_ok(n),
        n.len() == 0 || n[n.len() - 1] == '.',
        0 <= start,
        0 <= pos,
        pos + wname_labels(n).len() <= end <= s.len(),
        s.subrange(pos, pos + wname_labels(n).len()) == wname_labels(n),
    ensures
        slabels(s, end, start, pos) == Ok::<_, ParseError>((n, pos + wname_labels(n).len())),
    decreases n.len(),
{
    let w = wname_labels(n);
    if n.len() == 0 {
        assert(s[pos] == w[0]);
        assert(s[pos] == 0);
        assert(n =~= Seq::<char>::empty());
        assert(slabels(s, end, start, pos) == Ok::<_, ParseError>((Seq::<char>::empty(), pos + 1)));
    } else {
        let e = label_len(n);
        lemma_label_len_bounds(n);
        lemma_label_len_dot(n);
        assert(e < n.len()) by {
            if e == n.len() {
                assert(n[n.len() - 1] != '.');
            }
        }
        assert(n[e] == '.');
        assert(1 <= e <= 63);
        let rest = n.subrange(e + 1, n.len() as int);
        let wrest = wname_labels(rest);
        assert(w =~= seq![e as u8] + bytes_of(n.subrange(0, e)) + wrest);
        assert(w.len() == 1 + e + wrest.len());
        assert(s[pos] == w[0]);
        assert(s[pos] == e as u8);
        assert(s[pos] != 0);
        assert((e as u8) & 0xC0 == 0) by {
            let b = e as u8;
            assert(b < 64 ==> b & 0xC0 == 0) by (bit_vector);
        }
        let p1 = pos + 1;
        let lab = s.subrange(p1, p1 + e);
        assert(lab =~= bytes_of(n.subrange(0, e))) by {
            assert forall|k: int| 0 <= k < e implies lab[k] == bytes_of(n.subrange(0, e))[k] by {
                assert(lab[k] == s[pos + 1 + k]);
                assert(s[pos + 1 + k] == w[1 + k]);
            }
        }
        assert(ascii_chars(n.subrange(0, e)));
        assert(ascii_bytes(lab)) by {
            assert forall|k: int| 0 <= k < lab.len() implies #[trigger] lab[k] < 128 by {
                assert((n.subrange(0, e)[k] as u32) < 128);
                lemma_char_ascii_byte(n.subrange(0, e)[k]);
                assert(lab[k] == (n.subrange(0, e)[k] as u8));
            }
        }
        assert(chars_of(lab) =~= n.subrange(0, e)) by {
            assert forall|k: int| 0 <= k < e implies chars_of(lab)[k] == n.subrange(0, e)[k] by {
                assert((n.subrange(0, e)[k] as u32) < 128);
                lemma_char_ascii_byte(n.subrange(0, e)[k]);
            }
        }
        assert(rest.len() == 0 || rest[rest.len() - 1] == '.') by {
            if rest.len() > 0 {
                assert(rest[rest.len() - 1] == n[n.len() - 1]);
            }
        }
        assert(s.subrange(p1 + e, p1 + e + wrest.len()) =~= wrest) by {
            assert forall|k: int| 0 <= k < wrest.len() implies s.subrange(
                p1 + e,
                p1 + e + wrest.len(),
            )[k] == wrest[k] by {
                assert(s.subrange(p1 + e, p1 + e + wrest.len())[k] == s[p1 + e + k]);
                assert(s[p1 + e + k] == w[1 + e + k]);
            }
        }
        lemma_labels_round_trip(s, end, start, p1 + e, rest);
        assert(chars_of(lab) + seq!['.'] + rest =~= n);
    }
}

/// Reading back the wire bytes of a name in the decoder's normal form
/// yields exactly that name.
pub proof fn lemma_qname_round_trip(s: Seq<u8>, end: int, pos: int, n: Seq<char>)
    requires
        wire_normal(n),
        0 <= pos,
        pos + wname(n).len() <= end <= s.len(),
        s.subrange(pos, pos + wname(n).len()) == wname(n),
    ensures
        sname(s, end, pos) == Ok::<_, ParseError>((n, pos + wname(n).len())),
{
    if n == seq!['.'] {
        assert(s[pos] == wname(n)[0]);
        assert(s[pos] == 0);
        assert(slabels(s, end, pos, pos) == Ok::<_, ParseError>((Seq::<char>::empty(), pos + 1)));
    } else {
        assert(n.len() > 0 && n[n.len() - 1] == '.' && labels_ok(n));
        assert(wname(n) == wname_labels(n));
        lemma_labels_round_trip(s, end, pos, pos, n);
    }
}

/// The length of the first label, computed from a scan that stopped at
/// the first dot or at the end.
pub proof fn lemma_label_len_from_scan(m: Seq<char>, l: int)
    requires
        0 <= l <= m.len(),
        forall|k: int| 0 <= k < l ==> #[trigger] m[k] != '.',
        l == m.len() || m[l] == '.',
    ensures
        label_len(m) == l,
    decreases l,
{
    if l == 0 {
    } else {
        let m2 = m.subrange(1, m.len() as int);
        assert(forall|k: int| 0 <= k < l - 1 ==> #[trigger] m2[k] == m[k + 1]);
        lemma_label_len_from_scan(m2, l - 1);
    }
}

/// Well-formed labels contain only ASCII characters.
pub proof fn lemma_labels_ok_ascii(n: Seq<char>)
    requires
        labels_ok(n),
    ensures
        ascii_chars(n),
    decreases n.len(),
{
    if n.len() == 0 {
    } else {
        let e = label_len(n);
        lemma_label_len_bounds(n);
        lemma_label_len_dot(n);
        if e < n.len() {
            lemma_labels_ok_ascii(n.subrange(e + 1, n.len() as int));
        }
        assert forall|i: int| 0 <= i < n.len() implies (#[trigger] n[i] as u32) < 128 by {
            if i < e {
                assert(n.subrange(0, e)[i] == n[i]);
            } else if i == e {
                assert(n[i] == '.');
            } else {
                assert(n.subrange(e + 1, n.len() as int)[i - e - 1] == n[i]);
            }
        }
    }
}

/// A character above the ASCII range has a scalar value of at least 128.
pub proof fn lemma_char_non_ascii(c: char)
    requires
        !('\0' <= c <= '\u{7f}'),
    ensures
        (c as u32) >= 128,
{
}

/// A character in the ASCII range has a scalar value below 128.
pub proof fn lemma_char_ascii(c: char)
    requires
        '\0' <= c <= '\u{7f}',
    ensures
        (c as u32) < 128,
{
}

/// A character with a scalar value below 128 lies in the ASCII range.
pub proof fn lemma_char_ascii_range(c: char)
    requires
        (c as u32) < 128,
    ensures
        '\0' <= c <= '\u{7f}',
{
}

/// Writes a domain name as length-prefixed labels with a terminating
/// zero byte, appending to `out`.  The name must already be in ASCII
/// (wire) form; an empty name and the root name both encode as a single
/// zero byte.  On an invalid name nothing is appended.
pub fn write_qname(out: &mut Vec<u8>, name: &str) -> (r: Result<(), ParseError>)
    ensures
        match r {
            Ok(()) => wire_ok(name@) && final(out)@ == old(out)@ + wname(name@),
            Err(_) => !wire_ok(name@) && final(out)@ == old(out)@,
        },
{
    let ghost n = name@;
    if !name.is_ascii() {
        proof {
            assert(exists|i: int| !(0 <= i < n.len() ==> ('\0' <= #[trigger] n[i] <= '\u{7f}')));
            let i = choose|i: int| !(0 <= i < n.len() ==> ('\0' <= #[trigger] n[i] <= '\u{7f}'));
            lemma_char_non_ascii(n[i]);
            if labels_ok(n) {
                lemma_labels_ok_ascii(n);
            }
            assert(n.len() > 0);
            assert(n != seq!['.']) by {
                if n == seq!['.'] {
                    assert(n[0] == '.');
                }
            }
        }
        return Err(ParseError::InvalidDomain);
    }
    proof {
        assert forall|i: int| 0 <= i < n.len() implies (#[trigger] n[i] as u32) < 128 by {
            assert('\0' <= n[i] <= '\u{7f}');
            lemma_char_ascii(n[i]);
        }
    }
    let bs = name.as_bytes();
    let n_len = bs.len();
    proof {
        assert(n_len == n.len());
        assert(forall|i: int| 0 <= i < n.len() ==> bs@[i] == (#[trigger] n[i] as u8));
    }
    if n_len == 0 {
        out.push(0);
        proof {
            assert(out@ =~= old(out)@ + wname(n));
        }
        return Ok(());
    }
    if n_len == 1 && bs[0] == 46 {
        out.push(0);
        proof {
            assert(n =~= seq!['.']);
            assert(out@ =~= old(out)@ + wname(n));
        }
        return Ok(());
    }
    proof {
        assert(n != seq!['.']) by {
            if n == seq!['.'] {
                assert((n[0] as u8) == 46);
            }
        }
    }
    let mut local: Vec<u8> = Vec::new();
    let mut i: usize = 0;
    proof {
        assert(n.subrange(0, n.len() as int) =~= n);
        assert(local@ + wname_labels(n) =~= wname_labels(n));
    }
    loop
        invariant
            name.is_ascii(),
            n == name@,
            bs@.len() == n.len(),
            forall|k: int| 0 <= k < n.len() ==> bs@[k] == (#[trigger] n[k] as u8),
            forall|k: int| 0 <= k < n.len() ==> (#[trigger] n[k] as u32) < 128,
            n_len == n.len(),
            0 <= i < n_len,
            labels_ok(n) <==> labels_ok(n.subrange(i as int, n.len() as int)),
            wname_labels(n) == local@ + wname_labels(n.subrange(i as int, n.len() as int)),
            n.len() > 0 && n != seq!['.'],
            out@ == old(out)@,
        decreases n_len - i,
    {
        let ghost rem = n.subrange(i as int, n.len() as int);
        let mut j: usize = i;
        while j < n_len && bs[j] != 46
            invariant
                i <= j <= n_len,
                bs@.len() == n.len(),
                n_len == n.len(),
                forall|k: int| 0 <= k < n.len() ==> bs@[k] == (#[trigger] n[k] as u8),
                forall|k: int| i <= k < j ==> #[trigger] n[k] != '.',
            decreases n_len - j,
        {
            proof {
                if n[j as int] == '.' {
                    assert(bs@[j as int] == 46);
                }
            }
            j += 1;
        }
        proof {
            assert forall|k: int| 0 <= k < j - i implies #[trigger] rem[k] != '.' by {
                assert(rem[k] == n[i + k]);
            }
            if j < n_len {
                assert(bs@[j as int] == ('.' as u8));
                assert(rem[j - i] == n[j as int]);
                assert(n[j as int] == '.') by {
                    if n[j as int] != '.' {
                        assert((n[j as int] as u32) < 128);
                        assert((n[j as int] as u8) == ('.' as u8));
                        assert((n[j as int] as u32) == ('.' as u32));
                    }
                }
            }
            lemma_label_len_from_scan(rem, j - i);
        }
        let lab = j - i;
        if lab == 0 {
            proof {
                assert(!labels_ok(rem));
            }
            return Err(ParseError::EmptyLabel);
        }
        if lab > 63 {
            proof {
                assert(!labels_ok(rem));
            }
            return Err(ParseError::LabelTooLong);
        }
        local.push(lab as u8);
        let mut k: usize = i;
        let ghost local1 = local@;
        while k < j
            invariant
                i <= k <= j <= n_len,
                bs@.len() == n.len(),
                n_len == n.len(),
                forall|q: int| 0 <= q < n.len() ==> bs@[q] == (#[trigger] n[q] as u8),
                local@ == local1 + bytes_of(n.subrange(i as int, k as int)),
            decreases j - k,
        {
            local.push(bs[k]);
            proof {
                assert(local@ =~= local1 + bytes_of(n.subrange(i as int, (k + 1) as int)));
            }
            k += 1;
        }
        proof {
            assert(ascii_chars(rem.subrange(0, lab as int))) by {
                assert forall|q: int| 0 <= q < lab implies
                    (#[trigger] rem.subrange(0, lab as int)[q] as u32) < 128 by {
                    assert(rem.subrange(0, lab as int)[q] == n[i + q]);
                }
            }
        }
        if j == n_len {
            local.push(0);
            proof {
                assert(labels_ok(rem));
                assert(local@ =~= local1 + bytes_of(rem.subrange(0, lab as int)) + seq![0u8]) by {
                    assert(bytes_of(n.subrange(i as int, j as int)) =~= bytes_of(
                        rem.subrange(0, lab as int),
                    ));
                }
                assert(wname_labels(rem) =~= seq![lab as u8] + bytes_of(rem.subrange(0, lab as int))
                    + seq![0u8]);
                assert(wname_labels(n) =~= local@);
                assert(wname(n) == wname_labels(n));
            }
            let mut idx: usize = 0;
            let final_len = local.len();
            while idx < final_len
                invariant
                    final_len == local@.len(),
                    idx <= final_len,
                    out@ == old(out)@ + local@.subrange(0, idx as int),
                decreases final_len - idx,
            {
                out.push(local[idx]);
                proof {
                    assert(out@ =~= old(out)@ + local@.subrange(0, (idx + 1) as int));
                }
                idx += 1;
            }
            proof {
                assert(local@.subrange(0, final_len as int) =~= local@);
                assert(out@ =~= old(out)@ + wname(n));
            }
            return Ok(());
        }
        // a dot at j; the label is followed by more of the name
        proof {
            assert(local@ =~= local1 + bytes_of(rem.subrange(0, lab as int))) by {
                assert(bytes_of(n.subrange(i as int, j as int)) =~= bytes_of(
                    rem.subrange(0, lab as int),
                ));
            }
        }
        let next = j + 1;
        proof {
            let rem2 = n.subrange(next as int, n.len() as int);
            assert(rem.subrange(lab + 1, rem.len() as int) =~= rem2);
            assert(labels_ok(rem) <==> labels_ok(rem2));
            assert(wname_labels(rem) =~= seq![lab as u8] + bytes_of(rem.subrange(0, lab as int))
                + wname_labels(rem2));
            assert(wname_labels(n) =~= local@ + wname_labels(rem2));
        }
        i = next;
        if i == n_len {
            // the name ended with a dot; the remainder is empty
            local.push(0);
            proof {
                assert(n.subrange(i as int, n.len() as int) =~= Seq::<char>::empty());
                assert(wname_labels(n) =~= local@);
                assert(labels_ok(n));
                assert(wname(n) == wname_labels(n));
            }
            let mut idx: usize = 0;
            let final_len = local.len();
            while idx < final_len
                invariant
                    final_len == local@.len(),
                    idx <= final_len,
                    out@ == old(out)@ + local@.subrange(0, idx as int),
                decreases final_len - idx,
            {
                out.push(local[idx]);
                proof {
                    assert(out@ =~= old(out)@ + local@.subrange(0, (idx + 1) as int));
                }
                idx += 1;
            }
            proof {
                assert(local@.subrange(0, final_len as int) =~= local@);
                assert(out@ =~= old(out)@ + wname(n));
            }
            return Ok(());
        }
    }
}

} // verus!
