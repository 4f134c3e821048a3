//! A domain name held as a vector of labels, each kept in ASCII form;
//! labels given in Unicode are carried to ASCII with the Punycode
//! encoder under the ACE prefix.

use vstd::prelude::*;

use crate::errors::ParseError;
use crate::punycode;
use crate::qname::ascii_chars;
use crate::strutil::{push_char, utf8_to_string};

verus! {

/// A domain name: a sequence of labels.  Each label is 1 to 63 ASCII
/// characters, and together they stay within the 253-character bound
/// on a full name.
pub struct Name {
    labels: Vec<String>,
}

/// The character sequences of a vector of strings.
pub open spec fn strings_view(v: Seq<String>) -> Seq<Seq<char>> {
    v.map_values(|s: String| s@)
}

impl View for Name {
    type V = Seq<Seq<char>>;

    closed spec fn view(&self) -> Seq<Seq<char>> {
        strings_view(self.labels@)
    }
}

/// A single well-formed label.
pub open spec fn label_wf(l: Seq<char>) -> bool {
    1 <= l.len() <= 63 && ascii_chars(l)
}

/// The combined length of a sequence of labels.
pub open spec fn labels_len(ls: Seq<Seq<char>>) -> int
    decreases ls.len(),
{
    if ls.len() == 0 {
        0
    } else {
        ls[0].len() + labels_len(ls.subrange(1, ls.len() as int))
    }
}

/// The text of a name: each label followed by a dot, or a bare dot for
/// the root name.
pub open spec fn name_join(ls: Seq<Seq<char>>) -> Seq<char>
    decreases ls.len(),
{
    if ls.len() == 0 {
        Seq::empty()
    } else {
        ls[0] + seq!['.'] + name_join(ls.subrange(1, ls.len() as int))
    }
}

/// The text form of a name value.
pub open spec fn name_text(ls: Seq<Seq<char>>) -> Seq<char> {
    if ls.len() == 0 {
        seq!['.']
    } else {
        name_join(ls)
    }
}

/// The labels a string splits into at dots, with a trailing dot ending
/// the last label rather than opening an empty one.
pub open spec fn split_name(cs: Seq<char>) -> Seq<Seq<char>>
    decreases cs.len(),
{
    if cs.len() == 0 {
        Seq::empty()
    } else {
        let e = crate::resource::find_char(cs, '.');
        if 0 <= e && e < cs.len() {
            if e + 1 == cs.len() {
                seq![cs.subrange(0, e)]
            } else {
                seq![cs.subrange(0, e)] + split_name(cs.subrange(e + 1, cs.len() as int))
            }
        } else {
            seq![cs]
        }
    }
}

/// Every label is well formed and together they fit the length bound
/// on a whole name.
pub open spec fn labels_wf(ls: Seq<Seq<char>>) -> bool {
    (forall|i: int| 0 <= i < ls.len() ==> label_wf(#[trigger] ls[i])) && labels_len(ls) <= 253
}

impl Name {
    /// Whether every label is well formed and the whole name fits the
    /// length bound.
    pub open spec fn wf(&self) -> bool {
        labels_wf(self@)
    }

    /// The name with no labels at all: the root.
    pub fn empty() -> (r: Name)
        ensures
            r@ == Seq::<Seq<char>>::empty(),
            r.wf(),
    {
        let n = Name { labels: Vec::new() };
        proof {
            assert(n@ =~= Seq::<Seq<char>>::empty());
        }
        n
    }

    /// Checks one label, carrying a non-ASCII label to ASCII with the
    /// Punycode encoder under the ACE prefix.  An empty label, a label
    /// that cannot be encoded, and an encoded label longer than 63
    /// characters are rejected.
    fn valid_label(label: String) -> (r: Result<String, ParseError>)
        ensures
            match r {
                Ok(s) => 1 <= s@.len() <= 63 && ascii_chars(s@) && (label.is_ascii() ==> s@
                    == label@) && (!label.is_ascii() ==> s@.len() >= 4 && s@.subrange(0, 4)
                    == seq!['x', 'n', '-', '-']),
                Err(_) => true,
            },
            label.is_ascii() ==> (r is Ok <==> 1 <= label@.len() <= 63),
            label@.len() == 0 ==> r is Err,
    {
        let llen = label.as_str().unicode_len();
        if llen == 0 {
            return Err(ParseError::EmptyLabel);
        }
        if !label.as_str().is_ascii() {
            let puny = match punycode::encode(label.as_str()) {
                Ok(p) => p,
                Err(_) => {
                    return Err(ParseError::InvalidDomain);
                },
            };
            let prefixed = String::from_str("xn--").concat(puny.as_str());
            proof {
                reveal_strlit("xn--");
                assert(ascii_chars(prefixed@)) by {
                    assert forall|i: int| 0 <= i < prefixed@.len() implies (
                    #[trigger] prefixed@[i] as u32) < 128 by {
                        if i >= 4 {
                            assert(prefixed@[i] == puny@[i - 4]);
                        } else {
                            assert(prefixed@[i] == "xn--"@[i]);
                        }
                    }
                }
            }
            let plen = prefixed.as_str().unicode_len();
            if plen > 63 {
                return Err(ParseError::LabelTooLong);
            }
            proof {
                reveal_strlit("xn--");
                assert(prefixed@.len() >= 4);
                assert(prefixed@.subrange(0, 4) =~= "xn--"@);
                assert("xn--"@ =~= seq!['x', 'n', '-', '-']);
            }
            return Ok(prefixed);
        }
        if llen > 63 {
            return Err(ParseError::LabelTooLong);
        }
        proof {
            assert forall|i: int| 0 <= i < label@.len() implies (#[trigger] label@[i] as u32)
                < 128 by {
                assert('\0' <= label@[i] <= '\u{7f}');
                crate::qname::lemma_char_ascii(label@[i]);
            }
        }
        Ok(label)
    }

    /// Reads a name from a UTF-8 byte slice: the bytes are decoded and
    /// parsed as a domain name.
    pub fn from_label_slice(buf: &[u8]) -> (r: Result<Name, ParseError>)
        ensures
            !vstd::utf8::valid_utf8(buf@) ==> r is Err,
            vstd::utf8::valid_utf8(buf@) && ascii_chars(vstd::utf8::decode_utf8(buf@)) ==> (r is Ok
                <==> labels_wf(split_name(vstd::utf8::decode_utf8(buf@)))),
            r matches Ok(n) ==> n.wf() && (ascii_chars(vstd::utf8::decode_utf8(buf@)) ==> n@
                == split_name(vstd::utf8::decode_utf8(buf@))),
    {
        let s = match utf8_to_string(buf) {
            Some(s) => s,
            None => {
                return Err(ParseError::InvalidLabel);
            },
        };
        Name::from_str(s.as_str())
    }

    /// Parses a fully qualified domain name, with or without a
    /// trailing dot, in ASCII or Unicode.  The name is split at dots;
    /// Unicode labels are carried to ASCII.  For an ASCII input the
    /// parse succeeds exactly when every label of the split is well
    /// formed and the labels together fit the length bound, and then
    /// the name holds exactly those labels.
    pub fn from_str(s: &str) -> (r: Result<Name, ParseError>)
        ensures
            r matches Ok(n) ==> n.wf() && (ascii_chars(s@) ==> n@ == split_name(s@)),
            ascii_chars(s@) ==> (r is Ok <==> labels_wf(split_name(s@))),
    {
        let ghost cs = s@;
        let ghost asc = ascii_chars(cs);
        let n_len = s.unicode_len();
        let mut labels: Vec<String> = Vec::new();
        let mut total: usize = 0;
        let mut i: usize = 0;
        proof {
            assert(strings_view(labels@) =~= Seq::<Seq<char>>::empty());
            if asc {
                assert(cs.subrange(0, n_len as int) =~= cs);
                assert(strings_view(labels@) + split_name(cs) =~= split_name(cs));
            }
        }
        while i < n_len
            invariant
                n_len == cs.len(),
                cs == s@,
                asc == ascii_chars(cs),
                i <= n_len,
                total <= 253,
                labels_len(strings_view(labels@)) == total,
                forall|k: int|
                    0 <= k < labels@.len() ==> label_wf(#[trigger] strings_view(labels@)[k]),
                asc ==> split_name(cs) == strings_view(labels@) + split_name(
                    cs.subrange(i as int, n_len as int),
                ),
            decreases n_len - i,
        {
            // scan one label up to the next dot or the end
            let mut piece = String::new();
            let mut j = i;
            while j < n_len && s.get_char(j) != '.'
                invariant
                    n_len == cs.len(),
                    cs == s@,
                    i <= j <= n_len,
                    piece@ == cs.subrange(i as int, j as int),
                    forall|k: int| i <= k < j ==> #[trigger] cs[k] != '.',
                decreases n_len - j,
            {
                let c = s.get_char(j);
                push_char(&mut piece, c);
                proof {
                    assert(piece@ =~= cs.subrange(i as int, (j + 1) as int));
                }
                j += 1;
            }
            // relate the scan to the split of the remaining input
            let ghost m = cs.subrange(i as int, n_len as int);
            let ghost e = (j - i) as int;
            proof {
                assert forall|k: int| 0 <= k < e implies #[trigger] m[k] != '.' by {
                    assert(m[k] == cs[i + k]);
                }
                if j < n_len {
                    assert(m[e] == cs[j as int]);
                }
                crate::resource::lemma_find_char_from_scan(m, '.', e);
                assert(piece@ =~= m.subrange(0, e));
                if asc {
                    if e == m.len() {
                        assert(split_name(m) =~= seq![piece@]) by {
                            assert(m =~= piece@);
                        }
                    } else if e + 1 == m.len() {
                        assert(split_name(m) =~= seq![piece@]);
                    } else {
                        assert(m.subrange(e + 1, m.len() as int) =~= cs.subrange(
                            (j + 1) as int,
                            n_len as int,
                        ));
                        assert(split_name(m) =~= seq![piece@] + split_name(
                            cs.subrange((j + 1) as int, n_len as int),
                        ));
                    }
                    assert(ascii_chars(piece@)) by {
                        assert forall|k: int| 0 <= k < piece@.len() implies (
                        #[trigger] piece@[k] as u32) < 128 by {
                            assert(piece@[k] == cs[i + k]);
                        }
                    }
                    assert(piece.is_ascii()) by {
                        assert forall|k: int| 0 <= k < piece@.len() implies '\0'
                            <= #[trigger] piece@[k] <= '\u{7f}' by {
                            crate::qname::lemma_char_ascii_range(piece@[k]);
                        }
                    }
                }
            }
            let ghost piece_cs = piece@;
            let checked = match Name::valid_label(piece) {
                Ok(l) => l,
                Err(e2) => {
                    proof {
                        if asc {
                            // the offending label sits in the split, so the
                            // split is not well formed
                            let idx = strings_view(labels@).len() as int;
                            assert(split_name(cs)[idx] == piece_cs);
                            assert(!label_wf(piece_cs));
                            assert(!labels_wf(split_name(cs)));
                        }
                    }
                    return Err(e2);
                },
            };
            let clen = checked.as_str().unicode_len();
            if clen > 253 - total {
                proof {
                    if asc {
                        // the split's labels together overrun the bound
                        let prefix = strings_view(labels@);
                        let rest = split_name(cs.subrange(i as int, n_len as int));
                        lemma_labels_len_concat(prefix, rest);
                        assert(rest[0] == piece_cs);
                        assert(checked@ == piece_cs);
                        if rest.len() > 1 {
                            lemma_labels_len_nonneg(rest.subrange(1, rest.len() as int));
                            assert(labels_len(rest) == piece_cs.len() + labels_len(
                                rest.subrange(1, rest.len() as int),
                            )) by {
                                assert(rest.subrange(1, rest.len() as int).len() == rest.len()
                                    - 1);
                            }
                        } else {
                            assert(rest =~= seq![piece_cs]);
                            assert(labels_len(rest) == piece_cs.len() + labels_len(
                                rest.subrange(1, rest.len() as int),
                            )) by {
                                assert(rest.subrange(1, rest.len() as int)
                                    =~= Seq::<Seq<char>>::empty());
                            }
                        }
                        assert(labels_len(split_name(cs)) > 253);
                        assert(!labels_wf(split_name(cs)));
                    }
                }
                return Err(ParseError::ResourceTooLong);
            }
            total = total + clen;
            let ghost old_ls = strings_view(labels@);
            labels.push(checked);
            proof {
                let new_ls = strings_view(labels@);
                assert(new_ls =~= old_ls + seq![checked@]);
                lemma_labels_len_push(old_ls, checked@);
            }
            // skip the dot, if any
            if j < n_len {
                i = j + 1;
            } else {
                i = j;
            }
            proof {
                if asc {
                    let rest = split_name(m);
                    if i == n_len {
                        assert(split_name(cs.subrange(i as int, n_len as int))
                            =~= Seq::<Seq<char>>::empty()) by {
                            assert(cs.subrange(i as int, n_len as int) =~= Seq::<char>::empty());
                        }
                        assert(rest =~= seq![piece_cs]);
                        assert(split_name(cs) =~= strings_view(labels@) + split_name(
                            cs.subrange(i as int, n_len as int),
                        ));
                    } else {
                        assert(rest =~= seq![piece_cs] + split_name(
                            cs.subrange(i as int, n_len as int),
                        ));
                        assert(split_name(cs) =~= strings_view(labels@) + split_name(
                            cs.subrange(i as int, n_len as int),
                        ));
                    }
                }
            }
        }
        proof {
            if asc {
                assert(split_name(cs.subrange(n_len as int, n_len as int))
                    =~= Seq::<Seq<char>>::empty()) by {
                    assert(cs.subrange(n_len as int, n_len as int) =~= Seq::<char>::empty());
                }
                assert(split_name(cs) =~= strings_view(labels@));
            }
        }
        Ok(Name { labels })
    }

    /// The text of this name: each label followed by a dot, or a bare
    /// dot for the root name.
    pub fn to_string(&self) -> (r: String)
        ensures
            r@ == name_text(self@),
    {
        let ln = self.labels.len();
        if ln == 0 {
            let mut root = String::new();
            push_char(&mut root, '.');
            proof {
                assert(root@ =~= seq!['.']);
            }
            return root;
        }
        let mut out = String::new();
        let mut i: usize = 0;
        proof {
            assert(self@.subrange(0, self@.len() as int) =~= self@);
            assert(out@ + name_join(self@) =~= name_join(self@));
        }
        while i < ln
            invariant
                ln == self.labels@.len(),
                i <= ln,
                name_join(self@) == out@ + name_join(self@.subrange(i as int, self@.len() as int)),
            decreases ln - i,
        {
            let ghost rem = self@.subrange(i as int, self@.len() as int);
            out.append(self.labels[i].as_str());
            push_char(&mut out, '.');
            proof {
                assert(rem[0] == self@[i as int]);
                assert(rem.subrange(1, rem.len() as int) =~= self@.subrange(
                    (i + 1) as int,
                    self@.len() as int,
                ));
                assert(name_join(rem) =~= self@[i as int] + seq!['.'] + name_join(
                    self@.subrange((i + 1) as int, self@.len() as int),
                ));
                assert(name_join(self@) =~= out@ + name_join(
                    self@.subrange((i + 1) as int, self@.len() as int),
                ));
            }
            i += 1;
        }
        proof {
            assert(self@.subrange(ln as int, self@.len() as int) =~= Seq::<Seq<char>>::empty());
            assert(out@ =~= name_join(self@));
        }
        out
    }
}

/// The combined length of labels is never negative.
proof fn lemma_labels_len_nonneg(ls: Seq<Seq<char>>)
    ensures
        labels_len(ls) >= 0,
    decreases ls.len(),
{
    if ls.len() > 0 {
        lemma_labels_len_nonneg(ls.subrange(1, ls.len() as int));
    }
}

/// The combined length of labels adds up over concatenation.
proof fn lemma_labels_len_concat(a: Seq<Seq<char>>, b: Seq<Seq<char>>)
    ensures
        labels_len(a + b) == labels_len(a) + labels_len(b),
    decreases a.len(),
{
    if a.len() == 0 {
        assert(a + b =~= b);
    } else {
        let whole = a + b;
        assert(whole[0] == a[0]);
        assert(whole.subrange(1, whole.len() as int) =~= a.subrange(1, a.len() as int) + b);
        lemma_labels_len_concat(a.subrange(1, a.len() as int), b);
    }
}

/// The combined length grows by the appended label's length.
proof fn lemma_labels_len_push(ls: Seq<Seq<char>>, l: Seq<char>)
    ensures
        labels_len(ls + seq![l]) == labels_len(ls) + l.len(),
    decreases ls.len(),
{
    reveal_with_fuel(labels_len, 3);
    let whole = ls + seq![l];
    if ls.len() == 0 {
        assert(whole.subrange(1, whole.len() as int) =~= Seq::<Seq<char>>::empty());
        assert(whole[0] == l);
    } else {
        assert(whole[0] == ls[0]);
        assert(whole.subrange(1, whole.len() as int) =~= ls.subrange(1, ls.len() as int) + seq![l]);
        lemma_labels_len_push(ls.subrange(1, ls.len() as int), l);
    }
}

} // verus!
