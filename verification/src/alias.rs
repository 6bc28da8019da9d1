//! File aliases: the short upper-case tokens `A`..`Z`, `AA`..`ZZ`, `AAA`..`ZZZ`
//! that stand for the tracked files, their enumeration by rank and their order.

use vstd::prelude::*;
use vstd::string::StringSliceAdditionalSpecFns;

verus! {

/// How many aliases there are: 26 + 26² + 26³.
pub const ALIAS_COUNT: usize = 18278;

// ---------------------------------------------------------------------------
// The mathematics of tokens
// ---------------------------------------------------------------------------

/// Whether `c` is one of `A`..`Z`.
pub open spec fn is_upper(c: char) -> bool {
    'A' <= c <= 'Z'
}

/// A token is one to three upper-case letters.
pub open spec fn is_token(s: Seq<char>) -> bool {
    &&& 1 <= s.len() <= 3
    &&& forall|i: int| 0 <= i < s.len() ==> is_upper(#[trigger] s[i])
}

/// The letter with index `d` in the alphabet, `A` having index 0.
pub open spec fn letter(d: int) -> char {
    (65 + d) as char
}

/// The index of a letter in the alphabet.
pub open spec fn letter_index(c: char) -> int {
    c as int - 65
}

/// The token with the given rank in the sequence A, B, .., Z, AA, AB, .., ZZ,
/// AAA, .., ZZZ: shorter tokens first, and within one length in base 26 with
/// the most significant letter first. Meant for ranks below `ALIAS_COUNT`.
pub open spec fn nth_letters(rank: nat) -> Seq<char> {
    if rank < 26 {
        seq![letter(rank as int)]
    } else if rank < 702 {
        let r = rank - 26;
        seq![letter(r / 26), letter(r % 26)]
    } else {
        let r = rank - 702;
        seq![letter(r / 676), letter((r / 26) % 26), letter(r % 26)]
    }
}

/// The rank of a token: the inverse of `nth_letters`.
pub open spec fn letters_rank(s: Seq<char>) -> nat {
    if s.len() == 1 {
        letter_index(s[0]) as nat
    } else if s.len() == 2 {
        (26 + letter_index(s[0]) * 26 + letter_index(s[1])) as nat
    } else {
        (702 + letter_index(s[0]) * 676 + letter_index(s[1]) * 26 + letter_index(s[2])) as nat
    }
}

/// Lexicographic order of two character sequences.
pub open spec fn lex_lt(a: Seq<char>, b: Seq<char>) -> bool
    decreases a.len(),
{
    if a.len() == 0 || b.len() == 0 {
        a.len() < b.len()
    } else if a[0] != b[0] {
        a[0] < b[0]
    } else {
        lex_lt(a.skip(1), b.skip(1))
    }
}

/// The order of aliases: by length first, then lexicographically.
pub open spec fn alias_lt(a: Seq<char>, b: Seq<char>) -> bool {
    a.len() < b.len() || (a.len() == b.len() && lex_lt(a, b))
}

/// Every rank below `ALIAS_COUNT` names a token, and that token has this rank.
pub proof fn lemma_nth_letters(rank: nat)
    requires
        rank < ALIAS_COUNT,
    ensures
        is_token(nth_letters(rank)),
        letters_rank(nth_letters(rank)) == rank,
{
    let s = nth_letters(rank);
    assert forall|i: int| 0 <= i < s.len() implies is_upper(#[trigger] s[i]) by {}
}

/// Every token has a rank below `ALIAS_COUNT` and is the token of that rank.
pub proof fn lemma_letters_rank(s: Seq<char>)
    requires
        is_token(s),
    ensures
        letters_rank(s) < ALIAS_COUNT,
        nth_letters(letters_rank(s)) == s,
{
    assert(is_upper(s[0]));
    if s.len() >= 2 {
        assert(is_upper(s[1]));
    }
    if s.len() >= 3 {
        assert(is_upper(s[2]));
    }
    assert(nth_letters(letters_rank(s)) =~= s);
}

/// Sequences of one length are in lexicographic order when they differ first
/// at a place where the first has the smaller character.
proof fn lemma_lex_lt_at(a: Seq<char>, b: Seq<char>, k: int)
    requires
        a.len() == b.len(),
        0 <= k < a.len(),
        forall|i: int| 0 <= i < k ==> a[i] == b[i],
        a[k] < b[k],
    ensures
        lex_lt(a, b),
    decreases k,
{
    if k > 0 {
        assert(a[0] == b[0]);
        let x = a.skip(1);
        let y = b.skip(1);
        assert forall|i: int| 0 <= i < k - 1 implies x[i] == y[i] by {
            assert(x[i] == a[i + 1] && y[i] == b[i + 1]);
        }
        assert(x[k - 1] == a[k] && y[k - 1] == b[k]);
        lemma_lex_lt_at(x, y, k - 1);
    }
}

/// Sequences of one length are not in lexicographic order when they are the
/// same, or differ first at a place where the first has the larger character.
proof fn lemma_lex_not_lt(a: Seq<char>, b: Seq<char>, k: int)
    requires
        a.len() == b.len(),
        0 <= k <= a.len(),
        forall|i: int| 0 <= i < k ==> a[i] == b[i],
        k < a.len() ==> a[k] > b[k],
    ensures
        !lex_lt(a, b),
    decreases k,
{
    if k > 0 {
        assert(a[0] == b[0]);
        let x = a.skip(1);
        let y = b.skip(1);
        assert forall|i: int| 0 <= i < k - 1 implies x[i] == y[i] by {
            assert(x[i] == a[i + 1] && y[i] == b[i + 1]);
        }
        if k < a.len() {
            assert(x[k - 1] == a[k] && y[k - 1] == b[k]);
        }
        lemma_lex_not_lt(x, y, k - 1);
    }
}

/// Of two numbers the smaller has the smaller quotient, or the same quotient
/// and the smaller remainder.
proof fn lemma_quotient_order(r: int, s: int)
    requires
        0 <= r < s,
    ensures
        r / 26 < s / 26 || (r / 26 == s / 26 && r % 26 < s % 26),
        0 <= r / 26,
        0 <= r % 26 < 26,
{
    vstd::arithmetic::div_mod::lemma_div_is_ordered(r, s, 26);
    vstd::arithmetic::div_mod::lemma_fundamental_div_mod(r, 26);
    vstd::arithmetic::div_mod::lemma_fundamental_div_mod(s, 26);
}

/// The enumeration is strictly increasing in the alias order: a smaller rank
/// gives a smaller alias.
pub proof fn lemma_nth_strictly_increasing(i: nat, j: nat)
    requires
        i < j < ALIAS_COUNT,
    ensures
        alias_lt(nth_letters(i), nth_letters(j)),
{
    let a = nth_letters(i);
    let b = nth_letters(j);
    if j < 26 {
        lemma_lex_lt_at(a, b, 0);
    } else if i < 26 {
        assert(a.len() < b.len());
    } else if j < 702 {
        let r = i - 26;
        let s = j - 26;
        lemma_quotient_order(r, s);
        lemma_quotient_order(s, 676);
        if r / 26 < s / 26 {
            lemma_lex_lt_at(a, b, 0);
        } else {
            lemma_lex_lt_at(a, b, 1);
        }
    } else if i < 702 {
        assert(a.len() < b.len());
    } else {
        let r = i - 702;
        let s = j - 702;
        let hr = r / 26;
        let hs = s / 26;
        lemma_quotient_order(r, s);
        lemma_quotient_order(s, 17576);
        vstd::arithmetic::div_mod::lemma_div_denominator(r, 26, 26);
        vstd::arithmetic::div_mod::lemma_div_denominator(s, 26, 26);
        assert(r / 676 == hr / 26);
        assert(s / 676 == hs / 26);
        assert(hs < 676);
        if hr < hs {
            lemma_quotient_order(hr, hs);
            lemma_quotient_order(hs, 676);
            if hr / 26 < hs / 26 {
                lemma_lex_lt_at(a, b, 0);
            } else {
                lemma_lex_lt_at(a, b, 1);
            }
        } else {
            lemma_lex_lt_at(a, b, 2);
        }
    }
}

// ---------------------------------------------------------------------------
// The alias type
// ---------------------------------------------------------------------------

/// The low byte of a character's code point.
pub open spec fn low_byte(c: char) -> u8 {
    (c as u32 % 256) as u8
}

/// What `String::from_utf8_lossy` makes of a byte sequence.
pub uninterp spec fn lossy_text(bytes: Seq<u8>) -> Seq<char>;

/// `String::from_utf8_lossy`, then `Cow::into_owned`: the text that the bytes
/// encode, ill-formed parts replaced. Bytes that are all ASCII are valid UTF-8
/// and come back as the characters with the same codes.
#[verifier::external_body]
fn utf8_lossy(bytes: &[u8]) -> (s: String)
    ensures
        s@ == lossy_text(bytes@),
        (forall|i: int| 0 <= i < bytes@.len() ==> #[trigger] bytes@[i] < 128) ==> s@ == Seq::new(
            bytes@.len(),
            |i: int| bytes@[i] as char,
        ),
{
    String::from_utf8_lossy(bytes).into_owned()
}

/// A file's alias: up to three bytes, by convention the letters of a token.
///
/// The value is small and `Copy`; two aliases are equal exactly when their
/// texts are equal.
#[derive(Clone, Copy, Debug, PartialEq, Eq, Ord, Hash, Structural)]
pub struct FileAlias {
    len: u8,
    b0: u8,
    b1: u8,
    b2: u8,
}

impl View for FileAlias {
    type V = Seq<char>;

    /// The alias as text: each stored byte as the character with that code.
    closed spec fn view(&self) -> Seq<char> {
        Seq::new(self.bytes().len(), |i: int| self.bytes()[i] as char)
    }
}

impl FileAlias {
    /// At most three bytes are in use, and the unused ones are zero.
    #[verifier::type_invariant]
    pub closed spec fn wf(self) -> bool {
        &&& self.len <= 3
        &&& (self.len < 1 ==> self.b0 == 0)
        &&& (self.len < 2 ==> self.b1 == 0)
        &&& (self.len < 3 ==> self.b2 == 0)
    }

    /// The bytes in use.
    pub closed spec fn bytes(self) -> Seq<u8> {
        seq![self.b0, self.b1, self.b2].take(self.len as int)
    }

    /// Whether every byte is ASCII.
    pub open spec fn is_ascii(self) -> bool {
        forall|i: int| 0 <= i < self.bytes().len() ==> #[trigger] self.bytes()[i] < 128
    }

    /// The text has one character per byte, with that byte's code.
    pub proof fn lemma_view(self)
        requires
            self.wf(),
        ensures
            self@.len() == self.bytes().len(),
            self.bytes().len() <= 3,
            forall|i: int| 0 <= i < self@.len() ==> #[trigger] self@[i] == self.bytes()[i] as char,
    {
    }

    /// Aliases with the same text are the same alias.
    pub proof fn lemma_equal_by_text(self, other: FileAlias)
        requires
            self.wf(),
            other.wf(),
            self@ == other@,
        ensures
            self == other,
    {
        assert(self@.len() == other@.len());
        self.lemma_view();
        other.lemma_view();
        assert(self.bytes().len() == self.len);
        assert(other.bytes().len() == other.len);
        assert(self.len == other.len);
        if self.len >= 1 {
            assert(self@[0] == other@[0]);
            assert(self@[0] as int == self.b0 as int);
            assert(other@[0] as int == other.b0 as int);
        }
        if self.len >= 2 {
            assert(self@[1] == other@[1]);
            assert(self@[1] as int == self.b1 as int);
            assert(other@[1] as int == other.b1 as int);
        }
        if self.len >= 3 {
            assert(self@[2] == other@[2]);
            assert(self@[2] as int == self.b2 as int);
            assert(other@[2] as int == other.b2 as int);
        }
    }

    /// The alias made of the first three characters of `chars` (of all of them
    /// if there are fewer), each stored as the low byte of its code point.
    pub fn new(chars: &[char]) -> (a: Self)
        ensures
            a.wf(),
            a.bytes() == Seq::new(
                if chars@.len() < 3 {
                    chars@.len()
                } else {
                    3
                },
                |i: int| low_byte(chars@[i]),
            ),
            is_token(chars@) ==> a@ == chars@,
    {
        let n: usize = if chars.len() < 3 {
            chars.len()
        } else {
            3
        };
        let b0: u8 = if n > 0 {
            (chars[0] as u32 % 256) as u8
        } else {
            0
        };
        let b1: u8 = if n > 1 {
            (chars[1] as u32 % 256) as u8
        } else {
            0
        };
        let b2: u8 = if n > 2 {
            (chars[2] as u32 % 256) as u8
        } else {
            0
        };
        let a = FileAlias { len: n as u8, b0, b1, b2 };
        proof {
            assert(a.bytes() =~= Seq::new(n as nat, |i: int| low_byte(chars@[i])));
            if is_token(chars@) {
                assert forall|i: int| 0 <= i < chars@.len() implies a@[i] == chars@[i] by {
                    assert(is_upper(chars@[i]));
                }
                assert(a@ =~= chars@);
            }
        }
        a
    }

    /// The alias made of the first three bytes of the UTF-8 encoding of `s`
    /// (of all of them if there are fewer).
    pub fn from_str(s: &str) -> (a: Self)
        ensures
            a.wf(),
            a.bytes() == s.spec_bytes().take(
                if s.spec_bytes().len() < 3 {
                    s.spec_bytes().len() as int
                } else {
                    3
                },
            ),
            is_token(s@) ==> a@ == s@,
    {
        let bytes = s.as_bytes();
        let n: usize = if bytes.len() < 3 {
            bytes.len()
        } else {
            3
        };
        let b0: u8 = if n > 0 {
            bytes[0]
        } else {
            0
        };
        let b1: u8 = if n > 1 {
            bytes[1]
        } else {
            0
        };
        let b2: u8 = if n > 2 {
            bytes[2]
        } else {
            0
        };
        let a = FileAlias { len: n as u8, b0, b1, b2 };
        proof {
            assert(a.bytes() =~= s.spec_bytes().take(n as int));
            if is_token(s@) {
                assert forall|i: int| 0 <= i < s@.len() implies (#[trigger] s@[i]) as int <= 127 by {
                    assert(is_upper(s@[i]));
                }
                assert(vstd::string::is_ascii(s));
                vstd::string::is_ascii_spec_bytes(s);
                assert(a@ =~= s@);
            }
        }
        a
    }

    /// The alias whose text is `letters`, if that is a token.
    pub fn from_letters(letters: &[char]) -> (r: Option<Self>)
        ensures
            r is Some <==> is_token(letters@),
            r matches Some(a) ==> a.wf() && a@ == letters@,
    {
        if letters.len() < 1 || letters.len() > 3 {
            return None;
        }
        let mut i: usize = 0;
        while i < letters.len()
            invariant
                i <= letters.len(),
                forall|k: int| 0 <= k < i ==> is_upper(#[trigger] letters@[k]),
            decreases letters.len() - i,
        {
            let c: char = letters[i];
            if !(c >= 'A' && c <= 'Z') {
                return None;
            }
            i += 1;
        }
        Some(FileAlias::new(letters))
    }

    /// The alias with the given rank, or `None` once the ranks are used up.
    pub fn nth(rank: usize) -> (r: Option<Self>)
        ensures
            r is Some <==> rank < ALIAS_COUNT,
            r matches Some(a) ==> a.wf() && a@ == nth_letters(rank as nat),
    {
        if rank < 26 {
            let a = FileAlias { len: 1, b0: 65 + rank as u8, b1: 0, b2: 0 };
            assert(a@ =~= nth_letters(rank as nat));
            Some(a)
        } else if rank < 702 {
            let r: usize = rank - 26;
            let a = FileAlias { len: 2, b0: 65 + (r / 26) as u8, b1: 65 + (r % 26) as u8, b2: 0 };
            assert(a@ =~= nth_letters(rank as nat));
            Some(a)
        } else if rank < ALIAS_COUNT {
            let r: usize = rank - 702;
            let a = FileAlias {
                len: 3,
                b0: 65 + (r / 676) as u8,
                b1: 65 + ((r / 26) % 26) as u8,
                b2: 65 + (r % 26) as u8,
            };
            assert(a@ =~= nth_letters(rank as nat));
            Some(a)
        } else {
            None
        }
    }

    /// The rank of this alias, if its text is a token.
    pub fn rank(&self) -> (r: Option<usize>)
        ensures
            r is Some <==> is_token(self@),
            r matches Some(k) ==> k == letters_rank(self@) && k < ALIAS_COUNT,
    {
        proof {
            use_type_invariant(self);
        }
        let ok0: bool = self.len >= 1 && 65 <= self.b0 && self.b0 <= 90;
        let ok1: bool = self.len < 2 || (65 <= self.b1 && self.b1 <= 90);
        let ok2: bool = self.len < 3 || (65 <= self.b2 && self.b2 <= 90);
        if ok0 && ok1 && ok2 {
            let d0: usize = (self.b0 - 65) as usize;
            proof {
                assert forall|i: int| 0 <= i < self@.len() implies is_upper(#[trigger] self@[i]) by {}
                lemma_letters_rank(self@);
            }
            if self.len == 1 {
                Some(d0)
            } else if self.len == 2 {
                let d1: usize = (self.b1 - 65) as usize;
                Some(26 + d0 * 26 + d1)
            } else {
                let d1: usize = (self.b1 - 65) as usize;
                let d2: usize = (self.b2 - 65) as usize;
                Some(702 + d0 * 676 + d1 * 26 + d2)
            }
        } else {
            proof {
                if is_token(self@) {
                    assert(is_upper(self@[0]));
                    if self.len >= 2 {
                        assert(is_upper(self@[1]));
                    }
                    if self.len >= 3 {
                        assert(is_upper(self@[2]));
                    }
                }
            }
            None
        }
    }

    /// The characters of the alias.
    pub fn letters(&self) -> (v: Vec<char>)
        ensures
            v@ == self@,
    {
        proof {
            use_type_invariant(self);
        }
        let mut v: Vec<char> = Vec::new();
        if self.len >= 1 {
            v.push(self.b0 as char);
        }
        if self.len >= 2 {
            v.push(self.b1 as char);
        }
        if self.len >= 3 {
            v.push(self.b2 as char);
        }
        assert(v@ =~= self@);
        v
    }

    /// The alias as a string, decoded as UTF-8 with ill-formed parts replaced.
    /// For ASCII bytes, and so for every token, this is the alias's text.
    pub fn val(&self) -> (s: String)
        ensures
            s@ == lossy_text(self.bytes()),
            self.is_ascii() ==> s@ == self@,
            is_token(self@) ==> s@ == self@,
    {
        proof {
            use_type_invariant(self);
        }
        let mut v: Vec<u8> = Vec::new();
        if self.len >= 1 {
            v.push(self.b0);
        }
        if self.len >= 2 {
            v.push(self.b1);
        }
        if self.len >= 3 {
            v.push(self.b2);
        }
        assert(v@ =~= self.bytes());
        let s = utf8_lossy(v.as_slice());
        proof {
            if is_token(self@) {
                assert forall|i: int| 0 <= i < self.bytes().len() implies #[trigger] self.bytes()[i]
                    < 128 by {
                    assert(is_upper(self@[i]));
                }
            }
            if self.is_ascii() {
                assert(s@ =~= self@);
            }
        }
        s
    }

    /// Whether this alias comes before `other`: shorter first, and among equal
    /// lengths the lexicographically smaller first.
    pub fn precedes(&self, other: &FileAlias) -> (b: bool)
        ensures
            b == alias_lt(self@, other@),
    {
        proof {
            use_type_invariant(self);
            use_type_invariant(other);
            self.lemma_view();
            other.lemma_view();
            let a = self@;
            let o = other@;
            if self.len == other.len {
                assert(a.len() == o.len());
                assert forall|i: int| 0 <= i < a.len() implies (a[i] == o[i]) == (self.bytes()[i]
                    == other.bytes()[i]) && (a[i] < o[i]) == (self.bytes()[i] < other.bytes()[i]) by {
                    assert(a[i] as int == self.bytes()[i] as int);
                    assert(o[i] as int == other.bytes()[i] as int);
                }
                let k: int = if self.b0 != other.b0 {
                    0
                } else if self.b1 != other.b1 {
                    1
                } else if self.b2 != other.b2 {
                    2
                } else {
                    a.len() as int
                };
                if k < a.len() {
                    if a[k] < o[k] {
                        lemma_lex_lt_at(a, o, k);
                    } else {
                        lemma_lex_not_lt(a, o, k);
                    }
                } else {
                    lemma_lex_not_lt(a, o, a.len() as int);
                }
            }
        }
        if self.len != other.len {
            self.len < other.len
        } else if self.b0 != other.b0 {
            self.b0 < other.b0
        } else if self.b1 != other.b1 {
            self.b1 < other.b1
        } else {
            self.b2 < other.b2
        }
    }
}

// ---------------------------------------------------------------------------
// The generator
// ---------------------------------------------------------------------------

/// A producer of the aliases in rank order, one per call, until they are used
/// up. Each generator starts anew at `A` and shares nothing with another.
pub struct AliasIter {
    next_rank: usize,
}

/// A fresh generator, whose first alias is `A`.
pub fn alias_iter() -> (it: AliasIter)
    ensures
        it.position() == 0,
{
    AliasIter { next_rank: 0 }
}

impl AliasIter {
    /// The rank of the alias that the next call hands out.
    pub closed spec fn position(self) -> nat {
        self.next_rank as nat
    }

    /// The next unused alias, or `None` when all `ALIAS_COUNT` are handed out;
    /// from then on every call gives `None`.
    pub fn next(&mut self) -> (r: Option<FileAlias>)
        ensures
            r is Some <==> old(self).position() < ALIAS_COUNT,
            r matches Some(a) ==> a.wf() && a@ == nth_letters(old(self).position()),
            final(self).position() == if old(self).position() < ALIAS_COUNT {
                old(self).position() + 1
            } else {
                old(self).position()
            },
    {
        let r = FileAlias::nth(self.next_rank);
        if self.next_rank < ALIAS_COUNT {
            self.next_rank = self.next_rank + 1;
        }
        r
    }
}

} // verus!
