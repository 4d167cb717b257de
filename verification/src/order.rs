//! The total order that the map sorts by.
//!
//! Keys are compared through [`OrderedKey`], a strict total order `below`
//! together with an executable three-way comparison. Two keys neither of
//! which is below the other are *tied*; the map treats tied keys as the same
//! key. For integer keys tied means equal; for `String` keys it means the
//! character sequences are equal.

use vstd::prelude::*;

verus! {

/// Outcome of a three-way key comparison.
#[derive(PartialEq, Eq, Structural, Clone, Copy, Debug)]
pub enum KeyCmp {
    /// The first key is strictly below the second.
    Below,
    /// Neither key is below the other.
    Tied,
    /// The second key is strictly below the first.
    Above,
}

/// Two keys are tied when neither is below the other.
pub open spec fn tied<K: OrderedKey>(a: K, b: K) -> bool {
    !a.below(b) && !b.below(a)
}

/// A strict total order on keys, with an executable comparison that decides
/// it. The order must be asymmetric and transitive, and being tied must be
/// transitive as well, so that tied keys compare alike against every third
/// key.
pub trait OrderedKey: Sized {
    /// The strict order: `self` sorts before `other`.
    spec fn below(self, other: Self) -> bool;

    /// No two keys are below each other.
    proof fn lemma_asymmetry(a: Self, b: Self)
        requires
            a.below(b),
        ensures
            !b.below(a),
    ;

    /// The order is transitive.
    proof fn lemma_transitivity(a: Self, b: Self, c: Self)
        requires
            a.below(b),
            b.below(c),
        ensures
            a.below(c),
    ;

    /// Being tied is transitive.
    proof fn lemma_tied_transitivity(a: Self, b: Self, c: Self)
        requires
            !a.below(b) && !b.below(a),
            !b.below(c) && !c.below(b),
        ensures
            !a.below(c) && !c.below(a),
    ;

    /// Decide the order between two keys.
    fn key_cmp(&self, other: &Self) -> (c: KeyCmp)
        ensures
            c == KeyCmp::Below ==> self.below(*other),
            c == KeyCmp::Tied ==> !self.below(*other) && !other.below(*self),
            c == KeyCmp::Above ==> other.below(*self),
    ;
}

impl OrderedKey for u64 {
    open spec fn below(self, other: Self) -> bool {
        self < other
    }

    proof fn lemma_asymmetry(a: Self, b: Self) {
    }

    proof fn lemma_transitivity(a: Self, b: Self, c: Self) {
    }

    proof fn lemma_tied_transitivity(a: Self, b: Self, c: Self) {
    }

    fn key_cmp(&self, other: &Self) -> (c: KeyCmp) {
        if *self < *other {
            KeyCmp::Below
        } else if *self == *other {
            KeyCmp::Tied
        } else {
            KeyCmp::Above
        }
    }
}

// Congruence of the order with tied keys, derived from the trait laws.

/// A key below one of two tied keys is below the other.
pub proof fn lemma_below_tied<K: OrderedKey>(a: K, b: K, c: K)
    requires
        a.below(b),
        tied(b, c),
    ensures
        a.below(c),
{
    if !a.below(c) {
        if c.below(a) {
            K::lemma_transitivity(c, a, b);
        } else {
            K::lemma_tied_transitivity(a, c, b);
        }
    }
}

/// A key above one of two tied keys is above the other.
pub proof fn lemma_tied_below<K: OrderedKey>(a: K, b: K, c: K)
    requires
        tied(a, b),
        b.below(c),
    ensures
        a.below(c),
{
    if !a.below(c) {
        if c.below(a) {
            K::lemma_transitivity(b, c, a);
        } else {
            K::lemma_tied_transitivity(b, a, c);
        }
    }
}

// Lexicographic order on character sequences, and the `String` key instance.

/// Strict lexicographic order on character sequences, by code point.
pub open spec fn lex_below(a: Seq<char>, b: Seq<char>) -> bool
    decreases a.len(),
{
    if b.len() == 0 {
        false
    } else if a.len() == 0 {
        true
    } else if (a[0] as u32) < (b[0] as u32) {
        true
    } else if (b[0] as u32) < (a[0] as u32) {
        false
    } else {
        lex_below(a.subrange(1, a.len() as int), b.subrange(1, b.len() as int))
    }
}

/// The lexicographic order is asymmetric.
pub proof fn lemma_lex_asym(a: Seq<char>, b: Seq<char>)
    requires
        lex_below(a, b),
    ensures
        !lex_below(b, a),
    decreases a.len(),
{
    if b.len() == 0 {
    } else if a.len() == 0 {
    } else if (a[0] as u32) < (b[0] as u32) {
    } else if (b[0] as u32) < (a[0] as u32) {
    } else {
        lemma_lex_asym(a.subrange(1, a.len() as int), b.subrange(1, b.len() as int));
    }
}

/// The lexicographic order is transitive.
pub proof fn lemma_lex_trans(a: Seq<char>, b: Seq<char>, c: Seq<char>)
    requires
        lex_below(a, b),
        lex_below(b, c),
    ensures
        lex_below(a, c),
    decreases a.len(),
{
    if c.len() == 0 {
    } else if b.len() == 0 {
    } else if a.len() == 0 {
    } else {
        let a0 = a[0] as u32;
        let b0 = b[0] as u32;
        let c0 = c[0] as u32;
        if a0 == b0 && b0 == c0 {
            lemma_lex_trans(
                a.subrange(1, a.len() as int),
                b.subrange(1, b.len() as int),
                c.subrange(1, c.len() as int),
            );
        }
    }
}

/// Sequences neither of which is lexicographically below the other are equal.
pub proof fn lemma_lex_tied(a: Seq<char>, b: Seq<char>)
    requires
        !lex_below(a, b),
        !lex_below(b, a),
    ensures
        a == b,
    decreases a.len(),
{
    if b.len() == 0 {
        assert(a.len() == 0);
        assert(a =~= b);
    } else if a.len() == 0 {
    } else {
        assert((a[0] as u32) == (b[0] as u32));
        vstd::utf8::char_u32_cast(a[0], a[0] as u32);
        vstd::utf8::char_u32_cast(b[0], b[0] as u32);
        assert(a[0] == b[0]);
        lemma_lex_tied(a.subrange(1, a.len() as int), b.subrange(1, b.len() as int));
        assert forall|i: int| 0 <= i < a.len() implies a[i] == b[i] by {
            if i > 0 {
                assert(a.subrange(1, a.len() as int)[i - 1] == a[i]);
                assert(b.subrange(1, b.len() as int)[i - 1] == b[i]);
            }
        }
        assert(a =~= b);
    }
}

/// Equal prefixes can be peeled off a lexicographic comparison.
pub proof fn lemma_lex_skip(a: Seq<char>, b: Seq<char>, i: int)
    requires
        0 <= i <= a.len(),
        i <= b.len(),
        forall|j: int| 0 <= j < i ==> a[j] == b[j],
    ensures
        lex_below(a, b) == lex_below(a.subrange(i, a.len() as int), b.subrange(i, b.len() as int)),
    decreases i,
{
    if i == 0 {
        assert(a.subrange(0, a.len() as int) =~= a);
        assert(b.subrange(0, b.len() as int) =~= b);
    } else {
        let a1 = a.subrange(1, a.len() as int);
        let b1 = b.subrange(1, b.len() as int);
        assert(lex_below(a, b) == lex_below(a1, b1));
        lemma_lex_skip(a1, b1, i - 1);
        assert(a1.subrange(i - 1, a1.len() as int) =~= a.subrange(i, a.len() as int));
        assert(b1.subrange(i - 1, b1.len() as int) =~= b.subrange(i, b.len() as int));
    }
}

impl OrderedKey for String {
    /// Lexicographic by code point; tied strings have equal characters.
    open spec fn below(self, other: Self) -> bool {
        lex_below(self@, other@)
    }

    proof fn lemma_asymmetry(a: Self, b: Self) {
        lemma_lex_asym(a@, b@);
    }

    proof fn lemma_transitivity(a: Self, b: Self, c: Self) {
        lemma_lex_trans(a@, b@, c@);
    }

    proof fn lemma_tied_transitivity(a: Self, b: Self, c: Self) {
        lemma_lex_tied(a@, b@);
    }

    fn key_cmp(&self, other: &Self) -> (c: KeyCmp) {
        let n1 = self.as_str().unicode_len();
        let n2 = other.as_str().unicode_len();
        let mut i: usize = 0;
        loop
            invariant_except_break
                i <= n1,
                i <= n2,
                n1 == self@.len(),
                n2 == other@.len(),
                forall|j: int| 0 <= j < i ==> self@[j] == other@[j],
            ensures
                ({
                    let sa = self@.subrange(i as int, self@.len() as int);
                    let sb = other@.subrange(i as int, other@.len() as int);
                    &&& i <= n1
                    &&& i <= n2
                    &&& lex_below(self@, other@) == lex_below(sa, sb)
                    &&& lex_below(other@, self@) == lex_below(sb, sa)
                    &&& (i == n1 || i == n2 || sa[0] != sb[0])
                }),
            decreases n1 - i,
        {
            proof {
                lemma_lex_skip(self@, other@, i as int);
                lemma_lex_skip(other@, self@, i as int);
            }
            if i == n1 || i == n2 {
                break ;
            }
            let c1 = self.as_str().get_char(i);
            let c2 = other.as_str().get_char(i);
            if c1 as u32 != c2 as u32 {
                break ;
            }
            proof {
                assert(self@[i as int] == other@[i as int]);
            }
            i += 1;
        }
        let ghost sa = self@.subrange(i as int, self@.len() as int);
        let ghost sb = other@.subrange(i as int, other@.len() as int);
        if i == n1 && i == n2 {
            proof {
                assert(sa.len() == 0 && sb.len() == 0);
            }
            KeyCmp::Tied
        } else if i == n1 {
            proof {
                assert(sa.len() == 0 && sb.len() > 0);
            }
            KeyCmp::Below
        } else if i == n2 {
            proof {
                assert(sb.len() == 0 && sa.len() > 0);
            }
            KeyCmp::Above
        } else {
            let c1 = self.as_str().get_char(i);
            let c2 = other.as_str().get_char(i);
            proof {
                assert(sa[0] == self@[i as int]);
                assert(sb[0] == other@[i as int]);
            }
            if (c1 as u32) < (c2 as u32) {
                KeyCmp::Below
            } else {
                proof {
                    assert((sb[0] as u32) < (sa[0] as u32));
                }
                KeyCmp::Above
            }
        }
    }
}

} // verus!
