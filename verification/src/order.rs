//! Lexicographic, codepoint-wise order on character sequences.
//!
//! Street names and grid-column labels are ordered case-sensitively by
//! codepoint, so the order is stated over `Seq<char>` views and decided in
//! executable code by a character-by-character comparison.

use vstd::prelude::*;

verus! {

/// Strict lexicographic order on character sequences: `a` comes before `b`
/// iff `a` is a proper prefix of `b`, or at the first differing index the
/// codepoint of `a` is smaller.
pub open spec fn seq_char_lt(a: Seq<char>, b: Seq<char>) -> bool
    decreases a.len(),
{
    if b.len() == 0 {
        false
    } else if a.len() == 0 {
        true
    } else if a[0] == b[0] {
        seq_char_lt(a.drop_first(), b.drop_first())
    } else {
        (a[0] as u32) < (b[0] as u32)
    }
}

/// The order is total: any two sequences are related exactly one way.
pub proof fn lemma_seq_char_lt_trichotomy(a: Seq<char>, b: Seq<char>)
    ensures
        seq_char_lt(a, b) || seq_char_lt(b, a) || a == b,
        seq_char_lt(a, b) ==> !seq_char_lt(b, a),
        seq_char_lt(a, b) ==> a != b,
    decreases a.len(),
{
    if b.len() == 0 || a.len() == 0 {
        if a.len() == 0 && b.len() == 0 {
            assert(a =~= b);
        }
    } else if a[0] == b[0] {
        lemma_seq_char_lt_trichotomy(a.drop_first(), b.drop_first());
        if a.drop_first() == b.drop_first() {
            assert(a.len() == b.len());
            assert forall|i: int| 0 <= i < a.len() implies a[i] == b[i] by {
                if i >= 1 {
                    assert(a.drop_first()[i - 1] == b.drop_first()[i - 1]);
                    assert(a.drop_first()[i - 1] == a[i]);
                    assert(b.drop_first()[i - 1] == b[i]);
                }
            }
            assert(a =~= b);
        }
        if a == b {
            assert(a.drop_first() == b.drop_first());
        }
    } else {
        assert((a[0] as u32) != (b[0] as u32)) by {
            if (a[0] as u32) == (b[0] as u32) {
                vstd::utf8::char_u32_cast(a[0], a[0] as u32);
                vstd::utf8::char_u32_cast(b[0], b[0] as u32);
            }
        }
    }
}

/// The order is transitive.
pub proof fn lemma_seq_char_lt_transitive(a: Seq<char>, b: Seq<char>, c: Seq<char>)
    requires
        seq_char_lt(a, b),
        seq_char_lt(b, c),
    ensures
        seq_char_lt(a, c),
    decreases a.len(),
{
    if c.len() == 0 || a.len() == 0 {
    } else if b.len() == 0 {
    } else {
        if a[0] == b[0] && b[0] == c[0] {
            lemma_seq_char_lt_transitive(a.drop_first(), b.drop_first(), c.drop_first());
        } else if a[0] == c[0] {
            // a[0] == c[0] but the chain passes through b[0]: both steps
            // cannot move the codepoint strictly in one direction.
            if a[0] == b[0] {
                assert((b[0] as u32) < (c[0] as u32));
                assert(b[0] == a[0]);
            } else {
                assert((a[0] as u32) < (b[0] as u32));
                if b[0] == c[0] {
                } else {
                    assert((b[0] as u32) < (c[0] as u32));
                }
            }
            assert(false);
        } else {
        }
    }
}

/// Common-prefix characterization: if `a` and `b` agree on their first `i`
/// characters, the order is decided at index `i`.
pub proof fn lemma_seq_char_lt_at(a: Seq<char>, b: Seq<char>, i: int)
    requires
        0 <= i <= a.len(),
        i <= b.len(),
        forall|j: int| 0 <= j < i ==> a[j] == b[j],
    ensures
        (i < a.len() && i < b.len() && (a[i] as u32) < (b[i] as u32)) ==> seq_char_lt(a, b),
        (i == a.len() && i < b.len()) ==> seq_char_lt(a, b),
        (i == a.len() && i == b.len()) ==> a == b,
    decreases i,
{
    if i == 0 {
        if a.len() == 0 && b.len() == 0 {
            assert(a =~= b);
        }
    } else {
        assert(a[0] == b[0]);
        assert(forall|j: int|
            0 <= j < i - 1 ==> #[trigger] a.drop_first()[j] == b.drop_first()[j]);
        lemma_seq_char_lt_at(a.drop_first(), b.drop_first(), i - 1);
        if i < a.len() && i < b.len() {
            assert(a.drop_first()[i - 1] == a[i]);
            assert(b.drop_first()[i - 1] == b[i]);
        }
        if i == a.len() && i == b.len() && a.drop_first() == b.drop_first() {
            assert(a =~= b) by {
                assert(forall|j: int|
                    1 <= j < a.len() ==> a[j] == #[trigger] a.drop_first()[j - 1]);
            }
        }
    }
}

/// Three-way comparison of two strings in the order of `seq_char_lt`:
/// `0` for less, `1` for equal, `2` for greater.
pub fn str_compare(a: &str, b: &str) -> (r: u8)
    ensures
        (r == 0) == seq_char_lt(a@, b@),
        (r == 1) == (a@ == b@),
        (r == 2) == seq_char_lt(b@, a@),
{
    let alen = a.unicode_len();
    let blen = b.unicode_len();
    let mut i: usize = 0;
    while i < alen && i < blen
        invariant
            i <= alen,
            i <= blen,
            alen == a@.len(),
            blen == b@.len(),
            forall|j: int| 0 <= j < i ==> a@[j] == b@[j],
        decreases alen - i,
    {
        let ca = a.get_char(i);
        let cb = b.get_char(i);
        if (ca as u32) < (cb as u32) {
            proof {
                lemma_seq_char_lt_at(a@, b@, i as int);
                lemma_seq_char_lt_trichotomy(a@, b@);
            }
            return 0;
        }
        if (cb as u32) < (ca as u32) {
            proof {
                lemma_seq_char_lt_at(b@, a@, i as int);
                lemma_seq_char_lt_trichotomy(b@, a@);
            }
            return 2;
        }
        proof {
            assert(ca == cb) by {
                vstd::utf8::char_u32_cast(ca, ca as u32);
                vstd::utf8::char_u32_cast(cb, cb as u32);
            }
        }
        i += 1;
    }
    proof {
        lemma_seq_char_lt_at(a@, b@, if alen <= blen { alen as int } else { blen as int });
        lemma_seq_char_lt_at(b@, a@, if alen <= blen { alen as int } else { blen as int });
        lemma_seq_char_lt_trichotomy(a@, b@);
    }
    if alen < blen {
        0
    } else if blen < alen {
        2
    } else {
        1
    }
}

} // verus!
