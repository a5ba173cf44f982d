use vstd::prelude::*;

use crate::class_consistency::blame_is;
use crate::effective_types::origins::{effective_origin_rank, effective_rank, rank_byte, EffectiveTypeOrigin};
use crate::output::RejectBlame;
use crate::vocabulary::OWL_NOTHING;

verus! {

/// `a` and `b` agree before position `i` and first differ there: `a`
/// ends there while `b` goes on, or `a` has the smaller character there.
pub open spec fn first_lower_at(a: Seq<char>, b: Seq<char>, i: int) -> bool {
    &&& 0 <= i <= a.len()
    &&& i <= b.len()
    &&& a.take(i) == b.take(i)
    &&& ((i == a.len() && i < b.len()) || (i < a.len() && i < b.len() && (a[i] as u32) < (b[i] as u32)))
}

/// `a` comes strictly before `b` in the order of `str` (byte order of
/// UTF-8, which is the order of code points, position by position).
pub open spec fn text_lt(a: Seq<char>, b: Seq<char>) -> bool {
    exists|i: int| #[trigger] first_lower_at(a, b, i)
}

/// Whether `a` comes strictly before `b`.
pub fn text_less(a: &str, b: &str) -> (r: bool)
    ensures
        r == text_lt(a@, b@),
{
    let la = a.unicode_len();
    let lb = b.unicode_len();
    let mut i: usize = 0;
    while i < la && i < lb
        invariant
            la == a@.len(),
            lb == b@.len(),
            i <= la,
            i <= lb,
            a@.take(i as int) == b@.take(i as int),
        decreases la - i,
    {
        let ca = a.get_char(i);
        let cb = b.get_char(i);
        if ca != cb {
            let r = (ca as u32) < (cb as u32);
            proof {
                if r {
                    assert(first_lower_at(a@, b@, i as int));
                } else {
                    assert forall|j: int| !#[trigger] first_lower_at(a@, b@, j) by {
                        if first_lower_at(a@, b@, j) {
                            if j < i {
                                assert(a@[j] == a@.take(i as int)[j]);
                                assert(b@[j] == b@.take(i as int)[j]);
                            } else if j > i {
                                assert(a@[i as int] == a@.take(j)[i as int]);
                                assert(b@[i as int] == b@.take(j)[i as int]);
                            }
                        }
                    }
                }
            }
            return r;
        }
        proof {
            assert(a@.take(i + 1) =~= a@.take(i as int).push(ca));
            assert(b@.take(i + 1) =~= b@.take(i as int).push(cb));
        }
        i += 1;
    }
    let r = la < lb;
    proof {
        if r {
            assert(first_lower_at(a@, b@, i as int));
        } else {
            assert forall|j: int| !#[trigger] first_lower_at(a@, b@, j) by {
                if first_lower_at(a@, b@, j) {
                    if j < i {
                        assert(a@[j] == a@.take(i as int)[j]);
                        assert(b@[j] == b@.take(i as int)[j]);
                    }
                }
            }
        }
    }
    r
}

/// The blame key `(rank, class, origin)` of the left side is at most that
/// of the right side, in the order of tuples.
pub open spec fn key_le(r1: u8, c1: Seq<char>, o1: Seq<char>, r2: u8, c2: Seq<char>, o2: Seq<char>) -> bool {
    ||| r1 < r2
    ||| r1 == r2 && text_lt(c1, c2)
    ||| r1 == r2 && c1 == c2 && (o1 == o2 || text_lt(o1, o2))
}

/// Whether the key `(r1, c1, o1)` is at most `(r2, c2, o2)`.
fn key_at_most(r1: u8, c1: &str, o1: &str, r2: u8, c2: &str, o2: &str) -> (r: bool)
    ensures
        r == key_le(r1, c1@, o1@, r2, c2@, o2@),
{
    if r1 != r2 {
        return r1 < r2;
    }
    if text_less(c1, c2) {
        return true;
    }
    if text_less(c2, c1) {
        proof {
            lemma_text_lt_asymmetric(c2@, c1@);
        }
        return false;
    }
    proof {
        lemma_text_lt_total(c1@, c2@);
    }
    if text_less(o2, o1) {
        proof {
            lemma_text_lt_asymmetric(o2@, o1@);
            lemma_text_lt_irreflexive(o1@);
        }
        false
    } else {
        proof {
            if !text_lt(o1@, o2@) {
                lemma_text_lt_total(o1@, o2@);
            }
        }
        true
    }
}

/// No text comes before itself.
pub proof fn lemma_text_lt_irreflexive(a: Seq<char>)
    ensures
        !text_lt(a, a),
{
}

/// Two texts are not each before the other.
pub proof fn lemma_text_lt_asymmetric(a: Seq<char>, b: Seq<char>)
    requires
        text_lt(a, b),
    ensures
        !text_lt(b, a),
{
    let i = choose|i: int| #[trigger] first_lower_at(a, b, i);
    if text_lt(b, a) {
        let j = choose|j: int| #[trigger] first_lower_at(b, a, j);
        if i < j {
            assert(a[i] == a.take(j)[i]);
            assert(b[i] == b.take(j)[i]);
        } else if j < i {
            assert(a[j] == a.take(i)[j]);
            assert(b[j] == b.take(i)[j]);
        }
    }
}

/// The order of texts is transitive.
pub proof fn lemma_text_lt_transitive(a: Seq<char>, b: Seq<char>, c: Seq<char>)
    requires
        text_lt(a, b),
        text_lt(b, c),
    ensures
        text_lt(a, c),
{
    let i = choose|i: int| #[trigger] first_lower_at(a, b, i);
    let j = choose|j: int| #[trigger] first_lower_at(b, c, j);
    if i < j {
        assert(b.take(i) =~= b.take(j).take(i));
        assert(c.take(i) =~= c.take(j).take(i));
        if i < a.len() {
            assert(b[i] == b.take(j)[i]);
            assert(c[i] == c.take(j)[i]);
        }
        assert(first_lower_at(a, c, i));
    } else if j < i {
        assert(a.take(j) =~= a.take(i).take(j));
        assert(b.take(j) =~= b.take(i).take(j));
        assert(a[j] == a.take(i)[j]);
        assert(b[j] == b.take(i)[j]);
        assert(first_lower_at(a, c, j));
    } else {
        assert(first_lower_at(a, c, i));
    }
}

/// Of two different texts, one comes before the other.
pub proof fn lemma_text_lt_total(a: Seq<char>, b: Seq<char>)
    requires
        !text_lt(a, b),
        !text_lt(b, a),
    ensures
        a == b,
{
    assert(a.take(0) =~= b.take(0));
    lemma_equal_from(a, b, 0);
}

/// Texts that agree before `i` and are not ordered either way are equal.
proof fn lemma_equal_from(a: Seq<char>, b: Seq<char>, i: int)
    requires
        0 <= i <= a.len(),
        i <= b.len(),
        a.take(i) == b.take(i),
        !text_lt(a, b),
        !text_lt(b, a),
    ensures
        a == b,
    decreases a.len() - i,
{
    if i == a.len() || i == b.len() {
        if a.len() < b.len() {
            assert(first_lower_at(a, b, i));
        } else if b.len() < a.len() {
            assert(first_lower_at(b, a, i));
        } else {
            assert(a.take(i) =~= a);
            assert(b.take(i) =~= b);
        }
    } else {
        if a[i] != b[i] {
            lemma_char_code_injective(a[i], b[i]);
            if (a[i] as u32) < (b[i] as u32) {
                assert(first_lower_at(a, b, i));
            } else {
                assert(first_lower_at(b, a, i));
            }
        }
        assert(a.take(i + 1) =~= a.take(i).push(a[i]));
        assert(b.take(i + 1) =~= b.take(i).push(b[i]));
        lemma_equal_from(a, b, i + 1);
    }
}

/// Different characters have different codes.
proof fn lemma_char_code_injective(x: char, y: char)
    requires
        x != y,
    ensures
        (x as u32) != (y as u32),
{
}

/// The heuristic that blames the more direct of two effective types.
pub open spec fn direct_type_heuristic() -> Seq<char> {
    "prefer-more-direct-effective-type-origin"@
}

/// `b` blames the side with the smaller key `(rank of its origin, class,
/// origin text)` as principal, the left side on a tie.
pub open spec fn disjoint_blame(
    b: RejectBlame,
    left: Seq<char>,
    left_origin: EffectiveTypeOrigin,
    left_text: Seq<char>,
    right: Seq<char>,
    right_origin: EffectiveTypeOrigin,
    right_text: Seq<char>,
) -> bool {
    if key_le(
        rank_byte(effective_rank(left_origin)),
        left,
        left_text,
        rank_byte(effective_rank(right_origin)),
        right,
        right_text,
    ) {
        blame_is(b, direct_type_heuristic(), left, left_text, right, right_text)
    } else {
        blame_is(b, direct_type_heuristic(), right, right_text, left, left_text)
    }
}

/// The blame between two disjoint effective types.
pub fn build_disjoint_blame(
    left_type: &str,
    left_origin: &EffectiveTypeOrigin,
    left_origin_text: &str,
    right_type: &str,
    right_origin: &EffectiveTypeOrigin,
    right_origin_text: &str,
) -> (r: RejectBlame)
    ensures
        disjoint_blame(r, left_type@, *left_origin, left_origin_text@, right_type@, *right_origin, right_origin_text@),
{
    let left_first = key_at_most(
        effective_origin_rank(left_origin),
        left_type,
        left_origin_text,
        effective_origin_rank(right_origin),
        right_type,
        right_origin_text,
    );
    if left_first {
        RejectBlame {
            heuristic: "prefer-more-direct-effective-type-origin",
            principal_contributor: left_type.to_owned(),
            principal_origin: left_origin_text.to_owned(),
            contextual_contributor: right_type.to_owned(),
            contextual_origin: right_origin_text.to_owned(),
        }
    } else {
        RejectBlame {
            heuristic: "prefer-more-direct-effective-type-origin",
            principal_contributor: right_type.to_owned(),
            principal_origin: right_origin_text.to_owned(),
            contextual_contributor: left_type.to_owned(),
            contextual_origin: left_origin_text.to_owned(),
        }
    }
}

/// `b` blames the supporting class when its key is at most that of
/// `owl:Nothing` taken with the largest rank, and `owl:Nothing` otherwise.
pub open spec fn nothing_blame(
    b: RejectBlame,
    class: Seq<char>,
    origin: EffectiveTypeOrigin,
    text: Seq<char>,
    nothing_text: Seq<char>,
) -> bool {
    if key_le(rank_byte(effective_rank(origin)), class, text, 255u8, OWL_NOTHING@, nothing_text) {
        blame_is(b, direct_type_heuristic(), class, text, OWL_NOTHING@, nothing_text)
    } else {
        blame_is(b, direct_type_heuristic(), OWL_NOTHING@, nothing_text, class, text)
    }
}

/// The blame between a class that closes to `owl:Nothing` and
/// `owl:Nothing` itself.
pub fn build_nothing_blame(
    supporting_class: &str,
    supporting_origin: &EffectiveTypeOrigin,
    supporting_origin_text: &str,
    nothing_origin_text: &str,
) -> (r: RejectBlame)
    ensures
        nothing_blame(r, supporting_class@, *supporting_origin, supporting_origin_text@, nothing_origin_text@),
{
    let supporting_first = key_at_most(
        effective_origin_rank(supporting_origin),
        supporting_class,
        supporting_origin_text,
        255u8,
        OWL_NOTHING,
        nothing_origin_text,
    );
    if supporting_first {
        RejectBlame {
            heuristic: "prefer-more-direct-effective-type-origin",
            principal_contributor: supporting_class.to_owned(),
            principal_origin: supporting_origin_text.to_owned(),
            contextual_contributor: OWL_NOTHING.to_owned(),
            contextual_origin: nothing_origin_text.to_owned(),
        }
    } else {
        RejectBlame {
            heuristic: "prefer-more-direct-effective-type-origin",
            principal_contributor: OWL_NOTHING.to_owned(),
            principal_origin: nothing_origin_text.to_owned(),
            contextual_contributor: supporting_class.to_owned(),
            contextual_origin: supporting_origin_text.to_owned(),
        }
    }
}

} // verus!
