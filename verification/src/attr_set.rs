//! Active style-attribute sets for the decoder's merge state machine.
//!
//! An active set holds at most one attribute per [`attr_category`] and is kept
//! in canonical (ascending category) order, which is also the order in which a
//! span's attribute list is materialized.  Updating the set with a new
//! attribute first evicts whatever occupies the same category — for the three
//! color slots, regardless of the color carried — and then inserts the new
//! attribute at its place.

use vstd::prelude::*;

use crate::ansi_types::attr_category;
use crate::ansi_types::attr_category_of;
use crate::ansi_types::SgrAttribute;

verus! {

/// A canonical attribute list: strictly ascending category order, which also
/// means no two attributes occupy the same category (in particular, no two
/// colors in one slot).
pub open spec fn attrs_canonical(s: Seq<SgrAttribute>) -> bool {
    forall|i: int, j: int|
        0 <= i < j < s.len() ==> attr_category(#[trigger] s[i]) < attr_category(#[trigger] s[j])
}

/// The active set after asserting attribute `a`: the occupant of `a`'s
/// category (if any) is evicted and `a` takes its canonical place.
pub open spec fn insert_attr(s: Seq<SgrAttribute>, a: SgrAttribute) -> Seq<SgrAttribute>
    decreases s.len(),
{
    if s.len() == 0 {
        seq![a]
    } else if attr_category(s[0]) < attr_category(a) {
        seq![s[0]] + insert_attr(s.drop_first(), a)
    } else if attr_category(s[0]) == attr_category(a) {
        seq![a] + s.drop_first()
    } else {
        seq![a] + s
    }
}

/// Inserting preserves canonical order and never empties the set.
pub proof fn lemma_insert_attr_canonical(s: Seq<SgrAttribute>, a: SgrAttribute)
    requires
        attrs_canonical(s),
    ensures
        attrs_canonical(insert_attr(s, a)),
        insert_attr(s, a).len() >= 1,
        s.len() <= insert_attr(s, a).len() <= s.len() + 1,
        forall|i: int|
            0 <= i < insert_attr(s, a).len() ==> attr_category(#[trigger] insert_attr(s, a)[i])
                >= if attr_category(s[0]) < attr_category(a) && s.len() > 0 {
                attr_category(s[0])
            } else {
                attr_category(a)
            },
    decreases s.len(),
{
    let r = insert_attr(s, a);
    if s.len() == 0 {
    } else if attr_category(s[0]) < attr_category(a) {
        assert(attrs_canonical(s.drop_first())) by {
            assert(forall|i: int|
                0 <= i < s.len() - 1 ==> #[trigger] s.drop_first()[i] == s[i + 1]);
        }
        lemma_insert_attr_canonical(s.drop_first(), a);
        let t = insert_attr(s.drop_first(), a);
        assert(forall|i: int| 0 <= i < t.len() ==> #[trigger] r[i + 1] == t[i]);
        assert(r[0] == s[0]);
        if s.len() > 1 {
            assert(attr_category(s.drop_first()[0]) == attr_category(s[1]));
        }
        assert forall|i: int, j: int| 0 <= i < j < r.len() implies attr_category(
            #[trigger] r[i],
        ) < attr_category(#[trigger] r[j]) by {
            if i > 0 {
                assert(r[i] == t[i - 1] && r[j] == t[j - 1]);
            } else {
                assert(r[j] == t[j - 1]);
            }
        }
    } else {
    }
}

/// Executable twin of [`insert_attr`].
pub fn insert_attr_vec(s: &Vec<SgrAttribute>, a: SgrAttribute) -> (r: Vec<SgrAttribute>)
    ensures
        r@ == insert_attr(s@, a),
{
    let cat = attr_category_of(&a);
    let mut r: Vec<SgrAttribute> = Vec::new();
    let mut i: usize = 0;
    while i < s.len() && attr_category_of(&s[i]) < cat
        invariant
            0 <= i <= s.len(),
            cat as int == attr_category(a),
            r@ =~= s@.take(i as int),
            forall|j: int| 0 <= j < i ==> attr_category(#[trigger] s@[j]) < attr_category(a),
        decreases s.len() - i,
    {
        r.push(s[i]);
        i += 1;
    }
    proof {
        lemma_insert_attr_split(s@, a, i as int);
    }
    r.push(a);
    let mut k: usize = if i < s.len() && attr_category_of(&s[i]) == cat {
        i + 1
    } else {
        i
    };
    proof {
        let rest = insert_attr(s@.skip(i as int), a);
        if i < s.len() && attr_category(s@[i as int]) == attr_category(a) {
            assert(rest =~= seq![a] + s@.skip(i as int).drop_first());
            assert(s@.skip(i as int).drop_first() =~= s@.skip(k as int));
        } else if i < s.len() {
            assert(rest =~= seq![a] + s@.skip(i as int));
        } else {
            assert(s@.skip(i as int) =~= Seq::<SgrAttribute>::empty());
            assert(rest =~= seq![a]);
        }
        assert(insert_attr(s@, a) =~= r@ + s@.skip(k as int));
    }
    while k < s.len()
        invariant
            0 <= k <= s.len(),
            insert_attr(s@, a) =~= r@ + s@.skip(k as int),
        decreases s.len() - k,
    {
        proof {
            assert(s@.skip(k as int) =~= seq![s@[k as int]] + s@.skip(k + 1));
        }
        r.push(s[k]);
        k += 1;
    }
    proof {
        assert(s@.skip(k as int) =~= Seq::<SgrAttribute>::empty());
        assert(r@ =~= insert_attr(s@, a));
    }
    r
}

/// Splitting fact used to relate the iterative insertion to [`insert_attr`]:
/// a prefix whose categories all precede `a`'s passes through unchanged.
proof fn lemma_insert_attr_split(s: Seq<SgrAttribute>, a: SgrAttribute, i: int)
    requires
        0 <= i <= s.len(),
        forall|j: int| 0 <= j < i ==> attr_category(#[trigger] s[j]) < attr_category(a),
    ensures
        insert_attr(s, a) == s.take(i) + insert_attr(s.skip(i), a),
    decreases i,
{
    if i == 0 {
        assert(s.take(0) =~= Seq::<SgrAttribute>::empty());
        assert(s.skip(0) =~= s);
        assert(insert_attr(s, a) =~= s.take(0) + insert_attr(s.skip(0), a));
    } else {
        assert(attr_category(s[0]) < attr_category(a));
        assert(forall|j: int|
            0 <= j < i - 1 ==> #[trigger] s.drop_first()[j] == s[j + 1]);
        lemma_insert_attr_split(s.drop_first(), a, i - 1);
        assert(s.drop_first().take(i - 1) =~= s.take(i).drop_first());
        assert(s.drop_first().skip(i - 1) =~= s.skip(i));
        assert(insert_attr(s, a) =~= seq![s[0]] + insert_attr(s.drop_first(), a));
        assert(seq![s[0]] + (s.drop_first().take(i - 1) + insert_attr(s.skip(i), a)) =~= s.take(i)
            + insert_attr(s.skip(i), a));
    }
}

/// Element-wise equality of two attribute lists.
pub fn attrs_equal(a: &Vec<SgrAttribute>, b: &Vec<SgrAttribute>) -> (r: bool)
    ensures
        r == (a@ == b@),
{
    if a.len() != b.len() {
        assert(a@.len() != b@.len());
        return false;
    }
    let mut i: usize = 0;
    while i < a.len()
        invariant
            0 <= i <= a.len(),
            a@.len() == b@.len(),
            forall|j: int| 0 <= j < i ==> a@[j] == b@[j],
        decreases a.len() - i,
    {
        if a[i] != b[i] {
            return false;
        }
        i += 1;
    }
    proof {
        assert(a@ =~= b@);
    }
    true
}

/// A fresh copy of an attribute list (spans own their attribute lists).
pub fn copy_attrs(v: &Vec<SgrAttribute>) -> (r: Vec<SgrAttribute>)
    ensures
        r@ == v@,
{
    let mut r: Vec<SgrAttribute> = Vec::new();
    let mut i: usize = 0;
    while i < v.len()
        invariant
            0 <= i <= v.len(),
            r@ =~= v@.take(i as int),
        decreases v.len() - i,
    {
        r.push(v[i]);
        i += 1;
    }
    proof {
        assert(r@ =~= v@);
    }
    r
}

} // verus!
