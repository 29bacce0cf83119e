//! What the order of a restitution pass guarantees: it runs from the most
//! severe contact to the least, leaves contacts of equal severity in the
//! order they came in, and is the only order that does both.
use vstd::prelude::*;
use crate::contact::Contact;
use crate::resolve::{insert_by_severity, severity, sorted_by_severity};

verus! {

/// No contact comes before a more severe one.
pub open spec fn descending(s: Seq<Contact>) -> bool {
    forall|i: int, j: int| 0 <= i <= j < s.len() ==> severity(s[i]) >= severity(s[j])
}

/// The contacts of severity `k`, in the order in which they stand in `s`.
pub open spec fn with_severity(s: Seq<Contact>, k: int) -> Seq<Contact>
    decreases s.len(),
{
    if s.len() == 0 {
        Seq::empty()
    } else if severity(s.last()) == k {
        with_severity(s.drop_last(), k).push(s.last())
    } else {
        with_severity(s.drop_last(), k)
    }
}

/// `t` holds the contacts of `s` in a stable order: for each severity, the
/// contacts of that severity are the same and stand in the same order.
pub open spec fn keeps_ties(s: Seq<Contact>, t: Seq<Contact>) -> bool {
    forall|k: int| #[trigger] with_severity(t, k) == with_severity(s, k)
}

proof fn lemma_insert_descending(t: Seq<Contact>, c: Contact)
    requires
        descending(t),
    ensures
        descending(insert_by_severity(t, c)),
        insert_by_severity(t, c).len() == t.len() + 1,
        forall|i: int|
            0 <= i < t.len() + 1 ==> #[trigger] insert_by_severity(t, c)[i] == c || exists|j: int|
                0 <= j < t.len() && t[j] == insert_by_severity(t, c)[i],
    decreases t.len(),
{
    let r = insert_by_severity(t, c);
    if t.len() == 0 {
    } else if severity(t.last()) >= severity(c) {
        assert forall|i: int| 0 <= i < t.len() + 1 implies #[trigger] r[i] == c || exists|j: int|
            0 <= j < t.len() && t[j] == r[i] by {
            if i < t.len() {
                assert(t[i] == r[i]);
            }
        }
    } else {
        let front = t.drop_last();
        let inner = insert_by_severity(front, c);
        assert(descending(front)) by {
            assert forall|i: int, j: int| 0 <= i <= j < front.len() implies severity(front[i])
                >= severity(front[j]) by {
                assert(front[i] == t[i] && front[j] == t[j]);
            }
        }
        lemma_insert_descending(front, c);
        assert forall|i: int| 0 <= i < inner.len() implies severity(#[trigger] inner[i])
            >= severity(t.last()) by {
            if inner[i] != c {
                let j = choose|j: int| 0 <= j < front.len() && front[j] == inner[i];
                assert(front[j] == t[j]);
            }
        }
        assert forall|i: int, j: int| 0 <= i <= j < r.len() implies severity(r[i]) >= severity(
            r[j],
        ) by {
            if j < inner.len() {
                assert(r[i] == inner[i] && r[j] == inner[j]);
            } else if i < inner.len() {
                assert(r[i] == inner[i]);
            }
        }
        assert forall|i: int| 0 <= i < t.len() + 1 implies #[trigger] r[i] == c || exists|j: int|
            0 <= j < t.len() && t[j] == r[i] by {
            if i < inner.len() {
                assert(r[i] == inner[i]);
                if inner[i] != c {
                    let j = choose|j: int| 0 <= j < front.len() && front[j] == inner[i];
                    assert(t[j] == r[i]);
                }
            } else {
                assert(t[t.len() - 1] == r[i]);
            }
        }
    }
}

/// The pass runs from the most severe contact to the least.
pub proof fn lemma_sorted_descending(s: Seq<Contact>)
    ensures
        descending(sorted_by_severity(s)),
        sorted_by_severity(s).len() == s.len(),
    decreases s.len(),
{
    if s.len() > 0 {
        lemma_sorted_descending(s.drop_last());
        lemma_insert_descending(sorted_by_severity(s.drop_last()), s.last());
    }
}

proof fn lemma_insert_with_severity(t: Seq<Contact>, c: Contact, k: int)
    ensures
        with_severity(insert_by_severity(t, c), k) == if severity(c) == k {
            with_severity(t, k).push(c)
        } else {
            with_severity(t, k)
        },
    decreases t.len(),
{
    if t.len() == 0 {
        let r = seq![c];
        assert(r.drop_last() =~= Seq::<Contact>::empty());
        assert(r.last() == c);
        assert(with_severity(r.drop_last(), k) =~= Seq::<Contact>::empty());
        assert(with_severity(t, k) =~= Seq::<Contact>::empty());
        assert(insert_by_severity(t, c) == r);
    } else if severity(t.last()) >= severity(c) {
        let r = t.push(c);
        assert(r.drop_last() =~= t);
        assert(r.last() == c);
        assert(insert_by_severity(t, c) == r);
    } else {
        let front = t.drop_last();
        lemma_insert_with_severity(front, c, k);
        let r = insert_by_severity(front, c).push(t.last());
        assert(r.drop_last() =~= insert_by_severity(front, c));
        assert(r.last() == t.last());
        assert(insert_by_severity(t, c) == r);
    }
}

/// Contacts of equal severity are corrected in the order they came in.
pub proof fn lemma_sorted_keeps_ties(s: Seq<Contact>)
    ensures
        keeps_ties(s, sorted_by_severity(s)),
    decreases s.len(),
{
    if s.len() > 0 {
        lemma_sorted_keeps_ties(s.drop_last());
        assert forall|k: int| #[trigger]
            with_severity(sorted_by_severity(s), k) == with_severity(s, k) by {
            lemma_insert_with_severity(sorted_by_severity(s.drop_last()), s.last(), k);
            assert(with_severity(sorted_by_severity(s.drop_last()), k) == with_severity(
                s.drop_last(),
                k,
            ));
        }
    }
}

proof fn lemma_with_severity_witness(s: Seq<Contact>, k: int)
    requires
        with_severity(s, k).len() > 0,
    ensures
        exists|i: int| 0 <= i < s.len() && severity(#[trigger] s[i]) == k,
    decreases s.len(),
{
    if s.len() > 0 {
        if severity(s.last()) == k {
            assert(severity(s[s.len() - 1]) == k);
        } else {
            lemma_with_severity_witness(s.drop_last(), k);
            let i = choose|i: int|
                0 <= i < s.drop_last().len() && severity(#[trigger] s.drop_last()[i]) == k;
            assert(s.drop_last()[i] == s[i]);
        }
    }
}

proof fn lemma_least_is_last(t: Seq<Contact>, u: Seq<Contact>)
    requires
        t.len() > 0,
        descending(u),
        with_severity(u, severity(t.last())) == with_severity(t, severity(t.last())),
    ensures
        u.len() > 0,
        severity(u.last()) <= severity(t.last()),
{
    let k = severity(t.last());
    assert(with_severity(t, k).len() > 0);
    lemma_with_severity_witness(u, k);
    let i = choose|i: int| 0 <= i < u.len() && severity(#[trigger] u[i]) == k;
    assert(severity(u[i]) >= severity(u[u.len() - 1]));
}

/// The order of a pass is fixed by its two rules: two sequences that run from
/// the most severe contact to the least, and that hold for each severity the
/// same contacts in the same order, are one sequence.
pub proof fn lemma_order_unique(t: Seq<Contact>, u: Seq<Contact>)
    requires
        descending(t),
        descending(u),
        keeps_ties(t, u),
    ensures
        t == u,
    decreases t.len(),
{
    if t.len() == 0 {
        if u.len() > 0 {
            let k = severity(u.last());
            assert(with_severity(u, k).len() > 0);
            assert(with_severity(u, k) == with_severity(t, k));
        }
        assert(t =~= u);
    } else {
        assert(with_severity(u, severity(t.last())) == with_severity(t, severity(t.last())));
        lemma_least_is_last(t, u);
        assert(with_severity(u, severity(u.last())) == with_severity(t, severity(u.last())));
        lemma_least_is_last(u, t);
        let k = severity(t.last());
        assert(severity(u.last()) == k);
        let tf = t.drop_last();
        let uf = u.drop_last();
        assert(with_severity(u, k) == with_severity(t, k));
        assert(with_severity(tf, k).push(t.last()) == with_severity(uf, k).push(u.last()));
        assert(t.last() == u.last()) by {
            assert(with_severity(tf, k).push(t.last()).last() == t.last());
            assert(with_severity(uf, k).push(u.last()).last() == u.last());
        }
        assert(with_severity(tf, k) == with_severity(uf, k)) by {
            assert(with_severity(tf, k).push(t.last()).drop_last() =~= with_severity(tf, k));
            assert(with_severity(uf, k).push(u.last()).drop_last() =~= with_severity(uf, k));
        }
        assert forall|j: int| #[trigger] with_severity(uf, j) == with_severity(tf, j) by {
            if j != k {
                assert(with_severity(u, j) == with_severity(t, j));
            }
        }
        assert(descending(tf)) by {
            assert forall|i: int, j: int| 0 <= i <= j < tf.len() implies severity(tf[i])
                >= severity(tf[j]) by {
                assert(tf[i] == t[i] && tf[j] == t[j]);
            }
        }
        assert(descending(uf)) by {
            assert forall|i: int, j: int| 0 <= i <= j < uf.len() implies severity(uf[i])
                >= severity(uf[j]) by {
                assert(uf[i] == u[i] && uf[j] == u[j]);
            }
        }
        lemma_order_unique(tf, uf);
        assert(t =~= tf.push(t.last()));
        assert(u =~= uf.push(u.last()));
    }
}

/// No choice is left in the order of a pass: whatever orders the contacts
/// from the most severe to the least and keeps ties as they came has put them
/// in the order that restitution uses.
pub proof fn lemma_order_determined(s: Seq<Contact>, t: Seq<Contact>)
    requires
        descending(t),
        keeps_ties(s, t),
    ensures
        t == sorted_by_severity(s),
{
    lemma_sorted_descending(s);
    lemma_sorted_keeps_ties(s);
    let u = sorted_by_severity(s);
    assert forall|k: int| #[trigger] with_severity(u, k) == with_severity(t, k) by {
        assert(with_severity(t, k) == with_severity(s, k));
        assert(with_severity(u, k) == with_severity(s, k));
    }
    lemma_order_unique(t, u);
}

} // verus!
