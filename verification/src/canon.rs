//! Canonical ordering of message entries.
//!
//! The canonical form of an entry list lists tags in ascending order, and
//! within one tag keeps the occurrences in their original relative order.
//! [`spec_canon`] defines that form: take the smallest tag present, emit its
//! group, and continue with the remaining entries.  Two entry lists with the
//! same per-tag groups therefore have the same canonical form
//! ([`lemma_canon_respects_grouping`]), and canonicalizing twice changes
//! nothing ([`lemma_canon_idempotent`]).

use vstd::prelude::*;
use crate::models::{entries_view, entries_wf, lemma_entries_view, lemma_entries_view_push,
    lemma_entries_wf, lemma_entries_wf_push, value_view, value_wf, Entry, Message, ValueV};

verus! {

broadcast use vstd::std_specs::vec::group_vec_axioms;

/// The group of tag `t`: the entries carrying `t`, in their original order.
pub open spec fn keep_tag(s: Seq<(u32, ValueV)>, t: u32) -> Seq<(u32, ValueV)>
    decreases s.len(),
{
    if s.len() == 0 {
        Seq::empty()
    } else {
        let rest = keep_tag(s.drop_first(), t);
        if s[0].0 == t {
            seq![s[0]] + rest
        } else {
            rest
        }
    }
}

/// The entries not carrying tag `t`, in their original order.
pub open spec fn drop_tag(s: Seq<(u32, ValueV)>, t: u32) -> Seq<(u32, ValueV)>
    decreases s.len(),
{
    if s.len() == 0 {
        Seq::empty()
    } else {
        let rest = drop_tag(s.drop_first(), t);
        if s[0].0 == t {
            rest
        } else {
            seq![s[0]] + rest
        }
    }
}

/// The smallest tag occurring in a non-empty entry list.
pub open spec fn min_tag(s: Seq<(u32, ValueV)>) -> u32
    recommends
        s.len() > 0,
    decreases s.len(),
{
    if s.len() <= 1 {
        s[0].0
    } else {
        let m = min_tag(s.drop_first());
        if s[0].0 <= m {
            s[0].0
        } else {
            m
        }
    }
}

/// The canonical form: the group of the smallest tag, then the canonical
/// form of what remains.
pub open spec fn spec_canon(s: Seq<(u32, ValueV)>) -> Seq<(u32, ValueV)>
    decreases s.len(),
{
    if s.len() == 0 {
        s
    } else {
        let m = min_tag(s);
        let rest = drop_tag(s, m);
        if rest.len() < s.len() {
            keep_tag(s, m) + spec_canon(rest)
        } else {
            s
        }
    }
}

pub proof fn lemma_keep_drop_concat(a: Seq<(u32, ValueV)>, b: Seq<(u32, ValueV)>, t: u32)
    ensures
        keep_tag(a + b, t) == keep_tag(a, t) + keep_tag(b, t),
        drop_tag(a + b, t) == drop_tag(a, t) + drop_tag(b, t),
    decreases a.len(),
{
    if a.len() == 0 {
        assert(a + b =~= b);
        assert(keep_tag(a, t) + keep_tag(b, t) =~= keep_tag(b, t));
        assert(drop_tag(a, t) + drop_tag(b, t) =~= drop_tag(b, t));
    } else {
        assert((a + b).drop_first() =~= a.drop_first() + b);
        lemma_keep_drop_concat(a.drop_first(), b, t);
        assert((a + b)[0] == a[0]);
        if a[0].0 == t {
            assert(seq![a[0]] + (keep_tag(a.drop_first(), t) + keep_tag(b, t)) =~= (seq![a[0]]
                + keep_tag(a.drop_first(), t)) + keep_tag(b, t));
        } else {
            assert(seq![a[0]] + (drop_tag(a.drop_first(), t) + drop_tag(b, t)) =~= (seq![a[0]]
                + drop_tag(a.drop_first(), t)) + drop_tag(b, t));
        }
    }
}

/// Appending one entry extends its own tag's group and no other.
pub proof fn lemma_keep_drop_push(s: Seq<(u32, ValueV)>, e: (u32, ValueV), t: u32)
    ensures
        keep_tag(s.push(e), t) == if e.0 == t {
            keep_tag(s, t).push(e)
        } else {
            keep_tag(s, t)
        },
        drop_tag(s.push(e), t) == if e.0 == t {
            drop_tag(s, t)
        } else {
            drop_tag(s, t).push(e)
        },
{
    assert(s.push(e) =~= s + seq![e]);
    lemma_keep_drop_concat(s, seq![e], t);
    assert(seq![e].drop_first() =~= Seq::<(u32, ValueV)>::empty());
    assert(keep_tag(seq![e].drop_first(), t) =~= Seq::<(u32, ValueV)>::empty());
    assert(drop_tag(seq![e].drop_first(), t) =~= Seq::<(u32, ValueV)>::empty());
    if e.0 == t {
        assert(keep_tag(seq![e], t) =~= seq![e] + Seq::<(u32, ValueV)>::empty());
        assert(keep_tag(seq![e], t) =~= seq![e]);
        assert(drop_tag(seq![e], t) =~= Seq::<(u32, ValueV)>::empty());
        assert(keep_tag(s, t) + seq![e] =~= keep_tag(s, t).push(e));
        assert(drop_tag(s, t) + drop_tag(seq![e], t) =~= drop_tag(s, t));
    } else {
        assert(drop_tag(seq![e], t) =~= seq![e] + Seq::<(u32, ValueV)>::empty());
        assert(drop_tag(seq![e], t) =~= seq![e]);
        assert(keep_tag(seq![e], t) =~= Seq::<(u32, ValueV)>::empty());
        assert(drop_tag(s, t) + seq![e] =~= drop_tag(s, t).push(e));
        assert(keep_tag(s, t) + keep_tag(seq![e], t) =~= keep_tag(s, t));
    }
}

/// Groups partition the list: every entry is in its tag's group, the two
/// parts are as long as the whole, and a group holds only its own tag.
pub proof fn lemma_keep_drop_parts(s: Seq<(u32, ValueV)>, t: u32)
    ensures
        keep_tag(s, t).len() + drop_tag(s, t).len() == s.len(),
        forall|i: int| 0 <= i < keep_tag(s, t).len() ==> (#[trigger] keep_tag(s, t)[i]).0 == t,
        forall|i: int| 0 <= i < drop_tag(s, t).len() ==> (#[trigger] drop_tag(s, t)[i]).0 != t,
    decreases s.len(),
{
    if s.len() > 0 {
        lemma_keep_drop_parts(s.drop_first(), t);
    }
}

/// A group holds exactly the list's entries carrying its tag, values
/// included.
pub proof fn lemma_keep_tag_contains(s: Seq<(u32, ValueV)>, t: u32, e: (u32, ValueV))
    ensures
        keep_tag(s, t).contains(e) <==> s.contains(e) && e.0 == t,
    decreases s.len(),
{
    if s.len() == 0 {
        assert(!s.contains(e));
        assert(!keep_tag(s, t).contains(e));
    } else {
        let rest = s.drop_first();
        lemma_keep_tag_contains(rest, t, e);
        assert(forall|i: int| 1 <= i < s.len() ==> rest[i - 1] == #[trigger] s[i]);
        if s.contains(e) {
            let i = choose|i: int| 0 <= i < s.len() && s[i] == e;
            if i > 0 {
                assert(rest[i - 1] == e);
                assert(rest.contains(e));
            }
        }
        if rest.contains(e) {
            let i = choose|i: int| 0 <= i < rest.len() && rest[i] == e;
            assert(s[i + 1] == e);
            assert(s.contains(e));
        }
        if s[0].0 == t {
            let kept = seq![s[0]] + keep_tag(rest, t);
            assert(keep_tag(s, t) == kept);
            assert(forall|i: int|
                1 <= i < kept.len() ==> keep_tag(rest, t)[i - 1] == #[trigger] kept[i]);
            if kept.contains(e) {
                let i = choose|i: int| 0 <= i < kept.len() && kept[i] == e;
                if i == 0 {
                    assert(s[0] == e);
                    assert(s.contains(e));
                } else {
                    assert(keep_tag(rest, t).contains(e));
                }
            }
            if s[0] == e {
                assert(kept[0] == e);
                assert(kept.contains(e));
            }
            if keep_tag(rest, t).contains(e) {
                let i = choose|i: int| 0 <= i < keep_tag(rest, t).len() && keep_tag(rest, t)[i]
                    == e;
                assert(kept[i + 1] == e);
                assert(kept.contains(e));
            }
        }
    }
}

/// A tag that occurs has a non-empty group, and a non-empty group means the
/// tag occurs.
pub proof fn lemma_keep_tag_occurs(s: Seq<(u32, ValueV)>, t: u32)
    ensures
        keep_tag(s, t).len() > 0 <==> (exists|i: int| 0 <= i < s.len() && (#[trigger] s[i]).0 == t),
    decreases s.len(),
{
    if s.len() > 0 {
        lemma_keep_tag_occurs(s.drop_first(), t);
        if s[0].0 == t {
        } else {
            if keep_tag(s.drop_first(), t).len() > 0 {
                let j = choose|j: int|
                    0 <= j < s.drop_first().len() && (#[trigger] s.drop_first()[j]).0 == t;
                assert(s[j + 1].0 == t);
            }
            if exists|i: int| 0 <= i < s.len() && (#[trigger] s[i]).0 == t {
                let i = choose|i: int| 0 <= i < s.len() && (#[trigger] s[i]).0 == t;
                assert(s.drop_first()[i - 1].0 == t);
            }
        }
    }
}

/// The minimum tag occurs, and no tag in the list is below it.
pub proof fn lemma_min_tag(s: Seq<(u32, ValueV)>)
    requires
        s.len() > 0,
    ensures
        exists|i: int| 0 <= i < s.len() && (#[trigger] s[i]).0 == min_tag(s),
        forall|i: int| 0 <= i < s.len() ==> (#[trigger] s[i]).0 >= min_tag(s),
    decreases s.len(),
{
    if s.len() == 1 {
        assert(s[0].0 == min_tag(s));
    } else {
        lemma_min_tag(s.drop_first());
        let m = min_tag(s.drop_first());
        assert(forall|i: int| 1 <= i < s.len() ==> (#[trigger] s[i]) == s.drop_first()[i - 1]);
        if s[0].0 <= m {
            assert(s[0].0 == min_tag(s));
        } else {
            let j = choose|j: int|
                0 <= j < s.drop_first().len() && (#[trigger] s.drop_first()[j]).0 == m;
            assert(s[j + 1] == s.drop_first()[j]);
            assert(s[j + 1].0 == min_tag(s));
        }
    }
}

/// Filtering one group out of another leaves it unchanged, or empties it
/// when the tags coincide.
pub proof fn lemma_keep_of_drop(s: Seq<(u32, ValueV)>, m: u32, t: u32)
    ensures
        keep_tag(drop_tag(s, m), t) == if t == m {
            Seq::<(u32, ValueV)>::empty()
        } else {
            keep_tag(s, t)
        },
    decreases s.len(),
{
    if s.len() == 0 {
    } else {
        lemma_keep_of_drop(s.drop_first(), m, t);
        if s[0].0 == m {
        } else {
            assert((seq![s[0]] + drop_tag(s.drop_first(), m)).drop_first() =~= drop_tag(
                s.drop_first(),
                m,
            ));
        }
    }
}

/// A group filtered by its own tag is itself; by another tag, empty.
pub proof fn lemma_keep_of_keep(s: Seq<(u32, ValueV)>, m: u32, t: u32)
    ensures
        keep_tag(keep_tag(s, m), t) == if t == m {
            keep_tag(s, m)
        } else {
            Seq::<(u32, ValueV)>::empty()
        },
    decreases s.len(),
{
    if s.len() == 0 {
    } else {
        lemma_keep_of_keep(s.drop_first(), m, t);
        if s[0].0 == m {
            assert((seq![s[0]] + keep_tag(s.drop_first(), m)).drop_first() =~= keep_tag(
                s.drop_first(),
                m,
            ));
        }
    }
}

/// Canonicalization preserves every per-tag group.
pub proof fn lemma_canon_preserves_groups(s: Seq<(u32, ValueV)>, t: u32)
    ensures
        keep_tag(spec_canon(s), t) == keep_tag(s, t),
    decreases s.len(),
{
    if s.len() > 0 {
        let m = min_tag(s);
        lemma_min_tag(s);
        lemma_keep_tag_occurs(s, m);
        lemma_keep_drop_parts(s, m);
        let rest = drop_tag(s, m);
        lemma_canon_preserves_groups(rest, t);
        lemma_keep_drop_concat(keep_tag(s, m), spec_canon(rest), t);
        lemma_keep_of_keep(s, m, t);
        lemma_keep_of_drop(s, m, t);
        if t == m {
            assert(keep_tag(s, m) + Seq::<(u32, ValueV)>::empty() =~= keep_tag(s, m));
        } else {
            assert(Seq::<(u32, ValueV)>::empty() + keep_tag(s, t) =~= keep_tag(s, t));
        }
    }
}

/// Two entry lists with the same per-tag groups have the same canonical
/// form.  This is what makes the canonical model stable under reordering of
/// whole same-tag groups.
pub proof fn lemma_canon_respects_grouping(s1: Seq<(u32, ValueV)>, s2: Seq<(u32, ValueV)>)
    requires
        forall|t: u32| #[trigger] keep_tag(s1, t) == keep_tag(s2, t),
    ensures
        spec_canon(s1) == spec_canon(s2),
    decreases s1.len(),
{
    if s1.len() == 0 {
        if s2.len() > 0 {
            lemma_keep_tag_occurs(s2, s2[0].0);
            lemma_keep_tag_occurs(s1, s2[0].0);
            assert(keep_tag(s1, s2[0].0) == keep_tag(s2, s2[0].0));
            assert(false);
        }
    } else if s2.len() == 0 {
        lemma_keep_tag_occurs(s1, s1[0].0);
        lemma_keep_tag_occurs(s2, s1[0].0);
        assert(false);
    } else {
        let m1 = min_tag(s1);
        let m2 = min_tag(s2);
        lemma_min_tag(s1);
        lemma_min_tag(s2);
        lemma_keep_tag_occurs(s1, m1);
        lemma_keep_tag_occurs(s2, m1);
        lemma_keep_tag_occurs(s1, m2);
        lemma_keep_tag_occurs(s2, m2);
        assert(keep_tag(s1, m1) == keep_tag(s2, m1));
        assert(keep_tag(s1, m2) == keep_tag(s2, m2));
        assert(m2 <= m1);
        assert(m1 <= m2);
        lemma_keep_drop_parts(s1, m1);
        lemma_keep_drop_parts(s2, m1);
        assert forall|t: u32| #[trigger] keep_tag(drop_tag(s1, m1), t) == keep_tag(
            drop_tag(s2, m1),
            t,
        ) by {
            lemma_keep_of_drop(s1, m1, t);
            lemma_keep_of_drop(s2, m1, t);
            assert(keep_tag(s1, t) == keep_tag(s2, t));
        }
        lemma_canon_respects_grouping(drop_tag(s1, m1), drop_tag(s2, m1));
    }
}

/// Reorders entries into canonical form: tags in ascending order, and the
/// occurrences of one tag kept in their original relative order.
pub fn canonicalize(entries: Vec<Entry>) -> (r: Vec<Entry>)
    ensures
        entries_view(r@) == spec_canon(entries_view(entries@)),
        entries_wf(entries@) ==> entries_wf(r@),
{
    let ghost orig: Seq<(u32, ValueV)> = entries_view(entries@);
    let ghost wf0: bool = entries_wf(entries@);
    let mut work: Vec<Entry> = entries;
    let mut out: Vec<Entry> = Vec::new();
    proof {
        assert(entries_view(out@) =~= Seq::<(u32, ValueV)>::empty());
        assert(entries_view(out@) + spec_canon(orig) =~= spec_canon(orig));
    }
    while work.len() > 0
        invariant
            entries_view(out@) + spec_canon(entries_view(work@)) == spec_canon(orig),
            wf0 ==> entries_wf(out@) && entries_wf(work@),
        decreases work@.len(),
    {
        // The smallest tag among the remaining entries.
        let mut m: u32 = work[0].tag.0;
        let mut i: usize = 1;
        proof {
            assert(work@[0].tag.0 == m);
        }
        while i < work.len()
            invariant
                1 <= i <= work@.len(),
                exists|j: int| 0 <= j < i && (#[trigger] work@[j]).tag.0 == m,
                forall|j: int| 0 <= j < i ==> (#[trigger] work@[j]).tag.0 >= m,
            decreases work@.len() - i,
        {
            if work[i].tag.0 < m {
                m = work[i].tag.0;
                proof {
                    assert(work@[i as int].tag.0 == m);
                }
            }
            i = i + 1;
        }
        let pre_len: usize = work.len();
        let ghost pre: Seq<Entry> = work@;
        let ghost wvm: Seq<(u32, ValueV)> = entries_view(pre);
        proof {
            lemma_entries_view(pre);
            lemma_min_tag(wvm);
            let i0 = choose|i0: int| 0 <= i0 < wvm.len() && (#[trigger] wvm[i0]).0 == min_tag(wvm);
            assert(pre[i0].tag.0 == min_tag(wvm));
            let j0 = choose|j: int| 0 <= j < pre.len() && (#[trigger] pre[j]).tag.0 == m;
            assert(wvm[j0].0 == m);
            assert(m == min_tag(wvm));
            if wf0 {
                lemma_entries_wf(pre);
            }
        }
        // Move the group of `m` to the output, keep the rest, in order.
        let ghost out0: Seq<Entry> = out@;
        let mut rest: Vec<Entry> = Vec::new();
        let mut k: usize = 0;
        proof {
            assert(pre.take(0) =~= Seq::<Entry>::empty());
            assert(entries_view(pre.take(0)) =~= Seq::<(u32, ValueV)>::empty());
            assert(keep_tag(entries_view(pre.take(0)), m) =~= Seq::<(u32, ValueV)>::empty());
            assert(drop_tag(entries_view(pre.take(0)), m) =~= Seq::<(u32, ValueV)>::empty());
            assert(entries_view(rest@) =~= Seq::<(u32, ValueV)>::empty());
            assert(entries_view(out@) + keep_tag(entries_view(pre.take(0)), m) =~= entries_view(
                out0,
            ));
        }
        while work.len() > 0
            invariant
                pre.len() == pre_len,
                k + work@.len() == pre.len(),
                work@ == pre.subrange(k as int, pre.len() as int),
                entries_view(out@) == entries_view(out0) + keep_tag(
                    entries_view(pre.take(k as int)),
                    m,
                ),
                entries_view(rest@) == drop_tag(entries_view(pre.take(k as int)), m),
                wf0 ==> entries_wf(out@) && entries_wf(rest@) && (forall|i: int|
                    0 <= i < pre.len() ==> value_wf((#[trigger] pre[i]).value)),
            decreases work@.len(),
        {
            let ghost done: Seq<Entry> = pre.take(k as int);
            let e: Entry = work.remove(0);
            proof {
                assert(e == pre[k as int]);
                assert(work@ =~= pre.subrange(k as int + 1, pre.len() as int));
                assert(pre.take(k as int + 1) =~= done.push(e));
                lemma_entries_view_push(done, e);
                lemma_keep_drop_push(entries_view(done), (e.tag.0, value_view(e.value)), m);
            }
            if e.tag.0 == m {
                proof {
                    lemma_entries_view_push(out@, e);
                    if wf0 {
                        lemma_entries_wf_push(out@, e);
                    }
                    assert(entries_view(out0) + keep_tag(entries_view(done), m).push(
                        (e.tag.0, value_view(e.value)),
                    ) =~= (entries_view(out0) + keep_tag(entries_view(done), m)).push(
                        (e.tag.0, value_view(e.value)),
                    ));
                }
                out.push(e);
            } else {
                proof {
                    lemma_entries_view_push(rest@, e);
                    if wf0 {
                        lemma_entries_wf_push(rest@, e);
                    }
                }
                rest.push(e);
            }
            k = k + 1;
        }
        proof {
            assert(pre.take(k as int) =~= pre);
            lemma_keep_tag_occurs(wvm, m);
            lemma_keep_drop_parts(wvm, m);
            lemma_entries_view(rest@);
            assert(drop_tag(wvm, m).len() < wvm.len());
            assert(spec_canon(wvm) == keep_tag(wvm, m) + spec_canon(drop_tag(wvm, m)));
            assert((entries_view(out0) + keep_tag(wvm, m)) + spec_canon(drop_tag(wvm, m)) =~= entries_view(
                out0,
            ) + (keep_tag(wvm, m) + spec_canon(drop_tag(wvm, m))));
            if wf0 {
                lemma_entries_wf(work@);
            }
        }
        work = rest;
    }
    proof {
        assert(entries_view(work@) =~= Seq::<(u32, ValueV)>::empty());
        assert(spec_canon(entries_view(work@)) =~= Seq::<(u32, ValueV)>::empty());
        assert(entries_view(out@) + spec_canon(entries_view(work@)) =~= entries_view(out@));
    }
    out
}

/// Every tag in a list's canonical form occurs in the list.
proof fn lemma_canon_tags_occur(s: Seq<(u32, ValueV)>, i: int)
    requires
        0 <= i < spec_canon(s).len(),
    ensures
        exists|j: int| 0 <= j < s.len() && (#[trigger] s[j]).0 == spec_canon(s)[i].0,
{
    let t = spec_canon(s)[i].0;
    lemma_keep_tag_occurs(spec_canon(s), t);
    assert(keep_tag(spec_canon(s), t).len() > 0);
    lemma_canon_preserves_groups(s, t);
    lemma_keep_tag_occurs(s, t);
}

/// The canonical form is ordered by tag: no entry precedes one with a
/// smaller tag.
pub proof fn lemma_canon_sorted(s: Seq<(u32, ValueV)>)
    ensures
        forall|i: int, j: int|
            0 <= i < j < spec_canon(s).len() ==> (#[trigger] spec_canon(s)[i]).0 <= (
            #[trigger] spec_canon(s)[j]).0,
    decreases s.len(),
{
    if s.len() > 0 {
        let m = min_tag(s);
        lemma_min_tag(s);
        lemma_keep_tag_occurs(s, m);
        lemma_keep_drop_parts(s, m);
        let rest = drop_tag(s, m);
        lemma_canon_sorted(rest);
        assert forall|i: int, j: int|
            0 <= i < j < spec_canon(s).len() implies (#[trigger] spec_canon(s)[i]).0 <= (
        #[trigger] spec_canon(s)[j]).0 by {
            let head = keep_tag(s, m);
            assert(spec_canon(s) == head + spec_canon(rest));
            if j >= head.len() {
                lemma_canon_tags_occur(rest, j - head.len());
                let witness = choose|w: int|
                    0 <= w < rest.len() && (#[trigger] rest[w]).0 == spec_canon(rest)[j
                        - head.len()].0;
                lemma_keep_tag_occurs(rest, rest[witness].0);
                lemma_keep_of_drop(s, m, rest[witness].0);
                lemma_keep_tag_occurs(s, rest[witness].0);
                assert(spec_canon(s)[j].0 > m);
            }
        }
    }
}

impl Message {
    /// This message in canonical form.
    pub fn canonicalize(self) -> (r: Message)
        ensures
            r@ == spec_canon(self@),
            self.wf() ==> r.wf(),
    {
        Message(canonicalize(self.0))
    }
}

/// Canonicalizing a canonical list changes nothing.
pub proof fn lemma_canon_idempotent(s: Seq<(u32, ValueV)>)
    ensures
        spec_canon(spec_canon(s)) == spec_canon(s),
{
    assert forall|t: u32| #[trigger] keep_tag(spec_canon(s), t) == keep_tag(s, t) by {
        lemma_canon_preserves_groups(s, t);
    }
    lemma_canon_respects_grouping(spec_canon(s), s);
}

} // verus!
