//! File names in the order `str` sorts them, and grouped by the pack each
//! belongs to, as the file tree lists them.

use vstd::prelude::*;
use vstd::relations::{sorted_by, total_ordering};
use vstd::seq_lib::to_multiset_insert;

use crate::text::chars_of;

verus! {

/// Whether `a` sorts no later than `b` in the order of `str`: character by
/// character by code point (as UTF-8 bytes compare), a prefix first.
pub open spec fn text_le(a: Seq<char>, b: Seq<char>) -> bool
    decreases a.len(),
{
    if a.len() == 0 {
        true
    } else if b.len() == 0 {
        false
    } else if a[0] != b[0] {
        (a[0] as int) < (b[0] as int)
    } else {
        text_le(a.drop_first(), b.drop_first())
    }
}

/// The order of `str` as a relation.
pub open spec fn text_order() -> spec_fn(Seq<char>, Seq<char>) -> bool {
    |a: Seq<char>, b: Seq<char>| text_le(a, b)
}

/// The text each name holds.
pub open spec fn texts_of(names: Seq<String>) -> Seq<Seq<char>> {
    names.map_values(|name: String| name@)
}

/// The order of `str` is a total order.
pub proof fn lemma_text_order()
    ensures
        total_ordering(text_order()),
{
    assert forall|a: Seq<char>| #[trigger] text_order()(a, a) by {
        lemma_text_le_reflexive(a);
    }
    assert forall|a: Seq<char>, b: Seq<char>| #[trigger] text_order()(a, b) && #[trigger] text_order()(b, a) implies a
        == b by {
        lemma_text_le_antisymmetric(a, b);
    }
    assert forall|a: Seq<char>, b: Seq<char>, c: Seq<char>| #[trigger] text_order()(a, b) && #[trigger] text_order()(
        b,
        c,
    ) implies text_order()(a, c) by {
        lemma_text_le_transitive(a, b, c);
    }
    assert forall|a: Seq<char>, b: Seq<char>| #[trigger] text_order()(a, b) || #[trigger] text_order()(b, a) by {
        lemma_text_le_total(a, b);
    }
}

proof fn lemma_text_le_reflexive(a: Seq<char>)
    ensures
        text_le(a, a),
    decreases a.len(),
{
    if a.len() > 0 {
        lemma_text_le_reflexive(a.drop_first());
    }
}

proof fn lemma_text_le_antisymmetric(a: Seq<char>, b: Seq<char>)
    requires
        text_le(a, b),
        text_le(b, a),
    ensures
        a == b,
    decreases a.len(),
{
    if a.len() == 0 {
        assert(b.len() == 0);
        assert(a =~= b);
    } else {
        assert(b.len() > 0);
        assert(a[0] == b[0]);
        lemma_text_le_antisymmetric(a.drop_first(), b.drop_first());
        assert(a =~= seq![a[0]] + a.drop_first());
        assert(b =~= seq![b[0]] + b.drop_first());
    }
}

proof fn lemma_text_le_transitive(a: Seq<char>, b: Seq<char>, c: Seq<char>)
    requires
        text_le(a, b),
        text_le(b, c),
    ensures
        text_le(a, c),
    decreases a.len(),
{
    if a.len() > 0 && c.len() > 0 && b.len() > 0 && a[0] == b[0] && b[0] == c[0] {
        lemma_text_le_transitive(a.drop_first(), b.drop_first(), c.drop_first());
    }
}

proof fn lemma_text_le_total(a: Seq<char>, b: Seq<char>)
    ensures
        text_le(a, b) || text_le(b, a),
    decreases a.len(),
{
    if a.len() > 0 && b.len() > 0 && a[0] == b[0] {
        lemma_text_le_total(a.drop_first(), b.drop_first());
    }
}

/// Whether `a` sorts no later than `b`; see [`text_le`].
fn sorts_before(a: &[char], b: &[char]) -> (le: bool)
    ensures
        le == text_le(a@, b@),
{
    let mut at: usize = 0;
    while at < a.len() && at < b.len() && a[at] == b[at]
        invariant
            at <= a@.len(),
            at <= b@.len(),
            a@.take(at as int) == b@.take(at as int),
        decreases a@.len() - at,
    {
        assert(a@.take(at + 1) =~= a@.take(at as int).push(a@[at as int]));
        assert(b@.take(at + 1) =~= b@.take(at as int).push(b@[at as int]));
        at += 1;
    }
    proof {
        lemma_text_le_skip(a@, b@, at as int);
    }
    if at == a.len() {
        true
    } else if at == b.len() {
        false
    } else {
        let left = a[at];
        let right = b[at];
        proof {
            assert(a@.skip(at as int)[0] == left);
            assert(b@.skip(at as int)[0] == right);
            assert(a@.skip(at as int).len() > 0);
            assert(b@.skip(at as int).len() > 0);
        }
        left < right
    }
}

/// Comparing two texts that agree on their first `k` characters compares what follows.
proof fn lemma_text_le_skip(a: Seq<char>, b: Seq<char>, k: int)
    requires
        0 <= k <= a.len(),
        k <= b.len(),
        a.take(k) == b.take(k),
    ensures
        text_le(a, b) == text_le(a.skip(k), b.skip(k)),
    decreases k,
{
    if k > 0 {
        assert(a[0] == a.take(k)[0]);
        assert(b[0] == b.take(k)[0]);
        assert(a.drop_first().take(k - 1) =~= a.take(k).drop_first());
        assert(b.drop_first().take(k - 1) =~= b.take(k).drop_first());
        lemma_text_le_skip(a.drop_first(), b.drop_first(), k - 1);
        assert(a.drop_first().skip(k - 1) =~= a.skip(k));
        assert(b.drop_first().skip(k - 1) =~= b.skip(k));
    } else {
        assert(a.skip(0) =~= a);
        assert(b.skip(0) =~= b);
    }
}

/// Sorts names in the order of `str`, as `sort_unstable` does: what comes out
/// is the names put in, in that order.
pub fn sort_names(names: &mut Vec<String>)
    ensures
        texts_of(final(names)@) == texts_of(old(names)@).sort_by(text_order()),
{
    let ghost start = texts_of(old(names)@);
    let mut pending: Vec<String> = Vec::new();
    std::mem::swap(names, &mut pending);
    let mut sorted: Vec<String> = Vec::new();
    let mut glyphs: Vec<Vec<char>> = Vec::new();
    proof {
        broadcast use vstd::seq_lib::group_to_multiset_ensures, vstd::multiset::group_multiset_axioms;
        lemma_text_order();
        assert(texts_of(pending@) == start);
        assert(texts_of(sorted@) =~= Seq::<Seq<char>>::empty());
        assert(texts_of(sorted@).to_multiset() =~= vstd::multiset::Multiset::empty());
        assert(texts_of(sorted@).to_multiset().add(texts_of(pending@).to_multiset()) =~= start.to_multiset());
    }
    while pending.len() > 0
        invariant
            total_ordering(text_order()),
            glyphs@.len() == sorted@.len(),
            forall|i: int| 0 <= i < sorted@.len() ==> #[trigger] glyphs@[i]@ == sorted@[i]@,
            sorted_by(texts_of(sorted@), text_order()),
            texts_of(sorted@).to_multiset().add(texts_of(pending@).to_multiset()) == start.to_multiset(),
        decreases pending@.len(),
    {
        let ghost before_pending = texts_of(pending@);
        let name = pending.pop().unwrap();
        let text = chars_of(name.as_str());
        let mut low: usize = 0;
        let mut high: usize = sorted.len();
        while low < high
            invariant
                glyphs@.len() == sorted@.len(),
                forall|i: int| 0 <= i < sorted@.len() ==> #[trigger] glyphs@[i]@ == sorted@[i]@,
                low <= high <= sorted@.len(),
                forall|i: int| 0 <= i < low ==> text_le(#[trigger] sorted@[i]@, text@),
                forall|i: int| high <= i < sorted@.len() ==> !text_le(#[trigger] sorted@[i]@, text@),
                sorted_by(texts_of(sorted@), text_order()),
                total_ordering(text_order()),
            decreases high - low,
        {
            let middle = low + (high - low) / 2;
            if sorts_before(glyphs[middle].as_slice(), text.as_slice()) {
                proof {
                    assert forall|i: int| 0 <= i <= middle implies text_le(#[trigger] sorted@[i]@, text@) by {
                        if i < middle {
                            assert(text_order()(texts_of(sorted@)[i], texts_of(sorted@)[middle as int]));
                            lemma_text_le_transitive(sorted@[i]@, sorted@[middle as int]@, text@);
                        }
                    }
                }
                low = middle + 1;
            } else {
                proof {
                    assert forall|i: int| middle <= i < sorted@.len() implies !text_le(#[trigger] sorted@[i]@, text@) by {
                        if i > middle {
                            assert(text_order()(texts_of(sorted@)[middle as int], texts_of(sorted@)[i]));
                            if text_le(sorted@[i]@, text@) {
                                lemma_text_le_transitive(sorted@[middle as int]@, sorted@[i]@, text@);
                            }
                        }
                    }
                }
                high = middle;
            }
        }
        let ghost held = sorted@;
        let ghost held_glyphs = glyphs@;
        sorted.insert(low, name);
        glyphs.insert(low, text);
        proof {
            let texts = texts_of(sorted@);
            assert(texts =~= texts_of(held).insert(low as int, text@));
            assert(texts_of(pending@) =~= before_pending.drop_last());
            assert(before_pending =~= texts_of(pending@).push(text@));
            to_multiset_insert(texts_of(held), low as int, text@);
            vstd::seq_lib::to_multiset_build(texts_of(pending@), text@);
            assert(texts_of(sorted@).to_multiset().add(texts_of(pending@).to_multiset()) =~= start.to_multiset());
            assert forall|i: int, j: int| 0 <= i < j < texts.len() implies #[trigger] text_order()(
                texts[i],
                texts[j],
            ) by {
                let at = low as int;
                if j < at || i > at {
                    let oi = if i < at { i } else { i - 1 };
                    let oj = if j < at { j } else { j - 1 };
                    assert(text_order()(texts_of(held)[oi], texts_of(held)[oj]));
                } else if i == at {
                    lemma_text_le_total(text@, held[j - 1]@);
                } else if j == at {
                } else {
                    assert(text_order()(texts_of(held)[i], texts_of(held)[j - 1]));
                }
            }
            assert forall|i: int| 0 <= i < sorted@.len() implies #[trigger] glyphs@[i]@ == sorted@[i]@ by {
                if i < low {
                    assert(glyphs@[i] == held_glyphs[i]);
                    assert(sorted@[i] == held[i]);
                } else if i > low {
                    assert(glyphs@[i] == held_glyphs[i - 1]);
                    assert(sorted@[i] == held[i - 1]);
                }
            }
        }
    }
    proof {
        broadcast use vstd::seq_lib::group_to_multiset_ensures, vstd::multiset::group_multiset_axioms;
        assert(texts_of(pending@) =~= Seq::<Seq<char>>::empty());
        assert(texts_of(pending@).to_multiset() =~= vstd::multiset::Multiset::empty());
        assert(texts_of(sorted@).to_multiset() =~= start.to_multiset());
        start.lemma_sort_by_ensures(text_order());
        vstd::seq_lib::lemma_sorted_unique(texts_of(sorted@), start.sort_by(text_order()), text_order());
    }
    *names = sorted;
}

/// The pack a name is listed under: the one given for it, unless that is empty.
pub open spec fn pack_named(pack: Option<String>) -> Option<Seq<char>> {
    match pack {
        Some(name) => if name@.len() > 0 {
            Some(name@)
        } else {
            None
        },
        None => None,
    }
}

/// The names that belong to no pack, in the order given.
pub open spec fn unpacked(names: Seq<String>, packs: Seq<Option<String>>) -> Seq<Seq<char>>
    decreases names.len(),
{
    if names.len() == 0 || packs.len() == 0 {
        Seq::empty()
    } else {
        let prior = unpacked(names.drop_last(), packs.drop_last());
        if pack_named(packs.last()) is None {
            prior.push(names.last()@)
        } else {
            prior
        }
    }
}

/// The names that belong to `pack`, in the order given.
pub open spec fn packed_in(names: Seq<String>, packs: Seq<Option<String>>, pack: Seq<char>) -> Seq<Seq<char>>
    decreases names.len(),
{
    if names.len() == 0 || packs.len() == 0 {
        Seq::empty()
    } else {
        let prior = packed_in(names.drop_last(), packs.drop_last(), pack);
        if pack_named(packs.last()) == Some(pack) {
            prior.push(names.last()@)
        } else {
            prior
        }
    }
}

/// The packs the names belong to, each once, in the order first met.
pub open spec fn packs_met(packs: Seq<Option<String>>) -> Seq<Seq<char>>
    decreases packs.len(),
{
    if packs.len() == 0 {
        Seq::empty()
    } else {
        let prior = packs_met(packs.drop_last());
        match pack_named(packs.last()) {
            Some(pack) => if prior.contains(pack) {
                prior
            } else {
                prior.push(pack)
            },
            None => prior,
        }
    }
}

/// Files grouped for the pack listing: each pack the names belong to, once,
/// in the order of `str`, with its files in that order; and the files of no
/// pack, in that order. `packs[i]` is the pack `names[i]` was found in, an
/// empty one counting as none.
pub fn group_packs(names: &[String], packs: &[Option<String>]) -> (grouped: (Vec<(String, Vec<String>)>, Vec<String>))
    requires
        packs@.len() == names@.len(),
    ensures
        texts_of(grouped.1@) == unpacked(names@, packs@).sort_by(text_order()),
        grouped.0@.map_values(|group: (String, Vec<String>)| group.0@) == packs_met(packs@).sort_by(text_order()),
        forall|i: int|
            0 <= i < grouped.0@.len() ==> texts_of((#[trigger] grouped.0@[i]).1@) == packed_in(
                names@,
                packs@,
                grouped.0@[i].0@,
            ).sort_by(text_order()),
{
    let mut roots: Vec<String> = Vec::new();
    let mut met: Vec<String> = Vec::new();
    let mut at: usize = 0;
    while at < names.len()
        invariant
            packs@.len() == names@.len(),
            at <= names@.len(),
            texts_of(roots@) == unpacked(names@.take(at as int), packs@.take(at as int)),
            texts_of(met@) == packs_met(packs@.take(at as int)),
        decreases names@.len() - at,
    {
        proof {
            assert(names@.take(at + 1).drop_last() =~= names@.take(at as int));
            assert(packs@.take(at + 1).drop_last() =~= packs@.take(at as int));
        }
        match &packs[at] {
            Some(pack) => {
                if chars_of(pack.as_str()).len() > 0 {
                    let mut seen = false;
                    let mut look: usize = 0;
                    while look < met.len()
                        invariant
                            look <= met@.len(),
                            seen == exists|k: int| 0 <= k < look && (#[trigger] met@[k])@ == pack@,
                        decreases met@.len() - look,
                    {
                        if met[look] == *pack {
                            seen = true;
                        }
                        look += 1;
                    }
                    proof {
                        if seen {
                            let k = choose|k: int| 0 <= k < look && (#[trigger] met@[k])@ == pack@;
                            assert(texts_of(met@)[k] == pack@);
                        } else {
                            assert forall|k: int| 0 <= k < met@.len() implies texts_of(met@)[k] != pack@ by {
                                assert(met@[k]@ != pack@);
                            }
                        }
                    }
                    if !seen {
                        let ghost prior = met@;
                        met.push(pack.clone());
                        proof {
                            assert(texts_of(met@) =~= texts_of(prior).push(pack@));
                        }
                    }
                } else {
                    let ghost prior = roots@;
                    roots.push(names[at].clone());
                    proof {
                        assert(texts_of(roots@) =~= texts_of(prior).push(names@[at as int]@));
                    }
                }
            },
            None => {
                let ghost prior = roots@;
                roots.push(names[at].clone());
                proof {
                    assert(texts_of(roots@) =~= texts_of(prior).push(names@[at as int]@));
                }
            },
        }
        at += 1;
    }
    sort_names(&mut roots);
    sort_names(&mut met);
    let mut groups: Vec<(String, Vec<String>)> = Vec::new();
    let mut index: usize = 0;
    while index < met.len()
        invariant
            packs@.len() == names@.len(),
            index <= met@.len(),
            groups@.len() == index,
            forall|i: int| 0 <= i < index ==> (#[trigger] groups@[i]).0@ == met@[i]@,
            forall|i: int|
                0 <= i < index ==> texts_of((#[trigger] groups@[i]).1@) == packed_in(names@, packs@, met@[i]@).sort_by(
                    text_order(),
                ),
        decreases met@.len() - index,
    {
        let pack = &met[index];
        let mut files: Vec<String> = Vec::new();
        let mut at: usize = 0;
        while at < names.len()
            invariant
                packs@.len() == names@.len(),
                at <= names@.len(),
                texts_of(files@) == packed_in(names@.take(at as int), packs@.take(at as int), pack@),
            decreases names@.len() - at,
        {
            proof {
                assert(names@.take(at + 1).drop_last() =~= names@.take(at as int));
                assert(packs@.take(at + 1).drop_last() =~= packs@.take(at as int));
            }
            let belongs = match &packs[at] {
                Some(held) => chars_of(held.as_str()).len() > 0 && *held == *pack,
                None => false,
            };
            if belongs {
                let ghost prior = files@;
                files.push(names[at].clone());
                proof {
                    assert(texts_of(files@) =~= texts_of(prior).push(names@[at as int]@));
                }
            }
            at += 1;
        }
        proof {
            assert(names@.take(names@.len() as int) =~= names@);
            assert(packs@.take(packs@.len() as int) =~= packs@);
        }
        sort_names(&mut files);
        groups.push((pack.clone(), files));
        index += 1;
    }
    proof {
        assert(names@.take(names@.len() as int) =~= names@);
        assert(packs@.take(packs@.len() as int) =~= packs@);
        assert(groups@.map_values(|group: (String, Vec<String>)| group.0@) =~= texts_of(met@));
    }
    (groups, roots)
}

} // verus!
