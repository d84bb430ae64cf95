use vstd::prelude::*;
use crate::names::{chars_of, is_note, is_note_entry, ScanEntry};
use vstd::multiset::Multiset;

verus! {

broadcast use vstd::seq_lib::group_to_multiset_ensures;

/// Order on characters of a path: the separator `/` before every other
/// character, the others by character code. Comparing texts with it compares
/// paths component by component, so `a/c` comes before `a.b`.
pub open spec fn char_before(a: char, b: char) -> bool {
    (a == '/' && b != '/') || (a != '/' && b != '/' && a < b)
}

/// Lexicographic order on paths, by `char_before`: a proper prefix comes first.
pub open spec fn lex_le(a: Seq<char>, b: Seq<char>) -> bool
    decreases a.len(),
{
    if a.len() == 0 {
        true
    } else if b.len() == 0 {
        false
    } else if a[0] != b[0] {
        char_before(a[0], b[0])
    } else {
        lex_le(a.drop_first(), b.drop_first())
    }
}

/// Each text comes no later than the next ones.
pub open spec fn is_sorted(s: Seq<String>) -> bool {
    forall|i: int, j: int| 0 <= i < j < s.len() ==> lex_le(#[trigger] s[i]@, #[trigger] s[j]@)
}

proof fn lemma_lex_le_reflexive(a: Seq<char>)
    ensures
        lex_le(a, a),
    decreases a.len(),
{
    if a.len() > 0 {
        lemma_lex_le_reflexive(a.drop_first());
    }
}

proof fn lemma_lex_le_total(a: Seq<char>, b: Seq<char>)
    ensures
        lex_le(a, b) || lex_le(b, a),
    decreases a.len(),
{
    if a.len() > 0 && b.len() > 0 && a[0] == b[0] {
        lemma_lex_le_total(a.drop_first(), b.drop_first());
    }
}

proof fn lemma_lex_le_transitive(a: Seq<char>, b: Seq<char>, c: Seq<char>)
    requires
        lex_le(a, b),
        lex_le(b, c),
    ensures
        lex_le(a, c),
    decreases a.len(),
{
    if a.len() > 0 && b.len() > 0 && c.len() > 0 && a[0] == b[0] && b[0] == c[0] {
        lemma_lex_le_transitive(a.drop_first(), b.drop_first(), c.drop_first());
    }
}

proof fn lemma_lex_le_antisymmetric(a: Seq<char>, b: Seq<char>)
    requires
        lex_le(a, b),
        lex_le(b, a),
    ensures
        a == b,
    decreases a.len(),
{
    if a.len() > 0 && b.len() > 0 && a[0] == b[0] {
        lemma_lex_le_antisymmetric(a.drop_first(), b.drop_first());
        assert forall|i: int| 0 <= i < a.len() implies a[i] == b[i] by {
            if i > 0 {
                assert(a[i] == a.drop_first()[i - 1]);
                assert(b[i] == b.drop_first()[i - 1]);
            }
        }
    }
    assert(a =~= b);
}

/// The order in which notes are handled depends only on which notes there
/// are: two sorted arrangements of the same paths list them alike.
pub proof fn lemma_order_is_determined(a: Seq<String>, b: Seq<String>)
    requires
        a.to_multiset() == b.to_multiset(),
        is_sorted(a),
        is_sorted(b),
    ensures
        a.map_values(|s: String| s@) == b.map_values(|s: String| s@),
    decreases a.len(),
{
    if a.len() == 0 {
        assert(b.len() == b.to_multiset().len());
        assert(b.len() == 0);
        assert(a.map_values(|s: String| s@) =~= b.map_values(|s: String| s@));
    } else {
        let x = a[0];
        assert(a.len() == a.to_multiset().len());
        assert(b.len() == b.to_multiset().len());
        assert(a.contains(x));
        assert(b.to_multiset().count(x) > 0);
        assert(b.contains(x));
        let k = choose|k: int| 0 <= k < b.len() && b[k] == x;
        assert(a.to_multiset().count(b[0]) > 0);
        assert(a.contains(b[0]));
        let j = choose|j: int| 0 <= j < a.len() && a[j] == b[0];
        lemma_lex_le_reflexive(x@);
        lemma_lex_le_reflexive(b[0]@);
        assert(lex_le(x@, b[0]@)) by {
            if j > 0 {
                assert(lex_le(a[0]@, a[j]@));
            }
        }
        assert(lex_le(b[0]@, x@)) by {
            if k > 0 {
                assert(lex_le(b[0]@, b[k]@));
            }
        }
        lemma_lex_le_antisymmetric(x@, b[0]@);
        assert forall|i: int| 0 <= i <= k implies (#[trigger] b[i])@ == x@ by {
            if 0 < i {
                assert(lex_le(b[0]@, b[i]@));
                if i < k {
                    assert(lex_le(b[i]@, b[k]@));
                }
                lemma_lex_le_antisymmetric(b[i]@, x@);
            }
        }
        let a2 = a.drop_first();
        let b2 = b.remove(k);
        assert(a.remove(0) == a2);
        assert(a2.to_multiset() =~= a.to_multiset().remove(x));
        assert(b2.to_multiset() =~= b.to_multiset().remove(x));
        assert forall|i: int, j2: int| 0 <= i < j2 < a2.len() implies lex_le(
            #[trigger] a2[i]@,
            #[trigger] a2[j2]@,
        ) by {
            assert(a2[i] == a[i + 1] && a2[j2] == a[j2 + 1]);
        }
        assert forall|i: int, j2: int| 0 <= i < j2 < b2.len() implies lex_le(
            #[trigger] b2[i]@,
            #[trigger] b2[j2]@,
        ) by {
            let i0 = if i < k { i } else { i + 1 };
            let j0 = if j2 < k { j2 } else { j2 + 1 };
            assert(b2[i] == b[i0] && b2[j2] == b[j0]);
        }
        lemma_order_is_determined(a2, b2);
        assert forall|i: int| 0 <= i < a.len() implies (#[trigger] a[i])@ == b[i]@ by {
            if i > 0 {
                assert(a[i] == a2[i - 1]);
                assert(a2.map_values(|s: String| s@)[i - 1] == b2.map_values(|s: String| s@)[i - 1]);
                if i <= k {
                    assert(b2[i - 1] == b[i - 1]);
                } else {
                    assert(b2[i - 1] == b[i]);
                }
            }
        }
        assert(a.map_values(|s: String| s@) =~= b.map_values(|s: String| s@));
    }
}

/// Whether path `a` comes no later than path `b`.
pub fn path_le(a: &String, b: &String) -> (r: bool)
    ensures
        r == lex_le(a@, b@),
{
    let xs = chars_of(a.as_str());
    let ys = chars_of(b.as_str());
    let mut i: usize = 0;
    proof {
        assert(a@.subrange(0, a@.len() as int) == a@);
        assert(b@.subrange(0, b@.len() as int) == b@);
    }
    while i < xs.len() && i < ys.len() && xs[i] == ys[i]
        invariant
            i <= xs.len(),
            i <= ys.len(),
            xs@ == a@,
            ys@ == b@,
            lex_le(a@, b@) == lex_le(a@.subrange(i as int, a@.len() as int), b@.subrange(i as int, b@.len() as int)),
        decreases xs.len() - i,
    {
        proof {
            let sa = a@.subrange(i as int, a@.len() as int);
            let sb = b@.subrange(i as int, b@.len() as int);
            assert(sa.drop_first() == a@.subrange(i + 1, a@.len() as int));
            assert(sb.drop_first() == b@.subrange(i + 1, b@.len() as int));
        }
        i = i + 1;
    }
    if i == xs.len() {
        true
    } else if i == ys.len() {
        false
    } else {
        let x = xs[i];
        let y = ys[i];
        (x == '/' && y != '/') || (x != '/' && y != '/' && x < y)
    }
}

/// Puts paths in order (`lex_le`), the order in which notes are handled,
/// keeping each path exactly as often as it was given.
pub fn sort_paths(paths: Vec<String>) -> (r: Vec<String>)
    ensures
        r@.to_multiset() == paths@.to_multiset(),
        is_sorted(r@),
{
    let mut rest = paths;
    let mut out: Vec<String> = Vec::new();
    proof {
        assert(out@.to_multiset() =~= Multiset::<String>::empty());
        assert(out@.to_multiset().add(rest@.to_multiset()) =~= paths@.to_multiset());
    }
    while rest.len() > 0
        invariant
            out@.to_multiset().add(rest@.to_multiset()) == paths@.to_multiset(),
            is_sorted(out@),
            forall|i: int, k: int|
                0 <= i < out@.len() && 0 <= k < rest@.len() ==> lex_le(
                    #[trigger] out@[i]@,
                    #[trigger] rest@[k]@,
                ),
        decreases rest.len(),
    {
        let mut m: usize = 0;
        let mut j: usize = 1;
        proof {
            lemma_lex_le_reflexive(rest@[0]@);
        }
        while j < rest.len()
            invariant
                m < j <= rest.len(),
                forall|k: int| 0 <= k < j ==> lex_le(rest@[m as int]@, #[trigger] rest@[k]@),
            decreases rest.len() - j,
        {
            if !path_le(&rest[m], &rest[j]) {
                proof {
                    lemma_lex_le_total(rest@[m as int]@, rest@[j as int]@);
                    lemma_lex_le_reflexive(rest@[j as int]@);
                    assert forall|k: int| 0 <= k <= j implies lex_le(rest@[j as int]@, #[trigger] rest@[k]@) by {
                        if k < j {
                            lemma_lex_le_transitive(rest@[j as int]@, rest@[m as int]@, rest@[k]@);
                        }
                    }
                }
                m = j;
            }
            j = j + 1;
        }
        let ghost before = rest@;
        let ghost out_before = out@;
        let x = rest.remove(m);
        proof {
            assert(rest@ == before.remove(m as int));
            assert(before.remove(m as int).to_multiset() =~= before.to_multiset().remove(x));
            assert(before.to_multiset().contains(x)) by {
                assert(before[m as int] == x);
                assert(before.contains(x));
            }
        }
        out.push(x);
        proof {
            assert(out@ == out_before.push(x));
            assert(out@.to_multiset() =~= out_before.to_multiset().insert(x));
            assert(out@.to_multiset().add(rest@.to_multiset()) =~= out_before.to_multiset().add(before.to_multiset()));
            assert forall|i: int, k: int| 0 <= i < out@.len() && 0 <= k < rest@.len() implies lex_le(
                #[trigger] out@[i]@, #[trigger] rest@[k]@) by {
                let k0 = if k < m { k } else { k + 1 };
                assert(rest@[k] == before[k0]);
                if i < out_before.len() {
                    assert(out@[i] == out_before[i]);
                } else {
                    assert(out@[i] == x);
                }
            }
            assert forall|i: int, j2: int| 0 <= i < j2 < out@.len() implies lex_le(
                #[trigger] out@[i]@, #[trigger] out@[j2]@) by {
                if j2 < out_before.len() {
                    assert(out@[i] == out_before[i] && out@[j2] == out_before[j2]);
                } else {
                    assert(out@[i] == out_before[i] && out@[j2] == before[m as int]);
                }
            }
        }
    }
    proof {
        assert(rest@.to_multiset() =~= Multiset::<String>::empty());
        assert(out@.to_multiset().add(Multiset::<String>::empty()) =~= out@.to_multiset());
    }
    out
}

/// The paths of the entries that are HTML notes, in the order walked.
pub open spec fn note_paths(entries: Seq<ScanEntry>) -> Seq<String>
    decreases entries.len(),
{
    if entries.len() == 0 {
        Seq::empty()
    } else if is_note_entry(entries.last()) {
        note_paths(entries.drop_last()).push(entries.last().path)
    } else {
        note_paths(entries.drop_last())
    }
}

/// The HTML notes among the entries of a walk, in the order in which they
/// are handled: every note exactly once, and nothing else.
pub fn select_notes(entries: Vec<ScanEntry>) -> (r: Vec<String>)
    ensures
        r@.to_multiset() == note_paths(entries@).to_multiset(),
        is_sorted(r@),
{
    let mut notes: Vec<String> = Vec::new();
    let ghost all = entries@;
    let mut i: usize = 0;
    proof {
        assert(all.take(0) =~= Seq::<ScanEntry>::empty());
    }
    while i < entries.len()
        invariant
            i <= entries.len(),
            entries@ == all,
            notes@ == note_paths(all.take(i as int)),
        decreases entries.len() - i,
    {
        proof {
            assert(all.take(i + 1).drop_last() == all.take(i as int));
            assert(all.take(i + 1).last() == all[i as int]);
        }
        if is_note(&entries[i]) {
            notes.push(entries[i].path.clone());
        }
        i = i + 1;
    }
    proof {
        assert(all.take(entries.len() as int) == all);
    }
    sort_paths(notes)
}

} // verus!
