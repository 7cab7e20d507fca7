//! The lexicographic order of rows, and sorting by it.

use crate::labels::LabelValue;
use vstd::prelude::*;

verus! {

/// Lexicographic order on rows: the first differing entry decides, and a
/// proper prefix comes before the longer row.
pub open spec fn lex_less(a: Seq<LabelValue>, b: Seq<LabelValue>) -> bool
    decreases a.len(),
{
    if b.len() == 0 {
        false
    } else if a.len() == 0 {
        true
    } else if a[0] != b[0] {
        a[0] < b[0]
    } else {
        lex_less(a.drop_first(), b.drop_first())
    }
}

/// Every row comes before all the rows that follow it.
pub open spec fn strictly_sorted(rows: Seq<Seq<LabelValue>>) -> bool {
    forall|i: int, j: int| 0 <= i < j < rows.len() ==> lex_less(#[trigger] rows[i], #[trigger] rows[j])
}

/// The rows of a vector of rows.
pub open spec fn rows_view(rows: Seq<Vec<LabelValue>>) -> Seq<Seq<LabelValue>> {
    Seq::new(rows.len(), |i: int| rows[i]@)
}

/// No row comes before itself.
pub proof fn lemma_lex_irreflexive(a: Seq<LabelValue>)
    ensures
        !lex_less(a, a),
    decreases a.len(),
{
    if a.len() > 0 {
        lemma_lex_irreflexive(a.drop_first());
    }
}

/// The order is transitive.
pub proof fn lemma_lex_transitive(a: Seq<LabelValue>, b: Seq<LabelValue>, c: Seq<LabelValue>)
    requires
        lex_less(a, b),
        lex_less(b, c),
    ensures
        lex_less(a, c),
    decreases a.len(),
{
    if a.len() > 0 && b.len() > 0 && c.len() > 0 && a[0] == b[0] && b[0] == c[0] {
        lemma_lex_transitive(a.drop_first(), b.drop_first(), c.drop_first());
    }
}

/// Of two different rows one comes before the other.
pub proof fn lemma_lex_total(a: Seq<LabelValue>, b: Seq<LabelValue>)
    ensures
        lex_less(a, b) || lex_less(b, a) || a == b,
    decreases a.len(),
{
    if a.len() == 0 || b.len() == 0 {
        if a.len() == 0 && b.len() == 0 {
            assert(a =~= b);
        }
    } else if a[0] == b[0] {
        lemma_lex_total(a.drop_first(), b.drop_first());
        if a.drop_first() == b.drop_first() {
            assert(a =~= seq![a[0]] + a.drop_first());
            assert(b =~= seq![b[0]] + b.drop_first());
        }
    }
}

/// Rows in strictly ascending order are pairwise distinct.
pub proof fn lemma_sorted_distinct(rows: Seq<Seq<LabelValue>>)
    requires
        strictly_sorted(rows),
    ensures
        rows.no_duplicates(),
{
    assert forall|i: int, j: int| 0 <= i < rows.len() && 0 <= j < rows.len() && i != j implies rows[i] != rows[j] by {
        lemma_lex_irreflexive(rows[i]);
        if i < j {
            assert(lex_less(rows[i], rows[j]));
        } else {
            assert(lex_less(rows[j], rows[i]));
        }
    }
}

/// Two lists of rows in strictly ascending order that hold the same rows are
/// the same list.
pub proof fn lemma_sorted_same_rows(a: Seq<Seq<LabelValue>>, b: Seq<Seq<LabelValue>>)
    requires
        strictly_sorted(a),
        strictly_sorted(b),
        forall|row: Seq<LabelValue>| a.contains(row) <==> b.contains(row),
    ensures
        a == b,
    decreases a.len(),
{
    if a.len() == 0 {
        if b.len() > 0 {
            assert(b.contains(b[0]));
        }
        assert(a =~= b);
    } else {
        let top = a.last();
        assert(a.contains(top));
        assert(b.contains(top));
        let k = choose|k: int| 0 <= k < b.len() && b[k] == top;
        if k < b.len() - 1 {
            assert(lex_less(b[k], b[b.len() - 1]));
            assert(b.contains(b.last()));
            let m = choose|m: int| 0 <= m < a.len() && a[m] == b.last();
            if m < a.len() - 1 {
                assert(lex_less(a[m], a[a.len() - 1]));
                lemma_lex_transitive(top, b.last(), top);
            }
            lemma_lex_irreflexive(top);
            assert(false);
        }
        let shorter_a = a.drop_last();
        let shorter_b = b.drop_last();
        assert forall|row: Seq<LabelValue>| shorter_a.contains(row) <==> shorter_b.contains(row) by {
            lemma_lex_irreflexive(top);
            if shorter_a.contains(row) {
                let i = choose|i: int| 0 <= i < shorter_a.len() && shorter_a[i] == row;
                assert(a[i] == row);
                assert(lex_less(a[i], a[a.len() - 1]));
                assert(a.contains(row));
                let j = choose|j: int| 0 <= j < b.len() && b[j] == row;
                assert(j < b.len() - 1);
                assert(shorter_b[j] == row);
            }
            if shorter_b.contains(row) {
                let j = choose|j: int| 0 <= j < shorter_b.len() && shorter_b[j] == row;
                assert(b[j] == row);
                assert(lex_less(b[j], b[b.len() - 1]));
                assert(b.contains(row));
                let i = choose|i: int| 0 <= i < a.len() && a[i] == row;
                assert(i < a.len() - 1);
                assert(shorter_a[i] == row);
            }
        }
        assert(strictly_sorted(shorter_a)) by {
            assert forall|i: int, j: int| 0 <= i < j < shorter_a.len() implies lex_less(
                #[trigger] shorter_a[i],
                #[trigger] shorter_a[j],
            ) by {
                assert(lex_less(a[i], a[j]));
            }
        }
        assert(strictly_sorted(shorter_b)) by {
            assert forall|i: int, j: int| 0 <= i < j < shorter_b.len() implies lex_less(
                #[trigger] shorter_b[i],
                #[trigger] shorter_b[j],
            ) by {
                assert(lex_less(b[i], b[j]));
            }
        }
        lemma_sorted_same_rows(shorter_a, shorter_b);
        assert(a =~= shorter_a.push(top));
        assert(b =~= shorter_b.push(top));
    }
}

/// Whether `a` comes before `b` in lexicographic order.
pub fn row_less(a: &[LabelValue], b: &[LabelValue]) -> (less: bool)
    ensures
        less == lex_less(a@, b@),
{
    let mut i: usize = 0;
    assert(a@.skip(0) =~= a@ && b@.skip(0) =~= b@);
    while i < a.len() && i < b.len()
        invariant
            i <= a.len(),
            i <= b.len(),
            lex_less(a@, b@) == lex_less(a@.skip(i as int), b@.skip(i as int)),
        decreases a.len() - i,
    {
        proof {
            assert(a@.skip(i as int)[0] == a[i as int]);
            assert(b@.skip(i as int)[0] == b[i as int]);
            assert(a@.skip(i as int).drop_first() =~= a@.skip(i + 1));
            assert(b@.skip(i as int).drop_first() =~= b@.skip(i + 1));
        }
        if a[i] != b[i] {
            return a[i] < b[i];
        }
        i += 1;
    }
    i < b.len()
}

/// A copy of a row.
pub fn copy_row(row: &[LabelValue]) -> (copy: Vec<LabelValue>)
    ensures
        copy@ == row@,
{
    let mut copy: Vec<LabelValue> = Vec::new();
    let mut i: usize = 0;
    while i < row.len()
        invariant
            i <= row.len(),
            copy@ == row@.take(i as int),
        decreases row.len() - i,
    {
        copy.push(row[i]);
        assert(row@.take(i + 1) =~= row@.take(i as int).push(row[i as int]));
        i += 1;
    }
    assert(row@.take(row.len() as int) =~= row@);
    copy
}

/// The rows behind a list of borrowed rows.
pub open spec fn slices_view(rows: Seq<&[LabelValue]>) -> Seq<Seq<LabelValue>> {
    Seq::new(rows.len(), |i: int| rows[i]@)
}

/// Merges two lists of rows in strictly ascending order into one, which
/// holds the rows of both, a row that both hold once.
pub fn merge_sorted<'a>(first: &Vec<&'a [LabelValue]>, second: &Vec<&'a [LabelValue]>) -> (merged: Vec<
    &'a [LabelValue],
>)
    requires
        strictly_sorted(slices_view(first@)),
        strictly_sorted(slices_view(second@)),
    ensures
        strictly_sorted(slices_view(merged@)),
        forall|row: Seq<LabelValue>|
            slices_view(merged@).contains(row) <==> (slices_view(first@).contains(row) || slices_view(
                second@,
            ).contains(row)),
{
    let ghost a = slices_view(first@);
    let ghost b = slices_view(second@);
    let mut merged: Vec<&'a [LabelValue]> = Vec::new();
    let mut i: usize = 0;
    let mut j: usize = 0;
    while i < first.len() || j < second.len()
        invariant
            i <= first.len(),
            j <= second.len(),
            a == slices_view(first@),
            b == slices_view(second@),
            strictly_sorted(a),
            strictly_sorted(b),
            strictly_sorted(slices_view(merged@)),
            forall|k: int| 0 <= k < merged.len() && i < a.len() ==> lex_less(#[trigger] slices_view(merged@)[k], a[i as int]),
            forall|k: int| 0 <= k < merged.len() && j < b.len() ==> lex_less(#[trigger] slices_view(merged@)[k], b[j as int]),
            forall|row: Seq<LabelValue>|
                slices_view(merged@).contains(row) <==> ((exists|n: int| 0 <= n < i && #[trigger] a[n] == row) || (
                exists|n: int| 0 <= n < j && #[trigger] b[n] == row)),
        decreases (first.len() - i) + (second.len() - j),
    {
        let ghost before = slices_view(merged@);
        let ghost old_i = i;
        let ghost old_j = j;
        let take_first: bool;
        let take_second: bool;
        if i >= first.len() {
            take_first = false;
            take_second = true;
        } else if j >= second.len() {
            take_first = true;
            take_second = false;
        } else {
            assert(a[i as int] == first[i as int]@ && b[j as int] == second[j as int]@);
            if row_less(first[i], second[j]) {
                take_first = true;
                take_second = false;
            } else if row_less(second[j], first[i]) {
                take_first = false;
                take_second = true;
            } else {
                proof {
                    lemma_lex_total(a[i as int], b[j as int]);
                }
                take_first = true;
                take_second = true;
            }
        }
        let row: &'a [LabelValue] = if take_first {
            first[i]
        } else {
            second[j]
        };
        assert(take_first ==> row@ == a[i as int]);
        assert(take_second ==> row@ == b[j as int]);
        merged.push(row);
        if take_first {
            i += 1;
        }
        if take_second {
            j += 1;
        }
        proof {
            let after = slices_view(merged@);
            assert(after =~= before.push(row@));
            assert forall|k: int, l: int| 0 <= k < l < after.len() implies lex_less(
                #[trigger] after[k],
                #[trigger] after[l],
            ) by {
                if l == before.len() {
                    assert(after[k] == before[k]);
                }
            }
            assert forall|k: int| 0 <= k < after.len() && i < a.len() implies lex_less(
                #[trigger] after[k],
                a[i as int],
            ) by {
                if take_first {
                    assert(lex_less(a[old_i as int], a[i as int]));
                    if k < before.len() {
                        assert(after[k] == before[k]);
                        lemma_lex_transitive(before[k], a[old_i as int], a[i as int]);
                    }
                } else {
                    if k < before.len() {
                        assert(after[k] == before[k]);
                    }
                }
            }
            assert forall|k: int| 0 <= k < after.len() && j < b.len() implies lex_less(
                #[trigger] after[k],
                b[j as int],
            ) by {
                if take_second {
                    assert(lex_less(b[old_j as int], b[j as int]));
                    if k < before.len() {
                        assert(after[k] == before[k]);
                        lemma_lex_transitive(before[k], b[old_j as int], b[j as int]);
                    }
                } else {
                    if k < before.len() {
                        assert(after[k] == before[k]);
                    }
                }
            }
            assert forall|wanted: Seq<LabelValue>| after.contains(wanted) <==> ((exists|n: int|
                0 <= n < i && #[trigger] a[n] == wanted) || (exists|n: int|
                0 <= n < j && #[trigger] b[n] == wanted)) by {
                if after.contains(wanted) {
                    let k = choose|k: int| 0 <= k < after.len() && after[k] == wanted;
                    if k < before.len() {
                        assert(before[k] == wanted);
                        assert(before.contains(wanted));
                    } else if take_first {
                        assert(a[old_i as int] == wanted);
                    } else {
                        assert(b[old_j as int] == wanted);
                    }
                }
                if exists|n: int| 0 <= n < i && #[trigger] a[n] == wanted {
                    let n = choose|n: int| 0 <= n < i && #[trigger] a[n] == wanted;
                    if n < old_i {
                        assert(before.contains(wanted));
                        let k = choose|k: int| 0 <= k < before.len() && before[k] == wanted;
                        assert(after[k] == wanted);
                    } else {
                        assert(after[before.len() as int] == wanted);
                    }
                }
                if exists|n: int| 0 <= n < j && #[trigger] b[n] == wanted {
                    let n = choose|n: int| 0 <= n < j && #[trigger] b[n] == wanted;
                    if n < old_j {
                        assert(before.contains(wanted));
                        let k = choose|k: int| 0 <= k < before.len() && before[k] == wanted;
                        assert(after[k] == wanted);
                    } else {
                        assert(after[before.len() as int] == wanted);
                    }
                }
            }
        }
    }
    proof {
        let all = slices_view(merged@);
        assert forall|row: Seq<LabelValue>| all.contains(row) <==> (a.contains(row) || b.contains(row)) by {
            if a.contains(row) {
                let n = choose|n: int| 0 <= n < a.len() && a[n] == row;
                assert(a[n] == row);
            }
            if b.contains(row) {
                let n = choose|n: int| 0 <= n < b.len() && b[n] == row;
                assert(b[n] == row);
            }
        }
    }
    merged
}

/// The rows from the one at `from` up to the one at `to`, each once, in
/// strictly ascending order.
pub fn sorted_rows<'a>(rows: &Vec<&'a [LabelValue]>, from: usize, to: usize) -> (sorted: Vec<&'a [LabelValue]>)
    requires
        from <= to <= rows.len(),
    ensures
        strictly_sorted(slices_view(sorted@)),
        forall|row: Seq<LabelValue>|
            slices_view(sorted@).contains(row) <==> exists|k: int|
                from <= k < to && #[trigger] slices_view(rows@)[k] == row,
    decreases to - from,
{
    let ghost all = slices_view(rows@);
    if to - from <= 1 {
        let mut sorted: Vec<&'a [LabelValue]> = Vec::new();
        if to > from {
            sorted.push(rows[from]);
        }
        proof {
            let view = slices_view(sorted@);
            assert forall|row: Seq<LabelValue>| view.contains(row) <==> exists|k: int|
                from <= k < to && #[trigger] all[k] == row by {
                if view.contains(row) {
                    let n = choose|n: int| 0 <= n < view.len() && view[n] == row;
                    assert(all[from as int] == row);
                }
                if exists|k: int| from <= k < to && #[trigger] all[k] == row {
                    assert(view[0] == row);
                }
            }
        }
        return sorted;
    }
    let middle = from + (to - from) / 2;
    let left = sorted_rows(rows, from, middle);
    let right = sorted_rows(rows, middle, to);
    let sorted = merge_sorted(&left, &right);
    proof {
        let view = slices_view(sorted@);
        assert forall|row: Seq<LabelValue>| view.contains(row) <==> exists|k: int|
            from <= k < to && #[trigger] all[k] == row by {
            if view.contains(row) {
                if slices_view(left@).contains(row) {
                    let k = choose|k: int| from <= k < middle && #[trigger] all[k] == row;
                    assert(all[k] == row);
                } else {
                    let k = choose|k: int| middle <= k < to && #[trigger] all[k] == row;
                    assert(all[k] == row);
                }
            }
            if exists|k: int| from <= k < to && #[trigger] all[k] == row {
                let k = choose|k: int| from <= k < to && #[trigger] all[k] == row;
                if k < middle {
                    assert(slices_view(left@).contains(row));
                } else {
                    assert(slices_view(right@).contains(row));
                }
            }
        }
    }
    sorted
}

} // verus!
