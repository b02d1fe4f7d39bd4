//! Rows of balances in the order of their stock-keeping units.

use vstd::prelude::*;
use vstd::utf8::encode_utf8;

verus! {

/// Whether `a` agrees with `b` up to position `k` and falls short of it there.
pub open spec fn splits_at(a: Seq<u8>, b: Seq<u8>, k: int) -> bool {
    &&& 0 <= k <= a.len()
    &&& k < b.len()
    &&& forall|i: int| 0 <= i < k ==> a[i] == b[i]
    &&& k == a.len() || a[k] < b[k]
}

/// Whether `a` comes before `b` in the dictionary.
pub open spec fn bytes_before(a: Seq<u8>, b: Seq<u8>) -> bool {
    exists|k: int| splits_at(a, b, k)
}

/// Nothing comes both before and after.
pub proof fn lemma_before_antisymmetric(a: Seq<u8>, b: Seq<u8>)
    requires
        bytes_before(a, b),
    ensures
        !bytes_before(b, a),
        a != b,
{
    let k = choose|k: int| splits_at(a, b, k);
    if bytes_before(b, a) {
        let m = choose|m: int| splits_at(b, a, m);
        if k < m {
            assert(b[k] == a[k]);
        } else if m < k {
            assert(a[m] == b[m]);
        }
    }
}

/// What comes before something that comes before a third comes before the third.
pub proof fn lemma_before_transitive(a: Seq<u8>, b: Seq<u8>, c: Seq<u8>)
    requires
        bytes_before(a, b),
        bytes_before(b, c),
    ensures
        bytes_before(a, c),
{
    let k = choose|k: int| splits_at(a, b, k);
    let m = choose|m: int| splits_at(b, c, m);
    let n = if k < m {
        k
    } else {
        m
    };
    assert(splits_at(a, c, n));
}

/// Whether `a` comes before `b` in the dictionary.
pub fn goes_before(a: &[u8], b: &[u8]) -> (result: bool)
    ensures
        result == bytes_before(a@, b@),
        !result ==> a@ == b@ || bytes_before(b@, a@),
{
    let mut k: usize = 0;
    while k < a.len() && k < b.len()
        invariant
            k <= a@.len(),
            k <= b@.len(),
            forall|i: int| 0 <= i < k ==> a@[i] == b@[i],
        decreases a@.len() - k,
    {
        if a[k] < b[k] {
            assert(splits_at(a@, b@, k as int));
            return true;
        }
        if b[k] < a[k] {
            proof {
                assert(splits_at(b@, a@, k as int));
                lemma_before_antisymmetric(b@, a@);
            }
            return false;
        }
        k = k + 1;
    }
    if k < b.len() {
        assert(splits_at(a@, b@, k as int));
        return true;
    }
    proof {
        if k < a@.len() {
            assert(splits_at(b@, a@, k as int));
            lemma_before_antisymmetric(b@, a@);
        } else {
            assert(a@ =~= b@);
            if bytes_before(a@, b@) {
                lemma_before_antisymmetric(a@, b@);
            }
        }
    }
    false
}

/// The text that row `i` is ordered by.
pub open spec fn row_bytes(rows: Seq<(String, i64)>, i: int) -> Seq<u8> {
    encode_utf8(rows[i].0@)
}

/// Whether no two rows have the same text.
pub open spec fn distinct_rows(rows: Seq<(String, i64)>) -> bool {
    forall|i: int, j: int|
        0 <= i < j < rows.len() ==> (#[trigger] row_bytes(rows, i)) != (#[trigger] row_bytes(rows, j))
}

/// Whether rows stand in the order of their texts.
pub open spec fn ordered_rows(rows: Seq<(String, i64)>) -> bool {
    forall|i: int, j: int|
        0 <= i < j < rows.len() ==> bytes_before(
            #[trigger] row_bytes(rows, i),
            #[trigger] row_bytes(rows, j),
        )
}

spec fn ordered_picks(rows: Seq<(String, i64)>, picks: Seq<usize>) -> bool {
    forall|p: int, q: int|
        0 <= p < q < picks.len() ==> bytes_before(
            row_bytes(rows, #[trigger] picks[p] as int),
            row_bytes(rows, #[trigger] picks[q] as int),
        )
}

proof fn lemma_pushed(rows: Seq<(String, i64)>, picks: Seq<usize>, pick: usize)
    requires
        ordered_picks(rows, picks),
        forall|p: int|
            0 <= p < picks.len() ==> bytes_before(
                row_bytes(rows, #[trigger] picks[p] as int),
                row_bytes(rows, pick as int),
            ),
    ensures
        ordered_picks(rows, picks.push(pick)),
        forall|i: usize| #[trigger]
            picks.push(pick).contains(i) <==> picks.contains(i) || i == pick,
{
    let more = picks.push(pick);
    assert forall|i: usize| #[trigger] more.contains(i) <==> picks.contains(i) || i == pick by {
        if picks.contains(i) {
            let p = choose|p: int| 0 <= p < picks.len() && picks[p] == i;
            assert(more[p] == i);
        }
        assert(more[picks.len() as int] == pick);
    }
}

/// Merges two ordered picks of rows.
fn merge(rows: &[(String, i64)], left: &Vec<usize>, right: &Vec<usize>) -> (merged: Vec<usize>)
    requires
        distinct_rows(rows@),
        ordered_picks(rows@, left@),
        ordered_picks(rows@, right@),
        forall|p: int| 0 <= p < left@.len() ==> (#[trigger] left@[p]) < rows@.len(),
        forall|p: int| 0 <= p < right@.len() ==> (#[trigger] right@[p]) < rows@.len(),
        forall|i: usize| !(#[trigger] left@.contains(i) && right@.contains(i)),
    ensures
        ordered_picks(rows@, merged@),
        forall|i: usize| #[trigger]
            merged@.contains(i) <==> left@.contains(i) || right@.contains(i),
{
    let mut merged: Vec<usize> = Vec::new();
    let mut l: usize = 0;
    let mut r: usize = 0;
    assert(left@.take(0) =~= Seq::empty());
    assert(right@.take(0) =~= Seq::empty());
    while l < left.len() || r < right.len()
        invariant
            l <= left@.len(),
            r <= right@.len(),
            distinct_rows(rows@),
            ordered_picks(rows@, left@),
            ordered_picks(rows@, right@),
            forall|p: int| 0 <= p < left@.len() ==> (#[trigger] left@[p]) < rows@.len(),
            forall|p: int| 0 <= p < right@.len() ==> (#[trigger] right@[p]) < rows@.len(),
            forall|i: usize| !(#[trigger] left@.contains(i) && right@.contains(i)),
            ordered_picks(rows@, merged@),
            forall|i: usize| #[trigger]
                merged@.contains(i) <==> left@.take(l as int).contains(i) || right@.take(
                    r as int,
                ).contains(i),
            forall|p: int, q: int|
                0 <= p < merged@.len() && l <= q < left@.len() ==> bytes_before(
                    row_bytes(rows@, #[trigger] merged@[p] as int),
                    row_bytes(rows@, #[trigger] left@[q] as int),
                ),
            forall|p: int, q: int|
                0 <= p < merged@.len() && r <= q < right@.len() ==> bytes_before(
                    row_bytes(rows@, #[trigger] merged@[p] as int),
                    row_bytes(rows@, #[trigger] right@[q] as int),
                ),
        decreases left@.len() - l + right@.len() - r,
    {
        let take_left: bool = if l == left.len() {
            false
        } else if r == right.len() {
            true
        } else {
            proof {
                assert(left@.contains(left@[l as int]));
                assert(right@.contains(right@[r as int]));
                let i = left@[l as int] as int;
                let j = right@[r as int] as int;
                assert(i != j);
                if i < j {
                    assert(row_bytes(rows@, i) != row_bytes(rows@, j));
                } else {
                    assert(row_bytes(rows@, j) != row_bytes(rows@, i));
                }
            }
            goes_before(rows[left[l]].0.as_str().as_bytes(), rows[right[r]].0.as_str().as_bytes())
        };
        if take_left {
            let pick: usize = left[l];
            proof {
                lemma_pushed(rows@, merged@, pick);
                lemma_taken(left@, l as int);
                assert forall|q: int| r <= q < right@.len() implies bytes_before(
                    row_bytes(rows@, pick as int),
                    row_bytes(rows@, #[trigger] right@[q] as int),
                ) by {
                    if q > r {
                        lemma_before_transitive(
                            row_bytes(rows@, pick as int),
                            row_bytes(rows@, right@[r as int] as int),
                            row_bytes(rows@, right@[q] as int),
                        );
                    }
                }
            }
            merged.push(pick);
            l = l + 1;
        } else {
            let pick: usize = right[r];
            proof {
                lemma_pushed(rows@, merged@, pick);
                lemma_taken(right@, r as int);
                assert forall|q: int| l <= q < left@.len() implies bytes_before(
                    row_bytes(rows@, pick as int),
                    row_bytes(rows@, #[trigger] left@[q] as int),
                ) by {
                    if q > l {
                        lemma_before_transitive(
                            row_bytes(rows@, pick as int),
                            row_bytes(rows@, left@[l as int] as int),
                            row_bytes(rows@, left@[q] as int),
                        );
                    }
                }
            }
            merged.push(pick);
            r = r + 1;
        }
    }
    assert(left@.take(l as int) =~= left@);
    assert(right@.take(r as int) =~= right@);
    merged
}

proof fn lemma_taken(picks: Seq<usize>, n: int)
    requires
        0 <= n < picks.len(),
    ensures
        forall|i: usize| #[trigger]
            picks.take(n + 1).contains(i) <==> picks.take(n).contains(i) || i == picks[n],
{
    let now = picks.take(n);
    let then = picks.take(n + 1);
    assert forall|i: usize| #[trigger] then.contains(i) <==> now.contains(i) || i == picks[n] by {
        if now.contains(i) {
            let p = choose|p: int| 0 <= p < now.len() && now[p] == i;
            assert(then[p] == i);
        }
        if then.contains(i) {
            let p = choose|p: int| 0 <= p < then.len() && then[p] == i;
            if p < n {
                assert(now[p] == i);
            }
        }
        assert(then[n] == picks[n]);
    }
}

/// The rows from `from` up to `to`, in order.
fn pick_range(rows: &[(String, i64)], from: usize, to: usize) -> (picks: Vec<usize>)
    requires
        distinct_rows(rows@),
        from <= to <= rows@.len(),
    ensures
        ordered_picks(rows@, picks@),
        forall|i: usize| #[trigger] picks@.contains(i) <==> from <= i < to,
    decreases to - from,
{
    let mut picks: Vec<usize> = Vec::new();
    if to - from == 0 {
        return picks;
    }
    if to - from == 1 {
        picks.push(from);
        proof {
            lemma_pushed(rows@, Seq::empty(), from);
            assert(picks@ =~= Seq::empty().push(from));
        }
        return picks;
    }
    let middle: usize = from + (to - from) / 2;
    let left: Vec<usize> = pick_range(rows, from, middle);
    let right: Vec<usize> = pick_range(rows, middle, to);
    proof {
        assert forall|p: int| 0 <= p < left@.len() implies (#[trigger] left@[p]) < rows@.len() by {
            assert(left@.contains(left@[p]));
        }
        assert forall|p: int| 0 <= p < right@.len() implies (#[trigger] right@[p]) < rows@.len() by {
            assert(right@.contains(right@[p]));
        }
    }
    merge(rows, &left, &right)
}

/// Whether a row with this text and this number is among the rows.
pub open spec fn has_row(rows: Seq<(String, i64)>, text: Seq<char>, value: i64) -> bool {
    exists|i: int| 0 <= i < rows.len() && (#[trigger] rows[i]).0@ == text && rows[i].1 == value
}

/// Whether two collections of rows hold the same rows.
pub open spec fn same_rows(a: Seq<(String, i64)>, b: Seq<(String, i64)>) -> bool {
    forall|text: Seq<char>, value: i64| #[trigger]
        has_row(a, text, value) <==> has_row(b, text, value)
}

/// The same rows, in the order of their texts.
pub fn sort_rows(rows: &[(String, i64)]) -> (sorted: Vec<(String, i64)>)
    requires
        distinct_rows(rows@),
    ensures
        ordered_rows(sorted@),
        same_rows(rows@, sorted@),
{
    let picks: Vec<usize> = pick_range(rows, 0, rows.len());
    let mut sorted: Vec<(String, i64)> = Vec::new();
    let mut at: usize = 0;
    proof {
        assert forall|p: int| 0 <= p < picks@.len() implies (#[trigger] picks@[p]) < rows@.len() by {
            assert(picks@.contains(picks@[p]));
        }
    }
    while at < picks.len()
        invariant
            at <= picks@.len(),
            forall|p: int| 0 <= p < picks@.len() ==> (#[trigger] picks@[p]) < rows@.len(),
            sorted@.len() == at,
            forall|p: int|
                0 <= p < at ==> (#[trigger] sorted@[p]).0@ == rows@[picks@[p] as int].0@
                    && sorted@[p].1 == rows@[picks@[p] as int].1,
        decreases picks@.len() - at,
    {
        let pick: usize = picks[at];
        sorted.push((rows[pick].0.clone(), rows[pick].1));
        at = at + 1;
    }
    proof {
        assert forall|p: int, q: int| 0 <= p < q < sorted@.len() implies bytes_before(
            #[trigger] row_bytes(sorted@, p),
            #[trigger] row_bytes(sorted@, q),
        ) by {
            assert(sorted@[p].0@ == rows@[picks@[p] as int].0@);
            assert(sorted@[q].0@ == rows@[picks@[q] as int].0@);
        }
        assert forall|text: Seq<char>, value: i64| #[trigger]
            has_row(rows@, text, value) <==> has_row(sorted@, text, value) by {
            if has_row(rows@, text, value) {
                let i = choose|i: int|
                    0 <= i < rows@.len() && (#[trigger] rows@[i]).0@ == text && rows@[i].1 == value;
                assert(picks@.contains(i as usize));
                let p = choose|p: int| 0 <= p < picks@.len() && picks@[p] == i as usize;
                assert(sorted@[p].0@ == text);
            }
            if has_row(sorted@, text, value) {
                let p = choose|p: int|
                    0 <= p < sorted@.len() && (#[trigger] sorted@[p]).0@ == text && sorted@[p].1
                        == value;
                assert(rows@[picks@[p] as int].0@ == text);
            }
        }
    }
    sorted
}

// ---------------------------------------------------------------- laws
/// The order is that of a dictionary: nothing comes before the empty text, which comes
/// before every other; the first byte decides, and where it is the same the rest does.
pub proof fn law_dictionary_order(a: Seq<u8>, b: Seq<u8>, x: u8, y: u8)
    ensures
        !bytes_before(a, Seq::empty()),
        bytes_before(Seq::empty(), seq![y] + b),
        x < y ==> bytes_before(seq![x] + a, seq![y] + b),
        x > y ==> !bytes_before(seq![x] + a, seq![y] + b),
        x == y ==> (bytes_before(seq![x] + a, seq![y] + b) <==> bytes_before(a, b)),
{
    let (xa, yb) = (seq![x] + a, seq![y] + b);
    assert(splits_at(Seq::empty(), yb, 0));
    assert(xa[0] == x && yb[0] == y);
    if x < y {
        assert(splits_at(xa, yb, 0));
    }
    if bytes_before(xa, yb) {
        let k = choose|k: int| splits_at(xa, yb, k);
        if k > 0 {
            assert(xa[0] == yb[0]);
            assert forall|i: int| 0 <= i < k - 1 implies a[i] == b[i] by {
                assert(xa[i + 1] == yb[i + 1]);
            }
            assert(a[k - 1] == xa[k] || k == xa.len());
            assert(splits_at(a, b, k - 1));
        }
    }
    if x == y && bytes_before(a, b) {
        let k = choose|k: int| splits_at(a, b, k);
        assert forall|i: int| 0 <= i < k + 1 implies xa[i] == yb[i] by {
            if i > 0 {
                assert(a[i - 1] == b[i - 1]);
            }
        }
        assert(splits_at(xa, yb, k + 1));
    }
}

/// Rows are in order exactly where each comes before every later one by the bytes of
/// its text; then none stands twice. Two collections hold the same rows exactly where
/// every row of the one is in the other.
pub proof fn law_rows_in_order(a: Seq<(String, i64)>, b: Seq<(String, i64)>)
    ensures
        ordered_rows(a) <==> (forall|i: int, j: int|
            0 <= i < j < a.len() ==> bytes_before(
                encode_utf8((#[trigger] a[i]).0@),
                encode_utf8((#[trigger] a[j]).0@),
            )),
        same_rows(a, b) ==> forall|i: int|
            0 <= i < a.len() ==> exists|j: int|
                0 <= j < b.len() && (#[trigger] b[j]).0@ == (#[trigger] a[i]).0@ && b[j].1 == a[i].1,
        same_rows(a, b) ==> same_rows(b, a),
        ordered_rows(a) ==> distinct_rows(a),
{
    if ordered_rows(a) {
        assert forall|i: int, j: int| 0 <= i < j < a.len() implies bytes_before(
            encode_utf8((#[trigger] a[i]).0@),
            encode_utf8((#[trigger] a[j]).0@),
        ) by {
            assert(bytes_before(row_bytes(a, i), row_bytes(a, j)));
        }
        assert forall|i: int, j: int| 0 <= i < j < a.len() implies (#[trigger] row_bytes(a, i)) != (
        #[trigger] row_bytes(a, j)) by {
            lemma_before_antisymmetric(row_bytes(a, i), row_bytes(a, j));
        }
    }
    if same_rows(a, b) {
        assert forall|i: int| 0 <= i < a.len() implies exists|j: int|
            0 <= j < b.len() && (#[trigger] b[j]).0@ == (#[trigger] a[i]).0@ && b[j].1 == a[i].1 by {
            assert(has_row(a, a[i].0@, a[i].1));
            assert(has_row(b, a[i].0@, a[i].1));
        }
    }
}

} // verus!
