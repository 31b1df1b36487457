//! Rows kept in the order of their keys, one row to a key.
use crate::bytes;
use crate::bytes::bytes_lt;
use crate::text::utf8;
use vstd::prelude::*;

verus! {

/// One part of a key: a text, ordered by its bytes, or a number.
pub enum Part {
    Text(Seq<char>),
    Number(u64),
}

/// The order of two parts of the same kind; texts come before numbers.
pub open spec fn part_lt(a: Part, b: Part) -> bool {
    match (a, b) {
        (Part::Text(x), Part::Text(y)) => bytes_lt(utf8(x), utf8(y)),
        (Part::Number(x), Part::Number(y)) => x < y,
        (Part::Text(_), Part::Number(_)) => true,
        (Part::Number(_), Part::Text(_)) => false,
    }
}

/// The order of keys: by their first part, then by the next.
pub open spec fn key_lt(a: Seq<Part>, b: Seq<Part>) -> bool
    decreases a.len(),
{
    if a.len() == 0 || b.len() == 0 {
        a.len() < b.len()
    } else {
        part_lt(a[0], b[0]) || (a[0] == b[0] && key_lt(a.drop_first(), b.drop_first()))
    }
}

/// Parts are strictly and totally ordered.
pub proof fn lemma_part_order(a: Part, b: Part, c: Part)
    ensures
        !part_lt(a, a),
        part_lt(a, b) && part_lt(b, c) ==> part_lt(a, c),
        part_lt(a, b) || part_lt(b, a) || a == b,
        !(part_lt(a, b) && part_lt(b, a)),
{
    if let Part::Text(x) = a {
        bytes::lemma_lt_irreflexive(utf8(x));
        if let Part::Text(y) = b {
            bytes::lemma_lt_total(utf8(x), utf8(y));
            crate::text::lemma_utf8_injective(x, y);
            if let Part::Text(z) = c {
                if bytes_lt(utf8(x), utf8(y)) && bytes_lt(utf8(y), utf8(z)) {
                    bytes::lemma_lt_transitive(utf8(x), utf8(y), utf8(z));
                }
            }
        }
    }
}

/// Keys are strictly and totally ordered.
pub proof fn lemma_key_order(a: Seq<Part>, b: Seq<Part>, c: Seq<Part>)
    ensures
        !key_lt(a, a),
        key_lt(a, b) && key_lt(b, c) ==> key_lt(a, c),
        key_lt(a, b) || key_lt(b, a) || a == b,
        !(key_lt(a, b) && key_lt(b, a)),
    decreases a.len(),
{
    if a.len() == 0 {
        if b.len() == 0 {
            assert(a =~= b);
        }
    } else {
        let x = a[0];
        lemma_part_order(x, x, x);
        lemma_key_order(a.drop_first(), a.drop_first(), a.drop_first());
        if b.len() > 0 {
            let y = b[0];
            lemma_part_order(x, y, x);
            lemma_part_order(y, x, y);
            let z = if c.len() > 0 {
                c[0]
            } else {
                x
            };
            lemma_part_order(x, y, z);
            lemma_key_order(
                a.drop_first(),
                b.drop_first(),
                if c.len() > 0 {
                    c.drop_first()
                } else {
                    c
                },
            );
            if a.drop_first() == b.drop_first() && x == y {
                assert(a =~= seq![x] + a.drop_first());
                assert(b =~= seq![y] + b.drop_first());
            }
        }
    }
}

/// The order of keys of one part.
pub proof fn lemma_key1(a: Part, b: Part)
    ensures
        key_lt(seq![a], seq![b]) == part_lt(a, b),
{
    reveal_with_fuel(key_lt, 2);
}

/// The order of keys of two parts.
pub proof fn lemma_key2(a: Part, x: Part, b: Part, y: Part)
    ensures
        key_lt(seq![a, x], seq![b, y]) == (part_lt(a, b) || (a == b && part_lt(x, y))),
{
    assert(seq![a, x].drop_first() =~= seq![x]);
    assert(seq![b, y].drop_first() =~= seq![y]);
    lemma_key1(x, y);
}

/// The order of keys of three parts.
pub proof fn lemma_key3(a: Part, x: Part, m: Part, b: Part, y: Part, n: Part)
    ensures
        key_lt(seq![a, x, m], seq![b, y, n]) == (part_lt(a, b) || (a == b && (part_lt(x, y) || (x == y
            && part_lt(m, n))))),
{
    assert(seq![a, x, m].drop_first() =~= seq![x, m]);
    assert(seq![b, y, n].drop_first() =~= seq![y, n]);
    lemma_key2(x, m, y, n);
}

/// Whether text `a` comes before text `b`, by their bytes.
pub fn text_precedes(a: &str, b: &str) -> (r: bool)
    ensures
        r == part_lt(Part::Text(a@), Part::Text(b@)),
{
    bytes::lt(a.as_bytes(), b.as_bytes())
}

/// A row with a key.
pub trait Keyed: Sized {
    /// What the row says.
    type V;

    spec fn row(&self) -> Self::V;

    /// The key of a row.
    spec fn key(row: Self::V) -> Seq<Part>;

    /// Whether the key of this row comes before that of `other`.
    fn precedes(&self, other: &Self) -> (r: bool)
        ensures
            r == key_lt(Self::key(self.row()), Self::key(other.row())),
    ;
}

/// What rows say, in order.
pub open spec fn rows_of<T: Keyed>(rows: Seq<T>) -> Seq<T::V> {
    Seq::new(rows.len(), |i: int| rows[i].row())
}

/// The keys ascend strictly.
pub open spec fn in_order<T: Keyed>(rows: Seq<T::V>) -> bool {
    forall|i: int, j: int|
        0 <= i < j < rows.len() ==> key_lt(#[trigger] T::key(rows[i]), #[trigger] T::key(rows[j]))
}

/// Rows with one more among them, in the place of the one with the same key.
pub open spec fn placed<T: Keyed>(rows: Seq<T::V>, row: T::V) -> Seq<T::V>
    decreases rows.len(),
{
    if rows.len() == 0 || key_lt(T::key(rows.last()), T::key(row)) {
        rows.push(row)
    } else if T::key(rows.last()) == T::key(row) {
        rows.drop_last().push(row)
    } else {
        placed::<T>(rows.drop_last(), row).push(rows.last())
    }
}

/// The row with a key, if there is one.
pub open spec fn holder<T: Keyed>(rows: Seq<T::V>, key: Seq<Part>) -> Option<T::V> {
    if exists|i: int| key_at::<T>(rows, key, i) {
        Some(rows[choose|i: int| key_at::<T>(rows, key, i)])
    } else {
        None
    }
}

/// Row `i` has the key.
pub open spec fn key_at<T: Keyed>(rows: Seq<T::V>, key: Seq<Part>, i: int) -> bool {
    0 <= i < rows.len() && T::key(rows[i]) == key
}

/// In order, the row with a key is the one that has it.
pub proof fn lemma_holder<T: Keyed>(rows: Seq<T::V>, key: Seq<Part>, i: int)
    requires
        in_order::<T>(rows),
        key_at::<T>(rows, key, i),
    ensures
        holder::<T>(rows, key) == Some(rows[i]),
{
    let j = choose|j: int| key_at::<T>(rows, key, j);
    if j < i {
        assert(key_lt(T::key(rows[j]), T::key(rows[i])));
        lemma_key_order(key, key, key);
    } else if i < j {
        assert(key_lt(T::key(rows[i]), T::key(rows[j])));
        lemma_key_order(key, key, key);
    }
}

proof fn lemma_placed_at<T: Keyed>(rows: Seq<T::V>, row: T::V, pos: int)
    requires
        0 <= pos <= rows.len(),
        in_order::<T>(rows),
        forall|k: int| pos <= k < rows.len() ==> key_lt(T::key(row), #[trigger] T::key(rows[k])),
        pos > 0 ==> !key_lt(T::key(row), T::key(rows[pos - 1])),
    ensures
        placed::<T>(rows, row) == if pos > 0 && T::key(rows[pos - 1]) == T::key(row) {
            rows.update(pos - 1, row)
        } else {
            rows.insert(pos, row)
        },
    decreases rows.len(),
{
    let key = T::key(row);
    let out = placed::<T>(rows, row);
    if rows.len() == 0 {
        assert(out =~= rows.insert(pos, row));
    } else {
        let last = rows.len() - 1;
        let top = T::key(rows[last]);
        lemma_key_order(top, key, top);
        lemma_key_order(key, top, key);
        if pos == rows.len() {
            if top == key {
                assert(out =~= rows.update(pos - 1, row));
            } else {
                assert(out =~= rows.insert(pos, row));
            }
        } else {
            assert(key_lt(key, T::key(rows[last])));
            let head = rows.drop_last();
            assert(in_order::<T>(head)) by {
                assert forall|i: int, j: int| 0 <= i < j < head.len() implies key_lt(
                    #[trigger] T::key(head[i]),
                    #[trigger] T::key(head[j]),
                ) by {
                    assert(key_lt(T::key(rows[i]), T::key(rows[j])));
                }
            }
            assert forall|k: int| pos <= k < head.len() implies key_lt(key, #[trigger] T::key(head[k])) by {
                assert(key_lt(key, T::key(rows[k])));
            }
            if pos > 0 {
                assert(head[pos - 1] == rows[pos - 1]);
            }
            lemma_placed_at::<T>(head, row, pos);
            if pos > 0 && T::key(rows[pos - 1]) == key {
                assert(out =~= rows.update(pos - 1, row));
            } else {
                assert(out =~= rows.insert(pos, row));
            }
        }
    }
}

proof fn lemma_placed_in_order<T: Keyed>(rows: Seq<T::V>, row: T::V, pos: int, out: Seq<T::V>)
    requires
        0 <= pos <= rows.len(),
        in_order::<T>(rows),
        forall|k: int| pos <= k < rows.len() ==> key_lt(T::key(row), #[trigger] T::key(rows[k])),
        pos > 0 ==> !key_lt(T::key(row), T::key(rows[pos - 1])),
        out == if pos > 0 && T::key(rows[pos - 1]) == T::key(row) {
            rows.update(pos - 1, row)
        } else {
            rows.insert(pos, row)
        },
    ensures
        in_order::<T>(out),
{
    let key = T::key(row);
    assert forall|i: int, j: int| 0 <= i < j < out.len() implies key_lt(
        #[trigger] T::key(out[i]),
        #[trigger] T::key(out[j]),
    ) by {
        if pos > 0 && T::key(rows[pos - 1]) == key {
            assert(T::key(out[i]) == T::key(rows[i]) && T::key(out[j]) == T::key(rows[j]));
        } else {
            if pos > 0 {
                lemma_key_order(T::key(rows[pos - 1]), key, key);
            }
            if i < pos && j == pos {
                if i < pos - 1 {
                    assert(key_lt(T::key(rows[i]), T::key(rows[pos - 1])));
                    lemma_key_order(T::key(rows[i]), T::key(rows[pos - 1]), key);
                }
            } else if i == pos {
                assert(out[j] == rows[j - 1]);
            } else if i < pos && j > pos {
                assert(key_lt(T::key(rows[i]), T::key(rows[j - 1])));
            } else if i > pos {
                assert(key_lt(T::key(rows[i - 1]), T::key(rows[j - 1])));
            } else {
                assert(key_lt(T::key(rows[i]), T::key(rows[j])));
            }
        }
    }
}

/// Puts a row among others, in the place of the one with the same key.
pub fn put_row<T: Keyed>(rows: &mut Vec<T>, row: T)
    requires
        in_order::<T>(rows_of(old(rows)@)),
    ensures
        rows_of(final(rows)@) == placed::<T>(rows_of(old(rows)@), row.row()),
        in_order::<T>(rows_of(final(rows)@)),
{
    let ghost view = rows_of(rows@);
    let ghost what = row.row();
    let mut pos: usize = rows.len();
    while pos > 0 && row.precedes(&rows[pos - 1])
        invariant
            pos <= rows@.len(),
            view == rows_of(rows@),
            what == row.row(),
            forall|k: int| pos <= k < view.len() ==> key_lt(T::key(what), #[trigger] T::key(view[k])),
        decreases pos,
    {
        pos = pos - 1;
    }
    proof {
        lemma_placed_at::<T>(view, what, pos as int);
        lemma_placed_in_order::<T>(view, what, pos as int, placed::<T>(view, what));
        if pos > 0 {
            lemma_key_order(T::key(view[pos - 1]), T::key(what), T::key(what));
        }
    }
    if pos > 0 && !rows[pos - 1].precedes(&row) {
        rows.set(pos - 1, row);
        assert(rows_of(rows@) =~= view.update(pos - 1, what));
    } else {
        rows.insert(pos, row);
        assert(rows_of(rows@) =~= view.insert(pos as int, what));
    }
}

/// The position of the row with the key of `probe`, if there is one.
pub fn find_row<T: Keyed>(rows: &Vec<T>, probe: &T) -> (r: Option<usize>)
    requires
        in_order::<T>(rows_of(rows@)),
    ensures
        match r {
            Some(i) => i < rows@.len() && holder::<T>(rows_of(rows@), T::key(probe.row())) == Some(
                rows@[i as int].row(),
            ),
            None => holder::<T>(rows_of(rows@), T::key(probe.row())) is None,
        },
{
    let ghost view = rows_of(rows@);
    let ghost key = T::key(probe.row());
    let mut lo: usize = 0;
    let mut hi: usize = rows.len();
    while lo < hi
        invariant
            lo <= hi <= rows@.len(),
            view == rows_of(rows@),
            key == T::key(probe.row()),
            in_order::<T>(view),
            forall|k: int| 0 <= k < lo ==> key_lt(#[trigger] T::key(view[k]), key),
            forall|k: int| hi <= k < view.len() ==> !key_lt(#[trigger] T::key(view[k]), key),
        decreases hi - lo,
    {
        let mid: usize = lo + (hi - lo) / 2;
        let before = rows[mid].precedes(probe);
        proof {
            let m = T::key(view[mid as int]);
            assert forall|k: int| before && 0 <= k < mid + 1 implies key_lt(#[trigger] T::key(view[k]), key) by {
                if k < mid {
                    assert(key_lt(T::key(view[k]), m));
                    lemma_key_order(T::key(view[k]), m, key);
                }
            }
            assert forall|k: int| !before && mid <= k < view.len() implies !key_lt(
                #[trigger] T::key(view[k]),
                key,
            ) by {
                if k > mid {
                    assert(key_lt(m, T::key(view[k])));
                    lemma_key_order(m, T::key(view[k]), key);
                }
            }
        }
        if before {
            lo = mid + 1;
        } else {
            hi = mid;
        }
    }
    if lo < rows.len() && !probe.precedes(&rows[lo]) {
        proof {
            lemma_key_order(T::key(view[lo as int]), key, key);
            assert(key_at::<T>(view, key, lo as int));
            lemma_holder::<T>(view, key, lo as int);
        }
        Some(lo)
    } else {
        proof {
            assert forall|i: int| !key_at::<T>(view, key, i) by {
                if key_at::<T>(view, key, i) {
                    lemma_key_order(key, key, key);
                    if i > lo {
                        assert(key_lt(T::key(view[lo as int]), T::key(view[i])));
                        lemma_key_order(key, T::key(view[lo as int]), key);
                    }
                }
            }
        }
        None
    }
}

} // verus!
