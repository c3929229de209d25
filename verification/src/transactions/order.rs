//! The order in which records are replayed: ascending by transaction id,
//! records with the same id in the order in which they were given.

use crate::transactions::models::{records_of, Record, Transaction};
use vstd::prelude::*;
use vstd::seq_lib::to_multiset_contains;

verus! {

/// `s` with `r` put in behind the last record whose id is not above `r`'s.
pub open spec fn insert_by_tx(s: Seq<Record>, r: Record) -> Seq<Record>
    decreases s.len(),
{
    if s.len() > 0 && s.last().tx > r.tx {
        insert_by_tx(s.drop_last(), r).push(s.last())
    } else {
        s.push(r)
    }
}

/// The records of `s` in replay order: the stable sort of `s` by id.
pub open spec fn sorted_by_tx(s: Seq<Record>) -> Seq<Record>
    decreases s.len(),
{
    if s.len() == 0 {
        s
    } else {
        insert_by_tx(sorted_by_tx(s.drop_last()), s.last())
    }
}

/// Whether the ids of `s` never go down.
pub open spec fn ascending(s: Seq<Record>) -> bool {
    forall|i: int, j: int| 0 <= i <= j < s.len() ==> s[i].tx <= s[j].tx
}

/// The records of `s` with the id `tx`, in the order they have in `s`.
pub open spec fn with_tx(s: Seq<Record>, tx: u32) -> Seq<Record>
    decreases s.len(),
{
    if s.len() == 0 {
        s
    } else if s.last().tx == tx {
        with_tx(s.drop_last(), tx).push(s.last())
    } else {
        with_tx(s.drop_last(), tx)
    }
}

/// Inserting by id puts the record at `j` when every record from `j` on has
/// a higher id and the one before `j`, if any, has not.
pub proof fn lemma_insert_at(s: Seq<Record>, r: Record, j: int)
    requires
        0 <= j <= s.len(),
        forall|k: int| j <= k < s.len() ==> s[k].tx > r.tx,
        j > 0 ==> s[j - 1].tx <= r.tx,
    ensures
        insert_by_tx(s, r) == s.insert(j, r),
    decreases s.len(),
{
    if j < s.len() {
        let front = s.drop_last();
        lemma_insert_at(front, r, j);
        assert(front.insert(j, r).push(s.last()) =~= s.insert(j, r));
    } else {
        assert(s.push(r) =~= s.insert(j, r));
    }
}

/// Inserting by id changes nothing but the place of the new record: the
/// result has one record more, and each of its records is the new one or
/// one of the old.
pub proof fn lemma_insert_members(s: Seq<Record>, r: Record)
    ensures
        insert_by_tx(s, r).len() == s.len() + 1,
        forall|i: int|
            0 <= i < s.len() + 1 ==> (#[trigger] insert_by_tx(s, r)[i] == r || exists|j: int|
                0 <= j < s.len() && s[j] == insert_by_tx(s, r)[i]),
    decreases s.len(),
{
    if s.len() > 0 && s.last().tx > r.tx {
        let front = s.drop_last();
        lemma_insert_members(front, r);
        let t = insert_by_tx(s, r);
        assert forall|i: int| 0 <= i < s.len() + 1 implies (#[trigger] t[i] == r || exists|j: int|
            0 <= j < s.len() && s[j] == t[i]) by {
            if i < s.len() {
                assert(t[i] == insert_by_tx(front, r)[i]);
                if t[i] != r {
                    let j = choose|j: int| 0 <= j < front.len() && front[j] == t[i];
                    assert(s[j] == t[i]);
                }
            } else {
                assert(s[s.len() - 1] == t[i]);
            }
        }
    } else {
        let t = s.push(r);
        assert forall|i: int| 0 <= i < s.len() + 1 implies (#[trigger] t[i] == r || exists|j: int|
            0 <= j < s.len() && s[j] == t[i]) by {
            if i < s.len() {
                assert(s[i] == t[i]);
            }
        }
    }
}

/// Inserting by id into ascending records leaves them ascending.
pub proof fn lemma_insert_ascending(s: Seq<Record>, r: Record)
    requires
        ascending(s),
    ensures
        ascending(insert_by_tx(s, r)),
    decreases s.len(),
{
    if s.len() > 0 && s.last().tx > r.tx {
        let front = s.drop_last();
        assert(ascending(front)) by {
            assert forall|i: int, j: int| 0 <= i <= j < front.len() implies front[i].tx
                <= front[j].tx by {
                assert(front[i] == s[i] && front[j] == s[j]);
            }
        }
        lemma_insert_ascending(front, r);
        lemma_insert_members(front, r);
        let u = insert_by_tx(front, r);
        let t = u.push(s.last());
        assert forall|i: int, j: int| 0 <= i <= j < t.len() implies t[i].tx <= t[j].tx by {
            if j < u.len() {
                assert(t[i] == u[i] && t[j] == u[j]);
            } else if i < u.len() {
                assert(t[i] == u[i]);
                if u[i] != r {
                    let k = choose|k: int| 0 <= k < front.len() && front[k] == u[i];
                    assert(front[k] == s[k]);
                    assert(s[k].tx <= s[s.len() - 1].tx);
                }
            }
        }
    } else {
        let t = s.push(r);
        assert forall|i: int, j: int| 0 <= i <= j < t.len() implies t[i].tx <= t[j].tx by {
            if j < s.len() {
                assert(t[i] == s[i] && t[j] == s[j]);
            } else if i < s.len() {
                assert(t[i] == s[i]);
                assert(s[i].tx <= s[s.len() - 1].tx);
            }
        }
    }
}

/// Replay order is ascending, and holds the given records and no others.
pub proof fn lemma_sorted_ascending(s: Seq<Record>)
    ensures
        ascending(sorted_by_tx(s)),
        sorted_by_tx(s).len() == s.len(),
        forall|i: int|
            0 <= i < s.len() ==> exists|j: int|
                0 <= j < s.len() && s[j] == #[trigger] sorted_by_tx(s)[i],
    decreases s.len(),
{
    if s.len() > 0 {
        let front = s.drop_last();
        lemma_sorted_ascending(front);
        lemma_insert_ascending(sorted_by_tx(front), s.last());
        lemma_insert_members(sorted_by_tx(front), s.last());
        let u = sorted_by_tx(front);
        let t = sorted_by_tx(s);
        assert forall|i: int| 0 <= i < s.len() implies exists|j: int|
            0 <= j < s.len() && s[j] == #[trigger] t[i] by {
            if t[i] == s.last() {
                assert(s[s.len() - 1] == t[i]);
            } else {
                let k = choose|k: int| 0 <= k < u.len() && u[k] == t[i];
                let j = choose|j: int| 0 <= j < front.len() && front[j] == u[k];
                assert(s[j] == t[i]);
            }
        }
    }
}

/// Inserting by id puts the new record behind those that share its id, and
/// leaves the records of every other id as they were.
pub proof fn lemma_insert_with_tx(s: Seq<Record>, r: Record, tx: u32)
    ensures
        with_tx(insert_by_tx(s, r), tx) == if r.tx == tx {
            with_tx(s, tx).push(r)
        } else {
            with_tx(s, tx)
        },
    decreases s.len(),
{
    if s.len() > 0 && s.last().tx > r.tx {
        let front = s.drop_last();
        lemma_insert_with_tx(front, r, tx);
        let t = insert_by_tx(front, r).push(s.last());
        assert(t.drop_last() =~= insert_by_tx(front, r));
    } else {
        assert(s.push(r).drop_last() =~= s);
    }
}

/// Replay order keeps records that share an id in the order they were
/// given.
pub proof fn lemma_sorted_with_tx(s: Seq<Record>, tx: u32)
    ensures
        with_tx(sorted_by_tx(s), tx) == with_tx(s, tx),
    decreases s.len(),
{
    if s.len() > 0 {
        lemma_sorted_with_tx(s.drop_last(), tx);
        lemma_insert_with_tx(sorted_by_tx(s.drop_last()), s.last(), tx);
    }
}

/// The records with a given id are empty exactly when no record has it.
pub proof fn lemma_with_tx_empty(s: Seq<Record>, tx: u32)
    ensures
        with_tx(s, tx).len() == 0 <==> forall|i: int| 0 <= i < s.len() ==> s[i].tx != tx,
    decreases s.len(),
{
    if s.len() > 0 {
        let front = s.drop_last();
        lemma_with_tx_empty(front, tx);
        if with_tx(s, tx).len() == 0 {
            assert forall|i: int| 0 <= i < s.len() implies s[i].tx != tx by {
                if i < front.len() {
                    assert(front[i] == s[i]);
                }
            }
        } else if s.last().tx != tx {
            let i = choose|i: int| 0 <= i < front.len() && front[i].tx == tx;
            assert(s[i].tx == tx);
        }
    }
}

/// Two ascending sequences that agree, id by id, on the records with that id
/// are the same sequence.
pub proof fn lemma_ascending_unique(a: Seq<Record>, b: Seq<Record>)
    requires
        ascending(a),
        ascending(b),
        forall|tx: u32| with_tx(a, tx) == with_tx(b, tx),
    ensures
        a == b,
    decreases a.len(),
{
    if a.len() == 0 {
        if b.len() > 0 {
            lemma_with_tx_empty(b, b[0].tx);
            assert(with_tx(a, b[0].tx) == with_tx(b, b[0].tx));
        }
        assert(a =~= b);
    } else {
        let ka = a.last().tx;
        assert(with_tx(a, ka) == with_tx(b, ka));
        assert(b.len() > 0);
        let kb = b.last().tx;
        assert(with_tx(a, kb) == with_tx(b, kb));
        lemma_with_tx_empty(a, kb);
        lemma_with_tx_empty(b, ka);
        assert(ka == kb) by {
            let i = choose|i: int| 0 <= i < a.len() && a[i].tx == kb;
            assert(a[i].tx <= a[a.len() - 1].tx);
            let j = choose|j: int| 0 <= j < b.len() && b[j].tx == ka;
            assert(b[j].tx <= b[b.len() - 1].tx);
        }
        let fa = a.drop_last();
        let fb = b.drop_last();
        assert(with_tx(fa, ka).push(a.last()) == with_tx(fb, ka).push(b.last()));
        assert(a.last() == b.last()) by {
            assert(with_tx(fa, ka).push(a.last()).last() == a.last());
            assert(with_tx(fb, ka).push(b.last()).last() == b.last());
        }
        assert(with_tx(fa, ka) == with_tx(fb, ka)) by {
            assert(with_tx(fa, ka).push(a.last()).drop_last() =~= with_tx(fa, ka));
            assert(with_tx(fb, ka).push(b.last()).drop_last() =~= with_tx(fb, ka));
        }
        assert forall|tx: u32| with_tx(fa, tx) == with_tx(fb, tx) by {
            assert(with_tx(a, tx) == with_tx(b, tx));
        }
        assert(ascending(fa)) by {
            assert forall|i: int, j: int| 0 <= i <= j < fa.len() implies fa[i].tx <= fa[j].tx by {
                assert(fa[i] == a[i] && fa[j] == a[j]);
            }
        }
        assert(ascending(fb)) by {
            assert forall|i: int, j: int| 0 <= i <= j < fb.len() implies fb[i].tx <= fb[j].tx by {
                assert(fb[i] == b[i] && fb[j] == b[j]);
            }
        }
        lemma_ascending_unique(fa, fb);
        assert(a =~= fa.push(a.last()));
        assert(b =~= fb.push(b.last()));
    }
}

/// Replay order depends on the given order only among records that share an
/// id: two inputs that agree, id by id, on the records with that id have the
/// same replay order.
pub proof fn lemma_sorted_ignores_order(a: Seq<Record>, b: Seq<Record>)
    requires
        forall|tx: u32| with_tx(a, tx) == with_tx(b, tx),
    ensures
        sorted_by_tx(a) == sorted_by_tx(b),
{
    lemma_sorted_ascending(a);
    lemma_sorted_ascending(b);
    assert forall|tx: u32| with_tx(sorted_by_tx(a), tx) == with_tx(sorted_by_tx(b), tx) by {
        lemma_sorted_with_tx(a, tx);
        lemma_sorted_with_tx(b, tx);
        assert(with_tx(a, tx) == with_tx(b, tx));
    }
    lemma_ascending_unique(sorted_by_tx(a), sorted_by_tx(b));
}

/// Whether no two records share an id.
pub open spec fn distinct_ids(s: Seq<Record>) -> bool {
    forall|i: int, j: int| 0 <= i < j < s.len() ==> s[i].tx != s[j].tx
}

/// Putting a record in by id adds it to the records, and nothing else.
pub proof fn lemma_insert_same_records(s: Seq<Record>, r: Record)
    ensures
        insert_by_tx(s, r).to_multiset() == s.to_multiset().insert(r),
    decreases s.len(),
{
    broadcast use vstd::seq_lib::to_multiset_build;

    if s.len() > 0 && s.last().tx > r.tx {
        let front = s.drop_last();
        lemma_insert_same_records(front, r);
        assert(front.push(s.last()) =~= s);
        assert(front.to_multiset().insert(r).insert(s.last()) =~= front.to_multiset().insert(
            s.last(),
        ).insert(r));
    }
}

/// Replay order holds each record as often as it was given.
pub proof fn lemma_sorted_same_records(s: Seq<Record>)
    ensures
        sorted_by_tx(s).to_multiset() == s.to_multiset(),
    decreases s.len(),
{
    broadcast use vstd::seq_lib::to_multiset_build;

    if s.len() > 0 {
        lemma_sorted_same_records(s.drop_last());
        lemma_insert_same_records(sorted_by_tx(s.drop_last()), s.last());
        assert(s.drop_last().push(s.last()) =~= s);
    }
}

/// Where no two of the given records share an id, the same holds of the
/// same records in any other order.
pub proof fn lemma_distinct_ids_carry(a: Seq<Record>, b: Seq<Record>)
    requires
        a.to_multiset() == b.to_multiset(),
        distinct_ids(a),
    ensures
        distinct_ids(b),
{
    assert(a.no_duplicates()) by {
        assert forall|i: int, j: int| 0 <= i < a.len() && 0 <= j < a.len() && i != j implies a[i]
            != a[j] by {
            if i < j {
                assert(a[i].tx != a[j].tx);
            } else {
                assert(a[j].tx != a[i].tx);
            }
        }
    }
    a.lemma_multiset_has_no_duplicates();
    b.lemma_multiset_has_no_duplicates_conv();
    assert forall|i: int, j: int| 0 <= i < j < b.len() implies b[i].tx != b[j].tx by {
        assert(b.contains(b[i]) && b.contains(b[j]));
        to_multiset_contains(b, b[i]);
        to_multiset_contains(b, b[j]);
        to_multiset_contains(a, b[i]);
        to_multiset_contains(a, b[j]);
        assert(a.contains(b[i]) && a.contains(b[j]));
        let p = choose|p: int| 0 <= p < a.len() && a[p] == b[i];
        let q = choose|q: int| 0 <= q < a.len() && a[q] == b[j];
        assert(b[i] != b[j]);
        if p < q {
            assert(a[p].tx != a[q].tx);
        } else {
            assert(a[q].tx != a[p].tx);
        }
    }
}

/// Where no two records share an id, at most one record has a given id,
/// and it is one of the records.
pub proof fn lemma_with_tx_single(s: Seq<Record>, tx: u32)
    requires
        distinct_ids(s),
    ensures
        with_tx(s, tx).len() <= 1,
        with_tx(s, tx).len() == 1 ==> s.contains(with_tx(s, tx)[0]) && with_tx(s, tx)[0].tx == tx,
    decreases s.len(),
{
    if s.len() > 0 {
        let front = s.drop_last();
        assert(distinct_ids(front)) by {
            assert forall|i: int, j: int| 0 <= i < j < front.len() implies front[i].tx
                != front[j].tx by {
                assert(front[i] == s[i] && front[j] == s[j]);
            }
        }
        lemma_with_tx_single(front, tx);
        if s.last().tx == tx {
            lemma_with_tx_empty(front, tx);
            if with_tx(front, tx).len() > 0 {
                let i = choose|i: int| 0 <= i < front.len() && front[i].tx == tx;
                assert(s[i].tx != s[s.len() - 1].tx);
            }
            assert(s[s.len() - 1] == with_tx(s, tx)[0]);
        } else if with_tx(front, tx).len() == 1 {
            let i = choose|i: int| 0 <= i < front.len() && front[i] == with_tx(front, tx)[0];
            assert(s[i] == with_tx(s, tx)[0]);
        }
    }
}

/// Where no two records share an id, replay order does not depend on the
/// order in which the records are given.
pub proof fn lemma_sorted_of_permutation(a: Seq<Record>, b: Seq<Record>)
    requires
        a.to_multiset() == b.to_multiset(),
        distinct_ids(a),
    ensures
        sorted_by_tx(a) == sorted_by_tx(b),
{
    lemma_distinct_ids_carry(a, b);
    assert forall|tx: u32| with_tx(a, tx) == with_tx(b, tx) by {
        let wa = with_tx(a, tx);
        let wb = with_tx(b, tx);
        lemma_with_tx_single(a, tx);
        lemma_with_tx_single(b, tx);
        lemma_with_tx_empty(a, tx);
        lemma_with_tx_empty(b, tx);
        if wa.len() == 1 {
            to_multiset_contains(a, wa[0]);
            to_multiset_contains(b, wa[0]);
            assert(b.contains(wa[0]));
            let j = choose|j: int| 0 <= j < b.len() && b[j] == wa[0];
            assert(b[j].tx == tx);
            to_multiset_contains(a, wb[0]);
            to_multiset_contains(b, wb[0]);
            assert(a.contains(wb[0]));
            let p = choose|p: int| 0 <= p < a.len() && a[p] == wa[0];
            let q = choose|q: int| 0 <= q < a.len() && a[q] == wb[0];
            if p < q {
                assert(a[p].tx != a[q].tx);
            } else if q < p {
                assert(a[q].tx != a[p].tx);
            }
            assert(wa =~= wb);
        } else {
            if wb.len() == 1 {
                to_multiset_contains(a, wb[0]);
                to_multiset_contains(b, wb[0]);
                assert(a.contains(wb[0]));
                let q = choose|q: int| 0 <= q < a.len() && a[q] == wb[0];
                assert(a[q].tx == tx);
            }
            assert(wa =~= wb);
        }
    }
    lemma_sorted_ignores_order(a, b);
}

/// Records that are ascending already are in replay order.
pub proof fn lemma_sorted_fixed(s: Seq<Record>)
    requires
        ascending(s),
    ensures
        sorted_by_tx(s) == s,
    decreases s.len(),
{
    if s.len() > 0 {
        let front = s.drop_last();
        assert(ascending(front)) by {
            assert forall|i: int, j: int| 0 <= i <= j < front.len() implies front[i].tx
                <= front[j].tx by {
                assert(front[i] == s[i] && front[j] == s[j]);
            }
        }
        lemma_sorted_fixed(front);
        if front.len() > 0 {
            assert(front.last() == s[s.len() - 2]);
            assert(s[s.len() - 2].tx <= s[s.len() - 1].tx);
        }
        assert(front.push(s.last()) =~= s);
    } else {
        assert(sorted_by_tx(s) =~= s);
    }
}

/// A copy of the transactions in replay order.
pub fn sort_by_tx(txs: &Vec<Transaction>) -> (out: Vec<Transaction>)
    ensures
        records_of(out@) == sorted_by_tx(records_of(txs@)),
{
    let mut out: Vec<Transaction> = Vec::new();
    let n: usize = txs.len();
    let mut i: usize = 0;
    assert(records_of(txs@).take(0) =~= Seq::<Record>::empty());
    assert(records_of(out@) =~= Seq::<Record>::empty());
    while i < n
        invariant
            n == txs@.len(),
            i <= n,
            records_of(out@) == sorted_by_tx(records_of(txs@).take(i as int)),
        decreases n - i,
    {
        let t = txs[i].clone();
        let mut j: usize = out.len();
        while j > 0 && out[j - 1].tx > t.tx
            invariant
                j <= out@.len(),
                forall|k: int| j <= k < out@.len() ==> out@[k].tx > t.tx,
            decreases j,
        {
            j -= 1;
        }
        proof {
            let before = records_of(out@);
            let given = records_of(txs@);
            assert(given.take(i + 1).drop_last() =~= given.take(i as int));
            assert(given.take(i + 1).last() == t@);
            lemma_insert_at(before, t@, j as int);
            assert(records_of(out@.insert(j as int, t)) =~= before.insert(j as int, t@));
        }
        out.insert(j, t);
        i += 1;
    }
    assert(records_of(txs@).take(n as int) =~= records_of(txs@));
    out
}

} // verus!
