//! Deterministic export of the committed fixture list: one
//! (home name, away name) row per fixture, ordered by home name.

use vstd::prelude::*;
use vstd::string::StrSliceExecFns;

use crate::entity::Match;

verus! {

/// Strict lexicographic order on names from position `i` on: the first
/// differing character decides by code point; a proper prefix comes first.
pub open spec fn lex_lt_from(a: Seq<char>, b: Seq<char>, i: int) -> bool
    decreases b.len() - i,
{
    if i < 0 || i >= b.len() {
        false
    } else if i >= a.len() {
        true
    } else if a[i] != b[i] {
        (a[i] as u32) < (b[i] as u32)
    } else {
        lex_lt_from(a, b, i + 1)
    }
}

/// `a` comes strictly before `b` in name order.
pub open spec fn name_lt(a: Seq<char>, b: Seq<char>) -> bool {
    lex_lt_from(a, b, 0)
}

fn lex_lt_at(a: &str, b: &str, i: usize) -> (r: bool)
    requires
        i <= a@.len(),
        i <= b@.len(),
    ensures
        r == lex_lt_from(a@, b@, i as int),
    decreases b@.len() - i,
{
    if i >= b.unicode_len() {
        false
    } else if i >= a.unicode_len() {
        true
    } else {
        let ca = a.get_char(i);
        let cb = b.get_char(i);
        if ca != cb {
            (ca as u32) < (cb as u32)
        } else {
            lex_lt_at(a, b, i + 1)
        }
    }
}

fn name_lt_exec(a: &String, b: &String) -> (r: bool)
    ensures
        r == name_lt(a@, b@),
{
    lex_lt_at(a.as_str(), b.as_str(), 0)
}

/// The row a fixture exports: home name first, away name second.
pub open spec fn row_of(m: Match) -> (String, String) {
    (m.home_team.name, m.away_team.name)
}

/// The rows of a fixture list, in commit order.
pub open spec fn rows_of(s: Seq<Match>) -> Seq<(String, String)> {
    s.map_values(|m: Match| row_of(m))
}

/// Insert a row into an already ordered row list, before the first row
/// whose home name comes strictly after it.
pub open spec fn insert_row(x: (String, String), s: Seq<(String, String)>) -> Seq<(String, String)>
    decreases s.len(),
{
    if s.len() == 0 {
        seq![x]
    } else if name_lt(x.0@, s[0].0@) {
        seq![x] + s
    } else {
        seq![s[0]] + insert_row(x, s.drop_first())
    }
}

/// Order a row list by home name, by insertion in commit order; rows with
/// equal home names keep their commit order.
pub open spec fn sort_rows(s: Seq<(String, String)>) -> Seq<(String, String)>
    decreases s.len(),
{
    if s.len() == 0 {
        Seq::empty()
    } else {
        insert_row(s.last(), sort_rows(s.drop_last()))
    }
}

/// What exporting a fixture list yields: its rows, ordered by home name.
pub open spec fn export_spec(s: Seq<Match>) -> Seq<(String, String)> {
    sort_rows(rows_of(s))
}

proof fn lemma_insert_row_at(x: (String, String), s: Seq<(String, String)>, k: int)
    requires
        0 <= k <= s.len(),
        forall|i: int| 0 <= i < k ==> !name_lt(x.0@, (#[trigger] s[i]).0@),
        k < s.len() ==> name_lt(x.0@, s[k].0@),
    ensures
        insert_row(x, s) == s.subrange(0, k) + seq![x] + s.subrange(k, s.len() as int),
    decreases s.len(),
{
    if s.len() == 0 {
        assert(insert_row(x, s) =~= s.subrange(0, 0) + seq![x] + s.subrange(0, 0));
    } else if k == 0 {
        assert(insert_row(x, s) == seq![x] + s);
        assert(seq![x] + s =~= s.subrange(0, 0) + seq![x] + s.subrange(0, s.len() as int));
    } else {
        let rest = s.drop_first();
        assert(!name_lt(x.0@, s[0].0@));
        assert forall|i: int| 0 <= i < k - 1 implies !name_lt(x.0@, (#[trigger] rest[i]).0@) by {
            assert(rest[i] == s[i + 1]);
        }
        if k - 1 < rest.len() {
            assert(rest[k - 1] == s[k]);
        }
        lemma_insert_row_at(x, rest, k - 1);
        assert(insert_row(x, s) == seq![s[0]] + (rest.subrange(0, k - 1) + seq![x] + rest.subrange(
            k - 1,
            rest.len() as int,
        )));
        assert(seq![s[0]] + (rest.subrange(0, k - 1) + seq![x] + rest.subrange(
            k - 1,
            rest.len() as int,
        )) =~= s.subrange(0, k) + seq![x] + s.subrange(k, s.len() as int));
    }
}

fn insert_pos(key: &String, out: &Vec<(String, String)>) -> (k: usize)
    ensures
        k <= out@.len(),
        forall|i: int| 0 <= i < k ==> !name_lt(key@, (#[trigger] out@[i]).0@),
        k < out@.len() ==> name_lt(key@, out@[k as int].0@),
{
    let mut k: usize = 0;
    while k < out.len()
        invariant
            k <= out@.len(),
            forall|i: int| 0 <= i < k ==> !name_lt(key@, (#[trigger] out@[i]).0@),
        decreases out@.len() - k,
    {
        if name_lt_exec(key, &out[k].0) {
            return k;
        }
        k += 1;
    }
    k
}

/// Produce the rows for the fixture sink: one (home name, away name) pair
/// per committed fixture, ordered by home name for reproducible output.
pub fn export_rows(matches: &Vec<Match>) -> (r: Vec<(String, String)>)
    ensures
        r@ == export_spec(matches@),
        rows_sorted(r@),
{
    proof {
        lemma_export_sorted(matches@);
    }
    let ghost ms = matches@;
    let mut out: Vec<(String, String)> = Vec::new();
    proof {
        assert(rows_of(ms.take(0)) =~= Seq::<(String, String)>::empty());
    }
    for idx in 0..matches.len()
        invariant
            ms == matches@,
            out@ == sort_rows(rows_of(ms.take(idx as int))),
    {
        let m = &matches[idx];
        let row = (m.home_team.name.clone(), m.away_team.name.clone());
        let k = insert_pos(&row.0, &out);
        let ghost out_old = out@;
        out.insert(k, row);
        proof {
            lemma_insert_row_at(row, out_old, k as int);
            assert(out@ =~= out_old.subrange(0, k as int) + seq![row] + out_old.subrange(
                k as int,
                out_old.len() as int,
            ));
            let t2 = ms.take(idx + 1);
            assert(rows_of(t2).len() == idx + 1);
            assert(rows_of(t2).drop_last() =~= rows_of(ms.take(idx as int)));
            assert(rows_of(t2).last() == row_of(ms[idx as int]));
            assert(row == row_of(ms[idx as int]));
            assert(sort_rows(t2.map_values(|m2: Match| row_of(m2))) == insert_row(
                row,
                sort_rows(rows_of(ms.take(idx as int))),
            ));
            assert(out@ == sort_rows(rows_of(ms.take(idx + 1))));
        }
    }
    proof {
        assert(ms.take(ms.len() as int) =~= ms);
    }
    out
}

/// Row lists ordered by home name: no row's home name comes strictly before
/// an earlier row's home name.
pub open spec fn rows_sorted(s: Seq<(String, String)>) -> bool {
    forall|i: int, j: int|
        0 <= i < j < s.len() ==> !name_lt((#[trigger] s[j]).0@, (#[trigger] s[i]).0@)
}

proof fn lemma_lex_lt_irrefl(a: Seq<char>, i: int)
    ensures
        !lex_lt_from(a, a, i),
    decreases a.len() - i,
{
    if 0 <= i < a.len() {
        lemma_lex_lt_irrefl(a, i + 1);
    }
}

proof fn lemma_lex_lt_trans(a: Seq<char>, b: Seq<char>, c: Seq<char>, i: int)
    requires
        0 <= i,
        lex_lt_from(a, b, i),
        lex_lt_from(b, c, i),
    ensures
        lex_lt_from(a, c, i),
    decreases c.len() - i,
{
    if i < c.len() && i < a.len() && i < b.len() && a[i] == b[i] && b[i] == c[i] {
        lemma_lex_lt_trans(a, b, c, i + 1);
    }
}

proof fn lemma_insert_row_elems(x: (String, String), s: Seq<(String, String)>)
    ensures
        insert_row(x, s).len() == s.len() + 1,
        forall|k: int|
            0 <= k < insert_row(x, s).len() ==> (#[trigger] insert_row(x, s)[k]) == x
                || s.contains(insert_row(x, s)[k]),
    decreases s.len(),
{
    if s.len() == 0 {
    } else if name_lt(x.0@, s[0].0@) {
        assert forall|k: int| 0 <= k < insert_row(x, s).len() implies (#[trigger] insert_row(
            x,
            s,
        )[k]) == x || s.contains(insert_row(x, s)[k]) by {
            if k > 0 {
                assert(insert_row(x, s)[k] == s[k - 1]);
            }
        }
    } else {
        lemma_insert_row_elems(x, s.drop_first());
        let rest = s.drop_first();
        assert forall|k: int| 0 <= k < insert_row(x, s).len() implies (#[trigger] insert_row(
            x,
            s,
        )[k]) == x || s.contains(insert_row(x, s)[k]) by {
            if k > 0 {
                assert(insert_row(x, s)[k] == insert_row(x, rest)[k - 1]);
                if insert_row(x, rest)[k - 1] != x {
                    let k2 = choose|k2: int|
                        0 <= k2 < rest.len() && rest[k2] == insert_row(x, rest)[k - 1];
                    assert(s[k2 + 1] == insert_row(x, s)[k]);
                }
            } else {
                assert(insert_row(x, s)[0] == s[0]);
            }
        }
    }
}

proof fn lemma_insert_row_sorted(x: (String, String), s: Seq<(String, String)>)
    requires
        rows_sorted(s),
    ensures
        rows_sorted(insert_row(x, s)),
    decreases s.len(),
{
    if s.len() == 0 {
    } else if name_lt(x.0@, s[0].0@) {
        let r = seq![x] + s;
        assert(insert_row(x, s) == r);
        assert forall|i: int, j: int| 0 <= i < j < r.len() implies !name_lt(
            (#[trigger] r[j]).0@,
            (#[trigger] r[i]).0@,
        ) by {
            if i == 0 {
                assert(r[j] == s[j - 1]);
                if name_lt(r[j].0@, x.0@) {
                    lemma_lex_lt_trans(r[j].0@, x.0@, s[0].0@, 0);
                    if j == 1 {
                        lemma_lex_lt_irrefl(s[0].0@, 0);
                    } else {
                        assert(!name_lt(s[j - 1].0@, s[0].0@));
                    }
                }
            } else {
                assert(r[i] == s[i - 1] && r[j] == s[j - 1]);
            }
        }
    } else {
        let rest = s.drop_first();
        assert forall|i: int, j: int| 0 <= i < j < rest.len() implies !name_lt(
            (#[trigger] rest[j]).0@,
            (#[trigger] rest[i]).0@,
        ) by {
            assert(rest[i] == s[i + 1] && rest[j] == s[j + 1]);
        }
        lemma_insert_row_sorted(x, rest);
        lemma_insert_row_elems(x, rest);
        let r2 = insert_row(x, rest);
        let r = seq![s[0]] + r2;
        assert(insert_row(x, s) == r);
        assert forall|i: int, j: int| 0 <= i < j < r.len() implies !name_lt(
            (#[trigger] r[j]).0@,
            (#[trigger] r[i]).0@,
        ) by {
            if i == 0 {
                assert(r[j] == r2[j - 1]);
                if r2[j - 1] == x {
                    assert(!name_lt(x.0@, s[0].0@));
                } else {
                    let k2 = choose|k2: int| 0 <= k2 < rest.len() && rest[k2] == r2[j - 1];
                    assert(rest[k2] == s[k2 + 1]);
                    assert(!name_lt(s[k2 + 1].0@, s[0].0@));
                }
            } else {
                assert(r[i] == r2[i - 1] && r[j] == r2[j - 1]);
            }
        }
    }
}

proof fn lemma_sort_rows_sorted(s: Seq<(String, String)>)
    ensures
        rows_sorted(sort_rows(s)),
    decreases s.len(),
{
    if s.len() > 0 {
        lemma_sort_rows_sorted(s.drop_last());
        lemma_insert_row_sorted(s.last(), sort_rows(s.drop_last()));
    }
}

/// The exported row list is ordered by home name.
pub proof fn lemma_export_sorted(s: Seq<Match>)
    ensures
        rows_sorted(export_spec(s)),
{
    lemma_sort_rows_sorted(rows_of(s));
}

proof fn lemma_seq_insert_multiset(s: Seq<(String, String)>, i: int, x: (String, String))
    requires
        0 <= i <= s.len(),
    ensures
        s.insert(i, x).to_multiset() =~= s.to_multiset().insert(x),
{
    broadcast use vstd::seq_lib::group_to_multiset_ensures;

    let big = s.insert(i, x);
    assert(big.remove(i) =~= s);
    assert(big.remove(i).to_multiset() =~= big.to_multiset().remove(big[i]));
    assert(big[i] == x);
    assert(big.to_multiset().count(x) > 0);
}

proof fn lemma_insert_row_multiset(x: (String, String), s: Seq<(String, String)>)
    ensures
        insert_row(x, s).to_multiset() =~= s.to_multiset().insert(x),
    decreases s.len(),
{
    broadcast use vstd::seq_lib::group_to_multiset_ensures;

    if s.len() == 0 {
        assert(insert_row(x, s) =~= Seq::<(String, String)>::empty().push(x));
    } else if name_lt(x.0@, s[0].0@) {
        assert(insert_row(x, s) =~= s.insert(0, x));
        lemma_seq_insert_multiset(s, 0, x);
    } else {
        let rest = s.drop_first();
        lemma_insert_row_multiset(x, rest);
        let q = insert_row(x, rest);
        assert(insert_row(x, s) =~= q.insert(0, s[0]));
        lemma_seq_insert_multiset(q, 0, s[0]);
        assert(s =~= rest.insert(0, s[0]));
        lemma_seq_insert_multiset(rest, 0, s[0]);
        assert(rest.to_multiset().insert(x).insert(s[0]) =~= rest.to_multiset().insert(
            s[0],
        ).insert(x));
    }
}

proof fn lemma_sort_rows_multiset(s: Seq<(String, String)>)
    ensures
        sort_rows(s).to_multiset() =~= s.to_multiset(),
    decreases s.len(),
{
    broadcast use vstd::seq_lib::group_to_multiset_ensures;

    if s.len() > 0 {
        lemma_sort_rows_multiset(s.drop_last());
        lemma_insert_row_multiset(s.last(), sort_rows(s.drop_last()));
        assert(s =~= s.drop_last().push(s.last()));
    }
}

/// The export loses and invents no rows: the exported list holds exactly the
/// committed fixtures' rows, as a multiset.
pub proof fn lemma_export_permutes(s: Seq<Match>)
    ensures
        export_spec(s).to_multiset() =~= rows_of(s).to_multiset(),
{
    lemma_sort_rows_multiset(rows_of(s));
}

/// Idempotent re-export: the exported row list is a function of the
/// committed fixture list alone, so exporting the same list twice yields
/// the same rows both times.
pub proof fn lemma_export_idempotent(
    s: Seq<Match>,
    r1: Seq<(String, String)>,
    r2: Seq<(String, String)>,
)
    requires
        r1 == export_spec(s),
        r2 == export_spec(s),
    ensures
        r1 == r2,
{
}

} // verus!
