//! The chart matcher: groups baseline and engine entries by chart group key
//! and judges each group of the baseline.
//!
//! Two policies are fixed here. Groups are compared positionally, as ordered
//! sequences of hashes. Only the step types `dance-single` and `dance-double`
//! are in scope; entries of any other step type are dropped from both sides
//! before matching.

use vstd::prelude::*;
use crate::error::{key_of, texts, HarnessError, ChartGroupKey};
use crate::text::{
    ascii_bytes, bytes_eq, common_prefix, copy_bytes, fold_ascii, folded, lemma_lex_connected,
    lemma_lex_lt_transitive,
    lemma_lt_irreflexive, lemma_order_exclusive, lex_lt, lex_order, literal_bytes, Order,
};

verus! {

/// One expected chart result of a baseline.
#[derive(Debug, Clone)]
pub struct BaselineEntry {
    pub step_type: Vec<u8>,
    pub difficulty: Vec<u8>,
    pub hash: Vec<u8>,
    /// A difficulty rating, used to label a chart and never to match it.
    pub meter: Option<u32>,
}

/// One chart result that the engine computed.
#[derive(Debug, Clone)]
pub struct ActualEntry {
    pub step_type: Vec<u8>,
    pub difficulty: Vec<u8>,
    pub hash: Vec<u8>,
}

/// What matching reads of an entry, expected or actual.
pub struct ChartRow {
    pub step_type: Seq<u8>,
    pub difficulty: Seq<u8>,
    pub hash: Seq<u8>,
}

/// The outcome of one chart group of the baseline.
#[derive(Debug, Clone)]
pub enum Verdict {
    /// The engine produced the group's hashes, one for one and in order.
    Match,
    /// The engine produced the group, with other hashes.
    Mismatch { expected: Vec<Vec<u8>>, actual: Vec<Vec<u8>> },
    /// The engine produced no entry of the group.
    MissingFromActual,
}

/// A chart group of the baseline with its outcome.
#[derive(Debug, Clone)]
pub struct GroupVerdict {
    pub key: ChartGroupKey,
    pub verdict: Verdict,
}

pub open spec fn baseline_rows(entries: Seq<BaselineEntry>) -> Seq<ChartRow> {
    Seq::new(
        entries.len(),
        |i: int|
            ChartRow {
                step_type: entries[i].step_type@,
                difficulty: entries[i].difficulty@,
                hash: entries[i].hash@,
            },
    )
}

pub open spec fn actual_rows(entries: Seq<ActualEntry>) -> Seq<ChartRow> {
    Seq::new(
        entries.len(),
        |i: int|
            ChartRow {
                step_type: entries[i].step_type@,
                difficulty: entries[i].difficulty@,
                hash: entries[i].hash@,
            },
    )
}

/// Whether a step type is compared at all, whatever its letter case.
pub open spec fn in_scope(step_type: Seq<u8>) -> bool {
    folded(step_type) == ascii_bytes("dance-single"@) || folded(step_type) == ascii_bytes(
        "dance-double"@,
    )
}

/// Whether a row is in scope and falls under `key`.
pub open spec fn belongs(row: ChartRow, key: (Seq<u8>, Seq<u8>)) -> bool {
    in_scope(row.step_type) && key_of(row.step_type, row.difficulty) == key
}

/// Whether some row falls under `key`.
pub open spec fn group_present(rows: Seq<ChartRow>, key: (Seq<u8>, Seq<u8>)) -> bool {
    exists|i: int| 0 <= i < rows.len() && belongs(#[trigger] rows[i], key)
}

/// The hashes of the rows under `key`, in the rows' order.
pub open spec fn group_hashes(rows: Seq<ChartRow>, key: (Seq<u8>, Seq<u8>)) -> Seq<Seq<u8>> {
    rows.filter(|row: ChartRow| belongs(row, key)).map_values(|row: ChartRow| row.hash)
}

/// The order of keys: by step type, then by difficulty, each lexicographic.
pub open spec fn key_lt(a: (Seq<u8>, Seq<u8>), b: (Seq<u8>, Seq<u8>)) -> bool {
    lex_lt(a.0, b.0) || (a.0 == b.0 && lex_lt(a.1, b.1))
}

/// Whether `v` is the outcome of the group `key`.
pub open spec fn verdict_of(
    v: Verdict,
    expected: Seq<ChartRow>,
    actual: Seq<ChartRow>,
    key: (Seq<u8>, Seq<u8>),
) -> bool {
    match v {
        Verdict::Match => group_present(actual, key) && group_hashes(expected, key)
            == group_hashes(actual, key),
        Verdict::Mismatch { expected: e, actual: a } => {
            &&& group_present(actual, key)
            &&& group_hashes(expected, key) != group_hashes(actual, key)
            &&& texts(e@) == group_hashes(expected, key)
            &&& texts(a@) == group_hashes(actual, key)
        },
        Verdict::MissingFromActual => !group_present(actual, key),
    }
}

/// Whether `key` is the key of one of `verdicts`.
pub open spec fn listed(verdicts: Seq<GroupVerdict>, key: (Seq<u8>, Seq<u8>)) -> bool {
    exists|i: int| 0 <= i < verdicts.len() && (#[trigger] verdicts[i]).key@ == key
}

/// Whether `verdicts` is the comparison of `expected` with `actual`: one
/// verdict for each group of the baseline, in strictly ascending key order.
/// Groups that only `actual` holds are not looked at.
pub open spec fn compared(
    expected: Seq<ChartRow>,
    actual: Seq<ChartRow>,
    verdicts: Seq<GroupVerdict>,
) -> bool {
    &&& forall|i: int, j: int|
        0 <= i < j < verdicts.len() ==> key_lt(
            (#[trigger] verdicts[i]).key@,
            (#[trigger] verdicts[j]).key@,
        )
    &&& forall|i: int|
        0 <= i < verdicts.len() ==> group_present(expected, (#[trigger] verdicts[i]).key@)
    &&& forall|key: (Seq<u8>, Seq<u8>)| #[trigger]
        group_present(expected, key) ==> listed(verdicts, key)
    &&& forall|i: int|
        0 <= i < verdicts.len() ==> verdict_of(
            (#[trigger] verdicts[i]).verdict,
            expected,
            actual,
            verdicts[i].key@,
        )
}

/// Taking one more row into account appends its hash where it belongs.
pub proof fn lemma_group_hashes_step(rows: Seq<ChartRow>, key: (Seq<u8>, Seq<u8>), i: int)
    requires
        0 <= i < rows.len(),
    ensures
        group_hashes(rows.take(i + 1), key) == if belongs(rows[i], key) {
            group_hashes(rows.take(i), key).push(rows[i].hash)
        } else {
            group_hashes(rows.take(i), key)
        },
        group_present(rows.take(i + 1), key) == (group_present(rows.take(i), key) || belongs(
            rows[i],
            key,
        )),
{
    reveal(Seq::filter);
    let pred = |row: ChartRow| belongs(row, key);
    let head = rows.take(i + 1);
    assert(head.drop_last() =~= rows.take(i));
    assert(head.last() == rows[i]);
    assert(group_hashes(head, key) =~= if belongs(rows[i], key) {
        group_hashes(rows.take(i), key).push(rows[i].hash)
    } else {
        group_hashes(rows.take(i), key)
    });
    if group_present(rows.take(i), key) {
        let t = choose|t: int| 0 <= t < rows.take(i).len() && belongs(#[trigger] rows.take(i)[t], key);
        assert(belongs(head[t], key));
    }
    if belongs(rows[i], key) {
        assert(belongs(head[i], key));
    }
    if group_present(head, key) {
        let t = choose|t: int| 0 <= t < head.len() && belongs(#[trigger] head[t], key);
        if t < i {
            assert(belongs(rows.take(i)[t], key));
        }
    }
}

/// Whether a step type, already folded to lower case, is one of those compared.
pub fn step_type_in_scope(folded_step_type: &[u8]) -> (r: bool)
    ensures
        r == (folded_step_type@ == ascii_bytes("dance-single"@) || folded_step_type@
            == ascii_bytes("dance-double"@)),
{
    proof {
        reveal_strlit("dance-single");
        reveal_strlit("dance-double");
    }
    let single = literal_bytes("dance-single");
    let double = literal_bytes("dance-double");
    bytes_eq(folded_step_type, single.as_slice()) || bytes_eq(folded_step_type, double.as_slice())
}

/// Whether an entry with this step type and difficulty is in scope and falls under `key`.
pub fn entry_belongs(step_type: &[u8], difficulty: &[u8], key: &ChartGroupKey) -> (r: bool)
    ensures
        r == (in_scope(step_type@) && key_of(step_type@, difficulty@) == key@),
{
    let st = fold_ascii(step_type);
    if !step_type_in_scope(st.as_slice()) {
        return false;
    }
    let df = fold_ascii(difficulty);
    bytes_eq(st.as_slice(), key.step_type.as_slice()) && bytes_eq(
        df.as_slice(),
        key.difficulty.as_slice(),
    )
}

/// The baseline's hashes under `key`, in the baseline's order.
pub fn expected_group(expected: &Vec<BaselineEntry>, key: &ChartGroupKey) -> (r: Vec<Vec<u8>>)
    ensures
        texts(r@) == group_hashes(baseline_rows(expected@), key@),
{
    let ghost rows = baseline_rows(expected@);
    let mut out: Vec<Vec<u8>> = Vec::new();
    let mut i: usize = 0;
    assert(texts(out@) =~= group_hashes(rows.take(0), key@)) by {
        reveal(Seq::filter);
    }
    while i < expected.len()
        invariant
            0 <= i <= expected.len(),
            rows == baseline_rows(expected@),
            texts(out@) == group_hashes(rows.take(i as int), key@),
        decreases expected.len() - i,
    {
        let e = &expected[i];
        proof {
            lemma_group_hashes_step(rows, key@, i as int);
        }
        if entry_belongs(e.step_type.as_slice(), e.difficulty.as_slice(), key) {
            let ghost before = out@;
            out.push(copy_bytes(e.hash.as_slice()));
            assert(texts(out@) =~= texts(before).push(e.hash@));
        }
        i += 1;
    }
    assert(rows.take(i as int) =~= rows);
    out
}

/// Whether the engine produced the group `key`, and its hashes under `key`
/// in the engine's order.
pub fn actual_group(actual: &Vec<ActualEntry>, key: &ChartGroupKey) -> (r: (bool, Vec<Vec<u8>>))
    ensures
        r.0 == group_present(actual_rows(actual@), key@),
        texts(r.1@) == group_hashes(actual_rows(actual@), key@),
{
    let ghost rows = actual_rows(actual@);
    let mut out: Vec<Vec<u8>> = Vec::new();
    let mut found = false;
    let mut i: usize = 0;
    assert(texts(out@) =~= group_hashes(rows.take(0), key@)) by {
        reveal(Seq::filter);
    }
    while i < actual.len()
        invariant
            0 <= i <= actual.len(),
            rows == actual_rows(actual@),
            texts(out@) == group_hashes(rows.take(i as int), key@),
            found == group_present(rows.take(i as int), key@),
        decreases actual.len() - i,
    {
        let e = &actual[i];
        proof {
            lemma_group_hashes_step(rows, key@, i as int);
        }
        if entry_belongs(e.step_type.as_slice(), e.difficulty.as_slice(), key) {
            let ghost before = out@;
            out.push(copy_bytes(e.hash.as_slice()));
            assert(texts(out@) =~= texts(before).push(e.hash@));
            found = true;
        }
        i += 1;
    }
    assert(rows.take(i as int) =~= rows);
    (found, out)
}

/// Whether two lists of hashes are equal, one for one and in order.
pub fn same_hashes(a: &Vec<Vec<u8>>, b: &Vec<Vec<u8>>) -> (r: bool)
    ensures
        r == (texts(a@) == texts(b@)),
{
    if a.len() != b.len() {
        assert(texts(a@).len() != texts(b@).len());
        return false;
    }
    let mut i: usize = 0;
    while i < a.len()
        invariant
            0 <= i <= a.len(),
            a.len() == b.len(),
            forall|j: int| 0 <= j < i ==> a@[j]@ == b@[j]@,
        decreases a.len() - i,
    {
        if !bytes_eq(a[i].as_slice(), b[i].as_slice()) {
            assert(texts(a@)[i as int] != texts(b@)[i as int]);
            return false;
        }
        i += 1;
    }
    assert(texts(a@) =~= texts(b@));
    true
}

/// Judges one group of the baseline from what the engine produced for it:
/// missing where the engine has no entry of the group, a match where the two
/// hash lists are equal, a mismatch holding both lists otherwise.
pub fn judge_group(found: bool, expected: Vec<Vec<u8>>, actual: Vec<Vec<u8>>) -> (r: Verdict)
    ensures
        !found ==> r is MissingFromActual,
        found && texts(expected@) == texts(actual@) ==> r is Match,
        found && texts(expected@) != texts(actual@) ==> r == (Verdict::Mismatch {
            expected,
            actual,
        }),
{
    if !found {
        Verdict::MissingFromActual
    } else if same_hashes(&expected, &actual) {
        Verdict::Match
    } else {
        Verdict::Mismatch { expected, actual }
    }
}

/// The order of keys is transitive.
pub proof fn lemma_key_lt_transitive(
    a: (Seq<u8>, Seq<u8>),
    b: (Seq<u8>, Seq<u8>),
    c: (Seq<u8>, Seq<u8>),
)
    requires
        key_lt(a, b),
        key_lt(b, c),
    ensures
        key_lt(a, c),
{
    if lex_lt(a.0, b.0) && lex_lt(b.0, c.0) {
        lemma_lex_lt_transitive(a.0, b.0, c.0);
    }
    if a.0 == b.0 && b.0 == c.0 {
        lemma_lex_lt_transitive(a.1, b.1, c.1);
    }
}

/// Compares two keys: by step type, then by difficulty.
pub fn key_order(a: &ChartGroupKey, b: &ChartGroupKey) -> (r: Order)
    ensures
        r == Order::Before <==> key_lt(a@, b@),
        r == Order::Same <==> a@ == b@,
        r == Order::After <==> key_lt(b@, a@),
{
    match lex_order(a.step_type.as_slice(), b.step_type.as_slice()) {
        Order::Before => Order::Before,
        Order::After => Order::After,
        Order::Same => lex_order(a.difficulty.as_slice(), b.difficulty.as_slice()),
    }
}

/// Whether `keys` is strictly ascending.
pub open spec fn ascending(keys: Seq<ChartGroupKey>) -> bool {
    forall|i: int, j: int|
        0 <= i < j < keys.len() ==> key_lt((#[trigger] keys[i])@, (#[trigger] keys[j])@)
}

/// Whether `key` is among `keys`.
pub open spec fn among(keys: Seq<ChartGroupKey>, key: (Seq<u8>, Seq<u8>)) -> bool {
    exists|j: int| 0 <= j < keys.len() && (#[trigger] keys[j])@ == key
}

/// Puts `key` into an ascending list of keys, unless the list holds it already.
pub fn insert_key(keys: &mut Vec<ChartGroupKey>, key: ChartGroupKey)
    requires
        ascending(old(keys)@),
    ensures
        ascending(final(keys)@),
        forall|k: (Seq<u8>, Seq<u8>)|
            among(final(keys)@, k) <==> (among(old(keys)@, k) || k == key@),
{
    let ghost before = keys@;
    let mut p: usize = 0;
    while p < keys.len() && key_order(&keys[p], &key) == Order::Before
        invariant
            0 <= p <= keys.len(),
            keys@ == before,
            forall|i: int| 0 <= i < p ==> key_lt((#[trigger] keys@[i])@, key@),
        decreases keys.len() - p,
    {
        p += 1;
    }
    if p < keys.len() && key_order(&keys[p], &key) == Order::Same {
        assert forall|k: (Seq<u8>, Seq<u8>)| among(keys@, k) <==> (among(before, k) || k
            == key@) by {
            assert(before[p as int]@ == key@);
        }
        return ;
    }
    let ghost key_view = key@;
    keys.insert(p, key);
    proof {
        let after = keys@;
        assert forall|i: int, j: int| 0 <= i < j < after.len() implies key_lt(
            (#[trigger] after[i])@,
            (#[trigger] after[j])@,
        ) by {
            if j < p {
                assert(after[i] == before[i] && after[j] == before[j]);
            } else if j == p {
                assert(after[i] == before[i]);
            } else if i == p {
                assert(after[j] == before[j - 1]);
                assert(key_lt(key_view, before[p as int]@));
                if j - 1 > p {
                    assert(key_lt(before[p as int]@, before[j - 1]@));
                    lemma_key_lt_transitive(key_view, before[p as int]@, before[j - 1]@);
                }
            } else if i < p {
                assert(after[i] == before[i] && after[j] == before[j - 1]);
            } else {
                assert(after[i] == before[i - 1] && after[j] == before[j - 1]);
            }
        }
        assert forall|k: (Seq<u8>, Seq<u8>)| among(after, k) <==> (among(before, k) || k
            == key_view) by {
            if among(before, k) {
                let j = choose|j: int| 0 <= j < before.len() && (#[trigger] before[j])@ == k;
                if j < p {
                    assert(after[j]@ == k);
                } else {
                    assert(after[j + 1]@ == k);
                }
            }
            if k == key_view {
                assert(after[p as int]@ == k);
            }
            if among(after, k) {
                let j = choose|j: int| 0 <= j < after.len() && (#[trigger] after[j])@ == k;
                if j < p {
                    assert(before[j]@ == k);
                } else if j > p {
                    assert(before[j - 1]@ == k);
                }
            }
        }
    }
}

/// The keys of the baseline's in-scope entries, each once, in ascending order.
pub fn expected_keys(expected: &Vec<BaselineEntry>) -> (keys: Vec<ChartGroupKey>)
    ensures
        ascending(keys@),
        forall|k: (Seq<u8>, Seq<u8>)|
            among(keys@, k) <==> group_present(baseline_rows(expected@), k),
{
    let ghost rows = baseline_rows(expected@);
    let mut keys: Vec<ChartGroupKey> = Vec::new();
    let mut i: usize = 0;
    while i < expected.len()
        invariant
            0 <= i <= expected.len(),
            rows == baseline_rows(expected@),
            ascending(keys@),
            forall|k: (Seq<u8>, Seq<u8>)|
                among(keys@, k) <==> group_present(rows.take(i as int), k),
        decreases expected.len() - i,
    {
        let e = &expected[i];
        let step_type = fold_ascii(e.step_type.as_slice());
        let ghost before = keys@;
        let ghost key = key_of(e.step_type@, e.difficulty@);
        if step_type_in_scope(step_type.as_slice()) {
            let difficulty = fold_ascii(e.difficulty.as_slice());
            insert_key(&mut keys, ChartGroupKey { step_type, difficulty });
        }
        proof {
            assert forall|k: (Seq<u8>, Seq<u8>)|
                among(keys@, k) <==> group_present(rows.take(i + 1), k) by {
                lemma_group_hashes_step(rows, k, i as int);
            }
        }
        i += 1;
    }
    assert(rows.take(i as int) =~= rows);
    keys
}

/// A copy of a key.
pub fn copy_key(key: &ChartGroupKey) -> (r: ChartGroupKey)
    ensures
        r@ == key@,
{
    ChartGroupKey {
        step_type: copy_bytes(key.step_type.as_slice()),
        difficulty: copy_bytes(key.difficulty.as_slice()),
    }
}

/// Compares the baseline's entries with the engine's: one verdict for each
/// chart group of the baseline, in ascending key order.
pub fn compare(expected: &Vec<BaselineEntry>, actual: &Vec<ActualEntry>) -> (r: Vec<GroupVerdict>)
    ensures
        compared(baseline_rows(expected@), actual_rows(actual@), r@),
{
    let ghost exp_rows = baseline_rows(expected@);
    let ghost act_rows = actual_rows(actual@);
    let keys = expected_keys(expected);
    let mut out: Vec<GroupVerdict> = Vec::new();
    let mut i: usize = 0;
    while i < keys.len()
        invariant
            0 <= i <= keys.len(),
            exp_rows == baseline_rows(expected@),
            act_rows == actual_rows(actual@),
            out@.len() == i,
            forall|j: int| 0 <= j < i ==> (#[trigger] out@[j]).key@ == keys@[j]@,
            forall|j: int|
                0 <= j < i ==> verdict_of(
                    (#[trigger] out@[j]).verdict,
                    exp_rows,
                    act_rows,
                    out@[j].key@,
                ),
        decreases keys.len() - i,
    {
        let key = copy_key(&keys[i]);
        let wanted = expected_group(expected, &key);
        let (found, got) = actual_group(actual, &key);
        let verdict = judge_group(found, wanted, got);
        out.push(GroupVerdict { key, verdict });
        i += 1;
    }
    proof {
        assert forall|j: int| 0 <= j < out@.len() implies group_present(
            exp_rows,
            (#[trigger] out@[j]).key@,
        ) by {
            assert(among(keys@, keys@[j]@));
        }
        assert forall|key: (Seq<u8>, Seq<u8>)| #[trigger]
            group_present(exp_rows, key) implies listed(out@, key) by {
            assert(among(keys@, key));
            let j = choose|j: int| 0 <= j < keys@.len() && (#[trigger] keys@[j])@ == key;
            assert(out@[j].key@ == key);
        }
    }
    out
}

/// A copy of a list of hashes.
pub fn copy_hashes(hashes: &Vec<Vec<u8>>) -> (r: Vec<Vec<u8>>)
    ensures
        texts(r@) == texts(hashes@),
{
    let mut r: Vec<Vec<u8>> = Vec::new();
    let mut i: usize = 0;
    while i < hashes.len()
        invariant
            0 <= i <= hashes.len(),
            r@.len() == i,
            forall|j: int| 0 <= j < i ==> r@[j]@ == hashes@[j]@,
        decreases hashes.len() - i,
    {
        r.push(copy_bytes(hashes[i].as_slice()));
        i += 1;
    }
    assert(texts(r@) =~= texts(hashes@));
    r
}

/// Whether `r` is the outcome of a fixture with these group verdicts: a pass
/// where every group matched; else the first missing group, if there is one;
/// else the first mismatching group with its two hash lists.
pub open spec fn outcome_of(verdicts: Seq<GroupVerdict>, r: Result<(), HarnessError>) -> bool {
    match r {
        Ok(_) => forall|i: int| 0 <= i < verdicts.len() ==> (#[trigger] verdicts[i]).verdict is Match,
        Err(HarnessError::MissingChart { key }) => exists|i: int|
            {
                &&& 0 <= i < verdicts.len()
                &&& (#[trigger] verdicts[i]).verdict is MissingFromActual
                &&& verdicts[i].key@ == key@
                &&& forall|j: int|
                    0 <= j < i ==> !((#[trigger] verdicts[j]).verdict is MissingFromActual)
            },
        Err(HarnessError::Mismatch { key, expected, actual }) => {
            &&& forall|j: int|
                0 <= j < verdicts.len() ==> !((#[trigger] verdicts[j]).verdict is MissingFromActual)
            &&& exists|i: int|
                {
                    &&& 0 <= i < verdicts.len()
                    &&& (#[trigger] verdicts[i]).verdict matches Verdict::Mismatch {
                        expected: e,
                        actual: a,
                    }
                    &&& texts(e@) == texts(expected@)
                    &&& texts(a@) == texts(actual@)
                    &&& verdicts[i].key@ == key@
                    &&& forall|j: int| 0 <= j < i ==> (#[trigger] verdicts[j]).verdict is Match
                }
        },
        Err(_) => false,
    }
}

/// The outcome of a fixture from its group verdicts. A missing group takes
/// precedence over a mismatching one.
pub fn fixture_outcome(verdicts: &Vec<GroupVerdict>) -> (r: Result<(), HarnessError>)
    ensures
        outcome_of(verdicts@, r),
{
    let mut i: usize = 0;
    while i < verdicts.len()
        invariant
            0 <= i <= verdicts.len(),
            forall|j: int| 0 <= j < i ==> !((#[trigger] verdicts@[j]).verdict is MissingFromActual),
        decreases verdicts.len() - i,
    {
        match &verdicts[i].verdict {
            Verdict::MissingFromActual => {
                return Err(HarnessError::MissingChart { key: copy_key(&verdicts[i].key) });
            },
            _ => {},
        }
        i += 1;
    }
    let mut i: usize = 0;
    while i < verdicts.len()
        invariant
            0 <= i <= verdicts.len(),
            forall|j: int|
                0 <= j < verdicts.len() ==> !((#[trigger] verdicts@[j]).verdict is MissingFromActual),
            forall|j: int| 0 <= j < i ==> (#[trigger] verdicts@[j]).verdict is Match,
        decreases verdicts.len() - i,
    {
        match &verdicts[i].verdict {
            Verdict::Mismatch { expected, actual } => {
                return Err(
                    HarnessError::Mismatch {
                        key: copy_key(&verdicts[i].key),
                        expected: copy_hashes(expected),
                        actual: copy_hashes(actual),
                    },
                );
            },
            _ => {},
        }
        i += 1;
    }
    Ok(())
}

/// Whether the engine reproduced the baseline's group `key`.
pub open spec fn reproduces(
    expected: Seq<ChartRow>,
    actual: Seq<ChartRow>,
    key: (Seq<u8>, Seq<u8>),
) -> bool {
    group_present(actual, key) && group_hashes(expected, key) == group_hashes(actual, key)
}

/// Whether `r` is the outcome of checking `actual` against `expected`.
///
/// A pass: the engine reproduced every group of the baseline. A missing
/// chart: the least group of the baseline that the engine lacks. A mismatch:
/// the engine has every group, and this is the least one whose hashes differ,
/// with the baseline's hashes and the engine's as they are.
pub open spec fn judged(
    expected: Seq<ChartRow>,
    actual: Seq<ChartRow>,
    r: Result<(), HarnessError>,
) -> bool {
    match r {
        Ok(_) => forall|k: (Seq<u8>, Seq<u8>)| #[trigger]
            group_present(expected, k) ==> reproduces(expected, actual, k),
        Err(HarnessError::MissingChart { key }) => {
            &&& group_present(expected, key@)
            &&& !group_present(actual, key@)
            &&& forall|k: (Seq<u8>, Seq<u8>)|
                #[trigger] group_present(expected, k) && key_lt(k, key@) ==> group_present(
                    actual,
                    k,
                )
        },
        Err(HarnessError::Mismatch { key, expected: e, actual: a }) => {
            &&& forall|k: (Seq<u8>, Seq<u8>)| #[trigger]
                group_present(expected, k) ==> group_present(actual, k)
            &&& group_present(expected, key@)
            &&& group_hashes(expected, key@) != group_hashes(actual, key@)
            &&& texts(e@) == group_hashes(expected, key@)
            &&& texts(a@) == group_hashes(actual, key@)
            &&& forall|k: (Seq<u8>, Seq<u8>)|
                #[trigger] group_present(expected, k) && key_lt(k, key@) ==> reproduces(
                    expected,
                    actual,
                    k,
                )
        },
        Err(_) => false,
    }
}

/// No key comes before itself, and of two keys at most one comes before the other.
pub proof fn lemma_key_lt_asymmetric(a: (Seq<u8>, Seq<u8>), b: (Seq<u8>, Seq<u8>))
    requires
        key_lt(a, b),
    ensures
        a != b,
        !key_lt(b, a),
{
    if lex_lt(a.0, b.0) {
        let k = choose|k: int| #[trigger]
            common_prefix(a.0, b.0, k) && (if k == a.0.len() {
                k < b.0.len()
            } else {
                k < b.0.len() && a.0[k] < b.0[k]
            });
        lemma_order_exclusive(a.0, b.0, k);
    } else {
        let k = choose|k: int| #[trigger]
            common_prefix(a.1, b.1, k) && (if k == a.1.len() {
                k < b.1.len()
            } else {
                k < b.1.len() && a.1[k] < b.1[k]
            });
        lemma_order_exclusive(a.1, b.1, k);
        lemma_lt_irreflexive(a.0);
    }
}

/// In a comparison, a group whose key comes before that of verdict `i` has
/// its verdict before `i`.
pub proof fn lemma_earlier_key_listed_earlier(
    expected: Seq<ChartRow>,
    actual: Seq<ChartRow>,
    verdicts: Seq<GroupVerdict>,
    i: int,
    k: (Seq<u8>, Seq<u8>),
) -> (j: int)
    requires
        compared(expected, actual, verdicts),
        0 <= i < verdicts.len(),
        group_present(expected, k),
        key_lt(k, verdicts[i].key@),
    ensures
        0 <= j < i,
        verdicts[j].key@ == k,
{
    assert(listed(verdicts, k));
    let j = choose|j: int| 0 <= j < verdicts.len() && (#[trigger] verdicts[j]).key@ == k;
    lemma_key_lt_asymmetric(k, verdicts[i].key@);
    if i < j {
        assert(key_lt(verdicts[i].key@, verdicts[j].key@));
    }
    j
}

/// The outcome of a comparison is the outcome of the check.
pub proof fn lemma_outcome_of_comparison(
    expected: Seq<ChartRow>,
    actual: Seq<ChartRow>,
    verdicts: Seq<GroupVerdict>,
    r: Result<(), HarnessError>,
)
    requires
        compared(expected, actual, verdicts),
        outcome_of(verdicts, r),
    ensures
        judged(expected, actual, r),
{
    match r {
        Ok(_) => {
            assert forall|k: (Seq<u8>, Seq<u8>)| #[trigger]
                group_present(expected, k) implies reproduces(expected, actual, k) by {
                assert(listed(verdicts, k));
                let j = choose|j: int| 0 <= j < verdicts.len() && (#[trigger] verdicts[j]).key@ == k;
                assert(verdicts[j].verdict is Match);
            }
        },
        Err(HarnessError::MissingChart { key }) => {
            let i = choose|i: int|
                {
                    &&& 0 <= i < verdicts.len()
                    &&& (#[trigger] verdicts[i]).verdict is MissingFromActual
                    &&& verdicts[i].key@ == key@
                    &&& forall|j: int|
                        0 <= j < i ==> !((#[trigger] verdicts[j]).verdict is MissingFromActual)
                };
            assert forall|k: (Seq<u8>, Seq<u8>)|
                #[trigger] group_present(expected, k) && key_lt(k, key@) implies group_present(
                actual,
                k,
            ) by {
                let j = lemma_earlier_key_listed_earlier(expected, actual, verdicts, i, k);
                assert(!(verdicts[j].verdict is MissingFromActual));
            }
        },
        Err(HarnessError::Mismatch { key, expected: e, actual: a }) => {
            let i = choose|i: int|
                {
                    &&& 0 <= i < verdicts.len()
                    &&& (#[trigger] verdicts[i]).verdict matches Verdict::Mismatch {
                        expected: e2,
                        actual: a2,
                    }
                    &&& texts(e2@) == texts(e@)
                    &&& texts(a2@) == texts(a@)
                    &&& verdicts[i].key@ == key@
                    &&& forall|j: int| 0 <= j < i ==> (#[trigger] verdicts[j]).verdict is Match
                };
            assert forall|k: (Seq<u8>, Seq<u8>)| #[trigger]
                group_present(expected, k) implies group_present(actual, k) by {
                assert(listed(verdicts, k));
                let j = choose|j: int| 0 <= j < verdicts.len() && (#[trigger] verdicts[j]).key@ == k;
                assert(!(verdicts[j].verdict is MissingFromActual));
            }
            assert forall|k: (Seq<u8>, Seq<u8>)|
                #[trigger] group_present(expected, k) && key_lt(k, key@) implies reproduces(
                expected,
                actual,
                k,
            ) by {
                let j = lemma_earlier_key_listed_earlier(expected, actual, verdicts, i, k);
                assert(verdicts[j].verdict is Match);
            }
        },
        Err(_) => {},
    }
}

/// Checks the engine's entries against the baseline's: a pass, or the failure
/// to report for the fixture.
pub fn judge(expected: &Vec<BaselineEntry>, actual: &Vec<ActualEntry>) -> (r: Result<
    (),
    HarnessError,
>)
    ensures
        judged(baseline_rows(expected@), actual_rows(actual@), r),
{
    let verdicts = compare(expected, actual);
    let r = fixture_outcome(&verdicts);
    proof {
        lemma_outcome_of_comparison(baseline_rows(expected@), actual_rows(actual@), verdicts@, r);
    }
    r
}

/// An engine result that reproduces every group of the baseline passes.
pub proof fn law_reproduced_baseline_passes(
    expected: Seq<ChartRow>,
    actual: Seq<ChartRow>,
    r: Result<(), HarnessError>,
)
    requires
        judged(expected, actual, r),
        forall|k: (Seq<u8>, Seq<u8>)| #[trigger]
            group_present(expected, k) ==> reproduces(expected, actual, k),
    ensures
        r is Ok,
{
}

/// Where the engine has every group of the baseline and the hashes of some
/// group differ, the check fails with a mismatch that holds the baseline's
/// hashes and the engine's for the group it names.
pub proof fn law_difference_is_mismatch(
    expected: Seq<ChartRow>,
    actual: Seq<ChartRow>,
    r: Result<(), HarnessError>,
    differing: (Seq<u8>, Seq<u8>),
)
    requires
        judged(expected, actual, r),
        forall|k: (Seq<u8>, Seq<u8>)| #[trigger]
            group_present(expected, k) ==> group_present(actual, k),
        group_present(expected, differing),
        group_hashes(expected, differing) != group_hashes(actual, differing),
    ensures
        r matches Err(HarnessError::Mismatch { key, expected: e, actual: a }) && texts(e@)
            == group_hashes(expected, key@) && texts(a@) == group_hashes(actual, key@),
{
}

/// Where the baseline has a group that the engine lacks, the check fails
/// with a missing chart, never with a mismatch.
pub proof fn law_absent_group_is_missing_chart(
    expected: Seq<ChartRow>,
    actual: Seq<ChartRow>,
    r: Result<(), HarnessError>,
    absent: (Seq<u8>, Seq<u8>),
)
    requires
        judged(expected, actual, r),
        group_present(expected, absent),
        !group_present(actual, absent),
    ensures
        r matches Err(HarnessError::MissingChart { key }) && group_present(expected, key@)
            && !group_present(actual, key@),
{
}

/// The rows whose step type is in scope.
pub open spec fn in_scope_rows(rows: Seq<ChartRow>) -> Seq<ChartRow> {
    rows.filter(|row: ChartRow| in_scope(row.step_type))
}

/// Rows out of scope add nothing to any group.
pub proof fn lemma_groups_of_in_scope_rows(rows: Seq<ChartRow>, key: (Seq<u8>, Seq<u8>))
    ensures
        group_hashes(in_scope_rows(rows), key) == group_hashes(rows, key),
        group_present(in_scope_rows(rows), key) == group_present(rows, key),
    decreases rows.len(),
{
    reveal(Seq::filter);
    if rows.len() > 0 {
        let n = rows.len() - 1;
        let init = rows.drop_last();
        let last = rows.last();
        lemma_groups_of_in_scope_rows(init, key);
        assert(rows.take(n + 1) =~= rows);
        assert(rows.take(n) =~= init);
        lemma_group_hashes_step(rows, key, n);
        if in_scope(last.step_type) {
            let kept = in_scope_rows(init).push(last);
            assert(in_scope_rows(rows) == kept);
            let m = kept.len() - 1;
            assert(kept.take(m + 1) =~= kept);
            assert(kept.take(m) =~= in_scope_rows(init));
            lemma_group_hashes_step(kept, key, m);
        } else {
            assert(in_scope_rows(rows) == in_scope_rows(init));
        }
    } else {
        assert(in_scope_rows(rows) =~= rows);
    }
}

/// Entries out of scope never influence the comparison: inputs that agree on
/// their in-scope rows have the same verdicts and the same outcome.
pub proof fn law_out_of_scope_ignored(
    expected: Seq<ChartRow>,
    actual: Seq<ChartRow>,
    other_expected: Seq<ChartRow>,
    other_actual: Seq<ChartRow>,
    verdicts: Seq<GroupVerdict>,
    r: Result<(), HarnessError>,
)
    requires
        in_scope_rows(expected) == in_scope_rows(other_expected),
        in_scope_rows(actual) == in_scope_rows(other_actual),
    ensures
        compared(expected, actual, verdicts) ==> compared(other_expected, other_actual, verdicts),
        judged(expected, actual, r) ==> judged(other_expected, other_actual, r),
{
    assert forall|k: (Seq<u8>, Seq<u8>)|
        group_present(expected, k) == group_present(other_expected, k) && group_present(
            actual,
            k,
        ) == group_present(other_actual, k) && group_hashes(expected, k) == group_hashes(
            other_expected,
            k,
        ) && #[trigger] group_hashes(actual, k) == group_hashes(other_actual, k) by {
        lemma_groups_of_in_scope_rows(expected, k);
        lemma_groups_of_in_scope_rows(other_expected, k);
        lemma_groups_of_in_scope_rows(actual, k);
        lemma_groups_of_in_scope_rows(other_actual, k);
    }
    if compared(expected, actual, verdicts) {
        assert forall|i: int| 0 <= i < verdicts.len() implies verdict_of(
            (#[trigger] verdicts[i]).verdict,
            other_expected,
            other_actual,
            verdicts[i].key@,
        ) by {
            let k = verdicts[i].key@;
            assert(group_hashes(actual, k) == group_hashes(other_actual, k));
            assert(verdict_of(verdicts[i].verdict, expected, actual, k));
        }
        assert forall|i: int| 0 <= i < verdicts.len() implies group_present(
            other_expected,
            (#[trigger] verdicts[i]).key@,
        ) by {
            let k = verdicts[i].key@;
            assert(group_hashes(actual, k) == group_hashes(other_actual, k));
        }
        assert forall|k: (Seq<u8>, Seq<u8>)| #[trigger]
            group_present(other_expected, k) implies listed(verdicts, k) by {
            assert(group_hashes(actual, k) == group_hashes(other_actual, k));
            assert(group_present(expected, k));
        }
    }
    if judged(expected, actual, r) {
        lemma_judged_by_groups(expected, actual, other_expected, other_actual, r);
    }
}

/// The outcome depends on the rows only through the groups they form.
pub proof fn lemma_judged_by_groups(
    expected: Seq<ChartRow>,
    actual: Seq<ChartRow>,
    other_expected: Seq<ChartRow>,
    other_actual: Seq<ChartRow>,
    r: Result<(), HarnessError>,
)
    requires
        judged(expected, actual, r),
        forall|k: (Seq<u8>, Seq<u8>)|
            group_present(expected, k) == group_present(other_expected, k) && group_present(
                actual,
                k,
            ) == group_present(other_actual, k) && group_hashes(expected, k) == group_hashes(
                other_expected,
                k,
            ) && #[trigger] group_hashes(actual, k) == group_hashes(other_actual, k),
    ensures
        judged(other_expected, other_actual, r),
{
    assert forall|k: (Seq<u8>, Seq<u8>)|
        #![trigger group_present(other_expected, k)]
        #![trigger group_present(other_actual, k)]
        #![trigger group_hashes(other_expected, k)]
        #![trigger group_present(expected, k)]
        group_present(expected, k) == group_present(other_expected, k) && group_present(
            actual,
            k,
        ) == group_present(other_actual, k) && group_hashes(expected, k) == group_hashes(
            other_expected,
            k,
        ) && group_hashes(actual, k) == group_hashes(other_actual, k) by {
        assert(group_hashes(actual, k) == group_hashes(other_actual, k));
    }
}

/// The row of a baseline entry.
pub open spec fn baseline_row(entry: BaselineEntry) -> ChartRow {
    ChartRow { step_type: entry.step_type@, difficulty: entry.difficulty@, hash: entry.hash@ }
}

/// The meters of the baseline's entries under `key`, in the baseline's order.
pub open spec fn group_meters(entries: Seq<BaselineEntry>, key: (Seq<u8>, Seq<u8>)) -> Seq<
    Option<u32>,
> {
    entries.filter(|e: BaselineEntry| belongs(baseline_row(e), key)).map_values(
        |e: BaselineEntry| e.meter,
    )
}

/// The meters of the baseline's entries under `key`, in the baseline's order.
pub fn expected_meters(expected: &Vec<BaselineEntry>, key: &ChartGroupKey) -> (r: Vec<Option<u32>>)
    ensures
        r@ == group_meters(expected@, key@),
{
    let mut out: Vec<Option<u32>> = Vec::new();
    let mut i: usize = 0;
    proof {
        reveal(Seq::filter);
        assert(out@ =~= group_meters(expected@.take(0), key@));
    }
    while i < expected.len()
        invariant
            0 <= i <= expected.len(),
            out@ == group_meters(expected@.take(i as int), key@),
        decreases expected.len() - i,
    {
        let e = &expected[i];
        proof {
            reveal(Seq::filter);
            let head = expected@.take(i + 1);
            assert(head.drop_last() =~= expected@.take(i as int));
            assert(head.last() == expected@[i as int]);
        }
        if entry_belongs(e.step_type.as_slice(), e.difficulty.as_slice(), key) {
            out.push(e.meter);
        }
        assert(out@ =~= group_meters(expected@.take(i + 1), key@));
        i += 1;
    }
    assert(expected@.take(i as int) =~= expected@);
    out
}

/// One position of a chart group, as it is shown.
#[derive(Debug, Clone)]
pub struct ChartLine {
    /// The baseline's meter at this position, or the position counted from one.
    pub label: u64,
    /// The baseline's hash at this position, if it has one.
    pub expected: Option<Vec<u8>>,
    /// The engine's hash at this position, if it has one.
    pub actual: Option<Vec<u8>>,
    /// Whether both sides have a hash here, and the same.
    pub ok: bool,
}

/// The label of position `i`.
pub open spec fn label_at(meters: Seq<Option<u32>>, i: int) -> int {
    if i < meters.len() && meters[i] is Some {
        meters[i]->0 as int
    } else {
        i + 1
    }
}

/// Whether `line` shows position `i` of a group with these meters and hashes.
pub open spec fn line_shows(
    line: ChartLine,
    meters: Seq<Option<u32>>,
    expected: Seq<Seq<u8>>,
    actual: Seq<Seq<u8>>,
    i: int,
) -> bool {
    &&& line.label == label_at(meters, i)
    &&& line.expected is Some <==> i < expected.len()
    &&& line.expected matches Some(h) ==> h@ == expected[i]
    &&& line.actual is Some <==> i < actual.len()
    &&& line.actual matches Some(h) ==> h@ == actual[i]
    &&& line.ok <==> (i < expected.len() && i < actual.len() && expected[i] == actual[i])
}

/// The lines of one chart group: one for each position up to the longer of
/// the two hash lists. A position that only one side has is not ok, so every
/// line is ok exactly when the two lists are equal.
pub fn chart_lines(
    meters: &Vec<Option<u32>>,
    expected: &Vec<Vec<u8>>,
    actual: &Vec<Vec<u8>>,
) -> (r: Vec<ChartLine>)
    ensures
        r@.len() == if expected@.len() >= actual@.len() {
            expected@.len()
        } else {
            actual@.len()
        },
        forall|i: int|
            0 <= i < r@.len() ==> line_shows(
                #[trigger] r@[i],
                meters@,
                texts(expected@),
                texts(actual@),
                i,
            ),
        (forall|i: int| 0 <= i < r@.len() ==> (#[trigger] r@[i]).ok) <==> texts(expected@) == texts(
            actual@,
        ),
{
    let count: usize = if expected.len() >= actual.len() {
        expected.len()
    } else {
        actual.len()
    };
    let mut out: Vec<ChartLine> = Vec::new();
    let mut i: usize = 0;
    while i < count
        invariant
            0 <= i <= count,
            count == if expected@.len() >= actual@.len() {
                expected@.len()
            } else {
                actual@.len()
            },
            out@.len() == i,
            forall|j: int|
                0 <= j < i ==> line_shows(
                    #[trigger] out@[j],
                    meters@,
                    texts(expected@),
                    texts(actual@),
                    j,
                ),
        decreases count - i,
    {
        let label: u64 = if i < meters.len() {
            match meters[i] {
                Some(m) => m as u64,
                None => (i + 1) as u64,
            }
        } else {
            (i + 1) as u64
        };
        let want: Option<Vec<u8>> = if i < expected.len() {
            Some(copy_bytes(expected[i].as_slice()))
        } else {
            None
        };
        let got: Option<Vec<u8>> = if i < actual.len() {
            Some(copy_bytes(actual[i].as_slice()))
        } else {
            None
        };
        let ok = i < expected.len() && i < actual.len() && bytes_eq(
            expected[i].as_slice(),
            actual[i].as_slice(),
        );
        out.push(ChartLine { label, expected: want, actual: got, ok });
        i += 1;
    }
    proof {
        let e = texts(expected@);
        let a = texts(actual@);
        if forall|i: int| 0 <= i < out@.len() ==> (#[trigger] out@[i]).ok {
            if count > 0 {
                assert(out@[count - 1].ok);
                assert(line_shows(out@[count - 1], meters@, e, a, count - 1));
            }
            assert(e.len() == a.len());
            assert forall|j: int| 0 <= j < e.len() implies e[j] == a[j] by {
                assert(out@[j].ok);
                assert(line_shows(out@[j], meters@, e, a, j));
            }
            assert(e =~= a);
        }
    }
    out
}

/// Whether two verdicts say the same: the same kind, and for a mismatch the
/// same two lists of hashes.
pub open spec fn same_verdict(a: Verdict, b: Verdict) -> bool {
    match (a, b) {
        (Verdict::Match, Verdict::Match) => true,
        (Verdict::MissingFromActual, Verdict::MissingFromActual) => true,
        (
            Verdict::Mismatch { expected: e1, actual: a1 },
            Verdict::Mismatch { expected: e2, actual: a2 },
        ) => texts(e1@) == texts(e2@) && texts(a1@) == texts(a2@),
        _ => false,
    }
}

/// Whether the keys of `verdicts` are strictly ascending.
pub open spec fn keys_ascending(verdicts: Seq<GroupVerdict>) -> bool {
    forall|i: int, j: int|
        0 <= i < j < verdicts.len() ==> key_lt(
            (#[trigger] verdicts[i]).key@,
            (#[trigger] verdicts[j]).key@,
        )
}

/// In two ascending lists of which the second holds every key of the first,
/// a key of the first stands in the second no earlier than in the first.
pub proof fn lemma_key_stands_no_earlier(a: Seq<GroupVerdict>, b: Seq<GroupVerdict>, i: int) -> (j:
    int)
    requires
        keys_ascending(a),
        keys_ascending(b),
        forall|t: int| 0 <= t < a.len() ==> listed(b, (#[trigger] a[t]).key@),
        0 <= i < a.len(),
    ensures
        i <= j < b.len(),
        b[j].key@ == a[i].key@,
    decreases i,
{
    assert(listed(b, a[i].key@));
    let j = choose|j: int| 0 <= j < b.len() && (#[trigger] b[j]).key@ == a[i].key@;
    if i > 0 {
        let before = lemma_key_stands_no_earlier(a, b, i - 1);
        assert(key_lt(a[i - 1].key@, a[i].key@));
        lemma_key_lt_asymmetric(b[before].key@, b[j].key@);
        if j < before {
            assert(key_lt(b[j].key@, b[before].key@));
        }
    }
    j
}

/// The comparison is a function of its inputs: two lists of verdicts that
/// both are the comparison of `expected` with `actual` have the same keys in
/// the same order, each with the same verdict. So a second run on unchanged
/// inputs gives what the first gave.
pub proof fn law_comparison_unique(
    expected: Seq<ChartRow>,
    actual: Seq<ChartRow>,
    first: Seq<GroupVerdict>,
    second: Seq<GroupVerdict>,
)
    requires
        compared(expected, actual, first),
        compared(expected, actual, second),
    ensures
        first.len() == second.len(),
        forall|i: int|
            0 <= i < first.len() ==> (#[trigger] first[i]).key@ == second[i].key@ && same_verdict(
                first[i].verdict,
                second[i].verdict,
            ),
{
    assert forall|t: int| 0 <= t < first.len() implies listed(second, (#[trigger] first[t]).key@) by {
        assert(group_present(expected, first[t].key@));
    }
    assert forall|t: int| 0 <= t < second.len() implies listed(first, (#[trigger] second[t]).key@) by {
        assert(group_present(expected, second[t].key@));
    }
    assert forall|i: int| 0 <= i < first.len() implies i < second.len() && (#[trigger] first[i]).key@
        == second[i].key@ by {
        let j = lemma_key_stands_no_earlier(first, second, i);
        let back = lemma_key_stands_no_earlier(second, first, j);
        if back != i {
            if back < i {
                lemma_key_lt_asymmetric(first[back].key@, first[i].key@);
            } else {
                lemma_key_lt_asymmetric(first[i].key@, first[back].key@);
            }
        }
    }
    if first.len() < second.len() {
        let beyond = lemma_key_stands_no_earlier(second, first, first.len() as int);
        assert(beyond < first.len());
    }
    if second.len() < first.len() {
        let last = first.len() - 1;
        assert(first[last].key@ == second[last].key@);
        assert(last < second.len());
    }
    assert forall|i: int| 0 <= i < first.len() implies same_verdict(
        (#[trigger] first[i]).verdict,
        second[i].verdict,
    ) by {
        assert(first[i].key@ == second[i].key@);
        assert(verdict_of(first[i].verdict, expected, actual, first[i].key@));
        assert(verdict_of(second[i].verdict, expected, actual, second[i].key@));
    }
}

/// Two keys are equal, or one comes before the other.
pub proof fn lemma_key_lt_connected(a: (Seq<u8>, Seq<u8>), b: (Seq<u8>, Seq<u8>))
    ensures
        a == b || key_lt(a, b) || key_lt(b, a),
{
    lemma_lex_connected(a.0, b.0, 0);
    lemma_lex_connected(a.1, b.1, 0);
}

/// Whether two outcomes say the same: both a pass, or both the same kind of
/// failure for the same group, with the same hashes where they name any.
pub open spec fn same_outcome(a: Result<(), HarnessError>, b: Result<(), HarnessError>) -> bool {
    match (a, b) {
        (Ok(_), Ok(_)) => true,
        (Err(HarnessError::MissingChart { key: k1 }), Err(HarnessError::MissingChart { key: k2 })) => k1@
            == k2@,
        (
            Err(HarnessError::Mismatch { key: k1, expected: e1, actual: a1 }),
            Err(HarnessError::Mismatch { key: k2, expected: e2, actual: a2 }),
        ) => k1@ == k2@ && texts(e1@) == texts(e2@) && texts(a1@) == texts(a2@),
        _ => false,
    }
}

/// The outcome of a check is a function of its inputs: a second check of
/// unchanged entries gives what the first gave.
pub proof fn law_outcome_unique(
    expected: Seq<ChartRow>,
    actual: Seq<ChartRow>,
    first: Result<(), HarnessError>,
    second: Result<(), HarnessError>,
)
    requires
        judged(expected, actual, first),
        judged(expected, actual, second),
    ensures
        same_outcome(first, second),
{
    match (first, second) {
        (Err(HarnessError::MissingChart { key: k1 }), Err(HarnessError::MissingChart { key: k2 })) => {
            lemma_key_lt_connected(k1@, k2@);
        },
        (
            Err(HarnessError::Mismatch { key: k1, expected: e1, actual: a1 }),
            Err(HarnessError::Mismatch { key: k2, expected: e2, actual: a2 }),
        ) => {
            lemma_key_lt_connected(k1@, k2@);
        },
        _ => {},
    }
}

} // verus!
