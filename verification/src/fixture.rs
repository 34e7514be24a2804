//! Fixture discovery: which of the files found under a fixture root are
//! fixtures, under which name, and in which order they are checked.
//!
//! A file is a fixture when its name ends in the compressed marker `.zst`
//! and, with the marker taken off, in `.sm` or `.ssc` in any letter case.

use vstd::prelude::*;
use crate::baseline::{join_path, joined};
use crate::error::texts;
use crate::text::{
    ascii_bytes, bytes_eq, common_prefix, copy_bytes, fold_ascii, folded, lemma_lex_connected,
    lemma_lex_le_transitive, lemma_order_exclusive, lex_le, lex_lt, lex_order, literal_bytes, Order,
};

verus! {

broadcast use vstd::seq_lib::group_to_multiset_ensures;

/// `i` is the last place at or after `lo` where `s` holds `b`.
pub open spec fn last_at(s: Seq<u8>, b: u8, lo: int, i: int) -> bool {
    &&& lo <= i < s.len()
    &&& s[i] == b
    &&& forall|j: int| i < j < s.len() ==> s[j] != b
}

/// Whether `s` holds `b` at or after `lo`.
pub open spec fn holds_from(s: Seq<u8>, b: u8, lo: int) -> bool {
    exists|i: int| last_at(s, b, lo, i)
}

/// The last place at or after `lo` where `s` holds `b`, if there is one.
pub open spec fn last_index(s: Seq<u8>, b: u8, lo: int) -> int {
    choose|i: int| last_at(s, b, lo, i)
}

/// The last component of a path: what follows its last `/`.
pub open spec fn file_name(path: Seq<u8>) -> Seq<u8> {
    if holds_from(path, 47, 0) {
        path.skip(last_index(path, 47, 0) + 1)
    } else {
        path
    }
}

/// The extension of a file name: what follows its last `.`, unless the name
/// has no `.` but at its start.
pub open spec fn extension(name: Seq<u8>) -> Option<Seq<u8>> {
    if holds_from(name, 46, 1) {
        Some(name.skip(last_index(name, 46, 1) + 1))
    } else {
        None
    }
}

/// A file name without its extension and the `.` before it.
pub open spec fn stem(name: Seq<u8>) -> Seq<u8> {
    if holds_from(name, 46, 1) {
        name.take(last_index(name, 46, 1))
    } else {
        name
    }
}

/// Whether a folded inner extension names a fixture format.
pub open spec fn is_format(inner: Seq<u8>) -> bool {
    inner == ascii_bytes("sm"@) || inner == ascii_bytes("ssc"@)
}

/// The format hint of a path: the inner extension in lower case where the
/// path is that of a fixture, `None` for any other path.
pub open spec fn format_hint_of(path: Seq<u8>) -> Option<Seq<u8>> {
    let name = file_name(path);
    if extension(name) == Some(ascii_bytes("zst"@)) {
        match extension(stem(name)) {
            Some(inner) => if is_format(folded(inner)) {
                Some(folded(inner))
            } else {
                None
            },
            None => None,
        }
    } else {
        None
    }
}

/// One discovered input.
#[derive(Debug, Clone)]
pub struct Fixture {
    /// The path relative to the fixture root: the fixture's identifier.
    pub display_name: Vec<u8>,
    /// Where the compressed archive lies.
    pub storage_path: Vec<u8>,
    /// The inner extension in lower case.
    pub format_hint: Vec<u8>,
}

/// Whether `f` is the fixture that `root` holds under `f`'s name.
pub open spec fn is_fixture_of(root: Seq<u8>, f: Fixture) -> bool {
    &&& format_hint_of(f.display_name@) == Some(f.format_hint@)
    &&& f.storage_path@ == joined(root, f.display_name@)
}

/// The names of a list of fixtures.
pub open spec fn names(fixtures: Seq<Fixture>) -> Seq<Seq<u8>> {
    Seq::new(fixtures.len(), |i: int| fixtures[i].display_name@)
}

/// The paths among `found` that are paths of fixtures.
pub open spec fn eligible(found: Seq<Seq<u8>>) -> Seq<Seq<u8>> {
    found.filter(|path: Seq<u8>| format_hint_of(path) is Some)
}

/// Whether a list of names is in ascending lexicographic order.
pub open spec fn sorted(list: Seq<Seq<u8>>) -> bool {
    forall|i: int, j: int| 0 <= i < j < list.len() ==> lex_le(#[trigger] list[i], #[trigger] list[j])
}

/// Finds the last place at or after `lo` where `s` holds `b`.
pub fn find_last(s: &[u8], b: u8, lo: usize) -> (r: Option<usize>)
    ensures
        match r {
            Some(i) => last_at(s@, b, lo as int, i as int) && i == last_index(s@, b, lo as int),
            None => !holds_from(s@, b, lo as int),
        },
{
    let mut i: usize = s.len();
    while i > lo
        invariant
            i <= s.len(),
            forall|j: int| i <= j < s.len() ==> s@[j] != b,
        decreases i,
    {
        i -= 1;
        if s[i] == b {
            assert(last_at(s@, b, lo as int, i as int));
            return Some(i);
        }
    }
    None
}

/// The bytes of `s` from `from` up to `to`.
pub fn slice_of(s: &[u8], from: usize, to: usize) -> (r: Vec<u8>)
    requires
        from <= to <= s@.len(),
    ensures
        r@ == s@.subrange(from as int, to as int),
{
    let mut r: Vec<u8> = Vec::new();
    let mut i: usize = from;
    while i < to
        invariant
            from <= i <= to,
            to <= s@.len(),
            r@ == s@.subrange(from as int, i as int),
        decreases to - i,
    {
        r.push(s[i]);
        assert(r@ =~= s@.subrange(from as int, i + 1));
        i += 1;
    }
    r
}

/// Splits a file name into its stem and its extension.
pub fn split_extension(name: &[u8]) -> (r: Option<(Vec<u8>, Vec<u8>)>)
    ensures
        match r {
            Some((st, ext)) => extension(name@) == Some(ext@) && stem(name@) == st@,
            None => extension(name@) is None,
        },
{
    match find_last(name, 46, 1) {
        Some(dot) => {
            let end: usize = name.len();
            let st = slice_of(name, 0, dot);
            let ext = slice_of(name, dot + 1, end);
            assert(st@ =~= name@.take(dot as int));
            assert(ext@ =~= name@.skip(dot + 1));
            Some((st, ext))
        },
        None => None,
    }
}

/// The format hint of a path, or `None` where the path is not that of a fixture.
pub fn format_hint(path: &[u8]) -> (r: Option<Vec<u8>>)
    ensures
        match r {
            Some(hint) => format_hint_of(path@) == Some(hint@),
            None => format_hint_of(path@) is None,
        },
{
    proof {
        reveal_strlit("zst");
        reveal_strlit("sm");
        reveal_strlit("ssc");
    }
    let name = match find_last(path, 47, 0) {
        Some(slash) => {
            let end: usize = path.len();
            let name = slice_of(path, slash + 1, end);
            assert(name@ =~= path@.skip(slash + 1));
            name
        },
        None => copy_bytes(path),
    };
    assert(name@ == file_name(path@));
    let (st, ext) = match split_extension(name.as_slice()) {
        Some(parts) => parts,
        None => {
            return None;
        },
    };
    let marker = literal_bytes("zst");
    if !bytes_eq(ext.as_slice(), marker.as_slice()) {
        return None;
    }
    let inner = match split_extension(st.as_slice()) {
        Some(parts) => parts.1,
        None => {
            return None;
        },
    };
    let hint = fold_ascii(inner.as_slice());
    let sm = literal_bytes("sm");
    let ssc = literal_bytes("ssc");
    if bytes_eq(hint.as_slice(), sm.as_slice()) || bytes_eq(hint.as_slice(), ssc.as_slice()) {
        Some(hint)
    } else {
        None
    }
}

/// The fixture at `relative` under `root`, where that path is a fixture's.
pub fn classify(root: &[u8], relative: &[u8]) -> (r: Option<Fixture>)
    ensures
        r is Some <==> format_hint_of(relative@) is Some,
        r matches Some(f) ==> f.display_name@ == relative@ && is_fixture_of(root@, f),
{
    match format_hint(relative) {
        Some(hint) => Some(
            Fixture {
                display_name: copy_bytes(relative),
                storage_path: join_path(root, relative),
                format_hint: hint,
            },
        ),
        None => None,
    }
}

/// Puts a fixture into a list sorted by name, after the fixtures whose names
/// do not come after its own.
pub fn insert_sorted(list: &mut Vec<Fixture>, fixture: Fixture)
    requires
        sorted(names(old(list)@)),
    ensures
        sorted(names(final(list)@)),
        exists|p: int| 0 <= p <= old(list)@.len() && final(list)@ == old(list)@.insert(p, fixture),
{
    let ghost before = list@;
    let mut p: usize = 0;
    while p < list.len() && lex_order(
        list[p].display_name.as_slice(),
        fixture.display_name.as_slice(),
    ) != Order::After
        invariant
            0 <= p <= list.len(),
            list@ == before,
            forall|i: int| 0 <= i < p ==> lex_le((#[trigger] list@[i]).display_name@, fixture.display_name@),
        decreases list.len() - p,
    {
        p += 1;
    }
    let ghost name = fixture.display_name@;
    list.insert(p, fixture);
    proof {
        let after = names(list@);
        let was = names(before);
        assert forall|i: int, j: int| 0 <= i < j < after.len() implies lex_le(
            #[trigger] after[i],
            #[trigger] after[j],
        ) by {
            if j < p {
                assert(after[i] == was[i] && after[j] == was[j]);
            } else if j == p {
                assert(list@[i] == before[i]);
                assert(lex_le(before[i].display_name@, name));
            } else if i == p {
                assert(after[j] == was[j - 1]);
                assert(lex_lt(name, was[p as int]));
                if j - 1 > p {
                    assert(lex_le(was[p as int], was[j - 1]));
                }
                lemma_lex_le_transitive(name, was[p as int], was[j - 1]);
            } else if i < p {
                assert(after[i] == was[i] && after[j] == was[j - 1]);
            } else {
                assert(after[i] == was[i - 1] && after[j] == was[j - 1]);
            }
        }
        assert(list@ == before.insert(p as int, fixture));
    }
}

/// Discovers the fixtures among the files found under `root`, each given by
/// its path relative to `root`: every eligible file once for each time it was
/// found, sorted by name, in whatever order the files were found.
pub fn discover(root: &[u8], found: &Vec<Vec<u8>>) -> (r: Vec<Fixture>)
    ensures
        sorted(names(r@)),
        forall|i: int| 0 <= i < r@.len() ==> is_fixture_of(root@, #[trigger] r@[i]),
        names(r@).to_multiset() == eligible(texts(found@)).to_multiset(),
{
    let ghost paths = texts(found@);
    let mut out: Vec<Fixture> = Vec::new();
    let mut i: usize = 0;
    proof {
        reveal(Seq::filter);
        assert(names(out@) =~= eligible(paths.take(0)));
    }
    while i < found.len()
        invariant
            0 <= i <= found.len(),
            paths == texts(found@),
            sorted(names(out@)),
            forall|t: int| 0 <= t < out@.len() ==> is_fixture_of(root@, #[trigger] out@[t]),
            names(out@).to_multiset() == eligible(paths.take(i as int)).to_multiset(),
        decreases found.len() - i,
    {
        proof {
            reveal(Seq::filter);
            let head = paths.take(i + 1);
            assert(head.drop_last() =~= paths.take(i as int));
            assert(head.last() == found@[i as int]@);
        }
        match classify(root, found[i].as_slice()) {
            Some(fixture) => {
                let ghost before = out@;
                insert_sorted(&mut out, fixture);
                proof {
                    let p = choose|p: int| 0 <= p <= before.len() && out@ == before.insert(p, fixture);
                    assert(names(out@) =~= names(before).insert(p, fixture.display_name@));
                }
            },
            None => {},
        }
        i += 1;
    }
    assert(paths.take(i as int) =~= paths);
    out
}

/// Filtering keeps of each value as many copies as the list holds, or none.
pub proof fn lemma_filter_count(list: Seq<Seq<u8>>, pred: spec_fn(Seq<u8>) -> bool, x: Seq<u8>)
    ensures
        list.filter(pred).to_multiset().count(x) == if pred(x) {
            list.to_multiset().count(x)
        } else {
            0
        },
    decreases list.len(),
{
    reveal(Seq::filter);
    if list.len() == 0 {
        assert(list.filter(pred) =~= Seq::<Seq<u8>>::empty());
    } else {
        let init = list.drop_last();
        let last = list.last();
        lemma_filter_count(init, pred, x);
        assert(list =~= init.push(last));
        assert(list.to_multiset() =~= init.to_multiset().insert(last));
        if pred(last) {
            assert(list.filter(pred).to_multiset() =~= init.filter(pred).to_multiset().insert(last));
        }
    }
}

/// Lexicographic order with equality is a total order.
pub proof fn lemma_lex_le_total()
    ensures
        vstd::relations::total_ordering(|a: Seq<u8>, b: Seq<u8>| lex_le(a, b)),
{
    let leq = |a: Seq<u8>, b: Seq<u8>| lex_le(a, b);
    assert forall|a: Seq<u8>, b: Seq<u8>| #[trigger] leq(a, b) && #[trigger] leq(b, a) implies a
        == b by {
        if a != b {
            let k = choose|k: int| #[trigger]
                common_prefix(a, b, k) && (if k == a.len() {
                    k < b.len()
                } else {
                    k < b.len() && a[k] < b[k]
                });
            lemma_order_exclusive(a, b, k);
        }
    }
    assert forall|a: Seq<u8>, b: Seq<u8>, c: Seq<u8>| #[trigger] leq(a, b) && #[trigger] leq(
        b,
        c,
    ) implies leq(a, c) by {
        lemma_lex_le_transitive(a, b, c);
    }
    assert forall|a: Seq<u8>, b: Seq<u8>| #[trigger] leq(a, b) || #[trigger] leq(b, a) by {
        lemma_lex_connected(a, b, 0);
    }
}

/// Discovery does not depend on the order in which the files were found:
/// two lists of found paths that hold the same paths, each as often, give the
/// same fixtures in the same order.
pub proof fn law_discovery_order_independent(
    root: Seq<u8>,
    found: Seq<Seq<u8>>,
    other_found: Seq<Seq<u8>>,
    fixtures: Seq<Fixture>,
    other_fixtures: Seq<Fixture>,
)
    requires
        found.to_multiset() == other_found.to_multiset(),
        sorted(names(fixtures)),
        sorted(names(other_fixtures)),
        forall|i: int| 0 <= i < fixtures.len() ==> is_fixture_of(root, #[trigger] fixtures[i]),
        forall|i: int|
            0 <= i < other_fixtures.len() ==> is_fixture_of(root, #[trigger] other_fixtures[i]),
        names(fixtures).to_multiset() == eligible(found).to_multiset(),
        names(other_fixtures).to_multiset() == eligible(other_found).to_multiset(),
    ensures
        fixtures.len() == other_fixtures.len(),
        forall|i: int|
            0 <= i < fixtures.len() ==> {
                &&& (#[trigger] fixtures[i]).display_name@ == other_fixtures[i].display_name@
                &&& fixtures[i].storage_path@ == other_fixtures[i].storage_path@
                &&& fixtures[i].format_hint@ == other_fixtures[i].format_hint@
            },
{
    let pred = |path: Seq<u8>| format_hint_of(path) is Some;
    let leq = |a: Seq<u8>, b: Seq<u8>| lex_le(a, b);
    assert forall|x: Seq<u8>|
        eligible(found).to_multiset().count(x) == eligible(other_found).to_multiset().count(
            x,
        ) by {
        lemma_filter_count(found, pred, x);
        lemma_filter_count(other_found, pred, x);
    }
    assert(eligible(found).to_multiset() =~= eligible(other_found).to_multiset());
    lemma_lex_le_total();
    assert(vstd::relations::sorted_by(names(fixtures), leq));
    assert(vstd::relations::sorted_by(names(other_fixtures), leq));
    vstd::seq_lib::lemma_sorted_unique(names(fixtures), names(other_fixtures), leq);
    assert(names(fixtures).len() == names(other_fixtures).len());
    assert forall|i: int| 0 <= i < fixtures.len() implies {
        &&& (#[trigger] fixtures[i]).display_name@ == other_fixtures[i].display_name@
        &&& fixtures[i].storage_path@ == other_fixtures[i].storage_path@
        &&& fixtures[i].format_hint@ == other_fixtures[i].format_hint@
    } by {
        assert(names(fixtures)[i] == names(other_fixtures)[i]);
        assert(is_fixture_of(root, other_fixtures[i]));
    }
}

} // verus!
