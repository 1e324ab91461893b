use crate::package::{
    compare_tokens, kind_of, lemma_lex_cmp_equal, lemma_lex_cmp_less_trans,
    lemma_lex_cmp_reverse, lex_cmp, package_of, render_package, render_size, DiffType, Package,
    PackageView, SizeDelta,
};
use crate::parser::{strings_view, DiffPackage, DiffRoot};
use crate::versioning::{paint, shade_params, styled, Shade};
use std::cmp::Ordering;
use vstd::prelude::*;

verus! {

/// A package together with its name.
#[derive(Debug)]
pub struct PackageExtra {
    pub name: String,
    pub base_package: Package,
}

/// The aggregated differences: either one flat list, in the order in which
/// packages came, or three lists by change kind, each sorted by name with
/// no name twice.
#[derive(Debug)]
pub struct PackageListDiff {
    pub all: Vec<PackageExtra>,
    pub added: Vec<PackageExtra>,
    pub removed: Vec<PackageExtra>,
    pub changed: Vec<PackageExtra>,
    pub size_delta: SizeDelta,
    pub longest_name: usize,
    /// Whether to list the packages in one list by size change.
    pub by_size: bool,
}

/// A raw record as values: name, size change, versions before and after.
pub type RecordView = (Seq<char>, i64, Seq<Seq<char>>, Seq<Seq<char>>);

pub open spec fn record_views(ps: Seq<(String, DiffPackage)>) -> Seq<RecordView> {
    ps.map_values(
        |p: (String, DiffPackage)|
            (
                p.0@,
                p.1.size_delta,
                strings_view(p.1.versions_before@),
                strings_view(p.1.versions_after@),
            ),
    )
}

pub open spec fn entries_view(es: Seq<PackageExtra>) -> Seq<(Seq<char>, PackageView)> {
    es.map_values(|e: PackageExtra| (e.name@, e.base_package@))
}

/// Names in strictly increasing order, hence each name at most once.
pub open spec fn sorted_by_name(es: Seq<(Seq<char>, PackageView)>) -> bool {
    forall|i: int, j: int|
        0 <= i < j < es.len() ==> lex_cmp(#[trigger] es[i].0, #[trigger] es[j].0)
            == Ordering::Less
}

/// A position of name `k` in `es`, where there is one.
pub open spec fn index_of(es: Seq<(Seq<char>, PackageView)>, k: Seq<char>) -> int {
    choose|i: int| 0 <= i < es.len() && es[i].0 == k
}

/// The name-to-package mapping that a list of named packages holds.
pub open spec fn as_map(es: Seq<(Seq<char>, PackageView)>) -> Map<Seq<char>, PackageView> {
    Map::new(
        |k: Seq<char>| exists|i: int| 0 <= i < es.len() && es[i].0 == k,
        |k: Seq<char>| es[index_of(es, k)].1,
    )
}

/// What an aggregate of packages holds, as mathematical values.
pub struct ReportView {
    pub all: Seq<(Seq<char>, PackageView)>,
    pub added: Map<Seq<char>, PackageView>,
    pub removed: Map<Seq<char>, PackageView>,
    pub changed: Map<Seq<char>, PackageView>,
    pub total: int,
    pub longest: nat,
    pub by_size: bool,
}

impl View for PackageListDiff {
    type V = ReportView;

    open spec fn view(&self) -> ReportView {
        ReportView {
            all: entries_view(self.all@),
            added: as_map(entries_view(self.added@)),
            removed: as_map(entries_view(self.removed@)),
            changed: as_map(entries_view(self.changed@)),
            total: self.size_delta.0 as int,
            longest: self.longest_name as nat,
            by_size: self.by_size,
        }
    }
}

/// The aggregate after one more raw record. A record with no versions on
/// either side changes nothing.
pub open spec fn step(v: ReportView, r: RecordView) -> ReportView {
    let p = package_of(r.1, r.2, r.3);
    if p.diff_type == DiffType::Unknown {
        v
    } else {
        ReportView {
            all: if v.by_size {
                v.all.push((r.0, p))
            } else {
                v.all
            },
            added: if !v.by_size && p.diff_type == DiffType::Added {
                v.added.insert(r.0, p)
            } else {
                v.added
            },
            removed: if !v.by_size && p.diff_type == DiffType::Removed {
                v.removed.insert(r.0, p)
            } else {
                v.removed
            },
            changed: if !v.by_size && p.diff_type == DiffType::Changed {
                v.changed.insert(r.0, p)
            } else {
                v.changed
            },
            total: v.total + r.1,
            longest: if r.0.len() > v.longest {
                r.0.len()
            } else {
                v.longest
            },
            by_size: v.by_size,
        }
    }
}

/// The aggregate after the raw records `rs`, taken in order.
pub open spec fn fold_records(v: ReportView, rs: Seq<RecordView>) -> ReportView
    decreases rs.len(),
{
    if rs.len() == 0 {
        v
    } else {
        step(fold_records(v, rs.drop_last()), rs.last())
    }
}

/// The aggregate of a fresh diff in the given mode.
pub open spec fn empty_report(by_size: bool) -> ReportView {
    ReportView {
        all: Seq::empty(),
        added: Map::empty(),
        removed: Map::empty(),
        changed: Map::empty(),
        total: 0,
        longest: 0,
        by_size,
    }
}

proof fn lemma_sorted_unique(es: Seq<(Seq<char>, PackageView)>, i: int, j: int)
    requires
        sorted_by_name(es),
        0 <= i < es.len(),
        0 <= j < es.len(),
        es[i].0 == es[j].0,
    ensures
        i == j,
{
    if i != j {
        lemma_lex_cmp_equal(es[i].0, es[j].0);
        if i < j {
            assert(lex_cmp(es[i].0, es[j].0) == Ordering::Less);
        } else {
            assert(lex_cmp(es[j].0, es[i].0) == Ordering::Less);
        }
    }
}

proof fn lemma_as_map_at(es: Seq<(Seq<char>, PackageView)>, i: int)
    requires
        sorted_by_name(es),
        0 <= i < es.len(),
    ensures
        as_map(es).contains_key(es[i].0),
        as_map(es)[es[i].0] == es[i].1,
{
    let k = es[i].0;
    assert(exists|j: int| 0 <= j < es.len() && es[j].0 == k);
    let j = index_of(es, k);
    lemma_sorted_unique(es, i, j);
}

proof fn lemma_as_map_update(es: Seq<(Seq<char>, PackageView)>, i: int, x: (Seq<char>, PackageView))
    requires
        sorted_by_name(es),
        0 <= i < es.len(),
        es[i].0 == x.0,
    ensures
        sorted_by_name(es.update(i, x)),
        as_map(es.update(i, x)) == as_map(es).insert(x.0, x.1),
{
    let es2 = es.update(i, x);
    assert(sorted_by_name(es2)) by {
        assert forall|a: int, b: int| 0 <= a < b < es2.len() implies lex_cmp(
            #[trigger] es2[a].0,
            #[trigger] es2[b].0,
        ) == Ordering::Less by {
            assert(es2[a].0 == es[a].0);
            assert(es2[b].0 == es[b].0);
        }
    }
    assert forall|k: Seq<char>| #[trigger] as_map(es2).contains_key(k) == as_map(es).insert(x.0, x.1).contains_key(k) by {
        if as_map(es).contains_key(k) {
            let j = choose|j: int| 0 <= j < es.len() && es[j].0 == k;
            assert(es2[j].0 == k);
        }
        if as_map(es2).contains_key(k) {
            let j = choose|j: int| 0 <= j < es2.len() && es2[j].0 == k;
            assert(es[j].0 == k);
        }
        if k == x.0 {
            assert(es2[i].0 == k);
        }
    }
    assert forall|k: Seq<char>| #[trigger] as_map(es2).contains_key(k) implies as_map(es2)[k] == as_map(es).insert(x.0, x.1)[k] by {
        let j = index_of(es2, k);
        lemma_as_map_at(es2, j);
        if j != i {
            assert(es2[j] == es[j]);
            lemma_as_map_at(es, j);
            if k == x.0 {
                lemma_sorted_unique(es, i, j);
            }
        }
    }
    assert(as_map(es2) =~= as_map(es).insert(x.0, x.1));
}

proof fn lemma_as_map_insert(es: Seq<(Seq<char>, PackageView)>, p: int, x: (Seq<char>, PackageView))
    requires
        sorted_by_name(es),
        0 <= p <= es.len(),
        forall|a: int| 0 <= a < p ==> lex_cmp(#[trigger] es[a].0, x.0) == Ordering::Less,
        forall|b: int| p <= b < es.len() ==> lex_cmp(x.0, #[trigger] es[b].0) == Ordering::Less,
    ensures
        sorted_by_name(es.insert(p, x)),
        as_map(es.insert(p, x)) == as_map(es).insert(x.0, x.1),
{
    let es2 = es.insert(p, x);
    assert(sorted_by_name(es2)) by {
        assert forall|a: int, b: int| 0 <= a < b < es2.len() implies lex_cmp(
            #[trigger] es2[a].0,
            #[trigger] es2[b].0,
        ) == Ordering::Less by {
            if a < p && b < p {
                assert(es2[a] == es[a] && es2[b] == es[b]);
            } else if a < p && b == p {
                assert(es2[a] == es[a]);
            } else if a < p {
                assert(es2[a] == es[a] && es2[b] == es[b - 1]);
                lemma_lex_cmp_less_trans(es[a].0, x.0, es[b - 1].0);
            } else if a == p {
                assert(es2[b] == es[b - 1]);
            } else {
                assert(es2[a] == es[a - 1] && es2[b] == es[b - 1]);
            }
        }
    }
    assert forall|k: Seq<char>| #[trigger] as_map(es2).contains_key(k) == as_map(es).insert(x.0, x.1).contains_key(k) by {
        if as_map(es).contains_key(k) {
            let j = choose|j: int| 0 <= j < es.len() && es[j].0 == k;
            if j < p {
                assert(es2[j].0 == k);
            } else {
                assert(es2[j + 1].0 == k);
            }
        }
        if as_map(es2).contains_key(k) {
            let j = choose|j: int| 0 <= j < es2.len() && es2[j].0 == k;
            if j < p {
                assert(es[j].0 == k);
            } else if j > p {
                assert(es[j - 1].0 == k);
            }
        }
        if k == x.0 {
            assert(es2[p].0 == k);
        }
    }
    assert forall|k: Seq<char>| #[trigger] as_map(es2).contains_key(k) implies as_map(es2)[k] == as_map(es).insert(x.0, x.1)[k] by {
        let j = index_of(es2, k);
        lemma_as_map_at(es2, j);
        if j < p {
            assert(es2[j] == es[j]);
            lemma_as_map_at(es, j);
            lemma_lex_cmp_equal(es[j].0, x.0);
        } else if j > p {
            assert(es2[j] == es[j - 1]);
            lemma_as_map_at(es, j - 1);
            lemma_lex_cmp_equal(x.0, es[j - 1].0);
        }
    }
    assert(as_map(es2) =~= as_map(es).insert(x.0, x.1));
}

/// Puts a named package into a list sorted by name, replacing the package
/// of the same name if there is one.
fn upsert(entries: &mut Vec<PackageExtra>, name: String, package: Package)
    requires
        sorted_by_name(entries_view(old(entries)@)),
    ensures
        sorted_by_name(entries_view(final(entries)@)),
        as_map(entries_view(final(entries)@)) == as_map(entries_view(old(entries)@)).insert(
            name@,
            package@,
        ),
{
    let ghost es = entries_view(entries@);
    let ghost x = (name@, package@);
    let mut i: usize = 0;
    let mut found = false;
    let mut done = false;
    while !done && i < entries.len()
        invariant
            i <= entries@.len(),
            es == entries_view(entries@),
            x == (name@, package@),
            forall|a: int| 0 <= a < i ==> lex_cmp(#[trigger] es[a].0, x.0) == Ordering::Less,
            done ==> i < es.len() && lex_cmp(es[i as int].0, x.0) != Ordering::Less,
            found ==> done && lex_cmp(es[i as int].0, x.0) == Ordering::Equal,
            !found && done ==> lex_cmp(es[i as int].0, x.0) == Ordering::Greater,
        decreases entries.len() - i, (if done { 0int } else { 1int }),
    {
        let o = compare_tokens(entries[i].name.as_str(), name.as_str());
        proof {
            assert(es[i as int].0 == entries@[i as int].name@);
        }
        match o {
            Ordering::Less => {
                i = i + 1;
            },
            Ordering::Equal => {
                found = true;
                done = true;
            },
            Ordering::Greater => {
                done = true;
            },
        }
    }
    let entry = PackageExtra { name, base_package: package };
    if found {
        proof {
            lemma_lex_cmp_equal(es[i as int].0, x.0);
            lemma_as_map_update(es, i as int, x);
            assert(entries_view(entries@.update(i as int, entry)) =~= es.update(i as int, x));
        }
        entries.set(i, entry);
    } else {
        proof {
            if i < es.len() {
                lemma_lex_cmp_reverse(es[i as int].0, x.0);
            }
            assert forall|b: int| i <= b < es.len() implies lex_cmp(x.0, #[trigger] es[b].0)
                == Ordering::Less by {
                if b > i {
                    lemma_lex_cmp_less_trans(x.0, es[i as int].0, es[b].0);
                }
            }
            lemma_as_map_insert(es, i as int, x);
            assert(entries_view(entries@.insert(i as int, entry)) =~= es.insert(i as int, x));
        }
        entries.insert(i, entry);
    }
}

/// The names of the records that have no versions on either side, in order.
pub open spec fn unknown_names(rs: Seq<RecordView>) -> Seq<Seq<char>>
    decreases rs.len(),
{
    if rs.len() == 0 {
        Seq::empty()
    } else {
        let p = unknown_names(rs.drop_last());
        if kind_of(rs.last().2.len(), rs.last().3.len()) == DiffType::Unknown {
            p.push(rs.last().0)
        } else {
            p
        }
    }
}

/// Every running total of the records `rs`, from `v` on, fits in an `i64`.
pub open spec fn totals_fit(v: ReportView, rs: Seq<RecordView>) -> bool {
    forall|k: int|
        0 <= k <= rs.len() ==> i64::MIN <= #[trigger] fold_records(v, rs.take(k)).total
            <= i64::MAX
}

impl PackageListDiff {
    /// Each of the three kind lists is sorted by name.
    pub open spec fn wf(&self) -> bool {
        &&& sorted_by_name(entries_view(self.added@))
        &&& sorted_by_name(entries_view(self.removed@))
        &&& sorted_by_name(entries_view(self.changed@))
    }

    pub fn new() -> (r: Self)
        ensures
            r.wf(),
            r@ == empty_report(false),
    {
        let r = PackageListDiff {
            all: Vec::new(),
            added: Vec::new(),
            removed: Vec::new(),
            changed: Vec::new(),
            size_delta: SizeDelta(0),
            longest_name: 0,
            by_size: false,
        };
        proof {
            assert(entries_view(r.all@) =~= Seq::empty());
            assert(as_map(entries_view(r.added@)) =~= Map::empty());
            assert(as_map(entries_view(r.removed@)) =~= Map::empty());
            assert(as_map(entries_view(r.changed@)) =~= Map::empty());
        }
        r
    }

    /// Classifies every record of `diff_root` and adds it to the aggregate.
    /// A record with no versions on either side is left out; the names of
    /// those records are returned, so that the caller can report them.
    pub fn from_diff_root(&mut self, diff_root: DiffRoot) -> (skipped: Vec<String>)
        requires
            old(self).wf(),
            totals_fit(old(self)@, record_views(diff_root.packages@)),
        ensures
            final(self).wf(),
            final(self)@ == fold_records(old(self)@, record_views(diff_root.packages@)),
            strings_view(skipped@) == unknown_names(record_views(diff_root.packages@)),
    {
        let ghost rs = record_views(diff_root.packages@);
        let ghost start = self@;
        let mut skipped: Vec<String> = Vec::new();
        let mut i: usize = 0;
        proof {
            assert(rs.take(0) =~= Seq::<RecordView>::empty());
            assert(strings_view(skipped@) =~= Seq::<Seq<char>>::empty());
        }
        while i < diff_root.packages.len()
            invariant
                i <= rs.len(),
                rs == record_views(diff_root.packages@),
                start == old(self)@,
                totals_fit(start, rs),
                self.wf(),
                self@ == fold_records(start, rs.take(i as int)),
                strings_view(skipped@) == unknown_names(rs.take(i as int)),
            decreases diff_root.packages.len() - i,
        {
            let name = &diff_root.packages[i].0;
            let package = Package::from_record(&diff_root.packages[i].1);
            let ghost prev = self@;
            let ghost r = rs[i as int];
            proof {
                assert(rs.take(i + 1).drop_last() =~= rs.take(i as int));
                assert(rs.take(i + 1).last() == r);
                assert(r.0 == name@);
            }
            if let DiffType::Unknown = package.diff_type {
                let copy = name.clone();
                proof {
                    assert(strings_view(skipped@.push(copy)) =~= strings_view(skipped@).push(name@));
                }
                skipped.push(copy);
            } else {
                proof {
                    assert(fold_records(start, rs.take(i + 1)).total == prev.total + r.1);
                    assert(i64::MIN <= fold_records(start, rs.take(i + 1)).total <= i64::MAX);
                }
                self.size_delta = SizeDelta(self.size_delta.0 + package.size_delta.0);
                let len = name.as_str().unicode_len();
                if len > self.longest_name {
                    self.longest_name = len;
                }
                let entry = PackageExtra { name: name.clone(), base_package: package };
                if self.by_size {
                    proof {
                        assert(entries_view(self.all@.push(entry)) =~= entries_view(self.all@).push((r.0, entry.base_package@)));
                    }
                    self.all.push(entry);
                } else {
                    let PackageExtra { name, base_package } = entry;
                    match base_package.diff_type {
                        DiffType::Added => upsert(&mut self.added, name, base_package),
                        DiffType::Removed => upsert(&mut self.removed, name, base_package),
                        _ => upsert(&mut self.changed, name, base_package),
                    }
                }
            }
            i = i + 1;
        }
        proof {
            assert(rs.take(i as int) =~= rs);
        }
        skipped
    }
}

/// The sum of the size changes of the records that are not left out.
pub open spec fn included_total(rs: Seq<RecordView>) -> int
    decreases rs.len(),
{
    if rs.len() == 0 {
        0
    } else if kind_of(rs.last().2.len(), rs.last().3.len()) == DiffType::Unknown {
        included_total(rs.drop_last())
    } else {
        included_total(rs.drop_last()) + rs.last().1
    }
}

/// The longest name among the records that are not left out.
pub open spec fn included_longest(rs: Seq<RecordView>) -> nat
    decreases rs.len(),
{
    if rs.len() == 0 {
        0
    } else if kind_of(rs.last().2.len(), rs.last().3.len()) == DiffType::Unknown {
        included_longest(rs.drop_last())
    } else if rs.last().0.len() > included_longest(rs.drop_last()) {
        rs.last().0.len()
    } else {
        included_longest(rs.drop_last())
    }
}

/// In either mode, a fresh aggregate of the records `rs` has as its total
/// the exact sum of the size changes of the records that are not left out,
/// and as its longest name the longest of their names.
pub proof fn lemma_total_independent_of_mode(rs: Seq<RecordView>, by_size: bool)
    ensures
        fold_records(empty_report(by_size), rs).total == included_total(rs),
        fold_records(empty_report(by_size), rs).longest == included_longest(rs),
        fold_records(empty_report(true), rs).total == fold_records(empty_report(false), rs).total,
        fold_records(empty_report(true), rs).longest == fold_records(
            empty_report(false),
            rs,
        ).longest,
    decreases rs.len(),
{
    if rs.len() > 0 {
        lemma_total_independent_of_mode(rs.drop_last(), by_size);
        lemma_total_independent_of_mode(rs.drop_last(), true);
        lemma_total_independent_of_mode(rs.drop_last(), false);
    }
}

/// A record with no versions on either side, wherever it stands among the
/// records, changes nothing in the aggregate: not the packages of either
/// mode, not the total and not the longest name.
pub proof fn lemma_unknown_record_ignored(
    v: ReportView,
    front: Seq<RecordView>,
    r: RecordView,
    back: Seq<RecordView>,
)
    requires
        r.2.len() == 0,
        r.3.len() == 0,
    ensures
        fold_records(v, front.push(r) + back) == fold_records(v, front + back),
    decreases back.len(),
{
    if back.len() == 0 {
        assert(front.push(r) + back =~= front.push(r));
        assert(front + back =~= front);
        assert(front.push(r).drop_last() =~= front);
    } else {
        lemma_unknown_record_ignored(v, front, r, back.drop_last());
        assert((front.push(r) + back).drop_last() =~= front.push(r) + back.drop_last());
        assert((front + back).drop_last() =~= front + back.drop_last());
        assert((front.push(r) + back).last() == back.last());
        assert((front + back).last() == back.last());
    }
}

pub open spec fn delta_at(es: Seq<(Seq<char>, PackageView)>, i: int) -> i64 {
    es[i].1.size_delta
}

/// `ord` lists each position of `es` once, by size change from the largest
/// down; positions with equal size changes keep their order.
pub open spec fn is_size_order(es: Seq<(Seq<char>, PackageView)>, ord: Seq<usize>) -> bool {
    &&& ord.len() == es.len()
    &&& ord.no_duplicates()
    &&& forall|k: int| 0 <= k < ord.len() ==> #[trigger] ord[k] < es.len()
    &&& forall|a: int, b: int|
        0 <= a < b < ord.len() ==> delta_at(es, #[trigger] ord[a] as int) > delta_at(
            es,
            #[trigger] ord[b] as int,
        ) || (delta_at(es, ord[a] as int) == delta_at(es, ord[b] as int) && ord[a] < ord[b])
}

proof fn lemma_size_order_covers(es: Seq<(Seq<char>, PackageView)>, ord: Seq<usize>, x: int)
    requires
        is_size_order(es, ord),
        0 <= x < es.len(),
    ensures
        exists|k: int| 0 <= k < ord.len() && ord[k] as int == x,
{
    let ints = ord.map_values(|u: usize| u as int);
    assert(ints.no_duplicates()) by {
        assert forall|a: int, b: int| 0 <= a < ints.len() && 0 <= b < ints.len() && a != b implies ints[a] != ints[b] by {
            assert(ord[a] != ord[b]);
        }
    }
    ints.unique_seq_to_set();
    let range = vstd::set_lib::set_int_range(0, es.len() as int);
    vstd::set_lib::lemma_int_range(0, es.len() as int);
    assert(ints.to_set().subset_of(range)) by {
        assert forall|v: int| ints.to_set().contains(v) implies range.contains(v) by {
            let k = choose|k: int| 0 <= k < ints.len() && ints[k] == v;
            assert(ord[k] < es.len());
        }
    }
    vstd::set_lib::lemma_subset_equality(ints.to_set(), range);
    assert(range.contains(x));
    assert(ints.to_set().contains(x));
    let k = choose|k: int| 0 <= k < ints.len() && ints[k] == x;
    assert(ord[k] as int == x);
}

/// There is one order of the flat list by size change: the positions of
/// equal size changes keep their order, so no two orders meet
/// `is_size_order`.
pub proof fn lemma_size_order_unique(es: Seq<(Seq<char>, PackageView)>, o1: Seq<usize>, o2: Seq<usize>)
    requires
        is_size_order(es, o1),
        is_size_order(es, o2),
    ensures
        o1 == o2,
{
    assert forall|k: int| 0 <= k < o1.len() implies o1[k] == o2[k] by {
        lemma_size_order_prefix(es, o1, o2, k);
    }
    assert(o1 =~= o2);
}

proof fn lemma_size_order_prefix(es: Seq<(Seq<char>, PackageView)>, o1: Seq<usize>, o2: Seq<usize>, k: int)
    requires
        is_size_order(es, o1),
        is_size_order(es, o2),
        0 <= k < o1.len(),
    ensures
        forall|i: int| 0 <= i <= k ==> o1[i] == o2[i],
    decreases k,
{
    if k > 0 {
        lemma_size_order_prefix(es, o1, o2, k - 1);
    }
    let x = o1[k];
    let y = o2[k];
    lemma_size_order_covers(es, o2, x as int);
    lemma_size_order_covers(es, o1, y as int);
    let j = choose|j: int| 0 <= j < o2.len() && o2[j] as int == x as int;
    let jj = choose|j: int| 0 <= j < o1.len() && o1[j] as int == y as int;
    if j < k {
        assert(o1[j] == o2[j]);
    }
    if jj < k {
        assert(o1[jj] == o2[jj]);
    }
    if j > k && jj > k {
        assert(o2[k] == y && o2[j] == x);
        assert(o1[k] == x && o1[jj] == y);
    }
}

impl PackageListDiff {
    /// The positions of the flat list, ordered by size change from the
    /// largest down, equal size changes in the order in which they came.
    pub fn size_order(&self) -> (ord: Vec<usize>)
        ensures
            is_size_order(entries_view(self.all@), ord@),
            forall|a: int|
                0 <= a < ord@.len() - 1 ==> delta_at(entries_view(self.all@), ord@[a] as int)
                    >= delta_at(entries_view(self.all@), #[trigger] ord@[a + 1] as int),
    {
        let ghost es = entries_view(self.all@);
        let mut ord: Vec<usize> = Vec::new();
        let mut i: usize = 0;
        while i < self.all.len()
            invariant
                i <= es.len(),
                es == entries_view(self.all@),
                ord@.len() == i,
                ord@.no_duplicates(),
                forall|k: int| 0 <= k < ord@.len() ==> #[trigger] ord@[k] < i,
                forall|a: int, b: int|
                    0 <= a < b < ord@.len() ==> delta_at(es, #[trigger] ord@[a] as int) > delta_at(
                        es,
                        #[trigger] ord@[b] as int,
                    ) || (delta_at(es, ord@[a] as int) == delta_at(es, ord@[b] as int) && ord@[a]
                        < ord@[b]),
            decreases self.all.len() - i,
        {
            let d = self.all[i].base_package.size_delta.0;
            proof {
                assert(d == delta_at(es, i as int));
            }
            let mut p: usize = 0;
            while p < ord.len() && self.all[ord[p]].base_package.size_delta.0 >= d
                invariant
                    p <= ord@.len(),
                    i < es.len(),
                    es == entries_view(self.all@),
                    d == delta_at(es, i as int),
                    forall|k: int| 0 <= k < ord@.len() ==> #[trigger] ord@[k] < i,
                    forall|a: int| 0 <= a < p ==> delta_at(es, #[trigger] ord@[a] as int) >= d,
                decreases ord.len() - p,
            {
                proof {
                    assert(delta_at(es, ord@[p as int] as int) == self.all@[ord@[p as int] as int].base_package.size_delta.0);
                }
                p = p + 1;
            }
            proof {
                if p < ord@.len() {
                    assert(delta_at(es, ord@[p as int] as int) == self.all@[ord@[p as int] as int].base_package.size_delta.0);
                    assert(delta_at(es, ord@[p as int] as int) < d);
                }
                let old_ord = ord@;
                let new_ord = old_ord.insert(p as int, i);
                assert forall|k: int| 0 <= k < new_ord.len() implies #[trigger] new_ord[k] < i + 1 by {
                    if k < p {
                        assert(new_ord[k] == old_ord[k]);
                    } else if k > p {
                        assert(new_ord[k] == old_ord[k - 1]);
                    }
                }
                assert(new_ord.no_duplicates()) by {
                    assert forall|a: int, b: int| 0 <= a < new_ord.len() && 0 <= b < new_ord.len() && a != b implies new_ord[a] != new_ord[b] by {
                        if a < p {
                            assert(new_ord[a] == old_ord[a]);
                        } else if a > p {
                            assert(new_ord[a] == old_ord[a - 1]);
                        }
                        if b < p {
                            assert(new_ord[b] == old_ord[b]);
                        } else if b > p {
                            assert(new_ord[b] == old_ord[b - 1]);
                        }
                    }
                }
                assert forall|a: int, b: int| 0 <= a < b < new_ord.len() implies delta_at(es, #[trigger] new_ord[a] as int) > delta_at(
                        es,
                        #[trigger] new_ord[b] as int,
                    ) || (delta_at(es, new_ord[a] as int) == delta_at(es, new_ord[b] as int) && new_ord[a]
                        < new_ord[b]) by {
                    if a < p && b < p {
                        assert(new_ord[a] == old_ord[a] && new_ord[b] == old_ord[b]);
                    } else if a < p && b == p {
                        assert(new_ord[a] == old_ord[a] && new_ord[b] == i);
                        assert(old_ord[a] < i);
                    } else if a < p {
                        assert(new_ord[a] == old_ord[a] && new_ord[b] == old_ord[b - 1]);
                    } else if a == p {
                        assert(new_ord[a] == i && new_ord[b] == old_ord[b - 1]);
                        if b - 1 > p {
                            assert(delta_at(es, old_ord[p as int] as int) >= delta_at(es, old_ord[b - 1] as int));
                        }
                    } else {
                        assert(new_ord[a] == old_ord[a - 1] && new_ord[b] == old_ord[b - 1]);
                    }
                }
            }
            ord.insert(p, i);
            i = i + 1;
        }
        proof {
            assert forall|a: int|
                0 <= a < ord@.len() - 1 implies delta_at(es, ord@[a] as int)
                    >= delta_at(es, #[trigger] ord@[a + 1] as int) by {
                assert(a < a + 1);
            }
        }
        ord
    }
}

pub open spec fn spaces(n: nat) -> Seq<char> {
    Seq::new(n, |k: int| ' ')
}

/// `s` followed by spaces up to `width` characters; `s` itself if it is
/// that long already.
pub open spec fn pad(s: Seq<char>, width: nat) -> Seq<char> {
    if s.len() < width {
        s + spaces((width - s.len()) as nat)
    } else {
        s
    }
}

/// The style parameters of section titles: bold, underlined, light gray.
pub open spec fn title_params() -> Seq<char> {
    seq!['1', ';', '4', ';', '9', '7']
}

/// Relies on nu_ansi_term's `Style::paint` and the `Display` of the painted
/// string: bold, underline and the light gray foreground write `ESC[1;4;97m`,
/// then the text, then `ESC[0m`.
#[verifier::external_body]
fn paint_title(text: &str) -> (r: String)
    ensures
        r@ == styled(title_params(), text@),
{
    let style = nu_ansi_term::Style::new().underline().bold().fg(nu_ansi_term::Color::LightGray);
    format!("{}", style.paint(text))
}

/// The bytes that remain of `s`'s UTF-8 encoding once its ANSI escape
/// sequences are removed.
pub uninterp spec fn ansi_stripped(s: Seq<char>) -> Seq<u8>;

/// Relies on strip_ansi_escapes's `strip`: what remains depends on the text
/// alone.
#[verifier::external_body]
fn strip_escapes(s: &str) -> (r: Vec<u8>)
    ensures
        r@ == ansi_stripped(s@),
{
    strip_ansi_escapes::strip(s)
}

/// The number of columns that a package's versions take on screen.
pub open spec fn visible_width(p: PackageView) -> nat {
    ansi_stripped(render_package(p)).len()
}

/// One line of a kind section.
pub open spec fn kind_line(shade: Shade, marker: Seq<char>, width: nat, e: (Seq<char>, PackageView)) -> Seq<char> {
    seq!['['] + styled(shade_params(shade), marker) + seq![']', ' '] + pad(e.0, width)
        + render_package(e.1) + seq!['\n']
}

pub open spec fn kind_lines(shade: Shade, marker: Seq<char>, width: nat, es: Seq<(Seq<char>, PackageView)>) -> Seq<char>
    decreases es.len(),
{
    if es.len() == 0 {
        Seq::empty()
    } else {
        kind_lines(shade, marker, width, es.drop_last()) + kind_line(shade, marker, width, es.last())
    }
}

/// A kind section: nothing when there is no package of the kind, else its
/// title, a line per package, and an empty line.
pub open spec fn kind_section(
    title: Seq<char>,
    shade: Shade,
    marker: Seq<char>,
    width: nat,
    es: Seq<(Seq<char>, PackageView)>,
) -> Seq<char> {
    if es.len() == 0 {
        Seq::empty()
    } else {
        styled(title_params(), title) + seq!['\n'] + kind_lines(shade, marker, width, es) + seq!['\n']
    }
}

pub open spec fn no_differences() -> Seq<char> {
    seq!['N', 'o', ' ', 'd', 'i', 'f', 'f', 'e', 'r', 'e', 'n', 'c', 'e', 's', ' ', 'f', 'o', 'u', 'n', 'd', '.']
}

pub open spec fn total_line(total: i64) -> Seq<char> {
    seq!['s', 'i', 'z', 'e', ' ', 'd', 'i', 'f', 'f', ':', ' '] + render_size(total) + seq!['\n']
}

/// The widest visible width of the packages of `es`.
pub open spec fn max_visible(es: Seq<(Seq<char>, PackageView)>) -> nat
    decreases es.len(),
{
    if es.len() == 0 {
        0
    } else if visible_width(es.last().1) > max_visible(es.drop_last()) {
        visible_width(es.last().1)
    } else {
        max_visible(es.drop_last())
    }
}

/// The column that the size changes are aligned to, at most 120.
pub open spec fn versions_column(es: Seq<(Seq<char>, PackageView)>) -> nat {
    if max_visible(es) < 120 {
        max_visible(es)
    } else {
        120
    }
}

/// One line of the flat list.
pub open spec fn size_line(width: nat, column: nat, e: (Seq<char>, PackageView)) -> Seq<char> {
    let gap: nat = if visible_width(e.1) < column {
        (column - visible_width(e.1)) as nat
    } else {
        0
    };
    pad(e.0, width) + render_package(e.1) + spaces(gap) + seq![' ', ' '] + render_size(
        e.1.size_delta,
    ) + seq!['\n']
}

pub open spec fn size_lines(
    width: nat,
    column: nat,
    es: Seq<(Seq<char>, PackageView)>,
    ord: Seq<usize>,
) -> Seq<char>
    decreases ord.len(),
{
    if ord.len() == 0 {
        Seq::empty()
    } else {
        size_lines(width, column, es, ord.drop_last()) + size_line(width, column, es[ord.last() as int])
    }
}

/// Builds `count` spaces.
fn space_run(count: usize) -> (r: String)
    ensures
        r@ == spaces(count as nat),
{
    let mut out = String::new();
    let mut k: usize = 0;
    while k < count
        invariant
            k <= count,
            out@ == spaces(k as nat),
        decreases count - k,
    {
        proof {
            reveal_strlit(" ");
        }
        out.append(" ");
        proof {
            assert(out@ =~= spaces((k + 1) as nat));
        }
        k = k + 1;
    }
    out
}

/// A name padded to two columns past the longest name.
fn padded_name(name: &str, longest: usize) -> (r: String)
    ensures
        r@ == pad(name@, longest as nat + 2),
{
    let n = name.unicode_len();
    let fill: usize = if n <= longest {
        longest - n
    } else {
        0
    };
    let tail: usize = if n <= longest {
        2
    } else if n == longest + 1 {
        1
    } else {
        0
    };
    let run = space_run(fill);
    let run_tail = space_run(tail);
    let out = String::from_str(name).concat(run.as_str()).concat(run_tail.as_str());
    proof {
        if n >= longest + 2 {
            assert(out@ =~= name@);
        } else {
            assert(out@ =~= name@ + spaces((longest + 2 - n) as nat));
        }
    }
    out
}

/// Builds a kind section.
fn kind_section_text(
    title: &str,
    shade: Shade,
    marker: &str,
    longest: usize,
    entries: &Vec<PackageExtra>,
) -> (r: String)
    ensures
        r@ == kind_section(title@, shade, marker@, longest as nat + 2, entries_view(entries@)),
{
    let ghost es = entries_view(entries@);
    let ghost width = longest as nat + 2;
    if entries.len() == 0 {
        return String::new();
    }
    let mut lines = String::new();
    let mut i: usize = 0;
    proof {
        assert(es.subrange(0, 0) =~= Seq::<(Seq<char>, PackageView)>::empty());
        reveal_strlit("[");
        reveal_strlit("] ");
        reveal_strlit("\n");
    }
    while i < entries.len()
        invariant
            i <= es.len(),
            es == entries_view(entries@),
            width == longest as nat + 2,
            lines@ == kind_lines(shade, marker@, width, es.subrange(0, i as int)),
        decreases entries.len() - i,
    {
        let entry = &entries[i];
        let mark = paint(shade, marker);
        let name = padded_name(entry.name.as_str(), longest);
        let versions = entry.base_package.to_string();
        let ghost before = lines@;
        proof {
            reveal_strlit("[");
            reveal_strlit("] ");
            reveal_strlit("\n");
        }
        lines.append("[");
        lines.append(mark.as_str());
        lines.append("] ");
        lines.append(name.as_str());
        lines.append(versions.as_str());
        lines.append("\n");
        proof {
            assert(es.subrange(0, i + 1).drop_last() =~= es.subrange(0, i as int));
            assert(es.subrange(0, i + 1).last() == es[i as int]);
            assert(es[i as int] == (entry.name@, entry.base_package@));
            assert(lines@ =~= before + kind_line(shade, marker@, width, es[i as int]));
        }
        i = i + 1;
    }
    proof {
        assert(es.subrange(0, i as int) =~= es);
    }
    let title_text = paint_title(title);
    let out = title_text.concat("\n").concat(lines.as_str()).concat("\n");
    proof {
        assert(out@ =~= kind_section(title@, shade, marker@, width, es));
    }
    out
}

impl PackageListDiff {
    /// The three kind sections in their order: changed, added, removed.
    pub open spec fn category_text(&self) -> Seq<char> {
        kind_section(
            seq!['C', 'h', 'a', 'n', 'g', 'e', 'd'],
            Shade::Yellow,
            seq!['C'],
            self.longest_name as nat + 2,
            entries_view(self.changed@),
        ) + kind_section(
            seq!['A', 'd', 'd', 'e', 'd'],
            Shade::Green,
            seq!['A'],
            self.longest_name as nat + 2,
            entries_view(self.added@),
        ) + kind_section(
            seq!['R', 'e', 'm', 'o', 'v', 'e', 'd'],
            Shade::Red,
            seq!['R'],
            self.longest_name as nat + 2,
            entries_view(self.removed@),
        )
    }

    /// The flat list in the order `ord`, then an empty line.
    pub open spec fn size_text(&self, ord: Seq<usize>) -> Seq<char> {
        size_lines(
            self.longest_name as nat + 2,
            versions_column(entries_view(self.all@)),
            entries_view(self.all@),
            ord,
        ) + seq!['\n']
    }

    /// The packages by kind: changed, then added, then removed, each kind
    /// sorted by name.
    pub fn display_by_category(&self) -> (r: String)
        ensures
            r@ == self.category_text(),
    {
        proof {
            reveal_strlit("Changed");
            reveal_strlit("Added");
            reveal_strlit("Removed");
            reveal_strlit("C");
            reveal_strlit("A");
            reveal_strlit("R");
            assert("Changed"@ =~= seq!['C', 'h', 'a', 'n', 'g', 'e', 'd']);
            assert("Added"@ =~= seq!['A', 'd', 'd', 'e', 'd']);
            assert("Removed"@ =~= seq!['R', 'e', 'm', 'o', 'v', 'e', 'd']);
            assert("C"@ =~= seq!['C']);
            assert("A"@ =~= seq!['A']);
            assert("R"@ =~= seq!['R']);
        }
        let changed = kind_section_text("Changed", Shade::Yellow, "C", self.longest_name, &self.changed);
        let added = kind_section_text("Added", Shade::Green, "A", self.longest_name, &self.added);
        let removed = kind_section_text("Removed", Shade::Red, "R", self.longest_name, &self.removed);
        changed.concat(added.as_str()).concat(removed.as_str())
    }

    /// The flat list by size change, with the size changes aligned past the
    /// widest versions, up to column 120.
    pub fn display_by_size(&self) -> (r: String)
        ensures
            exists|ord: Seq<usize>| is_size_order(entries_view(self.all@), ord),
            forall|ord: Seq<usize>|
                is_size_order(entries_view(self.all@), ord) ==> r@ == self.size_text(ord),
    {
        let ghost es = entries_view(self.all@);
        let ord = self.size_order();
        let mut widest: usize = 0;
        let mut i: usize = 0;
        proof {
            assert(es.subrange(0, 0) =~= Seq::<(Seq<char>, PackageView)>::empty());
        }
        while i < self.all.len()
            invariant
                i <= es.len(),
                es == entries_view(self.all@),
                widest as nat == max_visible(es.subrange(0, i as int)),
            decreases self.all.len() - i,
        {
            let text = self.all[i].base_package.to_string();
            let visible = strip_escapes(text.as_str()).len();
            proof {
                assert(es.subrange(0, i + 1).drop_last() =~= es.subrange(0, i as int));
                assert(es.subrange(0, i + 1).last() == es[i as int]);
            }
            if visible > widest {
                widest = visible;
            }
            i = i + 1;
        }
        proof {
            assert(es.subrange(0, i as int) =~= es);
        }
        let column: usize = if widest < 120 {
            widest
        } else {
            120
        };
        let ghost width = self.longest_name as nat + 2;
        let mut lines = String::new();
        let mut k: usize = 0;
        proof {
            assert(ord@.subrange(0, 0) =~= Seq::<usize>::empty());
            reveal_strlit("  ");
            reveal_strlit("\n");
        }
        while k < ord.len()
            invariant
                k <= ord@.len(),
                es == entries_view(self.all@),
                is_size_order(es, ord@),
                column as nat == versions_column(es),
                width == self.longest_name as nat + 2,
                lines@ == size_lines(width, column as nat, es, ord@.subrange(0, k as int)),
            decreases ord.len() - k,
        {
            let j = ord[k];
            proof {
                assert(ord@[k as int] < es.len());
            }
            let entry = &self.all[j];
            let name = padded_name(entry.name.as_str(), self.longest_name);
            let versions = entry.base_package.to_string();
            let visible = strip_escapes(versions.as_str()).len();
            let gap: usize = if visible < column {
                column - visible
            } else {
                0
            };
            let run = space_run(gap);
            let size = entry.base_package.size_delta.to_string();
            let ghost before = lines@;
            proof {
                reveal_strlit("  ");
                reveal_strlit("\n");
            }
            lines.append(name.as_str());
            lines.append(versions.as_str());
            lines.append(run.as_str());
            lines.append("  ");
            lines.append(size.as_str());
            lines.append("\n");
            proof {
                assert(ord@.subrange(0, k + 1).drop_last() =~= ord@.subrange(0, k as int));
                assert(ord@.subrange(0, k + 1).last() == j);
                assert(es[j as int] == (entry.name@, entry.base_package@));
                assert(visible as nat == visible_width(es[j as int].1));
                assert(run@ == spaces(if visible_width(es[j as int].1) < column as nat {
                    (column as nat - visible_width(es[j as int].1)) as nat
                } else {
                    0
                }));
                assert(size@ == render_size(es[j as int].1.size_delta));
                assert(lines@ =~= before + size_line(width, column as nat, es[j as int]));
            }
            k = k + 1;
        }
        proof {
            assert(ord@.subrange(0, k as int) =~= ord@);
        }
        let ghost body = lines@;
        lines.append("\n");
        proof {
            assert(lines@ =~= body + seq!['\n']);
            assert(is_size_order(es, ord@) && lines@ == self.size_text(ord@));
            assert forall|o: Seq<usize>| is_size_order(es, o) implies lines@ == self.size_text(o) by {
                lemma_size_order_unique(es, o, ord@);
            }
        }
        lines
    }

    /// The whole report: the packages in the diff's mode, then the total
    /// size change; or only a notice when there is no package.
    pub fn to_string(&self) -> (r: String)
        ensures
            self.by_size && self.all@.len() == 0 ==> r@ == no_differences(),
            self.by_size && self.all@.len() > 0 ==> (exists|ord: Seq<usize>|
                is_size_order(entries_view(self.all@), ord)),
            self.by_size && self.all@.len() > 0 ==> forall|ord: Seq<usize>|
                is_size_order(entries_view(self.all@), ord) ==> r@ == self.size_text(ord)
                    + total_line(self.size_delta.0),
            !self.by_size && self.changed@.len() + self.added@.len() + self.removed@.len() == 0
                ==> r@ == no_differences(),
            !self.by_size && self.changed@.len() + self.added@.len() + self.removed@.len() > 0
                ==> r@ == self.category_text() + total_line(self.size_delta.0),
    {
        proof {
            reveal_strlit("No differences found.");
            reveal_strlit("size diff: ");
            reveal_strlit("\n");
        }
        let body = if self.by_size {
            if self.all.len() == 0 {
                return String::from_str("No differences found.");
            }
            self.display_by_size()
        } else {
            if self.changed.len() == 0 && self.added.len() == 0 && self.removed.len() == 0 {
                return String::from_str("No differences found.");
            }
            self.display_by_category()
        };
        let size = self.size_delta.to_string();
        body.concat("size diff: ").concat(size.as_str()).concat("\n")
    }
}

proof fn lemma_fold_total(v: ReportView, rs: Seq<RecordView>)
    ensures
        fold_records(v, rs).total == v.total + included_total(rs),
    decreases rs.len(),
{
    if rs.len() > 0 {
        lemma_fold_total(v, rs.drop_last());
    }
}

impl PackageListDiff {
    /// Whether every running total of adding the records of `diff_root`
    /// fits in an `i64`, which `from_diff_root` needs.
    pub fn totals_fit_for(&self, diff_root: &DiffRoot) -> (r: bool)
        ensures
            r == totals_fit(self@, record_views(diff_root.packages@)),
    {
        let ghost rs = record_views(diff_root.packages@);
        let mut sum: i64 = self.size_delta.0;
        let mut i: usize = 0;
        proof {
            lemma_fold_total(self@, rs.take(0));
            assert(rs.take(0) =~= Seq::<RecordView>::empty());
        }
        while i < diff_root.packages.len()
            invariant
                i <= rs.len(),
                rs == record_views(diff_root.packages@),
                sum as int == fold_records(self@, rs.take(i as int)).total,
                forall|k: int| 0 <= k <= i ==> i64::MIN <= #[trigger] fold_records(self@, rs.take(k)).total
                    <= i64::MAX,
            decreases diff_root.packages.len() - i,
        {
            let record = &diff_root.packages[i].1;
            let kind = DiffType::from_versions(
                record.versions_before.as_slice(),
                record.versions_after.as_slice(),
            );
            proof {
                assert(rs.take(i + 1).drop_last() =~= rs.take(i as int));
                assert(rs.take(i + 1).last() == rs[i as int]);
                lemma_fold_total(self@, rs.take(i + 1));
                lemma_fold_total(self@, rs.take(i as int));
            }
            if let DiffType::Unknown = kind {
            } else {
                let next: i128 = sum as i128 + record.size_delta as i128;
                if next < i64::MIN as i128 || next > i64::MAX as i128 {
                    return false;
                }
                sum = next as i64;
            }
            proof {
                assert forall|k: int| 0 <= k <= i + 1 implies i64::MIN <= #[trigger] fold_records(self@, rs.take(k)).total
                    <= i64::MAX by {
                    if k == i + 1 {
                        assert(sum as int == fold_records(self@, rs.take(k)).total);
                    }
                }
            }
            i = i + 1;
        }
        proof {
            assert(rs.take(i as int) =~= rs);
        }
        true
    }
}

} // verus!
