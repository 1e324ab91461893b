use crate::parser::{strings_view, DiffPackage};
use crate::versioning::{render_version_list, Version, VersionComponent, VersionList};
use std::cmp::Ordering;
use vstd::prelude::*;
use vstd::string::*;

verus! {

/// How a package changed between the two snapshots.
#[derive(Clone, Copy, Debug, PartialEq, Eq, Structural)]
pub enum DiffType {
    Added,
    Removed,
    Changed,
    Unknown,
}

/// A signed change of size in bytes.
#[derive(Clone, Copy, Debug)]
pub struct SizeDelta(pub i64);

/// A classified package with its highlighted versions.
#[derive(Debug)]
pub struct Package {
    pub size_delta: SizeDelta,
    pub diff_type: DiffType,
    pub versions_before: VersionList,
    pub versions_after: VersionList,
}

/// What a `Package` holds, as mathematical values.
pub struct PackageView {
    pub size_delta: i64,
    pub diff_type: DiffType,
    pub before: Seq<Seq<(Seq<char>, Ordering)>>,
    pub after: Seq<Seq<(Seq<char>, Ordering)>>,
}

impl View for Package {
    type V = PackageView;

    open spec fn view(&self) -> PackageView {
        PackageView {
            size_delta: self.size_delta.0,
            diff_type: self.diff_type,
            before: self.versions_before@,
            after: self.versions_after@,
        }
    }
}

/// The change kind given how many versions there are before and after.
pub open spec fn kind_of(n_before: nat, n_after: nat) -> DiffType {
    if n_before == 0 && n_after != 0 {
        DiffType::Added
    } else if n_before != 0 && n_after == 0 {
        DiffType::Removed
    } else if n_before != 0 && n_after != 0 {
        DiffType::Changed
    } else {
        DiffType::Unknown
    }
}

/// The dot-separated tokens of `s`; a string without dots is one token, and
/// the empty string is one empty token.
pub open spec fn split_dot(s: Seq<char>) -> Seq<Seq<char>>
    decreases s.len(),
{
    if s.len() == 0 {
        seq![Seq::empty()]
    } else {
        let p = split_dot(s.drop_last());
        if s.last() == '.' {
            p.push(Seq::empty())
        } else {
            p.update(p.len() - 1, p.last().push(s.last()))
        }
    }
}

pub proof fn lemma_split_dot_nonempty(s: Seq<char>)
    ensures
        split_dot(s).len() >= 1,
    decreases s.len(),
{
    if s.len() > 0 {
        lemma_split_dot_nonempty(s.drop_last());
    }
}

/// Lexicographic order of two strings by code point, which is the byte order
/// of their UTF-8 encodings.
pub open spec fn lex_cmp(a: Seq<char>, b: Seq<char>) -> Ordering
    decreases a.len(),
{
    if a.len() == 0 {
        if b.len() == 0 {
            Ordering::Equal
        } else {
            Ordering::Less
        }
    } else if b.len() == 0 {
        Ordering::Greater
    } else if (a[0] as int) < (b[0] as int) {
        Ordering::Less
    } else if (a[0] as int) > (b[0] as int) {
        Ordering::Greater
    } else {
        lex_cmp(a.drop_first(), b.drop_first())
    }
}

pub open spec fn reverse(o: Ordering) -> Ordering {
    match o {
        Ordering::Less => Ordering::Greater,
        Ordering::Greater => Ordering::Less,
        Ordering::Equal => Ordering::Equal,
    }
}

/// `ts` cut or padded with empty tokens to length `n`.
pub open spec fn pad_tokens(ts: Seq<Seq<char>>, n: nat) -> Seq<Seq<char>> {
    Seq::new(n, |k: int| if k < ts.len() { ts[k] } else { Seq::empty() })
}

/// The direction established at token `i` of two aligned token sequences:
/// the order of the first pair of tokens, up to `i`, that differ.
pub open spec fn established(b: Seq<Seq<char>>, a: Seq<Seq<char>>, i: int) -> Ordering
    decreases i + 1,
{
    if i < 0 {
        Ordering::Equal
    } else {
        let prev = established(b, a, i - 1);
        if prev == Ordering::Equal {
            lex_cmp(b[i], a[i])
        } else {
            prev
        }
    }
}

pub open spec fn max_nat(x: nat, y: nat) -> nat {
    if x >= y {
        x
    } else {
        y
    }
}

/// Every token of `s` with the same direction.
pub open spec fn uniform_line(s: Seq<char>, o: Ordering) -> Seq<(Seq<char>, Ordering)> {
    let ts = split_dot(s);
    Seq::new(ts.len(), |k: int| (ts[k], o))
}

/// The padded tokens of a before/after pair of version strings.
pub open spec fn padded_pair(b: Seq<char>, a: Seq<char>) -> (Seq<Seq<char>>, Seq<Seq<char>>) {
    let n = max_nat(split_dot(b).len(), split_dot(a).len());
    (pad_tokens(split_dot(b), n), pad_tokens(split_dot(a), n))
}

/// The highlighted before and after lines of a changed version pair.
pub open spec fn changed_line(b: Seq<char>, a: Seq<char>) -> (
    Seq<(Seq<char>, Ordering)>,
    Seq<(Seq<char>, Ordering)>,
) {
    let pb = padded_pair(b, a).0;
    let pa = padded_pair(b, a).1;
    (
        Seq::new(pb.len(), |k: int| (pb[k], established(pb, pa, k))),
        Seq::new(pa.len(), |k: int| (pa[k], reverse(established(pb, pa, k)))),
    )
}

/// The version list of one side of an added or removed package.
pub open spec fn uniform_list(vs: Seq<Seq<char>>, o: Ordering) -> Seq<
    Seq<(Seq<char>, Ordering)>,
> {
    Seq::new(vs.len(), |k: int| uniform_line(vs[k], o))
}

pub open spec fn min_nat(x: nat, y: nat) -> nat {
    if x <= y {
        x
    } else {
        y
    }
}

/// The before and after version lists of a changed package: the two lists
/// are paired by position up to the shorter one's length; the entries past
/// it, which have no counterpart, are shown whole on the lower side (before)
/// or the higher side (after).
pub open spec fn changed_lists(b: Seq<Seq<char>>, a: Seq<Seq<char>>) -> (
    Seq<Seq<(Seq<char>, Ordering)>>,
    Seq<Seq<(Seq<char>, Ordering)>>,
) {
    let n = min_nat(b.len(), a.len());
    (
        Seq::new(
            b.len(),
            |k: int|
                if k < n {
                    changed_line(b[k], a[k]).0
                } else {
                    uniform_line(b[k], Ordering::Less)
                },
        ),
        Seq::new(
            a.len(),
            |k: int|
                if k < n {
                    changed_line(b[k], a[k]).1
                } else {
                    uniform_line(a[k], Ordering::Greater)
                },
        ),
    )
}

/// The package that a raw record becomes.
pub open spec fn package_of(size: i64, b: Seq<Seq<char>>, a: Seq<Seq<char>>) -> PackageView {
    let kind = kind_of(b.len(), a.len());
    let lists = match kind {
        DiffType::Added => (Seq::empty(), uniform_list(a, Ordering::Greater)),
        DiffType::Removed => (uniform_list(b, Ordering::Less), Seq::empty()),
        DiffType::Changed => changed_lists(b, a),
        DiffType::Unknown => (Seq::empty(), Seq::empty()),
    };
    PackageView { size_delta: size, diff_type: kind, before: lists.0, after: lists.1 }
}

/// A package as it is displayed after its name.
pub open spec fn render_package(p: PackageView) -> Seq<char> {
    match p.diff_type {
        DiffType::Added => render_version_list(p.after),
        DiffType::Removed => render_version_list(p.before),
        DiffType::Changed => render_version_list(p.before) + seq![' ', '-', '>', ' ']
            + render_version_list(p.after),
        DiffType::Unknown => Seq::empty(),
    }
}

/// Human-readable text of a byte count in decimal units.
pub uninterp spec fn decimal_size(n: u64) -> Seq<char>;

/// Relies on humansize's `format_size` with the `DECIMAL` options: its text
/// depends on the number alone.
#[verifier::external_body]
fn format_decimal(n: u64) -> (r: String)
    ensures
        r@ == decimal_size(n),
{
    humansize::format_size(n, humansize::DECIMAL)
}

pub open spec fn magnitude(x: i64) -> u64 {
    if x >= 0 {
        x as u64
    } else {
        (-(x as int)) as u64
    }
}

/// A size change as it is displayed: its sign, `+` for zero too, then its
/// magnitude.
pub open spec fn render_size(x: i64) -> Seq<char> {
    (if x >= 0 {
        seq!['+']
    } else {
        seq!['-']
    }) + decimal_size(magnitude(x))
}

impl SizeDelta {
    pub fn to_string(&self) -> (r: String)
        ensures
            r@ == render_size(self.0),
    {
        let size: u64 = if self.0 >= 0 {
            self.0 as u64
        } else {
            (0i128 - self.0 as i128) as u64
        };
        let text = format_decimal(size);
        proof {
            reveal_strlit("+");
            reveal_strlit("-");
        }
        let sign = if self.0 >= 0 {
            String::from_str("+")
        } else {
            String::from_str("-")
        };
        sign.concat(text.as_str())
    }

    pub fn from(size: i64) -> (r: SizeDelta)
        ensures
            r.0 == size,
    {
        SizeDelta(size)
    }
}

impl DiffType {
    pub fn from_versions(before: &[String], after: &[String]) -> (r: DiffType)
        ensures
            r == kind_of(before@.len(), after@.len()),
    {
        match (before.len() == 0, after.len() == 0) {
            (true, false) => DiffType::Added,
            (false, true) => DiffType::Removed,
            (false, false) => DiffType::Changed,
            (true, true) => DiffType::Unknown,
        }
    }
}

/// Splits a version string into its dot-separated tokens.
pub fn split_version(s: &str) -> (r: Vec<String>)
    ensures
        strings_view(r@) == split_dot(s@),
{
    let n = s.unicode_len();
    let mut parts: Vec<String> = Vec::new();
    let mut start: usize = 0;
    let mut i: usize = 0;
    proof {
        assert(s@.subrange(0, 0) =~= Seq::<char>::empty());
        assert(strings_view(parts@).push(s@.subrange(0, 0)) =~= seq![Seq::<char>::empty()]);
    }
    while i < n
        invariant
            n == s@.len(),
            start <= i <= n,
            split_dot(s@.subrange(0, i as int)) == strings_view(parts@).push(
                s@.subrange(start as int, i as int),
            ),
        decreases n - i,
    {
        let c = s.get_char(i);
        proof {
            assert(s@.subrange(0, i + 1).drop_last() =~= s@.subrange(0, i as int));
            assert(s@.subrange(0, i + 1).last() == c);
        }
        if c == '.' {
            let token = String::from_str(s.substring_char(start, i));
            proof {
                assert(strings_view(parts@.push(token)) =~= strings_view(parts@).push(token@));
                assert(s@.subrange(i + 1, i + 1) =~= Seq::<char>::empty());
            }
            parts.push(token);
            start = i + 1;
        } else {
            proof {
                let p = strings_view(parts@).push(s@.subrange(start as int, i as int));
                assert(s@.subrange(start as int, i + 1) =~= s@.subrange(start as int, i as int).push(c));
                assert(p.update(p.len() - 1, p.last().push(c)) =~= strings_view(parts@).push(
                    s@.subrange(start as int, i + 1),
                ));
            }
        }
        i = i + 1;
    }
    let token = String::from_str(s.substring_char(start, n));
    proof {
        assert(strings_view(parts@.push(token)) =~= strings_view(parts@).push(token@));
        assert(s@.subrange(0, n as int) =~= s@);
    }
    parts.push(token);
    parts
}

/// Compares two tokens lexicographically.
pub fn compare_tokens(a: &str, b: &str) -> (r: Ordering)
    ensures
        r == lex_cmp(a@, b@),
{
    let na = a.unicode_len();
    let nb = b.unicode_len();
    let mut i: usize = 0;
    proof {
        assert(a@.subrange(0, na as int) =~= a@);
        assert(b@.subrange(0, nb as int) =~= b@);
    }
    while i < na && i < nb
        invariant
            na == a@.len(),
            nb == b@.len(),
            i <= na,
            i <= nb,
            lex_cmp(a@, b@) == lex_cmp(a@.subrange(i as int, na as int), b@.subrange(i as int, nb as int)),
        decreases na - i,
    {
        let x = a.get_char(i);
        let y = b.get_char(i);
        proof {
            assert(a@.subrange(i as int, na as int).drop_first() =~= a@.subrange(i + 1, na as int));
            assert(b@.subrange(i as int, nb as int).drop_first() =~= b@.subrange(i + 1, nb as int));
        }
        if (x as u32) < (y as u32) {
            return Ordering::Less;
        } else if (x as u32) > (y as u32) {
            return Ordering::Greater;
        }
        i = i + 1;
    }
    if i < nb {
        Ordering::Less
    } else if i < na {
        Ordering::Greater
    } else {
        Ordering::Equal
    }
}

fn reverse_ordering(o: Ordering) -> (r: Ordering)
    ensures
        r == reverse(o),
{
    match o {
        Ordering::Less => Ordering::Greater,
        Ordering::Greater => Ordering::Less,
        Ordering::Equal => Ordering::Equal,
    }
}

/// Builds a version whose tokens all carry the direction `order`.
fn uniform_version(s: &str, order: Ordering) -> (r: Version)
    ensures
        r@ == uniform_line(s@, order),
{
    let parts = split_version(s);
    let mut version = Version::new();
    let mut i: usize = 0;
    while i < parts.len()
        invariant
            i <= parts@.len(),
            strings_view(parts@) == split_dot(s@),
            version@ =~= Seq::new(i as nat, |k: int| (split_dot(s@)[k], order)),
        decreases parts.len() - i,
    {
        proof {
            assert(strings_view(parts@)[i as int] == parts@[i as int]@);
        }
        version.push(VersionComponent::new(parts[i].clone(), order));
        i = i + 1;
    }
    version
}

/// Builds the version list of one side, every token with direction `order`.
pub fn to_version_list(versions: &[String], order: Ordering) -> (r: VersionList)
    ensures
        r@ == uniform_list(strings_view(versions@), order),
{
    let mut version_list = VersionList::new();
    let mut i: usize = 0;
    while i < versions.len()
        invariant
            i <= versions@.len(),
            version_list@ =~= Seq::new(
                i as nat,
                |k: int| uniform_line(strings_view(versions@)[k], order),
            ),
        decreases versions.len() - i,
    {
        let version = uniform_version(versions[i].as_str(), order);
        version_list.push(version);
        i = i + 1;
    }
    version_list
}

/// Highlights a before/after pair of version strings: the shorter token
/// sequence is padded with empty tokens, and from the first pair of tokens
/// that differ on, every token carries the direction of that pair.
pub fn compare_versions(before: &str, after: &str) -> (r: (Version, Version))
    ensures
        r.0@ == changed_line(before@, after@).0,
        r.1@ == changed_line(before@, after@).1,
{
    let mut parts_before = split_version(before);
    let mut parts_after = split_version(after);
    let ghost pb = padded_pair(before@, after@).0;
    let ghost pa = padded_pair(before@, after@).1;
    let ghost sb = split_dot(before@);
    let ghost sa = split_dot(after@);
    let max_len = if parts_before.len() >= parts_after.len() {
        parts_before.len()
    } else {
        parts_after.len()
    };
    while parts_before.len() < max_len
        invariant
            sb.len() <= parts_before@.len() <= max_len,
            forall|k: int| 0 <= k < parts_before@.len() ==> #[trigger] parts_before@[k]@ == (if k < sb.len() { sb[k] } else { Seq::empty() }),
        decreases max_len - parts_before.len(),
    {
        parts_before.push(String::new());
    }
    while parts_after.len() < max_len
        invariant
            sa.len() <= parts_after@.len() <= max_len,
            forall|k: int| 0 <= k < parts_after@.len() ==> #[trigger] parts_after@[k]@ == (if k < sa.len() { sa[k] } else { Seq::empty() }),
        decreases max_len - parts_after.len(),
    {
        parts_after.push(String::new());
    }
    assert(pb.len() == max_len && pa.len() == max_len);
    let mut ordering = Ordering::Equal;
    let mut line_before = Version::new();
    let mut line_after = Version::new();
    let mut i: usize = 0;
    while i < max_len
        invariant
            i <= max_len,
            parts_before@.len() == max_len,
            parts_after@.len() == max_len,
            pb.len() == max_len,
            pa.len() == max_len,
            forall|k: int| 0 <= k < max_len ==> #[trigger] parts_before@[k]@ == pb[k],
            forall|k: int| 0 <= k < max_len ==> #[trigger] parts_after@[k]@ == pa[k],
            ordering == established(pb, pa, i - 1),
            line_before@ =~= Seq::new(i as nat, |k: int| (pb[k], established(pb, pa, k))),
            line_after@ =~= Seq::new(i as nat, |k: int| (pa[k], reverse(established(pb, pa, k)))),
        decreases max_len - i,
    {
        if let Ordering::Equal = ordering {
            ordering = compare_tokens(parts_before[i].as_str(), parts_after[i].as_str());
        }
        line_before.push(VersionComponent::new(parts_before[i].clone(), ordering));
        line_after.push(VersionComponent::new(parts_after[i].clone(), reverse_ordering(ordering)));
        i = i + 1;
    }
    (line_before, line_after)
}

pub fn handle_diff_added(versions_after: &[String]) -> (r: (VersionList, VersionList))
    ensures
        r.0@ == Seq::<Seq<(Seq<char>, Ordering)>>::empty(),
        r.1@ == uniform_list(strings_view(versions_after@), Ordering::Greater),
{
    let after = to_version_list(versions_after, Ordering::Greater);
    (VersionList::new(), after)
}

pub fn handle_diff_removed(versions_before: &[String]) -> (r: (VersionList, VersionList))
    ensures
        r.0@ == uniform_list(strings_view(versions_before@), Ordering::Less),
        r.1@ == Seq::<Seq<(Seq<char>, Ordering)>>::empty(),
{
    let before = to_version_list(versions_before, Ordering::Less);
    (before, VersionList::new())
}

/// Highlights the versions of a changed package, pairing the two lists by
/// position; entries of the longer list past the shorter one's length are
/// highlighted whole, as removed (before) or added (after).
pub fn handle_diff_changed(versions_before: &[String], versions_after: &[String]) -> (r: (
    VersionList,
    VersionList,
))
    ensures
        r.0@ == changed_lists(strings_view(versions_before@), strings_view(versions_after@)).0,
        r.1@ == changed_lists(strings_view(versions_before@), strings_view(versions_after@)).1,
{
    let ghost b = strings_view(versions_before@);
    let ghost a = strings_view(versions_after@);
    let n = if versions_before.len() <= versions_after.len() {
        versions_before.len()
    } else {
        versions_after.len()
    };
    let mut parsed_before = VersionList::new();
    let mut parsed_after = VersionList::new();
    let mut i: usize = 0;
    while i < n
        invariant
            i <= n,
            n <= versions_before@.len(),
            n <= versions_after@.len(),
            n == min_nat(b.len(), a.len()),
            b == strings_view(versions_before@),
            a == strings_view(versions_after@),
            parsed_before@ =~= Seq::new(i as nat, |k: int| changed_line(b[k], a[k]).0),
            parsed_after@ =~= Seq::new(i as nat, |k: int| changed_line(b[k], a[k]).1),
        decreases n - i,
    {
        let (line_before, line_after) = compare_versions(
            versions_before[i].as_str(),
            versions_after[i].as_str(),
        );
        parsed_before.push(line_before);
        parsed_after.push(line_after);
        i = i + 1;
    }
    let mut j: usize = n;
    while j < versions_before.len()
        invariant
            n <= j <= versions_before@.len(),
            n == min_nat(b.len(), a.len()),
            b == strings_view(versions_before@),
            a == strings_view(versions_after@),
            parsed_before@ =~= Seq::new(
                j as nat,
                |k: int|
                    if k < n {
                        changed_line(b[k], a[k]).0
                    } else {
                        uniform_line(b[k], Ordering::Less)
                    },
            ),
        decreases versions_before.len() - j,
    {
        parsed_before.push(uniform_version(versions_before[j].as_str(), Ordering::Less));
        j = j + 1;
    }
    let mut j: usize = n;
    while j < versions_after.len()
        invariant
            n <= j <= versions_after@.len(),
            n == min_nat(b.len(), a.len()),
            b == strings_view(versions_before@),
            a == strings_view(versions_after@),
            parsed_after@ =~= Seq::new(
                j as nat,
                |k: int|
                    if k < n {
                        changed_line(b[k], a[k]).1
                    } else {
                        uniform_line(a[k], Ordering::Greater)
                    },
            ),
        decreases versions_after.len() - j,
    {
        parsed_after.push(uniform_version(versions_after[j].as_str(), Ordering::Greater));
        j = j + 1;
    }
    (parsed_before, parsed_after)
}

impl Package {
    /// Classifies a raw record and highlights its versions. A record with
    /// no versions on either side becomes an `Unknown` package with no
    /// versions.
    pub fn from(diff: DiffPackage) -> (r: Package)
        ensures
            r@ == package_of(
                diff.size_delta,
                strings_view(diff.versions_before@),
                strings_view(diff.versions_after@),
            ),
    {
        Package::from_record(&diff)
    }

    /// Classifies a raw record that stays with its owner.
    pub fn from_record(diff: &DiffPackage) -> (r: Package)
        ensures
            r@ == package_of(
                diff.size_delta,
                strings_view(diff.versions_before@),
                strings_view(diff.versions_after@),
            ),
    {
        let diff_type = DiffType::from_versions(
            diff.versions_before.as_slice(),
            diff.versions_after.as_slice(),
        );
        let (parsed_before, parsed_after) = match diff_type {
            DiffType::Added => handle_diff_added(diff.versions_after.as_slice()),
            DiffType::Removed => handle_diff_removed(diff.versions_before.as_slice()),
            DiffType::Changed => handle_diff_changed(
                diff.versions_before.as_slice(),
                diff.versions_after.as_slice(),
            ),
            DiffType::Unknown => (VersionList::new(), VersionList::new()),
        };
        Package {
            size_delta: SizeDelta::from(diff.size_delta),
            versions_before: parsed_before,
            versions_after: parsed_after,
            diff_type,
        }
    }

    /// The package's versions as they are displayed after its name.
    pub fn to_string(&self) -> (r: String)
        ensures
            r@ == render_package(self@),
    {
        match self.diff_type {
            DiffType::Added => self.versions_after.to_string(),
            DiffType::Removed => self.versions_before.to_string(),
            DiffType::Changed => {
                let before = self.versions_before.to_string();
                let after = self.versions_after.to_string();
                proof {
                    reveal_strlit(" -> ");
                }
                before.concat(" -> ").concat(after.as_str())
            },
            DiffType::Unknown => String::new(),
        }
    }
}

pub proof fn lemma_lex_cmp_equal(a: Seq<char>, b: Seq<char>)
    ensures
        (lex_cmp(a, b) == Ordering::Equal) == (a == b),
    decreases a.len(),
{
    if a.len() > 0 && b.len() > 0 {
        lemma_lex_cmp_equal(a.drop_first(), b.drop_first());
        if a == b {
            assert(a.drop_first() == b.drop_first());
        }
        if (a[0] as int) == (b[0] as int) && a.drop_first() == b.drop_first() {
            assert(a[0] == b[0]);
            assert(a =~= seq![a[0]] + a.drop_first());
            assert(b =~= seq![b[0]] + b.drop_first());
        }
    } else if a.len() == 0 && b.len() == 0 {
        assert(a =~= b);
    }
}

pub proof fn lemma_lex_cmp_reverse(a: Seq<char>, b: Seq<char>)
    ensures
        lex_cmp(b, a) == reverse(lex_cmp(a, b)),
    decreases a.len(),
{
    if a.len() > 0 && b.len() > 0 {
        lemma_lex_cmp_reverse(a.drop_first(), b.drop_first());
    }
}

pub proof fn lemma_lex_cmp_less_trans(a: Seq<char>, b: Seq<char>, c: Seq<char>)
    requires
        lex_cmp(a, b) == Ordering::Less,
        lex_cmp(b, c) == Ordering::Less,
    ensures
        lex_cmp(a, c) == Ordering::Less,
    decreases a.len(),
{
    if a.len() > 0 && b.len() > 0 && c.len() > 0 {
        if (a[0] as int) == (b[0] as int) && (b[0] as int) == (c[0] as int) {
            lemma_lex_cmp_less_trans(a.drop_first(), b.drop_first(), c.drop_first());
        }
    }
}

proof fn lemma_established_at(pb: Seq<Seq<char>>, pa: Seq<Seq<char>>, d: int, k: int)
    requires
        0 <= d <= pb.len(),
        pb.len() == pa.len(),
        forall|j: int| 0 <= j < d ==> pb[j] == pa[j],
        d < pb.len() ==> pb[d] != pa[d],
        -1 <= k < pb.len(),
    ensures
        k < d ==> established(pb, pa, k) == Ordering::Equal,
        d <= k ==> established(pb, pa, k) == lex_cmp(pb[d], pa[d]),
    decreases k + 1,
{
    if k >= 0 {
        lemma_established_at(pb, pa, d, k - 1);
        lemma_lex_cmp_equal(pb[k], pa[k]);
        if d < pb.len() {
            lemma_lex_cmp_equal(pb[d], pa[d]);
        }
    }
}

/// In a highlighted before/after pair, every token before the first pair of
/// differing tokens is unchanged, and every token from there on carries the
/// direction of that first pair, whatever the later tokens hold.
pub proof fn lemma_direction_locks_at_divergence(b: Seq<char>, a: Seq<char>, d: int)
    requires
        0 <= d <= padded_pair(b, a).0.len(),
        forall|j: int| 0 <= j < d ==> padded_pair(b, a).0[j] == padded_pair(b, a).1[j],
        d < padded_pair(b, a).0.len() ==> padded_pair(b, a).0[d] != padded_pair(b, a).1[d],
    ensures
        changed_line(b, a).0.len() == changed_line(b, a).1.len(),
        forall|k: int| 0 <= k < d ==> (#[trigger] changed_line(b, a).0[k]).1 == Ordering::Equal
            && changed_line(b, a).1[k].1 == Ordering::Equal,
        d < changed_line(b, a).0.len() ==> lex_cmp(padded_pair(b, a).0[d], padded_pair(b, a).1[d])
            != Ordering::Equal,
        forall|k: int|
            d <= k < changed_line(b, a).0.len() ==> (#[trigger] changed_line(b, a).0[k]).1
                == lex_cmp(padded_pair(b, a).0[d], padded_pair(b, a).1[d])
                && changed_line(b, a).1[k].1 == reverse(
                lex_cmp(padded_pair(b, a).0[d], padded_pair(b, a).1[d]),
            ),
{
    let pb = padded_pair(b, a).0;
    let pa = padded_pair(b, a).1;
    if d < pb.len() {
        lemma_lex_cmp_equal(pb[d], pa[d]);
    }
    assert forall|k: int| 0 <= k < pb.len() implies (k < d ==> established(pb, pa, k)
        == Ordering::Equal) && (d <= k ==> established(pb, pa, k) == lex_cmp(pb[d], pa[d])) by {
        lemma_established_at(pb, pa, d, k);
    }
}

} // verus!
