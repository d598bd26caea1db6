//! The sections of a checklist, kept by package name in dictionary order.

use crate::text::{
    lemma_lex_less_asymmetric, lemma_lex_less_total, lemma_lex_less_transitive, lex_less, str_less,
    str_same,
};
use crate::tokenize::{issue_views, Header, HeaderView, Issue, IssueView};
use vstd::prelude::*;

verus! {

/// The checklist items of one package, under the header that opens them.
#[derive(Debug, PartialEq)]
pub struct Section {
    pub header: Header,
    pub children: Vec<Issue>,
}

/// A section as specifications see it.
pub struct SectionView {
    pub header: HeaderView,
    pub children: Seq<IssueView>,
}

impl View for Section {
    type V = SectionView;

    open spec fn view(&self) -> SectionView {
        SectionView { header: self.header@, children: issue_views(self.children@) }
    }
}

/// A section together with the name it is kept under.
#[derive(Debug, PartialEq)]
pub struct Entry {
    pub key: String,
    pub section: Section,
}

/// An entry as specifications see it.
pub struct EntryView {
    pub key: Seq<char>,
    pub section: SectionView,
}

impl View for Entry {
    type V = EntryView;

    open spec fn view(&self) -> EntryView {
        EntryView { key: self.key@, section: self.section@ }
    }
}

/// The views of a sequence of entries.
pub open spec fn entry_views(entries: Seq<Entry>) -> Seq<EntryView> {
    Seq::new(entries.len(), |i: int| entries[i]@)
}

/// Whether the keys of `r` stand in strictly ascending dictionary order. Then
/// no key occurs twice.
pub open spec fn ascending(r: Seq<EntryView>) -> bool {
    forall|i: int, j: int| 0 <= i < j < r.len() ==> lex_less(#[trigger] r[i].key, #[trigger] r[j].key)
}

/// How many entries at the beginning of `r` have a key that comes before
/// `key`. In an ascending sequence this is where `key` stands or belongs.
pub open spec fn rank(r: Seq<EntryView>, key: Seq<char>) -> int
    decreases r.len(),
{
    if r.len() > 0 && lex_less(r[0].key, key) {
        1 + rank(r.drop_first(), key)
    } else {
        0
    }
}

/// `rank` is the one position before which all keys come before `key` and at
/// which either a key stands that does not, or the sequence ends.
pub proof fn lemma_rank(r: Seq<EntryView>, key: Seq<char>, k: int)
    requires
        0 <= k <= r.len(),
        forall|i: int| 0 <= i < k ==> lex_less(#[trigger] r[i].key, key),
        k < r.len() ==> !lex_less(r[k].key, key),
    ensures
        rank(r, key) == k,
    decreases r.len(),
{
    if r.len() == 0 || k == 0 {
    } else {
        let t = r.drop_first();
        assert forall|i: int| 0 <= i < k - 1 implies lex_less(#[trigger] t[i].key, key) by {
            assert(t[i] == r[i + 1]);
        }
        assert(lex_less(r[0].key, key));
        lemma_rank(t, key, k - 1);
    }
}

/// What `rank` returns: a position within bounds, with keys before `key`
/// alone in front of it and no such key at it.
pub proof fn lemma_rank_is_rank(r: Seq<EntryView>, key: Seq<char>)
    ensures
        0 <= rank(r, key) <= r.len(),
        forall|i: int| 0 <= i < rank(r, key) ==> lex_less(#[trigger] r[i].key, key),
        rank(r, key) < r.len() ==> !lex_less(r[rank(r, key)].key, key),
    decreases r.len(),
{
    if r.len() > 0 && lex_less(r[0].key, key) {
        let t = r.drop_first();
        lemma_rank_is_rank(t, key);
        assert forall|i: int| 0 <= i < rank(r, key) implies lex_less(#[trigger] r[i].key, key) by {
            if i > 0 {
                assert(t[i - 1] == r[i]);
            }
        }
    }
}

/// Whether `r` holds an entry under `key`.
pub open spec fn has_key(r: Seq<EntryView>, key: Seq<char>) -> bool {
    0 <= rank(r, key) < r.len() && r[rank(r, key)].key == key
}

/// The section that `r` holds under `key`, if any.
pub open spec fn lookup(r: Seq<EntryView>, key: Seq<char>) -> Option<SectionView> {
    if has_key(r, key) {
        Some(r[rank(r, key)].section)
    } else {
        None
    }
}

/// `r` with `section` under `key`, in place of what stood there if anything
/// did.
pub open spec fn put(r: Seq<EntryView>, key: Seq<char>, section: SectionView) -> Seq<EntryView> {
    if has_key(r, key) {
        r.update(rank(r, key), EntryView { key, section })
    } else {
        r.insert(rank(r, key), EntryView { key, section })
    }
}

/// `r` itself if it holds an entry under `key`, else `r` with `section`
/// under `key`.
pub open spec fn put_if_absent(r: Seq<EntryView>, key: Seq<char>, section: SectionView) -> Seq<
    EntryView,
> {
    if has_key(r, key) {
        r
    } else {
        r.insert(rank(r, key), EntryView { key, section })
    }
}

/// The count after one more item: one more, but never beyond the largest
/// `i32`.
pub open spec fn bump(count: int) -> int {
    if count < i32::MAX {
        count + 1
    } else {
        count
    }
}

/// `s` with `issue` as its last item, and its header's count bumped.
pub open spec fn with_issue(s: SectionView, issue: IssueView) -> SectionView {
    SectionView {
        header: HeaderView {
            package: s.header.package,
            issue_count: bump(s.header.issue_count),
            notes: s.header.notes,
        },
        children: s.children.push(issue),
    }
}

/// `r` with `issue` added to the section at position `at`.
pub open spec fn append_issue(r: Seq<EntryView>, at: int, issue: IssueView) -> Seq<EntryView> {
    r.update(at, EntryView { key: r[at].key, section: with_issue(r[at].section, issue) })
}

/// `r` with the items `issues` added, in order, to the section at position
/// `at`.
pub open spec fn add_issues(r: Seq<EntryView>, at: int, issues: Seq<IssueView>) -> Seq<EntryView>
    decreases issues.len(),
{
    if issues.len() == 0 {
        r
    } else {
        append_issue(add_issues(r, at, issues.drop_last()), at, issues.last())
    }
}

/// In an ascending sequence, a key stands at position `k` only if `k` is its
/// rank.
pub proof fn lemma_rank_of_present(r: Seq<EntryView>, k: int)
    requires
        ascending(r),
        0 <= k < r.len(),
    ensures
        rank(r, r[k].key) == k,
        has_key(r, r[k].key),
{
    lemma_lex_less_asymmetric(r[k].key, r[k].key);
    lemma_rank(r, r[k].key, k);
}

/// In an ascending sequence, every key from the rank of `key` on is `key` or
/// comes after it, and only the one at the rank can be `key`.
pub proof fn lemma_rank_splits(r: Seq<EntryView>, key: Seq<char>)
    requires
        ascending(r),
    ensures
        forall|i: int|
            rank(r, key) <= i < r.len() && #[trigger] r[i].key != key ==> lex_less(key, r[i].key),
        forall|i: int| rank(r, key) < i < r.len() ==> #[trigger] r[i].key != key,
        forall|i: int| 0 <= i < rank(r, key) ==> #[trigger] r[i].key != key,
{
    lemma_rank_is_rank(r, key);
    let p = rank(r, key);
    assert forall|i: int| p <= i < r.len() && #[trigger] r[i].key != key implies lex_less(
        key,
        r[i].key,
    ) by {
        lemma_lex_less_total(r[i].key, key);
        if lex_less(r[i].key, key) {
            if i > p {
                lemma_lex_less_transitive(r[p].key, r[i].key, key);
            }
        }
    }
    assert forall|i: int| p < i < r.len() implies #[trigger] r[i].key != key by {
        if r[i].key == key {
            assert(lex_less(r[p].key, r[i].key));
        }
    }
    assert forall|i: int| 0 <= i < p implies #[trigger] r[i].key != key by {
        lemma_lex_less_asymmetric(key, key);
    }
}

/// Putting a section into an ascending sequence leaves it ascending.
pub proof fn lemma_put_ascending(r: Seq<EntryView>, key: Seq<char>, section: SectionView)
    requires
        ascending(r),
    ensures
        ascending(put(r, key, section)),
        ascending(put_if_absent(r, key, section)),
        has_key(put(r, key, section), key),
        rank(put(r, key, section), key) == rank(r, key),
        put(r, key, section)[rank(r, key)] == (EntryView { key, section }),
        has_key(put_if_absent(r, key, section), key),
        rank(put_if_absent(r, key, section), key) == rank(r, key),
{
    lemma_rank_is_rank(r, key);
    lemma_rank_splits(r, key);
    lemma_lex_less_asymmetric(key, key);
    let p = rank(r, key);
    let e = EntryView { key, section };
    if has_key(r, key) {
        let n = r.update(p, e);
        assert forall|i: int, j: int| 0 <= i < j < n.len() implies lex_less(
            #[trigger] n[i].key,
            #[trigger] n[j].key,
        ) by {
            assert(n[i].key == r[i].key);
            assert(n[j].key == r[j].key);
        }
        lemma_rank(n, key, p);
        assert forall|i: int| 0 <= i < p implies lex_less(#[trigger] r[i].key, key) by {}
        lemma_rank(r, key, p);
    } else {
        let n = r.insert(p, e);
        assert forall|i: int, j: int| 0 <= i < j < n.len() implies lex_less(
            #[trigger] n[i].key,
            #[trigger] n[j].key,
        ) by {
            if j < p {
                assert(n[i] == r[i] && n[j] == r[j]);
            } else if j == p {
                assert(n[i] == r[i]);
            } else if i < p {
                assert(n[i] == r[i] && n[j] == r[j - 1]);
            } else if i == p {
                assert(n[j] == r[j - 1]);
            } else {
                assert(n[i] == r[i - 1] && n[j] == r[j - 1]);
            }
        }
        assert forall|i: int| 0 <= i < p implies lex_less(#[trigger] n[i].key, key) by {
            assert(n[i] == r[i]);
        }
        lemma_rank(n, key, p);
    }
}

/// Adding an item to a section changes no key, so the sequence stays
/// ascending and every rank stays what it was.
pub proof fn lemma_append_issue(r: Seq<EntryView>, at: int, issue: IssueView, key: Seq<char>)
    requires
        0 <= at < r.len(),
    ensures
        ascending(r) ==> ascending(append_issue(r, at, issue)),
        rank(append_issue(r, at, issue), key) == rank(r, key),
        has_key(append_issue(r, at, issue), key) == has_key(r, key),
{
    let n = append_issue(r, at, issue);
    lemma_rank_is_rank(r, key);
    assert forall|i: int| 0 <= i < n.len() implies #[trigger] n[i].key == r[i].key by {}
    if ascending(r) {
        assert forall|i: int, j: int| 0 <= i < j < n.len() implies lex_less(
            #[trigger] n[i].key,
            #[trigger] n[j].key,
        ) by {
            assert(n[i].key == r[i].key);
            assert(n[j].key == r[j].key);
        }
    }
    assert forall|i: int| 0 <= i < rank(r, key) implies lex_less(#[trigger] n[i].key, key) by {
        assert(n[i].key == r[i].key);
    }
    if rank(r, key) < r.len() {
        assert(n[rank(r, key)].key == r[rank(r, key)].key);
    }
    lemma_rank(n, key, rank(r, key));
}

/// The number of items in all the sections of `r` together.
pub open spec fn total_issues(r: Seq<EntryView>) -> nat
    decreases r.len(),
{
    if r.len() == 0 {
        0
    } else {
        total_issues(r.drop_last()) + r.last().section.children.len()
    }
}

/// The number of items in all the sections of `r` together, as far as a
/// `usize` can hold it: beyond that, the largest `usize`.
pub open spec fn capped_total(r: Seq<EntryView>) -> nat {
    if total_issues(r) <= usize::MAX {
        total_issues(r)
    } else {
        usize::MAX as nat
    }
}

/// The items of two reports one after the other are as many as those of the
/// one and those of the other.
pub proof fn lemma_total_concat(a: Seq<EntryView>, b: Seq<EntryView>)
    ensures
        total_issues(a + b) == total_issues(a) + total_issues(b),
    decreases b.len(),
{
    if b.len() == 0 {
        assert(a + b =~= a);
    } else {
        lemma_total_concat(a, b.drop_last());
        assert((a + b).drop_last() =~= a + b.drop_last());
        assert((a + b).last() == b.last());
    }
}

/// A report with one section has the items of that section.
pub proof fn lemma_total_single(e: EntryView)
    ensures
        total_issues(seq![e]) == e.section.children.len(),
{
    assert(seq![e].drop_last() =~= Seq::<EntryView>::empty());
    assert(total_issues(Seq::<EntryView>::empty()) == 0);
    assert(seq![e].last() == e);
}

/// An entry more makes its items more, and another entry in an entry's place
/// makes the difference of their items.
pub proof fn lemma_total_change(r: Seq<EntryView>, p: int, e: EntryView)
    requires
        0 <= p <= r.len(),
    ensures
        total_issues(r.insert(p, e)) == total_issues(r) + e.section.children.len(),
        p < r.len() ==> total_issues(r.update(p, e)) == total_issues(r)
            - r[p].section.children.len() + e.section.children.len(),
{
    lemma_total_single(e);
    lemma_total_concat(r.take(p), r.skip(p));
    assert(r.take(p) + r.skip(p) =~= r);
    lemma_total_concat(r.take(p), seq![e]);
    lemma_total_concat(r.take(p) + seq![e], r.skip(p));
    assert(r.insert(p, e) =~= r.take(p) + seq![e] + r.skip(p));
    if p < r.len() {
        lemma_total_single(r[p]);
        lemma_total_concat(r.take(p), seq![r[p]]);
        lemma_total_concat(r.take(p) + seq![r[p]], r.skip(p + 1));
        assert(r =~= r.take(p) + seq![r[p]] + r.skip(p + 1));
        lemma_total_concat(r.take(p) + seq![e], r.skip(p + 1));
        assert(r.update(p, e) =~= r.take(p) + seq![e] + r.skip(p + 1));
    }
}

/// `s` with the items `issues` added in order, and its header's count bumped
/// once for each.
pub open spec fn with_issues(s: SectionView, issues: Seq<IssueView>) -> SectionView
    decreases issues.len(),
{
    if issues.len() == 0 {
        s
    } else {
        with_issue(with_issues(s, issues.drop_last()), issues.last())
    }
}

/// What adding items to the section at position `at` does: the report keeps
/// its length and its keys, stays ascending, has that many items more, and
/// holds under that section's key the section with the items, and under
/// every other key what it held before.
pub proof fn lemma_add_issues(r: Seq<EntryView>, at: int, issues: Seq<IssueView>)
    requires
        0 <= at < r.len(),
    ensures
        add_issues(r, at, issues).len() == r.len(),
        forall|i: int| 0 <= i < r.len() ==> #[trigger] add_issues(r, at, issues)[i].key == r[i].key,
        add_issues(r, at, issues) == r.update(
            at,
            EntryView { key: r[at].key, section: with_issues(r[at].section, issues) },
        ),
        ascending(r) ==> ascending(add_issues(r, at, issues)),
        total_issues(add_issues(r, at, issues)) == total_issues(r) + issues.len(),
        with_issues(r[at].section, issues).children == r[at].section.children + issues,
    decreases issues.len(),
{
    if issues.len() == 0 {
        assert(r =~= r.update(at, EntryView { key: r[at].key, section: r[at].section }));
        assert(r[at].section.children + issues =~= r[at].section.children);
    } else {
        let init = issues.drop_last();
        let mid = add_issues(r, at, init);
        lemma_add_issues(r, at, init);
        lemma_append_issue(mid, at, issues.last(), Seq::empty());
        let out = add_issues(r, at, issues);
        assert(out =~= r.update(
            at,
            EntryView { key: r[at].key, section: with_issues(r[at].section, issues) },
        ));
        lemma_total_change(
            mid,
            at,
            EntryView { key: mid[at].key, section: with_issue(mid[at].section, issues.last()) },
        );
        assert(r[at].section.children + issues =~= (r[at].section.children + init).push(
            issues.last(),
        ));
    }
}

/// Sequences with the same keys at the same positions give every key the
/// same rank.
pub proof fn lemma_rank_same_keys(a: Seq<EntryView>, b: Seq<EntryView>, key: Seq<char>)
    requires
        a.len() == b.len(),
        forall|i: int| 0 <= i < a.len() ==> #[trigger] a[i].key == b[i].key,
    ensures
        rank(a, key) == rank(b, key),
        has_key(a, key) == has_key(b, key),
{
    lemma_rank_is_rank(a, key);
    let p = rank(a, key);
    assert forall|i: int| 0 <= i < p implies lex_less(#[trigger] b[i].key, key) by {
        assert(a[i].key == b[i].key);
    }
    if p < a.len() {
        assert(a[p].key == b[p].key);
    }
    lemma_rank(b, key, p);
}

/// What a report holds after `put` and after `put_if_absent`: under the key
/// that was put, the section that was put, or with `put_if_absent` the one
/// that was there; under every other key what it held before.
pub proof fn lemma_lookup_put(
    r: Seq<EntryView>,
    key: Seq<char>,
    section: SectionView,
    other: Seq<char>,
)
    requires
        ascending(r),
    ensures
        lookup(put(r, key, section), other) == (if other == key {
            Some(section)
        } else {
            lookup(r, other)
        }),
        lookup(put_if_absent(r, key, section), other) == (if other == key && !has_key(r, key) {
            Some(section)
        } else {
            lookup(r, other)
        }),
{
    lemma_put_ascending(r, key, section);
    lemma_rank_is_rank(r, key);
    lemma_rank_is_rank(r, other);
    lemma_rank_splits(r, key);
    lemma_rank_splits(r, other);
    let p = rank(r, key);
    let q = rank(r, other);
    let e = EntryView { key, section };
    if other == key {
    } else if has_key(r, key) {
        let n = r.update(p, e);
        assert forall|i: int| 0 <= i < r.len() implies #[trigger] n[i].key == r[i].key by {}
        lemma_rank_same_keys(n, r, other);
    } else {
        let n = r.insert(p, e);
        lemma_lex_less_total(other, key);
        if lex_less(other, key) {
            lemma_lex_less_asymmetric(other, key);
            if q > p {
                assert(lex_less(r[p].key, other));
                assert(lex_less(key, r[p].key));
                lemma_lex_less_transitive(key, r[p].key, other);
            }
            assert forall|i: int| 0 <= i < q implies lex_less(#[trigger] n[i].key, other) by {
                assert(n[i] == r[i]);
            }
            if q < p {
                assert(n[q] == r[q]);
            } else {
                assert(n[q] == e);
            }
            lemma_rank(n, other, q);
            if q == p && p < r.len() {
                assert(r[p].key != other) by {
                    if r[p].key == other {
                        assert(lex_less(key, r[p].key));
                    }
                }
            }
        } else {
            assert(lex_less(key, other));
            if q < p {
                assert(lex_less(r[q].key, key));
                lemma_lex_less_transitive(r[q].key, key, other);
            }
            assert forall|i: int| 0 <= i < q + 1 implies lex_less(#[trigger] n[i].key, other) by {
                if i < p {
                    assert(n[i] == r[i]);
                } else if i == p {
                    assert(n[i] == e);
                } else {
                    assert(n[i] == r[i - 1]);
                }
            }
            if q < r.len() {
                assert(n[q + 1] == r[q]);
            }
            lemma_rank(n, other, q + 1);
        }
    }
}

/// Two ascending reports that hold the same section under every key are the
/// same report: how a report came to hold its sections does not show in it.
pub proof fn law_report_is_its_sections(a: Seq<EntryView>, b: Seq<EntryView>)
    requires
        ascending(a),
        ascending(b),
        forall|key: Seq<char>| lookup(a, key) == lookup(b, key),
    ensures
        a == b,
    decreases a.len() + b.len(),
{
    if a.len() == 0 || b.len() == 0 {
        if a.len() > 0 {
            lemma_rank_of_present(a, 0);
            assert(lookup(a, a[0].key) is Some);
            assert(lookup(b, a[0].key) is None);
        }
        if b.len() > 0 {
            lemma_rank_of_present(b, 0);
            assert(lookup(b, b[0].key) is Some);
            assert(lookup(a, b[0].key) is None);
        }
        assert(a =~= b);
    } else {
        let la = a.last();
        let lb = b.last();
        lemma_rank_of_present(a, a.len() - 1);
        lemma_rank_of_present(b, b.len() - 1);
        assert(lookup(b, la.key) == Some(la.section));
        assert(lookup(a, lb.key) == Some(lb.section));
        let ib = rank(b, la.key);
        let ia = rank(a, lb.key);
        // The last key of either report is the greatest key of both.
        assert(la.key == lb.key) by {
            if ib < b.len() - 1 {
                assert(lex_less(b[ib].key, b[b.len() - 1].key));
                if ia < a.len() - 1 {
                    assert(lex_less(a[ia].key, a[a.len() - 1].key));
                    lemma_lex_less_asymmetric(la.key, lb.key);
                } else {
                    lemma_lex_less_asymmetric(la.key, la.key);
                }
            }
        }
        assert(la == lb);
        let a0 = a.drop_last();
        let b0 = b.drop_last();
        assert(ascending(a0)) by {
            assert forall|i: int, j: int| 0 <= i < j < a0.len() implies lex_less(
                #[trigger] a0[i].key,
                #[trigger] a0[j].key,
            ) by {
                assert(a0[i] == a[i] && a0[j] == a[j]);
            }
        }
        assert(ascending(b0)) by {
            assert forall|i: int, j: int| 0 <= i < j < b0.len() implies lex_less(
                #[trigger] b0[i].key,
                #[trigger] b0[j].key,
            ) by {
                assert(b0[i] == b[i] && b0[j] == b[j]);
            }
        }
        assert forall|key: Seq<char>| lookup(a0, key) == lookup(b0, key) by {
            lemma_lookup_drop_last(a, key);
            lemma_lookup_drop_last(b, key);
        }
        law_report_is_its_sections(a0, b0);
        assert(a =~= a0.push(la));
        assert(b =~= b0.push(lb));
    }
}

/// Without its last entry an ascending report holds nothing under the key of
/// that entry, and under every other key what it held with it.
pub proof fn lemma_lookup_drop_last(r: Seq<EntryView>, key: Seq<char>)
    requires
        ascending(r),
        r.len() > 0,
    ensures
        lookup(r.drop_last(), key) == (if key == r.last().key {
            None
        } else {
            lookup(r, key)
        }),
{
    let r0 = r.drop_last();
    let n = r.len() - 1;
    lemma_rank_is_rank(r, key);
    lemma_rank_is_rank(r0, key);
    lemma_rank_splits(r, key);
    let p = rank(r, key);
    if p <= n {
        assert forall|i: int| 0 <= i < (if p < n { p } else { n }) implies lex_less(
            #[trigger] r0[i].key,
            key,
        ) by {
            assert(r0[i] == r[i]);
        }
        if p < n {
            assert(r0[p] == r[p]);
            lemma_rank(r0, key, p);
        } else {
            lemma_rank(r0, key, n);
        }
    } else {
        assert forall|i: int| 0 <= i < n implies lex_less(#[trigger] r0[i].key, key) by {
            assert(r0[i] == r[i]);
        }
        lemma_rank(r0, key, n);
    }
    if key == r.last().key {
        lemma_rank_of_present(r, n);
    }
}

/// The sections of a checklist, each under a package name. No name occurs
/// twice, and the sections are kept in the dictionary order of their names,
/// so that two reports with the same sections under the same names are equal.
#[derive(Debug, PartialEq)]
pub struct Report {
    entries: Vec<Entry>,
}

impl View for Report {
    type V = Seq<EntryView>;

    closed spec fn view(&self) -> Seq<EntryView> {
        entry_views(self.entries@)
    }
}

impl Report {
    /// Whether the names stand in strictly ascending order. Every report made
    /// by `new`, `insert`, `or_insert` and `push_issue` is well formed.
    pub open spec fn wf(&self) -> bool {
        ascending(self@)
    }

    /// A report without sections.
    pub fn new() -> (r: Report)
        ensures
            r@ == Seq::<EntryView>::empty(),
            r.wf(),
    {
        let r = Report { entries: Vec::new() };
        proof {
            assert(r@ =~= Seq::<EntryView>::empty());
        }
        r
    }

    /// The number of sections.
    pub fn len(&self) -> (n: usize)
        ensures
            n == self@.len(),
    {
        self.entries.len()
    }

    /// The sections with their names, in the order of the names.
    pub fn entries(&self) -> (r: &Vec<Entry>)
        ensures
            entry_views(r@) == self@,
    {
        &self.entries
    }

    /// The sections with their names, in the order of the names.
    pub fn into_entries(self) -> (r: Vec<Entry>)
        ensures
            entry_views(r@) == self@,
    {
        self.entries
    }

    /// Where `key` stands or belongs, and whether it is there.
    pub fn position(&self, key: &str) -> (r: (usize, bool))
        ensures
            r.0 == rank(self@, key@),
            r.1 == has_key(self@, key@),
            r.0 <= self@.len(),
    {
        let mut p: usize = 0;
        while p < self.entries.len() && str_less(self.entries[p].key.as_str(), key)
            invariant
                p <= self.entries.len(),
                forall|i: int| 0 <= i < p ==> lex_less(#[trigger] self@[i].key, key@),
            decreases self.entries.len() - p,
        {
            p += 1;
        }
        proof {
            lemma_rank(self@, key@, p as int);
        }
        let found = p < self.entries.len() && str_same(self.entries[p].key.as_str(), key);
        (p, found)
    }

    /// The section under `key`, if there is one.
    pub fn get(&self, key: &str) -> (r: Option<&Section>)
        ensures
            match r {
                Some(section) => lookup(self@, key@) == Some(section@),
                None => lookup(self@, key@) is None,
            },
    {
        let (p, found) = self.position(key);
        if found {
            Some(&self.entries[p].section)
        } else {
            None
        }
    }

    /// Puts `section` under `key`, in place of the section that was there if
    /// one was.
    pub fn insert(&mut self, key: String, section: Section)
        ensures
            final(self)@ == put(old(self)@, key@, section@),
            old(self).wf() ==> final(self).wf(),
    {
        let (p, found) = self.position(key.as_str());
        proof {
            if old(self).wf() {
                lemma_put_ascending(old(self)@, key@, section@);
            }
        }
        if found {
            self.entries[p].section = section;
            proof {
                assert(self@ =~= put(old(self)@, key@, section@));
            }
        } else {
            self.entries.insert(p, Entry { key, section });
            proof {
                assert(self@ =~= put(old(self)@, key@, section@));
            }
        }
    }

    /// Puts `section` under `key` unless a section is there already, and
    /// returns the position of the section under `key`.
    pub fn or_insert(&mut self, key: String, section: Section) -> (at: usize)
        ensures
            final(self)@ == put_if_absent(old(self)@, key@, section@),
            at == rank(old(self)@, key@),
            at < final(self)@.len(),
            final(self)@[at as int].key == key@,
            old(self).wf() ==> final(self).wf(),
    {
        let (p, found) = self.position(key.as_str());
        proof {
            if old(self).wf() {
                lemma_put_ascending(old(self)@, key@, section@);
            }
        }
        if !found {
            self.entries.insert(p, Entry { key, section });
            proof {
                assert(self@ =~= put_if_absent(old(self)@, key@, section@));
            }
        }
        p
    }

    /// Adds `issue` as the last item of the section at position `at`, and
    /// bumps the count in that section's header.
    pub fn push_issue(&mut self, at: usize, issue: Issue)
        requires
            at < old(self)@.len(),
        ensures
            final(self)@ == append_issue(old(self)@, at as int, issue@),
            old(self).wf() ==> final(self).wf(),
    {
        proof {
            lemma_append_issue(old(self)@, at as int, issue@, Seq::empty());
        }
        let ghost before = self.entries@[at as int].section.children@;
        self.entries[at].section.children.push(issue);
        let count = self.entries[at].section.header.issue_count;
        if count < i32::MAX {
            self.entries[at].section.header.issue_count = count + 1;
        }
        proof {
            assert(issue_views(before.push(issue)) =~= issue_views(before).push(issue@));
            assert(self@ =~= append_issue(old(self)@, at as int, issue@));
        }
    }
}

} // verus!
