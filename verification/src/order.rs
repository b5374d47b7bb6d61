//! The ordering policy of a directory listing.
//!
//! A listing shows subdirectories first and files after them (when files are
//! shown at all), each group ascending by name in codepoint order. The policy
//! is expressed as [`order_of`]: the sequence of indices into the raw child
//! sequence, in the order in which the entries are to be rendered.

use vstd::prelude::*;

use crate::tree::DirectoryEntry;

verus! {

/// Strict lexicographic order on character sequences, by codepoint.
pub open spec fn lex_lt(a: Seq<char>, b: Seq<char>) -> bool
    decreases a.len(),
{
    if b.len() == 0 {
        false
    } else if a.len() == 0 {
        true
    } else if a[0] == b[0] {
        lex_lt(a.drop_first(), b.drop_first())
    } else {
        (a[0] as u32) < (b[0] as u32)
    }
}

/// Directories sort before files.
pub open spec fn entry_rank(e: DirectoryEntry) -> int {
    if e.is_directory {
        0
    } else {
        1
    }
}

/// The strict sort order of a listing: by rank, then by name.
pub open spec fn entry_lt(a: DirectoryEntry, b: DirectoryEntry) -> bool {
    entry_rank(a) < entry_rank(b) || (entry_rank(a) == entry_rank(b) && lex_lt(a.name@, b.name@))
}

/// The non-strict companion of [`entry_lt`], under which a listing is sorted.
pub open spec fn entry_le(a: DirectoryEntry, b: DirectoryEntry) -> bool {
    !entry_lt(b, a)
}

/// Whether an entry appears in a listing under the inclusion policy.
pub open spec fn listed(e: DirectoryEntry, include_files: bool) -> bool {
    e.is_directory || include_files
}

/// `order` with index `i` inserted behind every already placed entry that
/// sorts strictly before `s[i]` (so equal keys keep their discovery order).
pub open spec fn insert_idx(s: Seq<DirectoryEntry>, order: Seq<usize>, i: usize) -> Seq<usize>
    decreases order.len(),
{
    if order.len() == 0 {
        seq![i]
    } else if !entry_lt(s[i as int], s[order[0] as int]) {
        seq![order[0]] + insert_idx(s, order.drop_first(), i)
    } else {
        seq![i] + order
    }
}

/// The render order of the listed entries among the first `n` children.
pub open spec fn order_upto(s: Seq<DirectoryEntry>, n: int, include_files: bool) -> Seq<usize>
    decreases n,
{
    if n <= 0 {
        Seq::empty()
    } else {
        let prev = order_upto(s, n - 1, include_files);
        if listed(s[n - 1], include_files) {
            insert_idx(s, prev, (n - 1) as usize)
        } else {
            prev
        }
    }
}

/// The render order of a directory's children: the indices of the listed
/// entries, sorted directories-first and by name within each group.
pub open spec fn order_of(s: Seq<DirectoryEntry>, include_files: bool) -> Seq<usize> {
    order_upto(s, s.len() as int, include_files)
}

/// Whether `order` lists indices of `s` in ascending [`entry_le`] order.
pub open spec fn sorted_by_entry(s: Seq<DirectoryEntry>, order: Seq<usize>) -> bool {
    forall|k1: int, k2: int|
        0 <= k1 <= k2 < order.len() ==> entry_le(s[order[k1] as int], s[order[k2] as int])
}

proof fn lemma_lex_lt_asymmetric(a: Seq<char>, b: Seq<char>)
    requires
        lex_lt(a, b),
    ensures
        !lex_lt(b, a),
    decreases a.len(),
{
    if b.len() == 0 {
    } else if a.len() == 0 {
    } else if a[0] == b[0] {
        lemma_lex_lt_asymmetric(a.drop_first(), b.drop_first());
    }
}

proof fn lemma_lex_lt_transitive(a: Seq<char>, b: Seq<char>, c: Seq<char>)
    requires
        lex_lt(a, b),
        lex_lt(b, c),
    ensures
        lex_lt(a, c),
    decreases a.len(),
{
    if b.len() == 0 || c.len() == 0 || a.len() == 0 {
    } else if a[0] == b[0] && b[0] == c[0] {
        lemma_lex_lt_transitive(a.drop_first(), b.drop_first(), c.drop_first());
    }
}

proof fn lemma_lex_lt_connected(a: Seq<char>, b: Seq<char>)
    requires
        !lex_lt(a, b),
        !lex_lt(b, a),
    ensures
        a == b,
    decreases a.len(),
{
    if a.len() == 0 || b.len() == 0 {
        assert(a =~= b);
    } else {
        assert((a[0] as u32) == (b[0] as u32));
        vstd::utf8::char_u32_cast(a[0], a[0] as u32);
        vstd::utf8::char_u32_cast(b[0], b[0] as u32);
        assert(a[0] == b[0]);
        lemma_lex_lt_connected(a.drop_first(), b.drop_first());
        assert(a =~= seq![a[0]] + a.drop_first());
        assert(b =~= seq![b[0]] + b.drop_first());
    }
}

proof fn lemma_entry_lt_asymmetric(a: DirectoryEntry, b: DirectoryEntry)
    requires
        entry_lt(a, b),
    ensures
        entry_le(a, b),
{
    if entry_rank(a) == entry_rank(b) {
        lemma_lex_lt_asymmetric(a.name@, b.name@);
    }
}

/// From `a <= b` and `b < c` conclude `a < c`.
proof fn lemma_entry_le_lt_transitive(a: DirectoryEntry, b: DirectoryEntry, c: DirectoryEntry)
    requires
        entry_le(a, b),
        entry_lt(b, c),
    ensures
        entry_lt(a, c),
{
    if entry_rank(a) == entry_rank(b) && entry_rank(b) == entry_rank(c) {
        if lex_lt(a.name@, b.name@) {
            lemma_lex_lt_transitive(a.name@, b.name@, c.name@);
        } else {
            lemma_lex_lt_asymmetric(b.name@, c.name@);
            if !lex_lt(b.name@, a.name@) {
                lemma_lex_lt_connected(a.name@, b.name@);
            }
        }
    }
}

/// From `a < b` and `b <= c` conclude `a < c`.
proof fn lemma_entry_lt_le_transitive(a: DirectoryEntry, b: DirectoryEntry, c: DirectoryEntry)
    requires
        entry_lt(a, b),
        entry_le(b, c),
    ensures
        entry_lt(a, c),
{
    if entry_rank(a) == entry_rank(b) && entry_rank(b) == entry_rank(c) {
        if lex_lt(b.name@, c.name@) {
            lemma_lex_lt_transitive(a.name@, b.name@, c.name@);
        } else {
            lemma_lex_lt_asymmetric(a.name@, b.name@);
            if !lex_lt(c.name@, b.name@) {
                lemma_lex_lt_connected(b.name@, c.name@);
            }
        }
    }
}

/// The result of [`insert_idx`] holds exactly the old indices and `i`.
proof fn lemma_insert_idx_elems(s: Seq<DirectoryEntry>, order: Seq<usize>, i: usize)
    ensures
        insert_idx(s, order, i).len() == order.len() + 1,
        forall|k: int|
            0 <= k < insert_idx(s, order, i).len() ==> (insert_idx(s, order, i)[k] == i
                || order.contains(#[trigger] insert_idx(s, order, i)[k])),
        insert_idx(s, order, i).contains(i),
        forall|x: usize| order.contains(x) ==> insert_idx(s, order, i).contains(x),
    decreases order.len(),
{
    if order.len() == 0 {
        assert(insert_idx(s, order, i)[0] == i);
    } else if !entry_lt(s[i as int], s[order[0] as int]) {
        lemma_insert_idx_elems(s, order.drop_first(), i);
        let r = insert_idx(s, order, i);
        let rt = insert_idx(s, order.drop_first(), i);
        assert(r == seq![order[0]] + rt);
        assert forall|k: int| 0 <= k < r.len() implies (r[k] == i || order.contains(
            #[trigger] r[k],
        )) by {
            if k == 0 {
                assert(order[0] == r[k]);
            } else {
                assert(r[k] == rt[k - 1]);
                if rt[k - 1] != i {
                    let m = choose|m: int|
                        0 <= m < order.drop_first().len() && order.drop_first()[m] == rt[k - 1];
                    assert(order[m + 1] == rt[k - 1]);
                }
            }
        }
        assert(r[0] == order[0]);
        assert forall|x: usize| order.contains(x) implies r.contains(x) by {
            let m = choose|m: int| 0 <= m < order.len() && order[m] == x;
            if m == 0 {
                assert(r[0] == x);
            } else {
                assert(order.drop_first()[m - 1] == x);
                assert(order.drop_first().contains(x));
                let t = choose|t: int| 0 <= t < rt.len() && rt[t] == x;
                assert(r[t + 1] == x);
            }
        }
        let t = choose|t: int| 0 <= t < rt.len() && rt[t] == i;
        assert(r[t + 1] == i);
    } else {
        let r = insert_idx(s, order, i);
        assert(r == seq![i] + order);
        assert(r[0] == i);
        assert forall|x: usize| order.contains(x) implies r.contains(x) by {
            let m = choose|m: int| 0 <= m < order.len() && order[m] == x;
            assert(r[m + 1] == x);
        }
    }
}

/// Inserting into a sorted listing keeps it sorted.
proof fn lemma_insert_idx_sorted(s: Seq<DirectoryEntry>, order: Seq<usize>, i: usize)
    requires
        sorted_by_entry(s, order),
    ensures
        sorted_by_entry(s, insert_idx(s, order, i)),
    decreases order.len(),
{
    let r = insert_idx(s, order, i);
    if entry_lt(s[i as int], s[i as int]) {
        lemma_entry_lt_asymmetric(s[i as int], s[i as int]);
    }
    if order.len() == 0 {
    } else if !entry_lt(s[i as int], s[order[0] as int]) {
        let tail = order.drop_first();
        let rt = insert_idx(s, tail, i);
        assert(sorted_by_entry(s, tail)) by {
            assert forall|k1: int, k2: int| 0 <= k1 <= k2 < tail.len() implies entry_le(
                s[tail[k1] as int],
                s[tail[k2] as int],
            ) by {
                assert(tail[k1] == order[k1 + 1] && tail[k2] == order[k2 + 1]);
            }
        }
        lemma_insert_idx_sorted(s, tail, i);
        lemma_insert_idx_elems(s, tail, i);
        assert(r == seq![order[0]] + rt);
        assert forall|k1: int, k2: int| 0 <= k1 <= k2 < r.len() implies entry_le(
            s[r[k1] as int],
            s[r[k2] as int],
        ) by {
            if k1 == 0 && k2 > 0 {
                assert(r[k2] == rt[k2 - 1]);
                if rt[k2 - 1] == i {
                    assert(entry_le(s[order[0] as int], s[i as int]));
                } else {
                    assert(tail.contains(rt[k2 - 1]));
                    let m = choose|m: int| 0 <= m < tail.len() && tail[m] == rt[k2 - 1];
                    assert(order[m + 1] == rt[k2 - 1]);
                    assert(entry_le(s[order[0] as int], s[order[m + 1] as int]));
                }
            } else if k1 > 0 {
                assert(r[k1] == rt[k1 - 1] && r[k2] == rt[k2 - 1]);
                assert(entry_le(s[rt[k1 - 1] as int], s[rt[k2 - 1] as int]));
            }
        }
    } else {
        assert(r == seq![i] + order);
        assert forall|k1: int, k2: int| 0 <= k1 <= k2 < r.len() implies entry_le(
            s[r[k1] as int],
            s[r[k2] as int],
        ) by {
            if k1 == 0 && k2 == 0 {
                if entry_lt(s[i as int], s[i as int]) {
                    lemma_entry_lt_asymmetric(s[i as int], s[i as int]);
                }
            } else if k1 == 0 && k2 > 0 {
                assert(r[k2] == order[k2 - 1]);
                assert(entry_le(s[order[0] as int], s[order[k2 - 1] as int]));
                lemma_entry_lt_le_transitive(
                    s[i as int],
                    s[order[0] as int],
                    s[order[k2 - 1] as int],
                );
                lemma_entry_lt_asymmetric(s[i as int], s[order[k2 - 1] as int]);
            } else if k1 > 0 {
                assert(r[k1] == order[k1 - 1] && r[k2] == order[k2 - 1]);
                assert(entry_le(s[order[k1 - 1] as int], s[order[k2 - 1] as int]));
            }
        }
    }
}

/// Everything [`order_upto`] selects, in range and listed, sorted, and
/// complete: every listed index below `n` is selected.
proof fn lemma_order_upto_props(s: Seq<DirectoryEntry>, n: int, include_files: bool)
    requires
        n <= s.len(),
        n <= usize::MAX,
    ensures
        forall|k: int|
            0 <= k < order_upto(s, n, include_files).len() ==> (
            #[trigger] order_upto(s, n, include_files)[k] as int) < n && listed(
                s[order_upto(s, n, include_files)[k] as int],
                include_files,
            ),
        sorted_by_entry(s, order_upto(s, n, include_files)),
        forall|m: int|
            0 <= m < n && listed(s[m], include_files) ==> order_upto(
                s,
                n,
                include_files,
            ).contains(m as usize),
    decreases n,
{
    if n <= 0 {
    } else {
        lemma_order_upto_props(s, n - 1, include_files);
        let prev = order_upto(s, n - 1, include_files);
        let cur = order_upto(s, n, include_files);
        if listed(s[n - 1], include_files) {
            let i = (n - 1) as usize;
            lemma_insert_idx_elems(s, prev, i);
            lemma_insert_idx_sorted(s, prev, i);
            assert(cur == insert_idx(s, prev, i));
            assert forall|k: int| 0 <= k < cur.len() implies (#[trigger] cur[k] as int) < n
                && listed(s[cur[k] as int], include_files) by {
                assert(cur[k] == insert_idx(s, prev, i)[k]);
                if cur[k] != i {
                    assert(prev.contains(cur[k]));
                    let m = choose|m: int| 0 <= m < prev.len() && prev[m] == cur[k];
                    assert(order_upto(s, n - 1, include_files)[m] == cur[k]);
                }
            }
            assert forall|m: int| 0 <= m < n && listed(s[m], include_files) implies cur.contains(
                m as usize,
            ) by {
                if m < n - 1 {
                    assert(prev.contains(m as usize));
                }
            }
        } else {
            assert forall|m: int| 0 <= m < n && listed(s[m], include_files) implies cur.contains(
                m as usize,
            ) by {
                if m < n - 1 {
                    assert(prev.contains(m as usize));
                }
            }
        }
    }
}

/// Every index the render order selects names an existing child, and one the
/// inclusion policy admits.
pub proof fn lemma_order_of_in_range(s: Seq<DirectoryEntry>, include_files: bool)
    requires
        s.len() <= usize::MAX,
    ensures
        forall|k: int|
            0 <= k < order_of(s, include_files).len() ==> (#[trigger] order_of(s, include_files)[k]
                as int) < s.len() && listed(s[order_of(s, include_files)[k] as int], include_files),
{
    lemma_order_upto_props(s, s.len() as int, include_files);
}

/// At every directory level the listing is sorted: directories come before
/// files, and within each of the two groups names ascend in codepoint order.
/// Moreover every child the inclusion policy admits appears in the listing.
pub proof fn lemma_listing_sorted_and_complete(s: Seq<DirectoryEntry>, include_files: bool)
    requires
        s.len() <= usize::MAX,
    ensures
        sorted_by_entry(s, order_of(s, include_files)),
        forall|m: int|
            0 <= m < s.len() && listed(s[m], include_files) ==> order_of(
                s,
                include_files,
            ).contains(m as usize),
        forall|k1: int, k2: int|
            0 <= k1 <= k2 < order_of(s, include_files).len() && s[order_of(s, include_files)[k2]
                as int].is_directory ==> s[order_of(s, include_files)[k1] as int].is_directory,
{
    lemma_order_upto_props(s, s.len() as int, include_files);
    let order = order_of(s, include_files);
    assert forall|k1: int, k2: int|
        0 <= k1 <= k2 < order.len() && s[order[k2] as int].is_directory implies s[order[k1]
        as int].is_directory by {
        assert(entry_le(s[order[k1] as int], s[order[k2] as int]));
    }
}

/// When files are excluded, every entry the render order selects for a
/// listing is a directory.
pub proof fn lemma_files_excluded(s: Seq<DirectoryEntry>)
    requires
        s.len() <= usize::MAX,
    ensures
        forall|k: int|
            0 <= k < order_of(s, false).len() ==> (#[trigger] order_of(s, false)[k] as int)
                < s.len() && s[order_of(s, false)[k] as int].is_directory,
{
    lemma_order_of_in_range(s, false);
}

/// Compares two names in strict lexicographic codepoint order.
fn lex_lt_exec(a: &str, b: &str) -> (r: bool)
    ensures
        r == lex_lt(a@, b@),
{
    let alen = a.unicode_len();
    let blen = b.unicode_len();
    proof {
        assert(a@.skip(0) =~= a@);
        assert(b@.skip(0) =~= b@);
    }
    let mut i: usize = 0;
    while i < alen && i < blen && a.get_char(i) == b.get_char(i)
        invariant
            alen == a@.len(),
            blen == b@.len(),
            i <= alen,
            i <= blen,
            lex_lt(a@, b@) == lex_lt(a@.skip(i as int), b@.skip(i as int)),
        decreases alen - i,
    {
        proof {
            assert(a@.skip(i as int).drop_first() =~= a@.skip(i as int + 1));
            assert(b@.skip(i as int).drop_first() =~= b@.skip(i as int + 1));
        }
        i = i + 1;
    }
    if i < alen && i < blen {
        (a.get_char(i) as u32) < (b.get_char(i) as u32)
    } else {
        i < blen
    }
}

/// Compares two entries in the listing's sort order.
fn entry_lt_exec(a: &DirectoryEntry, b: &DirectoryEntry) -> (r: bool)
    ensures
        r == entry_lt(*a, *b),
{
    if a.is_directory && !b.is_directory {
        true
    } else if !a.is_directory && b.is_directory {
        false
    } else {
        lex_lt_exec(a.name.as_str(), b.name.as_str())
    }
}

/// Under the scan's stopping conditions, [`insert_idx`] places `i` at `j`.
proof fn lemma_insert_idx_split(s: Seq<DirectoryEntry>, order: Seq<usize>, i: usize, j: int)
    requires
        0 <= j <= order.len(),
        forall|k: int| 0 <= k < j ==> !entry_lt(s[i as int], s[#[trigger] order[k] as int]),
        j < order.len() ==> entry_lt(s[i as int], s[order[j] as int]),
    ensures
        insert_idx(s, order, i) == order.insert(j, i),
    decreases j,
{
    if j == 0 {
        if order.len() == 0 {
            assert(insert_idx(s, order, i) =~= order.insert(0, i));
        } else {
            assert(insert_idx(s, order, i) =~= order.insert(0, i));
        }
    } else {
        let tail = order.drop_first();
        assert forall|k: int| 0 <= k < j - 1 implies !entry_lt(
            s[i as int],
            s[#[trigger] tail[k] as int],
        ) by {
            assert(tail[k] == order[k + 1]);
        }
        assert(j - 1 < tail.len() ==> entry_lt(s[i as int], s[tail[j - 1] as int]));
        lemma_insert_idx_split(s, tail, i, j - 1);
        assert(insert_idx(s, order, i) == seq![order[0]] + tail.insert(j - 1, i));
        assert(seq![order[0]] + tail.insert(j - 1, i) =~= order.insert(j, i));
    }
}

/// Inserts child index `i` into the partial render order.
fn insert_index(children: &Vec<DirectoryEntry>, order: &mut Vec<usize>, i: usize)
    requires
        forall|k: int| 0 <= k < old(order)@.len() ==> (#[trigger] old(order)@[k] as int)
            < children@.len(),
        i < children@.len(),
    ensures
        final(order)@ == insert_idx(children@, old(order)@, i),
{
    let mut j: usize = 0;
    while j < order.len() && !entry_lt_exec(&children[i], &children[order[j]])
        invariant
            forall|k: int| 0 <= k < order@.len() ==> (#[trigger] order@[k] as int)
                < children@.len(),
            i < children@.len(),
            order@ == old(order)@,
            j <= order@.len(),
            forall|k: int|
                0 <= k < j ==> !entry_lt(children@[i as int], children@[#[trigger] order@[k] as int]),
        decreases order@.len() - j,
    {
        j = j + 1;
    }
    proof {
        lemma_insert_idx_split(children@, order@, i, j as int);
    }
    order.insert(j, i);
}

/// Computes the render order of a directory's children.
pub fn compute_order(children: &Vec<DirectoryEntry>, include_files: bool) -> (order: Vec<usize>)
    ensures
        order@ == order_of(children@, include_files),
        forall|k: int| 0 <= k < order@.len() ==> (#[trigger] order@[k] as int) < children@.len(),
{
    let mut order: Vec<usize> = Vec::new();
    let mut i: usize = 0;
    while i < children.len()
        invariant
            i <= children@.len(),
            order@ == order_upto(children@, i as int, include_files),
            forall|k: int| 0 <= k < order@.len() ==> (#[trigger] order@[k] as int)
                < children@.len(),
        decreases children@.len() - i,
    {
        if children[i].is_directory || include_files {
            proof {
                lemma_insert_idx_elems(children@, order@, i);
            }
            let ghost pre = order@;
            insert_index(children, &mut order, i);
            proof {
                assert forall|k: int| 0 <= k < order@.len() implies (#[trigger] order@[k] as int)
                    < children@.len() by {
                    if order@[k] != i {
                        assert(pre.contains(order@[k]));
                        let m = choose|m: int| 0 <= m < pre.len() && pre[m] == order@[k];
                    }
                }
            }
        }
        i = i + 1;
    }
    order
}

} // verus!
