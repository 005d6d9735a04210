//! The file table of the cache, sorted by file name so that a file is found by
//! its name with a binary search.

use vstd::prelude::*;
use vstd::string::*;
use vstd::utf8::encode_utf8;
use crate::smcache::raw::{File, NO_FILE_SENTINEL};

verus! {

/// `a` comes before `b` in byte order, given that they agree before index `i`:
/// at the first index where they differ `a` has the smaller byte, or `a` ends
/// there and `b` goes on.
pub open spec fn less_from(a: Seq<u8>, b: Seq<u8>, i: int) -> bool
    decreases a.len() - i,
{
    if i >= b.len() {
        false
    } else if i >= a.len() {
        true
    } else if a[i] != b[i] {
        a[i] < b[i]
    } else {
        less_from(a, b, i + 1)
    }
}

/// `a` comes before `b` in byte order.
pub open spec fn lex_less(a: Seq<u8>, b: Seq<u8>) -> bool {
    less_from(a, b, 0)
}

/// Of two byte strings one comes before the other, or they are the same; no
/// two of the three hold.
pub proof fn lemma_order_total(a: Seq<u8>, b: Seq<u8>, i: int)
    requires
        0 <= i <= a.len(),
        i <= b.len(),
        forall|k: int| 0 <= k < i ==> a[k] == b[k],
    ensures
        less_from(a, b, i) || less_from(b, a, i) || a == b,
        !(less_from(a, b, i) && less_from(b, a, i)),
        a == b ==> !less_from(a, b, i),
    decreases a.len() - i,
{
    if i >= b.len() || i >= a.len() {
        if a.len() == b.len() {
            assert(a =~= b);
        }
    } else if a[i] == b[i] {
        lemma_order_total(a, b, i + 1);
    }
}

/// If `a` comes before `b` and `b` before `c`, then `a` comes before `c`.
pub proof fn lemma_order_transitive(a: Seq<u8>, b: Seq<u8>, c: Seq<u8>, i: int)
    requires
        0 <= i,
        less_from(a, b, i),
        less_from(b, c, i),
    ensures
        less_from(a, c, i),
    decreases a.len() - i,
{
    if i < a.len() && i < b.len() && i < c.len() && a[i] == b[i] && b[i] == c[i] {
        lemma_order_transitive(a, b, c, i + 1);
    }
}

/// If `a` does not come after `b`, and `b` comes before `c`, then `a` comes
/// before `c`.
pub proof fn lemma_order_before(a: Seq<u8>, b: Seq<u8>, c: Seq<u8>)
    requires
        !lex_less(b, a),
        lex_less(b, c),
    ensures
        lex_less(a, c),
{
    lemma_order_total(a, b, 0);
    if a != b {
        lemma_order_transitive(a, b, c, 0);
    }
}

/// If `c` comes before `a`, and `a` does not come after `b`, then `c` comes
/// before `b`.
pub proof fn lemma_order_after(c: Seq<u8>, a: Seq<u8>, b: Seq<u8>)
    requires
        lex_less(c, a),
        !lex_less(b, a),
    ensures
        lex_less(c, b),
{
    lemma_order_total(a, b, 0);
    if a != b {
        lemma_order_transitive(c, a, b, 0);
    }
}

/// Tells whether `a` comes before `b` in byte order.
pub fn bytes_less(a: &[u8], b: &[u8]) -> (less: bool)
    ensures
        less == lex_less(a@, b@),
{
    let mut i: usize = 0;
    loop
        invariant
            0 <= i <= a@.len(),
            i <= b@.len(),
            less_from(a@, b@, i as int) == lex_less(a@, b@),
        decreases a@.len() - i,
    {
        if i >= b.len() {
            return false;
        }
        if i >= a.len() {
            return true;
        }
        if a[i] != b[i] {
            return a[i] < b[i];
        }
        i += 1;
    }
}

/// A file of the table with the name that it is sorted by.
#[derive(Debug)]
pub struct FileEntry {
    /// The name of the file.
    pub name: String,
    /// The record of the file.
    pub file: File,
}

/// The mathematical value of a [`FileEntry`]: the name as UTF-8 and the record.
pub struct FileEntryView {
    pub name: Seq<u8>,
    pub file: File,
}

impl View for FileEntry {
    type V = FileEntryView;

    open spec fn view(&self) -> FileEntryView {
        FileEntryView { name: encode_utf8(self.name@), file: self.file }
    }
}

/// The values of `entries`.
pub open spec fn entries_view(entries: Seq<FileEntry>) -> Seq<FileEntryView> {
    Seq::new(entries.len(), |i: int| entries[i]@)
}

/// No entry has a name that comes before the name of an earlier entry.
pub open spec fn sorted_by_name(entries: Seq<FileEntryView>) -> bool {
    forall|i: int, j: int|
        0 <= i < j < entries.len() ==> !lex_less(
            (#[trigger] entries[j]).name,
            (#[trigger] entries[i]).name,
        )
}

/// The sorted `sorted` with `entry` put behind the last entry whose name does
/// not come after its own. Entries with the same name keep the order in which
/// they came.
pub open spec fn with_entry(sorted: Seq<FileEntryView>, entry: FileEntryView) -> Seq<FileEntryView>
    decreases sorted.len(),
{
    if sorted.len() == 0 {
        seq![entry]
    } else if !lex_less(entry.name, sorted.last().name) {
        sorted.push(entry)
    } else {
        with_entry(sorted.drop_last(), entry).push(sorted.last())
    }
}

/// Putting an entry in its place keeps the entries sorted, and adds one entry.
pub proof fn lemma_with_entry(sorted: Seq<FileEntryView>, entry: FileEntryView)
    requires
        sorted_by_name(sorted),
    ensures
        sorted_by_name(with_entry(sorted, entry)),
        with_entry(sorted, entry).len() == sorted.len() + 1,
        forall|i: int|
            0 <= i < with_entry(sorted, entry).len() ==> #[trigger] with_entry(sorted, entry)[i]
                == entry || sorted.contains(with_entry(sorted, entry)[i]),
    decreases sorted.len(),
{
    let r = with_entry(sorted, entry);
    if sorted.len() == 0 {
    } else if !lex_less(entry.name, sorted.last().name) {
        assert forall|i: int, j: int| 0 <= i < j < r.len() implies !lex_less(
            (#[trigger] r[j]).name,
            (#[trigger] r[i]).name,
        ) by {
            if j == sorted.len() && i < sorted.len() - 1 {
                // r[i] <= last <= entry
                if lex_less(entry.name, sorted[i].name) {
                    lemma_order_after(entry.name, sorted[i].name, sorted.last().name);
                }
            }
        }
        assert forall|i: int| 0 <= i < r.len() implies #[trigger] r[i] == entry || sorted.contains(
            r[i],
        ) by {
            if i < sorted.len() {
                assert(sorted[i] == r[i]);
            }
        }
    } else {
        let front = sorted.drop_last();
        let last = sorted.last();
        assert(sorted_by_name(front)) by {
            assert forall|i: int, j: int| 0 <= i < j < front.len() implies !lex_less(
                (#[trigger] front[j]).name,
                (#[trigger] front[i]).name,
            ) by {
                assert(front[i] == sorted[i] && front[j] == sorted[j]);
            }
        }
        lemma_with_entry(front, entry);
        let inner = with_entry(front, entry);
        assert forall|i: int, j: int| 0 <= i < j < r.len() implies !lex_less(
            (#[trigger] r[j]).name,
            (#[trigger] r[i]).name,
        ) by {
            if j == inner.len() {
                let e = inner[i];
                assert(e == entry || front.contains(e));
                if e == entry {
                    lemma_order_total(entry.name, last.name, 0);
                } else {
                    let k = choose|k: int| 0 <= k < front.len() && front[k] == e;
                    assert(sorted[k] == e);
                    assert(!lex_less(sorted[sorted.len() - 1].name, sorted[k].name));
                }
            } else {
                assert(inner[i] == r[i] && inner[j] == r[j]);
            }
        }
        assert forall|i: int| 0 <= i < r.len() implies #[trigger] r[i] == entry || sorted.contains(
            r[i],
        ) by {
            if i < inner.len() {
                let e = inner[i];
                assert(e == entry || front.contains(e));
                if e != entry {
                    let k = choose|k: int| 0 <= k < front.len() && front[k] == e;
                    assert(sorted[k] == e);
                }
            } else {
                assert(sorted[sorted.len() - 1] == r[i]);
            }
        }
    }
}

/// Putting an entry in its place adds that entry and changes no other: the
/// entries are those from before and the new one, in another order.
pub proof fn lemma_with_entry_permutes(sorted: Seq<FileEntryView>, entry: FileEntryView)
    ensures
        with_entry(sorted, entry).to_multiset() == sorted.to_multiset().insert(entry),
    decreases sorted.len(),
{
    if sorted.len() == 0 || !lex_less(entry.name, sorted.last().name) {
        if sorted.len() == 0 {
            assert(seq![entry] =~= sorted.push(entry));
        }
        vstd::seq_lib::to_multiset_build(sorted, entry);
    } else {
        let front = sorted.drop_last();
        let last = sorted.last();
        lemma_with_entry_permutes(front, entry);
        vstd::seq_lib::to_multiset_build(with_entry(front, entry), last);
        vstd::seq_lib::to_multiset_build(front, last);
        assert(front.push(last) =~= sorted);
        assert(front.to_multiset().insert(entry).insert(last) =~= front.to_multiset().insert(
            last,
        ).insert(entry));
    }
}

/// Puts `entry` in its place in the sorted `sorted`: behind the last entry whose
/// name does not come after its own.
pub fn insert_entry(sorted: &mut Vec<FileEntry>, entry: FileEntry)
    ensures
        entries_view(final(sorted)@) == with_entry(entries_view(old(sorted)@), entry@),
{
    let ghost before = entries_view(sorted@);
    let mut j: usize = sorted.len();
    assert(before.take(j as int) =~= before);
    assert(before.skip(j as int) =~= Seq::<FileEntryView>::empty());
    while j > 0 && bytes_less(entry.name.as_str().as_bytes(), sorted[j - 1].name.as_str().as_bytes())
        invariant
            entries_view(sorted@) == before,
            0 <= j <= before.len(),
            with_entry(before, entry@) == with_entry(before.take(j as int), entry@) + before.skip(
                j as int,
            ),
        decreases j,
    {
        proof {
            assert(before[j - 1] == sorted@[j - 1]@);
            assert(before.take(j as int).drop_last() =~= before.take(j - 1));
            assert(with_entry(before.take(j - 1), entry@).push(before[j - 1]) + before.skip(j as int)
                =~= with_entry(before.take(j - 1), entry@) + before.skip(j - 1));
        }
        j -= 1;
    }
    proof {
        if j > 0 {
            assert(before[j - 1] == sorted@[j - 1]@);
            assert(before.take(j as int).last() == before[j - 1]);
        }
    }
    let ghost value = entry@;
    sorted.insert(j, entry);
    assert(entries_view(sorted@) =~= before.take(j as int).push(value) + before.skip(j as int));
}

/// The number of the first `n` entries whose name comes before `name`.
pub open spec fn names_before(entries: Seq<FileEntryView>, n: int, name: Seq<u8>) -> int
    decreases n,
{
    if n <= 0 {
        0
    } else if lex_less(entries[n - 1].name, name) {
        names_before(entries, n - 1, name) + 1
    } else {
        names_before(entries, n - 1, name)
    }
}

/// The index of the file named `name` in the sorted table: that of the first
/// entry with this name, cut down to 32 bits, or `NO_FILE_SENTINEL` if there is
/// none or no name.
pub open spec fn file_index(entries: Seq<FileEntryView>, name: Option<Seq<u8>>) -> u32 {
    match name {
        None => NO_FILE_SENTINEL,
        Some(name) => {
            let k = names_before(entries, entries.len() as int, name);
            if k < entries.len() && entries[k].name == name {
                k as u32
            } else {
                NO_FILE_SENTINEL
            }
        },
    }
}

/// Where the first `k` of `n` entries come before `name` and the others do not,
/// `k` is the number of those that do.
pub proof fn lemma_names_before(entries: Seq<FileEntryView>, n: int, k: int, name: Seq<u8>)
    requires
        0 <= k <= n <= entries.len(),
        forall|i: int| 0 <= i < k ==> lex_less((#[trigger] entries[i]).name, name),
        forall|i: int| k <= i < n ==> !lex_less((#[trigger] entries[i]).name, name),
    ensures
        names_before(entries, n, name) == k,
    decreases n,
{
    if n > 0 {
        if k == n {
            lemma_names_before(entries, n - 1, k - 1, name);
        } else {
            lemma_names_before(entries, n - 1, k, name);
        }
    }
}

/// In a sorted table, the entry at the number of names before `name` is the
/// first one with that name, if any entry has it.
pub proof fn lemma_file_index_first(entries: Seq<FileEntryView>, name: Seq<u8>, i: int)
    requires
        sorted_by_name(entries),
        0 <= i < entries.len(),
        entries[i].name == name,
    ensures
        names_before(entries, entries.len() as int, name) <= i,
        entries[names_before(entries, entries.len() as int, name)].name == name,
        forall|j: int|
            0 <= j < names_before(entries, entries.len() as int, name) ==> (
            #[trigger] entries[j]).name != name,
{
    let n = entries.len() as int;
    let k = first_not_before(entries, name, i);
    lemma_first_not_before(entries, name, i);
    lemma_order_total(entries[i].name, name, 0);
    assert forall|j: int| k <= j < n implies !lex_less((#[trigger] entries[j]).name, name) by {
        if j > i && lex_less(entries[j].name, name) {
            lemma_order_total(entries[i].name, entries[j].name, 0);
        }
    }
    assert forall|j: int| 0 <= j < k implies lex_less((#[trigger] entries[j]).name, name) by {
        if j < k - 1 && !lex_less(entries[j].name, name) {
            lemma_order_before(entries[j].name, entries[k - 1].name, name);
        }
    }
    lemma_names_before(entries, n, k, name);
    assert forall|j: int| 0 <= j < k implies (#[trigger] entries[j]).name != name by {
        lemma_order_total(entries[j].name, name, 0);
    }
    lemma_order_total(entries[k].name, name, 0);
    if entries[k].name != name && k < i {
        lemma_order_total(name, entries[k].name, 0);
        assert(!lex_less(entries[i].name, entries[k].name));
    }
}

/// The entries from `first_not_before` up to `i` do not come before `name`,
/// and the one right before them does.
pub proof fn lemma_first_not_before(entries: Seq<FileEntryView>, name: Seq<u8>, i: int)
    requires
        0 <= i < entries.len(),
    ensures
        0 <= first_not_before(entries, name, i) <= i,
        forall|j: int|
            first_not_before(entries, name, i) <= j < i ==> !lex_less(
                (#[trigger] entries[j]).name,
                name,
            ),
        first_not_before(entries, name, i) > 0 ==> lex_less(
            entries[first_not_before(entries, name, i) - 1].name,
            name,
        ),
    decreases i,
{
    if i > 0 && !lex_less(entries[i - 1].name, name) {
        lemma_first_not_before(entries, name, i - 1);
    }
}

/// The least index up to `i` whose entry does not come before `name`, given
/// that the entry at `i` does not.
pub open spec fn first_not_before(entries: Seq<FileEntryView>, name: Seq<u8>, i: int) -> int
    decreases i,
{
    if i > 0 && !lex_less(entries[i - 1].name, name) {
        first_not_before(entries, name, i - 1)
    } else {
        i
    }
}

/// Finds the file named `name` in the sorted table by binary search.
pub fn find_file(files: &Vec<FileEntry>, name: &str) -> (index: u32)
    requires
        sorted_by_name(entries_view(files@)),
    ensures
        index == file_index(entries_view(files@), Some(encode_utf8(name@))),
{
    let ghost entries = entries_view(files@);
    let key = name.as_bytes();
    let n = files.len();
    let mut lo: usize = 0;
    let mut hi: usize = n;
    while lo < hi
        invariant
            entries == entries_view(files@),
            sorted_by_name(entries),
            n == files@.len(),
            0 <= lo <= hi <= n,
            forall|i: int| 0 <= i < lo ==> lex_less((#[trigger] entries[i]).name, key@),
            forall|i: int| hi <= i < n ==> !lex_less((#[trigger] entries[i]).name, key@),
        decreases hi - lo,
    {
        let mid = lo + (hi - lo) / 2;
        assert(entries[mid as int] == files@[mid as int]@);
        if bytes_less(files[mid].name.as_str().as_bytes(), key) {
            assert forall|i: int| 0 <= i < mid + 1 implies lex_less(
                (#[trigger] entries[i]).name,
                key@,
            ) by {
                if i < mid {
                    lemma_order_before(entries[i].name, entries[mid as int].name, key@);
                }
            }
            lo = mid + 1;
        } else {
            assert forall|i: int| mid <= i < n implies !lex_less(
                (#[trigger] entries[i]).name,
                key@,
            ) by {
                if i > mid && lex_less(entries[i].name, key@) {
                    lemma_order_before(entries[mid as int].name, entries[i].name, key@);
                }
            }
            hi = mid;
        }
    }
    proof {
        lemma_names_before(entries, n as int, lo as int, key@);
    }
    if lo < n {
        assert(entries[lo as int] == files@[lo as int]@);
        if !bytes_less(key, files[lo].name.as_str().as_bytes()) {
            proof {
                lemma_order_total(entries[lo as int].name, key@, 0);
            }
            return #[verifier::truncate] (lo as u32);
        }
        proof {
            lemma_order_total(entries[lo as int].name, key@, 0);
        }
    }
    NO_FILE_SENTINEL
}

} // verus!
