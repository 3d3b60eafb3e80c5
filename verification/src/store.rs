//! The index store's logic: what one append writes, how a whole file
//! reads back, and how queries sort and filter the result. The
//! surrounding binary owns the file handles; every byte it writes or
//! interprets is computed here.

use vstd::prelude::*;
use crate::entry::{Entry, EntryView, entry_le, lemma_entry_le_total, lemma_entry_le_trans};
use crate::filter::{Filter, FilterView, kept, apply_count};
use crate::record::{
    spec_row,
    header_text,
    spec_parse_index,
    index_row,
    header_row,
    parse_index,
    complete,
    records,
    lemma_index_append,
    lemma_index_fresh,
};
use vstd::string::StrSliceExecFns;
use vstd::seq_lib::lemma_multiset_commutative;
use vstd::multiset::Multiset;

verus! {

/// Why a query failed.
#[derive(Debug, Clone, Copy, PartialEq, Eq, Structural)]
pub enum StoreError {
    /// An index file did not parse as index records.
    ReadIndexFile,
}

/// The append-only per-host index store, rooted at one data directory.
#[derive(Debug)]
pub struct Store {
    data_dir: String,
}

impl View for Store {
    type V = Seq<char>;

    closed spec fn view(&self) -> Seq<char> {
        self.data_dir@
    }
}

/// A store rooted at the given data directory.
pub fn new(data_dir: String) -> (r: Store)
    ensures
        r@ == data_dir@,
{
    Store { data_dir }
}

/// The file name one host's entries live under: the hostname with
/// `.csv` appended. Plain concatenation, because hostnames legitimately
/// contain dots and must not be truncated at the last one.
pub fn index_file_name(hostname: &str) -> (r: String)
    ensures
        r@ == hostname@ + ".csv"@,
{
    let mut s = hostname.to_owned();
    s.append(".csv");
    s
}

/// The total order on entries, as a comparison function.
pub open spec fn entry_order() -> spec_fn(EntryView, EntryView) -> bool {
    |a: EntryView, b: EntryView| entry_le(a, b)
}

/// Insertion into a sorted sequence, after any equal entries.
pub open spec fn sorted_insert(s: Seq<EntryView>, e: EntryView) -> Seq<EntryView>
    decreases s.len(),
{
    if s.len() == 0 {
        seq![e]
    } else if entry_le(s[0], e) {
        seq![s[0]] + sorted_insert(s.drop_first(), e)
    } else {
        seq![e] + s
    }
}

/// The index's sort: ascending in the entry order.
pub open spec fn spec_sort(s: Seq<EntryView>) -> Seq<EntryView>
    decreases s.len(),
{
    if s.len() == 0 {
        s
    } else {
        sorted_insert(spec_sort(s.drop_first()), s[0])
    }
}

proof fn lemma_sorted_insert_sorted(s: Seq<EntryView>, e: EntryView)
    requires
        vstd::relations::sorted_by(s, entry_order()),
    ensures
        vstd::relations::sorted_by(sorted_insert(s, e), entry_order()),
    decreases s.len(),
{
    let ord = entry_order();
    if s.len() == 0 {
    } else if entry_le(s[0], e) {
        assert(vstd::relations::sorted_by(s.drop_first(), ord)) by {
            assert(forall|i: int, j: int|
                0 <= i < j < s.drop_first().len() ==> ord(
                    #[trigger] s.drop_first()[i],
                    #[trigger] s.drop_first()[j],
                ));
        }
        lemma_sorted_insert_sorted(s.drop_first(), e);
        let r = seq![s[0]] + sorted_insert(s.drop_first(), e);
        assert forall|i: int, j: int| 0 <= i < j < r.len() implies ord(
            #[trigger] r[i],
            #[trigger] r[j],
        ) by {
            lemma_sorted_insert_elements(s.drop_first(), e);
            if i == 0 {
                let x = r[j];
                assert(sorted_insert(s.drop_first(), e)[j - 1] == x);
                if s.drop_first().contains(x) {
                    let w = choose|w: int|
                        0 <= w < s.drop_first().len() && s.drop_first()[w] == x;
                    assert(ord(s[0], s[w + 1]));
                } else {
                    assert(x == e);
                }
            } else {
                assert(ord(
                    sorted_insert(s.drop_first(), e)[i - 1],
                    sorted_insert(s.drop_first(), e)[j - 1],
                ));
            }
        }
    } else {
        let r = seq![e] + s;
        assert forall|i: int, j: int| 0 <= i < j < r.len() implies ord(
            #[trigger] r[i],
            #[trigger] r[j],
        ) by {
            if i == 0 {
                lemma_entry_le_total(s[0], e);
                assert(entry_le(e, s[0]));
                if j > 1 {
                    assert(ord(s[0], s[j - 1]));
                    lemma_entry_le_trans(e, s[0], s[j - 1]);
                }
            } else {
                assert(ord(s[i - 1], s[j - 1]));
            }
        }
    }
}

/// Everything in an insertion's result is the new entry or one of the old ones.
proof fn lemma_sorted_insert_elements(s: Seq<EntryView>, e: EntryView)
    ensures
        forall|i: int|
            0 <= i < sorted_insert(s, e).len() ==> (#[trigger] sorted_insert(s, e)[i] == e
                || s.contains(sorted_insert(s, e)[i])),
        sorted_insert(s, e).len() == s.len() + 1,
    decreases s.len(),
{
    if s.len() == 0 {
    } else if entry_le(s[0], e) {
        lemma_sorted_insert_elements(s.drop_first(), e);
        let r = seq![s[0]] + sorted_insert(s.drop_first(), e);
        assert forall|i: int| 0 <= i < r.len() implies (#[trigger] r[i] == e || s.contains(
            r[i],
        )) by {
            if i == 0 {
                assert(s.contains(s[0]));
            } else {
                let x = sorted_insert(s.drop_first(), e)[i - 1];
                if x != e {
                    assert(s.drop_first().contains(x));
                    let w = choose|w: int|
                        0 <= w < s.drop_first().len() && s.drop_first()[w] == x;
                    assert(s[w + 1] == x);
                }
            }
        }
    }
}

proof fn lemma_sorted_insert_multiset(s: Seq<EntryView>, e: EntryView)
    ensures
        sorted_insert(s, e).to_multiset() == s.to_multiset().insert(e),
    decreases s.len(),
{
    broadcast use vstd::seq_lib::group_to_multiset_ensures;

    if s.len() == 0 {
        assert(seq![e] =~= Seq::<EntryView>::empty().push(e));
    } else if entry_le(s[0], e) {
        lemma_sorted_insert_multiset(s.drop_first(), e);
        let rest = sorted_insert(s.drop_first(), e);
        lemma_multiset_commutative(seq![s[0]], rest);
        lemma_multiset_commutative(seq![s[0]], s.drop_first());
        assert(s =~= seq![s[0]] + s.drop_first());
        assert(seq![s[0]].to_multiset().add(rest.to_multiset()) =~= seq![s[0]].to_multiset().add(
            s.drop_first().to_multiset().insert(e),
        ));
        assert(seq![s[0]].to_multiset().add(s.drop_first().to_multiset().insert(e))
            =~= (seq![s[0]].to_multiset().add(s.drop_first().to_multiset())).insert(e));
    } else {
        lemma_multiset_commutative(seq![e], s);
        assert(seq![e].to_multiset() =~= Multiset::<EntryView>::empty().insert(e));
        assert(seq![e].to_multiset().add(s.to_multiset()) =~= s.to_multiset().insert(e));
    }
}

/// The sort is a permutation and ascending (the index's stable order).
pub proof fn lemma_spec_sort_ensures(s: Seq<EntryView>)
    ensures
        vstd::relations::sorted_by(spec_sort(s), entry_order()),
        spec_sort(s).to_multiset() == s.to_multiset(),
        spec_sort(s).len() == s.len(),
    decreases s.len(),
{
    broadcast use vstd::seq_lib::group_to_multiset_ensures;

    if s.len() == 0 {
    } else {
        lemma_spec_sort_ensures(s.drop_first());
        lemma_sorted_insert_sorted(spec_sort(s.drop_first()), s[0]);
        lemma_sorted_insert_multiset(spec_sort(s.drop_first()), s[0]);
        lemma_sorted_insert_elements(spec_sort(s.drop_first()), s[0]);
        assert(s =~= seq![s[0]] + s.drop_first());
        lemma_multiset_commutative(seq![s[0]], s.drop_first());
        assert(seq![s[0]].to_multiset() =~= Multiset::<EntryView>::empty().insert(s[0]));
        assert(s.to_multiset() =~= s.drop_first().to_multiset().insert(s[0]));
    }
}

proof fn lemma_sorted_insert_at(s: Seq<EntryView>, e: EntryView, k: int)
    requires
        0 <= k <= s.len(),
        forall|j: int| 0 <= j < k ==> entry_le(#[trigger] s[j], e),
        k == s.len() || !entry_le(s[k], e),
    ensures
        sorted_insert(s, e) == s.subrange(0, k) + seq![e] + s.skip(k),
    decreases k,
{
    if s.len() == 0 {
        assert(s.subrange(0, 0) =~= Seq::<EntryView>::empty());
        assert(s.skip(0) =~= s);
        assert(s.subrange(0, 0) + seq![e] + s.skip(0) =~= seq![e]);
    } else if k == 0 {
        assert(!entry_le(s[0], e));
        assert(s.subrange(0, 0) =~= Seq::<EntryView>::empty());
        assert(s.skip(0) =~= s);
        assert(s.subrange(0, 0) + seq![e] + s.skip(0) =~= seq![e] + s);
    } else {
        assert(entry_le(s[0], e));
        let s2 = s.drop_first();
        assert(forall|j: int| 0 <= j < k - 1 ==> #[trigger] s2[j] == s[j + 1]);
        lemma_sorted_insert_at(s2, e, k - 1);
        assert(seq![s[0]] + (s2.subrange(0, k - 1) + seq![e] + s2.skip(k - 1)) =~= s.subrange(
            0,
            k,
        ) + seq![e] + s.skip(k));
    }
}

/// Sorts the entries ascending in the index order.
pub fn sort_entries(entries: Vec<Entry>) -> (r: Vec<Entry>)
    ensures
        r.deep_view() == spec_sort(entries.deep_view()),
{
    let ghost sv = entries.deep_view();
    let mut out: Vec<Entry> = Vec::new();
    let mut i = entries.len();
    proof {
        assert(sv.skip(i as int).len() == 0);
        assert(out.deep_view() =~= spec_sort(sv.skip(i as int)));
    }
    while i > 0
        invariant
            i <= entries@.len(),
            sv == entries.deep_view(),
            sv.len() == entries@.len(),
            out.deep_view() == spec_sort(sv.skip(i as int)),
        decreases i,
    {
        i -= 1;
        let e = entries[i].duplicate();
        proof {
            assert(entries.deep_view()[i as int] == entries@[i as int]@);
        }
        let mut k: usize = 0;
        while k < out.len() && out[k].le(&e)
            invariant
                k <= out@.len(),
                out.deep_view().len() == out@.len(),
                e@ == sv[i as int],
                forall|j: int| 0 <= j < k ==> entry_le(#[trigger] out.deep_view()[j], e@),
            decreases out@.len() - k,
        {
            proof {
                assert(out.deep_view()[k as int] == out@[k as int]@);
            }
            k += 1;
        }
        let ghost old_deep = out.deep_view();
        let ghost old_sh = out@;
        proof {
            if k < out@.len() {
                assert(out.deep_view()[k as int] == out@[k as int]@);
                assert(!entry_le(old_deep[k as int], e@));
            }
            lemma_sorted_insert_at(old_deep, e@, k as int);
        }
        out.insert(k, e);
        proof {
            assert(old_deep.len() == old_sh.len());
            assert forall|j: int| 0 <= j < out@.len() implies #[trigger] out.deep_view()[j] == (
            old_deep.subrange(0, k as int) + seq![e@] + old_deep.skip(k as int))[j] by {
                assert(out.deep_view()[j] == out@[j]@);
                if j < k {
                    assert(out@[j] == old_sh[j]);
                    assert(old_deep[j] == old_sh[j]@);
                } else if j == k {
                    assert(out@[j]@ == e@);
                } else {
                    assert(out@[j] == old_sh[j - 1]);
                    assert(old_deep[j - 1] == old_sh[j - 1]@);
                }
            }
            assert(out.deep_view() =~= old_deep.subrange(0, k as int) + seq![e@] + old_deep.skip(
                k as int,
            ));
            assert(sv.skip(i as int)[0] == sv[i as int]);
            assert(sv.skip(i as int).drop_first() =~= sv.skip(i + 1 as int));
            assert(out.deep_view() == spec_sort(sv.skip(i as int)));
        }
    }
    proof {
        assert(sv.skip(0) =~= sv);
    }
    out
}

impl Store {
    /// The path of one host's index file: the data directory, a
    /// separator, and the hostname with `.csv` appended.
    pub fn index_file_path(&self, hostname: &str) -> (r: String)
        ensures
            r@ == self@ + "/"@ + hostname@ + ".csv"@,
    {
        let mut s = self.data_dir.clone();
        s.append("/");
        s.append(hostname);
        s.append(".csv");
        s
    }

    /// What one append writes: the file to append to and the bytes,
    /// with the header exactly when the file does not exist yet.
    pub fn add_entry(&self, entry: &Entry, file_exists: bool) -> (r: (String, String))
        requires
            entry@.valid(),
        ensures
            r.0@ == self@ + "/"@ + entry@.hostname + ".csv"@,
            r.1@ == if file_exists {
                spec_row(entry@)
            } else {
                header_text() + spec_row(entry@)
            },
    {
        let path = self.index_file_path(entry.hostname.as_str());
        let mut data = String::new();
        if !file_exists {
            let h = header_row();
            data.append(h.as_str());
        }
        let row = index_row(entry);
        data.append(row.as_str());
        proof {
            if !file_exists {
                assert(data@ =~= header_text() + spec_row(entry@));
            } else {
                assert(data@ =~= spec_row(entry@));
            }
        }
        (path, data)
    }

    /// An entry whose command is empty is never persisted: `add` plans
    /// nothing for it.
    pub fn add(&self, entry: &Entry, file_exists: bool) -> (r: Option<(String, String)>)
        requires
            entry@.valid(),
        ensures
            r is None <==> entry@.command.len() == 0,
            r matches Some(p) ==> p.0@ == self@ + "/"@ + entry@.hostname + ".csv"@ && p.1@ == (
            if file_exists {
                spec_row(entry@)
            } else {
                header_text() + spec_row(entry@)
            }),
    {
        if entry.command.as_str().is_empty() {
            return None;
        }
        Some(self.add_entry(entry, file_exists))
    }
}

/// The entries of several index files, in file order.
pub open spec fn parsed_all(contents: Seq<Seq<char>>) -> Option<Seq<EntryView>>
    decreases contents.len(),
{
    if contents.len() == 0 {
        Some(Seq::empty())
    } else {
        match (spec_parse_index(contents[0]), parsed_all(contents.drop_first())) {
            (Some(a), Some(b)) => Some(a + b),
            _ => None,
        }
    }
}

proof fn lemma_deep_view_push(oldv: Vec<Entry>, newv: Vec<Entry>, x: Entry)
    requires
        newv@ == oldv@.push(x),
    ensures
        newv.deep_view() == oldv.deep_view().push(x@),
{
    assert forall|j: int| 0 <= j < newv.deep_view().len() implies #[trigger] newv.deep_view()[j]
        == oldv.deep_view().push(x@)[j] by {
        assert(newv.deep_view()[j] == newv@[j]@);
        if j < oldv@.len() {
            assert(newv@[j] == oldv@[j]);
            assert(oldv.deep_view()[j] == oldv@[j]@);
        }
    }
    assert(newv.deep_view() =~= oldv.deep_view().push(x@));
}

/// Appends copies of all of `part` to `all`.
fn append_entries(all: &mut Vec<Entry>, part: &Vec<Entry>)
    ensures
        final(all).deep_view() == old(all).deep_view() + part.deep_view(),
{
    let mut k: usize = 0;
    proof {
        assert(all.deep_view() =~= old(all).deep_view() + part.deep_view().subrange(0, 0));
    }
    while k < part.len()
        invariant
            k <= part@.len(),
            part.deep_view().len() == part@.len(),
            all.deep_view() == old(all).deep_view() + part.deep_view().subrange(0, k as int),
        decreases part@.len() - k,
    {
        let d = part[k].duplicate();
        let ghost xd = d;
        let ghost oldv = *all;
        all.push(d);
        proof {
            lemma_deep_view_push(oldv, *all, xd);
            assert(part.deep_view()[k as int] == part@[k as int]@);
            assert(all.deep_view() =~= old(all).deep_view() + part.deep_view().subrange(
                0,
                k + 1 as int,
            ));
        }
        k += 1;
    }
    proof {
        assert(part.deep_view().subrange(0, part@.len() as int) =~= part.deep_view());
    }
}

impl Store {
    /// The query path over the already-read file contents: parse every
    /// file, sort everything ascending, apply the filter, keep the last
    /// `count`.
    pub fn get_entries(&self, contents: &Vec<String>, filter: &Filter) -> (r: Result<
        Vec<Entry>,
        StoreError,
    >)
        ensures
            r is Err <==> parsed_all(contents.deep_view()) is None,
            r matches Ok(v) ==> v.deep_view() == apply_count(
                kept(filter@, spec_sort(parsed_all(contents.deep_view()).unwrap())),
                filter@.count,
            ),
    {
        let ghost cs = contents.deep_view();
        let mut all: Vec<Entry> = Vec::new();
        let mut i: usize = 0;
        proof {
            assert(cs.skip(0) =~= cs);
            if parsed_all(cs) is Some {
                assert(all.deep_view() + parsed_all(cs).unwrap() =~= parsed_all(cs).unwrap());
            }
        }
        while i < contents.len()
            invariant
                i <= contents@.len(),
                cs == contents.deep_view(),
                cs.len() == contents@.len(),
                (match parsed_all(cs.skip(i as int)) {
                    Some(rest) => parsed_all(cs) == Some(all.deep_view() + rest),
                    None => parsed_all(cs) is None,
                }),
            decreases contents@.len() - i,
        {
            proof {
                assert(cs.skip(i as int)[0] == cs[i as int]);
                assert(cs.skip(i as int).drop_first() =~= cs.skip(i + 1 as int));
                assert(contents.deep_view()[i as int] == contents@[i as int]@);
            }
            match parse_index(contents[i].as_str()) {
                None => {
                    return Err(StoreError::ReadIndexFile);
                },
                Some(part) => {
                    let ghost base = all.deep_view();
                    append_entries(&mut all, &part);
                    proof {
                        let rest2 = parsed_all(cs.skip(i + 1 as int));
                        if rest2 is Some {
                            assert(base + (part.deep_view() + rest2.unwrap()) =~= all.deep_view()
                                + rest2.unwrap());
                        }
                    }
                },
            }
            i += 1;
        }
        proof {
            assert(cs.skip(contents@.len() as int).len() == 0);
            assert(all.deep_view() + Seq::<EntryView>::empty() =~= all.deep_view());
        }
        let sorted = sort_entries(all);
        let out = filter.filter_entries(sorted);
        Ok(out)
    }
}

/// Round trip through the store: appending one entry's row to an index
/// file and reading everything back yields the entries it held before,
/// plus that entry, exactly once more.
pub proof fn lemma_store_round_trip(c: Seq<char>, e: EntryView)
    requires
        e.valid(),
        complete(c),
        records(c).len() >= 1,
        spec_parse_index(c) is Some,
    ensures
        spec_parse_index(c + spec_row(e)) matches Some(es) && es.to_multiset() == spec_parse_index(
            c,
        ).unwrap().to_multiset().insert(e),
{
    broadcast use vstd::seq_lib::group_to_multiset_ensures;

    lemma_index_append(c, e);
}

/// Round trip for a fresh index file: the header and one row read back
/// as exactly that entry.
pub proof fn lemma_store_round_trip_fresh(e: EntryView)
    requires
        e.valid(),
    ensures
        spec_parse_index(header_text() + spec_row(e)) == Some(seq![e]),
{
    lemma_index_fresh(e);
}

/// What a query returns is sorted ascending by the entry order: the
/// sort orders it, the filter keeps the order, and `count` takes a
/// suffix.
pub proof fn lemma_get_entries_sorted(f: FilterView, s: Seq<EntryView>)
    ensures
        vstd::relations::sorted_by(apply_count(kept(f, spec_sort(s)), f.count), entry_order()),
{
    lemma_spec_sort_ensures(s);
    let sorted = spec_sort(s);
    let filtered = kept(f, sorted);
    lemma_filter_sorted(f, sorted);
    let counted = apply_count(filtered, f.count);
    assert forall|i: int, j: int| 0 <= i < j < counted.len() implies entry_order()(
        #[trigger] counted[i],
        #[trigger] counted[j],
    ) by {
        if f.count == 0 || filtered.len() <= f.count {
        } else {
            let off = filtered.len() - f.count as int;
            assert(counted[i] == filtered[off + i]);
            assert(counted[j] == filtered[off + j]);
        }
    }
}

proof fn lemma_filter_elements(s: Seq<EntryView>, pred: spec_fn(EntryView) -> bool)
    ensures
        forall|i: int|
            0 <= i < s.filter(pred).len() ==> s.contains(#[trigger] s.filter(pred)[i]),
    decreases s.len(),
{
    reveal(Seq::filter);
    if s.len() > 0 {
        lemma_filter_elements(s.drop_last(), pred);
        let sub = s.drop_last().filter(pred);
        assert forall|i: int| 0 <= i < s.filter(pred).len() implies s.contains(
            #[trigger] s.filter(pred)[i],
        ) by {
            if i < sub.len() {
                assert(s.drop_last().contains(sub[i]));
                let w = choose|w: int| 0 <= w < s.drop_last().len() && s.drop_last()[w] == sub[i];
                assert(s[w] == sub[i]);
            } else {
                assert(s.filter(pred)[i] == s.last());
                assert(s[s.len() - 1] == s.last());
            }
        }
    }
}

proof fn lemma_filter_sorted(f: FilterView, s: Seq<EntryView>)
    requires
        vstd::relations::sorted_by(s, entry_order()),
    ensures
        vstd::relations::sorted_by(kept(f, s), entry_order()),
    decreases s.len(),
{
    reveal(Seq::filter);
    if s.len() > 0 {
        assert(vstd::relations::sorted_by(s.drop_last(), entry_order())) by {
            assert(forall|i: int, j: int|
                0 <= i < j < s.drop_last().len() ==> entry_order()(
                    #[trigger] s.drop_last()[i],
                    #[trigger] s.drop_last()[j],
                ));
        }
        lemma_filter_sorted(f, s.drop_last());
        let pred = |ev: EntryView| crate::filter::spec_keep(f, ev);
        let sub = s.drop_last().filter(pred);
        lemma_filter_elements(s.drop_last(), pred);
        if pred(s.last()) {
            let r = sub.push(s.last());
            assert forall|i: int, j: int| 0 <= i < j < r.len() implies entry_order()(
                #[trigger] r[i],
                #[trigger] r[j],
            ) by {
                if j < sub.len() {
                    assert(entry_order()(sub[i], sub[j]));
                } else {
                    assert(r[j] == s.last());
                    assert(s.drop_last().contains(sub[i]));
                    let w = choose|w: int|
                        0 <= w < s.drop_last().len() && s.drop_last()[w] == sub[i];
                    assert(s[w] == sub[i]);
                    assert(entry_order()(s[w], s[s.len() - 1]));
                }
            }
            assert(kept(f, s) == r);
        } else {
            assert(kept(f, s) == sub);
        }
    }
}

} // verus!
