//! The cluster-wide file listing: the files this node stores and the files
//! each peer reports, merged by file id and sorted by name.
//!
//! The entries are kept in a `Vec` searched by file id rather than in a
//! `HashMap<String, _>`: vstd specifies a hash map's lookups only for key
//! types whose hashing it models (integers, `bool`, boxes of those), and a
//! `String` key would need that model assumed, which this crate does not do.

use vstd::prelude::*;
use vstd::utf8::encode_utf8;

use crate::models::{copy_string, copy_strings, ClusterFileSummary, FileSummary};
use crate::order::{
    bytes_le, bytes_lt, lemma_bytes_lt_asymmetric, lemma_bytes_lt_total, lemma_bytes_lt_transitive,
    str_lt,
};
use crate::text::string_views;

verus! {

/// What the listing says of one file id.
pub struct Listing {
    pub file_name: Seq<char>,
    pub size: i64,
    pub known_by: Seq<Seq<char>>,
}

/// The listing entry of a summary.
pub open spec fn listing_of(s: ClusterFileSummary) -> Listing {
    Listing { file_name: s.file_name@, size: s.size, known_by: string_views(s.known_by@) }
}

/// A file this node stores: its entry names this node alone, and replaces
/// any earlier entry under the same id.
pub open spec fn add_local(m: Map<Seq<char>, Listing>, node: Seq<char>, f: FileSummary) -> Map<
    Seq<char>,
    Listing,
> {
    m.insert(f.file_id@, Listing { file_name: f.file_name@, size: f.size, known_by: seq![node] })
}

/// A file that `peer` reports: a known id gains `peer` among the nodes that
/// know it (once); a new id gets an entry naming `peer` alone.
pub open spec fn add_remote(m: Map<Seq<char>, Listing>, peer: Seq<char>, f: FileSummary) -> Map<
    Seq<char>,
    Listing,
> {
    if m.contains_key(f.file_id@) {
        let e = m[f.file_id@];
        if e.known_by.contains(peer) {
            m
        } else {
            m.insert(
                f.file_id@,
                Listing { file_name: e.file_name, size: e.size, known_by: e.known_by.push(peer) },
            )
        }
    } else {
        m.insert(f.file_id@, Listing { file_name: f.file_name@, size: f.size, known_by: seq![peer] })
    }
}

/// The entries of this node's own files, in listing order.
pub open spec fn local_listing(node: Seq<char>, files: Seq<FileSummary>) -> Map<Seq<char>, Listing>
    decreases files.len(),
{
    if files.len() == 0 {
        Map::empty()
    } else {
        add_local(local_listing(node, files.drop_last()), node, files.last())
    }
}

/// `m` with the files of one peer's report added, in report order.
pub open spec fn add_report(m: Map<Seq<char>, Listing>, peer: Seq<char>, files: Seq<FileSummary>) -> Map<
    Seq<char>,
    Listing,
>
    decreases files.len(),
{
    if files.len() == 0 {
        m
    } else {
        add_remote(add_report(m, peer, files.drop_last()), peer, files.last())
    }
}

/// `m` with all peer reports added, in the order they came.
pub open spec fn add_reports(m: Map<Seq<char>, Listing>, reports: Seq<(String, Vec<FileSummary>)>) -> Map<
    Seq<char>,
    Listing,
>
    decreases reports.len(),
{
    if reports.len() == 0 {
        m
    } else {
        add_report(add_reports(m, reports.drop_last()), reports.last().0@, reports.last().1@)
    }
}

/// The cluster listing as a map from file id to entry.
pub open spec fn cluster_listing(
    node: Seq<char>,
    local: Seq<FileSummary>,
    reports: Seq<(String, Vec<FileSummary>)>,
) -> Map<Seq<char>, Listing> {
    add_reports(local_listing(node, local), reports)
}

/// `s` holds exactly the entries of `m`, one summary per file id.
pub open spec fn lists_exactly(s: Seq<ClusterFileSummary>, m: Map<Seq<char>, Listing>) -> bool {
    &&& forall|i: int, j: int|
        0 <= i < j < s.len() ==> (#[trigger] s[i]).file_id@ != (#[trigger] s[j]).file_id@
    &&& forall|i: int|
        0 <= i < s.len() ==> m.contains_key((#[trigger] s[i]).file_id@) && m[s[i].file_id@]
            == listing_of(s[i])
    &&& forall|id: Seq<char>|
        #[trigger] m.contains_key(id) ==> exists|i: int| 0 <= i < s.len() && (#[trigger] s[i]).file_id@ == id
}

/// The name of `a` does not come after the name of `b` in the order of `str`.
pub open spec fn name_le(a: ClusterFileSummary, b: ClusterFileSummary) -> bool {
    bytes_le(encode_utf8(a.file_name@), encode_utf8(b.file_name@))
}

/// Summaries in the order of their names.
pub open spec fn sorted_by_name(s: Seq<ClusterFileSummary>) -> bool {
    forall|i: int, j: int| 0 <= i < j < s.len() ==> name_le(#[trigger] s[i], #[trigger] s[j])
}

impl ClusterFileSummary {
    /// A copy with the same fields.
    pub fn duplicate(&self) -> (r: ClusterFileSummary)
        ensures
            r.file_id@ == self.file_id@,
            listing_of(r) == listing_of(*self),
    {
        ClusterFileSummary {
            file_id: copy_string(&self.file_id),
            file_name: copy_string(&self.file_name),
            size: self.size,
            known_by: copy_strings(&self.known_by),
        }
    }
}

/// The position of the entry for `id`, if there is one.
fn position_of_id(entries: &Vec<ClusterFileSummary>, id: &String) -> (pos: Option<usize>)
    ensures
        match pos {
            Some(j) => j < entries@.len() && entries@[j as int].file_id@ == id@,
            None => forall|j: int| 0 <= j < entries@.len() ==> (#[trigger] entries@[j]).file_id@ != id@,
        },
{
    let mut j: usize = 0;
    while j < entries.len()
        invariant
            j <= entries@.len(),
            forall|l: int| 0 <= l < j ==> (#[trigger] entries@[l]).file_id@ != id@,
        decreases entries@.len() - j,
    {
        if entries[j].file_id == *id {
            return Some(j);
        }
        j = j + 1;
    }
    None
}

/// Whether `names` holds `name`.
fn holds_name(names: &Vec<String>, name: &String) -> (r: bool)
    ensures
        r == string_views(names@).contains(name@),
{
    let mut j: usize = 0;
    while j < names.len()
        invariant
            j <= names@.len(),
            forall|l: int| 0 <= l < j ==> (#[trigger] names@[l])@ != name@,
        decreases names@.len() - j,
    {
        if names[j] == *name {
            assert(string_views(names@)[j as int] == name@);
            return true;
        }
        j = j + 1;
    }
    proof {
        if string_views(names@).contains(name@) {
            let l = choose|l: int| 0 <= l < string_views(names@).len() && string_views(names@)[l] == name@;
            assert(names@[l]@ == name@);
        }
    }
    false
}

proof fn lemma_lists_exactly_update(
    s: Seq<ClusterFileSummary>,
    m: Map<Seq<char>, Listing>,
    j: int,
    e: ClusterFileSummary,
)
    requires
        lists_exactly(s, m),
        0 <= j < s.len(),
        e.file_id@ == s[j].file_id@,
    ensures
        lists_exactly(s.update(j, e), m.insert(e.file_id@, listing_of(e))),
{
    let t = s.update(j, e);
    let n = m.insert(e.file_id@, listing_of(e));
    assert forall|i: int, l: int| 0 <= i < l < t.len() implies (#[trigger] t[i]).file_id@ != (
    #[trigger] t[l]).file_id@ by {
        assert(s[i].file_id@ != s[l].file_id@);
    }
    assert forall|i: int| 0 <= i < t.len() implies n.contains_key((#[trigger] t[i]).file_id@) && n[t[i].file_id@]
        == listing_of(t[i]) by {
        if i != j {
            assert(s[i].file_id@ != s[j].file_id@);
        }
    }
    assert forall|id: Seq<char>| #[trigger] n.contains_key(id) implies exists|i: int|
        0 <= i < t.len() && (#[trigger] t[i]).file_id@ == id by {
        if id == e.file_id@ {
            assert(t[j].file_id@ == id);
        } else {
            let i = choose|i: int| 0 <= i < s.len() && (#[trigger] s[i]).file_id@ == id;
            assert(t[i].file_id@ == id);
        }
    }
}

proof fn lemma_lists_exactly_push(s: Seq<ClusterFileSummary>, m: Map<Seq<char>, Listing>, e: ClusterFileSummary)
    requires
        lists_exactly(s, m),
        !m.contains_key(e.file_id@),
    ensures
        lists_exactly(s.push(e), m.insert(e.file_id@, listing_of(e))),
{
    let t = s.push(e);
    let n = m.insert(e.file_id@, listing_of(e));
    assert forall|i: int, l: int| 0 <= i < l < t.len() implies (#[trigger] t[i]).file_id@ != (
    #[trigger] t[l]).file_id@ by {
        if l == s.len() {
            assert(m.contains_key(s[i].file_id@));
        } else {
            assert(s[i].file_id@ != s[l].file_id@);
        }
    }
    assert forall|i: int| 0 <= i < t.len() implies n.contains_key((#[trigger] t[i]).file_id@) && n[t[i].file_id@]
        == listing_of(t[i]) by {
        if i < s.len() {
            assert(m.contains_key(s[i].file_id@));
        }
    }
    assert forall|id: Seq<char>| #[trigger] n.contains_key(id) implies exists|i: int|
        0 <= i < t.len() && (#[trigger] t[i]).file_id@ == id by {
        if id == e.file_id@ {
            assert(t[s.len() as int].file_id@ == id);
        } else {
            let i = choose|i: int| 0 <= i < s.len() && (#[trigger] s[i]).file_id@ == id;
            assert(t[i].file_id@ == id);
        }
    }
}

proof fn lemma_lists_exactly_position(s: Seq<ClusterFileSummary>, m: Map<Seq<char>, Listing>, id: Seq<char>)
    requires
        lists_exactly(s, m),
        forall|j: int| 0 <= j < s.len() ==> (#[trigger] s[j]).file_id@ != id,
    ensures
        !m.contains_key(id),
{
}

/// Adds one of this node's files to the entries.
fn add_local_file(entries: &mut Vec<ClusterFileSummary>, node_id: &String, file: &FileSummary, ghost_m: Ghost<Map<Seq<char>, Listing>>)
    requires
        lists_exactly(old(entries)@, ghost_m@),
    ensures
        lists_exactly(final(entries)@, add_local(ghost_m@, node_id@, *file)),
{
    let mut known_by: Vec<String> = Vec::new();
    known_by.push(copy_string(node_id));
    let entry = ClusterFileSummary {
        file_id: copy_string(&file.file_id),
        file_name: copy_string(&file.file_name),
        size: file.size,
        known_by,
    };
    proof {
        assert(string_views(entry.known_by@) == seq![node_id@]) by {
            assert(string_views(entry.known_by@).len() == 1);
        }
        assert(listing_of(entry) == Listing { file_name: file.file_name@, size: file.size, known_by: seq![node_id@] });
    }
    match position_of_id(entries, &file.file_id) {
        Some(j) => {
            proof {
                lemma_lists_exactly_update(entries@, ghost_m@, j as int, entry);
            }
            entries.set(j, entry);
        },
        None => {
            proof {
                lemma_lists_exactly_position(entries@, ghost_m@, file.file_id@);
                lemma_lists_exactly_push(entries@, ghost_m@, entry);
            }
            entries.push(entry);
        },
    }
}

/// Adds one file that `peer` reports to the entries.
fn add_remote_file(entries: &mut Vec<ClusterFileSummary>, peer: &String, file: &FileSummary, ghost_m: Ghost<Map<Seq<char>, Listing>>)
    requires
        lists_exactly(old(entries)@, ghost_m@),
    ensures
        lists_exactly(final(entries)@, add_remote(ghost_m@, peer@, *file)),
{
    let ghost m = ghost_m@;
    match position_of_id(entries, &file.file_id) {
        Some(j) => {
            let ghost id = file.file_id@;
            assert(m.contains_key(id) && m[id] == listing_of(entries@[j as int]));
            if !holds_name(&entries[j].known_by, peer) {
                let mut e = entries.remove(j);
                let ghost before = e;
                e.known_by.push(copy_string(peer));
                proof {
                    crate::text::lemma_string_views_push(before.known_by@, e.known_by@.last());
                    assert(e.known_by@ == before.known_by@.push(e.known_by@.last()));
                }
                entries.insert(j, e);
                proof {
                    assert(entries@ == old(entries)@.update(j as int, e));
                    lemma_lists_exactly_update(old(entries)@, m, j as int, e);
                    assert(listing_of(e) == Listing {
                        file_name: m[id].file_name,
                        size: m[id].size,
                        known_by: m[id].known_by.push(peer@),
                    });
                }
            } else {
                assert(add_remote(m, peer@, *file) == m);
            }
        },
        None => {
            let mut known_by: Vec<String> = Vec::new();
            known_by.push(copy_string(peer));
            let entry = ClusterFileSummary {
                file_id: copy_string(&file.file_id),
                file_name: copy_string(&file.file_name),
                size: file.size,
                known_by,
            };
            proof {
                assert(string_views(entry.known_by@) == seq![peer@]) by {
                    assert(string_views(entry.known_by@).len() == 1);
                }
                lemma_lists_exactly_position(entries@, m, file.file_id@);
                lemma_lists_exactly_push(entries@, m, entry);
            }
            entries.push(entry);
        },
    }
}

} // verus!

verus! {

/// `order` lists every position below `n` exactly once.
pub open spec fn is_permutation(order: Seq<int>, n: int) -> bool {
    &&& order.len() == n
    &&& order.no_duplicates()
    &&& forall|a: int| 0 <= a < n ==> 0 <= #[trigger] order[a] < n
}

/// A list of `n` distinct positions below `n` leaves none out.
proof fn lemma_permutation_covers(order: Seq<int>, n: int, l: int)
    requires
        is_permutation(order, n),
        0 <= l < n,
    ensures
        order.contains(l),
{
    let range = vstd::set_lib::set_int_range(0, n);
    vstd::set_lib::lemma_int_range(0, n);
    order.unique_seq_to_set();
    assert(order.to_set().subset_of(range));
    vstd::set_lib::lemma_subset_equality(order.to_set(), range);
    assert(range.contains(l));
}

proof fn lemma_name_le_of_lt(a: ClusterFileSummary, b: ClusterFileSummary)
    requires
        bytes_lt(encode_utf8(a.file_name@), encode_utf8(b.file_name@)),
    ensures
        name_le(a, b),
{
    lemma_bytes_lt_asymmetric(encode_utf8(a.file_name@), encode_utf8(b.file_name@));
}

proof fn lemma_name_lt_le(a: ClusterFileSummary, b: ClusterFileSummary, c: ClusterFileSummary)
    requires
        bytes_lt(encode_utf8(a.file_name@), encode_utf8(b.file_name@)),
        name_le(b, c),
    ensures
        name_le(a, c),
{
    let (x, y, z) = (encode_utf8(a.file_name@), encode_utf8(b.file_name@), encode_utf8(c.file_name@));
    lemma_bytes_lt_total(y, z);
    if bytes_lt(y, z) {
        lemma_bytes_lt_transitive(x, y, z);
    }
    lemma_bytes_lt_asymmetric(x, z);
}

/// The positions of `entries` in the order of their names.
fn order_by_name(entries: &Vec<ClusterFileSummary>) -> (order: Vec<usize>)
    ensures
        is_permutation(order@.map_values(|i: usize| i as int), entries@.len() as int),
        forall|a: int, b: int|
            0 <= a < b < order@.len() ==> name_le(
                #[trigger] entries@[order@[a] as int],
                #[trigger] entries@[order@[b] as int],
            ),
{
    let n = entries.len();
    let mut order: Vec<usize> = Vec::new();
    let mut i: usize = 0;
    while i < n
        invariant
            n == entries@.len(),
            i <= n,
            is_permutation(order@.map_values(|k: usize| k as int), i as int),
            forall|a: int| 0 <= a < order@.len() ==> #[trigger] order@[a] < i,
            forall|a: int, b: int|
                0 <= a < b < order@.len() ==> name_le(
                    #[trigger] entries@[order@[a] as int],
                    #[trigger] entries@[order@[b] as int],
                ),
        decreases n - i,
    {
        let mut pos: usize = 0;
        while pos < order.len() && !str_lt(entries[i].file_name.as_str(), entries[order[pos]].file_name.as_str())
            invariant
                n == entries@.len(),
                i < n,
                order@.len() == i,
                is_permutation(order@.map_values(|k: usize| k as int), i as int),
                forall|a: int| 0 <= a < order@.len() ==> #[trigger] order@[a] < i,
                pos <= order@.len(),
                forall|a: int| 0 <= a < pos ==> name_le(#[trigger] entries@[order@[a] as int], entries@[i as int]),
            decreases order@.len() - pos,
        {
            assert(order@.map_values(|k: usize| k as int)[pos as int] == order@[pos as int] as int);
            pos = pos + 1;
        }
        proof {
            if pos < order@.len() {
                assert(order@.map_values(|k: usize| k as int)[pos as int] == order@[pos as int] as int);
            }
        }
        let ghost before = order@;
        order.insert(pos, i);
        proof {
            let ob = before.map_values(|k: usize| k as int);
            let on = order@.map_values(|k: usize| k as int);
            assert(order@ == before.insert(pos as int, i));
            assert forall|a: int, b: int|
                0 <= a < b < order@.len() implies name_le(
                    #[trigger] entries@[order@[a] as int],
                    #[trigger] entries@[order@[b] as int],
                ) by {
                if b < pos {
                    assert(order@[a] == before[a] && order@[b] == before[b]);
                } else if b == pos {
                    assert(order@[a] == before[a]);
                } else if a < pos {
                    assert(order@[a] == before[a] && order@[b] == before[b - 1]);
                } else if a == pos {
                    assert(order@[a] == i && order@[b] == before[b - 1]);
                    let ep = entries@[before[pos as int] as int];
                    assert(bytes_lt(encode_utf8(entries@[i as int].file_name@), encode_utf8(ep.file_name@)));
                    if b - 1 > pos {
                        lemma_name_lt_le(entries@[i as int], ep, entries@[before[b - 1] as int]);
                    } else {
                        lemma_name_le_of_lt(entries@[i as int], ep);
                    }
                } else {
                    assert(order@[a] == before[a - 1] && order@[b] == before[b - 1]);
                }
            }
            assert forall|a: int| 0 <= a < order@.len() implies #[trigger] order@[a] < i + 1 by {
                if a < pos {
                    assert(order@[a] == before[a]);
                } else if a > pos {
                    assert(order@[a] == before[a - 1]);
                }
            }
            assert(on == ob.insert(pos as int, i as int));
            assert forall|a: int| 0 <= a < i + 1 implies 0 <= #[trigger] on[a] < i + 1 by {
                if a < pos {
                    assert(on[a] == ob[a]);
                } else if a > pos {
                    assert(on[a] == ob[a - 1]);
                }
            }
            assert(on.no_duplicates()) by {
                assert forall|a: int, b: int| 0 <= a < on.len() && 0 <= b < on.len() && a != b implies on[a] != on[b] by {
                    let fa = if a < pos { a } else if a > pos { a - 1 } else { -1 };
                    let fb = if b < pos { b } else if b > pos { b - 1 } else { -1 };
                    if fa >= 0 {
                        assert(on[a] == ob[fa]);
                    }
                    if fb >= 0 {
                        assert(on[b] == ob[fb]);
                    }
                }
            }
        }
        i = i + 1;
    }
    order
}

/// Builds the cluster listing: this node's files first, each known by this
/// node; then each peer's report, adding the peer to files already listed
/// (once) and listing new files as known by that peer. The result holds one
/// summary per file id, in the order of the file names.
pub fn merge_cluster_files(
    node_id: &String,
    local: &Vec<FileSummary>,
    reports: &Vec<(String, Vec<FileSummary>)>,
) -> (listing: Vec<ClusterFileSummary>)
    ensures
        lists_exactly(listing@, cluster_listing(node_id@, local@, reports@)),
        sorted_by_name(listing@),
        forall|a: int|
            0 <= a < listing@.len() ==> {
                let e = cluster_listing(node_id@, local@, reports@)[(#[trigger] listing@[a]).file_id@];
                &&& e.file_name == listing@[a].file_name@
                &&& e.size == listing@[a].size
                &&& e.known_by == string_views(listing@[a].known_by@)
            },
{
    let mut entries: Vec<ClusterFileSummary> = Vec::new();
    let mut i: usize = 0;
    while i < local.len()
        invariant
            i <= local@.len(),
            lists_exactly(entries@, local_listing(node_id@, local@.take(i as int))),
        decreases local@.len() - i,
    {
        assert(local@.take(i as int + 1).drop_last() == local@.take(i as int));
        add_local_file(&mut entries, node_id, &local[i], Ghost(local_listing(node_id@, local@.take(i as int))));
        i = i + 1;
    }
    assert(local@.take(local@.len() as int) == local@);
    let ghost base = local_listing(node_id@, local@);
    let mut p: usize = 0;
    while p < reports.len()
        invariant
            p <= reports@.len(),
            base == local_listing(node_id@, local@),
            lists_exactly(entries@, add_reports(base, reports@.take(p as int))),
        decreases reports@.len() - p,
    {
        let report = &reports[p];
        let peer = &report.0;
        let files = &report.1;
        let ghost start = add_reports(base, reports@.take(p as int));
        let mut q: usize = 0;
        assert(files@.take(0).len() == 0);
        while q < files.len()
            invariant
                q <= files@.len(),
                lists_exactly(entries@, add_report(start, peer@, files@.take(q as int))),
            decreases files@.len() - q,
        {
            assert(files@.take(q as int + 1).drop_last() == files@.take(q as int));
            add_remote_file(&mut entries, peer, &files[q], Ghost(add_report(start, peer@, files@.take(q as int))));
            q = q + 1;
        }
        proof {
            assert(files@.take(files@.len() as int) == files@);
            assert(reports@.take(p as int + 1).drop_last() == reports@.take(p as int));
            assert(reports@.take(p as int + 1).last() == reports@[p as int]);
        }
        p = p + 1;
    }
    assert(reports@.take(reports@.len() as int) == reports@);
    let ghost m = cluster_listing(node_id@, local@, reports@);
    let order = order_by_name(&entries);
    let ghost ord = order@.map_values(|k: usize| k as int);
    let n = entries.len();
    let mut listing: Vec<ClusterFileSummary> = Vec::new();
    let mut r: usize = 0;
    while r < n
        invariant
            n == entries@.len() == order@.len(),
            ord == order@.map_values(|k: usize| k as int),
            is_permutation(ord, n as int),
            r <= n,
            listing@.len() == r,
            forall|a: int|
                0 <= a < r ==> (#[trigger] listing@[a]).file_id@ == entries@[order@[a] as int].file_id@
                    && listing_of(listing@[a]) == listing_of(entries@[order@[a] as int])
                    && listing@[a].file_name@ == entries@[order@[a] as int].file_name@,
        decreases n - r,
    {
        assert(ord[r as int] == order@[r as int] as int);
        listing.push(entries[order[r]].duplicate());
        r = r + 1;
    }
    proof {
        assert forall|a: int, b: int| 0 <= a < b < listing@.len() implies (#[trigger] listing@[a]).file_id@
            != (#[trigger] listing@[b]).file_id@ by {
            assert(ord[a] == order@[a] as int && ord[b] == order@[b] as int);
            assert(ord[a] != ord[b]);
            if ord[a] < ord[b] {
                assert(entries@[ord[a]].file_id@ != entries@[ord[b]].file_id@);
            } else {
                assert(entries@[ord[b]].file_id@ != entries@[ord[a]].file_id@);
            }
        }
        assert forall|a: int| 0 <= a < listing@.len() implies m.contains_key((#[trigger] listing@[a]).file_id@)
            && m[listing@[a].file_id@] == listing_of(listing@[a]) by {
            assert(ord[a] == order@[a] as int);
            let e = entries@[ord[a]];
            assert(m.contains_key(e.file_id@));
        }
        assert forall|id: Seq<char>| #[trigger] m.contains_key(id) implies exists|a: int|
            0 <= a < listing@.len() && (#[trigger] listing@[a]).file_id@ == id by {
            let l = choose|l: int| 0 <= l < entries@.len() && (#[trigger] entries@[l]).file_id@ == id;
            lemma_permutation_covers(ord, n as int, l);
            let a = choose|a: int| 0 <= a < ord.len() && ord[a] == l;
            assert(order@[a] as int == l);
            assert(listing@[a].file_id@ == id);
        }
        assert forall|a: int, b: int| 0 <= a < b < listing@.len() implies name_le(
            #[trigger] listing@[a],
            #[trigger] listing@[b],
        ) by {
            assert(name_le(entries@[order@[a] as int], entries@[order@[b] as int]));
        }
    }
    listing
}

} // verus!

verus! {

/// Every entry names at least one node, and no node twice.
pub open spec fn known_by_well_formed(m: Map<Seq<char>, Listing>) -> bool {
    forall|id: Seq<char>|
        #[trigger] m.contains_key(id) ==> m[id].known_by.len() > 0 && m[id].known_by.no_duplicates()
}

/// The entry of `id` names `node` first.
pub open spec fn first_known_by(m: Map<Seq<char>, Listing>, id: Seq<char>, node: Seq<char>) -> bool {
    m.contains_key(id) && m[id].known_by.len() > 0 && m[id].known_by[0] == node
}

proof fn lemma_add_remote_well_formed(m: Map<Seq<char>, Listing>, peer: Seq<char>, f: FileSummary)
    requires
        known_by_well_formed(m),
    ensures
        known_by_well_formed(add_remote(m, peer, f)),
        forall|id: Seq<char>, node: Seq<char>|
            first_known_by(m, id, node) ==> #[trigger] first_known_by(add_remote(m, peer, f), id, node),
{
    let n = add_remote(m, peer, f);
    assert forall|id: Seq<char>| #[trigger] n.contains_key(id) implies n[id].known_by.len() > 0
        && n[id].known_by.no_duplicates() by {
        if id == f.file_id@ && m.contains_key(id) && !m[id].known_by.contains(peer) {
            let kb = m[id].known_by;
            assert forall|a: int, b: int| 0 <= a < b < kb.push(peer).len() implies kb.push(peer)[a]
                != kb.push(peer)[b] by {
                if b == kb.len() {
                    assert(kb[a] == kb.push(peer)[a]);
                }
            }
        }
    }
}

proof fn lemma_add_report_well_formed(m: Map<Seq<char>, Listing>, peer: Seq<char>, files: Seq<FileSummary>)
    requires
        known_by_well_formed(m),
    ensures
        known_by_well_formed(add_report(m, peer, files)),
        forall|id: Seq<char>, node: Seq<char>|
            first_known_by(m, id, node) ==> #[trigger] first_known_by(add_report(m, peer, files), id, node),
    decreases files.len(),
{
    if files.len() > 0 {
        lemma_add_report_well_formed(m, peer, files.drop_last());
        lemma_add_remote_well_formed(add_report(m, peer, files.drop_last()), peer, files.last());
    }
}

proof fn lemma_add_reports_well_formed(m: Map<Seq<char>, Listing>, reports: Seq<(String, Vec<FileSummary>)>)
    requires
        known_by_well_formed(m),
    ensures
        known_by_well_formed(add_reports(m, reports)),
        forall|id: Seq<char>, node: Seq<char>|
            first_known_by(m, id, node) ==> #[trigger] first_known_by(add_reports(m, reports), id, node),
    decreases reports.len(),
{
    if reports.len() > 0 {
        lemma_add_reports_well_formed(m, reports.drop_last());
        lemma_add_report_well_formed(
            add_reports(m, reports.drop_last()),
            reports.last().0@,
            reports.last().1@,
        );
    }
}

proof fn lemma_local_listing(node: Seq<char>, files: Seq<FileSummary>)
    ensures
        known_by_well_formed(local_listing(node, files)),
        forall|i: int|
            0 <= i < files.len() ==> #[trigger] first_known_by(
                local_listing(node, files),
                files[i].file_id@,
                node,
            ),
    decreases files.len(),
{
    if files.len() > 0 {
        lemma_local_listing(node, files.drop_last());
        let m = local_listing(node, files);
        assert forall|i: int| 0 <= i < files.len() implies #[trigger] first_known_by(
            m,
            files[i].file_id@,
            node,
        ) by {
            if i < files.len() - 1 {
                assert(files[i] == files.drop_last()[i]);
                assert(first_known_by(local_listing(node, files.drop_last()), files[i].file_id@, node));
            }
        }
    }
}

/// In the cluster listing every file is known by at least one node and by no
/// node twice, and the files this node stores are known by this node first.
pub proof fn lemma_cluster_listing_known_by(
    node: Seq<char>,
    local: Seq<FileSummary>,
    reports: Seq<(String, Vec<FileSummary>)>,
)
    ensures
        known_by_well_formed(cluster_listing(node, local, reports)),
        forall|i: int|
            0 <= i < local.len() ==> #[trigger] first_known_by(
                cluster_listing(node, local, reports),
                local[i].file_id@,
                node,
            ),
{
    lemma_local_listing(node, local);
    lemma_add_reports_well_formed(local_listing(node, local), reports);
    assert forall|i: int| 0 <= i < local.len() implies #[trigger] first_known_by(
        cluster_listing(node, local, reports),
        local[i].file_id@,
        node,
    ) by {
        assert(first_known_by(local_listing(node, local), local[i].file_id@, node));
    }
}

} // verus!

verus! {

/// Some file of `files` has the id `id`.
pub open spec fn names_file(files: Seq<FileSummary>, id: Seq<char>) -> bool {
    exists|i: int| 0 <= i < files.len() && (#[trigger] files[i]).file_id@ == id
}

/// Some peer reports a file with the id `id`.
pub open spec fn reported(reports: Seq<(String, Vec<FileSummary>)>, id: Seq<char>) -> bool {
    exists|p: int| 0 <= p < reports.len() && names_file((#[trigger] reports[p]).1@, id)
}

proof fn lemma_local_listing_dom(node: Seq<char>, files: Seq<FileSummary>, id: Seq<char>)
    ensures
        local_listing(node, files).contains_key(id) == names_file(files, id),
    decreases files.len(),
{
    if files.len() > 0 {
        lemma_local_listing_dom(node, files.drop_last(), id);
        if names_file(files.drop_last(), id) {
            let i = choose|i: int| 0 <= i < files.drop_last().len() && (#[trigger] files.drop_last()[i]).file_id@ == id;
            assert(files[i] == files.drop_last()[i]);
        }
        if names_file(files, id) && id != files.last().file_id@ {
            let i = choose|i: int| 0 <= i < files.len() && (#[trigger] files[i]).file_id@ == id;
            assert(files.drop_last()[i] == files[i]);
        }
    }
}

proof fn lemma_add_report_dom(m: Map<Seq<char>, Listing>, peer: Seq<char>, files: Seq<FileSummary>, id: Seq<char>)
    ensures
        add_report(m, peer, files).contains_key(id) == (m.contains_key(id) || names_file(files, id)),
    decreases files.len(),
{
    if files.len() > 0 {
        lemma_add_report_dom(m, peer, files.drop_last(), id);
        if names_file(files.drop_last(), id) {
            let i = choose|i: int| 0 <= i < files.drop_last().len() && (#[trigger] files.drop_last()[i]).file_id@ == id;
            assert(files[i] == files.drop_last()[i]);
        }
        if names_file(files, id) && id != files.last().file_id@ {
            let i = choose|i: int| 0 <= i < files.len() && (#[trigger] files[i]).file_id@ == id;
            assert(files.drop_last()[i] == files[i]);
        }
    }
}

proof fn lemma_add_reports_dom(m: Map<Seq<char>, Listing>, reports: Seq<(String, Vec<FileSummary>)>, id: Seq<char>)
    ensures
        add_reports(m, reports).contains_key(id) == (m.contains_key(id) || reported(reports, id)),
    decreases reports.len(),
{
    if reports.len() > 0 {
        let init = reports.drop_last();
        lemma_add_reports_dom(m, init, id);
        lemma_add_report_dom(add_reports(m, init), reports.last().0@, reports.last().1@, id);
        if reported(init, id) {
            let p = choose|p: int| 0 <= p < init.len() && names_file((#[trigger] init[p]).1@, id);
            assert(reports[p] == init[p]);
        }
        if reported(reports, id) && !names_file(reports.last().1@, id) {
            let p = choose|p: int| 0 <= p < reports.len() && names_file((#[trigger] reports[p]).1@, id);
            assert(p != reports.len() - 1);
            assert(init[p] == reports[p]);
        }
    }
}

/// The cluster listing lists a file id exactly when this node stores a file
/// with that id or some peer reports one.
pub proof fn lemma_cluster_listing_covers(
    node: Seq<char>,
    local: Seq<FileSummary>,
    reports: Seq<(String, Vec<FileSummary>)>,
    id: Seq<char>,
)
    ensures
        cluster_listing(node, local, reports).contains_key(id) == (names_file(local, id) || reported(
            reports,
            id,
        )),
{
    lemma_local_listing_dom(node, local, id);
    lemma_add_reports_dom(local_listing(node, local), reports, id);
}

} // verus!

verus! {

/// An entry that is already listed keeps its name and size whatever a peer
/// reports.
proof fn lemma_add_report_keeps_entry(m: Map<Seq<char>, Listing>, peer: Seq<char>, files: Seq<FileSummary>, id: Seq<char>)
    requires
        m.contains_key(id),
    ensures
        add_report(m, peer, files).contains_key(id),
        add_report(m, peer, files)[id].file_name == m[id].file_name,
        add_report(m, peer, files)[id].size == m[id].size,
    decreases files.len(),
{
    if files.len() > 0 {
        lemma_add_report_keeps_entry(m, peer, files.drop_last(), id);
    }
}

proof fn lemma_add_reports_keeps_entry(m: Map<Seq<char>, Listing>, reports: Seq<(String, Vec<FileSummary>)>, id: Seq<char>)
    requires
        m.contains_key(id),
    ensures
        add_reports(m, reports).contains_key(id),
        add_reports(m, reports)[id].file_name == m[id].file_name,
        add_reports(m, reports)[id].size == m[id].size,
    decreases reports.len(),
{
    if reports.len() > 0 {
        lemma_add_reports_keeps_entry(m, reports.drop_last(), id);
        lemma_add_report_keeps_entry(
            add_reports(m, reports.drop_last()),
            reports.last().0@,
            reports.last().1@,
            id,
        );
    }
}

/// A new id takes the name and size of the first file of the report that has it.
proof fn lemma_add_report_first_entry(
    m: Map<Seq<char>, Listing>,
    peer: Seq<char>,
    files: Seq<FileSummary>,
    id: Seq<char>,
    i: int,
)
    requires
        !m.contains_key(id),
        0 <= i < files.len(),
        files[i].file_id@ == id,
        forall|j: int| 0 <= j < i ==> (#[trigger] files[j]).file_id@ != id,
    ensures
        add_report(m, peer, files).contains_key(id),
        add_report(m, peer, files)[id].file_name == files[i].file_name@,
        add_report(m, peer, files)[id].size == files[i].size,
    decreases files.len(),
{
    let init = files.drop_last();
    if i == files.len() - 1 {
        lemma_add_report_dom(m, peer, init, id);
        if names_file(init, id) {
            let j = choose|j: int| 0 <= j < init.len() && (#[trigger] init[j]).file_id@ == id;
            assert(files[j] == init[j]);
        }
    } else {
        assert forall|j: int| 0 <= j < i implies (#[trigger] init[j]).file_id@ != id by {
            assert(init[j] == files[j]);
        }
        assert(init[i] == files[i]);
        lemma_add_report_first_entry(m, peer, init, id, i);
    }
}

proof fn lemma_add_reports_first_entry(
    m: Map<Seq<char>, Listing>,
    reports: Seq<(String, Vec<FileSummary>)>,
    id: Seq<char>,
    p: int,
    i: int,
)
    requires
        !m.contains_key(id),
        0 <= p < reports.len(),
        0 <= i < reports[p].1@.len(),
        reports[p].1@[i].file_id@ == id,
        forall|q: int| 0 <= q < p ==> !names_file((#[trigger] reports[q]).1@, id),
        forall|j: int| 0 <= j < i ==> (#[trigger] reports[p].1@[j]).file_id@ != id,
    ensures
        add_reports(m, reports).contains_key(id),
        add_reports(m, reports)[id].file_name == reports[p].1@[i].file_name@,
        add_reports(m, reports)[id].size == reports[p].1@[i].size,
    decreases reports.len(),
{
    let init = reports.drop_last();
    if p == reports.len() - 1 {
        lemma_add_reports_dom(m, init, id);
        if reported(init, id) {
            let q = choose|q: int| 0 <= q < init.len() && names_file((#[trigger] init[q]).1@, id);
            assert(init[q] == reports[q]);
        }
        lemma_add_report_first_entry(add_reports(m, init), reports.last().0@, reports.last().1@, id, i);
    } else {
        assert(init[p] == reports[p]);
        assert forall|q: int| 0 <= q < p implies !names_file((#[trigger] init[q]).1@, id) by {
            assert(init[q] == reports[q]);
        }
        lemma_add_reports_first_entry(m, init, id, p, i);
        lemma_add_report_keeps_entry(add_reports(m, init), reports.last().0@, reports.last().1@, id);
    }
}

proof fn lemma_local_last_entry(node: Seq<char>, files: Seq<FileSummary>, id: Seq<char>, i: int)
    requires
        0 <= i < files.len(),
        files[i].file_id@ == id,
        forall|j: int| i < j < files.len() ==> (#[trigger] files[j]).file_id@ != id,
    ensures
        local_listing(node, files).contains_key(id),
        local_listing(node, files)[id].file_name == files[i].file_name@,
        local_listing(node, files)[id].size == files[i].size,
    decreases files.len(),
{
    if i < files.len() - 1 {
        let init = files.drop_last();
        assert(init[i] == files[i]);
        assert forall|j: int| i < j < init.len() implies (#[trigger] init[j]).file_id@ != id by {
            assert(init[j] == files[j]);
        }
        lemma_local_last_entry(node, init, id, i);
        assert(files.last().file_id@ != id);
    }
}

/// A file this node stores is listed under the name and size of the last of
/// its local entries with that id, whatever the peers report.
pub proof fn lemma_local_file_keeps_its_name(
    node: Seq<char>,
    local: Seq<FileSummary>,
    reports: Seq<(String, Vec<FileSummary>)>,
    i: int,
)
    requires
        0 <= i < local.len(),
        forall|j: int| i < j < local.len() ==> (#[trigger] local[j]).file_id@ != local[i].file_id@,
    ensures
        cluster_listing(node, local, reports).contains_key(local[i].file_id@),
        cluster_listing(node, local, reports)[local[i].file_id@].file_name == local[i].file_name@,
        cluster_listing(node, local, reports)[local[i].file_id@].size == local[i].size,
{
    lemma_local_last_entry(node, local, local[i].file_id@, i);
    lemma_add_reports_keeps_entry(local_listing(node, local), reports, local[i].file_id@);
}

/// A file this node does not store is listed under the name and size, unchanged,
/// of the first entry with its id in the first report that has it.
pub proof fn lemma_reported_file_keeps_its_name(
    node: Seq<char>,
    local: Seq<FileSummary>,
    reports: Seq<(String, Vec<FileSummary>)>,
    p: int,
    i: int,
)
    requires
        0 <= p < reports.len(),
        0 <= i < reports[p].1@.len(),
        !names_file(local, reports[p].1@[i].file_id@),
        forall|q: int| 0 <= q < p ==> !names_file((#[trigger] reports[q]).1@, reports[p].1@[i].file_id@),
        forall|j: int| 0 <= j < i ==> (#[trigger] reports[p].1@[j]).file_id@ != reports[p].1@[i].file_id@,
    ensures
        cluster_listing(node, local, reports).contains_key(reports[p].1@[i].file_id@),
        cluster_listing(node, local, reports)[reports[p].1@[i].file_id@].file_name
            == reports[p].1@[i].file_name@,
        cluster_listing(node, local, reports)[reports[p].1@[i].file_id@].size == reports[p].1@[i].size,
{
    let id = reports[p].1@[i].file_id@;
    lemma_local_listing_dom(node, local, id);
    lemma_add_reports_first_entry(local_listing(node, local), reports, id, p, i);
}

} // verus!
