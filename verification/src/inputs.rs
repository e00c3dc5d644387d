//! Which files of a directory are converted, and in which order.
use vstd::prelude::*;

verus! {

/// An entry of a directory.
#[derive(Debug)]
pub struct DirectoryEntry {
    /// The bytes of its name.
    pub name: Vec<u8>,
    pub is_file: bool,
}

/// The directory holds no LAZ or LAS file.
#[derive(Debug, Clone, Copy, PartialEq, Eq, Structural)]
pub struct NoInputFiles;

/// Whether `name` has the extension `ext` behind a non-empty stem and a dot (byte 46).
pub open spec fn has_extension(name: Seq<u8>, ext: Seq<u8>) -> bool {
    &&& name.len() > ext.len() + 1
    &&& name.skip(name.len() - ext.len() - 1) == seq![46u8] + ext
}

/// "laz", "las", "LAZ" or "LAS": the extensions of point cloud files.
pub open spec fn is_point_cloud_name(name: Seq<u8>) -> bool {
    ||| has_extension(name, seq![108u8, 97u8, 122u8])
    ||| has_extension(name, seq![108u8, 97u8, 115u8])
    ||| has_extension(name, seq![76u8, 65u8, 90u8])
    ||| has_extension(name, seq![76u8, 65u8, 83u8])
}

/// Whether an entry is a file to convert.
pub open spec fn is_input(entry: DirectoryEntry) -> bool {
    entry.is_file && is_point_cloud_name(entry.name@)
}

/// Dictionary order of byte strings.
pub open spec fn lex_lt(a: Seq<u8>, b: Seq<u8>) -> bool
    decreases a.len(),
{
    if b.len() == 0 {
        false
    } else if a.len() == 0 {
        true
    } else if a[0] != b[0] {
        a[0] < b[0]
    } else {
        lex_lt(a.skip(1), b.skip(1))
    }
}

/// Whether entry `i` comes before entry `j`: by name, and among equal names by place.
pub open spec fn precedes(entries: Seq<DirectoryEntry>, i: usize, j: usize) -> bool {
    let a = entries[i as int].name@;
    let b = entries[j as int].name@;
    lex_lt(a, b) || (a == b && i < j)
}

proof fn lemma_lex_total(a: Seq<u8>, b: Seq<u8>)
    ensures
        a == b || lex_lt(a, b) || lex_lt(b, a),
        !(lex_lt(a, b) && lex_lt(b, a)),
        a == b ==> !lex_lt(a, b),
    decreases a.len(),
{
    if a.len() > 0 && b.len() > 0 && a[0] == b[0] {
        lemma_lex_total(a.skip(1), b.skip(1));
        if a.skip(1) == b.skip(1) {
            assert(a =~= seq![a[0]] + a.skip(1));
            assert(b =~= seq![b[0]] + b.skip(1));
        }
    } else if a.len() == 0 && b.len() == 0 {
        assert(a =~= b);
    }
}

proof fn lemma_lex_transitive(a: Seq<u8>, b: Seq<u8>, c: Seq<u8>)
    requires
        lex_lt(a, b),
        lex_lt(b, c),
    ensures
        lex_lt(a, c),
    decreases a.len(),
{
    if a.len() > 0 && a[0] == b[0] && b[0] == c[0] {
        lemma_lex_transitive(a.skip(1), b.skip(1), c.skip(1));
    }
}

proof fn lemma_precedes_transitive(entries: Seq<DirectoryEntry>, i: usize, j: usize, k: usize)
    requires
        precedes(entries, i, j),
        precedes(entries, j, k),
    ensures
        precedes(entries, i, k),
{
    let a = entries[i as int].name@;
    let b = entries[j as int].name@;
    let c = entries[k as int].name@;
    if lex_lt(a, b) && lex_lt(b, c) {
        lemma_lex_transitive(a, b, c);
    }
}

fn is_less(a: &Vec<u8>, b: &Vec<u8>) -> (r: bool)
    ensures
        r == lex_lt(a@, b@),
{
    let mut i: usize = 0;
    assert(a@.skip(0) =~= a@);
    assert(b@.skip(0) =~= b@);
    while i < a.len() && i < b.len()
        invariant
            0 <= i <= a.len(),
            i <= b.len(),
            lex_lt(a@, b@) == lex_lt(a@.skip(i as int), b@.skip(i as int)),
        decreases a.len() - i,
    {
        if a[i] != b[i] {
            return a[i] < b[i];
        }
        assert(a@.skip(i as int).skip(1) =~= a@.skip(i + 1));
        assert(b@.skip(i as int).skip(1) =~= b@.skip(i + 1));
        i = i + 1;
    }
    i < b.len()
}

fn names_point_cloud(name: &Vec<u8>) -> (r: bool)
    ensures
        r == is_point_cloud_name(name@),
{
    let n: usize = name.len();
    if n <= 4 {
        return false;
    }
    let a: u8 = name[n - 3];
    let b: u8 = name[n - 2];
    let c: u8 = name[n - 1];
    let r: bool = name[n - 4] == 46 && ((a == 108 && b == 97 && (c == 122 || c == 115)) || (a == 76
        && b == 65 && (c == 90 || c == 83)));
    proof {
        let tail = name@.skip(n - 4);
        assert(tail =~= seq![name[n - 4], a, b, c]);
        assert(seq![46u8] + seq![108u8, 97u8, 122u8] =~= seq![46u8, 108u8, 97u8, 122u8]);
        assert(seq![46u8] + seq![108u8, 97u8, 115u8] =~= seq![46u8, 108u8, 97u8, 115u8]);
        assert(seq![46u8] + seq![76u8, 65u8, 90u8] =~= seq![46u8, 76u8, 65u8, 90u8]);
        assert(seq![46u8] + seq![76u8, 65u8, 83u8] =~= seq![46u8, 76u8, 65u8, 83u8]);
        assert(tail[0] == name[n - 4] && tail[1] == a && tail[2] == b && tail[3] == c);
    }
    r
}

/// Whether `order` holds the input files among `entries`, each once, in their order.
pub open spec fn lists_inputs(order: Seq<usize>, entries: Seq<DirectoryEntry>) -> bool {
    &&& forall|i: int|
        0 <= i < order.len() ==> (#[trigger] order[i]) < entries.len() && is_input(
            entries[order[i] as int],
        )
    &&& forall|e: int|
        0 <= e < entries.len() && is_input(#[trigger] entries[e]) ==> order.contains(e as usize)
    &&& forall|i: int, j: int|
        0 <= i < j < order.len() ==> precedes(entries, #[trigger] order[i], #[trigger] order[j])
}

/// The place of the new index `x` in the ordered `order`.
fn place_for(order: &Vec<usize>, entries: &Vec<DirectoryEntry>, x: usize) -> (r: usize)
    requires
        x < entries.len(),
        forall|i: int| 0 <= i < order.len() ==> (#[trigger] order[i]) < x,
        forall|i: int, j: int|
            0 <= i < j < order.len() ==> precedes(
                entries@,
                #[trigger] order[i],
                #[trigger] order[j],
            ),
    ensures
        r <= order.len(),
        forall|i: int| 0 <= i < r ==> precedes(entries@, #[trigger] order[i], x),
        forall|i: int| r <= i < order.len() ==> precedes(entries@, x, #[trigger] order[i]),
{
    let mut at: usize = order.len();
    while at > 0 && is_less(&entries[x].name, &entries[order[at - 1]].name)
        invariant
            0 <= at <= order.len(),
            x < entries.len(),
            forall|i: int| 0 <= i < order.len() ==> (#[trigger] order[i]) < x,
            forall|i: int| at <= i < order.len() ==> precedes(entries@, x, #[trigger] order[i]),
        decreases at,
    {
        at = at - 1;
    }
    proof {
        if at > 0 {
            let last = order[at - 1];
            lemma_lex_total(entries[x as int].name@, entries[last as int].name@);
            assert(precedes(entries@, last, x));
            assert forall|i: int| 0 <= i < at implies precedes(entries@, #[trigger] order[i], x) by {
                if i < at - 1 {
                    lemma_precedes_transitive(entries@, order[i], last, x);
                }
            }
        }
    }
    at
}

/// Picks the LAZ and LAS files of a directory, ordered by name. Fails if there are none.
pub fn collect_input_files(entries: &Vec<DirectoryEntry>) -> (r: Result<Vec<usize>, NoInputFiles>)
    ensures
        r is Err <==> forall|e: int| 0 <= e < entries.len() ==> !is_input(#[trigger] entries[e]),
        r is Ok ==> lists_inputs(r->Ok_0@, entries@),
{
    let mut order: Vec<usize> = Vec::new();
    let mut x: usize = 0;
    while x < entries.len()
        invariant
            0 <= x <= entries.len(),
            forall|i: int|
                0 <= i < order.len() ==> (#[trigger] order[i]) < x && is_input(
                    entries[order[i] as int],
                ),
            forall|e: int|
                0 <= e < x && is_input(#[trigger] entries[e]) ==> order@.contains(e as usize),
            forall|i: int, j: int|
                0 <= i < j < order.len() ==> precedes(
                    entries@,
                    #[trigger] order[i],
                    #[trigger] order[j],
                ),
        decreases entries.len() - x,
    {
        if entries[x].is_file && names_point_cloud(&entries[x].name) {
            let at: usize = place_for(&order, entries, x);
            let ghost before = order@;
            order.insert(at, x);
            proof {
                assert forall|e: int| 0 <= e < x + 1 && is_input(#[trigger] entries[e]) implies order@.contains(
                e as usize) by {
                    if e == x {
                        assert(order@[at as int] == x);
                    } else {
                        let i = before.index_of(e as usize);
                        if i < at {
                            assert(order@[i] == e);
                        } else {
                            assert(order@[i + 1] == e);
                        }
                    }
                }
                assert forall|i: int, j: int| 0 <= i < j < order.len() implies precedes(
                    entries@,
                    #[trigger] order[i],
                    #[trigger] order[j],
                ) by {
                    let a = if i < at { i } else { i - 1 };
                    let b = if j < at { j } else { j - 1 };
                    if i != at {
                        assert(order[i] == before[a]);
                    }
                    if j != at {
                        assert(order[j] == before[b]);
                    }
                }
            }
        }
        x = x + 1;
    }
    if order.len() == 0 {
        proof {
            assert forall|e: int| 0 <= e < entries.len() implies !is_input(#[trigger] entries[e]) by {
                if is_input(entries[e]) {
                    assert(order@.contains(e as usize));
                }
            }
        }
        return Err(NoInputFiles);
    }
    assert(is_input(entries[order[0] as int]));
    Ok(order)
}

/// Whether the arguments name one directory to search, rather than files.
pub fn is_directory_input(path_count: usize, first_is_dir: bool) -> (r: bool)
    ensures
        r == (path_count == 1 && first_is_dir),
{
    path_count == 1 && first_is_dir
}

/// There is only one list of the input files.
pub proof fn input_order_is_unique(a: Seq<usize>, b: Seq<usize>, entries: Seq<DirectoryEntry>)
    requires
        lists_inputs(a, entries),
        lists_inputs(b, entries),
    ensures
        a == b,
{
    lemma_same_start(a, b, entries, if a.len() < b.len() { a.len() as int } else { b.len() as int });
    if a.len() < b.len() {
        lemma_extra(a, b, entries);
    } else if b.len() < a.len() {
        lemma_extra(b, a, entries);
    }
    assert(a =~= b);
}

proof fn lemma_same_start(a: Seq<usize>, b: Seq<usize>, entries: Seq<DirectoryEntry>, n: int)
    requires
        lists_inputs(a, entries),
        lists_inputs(b, entries),
        0 <= n <= a.len(),
        n <= b.len(),
    ensures
        forall|i: int| 0 <= i < n ==> #[trigger] a[i] == b[i],
    decreases n,
{
    if n > 0 {
        let m = n - 1;
        lemma_same_start(a, b, entries, m);
        let x = a[m];
        let y = b[m];
        if x != y {
            assert(is_input(entries[x as int]) && is_input(entries[y as int]));
            let i = b.index_of(x);
            let j = a.index_of(y);
            lemma_later(a, b, entries, m, i);
            lemma_later(b, a, entries, m, j);
            assert(precedes(entries, b[m], b[i]));
            assert(precedes(entries, a[m], a[j]));
            lemma_lex_total(entries[x as int].name@, entries[y as int].name@);
        }
    }
}

/// Where the lists agree before `m`, what stands at `m` in one stands no earlier in the
/// other.
proof fn lemma_later(a: Seq<usize>, b: Seq<usize>, entries: Seq<DirectoryEntry>, m: int, i: int)
    requires
        lists_inputs(a, entries),
        0 <= m < a.len(),
        m < b.len(),
        forall|k: int| 0 <= k < m ==> #[trigger] a[k] == b[k],
        0 <= i < b.len(),
        b[i] == a[m],
        a[m] != b[m],
    ensures
        i > m,
{
    if i < m {
        assert(a[i] == a[m]);
        assert(precedes(entries, a[i], a[m]));
        lemma_lex_total(entries[a[m] as int].name@, entries[a[m] as int].name@);
    }
}

proof fn lemma_extra(a: Seq<usize>, b: Seq<usize>, entries: Seq<DirectoryEntry>)
    requires
        lists_inputs(a, entries),
        lists_inputs(b, entries),
        forall|i: int| 0 <= i < a.len() ==> #[trigger] a[i] == b[i],
        a.len() <= b.len(),
    ensures
        a.len() >= b.len(),
{
    if a.len() < b.len() {
        let x = b[a.len() as int];
        assert(is_input(entries[x as int]));
        let i = a.index_of(x);
        assert(a[i] == b[i]);
        assert(precedes(entries, b[i], b[a.len() as int]));
        lemma_lex_total(entries[x as int].name@, entries[x as int].name@);
    }
}

/// A file is converted exactly if it is a file and its name, behind at least one other byte,
/// ends in `.laz`, `.las`, `.LAZ` or `.LAS`.
pub proof fn inputs_by_ending(entry: DirectoryEntry)
    ensures
        ({
            let s = entry.name@;
            let n = s.len();
            let (d, a, b, c) = (s[n - 4], s[n - 3], s[n - 2], s[n - 1]);
            is_input(entry) <==> entry.is_file && n >= 5 && d == 0x2e && ((a == 0x6c && b == 0x61 && (
            c == 0x7a || c == 0x73)) || (a == 0x4c && b == 0x41 && (c == 0x5a || c == 0x53)))
        }),
{
    let s = entry.name@;
    if s.len() >= 5 {
        let n = s.len() as int;
        let tail = s.skip(n - 4);
        assert(tail =~= seq![s[n - 4], s[n - 3], s[n - 2], s[n - 1]]);
        assert(seq![46u8] + seq![108u8, 97u8, 122u8] =~= seq![46u8, 108u8, 97u8, 122u8]);
        assert(seq![46u8] + seq![108u8, 97u8, 115u8] =~= seq![46u8, 108u8, 97u8, 115u8]);
        assert(seq![46u8] + seq![76u8, 65u8, 90u8] =~= seq![46u8, 76u8, 65u8, 90u8]);
        assert(seq![46u8] + seq![76u8, 65u8, 83u8] =~= seq![46u8, 76u8, 65u8, 83u8]);
        assert(tail[0] == s[n - 4] && tail[1] == s[n - 3] && tail[2] == s[n - 2] && tail[3] == s[n
            - 1]);
    }
}

/// Names are ordered by the first byte in which they differ; a name comes before those that
/// go on behind it.
pub proof fn names_in_order(a: Seq<u8>, b: Seq<u8>, n: int)
    requires
        0 <= n <= a.len(),
        n <= b.len(),
        forall|i: int| 0 <= i < n ==> #[trigger] a[i] == b[i],
        n < a.len() && n < b.len() ==> a[n] != b[n],
    ensures
        n < a.len() && n < b.len() ==> (lex_lt(a, b) <==> a[n] < b[n]),
        n == a.len() && n < b.len() ==> lex_lt(a, b),
        n == b.len() ==> !lex_lt(a, b),
    decreases n,
{
    if n > 0 {
        assert(a[0] == b[0]);
        let x = a.skip(1);
        let y = b.skip(1);
        assert forall|i: int| 0 <= i < n - 1 implies #[trigger] x[i] == y[i] by {
            assert(a[i + 1] == b[i + 1]);
        }
        names_in_order(x, y, n - 1);
    }
}

/// The list of the input files names every file to convert exactly once, ordered by name, and
/// nothing else.
pub proof fn inputs_are_listed(order: Seq<usize>, entries: Seq<DirectoryEntry>)
    requires
        lists_inputs(order, entries),
        entries.len() <= usize::MAX,
    ensures
        order.no_duplicates(),
        forall|e: int|
            0 <= e < entries.len() ==> (order.contains(e as usize) <==> is_input(
                #[trigger] entries[e],
            )),
        forall|i: int| 0 <= i < order.len() ==> #[trigger] order[i] < entries.len(),
        forall|i: int, j: int|
            0 <= i < j < order.len() ==> {
                let a = entries[#[trigger] order[i] as int].name@;
                let b = entries[#[trigger] order[j] as int].name@;
                lex_lt(a, b) || (a == b && order[i] < order[j])
            },
{
    assert forall|i: int, j: int|
        0 <= i < order.len() && 0 <= j < order.len() && i != j implies order[i] != order[j] by {
        let (a, b) = if i < j {
            (i, j)
        } else {
            (j, i)
        };
        assert(precedes(entries, order[a], order[b]));
        lemma_lex_total(entries[order[a] as int].name@, entries[order[b] as int].name@);
    }
    assert forall|e: int| 0 <= e < entries.len() implies (order.contains(e as usize) <==> is_input(
        #[trigger] entries[e],
    )) by {
        if order.contains(e as usize) {
            let i = order.index_of(e as usize);
            assert(order[i] == e);
        }
    }
    assert forall|i: int, j: int| 0 <= i < j < order.len() implies {
        let a = entries[#[trigger] order[i] as int].name@;
        let b = entries[#[trigger] order[j] as int].name@;
        lex_lt(a, b) || (a == b && order[i] < order[j])
    } by {
        assert(precedes(entries, order[i], order[j]));
    }
}

} // verus!
