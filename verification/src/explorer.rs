//! The file explorer's list: which files of a folder it shows and in
//! what order, its pages, what a page shows, and moving between pages.

use vstd::prelude::*;
use vstd::utf8::encode_utf8;
use crate::text::str_bytes;

verus! {

/// Number of files shown per page.
pub const PAGE_SIZE: usize = 18;

/// What `str::to_lowercase` gives for `s` (the Unicode lowercase
/// mapping; a function of the string alone).
pub uninterp spec fn lowercase(s: Seq<char>) -> Seq<char>;

/// `str::to_lowercase`. Trusted: the result is `lowercase(s)`.
#[verifier::external_body]
fn to_lowercase(s: &str) -> (r: String)
    ensures
        r@ == lowercase(s@),
{
    s.to_lowercase()
}

/// Index of the last `.` among `n[0..k)`, or -1.
pub open spec fn last_dot(n: Seq<char>, k: int) -> int
    decreases k,
{
    if k <= 0 {
        -1
    } else if n[k - 1] == '.' {
        k - 1
    } else {
        last_dot(n, k - 1)
    }
}

/// A file name whose extension (as `Path::extension` finds it: after the
/// last `.`, which must not be the first character) is `md` or `txt`.
pub open spec fn listed(n: Seq<char>) -> bool {
    let d = last_dot(n, n.len() as int);
    &&& d > 0
    &&& (n.len() - d - 1 == 2 && n[d + 1] == 'm' && n[d + 2] == 'd') || (n.len() - d - 1 == 3 && n[d + 1]
        == 't' && n[d + 2] == 'x' && n[d + 3] == 't')
}

/// `a` sorts before `b` or with it, comparing bytes from index `i` on
/// (the order of `Ord` on strings).
pub open spec fn le_from(a: Seq<u8>, b: Seq<u8>, i: int) -> bool
    decreases a.len() - i,
{
    if i >= a.len() {
        true
    } else if i >= b.len() {
        false
    } else if a[i] != b[i] {
        a[i] < b[i]
    } else {
        le_from(a, b, i + 1)
    }
}

pub open spec fn bytes_le(a: Seq<u8>, b: Seq<u8>) -> bool {
    le_from(a, b, 0)
}

/// The sort key of a file name: its lowercase form.
pub open spec fn name_key(n: Seq<char>) -> Seq<u8> {
    encode_utf8(lowercase(n))
}

/// The first index from `j` on whose name sorts after `x`, or the length.
pub open spec fn first_after(s: Seq<Seq<char>>, x: Seq<char>, j: int) -> int
    decreases s.len() - j,
{
    if j >= s.len() {
        s.len() as int
    } else if !bytes_le(name_key(s[j]), name_key(x)) {
        j
    } else {
        first_after(s, x, j + 1)
    }
}

/// `ns` sorted by `name_key`, stably: each name goes after the names
/// before it that do not sort after it.
pub open spec fn sort_names(ns: Seq<Seq<char>>) -> Seq<Seq<char>>
    decreases ns.len(),
{
    if ns.len() == 0 {
        seq![]
    } else {
        let s = sort_names(ns.drop_last());
        s.insert(first_after(s, ns.last(), 0), ns.last())
    }
}

/// The names of `ns` that the explorer lists, in their order.
pub open spec fn listed_names(ns: Seq<Seq<char>>) -> Seq<Seq<char>>
    decreases ns.len(),
{
    if ns.len() == 0 {
        seq![]
    } else if listed(ns.last()) {
        listed_names(ns.drop_last()).push(ns.last())
    } else {
        listed_names(ns.drop_last())
    }
}

pub open spec fn names_view(v: Seq<String>) -> Seq<Seq<char>> {
    v.map_values(|x: String| x@)
}

/// The files the explorer shows of a folder holding the files `names`:
/// the Markdown and text files, sorted by lowercase name.
pub open spec fn explorer_files(ns: Seq<Seq<char>>) -> Seq<Seq<char>> {
    sort_names(listed_names(ns))
}

/// Names in order of `name_key`.
pub open spec fn sorted_by_name(s: Seq<Seq<char>>) -> bool {
    forall|i: int, j: int| 0 <= i < j < s.len() ==> bytes_le(#[trigger] name_key(s[i]), #[trigger] name_key(s[j]))
}

proof fn lemma_le_total(a: Seq<u8>, b: Seq<u8>, i: int)
    requires
        0 <= i,
    ensures
        le_from(a, b, i) || le_from(b, a, i),
    decreases a.len() - i,
{
    if i < a.len() && i < b.len() && a[i] == b[i] {
        lemma_le_total(a, b, i + 1);
    }
}

proof fn lemma_le_trans(a: Seq<u8>, b: Seq<u8>, c: Seq<u8>, i: int)
    requires
        0 <= i,
        le_from(a, b, i),
        le_from(b, c, i),
    ensures
        le_from(a, c, i),
    decreases a.len() - i,
{
    if i < a.len() && i < b.len() && i < c.len() && a[i] == b[i] && b[i] == c[i] {
        lemma_le_trans(a, b, c, i + 1);
    }
}

proof fn lemma_first_after(s: Seq<Seq<char>>, x: Seq<char>, j: int)
    requires
        0 <= j <= s.len(),
    ensures
        j <= first_after(s, x, j) <= s.len(),
        forall|k: int| j <= k < first_after(s, x, j) ==> bytes_le(#[trigger] name_key(s[k]), name_key(x)),
        first_after(s, x, j) < s.len() ==> !bytes_le(name_key(s[first_after(s, x, j)]), name_key(x)),
    decreases s.len() - j,
{
    if j < s.len() && bytes_le(name_key(s[j]), name_key(x)) {
        lemma_first_after(s, x, j + 1);
    }
}

proof fn lemma_insert_sorted(s: Seq<Seq<char>>, x: Seq<char>)
    requires
        sorted_by_name(s),
    ensures
        sorted_by_name(s.insert(first_after(s, x, 0), x)),
{
    let f = first_after(s, x, 0);
    lemma_first_after(s, x, 0);
    let t = s.insert(f, x);
    assert forall|i: int, j: int| 0 <= i < j < t.len() implies bytes_le(
        #[trigger] name_key(t[i]),
        #[trigger] name_key(t[j]),
    ) by {
        if j < f {
            assert(t[i] == s[i] && t[j] == s[j]);
        } else if j == f {
            assert(t[i] == s[i] && t[j] == x);
        } else if i < f {
            assert(t[i] == s[i] && t[j] == s[j - 1]);
            assert(bytes_le(name_key(s[i]), name_key(s[j - 1])));
        } else if i == f {
            assert(t[i] == x && t[j] == s[j - 1]);
            lemma_le_total(name_key(s[f]), name_key(x), 0);
            if f < j - 1 {
                assert(bytes_le(name_key(s[f]), name_key(s[j - 1])));
                lemma_le_trans(name_key(x), name_key(s[f]), name_key(s[j - 1]), 0);
            }
        } else {
            assert(t[i] == s[i - 1] && t[j] == s[j - 1]);
            assert(bytes_le(name_key(s[i - 1]), name_key(s[j - 1])));
        }
    }
}

/// `sort_names` puts the names in order of their lowercase form and keeps
/// each of them.
pub proof fn lemma_sort_names(ns: Seq<Seq<char>>)
    ensures
        sorted_by_name(sort_names(ns)),
        sort_names(ns).to_multiset() == ns.to_multiset(),
    decreases ns.len(),
{
    broadcast use vstd::multiset::group_multiset_axioms;
    if ns.len() > 0 {
        let s = sort_names(ns.drop_last());
        lemma_sort_names(ns.drop_last());
        lemma_insert_sorted(s, ns.last());
        lemma_first_after(s, ns.last(), 0);
        vstd::seq_lib::to_multiset_insert(s, first_after(s, ns.last(), 0), ns.last());
        vstd::seq_lib::to_multiset_build(ns.drop_last(), ns.last());
        assert(ns.drop_last().push(ns.last()) =~= ns);
        assert(sort_names(ns).to_multiset() =~= s.to_multiset().insert(ns.last()));
    } else {
        assert(sort_names(ns) =~= ns);
    }
}

proof fn lemma_listed_names(ns: Seq<Seq<char>>)
    ensures
        forall|i: int| 0 <= i < listed_names(ns).len() ==> listed(#[trigger] listed_names(ns)[i]),
        forall|x: Seq<char>| listed(x) ==> listed_names(ns).to_multiset().count(x) == ns.to_multiset().count(x),
        forall|x: Seq<char>| !listed(x) ==> listed_names(ns).to_multiset().count(x) == 0,
    decreases ns.len(),
{
    broadcast use vstd::multiset::group_multiset_axioms;
    if ns.len() > 0 {
        lemma_listed_names(ns.drop_last());
        vstd::seq_lib::to_multiset_build(ns.drop_last(), ns.last());
        assert(ns.drop_last().push(ns.last()) =~= ns);
        if listed(ns.last()) {
            vstd::seq_lib::to_multiset_build(listed_names(ns.drop_last()), ns.last());
        }
    } else {
        broadcast use vstd::seq_lib::group_to_multiset_ensures;
        assert(listed_names(ns) =~= ns);
    }
}

/// The explorer shows exactly the Markdown and text files of the folder
/// (each as often as it is given), in order of their lowercase names.
pub proof fn lemma_explorer_files(ns: Seq<Seq<char>>)
    ensures
        sorted_by_name(explorer_files(ns)),
        forall|x: Seq<char>| listed(x) ==> explorer_files(ns).to_multiset().count(x) == ns.to_multiset().count(x),
        forall|x: Seq<char>| !listed(x) ==> explorer_files(ns).to_multiset().count(x) == 0,
{
    lemma_sort_names(listed_names(ns));
    lemma_listed_names(ns);
}

/// Whether the explorer lists a file named `name`.
pub fn is_listed(name: &str) -> (r: bool)
    ensures
        r == listed(name@),
{
    let mut cs: Vec<char> = Vec::new();
    for c in it: name.chars()
        invariant
            it.seq() == name@,
            cs@ == name@.subrange(0, it.index() as int),
    {
        cs.push(c);
    }
    proof {
        assert(cs@ =~= name@);
    }
    let n = cs.len();
    let mut k = n;
    while k > 0 && cs[k - 1] != '.'
        invariant
            k <= n == cs@.len(),
            last_dot(cs@, n as int) == last_dot(cs@, k as int),
        decreases k,
    {
        k = k - 1;
    }
    if k <= 1 {
        return false;
    }
    let d = k - 1;
    (n - d - 1 == 2 && cs[d + 1] == 'm' && cs[d + 2] == 'd') || (n - d - 1 == 3 && cs[d + 1] == 't' && cs[d
        + 2] == 'x' && cs[d + 3] == 't')
}

/// `bytes_le` computed.
fn bytes_le_exec(a: &Vec<u8>, b: &Vec<u8>) -> (r: bool)
    ensures
        r == bytes_le(a@, b@),
{
    let mut i: usize = 0;
    loop
        invariant
            le_from(a@, b@, 0) == le_from(a@, b@, i as int),
        decreases a@.len() - i,
    {
        if i >= a.len() {
            return true;
        }
        if i >= b.len() {
            return false;
        }
        if a[i] != b[i] {
            return a[i] < b[i];
        }
        i = i + 1;
    }
}

/// The files the explorer shows of a folder whose files are named
/// `names`: see `explorer_files`.
pub fn list_files(names: &Vec<String>) -> (r: Vec<String>)
    ensures
        names_view(r@) == explorer_files(names_view(names@)),
{
    let mut r: Vec<String> = Vec::new();
    let mut keys: Vec<Vec<u8>> = Vec::new();
    let mut i: usize = 0;
    while i < names.len()
        invariant
            i <= names@.len(),
            names_view(r@) == sort_names(listed_names(names_view(names@).subrange(0, i as int))),
            keys@.len() == r@.len(),
            forall|j: int| 0 <= j < r@.len() ==> (#[trigger] keys@[j])@ == name_key(r@[j]@),
        decreases names@.len() - i,
    {
        let ghost before = names_view(names@).subrange(0, i as int);
        let ghost after = names_view(names@).subrange(0, i + 1);
        proof {
            assert(after.drop_last() =~= before);
            assert(after.last() == names@[i as int]@);
        }
        if is_listed(names[i].as_str()) {
            let low = to_lowercase(names[i].as_str());
            let kx = str_bytes(low.as_str());
            let ghost s = names_view(r@);
            let mut j: usize = 0;
            while j < r.len() && bytes_le_exec(&keys[j], &kx)
                invariant
                    j <= r@.len() == keys@.len(),
                    s == names_view(r@),
                    kx@ == name_key(names@[i as int]@),
                    forall|q: int| 0 <= q < r@.len() ==> (#[trigger] keys@[q])@ == name_key(r@[q]@),
                    first_after(s, names@[i as int]@, 0) == first_after(s, names@[i as int]@, j as int),
                decreases r@.len() - j,
            {
                j = j + 1;
            }
            proof {
                assert(first_after(s, names@[i as int]@, 0) == j);
            }
            let x = names[i].clone();
            let ghost keys0 = keys@;
            let ghost r0 = r@;
            r.insert(j, x);
            keys.insert(j, kx);
            proof {
                assert(names_view(r@) =~= s.insert(j as int, names@[i as int]@));
                assert(listed_names(after) == listed_names(before).push(after.last()));
                assert(listed_names(after).drop_last() =~= listed_names(before));
                assert forall|q: int| 0 <= q < r@.len() implies (#[trigger] keys@[q])@ == name_key(r@[q]@) by {
                    if q < j {
                    } else if q > j {
                        assert(keys@[q] == keys0[q - 1] && r@[q] == r0[q - 1]);
                    }
                }
            }
        } else {
            proof {
                assert(listed_names(after) == listed_names(before));
            }
        }
        i = i + 1;
    }
    proof {
        assert(names_view(names@).subrange(0, names@.len() as int) =~= names_view(names@));
    }
    r
}

/// Number of pages for `n` files (none for no files).
pub open spec fn page_count(n: int) -> int {
    if n <= 0 {
        0
    } else {
        (n + PAGE_SIZE - 1) / (PAGE_SIZE as int)
    }
}

/// Page `page` starts within a list of `n` files (the first page of an
/// empty list included).
pub open spec fn valid_page(n: int, page: int) -> bool {
    0 <= page && page * PAGE_SIZE <= n
}

/// The page before `page` (the first page stays).
pub open spec fn prev_of(page: int) -> int {
    if page <= 0 { 0 } else { page - 1 }
}

/// The page after `page` when there is one, else `page`.
pub open spec fn next_of(n: int, page: int) -> int {
    if page + 1 < page_count(n) { page + 1 } else { page }
}

/// What a page of the explorer shows.
#[derive(Clone, Copy, Debug, PartialEq, Eq, Structural)]
pub struct PageView {
    /// The files on the page are `files[start..end)`.
    pub start: usize,
    pub end: usize,
    pub total_pages: usize,
    /// A "previous page" button.
    pub has_prev: bool,
    /// A "next page" button.
    pub has_next: bool,
    /// The "page / pages" indicator (when there is more than one page).
    pub show_indicator: bool,
}

/// Number of pages for `n_files` files.
pub fn total_pages(n_files: usize) -> (r: usize)
    ensures
        r == page_count(n_files as int),
{
    if n_files == 0 {
        0
    } else if n_files % PAGE_SIZE == 0 {
        n_files / PAGE_SIZE
    } else {
        n_files / PAGE_SIZE + 1
    }
}

/// The files and controls page `page` shows of `n_files` files.
pub fn page_view(n_files: usize, page: usize) -> (r: PageView)
    requires
        valid_page(n_files as int, page as int),
    ensures
        r.start == page * PAGE_SIZE,
        r.end == if page * PAGE_SIZE + PAGE_SIZE <= n_files { page * PAGE_SIZE + PAGE_SIZE } else { n_files as int },
        r.total_pages == page_count(n_files as int),
        r.has_prev == (page > 0),
        r.has_next == (page + 1 < page_count(n_files as int)),
        r.show_indicator == (page_count(n_files as int) > 1),
{
    let total = total_pages(n_files);
    let start = page * PAGE_SIZE;
    let end = if n_files - start >= PAGE_SIZE {
        start + PAGE_SIZE
    } else {
        n_files
    };
    PageView {
        start,
        end,
        total_pages: total,
        has_prev: page > 0,
        has_next: page < total && page + 1 < total,
        show_indicator: total > 1,
    }
}

/// The page before `page` (the first page stays).
pub fn prev_page(page: usize) -> (r: usize)
    ensures
        r == prev_of(page as int),
{
    page.saturating_sub(1)
}

/// The page after `page`, when there is one.
pub fn next_page(n_files: usize, page: usize) -> (r: usize)
    ensures
        r == next_of(n_files as int, page as int),
{
    let total = total_pages(n_files);
    if page < total && page + 1 < total {
        page + 1
    } else {
        page
    }
}

/// The pages cover the list exactly: every file is on some page, and the
/// last page is not empty.
pub proof fn lemma_page_count(n: int)
    requires
        n > 0,
    ensures
        (page_count(n) - 1) * PAGE_SIZE < n <= page_count(n) * PAGE_SIZE,
{
}

/// Moving to the next or the previous page keeps a valid page valid; a
/// page moved to is never empty; going back after moving forward returns
/// to the same page.
pub proof fn lemma_page_moves(n: int, page: int)
    requires
        n >= 0,
        valid_page(n, page),
    ensures
        valid_page(n, next_of(n, page)),
        valid_page(n, prev_of(page)),
        next_of(n, page) != page ==> next_of(n, page) * PAGE_SIZE < n,
        prev_of(page) * PAGE_SIZE < n || n == 0,
        next_of(n, page) != page ==> prev_of(next_of(n, page)) == page,
{
    if n > 0 {
        lemma_page_count(n);
    }
}

} // verus!
