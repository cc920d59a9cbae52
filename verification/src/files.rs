//! Preset file lists shared by the CLI and the GUI: which files are
//! candidates, their stems, and the order they are converted in. A path is
//! held as its components' text; walking directories is the caller's part.

use vstd::prelude::*;
use crate::text::{chars_of, string_of};

verus! {

/// A file to convert.
pub struct CollectedFile {
    /// The components of the file's path, as text.
    pub path: Vec<String>,
    /// Folder components of the subfolder the file sits in, relative to the
    /// top-level input it came from (["Ambient"], or ["Ambient", "Spacey"]
    /// when nested). None for files passed directly or sitting at the top
    /// of an input folder.
    pub subfolder: Option<Vec<String>>,
}

/// The plain content of a `CollectedFile`.
pub struct CollectedModel {
    pub path: Seq<Seq<char>>,
    pub subfolder: Option<Seq<Seq<char>>>,
}

/// The plain content of a list of strings.
pub open spec fn texts_view(v: Seq<String>) -> Seq<Seq<char>> {
    Seq::new(v.len(), |i: int| v[i]@)
}

impl View for CollectedFile {
    type V = CollectedModel;

    open spec fn view(&self) -> CollectedModel {
        CollectedModel {
            path: texts_view(self.path@),
            subfolder: match self.subfolder {
                Some(s) => Some(texts_view(s@)),
                None => None,
            },
        }
    }
}

/// The plain content of a list of files.
pub open spec fn files_view(v: Seq<CollectedFile>) -> Seq<CollectedModel> {
    Seq::new(v.len(), |i: int| v[i]@)
}

// ---------------------------------------------------------------------------
// Names
// ---------------------------------------------------------------------------

/// The file name of a path (`Path::file_name`): its last component, unless
/// that is the root, "." or "..".
pub open spec fn file_name_spec(path: Seq<Seq<char>>) -> Option<Seq<char>> {
    if path.len() == 0 {
        None
    } else {
        let n = path.last();
        if n == seq!['/'] || n == seq!['.'] || n == seq!['.', '.'] {
            None
        } else {
            Some(n)
        }
    }
}

/// The index of the last '.' before `j`.
pub open spec fn last_dot(n: Seq<char>, j: int) -> Option<int>
    decreases j,
{
    if j <= 0 || j > n.len() {
        None
    } else if n[j - 1] == '.' {
        Some(j - 1)
    } else {
        last_dot(n, j - 1)
    }
}

/// The stem of a path (`Path::file_stem`): the file name before its last
/// '.', or the whole name when it has no '.' but a leading one.
pub open spec fn file_stem_spec(path: Seq<Seq<char>>) -> Option<Seq<char>> {
    match file_name_spec(path) {
        None => None,
        Some(n) => match last_dot(n, n.len() as int) {
            Some(d) => if d == 0 {
                Some(n)
            } else {
                Some(n.subrange(0, d))
            },
            None => Some(n),
        },
    }
}

/// The extension of a path (`Path::extension`): the file name after its
/// last '.', when something comes before that '.'.
pub open spec fn extension_spec(path: Seq<Seq<char>>) -> Option<Seq<char>> {
    match file_name_spec(path) {
        None => None,
        Some(n) => match last_dot(n, n.len() as int) {
            Some(d) => if d == 0 {
                None
            } else {
                Some(n.subrange(d + 1, n.len() as int))
            },
            None => None,
        },
    }
}

/// A character with ASCII letters lowered.
pub open spec fn ascii_lower(c: char) -> char {
    if 'A' <= c <= 'Z' {
        ((c as u32) + 32) as char
    } else {
        c
    }
}

/// Equal up to ASCII case.
pub open spec fn eq_ascii_ci(a: Seq<char>, b: Seq<char>) -> bool {
    a.len() == b.len() && forall|i: int| 0 <= i < a.len() ==> ascii_lower(#[trigger] a[i]) == ascii_lower(b[i])
}

/// RPL files are skipped, so pointing at a folder that also holds the
/// template or previous output does no harm.
pub open spec fn is_candidate_spec(path: Seq<Seq<char>>) -> bool {
    match extension_spec(path) {
        None => true,
        Some(e) => !eq_ascii_ci(e, seq!['r', 'p', 'l']),
    }
}

fn is_component(n: &[char], c: &[char]) -> (r: bool)
    ensures
        r == (n@ == c@),
{
    crate::text::chars_eq(n, c)
}

fn last_dot_exec(n: &[char]) -> (r: Option<usize>)
    ensures
        r matches Some(d) ==> last_dot(n@, n@.len() as int) == Some(d as int) && d < n@.len(),
        r is None ==> last_dot(n@, n@.len() as int) is None,
{
    let mut j: usize = n.len();
    while j > 0 && n[j - 1] != '.'
        invariant
            j <= n@.len(),
            last_dot(n@, n@.len() as int) == last_dot(n@, j as int),
        decreases j,
    {
        j = j - 1;
    }
    if j == 0 {
        None
    } else {
        Some(j - 1)
    }
}

/// The file name of a path, as characters.
fn file_name_chars(path: &Vec<String>) -> (r: Option<Vec<char>>)
    ensures
        r matches Some(n) ==> file_name_spec(texts_view(path@)) == Some(n@),
        r is None ==> file_name_spec(texts_view(path@)) is None,
{
    if path.len() == 0 {
        return None;
    }
    let n = chars_of(path[path.len() - 1].as_str());
    let root: [char; 1] = ['/'];
    let cur: [char; 1] = ['.'];
    let up: [char; 2] = ['.', '.'];
    assert(root@ == seq!['/']);
    assert(cur@ == seq!['.']);
    assert(up@ == seq!['.', '.']);
    assert(texts_view(path@).last() == n@);
    if is_component(&n, &root) || is_component(&n, &cur) || is_component(&n, &up) {
        None
    } else {
        Some(n)
    }
}

/// The stem of a path (`Path::file_stem`).
pub fn file_stem(path: &Vec<String>) -> (r: Option<String>)
    ensures
        r matches Some(s) ==> file_stem_spec(texts_view(path@)) == Some(s@),
        r is None ==> file_stem_spec(texts_view(path@)) is None,
{
    match file_name_chars(path) {
        None => None,
        Some(n) => match last_dot_exec(&n) {
            Some(d) => if d == 0 {
                Some(string_of(&n))
            } else {
                Some(string_of(vstd::slice::slice_subrange(n.as_slice(), 0, d)))
            },
            None => Some(string_of(&n)),
        },
    }
}

/// Whether a path is a candidate preset file: anything but an RPL file.
pub fn is_candidate(path: &Vec<String>) -> (r: bool)
    ensures
        r == is_candidate_spec(texts_view(path@)),
{
    let n = match file_name_chars(path) {
        None => {
            return true;
        },
        Some(n) => n,
    };
    let d = match last_dot_exec(&n) {
        None => {
            return true;
        },
        Some(d) => d,
    };
    if d == 0 {
        return true;
    }
    assert(n@.len() == n.len());
    let e = vstd::slice::slice_subrange(n.as_slice(), d + 1, n.len());
    if e.len() != 3 {
        return true;
    }
    let rpl: [char; 3] = ['r', 'p', 'l'];
    assert(rpl@ == seq!['r', 'p', 'l']);
    let mut i: usize = 0;
    while i < 3
        invariant
            i <= 3,
            e@.len() == 3,
            rpl@ == seq!['r', 'p', 'l'],
            extension_spec(texts_view(path@)) == Some(e@),
            forall|k: int| 0 <= k < i ==> ascii_lower(#[trigger] e@[k]) == ascii_lower(rpl@[k]),
        decreases 3 - i,
    {
        let c = e[i];
        let lc = if 'A' <= c && c <= 'Z' {
            let u = c as u32 + 32;
            assert(0x41 + 32 <= u <= 0x5a + 32);
            match crate::text::char_from_u32(u) {
                Some(x) => x,
                None => {
                    assert(false);
                    c
                },
            }
        } else {
            c
        };
        proof {
            if 'A' <= c <= 'Z' {
                vstd::utf8::char_u32_cast(lc, (c as u32 + 32) as u32);
            }
        }
        if lc != rpl[i] {
            assert(ascii_lower(e@[i as int]) != ascii_lower(rpl@[i as int]));
            assert(!eq_ascii_ci(e@, seq!['r', 'p', 'l']));
            return true;
        }
        i = i + 1;
    }
    false
}

// ---------------------------------------------------------------------------
// Order
// ---------------------------------------------------------------------------

/// What `str::to_lowercase` gives for a text (Unicode lowercase mapping).
pub uninterp spec fn lowercase_of(s: Seq<char>) -> Seq<char>;

/// Lowercases text by calling `str::to_lowercase`, whose result depends on
/// the text alone (Unicode's mapping, not the locale).
#[verifier::external_body]
fn lowercase(s: &str) -> (r: String)
    ensures
        r@ == lowercase_of(s@),
{
    s.to_lowercase()
}

/// The sort key of a path: its components lowercased.
pub open spec fn sort_key(path: Seq<Seq<char>>) -> Seq<Seq<char>> {
    Seq::new(path.len(), |i: int| lowercase_of(path[i]))
}

/// Text order (`str`'s `Ord`: by code point, a prefix first).
pub open spec fn text_less(a: Seq<char>, b: Seq<char>) -> bool
    decreases a.len(),
{
    if b.len() == 0 {
        false
    } else if a.len() == 0 {
        true
    } else if (a[0] as u32) < (b[0] as u32) {
        true
    } else if a[0] == b[0] {
        text_less(a.drop_first(), b.drop_first())
    } else {
        false
    }
}

/// Key order (`Vec<String>`'s `Ord`: component by component, a prefix
/// first).
pub open spec fn key_less(a: Seq<Seq<char>>, b: Seq<Seq<char>>) -> bool
    decreases a.len(),
{
    if b.len() == 0 {
        false
    } else if a.len() == 0 {
        true
    } else if text_less(a[0], b[0]) {
        true
    } else if a[0] == b[0] {
        key_less(a.drop_first(), b.drop_first())
    } else {
        false
    }
}

/// Where `x` goes among `s`: before the first element whose key is greater.
pub open spec fn insert_at(s: Seq<CollectedModel>, x: CollectedModel, j: int) -> int
    decreases s.len() - j,
{
    if j < 0 || j >= s.len() {
        s.len() as int
    } else if key_less(sort_key(x.path), sort_key(s[j].path)) {
        j
    } else {
        insert_at(s, x, j + 1)
    }
}

/// The files sorted by key, equal keys kept in their order (a stable
/// insertion sort, as `sort_by` orders them).
pub open spec fn sorted_files(s: Seq<CollectedModel>) -> Seq<CollectedModel>
    decreases s.len(),
{
    if s.len() == 0 {
        Seq::empty()
    } else {
        let r = sorted_files(s.drop_last());
        r.insert(insert_at(r, s.last(), 0), s.last())
    }
}

proof fn lemma_text_less_irrefl(a: Seq<char>)
    ensures
        !text_less(a, a),
    decreases a.len(),
{
    if a.len() > 0 {
        lemma_text_less_irrefl(a.drop_first());
    }
}

proof fn lemma_text_less_trans(a: Seq<char>, b: Seq<char>, c: Seq<char>)
    requires
        text_less(a, b),
        text_less(b, c),
    ensures
        text_less(a, c),
    decreases a.len(),
{
    if a.len() > 0 && b.len() > 0 && c.len() > 0 && a[0] == b[0] && b[0] == c[0] {
        lemma_text_less_trans(a.drop_first(), b.drop_first(), c.drop_first());
    }
}

proof fn lemma_text_less_asym(a: Seq<char>, b: Seq<char>)
    requires
        text_less(a, b),
    ensures
        !text_less(b, a),
    decreases a.len(),
{
    if a.len() > 0 && b.len() > 0 && a[0] == b[0] {
        lemma_text_less_asym(a.drop_first(), b.drop_first());
    }
}

proof fn lemma_key_less_trans(a: Seq<Seq<char>>, b: Seq<Seq<char>>, c: Seq<Seq<char>>)
    requires
        key_less(a, b),
        key_less(b, c),
    ensures
        key_less(a, c),
    decreases a.len(),
{
    if a.len() > 0 && b.len() > 0 && c.len() > 0 {
        if text_less(a[0], b[0]) && text_less(b[0], c[0]) {
            lemma_text_less_trans(a[0], b[0], c[0]);
        } else if a[0] == b[0] && b[0] == c[0] {
            lemma_key_less_trans(a.drop_first(), b.drop_first(), c.drop_first());
        }
    }
}

proof fn lemma_key_less_asym(a: Seq<Seq<char>>, b: Seq<Seq<char>>)
    requires
        key_less(a, b),
    ensures
        !key_less(b, a),
    decreases a.len(),
{
    if a.len() > 0 && b.len() > 0 {
        if text_less(a[0], b[0]) {
            lemma_text_less_asym(a[0], b[0]);
        } else if a[0] == b[0] {
            lemma_text_less_irrefl(a[0]);
            lemma_key_less_asym(a.drop_first(), b.drop_first());
        }
    }
}

/// The files are in key order: no file's key is less than an earlier one's.
pub open spec fn in_key_order(s: Seq<CollectedModel>) -> bool {
    forall|i: int, j: int|
        0 <= i < j < s.len() ==> !key_less(sort_key(#[trigger] s[j].path), sort_key(#[trigger] s[i].path))
}

/// Every element before the insertion point has a key that `x`'s is not
/// less than; the one at it (if any) has a greater key.
proof fn lemma_insert_at(s: Seq<CollectedModel>, x: CollectedModel, j: int)
    requires
        0 <= j <= s.len(),
        forall|i: int| 0 <= i < j ==> !key_less(sort_key(x.path), sort_key(#[trigger] s[i].path)),
    ensures
        j <= insert_at(s, x, j) <= s.len(),
        forall|i: int|
            0 <= i < insert_at(s, x, j) ==> !key_less(sort_key(x.path), sort_key(#[trigger] s[i].path)),
        insert_at(s, x, j) < s.len() ==> key_less(
            sort_key(x.path),
            sort_key(s[insert_at(s, x, j)].path),
        ),
    decreases s.len() - j,
{
    if j < s.len() && !key_less(sort_key(x.path), sort_key(s[j].path)) {
        lemma_insert_at(s, x, j + 1);
    }
}

/// Sorting puts the files in key order and keeps every file exactly once.
pub proof fn lemma_sorted_files(s: Seq<CollectedModel>)
    ensures
        in_key_order(sorted_files(s)),
        sorted_files(s).to_multiset() == s.to_multiset(),
    decreases s.len(),
{
    broadcast use vstd::seq_lib::group_to_multiset_ensures;

    if s.len() > 0 {
        let r = sorted_files(s.drop_last());
        lemma_sorted_files(s.drop_last());
        let x = s.last();
        let p = insert_at(r, x, 0);
        lemma_insert_at(r, x, 0);
        let out = r.insert(p, x);
        assert(out == sorted_files(s));
        assert forall|i: int, j: int| 0 <= i < j < out.len() implies !key_less(
            sort_key(#[trigger] out[j].path),
            sort_key(#[trigger] out[i].path),
        ) by {
            let kx = sort_key(x.path);
            if j == p {
                // out[i] == r[i] with i < p
                assert(out[i] == r[i]);
            } else if i == p {
                assert(out[j] == r[j - 1]);
                // x < key(r[p]) <= key(r[j - 1])
                assert(key_less(kx, sort_key(r[p].path)));
                if key_less(sort_key(r[j - 1].path), kx) {
                    lemma_key_less_trans(sort_key(r[j - 1].path), kx, sort_key(r[p].path));
                    if j - 1 > p {
                        assert(!key_less(sort_key(r[j - 1].path), sort_key(r[p].path)));
                    } else {
                        lemma_key_less_asym(kx, sort_key(r[p].path));
                    }
                }
            } else {
                let ii = if i < p { i } else { i - 1 };
                let jj = if j < p { j } else { j - 1 };
                assert(out[i] == r[ii]);
                assert(out[j] == r[jj]);
                assert(ii < jj);
            }
        }
        assert(s.drop_last().push(x) =~= s);
    }
}

fn text_less_exec(a: &[char], b: &[char]) -> (r: bool)
    ensures
        r == text_less(a@, b@),
{
    let mut i: usize = 0;
    assert(a@.subrange(0, a@.len() as int) =~= a@);
    assert(b@.subrange(0, b@.len() as int) =~= b@);
    while i < a.len() && i < b.len() && a[i] == b[i]
        invariant
            i <= a@.len(),
            i <= b@.len(),
            text_less(a@, b@) == text_less(
                a@.subrange(i as int, a@.len() as int),
                b@.subrange(i as int, b@.len() as int),
            ),
        decreases a@.len() - i,
    {
        let ghost x = a@.subrange(i as int, a@.len() as int);
        let ghost y = b@.subrange(i as int, b@.len() as int);
        assert(x.drop_first() =~= a@.subrange(i + 1, a@.len() as int));
        assert(y.drop_first() =~= b@.subrange(i + 1, b@.len() as int));
        i = i + 1;
    }
    let ghost x = a@.subrange(i as int, a@.len() as int);
    let ghost y = b@.subrange(i as int, b@.len() as int);
    if i >= b.len() {
        false
    } else if i >= a.len() {
        true
    } else {
        assert(x[0] == a@[i as int] && y[0] == b@[i as int]);
        (a[i] as u32) < (b[i] as u32)
    }
}

fn key_less_exec(a: &Vec<Vec<char>>, b: &Vec<Vec<char>>) -> (r: bool)
    ensures
        r == key_less(Seq::new(a@.len(), |i: int| a@[i]@), Seq::new(b@.len(), |i: int| b@[i]@)),
{
    let ghost av = Seq::new(a@.len(), |i: int| a@[i]@);
    let ghost bv = Seq::new(b@.len(), |i: int| b@[i]@);
    let mut i: usize = 0;
    assert(av.subrange(0, av.len() as int) =~= av);
    assert(bv.subrange(0, bv.len() as int) =~= bv);
    while i < a.len() && i < b.len() && crate::text::chars_eq(a[i].as_slice(), b[i].as_slice())
        invariant
            i <= a@.len(),
            i <= b@.len(),
            av == Seq::new(a@.len(), |i: int| a@[i]@),
            bv == Seq::new(b@.len(), |i: int| b@[i]@),
            key_less(av, bv) == key_less(
                av.subrange(i as int, av.len() as int),
                bv.subrange(i as int, bv.len() as int),
            ),
        decreases a@.len() - i,
    {
        let ghost x = av.subrange(i as int, av.len() as int);
        let ghost y = bv.subrange(i as int, bv.len() as int);
        assert(x.drop_first() =~= av.subrange(i + 1, av.len() as int));
        assert(y.drop_first() =~= bv.subrange(i + 1, bv.len() as int));
        assert(x[0] == a@[i as int]@ && y[0] == b@[i as int]@);
        proof {
            lemma_text_less_irrefl(x[0]);
        }
        i = i + 1;
    }
    let ghost x = av.subrange(i as int, av.len() as int);
    let ghost y = bv.subrange(i as int, bv.len() as int);
    if i >= b.len() {
        false
    } else if i >= a.len() {
        true
    } else {
        assert(x[0] == a@[i as int]@ && y[0] == b@[i as int]@);
        text_less_exec(a[i].as_slice(), b[i].as_slice())
    }
}

/// The sort key of a path, as characters.
fn key_of(path: &Vec<String>) -> (r: Vec<Vec<char>>)
    ensures
        Seq::new(r@.len(), |i: int| r@[i]@) == sort_key(texts_view(path@)),
{
    let mut r: Vec<Vec<char>> = Vec::new();
    let mut i: usize = 0;
    while i < path.len()
        invariant
            i <= path@.len(),
            r@.len() == i,
            forall|k: int| 0 <= k < i ==> #[trigger] r@[k]@ == lowercase_of(path@[k]@),
        decreases path@.len() - i,
    {
        let low = lowercase(path[i].as_str());
        r.push(chars_of(low.as_str()));
        i = i + 1;
    }
    assert(Seq::new(r@.len(), |i: int| r@[i]@) =~= sort_key(texts_view(path@)));
    r
}

/// Sort files case-insensitively by path so presets stay grouped by
/// subfolder in a predictable order; equal keys keep their order.
pub fn sort_files(files: Vec<CollectedFile>) -> (r: Vec<CollectedFile>)
    ensures
        files_view(r@) == sorted_files(files_view(files@)),
        in_key_order(files_view(r@)),
        files_view(r@).to_multiset() == files_view(files@).to_multiset(),
{
    proof {
        lemma_sorted_files(files_view(files@));
    }
    let ghost fv = files_view(files@);
    assert(fv.len() == files.len());
    let mut out: Vec<CollectedFile> = Vec::new();
    let mut keys: Vec<Vec<Vec<char>>> = Vec::new();
    let ghost n = fv.len();
    let mut pending = files;
    assert(files_view(out@) =~= sorted_files(fv.subrange(0, 0)));
    let mut i: usize = 0;
    while pending.len() > 0
        invariant
            i + pending@.len() == n,
            n == fv.len(),
            n <= usize::MAX,
            fv == files_view(files@),
            forall|k: int| 0 <= k < pending@.len() ==> #[trigger] pending@[k]@ == fv[i + k],
            files_view(out@) == sorted_files(fv.subrange(0, i as int)),
            keys@.len() == out@.len(),
            forall|k: int| 0 <= k < out@.len() ==> Seq::new(keys@[k]@.len(), |j: int| keys@[k]@[j]@)
                == #[trigger] sort_key(out@[k]@.path),
        decreases pending@.len(),
    {
        let ghost pv = pending@;
        let f = pending.remove(0);
        assert(f@ == fv[i as int]);
        assert forall|k: int| 0 <= k < pending@.len() implies #[trigger] pending@[k]@ == fv[i + 1 + k] by {
            assert(pending@[k] == pv[k + 1]);
        }
        let k = key_of(&f.path);
        let ghost sv = files_view(out@);
        let mut j: usize = 0;
        while j < out.len() && !key_less_exec(&k, &keys[j])
            invariant
                j <= out@.len(),
                keys@.len() == out@.len(),
                sv == files_view(out@),
                Seq::new(k@.len(), |x: int| k@[x]@) == sort_key(f@.path),
                forall|m: int| 0 <= m < out@.len() ==> Seq::new(keys@[m]@.len(), |x: int| keys@[m]@[x]@)
                    == #[trigger] sort_key(out@[m]@.path),
                insert_at(sv, f@, 0) == insert_at(sv, f@, j as int),
            decreases out@.len() - j,
        {
            assert(sv[j as int] == out@[j as int]@);
            j = j + 1;
        }
        proof {
            if j < out@.len() {
                assert(sv[j as int] == out@[j as int]@);
            }
        }
        let ghost before = out@;
        let ghost before_keys = keys@;
        out.insert(j, f);
        keys.insert(j, k);
        proof {
            assert(fv.subrange(0, i + 1).drop_last() =~= fv.subrange(0, i as int));
            assert(files_view(out@) =~= sv.insert(j as int, fv[i as int]));
            assert forall|m: int| 0 <= m < out@.len() implies Seq::new(
                keys@[m]@.len(),
                |x: int| keys@[m]@[x]@,
            ) == #[trigger] sort_key(out@[m]@.path) by {
                if m < j {
                    assert(out@[m] == before[m]);
                    assert(keys@[m] == before_keys[m]);
                } else if m > j {
                    assert(out@[m] == before[m - 1]);
                    assert(keys@[m] == before_keys[m - 1]);
                }
            }
        }
        i = i + 1;
    }
    assert(fv.subrange(0, n as int) =~= fv);
    out
}


// ---------------------------------------------------------------------------
// Collecting
// ---------------------------------------------------------------------------

/// One input the user named: a file, or a folder together with every file
/// found under it, at any depth (listing the folder is the caller's part).
pub struct InputEntry {
    /// The components of the input's path.
    pub path: Vec<String>,
    /// For a folder, the paths of the files under it, as components, in the
    /// order the walk met them; None for a plain file.
    pub dir_files: Option<Vec<Vec<String>>>,
}

/// The plain content of an `InputEntry`.
pub struct InputModel {
    pub path: Seq<Seq<char>>,
    pub dir_files: Option<Seq<Seq<Seq<char>>>>,
}

impl View for InputEntry {
    type V = InputModel;

    open spec fn view(&self) -> InputModel {
        InputModel {
            path: texts_view(self.path@),
            dir_files: match self.dir_files {
                Some(fs) => Some(Seq::new(fs@.len(), |i: int| texts_view(fs@[i]@))),
                None => None,
            },
        }
    }
}

/// The plain content of a list of inputs.
pub open spec fn inputs_view(v: Seq<InputEntry>) -> Seq<InputModel> {
    Seq::new(v.len(), |i: int| v[i]@)
}

/// The folder a file under `root` sits in, relative to `root`: None when
/// it sits directly in `root` (or is not under it).
pub open spec fn subfolder_spec(root: Seq<Seq<char>>, path: Seq<Seq<char>>) -> Option<
    Seq<Seq<char>>,
> {
    if path.len() >= root.len() + 2 && path.subrange(0, root.len() as int) == root {
        Some(path.subrange(root.len() as int, path.len() - 1))
    } else {
        None
    }
}

/// The candidate files among the first `k` files found under `root`.
pub open spec fn dir_candidates(root: Seq<Seq<char>>, files: Seq<Seq<Seq<char>>>, k: int) -> Seq<
    CollectedModel,
>
    decreases k,
{
    if k <= 0 || k > files.len() {
        Seq::empty()
    } else {
        let before = dir_candidates(root, files, k - 1);
        let f = files[k - 1];
        if is_candidate_spec(f) {
            before.push(CollectedModel { path: f, subfolder: subfolder_spec(root, f) })
        } else {
            before
        }
    }
}

/// The candidate files one input contributes.
pub open spec fn input_candidates(input: InputModel) -> Seq<CollectedModel> {
    match input.dir_files {
        Some(files) => dir_candidates(input.path, files, files.len() as int),
        None => if is_candidate_spec(input.path) {
            seq![CollectedModel { path: input.path, subfolder: None }]
        } else {
            Seq::empty()
        },
    }
}

/// The candidate files of the first `k` inputs, in input order.
pub open spec fn gathered(inputs: Seq<InputModel>, k: int) -> Seq<CollectedModel>
    decreases k,
{
    if k <= 0 || k > inputs.len() {
        Seq::empty()
    } else {
        gathered(inputs, k - 1) + input_candidates(inputs[k - 1])
    }
}

/// The candidate files of all inputs, sorted.
pub open spec fn collect_spec(inputs: Seq<InputModel>) -> Seq<CollectedModel> {
    sorted_files(gathered(inputs, inputs.len() as int))
}

/// A copy of a list of strings.
fn copy_texts(v: &Vec<String>) -> (r: Vec<String>)
    ensures
        texts_view(r@) == texts_view(v@),
{
    let mut r: Vec<String> = Vec::new();
    let mut i: usize = 0;
    while i < v.len()
        invariant
            i <= v@.len(),
            texts_view(r@) == texts_view(v@).subrange(0, i as int),
        decreases v@.len() - i,
    {
        let ghost before = texts_view(r@);
        r.push(v[i].clone());
        assert(texts_view(r@) =~= before.push(v@[i as int]@));
        assert(texts_view(v@).subrange(0, i + 1) =~= texts_view(v@).subrange(0, i as int).push(
            v@[i as int]@,
        ));
        i = i + 1;
    }
    assert(texts_view(v@).subrange(0, v@.len() as int) =~= texts_view(v@));
    r
}

/// A copy of `v[from..to]`.
fn copy_texts_range(v: &Vec<String>, from: usize, to: usize) -> (r: Vec<String>)
    requires
        from <= to <= v@.len(),
    ensures
        texts_view(r@) == texts_view(v@).subrange(from as int, to as int),
{
    let mut r: Vec<String> = Vec::new();
    let mut i: usize = from;
    while i < to
        invariant
            from <= i <= to,
            to <= v@.len(),
            texts_view(r@) == texts_view(v@).subrange(from as int, i as int),
        decreases to - i,
    {
        let ghost before = texts_view(r@);
        r.push(v[i].clone());
        assert(texts_view(r@) =~= before.push(v@[i as int]@));
        assert(texts_view(v@).subrange(from as int, i + 1) =~= texts_view(v@).subrange(
            from as int,
            i as int,
        ).push(v@[i as int]@));
        i = i + 1;
    }
    r
}

/// Whether `path` begins with the components of `root`.
fn starts_with_components(path: &Vec<String>, root: &Vec<String>) -> (r: bool)
    requires
        root@.len() <= path@.len(),
    ensures
        r == (texts_view(path@).subrange(0, root@.len() as int) == texts_view(root@)),
{
    let ghost pv = texts_view(path@).subrange(0, root@.len() as int);
    let ghost rv = texts_view(root@);
    let mut i: usize = 0;
    while i < root.len()
        invariant
            i <= root@.len(),
            root@.len() <= path@.len(),
            pv == texts_view(path@).subrange(0, root@.len() as int),
            rv == texts_view(root@),
            forall|j: int| 0 <= j < i ==> #[trigger] pv[j] == rv[j],
        decreases root@.len() - i,
    {
        if !crate::text::str_eq(path[i].as_str(), root[i].as_str()) {
            assert(pv[i as int] != rv[i as int]);
            return false;
        }
        i = i + 1;
    }
    assert(pv =~= rv);
    true
}

/// The folder a file under `root` sits in, relative to `root`.
fn subfolder_of(root: &Vec<String>, path: &Vec<String>) -> (r: Option<Vec<String>>)
    ensures
        match r {
            Some(v) => subfolder_spec(texts_view(root@), texts_view(path@)) == Some(texts_view(v@)),
            None => subfolder_spec(texts_view(root@), texts_view(path@)) is None,
        },
{
    if root.len() < path.len() && path.len() - root.len() >= 2 && starts_with_components(path, root) {
        let v = copy_texts_range(path, root.len(), path.len() - 1);
        Some(v)
    } else {
        None
    }
}

/// Expand a mix of files and folders into a flat list of candidate preset
/// files, sorted case-insensitively by path so presets stay grouped by
/// subfolder in a predictable order. RPL files are skipped so pointing at
/// a folder that also holds the template or previous output does no harm.
pub fn collect_preset_files(inputs: &[InputEntry]) -> (r: Vec<CollectedFile>)
    ensures
        files_view(r@) == collect_spec(inputs_view(inputs@)),
        in_key_order(files_view(r@)),
{
    let ghost iv = inputs_view(inputs@);
    let mut out: Vec<CollectedFile> = Vec::new();
    let mut i: usize = 0;
    assert(files_view(out@) =~= gathered(iv, 0));
    while i < inputs.len()
        invariant
            i <= inputs@.len(),
            iv == inputs_view(inputs@),
            files_view(out@) == gathered(iv, i as int),
        decreases inputs@.len() - i,
    {
        let input = &inputs[i];
        assert(iv[i as int] == input@);
        let ghost start = files_view(out@);
        match &input.dir_files {
            Some(files) => {
                let ghost fs = Seq::new(files@.len(), |k: int| texts_view(files@[k]@));
                assert(input@.dir_files == Some(fs));
                let mut k: usize = 0;
                assert(files_view(out@) =~= start + dir_candidates(input@.path, fs, 0));
                while k < files.len()
                    invariant
                        k <= files@.len(),
                        fs == Seq::new(files@.len(), |x: int| texts_view(files@[x]@)),
                        files_view(out@) == start + dir_candidates(input@.path, fs, k as int),
                    decreases files@.len() - k,
                {
                    let f = &files[k];
                    assert(fs[k as int] == texts_view(f@));
                    let ghost before = files_view(out@);
                    if is_candidate(f) {
                        let sub = subfolder_of(&input.path, f);
                        let file = CollectedFile { path: copy_texts(f), subfolder: sub };
                        out.push(file);
                        assert(files_view(out@) =~= before.push(file@));
                    }
                    k = k + 1;
                }
            },
            None => {
                if is_candidate(&input.path) {
                    let file = CollectedFile { path: copy_texts(&input.path), subfolder: None };
                    out.push(file);
                    assert(files_view(out@) =~= start + seq![file@]);
                } else {
                    assert(files_view(out@) =~= start + Seq::<CollectedModel>::empty());
                }
            },
        }
        i = i + 1;
    }
    sort_files(out)
}


// ---------------------------------------------------------------------------
// Writing in place
// ---------------------------------------------------------------------------

/// ".tmp".
pub open spec fn tmp_suffix() -> Seq<char> {
    seq!['.', 't', 'm', 'p']
}

/// "output".
pub open spec fn output_name() -> Seq<char> {
    seq!['o', 'u', 't', 'p', 'u', 't']
}

/// The sibling a file is first written to before it is renamed over the
/// original: the file name with ".tmp" appended ("output.tmp" added when
/// the path has no file name).
pub open spec fn temp_path_spec(path: Seq<Seq<char>>) -> Seq<Seq<char>> {
    match file_name_spec(path) {
        Some(n) => path.subrange(0, path.len() - 1).push(n + tmp_suffix()),
        None => path.push(output_name() + tmp_suffix()),
    }
}

/// The temporary sibling an atomic write goes through, so a crash or full
/// disk mid-write can't destroy an existing file being edited in place.
pub fn temp_path(path: &Vec<String>) -> (r: Vec<String>)
    ensures
        texts_view(r@) == temp_path_spec(texts_view(path@)),
{
    proof {
        reveal_strlit(".tmp");
        reveal_strlit("output");
        assert(".tmp"@ =~= tmp_suffix());
        assert("output"@ =~= output_name());
    }
    let suffix = chars_of(".tmp");
    match file_name_chars(path) {
        Some(n) => {
            let mut r = copy_texts_range(path, 0, path.len() - 1);
            let mut name = n;
            crate::text::push_all_chars(&mut name, &suffix);
            let ghost before = texts_view(r@);
            r.push(string_of(&name));
            assert(texts_view(r@) =~= before.push(name@));
            r
        },
        None => {
            let mut r = copy_texts(path);
            let mut name = chars_of("output");
            crate::text::push_all_chars(&mut name, &suffix);
            let ghost before = texts_view(r@);
            r.push(string_of(&name));
            assert(texts_view(r@) =~= before.push(name@));
            r
        },
    }
}

} // verus!
