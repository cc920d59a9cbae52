//! Scan a plugin binary for embedded factory presets.
//!
//! Many JUCE plugins compile their factory presets into the plugin file
//! itself, so no preset files exist on disk. The template tells us the
//! state's root node name; anything in the binary shaped like a complete
//! state document with that root is a preset candidate. Truncated documents
//! are skipped and duplicates removed. Preset names are not recoverable
//! this way (vendors store them in undocumented metadata), so callers
//! assign positional names.

use vstd::prelude::*;
use vstd::utf8::*;
use crate::convert::{Template, TemplateStateModel};
use crate::text::{bytes_at, bytes_of, chars_of, digits, find_bytes, first_occurrence, lemma_first_occurrence, occurs_at, push_all_chars, string_of, unsigned_text};
use crate::valuetree::node_at;

verus! {

broadcast use vstd::utf8::group_utf8_lib;

// ---------------------------------------------------------------------------
// Specification
// ---------------------------------------------------------------------------

/// The plain content of a list of documents.
pub open spec fn docs_view(v: Seq<Vec<u8>>) -> Seq<Seq<u8>> {
    Seq::new(v.len(), |i: int| v[i]@)
}

/// The list with `doc` appended, unless it is already there.
pub open spec fn add_new(docs: Seq<Seq<u8>>, doc: Seq<u8>) -> Seq<Seq<u8>> {
    if docs.contains(doc) {
        docs
    } else {
        docs.push(doc)
    }
}

/// The XML documents found from `pos` on, after those already in `docs`:
/// each runs from an opening tag to the next closing tag, and is skipped
/// when a second opening tag lies inside it (a truncated document).
pub open spec fn xml_docs_from(
    d: Seq<u8>,
    open: Seq<u8>,
    close: Seq<u8>,
    pos: int,
    docs: Seq<Seq<u8>>,
) -> Seq<Seq<u8>>
    decreases d.len() + 1 - pos,
{
    if pos < 0 {
        docs
    } else {
        match first_occurrence(d, open, pos) {
            None => docs,
            Some(start) => if start < pos || start >= d.len() {
                docs
            } else {
                match first_occurrence(d, close, start) {
                    None => docs,
                    Some(c) => {
                        let doc = d.subrange(start, c + close.len());
                        let next = if first_occurrence(doc, open, 1) is Some {
                            docs
                        } else {
                            add_new(docs, doc)
                        };
                        xml_docs_from(d, open, close, start + 1, next)
                    },
                }
            },
        }
    }
}

/// The length of a plausible tree at the start of `rest`: one that parses,
/// is at least 64 bytes long and has properties or children.
pub open spec fn tree_len_at(rest: Seq<u8>) -> Option<int> {
    match node_at(rest, 0, 0) {
        Some((n, len)) => if len >= 64 && len <= rest.len() && (n.props.len() > 0
            || n.children.len() > 0) {
            Some(len)
        } else {
            None
        },
        None => None,
    }
}

/// The binary trees found from `pos` on, after those already in `docs`:
/// each starts where the root name and a NUL occur; the scan resumes after
/// a tree that was taken, and one byte further otherwise.
pub open spec fn tree_docs_from(d: Seq<u8>, pat: Seq<u8>, pos: int, docs: Seq<Seq<u8>>) -> Seq<
    Seq<u8>,
>
    decreases d.len() + 1 - pos,
{
    if pos < 0 {
        docs
    } else {
        match first_occurrence(d, pat, pos) {
            None => docs,
            Some(start) => if start < pos || start >= d.len() {
                docs
            } else {
                let rest = d.subrange(start, d.len() as int);
                match tree_len_at(rest) {
                    Some(len) => tree_docs_from(
                        d,
                        pat,
                        start + len,
                        add_new(docs, rest.subrange(0, len)),
                    ),
                    None => tree_docs_from(d, pat, start + 1, docs),
                }
            },
        }
    }
}

/// "<root ".
pub open spec fn open_tag(root: Seq<char>) -> Seq<u8> {
    encode_utf8(seq!['<'] + root + seq![' '])
}

/// "</root>".
pub open spec fn close_tag(root: Seq<char>) -> Seq<u8> {
    encode_utf8(seq!['<', '/'] + root + seq!['>'])
}

/// The embedded documents a template's state form is searched for.
pub open spec fn extract_spec(state: TemplateStateModel, root: Seq<char>, binary: Seq<u8>) -> Seq<
    Seq<u8>,
> {
    match state {
        TemplateStateModel::Ubjson { .. } => Seq::empty(),
        TemplateStateModel::Xml(_) => xml_docs_from(
            binary,
            open_tag(root),
            close_tag(root),
            0,
            Seq::empty(),
        ),
        TemplateStateModel::Tree(_) => tree_docs_from(
            binary,
            encode_utf8(root).push(0u8),
            0,
            Seq::empty(),
        ),
    }
}

/// No document occurs twice in the list.
pub open spec fn distinct(docs: Seq<Seq<u8>>) -> bool {
    forall|i: int, j: int| 0 <= i < j < docs.len() ==> docs[i] != docs[j]
}

/// `doc` is a stretch of `d`.
pub open spec fn found_in(d: Seq<u8>, doc: Seq<u8>) -> bool {
    exists|p: int| occurs_at(d, doc, p)
}

/// Every document is a stretch of the binary.
pub open spec fn all_found_in(docs: Seq<Seq<u8>>, d: Seq<u8>) -> bool {
    forall|i: int| 0 <= i < docs.len() ==> #[trigger] found_in(d, docs[i])
}

/// A whole XML document: it opens with the opening tag, ends with the
/// closing tag, and no second opening tag starts inside it.
pub open spec fn whole_xml_doc(doc: Seq<u8>, open: Seq<u8>, close: Seq<u8>) -> bool {
    &&& occurs_at(doc, open, 0)
    &&& close.len() <= doc.len()
    &&& occurs_at(doc, close, doc.len() - close.len())
    &&& first_occurrence(doc, open, 1) is None
}

/// Every document is a whole XML document.
pub open spec fn all_whole(docs: Seq<Seq<u8>>, open: Seq<u8>, close: Seq<u8>) -> bool {
    forall|i: int| 0 <= i < docs.len() ==> #[trigger] whole_xml_doc(docs[i], open, close)
}

// ---------------------------------------------------------------------------
// Properties
// ---------------------------------------------------------------------------

proof fn lemma_add_new(docs: Seq<Seq<u8>>, doc: Seq<u8>, d: Seq<u8>, p: int)
    requires
        distinct(docs),
        all_found_in(docs, d),
        occurs_at(d, doc, p),
    ensures
        distinct(add_new(docs, doc)),
        all_found_in(add_new(docs, doc), d),
{
    if !docs.contains(doc) {
        let n = docs.push(doc);
        assert forall|i: int, j: int| 0 <= i < j < n.len() implies n[i] != n[j] by {
            if j == docs.len() {
                assert(docs[i] != doc);
            }
        }
        assert forall|i: int| 0 <= i < n.len() implies #[trigger] found_in(d, n[i]) by {
            if i == docs.len() {
                assert(occurs_at(d, n[i], p));
            } else {
                assert(n[i] == docs[i]);
            }
        }
    }
}

/// The XML scan lists every document once, each a stretch of the binary
/// and a whole document.
proof fn lemma_xml_docs(d: Seq<u8>, open: Seq<u8>, close: Seq<u8>, pos: int, docs: Seq<Seq<u8>>)
    requires
        distinct(docs),
        all_found_in(docs, d),
        all_whole(docs, open, close),
        open.len() <= close.len(),
    ensures
        distinct(xml_docs_from(d, open, close, pos, docs)),
        all_found_in(xml_docs_from(d, open, close, pos, docs), d),
        all_whole(xml_docs_from(d, open, close, pos, docs), open, close),
    decreases d.len() + 1 - pos,
{
    if pos >= 0 {
        if let Some(start) = first_occurrence(d, open, pos) {
            if start >= pos && start < d.len() {
                if let Some(c) = first_occurrence(d, close, start) {
                    lemma_first_occurrence(d, close, start);
                    let doc = d.subrange(start, c + close.len());
                    assert(occurs_at(d, doc, start));
                    if first_occurrence(doc, open, 1) is None {
                        lemma_add_new(docs, doc, d, start);
                        lemma_first_occurrence(d, open, pos);
                        assert(doc.subrange(0, open.len() as int) =~= d.subrange(
                            start,
                            start + open.len(),
                        ));
                        assert(doc.subrange(doc.len() - close.len(), doc.len() as int) =~= d.subrange(
                            c,
                            c + close.len(),
                        ));
                        assert(whole_xml_doc(doc, open, close));
                        let n = add_new(docs, doc);
                        assert forall|i: int| 0 <= i < n.len() implies #[trigger] whole_xml_doc(
                            n[i],
                            open,
                            close,
                        ) by {
                            if i < docs.len() {
                                assert(n[i] == docs[i]);
                            }
                        }
                    }
                    let next = if first_occurrence(doc, open, 1) is Some {
                        docs
                    } else {
                        add_new(docs, doc)
                    };
                    lemma_xml_docs(d, open, close, start + 1, next);
                }
            }
        }
    }
}

/// The tree scan lists every document once, each a stretch of the binary.
proof fn lemma_tree_docs(d: Seq<u8>, pat: Seq<u8>, pos: int, docs: Seq<Seq<u8>>)
    requires
        distinct(docs),
        all_found_in(docs, d),
    ensures
        distinct(tree_docs_from(d, pat, pos, docs)),
        all_found_in(tree_docs_from(d, pat, pos, docs), d),
    decreases d.len() + 1 - pos,
{
    if pos >= 0 {
        if let Some(start) = first_occurrence(d, pat, pos) {
            if start >= pos && start < d.len() {
                let rest = d.subrange(start, d.len() as int);
                match tree_len_at(rest) {
                    Some(len) => {
                        let doc = rest.subrange(0, len);
                        assert(d.subrange(start, start + len) =~= doc);
                        assert(occurs_at(d, doc, start));
                        lemma_add_new(docs, doc, d, start);
                        lemma_tree_docs(d, pat, start + len, add_new(docs, doc));
                    },
                    None => {
                        lemma_tree_docs(d, pat, start + 1, docs);
                    },
                }
            }
        }
    }
}

/// Encoding a concatenation concatenates the encodings.
proof fn lemma_encode_concat(a: Seq<char>, b: Seq<char>)
    ensures
        encode_utf8(a + b) == encode_utf8(a) + encode_utf8(b),
    decreases a.len(),
{
    if a.len() > 0 {
        lemma_encode_concat(a.drop_first(), b);
        assert((a + b).drop_first() =~= a.drop_first() + b);
        assert((a + b)[0] == a[0]);
        assert(encode_utf8(a + b) =~= encode_utf8(a) + encode_utf8(b));
    } else {
        assert(a + b =~= b);
        assert(encode_utf8(a) =~= Seq::<u8>::empty());
    }
}

/// The documents extracted from a binary are distinct, and each is a
/// stretch of the binary; for an XML state each is a whole document, from
/// the opening tag to the closing tag with no second opening tag inside.
pub proof fn lemma_extracted_distinct(state: TemplateStateModel, root: Seq<char>, binary: Seq<u8>)
    ensures
        distinct(extract_spec(state, root, binary)),
        all_found_in(extract_spec(state, root, binary), binary),
        state is Xml ==> all_whole(extract_spec(state, root, binary), open_tag(root), close_tag(root)),
{
    let e = Seq::<Seq<u8>>::empty();
    match state {
        TemplateStateModel::Ubjson { .. } => {},
        TemplateStateModel::Xml(_) => {
            lemma_encode_concat(seq!['<'] + root, seq![' ']);
            lemma_encode_concat(seq!['<'], root);
            lemma_encode_concat(seq!['<', '/'] + root, seq!['>']);
            lemma_encode_concat(seq!['<', '/'], root);
            assert(encode_utf8(seq!['<']).len() == 1) by {
                reveal_with_fuel(encode_utf8, 2);
            }
            assert(encode_utf8(seq![' ']).len() == 1) by {
                reveal_with_fuel(encode_utf8, 2);
            }
            assert(encode_utf8(seq!['>']).len() == 1) by {
                reveal_with_fuel(encode_utf8, 2);
            }
            assert(encode_utf8(seq!['<', '/']).len() == 2) by {
                reveal_with_fuel(encode_utf8, 3);
                assert(seq!['<', '/'].drop_first() =~= seq!['/']);
            }
            lemma_xml_docs(binary, open_tag(root), close_tag(root), 0, e);
        },
        TemplateStateModel::Tree(_) => {
            lemma_tree_docs(binary, encode_utf8(root).push(0u8), 0, e);
        },
    }
}

/// The XML scan loses nothing it has found.
proof fn lemma_xml_docs_keeps(
    d: Seq<u8>,
    open: Seq<u8>,
    close: Seq<u8>,
    pos: int,
    docs: Seq<Seq<u8>>,
    x: Seq<u8>,
)
    requires
        docs.contains(x),
    ensures
        xml_docs_from(d, open, close, pos, docs).contains(x),
    decreases d.len() + 1 - pos,
{
    if pos >= 0 {
        if let Some(start) = first_occurrence(d, open, pos) {
            if start >= pos && start < d.len() {
                if let Some(c) = first_occurrence(d, close, start) {
                    let doc = d.subrange(start, c + close.len());
                    let next = if first_occurrence(doc, open, 1) is Some {
                        docs
                    } else {
                        add_new(docs, doc)
                    };
                    assert(next.contains(x)) by {
                        if !docs.contains(doc) && next != docs {
                            assert(next[docs.index_of(x)] == x);
                        }
                    }
                    lemma_xml_docs_keeps(d, open, close, start + 1, next, x);
                }
            }
        }
    }
}

/// The XML scan from `pos` finds every whole document that opens at or
/// after `pos`.
proof fn lemma_xml_docs_finds(
    d: Seq<u8>,
    open: Seq<u8>,
    close: Seq<u8>,
    pos: int,
    docs: Seq<Seq<u8>>,
    s: int,
)
    requires
        0 <= pos <= s,
        open.len() > 0,
        occurs_at(d, open, s),
        first_occurrence(d, close, s) is Some,
        first_occurrence(
            d.subrange(s, first_occurrence(d, close, s).unwrap() + close.len()),
            open,
            1,
        ) is None,
    ensures
        xml_docs_from(d, open, close, pos, docs).contains(
            d.subrange(s, first_occurrence(d, close, s).unwrap() + close.len()),
        ),
    decreases d.len() + 1 - pos,
{
    let c = first_occurrence(d, close, s).unwrap();
    let doc = d.subrange(s, c + close.len());
    lemma_first_occurrence(d, open, pos);
    lemma_first_occurrence(d, close, s);
    let start = first_occurrence(d, open, pos).unwrap();
    lemma_first_occurrence(d, close, start);
    let c2 = first_occurrence(d, close, start).unwrap();
    let doc2 = d.subrange(start, c2 + close.len());
    let next = if first_occurrence(doc2, open, 1) is Some {
        docs
    } else {
        add_new(docs, doc2)
    };
    if start == s {
        assert(next.contains(doc)) by {
            if !docs.contains(doc) {
                assert(next[docs.len() as int] == doc);
            }
        }
        lemma_xml_docs_keeps(d, open, close, start + 1, next, doc);
    } else {
        lemma_xml_docs_finds(d, open, close, start + 1, next, s);
    }
}

/// Every whole XML document in the binary is extracted: wherever the
/// opening tag occurs, the stretch up to the first closing tag after it is
/// among the documents unless a second opening tag lies inside it. A
/// truncated document before it does not end the scan.
pub proof fn lemma_extracted_xml_complete(x: Seq<char>, root: Seq<char>, binary: Seq<u8>, s: int)
    requires
        occurs_at(binary, open_tag(root), s),
        first_occurrence(binary, close_tag(root), s) is Some,
        first_occurrence(
            binary.subrange(
                s,
                first_occurrence(binary, close_tag(root), s).unwrap() + close_tag(root).len(),
            ),
            open_tag(root),
            1,
        ) is None,
    ensures
        extract_spec(TemplateStateModel::Xml(x), root, binary).contains(
            binary.subrange(
                s,
                first_occurrence(binary, close_tag(root), s).unwrap() + close_tag(root).len(),
            ),
        ),
{
    lemma_encode_concat(seq!['<'] + root, seq![' ']);
    lemma_encode_concat(seq!['<'], root);
    assert(encode_utf8(seq!['<']).len() == 1) by {
        reveal_with_fuel(encode_utf8, 2);
    }
    lemma_xml_docs_finds(binary, open_tag(root), close_tag(root), 0, Seq::empty(), s);
}

// ---------------------------------------------------------------------------
// Scanning
// ---------------------------------------------------------------------------

/// Whether `doc` is already among `docs`.
fn has_doc(docs: &Vec<Vec<u8>>, doc: &[u8]) -> (r: bool)
    ensures
        r == docs_view(docs@).contains(doc@),
{
    let ghost dv = docs_view(docs@);
    let mut i: usize = 0;
    while i < docs.len()
        invariant
            i <= docs@.len(),
            dv == docs_view(docs@),
            forall|j: int| 0 <= j < i ==> #[trigger] dv[j] != doc@,
        decreases docs@.len() - i,
    {
        assert(dv[i as int] == docs@[i as int]@);
        if docs[i].len() == doc.len() && bytes_at(docs[i].as_slice(), doc, 0) {
            assert(docs[i as int]@.subrange(0, doc@.len() as int) =~= docs[i as int]@);
            assert(dv[i as int] == doc@);
            return true;
        }
        if docs[i].len() == doc.len() {
            assert(docs[i as int]@.subrange(0, doc@.len() as int) =~= docs[i as int]@);
        }
        i = i + 1;
    }
    assert(!dv.contains(doc@));
    false
}

/// Append a copy of `data[from..to]` unless an equal document is there.
fn push_new(docs: &mut Vec<Vec<u8>>, data: &[u8], from: usize, to: usize)
    requires
        from <= to <= data@.len(),
    ensures
        docs_view(final(docs)@) == add_new(docs_view(old(docs)@), data@.subrange(from as int, to as int)),
{
    let doc = vstd::slice::slice_subrange(data, from, to);
    if !has_doc(docs, doc) {
        let ghost before = docs_view(docs@);
        docs.push(vstd::slice::slice_to_vec(doc));
        assert(docs_view(docs@) =~= before.push(doc@));
    }
}

fn scan_xml_documents(data: &[u8], root: &str) -> (r: Vec<Vec<u8>>)
    ensures
        docs_view(r@) == xml_docs_from(data@, open_tag(root@), close_tag(root@), 0, Seq::empty()),
{
    let mut open_chars = vec!['<'];
    push_all_chars(&mut open_chars, &chars_of(root));
    open_chars.push(' ');
    let open = bytes_of(string_of(&open_chars).as_str());
    let mut close_chars = vec!['<', '/'];
    push_all_chars(&mut close_chars, &chars_of(root));
    close_chars.push('>');
    let close = bytes_of(string_of(&close_chars).as_str());
    assert(open_chars@ =~= seq!['<'] + root@ + seq![' ']);
    assert(close_chars@ =~= seq!['<', '/'] + root@ + seq!['>']);
    let ghost want = xml_docs_from(data@, open@, close@, 0, Seq::empty());
    let mut docs: Vec<Vec<u8>> = Vec::new();
    let mut pos: usize = 0;
    assert(docs_view(docs@) =~= Seq::<Seq<u8>>::empty());
    loop
        invariant
            pos <= data@.len(),
            open@ == open_tag(root@),
            close@ == close_tag(root@),
            want == xml_docs_from(data@, open_tag(root@), close_tag(root@), 0, Seq::empty()),
            want == xml_docs_from(data@, open@, close@, pos as int, docs_view(docs@)),
        decreases data@.len() - pos,
    {
        proof {
            lemma_first_occurrence(data@, open@, pos as int);
        }
        let start = match find_bytes(data, open.as_slice(), pos) {
            Some(s) => s,
            None => {
                return docs;
            },
        };
        if start >= data.len() {
            return docs;
        }
        proof {
            lemma_first_occurrence(data@, close@, start as int);
        }
        let c = match find_bytes(data, close.as_slice(), start) {
            Some(c) => c,
            None => {
                return docs;
            },
        };
        let end = c + close.len();
        let doc = vstd::slice::slice_subrange(data, start, end);
        if find_bytes(doc, open.as_slice(), 1).is_none() {
            push_new(&mut docs, data, start, end);
        }
        pos = start + 1;
    }
}

fn scan_value_trees(data: &[u8], root: &str) -> (r: Vec<Vec<u8>>)
    ensures
        docs_view(r@) == tree_docs_from(data@, encode_utf8(root@).push(0u8), 0, Seq::empty()),
{
    let mut pattern = bytes_of(root);
    pattern.push(0);
    let ghost want = tree_docs_from(data@, pattern@, 0, Seq::empty());
    let mut docs: Vec<Vec<u8>> = Vec::new();
    let mut pos: usize = 0;
    assert(docs_view(docs@) =~= Seq::<Seq<u8>>::empty());
    loop
        invariant
            pos <= data@.len(),
            pattern@ == encode_utf8(root@).push(0u8),
            want == tree_docs_from(data@, encode_utf8(root@).push(0u8), 0, Seq::empty()),
            want == tree_docs_from(data@, pattern@, pos as int, docs_view(docs@)),
        decreases data@.len() - pos,
    {
        proof {
            lemma_first_occurrence(data@, pattern@, pos as int);
        }
        let start = match find_bytes(data, pattern.as_slice(), pos) {
            Some(s) => s,
            None => {
                return docs;
            },
        };
        if start >= data.len() {
            return docs;
        }
        let rest = vstd::slice::slice_subrange(data, start, data.len());
        let mut taken: bool = false;
        match crate::valuetree::parse_with_len(rest) {
            Ok((node, len)) => {
                // Guard against random bytes that scan as a tiny tree.
                if len >= 64 && (node.props.len() > 0 || node.children.len() > 0) {
                    proof {
                        crate::valuetree::lemma_children_view(&node);
                        assert(rest@.subrange(0, len as int) =~= data@.subrange(
                            start as int,
                            start + len,
                        ));
                    }
                    push_new(&mut docs, data, start, start + len);
                    pos = start + len;
                    taken = true;
                }
            },
            Err(_) => {},
        }
        if !taken {
            pos = start + 1;
        }
    }
}

/// Extract candidate preset documents (XML text or binary trees, matching
/// the template's state form) from a plugin binary.
pub fn extract_embedded_presets(template: &Template, binary: &[u8]) -> (r: Vec<Vec<u8>>)
    ensures
        docs_view(r@) == extract_spec(template@.state, template@.state_root, binary@),
{
    if template.is_ubjson_state() {
        // UA plugins deliver factory presets as JSON files and their service,
        // not as state documents embedded in the binary; nothing to scan.
        let none: Vec<Vec<u8>> = Vec::new();
        assert(docs_view(none@) =~= Seq::<Seq<u8>>::empty());
        none
    } else if template.is_xml_state() {
        scan_xml_documents(binary, template.state_root_name())
    } else {
        scan_value_trees(binary, template.state_root_name())
    }
}

// ---------------------------------------------------------------------------
// Positional names
// ---------------------------------------------------------------------------

/// The width of the positional numbers for `count` documents: the digits of
/// the count, and at least 3.
pub open spec fn number_width(count: nat) -> nat {
    if digits(count).len() < 3 {
        3
    } else {
        digits(count).len()
    }
}

/// `s` with zeros in front, up to `w` characters.
pub open spec fn zero_padded(s: Seq<char>, w: nat) -> Seq<char> {
    if s.len() >= w {
        s
    } else {
        Seq::new((w - s.len()) as nat, |i: int| '0') + s
    }
}

/// The file name of the document at `index` among `count`: the stem, a
/// space, the zero-padded position (counted from 1) and ".xml".
pub open spec fn extracted_name_spec(stem: Seq<char>, index: nat, count: nat) -> Seq<char> {
    stem + seq![' '] + zero_padded(digits(index + 1), number_width(count)) + seq!['.', 'x', 'm', 'l']
}

/// The file name an extracted document is written under, named
/// positionally to preserve the binary's storage order.
pub fn extracted_file_name(stem: &str, index: usize, count: usize) -> (r: String)
    requires
        index < usize::MAX,
    ensures
        r@ == extracted_name_spec(stem@, index as nat, count as nat),
{
    let count_digits = unsigned_text(count as u64);
    let width: usize = if count_digits.len() < 3 {
        3
    } else {
        count_digits.len()
    };
    let number = unsigned_text((index + 1) as u64);
    let mut out = chars_of(stem);
    out.push(' ');
    let ghost head = out@;
    let mut k: usize = number.len();
    assert(out@ =~= head + Seq::new(0nat, |i: int| '0'));
    while k < width
        invariant
            number.len() <= k,
            k <= width || k == number.len(),
            out@ == head + Seq::new((k - number.len()) as nat, |i: int| '0'),
        decreases width - k,
    {
        out.push('0');
        assert(out@ =~= head + Seq::new((k + 1 - number.len()) as nat, |i: int| '0'));
        k = k + 1;
    }
    let ghost zeros = out@.subrange(head.len() as int, out@.len() as int);
    push_all_chars(&mut out, &number);
    out.push('.');
    out.push('x');
    out.push('m');
    out.push('l');
    proof {
        let w = number_width(count as nat);
        assert(w == width);
        if number@.len() >= w {
            assert(out@ =~= stem@ + seq![' '] + number@ + seq!['.', 'x', 'm', 'l']);
        } else {
            assert(out@ =~= stem@ + seq![' '] + (Seq::new((w - number@.len()) as nat, |i: int| '0')
                + number@) + seq!['.', 'x', 'm', 'l']);
        }
    }
    string_of(&out)
}

} // verus!
