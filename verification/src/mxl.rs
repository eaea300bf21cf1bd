//! MusicXML from bytes: raw `.musicxml`/`.xml` text, or a compressed
//! `.mxl` archive (recognised by the zip magic, not the extension) whose
//! container file names the score entry.

use vstd::prelude::*;
use crate::convert::ConvertReport;
use crate::score::Score;
use crate::text::{chars_of, push_str, string_of};
use crate::xml::XmlDoc;

verus! {

// ---------------------------------------------------------------------------
// What the outside code reads

/// What `zip` lists of the archive held in `bytes`: each entry's name as the
/// archive decodes it (or the decoding error), in archive order; or the
/// error that kept the archive from being read.
pub uninterp spec fn zip_listing(bytes: Seq<u8>) -> Result<Seq<Result<Seq<char>, Seq<char>>>, Seq<char>>;

/// The text of the entry named `name` in the archive held in `bytes`, or
/// the error that kept it from being read.
pub uninterp spec fn zip_entry(bytes: Seq<u8>, name: Seq<char>) -> Result<Seq<char>, Seq<char>>;

/// `bytes` decoded as UTF-8, when they are valid UTF-8.
pub uninterp spec fn utf8_decode(bytes: Seq<u8>) -> Option<Seq<char>>;

pub open spec fn listing_view(r: Result<Vec<Result<String, String>>, String>) -> Result<Seq<Result<Seq<char>, Seq<char>>>, Seq<char>> {
    match r {
        Ok(v) => Ok(names_view(v@)),
        Err(e) => Err(e@),
    }
}

pub open spec fn names_view(v: Seq<Result<String, String>>) -> Seq<Result<Seq<char>, Seq<char>>> {
    Seq::new(v.len(), |i: int| match v[i] {
        Ok(n) => Ok(n@),
        Err(e) => Err(e@),
    })
}

/// `zip::ZipArchive::new` over the bytes, then `ZipArchive::file_names`:
/// the result is [`zip_listing`] of the bytes, each error rendered with its
/// `Display`.
#[verifier::external_body]
fn zip_entry_names(bytes: &[u8]) -> (r: Result<Vec<Result<String, String>>, String>)
    ensures
        listing_view(r) == zip_listing(bytes@),
{
    match zip::ZipArchive::new(std::io::Cursor::new(bytes)) {
        Ok(archive) => Ok(archive
            .file_names()
            .map(|name| name.map(|n| n.into_owned()).map_err(|err| err.to_string()))
            .collect()),
        Err(err) => Err(err.to_string()),
    }
}

/// `zip::ZipArchive::new` over the bytes, then `ZipArchive::by_name` and
/// reading the entry to a string: the result is [`zip_entry`] of the bytes
/// and the name, each error rendered with its `Display`.
#[verifier::external_body]
fn zip_entry_text(bytes: &[u8], name: &str) -> (r: Result<String, String>)
    ensures
        (match r {
            Ok(t) => Ok(t@),
            Err(e) => Err(e@),
        }) == zip_entry(bytes@, name@),
{
    let mut archive = zip::ZipArchive::new(std::io::Cursor::new(bytes)).map_err(|err| err.to_string())?;
    let mut entry = archive.by_name(name).map_err(|err| err.to_string())?;
    let mut text = String::new();
    std::io::Read::read_to_string(&mut entry, &mut text).map_err(|err| err.to_string())?;
    Ok(text)
}

/// `String::from_utf8`: the text when the bytes are valid UTF-8.
#[verifier::external_body]
fn utf8_text(bytes: &[u8]) -> (r: Option<String>)
    ensures
        (match r {
            Some(s) => Some(s@),
            None => None,
        }) == utf8_decode(bytes@),
{
    String::from_utf8(bytes.to_vec()).ok()
}

// ---------------------------------------------------------------------------
// Choosing the score entry

/// `a` sorts strictly before `b`, comparing from position `i` on, char by
/// char, a proper prefix first (the order of `str`).
pub open spec fn lex_lt_from(a: Seq<char>, b: Seq<char>, i: int) -> bool
    decreases a.len() - i,
{
    if i < 0 || i >= a.len() {
        0 <= i < b.len()
    } else if i >= b.len() {
        false
    } else if a[i] != b[i] {
        (a[i] as u32) < (b[i] as u32)
    } else {
        lex_lt_from(a, b, i + 1)
    }
}

pub open spec fn lex_lt(a: Seq<char>, b: Seq<char>) -> bool {
    lex_lt_from(a, b, 0)
}

/// An archive entry that can hold the score: outside `META-INF/`, named
/// `*.xml` or `*.musicxml`.
pub open spec fn is_score_entry(n: Seq<char>) -> bool {
    &&& !"META-INF/"@.is_prefix_of(n)
    &&& (".xml"@.is_suffix_of(n) || ".musicxml"@.is_suffix_of(n))
}

/// The least of the first `k` readable entry names that can hold the score
/// (the first of equals).
pub open spec fn least_entry(names: Seq<Result<Seq<char>, Seq<char>>>, k: int) -> Option<Seq<char>>
    decreases k,
{
    if k <= 0 || k > names.len() {
        None
    } else {
        let m = least_entry(names, k - 1);
        match names[k - 1] {
            Ok(n) => if is_score_entry(n) && (m is None || lex_lt(n, m->Some_0)) { Some(n) } else { m },
            Err(_) => m,
        }
    }
}

/// The entry to read: the one the container names, else the least entry
/// that can hold the score.
pub open spec fn root_entry_spec(container_root: Option<Seq<char>>, names: Seq<Result<Seq<char>, Seq<char>>>) -> Result<Seq<char>, Seq<char>> {
    match container_root {
        Some(p) => Ok(p),
        None => match least_entry(names, names.len() as int) {
            Some(n) => Ok(n),
            None => Err("the .mxl archive contains no MusicXML entry"@),
        },
    }
}

fn char_code(c: char) -> (r: u32)
    ensures
        r == c as u32,
{
    c as u32
}

fn lex_less(a: &Vec<char>, b: &Vec<char>) -> (r: bool)
    ensures
        r == lex_lt(a@, b@),
{
    let mut i: usize = 0;
    while i < a.len() && i < b.len()
        invariant
            i <= a@.len(),
            i <= b@.len(),
            lex_lt(a@, b@) == lex_lt_from(a@, b@, i as int),
        decreases a.len() - i,
    {
        if a[i] != b[i] {
            return char_code(a[i]) < char_code(b[i]);
        }
        i = i + 1;
    }
    i < b.len()
}

fn ends_with(n: &Vec<char>, suffix: &str) -> (r: bool)
    ensures
        r == suffix@.is_suffix_of(n@),
{
    let s = chars_of(suffix);
    if s.len() > n.len() {
        return false;
    }
    let off: usize = n.len() - s.len();
    let ghost tail = n@.subrange(off as int, n@.len() as int);
    let mut i: usize = 0;
    while i < s.len()
        invariant
            i <= s@.len(),
            s@ == suffix@,
            off + s@.len() == n@.len(),
            n@.len() <= usize::MAX,
            tail == n@.subrange(off as int, n@.len() as int),
            forall|j: int| 0 <= j < i ==> tail[j] == s@[j],
        decreases s.len() - i,
    {
        let j: usize = off + i;
        if n[j] != s[i] {
            proof {
                assert(tail[i as int] == n@[j as int]);
                assert(tail[i as int] != s@[i as int]);
                assert(!(s@ =~= tail));
            }
            return false;
        }
        assert(tail[i as int] == n@[j as int]);
        i = i + 1;
    }
    proof {
        assert(tail =~= s@);
    }
    true
}

fn starts_with(n: &Vec<char>, prefix: &str) -> (r: bool)
    ensures
        r == prefix@.is_prefix_of(n@),
{
    let p = chars_of(prefix);
    if p.len() > n.len() {
        return false;
    }
    let ghost head = n@.subrange(0, p@.len() as int);
    let mut i: usize = 0;
    while i < p.len()
        invariant
            i <= p@.len(),
            p@ == prefix@,
            p@.len() <= n@.len(),
            head == n@.subrange(0, p@.len() as int),
            forall|j: int| 0 <= j < i ==> head[j] == p@[j],
        decreases p.len() - i,
    {
        if n[i] != p[i] {
            proof {
                assert(head[i as int] == n@[i as int]);
                assert(!(p@ =~= head));
            }
            return false;
        }
        assert(head[i as int] == n@[i as int]);
        i = i + 1;
    }
    proof {
        assert(head =~= p@);
    }
    true
}

fn score_entry(n: &Vec<char>) -> (r: bool)
    ensures
        r == is_score_entry(n@),
{
    !starts_with(n, "META-INF/") && (ends_with(n, ".xml") || ends_with(n, ".musicxml"))
}

/// The archive entry to read the score from (see [`root_entry_spec`]): the
/// one the container file names, else the least entry outside `META-INF/`
/// named `*.xml` or `*.musicxml`.
pub fn choose_root_entry(container_root: &Option<String>, names: &Vec<Result<String, String>>) -> (r: Result<String, String>)
    ensures
        (match r {
            Ok(p) => Ok(p@),
            Err(e) => Err(e@),
        }) == root_entry_spec(
            match container_root {
                Some(p) => Some(p@),
                None => None,
            },
            names_view(names@),
        ),
{
    if let Some(p) = container_root {
        return Ok(crate::invention::copy_string(p));
    }
    let ghost nv = names_view(names@);
    let mut best: Option<Vec<char>> = None;
    let mut k: usize = 0;
    while k < names.len()
        invariant
            k <= names@.len(),
            nv == names_view(names@),
            (match best {
                Some(b) => Some(b@),
                None => None,
            }) == least_entry(nv, k as int),
        decreases names.len() - k,
    {
        if let Ok(n) = &names[k] {
            let c = chars_of(n.as_str());
            if score_entry(&c) {
                let better = match &best {
                    None => true,
                    Some(b) => lex_less(&c, b),
                };
                if better {
                    best = Some(c);
                }
            }
        }
        k = k + 1;
    }
    match best {
        Some(b) => Ok(string_of(&b)),
        None => Err(string_of(&chars_of("the .mxl archive contains no MusicXML entry"))),
    }
}

// ---------------------------------------------------------------------------
// The container file

/// The first node in document order that is an element named `name`.
pub open spec fn first_tagged(doc: XmlDoc, name: Seq<char>, k: int) -> Option<int>
    decreases doc.len() - k,
{
    if k < 0 || k >= doc.len() {
        None
    } else if doc.is_tag(k, name) {
        Some(k)
    } else {
        first_tagged(doc, name, k + 1)
    }
}

/// The `full-path` of the document's first `rootfile` element.
pub open spec fn rootfile_spec(doc: XmlDoc) -> Option<Seq<char>> {
    match first_tagged(doc, "rootfile"@, 0) {
        Some(i) => doc.attribute(i, "full-path"@),
        None => None,
    }
}

/// The score path a parsed `META-INF/container.xml` names (see
/// [`rootfile_spec`]).
pub fn rootfile_path(doc: &XmlDoc) -> (r: Option<Vec<char>>)
    requires
        doc.wf(),
    ensures
        (match r {
            Some(p) => Some(p@),
            None => None,
        }) == rootfile_spec(*doc),
{
    let mut i: usize = 0;
    while i < doc.is_element.len()
        invariant
            doc.wf(),
            i <= doc.len(),
            first_tagged(*doc, "rootfile"@, 0) == first_tagged(*doc, "rootfile"@, i as int),
        decreases doc.len() - i,
    {
        if doc.is_element[i] && crate::text::chars_eq(&doc.names[i], "rootfile") {
            return crate::xml::attribute(doc, i, "full-path");
        }
        i = i + 1;
    }
    None
}

/// What the text of a container file names as the score path, parsed
/// without DTDs: the `full-path` of its first `rootfile` (see
/// [`rootfile_spec`]); `None` when it does not parse or names none.
pub open spec fn container_root(text: Seq<char>, cr: Option<Seq<char>>) -> bool {
    match crate::xml::xml_parsed(text, false) {
        Err(_) => cr is None,
        Ok(ns) => match crate::xml::arena_error(ns) {
            Some(_) => cr is None,
            None => exists|doc: XmlDoc| #[trigger] crate::xml::arena_of(ns, doc) && cr == rootfile_spec(doc),
        },
    }
}

/// The score path named by the text of a container file (see
/// [`container_root`]).
fn container_rootfile(container: &str) -> (r: Option<String>)
    ensures
        container_root(container@, match r {
            Some(p) => Some(p@),
            None => None,
        }),
{
    match crate::xml::parse_xml_with(container, false) {
        Ok(doc) => {
            let p = rootfile_path(&doc);
            let r = match p {
                Some(p) => Some(string_of(&p)),
                None => None,
            };
            proof {
                match crate::xml::xml_parsed(container@, false) {
                    Ok(ns) => {
                        assert(crate::xml::arena_of(ns, doc));
                    },
                    Err(_) => {},
                }
            }
            r
        },
        Err(_) => None,
    }
}

// ---------------------------------------------------------------------------
// Reading the bytes

pub open spec fn unreadable_archive_msg(e: Seq<char>) -> Seq<char> {
    "input is not a readable .mxl archive: "@ + e
}

pub open spec fn unreadable_entry_msg(p: Seq<char>, e: Seq<char>) -> Seq<char> {
    "cannot read '"@ + p + "' in the .mxl archive: "@ + e
}

/// The container file's score path, if the archive has a readable one.
pub open spec fn archive_root(bytes: Seq<u8>, cr: Option<Seq<char>>) -> bool {
    match zip_entry(bytes, "META-INF/container.xml"@) {
        Ok(c) => container_root(c, cr),
        Err(_) => cr is None,
    }
}

/// The text of the chosen entry, or why there is none.
pub open spec fn read_entry(bytes: Seq<u8>, choice: Result<Seq<char>, Seq<char>>) -> Result<Seq<char>, Seq<char>> {
    match choice {
        Ok(p) => match zip_entry(bytes, p) {
            Ok(t) => Ok(t),
            Err(x) => Err(unreadable_entry_msg(p, x)),
        },
        Err(m) => Err(m),
    }
}

/// What reading an `.mxl` archive gives: the archive must be readable;
/// the entry read is the one the container file names, or the least score
/// entry when there is no readable container naming one.
pub open spec fn mxl_outcome(bytes: Seq<u8>, r: Result<Seq<char>, Seq<char>>) -> bool {
    match zip_listing(bytes) {
        Err(e) => r == Err::<Seq<char>, Seq<char>>(unreadable_archive_msg(e)),
        Ok(names) => exists|cr: Option<Seq<char>>| #[trigger] archive_root(bytes, cr)
            && r == read_entry(bytes, root_entry_spec(cr, names)),
    }
}

fn read_mxl(bytes: &[u8]) -> (r: Result<String, String>)
    ensures
        mxl_outcome(bytes@, match r {
            Ok(t) => Ok(t@),
            Err(e) => Err(e@),
        }),
{
    let names = match zip_entry_names(bytes) {
        Ok(names) => names,
        Err(e) => {
            let mut m = chars_of("input is not a readable .mxl archive: ");
            push_str(&mut m, e.as_str());
            proof {
                assert(m@ =~= unreadable_archive_msg(e@));
            }
            return Err(string_of(&m));
        },
    };
    let container_root = match zip_entry_text(bytes, "META-INF/container.xml") {
        Ok(container) => container_rootfile(container.as_str()),
        Err(_) => None,
    };
    let ghost cr = match container_root {
        Some(ref p) => Some(p@),
        None => None,
    };
    proof {
        assert(archive_root(bytes@, cr));
    }
    let root = match choose_root_entry(&container_root, &names) {
        Ok(root) => root,
        Err(e) => {
            return Err(e);
        },
    };
    match zip_entry_text(bytes, root.as_str()) {
        Ok(text) => Ok(text),
        Err(e) => {
            let mut m = chars_of("cannot read '");
            push_str(&mut m, root.as_str());
            push_str(&mut m, "' in the .mxl archive: ");
            push_str(&mut m, e.as_str());
            proof {
                assert(m@ =~= unreadable_entry_msg(root@, e@));
            }
            Err(string_of(&m))
        },
    }
}

/// The zip local-header magic `PK\x03\x04` opens the bytes.
pub open spec fn zip_magic(bytes: Seq<u8>) -> bool {
    bytes.len() >= 4 && bytes[0] == 0x50 && bytes[1] == 0x4b && bytes[2] == 0x03 && bytes[3] == 0x04
}

/// What reading MusicXML bytes gives: an `.mxl` archive is read as such
/// (see [`mxl_outcome`]); other bytes must be valid UTF-8 text.
pub open spec fn musicxml_text_outcome(bytes: Seq<u8>, r: Result<Seq<char>, Seq<char>>) -> bool {
    if zip_magic(bytes) {
        mxl_outcome(bytes, r)
    } else {
        r == match utf8_decode(bytes) {
            Some(t) => Ok(t),
            None => Err("input is not valid UTF-8 MusicXML"@),
        }
    }
}

/// The MusicXML text held in `bytes` (see [`musicxml_text_outcome`]).
pub fn read_musicxml(bytes: &[u8]) -> (r: Result<String, String>)
    ensures
        musicxml_text_outcome(bytes@, match r {
            Ok(t) => Ok(t@),
            Err(e) => Err(e@),
        }),
{
    if bytes.len() >= 4 && bytes[0] == 0x50 && bytes[1] == 0x4b && bytes[2] == 0x03 && bytes[3] == 0x04 {
        return read_mxl(bytes);
    }
    match utf8_text(bytes) {
        Some(text) => Ok(text),
        None => Err(string_of(&chars_of("input is not valid UTF-8 MusicXML"))),
    }
}

/// Converts MusicXML bytes (raw text or a compressed `.mxl` archive) into a
/// score and a conversion report: the text is read as
/// [`read_musicxml`] reads it, and a failure there is the error; otherwise
/// the result is [`crate::convert::convert_musicxml`] of the text.
pub fn convert_musicxml_bytes(bytes: &[u8]) -> (r: Result<(Score, ConvertReport), String>)
    ensures
        (exists|e: Seq<char>| musicxml_text_outcome(bytes@, Err(e)) && (r matches Err(x) && x@ == e))
            || (exists|t: Seq<char>| musicxml_text_outcome(bytes@, Ok(t)) && crate::convert::converted(t, r)),
{
    match read_musicxml(bytes) {
        Err(e) => Err(e),
        Ok(xml) => {
            crate::convert::convert_musicxml(xml.as_str())
        },
    }
}

} // verus!
