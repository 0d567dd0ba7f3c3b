//! Compressed MusicXML (.mxl): a ZIP archive whose `META-INF/container.xml`
//! names the root MusicXML file; without one, the first `.xml` or
//! `.musicxml` entry outside `META-INF/` is taken. Also the choice between
//! plain and compressed MusicXML for raw bytes.
use vstd::prelude::*;
use vstd::string::StringExecFns;
use crate::model::Score;
use crate::xml::{XmlNode, NodeView, node_views, attr_in_view, lemma_attr_in_view, parse_document_nodes, xml_parse};
use crate::musicxml::{parse_musicxml, musicxml_outcome};
use crate::text::{str_to_chars, str_eq, lead_ws, is_ws, char_is_ws};

verus! {

#[verifier::external_type_specification]
#[verifier::external_body]
#[verifier::reject_recursive_types(T)]
pub struct ExCursor<T>(std::io::Cursor<T>);

#[verifier::external_type_specification]
#[verifier::external_body]
#[verifier::reject_recursive_types(R)]
pub struct ExZipArchive<R>(zip::ZipArchive<R>);

/// An archive read from bytes in memory.
pub type MemoryArchive<'a> = zip::ZipArchive<std::io::Cursor<&'a [u8]>>;

/// What the zip crate reports when it refuses bytes as a ZIP archive,
/// `None` when it opens them.
pub uninterp spec fn zip_error(data: Seq<u8>) -> Option<Seq<char>>;

/// The bytes an archive reads from.
pub uninterp spec fn archive_bytes(a: MemoryArchive<'_>) -> Seq<u8>;

/// `zip::ZipArchive::new` over the bytes. Claimed: whether it succeeds,
/// and its error's message, depend on the bytes alone (the name
/// `zip_error`); an archive it opens reads from those bytes.
#[verifier::external_body]
fn open_archive(data: &[u8]) -> (r: Result<MemoryArchive<'_>, String>)
    ensures
        match r {
            Ok(a) => zip_error(data@) is None && archive_bytes(a) == data@,
            Err(e) => zip_error(data@) == Some(e@),
        },
{
    zip::ZipArchive::new(std::io::Cursor::new(data)).map_err(|e| e.to_string())
}

/// Why an archive entry could not be read.
pub enum EntryError {
    /// No entry of that name (the zip crate's message)
    Missing(String),
    /// The entry could not be read as UTF-8 text (the I/O error's message)
    Unreadable(String),
}

/// What reading entry `name` of the archive in `data` gives: its text,
/// or `(true, message)` when `by_name` fails and `(false, message)` when
/// reading the entry as UTF-8 text fails. It stands for two outside calls,
/// zip's `by_name` and std's `read_to_string` on the entry it opens: the
/// entry borrows the archive, so the two are named together.
pub uninterp spec fn zip_read(data: Seq<u8>, name: Seq<char>) -> Result<Seq<char>, (bool, Seq<char>)>;

/// The view of an entry error: (whether the entry could not be opened, message).
pub open spec fn entry_error_view(e: EntryError) -> (bool, Seq<char>) {
    match e {
        EntryError::Missing(m) => (true, m@),
        EntryError::Unreadable(m) => (false, m@),
    }
}

/// `ZipArchive::by_name`, then `Read::read_to_string` on the entry found.
/// Claimed: the outcome depends on the archive's bytes and the name alone
/// (the name `zip_read`), and the archive keeps reading from its bytes.
#[verifier::external_body]
fn read_entry(archive: &mut MemoryArchive<'_>, name: &str) -> (r: Result<String, EntryError>)
    ensures
        archive_bytes(*final(archive)) == archive_bytes(*old(archive)),
        match r {
            Ok(t) => zip_read(archive_bytes(*old(archive)), name@) == Ok::<Seq<char>, (bool, Seq<char>)>(t@),
            Err(e) => zip_read(archive_bytes(*old(archive)), name@) == Err::<Seq<char>, (bool, Seq<char>)>(
                entry_error_view(e),
            ),
        },
{
    match archive.by_name(name) {
        Ok(mut file) => {
            let mut text = String::new();
            match std::io::Read::read_to_string(&mut file, &mut text) {
                Ok(_) => Ok(text),
                Err(e) => Err(EntryError::Unreadable(e.to_string())),
            }
        },
        Err(e) => Err(EntryError::Missing(e.to_string())),
    }
}

/// Number of entries of the archive in `data`.
pub uninterp spec fn zip_len(data: Seq<u8>) -> nat;

/// `ZipArchive::len`: the number of entries. Claimed: it depends on the
/// archive's bytes alone (the name `zip_len`).
#[verifier::external_body]
fn entry_count(archive: &MemoryArchive<'_>) -> (n: usize)
    ensures
        n == zip_len(archive_bytes(*archive)),
{
    archive.len()
}

/// Name of entry `i` of the archive in `data`, `None` when `by_index`
/// cannot open it. It stands for two calls of zip, `by_index` and the
/// opened entry's `name`: the entry borrows the archive, so the two are
/// named together.
pub uninterp spec fn zip_entry_name(data: Seq<u8>, i: int) -> Option<Seq<char>>;

/// `ZipArchive::by_index` and the entry's `name`; `None` when the entry
/// cannot be opened. Claimed: the outcome depends on the archive's bytes
/// and the index alone (the name `zip_entry_name`), and the archive keeps
/// reading from its bytes.
#[verifier::external_body]
fn entry_name(archive: &mut MemoryArchive<'_>, i: usize) -> (r: Option<String>)
    ensures
        archive_bytes(*final(archive)) == archive_bytes(*old(archive)),
        match r {
            Some(n) => zip_entry_name(archive_bytes(*old(archive)), i as int) == Some(n@),
            None => zip_entry_name(archive_bytes(*old(archive)), i as int) is None,
        },
{
    archive.by_index(i).ok().map(|f| f.name().to_string())
}

/// The `Debug` text of a list of strings (`["a", "b"]`, with Rust's
/// string escapes).
pub uninterp spec fn debug_list(items: Seq<Seq<char>>) -> Seq<char>;

pub open spec fn string_views(v: Seq<String>) -> Seq<Seq<char>> {
    v.map_values(|s: String| s@)
}

/// `format!("{:?}", names)` (`Debug` of `Vec<String>`). Claimed: the text
/// depends on the strings alone (the name `debug_list`).
#[verifier::external_body]
fn debug_names(names: &Vec<String>) -> (r: String)
    ensures
        r@ == debug_list(string_views(names@)),
{
    format!("{:?}", names)
}

// ─── Choosing the root file ───────────────────────────────────────────────

/// `full-path` of the first `rootfile` node of a container document.
pub open spec fn first_rootfile(nodes: Seq<NodeView>) -> Option<Seq<char>>
    decreases nodes.len(),
{
    if nodes.len() == 0 {
        None
    } else if nodes[0].2 == "rootfile"@ && attr_in_view(nodes[0].4, "full-path"@) is Some {
        attr_in_view(nodes[0].4, "full-path"@)
    } else {
        first_rootfile(nodes.drop_first())
    }
}

/// Path of the root file named by a container document's nodes (see
/// `first_rootfile`).
pub fn rootfile_path(nodes: &Vec<XmlNode>) -> (r: Option<String>)
    ensures
        match r {
            Some(p) => first_rootfile(node_views(nodes@)) == Some(p@),
            None => first_rootfile(node_views(nodes@)) is None,
        },
{
    let ghost vs = node_views(nodes@);
    let mut k: usize = 0;
    proof {
        assert(vs.skip(0) == vs);
    }
    while k < nodes.len()
        invariant
            vs == node_views(nodes@),
            k <= nodes@.len(),
            first_rootfile(vs) == first_rootfile(vs.skip(k as int)),
        decreases nodes@.len() - k,
    {
        proof {
            assert(vs.skip(k as int)[0] == vs[k as int]);
            assert(vs.skip(k as int).drop_first() == vs.skip(k + 1));
            lemma_attr_in_view(nodes@[k as int].attributes@, "full-path"@);
        }
        let n = &nodes[k];
        if str_eq(n.name.as_str(), "rootfile") {
            match crate::xml::attribute_in(&n.attributes, "full-path") {
                Some(p) => {
                    return Some(p);
                },
                None => {},
            }
        }
        k = k + 1;
    }
    None
}

pub open spec fn has_prefix(s: Seq<char>, p: Seq<char>) -> bool {
    p.len() <= s.len() && s.take(p.len() as int) == p
}

pub open spec fn has_suffix(s: Seq<char>, p: Seq<char>) -> bool {
    p.len() <= s.len() && s.skip(s.len() - p.len()) == p
}

/// Whether an archive entry name looks like the MusicXML file: outside
/// `META-INF/`, ending in `.xml` or `.musicxml`.
pub open spec fn musicxml_entry(name: Seq<char>) -> bool {
    !has_prefix(name, "META-INF/"@) && (has_suffix(name, ".xml"@) || has_suffix(name, ".musicxml"@))
}

fn starts_with(s: &Vec<char>, p: &str) -> (r: bool)
    ensures
        r == has_prefix(s@, p@),
{
    let pv = str_to_chars(p);
    crate::text::starts_with_chars(s, &pv)
}

fn ends_with(s: &Vec<char>, p: &str) -> (r: bool)
    ensures
        r == has_suffix(s@, p@),
{
    let pv = str_to_chars(p);
    if pv.len() > s.len() {
        return false;
    }
    let off = s.len() - pv.len();
    let mut k: usize = 0;
    while k < pv.len()
        invariant
            off + pv@.len() == s@.len(),
            s@.len() == s.len(),
            pv@ == p@,
            k <= pv@.len(),
            forall|j: int| 0 <= j < k ==> s@[off + j] == pv@[j],
        decreases pv@.len() - k,
    {
        if s[off + k] != pv[k] {
            proof {
                assert(s@.skip(off as int)[k as int] == s@[off + k]);
                assert(s@.skip(off as int) != pv@);
            }
            return false;
        }
        k = k + 1;
    }
    assert(s@.skip(off as int) =~= pv@);
    true
}

/// Whether an entry name looks like the MusicXML file (see `musicxml_entry`).
pub fn is_musicxml_entry(name: &str) -> (r: bool)
    ensures
        r == musicxml_entry(name@),
{
    let n = str_to_chars(name);
    !starts_with(&n, "META-INF/") && (ends_with(&n, ".xml") || ends_with(&n, ".musicxml"))
}

/// Index of the first entry name that looks like the MusicXML file.
pub open spec fn first_musicxml_entry(names: Seq<Seq<char>>) -> Option<int>
    decreases names.len(),
{
    if names.len() == 0 {
        None
    } else if musicxml_entry(names[0]) {
        Some(0)
    } else {
        match first_musicxml_entry(names.drop_first()) {
            Some(i) => Some(i + 1),
            None => None,
        }
    }
}

proof fn lemma_first_entry_bound(names: Seq<Seq<char>>)
    ensures
        first_musicxml_entry(names) matches Some(i) ==> 0 <= i < names.len(),
    decreases names.len(),
{
    if names.len() > 0 {
        lemma_first_entry_bound(names.drop_first());
    }
}

/// The first entry name that looks like the MusicXML file; otherwise the
/// error "No MusicXML file found in archive. Files: " and the names' list.
pub fn choose_musicxml_entry(names: &Vec<String>) -> (r: Result<String, String>)
    ensures
        match r {
            Ok(n) => first_musicxml_entry(string_views(names@)) matches Some(i) && n@ == names@[i]@,
            Err(e) => first_musicxml_entry(string_views(names@)) is None && e@
                == "No MusicXML file found in archive. Files: "@ + debug_list(string_views(names@)),
        },
{
    let ghost v = string_views(names@);
    let mut k: usize = 0;
    proof {
        assert(v.skip(0) == v);
    }
    while k < names.len()
        invariant
            v == string_views(names@),
            k <= names@.len(),
            first_musicxml_entry(v) == match first_musicxml_entry(v.skip(k as int)) {
                Some(i) => Some(i + k),
                None => None::<int>,
            },
        decreases names@.len() - k,
    {
        proof {
            assert(v.skip(k as int)[0] == names@[k as int]@);
            assert(v.skip(k as int).drop_first() == v.skip(k + 1));
        }
        if is_musicxml_entry(names[k].as_str()) {
            return Ok(String::from_str(names[k].as_str()));
        }
        k = k + 1;
    }
    let mut e = String::from_str("No MusicXML file found in archive. Files: ");
    let list = debug_names(names);
    e.append(list.as_str());
    Err(e)
}

// ─── Reading an archive ───────────────────────────────────────────────────

/// Names of the entries that can be opened among the first `n`, in order.
pub open spec fn listed_names(data: Seq<u8>, n: nat) -> Seq<Seq<char>>
    decreases n,
{
    if n == 0 {
        Seq::empty()
    } else {
        listed_names(data, (n - 1) as nat) + match zip_entry_name(data, n - 1) {
            Some(x) => seq![x],
            None => Seq::empty(),
        }
    }
}

/// Path of the root MusicXML file of the archive in `data`: the first
/// `rootfile` of `META-INF/container.xml` (parsed without DTDs); without
/// that entry, the first entry name that looks like MusicXML.
pub open spec fn root_file(data: Seq<u8>) -> Result<Seq<char>, Seq<char>> {
    match zip_read(data, "META-INF/container.xml"@) {
        Ok(xml) => match xml_parse(xml, false) {
            Err(m) => Err("Failed to parse container.xml: "@ + m),
            Ok(ns) => match first_rootfile(ns) {
                Some(p) => Ok(p),
                None => Err("No rootfile found in container.xml"@),
            },
        },
        Err((missing, m)) => if !missing {
            Err("Failed to read container.xml: "@ + m)
        } else {
            let names = listed_names(data, zip_len(data));
            match first_musicxml_entry(names) {
                Some(i) => Ok(names[i]),
                None => Err("No MusicXML file found in archive. Files: "@ + debug_list(names)),
            }
        },
    }
}

/// The MusicXML text of an .mxl archive given as bytes, or why it cannot
/// be had.
pub open spec fn mxl_text(data: Seq<u8>) -> Result<Seq<char>, Seq<char>> {
    match zip_error(data) {
        Some(m) => Err("Failed to open MXL archive: "@ + m),
        None => match root_file(data) {
            Err(e) => Err(e),
            Ok(root) => match zip_read(data, root) {
                Ok(t) => Ok(t),
                Err((missing, m)) => if missing {
                    Err("Root file '"@ + root + "' not found in archive: "@ + m)
                } else {
                    Err("Failed to read '"@ + root + "': "@ + m)
                },
            },
        },
    }
}

/// The view of a text result.
pub open spec fn text_result(r: Result<String, String>) -> Result<Seq<char>, Seq<char>> {
    match r {
        Ok(t) => Ok(t@),
        Err(e) => Err(e@),
    }
}

fn concat(a: &str, b: &str) -> (r: String)
    ensures
        r@ == a@ + b@,
{
    let mut s = String::from_str(a);
    s.append(b);
    s
}

/// Path of the root MusicXML file of an archive (see `root_file`).
fn read_container_xml(archive: &mut MemoryArchive<'_>) -> (r: Result<String, String>)
    ensures
        archive_bytes(*final(archive)) == archive_bytes(*old(archive)),
        text_result(r) == root_file(archive_bytes(*old(archive))),
{
    let ghost bytes = archive_bytes(*archive);
    match read_entry(archive, "META-INF/container.xml") {
        Ok(xml) => {
            match parse_document_nodes(xml.as_str(), false) {
                Err(m) => Err(concat("Failed to parse container.xml: ", m.as_str())),
                Ok(nodes) => match rootfile_path(&nodes) {
                    Some(p) => Ok(p),
                    None => Err(String::from_str("No rootfile found in container.xml")),
                },
            }
        },
        Err(EntryError::Unreadable(m)) => Err(concat("Failed to read container.xml: ", m.as_str())),
        Err(EntryError::Missing(_)) => {
            let n = entry_count(archive);
            let mut names: Vec<String> = Vec::new();
            let mut i: usize = 0;
            while i < n
                invariant
                    i <= n == zip_len(bytes),
                    archive_bytes(*archive) == bytes,
                    string_views(names@) == listed_names(bytes, i as nat),
                decreases n - i,
            {
                match entry_name(archive, i) {
                    Some(name) => {
                        names.push(name);
                    },
                    None => {},
                }
                proof {
                    assert(string_views(names@) =~= listed_names(bytes, (i + 1) as nat));
                }
                i = i + 1;
            }
            let r = choose_musicxml_entry(&names);
            proof {
                let v = string_views(names@);
                lemma_first_entry_bound(v);
                match first_musicxml_entry(v) {
                    Some(k) => {
                        assert(v[k] == names@[k]@);
                    },
                    None => {},
                }
            }
            r
        },
    }
}

/// The MusicXML text of an .mxl archive (see `mxl_text`): the root file
/// named by `META-INF/container.xml`, or the first entry that looks like
/// MusicXML. Fails with "Failed to open MXL archive: " and the zip crate's
/// message on bytes it does not open, and otherwise as `root_file` says or
/// when the root file cannot be found or read.
pub fn extract_musicxml_from_mxl(data: &[u8]) -> (r: Result<String, String>)
    ensures
        text_result(r) == mxl_text(data@),
{
    let mut archive = match open_archive(data) {
        Ok(a) => a,
        Err(m) => {
            return Err(concat("Failed to open MXL archive: ", m.as_str()));
        },
    };
    let root = match read_container_xml(&mut archive) {
        Ok(p) => p,
        Err(e) => {
            return Err(e);
        },
    };
    match read_entry(&mut archive, root.as_str()) {
        Ok(xml) => Ok(xml),
        Err(EntryError::Missing(m)) => {
            let mut e = String::from_str("Root file '");
            e.append(root.as_str());
            e.append("' not found in archive: ");
            e.append(m.as_str());
            Err(e)
        },
        Err(EntryError::Unreadable(m)) => {
            let mut e = String::from_str("Failed to read '");
            e.append(root.as_str());
            e.append("': ");
            e.append(m.as_str());
            Err(e)
        },
    }
}

/// What reading .mxl bytes gives (see `parse_mxl`).
pub open spec fn mxl_outcome(data: Seq<u8>, r: Result<Score, String>) -> bool {
    match mxl_text(data) {
        Err(e) => r matches Err(x) && x@ == e,
        Ok(t) => musicxml_outcome(t, r),
    }
}

/// Read a score from the bytes of an .mxl archive: its MusicXML text (see
/// `extract_musicxml_from_mxl`) parsed by `parse_musicxml`.
pub fn parse_mxl(data: &[u8]) -> (r: Result<Score, String>)
    ensures
        mxl_outcome(data@, r),
{
    match extract_musicxml_from_mxl(data) {
        Ok(xml) => parse_musicxml(xml.as_str()),
        Err(e) => Err(e),
    }
}

// ─── Plain or compressed ──────────────────────────────────────────────────

/// UTF-8 decoding of bytes: the text, or the decoding error's message.
pub uninterp spec fn utf8_decoded(data: Seq<u8>) -> Result<Seq<char>, Seq<char>>;

/// `std::str::from_utf8`. Claimed: the text, or the error's message,
/// depends on the bytes alone (the name `utf8_decoded`).
#[verifier::external_body]
fn decode_utf8(data: &[u8]) -> (r: Result<String, String>)
    ensures
        match r {
            Ok(s) => utf8_decoded(data@) == Ok::<Seq<char>, Seq<char>>(s@),
            Err(e) => utf8_decoded(data@) == Err::<Seq<char>, Seq<char>>(e@),
        },
{
    match std::str::from_utf8(data) {
        Ok(s) => Ok(s.to_string()),
        Err(e) => Err(e.to_string()),
    }
}

/// Whether a text looks like XML: its first non-whitespace character is '<'.
pub open spec fn looks_like_xml(t: Seq<char>) -> bool {
    lead_ws(t) < t.len() && t[lead_ws(t) as int] == '<'
}

fn starts_like_xml(t: &str) -> (r: bool)
    ensures
        r == looks_like_xml(t@),
{
    let cs = str_to_chars(t);
    let mut k: usize = 0;
    while k < cs.len() && char_is_ws(cs[k])
        invariant
            k <= cs@.len(),
            forall|j: int| 0 <= j < k ==> is_ws(#[trigger] cs@[j]),
        decreases cs@.len() - k,
    {
        k = k + 1;
    }
    proof {
        crate::text::lemma_lead_ws(cs@, k as int);
    }
    k < cs.len() && cs[k] == '<'
}

/// The format a byte buffer is read as.
pub enum ScoreFormat {
    /// Compressed MusicXML
    Mxl,
    /// Plain MusicXML text
    Xml,
}

/// How bytes are read: "mxl" as an archive; "musicxml" and "xml" as text;
/// otherwise as text when they decode as UTF-8 and start (after
/// whitespace) with '<', else as an archive.
pub open spec fn format_of(data: Seq<u8>, extension: Option<Seq<char>>) -> ScoreFormat {
    match extension {
        Some(x) => if x == "mxl"@ {
            ScoreFormat::Mxl
        } else if x == "musicxml"@ || x == "xml"@ {
            ScoreFormat::Xml
        } else {
            auto_format(data)
        },
        None => auto_format(data),
    }
}

pub open spec fn auto_format(data: Seq<u8>) -> ScoreFormat {
    match utf8_decoded(data) {
        Ok(t) => if looks_like_xml(t) {
            ScoreFormat::Xml
        } else {
            ScoreFormat::Mxl
        },
        Err(_) => ScoreFormat::Mxl,
    }
}

pub open spec fn opt_view(o: Option<&str>) -> Option<Seq<char>> {
    match o {
        Some(s) => Some(s@),
        None => None,
    }
}

/// Read a score from bytes, plain or compressed (see `format_of`); text
/// that is not UTF-8 fails with "Invalid UTF-8 in MusicXML file: " and the
/// decoder's message.
pub fn parse_bytes(data: &[u8], extension: Option<&str>) -> (r: Result<Score, String>)
    ensures
        format_of(data@, opt_view(extension)) is Mxl ==> mxl_outcome(data@, r),
        format_of(data@, opt_view(extension)) is Xml ==> match utf8_decoded(data@) {
            Err(m) => r matches Err(e) && e@ == "Invalid UTF-8 in MusicXML file: "@ + m,
            Ok(t) => musicxml_outcome(t, r),
        },
{
    let format = match extension {
        Some(x) => {
            if str_eq(x, "mxl") {
                ScoreFormat::Mxl
            } else if str_eq(x, "musicxml") || str_eq(x, "xml") {
                ScoreFormat::Xml
            } else {
                detect_format(data)
            }
        },
        None => detect_format(data),
    };
    match format {
        ScoreFormat::Mxl => parse_mxl(data),
        ScoreFormat::Xml => match decode_utf8(data) {
            Ok(text) => parse_musicxml(text.as_str()),
            Err(m) => {
                let mut e = String::from_str("Invalid UTF-8 in MusicXML file: ");
                e.append(m.as_str());
                Err(e)
            },
        },
    }
}

fn detect_format(data: &[u8]) -> (f: ScoreFormat)
    ensures
        f == auto_format(data@),
{
    match decode_utf8(data) {
        Ok(text) => {
            if starts_like_xml(text.as_str()) {
                ScoreFormat::Xml
            } else {
                ScoreFormat::Mxl
            }
        },
        Err(_) => ScoreFormat::Mxl,
    }
}

} // verus!
