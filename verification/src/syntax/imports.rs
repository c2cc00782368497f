//! Import resolution: every `import "path"` statement of a source text is
//! replaced by the text of the file it names, with that file's own imports
//! resolved first.
//!
//! Resolution needs the file system, to find files and to read them. The
//! [`ImportResolver`] makes every decision and asks for that work through
//! the [`ImportAction`]s it returns; the caller does it and hands the
//! answer back as an [`ImportEvent`]. A file that is already being resolved
//! further up the chain of imports is a circular import; a file that was
//! resolved before is not included again.

use vstd::prelude::*;
use vstd::utf8::*;
use vstd::string::*;
use crate::text::{
    lemma_encode_concat, safe_slice, slice_end, slice_start,
};

verus! {

broadcast use vstd::utf8::group_utf8_lib;

// ---------------------------------------------------------------------------
// Finding the import statements
// ---------------------------------------------------------------------------

/// What the `regex` crate finds for `pattern` in `haystack` with
/// `Regex::captures_iter`: for each match, in order, the byte offsets of the
/// whole match and of the first capture group, if it took part.
pub uninterp spec fn regex_captures(pattern: Seq<char>, haystack: Seq<char>) -> Seq<(usize, usize, Option<(usize, usize)>)>;

/// The matches are successive and do not overlap; every offset is a
/// character boundary of the haystack; a match starts no later than it
/// ends.
pub open spec fn captures_well_placed(bytes: Seq<u8>, caps: Seq<(usize, usize, Option<(usize, usize)>)>) -> bool {
    &&& forall|i: int| 0 <= i < caps.len() ==> {
        &&& (#[trigger] caps[i]).0 <= caps[i].1 <= bytes.len()
        &&& is_char_boundary(bytes, caps[i].0 as int)
        &&& is_char_boundary(bytes, caps[i].1 as int)
        &&& (caps[i].2 matches Some((a, b)) ==> a <= b <= bytes.len() && is_char_boundary(bytes, a as int)
            && is_char_boundary(bytes, b as int))
    }
    &&& forall|i: int, j: int| 0 <= i < j < caps.len() ==> (#[trigger] caps[i]).1 <= (#[trigger] caps[j]).0
}

/// Compiles `pattern` with `regex::Regex::new` and lists what
/// `Regex::captures_iter` yields on `haystack`: the offsets of each match
/// (`Captures::get_match`) and of its first group. The contract claims that
/// the list is the one the crate computes (a function of the pattern and
/// the haystack alone), and what the crate documents of it: matches come in
/// order without overlapping, offsets are character boundaries and a
/// match's start is not after its end. `None` means that the pattern did
/// not compile. Of the import pattern it claims that it compiles (it is
/// well formed and small) and that its first group, which is not optional,
/// takes part in every match; of other patterns it says nothing about when
/// they compile.
#[verifier::external_body]
fn regex_capture_offsets(pattern: &str, haystack: &str) -> (r: Option<Vec<(usize, usize, Option<(usize, usize)>)>>)
    ensures
        r matches Some(v) ==> v@ == regex_captures(pattern@, haystack@)
            && captures_well_placed(haystack.spec_bytes(), v@),
        pattern@ == import_pattern() ==> (r matches Some(v) && forall|i: int| 0 <= i < v@.len() ==> (#[trigger] v@[i]).2 is Some),
{
    let re = match regex::Regex::new(pattern) {
        Ok(re) => re,
        Err(_) => return None,
    };
    Some(re.captures_iter(haystack).map(|cap| {
        let m = cap.get_match();
        (m.start(), m.end(), cap.get(1).map(|g| (g.start(), g.end())))
    }).collect())
}

/// The pattern of an import statement: `import`, white space and a quoted
/// path.
pub open spec fn import_pattern() -> Seq<char> {
    "import\\s+\"([^\"]+)\""@
}

/// An `import "path"` statement: the byte offsets of the whole statement
/// and the path as written.
#[derive(Debug)]
pub struct ImportSite {
    pub start: usize,
    pub end: usize,
    pub path: String,
}

/// Sites lie in the text in order, at character boundaries.
pub open spec fn sites_placed(bytes: Seq<u8>, sites: Seq<ImportSite>) -> bool {
    &&& forall|i: int| 0 <= i < sites.len() ==> {
        &&& (#[trigger] sites[i]).start <= sites[i].end <= bytes.len()
        &&& is_char_boundary(bytes, sites[i].start as int)
        &&& is_char_boundary(bytes, sites[i].end as int)
    }
    &&& forall|i: int, j: int| 0 <= i < j < sites.len() ==> (#[trigger] sites[i]).end <= (#[trigger] sites[j]).start
}

/// Why imports could not be resolved.
#[derive(Debug)]
pub enum ImportError {
    /// The import pattern did not compile.
    Pattern,
    /// A path could not be resolved to a file.
    CannotResolve { path: String, message: String },
    /// A file imports itself, directly or through other files.
    Circular { file: String },
    /// A file could not be read.
    CannotRead { file: String, message: String },
    /// An event that does not answer the last action.
    UnexpectedEvent,
}

/// A boundary offset is its own adjusted offset.
proof fn lemma_boundary_fixed(bytes: Seq<u8>, i: int)
    requires
        0 <= i <= bytes.len(),
        is_char_boundary(bytes, i),
    ensures
        slice_start(bytes, i) == i,
        slice_end(bytes, i) == i,
{
}

/// The import statements that the captures `caps` of the import pattern
/// mark in `source`: for each match, its offsets and the path its group
/// holds. A match in which the group took no part is refused.
pub fn sites_from_captures(source: &str, caps: &Vec<(usize, usize, Option<(usize, usize)>)>) -> (r: Result<
    Vec<ImportSite>,
    ImportError,
>)
    requires
        captures_well_placed(source.spec_bytes(), caps@),
    ensures
        r is Ok <==> forall|i: int| 0 <= i < caps@.len() ==> (#[trigger] caps@[i]).2 is Some,
        r matches Err(e) ==> e is Pattern,
        r matches Ok(sites) ==> {
            &&& sites@.len() == caps@.len()
            &&& forall|i: int| 0 <= i < sites@.len() ==> {
                &&& (#[trigger] sites@[i]).start == caps@[i].0
                &&& sites@[i].end == caps@[i].1
                &&& caps@[i].2 matches Some((a, b)) && encode_utf8(sites@[i].path@)
                    == source.spec_bytes().subrange(a as int, b as int)
            }
            &&& sites_placed(source.spec_bytes(), sites@)
        },
{
    let ghost bytes = source.spec_bytes();
    let mut sites: Vec<ImportSite> = Vec::new();
    let mut i: usize = 0;
    while i < caps.len()
        invariant
            i <= caps@.len(),
            captures_well_placed(bytes, caps@),
            bytes == source.spec_bytes(),
            sites@.len() == i,
            forall|k: int| 0 <= k < i ==> (#[trigger] caps@[k]).2 is Some,
            forall|k: int| 0 <= k < i ==> {
                &&& (#[trigger] sites@[k]).start == caps@[k].0
                &&& sites@[k].end == caps@[k].1
                &&& caps@[k].2 matches Some((a, b)) && encode_utf8(sites@[k].path@) == bytes.subrange(a as int, b as int)
            },
        decreases caps@.len() - i,
    {
        let (start, end, group) = caps[i];
        let (a, b) = match group {
            Some(g) => g,
            None => return Err(ImportError::Pattern),
        };
        proof {
            assert(caps@[i as int].2 == Some((a, b)));
            lemma_boundary_fixed(bytes, a as int);
            lemma_boundary_fixed(bytes, b as int);
        }
        let path = String::from_str(safe_slice(source, a, b));
        sites.push(ImportSite { start, end, path });
        i = i + 1;
    }
    Ok(sites)
}

/// The import statements of `source`, in order, as the import pattern
/// finds them.
pub fn find_imports(source: &str) -> (r: Result<Vec<ImportSite>, ImportError>)
    ensures
        r is Ok,
        r matches Ok(sites) ==> {
            let caps = regex_captures(import_pattern(), source@);
            &&& sites@.len() == caps.len()
            &&& forall|i: int| 0 <= i < sites@.len() ==> {
                &&& (#[trigger] sites@[i]).start == caps[i].0
                &&& sites@[i].end == caps[i].1
                &&& caps[i].2 matches Some((a, b)) && encode_utf8(sites@[i].path@)
                    == source.spec_bytes().subrange(a as int, b as int)
            }
            &&& sites_placed(source.spec_bytes(), sites@)
        },
{
    let pattern = "import\\s+\"([^\"]+)\"";
    proof {
        assert(pattern@ == import_pattern());
    }
    let caps = match regex_capture_offsets(pattern, source) {
        Some(c) => c,
        None => return Err(ImportError::Pattern),
    };
    sites_from_captures(source, &caps)
}

// ---------------------------------------------------------------------------
// Splicing replacements into a text
// ---------------------------------------------------------------------------

/// Where the text after the first `k` sites resumes.
pub open spec fn gap_start(sites: Seq<ImportSite>, k: int) -> int {
    if k <= 0 { 0 } else { sites[k - 1].end as int }
}

/// The text up to the end of the first `n` sites, each site replaced by
/// its piece.
pub open spec fn spliced_upto(bytes: Seq<u8>, sites: Seq<ImportSite>, pieces: Seq<Seq<char>>, n: int) -> Seq<u8>
    decreases n,
{
    if n <= 0 {
        Seq::empty()
    } else {
        spliced_upto(bytes, sites, pieces, n - 1) + bytes.subrange(gap_start(sites, n - 1), sites[n - 1].start as int)
            + encode_utf8(pieces[n - 1])
    }
}

/// The whole text with every site replaced by its piece.
pub open spec fn spliced(bytes: Seq<u8>, sites: Seq<ImportSite>, pieces: Seq<Seq<char>>) -> Seq<u8> {
    spliced_upto(bytes, sites, pieces, sites.len() as int)
        + bytes.subrange(gap_start(sites, sites.len() as int), bytes.len() as int)
}

/// The characters of each string.
pub open spec fn texts(v: Seq<String>) -> Seq<Seq<char>> {
    v.map_values(|s: String| s@)
}

/// `source` with the `i`-th site replaced by `pieces[i]`.
pub fn splice(source: &str, sites: &Vec<ImportSite>, pieces: &Vec<String>) -> (r: String)
    requires
        sites_placed(source.spec_bytes(), sites@),
        pieces@.len() == sites@.len(),
    ensures
        encode_utf8(r@) == spliced(source.spec_bytes(), sites@, texts(pieces@)),
{
    let ghost bytes = source.spec_bytes();
    let ghost pv = texts(pieces@);
    let mut out = String::new();
    let mut last: usize = 0;
    let mut i: usize = 0;
    proof {
        is_char_boundary_start_end_of_seq(bytes);
    }
    while i < sites.len()
        invariant
            i <= sites@.len() == pieces@.len(),
            bytes == source.spec_bytes(),
            pv == texts(pieces@),
            sites_placed(bytes, sites@),
            last == gap_start(sites@, i as int),
            last <= bytes.len(),
            is_char_boundary(bytes, last as int),
            i < sites@.len() ==> last <= sites@[i as int].start,
            encode_utf8(out@) == spliced_upto(bytes, sites@, pv, i as int),
        decreases sites@.len() - i,
    {
        let site = &sites[i];
        proof {
            lemma_boundary_fixed(bytes, last as int);
            lemma_boundary_fixed(bytes, site.start as int);
        }
        let gap = safe_slice(source, last, site.start);
        let ghost before = out@;
        out.append(gap);
        out.append(pieces[i].as_str());
        proof {
            lemma_encode_concat(before, gap@);
            lemma_encode_concat(before + gap@, pieces@[i as int]@);
            assert(out@ == before + gap@ + pieces@[i as int]@);
            assert(pv[i as int] == pieces@[i as int]@);
            if i + 1 < sites@.len() {
                assert(sites@[i as int].end <= sites@[i + 1].start);
            }
        }
        last = site.end;
        i = i + 1;
    }
    let len = crate::text::byte_len(source);
    proof {
        lemma_boundary_fixed(bytes, last as int);
        is_char_boundary_start_end_of_seq(bytes);
        lemma_boundary_fixed(bytes, len as int);
    }
    let rest = safe_slice(source, last, len);
    let ghost before = out@;
    out.append(rest);
    proof {
        lemma_encode_concat(before, rest@);
    }
    out
}

// ---------------------------------------------------------------------------
// The text put in place of an import
// ---------------------------------------------------------------------------

/// The comment left in place of an import of a file included before.
pub open spec fn skipped_text(path: Seq<char>) -> Seq<char> {
    "// import \""@ + path + "\" (already imported)\n"@
}

/// A resolved file's text between comments that name its import.
pub open spec fn wrapped_text(path: Seq<char>, text: Seq<char>) -> Seq<char> {
    "// BEGIN import \""@ + path + "\"\n"@ + text + "\n// END import \""@ + path + "\"\n"@
}

/// The comment left in place of an import of a file included before.
pub fn skipped_import(path: &str) -> (r: String)
    ensures
        r@ == skipped_text(path@),
{
    let mut r = String::from_str("// import \"");
    r.append(path);
    r.append("\" (already imported)\n");
    r
}

/// A resolved file's text between comments that name its import.
pub fn wrap_import(path: &str, text: &str) -> (r: String)
    ensures
        r@ == wrapped_text(path@, text@),
{
    let mut r = String::from_str("// BEGIN import \"");
    r.append(path);
    r.append("\"\n");
    r.append(text);
    r.append("\n// END import \"");
    r.append(path);
    r.append("\"\n");
    r
}

/// The text of an import error, as it is reported.
pub open spec fn import_error_text(e: ImportError) -> Seq<char> {
    match e {
        ImportError::Pattern => "Regex error: the import pattern does not compile"@,
        ImportError::CannotResolve { path, message } => "Cannot resolve import '"@ + path@ + "': "@ + message@,
        ImportError::Circular { file } => "Circular import detected: "@ + file@,
        ImportError::CannotRead { file, message } => "Cannot read imported file '"@ + file@ + "': "@ + message@,
        ImportError::UnexpectedEvent => "Unexpected event while resolving imports"@,
    }
}

impl ImportError {
    /// The error as it is reported.
    pub fn message(&self) -> (r: String)
        ensures
            r@ == import_error_text(*self),
    {
        match self {
            ImportError::Pattern => String::from_str("Regex error: the import pattern does not compile"),
            ImportError::CannotResolve { path, message } => {
                let mut r = String::from_str("Cannot resolve import '");
                r.append(path.as_str());
                r.append("': ");
                r.append(message.as_str());
                r
            },
            ImportError::Circular { file } => {
                let mut r = String::from_str("Circular import detected: ");
                r.append(file.as_str());
                r
            },
            ImportError::CannotRead { file, message } => {
                let mut r = String::from_str("Cannot read imported file '");
                r.append(file.as_str());
                r.append("': ");
                r.append(message.as_str());
                r
            },
            ImportError::UnexpectedEvent => String::from_str("Unexpected event while resolving imports"),
        }
    }
}

/// Whether `v` holds a string with the characters of `x`.
fn contains_text(v: &Vec<String>, x: &str) -> (r: bool)
    ensures
        r == texts(v@).contains(x@),
{
    let mut i: usize = 0;
    while i < v.len()
        invariant
            i <= v@.len(),
            forall|k: int| 0 <= k < i ==> v@[k]@ != x@,
        decreases v@.len() - i,
    {
        if crate::ir::str_eq(v[i].as_str(), x) {
            proof {
                assert(texts(v@)[i as int] == x@);
            }
            return true;
        }
        i = i + 1;
    }
    proof {
        if texts(v@).contains(x@) {
            let k = choose|k: int| 0 <= k < texts(v@).len() && texts(v@)[k] == x@;
            assert(v@[k]@ == x@);
        }
    }
    false
}

// ---------------------------------------------------------------------------
// The resolver
// ---------------------------------------------------------------------------

/// What the resolver asks its caller to do.
#[derive(Debug)]
pub enum ImportAction {
    /// Find the file that `path` names relative to the directory `dir`, and
    /// answer with `Resolved` (its canonical path and directory) or
    /// `NotResolved`.
    Resolve { dir: String, path: String },
    /// Read the file `file`, and answer with `Loaded` or `NotLoaded`.
    Read { file: String },
    /// Resolution is complete: the source with its imports resolved.
    Done(String),
    /// Resolution failed.
    Failed(ImportError),
}

/// The answer to an action.
#[derive(Debug)]
pub enum ImportEvent {
    Resolved { file: String, dir: String },
    NotResolved { message: String },
    Loaded { contents: String },
    NotLoaded { message: String },
}

/// A text being resolved: its import sites, the pieces found so far for
/// the first of them with the choice made at each, the directory its
/// imports are relative to, and the file it was read from.
pub struct ImportFrame {
    source: String,
    sites: Vec<ImportSite>,
    pieces: Vec<String>,
    dir: String,
    file: Ghost<Seq<char>>,
    choices: Ghost<Seq<Option<Seq<char>>>>,
}

/// What resolution made of a file that it included.
pub struct FileRecord {
    /// The text read from the file.
    pub contents: Seq<char>,
    /// The import statements of that text.
    pub sites: Seq<ImportSite>,
    /// For each import statement, the file included there, or none where
    /// the statement was left as a comment.
    pub choices: Seq<Option<Seq<char>>>,
    /// The text with its imports resolved.
    pub text: Seq<char>,
}

/// What takes the place of an import of `path`: the resolved text of the
/// file included there between comments that name the path, or the
/// comment left for a file included before.
pub open spec fn piece_of(path: Seq<char>, choice: Option<Seq<char>>, files: Map<Seq<char>, FileRecord>) -> Seq<char> {
    match choice {
        Some(f) => wrapped_text(path, files[f].text),
        None => skipped_text(path),
    }
}

/// The pieces for the import statements `sites`, by the choices made.
pub open spec fn pieces_of(
    sites: Seq<ImportSite>,
    choices: Seq<Option<Seq<char>>>,
    files: Map<Seq<char>, FileRecord>,
) -> Seq<Seq<char>> {
    Seq::new(choices.len(), |k: int| piece_of(sites[k].path@, choices[k], files))
}

/// Every file chosen is on record.
pub open spec fn choices_known(choices: Seq<Option<Seq<char>>>, files: Map<Seq<char>, FileRecord>) -> bool {
    forall|k: int| 0 <= k < choices.len() && (#[trigger] choices[k]) is Some ==> files.contains_key(choices[k]->0)
}

/// `t` is `source` with each of its import statements `sites` replaced by
/// the piece that its choice gives.
pub open spec fn resolved_by(
    source: Seq<char>,
    sites: Seq<ImportSite>,
    choices: Seq<Option<Seq<char>>>,
    t: Seq<char>,
    files: Map<Seq<char>, FileRecord>,
) -> bool {
    &&& choices.len() == sites.len()
    &&& choices_known(choices, files)
    &&& encode_utf8(t) == spliced(encode_utf8(source), sites, pieces_of(sites, choices, files))
}

/// Every file on record holds the text that was read from it, its import
/// statements as the import pattern finds them, and that text resolved in
/// turn.
pub open spec fn files_resolved(files: Map<Seq<char>, FileRecord>, loaded: Map<Seq<char>, Seq<char>>) -> bool {
    forall|f: Seq<char>| #[trigger] files.contains_key(f) ==> {
        &&& loaded.contains_key(f)
        &&& files[f].contents == loaded[f]
        &&& sites_found(files[f].contents, files[f].sites)
        &&& resolved_by(files[f].contents, files[f].sites, files[f].choices, files[f].text, files)
    }
}

/// Every file on record is included at an import statement: of the root
/// text, or of another file.
pub open spec fn all_included(root_choices: Seq<Option<Seq<char>>>, files: Map<Seq<char>, FileRecord>) -> bool {
    forall|f: Seq<char>| #[trigger] files.contains_key(f) ==> root_choices.contains(Some(f)) || exists|g: Seq<char>|
        files.contains_key(g) && #[trigger] files[g].choices.contains(Some(f))
}

/// `t` is the whole resolution that `r` recorded for `root`: the root
/// text with each import statement replaced by its piece, each file
/// included holding the text read from it with its own imports resolved,
/// and each file on record included somewhere.
pub open spec fn resolution_complete(root: Seq<char>, root_sites: Seq<ImportSite>, t: Seq<char>, r: ImportResolver) -> bool {
    &&& resolved_by(root, root_sites, r.root_choices(), t, r.files())
    &&& files_resolved(r.files(), r.loaded())
    &&& all_included(r.root_choices(), r.files())
}

/// What a smaller record holds, a larger one holds too.
proof fn lemma_submap_at(a: Map<Seq<char>, FileRecord>, b: Map<Seq<char>, FileRecord>, k: Seq<char>)
    requires
        a.submap_of(b),
        a.contains_key(k),
    ensures
        b.contains_key(k),
        b[k] == a[k],
{
    assert(a.dom().contains(k));
    assert(b.dom().contains(k));
}

/// Records that grow twice grew.
proof fn lemma_submap_trans(a: Map<Seq<char>, FileRecord>, b: Map<Seq<char>, FileRecord>, c: Map<Seq<char>, FileRecord>)
    requires
        a.submap_of(b),
        b.submap_of(c),
    ensures
        a.submap_of(c),
{
    assert forall|k: Seq<char>| #[trigger] a.dom().contains(k) implies c.dom().contains(k) && a[k] == c[k] by {
        lemma_submap_at(a, b, k);
        lemma_submap_at(b, c, k);
    }
}

/// Pieces chosen from records do not change as the record grows.
proof fn lemma_pieces_stable(
    sites: Seq<ImportSite>,
    choices: Seq<Option<Seq<char>>>,
    files: Map<Seq<char>, FileRecord>,
    files2: Map<Seq<char>, FileRecord>,
)
    requires
        choices_known(choices, files),
        files.submap_of(files2),
    ensures
        pieces_of(sites, choices, files) == pieces_of(sites, choices, files2),
        choices_known(choices, files2),
{
    assert forall|k: int| 0 <= k < choices.len() implies pieces_of(sites, choices, files)[k] == pieces_of(
        sites,
        choices,
        files2,
    )[k] by {
        if choices[k] is Some {
            assert(files.contains_key(choices[k]->0));
            lemma_submap_at(files, files2, choices[k]->0);
        }
    }
    assert forall|k: int| 0 <= k < choices.len() && (#[trigger] choices[k]) is Some implies files2.contains_key(
        choices[k]->0,
    ) by {
        lemma_submap_at(files, files2, choices[k]->0);
    }
    assert(pieces_of(sites, choices, files) =~= pieces_of(sites, choices, files2));
}

/// A resolution recorded stays true as the record grows.
proof fn lemma_resolved_stable(
    source: Seq<char>,
    sites: Seq<ImportSite>,
    choices: Seq<Option<Seq<char>>>,
    t: Seq<char>,
    files: Map<Seq<char>, FileRecord>,
    files2: Map<Seq<char>, FileRecord>,
)
    requires
        resolved_by(source, sites, choices, t, files),
        files.submap_of(files2),
    ensures
        resolved_by(source, sites, choices, t, files2),
{
    lemma_pieces_stable(sites, choices, files, files2);
}

/// One more piece, with its choice.
proof fn lemma_pieces_push(
    sites: Seq<ImportSite>,
    choices: Seq<Option<Seq<char>>>,
    files: Map<Seq<char>, FileRecord>,
    pieces: Seq<String>,
    p: String,
    c: Option<Seq<char>>,
)
    requires
        texts(pieces) == pieces_of(sites, choices, files),
        p@ == piece_of(sites[choices.len() as int].path@, c, files),
    ensures
        texts(pieces.push(p)) == pieces_of(sites, choices.push(c), files),
{
    assert(texts(pieces).len() == pieces.len());
    assert(texts(pieces.push(p)) =~= texts(pieces).push(p@));
    assert(pieces_of(sites, choices.push(c), files) =~= pieces_of(sites, choices, files).push(
        piece_of(sites[choices.len() as int].path@, c, files),
    ));
}

impl ImportFrame {
    pub closed spec fn placed(&self) -> bool {
        &&& sites_found(self.source@, self.sites@)
        &&& self.pieces@.len() <= self.sites@.len()
    }

    pub closed spec fn waiting(&self) -> bool {
        self.pieces@.len() < self.sites@.len()
    }

    pub closed spec fn pieces_ok(&self, files: Map<Seq<char>, FileRecord>) -> bool {
        &&& self.choices@.len() == self.pieces@.len()
        &&& choices_known(self.choices@, files)
        &&& texts(self.pieces@) == pieces_of(self.sites@, self.choices@, files)
    }
}

/// `sites` are the import statements of `source` as the import pattern
/// finds them: in order, at the offsets of the matches, each with the
/// path its quotes hold.
pub open spec fn sites_found(source: Seq<char>, sites: Seq<ImportSite>) -> bool {
    let caps = regex_captures(import_pattern(), source);
    &&& sites.len() == caps.len()
    &&& forall|i: int| 0 <= i < sites.len() ==> {
        &&& (#[trigger] sites[i]).start == caps[i].0
        &&& sites[i].end == caps[i].1
        &&& caps[i].2 matches Some((a, b)) && encode_utf8(sites[i].path@) == encode_utf8(source).subrange(a as int, b as int)
    }
    &&& sites_placed(encode_utf8(source), sites)
}

/// Resolves the imports of a source text, one action at a time.
pub struct ImportResolver {
    root: Ghost<Seq<char>>,
    root_sites: Ghost<Seq<ImportSite>>,
    root_choices: Ghost<Seq<Option<Seq<char>>>>,
    loaded: Ghost<Map<Seq<char>, Seq<char>>>,
    files: Ghost<Map<Seq<char>, FileRecord>>,
    frames: Vec<ImportFrame>,
    stack: Vec<String>,
    imported: Vec<String>,
    reading: bool,
    reading_dir: String,
    finished: bool,
}

/// No text occurs twice.
pub open spec fn distinct(s: Seq<Seq<char>>) -> bool {
    forall|i: int, j: int| 0 <= i < j < s.len() ==> s[i] != s[j]
}

/// After an import left as a comment: the choice is recorded where the
/// innermost text stands, or, where that text is complete, in its record.
pub open spec fn skip_recorded(before: ImportResolver, after: ImportResolver) -> bool {
    let cs = before.top_choices().push(None);
    if before.top_remaining() > 1 {
        after.top_choices() == cs
    } else if before.stack().len() > 0 {
        &&& after.files().contains_key(before.stack().last())
        &&& after.files()[before.stack().last()].choices == cs
    } else {
        after.root_choices() == cs
    }
}

impl ImportResolver {
    /// The text whose imports are being resolved.
    pub closed spec fn root(&self) -> Seq<char> {
        self.root@
    }

    /// The import statements of that text.
    pub closed spec fn root_sites(&self) -> Seq<ImportSite> {
        self.root_sites@
    }

    /// Once resolution is complete, the choice made at each import
    /// statement of the root text.
    pub closed spec fn root_choices(&self) -> Seq<Option<Seq<char>>> {
        self.root_choices@
    }

    /// The text of each file read, by its canonical path.
    pub closed spec fn loaded(&self) -> Map<Seq<char>, Seq<char>> {
        self.loaded@
    }

    /// What resolution made of each file it completed.
    pub closed spec fn files(&self) -> Map<Seq<char>, FileRecord> {
        self.files@
    }

    /// The innermost text being resolved.
    pub closed spec fn top_source(&self) -> Seq<char> {
        self.frames@.last().source@
    }

    /// The choices made so far at the import statements of that text.
    pub closed spec fn top_choices(&self) -> Seq<Option<Seq<char>>> {
        self.frames@.last().choices@
    }

    /// How many import statements of that text are still to be resolved.
    pub closed spec fn top_remaining(&self) -> int {
        self.frames@.last().sites@.len() - self.frames@.last().pieces@.len()
    }

    /// The files being resolved, outermost first: each imports the next.
    pub closed spec fn stack(&self) -> Seq<Seq<char>> {
        texts(self.stack@)
    }

    /// The files resolved completely, in the order they were completed.
    pub closed spec fn imported(&self) -> Seq<Seq<char>> {
        texts(self.imported@)
    }

    /// The file is being resolved or was resolved.
    pub open spec fn knows(&self, file: Seq<char>) -> bool {
        self.stack().contains(file) || self.imported().contains(file)
    }

    /// Resolution has ended, with a result or an error.
    pub closed spec fn finished(&self) -> bool {
        self.finished
    }

    /// The last action was `Read` of the innermost file on the stack.
    pub closed spec fn reading(&self) -> bool {
        self.reading
    }

    /// The path of the import that the last `Resolve` asked about.
    pub closed spec fn current_path(&self) -> Seq<char> {
        let top = self.frames@[self.frames@.len() - 1];
        top.sites@[top.pieces@.len() as int].path@
    }

    /// The directory that the last `Resolve` resolved against.
    pub closed spec fn current_dir(&self) -> Seq<char> {
        self.frames@[self.frames@.len() - 1].dir@
    }

    /// The file is included at an import statement of a text being
    /// resolved, or of a file on record.
    closed spec fn included(&self, f: Seq<char>) -> bool {
        ||| exists|i: int| 0 <= i < self.frames@.len() && #[trigger] self.frames@[i].choices@.contains(Some(f))
        ||| exists|g: Seq<char>| self.files@.contains_key(g) && #[trigger] self.files@[g].choices.contains(Some(f))
    }

    /// The frames are in order, each read from the file the stack holds
    /// for it; the stack holds one file per imported frame, and the file
    /// being read; no file is both on the stack and resolved, or twice in
    /// either; the record holds exactly the files resolved.
    closed spec fn frames_ok(&self, top_may_be_done: bool) -> bool {
        let n = self.frames@.len();
        &&& n >= 1
        &&& self.frames@[0].source@ == self.root@
        &&& self.frames@[0].sites@ == self.root_sites@
        &&& forall|i: int| 0 <= i < n ==> (#[trigger] self.frames@[i]).pieces_ok(self.files@)
        &&& forall|i: int| 0 <= i < n ==> (#[trigger] self.frames@[i]).placed()
        &&& forall|i: int| 0 <= i < n - 1 ==> (#[trigger] self.frames@[i]).waiting()
        &&& (top_may_be_done || self.frames@[n - 1].waiting())
        &&& self.stack@.len() == n - 1 + (if self.reading { 1int } else { 0 })
        &&& forall|i: int| 1 <= i < n ==> {
            &&& (#[trigger] self.frames@[i]).file@ == self.stack()[i - 1]
            &&& self.loaded@.contains_key(self.frames@[i].file@)
            &&& self.loaded@[self.frames@[i].file@] == self.frames@[i].source@
        }
        &&& distinct(self.stack())
        &&& distinct(self.imported())
        &&& forall|f: Seq<char>| self.stack().contains(f) ==> !self.imported().contains(f)
        &&& forall|f: Seq<char>|
            #![trigger self.files@.contains_key(f)]
            #![trigger self.imported().contains(f)]
            self.files@.contains_key(f) <==> self.imported().contains(f)
        &&& files_resolved(self.files@, self.loaded@)
        &&& forall|f: Seq<char>| #[trigger] self.files@.contains_key(f) ==> self.included(f)
    }

    /// The resolver's invariant.
    pub closed spec fn wf(&self) -> bool {
        self.finished || self.frames_ok(false)
    }

    /// Starts resolving `source`, whose imports are relative to `dir`.
    pub fn start(source: String, dir: String) -> (r: (Self, ImportAction))
        ensures
            r.0.wf(),
            r.0.stack().len() == 0,
            r.0.imported().len() == 0,
            r.0.loaded() == Map::<Seq<char>, Seq<char>>::empty(),
            regex_captures(import_pattern(), source@).len() == 0 ==> (r.1 matches ImportAction::Done(t) && t@ == source@),
            regex_captures(import_pattern(), source@).len() > 0 ==> r.1 is Resolve,
            r.1 matches ImportAction::Resolve { dir: d, path } ==> !r.0.finished() && !r.0.reading()
                && d@ == dir@ && d@ == r.0.current_dir() && path@ == r.0.current_path(),
            !(r.1 is Read),
            !(r.1 is Failed),
            r.1 is Done || r.1 is Failed ==> r.0.finished(),
            r.0.root() == source@,
            sites_found(source@, r.0.root_sites()),
            r.1 matches ImportAction::Done(t) ==> resolution_complete(source@, r.0.root_sites(), t@, r.0),
    {
        let sites = match find_imports(source.as_str()) {
            Ok(s) => s,
            Err(e) => {
                let m = ImportResolver {
                    root: Ghost(source@),
                    root_sites: Ghost(Seq::empty()),
                    root_choices: Ghost(Seq::empty()),
                    loaded: Ghost(Map::empty()),
                    files: Ghost(Map::empty()),
                    frames: Vec::new(),
                    stack: Vec::new(),
                    imported: Vec::new(),
                    reading: false,
                    reading_dir: String::new(),
                    finished: true,
                };
                proof {
                    assert(texts(m.stack@) =~= Seq::<Seq<char>>::empty());
                    assert(texts(m.imported@) =~= Seq::<Seq<char>>::empty());
                }
                return (m, ImportAction::Failed(e));
            },
        };
        let ghost n_sites = sites@.len();
        let ghost src = source@;
        let ghost d0 = dir@;
        let ghost found = sites@;
        proof {
            assert(sites_found(src, found));
        }
        let frame = ImportFrame {
            source,
            sites,
            pieces: Vec::new(),
            dir,
            file: Ghost(Seq::empty()),
            choices: Ghost(Seq::empty()),
        };
        let mut frames: Vec<ImportFrame> = Vec::new();
        frames.push(frame);
        let mut m = ImportResolver {
            root: Ghost(src),
            root_sites: Ghost(found),
            root_choices: Ghost(Seq::empty()),
            loaded: Ghost(Map::empty()),
            files: Ghost(Map::empty()),
            frames,
            stack: Vec::new(),
            imported: Vec::new(),
            reading: false,
            reading_dir: String::new(),
            finished: false,
        };
        proof {
            assert(texts(m.stack@) =~= Seq::<Seq<char>>::empty());
            assert(texts(m.imported@) =~= Seq::<Seq<char>>::empty());
            assert(m.frames@[0].placed());
            assert(texts(m.frames@[0].pieces@) =~= pieces_of(found, Seq::empty(), m.files@));
            assert(m.frames@[0].pieces_ok(m.files@));
        }
        let ghost m0 = m;
        let a = m.advance();
        proof {
            assert(m0.frames@[0].dir@ == d0);
            assert(m0.frames@[0].waiting() == (n_sites > 0));
            if n_sites == 0 {
                let b = encode_utf8(src);
                if let ImportAction::Done(t) = &a {
                    assert(m.root_choices@.len() == 0);
                    assert(spliced(b, found, pieces_of(found, m.root_choices@, m.files@)) =~= b);
                    assert(encode_utf8(t@) == b);
                    assert(decode_utf8(encode_utf8(t@)) == t@);
                    assert(decode_utf8(encode_utf8(src)) == src);
                }
            }
        }
        (m, a)
    }

    /// Goes on after an answer: asks about the next import of the
    /// innermost text, or completes it, records it and goes back out.
    #[verifier::rlimit(60)]
    fn advance(&mut self) -> (a: ImportAction)
        requires
            !old(self).finished,
            !old(self).reading,
            old(self).frames_ok(true),
        ensures
            final(self).wf(),
            old(self).imported().is_prefix_of(final(self).imported()),
            final(self).stack().is_prefix_of(old(self).stack()),
            final(self).imported().len() <= old(self).imported().len() + old(self).stack().len(),
            old(self).frames@[old(self).frames@.len() - 1].waiting() ==> *final(self) == *old(self),
            old(self).frames@.len() == 1 && !old(self).frames@[0].waiting() ==> a is Done
                && final(self).root_choices@ == old(self).frames@[0].choices@,
            old(self).frames@.len() > 1 && !old(self).frames@[old(self).frames@.len() - 1].waiting() ==> {
                let top = old(self).frames@[old(self).frames@.len() - 1];
                &&& final(self).files@.contains_key(top.file@)
                &&& final(self).files@[top.file@].choices == top.choices@
                &&& final(self).files@[top.file@].contents == top.source@
            },
            forall|f: Seq<char>| old(self).knows(f) ==> final(self).knows(f),
            final(self).root == old(self).root,
            final(self).root_sites == old(self).root_sites,
            final(self).loaded == old(self).loaded,
            old(self).files@.submap_of(final(self).files@),
            files_resolved(final(self).files@, final(self).loaded@),
            match a {
                ImportAction::Resolve { dir, path } => !final(self).finished && !final(self).reading
                    && dir@ == final(self).current_dir() && path@ == final(self).current_path(),
                ImportAction::Done(t) => {
                    &&& final(self).finished
                    &&& old(self).frames@[0].choices@.is_prefix_of(final(self).root_choices@)
                    &&& resolved_by(old(self).frames@[0].source@, old(self).frames@[0].sites@,
                        final(self).root_choices@, t@, final(self).files@)
                    &&& all_included(final(self).root_choices@, final(self).files@)
                },
                _ => false,
            },
        decreases old(self).frames@.len(),
    {
        let n = self.frames.len();
        let top_waiting = self.frames[n - 1].pieces.len() < self.frames[n - 1].sites.len();
        if top_waiting {
            let top = &self.frames[n - 1];
            let path = top.sites[top.pieces.len()].path.clone();
            let dir = top.dir.clone();
            return ImportAction::Resolve { dir, path };
        }
        let ghost old_self = *self;
        let frame = self.frames.pop().unwrap();
        let text = splice(frame.source.as_str(), &frame.sites, &frame.pieces);
        proof {
            assert(old_self.frames@[n - 1] == frame);
            assert(frame.pieces_ok(old_self.files@));
            assert(frame.placed());
        }
        if self.frames.len() == 0 {
            self.finished = true;
            self.root_choices = Ghost(frame.choices@);
            proof {
                assert(frame == old_self.frames@[0]);
                assert(frame.choices@.is_prefix_of(frame.choices@));
                assert forall|f: Seq<char>| #[trigger] self.files@.contains_key(f) implies self.root_choices@.contains(
                    Some(f),
                ) || exists|g: Seq<char>| self.files@.contains_key(g) && #[trigger] self.files@[g].choices.contains(
                    Some(f),
                ) by {
                    assert(old_self.included(f));
                    if exists|i: int| 0 <= i < old_self.frames@.len() && #[trigger] old_self.frames@[i].choices@.contains(
                        Some(f),
                    ) {
                        let i = choose|i: int| 0 <= i < old_self.frames@.len() && #[trigger] old_self.frames@[i].choices@.contains(
                            Some(f),
                        );
                        assert(i == 0);
                    }
                }
                assert(old_self.imported().is_prefix_of(self.imported()));
            }
            return ImportAction::Done(text);
        }
        let ghost f = frame.file@;
        let ghost rec = FileRecord { contents: frame.source@, sites: frame.sites@, choices: frame.choices@, text: text@ };
        let file = self.stack.pop().unwrap();
        proof {
            let st = texts(old_self.stack@);
            assert(texts(self.stack@) =~= st.drop_last());
            assert(st.last() == file@);
            assert(old_self.frames@[n - 1].file@ == st[n - 2]);
            assert(f == file@);
            assert(!texts(old_self.imported@).contains(file@));
            assert(!old_self.files@.contains_key(f));
            assert forall|g: Seq<char>| texts(self.stack@).contains(g) implies g != file@ by {
                let i = choose|i: int| 0 <= i < texts(self.stack@).len() && texts(self.stack@)[i] == g;
                assert(st[i] == g);
            }
        }
        let ghost before_imported = self.imported@;
        self.imported.push(file);
        let ghost files0 = self.files@;
        self.files = Ghost(self.files@.insert(f, rec));
        let ghost files1 = self.files@;
        proof {
            assert(files0.submap_of(files1));
            lemma_pieces_stable(frame.sites@, frame.choices@, files0, files1);
            assert(frame.sites@.len() == frame.pieces@.len());
            assert(resolved_by(frame.source@, frame.sites@, frame.choices@, text@, files1));
        }
        let mut parent = self.frames.pop().unwrap();
        let path = parent.sites[parent.pieces.len()].path.clone();
        let piece = wrap_import(path.as_str(), text.as_str());
        let ghost parent_before = parent;
        proof {
            assert(parent_before == old_self.frames@[n - 2]);
            assert(parent_before.pieces_ok(files0));
            lemma_pieces_stable(parent.sites@, parent.choices@, files0, files1);
            assert(piece@ == piece_of(parent.sites@[parent.choices@.len() as int].path@, Some(f), files1));
            lemma_pieces_push(parent.sites@, parent.choices@, files1, parent.pieces@, piece, Some(f));
        }
        parent.pieces.push(piece);
        parent.choices = Ghost(parent.choices@.push(Some(f)));
        proof {
            assert forall|k: int| 0 <= k < parent.choices@.len() && (#[trigger] parent.choices@[k]) is Some
                implies files1.contains_key(parent.choices@[k]->0) by {
                if k < parent.choices@.len() - 1 {
                    assert(parent.choices@[k] == parent_before.choices@[k]);
                }
            }
            assert(parent.pieces_ok(files1));
        }
        self.frames.push(parent);
        proof {
            assert forall|i: int| 0 <= i < self.frames@.len() implies (#[trigger] self.frames@[i]).pieces_ok(files1) by {
                if i < self.frames@.len() - 1 {
                    assert(self.frames@[i] == old_self.frames@[i]);
                    lemma_pieces_stable(self.frames@[i].sites@, self.frames@[i].choices@, files0, files1);
                }
            }
            if self.frames@.len() == 1 {
                assert(self.frames@[0].source == old_self.frames@[0].source);
                assert(self.frames@[0].sites == old_self.frames@[0].sites);
            } else {
                assert(self.frames@[0] == old_self.frames@[0]);
            }
            assert forall|i: int| 1 <= i < self.frames@.len() implies {
                &&& (#[trigger] self.frames@[i]).file@ == self.stack()[i - 1]
                &&& self.loaded@.contains_key(self.frames@[i].file@)
                &&& self.loaded@[self.frames@[i].file@] == self.frames@[i].source@
            } by {
                assert(self.frames@[i].file == old_self.frames@[i].file);
                assert(self.frames@[i].source == old_self.frames@[i].source);
                assert(self.stack()[i - 1] == old_self.stack()[i - 1]);
            }
        }
        proof {
            assert(texts(self.imported@) =~= texts(before_imported).push(file@));
            assert(distinct(self.stack()));
            assert(distinct(self.imported()));
            assert forall|g: Seq<char>| self.stack().contains(g) implies !self.imported().contains(g) by {
                if self.imported().contains(g) {
                    let j = choose|j: int| 0 <= j < self.imported().len() && self.imported()[j] == g;
                    if j < self.imported().len() - 1 {
                        assert(old_self.imported().contains(g));
                        let i = choose|i: int| 0 <= i < self.stack().len() && self.stack()[i] == g;
                        assert(old_self.stack()[i] == g);
                    }
                }
            }
            assert forall|g: Seq<char>|
                #![trigger self.files@.contains_key(g)]
                #![trigger self.imported().contains(g)]
                self.files@.contains_key(g) <==> self.imported().contains(g) by {
                if g == f {
                    assert(self.imported()[self.imported().len() - 1] == g);
                } else if self.imported().contains(g) {
                    let j = choose|j: int| 0 <= j < self.imported().len() && self.imported()[j] == g;
                    assert(old_self.imported()[j] == g);
                } else if old_self.imported().contains(g) {
                    let j = choose|j: int| 0 <= j < old_self.imported().len() && old_self.imported()[j] == g;
                    assert(self.imported()[j] == g);
                }
            }
            assert forall|g: Seq<char>| #[trigger] files1.contains_key(g) implies {
                &&& self.loaded@.contains_key(g)
                &&& files1[g].contents == self.loaded@[g]
                &&& sites_found(files1[g].contents, files1[g].sites)
                &&& resolved_by(files1[g].contents, files1[g].sites, files1[g].choices, files1[g].text, files1)
            } by {
                if g == f {
                    assert(old_self.frames@[n - 1].file@ == f);
                } else {
                    assert(files0.contains_key(g));
                    lemma_resolved_stable(files0[g].contents, files0[g].sites, files0[g].choices, files0[g].text, files0, files1);
                }
            }
            assert forall|g: Seq<char>| #[trigger] files1.contains_key(g) implies self.included(g) by {
                let last = (self.frames@.len() - 1) as int;
                if g == f {
                    let cs = self.frames@[last].choices@;
                    assert(cs[cs.len() - 1] == Some(f));
                    assert(cs.contains(Some(f)));
                    assert(0 <= last < self.frames@.len() && self.frames@[last].choices@.contains(Some(g)));
                } else {
                    assert(old_self.included(g));
                    if exists|i: int| 0 <= i < old_self.frames@.len() && #[trigger] old_self.frames@[i].choices@.contains(
                        Some(g),
                    ) {
                        let i = choose|i: int| 0 <= i < old_self.frames@.len() && #[trigger] old_self.frames@[i].choices@.contains(
                            Some(g),
                        );
                        let cs = old_self.frames@[i].choices@;
                        let j = choose|j: int| 0 <= j < cs.len() && cs[j] == Some(g);
                        if i == n - 1 {
                            assert(files1[f].choices == cs);
                            assert(files1[f].choices[j] == Some(g));
                            assert(files1[f].choices.contains(Some(g)));
                            assert(self.files@.contains_key(f) && self.files@[f].choices.contains(Some(g)));
                        } else if i == n - 2 {
                            assert(i == last);
                            assert(self.frames@[i].choices@[j] == Some(g));
                            assert(self.frames@[i].choices@.contains(Some(g)));
                        } else {
                            assert(self.frames@[i] == old_self.frames@[i]);
                            assert(self.frames@[i].choices@.contains(Some(g)));
                        }
                    } else {
                        let h = choose|h: Seq<char>| old_self.files@.contains_key(h) && #[trigger] old_self.files@[h].choices.contains(
                            Some(g),
                        );
                        lemma_submap_at(files0, files1, h);
                        assert(self.files@.contains_key(h) && self.files@[h].choices.contains(Some(g)));
                    }
                }
            }
            assert forall|i: int| 0 <= i < self.frames@.len() implies (#[trigger] self.frames@[i]).placed() by {
                if i < self.frames@.len() - 1 {
                    assert(self.frames@[i] == old_self.frames@[i]);
                }
            }
            assert forall|i: int| 0 <= i < self.frames@.len() - 1 implies (#[trigger] self.frames@[i]).waiting() by {
                assert(self.frames@[i] == old_self.frames@[i]);
            }
            assert forall|g: Seq<char>| old_self.knows(g) implies self.knows(g) by {
                if old_self.stack().contains(g) {
                    let i = choose|i: int| 0 <= i < old_self.stack().len() && old_self.stack()[i] == g;
                    if i < old_self.stack().len() - 1 {
                        assert(self.stack()[i] == g);
                    } else {
                        assert(self.imported().last() == g);
                    }
                } else {
                    let i = choose|i: int| 0 <= i < old_self.imported().len() && old_self.imported()[i] == g;
                    assert(self.imported()[i] == g);
                }
            }
        }
        let ghost mid = *self;
        proof {
            assert(mid.frames@[0].source == old_self.frames@[0].source);
            assert(mid.frames@[0].sites == old_self.frames@[0].sites);
            assert(old_self.frames@[0].choices@.is_prefix_of(mid.frames@[0].choices@));
            assert(mid.frames_ok(true));
        }
        let a = self.advance();
        proof {
            assert(files0.submap_of(self.files@));
            if let ImportAction::Done(t) = &a {
                let p0 = old_self.frames@[0].choices@;
                let p1 = mid.frames@[0].choices@;
                let p2 = self.root_choices@;
                assert(p0.is_prefix_of(p2)) by {
                    assert forall|i: int| 0 <= i < p0.len() implies p0[i] == p2[i] by {
                        assert(p0[i] == p1[i]);
                        assert(p1[i] == p2[i]);
                    }
                    assert(p2.subrange(0, p0.len() as int) =~= p0);
                }
            }
        }
        a
    }

    /// Leaves the current import as a comment, the file it names having
    /// been included before, and goes on.
    #[verifier::rlimit(40)]
    fn skip(&mut self) -> (a: ImportAction)
        requires
            !old(self).finished,
            !old(self).reading,
            old(self).frames_ok(false),
        ensures
            final(self).wf(),
            forall|f: Seq<char>| old(self).knows(f) ==> final(self).knows(f),
            old(self).imported().is_prefix_of(final(self).imported()),
            final(self).root == old(self).root,
            final(self).root_sites == old(self).root_sites,
            final(self).loaded == old(self).loaded,
            old(self).files@.submap_of(final(self).files@),
            skip_recorded(*old(self), *final(self)),
            !(a is Read),
            !(a is Failed),
            match a {
                ImportAction::Resolve { dir, path } => !final(self).finished && !final(self).reading
                    && dir@ == final(self).current_dir() && path@ == final(self).current_path(),
                ImportAction::Done(t) => final(self).finished
                    && resolution_complete(old(self).root@, old(self).root_sites@, t@, *final(self)),
                _ => false,
            },
    {
        let ghost old_self = *self;
        let mut top = self.frames.pop().unwrap();
        let piece = skipped_import(top.sites[top.pieces.len()].path.as_str());
        let ghost top_before = top;
        proof {
            let n = old_self.frames@.len();
            assert(top_before == old_self.frames@[n - 1]);
            assert(top.pieces_ok(self.files@));
            lemma_pieces_push(top.sites@, top.choices@, self.files@, top.pieces@, piece, None);
        }
        top.pieces.push(piece);
        top.choices = Ghost(top.choices@.push(None));
        proof {
            assert forall|k: int| 0 <= k < top.choices@.len() && (#[trigger] top.choices@[k]) is Some
                implies self.files@.contains_key(top.choices@[k]->0) by {
                assert(top.choices@[k] == top_before.choices@[k]);
            }
            assert(top.pieces_ok(self.files@));
        }
        self.frames.push(top);
        proof {
            let n = self.frames@.len();
            assert forall|i: int| 0 <= i < n implies (#[trigger] self.frames@[i]).pieces_ok(self.files@) by {
                if i < n - 1 {
                    assert(self.frames@[i] == old_self.frames@[i]);
                }
            }
            assert forall|i: int| 0 <= i < n implies (#[trigger] self.frames@[i]).placed() by {
                if i < n - 1 {
                    assert(self.frames@[i] == old_self.frames@[i]);
                }
            }
            assert forall|i: int| 0 <= i < n - 1 implies (#[trigger] self.frames@[i]).waiting() by {
                assert(self.frames@[i] == old_self.frames@[i]);
            }
            assert forall|i: int| 1 <= i < n implies {
                &&& (#[trigger] self.frames@[i]).file@ == self.stack()[i - 1]
                &&& self.loaded@.contains_key(self.frames@[i].file@)
                &&& self.loaded@[self.frames@[i].file@] == self.frames@[i].source@
            } by {
                assert(self.frames@[i].file == old_self.frames@[i].file);
                assert(self.frames@[i].source == old_self.frames@[i].source);
            }
            assert(self.frames@[0].source == old_self.frames@[0].source);
            assert(self.frames@[0].sites == old_self.frames@[0].sites);
            assert forall|g: Seq<char>| #[trigger] self.files@.contains_key(g) implies self.included(g) by {
                assert(old_self.included(g));
                if exists|i: int| 0 <= i < old_self.frames@.len() && #[trigger] old_self.frames@[i].choices@.contains(
                    Some(g),
                ) {
                    let i = choose|i: int| 0 <= i < old_self.frames@.len() && #[trigger] old_self.frames@[i].choices@.contains(
                        Some(g),
                    );
                    if i == n - 1 {
                        let j = choose|j: int| 0 <= j < old_self.frames@[i].choices@.len() && old_self.frames@[i].choices@[j] == Some(g);
                        assert(self.frames@[i].choices@[j] == Some(g));
                        assert(self.frames@[i].choices@.contains(Some(g)));
                    } else {
                        assert(self.frames@[i] == old_self.frames@[i]);
                    }
                } else {
                    let h = choose|h: Seq<char>| old_self.files@.contains_key(h) && #[trigger] old_self.files@[h].choices.contains(
                        Some(g),
                    );
                }
            }
            assert(self.frames_ok(true));
        }
        let ghost mid = *self;
        let a = self.advance();
        proof {
            let n = mid.frames@.len();
            if n > 1 {
                assert(mid.frames@[n - 1].file@ == old_self.stack().last());
            }
            assert(mid.frames@[n - 1].choices@ == old_self.top_choices().push(None));
        }
        a
    }

    /// Takes the text of the file being read, and goes on with its imports.
    #[verifier::rlimit(40)]
    fn load(&mut self, contents: String) -> (a: ImportAction)
        requires
            !old(self).finished,
            old(self).reading,
            old(self).frames_ok(false),
        ensures
            final(self).wf(),
            forall|f: Seq<char>| old(self).knows(f) ==> final(self).knows(f),
            old(self).imported().is_prefix_of(final(self).imported()),
            final(self).root == old(self).root,
            final(self).root_sites == old(self).root_sites,
            old(self).files@.submap_of(final(self).files@),
            !(a is Read),
            !(a is Failed),
            final(self).loaded() == old(self).loaded().insert(old(self).stack().last(), contents@),
            regex_captures(import_pattern(), contents@).len() > 0 ==> {
                &&& a is Resolve
                &&& final(self).stack() == old(self).stack()
                &&& final(self).top_source() == contents@
                &&& final(self).top_choices().len() == 0
            },
            regex_captures(import_pattern(), contents@).len() == 0 ==> {
                &&& final(self).files().contains_key(old(self).stack().last())
                &&& final(self).files()[old(self).stack().last()].text == contents@
            },
            match a {
                ImportAction::Resolve { dir, path } => !final(self).finished && !final(self).reading
                    && dir@ == final(self).current_dir() && path@ == final(self).current_path(),
                ImportAction::Done(t) => final(self).finished
                    && resolution_complete(old(self).root@, old(self).root_sites@, t@, *final(self)),
                _ => false,
            },
    {
        let sites = match find_imports(contents.as_str()) {
            Ok(s) => s,
            Err(e) => {
                self.finished = true;
                proof {
                    assert(self.imported().is_prefix_of(self.imported()));
                }
                return ImportAction::Failed(e);
            },
        };
        let ghost old_self = *self;
        let ghost f = self.stack()[self.stack().len() - 1];
        let ghost cv = contents@;
        proof {
            assert(sites_found(cv, sites@));
        }
        let dir = self.reading_dir.clone();
        self.loaded = Ghost(self.loaded@.insert(f, cv));
        self.frames.push(ImportFrame {
            source: contents,
            sites,
            pieces: Vec::new(),
            dir,
            file: Ghost(f),
            choices: Ghost(Seq::empty()),
        });
        self.reading = false;
        proof {
            let n = self.frames@.len();
            let top = self.frames@[n - 1];
            assert(texts(top.pieces@) =~= pieces_of(top.sites@, top.choices@, self.files@));
            assert(top.pieces_ok(self.files@));
            assert forall|i: int| 0 <= i < n implies (#[trigger] self.frames@[i]).pieces_ok(self.files@) by {
                if i < n - 1 {
                    assert(self.frames@[i] == old_self.frames@[i]);
                }
            }
            assert forall|i: int| 0 <= i < n implies (#[trigger] self.frames@[i]).placed() by {
                if i < n - 1 {
                    assert(self.frames@[i] == old_self.frames@[i]);
                }
            }
            assert forall|i: int| 0 <= i < n - 1 implies (#[trigger] self.frames@[i]).waiting() by {
                assert(self.frames@[i] == old_self.frames@[i]);
            }
            assert forall|i: int| 1 <= i < n implies {
                &&& (#[trigger] self.frames@[i]).file@ == self.stack()[i - 1]
                &&& self.loaded@.contains_key(self.frames@[i].file@)
                &&& self.loaded@[self.frames@[i].file@] == self.frames@[i].source@
            } by {
                if i < n - 1 {
                    assert(self.frames@[i] == old_self.frames@[i]);
                    assert(self.stack()[i - 1] != f);
                }
            }
            assert forall|g: Seq<char>| #[trigger] self.files@.contains_key(g) implies {
                &&& self.loaded@.contains_key(g)
                &&& self.files@[g].contents == self.loaded@[g]
                &&& sites_found(self.files@[g].contents, self.files@[g].sites)
                &&& resolved_by(self.files@[g].contents, self.files@[g].sites, self.files@[g].choices,
                    self.files@[g].text, self.files@)
            } by {
                assert(self.imported().contains(g));
                assert(self.stack().contains(f));
                assert(g != f);
            }
            assert forall|g: Seq<char>| #[trigger] self.files@.contains_key(g) implies self.included(g) by {
                assert(old_self.included(g));
                if exists|i: int| 0 <= i < old_self.frames@.len() && #[trigger] old_self.frames@[i].choices@.contains(
                    Some(g),
                ) {
                    let i = choose|i: int| 0 <= i < old_self.frames@.len() && #[trigger] old_self.frames@[i].choices@.contains(
                        Some(g),
                    );
                    assert(self.frames@[i] == old_self.frames@[i]);
                } else {
                    let h = choose|h: Seq<char>| old_self.files@.contains_key(h) && #[trigger] old_self.files@[h].choices.contains(
                        Some(g),
                    );
                }
            }
            assert(self.frames_ok(true));
        }
        let ghost mid = *self;
        let a = self.advance();
        proof {
            let n = mid.frames@.len();
            assert(mid.frames@[n - 1].file@ == f);
            if regex_captures(import_pattern(), cv).len() == 0 {
                let r = self.files@[f];
                assert(r.sites.len() == 0);
                assert(r.choices.len() == 0);
                assert(r.contents == cv);
                let b = encode_utf8(cv);
                assert(spliced(b, r.sites, pieces_of(r.sites, r.choices, self.files@)) =~= b);
                assert(decode_utf8(encode_utf8(r.text)) == r.text);
                assert(decode_utf8(encode_utf8(cv)) == cv);
            }
        }
        a
    }

    /// Takes the answer to the last action and returns the next action.
    ///
    /// A file found while it is still being resolved further up the chain
    /// of imports is a circular import. A file resolved before is not
    /// included again: a comment takes the place of its import. Any other
    /// file is read, and its text, with its own imports resolved, takes the
    /// place of its import between two comments that name it.
    pub fn step(&mut self, event: ImportEvent) -> (a: ImportAction)
        requires
            old(self).wf(),
        ensures
            final(self).wf(),
            old(self).finished() ==> final(self).finished()
                && a matches ImportAction::Failed(ImportError::UnexpectedEvent),
            forall|f: Seq<char>| old(self).knows(f) ==> final(self).knows(f),
            old(self).imported().is_prefix_of(final(self).imported()),
            final(self).root() == old(self).root(),
            final(self).root_sites() == old(self).root_sites(),
            old(self).files().submap_of(final(self).files()),
            a matches ImportAction::Done(t) ==> resolution_complete(old(self).root(), old(self).root_sites(), t@, *final(self)),
            !old(self).finished() && !old(self).reading() ==> final(self).loaded() == old(self).loaded(),
            !old(self).finished() && !old(self).reading() ==> match event {
                ImportEvent::Resolved { file, dir } => if old(self).stack().contains(file@) {
                    &&& a matches ImportAction::Failed(ImportError::Circular { file: f }) && f@ == file@
                } else if old(self).imported().contains(file@) {
                    &&& !(a is Read)
                    &&& !(a is Failed)
                    &&& skip_recorded(*old(self), *final(self))
                } else {
                    &&& a matches ImportAction::Read { file: f } && f@ == file@
                    &&& final(self).stack() == old(self).stack().push(file@)
                    &&& final(self).imported() == old(self).imported()
                },
                ImportEvent::NotResolved { message } => a matches ImportAction::Failed(
                    ImportError::CannotResolve { path, message: m }) && path@ == old(self).current_path() && m@ == message@,
                _ => a matches ImportAction::Failed(ImportError::UnexpectedEvent),
            },
            !old(self).finished() && old(self).reading() ==> match event {
                ImportEvent::Loaded { contents } => {
                    &&& !(a is Read)
                    &&& !(a is Failed)
                    &&& final(self).loaded() == old(self).loaded().insert(old(self).stack().last(), contents@)
                    &&& regex_captures(import_pattern(), contents@).len() > 0 ==> {
                        &&& a is Resolve
                        &&& final(self).stack() == old(self).stack()
                        &&& final(self).top_source() == contents@
                        &&& final(self).top_choices().len() == 0
                    }
                    &&& regex_captures(import_pattern(), contents@).len() == 0 ==> {
                        &&& final(self).files().contains_key(old(self).stack().last())
                        &&& final(self).files()[old(self).stack().last()].text == contents@
                    }
                },
                ImportEvent::NotLoaded { message } => {
                    &&& final(self).loaded() == old(self).loaded()
                    &&& a matches ImportAction::Failed(ImportError::CannotRead { file, message: m })
                        && file@ == old(self).stack().last() && m@ == message@
                },
                _ => {
                    &&& final(self).loaded() == old(self).loaded()
                    &&& a matches ImportAction::Failed(ImportError::UnexpectedEvent)
                },
            },
            match a {
                ImportAction::Resolve { dir, path } => !final(self).finished() && !final(self).reading()
                    && dir@ == final(self).current_dir() && path@ == final(self).current_path(),
                ImportAction::Read { file } => !final(self).finished() && final(self).reading()
                    && final(self).stack().last() == file@ && !old(self).knows(file@) && final(self).knows(file@),
                _ => final(self).finished(),
            },
    {
        if self.finished {
            return ImportAction::Failed(ImportError::UnexpectedEvent);
        }
        if !self.reading {
            match event {
                ImportEvent::Resolved { file, dir } => {
                    if contains_text(&self.stack, file.as_str()) {
                        self.finished = true;
                        return ImportAction::Failed(ImportError::Circular { file });
                    }
                    if contains_text(&self.imported, file.as_str()) {
                        return self.skip();
                    }
                    let ghost before = self.stack@;
                    self.stack.push(file.clone());
                    self.reading = true;
                    self.reading_dir = dir;
                    proof {
                        assert(texts(self.stack@) =~= texts(before).push(file@));
                        let st = texts(self.stack@);
                        assert forall|i: int, j: int| 0 <= i < j < st.len() implies st[i] != st[j] by {
                            if j == st.len() - 1 {
                                assert(texts(before)[i] == st[i]);
                            }
                        }
                        assert forall|f: Seq<char>| st.contains(f) implies !self.imported().contains(f) by {
                            let i = choose|i: int| 0 <= i < st.len() && st[i] == f;
                            if i < st.len() - 1 {
                                assert(texts(before)[i] == f);
                            }
                        }
                        assert forall|f: Seq<char>| #[trigger] texts(before).contains(f) implies st.contains(f) by {
                            let i = choose|i: int| 0 <= i < texts(before).len() && texts(before)[i] == f;
                            assert(st[i] == f);
                        }
                        assert forall|i: int| 1 <= i < self.frames@.len() implies (#[trigger] self.frames@[i]).file@
                            == self.stack()[i - 1] by {
                            assert(st[i - 1] == texts(before)[i - 1]);
                        }
                        assert(self.imported().is_prefix_of(self.imported()));
                        assert(st[st.len() - 1] == file@);
                    }
                    ImportAction::Read { file }
                },
                ImportEvent::NotResolved { message } => {
                    let n = self.frames.len();
                    let path = self.frames[n - 1].sites[self.frames[n - 1].pieces.len()].path.clone();
                    self.finished = true;
                    proof {
                        assert(self.imported().is_prefix_of(self.imported()));
                    }
                    ImportAction::Failed(ImportError::CannotResolve { path, message })
                },
                _ => {
                    self.finished = true;
                    proof {
                        assert(self.imported().is_prefix_of(self.imported()));
                    }
                    ImportAction::Failed(ImportError::UnexpectedEvent)
                },
            }
        } else {
            match event {
                ImportEvent::Loaded { contents } => self.load(contents),
                ImportEvent::NotLoaded { message } => {
                    let file = self.stack[self.stack.len() - 1].clone();
                    self.finished = true;
                    proof {
                        assert(self.imported().is_prefix_of(self.imported()));
                    }
                    ImportAction::Failed(ImportError::CannotRead { file, message })
                },
                _ => {
                    self.finished = true;
                    proof {
                        assert(self.imported().is_prefix_of(self.imported()));
                    }
                    ImportAction::Failed(ImportError::UnexpectedEvent)
                },
            }
        }
    }
}

/// What one step guarantees about the files the resolver knows: it forgets
/// none, and it reads only a file it did not know, which it then knows.
pub open spec fn step_keeps_files(before: ImportResolver, a: ImportAction, after: ImportResolver) -> bool {
    &&& forall|f: Seq<char>| before.knows(f) ==> after.knows(f)
    &&& (a matches ImportAction::Read { file } ==> !before.knows(file@) && after.knows(file@))
}

proof fn lemma_known_stays(states: Seq<ImportResolver>, actions: Seq<ImportAction>, a: int, b: int, f: Seq<char>)
    requires
        states.len() == actions.len() + 1,
        forall|k: int| 0 <= k < actions.len() ==> step_keeps_files(states[k], #[trigger] actions[k], states[k + 1]),
        0 <= a <= b < states.len(),
        states[a].knows(f),
    ensures
        states[b].knows(f),
    decreases b - a,
{
    if a < b {
        assert(step_keeps_files(states[a], actions[a], states[a + 1]));
        lemma_known_stays(states, actions, a + 1, b, f);
    }
}

/// Resolution reads each file at most once: in a run of steps, two `Read`
/// actions never name the same file.
pub proof fn law_each_file_read_once(states: Seq<ImportResolver>, actions: Seq<ImportAction>, i: int, j: int)
    requires
        states.len() == actions.len() + 1,
        forall|k: int| 0 <= k < actions.len() ==> step_keeps_files(states[k], #[trigger] actions[k], states[k + 1]),
        0 <= i < j < actions.len(),
        actions[i] is Read,
        actions[j] is Read,
    ensures
        actions[i]->Read_file@ != actions[j]->Read_file@,
{
    let f = actions[i]->Read_file@;
    assert(step_keeps_files(states[i], actions[i], states[i + 1]));
    assert(step_keeps_files(states[j], actions[j], states[j + 1]));
    lemma_known_stays(states, actions, i + 1, j, f);
}

} // verus!
