//! Indexing of one note: what is parsed from its text is applied to the link
//! graph and made into the document that the search index stores.
//!
//! Reading files and talking to the search index are the caller's part; the
//! decisions are made here.

use crate::graph::GraphModel;
use crate::linker::LinkGraph;
use crate::parser::{fields_of, links_of, parse_note, tags_of, Frontmatter};
use crate::paths::{eligible, is_note_path, name_of, note_name};
use crate::table::lookup;
use crate::text::{part, to_chars, to_string};
use vstd::prelude::*;
use vstd::string::StringExecFns;

verus! {

/// The number of characters of a note's text that a search result shows.
pub const SNIPPET_LENGTH: usize = 200;

/// What is stored in the search index for one note. A document stored for a
/// path replaces the one stored for it before.
#[derive(Debug, Clone)]
pub struct SearchDocument {
    pub path: String,
    pub title: String,
    pub body: String,
    pub tags: Vec<String>,
}

/// What a `SearchDocument` stands for.
pub struct DocumentView {
    pub path: Seq<char>,
    pub title: Seq<char>,
    pub body: Seq<char>,
    pub tags: Seq<Seq<char>>,
}

impl View for SearchDocument {
    type V = DocumentView;

    open spec fn view(&self) -> DocumentView {
        DocumentView {
            path: self.path@,
            title: self.title@,
            body: self.body@,
            tags: self.tags.deep_view(),
        }
    }
}

/// The title of a note: its front-matter field `title`, or else the name
/// derived from its path.
pub open spec fn title_of(fields: Seq<(Seq<char>, Seq<char>)>, path: Seq<char>) -> Seq<char> {
    match lookup(fields, "title"@) {
        Some(title) => title,
        None => name_of(path),
    }
}

/// The document stored for the note at `path` whose text is `content`.
pub open spec fn document_of(path: Seq<char>, content: Seq<char>) -> DocumentView {
    DocumentView {
        path: path,
        title: title_of(fields_of(content), path),
        body: content,
        tags: tags_of(content),
    }
}

/// `items` with `sep` between them.
pub open spec fn joined(items: Seq<Seq<char>>, sep: char) -> Seq<char>
    decreases items.len(),
{
    if items.len() == 0 {
        Seq::empty()
    } else if items.len() == 1 {
        items[0]
    } else {
        joined(items.drop_last(), sep).push(sep) + items.last()
    }
}

/// The beginning of `body` that a search result shows: all of it, or its
/// first `SNIPPET_LENGTH` characters followed by `...`.
pub open spec fn snippet_of(body: Seq<char>) -> Seq<char> {
    if body.len() > SNIPPET_LENGTH {
        body.take(SNIPPET_LENGTH as int) + seq!['.', '.', '.']
    } else {
        body
    }
}

/// A file found under the vault: its path from the vault's root, and its
/// text where it could be read.
#[derive(Debug, Clone)]
pub struct ScannedFile {
    pub path: String,
    pub content: Option<String>,
}

/// Whether `file` is indexed: it is a note by its path, and it was read.
pub open spec fn is_indexed(file: ScannedFile) -> bool {
    eligible(file.path@) && file.content is Some
}

/// The graph `g` after the notes among `files` have been indexed, in order.
pub open spec fn graph_after(g: GraphModel, files: Seq<ScannedFile>) -> GraphModel
    decreases files.len(),
{
    if files.len() == 0 {
        g
    } else {
        let before = graph_after(g, files.drop_last());
        let file = files.last();
        if is_indexed(file) {
            before.register_note(file.path@).update_links(file.path@, links_of(file.content->0@))
        } else {
            before
        }
    }
}

/// The documents of the notes among `files`, in order.
pub open spec fn documents_of(files: Seq<ScannedFile>) -> Seq<DocumentView>
    decreases files.len(),
{
    if files.len() == 0 {
        Seq::empty()
    } else {
        let before = documents_of(files.drop_last());
        let file = files.last();
        if is_indexed(file) {
            before.push(document_of(file.path@, file.content->0@))
        } else {
            before
        }
    }
}

/// The views of a sequence of documents.
pub open spec fn document_views(documents: Seq<SearchDocument>) -> Seq<DocumentView> {
    Seq::new(documents.len(), |i: int| documents[i]@)
}

/// How a note came to be indexed.
#[derive(Clone, Copy, Debug)]
pub enum IndexMode {
    /// As one of all the notes of a vault: a note that cannot be read or
    /// stored is passed over.
    FullScan,
    /// Alone, on request: a failure is reported.
    SingleFile,
}

/// The title of the note at `path` with the front matter `frontmatter`.
pub fn note_title(frontmatter: &Frontmatter, path: &str) -> (r: String)
    ensures
        r@ == title_of(frontmatter@, path@),
{
    match frontmatter.get("title") {
        Some(title) => title.clone(),
        None => note_name(path),
    }
}

/// Indexes the note at `path` whose text is `content`: registers it in
/// `graph`, replaces its links there by those of `content`, and returns the
/// document to store in the search index. The graph is up to date whatever
/// becomes of the document.
pub fn index_note(graph: &mut LinkGraph, path: &str, content: &str) -> (doc: SearchDocument)
    ensures
        final(graph)@ == old(graph)@.register_note(path@).update_links(path@, links_of(content@)),
        final(graph)@.wf(),
        doc@ == document_of(path@, content@),
{
    let parsed = parse_note(content);
    let title = note_title(&parsed.frontmatter, path);
    graph.register_note(path);
    graph.update_links(path, parsed.links);
    SearchDocument { path: path.to_owned(), title, body: content.to_owned(), tags: parsed.tags }
}

/// Indexes every note among `files`, in order: a file that is no note by its
/// path, or that could not be read, is passed over. Returns the documents to
/// store in the search index; the graph is up to date whatever becomes of
/// them.
pub fn index_vault(graph: &mut LinkGraph, files: &Vec<ScannedFile>) -> (documents: Vec<SearchDocument>)
    ensures
        final(graph)@ == graph_after(old(graph)@, files@),
        document_views(documents@) == documents_of(files@),
{
    let ghost start = graph@;
    let mut documents: Vec<SearchDocument> = Vec::new();
    let mut i: usize = 0;
    while i < files.len()
        invariant
            i <= files.len(),
            graph@ == graph_after(start, files@.take(i as int)),
            document_views(documents@) == documents_of(files@.take(i as int)),
        decreases files.len() - i,
    {
        let file = &files[i];
        proof {
            let head = files@.take(i + 1);
            assert(head.drop_last() =~= files@.take(i as int));
        }
        if is_note_path(file.path.as_str()) {
            match &file.content {
                Some(content) => {
                    let document = index_note(graph, file.path.as_str(), content.as_str());
                    documents.push(document);
                },
                None => {},
            }
        }
        i += 1;
    }
    assert(files@.take(files.len() as int) =~= files@);
    documents
}

/// Indexes anew the note at `path`, of which `read` is the text or the
/// reason why it could not be read. With its text the note is indexed as by
/// `index_note`; without it the graph stays as it is and the reason is
/// handed back.
pub fn reindex_file(graph: &mut LinkGraph, path: &str, read: Result<String, String>) -> (r: Result<
    SearchDocument,
    String,
>)
    ensures
        match read {
            Ok(content) => {
                &&& r is Ok
                &&& r->Ok_0@ == document_of(path@, content@)
                &&& final(graph)@ == old(graph)@.register_note(path@).update_links(
                    path@,
                    links_of(content@),
                )
            },
            Err(reason) => r == Err::<SearchDocument, String>(reason) && final(graph)@ == old(
                graph,
            )@,
        },
{
    match read {
        Ok(content) => Ok(index_note(graph, path, content.as_str())),
        Err(reason) => Err(reason),
    }
}

/// What indexing a note comes to when reading it or storing its document
/// ended in `outcome`: during a full scan a failure is passed over, for a
/// single file it is reported as it is.
pub fn settle(mode: IndexMode, outcome: Result<(), String>) -> (r: Result<(), String>)
    ensures
        mode is FullScan ==> r is Ok,
        mode is SingleFile ==> r == outcome,
{
    match mode {
        IndexMode::FullScan => Ok(()),
        IndexMode::SingleFile => outcome,
    }
}

/// The tags of a document as one text, a space between them.
pub fn join_tags(tags: &Vec<String>) -> (r: String)
    ensures
        r@ == joined(tags.deep_view(), ' '),
{
    let mut out = String::new();
    let mut i: usize = 0;
    while i < tags.len()
        invariant
            i <= tags.len(),
            out@ == joined(tags.deep_view().take(i as int), ' '),
        decreases tags.len() - i,
    {
        proof {
            let head = tags.deep_view().take(i + 1);
            assert(head.drop_last() =~= tags.deep_view().take(i as int));
        }
        if i > 0 {
            out.push(' ');
        }
        out.append(tags[i].as_str());
        i += 1;
    }
    assert(tags.deep_view().take(tags.len() as int) =~= tags.deep_view());
    out
}

/// The beginning of `body` that a search result shows.
pub fn make_snippet(body: &str) -> (r: String)
    ensures
        r@ == snippet_of(body@),
{
    let chars = to_chars(body);
    if chars.len() > SNIPPET_LENGTH {
        let mut out = to_string(part(chars.as_slice(), 0, SNIPPET_LENGTH));
        out.push('.');
        out.push('.');
        out.push('.');
        out
    } else {
        body.to_owned()
    }
}

} // verus!
